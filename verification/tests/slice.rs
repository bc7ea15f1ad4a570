use rusty_markets::lsl::slice::sort_descending;
use rusty_markets::market::data::Ask;
use rusty_markets::market::decimal::Dec;

#[test]
fn sort_descending_example() {
    let mut x = [1, 3, 2];
    sort_descending(&mut x);
    assert_eq!(x, [3, 2, 1]);
}

#[test]
fn sort_descending_handles_duplicates_and_empty() {
    let mut x = [4, -2, 4, 0, 7, -2];
    sort_descending(&mut x);
    assert_eq!(x, [7, 4, 4, 0, -2, -2]);
    let mut e: [i32; 0] = [];
    sort_descending(&mut e);
    assert!(e.is_empty());
}

fn ask(order_id: usize, price: i128, scale: u32) -> Ask {
    Ask {
        exchange_id: 0,
        book_id: 0,
        order_id,
        price: Dec::from_parts(price, scale).unwrap(),
        amount: Dec::from_parts(1, 0).unwrap(),
    }
}

#[test]
fn sort_descending_is_stable() {
    // 1.0 and 1.00 are the same price: those two asks compare equal, and keep
    // their order.
    let mut x = [ask(7, 10, 1), ask(1, 5, 0), ask(7, 100, 2)];
    sort_descending(&mut x);
    assert_eq!(x[0].price.mantissa(), 5);
    assert_eq!((x[1].price.mantissa(), x[1].price.scale()), (10, 1));
    assert_eq!((x[2].price.mantissa(), x[2].price.scale()), (100, 2));
}
