//! Decimal numbers as `rust_decimal` represents them, held as plain values.
use rust_decimal::Decimal;
use std::cmp::Ordering;
use vstd::prelude::*;

verus! {

/// The largest magnitude of a mantissa: 2^96 - 1.
pub const MAX_MANTISSA: i128 = 0xFFFF_FFFF_FFFF_FFFF_FFFF_FFFF;

/// The largest scale: 28 decimal places.
pub const MAX_SCALE: u32 = 28;

/// The number `mantissa / 10^scale`, with the bounds of a `rust_decimal::Decimal`.
#[derive(Clone, Copy, Debug)]
pub struct Dec {
    mantissa: i128,
    scale: u32,
}

/// `10^n`.
pub open spec fn pow10(n: nat) -> int
    decreases n,
{
    if n == 0 {
        1
    } else {
        10 * pow10((n - 1) as nat)
    }
}

/// The parts `(mantissa, scale)` fit a `rust_decimal::Decimal`.
pub open spec fn valid_parts(v: (int, nat)) -> bool {
    -MAX_MANTISSA <= v.0 <= MAX_MANTISSA && v.1 <= MAX_SCALE
}

/// The value of `a` is at most the value of `b`, decimals given as
/// `(mantissa, scale)`: `a.0 / 10^a.1 <= b.0 / 10^b.1`.
pub open spec fn value_leq(a: (int, nat), b: (int, nat)) -> bool {
    a.0 * pow10(b.1) <= b.0 * pow10(a.1)
}

/// The value of `a` is strictly below the value of `b`.
pub open spec fn value_lt(a: (int, nat), b: (int, nat)) -> bool {
    !value_leq(b, a)
}

impl View for Dec {
    type V = (int, nat);

    /// The parts `(mantissa, scale)`.
    closed spec fn view(&self) -> (int, nat) {
        (self.mantissa as int, self.scale as nat)
    }
}

impl Dec {
    #[verifier::type_invariant]
    spec fn inv(self) -> bool {
        valid_parts(self@)
    }

    /// The decimal `mantissa / 10^scale`, where the parts fit a
    /// `rust_decimal::Decimal`.
    pub fn from_parts(mantissa: i128, scale: u32) -> (r: Option<Dec>)
        ensures
            r is Some <==> valid_parts((mantissa as int, scale as nat)),
            r matches Some(d) ==> d@ == (mantissa as int, scale as nat),
    {
        if -MAX_MANTISSA <= mantissa && mantissa <= MAX_MANTISSA && scale <= MAX_SCALE {
            Some(Dec { mantissa, scale })
        } else {
            None
        }
    }

    /// Zero, at scale 0.
    pub fn zero() -> (r: Dec)
        ensures
            r@ == (0int, 0nat),
    {
        Dec { mantissa: 0, scale: 0 }
    }

    pub fn mantissa(&self) -> (r: i128)
        ensures
            r == self@.0,
            valid_parts(self@),
    {
        proof {
            use_type_invariant(self);
        }
        self.mantissa
    }

    pub fn scale(&self) -> (r: u32)
        ensures
            r == self@.1,
            valid_parts(self@),
    {
        proof {
            use_type_invariant(self);
        }
        self.scale
    }
}

/// The outcome of comparing two values.
#[derive(Clone, Copy, Debug, PartialEq, Eq, Structural)]
pub enum ValueOrder {
    Less,
    Equal,
    Greater,
}

pub proof fn lemma_pow10_positive(n: nat)
    ensures
        pow10(n) > 0,
    decreases n,
{
    if n > 0 {
        lemma_pow10_positive((n - 1) as nat);
    }
}

pub proof fn lemma_value_leq_transitive(a: (int, nat), b: (int, nat), c: (int, nat))
    requires
        value_leq(a, b),
        value_leq(b, c),
    ensures
        value_leq(a, c),
{
    let pa = pow10(a.1);
    let pb = pow10(b.1);
    let pc = pow10(c.1);
    lemma_pow10_positive(a.1);
    lemma_pow10_positive(b.1);
    lemma_pow10_positive(c.1);
    let (x, y, z) = (a.0, b.0, c.0);
    assert(x * pb * pc <= y * pa * pc) by (nonlinear_arith)
        requires
            x * pb <= y * pa,
            pc > 0,
    ;
    assert(y * pc * pa <= z * pb * pa) by (nonlinear_arith)
        requires
            y * pc <= z * pb,
            pa > 0,
    ;
    assert(x * pc * pb <= z * pa * pb) by (nonlinear_arith)
        requires
            x * pb * pc <= y * pa * pc,
            y * pc * pa <= z * pb * pa,
    ;
    assert(x * pc <= z * pa) by (nonlinear_arith)
        requires
            x * pc * pb <= z * pa * pb,
            pb > 0,
    ;
}

/// `value_leq` is transitive on any arrangement of three decimals.
pub proof fn lemma_value_leq_transitive_all(a: (int, nat), b: (int, nat), c: (int, nat))
    ensures
        value_leq(a, b) && value_leq(b, c) ==> value_leq(a, c),
        value_leq(a, c) && value_leq(c, b) ==> value_leq(a, b),
        value_leq(b, a) && value_leq(a, c) ==> value_leq(b, c),
        value_leq(b, c) && value_leq(c, a) ==> value_leq(b, a),
        value_leq(c, a) && value_leq(a, b) ==> value_leq(c, b),
        value_leq(c, b) && value_leq(b, a) ==> value_leq(c, a),
{
    if value_leq(a, b) && value_leq(b, c) {
        lemma_value_leq_transitive(a, b, c);
    }
    if value_leq(a, c) && value_leq(c, b) {
        lemma_value_leq_transitive(a, c, b);
    }
    if value_leq(b, a) && value_leq(a, c) {
        lemma_value_leq_transitive(b, a, c);
    }
    if value_leq(b, c) && value_leq(c, a) {
        lemma_value_leq_transitive(b, c, a);
    }
    if value_leq(c, a) && value_leq(a, b) {
        lemma_value_leq_transitive(c, a, b);
    }
    if value_leq(c, b) && value_leq(b, a) {
        lemma_value_leq_transitive(c, b, a);
    }
}

/// `value_leq` is a total preorder.
pub proof fn lemma_value_order()
    ensures
        forall|a: (int, nat)| #[trigger] value_leq(a, a),
        forall|a: (int, nat), b: (int, nat)| #[trigger] value_leq(a, b) || #[trigger] value_leq(b, a),
        forall|a: (int, nat), b: (int, nat), c: (int, nat)|
            #[trigger] value_leq(a, b) && #[trigger] value_leq(b, c) ==> value_leq(a, c),
{
    assert forall|a: (int, nat), b: (int, nat), c: (int, nat)|
        #[trigger] value_leq(a, b) && #[trigger] value_leq(b, c) implies value_leq(a, c) by {
        lemma_value_leq_transitive(a, b, c);
    }
}

/// The order of the values of `a` and `b`.
pub open spec fn value_order(a: (int, nat), b: (int, nat)) -> ValueOrder {
    if value_lt(a, b) {
        ValueOrder::Less
    } else if value_lt(b, a) {
        ValueOrder::Greater
    } else {
        ValueOrder::Equal
    }
}

/// Compares two decimals with `rust_decimal`'s `Ord for Decimal`, which orders
/// decimals by value: `1.0` and `1.00` compare equal.
#[verifier::external_body]
fn compare_decimals(a: &Dec, b: &Dec) -> (r: ValueOrder)
    ensures
        r == value_order(a@, b@),
{
    let x = Decimal::from_i128_with_scale(a.mantissa, a.scale);
    let y = Decimal::from_i128_with_scale(b.mantissa, b.scale);
    match x.cmp(&y) {
        Ordering::Less => ValueOrder::Less,
        Ordering::Equal => ValueOrder::Equal,
        Ordering::Greater => ValueOrder::Greater,
    }
}

impl Dec {
    /// Compares by value.
    pub fn compare(&self, other: &Dec) -> (r: ValueOrder)
        ensures
            r == value_order(self@, other@),
    {
        compare_decimals(self, other)
    }
}

/// The parts of an optional decimal.
pub open spec fn parts_of(d: Option<Dec>) -> Option<(int, nat)> {
    match d {
        Some(d) => Some(d@),
        None => None,
    }
}

/// Both decimals have the same scale, and the difference of their mantissas
/// fits a mantissa.
pub open spec fn same_scale_difference_fits(a: (int, nat), b: (int, nat)) -> bool {
    a.1 == b.1 && -MAX_MANTISSA <= a.0 - b.0 <= MAX_MANTISSA
}

/// What `rust_decimal`'s `Decimal::checked_sub` returns for two decimals given
/// as `(mantissa, scale)`: the difference, rounded where it does not fit, or
/// `None` where it overflows.
pub uninterp spec fn decimal_difference(a: (int, nat), b: (int, nat)) -> Option<(int, nat)>;

/// Subtracts with `rust_decimal`'s `Decimal::checked_sub`. The contract names
/// the result, and states the case that the crate's addition code computes
/// exactly: equal scales and a difference that fits the mantissa. Where the
/// difference needs rounding, what it rounds to is left unsaid.
#[verifier::external_body]
fn subtract_decimals(a: &Dec, b: &Dec) -> (r: Option<Dec>)
    ensures
        parts_of(r) == decimal_difference(a@, b@),
        same_scale_difference_fits(a@, b@) ==> parts_of(r) == Some((a@.0 - b@.0, a@.1)),
{
    let x = Decimal::from_i128_with_scale(a.mantissa, a.scale);
    let y = Decimal::from_i128_with_scale(b.mantissa, b.scale);
    match x.checked_sub(y) {
        Some(d) => Some(Dec { mantissa: d.mantissa(), scale: d.scale() }),
        None => None,
    }
}

impl Dec {
    /// `self - other`, or `None` where the difference overflows a decimal.
    pub fn checked_sub(&self, other: &Dec) -> (r: Option<Dec>)
        ensures
            parts_of(r) == decimal_difference(self@, other@),
            same_scale_difference_fits(self@, other@) ==> parts_of(r) == Some(
                (self@.0 - other@.0, self@.1),
            ),
    {
        subtract_decimals(self, other)
    }
}

} // verus!
