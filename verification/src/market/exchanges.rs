pub mod bitstamp;
