//! A parser for the Redis serialization protocol (RESP): simple strings,
//! integers, bulk strings and arrays, read from the front of a byte buffer.
//!
//! - [`frame`] says what each kind of frame means, over bytes;
//! - [`parser`] parses frames out of a `bytes::BytesMut`, each function
//!   proved to do what the matching spec function of [`frame`] says;
//! - [`decimal`] reads the decimal numbers that frames carry;
//! - [`laws`] states and proves what holds of the parser as a whole;
//! - [`buffer`] and [`utf8`] hold the trusted contracts of the `bytes`
//!   crate and of `std::str::from_utf8`.

pub mod buffer;
pub mod decimal;
pub mod error;
pub mod frame;
pub mod laws;
pub mod parser;
pub mod utf8;
