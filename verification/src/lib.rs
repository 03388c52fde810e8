//! Nested integer-list packets.
//!
//! A packet is a bracketed, arbitrarily nested list of signed integers,
//! such as `[[1],[2,3,4]]`.  This crate offers:
//!
//! - [`datum::PacketDatum`]: the recursive value, an integer leaf or an
//!   ordered list of child datums, with a total coercing order;
//! - a single-pass parser from text to a `PacketDatum` tree
//!   (`str::parse`, in [`datum::parser`]);
//! - [`parser::PacketParser`]: a packet read as a vector of datums.

pub mod datum;
pub mod parser;
