//! A small workbook of verified components: list comparison, array search
//! and primes, a configurable fizz-buzz engine, a phone-number word
//! dictionary with its encoding report, plane-figure containment, and the
//! render target's pixel buffer. A separate application crate drives them
//! and hosts the floating-point ray tracer that Verus cannot check.

pub mod algs;
pub mod figures;
pub mod fizzbuzz;
pub mod frame;
pub mod phone;
pub mod sublist;
