//! envsync: parse, diff, merge and validate `.env` files.
//!
//! The library is written in Verus; every executable function carries a
//! contract over a mathematical model of the text it reads and writes.
pub mod text;
pub mod literal;
pub mod sync;
pub mod validate;
pub mod commands;
