//! Per-key statistics over `<key>;<value>` records.
//!
//! The input is a region of bytes holding one record per line. Every value is
//! a decimal with exactly one fractional digit and is kept as a whole number
//! of tenths. For each key the library keeps the count, the least value, the
//! greatest value and the exact total, and it renders a single summary line
//! `{k1=min/mean/max, ..., kn=min/mean/max}` with the keys in ascending byte
//! order.

pub mod error;
pub mod decode;
pub mod key;
pub mod scan;
pub mod table;
pub mod aggregate;
pub mod report;
