//! Two small verified puzzle utilities.
//!
//! - [`dial`]: a pointer on a circular dial of fixed size that applies
//!   left/right rotation commands and counts how often it lands on or
//!   sweeps across position zero.
//! - [`invalidids`]: parsing of textual "min-max" ranges and counting of
//!   integers whose decimal representation is two identical halves.

pub mod digits;
pub mod dial;
pub mod invalidids;
