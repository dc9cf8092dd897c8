//! Per-processor records read from the text of a processor information listing: one block of
//! `key : value` lines per logical processor, each block closed by its `power management` line,
//! with one record kept per physical id.

pub mod laws;
pub mod parse;
pub mod record;
pub mod text;

pub use parse::ParseError;
pub use record::{CpuInfo, CPU};
