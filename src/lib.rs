//! Streaming decoder for sealed value-log segments.
//!
//! A segment is an immutable byte sequence holding zero or more record blocks
//! followed by one footer block. The [`reader::Reader`] walks it forward and
//! yields each record's key, value and stored checksum, stopping at the
//! footer magic or at a torn trailing block.

pub mod format;
pub mod reader;
pub mod segment;
