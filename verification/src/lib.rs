//! Parser for ArduPilot DataFlash BIN log files.
//!
//! The format is self-describing: message schemas are discovered from FMT
//! messages within the data, so no message definitions are hard-coded.
pub mod endian;
pub mod error;
pub mod value;
pub mod text;
pub mod format;
pub mod entry;
pub mod reader;
pub mod file;

pub use entry::Entry;
pub use error::BinlogError;
pub use file::File;
pub use format::MessageFormat;
pub use reader::Reader;
pub use value::{FieldValue, FloatValue};

use vstd::prelude::*;

verus! {

/// First byte of every message header.
pub const HEADER_MAGIC_0: u8 = 0xA3;

/// Second byte of every message header.
pub const HEADER_MAGIC_1: u8 = 0x95;

/// Message type of FMT messages, which define the other message types.
pub const FMT_TYPE: u8 = 0x80;

} // verus!
