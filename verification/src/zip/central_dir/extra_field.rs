//! P4K-specific extra field IDs.

use vstd::prelude::*;

verus! {

/// ZIP64 extended information extra field.
pub const ZIP64: u16 = 0x0001;

/// P4K ZIP64 total extra field size, including the 4-byte field header.
pub const ZIP64_TOTAL_SIZE: u16 = 0x20;

/// P4K signature field.
pub const P4K_5000: u16 = 0x5000;

/// Total byte size of field 0x5000, including the field header.
pub const P4K_5000_TOTAL_SIZE: u16 = 0x84;

/// P4K encryption flag field.
pub const P4K_5002: u16 = 0x5002;

/// Total byte size of field 0x5002, including the field header.
pub const P4K_5002_TOTAL_SIZE: u16 = 0x06;

/// P4K digest field.
pub const P4K_5003: u16 = 0x5003;

/// Total byte size of field 0x5003, including the field header.
pub const P4K_5003_TOTAL_SIZE: u16 = 0x24;

/// Field that fills the rest of a v1 local header sector.
pub const FILLER: u16 = 0x0666;

} // verus!
