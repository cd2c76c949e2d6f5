//! Creation of archives, and conversion of v1 archives to v2.

pub mod adding;
pub mod builder;
pub mod builder_laws;
pub mod convert;
pub mod convert_laws;
pub mod deferred;
pub mod directory_v1;
pub mod dump;
pub mod fresh;
pub mod image_v1;
pub mod image_v2;
pub mod layout_laws;
pub mod options;
pub mod placed_v1;
pub mod read_back_v1;
pub mod read_back_v2;
pub mod read_v1;
pub mod round_trip_convert;
pub mod round_trip_v1;
pub mod round_trip_v2;
pub mod staged;
pub mod tail;
pub mod write_laws;
