//! P4K archive reader.

pub mod archive_laws;
pub mod freelist;
pub mod freelist_laws;
pub mod local;
pub mod local_laws;
pub mod model;
pub mod payload;
pub mod placement;
pub mod reader;
pub mod reader_laws;
pub mod v1;
pub mod v1_install;
pub mod v1_laws;
pub mod v1_records;
pub mod v1_spans;
pub mod v2;
pub mod v2_laws;
pub mod v2_names;
