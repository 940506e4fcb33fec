//! An in-memory time-series database: chunk compression, storage with
//! retention, and the rules of its query interface.
pub mod bits;
pub mod catalog;
pub mod clock;
pub mod codec;
pub mod find;
pub mod format_laws;
pub mod glob;
pub mod gorilla;
pub mod name_laws;
pub mod names;
pub mod number;
pub mod request;
pub mod request_laws;
pub mod resample;
pub mod retention;
pub mod series;
pub mod settings;
pub mod shard;
pub mod store;
pub mod store_laws;
pub mod time_range;
