//! Extensions for the official ClickHouse client: the Native columnar codec,
//! runtime-schema inserts and typed server errors.

pub mod dynamic;
pub mod error;
pub mod ext;
pub mod native;
pub mod text;
