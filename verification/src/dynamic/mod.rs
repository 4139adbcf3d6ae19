//! Insert rows whose shape is only known at run time.
//!
//! A [`schema::DynamicSchema`] read from `system.columns` drives a per-column
//! `RowBinary` encoder over JSON rows, so a caller with no compile-time row
//! struct still puts binary on the wire instead of `JSONEachRow`.

pub mod answers;
pub mod call_laws;
pub mod encode;
pub mod error;
pub mod identifier_laws;
pub mod identifiers;
pub mod insert;
pub mod insert_laws;
pub mod parsed_laws;
pub mod parsed_type;
pub mod refusal_laws;
pub mod row_binary;
pub mod scalars;
pub mod schema;
pub mod sql;
pub mod time;
pub mod time_laws;
pub mod type_laws;
pub mod value;
pub mod value_laws;
pub mod wire_laws;
