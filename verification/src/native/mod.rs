//! The Native columnar block format, independent of the transport that
//! carries it.

pub mod address;
pub mod buffers;
pub mod call_laws;
pub mod canonical;
pub mod column_laws;
pub mod columns;
pub mod consistency;
pub mod decode;
pub mod decode_laws;
pub mod decode_locality;
pub mod decoded;
pub mod dictionary;
pub mod document_laws;
pub mod encode;
pub mod encode_laws;
pub mod format_laws;
pub mod io;
pub mod json;
pub mod json_laws;
pub mod json_locality;
pub mod label;
pub mod laws;
pub mod locality;
pub mod name_laws;
pub mod names;
pub mod object_laws;
pub mod quote;
pub mod read_laws;
pub mod reader;
pub mod render_laws;
pub mod rewrite;
pub mod row_laws;
pub mod skip_locality;
pub mod texts;
pub mod values;
