//! Generation of gRPC proto descriptions from FlatBuffers schemas.
//!
//! `text` holds the string operations the rest of the crate is built on,
//! `pattern` the calls into the regex engine, `schema` the reading of
//! declarations out of `.fbs` schemas, `tree` the namespace forest built from
//! them and `proto_file_builder` the rendering of proto files from that
//! forest. `builder` holds the build options and the reading of service
//! definitions, `generate` the other texts of a build and `postprocess` the
//! edits made to the generated Rust code.
pub mod text;
pub mod tree;
pub mod pattern;
pub mod schema;
pub mod proto_file_builder;
pub mod builder;
pub mod generate;
pub mod postprocess;
