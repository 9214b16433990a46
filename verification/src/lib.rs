//! A structured-logging adapter core: it accumulates fields recorded on
//! nested scopes, tracks each scope's wall-clock lifetime, and renders one
//! line-delimited JSON record per loggable occurrence, merging the fields of
//! every enclosing scope into the record.
//!
//! The host instrumentation engine (scope creation, callback dispatch, the
//! output sink) is an external collaborator: it drives the callbacks on
//! [`compat_layer::CompatLayer`] and writes the returned lines to its sink.

pub mod compat_layer;
pub mod duration;
pub mod fields;
pub mod grammar;
pub mod json;
pub mod laws;
pub mod scope;
pub mod text;
pub mod value;
