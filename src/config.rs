//! The git configuration file: its event stream, a parser from bytes, and a
//! reader/writer over sections, subsections and keys.
pub mod event;
pub mod parse;
pub mod values;
pub mod file;
