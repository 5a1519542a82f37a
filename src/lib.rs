//! Object storage for a git-compatible toolkit: pack indices and pack data,
//! delta resolution with a decode cache, bundles and compound databases,
//! integrity verification, and the git configuration file model.
pub mod bytes;
pub mod config;
pub mod oid;
pub mod digest;
pub mod pack;
pub mod http;
pub mod interrupt;
