//! The pack storage engine: pack indices, pack data, delta resolution with a
//! decode cache, bundles, compound and linked databases, integrity checks.
pub mod header;
pub mod delta;
pub mod index;
pub mod data;
pub mod cache;
pub mod decode;
pub mod bundle;
pub mod db;
pub mod verify;
pub mod write;
pub mod output;
