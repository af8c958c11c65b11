//! Rules of a small uploader for archive.org items.
//!
//! The library says which programs to run and what came of running them, which
//! files were selected, and what to show. It runs nothing and reads nothing itself.

pub mod account;
pub mod bytes;
pub mod command;
pub mod ia;
pub mod identifier;
pub mod item;
pub mod json;
pub mod order;
pub mod path;
pub mod sources;
pub mod stream;
pub mod text;
pub mod upload;
