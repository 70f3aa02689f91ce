//! An in-process key-value store over structured values, with whole-store
//! snapshot export and import in two textual formats (JSON and CSV).
//!
//! The store maps string keys to [`value::Value`] instances and offers
//! `set` / `get` / `remove` plus snapshot encoding and decoding with exact
//! contracts: the JSON snapshot round-trips every value with full fidelity,
//! while the CSV snapshot is deliberately lossy on read (every reloaded
//! value is a string holding the textual rendering of the original).

pub mod csv;
pub mod fileformat;
pub mod json;
pub mod store;
pub mod value;
