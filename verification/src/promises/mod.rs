//! What the operations promise.
//!
//! Every law here is stated over what an operation is given and what it answers, in words of its
//! own rather than by the function that the operation is specified with.
pub mod arguments;
pub mod complaints;
pub mod databases;
pub mod drawings;
pub mod hashes;
pub mod languages;
pub mod listings;
pub mod literals;
pub mod members;
pub mod notes;
pub mod reports;
pub mod scans;
pub mod states;
pub mod texts;
pub mod times;
