//! Reading of Rich Text Format.
pub mod formatting;
pub mod tables;
pub mod tracker;
pub mod words;
