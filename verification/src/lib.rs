//! The decision-making core of a document extraction toolkit: security budgets, delimited-text
//! parsing, format-specific readers and the document model they fill.
pub mod code;
pub mod confidence;
pub mod config;
pub mod csv;
pub mod diagnostics;
pub mod doc;
pub mod document;
pub mod encoding;
pub mod epub_text;
pub mod error;
pub mod excel;
pub mod geojson;
pub mod json;
pub mod keywords;
pub mod language;
pub mod laws;
pub mod list_markers;
pub mod lookup;
pub mod myst;
pub mod numeric_repair;
pub mod page_ocr;
pub mod patterns;
pub mod plugin;
pub mod registry;
pub mod rtf;
pub mod security;
pub mod structured;
pub mod table_model;
pub mod text;
pub mod visio;
pub mod xml;
