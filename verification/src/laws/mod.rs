//! What holds of the functions of the library as seen from outside: relations between what goes in and what
//! comes out, for all inputs.
pub mod csv;
pub mod delimited;
pub mod details;
pub mod documents;
pub mod excel;
pub mod geojson;
pub mod metadata;
pub mod myst;
pub mod names;
pub mod notebook;
pub mod repairs;
pub mod rich_text;
pub mod roles;
pub mod rtf;
pub mod security;
pub mod structured;
pub mod text;
pub mod workbook;
