//! Options of one extraction.
use crate::security::SecurityLimits;
use vstd::prelude::*;

verus! {

/// Options for delimited text.
#[derive(Clone, Debug)]
pub struct CsvConfig {
    /// The delimiter to use in place of a detected one; only its first character counts.
    pub delimiter: Option<String>,
    /// What a comment line starts with.
    pub comment_prefixes: Vec<String>,
}

/// Options for geographic data.
#[derive(Clone, Copy, Debug)]
pub struct GeoJsonExtractionConfig {
    /// Whether to keep the whole document in place of a summary.
    pub include_full_coordinates: bool,
}

/// How a document is to be rendered.
#[derive(Clone, Debug)]
pub enum OutputFormat {
    /// As plain text.
    Plain,
    /// As Markdown.
    Markdown,
    /// As HTML.
    Html,
    /// By the renderer of a name.
    Custom(String),
}

/// What a document of source code holds.
#[derive(Clone, Copy, Debug, PartialEq, Eq, Structural)]
pub enum CodeContentMode {
    /// The pieces of the source under headings.
    Chunks,
    /// The whole source.
    Raw,
    /// The headings alone.
    Structure,
}

/// Options for what is read from source code.
#[derive(Clone, Copy, Debug)]
pub struct TreeSitterProcessConfig {
    /// What the document holds.
    pub content_mode: CodeContentMode,
    /// Whether structured data are read as such.
    pub data_extraction: bool,
}

/// Options for source code.
#[derive(Clone, Debug)]
pub struct TreeSitterConfig {
    /// Whether source code is parsed at all.
    pub enabled: bool,
    /// Where grammars are kept.
    pub cache_dir: Option<String>,
    /// The languages whose grammars are fetched beforehand.
    pub languages: Option<Vec<String>>,
    /// The groups of languages whose grammars are fetched beforehand.
    pub groups: Option<Vec<String>>,
    /// What is read.
    pub process: TreeSitterProcessConfig,
}

impl Default for TreeSitterConfig {
    fn default() -> (r: Self)
        ensures
            r.enabled,
            r.cache_dir is None,
            r.languages is None,
            r.groups is None,
            r.process.content_mode == CodeContentMode::Chunks,
            !r.process.data_extraction,
    {
        TreeSitterConfig {
            enabled: true,
            cache_dir: None,
            languages: None,
            groups: None,
            process: TreeSitterProcessConfig { content_mode: CodeContentMode::Chunks, data_extraction: false },
        }
    }
}

/// Options for text recognition.
#[derive(Clone, Copy, Debug)]
pub struct OcrConfig {
    /// Whether misread numbers are repaired.
    pub numeric_repair: bool,
}

impl Default for OcrConfig {
    fn default() -> (r: Self)
        ensures
            !r.numeric_repair,
    {
        OcrConfig { numeric_repair: false }
    }
}

/// Options of one extraction.
#[derive(Clone, Debug)]
pub struct ExtractionConfig {
    /// Ceilings to enforce in place of the default ones.
    pub security_limits: Option<SecurityLimits>,
    /// Options for delimited text.
    pub csv: Option<CsvConfig>,
    /// Options for geographic data.
    pub geojson: Option<GeoJsonExtractionConfig>,
    /// How the document is to be rendered.
    pub output_format: OutputFormat,
    /// Options for source code.
    pub tree_sitter: Option<TreeSitterConfig>,
    /// Options for text recognition.
    pub ocr: Option<OcrConfig>,
    /// The name that the source goes by.
    pub source_name: Option<String>,
}

impl Default for ExtractionConfig {
    fn default() -> (r: Self)
        ensures
            r.security_limits is None,
            r.csv is None,
            r.geojson is None,
            r.output_format is Plain,
            r.tree_sitter is None,
            r.ocr is None,
            r.source_name is None,
    {
        ExtractionConfig {
            security_limits: None,
            csv: None,
            geojson: None,
            output_format: OutputFormat::Plain,
            tree_sitter: None,
            ocr: None,
            source_name: None,
        }
    }
}

} // verus!
