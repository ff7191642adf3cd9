//! Errors of the toolkit, and how they are reported to clients of the tool protocol.
use crate::security::SecurityError;
use crate::text;
use crate::text::push_decimal;
use vstd::prelude::*;

verus! {

/// Why an operation failed. A `source` is the text of the error that caused it.
#[derive(Clone, Debug)]
pub enum XbergError {
    /// An argument is not acceptable.
    Validation { message: String, source: Option<String> },
    /// No reader takes the media type.
    UnsupportedFormat(String),
    /// Something has to be installed first.
    MissingDependency(String),
    /// A document could not be read.
    Parsing { message: String, source: Option<String> },
    /// The operating system reported an error.
    Io(String),
    /// Text recognition failed.
    Ocr { message: String, source: Option<String> },
    /// The cache failed.
    Cache { message: String, source: Option<String> },
    /// An image could not be processed.
    ImageProcessing { message: String, source: Option<String> },
    /// A value could not be serialised.
    Serialization { message: String, source: Option<String> },
    /// An embedding could not be computed.
    Embedding { message: String, source: Option<String> },
    /// A plugin failed.
    Plugin { message: String, plugin_name: String },
    /// A lock was left in an unknown state.
    LockPoisoned(String),
    /// The operation took too long.
    Timeout { elapsed_ms: u64, limit_ms: u64 },
    /// Anything else.
    Other(String),
    /// The operation was cancelled.
    Cancelled,
    /// The document went past a limit.
    Security { message: String, source: Option<String> },
    /// Speech recognition failed.
    Transcription { message: String, source: Option<String> },
    /// Reranking failed.
    Reranking { message: String, source: Option<String> },
}

/// How an error is classified for clients of the tool protocol.
#[derive(Clone, Copy, Debug, PartialEq, Eq, Structural)]
pub enum McpErrorCategory {
    /// The request is at fault.
    InvalidParams,
    /// The document is at fault.
    ParseError,
    /// The client cancelled.
    Cancelled,
    /// The server is at fault.
    Internal,
}

/// An error as a client of the tool protocol sees it.
#[derive(Clone, Debug, PartialEq, Eq)]
pub struct McpError {
    /// Its JSON-RPC code.
    pub code: i32,
    /// Its text.
    pub message: String,
}

/// A prefixed message, followed by its cause where it has one.
pub open spec fn caused(prefix: Seq<char>, message: Seq<char>, source: Option<String>) -> Seq<char> {
    let head = prefix + ": "@ + message;
    match source {
        Some(cause) => head + " (caused by: "@ + cause@ + ")"@,
        None => head,
    }
}

impl XbergError {
    /// How the error is classified.
    pub open spec fn spec_category(self) -> McpErrorCategory {
        match self {
            XbergError::Validation { .. } | XbergError::UnsupportedFormat(_) | XbergError::MissingDependency(_)
            | XbergError::Security { .. } => McpErrorCategory::InvalidParams,
            XbergError::Parsing { .. } => McpErrorCategory::ParseError,
            XbergError::Cancelled => McpErrorCategory::Cancelled,
            _ => McpErrorCategory::Internal,
        }
    }

    /// What clients of the tool protocol are told.
    pub open spec fn spec_message(self) -> Seq<char> {
        match self {
            XbergError::Validation { message, source } => caused("Validation error"@, message@, source),
            XbergError::UnsupportedFormat(mime_type) => "Unsupported format: "@ + mime_type@,
            XbergError::MissingDependency(dep) => "Missing required dependency: "@ + dep@
                + ". Please install it to use this feature."@,
            XbergError::Parsing { message, source } => caused("Parsing error"@, message@, source),
            XbergError::Io(error) => "System I/O error: "@ + error@,
            XbergError::Ocr { message, source } => caused("OCR processing error"@, message@, source),
            XbergError::Cache { message, source } => caused("Cache error"@, message@, source),
            XbergError::ImageProcessing { message, source } => caused("Image processing error"@, message@, source),
            XbergError::Serialization { message, source } => caused("Serialization error"@, message@, source),
            XbergError::Embedding { message, source } => caused("Embedding error"@, message@, source),
            XbergError::Plugin { message, plugin_name } => "Plugin '"@ + plugin_name@ + "' error: "@ + message@,
            XbergError::LockPoisoned(message) => "Internal lock poisoned: "@ + message@,
            XbergError::Timeout { elapsed_ms, limit_ms } => "Extraction timed out after "@ + text::decimal(
                elapsed_ms as nat,
            ) + "ms (limit: "@ + text::decimal(limit_ms as nat) + "ms)"@,
            XbergError::Other(message) => message@,
            XbergError::Cancelled => "Extraction cancelled"@,
            XbergError::Security { message, source } => caused("Security violation"@, message@, source),
            XbergError::Transcription { message, source } => caused("Transcription error"@, message@, source),
            XbergError::Reranking { message, source } => caused("Reranking error"@, message@, source),
        }
    }

    /// How the error is classified.
    pub fn mcp_error_category(&self) -> (r: McpErrorCategory)
        ensures
            r == self.spec_category(),
    {
        match self {
            XbergError::Validation { .. } | XbergError::UnsupportedFormat(_) | XbergError::MissingDependency(_)
            | XbergError::Security { .. } => McpErrorCategory::InvalidParams,
            XbergError::Parsing { .. } => McpErrorCategory::ParseError,
            XbergError::Cancelled => McpErrorCategory::Cancelled,
            _ => McpErrorCategory::Internal,
        }
    }

    /// A validation error without a cause.
    pub fn validation(message: &str) -> (r: Self)
        ensures
            r matches XbergError::Validation { message: m, source } && m@ == message@ && source is None,
    {
        XbergError::Validation { message: message.to_owned(), source: None }
    }

    /// A parsing error without a cause.
    pub fn parsing(message: &str) -> (r: Self)
        ensures
            r matches XbergError::Parsing { message: m, source } && m@ == message@ && source is None,
    {
        XbergError::Parsing { message: message.to_owned(), source: None }
    }

    /// An error of text recognition without a cause.
    pub fn ocr(message: &str) -> (r: Self)
        ensures
            r matches XbergError::Ocr { message: m, source } && m@ == message@ && source is None,
    {
        XbergError::Ocr { message: message.to_owned(), source: None }
    }

    /// An error of the cache without a cause.
    pub fn cache(message: &str) -> (r: Self)
        ensures
            r matches XbergError::Cache { message: m, source } && m@ == message@ && source is None,
    {
        XbergError::Cache { message: message.to_owned(), source: None }
    }

    /// An error of image processing without a cause.
    pub fn image_processing(message: &str) -> (r: Self)
        ensures
            r matches XbergError::ImageProcessing { message: m, source } && m@ == message@ && source is None,
    {
        XbergError::ImageProcessing { message: message.to_owned(), source: None }
    }

    /// An error of serialisation without a cause.
    pub fn serialization(message: &str) -> (r: Self)
        ensures
            r matches XbergError::Serialization { message: m, source } && m@ == message@ && source is None,
    {
        XbergError::Serialization { message: message.to_owned(), source: None }
    }

    /// An error of an embedding without a cause.
    pub fn embedding(message: &str) -> (r: Self)
        ensures
            r matches XbergError::Embedding { message: m, source } && m@ == message@ && source is None,
    {
        XbergError::Embedding { message: message.to_owned(), source: None }
    }

    /// An exceeded limit without a cause.
    pub fn security(message: &str) -> (r: Self)
        ensures
            r matches XbergError::Security { message: m, source } && m@ == message@ && source is None,
    {
        XbergError::Security { message: message.to_owned(), source: None }
    }

    /// An error of speech recognition without a cause.
    pub fn transcription(message: &str) -> (r: Self)
        ensures
            r matches XbergError::Transcription { message: m, source } && m@ == message@ && source is None,
    {
        XbergError::Transcription { message: message.to_owned(), source: None }
    }

    /// An error of reranking without a cause.
    pub fn reranking(message: &str) -> (r: Self)
        ensures
            r matches XbergError::Reranking { message: m, source } && m@ == message@ && source is None,
    {
        XbergError::Reranking { message: message.to_owned(), source: None }
    }

    /// A validation error with the text of its cause.
    pub fn validation_with_source(message: &str, cause: &str) -> (r: Self)
        ensures
            r matches XbergError::Validation { message: m, source: Some(c) } && m@ == message@ && c@ == cause@,
    {
        XbergError::Validation { message: message.to_owned(), source: Some(cause.to_owned()) }
    }

    /// A parsing error with the text of its cause.
    pub fn parsing_with_source(message: &str, cause: &str) -> (r: Self)
        ensures
            r matches XbergError::Parsing { message: m, source: Some(c) } && m@ == message@ && c@ == cause@,
    {
        XbergError::Parsing { message: message.to_owned(), source: Some(cause.to_owned()) }
    }
}

/// Whether an error reports that a limit was exceeded.
pub open spec fn reports(error: XbergError, limit: SecurityError) -> bool {
    error matches XbergError::Security { message, source } && message@ == limit.spec_message() && source is None
}

/// Whether an error says that a document could not be read, in some words and without a cause.
pub open spec fn tells_parsing(error: XbergError, words: Seq<char>) -> bool {
    error matches XbergError::Parsing { message, source } && message@ == words && source is None
}

/// The error that reports an exceeded limit.
pub fn security_error(limit: SecurityError) -> (r: XbergError)
    ensures
        reports(r, limit),
{
    XbergError::Security { message: limit.message(), source: None }
}

/// A text between two others.
fn between(head: &str, middle: &str, tail: &str) -> (r: String)
    ensures
        r@ == head@ + middle@ + tail@,
{
    let mut out = head.to_owned();
    out.append(middle);
    out.append(tail);
    out
}

/// A prefixed message, followed by its cause where it has one.
pub fn with_source_suffix(prefix: &str, message: &str, source: Option<String>) -> (r: String)
    ensures
        r@ == caused(prefix@, message@, source),
{
    let mut out = between(prefix, ": ", message);
    if let Some(cause) = source {
        out.append(" (caused by: ");
        out.append(cause.as_str());
        out.append(")");
    }
    out
}

/// What clients of the tool protocol are told.
pub fn mcp_error_message(error: XbergError) -> (r: String)
    ensures
        r@ == error.spec_message(),
{
    match error {
        XbergError::Validation { message, source } => with_source_suffix("Validation error", message.as_str(), source),
        XbergError::UnsupportedFormat(mime_type) => "Unsupported format: ".to_owned().concat(mime_type.as_str()),
        XbergError::MissingDependency(dep) => between(
            "Missing required dependency: ",
            dep.as_str(),
            ". Please install it to use this feature.",
        ),
        XbergError::Parsing { message, source } => with_source_suffix("Parsing error", message.as_str(), source),
        XbergError::Io(error) => "System I/O error: ".to_owned().concat(error.as_str()),
        XbergError::Ocr { message, source } => with_source_suffix("OCR processing error", message.as_str(), source),
        XbergError::Cache { message, source } => with_source_suffix("Cache error", message.as_str(), source),
        XbergError::ImageProcessing { message, source } => with_source_suffix(
            "Image processing error",
            message.as_str(),
            source,
        ),
        XbergError::Serialization { message, source } => with_source_suffix(
            "Serialization error",
            message.as_str(),
            source,
        ),
        XbergError::Embedding { message, source } => with_source_suffix("Embedding error", message.as_str(), source),
        XbergError::Plugin { message, plugin_name } => between("Plugin '", plugin_name.as_str(), "' error: ").concat(
            message.as_str(),
        ),
        XbergError::LockPoisoned(message) => "Internal lock poisoned: ".to_owned().concat(message.as_str()),
        XbergError::Timeout { elapsed_ms, limit_ms } => {
            let mut out = "Extraction timed out after ".to_owned();
            push_decimal(&mut out, elapsed_ms);
            out.append("ms (limit: ");
            push_decimal(&mut out, limit_ms);
            out.append("ms)");
            out
        },
        XbergError::Other(message) => message,
        XbergError::Cancelled => "Extraction cancelled".to_owned(),
        XbergError::Security { message, source } => with_source_suffix("Security violation", message.as_str(), source),
        XbergError::Transcription { message, source } => with_source_suffix(
            "Transcription error",
            message.as_str(),
            source,
        ),
        XbergError::Reranking { message, source } => with_source_suffix("Reranking error", message.as_str(), source),
    }
}

/// The JSON-RPC code of a category.
pub open spec fn category_code(category: McpErrorCategory) -> i32 {
    match category {
        McpErrorCategory::InvalidParams => -32602i32,
        McpErrorCategory::ParseError => -32700i32,
        McpErrorCategory::Cancelled => -32800i32,
        McpErrorCategory::Internal => -32603i32,
    }
}

/// The error as a client of the tool protocol sees it.
pub fn map_xberg_error_to_mcp(error: XbergError) -> (r: McpError)
    ensures
        r.code == category_code(error.spec_category()),
        r.message@ == error.spec_message(),
{
    let code: i32 = match error.mcp_error_category() {
        McpErrorCategory::InvalidParams => -32602,
        McpErrorCategory::ParseError => -32700,
        McpErrorCategory::Cancelled => -32800,
        McpErrorCategory::Internal => -32603,
    };
    McpError { code, message: mcp_error_message(error) }
}

/// Every error has a negative code, and the codes tell faults of the request, faults of the document,
/// cancellations and faults of the server apart.
pub proof fn law_codes_tell_categories_apart(one: XbergError, other: XbergError)
    ensures
        category_code(one.spec_category()) < 0,
        category_code(one.spec_category()) == category_code(other.spec_category()) <==> one.spec_category()
            == other.spec_category(),
{
}

} // verus!
