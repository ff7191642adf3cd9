//! Source code: from the pieces that a parser found to headings and blocks of code.
use crate::config::{CodeContentMode, ExtractionConfig, TreeSitterConfig};
use crate::diagnostics;
use crate::diagnostics::push_lossy_decode_warning;
use crate::document;
use crate::document::{
    copy_option, copy_strings, CodeChunkInfo, CodeDataAttribute, CodeDataNode, CodeDataNodeKind, CodeMetadata,
    ElementKind, FormatMetadata, InternalDocument, Metadata,
};
use crate::error;
use crate::error::{security_error, XbergError};
use crate::json;
use crate::json::{push_member, JsonValue};
use crate::plugin::package_version;
use crate::security::SecurityBudget;
use crate::text;
use crate::text::{same_str, utf8_text};
use vstd::prelude::*;

verus! {

/// A piece of source code that a parser found.
#[derive(Clone, Debug)]
pub struct CodeChunk {
    /// Its text.
    pub content: String,
    /// The names of the definitions that it stands in, outermost first.
    pub context_path: Vec<String>,
    /// The kinds of syntax nodes that it holds.
    pub node_types: Vec<String>,
    /// First byte.
    pub start_byte: usize,
    /// Byte after the last one.
    pub end_byte: usize,
}

/// A piece of source code, with its texts as sequences.
#[verifier::ext_equal]
pub struct Chunk {
    /// Its text.
    pub content: Seq<char>,
    /// The names of the definitions that it stands in, outermost first.
    pub context_path: Seq<Seq<char>>,
    /// The kinds of syntax nodes that it holds.
    pub node_types: Seq<Seq<char>>,
    /// First byte.
    pub start_byte: usize,
    /// Byte after the last one.
    pub end_byte: usize,
}

impl View for CodeChunk {
    type V = Chunk;

    open spec fn view(&self) -> Chunk {
        Chunk {
            content: self.content@,
            context_path: text::strings(self.context_path@),
            node_types: text::strings(self.node_types@),
            start_byte: self.start_byte,
            end_byte: self.end_byte,
        }
    }
}

/// The pieces of a source file, with their texts as sequences.
pub open spec fn chunks(v: Seq<CodeChunk>) -> Seq<Chunk> {
    v.map_values(|c: CodeChunk| c@)
}

/// The pieces that metadata list, with their texts as sequences.
pub open spec fn listed_chunks(v: Seq<CodeChunkInfo>) -> Seq<Chunk> {
    v.map_values(
        |c: CodeChunkInfo|
            Chunk {
                content: c.text@,
                context_path: text::strings(c.context_path@),
                node_types: text::strings(c.node_types@),
                start_byte: c.byte_start,
                end_byte: c.byte_end,
            },
    )
}

/// Where a node stands in a source file.
#[derive(Clone, Copy, Debug)]
pub struct Span {
    /// First byte.
    pub start_byte: usize,
    /// Byte after the last one.
    pub end_byte: usize,
    /// First line.
    pub start_line: usize,
    /// Column of the first byte.
    pub start_column: usize,
    /// Last line.
    pub end_line: usize,
    /// Column after the last byte.
    pub end_column: usize,
}

/// An attribute of a node that a parser found.
#[derive(Clone, Debug)]
pub struct DataAttribute {
    /// Its name.
    pub name: String,
    /// Its value.
    pub value: String,
    /// Where it stands.
    pub span: Span,
}

/// A node of structured source that a parser found.
#[derive(Debug)]
pub struct DataNode {
    /// What it is.
    pub kind: CodeDataNodeKind,
    /// Its name.
    pub key: Option<String>,
    /// Its value.
    pub value: Option<String>,
    /// Its attributes.
    pub attributes: Vec<DataAttribute>,
    /// Its children.
    pub children: Vec<DataNode>,
    /// Where it stands.
    pub span: Span,
}

/// What a parser makes of a source file.
#[derive(Debug)]
pub struct ProcessedCode {
    /// Its pieces.
    pub chunks: Vec<CodeChunk>,
    /// Its structure, where it is structured data.
    pub data: Option<DataNode>,
    /// Everything that the parser found, as a value.
    pub whole: Option<JsonValue>,
}

/// Whether an attribute keeps its name, its value and its bytes.
pub open spec fn same_attribute(from: DataAttribute, to: CodeDataAttribute) -> bool {
    from.name@ == to.name@ && from.value@ == to.value@ && from.span.start_byte == to.byte_start && from.span.end_byte
        == to.byte_end
}

/// Whether a node keeps all that it holds, with its place given by bytes alone.
pub open spec fn same_node(from: DataNode, to: CodeDataNode) -> bool
    decreases from,
{
    &&& from.kind == to.kind
    &&& document::opt_text(from.key) == document::opt_text(to.key)
    &&& document::opt_text(from.value) == document::opt_text(to.value)
    &&& from.attributes@.len() == to.attributes@.len()
    &&& forall|i: int|
        0 <= i < from.attributes@.len() ==> same_attribute(#[trigger] from.attributes@[i], to.attributes@[i])
    &&& from.children@.len() == to.children@.len()
    &&& forall|i: int|
        0 <= i < from.children@.len() ==> same_node(#[trigger] from.children@[i], to.children@[i])
    &&& from.span.start_byte == to.byte_start
    &&& from.span.end_byte == to.byte_end
}

/// A node with its place given by bytes alone.
pub fn convert_data_node(node: &DataNode) -> (r: CodeDataNode)
    ensures
        same_node(*node, r),
    decreases *node,
{
    let mut attributes: Vec<CodeDataAttribute> = Vec::new();
    let mut i: usize = 0;
    while i < node.attributes.len()
        invariant
            i <= node.attributes.len(),
            attributes@.len() == i,
            forall|k: int| 0 <= k < i ==> same_attribute(#[trigger] node.attributes@[k], attributes@[k]),
        decreases node.attributes.len() - i,
    {
        let a = &node.attributes[i];
        attributes.push(
            CodeDataAttribute {
                name: a.name.clone(),
                value: a.value.clone(),
                byte_start: a.span.start_byte,
                byte_end: a.span.end_byte,
            },
        );
        i = i + 1;
    }
    let mut children: Vec<CodeDataNode> = Vec::new();
    let mut j: usize = 0;
    while j < node.children.len()
        invariant
            j <= node.children.len(),
            children@.len() == j,
            forall|k: int| 0 <= k < j ==> same_node(#[trigger] node.children@[k], children@[k]),
        decreases node.children.len() - j,
    {
        proof {
            assert(decreases_to!(node.children@ => node.children@[j as int]));
        }
        children.push(convert_data_node(&node.children[j]));
        j = j + 1;
    }
    CodeDataNode {
        kind: node.kind,
        key: copy_option(&node.key),
        value: copy_option(&node.value),
        attributes,
        children,
        byte_start: node.span.start_byte,
        byte_end: node.span.end_byte,
    }
}

/// Whether a kind of syntax node is that of a class or a module.
pub open spec fn is_container(kind: Seq<char>) -> bool {
    kind == "class_definition"@ || kind == "module_definition"@ || kind == "class_declaration"@ || kind == "module"@
}

/// The heading level of a piece: classes and modules stand above everything else.
pub open spec fn level_of(chunk: Chunk) -> u8 {
    if exists|i: int| 0 <= i < chunk.node_types.len() && is_container(#[trigger] chunk.node_types[i]) {
        2
    } else {
        3
    }
}

/// A document with the heading of a piece, if it stands in a definition.
pub open spec fn with_heading(c: document::Content, chunk: Chunk) -> document::Content {
    if chunk.context_path.len() > 0 {
        c.with_element(
            document::bare(ElementKind::Heading { level: level_of(chunk) }, chunk.context_path.last(), 0),
        )
    } else {
        c
    }
}

/// A document with one more piece.
pub open spec fn with_chunk(
    c: document::Content,
    chunk: Chunk,
    language: &str,
    mode: CodeContentMode,
) -> document::Content {
    match mode {
        CodeContentMode::Raw => c,
        CodeContentMode::Structure => with_heading(c, chunk),
        CodeContentMode::Chunks => with_heading(c, chunk).with_element(
            document::code_element(chunk.content, Some(language)),
        ),
    }
}

/// A document with pieces.
pub open spec fn with_chunks(
    c: document::Content,
    all: Seq<Chunk>,
    language: &str,
    mode: CodeContentMode,
) -> document::Content
    decreases all.len(),
{
    if all.len() == 0 {
        c
    } else {
        with_chunk(with_chunks(c, all.drop_last(), language, mode), all.last(), language, mode)
    }
}

/// The content of a source file: its pieces, or the whole source where it has none or is asked for.
pub open spec fn code_content(
    source: Seq<char>,
    language: &str,
    all: Seq<Chunk>,
    mode: CodeContentMode,
) -> document::Content {
    let empty = document::empty_content("code"@);
    let pieces = with_chunks(empty, all, language, mode);
    document::Content {
        mime_type: "text/x-source-code"@,
        ..if all.len() == 0 || mode == CodeContentMode::Raw {
            pieces.with_element(document::code_element(source, Some(language)))
        } else {
            pieces
        }
    }
}

/// What is kept of an option to keep grammars somewhere.
#[derive(Clone, Debug)]
pub struct PackConfig {
    /// Where grammars are kept.
    pub cache_dir: Option<String>,
    /// The languages whose grammars are fetched beforehand.
    pub languages: Option<Vec<String>>,
    /// The groups of languages whose grammars are fetched beforehand.
    pub groups: Option<Vec<String>>,
}

/// Whether source code is parsed at all; it is unless that is switched off.
pub open spec fn parses(config: ExtractionConfig) -> bool {
    match config.tree_sitter {
        Some(options) => options.enabled,
        None => true,
    }
}

/// What a document of source code holds.
pub open spec fn mode_of(config: ExtractionConfig) -> CodeContentMode {
    match config.tree_sitter {
        Some(options) => options.process.content_mode,
        None => CodeContentMode::Chunks,
    }
}

/// Reads source code.
#[derive(Clone, Copy, Debug)]
pub struct CodeExtractor;

impl Default for CodeExtractor {
    fn default() -> (r: Self)
        ensures
            r == CodeExtractor,
    {
        CodeExtractor
    }
}

impl CodeExtractor {
    /// The reader.
    pub fn new() -> (r: Self)
        ensures
            r == CodeExtractor,
    {
        CodeExtractor
    }

    /// Its name.
    pub fn name(&self) -> (r: &'static str)
        ensures
            r@ == "code-extractor"@,
    {
        "code-extractor"
    }

    /// Its version, which is that of the package.
    pub fn version(&self) -> (r: String)
        ensures
            r@ == "1.0.0"@,
    {
        package_version()
    }

    /// Makes it ready; there is nothing to do.
    pub fn initialize(&self) -> (r: Result<(), XbergError>)
        ensures
            r == (Ok::<(), XbergError>(())),
    {
        Ok(())
    }

    /// Lays it down; there is nothing to do.
    pub fn shutdown(&self) -> (r: Result<(), XbergError>)
        ensures
            r == (Ok::<(), XbergError>(())),
    {
        Ok(())
    }

    /// What it does.
    pub fn description(&self) -> (r: &'static str)
        ensures
            r@ == "Extracts content and structure from source code files using tree-sitter"@,
    {
        "Extracts content and structure from source code files using tree-sitter"
    }

    /// Who wrote it.
    pub fn author(&self) -> (r: &'static str)
        ensures
            r@ == "Xberg Team"@,
    {
        "Xberg Team"
    }

    /// The media types that it reads.
    pub fn supported_mime_types(&self) -> (r: Vec<&'static str>)
        ensures
            r@ == seq![
                "text/x-source-code",
                "text/x-python",
                "text/x-julia",
                "text/x-r-source",
            ],
    {
        vec![
            "text/x-source-code",
            "text/x-python",
            "text/x-julia",
            "text/x-r-source",
        ]
    }

    /// Its rank among the readers of a media type.
    pub fn priority(&self) -> (r: i32)
        ensures
            r == 50,
    {
        50
    }
}

impl CodeExtractor {
    /// A document of the whole source.
    pub fn build_raw_document(source: &str, language: &str) -> (r: InternalDocument)
        ensures
            r@ == code_content(source@, language, Seq::empty(), CodeContentMode::Raw),
            r.metadata.format matches Some(FormatMetadata::Code(meta)) && meta.chunks@.len() == 0 && meta.data is None,
            document::is_blank_metadata(Metadata { format: None, ..r.metadata }),
    {
        let mut doc = InternalDocument::new("code");
        doc.push_code(source, Some(language));
        doc.metadata.format = Some(FormatMetadata::Code(CodeMetadata { chunks: Vec::new(), data: None }));
        doc.mime_type = "text/x-source-code".to_owned();
        proof {
            assert(doc@ =~= code_content(source@, language, Seq::empty(), CodeContentMode::Raw));
        }
        doc
    }

    /// The heading level of a piece.
    pub fn chunk_heading_level(chunk: &CodeChunk) -> (r: u8)
        ensures
            r == level_of(chunk@),
    {
        let ghost all = text::strings(chunk.node_types@);
        let mut i: usize = 0;
        while i < chunk.node_types.len()
            invariant
                i <= chunk.node_types.len(),
                all == text::strings(chunk.node_types@),
                forall|k: int| 0 <= k < i ==> !is_container(#[trigger] all[k]),
            decreases chunk.node_types.len() - i,
        {
            let kind = chunk.node_types[i].as_str();
            proof {
                assert(all[i as int] == kind@);
            }
            if same_str(kind, "class_definition") || same_str(kind, "module_definition") || same_str(
                kind,
                "class_declaration",
            ) || same_str(kind, "module") {
                proof {
                    assert(is_container(chunk@.node_types[i as int]));
                }
                return 2;
            }
            i = i + 1;
        }
        3
    }

    /// Where grammars are to be kept, if that is said. The languages and groups to be fetched beforehand
    /// do not matter here.
    pub fn grammar_cache_pack_config(options: Option<&TreeSitterConfig>) -> (r: Option<PackConfig>)
        ensures
            match r {
                Some(pack) => {
                    &&& options is Some && options->0.cache_dir is Some
                    &&& document::opt_text(pack.cache_dir) == document::opt_text(options->0.cache_dir)
                    &&& pack.languages is None
                    &&& pack.groups is None
                },
                None => options is None || options->0.cache_dir is None,
            },
    {
        match options {
            Some(o) => match &o.cache_dir {
                Some(dir) => Some(PackConfig { cache_dir: Some(dir.clone()), languages: None, groups: None }),
                None => None,
            },
            None => None,
        }
    }

    fn push_chunk_heading(doc: &mut InternalDocument, chunk: &CodeChunk)
        ensures
            final(doc)@ == with_heading(old(doc)@, chunk@),
            final(doc).metadata == old(doc).metadata,
    {
        let n = chunk.context_path.len();
        if n > 0 {
            let level = Self::chunk_heading_level(chunk);
            doc.push_text(ElementKind::Heading { level }, chunk.context_path[n - 1].clone(), 0);
        }
    }

    fn push_chunks(doc: &mut InternalDocument, list: &Vec<CodeChunk>, language: &str, mode: CodeContentMode) -> (r: Vec<
        CodeChunkInfo,
    >)
        ensures
            final(doc)@ == with_chunks(old(doc)@, chunks(list@), language, mode),
            final(doc).metadata == old(doc).metadata,
            listed_chunks(r@) == chunks(list@),
    {
        let ghost all = chunks(list@);
        let mut out: Vec<CodeChunkInfo> = Vec::new();
        let mut i: usize = 0;
        while i < list.len()
            invariant
                i <= list.len(),
                all == chunks(list@),
                doc@ == with_chunks(old(doc)@, all.take(i as int), language, mode),
                doc.metadata == old(doc).metadata,
                out@.len() == i,
                forall|k: int| 0 <= k < i ==> (#[trigger] listed_chunks(out@)[k]) == all[k],
            decreases list.len() - i,
        {
            let chunk = &list[i];
            proof {
                assert(all.take(i + 1).drop_last() =~= all.take(i as int));
                assert(all.take(i + 1).last() == chunk@);
            }
            match mode {
                CodeContentMode::Raw => {},
                CodeContentMode::Structure => {
                    Self::push_chunk_heading(doc, chunk);
                },
                CodeContentMode::Chunks => {
                    Self::push_chunk_heading(doc, chunk);
                    doc.push_code(chunk.content.as_str(), Some(language));
                },
            }
            let ghost before = out@;
            out.push(
                CodeChunkInfo {
                    text: chunk.content.clone(),
                    context_path: copy_strings(chunk.context_path.as_slice()),
                    node_types: copy_strings(chunk.node_types.as_slice()),
                    byte_start: chunk.start_byte,
                    byte_end: chunk.end_byte,
                },
            );
            proof {
                assert forall|k: int| 0 <= k < i + 1 implies (#[trigger] listed_chunks(out@)[k]) == all[k] by {
                    if k < i {
                        assert(listed_chunks(out@)[k] == listed_chunks(before)[k]);
                    } else {
                        assert(listed_chunks(out@)[k] =~= all[k]);
                    }
                }
            }
            i = i + 1;
        }
        proof {
            assert(all.take(all.len() as int) =~= all);
            assert(listed_chunks(out@) =~= all);
        }
        out
    }

    /// The document of a source file in a known language: the whole source where parsing is switched
    /// off, the pieces that the parser found, or the reason why it failed.
    pub fn extract_with_language(
        source: &str,
        language: &str,
        config: &ExtractionConfig,
        outcome: Result<ProcessedCode, String>,
    ) -> (r: Result<InternalDocument, XbergError>)
        ensures
            match outcome {
                Ok(processed) => {
                    &&& r matches Ok(doc)
                    &&& doc@ == if parses(*config) {
                        code_content(source@, language, chunks(processed.chunks@), mode_of(*config))
                    } else {
                        code_content(source@, language, Seq::empty(), CodeContentMode::Raw)
                    }
                    &&& doc.metadata.format matches Some(FormatMetadata::Code(meta))
                    &&& listed_chunks(meta.chunks@) == if parses(*config) {
                        chunks(processed.chunks@)
                    } else {
                        Seq::empty()
                    }
                    &&& match meta.data {
                        Some(node) => parses(*config) && processed.data is Some && same_node(processed.data->0, node),
                        None => !parses(*config) || processed.data is None,
                    }
                    &&& json::members(doc.metadata.additional@) == if parses(*config) && processed.whole is Some {
                        seq![("__xberg_code_intelligence_process_result"@, processed.whole->0@)]
                    } else {
                        Seq::empty()
                    }
                    &&& document::no_fields(Metadata { format: None, ..doc.metadata })
                },
                Err(reason) => if parses(*config) {
                    &&& r matches Err(XbergError::Parsing { message, source: cause })
                    &&& message@ == "tree-sitter processing failed for language '"@ + language@ + "': "@ + reason@
                    &&& cause is None
                } else {
                    &&& r matches Ok(doc)
                    &&& doc@ == code_content(source@, language, Seq::empty(), CodeContentMode::Raw)
                    &&& doc.metadata.format matches Some(FormatMetadata::Code(meta)) && meta.chunks@.len() == 0
                        && meta.data is None
                    &&& document::is_blank_metadata(Metadata { format: None, ..doc.metadata })
                },
            },
    {
        let enabled = match &config.tree_sitter {
            Some(options) => options.enabled,
            None => true,
        };
        if !enabled {
            let doc = Self::build_raw_document(source, language);
            proof {
                assert(listed_chunks((doc.metadata.format->0)->Code_0.chunks@) =~= Seq::<Chunk>::empty());
                assert(json::members(doc.metadata.additional@) =~= Seq::empty());
            }
            return Ok(doc);
        }
        let processed = match outcome {
            Ok(processed) => processed,
            Err(reason) => {
                let mut message = "tree-sitter processing failed for language '".to_owned();
                message.append(language);
                message.append("': ");
                message.append(reason.as_str());
                return Err(XbergError::Parsing { message, source: None });
            },
        };
        let mode = match &config.tree_sitter {
            Some(options) => options.process.content_mode,
            None => CodeContentMode::Chunks,
        };
        let mut doc = InternalDocument::new("code");
        let listed = Self::push_chunks(&mut doc, &processed.chunks, language, mode);
        let raw = match mode {
            CodeContentMode::Raw => true,
            _ => false,
        };
        if raw || processed.chunks.len() == 0 {
            doc.push_code(source, Some(language));
        }
        let data = match &processed.data {
            Some(node) => Some(convert_data_node(node)),
            None => None,
        };
        let mut additional: Vec<(String, JsonValue)> = Vec::new();
        proof {
            assert(json::members(additional@) =~= Seq::empty());
        }
        if let Some(whole) = processed.whole {
            push_member(&mut additional, "__xberg_code_intelligence_process_result", whole);
        }
        doc.metadata.additional = additional;
        doc.metadata.format = Some(FormatMetadata::Code(CodeMetadata { chunks: listed, data }));
        doc.mime_type = "text/x-source-code".to_owned();
        proof {
            assert(doc@ =~= code_content(source@, language, chunks(processed.chunks@), mode));
        }
        Ok(doc)
    }

    /// The language that a media type names.
    pub fn language_from_mime(mime_type: &str) -> (r: Option<&'static str>)
        ensures
            match r {
                Some(name) => mime_language(mime_type@) == Some(name@),
                None => mime_language(mime_type@) is None,
            },
    {
        if same_str(mime_type, "text/x-python") {
            Some("python")
        } else if same_str(mime_type, "text/x-julia") {
            Some("julia")
        } else if same_str(mime_type, "text/x-r-source") {
            Some("r")
        } else {
            None
        }
    }

    /// The language of a source: what its content shows, else what its name shows, else what its media
    /// type names.
    pub fn choose_language(from_content: Option<String>, from_name: Option<String>, mime_type: &str) -> (r: Result<
        String,
        XbergError,
    >)
        ensures
            match (from_content, from_name, mime_language(mime_type@)) {
                (Some(name), _, _) => r matches Ok(found) && found@ == name@,
                (None, Some(name), _) => r matches Ok(found) && found@ == name@,
                (None, None, Some(name)) => r matches Ok(found) && found@ == name,
                (None, None, None) => r matches Err(XbergError::UnsupportedFormat(message)) && message@
                    == "Cannot detect programming language from content (no shebang line). Use extract_file with a file path for extension-based detection."@,
            },
    {
        match from_content {
            Some(name) => {
                return Ok(name);
            },
            None => {},
        }
        match from_name {
            Some(name) => {
                return Ok(name);
            },
            None => {},
        }
        match Self::language_from_mime(mime_type) {
            Some(name) => Ok(name.to_owned()),
            None => Err(
                XbergError::UnsupportedFormat(
                    "Cannot detect programming language from content (no shebang line). Use extract_file with a file path for extension-based detection.".to_owned(),
                ),
            ),
        }
    }

    /// The language of a file: what its path shows, else what its content shows.
    pub fn detect_language(from_path: Option<String>, from_content: Option<String>, path: &str) -> (r: Result<
        String,
        XbergError,
    >)
        ensures
            match (from_path, from_content) {
                (Some(name), _) => r matches Ok(found) && found@ == name@,
                (None, Some(name)) => r matches Ok(found) && found@ == name@,
                (None, None) => r matches Err(XbergError::UnsupportedFormat(message)) && message@
                    == "Cannot detect programming language for: "@ + path@,
            },
    {
        match from_path {
            Some(name) => {
                return Ok(name);
            },
            None => {},
        }
        match from_content {
            Some(name) => {
                return Ok(name);
            },
            None => {},
        }
        let mut message = "Cannot detect programming language for: ".to_owned();
        message.append(path);
        Err(XbergError::UnsupportedFormat(message))
    }

    /// The text of a source file, and whether some bytes could not be decoded, if it is within the
    /// ceilings of a budget.
    pub fn decode_source(content: &[u8], budget: &mut SecurityBudget) -> (r: Result<(String, bool), XbergError>)
        ensures
            ({
                let charged = old(budget).spec_account_text(content@.len() as int);
                &&& *final(budget) == charged.0
                &&& match charged.1 {
                    Ok(()) => r matches Ok(found) && found.0@ == source_text(content@) && found.1
                        == !vstd::utf8::valid_utf8(content@),
                    Err(limit) => r is Err && error::reports(r->Err_0, limit),
                }
            }),
    {
        match budget.account_text(content.len()) {
            Ok(()) => {},
            Err(limit) => {
                return Err(security_error(limit));
            },
        }
        match utf8_text(content) {
            Some(found) => Ok((found, false)),
            None => Ok((lossy_text(content), true)),
        }
    }

    /// Warns that some bytes of a source file could not be decoded, if that is so.
    pub fn note_lossy_source(doc: &mut InternalDocument, decoded_lossily: bool)
        ensures
            final(doc)@ == if decoded_lossily {
                old(doc)@.with_warning("code"@, diagnostics::lossy_decode_message("source file"@))
            } else {
                old(doc)@
            },
            final(doc).metadata == old(doc).metadata,
    {
        if decoded_lossily {
            push_lossy_decode_warning(doc, "code", "source file");
        }
    }
}

/// The language that a media type names.
pub open spec fn mime_language(mime_type: Seq<char>) -> Option<Seq<char>> {
    if mime_type == "text/x-python"@ {
        Some("python"@)
    } else if mime_type == "text/x-julia"@ {
        Some("julia"@)
    } else if mime_type == "text/x-r-source"@ {
        Some("r"@)
    } else {
        None
    }
}

/// Bytes as text, with the replacement character in the place of what could not be decoded.
pub uninterp spec fn lossy_utf8(bytes: Seq<u8>) -> Seq<char>;

/// `String::from_utf8_lossy` decodes bytes, with the replacement character in the place of what is no
/// valid UTF-8; valid bytes give the text that they encode.
#[verifier::external_body]
pub(crate) fn lossy_text(bytes: &[u8]) -> (r: String)
    ensures
        r@ == lossy_utf8(bytes@),
        vstd::utf8::valid_utf8(bytes@) ==> r@ == vstd::utf8::decode_utf8(bytes@),
{
    String::from_utf8_lossy(bytes).into_owned()
}

/// The text of a source file.
pub open spec fn source_text(bytes: Seq<u8>) -> Seq<char> {
    if vstd::utf8::valid_utf8(bytes) {
        vstd::utf8::decode_utf8(bytes)
    } else {
        lossy_utf8(bytes)
    }
}

} // verus!
