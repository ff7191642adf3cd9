//! The document model that every reader fills.
use crate::json;
use crate::json::JsonValue;
use crate::text;
use crate::text::same_str;
use vstd::prelude::*;

verus! {

/// What an annotation says of its range.
#[derive(Clone, Debug, PartialEq, Eq)]
pub enum AnnotationKind {
    /// Bold text.
    Bold,
    /// Italic text.
    Italic,
    /// Underlined text.
    Underline,
    /// Struck-through text.
    Strikethrough,
    /// Text in a colour, written `#rrggbb`.
    Color { value: String },
    /// A hyperlink.
    Link { url: String, title: Option<String> },
}

/// A byte range of an element's text and what holds of it.
#[derive(Clone, Debug, PartialEq, Eq)]
pub struct TextAnnotation {
    /// First byte.
    pub start: u32,
    /// Byte after the last one.
    pub end: u32,
    /// What holds of the range.
    pub kind: AnnotationKind,
}

/// The part that an element plays in a document.
#[derive(Clone, Copy, Debug, PartialEq, Eq, Structural)]
pub enum ElementKind {
    /// A paragraph.
    Paragraph,
    /// A heading; level 1 is the topmost one.
    Heading { level: u8 },
    /// The start of a list.
    ListStart { ordered: bool },
    /// The end of a list.
    ListEnd,
    /// An item of a list.
    ListItem { ordered: bool },
    /// A table, by its position among the tables of the document.
    Table { table_index: u32 },
    /// A block of code.
    Code,
    /// An image, by its position among the images of the document.
    Image { image_index: u32 },
}

/// One element of a document.
#[derive(Clone, Debug)]
pub struct InternalElement {
    /// The part that it plays.
    pub kind: ElementKind,
    /// Its text.
    pub text: String,
    /// How deeply it is nested.
    pub depth: u16,
    /// The page that it stands on.
    pub page: Option<u32>,
    /// Its attributes.
    pub attributes: Vec<(String, String)>,
    /// The language of a block of code.
    pub language: Option<String>,
}

/// An element, with its texts as sequences.
#[verifier::ext_equal]
pub struct Element {
    /// The part that it plays.
    pub kind: ElementKind,
    /// Its text.
    pub text: Seq<char>,
    /// How deeply it is nested.
    pub depth: u16,
    /// The page that it stands on.
    pub page: Option<u32>,
    /// Its attributes.
    pub attributes: Seq<(Seq<char>, Seq<char>)>,
    /// The language of a block of code.
    pub language: Option<Seq<char>>,
}

/// The texts of string pairs.
pub open spec fn pairs(v: Seq<(String, String)>) -> Seq<(Seq<char>, Seq<char>)> {
    v.map_values(|p: (String, String)| (p.0@, p.1@))
}

/// The text of an optional string.
pub open spec fn opt_text(s: Option<String>) -> Option<Seq<char>> {
    match s {
        Some(string) => Some(string@),
        None => None,
    }
}

/// The texts of an optional list of strings.
pub open spec fn opt_texts(v: Option<Vec<String>>) -> Option<Seq<Seq<char>>> {
    match v {
        Some(list) => Some(text::strings(list@)),
        None => None,
    }
}

impl View for InternalElement {
    type V = Element;

    open spec fn view(&self) -> Element {
        Element {
            kind: self.kind,
            text: self.text@,
            depth: self.depth,
            page: self.page,
            attributes: pairs(self.attributes@),
            language: opt_text(self.language),
        }
    }
}

/// An element without page, attributes and language.
pub open spec fn bare(kind: ElementKind, t: Seq<char>, depth: u16) -> Element {
    Element { kind, text: t, depth, page: None, attributes: Seq::empty(), language: None }
}

impl InternalElement {
    /// An element without page, attributes and language.
    pub fn text(kind: ElementKind, text: String, depth: u16) -> (r: Self)
        ensures
            r@ == bare(kind, text@, depth),
    {
        let r = InternalElement { kind, text, depth, page: None, attributes: Vec::new(), language: None };
        proof {
            assert(pairs(r.attributes@) =~= Seq::<(Seq<char>, Seq<char>)>::empty());
        }
        r
    }
}

/// The elements of a document, with their texts as sequences.
pub open spec fn elements(v: Seq<InternalElement>) -> Seq<Element> {
    v.map_values(|e: InternalElement| e@)
}

/// Appending an element appends its view.
pub proof fn lemma_elements_push(v: Seq<InternalElement>, e: InternalElement)
    ensures
        elements(v.push(e)) == elements(v).push(e@),
{
    assert(elements(v.push(e)) =~= elements(v).push(e@));
}

/// A table.
#[derive(Clone, Debug)]
pub struct Table {
    /// Its cells, row by row.
    pub cells: Vec<Vec<String>>,
    /// Its rendering in Markdown.
    pub markdown: String,
    /// The page that it stands on.
    pub page_number: u32,
    /// Its column names, where it has any.
    pub columns: Option<Vec<String>>,
}

/// The texts of rows of cells.
pub open spec fn grid(rows: Seq<Vec<String>>) -> Seq<Seq<Seq<char>>> {
    rows.map_values(|row: Vec<String>| text::strings(row@))
}

/// A table, with its texts as sequences.
#[verifier::ext_equal]
pub struct TableData {
    /// Its cells, row by row.
    pub cells: Seq<Seq<Seq<char>>>,
    /// Its rendering in Markdown.
    pub markdown: Seq<char>,
    /// The page that it stands on.
    pub page_number: u32,
    /// Its column names, where it has any.
    pub columns: Option<Seq<Seq<char>>>,
}

impl View for Table {
    type V = TableData;

    open spec fn view(&self) -> TableData {
        TableData {
            cells: grid(self.cells@),
            markdown: self.markdown@,
            page_number: self.page_number,
            columns: opt_texts(self.columns),
        }
    }
}

/// The tables of a document, with their texts as sequences.
pub open spec fn tables(v: Seq<Table>) -> Seq<TableData> {
    v.map_values(|t: Table| t@)
}

/// Something that went less than perfectly.
#[derive(Clone, Debug, PartialEq, Eq)]
pub struct ProcessingWarning {
    /// Which part of the toolkit says so.
    pub source: String,
    /// What it says.
    pub message: String,
}

/// The texts of warnings: source and message.
pub open spec fn warnings(v: Seq<ProcessingWarning>) -> Seq<(Seq<char>, Seq<char>)> {
    v.map_values(|w: ProcessingWarning| (w.source@, w.message@))
}

/// An image taken out of a document.
#[derive(Clone, Debug)]
pub struct ExtractedImage {
    /// Its encoded bytes.
    pub data: Vec<u8>,
    /// The format of the bytes.
    pub format: String,
    /// Its position among the images of the document.
    pub image_index: u32,
    /// The page that it stands on.
    pub page_number: Option<u32>,
    /// What it shows.
    pub description: Option<String>,
    /// Where it was stored.
    pub source_path: Option<String>,
}

/// An image, with its texts as sequences.
#[verifier::ext_equal]
pub struct ImageData {
    /// Its encoded bytes.
    pub data: Seq<u8>,
    /// The format of the bytes.
    pub format: Seq<char>,
    /// Its position among the images of the document.
    pub image_index: u32,
    /// The page that it stands on.
    pub page_number: Option<u32>,
    /// What it shows.
    pub description: Option<Seq<char>>,
    /// Where it was stored.
    pub source_path: Option<Seq<char>>,
}

impl View for ExtractedImage {
    type V = ImageData;

    open spec fn view(&self) -> ImageData {
        ImageData {
            data: self.data@,
            format: self.format@,
            image_index: self.image_index,
            page_number: self.page_number,
            description: opt_text(self.description),
            source_path: opt_text(self.source_path),
        }
    }
}

/// The images of a document, with their texts as sequences.
pub open spec fn images(v: Seq<ExtractedImage>) -> Seq<ImageData> {
    v.map_values(|i: ExtractedImage| i@)
}

/// One page of a document.
#[derive(Clone, Debug)]
pub struct PageContent {
    /// Its number; the first page is number one.
    pub page_number: u32,
    /// Its text.
    pub content: String,
    /// Its tables.
    pub tables: Vec<Table>,
    /// The positions of its images among the images of the document.
    pub image_indices: Vec<u32>,
    /// Whether there is nothing on it.
    pub is_blank: Option<bool>,
    /// The section that it belongs to.
    pub section_name: Option<String>,
    /// The sheet that it shows.
    pub sheet_name: Option<String>,
}

/// A page, with its texts as sequences.
#[verifier::ext_equal]
pub struct PageData {
    /// Its number; the first page is number one.
    pub page_number: u32,
    /// Its text.
    pub content: Seq<char>,
    /// Its tables.
    pub tables: Seq<TableData>,
    /// The positions of its images among the images of the document.
    pub image_indices: Seq<u32>,
    /// Whether there is nothing on it.
    pub is_blank: Option<bool>,
    /// The section that it belongs to.
    pub section_name: Option<Seq<char>>,
    /// The sheet that it shows.
    pub sheet_name: Option<Seq<char>>,
}

impl View for PageContent {
    type V = PageData;

    open spec fn view(&self) -> PageData {
        PageData {
            page_number: self.page_number,
            content: self.content@,
            tables: tables(self.tables@),
            image_indices: self.image_indices@,
            is_blank: self.is_blank,
            section_name: opt_text(self.section_name),
            sheet_name: opt_text(self.sheet_name),
        }
    }
}

/// The pages of a document, with their texts as sequences.
pub open spec fn pages(v: Seq<PageContent>) -> Seq<PageData> {
    v.map_values(|p: PageContent| p@)
}

/// What a delimited-text file says of itself.
#[derive(Clone, Debug, PartialEq, Eq)]
pub struct CsvMetadata {
    /// Number of rows.
    pub row_count: u32,
    /// Number of columns of the widest row.
    pub column_count: u32,
    /// The delimiter, where it is no comma.
    pub delimiter: Option<String>,
    /// Whether the first row names the columns.
    pub has_header: bool,
    /// What each column holds.
    pub column_types: Option<Vec<String>>,
}

/// What a workbook says of itself.
#[derive(Clone, Debug, PartialEq, Eq)]
pub struct ExcelMetadata {
    /// Number of sheets.
    pub sheet_count: Option<u32>,
    /// Names of the sheets.
    pub sheet_names: Option<Vec<String>>,
}

/// A piece of source code.
#[derive(Clone, Debug, PartialEq, Eq)]
pub struct CodeChunkInfo {
    /// Its text.
    pub text: String,
    /// The names of the definitions that it stands in, outermost first.
    pub context_path: Vec<String>,
    /// The kinds of syntax nodes that it holds.
    pub node_types: Vec<String>,
    /// First byte.
    pub byte_start: usize,
    /// Byte after the last one.
    pub byte_end: usize,
}

/// What a node of structured source is.
#[derive(Clone, Copy, Debug, PartialEq, Eq, Structural)]
pub enum CodeDataNodeKind {
    /// A value with a name.
    KeyValue,
    /// An element.
    Element,
    /// A list.
    Sequence,
}

/// An attribute of a node of structured source.
#[derive(Clone, Debug)]
pub struct CodeDataAttribute {
    /// Its name.
    pub name: String,
    /// Its value.
    pub value: String,
    /// First byte.
    pub byte_start: usize,
    /// Byte after the last one.
    pub byte_end: usize,
}

/// A node of structured source.
#[derive(Debug)]
pub struct CodeDataNode {
    /// What it is.
    pub kind: CodeDataNodeKind,
    /// Its name.
    pub key: Option<String>,
    /// Its value.
    pub value: Option<String>,
    /// Its attributes.
    pub attributes: Vec<CodeDataAttribute>,
    /// Its children.
    pub children: Vec<CodeDataNode>,
    /// First byte.
    pub byte_start: usize,
    /// Byte after the last one.
    pub byte_end: usize,
}

/// What a source file says of itself.
#[derive(Debug)]
pub struct CodeMetadata {
    /// Its pieces.
    pub chunks: Vec<CodeChunkInfo>,
    /// Its structure, where it is structured data.
    pub data: Option<CodeDataNode>,
}

/// What an XML document says of itself.
#[derive(Clone, Debug, PartialEq, Eq)]
pub struct XmlMetadata {
    /// Number of elements.
    pub element_count: u32,
    /// Names of the elements, each once.
    pub unique_elements: Vec<String>,
}

/// What a document of a particular format says of itself.
#[derive(Debug)]
pub enum FormatMetadata {
    /// A delimited-text file.
    Csv(CsvMetadata),
    /// A workbook.
    Excel(ExcelMetadata),
    /// A source file.
    Code(CodeMetadata),
    /// An XML document.
    Xml(XmlMetadata),
}

/// What a document says of itself.
#[derive(Debug)]
pub struct Metadata {
    /// Its title.
    pub title: Option<String>,
    /// Its subject.
    pub subject: Option<String>,
    /// Its authors.
    pub authors: Option<Vec<String>>,
    /// Its keywords.
    pub keywords: Option<Vec<String>>,
    /// Its language.
    pub language: Option<String>,
    /// When it was created.
    pub created_at: Option<String>,
    /// When it was last changed.
    pub modified_at: Option<String>,
    /// Who created it.
    pub created_by: Option<String>,
    /// Who last changed it.
    pub modified_by: Option<String>,
    /// What is particular to its format.
    pub format: Option<FormatMetadata>,
    /// Anything else, by name.
    pub additional: Vec<(String, JsonValue)>,
}

/// Named texts as named values.
pub open spec fn text_members(entries: Seq<(Seq<char>, Seq<char>)>) -> Seq<(Seq<char>, json::Json)> {
    entries.map_values(|e: (Seq<char>, Seq<char>)| (e.0, json::Json::Text(e.1)))
}

/// Metadata that say nothing.
pub open spec fn is_blank_metadata(m: Metadata) -> bool {
    no_fields(m) && m.additional@.len() == 0
}

/// Metadata that say nothing but what has no field of its own.
pub open spec fn no_fields(m: Metadata) -> bool {
    &&& m.title is None
    &&& m.subject is None
    &&& m.authors is None
    &&& m.keywords is None
    &&& m.language is None
    &&& m.created_at is None
    &&& m.modified_at is None
    &&& m.created_by is None
    &&& m.modified_by is None
    &&& m.format is None
}

impl Default for Metadata {
    fn default() -> (r: Self)
        ensures
            is_blank_metadata(r),
    {
        Metadata {
            title: None,
            subject: None,
            authors: None,
            keywords: None,
            language: None,
            created_at: None,
            modified_at: None,
            created_by: None,
            modified_by: None,
            format: None,
            additional: Vec::new(),
        }
    }
}

/// An object embedded in a document.
#[derive(Clone, Debug)]
pub struct EmbeddedObject {
    /// Where it is stored in the document.
    pub path: String,
    /// Its media type.
    pub mime_type: String,
    /// The text read from it.
    pub content: String,
}

/// An embedded object, with its texts as sequences.
#[verifier::ext_equal]
pub struct ObjectData {
    /// Where it is stored in the document.
    pub path: Seq<char>,
    /// Its media type.
    pub mime_type: Seq<char>,
    /// The text read from it.
    pub content: Seq<char>,
}

impl View for EmbeddedObject {
    type V = ObjectData;

    open spec fn view(&self) -> ObjectData {
        ObjectData { path: self.path@, mime_type: self.mime_type@, content: self.content@ }
    }
}

/// Embedded objects, with their texts as sequences.
pub open spec fn objects(v: Seq<EmbeddedObject>) -> Seq<ObjectData> {
    v.map_values(|x: EmbeddedObject| x@)
}

/// A document.
#[derive(Debug)]
pub struct InternalDocument {
    /// The format that it was read from.
    pub source_format: String,
    /// Its media type.
    pub mime_type: String,
    /// Its elements, in reading order.
    pub elements: Vec<InternalElement>,
    /// Its tables.
    pub tables: Vec<Table>,
    /// Its images.
    pub images: Vec<ExtractedImage>,
    /// What it says of itself.
    pub metadata: Metadata,
    /// What went less than perfectly.
    pub processing_warnings: Vec<ProcessingWarning>,
    /// Its pages, where its format has them.
    pub prebuilt_pages: Option<Vec<PageContent>>,
    /// Its tracked changes, each as a record of its format, where its format has them.
    pub revisions: Option<Vec<String>>,
    /// The diagrams recovered from it, each as a record of its recovery.
    pub diagrams: Vec<String>,
    /// The objects embedded in it, where there are any.
    pub children: Option<Vec<EmbeddedObject>>,
}

/// The content of a document, with its texts as sequences. What it says of itself is apart.
#[verifier::ext_equal]
pub struct Content {
    /// The format that it was read from.
    pub source_format: Seq<char>,
    /// Its media type.
    pub mime_type: Seq<char>,
    /// Its elements, in reading order.
    pub elements: Seq<Element>,
    /// Its tables.
    pub tables: Seq<TableData>,
    /// Its images.
    pub images: Seq<ImageData>,
    /// What went less than perfectly: source and message.
    pub warnings: Seq<(Seq<char>, Seq<char>)>,
    /// Its pages, where its format has them.
    pub pages: Option<Seq<PageData>>,
    /// Its tracked changes, each as a record of its format, where its format has them.
    pub revisions: Option<Seq<Seq<char>>>,
    /// The diagrams recovered from it, each as a record of its recovery.
    pub diagrams: Seq<Seq<char>>,
    /// The objects embedded in it, where there are any.
    pub children: Option<Seq<ObjectData>>,
}

impl View for InternalDocument {
    type V = Content;

    open spec fn view(&self) -> Content {
        Content {
            source_format: self.source_format@,
            mime_type: self.mime_type@,
            elements: elements(self.elements@),
            tables: tables(self.tables@),
            images: images(self.images@),
            warnings: warnings(self.processing_warnings@),
            pages: match self.prebuilt_pages {
                Some(list) => Some(pages(list@)),
                None => None,
            },
            revisions: opt_texts(self.revisions),
            diagrams: text::strings(self.diagrams@),
            children: match self.children {
                Some(list) => Some(objects(list@)),
                None => None,
            },
        }
    }
}

/// A document without content.
pub open spec fn empty_content(source_format: Seq<char>) -> Content {
    Content {
        source_format,
        mime_type: Seq::empty(),
        elements: Seq::empty(),
        tables: Seq::empty(),
        images: Seq::empty(),
        warnings: Seq::empty(),
        pages: None,
        revisions: None,
        diagrams: Seq::empty(),
        children: None,
    }
}

impl Content {
    /// The content with one more element.
    pub open spec fn with_element(self, e: Element) -> Content {
        Content { elements: self.elements.push(e), ..self }
    }

    /// The content with one more warning.
    pub open spec fn with_warning(self, source: Seq<char>, message: Seq<char>) -> Content {
        Content { warnings: self.warnings.push((source, message)), ..self }
    }

    /// The content with one more table, and the element that stands for it.
    pub open spec fn with_table(self, table: TableData, t: Seq<char>, page: Option<u32>) -> Content {
        Content {
            tables: self.tables.push(table),
            elements: self.elements.push(
                Element {
                    page,
                    ..bare(ElementKind::Table { table_index: self.tables.len() as u32 }, t, 0)
                },
            ),
            ..self
        }
    }
}

impl InternalDocument {
    /// A document without content.
    pub fn new(source_format: &str) -> (r: Self)
        ensures
            r@ == empty_content(source_format@),
            is_blank_metadata(r.metadata),
    {
        let r = InternalDocument {
            source_format: source_format.to_owned(),
            mime_type: String::new(),
            elements: Vec::new(),
            tables: Vec::new(),
            images: Vec::new(),
            metadata: Metadata::default(),
            processing_warnings: Vec::new(),
            prebuilt_pages: None,
            revisions: None,
            diagrams: Vec::new(),
            children: None,
        };
        proof {
            assert(r@ =~= empty_content(source_format@));
        }
        r
    }

    /// Appends an element.
    pub fn push_element(&mut self, element: InternalElement)
        ensures
            final(self)@ == old(self)@.with_element(element@),
            final(self).metadata == old(self).metadata,
    {
        proof {
            lemma_elements_push(self.elements@, element);
        }
        self.elements.push(element);
    }

    /// Appends an element with text and nothing else.
    pub fn push_text(&mut self, kind: ElementKind, text: String, depth: u16)
        ensures
            final(self)@ == old(self)@.with_element(bare(kind, text@, depth)),
            final(self).metadata == old(self).metadata,
    {
        self.push_element(InternalElement::text(kind, text, depth));
    }

    /// Appends an element with text that stands on a page.
    pub fn push_on_page(&mut self, kind: ElementKind, text: String, page: Option<u32>)
        ensures
            final(self)@ == old(self)@.with_element(Element { page, ..bare(kind, text@, 0) }),
            final(self).metadata == old(self).metadata,
    {
        let mut element = InternalElement::text(kind, text, 0);
        element.page = page;
        self.push_element(element);
    }

    /// Appends a block of code.
    pub fn push_code(&mut self, code: &str, language: Option<&str>)
        ensures
            final(self)@ == old(self)@.with_element(code_element(code@, language)),
            final(self).metadata == old(self).metadata,
    {
        let mut element = InternalElement::text(ElementKind::Code, code.to_owned(), 0);
        if let Some(name) = language {
            element.language = Some(name.to_owned());
        }
        self.push_element(element);
    }

    /// Appends a warning.
    pub fn add_warning(&mut self, source: &str, message: String)
        ensures
            final(self)@ == old(self)@.with_warning(source@, message@),
            final(self).metadata == old(self).metadata,
    {
        let ghost before = self.processing_warnings@;
        let warning = ProcessingWarning { source: source.to_owned(), message };
        proof {
            assert(warnings(before.push(warning)) =~= warnings(before).push((source@, message@)));
        }
        self.processing_warnings.push(warning);
    }

    /// Appends a table, and the element that stands for it.
    pub fn push_table(&mut self, table: Table, text: String, page: Option<u32>)
        ensures
            final(self)@ == old(self)@.with_table(table@, text@, page),
            final(self).metadata == old(self).metadata,
    {
        let ghost before = self.tables@;
        let index: u32 = truncate_u32(self.tables.len());
        proof {
            assert(tables(before.push(table)) =~= tables(before).push(table@));
        }
        self.tables.push(table);
        self.push_on_page(ElementKind::Table { table_index: index }, text, page);
    }
}

/// A block of code.
pub open spec fn code_element(code: Seq<char>, language: Option<&str>) -> Element {
    Element {
        language: match language {
            Some(name) => Some(name@),
            None => None,
        },
        ..bare(ElementKind::Code, code, 0)
    }
}

/// A count kept to 32 bits.
pub fn truncate_u32(n: usize) -> (r: u32)
    ensures
        r == n as u32,
{
    n as u32
}

/// The value that a list of named values gives a name; the first one counts.
pub open spec fn value_of(entries: Seq<(Seq<char>, Seq<char>)>, name: Seq<char>) -> Option<Seq<char>>
    decreases entries.len(),
{
    if entries.len() == 0 {
        None
    } else if entries[0].0 == name {
        Some(entries[0].1)
    } else {
        value_of(entries.skip(1), name)
    }
}

/// The value that a list of named values gives a name.
pub fn find_value(entries: &[(String, String)], name: &str) -> (r: Option<String>)
    ensures
        opt_text(r) == value_of(pairs(entries@), name@),
{
    let ghost all = pairs(entries@);
    let mut i: usize = 0;
    proof {
        assert(all.skip(0) =~= all);
    }
    while i < entries.len()
        invariant
            i <= entries.len(),
            all == pairs(entries@),
            value_of(all.skip(i as int), name@) == value_of(all, name@),
        decreases entries.len() - i,
    {
        let entry = &entries[i];
        proof {
            assert(all.skip(i as int)[0] == (entry.0@, entry.1@));
            assert(all.skip(i as int).skip(1) =~= all.skip(i + 1));
        }
        if same_str(entry.0.as_str(), name) {
            return Some(entry.1.clone());
        }
        i = i + 1;
    }
    None
}

impl Content {
    /// The content with one more image, and the element that stands for it. The image gets the next
    /// position among the images.
    pub open spec fn with_image(self, image: ImageData, page: Option<u32>) -> Content {
        let index = self.images.len() as u32;
        Content {
            images: self.images.push(ImageData { image_index: index, page_number: page, ..image }),
            elements: self.elements.push(
                Element {
                    page,
                    ..bare(
                        ElementKind::Image { image_index: index },
                        match image.description {
                            Some(description) => description,
                            None => Seq::empty(),
                        },
                        0,
                    )
                },
            ),
            ..self
        }
    }
}

impl InternalDocument {
    /// Appends an image, and the element that stands for it.
    pub fn push_image(&mut self, image: ExtractedImage, page: Option<u32>) -> (index: u32)
        ensures
            final(self)@ == old(self)@.with_image(image@, page),
            final(self).metadata == old(self).metadata,
            index == old(self)@.images.len() as u32,
    {
        let ghost before = self.images@;
        let index: u32 = truncate_u32(self.images.len());
        let text: String = match &image.description {
            Some(description) => description.clone(),
            None => String::new(),
        };
        let mut stored = image;
        stored.image_index = index;
        stored.page_number = page;
        proof {
            assert(images(before.push(stored)) =~= images(before).push(stored@));
        }
        self.images.push(stored);
        self.push_on_page(ElementKind::Image { image_index: index }, text, page);
        index
    }
}

/// A copy of a list of strings.
pub fn copy_strings(list: &[String]) -> (r: Vec<String>)
    ensures
        text::strings(r@) == text::strings(list@),
{
    let mut out: Vec<String> = Vec::new();
    let mut i: usize = 0;
    while i < list.len()
        invariant
            i <= list.len(),
            out@.len() == i,
            forall|k: int| 0 <= k < i ==> (#[trigger] out@[k])@ == list@[k]@,
        decreases list.len() - i,
    {
        out.push(list[i].clone());
        i = i + 1;
    }
    proof {
        assert(text::strings(out@) =~= text::strings(list@));
    }
    out
}

/// A copy of rows of cells.
pub fn copy_rows(rows: &[Vec<String>]) -> (r: Vec<Vec<String>>)
    ensures
        grid(r@) == grid(rows@),
{
    let mut out: Vec<Vec<String>> = Vec::new();
    let mut i: usize = 0;
    while i < rows.len()
        invariant
            i <= rows.len(),
            out@.len() == i,
            forall|k: int| 0 <= k < i ==> text::strings((#[trigger] out@[k])@) == text::strings(rows@[k]@),
        decreases rows.len() - i,
    {
        out.push(copy_strings(rows[i].as_slice()));
        i = i + 1;
    }
    proof {
        assert(grid(out@) =~= grid(rows@));
    }
    out
}

/// A copy of bytes.
pub fn copy_bytes(bytes: &[u8]) -> (r: Vec<u8>)
    ensures
        r@ == bytes@,
{
    let mut out: Vec<u8> = Vec::new();
    let mut i: usize = 0;
    while i < bytes.len()
        invariant
            i <= bytes.len(),
            out@ == bytes@.take(i as int),
        decreases bytes.len() - i,
    {
        proof {
            assert(bytes@.take(i + 1) =~= bytes@.take(i as int).push(bytes@[i as int]));
        }
        out.push(bytes[i]);
        i = i + 1;
    }
    proof {
        assert(bytes@.take(bytes@.len() as int) =~= bytes@);
    }
    out
}

/// A copy of an optional string.
pub fn copy_option(s: &Option<String>) -> (r: Option<String>)
    ensures
        opt_text(r) == opt_text(*s),
{
    match s {
        Some(string) => Some(string.clone()),
        None => None,
    }
}

/// How many lists are open after some elements.
pub open spec fn open_lists(elements: Seq<Element>) -> int
    decreases elements.len(),
{
    if elements.len() == 0 {
        0
    } else {
        open_lists(elements.drop_last()) + match elements.last().kind {
            ElementKind::ListStart { .. } => 1int,
            ElementKind::ListEnd => -1,
            _ => 0,
        }
    }
}

/// Whether every heading has one of the six levels.
pub open spec fn levels_exist(elements: Seq<Element>) -> bool {
    forall|i: int|
        0 <= i < elements.len() ==> match (#[trigger] elements[i]).kind {
            ElementKind::Heading { level } => 1 <= level <= 6,
            _ => true,
        }
}

} // verus!
