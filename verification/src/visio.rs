//! Visio drawings: from the texts of shapes to paragraphs.
use crate::document;
use crate::document::{ElementKind, InternalDocument};
use crate::error::XbergError;
use crate::json;
use crate::json::{push_member, JsonValue};
use crate::plugin::package_version;
use crate::text;
use crate::text::{chars_of, string_of, trim};
use vstd::prelude::*;

verus! {

/// Whether bytes start like a ZIP package.
pub open spec fn starts_package(content: Seq<u8>) -> bool {
    content.len() >= 4 && content[0] == 0x50 && content[1] == 0x4b && content[2] == 0x03 && content[3] == 0x04
}

/// Whether a drawing is a package of parts, and not one binary stream.
pub fn is_drawing_package(content: &[u8]) -> (r: bool)
    ensures
        r == starts_package(content@),
{
    content.len() >= 4 && content[0] == 0x50 && content[1] == 0x4b && content[2] == 0x03 && content[3] == 0x04
}

/// A text whose lines all end in a line feed, whatever they ended in before.
pub open spec fn normal_lines(s: Seq<char>) -> Seq<char>
    decreases s.len(),
{
    if s.len() == 0 {
        Seq::empty()
    } else if s[0] == '\r' {
        if s.len() > 1 && s[1] == '\n' {
            seq!['\n'] + normal_lines(s.skip(2))
        } else {
            seq!['\n'] + normal_lines(s.skip(1))
        }
    } else {
        seq![s[0]] + normal_lines(s.skip(1))
    }
}

/// Gives the lines of a text the same ending.
pub fn normalize_lines(s: &[char]) -> (r: Vec<char>)
    ensures
        r@ == normal_lines(s@),
{
    let mut out: Vec<char> = Vec::new();
    let mut i: usize = 0;
    proof {
        assert(s@.skip(0) =~= s@);
        assert(Seq::<char>::empty() + normal_lines(s@) =~= normal_lines(s@));
    }
    while i < s.len()
        invariant
            i <= s.len(),
            out@ + normal_lines(s@.skip(i as int)) == normal_lines(s@),
        decreases s.len() - i,
    {
        let ghost before = out@;
        let ghost rest = s@.skip(i as int);
        proof {
            assert(rest.skip(1) =~= s@.skip(i + 1));
            if i + 2 <= s.len() {
                assert(rest.skip(2) =~= s@.skip(i + 2));
            }
        }
        if s[i] == '\r' {
            out.push('\n');
            if i + 1 < s.len() && s[i + 1] == '\n' {
                proof {
                    let tail = normal_lines(s@.skip(i + 2));
                    assert(before.push('\n') + tail =~= before + (seq!['\n'] + tail));
                }
                i = i + 2;
            } else {
                proof {
                    let tail = normal_lines(s@.skip(i + 1));
                    assert(before.push('\n') + tail =~= before + (seq!['\n'] + tail));
                }
                i = i + 1;
            }
        } else {
            out.push(s[i]);
            proof {
                let tail = normal_lines(s@.skip(i + 1));
                assert(before.push(s@[i as int]) + tail =~= before + (seq![s@[i as int]] + tail));
            }
            i = i + 1;
        }
    }
    proof {
        assert(s@.skip(i as int) =~= Seq::<char>::empty());
        assert(out@ + Seq::<char>::empty() =~= out@);
    }
    out
}

/// A text with one kind of line ending has no carriage return, and giving it that ending again does
/// nothing.
pub proof fn law_normal_lines_are_normal(s: Seq<char>)
    ensures
        !normal_lines(s).contains('\r'),
        normal_lines(normal_lines(s)) == normal_lines(s),
    decreases s.len(),
{
    if s.len() > 0 {
        let (head, tail) = if s[0] == '\r' {
            if s.len() > 1 && s[1] == '\n' {
                law_normal_lines_are_normal(s.skip(2));
                ('\n', normal_lines(s.skip(2)))
            } else {
                law_normal_lines_are_normal(s.skip(1));
                ('\n', normal_lines(s.skip(1)))
            }
        } else {
            law_normal_lines_are_normal(s.skip(1));
            (s[0], normal_lines(s.skip(1)))
        };
        let all = seq![head] + tail;
        assert(all == normal_lines(s));
        assert(all.skip(1) =~= tail);
        assert(!all.contains('\r')) by {
            if all.contains('\r') {
                let k = choose|k: int| 0 <= k < all.len() && all[k] == '\r';
                if k > 0 {
                    assert(tail[k - 1] == '\r');
                }
            }
        }
    }
}

/// A document with the texts of shapes; a blank text adds nothing.
pub open spec fn with_shapes(c: document::Content, texts: Seq<Seq<char>>) -> document::Content
    decreases texts.len(),
{
    if texts.len() == 0 {
        c
    } else {
        let before = with_shapes(c, texts.drop_last());
        let t = text::trimmed(normal_lines(texts.last()));
        if t.len() == 0 {
            before
        } else {
            before.with_element(document::bare(ElementKind::Paragraph, t, 0))
        }
    }
}

/// Reads Visio drawings.
#[derive(Clone, Copy, Debug)]
pub struct VisioExtractor;

impl Default for VisioExtractor {
    fn default() -> (r: Self)
        ensures
            r == VisioExtractor,
    {
        VisioExtractor
    }
}

impl VisioExtractor {
    /// The reader.
    pub fn new() -> (r: Self)
        ensures
            r == VisioExtractor,
    {
        VisioExtractor
    }

    /// Its name.
    pub fn name(&self) -> (r: &'static str)
        ensures
            r@ == "visio-extractor"@,
    {
        "visio-extractor"
    }

    /// Its version, which is that of the package.
    pub fn version(&self) -> (r: String)
        ensures
            r@ == "1.0.0"@,
    {
        package_version()
    }

    /// Makes it ready; there is nothing to do.
    pub fn initialize(&self) -> (r: Result<(), XbergError>)
        ensures
            r == (Ok::<(), XbergError>(())),
    {
        Ok(())
    }

    /// Lays it down; there is nothing to do.
    pub fn shutdown(&self) -> (r: Result<(), XbergError>)
        ensures
            r == (Ok::<(), XbergError>(())),
    {
        Ok(())
    }

    /// What it does.
    pub fn description(&self) -> (r: &'static str)
        ensures
            r@ == "Native Visio text extraction (legacy OLE/CFB `.vsd` and OPC `.vsdx` packages)"@,
    {
        "Native Visio text extraction (legacy OLE/CFB `.vsd` and OPC `.vsdx` packages)"
    }

    /// Who wrote it.
    pub fn author(&self) -> (r: &'static str)
        ensures
            r@ == "Xberg Team"@,
    {
        "Xberg Team"
    }

    /// The media types that it reads.
    pub fn supported_mime_types(&self) -> (r: Vec<&'static str>)
        ensures
            r@ == seq![
                "application/vnd.visio",
                "application/vnd.ms-visio.drawing.main+xml",
            ],
    {
        vec![
            "application/vnd.visio",
            "application/vnd.ms-visio.drawing.main+xml",
        ]
    }

    /// Its rank among the readers of a media type.
    pub fn priority(&self) -> (r: i32)
        ensures
            r == 60,
    {
        60
    }
}

impl VisioExtractor {
    /// The document of the texts of a drawing.
    pub fn extract_shapes(&self, texts: &Vec<String>, mime_type: &str) -> (r: InternalDocument)
        ensures
            r@ == with_shapes(
                document::Content { mime_type: mime_type@, ..document::empty_content("visio"@) },
                text::strings(texts@),
            ),
            json::members(r.metadata.additional@) == seq![
                ("extraction_method"@, json::Json::Text("native_visio"@)),
            ],
            document::no_fields(r.metadata),
    {
        let ghost all = text::strings(texts@);
        let mut doc = InternalDocument::new("visio");
        doc.mime_type = mime_type.to_owned();
        let mut additional: Vec<(String, JsonValue)> = Vec::new();
        proof {
            assert(json::members(additional@) =~= Seq::empty());
        }
        push_member(&mut additional, "extraction_method", JsonValue::Text("native_visio".to_owned()));
        doc.metadata.additional = additional;
        let ghost opened = doc@;
        let ghost meta = doc.metadata;
        let mut i: usize = 0;
        while i < texts.len()
            invariant
                i <= texts.len(),
                all == text::strings(texts@),
                doc@ == with_shapes(opened, all.take(i as int)),
                doc.metadata == meta,
            decreases texts.len() - i,
        {
            proof {
                assert(all.take(i + 1).drop_last() =~= all.take(i as int));
                assert(all.take(i + 1).last() == texts@[i as int]@);
            }
            let normal = normalize_lines(chars_of(texts[i].as_str()).as_slice());
            let t = trim(normal.as_slice());
            if t.len() > 0 {
                doc.push_text(ElementKind::Paragraph, string_of(t), 0);
            }
            i = i + 1;
        }
        proof {
            assert(all.take(all.len() as int) =~= all);
        }
        doc
    }
}

} // verus!
