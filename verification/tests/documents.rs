use xberg::doc::{
    looks_like_heading, DocExtractor, DocMetadata, DocParagraph, DocText, ListBinding,
};
use xberg::document::{ElementKind, InternalDocument};
use xberg::visio::{is_drawing_package, normalize_lines, VisioExtractor};

fn paragraph(content: &str, list: Option<(u8, bool)>, heading_level: Option<u8>) -> DocParagraph {
    DocParagraph {
        content: content.to_string(),
        list: list.map(|(level, ordered)| ListBinding { level, ordered }),
        heading_level,
    }
}

fn read(content: &str, paragraphs: Vec<DocParagraph>) -> InternalDocument {
    let metadata = DocMetadata {
        title: Some("Title".to_string()),
        subject: None,
        author: Some("Ada".to_string()),
        last_author: None,
        revision_number: Some("3".to_string()),
    };
    let text = DocText { content: content.to_string(), paragraphs, metadata, processing_warnings: vec![] };
    DocExtractor::new().extract_text(text, "application/msword")
}

#[test]
fn test_doc_extractor_plugin_interface() {
    let extractor = DocExtractor::new();
    assert_eq!(extractor.name(), "doc-extractor");
    assert_eq!(extractor.version(), "1.0.0");
    assert_eq!(extractor.priority(), 60);
    assert_eq!(extractor.supported_mime_types(), vec!["application/msword"]);
}

#[test]
fn test_doc_extractor_initialize_shutdown() {
    let extractor = DocExtractor::new();
    assert!(extractor.initialize().is_ok());
    assert!(extractor.shutdown().is_ok());
}

#[test]
fn lists_are_opened_and_closed_in_their_order() {
    let doc = read(
        "",
        vec![
            paragraph("one", Some((0, true)), None),
            paragraph("inner", Some((1, false)), None),
            paragraph("two", Some((0, true)), None),
            paragraph("after the list", None, None),
        ],
    );
    let kinds: Vec<ElementKind> = doc.elements.iter().map(|e| e.kind).collect();
    assert_eq!(
        kinds,
        vec![
            ElementKind::ListStart { ordered: true },
            ElementKind::ListItem { ordered: true },
            ElementKind::ListStart { ordered: false },
            ElementKind::ListItem { ordered: false },
            ElementKind::ListEnd,
            ElementKind::ListItem { ordered: true },
            ElementKind::ListEnd,
            ElementKind::Paragraph,
        ]
    );
}

#[test]
fn heading_styles_win_over_the_shape_of_lines() {
    let doc = read(
        "",
        vec![
            paragraph("Chapter", None, Some(1)),
            paragraph("Short line", None, None),
            paragraph("A line that is long enough to follow a short one.", None, None),
            paragraph("Section", None, Some(3)),
        ],
    );
    let levels: Vec<u8> = doc
        .elements
        .iter()
        .filter_map(|e| match e.kind {
            ElementKind::Heading { level } => Some(level),
            _ => None,
        })
        .collect();
    assert_eq!(levels, vec![1, 3]);
}

#[test]
fn without_heading_styles_the_shape_of_lines_decides() {
    assert!(looks_like_heading("Short line", Some("A line that is long enough to follow a short one.")));
    assert!(!looks_like_heading("A sentence.", Some("A line that is long enough to follow a short one.")));
    assert!(!looks_like_heading("Short line", None));
    let doc = read("Short line\n\nA line that is long enough to follow a short one.", vec![]);
    assert!(!doc.elements.is_empty());
    assert!(!doc.elements.iter().any(|e| matches!(
        e.kind,
        ElementKind::ListStart { .. } | ElementKind::ListEnd | ElementKind::ListItem { .. }
    )));
    assert_eq!(doc.metadata.title.as_deref(), Some("Title"));
    assert_eq!(doc.metadata.authors, Some(vec!["Ada".to_string()]));
}

#[test]
fn visio_extractor_describes_itself() {
    let extractor = VisioExtractor::new();
    assert_eq!(extractor.name(), "visio-extractor");
    assert!(extractor.initialize().is_ok());
    assert!(extractor.shutdown().is_ok());
    assert!(extractor.supported_mime_types().contains(&"application/vnd.visio"));
}

#[test]
fn packages_are_told_by_their_first_bytes() {
    assert!(is_drawing_package(b"PK\x03\x04rest"));
    assert!(!is_drawing_package(b"PK"));
    assert!(!is_drawing_package(b"\xd0\xcf\x11\xe0rest"));
}

#[test]
fn lines_of_shapes_end_in_line_feeds() {
    let chars: Vec<char> = "a\r\nb\rc\nd".chars().collect();
    let normal: String = normalize_lines(&chars).into_iter().collect();
    assert_eq!(normal, "a\nb\nc\nd");
}

#[test]
fn shapes_with_text_become_paragraphs() {
    let texts = vec!["Start\r\n".to_string(), "   ".to_string(), "End".to_string()];
    let doc = VisioExtractor::new().extract_shapes(&texts, "application/vnd.visio");
    let found: Vec<&str> = doc.elements.iter().map(|e| e.text.as_str()).collect();
    assert_eq!(found, vec!["Start", "End"]);
    assert_eq!(doc.mime_type, "application/vnd.visio");
    assert_eq!(doc.metadata.additional[0].0, "extraction_method");
}
