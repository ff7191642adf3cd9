use xberg::config::{ExtractionConfig, OutputFormat};
use xberg::document::{ElementKind, FormatMetadata, InternalDocument};
use xberg::error::XbergError;
use xberg::security::{SecurityBudget, SecurityLimits};
use xberg::xml::{
    build_internal_document, decode_xml_to_utf8, diagram_to_recover, tally_elements, wants_dot_output, DiagramSource,
    XmlExtractor,
};

fn nested_xml(start_elements: usize, empty_leaf: bool) -> Vec<u8> {
    let mut xml = String::new();
    for _ in 0..start_elements {
        xml.push_str("<node>");
    }
    if empty_leaf {
        xml.push_str("<leaf/>");
    }
    for _ in 0..start_elements {
        xml.push_str("</node>");
    }
    xml.into_bytes()
}

fn assert_valid_heading_levels(doc: &InternalDocument) {
    for element in &doc.elements {
        let ElementKind::Heading { level } = element.kind else {
            continue;
        };
        assert!(
            (1..=6).contains(&level),
            "heading level must stay in 1..=6, got {level} at depth {}",
            element.depth
        );
    }
}

#[test]
fn deeply_nested_start_elements_clamp_heading_level_before_narrowing() {
    let content = nested_xml(256, false);
    let mut budget = SecurityBudget::with_defaults();

    let doc = build_internal_document(&content, "application/xml", &mut budget)
        .expect("depths within the default security limit must extract without overflow");

    assert_eq!(doc.elements.len(), 256);
    assert_eq!(doc.elements.last().map(|element| element.depth), Some(255));
    assert_eq!(
        doc.elements.last().map(|element| &element.kind),
        Some(&ElementKind::Heading { level: 6 })
    );
    assert_valid_heading_levels(&doc);
}

#[test]
fn deeply_nested_empty_element_clamps_heading_level_before_narrowing() {
    let content = nested_xml(255, true);
    let mut budget = SecurityBudget::with_defaults();

    let doc = build_internal_document(&content, "application/xml", &mut budget)
        .expect("an empty element within the default security limit must not overflow");

    assert_eq!(doc.elements.len(), 256);
    assert_eq!(doc.elements.last().map(|element| element.depth), Some(255));
    assert_eq!(
        doc.elements.last().map(|element| &element.kind),
        Some(&ElementKind::Heading { level: 6 })
    );
    assert_valid_heading_levels(&doc);
}

#[test]
fn deeply_nested_xml_still_respects_configured_security_limit() {
    let content = nested_xml(256, false);
    let limits = SecurityLimits {
        max_xml_depth: 255,
        max_nesting_depth: 255,
        ..Default::default()
    };
    let mut budget = SecurityBudget::from_limits(&limits);

    let error = build_internal_document(&content, "application/xml", &mut budget)
        .expect_err("depth beyond the configured limit must be rejected");

    match error {
        XbergError::Security { message, .. } => {
            assert_eq!(message, "Nesting too deep: 256 levels (max: 255)");
        }
        other => panic!("expected a security error, got {other:?}"),
    }
}

#[test]
fn test_xml_extractor() {
    let extractor = XmlExtractor::new();
    let content = b"<root><item>Hello</item><item>World</item></root>";
    let config = ExtractionConfig::default();

    let result = extractor
        .extract_sync(content, "application/xml", &config, None)
        .unwrap();

    assert!(result.metadata.format.is_some());
    let xml_meta = match result.metadata.format.as_ref().unwrap() {
        FormatMetadata::Xml(meta) => meta,
        _ => panic!("Expected Xml metadata"),
    };
    assert_eq!(xml_meta.element_count, 3);
    assert!(xml_meta.unique_elements.contains(&"root".to_string()));
    assert!(xml_meta.unique_elements.contains(&"item".to_string()));
}

#[test]
fn test_xml_plugin_interface() {
    let extractor = XmlExtractor::new();
    assert_eq!(extractor.name(), "xml-extractor");
    assert_eq!(extractor.version(), "1.0.0");
    assert_eq!(
        extractor.supported_mime_types(),
        vec![
            "application/xml",
            "text/xml",
            "application/vnd.google-earth.kml+xml",
            "image/svg+xml",
            "application/x-endnote+xml",
            "application/vnd.oasis.opendocument.graphics-flat-xml"
        ]
    );
    assert_eq!(extractor.priority(), 50);
}

fn decode_warnings(doc: &InternalDocument) -> Vec<String> {
    doc.processing_warnings
        .iter()
        .filter(|w| w.source == "xml" && w.message.contains("not valid UTF-8"))
        .map(|w| w.message.to_string())
        .collect()
}

#[test]
fn should_warn_when_declared_encoding_does_not_match_the_bytes() {
    let extractor = XmlExtractor::new();
    let config = ExtractionConfig::default();
    let mut content = b"<?xml version=\"1.0\" encoding=\"UTF-8\"?><root>".to_vec();
    content.extend_from_slice(&[0xFF, 0xFE]);
    content.extend_from_slice(b"</root>");

    let result = extractor
        .extract_sync(&content, "application/xml", &config, None)
        .expect("extraction of a mismatched declared encoding must still succeed");

    let warnings = decode_warnings(&result);
    assert_eq!(
        warnings.len(),
        1,
        "expected exactly one decode warning, got {warnings:?}"
    );
    assert!(
        warnings[0].contains("replacement character"),
        "warning must describe the lossy decode, got {warnings:?}"
    );
}

#[test]
fn valid_utf8_xml_source_produces_zero_decode_warnings() {
    let extractor = XmlExtractor::new();
    let config = ExtractionConfig::default();
    let content = b"<?xml version=\"1.0\" encoding=\"UTF-8\"?><root>Hello</root>";

    let result = extractor
        .extract_sync(content, "application/xml", &config, None)
        .expect("extraction should succeed");

    assert!(
        decode_warnings(&result).is_empty(),
        "valid UTF-8 must not warn about a lossy decode, got {:?}",
        decode_warnings(&result)
    );
}

#[test]
fn kml_uses_xml_extraction_and_preserves_its_mime_type() {
    assert!(XmlExtractor::new()
        .supported_mime_types()
        .contains(&"application/vnd.google-earth.kml+xml"));
    let content = br#"<kml xmlns="http://www.opengis.net/kml/2.2"><Placemark><name>Berlin</name></Placemark></kml>"#;
    let doc = XmlExtractor::new()
        .extract_sync(content, "application/vnd.google-earth.kml+xml", &ExtractionConfig::default(), None)
        .expect("extracts");
    assert_eq!(doc.mime_type, "application/vnd.google-earth.kml+xml");
    let texts: Vec<&str> = doc.elements.iter().map(|e| e.text.as_str()).collect();
    assert_eq!(texts, vec!["kml", "Placemark", "name", "Berlin"]);
    let depths: Vec<u16> = doc.elements.iter().map(|e| e.depth).collect();
    assert_eq!(depths, vec![0, 1, 2, 2]);
}

#[test]
fn entities_and_sections_of_text_are_resolved() {
    let doc = build_internal_document(
        b"<r a=\"1 &lt; 2\">x &amp; y<![CDATA[<raw>]]></r>",
        "application/xml",
        &mut SecurityBudget::with_defaults(),
    )
    .expect("extracts");
    let texts: Vec<&str> = doc.elements.iter().map(|e| e.text.as_str()).collect();
    assert!(texts.contains(&"x & y"), "{texts:?}");
    assert!(texts.contains(&"<raw>"), "{texts:?}");
}

#[test]
fn broken_markup_is_reported_and_what_was_read_is_kept() {
    let doc = build_internal_document(b"<a><b>kept</b><c", "application/xml", &mut SecurityBudget::with_defaults())
        .expect("extracts");
    assert!(doc.elements.iter().any(|e| e.text == "kept"));
    assert!(!doc.processing_warnings.is_empty());
}

#[test]
fn bytes_are_decoded_as_declared() {
    let (decoded, replaced) =
        decode_xml_to_utf8(b"<?xml version=\"1.0\" encoding=\"ISO-8859-1\"?><r>\xe9</r>");
    assert!(!replaced);
    assert!(decoded.contains("<r>\u{e9}</r>"), "{decoded}");
}

#[test]
fn elements_are_counted_and_named_once() {
    let meta = tally_elements("<a><b/><b/><c>x</c></a>");
    assert_eq!(meta.element_count, 4);
    assert_eq!(meta.unique_elements, vec!["a", "b", "c"]);
}

#[test]
fn graph_output_is_an_option() {
    let mut config = ExtractionConfig::default();
    assert!(!wants_dot_output(&config));
    config.output_format = OutputFormat::Custom("dot".to_string());
    assert!(wants_dot_output(&config));
}

#[test]
fn should_warn_when_undeclared_source_is_not_valid_utf8() {
    let mut content = b"<root>".to_vec();
    content.extend_from_slice(&[0xFF, 0xFE]);
    content.extend_from_slice(b"</root>");
    let result = XmlExtractor::new()
        .extract_sync(&content, "application/xml", &ExtractionConfig::default(), None)
        .expect("extraction of invalid UTF-8 must still succeed");
    let warnings = decode_warnings(&result);
    assert_eq!(warnings.len(), 1, "expected exactly one decode warning, got {warnings:?}");
    assert!(
        warnings[0].contains("replacement character"),
        "warning must describe the lossy decode, got {warnings:?}"
    );
}

#[test]
fn diagrams_are_recovered_where_a_rendering_asks_for_them() {
    let dot = ExtractionConfig {
        output_format: OutputFormat::Custom("dot".to_string()),
        ..ExtractionConfig::default()
    };
    let flat = "application/vnd.oasis.opendocument.graphics-flat-xml";
    assert_eq!(diagram_to_recover("image/svg+xml", &dot), Some(DiagramSource::Svg));
    assert_eq!(diagram_to_recover(flat, &dot), Some(DiagramSource::FlatDrawing));
    assert_eq!(diagram_to_recover("application/xml", &dot), None);
    assert_eq!(diagram_to_recover("image/svg+xml", &ExtractionConfig::default()), None);
    let read = |mime_type: &str, config: &ExtractionConfig, recovered: Option<String>| {
        XmlExtractor::new().extract_sync(b"<svg/>", mime_type, config, recovered).expect("extracts").diagrams
    };
    let graph = || Some("a -> b".to_string());
    assert_eq!(read("image/svg+xml", &dot, graph()), vec!["a -> b"]);
    assert_eq!(read(flat, &dot, graph()), vec!["a -> b"]);
    assert!(read("image/svg+xml", &dot, None).is_empty());
    assert!(read("application/xml", &dot, graph()).is_empty());
    assert!(read("image/svg+xml", &ExtractionConfig::default(), graph()).is_empty());
}
