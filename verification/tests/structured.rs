use xberg::config::{ExtractionConfig, GeoJsonExtractionConfig};
use xberg::document::{ElementKind, InternalDocument};
use xberg::error::XbergError;
use xberg::geojson::{parse_geojson_summary, summarize_within_limits, MAX_GEOJSON_NAME_BYTES};
use xberg::json::{Double, JsonNumber, JsonValue};
use xberg::security::{SecurityBudget, SecurityLimits};
use xberg::structured::{list_leaves, read_value, report_leaves, source_format, StructureBuilder, StructuredDataResult, StructuredExtractor};

const FEATURE_COLLECTION: &[u8] = br#"{
    "type": "FeatureCollection",
    "name": "cities",
    "features": [
        {
            "type": "Feature",
            "properties": {"name": "Berlin", "population": 3645000},
            "geometry": {"type": "Point", "coordinates": [13.405, 52.52]}
        },
        {
            "type": "Feature",
            "properties": {"name": "Paris", "capital": true},
            "geometry": {
                "type": "LineString",
                "coordinates": [[2.20, 48.80], [2.35, 48.86], [2.45, 48.90]]
            }
        }
    ]
}"#;

/// A parsed value as a value of the library.
fn value_of(value: &serde_json::Value) -> JsonValue {
    match value {
        serde_json::Value::Null => JsonValue::Null,
        serde_json::Value::Bool(b) => JsonValue::Bool(*b),
        serde_json::Value::Number(n) => JsonValue::Number(JsonNumber {
            text: n.to_string(),
            integer: n.is_i64() || n.is_u64(),
            double: n.as_f64().map(|d| Double {
                bits: d.to_bits(),
                text: serde_json::Number::from_f64(d).map(|m| m.to_string()).unwrap_or_default(),
            }),
        }),
        serde_json::Value::String(s) => JsonValue::Text(s.clone()),
        serde_json::Value::Array(items) => JsonValue::Array(items.iter().map(value_of).collect()),
        serde_json::Value::Object(members) => {
            JsonValue::Object(members.iter().map(|(name, v)| (name.clone(), value_of(v))).collect())
        }
    }
}

/// A value of the library as a parsed value.
fn parsed(value: &JsonValue) -> serde_json::Value {
    match value {
        JsonValue::Null => serde_json::Value::Null,
        JsonValue::Bool(b) => serde_json::Value::Bool(*b),
        JsonValue::Number(n) => serde_json::from_str(&n.text).expect("a number"),
        JsonValue::Text(s) => serde_json::Value::String(s.clone()),
        JsonValue::Array(items) => serde_json::Value::Array(items.iter().map(parsed).collect()),
        JsonValue::Object(members) => {
            serde_json::Value::Object(members.iter().map(|(name, v)| (name.clone(), parsed(v))).collect())
        }
    }
}

fn json(text: &str) -> JsonValue {
    value_of(&serde_json::from_str(text).expect("valid JSON"))
}

fn summary(text: &str) -> serde_json::Value {
    parsed(&parse_geojson_summary(text.as_bytes(), &ExtractionConfig::default()).expect("within the ceilings"))
}

fn read(content: &[u8], mime_type: &str, config: &ExtractionConfig) -> InternalDocument {
    StructuredExtractor::new().extract_content(content, mime_type, config).expect("within the ceilings")
}

fn collection() -> &'static str {
    std::str::from_utf8(FEATURE_COLLECTION).expect("valid UTF-8")
}

/// The elements of a document in the notation of Markdown headings and list items.
fn outline(doc: &InternalDocument) -> String {
    let mut out = String::new();
    for element in &doc.elements {
        match element.kind {
            ElementKind::Heading { level } => {
                out.push_str(&format!("{} {}\n", "#".repeat(level as usize), element.text))
            }
            ElementKind::ListItem { .. } => out.push_str(&format!("- {}\n", element.text)),
            ElementKind::ListStart { .. } | ElementKind::ListEnd => {}
            _ => out.push_str(&format!("{}\n", element.text)),
        }
    }
    out
}

#[test]
fn test_structured_extractor_plugin_interface() {
    let extractor = StructuredExtractor::new();
    assert_eq!(extractor.name(), "structured-extractor");
    assert!(extractor.initialize().is_ok());
    assert!(extractor.shutdown().is_ok());
}

#[test]
fn test_structured_extractor_supported_mime_types() {
    let extractor = StructuredExtractor::new();
    let mime_types = extractor.supported_mime_types();
    assert_eq!(mime_types.len(), 14);
    assert!(mime_types.contains(&"application/json"));
    assert!(mime_types.contains(&"application/x-ndjson"));
    assert!(mime_types.contains(&"application/jsonl"));
    assert!(mime_types.contains(&"application/x-jsonlines"));
    assert!(mime_types.contains(&"application/x-yaml"));
    assert!(mime_types.contains(&"application/toml"));
    assert!(mime_types.contains(&"application/csl+json"));
    assert!(mime_types.contains(&"application/geo+json"));
}

#[test]
fn test_json_array_objects_render_as_nested_markdown() {
    let value = json(
        r#"{"people": [
            {"name": "Ada", "details": {"role": "Engineer", "active": true}},
            {"name": "Grace", "skills": ["compilers", "mathematics"]}
        ]}"#,
    );
    let mut builder = StructureBuilder::new("json", SecurityBudget::with_defaults());
    builder.build_json_internal_structure(&value, 1);
    assert!(!builder.ledger.failed());
    let markdown = outline(&builder.doc);
    for wanted in [
        "# people",
        "## Item 1",
        "name: Ada",
        "### details",
        "role: Engineer",
        "active: true",
        "## Item 2",
        "name: Grace",
        "- compilers",
        "- mathematics",
    ] {
        assert!(markdown.contains(wanted), "missing {wanted}: {markdown}");
    }
    assert!(!markdown.contains("{\"name\""), "an object stayed compact: {markdown}");
}

fn data(value: JsonValue, format: &str) -> StructuredDataResult {
    StructuredDataResult {
        content: String::new(),
        format: format.to_string(),
        text_fields: vec![],
        flattened: vec![],
        metadata: vec![],
        value: Some(value),
    }
}

fn additional(doc: &InternalDocument, name: &str) -> Option<serde_json::Value> {
    doc.metadata.additional.iter().find(|(n, _)| n == name).map(|(_, v)| parsed(v))
}

#[test]
fn geojson_uses_json_extraction_and_preserves_its_mime_type() {
    assert!(StructuredExtractor::new().supported_mime_types().contains(&"application/geo+json"));
    let doc = read(
        br#"{"type":"Point","coordinates":[13.4,52.5]}"#,
        "application/geo+json",
        &ExtractionConfig::default(),
    );
    assert_eq!(doc.mime_type, "application/geo+json");
    assert_eq!(additional(&doc, "data_format"), Some(serde_json::Value::from("json")));
    let rendered = outline(&doc);
    assert!(rendered.contains("type: Point"), "{rendered}");
    assert!(rendered.contains("position_count: 1"), "{rendered}");
    assert!(rendered.contains("bounds"), "{rendered}");
    assert!(!rendered.contains("\ncoordinates\n"), "{rendered}");
    assert_eq!(doc.processing_warnings.len(), 1);
    assert_eq!(doc.processing_warnings[0].source, "geojson");
    assert_eq!(additional(&doc, "geojson_summarized"), Some(serde_json::Value::Bool(true)));
}

#[test]
fn geojson_full_coordinates_require_explicit_opt_in() {
    let config = ExtractionConfig {
        geojson: Some(GeoJsonExtractionConfig { include_full_coordinates: true }),
        ..ExtractionConfig::default()
    };
    let doc = read(FEATURE_COLLECTION, "application/geo+json", &config);
    let rendered = outline(&doc);
    assert!(rendered.contains("13.405") && rendered.contains("52.52"), "{rendered}");
    assert!(doc.processing_warnings.is_empty());
    assert_eq!(additional(&doc, "geojson_summarized"), Some(serde_json::Value::Bool(false)));
    assert!(additional(&doc, "geojson_summary").is_none());
}

#[test]
fn ordinary_json_keeps_full_coordinate_named_arrays() {
    let doc = read(br#"{"coordinates":[[1,2],[3,4]]}"#, "application/json", &ExtractionConfig::default());
    let rendered = outline(&doc).replace("- ", "");
    assert!(rendered.contains("1\n2"), "{rendered}");
    assert!(additional(&doc, "geojson_summarized").is_none());
}

#[test]
fn unknown_media_types_are_rejected() {
    assert_eq!(source_format("application/json"), "json");
    assert_eq!(source_format("application/toml"), "toml");
    let result = data(JsonValue::Null, "json");
    assert!(matches!(
        StructuredExtractor::new().extract_parsed(&result, "text/plain", &ExtractionConfig::default()),
        Err(XbergError::UnsupportedFormat(_))
    ));
}

#[test]
fn geojson_summary_aggregates_features_properties_geometry_and_bounds() {
    let summary = summary(collection());
    assert_eq!(summary["type"], "FeatureCollection");
    assert_eq!(summary["feature_count"], 2);
    assert_eq!(summary["position_count"], 4);
    let bounds: Vec<f64> = summary["bounds"].as_array().unwrap().iter().map(|n| n.as_f64().unwrap()).collect();
    assert_eq!(bounds, vec![2.2, 48.8, 13.405, 52.52]);
    assert_eq!(summary["geometry_types"]["Point"], 1);
    assert_eq!(summary["geometry_types"]["LineString"], 1);
    let keys: Vec<&str> = summary["property_keys"].as_array().unwrap().iter().map(|k| k.as_str().unwrap()).collect();
    assert_eq!(keys, vec!["capital", "name", "population"]);
    assert!(!summary.to_string().contains("Berlin"));
}

#[test]
fn geojson_summary_output_stays_bounded_for_large_coordinate_arrays() {
    let positions: Vec<String> = (0..10_000).map(|i| format!("[{},{}]", i, i + 1)).collect();
    let text = format!("{{\"type\":\"LineString\",\"coordinates\":[{}]}}", positions.join(","));
    let summary = summary(&text);
    assert!(summary.to_string().len() < 2_000);
    assert_eq!(summary["position_count"], 10_000);
    let doc = read(text.as_bytes(), "application/geo+json", &ExtractionConfig::default());
    assert!(outline(&doc).len() < 2_000, "document was {}", outline(&doc));
}

#[test]
fn geojson_summary_bounds_names_property_keys_and_unknown_geometry_types() {
    let geometries: Vec<String> = (0..1_000).map(|i| format!("{{\"type\":\"FakeGeometry{i}\"}}")).collect();
    let mut properties: Vec<String> =
        (0..300).map(|i| format!("\"property_{i:03}_{}\":{i}", "x".repeat(80))).collect();
    properties.push(format!("\"{}\":\"oversized key\"", "k".repeat(10_000)));
    let text = format!(
        "{{\"type\":\"FeatureCollection\",\"name\":\"{}\",\"features\":[{{\"type\":\"Feature\",\"properties\":{{{}}},\"geometry\":{{\"type\":\"GeometryCollection\",\"geometries\":[{}]}}}}]}}",
        "n".repeat(10_000),
        properties.join(","),
        geometries.join(",")
    );
    let summary = summary(&text);
    let encoded = summary.to_string();
    assert!(encoded.len() < 8 * 1024, "summary was {} bytes", encoded.len());
    assert_eq!(summary["name"].as_str().unwrap().len(), MAX_GEOJSON_NAME_BYTES);
    assert_eq!(summary["name_truncated"], true);
    assert_eq!(summary["property_count"], 301);
    assert_eq!(summary["property_keys_truncated"], true);
    assert_eq!(summary["geometry_types"]["Unknown"], 1_000);
    assert!(!encoded.contains("FakeGeometry999"));
    let doc = read(text.as_bytes(), "application/geo+json", &ExtractionConfig::default());
    assert!(outline(&doc).len() < 8 * 1024, "document was {} bytes", outline(&doc).len());
}

fn discarded(summary: &serde_json::Value) -> Vec<String> {
    summary["discarded_categories"]
        .as_array()
        .unwrap()
        .iter()
        .map(|c| c.as_str().unwrap().to_string())
        .collect()
}

#[test]
fn geojson_summary_discloses_every_discarded_category() {
    let found = discarded(&summary(
        r#"{"type":"Feature","id":"feature-1","bbox":[1,2,3,4],"foreign":{"nested":[1,2,3]},
            "properties":{"name":"Berlin"},
            "geometry":{"type":"Point","coordinates":[13.4,52.5],"foreignGeometry":true}}"#,
    ));
    for category in [
        "coordinate_arrays",
        "feature_property_values",
        "feature_ids",
        "declared_bounding_boxes",
        "foreign_members",
    ] {
        assert!(found.iter().any(|c| c == category), "missing {category}");
    }
}

#[test]
fn geojson_discarded_categories_only_report_values_that_were_omitted() {
    for properties in ["null", "{}"] {
        let text = format!("{{\"type\":\"Feature\",\"properties\":{properties},\"geometry\":null}}");
        let found = discarded(&summary(&text));
        assert!(found.iter().any(|c| c == "feature_structure"));
        assert!(!found.iter().any(|c| c == "feature_property_values"));
    }
}

#[test]
fn geojson_positions_require_two_or_more_numeric_ordinates() {
    let summary = summary(
        r#"{"type":"GeometryCollection","geometries":[
            {"type":"Point","coordinates":[1,2,3]},
            {"type":"Point","coordinates":[4]},
            {"type":"Point","coordinates":[5,"bad"]},
            {"type":"Point","coordinates":[]}
        ]}"#,
    );
    assert_eq!(summary["position_count"], 1);
    let bounds: Vec<f64> = summary["bounds"].as_array().unwrap().iter().map(|n| n.as_f64().unwrap()).collect();
    assert_eq!(bounds, vec![1.0, 2.0, 1.0, 2.0]);
    assert_eq!(summary["malformed_position_array_count"], 2);
    assert_eq!(summary["empty_coordinate_array_count"], 1);
}

#[test]
fn geojson_summary_validates_coordinate_shape_for_each_geometry_type() {
    let summary = summary(
        r#"{"type":"GeometryCollection","geometries":[
            {"type":"Point","coordinates":[[1,2],[3,4]]},
            {"type":"LineString","coordinates":[1,2]},
            {"type":"LineString","coordinates":[[10,11],[12,13]]},
            {"type":"Polygon","coordinates":[[[20,21],[22,23],[24,25],[20,21]]]},
            {"type":"Polygon","coordinates":[[[30,31],[32,33],[34,35],[36,37]]]},
            {"type":"MultiPoint","coordinates":[[40,41],[42,43,44]]},
            {"type":"MultiLineString","coordinates":[[[50,51],[52,53]]]},
            {"type":"MultiPolygon","coordinates":[[[[60,61],[62,63],[64,65],[60,61]]]]},
            {"type":"GeometryCollection","coordinates":[70,71],"geometries":[]}
        ]}"#,
    );
    assert_eq!(summary["invalid_geometry_count"], 4);
    assert_eq!(summary["position_count"], 14);
    let bounds: Vec<f64> = summary["bounds"].as_array().unwrap().iter().map(|n| n.as_f64().unwrap()).collect();
    assert_eq!(bounds, vec![10.0, 11.0, 64.0, 65.0]);
}

fn limited(limits: SecurityLimits) -> ExtractionConfig {
    ExtractionConfig { security_limits: Some(limits), ..ExtractionConfig::default() }
}

#[test]
fn geojson_summary_validates_depth_inside_discarded_values() {
    let content = r#"{"type":"Feature","properties":{"ignored":{"a":{"b":{"c":1}}}},"geometry":null}"#;
    let config = limited(SecurityLimits { max_nesting_depth: 3, max_xml_depth: 3, ..SecurityLimits::default() });
    assert!(matches!(
        StructuredExtractor::new().extract_content(content.as_bytes(), "application/geo+json", &config),
        Err(XbergError::Security { .. })
    ));
}

#[test]
fn geojson_summary_honors_iteration_security_limit() {
    let config = limited(SecurityLimits { max_iterations: 2, ..SecurityLimits::default() });
    assert!(matches!(
        StructuredExtractor::new().extract_content(FEATURE_COLLECTION, "application/geo+json", &config),
        Err(XbergError::Security { .. })
    ));
}

#[test]
fn geojson_summary_honors_input_size_security_limit() {
    let config = limited(SecurityLimits { max_content_size: 10, ..SecurityLimits::default() });
    assert!(matches!(
        StructuredExtractor::new().extract_content(FEATURE_COLLECTION, "application/geo+json", &config),
        Err(XbergError::Security { .. })
    ));
    assert!(matches!(
        StructuredExtractor::new().extract_content(b"not JSON at all", "application/geo+json", &config),
        Err(XbergError::Security { .. })
    ));
}

#[test]
fn every_default_geojson_shape_is_explicitly_marked_as_summarized() {
    for content in [
        "null",
        "{}",
        r#"{"properties":{"name":"value"}}"#,
        r#"{"type":"Feature","properties":null,"geometry":null}"#,
        r#"{"type":"Point","coordinates":[]}"#,
        r#"{"type":"Point","coordinates":[1,"bad",3]}"#,
    ] {
        let doc = read(content.as_bytes(), "application/geo+json", &ExtractionConfig::default());
        assert_eq!(additional(&doc, "geojson_summarized"), Some(serde_json::Value::Bool(true)));
        assert_eq!(doc.processing_warnings.len(), 1);
    }
}

#[test]
fn geojson_vendor_alias_has_identical_summary_and_rendering() {
    let config = ExtractionConfig::default();
    let canonical = read(FEATURE_COLLECTION, "application/geo+json", &config);
    let alias = read(FEATURE_COLLECTION, "application/vnd.geo+json", &config);
    assert_eq!(outline(&canonical), outline(&alias));
    assert!(additional(&canonical, "geojson_summary").is_some());
    assert_eq!(additional(&canonical, "geojson_summary"), additional(&alias, "geojson_summary"));
}

fn failure(content: &[u8], mime_type: &str) -> String {
    match StructuredExtractor::new().extract_content(content, mime_type, &ExtractionConfig::default()) {
        Err(XbergError::Parsing { message, source: None }) => message,
        other => panic!("expected a parsing error, got {other:?}"),
    }
}

#[test]
fn unreadable_data_tell_why() {
    let message = failure(b"{", "application/geo+json");
    assert_eq!(message, "Failed to parse GeoJSON: EOF while parsing an object at line 1 column 1");
    let message = failure(b"{", "application/json");
    assert_eq!(message, "Failed to parse json: EOF while parsing an object at line 1 column 1");
    assert!(failure(b"{\"a\":1}\n{", "application/jsonl").starts_with("Failed to parse jsonl: EOF"));
    assert!(failure(b"a: 1\na: 2\n", "application/yaml").starts_with("Failed to parse yaml: "));
    assert_eq!(failure(b"a: \xFF", "application/yaml"), "Failed to parse yaml: the data are not valid UTF-8");
    assert!(failure(b"a = ", "application/toml").starts_with("Failed to parse toml: TOML parse error"));
}

#[test]
fn values_of_each_format_are_read() {
    let config = ExtractionConfig::default();
    let value = |content: &[u8], mime_type: &str| parsed(&read_value(content, mime_type, &config).expect("a value"));
    let json = value(br#"{"b":[1,2.5,null,true,"x"],"a":-3}"#, "text/json");
    assert_eq!(json["b"][1], 2.5);
    assert_eq!(json["b"][4], "x");
    assert_eq!(json["a"], -3);
    let rows = value(b"{\"a\":1}\n\n[2]\r\n", "application/x-ndjson");
    assert_eq!(rows[0]["a"], 1);
    assert_eq!(rows[1][0], 2);
    assert_eq!(rows.as_array().unwrap().len(), 2);
    let yaml = value(b"title: Report\nlist:\n  - 1\n  - two\n", "text/yaml");
    assert_eq!(yaml["title"], "Report");
    assert_eq!(yaml["list"][1], "two");
    let toml = value(
        b"title = \"Report\"\nwhen = 1979-05-27T07:32:00Z\n[owner]\nages = [1, 2.5]\nnone = nan\n",
        "text/toml",
    );
    assert_eq!(toml["title"], "Report");
    assert_eq!(toml["when"], "1979-05-27T07:32:00Z");
    assert_eq!(toml["owner"]["ages"][1], 2.5);
    assert!(toml["owner"]["none"].is_null());
    assert!(matches!(
        read_value(b"a", "text/plain", &config),
        Err(XbergError::UnsupportedFormat(_))
    ));
}

#[test]
fn numbers_keep_their_digits_and_their_doubles() {
    let value = read_value(b"[10, 1.50]", "application/json", &ExtractionConfig::default()).expect("a value");
    match &value {
        JsonValue::Array(items) => match (&items[0], &items[1]) {
            (JsonValue::Number(ten), JsonValue::Number(fraction)) => {
                assert!(ten.integer && !fraction.integer);
                assert_eq!(ten.text, "10");
                assert_eq!(ten.double.as_ref().map(|d| (d.bits, d.text.as_str())), Some((10f64.to_bits(), "10.0")));
                assert_eq!(fraction.text, "1.5");
                assert_eq!(fraction.double.as_ref().map(|d| d.bits), Some(1.5f64.to_bits()));
            }
            other => panic!("expected two numbers, got {other:?}"),
        },
        other => panic!("expected a list, got {other:?}"),
    }
}

#[test]
fn parsed_data_are_summarised_within_the_ceilings() {
    let value = json(collection());
    let found = summarize_within_limits(&value, &ExtractionConfig::default()).expect("within the ceilings");
    assert_eq!(parsed(&found)["feature_count"], 2);
    let config = limited(SecurityLimits { max_iterations: 2, ..SecurityLimits::default() });
    assert!(matches!(summarize_within_limits(&value, &config), Err(XbergError::Security { .. })));
}

#[test]
fn names_count_in_the_notation_of_json() {
    let listed = |name: String| {
        let escaped = serde_json::to_string(&name).expect("a string");
        let text = format!("{{\"type\":\"Feature\",\"properties\":{{{escaped}:1}},\"geometry\":null}}");
        summary(&text)["property_keys"].as_array().unwrap().len()
    };
    assert_eq!(listed("a".repeat(4094)), 1);
    assert_eq!(listed("a".repeat(4095)), 0);
    assert_eq!(listed("\"".repeat(2047)), 1);
    assert_eq!(listed("\"".repeat(2048)), 0);
    assert_eq!(listed("\u{1}".repeat(682)), 1);
    assert_eq!(listed("\u{1}".repeat(683)), 0);
}

fn texts(value: Option<serde_json::Value>) -> Vec<String> {
    value
        .expect("is there")
        .as_array()
        .expect("a list")
        .iter()
        .map(|item| item.as_str().expect("a text").to_string())
        .collect()
}

#[test]
fn every_leaf_is_reported_once() {
    let value = json(r#"{"a":{"b":["x",2,{"c":null}],"d":{},"e":[]},"f":true,"g":""}"#);
    let leaves = list_leaves(&value);
    let (lines, fields) = report_leaves(&leaves);
    assert_eq!(lines, vec!["a.b[0]: x", "a.b[1]: 2", "a.b[2].c: null", "f: true", "g: "]);
    assert_eq!(fields, vec!["a.b[0]", "g"]);
    let (lines, fields) = report_leaves(&list_leaves(&JsonValue::Text("alone".to_string())));
    assert_eq!(lines, vec!["alone"]);
    assert_eq!(fields, vec![""]);
}

#[test]
fn documents_of_every_format_report_their_leaves() {
    for (content, mime_type, format) in [
        (r#"{"owner":{"name":"Ada","age":36}}"#, "application/json", "json"),
        ("owner:\n  name: Ada\n  age: 36\n", "application/yaml", "yaml"),
        ("[owner]\nname = \"Ada\"\nage = 36\n", "application/toml", "toml"),
    ] {
        let doc = read(content.as_bytes(), mime_type, &ExtractionConfig::default());
        assert_eq!(doc.source_format, format);
        assert_eq!(additional(&doc, "data_format"), Some(serde_json::Value::from(format)));
        assert_eq!(additional(&doc, "field_count"), Some(serde_json::Value::from(1)));
        let mut leaves = texts(additional(&doc, "flattened_fields"));
        leaves.sort();
        assert_eq!(leaves, vec!["owner.age: 36", "owner.name: Ada"], "{mime_type}");
        assert!(outline(&doc).contains("name: Ada"), "{}", outline(&doc));
    }
    let doc = read(b"{\"a\":1}\n{\"a\":\"x\"}", "application/jsonl", &ExtractionConfig::default());
    assert_eq!(texts(additional(&doc, "flattened_fields")), vec!["[0].a: 1", "[1].a: x"]);
    let doc = read(b"{}", "application/json", &ExtractionConfig::default());
    assert!(additional(&doc, "flattened_fields").is_none());
    assert_eq!(additional(&doc, "field_count"), Some(serde_json::Value::from(0)));
}
