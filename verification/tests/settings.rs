use xberg::confidence::{
    count_words, ocr_confidence_from_elements, ocr_confidence_from_pages, ocr_evidence, OcrElement,
    PageOcrConfidence, SchemaCompliance,
};
use xberg::error::XbergError;
use xberg::keywords::{KeywordAlgorithm, KeywordConfig, NgramRange, RakeParams, Score, YakeParams};
use xberg::language::{
    arrange_languages, chunk_reliability, detect_language_details, detect_languages, lang_to_iso639_3,
    single_language, Detection, LanguageDetectionConfig,
};
use xberg::registry::{ensure_initialized, register_default_extractors, DocumentExtractorRegistry};

#[test]
fn test_register_default_extractors() {
    let mut registry = DocumentExtractorRegistry::new();
    register_default_extractors(&mut registry).expect("Failed to register extractors");
    let extractor_names = registry.list();

    let mut expected_count = 8;
    assert!(extractor_names.contains(&"plain-text-extractor".to_string()));
    assert!(extractor_names.contains(&"asciidoc-extractor".to_string()));
    assert!(extractor_names.contains(&"webvtt-extractor".to_string()));
    assert!(extractor_names.contains(&"markdown-extractor".to_string()));
    assert!(extractor_names.contains(&"structured-extractor".to_string()));
    assert!(extractor_names.contains(&"djot-extractor".to_string()));
    assert!(extractor_names.contains(&"csv-extractor".to_string()));
    assert!(extractor_names.contains(&"doctags-extractor".to_string()));

    for name in [
        "sqlite-extractor",
        "image-extractor",
        "xml-extractor",
        "jats-extractor",
        "docbook-extractor",
        "pdf-extractor",
        "excel-extractor",
        "jupyter-extractor",
        "mdx-extractor",
        "html-extractor",
        "code-extractor",
        "transcription",
        "bibtex-extractor",
        "citation-extractor",
        "epub-extractor",
        "fictionbook-extractor",
        "rtf-extractor",
        "rst-extractor",
        "latex-extractor",
        "orgmode-extractor",
        "opml-extractor",
        "typst-extractor",
        "dbf-extractor",
        "doc-extractor",
        "docx-extractor",
        "visio-extractor",
        "ppt-extractor",
        "pptx-extractor",
        "odt-extractor",
        "odp-extractor",
        "hwp-extractor",
        "hwpx-extractor",
        "wordperfect-extractor",
        "iwork-pages-extractor",
        "iwork-numbers-extractor",
        "iwork-keynote-extractor",
        "email-extractor",
        "pst-extractor",
        "zip-extractor",
        "tar-extractor",
        "7z-extractor",
        "gzip-extractor",
    ] {
        expected_count += 1;
        assert!(extractor_names.contains(&name.to_string()), "missing {name}");
    }

    assert_eq!(
        extractor_names.len(),
        expected_count,
        "Expected {} extractors based on enabled features",
        expected_count
    );
}

#[test]
fn test_ensure_initialized() {
    let mut registry = DocumentExtractorRegistry::new();
    ensure_initialized(&mut registry).expect("Failed to ensure extractors initialized");
}

#[test]
fn initializing_again_changes_nothing_but_an_empty_registry() {
    let mut registry = DocumentExtractorRegistry::new();
    ensure_initialized(&mut registry).expect("initializes");
    let names = registry.list().clone();
    ensure_initialized(&mut registry).expect("initializes");
    assert_eq!(registry.list(), &names);
    registry.names.clear();
    ensure_initialized(&mut registry).expect("initializes");
    assert_eq!(registry.list(), &names);
    registry.names = vec!["my-extractor".to_string()];
    ensure_initialized(&mut registry).expect("initializes");
    assert_eq!(registry.list(), &vec!["my-extractor".to_string()]);
}

#[test]
fn ranges_of_words_are_checked() {
    assert_eq!(NgramRange::from((1, 3)), NgramRange { min: 1, max: 3 });
    assert_eq!(<(usize, usize)>::from(NgramRange { min: 2, max: 4 }), (2, 4));
    assert_eq!(NgramRange::default(), NgramRange { min: 1, max: 3 });
    assert_eq!(
        NgramRange { min: 0, max: 0 }.validate(),
        Err("ngram range minimum must be at least 1, got 0".to_string())
    );
    assert_eq!(
        NgramRange { min: 4, max: 2 }.validate(),
        Err("ngram range minimum must not exceed maximum (4 > 2)".to_string())
    );
    assert_eq!(NgramRange { min: 2, max: 4 }.validate(), Ok(NgramRange { min: 2, max: 4 }));
}

#[test]
fn keyword_options_are_checked() {
    let mut config = KeywordConfig::default();
    assert!(config.validate().is_ok());
    assert_eq!(config.algorithm, KeywordAlgorithm::Yake);
    assert_eq!(config.max_keywords, 10);
    assert_eq!(config.language.as_deref(), Some("en"));
    for (score, valid) in [(0.0f32, true), (-0.0, true), (1.0, true), (0.5, true), (1.5, false), (-0.1, false)] {
        config.min_score = Score { bits: score.to_bits(), text: score.to_string() };
        assert_eq!(config.validate().is_ok(), valid, "{score}");
    }
    for score in [f32::NAN, f32::INFINITY, f32::NEG_INFINITY] {
        config.min_score = Score { bits: score.to_bits(), text: score.to_string() };
        match config.validate() {
            Err(XbergError::Validation { message, .. }) => assert!(message.ends_with(&score.to_string())),
            other => panic!("expected a validation error, got {other:?}"),
        }
    }
    assert_eq!(YakeParams::default().window_size, 2);
    assert_eq!(RakeParams::default().min_word_length, 1);
    assert_eq!(RakeParams::default().max_words_per_phrase, 3);
}

fn element(recognition: f64, text: &str) -> OcrElement {
    OcrElement { text: text.to_string(), recognition: recognition.to_bits(), page_number: 1 }
}

#[test]
fn words_are_counted_by_white_space() {
    assert_eq!(count_words("three words here"), 3);
    assert_eq!(count_words("  one\n"), 1);
    assert_eq!(count_words(" \t "), 0);
}

#[test]
fn elements_are_the_evidence_where_they_hold_words() {
    let elements = [element(0.9, "one"), element(0.1, "three words here")];
    let pages = [Some(PageOcrConfidence { score: Some(0.5f64.to_bits()), word_count: 500 })];
    assert_eq!(
        ocr_evidence(Some(&elements), Some(&pages)),
        Some(vec![(0.9f64.to_bits(), 1), (0.1f64.to_bits(), 3)])
    );
    assert_eq!(ocr_evidence(None, Some(&pages)), Some(vec![(0.5f64.to_bits(), 500)]));
    assert_eq!(ocr_evidence(Some(&[element(0.9, " ")]), None), None);
    assert_eq!(ocr_confidence_from_elements(&[]), None);
    let unscored = [Some(PageOcrConfidence { score: None, word_count: 500 }), None];
    assert_eq!(ocr_confidence_from_pages(&unscored), None);
}

#[test]
fn schema_compliance_scores() {
    let score = |compliance: SchemaCompliance| f32::from(compliance.half_points()) / 2.0;
    assert_eq!(score(SchemaCompliance::AllValid), 1.0);
    assert_eq!(score(SchemaCompliance::PartialValid), 0.5);
    assert_eq!(score(SchemaCompliance::AllInvalid), 0.0);
}

#[test]
fn keyword_options_are_built_step_by_step() {
    let half = Score { bits: 0.5f32.to_bits(), text: "0.5".to_string() };
    let config = KeywordConfig::rake()
        .with_max_keywords(5)
        .with_min_score(half)
        .with_ngram_range(2, 4)
        .with_language("de")
        .with_rake_params(RakeParams { min_word_length: 3, max_words_per_phrase: 2 });
    assert_eq!(config.algorithm, KeywordAlgorithm::Rake);
    assert_eq!(config.max_keywords, 5);
    assert_eq!(config.min_score.bits, 0.5f32.to_bits());
    assert_eq!(config.ngram_range, NgramRange { min: 2, max: 4 });
    assert_eq!(config.language.as_deref(), Some("de"));
    assert_eq!(config.rake_params.map(|p| p.min_word_length), Some(3));
    assert!(config.yake_params.is_none());
    let config = KeywordConfig::yake().with_yake_params(YakeParams { window_size: 7 });
    assert_eq!(config.algorithm, KeywordAlgorithm::Yake);
    assert_eq!(config.yake_params.map(|p| p.window_size), Some(7));
    assert!(config.rake_params.is_none());
}

fn options(detect_multiple: bool, min_confidence: f64) -> LanguageDetectionConfig {
    LanguageDetectionConfig { enabled: true, min_confidence: min_confidence.to_bits(), detect_multiple }
}

const ENGLISH: &str = "The quick brown fox jumps over the lazy dog while the farmer watches from the old wooden \
                       fence and wonders whether the weather will hold until the harvest is brought in from the \
                       fields before the evening.";

const GERMAN: &str = "Der schnelle braune Fuchs springt \u{fc}ber den faulen Hund, w\u{e4}hrend der Bauer vom alten \
                      Holzzaun aus zuschaut und sich fragt, ob das Wetter h\u{e4}lt, bis die Ernte vor dem Abend von \
                      den Feldern eingebracht ist.";

#[test]
fn the_language_of_a_text_is_detected() {
    assert_eq!(detect_languages(ENGLISH, &options(false, 0.1)), Some(vec!["eng".to_string()]));
    assert_eq!(detect_languages(GERMAN, &options(false, 0.1)), Some(vec!["deu".to_string()]));
    let details = detect_language_details(ENGLISH, &options(false, 0.1)).expect("detected");
    assert_eq!(details.chunks, 1);
    assert_eq!(details.languages[0].script, "Latin");
    assert!(details.reliable.is_some());
}

#[test]
fn nothing_is_detected_where_nothing_can_be() {
    let off = LanguageDetectionConfig { enabled: false, ..options(false, 0.0) };
    assert_eq!(detect_languages(ENGLISH, &off), None);
    assert_eq!(detect_languages("  \n", &options(true, 0.0)), None);
    assert_eq!(detect_languages("12345", &options(false, 0.0)), None);
    assert_eq!(detect_languages(ENGLISH, &options(false, 2.0)), None);
    assert_eq!(detect_languages(ENGLISH, &options(false, f64::NAN)), None);
}

#[test]
fn several_languages_come_by_their_share() {
    let text = format!("{}{}{}", ENGLISH.repeat(4), GERMAN.repeat(2), "");
    let details = detect_language_details(&text, &options(true, 0.1)).expect("detected");
    assert_eq!(details.languages[0].language, "eng");
    assert!(details.languages.iter().any(|l| l.language == "deu"));
    assert_eq!(details.chunks, text.chars().count().div_ceil(200));
    assert!(details.reliable.is_none());
}

fn found(language: u8, confidence: f64) -> Option<Detection> {
    Some(Detection { language, script: "Latin".to_string(), confidence: confidence.to_bits(), reliable: true })
}

#[test]
fn shares_are_counted_and_ties_go_by_code() {
    let chunks = [found(4, 0.9), found(9, 0.9), None, found(1, 0.9), found(9, 0.2), found(1, 0.8), found(4, 0.8)];
    let languages = arrange_languages(&chunks, 0.5f64.to_bits());
    let codes: Vec<(&str, usize)> =
        languages.iter().map(|l| (l.language.as_str(), l.confidences.len())).collect();
    assert_eq!(codes, vec![("eng", 2), ("spa", 2), ("deu", 1)]);
    assert!(single_language(found(1, 0.4), 0.5f64.to_bits()).is_none());
    assert!(single_language(None, 0.5f64.to_bits()).is_none());
    let one = single_language(found(1, 0.5), 0.5f64.to_bits()).expect("sure enough");
    assert_eq!(one.languages[0].language, "eng");
    assert_eq!(one.reliable, Some(true));
}

#[test]
fn languages_have_codes() {
    assert_eq!(lang_to_iso639_3(0), "epo");
    assert_eq!(lang_to_iso639_3(1), "eng");
    assert_eq!(lang_to_iso639_3(69), "cym");
    for (number, lang) in whatlang::Lang::all().iter().enumerate() {
        assert_eq!(*lang as usize, number);
        assert_eq!(lang_to_iso639_3(number as u8), lang.code());
    }
}

#[test]
fn chunks_without_a_language_count_as_chunks() {
    let reliability = chunk_reliability(&[ENGLISH, "123", GERMAN]);
    assert_eq!(reliability.chunks, 3);
    assert_eq!(reliability.confidences.len(), 2);
    assert!(reliability.reliable_chunks <= 2);
}

#[test]
fn codes_have_three_letters_and_differ() {
    let codes: Vec<String> = (0..70).map(lang_to_iso639_3).collect();
    for (i, code) in codes.iter().enumerate() {
        assert!(code.len() == 3 && code.chars().all(|c| c.is_ascii_lowercase()), "{code}");
        assert!(!codes[..i].contains(code), "{code}");
    }
}
