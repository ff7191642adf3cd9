use xberg::document::AnnotationKind;
use xberg::rtf::formatting::{extract_rtf_formatting, spans_to_annotations, ParagraphMeta};
use xberg::rtf::tables::{parse_font_charset_table, parse_rtf_color_table, resolve_decode_codepage};
use xberg::rtf::tracker::FormattingTracker;
use xberg::rtf::words::{decode_ansi_bytes, fcharset_to_codepage, parse_hex_byte, parse_rtf_control_word};

fn chars(s: &str) -> Vec<char> {
    s.chars().collect()
}

#[test]
fn bold_text_becomes_a_bold_span() {
    let data = extract_rtf_formatting("{\\rtf1 plain \\b bold\\b0  rest}");
    assert_eq!(data.spans.len(), 2);
    assert!(!data.spans[0].bold);
    assert!(data.spans[1].bold && !data.spans[1].italic);
    let notes = spans_to_annotations(0, 100, &data);
    assert_eq!(notes.len(), 1);
    assert_eq!(notes[0].kind, AnnotationKind::Bold);
    assert_eq!(notes[0].end - notes[0].start, 4);
}

#[test]
fn groups_restore_formatting() {
    let data = extract_rtf_formatting("{\\rtf1 a{\\i b}c}");
    assert_eq!(data.spans.len(), 2);
    assert!(!data.spans[0].italic);
    assert!(data.spans[1].italic);
    assert_eq!((data.spans[1].start, data.spans[1].end), (1, 2));
}

#[test]
fn headers_and_footers_are_kept_apart() {
    let data = extract_rtf_formatting("{\\rtf1{\\header Top}{\\footer Bottom}Body}");
    assert_eq!(data.header_text.as_deref(), Some("Top"));
    assert_eq!(data.footer_text.as_deref(), Some("Bottom"));
}

#[test]
fn hyperlinks_have_their_targets() {
    let data = extract_rtf_formatting(
        "{\\rtf1 see {\\field{\\*\\fldinst HYPERLINK \"https://example.org\"}{\\fldrslt here}}}",
    );
    assert_eq!(data.hyperlinks.len(), 1);
    assert_eq!(data.hyperlinks[0].2, "https://example.org");
}

#[test]
fn colour_tables_start_with_the_automatic_colour() {
    let colors = parse_rtf_color_table(&chars("{\\rtf1{\\colortbl;\\red255\\green0\\blue0;}}"));
    assert_eq!(colors, vec!["", "#ff0000", ""]);
}

#[test]
fn fonts_have_code_pages() {
    let fonts = parse_font_charset_table(&chars("{\\rtf1{\\fonttbl{\\f0\\fcharset204 Arial;}{\\f1\\fcharset0 Times;}}}"));
    assert_eq!(fonts.get(&0), Some(&1251));
    assert_eq!(fcharset_to_codepage(204), Some(1251));
    assert_eq!(fcharset_to_codepage(128), Some(932));
    assert_eq!(resolve_decode_codepage(&[Some(0)], None, &fonts, &[1252]), 1251);
    assert_eq!(resolve_decode_codepage(&[None], None, &fonts, &[1250]), 1250);
}

#[test]
fn control_words_have_names_and_numbers() {
    let (word, number, end) = parse_rtf_control_word(&chars("fs24 rest"), 0);
    assert_eq!(word, chars("fs"));
    assert_eq!(number, Some(24));
    assert_eq!(end, 5);
    assert_eq!(parse_hex_byte(b'e', b'9'), Some(0xe9));
    assert_eq!(parse_hex_byte(b'g', b'9'), None);
}

#[test]
fn bytes_are_decoded_in_their_code_page() {
    assert_eq!(decode_ansi_bytes(&[0xe9], 1252), "\u{e9}");
    assert_eq!(decode_ansi_bytes(&[0xcf], 1251), "\u{41f}");
    assert_eq!(decode_ansi_bytes(&[0x96, 0xbc], 932), "\u{540d}");
}

#[test]
fn paragraphs_start_without_a_role() {
    let meta = ParagraphMeta::default();
    assert_eq!(meta.heading_level, 0);
    assert!(meta.list_level.is_none() && meta.list_id.is_none());
    assert!(!meta.is_table && !meta.ordered);
}

#[test]
fn moved_spans_that_become_empty_are_dropped() {
    let mut tracker = FormattingTracker::new();
    tracker.update_bold(0, true);
    tracker.update_bold(4, false);
    tracker.update_bold(6, true);
    tracker.finalize(8);
    assert_eq!(tracker.spans.len(), 3);
    tracker.remap_spans(&[(0, 0), (4, 2), (6, 2), (8, 3)]);
    let places: Vec<(usize, usize, bool)> = tracker.spans.iter().map(|s| (s.start, s.end, s.bold)).collect();
    assert_eq!(places, vec![(0, 2, true), (2, 3, true)]);
}

#[test]
fn spans_follow_each_other_without_a_gap() {
    let data = extract_rtf_formatting("{\\rtf1 a{\\b b{\\i c}\\ul d}e{\\strike f}}");
    assert_eq!(data.spans[0].start, 0);
    for pair in data.spans.windows(2) {
        assert_eq!(pair[0].end, pair[1].start);
    }
}
