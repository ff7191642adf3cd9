use xberg::epub_text::{collapse_blank_lines, normalise_inline_whitespace};
use xberg::table_model::{compute_detr_resize, TatrClass};

#[test]
fn test_compute_detr_resize_landscape() {
    let (w, h) = compute_detr_resize(1600, 1200);
    assert_eq!((w, h), (1000, 750));
}

#[test]
fn test_compute_detr_resize_portrait() {
    let (w, h) = compute_detr_resize(600, 1000);
    assert_eq!((w, h), (600, 1000));
}

#[test]
fn test_compute_detr_resize_very_elongated() {
    let (w, h) = compute_detr_resize(100, 3000);
    assert_eq!((w, h), (33, 1000));
}

#[test]
fn test_compute_detr_resize_square() {
    let (w, h) = compute_detr_resize(800, 800);
    assert_eq!(w, 800);
    assert_eq!(h, 800);
}

#[test]
fn test_compute_detr_resize_truncates_like_hugging_face() {
    assert_eq!(compute_detr_resize(102, 101), (807, 800));
    assert_eq!(compute_detr_resize(6, 17), (353, 1000));
}

#[test]
fn test_compute_detr_resize_small() {
    let (w, h) = compute_detr_resize(200, 300);
    assert_eq!((w, h), (666, 1000));
}

#[test]
fn test_tatr_class_from_index() {
    assert_eq!(TatrClass::from_index(0), Some(TatrClass::Table));
    assert_eq!(TatrClass::from_index(1), Some(TatrClass::Column));
    assert_eq!(TatrClass::from_index(2), Some(TatrClass::Row));
    assert_eq!(TatrClass::from_index(3), Some(TatrClass::ColumnHeader));
    assert_eq!(TatrClass::from_index(4), Some(TatrClass::ProjectedRowHeader));
    assert_eq!(TatrClass::from_index(5), Some(TatrClass::SpanningCell));
    assert_eq!(TatrClass::from_index(6), None);
    assert_eq!(TatrClass::from_index(7), None);
}

#[test]
fn test_normalise_inline_whitespace() {
    assert_eq!(normalise_inline_whitespace("hello   world"), "hello world");
    assert_eq!(normalise_inline_whitespace("  leading"), " leading");
    assert_eq!(normalise_inline_whitespace("trailing  "), "trailing ");
    assert_eq!(normalise_inline_whitespace("a\n\t b"), "a b");
}

#[test]
fn test_collapse_blank_lines() {
    let input = "a\n\n\n\nb";
    let result = collapse_blank_lines(input);
    assert_eq!(result, "a\n\nb");

    let input2 = "a\n\nb";
    assert_eq!(collapse_blank_lines(input2), "a\n\nb");
}

#[test]
fn resized_images_fit_either_way_around() {
    for (w, h) in [(1, 1), (1, 100_000), (3000, 2000), (799, 801)] {
        let (a, b) = compute_detr_resize(w, h);
        assert!(a <= 1000 && b <= 1000);
        assert_eq!(compute_detr_resize(h, w), (b, a));
    }
}

#[test]
fn normalised_text_stays_normalised() {
    let once = normalise_inline_whitespace(" a \t b\u{a0}\n c ");
    assert_eq!(once, " a b c ");
    assert_eq!(normalise_inline_whitespace(&once), once);
}
