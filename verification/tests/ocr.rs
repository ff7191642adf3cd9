use xberg::confidence::OcrElement;
use xberg::config::{ExtractionConfig, OcrConfig};
use xberg::document::Table;
use xberg::error::XbergError;
use xberg::list_markers::{confusable_digit_for_letter, repair_ocr_list_markers};
use xberg::numeric_repair::{numeric_repair_enabled, repair_ocr_numeric_tokens};
use xberg::page_ocr::{
    discard_ocr_elements_from_rejected_pages, discard_rejected_ocr_page_payloads, is_page_text_blank,
    page_needs_xobject_fallback, page_raster_is_blank, retain_ocr_formulas_for_accepted_pages, valid_page_indices,
    validate_png_encode_batch_peak, xobject_fallback_warning, Formula, ImagePreprocessingMetadata, LumaRaster,
    PageFallbackImage, PageImage, RecognizedImage, RecognizedTable, XObjectRecoveryOutcome,
};
use xberg::security::{SecurityBudget, SecurityLimits};

fn numbers(text: &str) -> String {
    repair_ocr_numeric_tokens(text).unwrap_or_else(|| text.to_string())
}

fn markers(text: &str) -> String {
    repair_ocr_list_markers(text).unwrap_or_else(|| text.to_string())
}

fn table(page_number: u32) -> Table {
    Table { cells: vec![], markdown: String::new(), page_number, columns: None }
}

#[test]
fn should_add_thousands_separators_to_a_bare_integer() {
    assert_eq!(
        numbers("Total: 1172 units"),
        "Total: 1,172 units"
    );
}

#[test]
fn should_repair_nine_digit_integers_but_not_ten() {
    assert_eq!(
        numbers("123456789 units"),
        "123,456,789 units"
    );
    assert_eq!(
        numbers("1234567890 units"),
        "1234567890 units"
    );
}

#[test]
fn should_not_add_separators_to_a_three_digit_number() {
    assert_eq!(numbers("Qty: 172 units"), "Qty: 172 units");
}

#[test]
fn should_not_touch_a_year_after_fy() {
    assert_eq!(numbers("FY 2025 Budget"), "FY 2025 Budget");
}

#[test]
fn should_not_touch_a_concatenated_fiscal_year_header() {
    assert_eq!(numbers("FY2025-26"), "FY2025-26");
}

#[test]
fn should_not_touch_a_number_running_into_a_slash_or_hyphen() {
    assert_eq!(numbers("2024-2025 term"), "2024-2025 term");
    assert_eq!(numbers("case 1234/5678"), "case 1234/5678");
}

#[test]
fn should_not_touch_a_number_followed_by_percent() {
    assert_eq!(
        numbers("growth of 1234% this year"),
        "growth of 1234% this year"
    );
}

#[test]
fn should_not_touch_a_number_already_inside_a_larger_token() {
    for text in ["invoice-11723456", "part11234567", "id_1234567"] {
        assert_eq!(
            numbers(text),
            text,
            "rewrote a compound token: {text}"
        );
    }
}

#[test]
fn should_preserve_parentheses_around_a_negative_amount() {
    assert_eq!(
        numbers("Vacancy Savings (2100)"),
        "Vacancy Savings (2,100)"
    );
}

#[test]
fn should_repair_a_decimal_point_misread_for_a_grouping_comma() {
    assert_eq!(
        numbers("Utility Users Tax 7.812"),
        "Utility Users Tax 7,812"
    );
    assert_eq!(
        numbers("Total 812.812 units"),
        "Total 812,812 units"
    );
}

#[test]
fn should_not_touch_a_genuine_two_digit_decimal() {
    assert_eq!(
        numbers("Rate: 7.81 percent"),
        "Rate: 7.81 percent"
    );
}

#[test]
fn should_not_touch_a_percentage_shaped_like_the_period_rule() {
    assert_eq!(numbers("Yield 7.812%"), "Yield 7.812%");
}

#[test]
fn should_not_touch_a_four_digit_leading_group_before_the_point() {
    assert_eq!(numbers("1234.567 total"), "1234.567 total");
}

#[test]
fn should_join_a_digit_split_from_its_grouped_remainder_by_a_gap() {
    assert_eq!(
        numbers("Services 2 2,411 total"),
        "Services 22,411 total"
    );
}

#[test]
fn should_not_join_across_more_than_one_space() {
    assert_eq!(
        numbers("row 2  2,411 total"),
        "row 2  2,411 total"
    );
}

#[test]
fn should_not_join_when_a_third_digit_follows_the_grouped_remainder() {
    assert_eq!(numbers("2 2,4111"), "2 2,4111");
}

#[test]
fn should_apply_join_before_separator_so_the_reassembled_number_is_not_re_split() {
    let text = "row 2 2,411 and another 55411 elsewhere";
    assert_eq!(
        numbers(text),
        "row 22,411 and another 55,411 elsewhere"
    );
}

#[test]
fn should_leave_a_well_formed_table_alone_and_avoid_allocating() {
    let text = "Property Tax 48,210 49,850 51,344\nSales Tax 21,406 21,977 22,636";
    let out = repair_ocr_numeric_tokens(text);
    assert!(out.is_none(), "must not allocate when nothing is broken");
    assert_eq!(numbers(text), text);
}

#[test]
fn should_not_touch_ordinary_prose_numbers() {
    for text in [
        "Section 3.5 of the ordinance",
        "approximately 0.7906 acres",
        "phone 555.123.4567",
        "lot area 2,842 sf",
    ] {
        assert_eq!(numbers(text), text, "rewrote prose: {text}");
    }
}

#[test]
fn should_group_a_bare_year_with_no_fy_prefix_documenting_the_known_limitation() {
    assert_eq!(
        numbers("the year 2024 saw growth"),
        "the year 2,024 saw growth"
    );
}

#[test]
fn should_repair_every_documented_failure_shape_without_touching_correct_values() {
    let before = "\
PROPERTY TAX
48,210 49,850 51,344 52,885 54,471 56,105
SALES TAX
21,406 21,977 22,636 23,315 24,015 24,735
UTILITY USERS TAX
7.812 7,968 8,127 8,290 8,456 8,625
FRANCHISE FEES
3104 3,197 3,293 3,391 3,493 3,598
SUBTOTAL TAXES
80,532 82,992 85,400 87,881 90,435 93,063
SERVICES
19,334 19,914 20,511 21,126 2 1,759 22,411
FY2025-26 FY2026-27
BOND REVENUE
1,500 1,545 1,591 1,639 1,688 1,739";
    let expected = "\
PROPERTY TAX
48,210 49,850 51,344 52,885 54,471 56,105
SALES TAX
21,406 21,977 22,636 23,315 24,015 24,735
UTILITY USERS TAX
7,812 7,968 8,127 8,290 8,456 8,625
FRANCHISE FEES
3,104 3,197 3,293 3,391 3,493 3,598
SUBTOTAL TAXES
80,532 82,992 85,400 87,881 90,435 93,063
SERVICES
19,334 19,914 20,511 21,126 21,759 22,411
FY2025-26 FY2026-27
BOND REVENUE
1,500 1,545 1,591 1,639 1,688 1,739";
    let repaired = numbers(before);
    assert_eq!(repaired, expected);

    let already_correct = [
        "48,210", "49,850", "51,344", "52,885", "54,471", "56,105", "21,406", "21,977", "22,636", "23,315", "24,015",
        "24,735", "7,968", "8,127", "8,290", "8,456", "8,625", "3,197", "3,293", "3,391", "3,493", "3,598", "80,532",
        "82,992", "85,400", "87,881", "90,435", "93,063", "19,334", "19,914", "20,511", "21,126", "1,500", "1,545",
        "1,591", "1,639", "1,688", "1,739",
    ];
    for value in already_correct {
        assert!(
            repaired.matches(value).count() >= before.matches(value).count(),
            "already-correct value {value} was lost or altered by the repair"
        );
    }
}

#[test]
fn numeric_repair_enabled_defaults_to_disabled() {
    let config = ExtractionConfig {
        ocr: Some(OcrConfig::default()),
        ..Default::default()
    };
    assert!(!numeric_repair_enabled(&config));
    assert!(!numeric_repair_enabled(
        &ExtractionConfig::default()
    ));
}

#[test]
fn numeric_repair_enabled_reads_the_ocr_config_flag() {
    let config = ExtractionConfig {
        ocr: Some(OcrConfig {
            numeric_repair: true,
            ..Default::default()
        }),
        ..Default::default()
    };
    assert!(numeric_repair_enabled(&config));
}

#[test]
fn should_discard_public_ocr_elements_from_rejected_pages() {
    let element = |page_number| OcrElement {
        text: format!("page {page_number}"),
        recognition: 0,
        page_number,
    };
    let mut elements = vec![element(1), element(2), element(3)];

    discard_ocr_elements_from_rejected_pages(&mut elements, &[false, true, false], 0);

    assert_eq!(
        elements.iter().map(|element| element.page_number).collect::<Vec<_>>(),
        [1, 3]
    );
}

#[test]
fn should_discard_tables_and_formulas_from_rejected_full_ocr_pages() {
    let mut tables: Vec<Table> = [1, 2, 3]
        .into_iter()
        .map(table)
        .collect();
    let mut formulas: Vec<Formula> = [1, 2, 3]
        .into_iter()
        .map(|page| Formula {
            latex: format!("page {page}"),
            page: Some(page),
        })
        .collect();

    discard_rejected_ocr_page_payloads(&mut tables, &mut formulas, &[false, true, false], 0);

    assert_eq!(tables.iter().map(|table| table.page_number).collect::<Vec<_>>(), [1, 3]);
    assert_eq!(
        formulas.iter().filter_map(|formula| formula.page).collect::<Vec<_>>(),
        [1, 3]
    );
}

#[test]
fn should_discard_global_page_two_payloads_for_detached_local_rejection() {
    let mut elements = vec![OcrElement {
        text: "rejected page two word".to_string(),
        recognition: 0,
        page_number: 2,
    }];
    let mut tables = vec![table(2)];
    let mut formulas = vec![Formula {
        latex: "rejected page two formula".to_string(),
        page: Some(2),
    }];

    discard_ocr_elements_from_rejected_pages(&mut elements, &[true], 1);
    discard_rejected_ocr_page_payloads(&mut tables, &mut formulas, &[true], 1);

    assert!(elements.is_empty(), "rejected detached-page elements must be removed");
    assert!(tables.is_empty(), "rejected detached-page tables must be removed");
    assert!(formulas.is_empty(), "rejected detached-page formulas must be removed");
}

#[test]
fn should_discard_formulas_from_unaccepted_mixed_ocr_pages() {
    let mut formulas: Vec<Formula> = [1, 2, 3]
        .into_iter()
        .map(|page| Formula {
            latex: format!("page {page}"),
            page: Some(page),
        })
        .collect();
    let accepted_pages = [1, 3];

    retain_ocr_formulas_for_accepted_pages(&mut formulas, &accepted_pages);

    assert_eq!(
        formulas.iter().filter_map(|formula| formula.page).collect::<Vec<_>>(),
        [1, 3]
    );
}

#[test]
fn should_repair_a_comma_read_for_a_list_period() {
    let text = "3, Maximum number of lots: 9\n4, Minimum lot area: 2,842 sf";
    assert_eq!(
        markers(text),
        "3. Maximum number of lots: 9\n4. Minimum lot area: 2,842 sf"
    );
}

#[test]
fn should_repair_a_lowercase_l_read_for_a_digit_one() {
    let text = "l. A six-foot (6') pedestrian sidewalk towards Creek Bend Drive";
    assert_eq!(
        markers(text),
        "1. A six-foot (6') pedestrian sidewalk towards Creek Bend Drive"
    );
}

#[test]
fn should_not_touch_prose_that_merely_starts_with_a_number() {
    for line in [
        "3, and the remainder of the tract is unrestricted",
        "2024, the year the plat was recorded",
        "1985, when the ordinance was adopted",
    ] {
        assert_eq!(markers(line), line, "rewrote prose: {line}");
    }
}

#[test]
fn should_not_touch_a_year_or_long_number_before_a_capital() {
    let line = "2019, November of that year saw the plat recorded";
    assert_eq!(markers(line), line);
}

#[test]
fn should_leave_correct_markers_alone_and_avoid_allocating() {
    let text = "1. Land Use: Live/Work Townhomes\n2. Building finishes: Siding";
    let out = repair_ocr_list_markers(text);
    assert!(out.is_none(), "must not allocate when nothing is broken");
    assert_eq!(markers(text), text);
}

#[test]
fn should_preserve_surrounding_lines_and_trailing_newline() {
    let text = "Section 3. Regulations\n\n3, Maximum number of lots: 9\nunchanged tail\n";
    assert_eq!(
        markers(text),
        "Section 3. Regulations\n\n3. Maximum number of lots: 9\nunchanged tail\n"
    );
}

#[test]
fn should_map_confusable_letters_to_their_intended_digit() {
    assert_eq!(confusable_digit_for_letter('L'), Some('1'));
    assert_eq!(confusable_digit_for_letter('G'), Some('6'));
    assert_eq!(confusable_digit_for_letter('b'), Some('6'));
    assert_eq!(confusable_digit_for_letter('S'), Some('5'));
    assert_eq!(confusable_digit_for_letter('O'), Some('0'));
    assert_eq!(confusable_digit_for_letter('D'), Some('0'));
    assert_eq!(confusable_digit_for_letter('I'), Some('1'));
    assert_eq!(
        confusable_digit_for_letter('A'),
        None,
        "A is a legitimate lettered marker"
    );
}

#[test]
fn should_repair_a_doubled_misread_of_a_digit_one() {
    let text = "lL. A six-foot (6') pedestrian sidewalk towards Creek Bend Drive";
    assert_eq!(
        markers(text),
        "1. A six-foot (6') pedestrian sidewalk towards Creek Bend Drive"
    );
}

#[test]
fn should_repair_a_letter_misread_of_a_digit_inside_a_numeric_run() {
    let text = "5. Front setback: 20 feet\nG. Side setback: 10 feet\n7. Rear setback: 15 feet";
    assert_eq!(
        markers(text),
        "5. Front setback: 20 feet\n6. Side setback: 10 feet\n7. Rear setback: 15 feet"
    );
}

#[test]
fn should_repair_a_letter_misread_with_context_on_only_one_side() {
    let text = "G. Side setback: 10 feet\n7. Rear setback: 15 feet";
    assert_eq!(
        markers(text),
        "6. Side setback: 10 feet\n7. Rear setback: 15 feet"
    );
}

#[test]
fn should_not_touch_a_genuine_lettered_marker_between_lettered_neighbors() {
    let text = "F. Fire lane width: 20 feet\nG. Side setback: 10 feet\nH. Height limit: 35 feet";
    assert_eq!(markers(text), text);
}

#[test]
fn should_not_touch_an_isolated_ambiguous_letter_marker() {
    let text = "G. Side setback: 10 feet";
    assert_eq!(markers(text), text);
}

#[test]
fn parallel_batch_peak_counts_every_live_page_conversion() {
    let images = [
        PageImage { width: 10, height: 10, byte_len: 300 },
        PageImage { width: 10, height: 10, byte_len: 300 },
    ];
    let limits = SecurityLimits {
        max_content_size: 526_000,
        ..Default::default()
    };

    validate_png_encode_batch_peak(&images, false, &limits)
        .expect("the same pages encoded sequentially must fit the between-threshold budget");
    let error = validate_png_encode_batch_peak(&images, true, &limits)
        .expect_err("parallel page conversions must be budgeted together");

    assert!(matches!(error, XbergError::Validation { .. }));
}

#[test]
fn peaks_past_counting_are_rejected() {
    let images = [PageImage { width: 1, height: 1, byte_len: u64::MAX }];
    assert!(validate_png_encode_batch_peak(&images, false, &SecurityLimits::default()).is_err());
    assert!(validate_png_encode_batch_peak(&[], true, &SecurityLimits::default()).is_ok());
}

#[test]
fn pages_without_ink_count_as_blank() {
    let white = LumaRaster { width: 40, height: 40, pixels: vec![255; 1600] };
    assert!(page_raster_is_blank(Some(&white)));
    let mut inked = white.clone();
    inked.pixels[0] = 0;
    assert!(!page_raster_is_blank(Some(&inked)));
    let mut unsampled = white.clone();
    unsampled.pixels[1] = 0;
    assert!(page_raster_is_blank(Some(&unsampled)));
    assert!(page_raster_is_blank(Some(&LumaRaster { width: 0, height: 0, pixels: vec![] })));
    assert!(!page_raster_is_blank(None));
}

#[test]
fn blank_pages_are_retried_on_their_images() {
    let white = LumaRaster { width: 8, height: 8, pixels: vec![255; 64] };
    assert!(page_needs_xobject_fallback(" a b ", None));
    assert!(page_needs_xobject_fallback("The image is entirely blank.", Some(&white)));
    assert!(!page_needs_xobject_fallback("The image is entirely blank.", None));
    assert!(!page_needs_xobject_fallback(&"word ".repeat(60), Some(&white)));
    assert!(is_page_text_blank("\n x y \n"));
    assert!(!is_page_text_blank("xyz"));
}

#[test]
fn pages_out_of_range_are_skipped() {
    assert_eq!(valid_page_indices(&[3, 0, 9, 1, 3], 4), vec![3, 0, 1, 3]);
}

#[test]
fn fallback_warnings_name_the_page() {
    let warning = xobject_fallback_warning(4, 2);
    assert_eq!(warning.source, "ocr");
    assert_eq!(
        warning.message,
        "Page 5 rendered blank but contains 2 image XObject(s) the PDF rasterizer could not draw; OCR was retried on the embedded image bytes."
    );
}

fn recognized(content: &str) -> RecognizedImage {
    RecognizedImage {
        content: content.to_string(),
        tables: vec![RecognizedTable { table: table(0), table_id: None }],
        formulas: vec![Formula { latex: "x".to_string(), page: None }],
        llm_usage: None,
        image_preprocessing: Some(ImagePreprocessingMetadata {
            resample_method: content.to_string(),
            resize_error: None,
        }),
    }
}

#[test]
fn recovered_images_are_gathered_in_their_order() {
    let mut budget = SecurityBudget::with_defaults();
    let mut outcome = XObjectRecoveryOutcome::new(3);
    for result in [Some(recognized("one")), None, Some(recognized("two"))] {
        outcome.collect_xobject_recovery_result(result, 6, &mut budget).expect("within the ceilings");
    }
    assert_eq!(outcome.text, "one\n\ntwo");
    assert_eq!(outcome.tables.len(), 2);
    assert!(outcome.tables.iter().all(|t| t.table.page_number == 7));
    assert!(outcome.formulas.iter().all(|f| f.page == Some(7)));
    assert_eq!(outcome.image_preprocessing.expect("kept").resample_method, "one");
}

#[test]
fn recovered_images_tell_where_they_come_from() {
    let mut outcome = XObjectRecoveryOutcome::new(1);
    let fallback = PageFallbackImage {
        bytes: vec![1, 2],
        format: "jpeg".to_string(),
        recovery: "raw stream".to_string(),
    };
    outcome.keep_image(&fallback, 3, 0);
    assert_eq!(outcome.images[0].source_path.as_deref(), Some("xobject:page1:3"));
    assert_eq!(
        outcome.images[0].description.as_deref(),
        Some("recovered from raw image XObject (raw stream) after the page rasterizer produced a blank page")
    );
    assert_eq!(outcome.images[0].data, vec![1, 2]);
}

#[test]
fn recovered_text_past_a_ceiling_is_rejected() {
    let limits = SecurityLimits { max_content_size: 4, ..SecurityLimits::default() };
    let mut budget = SecurityBudget::from_limits(&limits);
    let mut outcome = XObjectRecoveryOutcome::new(1);
    let error = outcome
        .collect_xobject_recovery_result(Some(recognized("longer than four")), 0, &mut budget)
        .expect_err("too much text");
    assert!(matches!(error, XbergError::Security { .. }));
    assert_eq!(outcome.text, "");
}

#[test]
fn text_within_the_ceilings_stays_where_the_rest_is_not() {
    let limits = SecurityLimits { max_content_size: 4, ..SecurityLimits::default() };
    let mut budget = SecurityBudget::from_limits(&limits);
    let mut outcome = XObjectRecoveryOutcome::new(1);
    assert!(outcome.collect_xobject_recovery_result(Some(recognized("four")), 0, &mut budget).is_err());
    assert_eq!(outcome.text, "four");
    assert!(outcome.tables.is_empty() && outcome.formulas.is_empty() && outcome.image_preprocessing.is_none());
}
