use xberg::error::XbergError;
use xberg::json::JsonValue;
use xberg::myst::{
    find_notebook_header, might_be_myst_notebook, might_contain_myst_syntax,
    myst_admonition_metadata, myst_target_marker, parse_jupytext_notebook, parse_jupytext_parts,
    parse_myst_text_notebook, parse_myst_text_notebook_parts, parse_text_notebook, preprocess_myst,
    Renderer, TextNotebookCellType, MAX_MYST_DIRECTIVE_DEPTH,
};
use xberg::security::{Ledger, SecurityBudget, SecurityLimits};

/// A value of the library as a parsed value.
fn parsed(value: &JsonValue) -> serde_json::Value {
    match value {
        JsonValue::Null => serde_json::Value::Null,
        JsonValue::Bool(b) => serde_json::Value::Bool(*b),
        JsonValue::Number(n) => serde_json::from_str(&n.text).expect("a number"),
        JsonValue::Text(s) => serde_json::Value::String(s.clone()),
        JsonValue::Array(items) => serde_json::Value::Array(items.iter().map(parsed).collect()),
        JsonValue::Object(members) => {
            serde_json::Value::Object(members.iter().map(|(name, v)| (name.clone(), parsed(v))).collect())
        }
    }
}

fn member(object: &[(String, JsonValue)], name: &str) -> serde_json::Value {
    object
        .iter()
        .find(|(n, _)| n == name)
        .map(|(_, v)| parsed(v))
        .unwrap_or(serde_json::Value::Null)
}

fn test_budget() -> SecurityBudget {
    SecurityBudget::from_limits(&SecurityLimits::default())
}

#[test]
fn should_reject_generated_myst_content_beyond_growth_limit() {
    let limits = SecurityLimits {
        max_content_size: 8,
        ..Default::default()
    };
    let mut budget = SecurityBudget::from_limits(&limits);
    let error = preprocess_myst(":::{note}\nexpanded\n:::", &mut budget)
        .expect_err("rendered admonition must respect the caller's growth limit");
    assert!(matches!(error, XbergError::Security { .. }));
}

#[test]
fn should_preprocess_supported_myst_constructs() {
    let content = ":::{warning}\nTake care.\n:::\n\n```{math}\n:label: eq-one\nx = 1\n```\nSee {ref}`eq-one`.";
    let rendered = preprocess_myst(content, &mut test_budget()).expect("supported MyST should preprocess");
    assert_eq!(
        ["Warning", "Take care.", "x = 1", "eq-one"].map(|expected| rendered.contains(expected)),
        [true; 4]
    );
    assert_eq!(
        [":::", ":label:", "```{math}", "{ref}"].map(|syntax| rendered.contains(syntax)),
        [false; 4]
    );
}

#[test]
fn should_require_strong_myst_notebook_detection() {
    let ordinary = "# Report\n\n```{code-cell} python\nprint(1)\n```";
    assert!(parse_myst_text_notebook(ordinary, &mut test_budget()).expect("detection should succeed").is_none());
}

#[test]
fn should_parse_myst_notebook_cells_and_metadata() {
    let content = "---\ntitle: Report\nkernelspec:\n  language: python\n---\n# Analysis\n\n```{code-cell} python\n:tags: [parameters]\nx = 1\n```";
    let notebook = parse_myst_text_notebook(content, &mut test_budget())
        .expect("parsing should succeed")
        .expect("frontmatter and code-cell identify a MyST notebook");
    assert_eq!(member(&notebook.metadata, "title"), "Report");
    assert_eq!(notebook.cells.len(), 2);
    assert_eq!(notebook.cells[0].cell_type, TextNotebookCellType::Markdown);
    assert_eq!(notebook.cells[1].cell_type, TextNotebookCellType::Code);
    assert_eq!(notebook.cells[1].tags, ["parameters"]);
}

#[test]
fn should_parse_percent_cells_without_header() {
    let content = "# %% [markdown]\n# # Report\n# %% tags=[parameters]\nx = 1\n";
    let notebook = parse_text_notebook(content, &mut test_budget())
        .expect("parsing should succeed")
        .expect("percent markers identify a notebook");
    assert_eq!(notebook.cells.len(), 2);
    assert_eq!(notebook.cells[0].source, "# Report");
    assert_eq!(notebook.cells[1].tags, ["parameters"]);
}

#[test]
fn should_not_treat_marker_free_source_as_notebook() {
    assert!(parse_text_notebook("# ordinary source\nx = 1\n", &mut test_budget())
        .expect("detection should succeed")
        .is_none());
}

#[test]
fn should_require_light_header() {
    let content = "# + [markdown]\n# Ordinary comment\n# -\nx = 1\n";
    assert!(parse_text_notebook(content, &mut test_budget()).expect("detection should succeed").is_none());
}

#[test]
fn should_parse_light_cells_with_header() {
    let content = "# ---\n# jupyter:\n#   jupytext:\n#     text_representation:\n#       format_name: light\n# kernelspec:\n#   language: python\n# ---\n# + [markdown]\n# # Report\n# -\n# +\nx = 1\n# -\n";
    let notebook = parse_text_notebook(content, &mut test_budget())
        .expect("parsing should succeed")
        .expect("light header identifies a notebook");
    assert_eq!(notebook.cells.len(), 2);
    assert_eq!(notebook.cells[0].source, "# Report");
    assert_eq!(notebook.cells[1].source, "x = 1");
    assert_eq!(member(&notebook.metadata, "kernelspec")["language"], "python");
}

#[test]
fn should_bound_deeply_nested_directive_preprocessing() {
    let deepest = MAX_MYST_DIRECTIVE_DEPTH + 16;
    let mut content = String::new();
    for fence_length in (3..deepest + 3).rev() {
        content.push_str(&format!("{}{{note}}\n", ":".repeat(fence_length)));
    }
    content.push_str("bounded body\n");
    for fence_length in 3..deepest + 3 {
        content.push_str(&format!("{}\n", ":".repeat(fence_length)));
    }
    let error = preprocess_myst(&content, &mut test_budget())
        .expect_err("directives beyond the named recursion cap must be rejected");
    assert!(matches!(error, XbergError::Security { .. }));
}

#[test]
fn should_allow_exact_named_directive_depth_limit() {
    let deepest = MAX_MYST_DIRECTIVE_DEPTH;
    let mut content = String::new();
    for fence_length in (3..deepest + 3).rev() {
        content.push_str(&format!("{}{{note}}\n", ":".repeat(fence_length)));
    }
    content.push_str("boundary body\n");
    for fence_length in 3..deepest + 3 {
        content.push_str(&format!("{}\n", ":".repeat(fence_length)));
    }
    let rendered =
        preprocess_myst(&content, &mut test_budget()).expect("the named depth cap itself should remain valid");
    assert!(rendered.contains("boundary body"));
}

#[test]
fn should_reject_unsafe_target_marker_values() {
    let mut renderer = Renderer::new(Ledger::new(test_budget()));
    renderer.render_target_marker(&"unsafe--><script>".chars().collect::<Vec<char>>());
    assert!(!renderer.ledger.failed(), "invalid target should be ignored safely");
    assert_eq!(renderer.output, "");
    assert_eq!(myst_target_marker("<!--xberg-myst-target:unsafe--><script>-->"), None);
}

#[test]
fn should_place_table_target_after_caption() {
    let content = "```{table} Results\n:name: table-results\n| A |\n| - |\n| 1 |\n```";
    let rendered = preprocess_myst(content, &mut test_budget()).expect("table should preprocess");
    let caption = rendered.find("Results").expect("table caption");
    let target = rendered.find("<!--xberg-myst-target:").expect("table target");
    let table = rendered.find("| A |").expect("table body");
    assert!(caption < target && target < table);
}

#[test]
fn should_preserve_named_code_and_admonition_targets() {
    let content =
        ":::{note}\n:name: guidance\nBody.\n:::\n\n```{code-block} rust\n:label: example\nfn main() {}\n```";
    let rendered = preprocess_myst(content, &mut test_budget()).expect("named directives should preprocess");
    let guidance = rendered
        .find("<!--xberg-myst-target:guidance-->")
        .expect("admonition target marker");
    let admonition = rendered.find("> [!NOTE]").expect("rendered admonition");
    let example = rendered
        .find("<!--xberg-myst-target:example-->")
        .expect("code target marker");
    let code = rendered.find("```rust").expect("rendered code block");
    assert!(guidance < admonition && example < code);
}

#[test]
fn target_markers_are_read_back() {
    let mut renderer = Renderer::new(Ledger::new(test_budget()));
    renderer.render_target_marker(&"sec-one".chars().collect::<Vec<char>>());
    assert_eq!(renderer.output, "<!--xberg-myst-target:sec-one-->\n\n");
    assert_eq!(myst_target_marker("<!--xberg-myst-target:sec-one-->"), Some("sec-one".to_string()));
}

#[test]
fn admonitions_say_what_they_are() {
    let rendered = preprocess_myst(":::{warning} Mind the gap\nBody.\n:::", &mut test_budget()).expect("renders");
    let marker = rendered
        .lines()
        .find_map(|line| myst_admonition_metadata(line.trim_start_matches("> ")))
        .expect("the marker is there");
    assert_eq!(marker.0, "warning");
}

#[test]
fn cells_describe_themselves() {
    let content = "# %% [markdown]\n# # Report\n# %% tags=[parameters]\nx = 1\n";
    let notebook = parse_text_notebook(content, &mut test_budget()).expect("parses").expect("is a notebook");
    let cells = parsed(&notebook.cell_metadata());
    assert_eq!(cells[0]["index"], 0);
    assert_eq!(cells[0]["cell_type"], "markdown");
    assert_eq!(cells[1]["index"], 1);
    assert_eq!(cells[1]["cell_type"], "code");
    assert_eq!(cells[1]["tags"][0], "parameters");
}

#[test]
fn extensions_of_markdown_are_noticed() {
    for content in [":::{note}\nx\n:::", "```{code-cell}\n```", "see {ref}`a`", "see {cite}`b`", "(label)="] {
        assert!(might_contain_myst_syntax(content), "{content}");
    }
    assert!(!might_contain_myst_syntax("# Title\n\nplain `code` and {braces}"));
}

#[test]
fn text_without_extensions_passes_unchanged() {
    let content = "# Title\n\nplain `code` and {braces}\n```rust\nfn f() {}\n```\n(no target)";
    assert!(!might_contain_myst_syntax(content));
    assert_eq!(preprocess_myst(content, &mut test_budget()).expect("suffices"), format!("{content}\n"));
}

#[test]
fn an_admonition_costs_what_it_renders() {
    let cost = |max_content_size: usize| {
        let limits = SecurityLimits { max_content_size, ..Default::default() };
        preprocess_myst(":::{note}\nabc\n:::", &mut SecurityBudget::from_limits(&limits))
    };
    assert!(cost(69).is_ok());
    assert!(matches!(cost(68), Err(XbergError::Security { .. })));
}

#[test]
fn a_level_is_left_even_where_its_body_fails() {
    let limits = SecurityLimits {
        max_content_size: 100,
        max_nesting_depth: 1,
        max_xml_depth: 1,
        ..Default::default()
    };
    let mut budget = SecurityBudget::from_limits(&limits);
    let content = format!(":::{{note}}\n{}\n:::", "x".repeat(200));
    assert!(preprocess_myst(&content, &mut budget).is_err());
    assert!(budget.enter().is_ok());
}

#[test]
fn headers_that_cannot_be_read_count_as_none() {
    for yaml in ["# a: 1\n# a: 2\n", "# [1, 2]\n", "# {\n", "# ? [x]\n# : 1\n"] {
        let content = format!("# ---\n{yaml}# ---\n# %%\nx = 1\n");
        let header = find_notebook_header(&content, &mut test_budget()).expect("suffices");
        assert!(header.is_some(), "{yaml}");
        let notebook = parse_jupytext_notebook(&content, &mut test_budget())
            .expect("suffices")
            .expect("percent markers identify a notebook");
        assert!(notebook.metadata.is_empty(), "{yaml}");
        assert_eq!(notebook.cells.len(), 1);
    }
    let notebook = parse_jupytext_notebook("# ---\n# a: 1\n# ---\n# %%\nx = 1\n", &mut test_budget())
        .expect("suffices")
        .expect("percent markers identify a notebook");
    assert_eq!(member(&notebook.metadata, "a"), 1);
}

#[test]
fn cells_are_read_given_what_the_header_says() {
    let content = "# %%\nx = 1\n# %%\ny = 2\n";
    let metadata = vec![("title".to_string(), JsonValue::Text("T".to_string()))];
    let notebook = parse_jupytext_parts(content, metadata, 2, &mut test_budget())
        .expect("suffices")
        .expect("there is a cell");
    assert_eq!(notebook.cells.len(), 1);
    assert_eq!(notebook.cells[0].source, "y = 2");
    assert_eq!(member(&notebook.metadata, "title"), "T");
}

#[test]
fn notebooks_name_a_kernel_and_say_an_object_of_themselves() {
    let body = "```{code-cell} python\nx = 1\n```";
    let object = || Some(JsonValue::Object(Vec::new()));
    let read = |kernel: bool, metadata: Option<JsonValue>| {
        parse_myst_text_notebook_parts(kernel, metadata, body, &mut test_budget()).expect("suffices").is_some()
    };
    assert!(read(true, object()));
    assert!(!read(false, object()));
    assert!(!read(true, None));
    assert!(!read(true, Some(JsonValue::Array(Vec::new()))));
    for (kernel, found) in [("kernelspec:\n  language: python", true), ("kernelspec: python", false), ("title: x", false)] {
        let content = format!("---\n{kernel}\n---\n{body}");
        assert!(might_be_myst_notebook(&content));
        let notebook = parse_myst_text_notebook(&content, &mut test_budget()).expect("suffices");
        assert_eq!(notebook.is_some(), found, "{kernel}");
    }
}
