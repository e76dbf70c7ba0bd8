use pangloss::transform::rewrite_css_classes;

#[test]
fn simple_span_class() {
    let input = "span.grammar { color: red; }";
    let output = rewrite_css_classes(input);
    assert!(output.contains(r#"span[data-sc-class="grammar"]"#));
}

#[test]
fn simple_div_class() {
    let input = "div.definition { margin-left: 10pt; }";
    let output = rewrite_css_classes(input);
    assert!(output.contains(r#"div[data-sc-class="definition"]"#));
}

#[test]
fn multiple_rules() {
    let input = r"
        span.headword { font-size: 14pt; font-weight: bold; }
        span.grammar { font-style: italic; }
    ";
    let output = rewrite_css_classes(input);
    assert!(output.contains(r#"span[data-sc-class="headword"]"#));
    assert!(output.contains(r#"span[data-sc-class="grammar"]"#));
}

#[test]
fn unchanged() {
    let input = "span { color: black; }";
    let output = rewrite_css_classes(input);
    assert!(output.contains("span"));
    assert!(!output.contains("data-sc-class"));
}

#[test]
fn property_values_are_unchanged() {
    let input = "span.grammar { margin: .5em; opacity: .8; }";
    let output = rewrite_css_classes(input);
    assert!(output.contains(r#"span[data-sc-class="grammar"]"#));
    assert!(output.contains(".5em"));
    assert!(output.contains(".8"));
}

#[test]
fn real_dictionary() {
    let input = r"
        div.head { margin-top: 10pt; font-family: Verdana; }
        div.definition { margin-left: 10pt; line-height: 140%; }
        span.headword { font-size: 14pt; font-weight: bold; color: #2049a4; }
        span.grammar { font-weight: bold; font-style: italic; color: #778899; }
        span.translation { font-weight: normal; color: black; }
    ";
    let output = rewrite_css_classes(input);
    assert!(output.contains(r#"div[data-sc-class="head"]"#));
    assert!(output.contains(r#"div[data-sc-class="definition"]"#));
    assert!(output.contains(r#"span[data-sc-class="headword"]"#));
    assert!(output.contains(r#"span[data-sc-class="grammar"]"#));
    assert!(output.contains(r#"span[data-sc-class="translation"]"#));
}

#[test]
fn css_rewrite_exact_output() {
    assert_eq!(
        rewrite_css_classes("span.grammar { color: red; }"),
        r#"span[data-sc-class="grammar"] { color: red; }"#
    );
    assert_eq!(rewrite_css_classes(""), "");
}

#[test]
fn css_rewrite_of_a_rewritten_sheet_changes_nothing() {
    let once = rewrite_css_classes("div.a span.b { x: 1; }");
    assert_eq!(rewrite_css_classes(&once), once);
}
