use pangloss::formats::html::MAX_FILE_SIZE;
use pangloss::formats::html::{make_anchor, write_html_dir};
use pangloss::formats::text::FormatError;
use pangloss::{Definition, Entry, Glossary};

#[test]
fn anchors_are_lowercase_with_dashes() {
    assert_eq!(make_anchor("Hello World"), "hello-world");
    assert_eq!(make_anchor("Ça va?"), "ça-va-");
}

#[test]
fn html_dir_of_a_small_glossary_has_one_page() {
    let g = Glossary {
        entries: vec![
            Entry::new("apple".to_string(), Definition::Html("<i>a fruit</i>".to_string())),
            Entry::new("pear".to_string(), Definition::Text("another fruit".to_string())),
        ],
        ..Default::default()
    };
    let d = write_html_dir(&g, "out.hdir").unwrap();
    assert_eq!(d.pages.len(), 1);
    assert!(d.pages[0].contains("<i>a fruit</i>"));
    assert!(d.pages[0].contains("another fruit"));
    assert!(d.search_js.contains("apple"));
}

#[test]
fn html_dir_wants_its_extension() {
    let g = Glossary::default();
    assert_eq!(write_html_dir(&g, "out.html").err(), Some(FormatError::WrongExtension("out.html".to_string())));
}

#[test]
fn large_entries_spread_over_pages_of_at_most_the_limit() {
    let big = "x".repeat(40_000);
    let entries = (0..5)
        .map(|i| Entry::new(format!("w{i}"), Definition::Text(big.clone())))
        .collect();
    let g = Glossary { entries, ..Default::default() };
    let d = write_html_dir(&g, "out.hdir").unwrap();
    // two 40 kB entries fit a page of 100 kB, a third does not
    assert_eq!(d.pages.len(), 3);
    // the index names the page that holds each entry
    assert!(d.search_js.contains("{ term: \"w0\", page: \"00000.html\""));
    assert!(d.search_js.contains("{ term: \"w2\", page: \"00001.html\""));
    assert!(d.search_js.contains("{ term: \"w4\", page: \"00002.html\""));
    assert!(!d.search_js.contains("page: \"00003.html\""));
    for p in &d.pages {
        assert!(p.matches("class=\"entry\"").count() <= 2);
    }
    // a single entry larger than the limit gets a page of its own
    let huge = "y".repeat(MAX_FILE_SIZE + 10);
    let g2 = Glossary {
        entries: vec![
            Entry::new("a".to_string(), Definition::Text("small".to_string())),
            Entry::new("b".to_string(), Definition::Text(huge)),
            Entry::new("c".to_string(), Definition::Text("small".to_string())),
        ],
        ..Default::default()
    };
    let d2 = write_html_dir(&g2, "out.hdir").unwrap();
    assert_eq!(d2.pages.len(), 3);
}

#[test]
fn search_index_points_each_entry_at_its_page() {
    let g = Glossary {
        entries: vec![
            Entry::new("a".to_string(), Definition::Html("x".repeat(60000))),
            Entry::new("b".to_string(), Definition::Html("y".repeat(60000))),
        ],
        ..Default::default()
    };
    let d = write_html_dir(&g, "out.hdir").unwrap();
    assert_eq!(d.pages.len(), 2);
    assert!(d.pages[1].contains("id=\"b\""));
    assert!(d.search_js.contains("{ term: \"a\", page: \"00000.html\""));
    assert!(d.search_js.contains("{ term: \"b\", page: \"00001.html\""));
}
