use pangloss::formats::yomitan::{DetailedDefinition, Node, TagBankEntry, TermBankEntry, YomitanDefinition};
use pangloss::glossary::conversion::{html_to_structured_content, strip_html};
use pangloss::{DataEntry, Definition, Glossary, HtmlConverter, ReaderFormat, WriterFormat};

fn tag() -> TagBankEntry {
    TagBankEntry {
        short_tag: "名".into(),
        category: "partOfSpeech".into(),
        sort_order: 1,
        long_tag: "名詞".into(),
        popularity_score: 1,
    }
}

#[test]
fn term_entries_render_with_their_tags() {
    let mut e = TermBankEntry::raw("犬".to_string(), "dog".to_string());
    e.definition_tags = "名".to_string();
    let html = e.to_html(&[tag()]);
    assert!(html.contains("<div class=\"entry\">"));
    assert!(html.contains("partOfSpeech"));
    assert!(html.contains("名詞"));
    assert!(html.contains("dog"));
}

#[test]
fn converter_puts_the_stylesheet_links_first() {
    let g = Glossary {
        data_entries: vec![DataEntry::new("style.css".to_string(), vec![])],
        ..Default::default()
    };
    let converter = HtmlConverter::new(&g);
    assert_eq!(
        converter.convert(&Definition::Html("<b>x</b>".to_string())),
        "<link rel='stylesheet' href='style.css' type='text/css'><b>x</b>"
    );
    let plain = Glossary::default();
    assert_eq!(HtmlConverter::new(&plain).convert(&Definition::Text("t".to_string())), "t");
}

#[test]
fn html_becomes_structured_content_that_keeps_its_text() {
    match html_to_structured_content("<div>a <span>b</span></div>") {
        DetailedDefinition::StructuredContent(sc) => {
            let y = Definition::Yomitan(YomitanDefinition::TermBankEntry(TermBankEntry {
                definitions: vec![DetailedDefinition::StructuredContent(sc)],
                ..TermBankEntry::raw("t".to_string(), String::new())
            }));
            let html = HtmlConverter::new(&Glossary::default()).convert(&y);
            assert!(html.contains('a'));
            assert!(html.contains('b'));
            assert!(html.contains("<span"));
        }
        other => panic!("expected structured content, got {other:?}"),
    }
}

#[test]
fn plain_text_becomes_a_text_node() {
    match html_to_structured_content("just text") {
        DetailedDefinition::StructuredContent(sc) => {
            let found = match &sc.content {
                Node::Text(s) => s.contains("just text"),
                Node::Array(v) => v.iter().any(|n| matches!(n, Node::Text(s) if s.contains("just text"))),
                Node::Generic(g) => matches!(&g.content, Some(Node::Text(s)) if s.contains("just text")),
                _ => false,
            };
            assert!(found, "{:?}", sc.content);
        }
        other => panic!("expected structured content, got {other:?}"),
    }
}

#[test]
fn strip_html_puts_a_space_for_each_tag() {
    assert_eq!(strip_html("<p>a<b>b</b></p>c"), "a b c");
    assert_eq!(strip_html("no tags"), "no tags");
}

#[test]
fn formats_are_detected_from_the_extension() {
    assert_eq!(ReaderFormat::try_from_path("path/to/stardict.ifo"), Some(ReaderFormat::Stardict));
    assert_eq!(ReaderFormat::try_from_path("out.zip"), Some(ReaderFormat::Yomitan));
    assert_eq!(ReaderFormat::try_from_path("d.mdx"), Some(ReaderFormat::Mdict));
    assert_eq!(ReaderFormat::try_from_path("d.hdir"), None);
    assert_eq!(WriterFormat::try_from_path("path/to/out.zip"), Some(WriterFormat::Yomitan));
    assert_eq!(WriterFormat::try_from_path("d.hdir"), Some(WriterFormat::Html));
    assert_eq!(WriterFormat::try_from_path("noext"), None);
    assert!(ReaderFormat::Json.eq(&WriterFormat::Json));
    assert!(!ReaderFormat::Json.eq(&WriterFormat::Text));
}

#[test]
fn text_of_a_term_bank_entry_joins_its_definitions() {
    let e = TermBankEntry {
        definitions: vec![
            DetailedDefinition::String("one".to_string()),
            DetailedDefinition::Inflection("run".to_string(), vec!["past".to_string(), "simple".to_string()]),
            DetailedDefinition::StructuredContent(pangloss::formats::yomitan::StructuredContent::new(Node::Text(
                "x".to_string(),
            ))),
        ],
        ..TermBankEntry::raw("t".to_string(), String::new())
    };
    let d = Definition::Yomitan(YomitanDefinition::TermBankEntry(e));
    assert_eq!(d.to_text(), None);
    assert_eq!(
        d.to_text_with(&[String::new(), String::new(), "{json}".to_string()]),
        "one\nrun (past, simple)\n{json}"
    );
    assert_eq!(Definition::Html("<b>h</b>".to_string()).to_text(), Some("<b>h</b>".to_string()));
}
