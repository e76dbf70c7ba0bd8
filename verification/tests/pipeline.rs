use pangloss::formats::yomitan::{TermBankEntry, YomitanDefinition};
use pangloss::pipeline::{post_read, pre_write, pre_write_transformer, PostReadError};
use pangloss::transform::EntryTransform;
use pangloss::{Definition, Entry, Glossary, ReaderFormat, WriterFormat};

fn glossary(defs: Vec<Definition>) -> Glossary {
    let entries = defs
        .into_iter()
        .enumerate()
        .map(|(i, d)| Entry::new(format!("t{i}"), d))
        .collect();
    Glossary { entries, ..Default::default() }
}

#[test]
fn post_read_renames_and_strips() {
    let mut g = glossary(vec![
        Definition::Html("<b>bold</b> text".to_string()),
        Definition::Text("plain [1]".to_string()),
    ]);
    let r = post_read(&mut g, Some("New".to_string()), Some(r"<[^>]+>|\[\d+\]"));
    assert_eq!(r, Ok(()));
    assert_eq!(g.info.name(), "New");
    assert_eq!(g.entries[0].definition(), &Definition::Html("bold text".to_string()));
    assert_eq!(g.entries[1].definition(), &Definition::Text("plain ".to_string()));
}

#[test]
fn post_read_without_pattern_keeps_the_entries() {
    let mut g = glossary(vec![Definition::Text("x".to_string())]);
    assert_eq!(post_read(&mut g, None, None), Ok(()));
    assert_eq!(g.info.name(), "name");
    assert_eq!(g.entries[0].definition(), &Definition::Text("x".to_string()));
}

#[test]
fn post_read_refuses_an_invalid_pattern() {
    let mut g = glossary(vec![Definition::Text("x(".to_string())]);
    assert_eq!(post_read(&mut g, None, Some("(")), Err(PostReadError::InvalidPattern));
    assert_eq!(g.entries[0].definition(), &Definition::Text("x(".to_string()));
}

#[test]
fn post_read_refuses_yomitan_definitions() {
    let y = Definition::Yomitan(YomitanDefinition::TermBankEntry(TermBankEntry::raw(
        "t".to_string(),
        "d".to_string(),
    )));
    let mut g = glossary(vec![Definition::Text("a".to_string()), y]);
    assert_eq!(post_read(&mut g, None, Some("a")), Err(PostReadError::YomitanDefinition));
}

#[test]
fn no_transforms_between_equal_formats() {
    assert!(pre_write_transformer(Some(ReaderFormat::Json), Some(WriterFormat::Json), None).is_none());
    assert!(pre_write_transformer(None, Some(WriterFormat::Json), None).is_none());
}

#[test]
fn transforms_for_mdict_to_json() {
    let sheet = vec![(1u32, ("<b>".to_string(), "</b>".to_string()))];
    let t = pre_write_transformer(Some(ReaderFormat::Mdict), Some(WriterFormat::Json), Some(&sheet)).unwrap();
    assert_eq!(t.transforms.len(), 3);
    assert!(matches!(t.transforms[0], EntryTransform::TrimWhiteSpace(_)));
    match &t.transforms[1] {
        EntryTransform::ResolveMdictStyles(r) => assert_eq!(r.style_sheet, sheet),
        _ => panic!("expected the style resolver"),
    }
    assert!(matches!(t.transforms[2], EntryTransform::PreventDuplicateTerms(_)));
    let t = pre_write_transformer(Some(ReaderFormat::Stardict), Some(WriterFormat::Yomitan), Some(&sheet)).unwrap();
    assert_eq!(t.transforms.len(), 1);
}

#[test]
fn pre_write_trims_and_resolves_styles() {
    let mut g = glossary(vec![Definition::Html("`1`hi`2`".to_string())]);
    *g.entries[0].term_mut() = "  word\r ".to_string();
    g.metadata.stylesheet = Some(vec![(1, ("<b>".to_string(), "</b>".to_string()))]);
    pre_write(&mut g, Some(ReaderFormat::Mdict), Some(WriterFormat::Text), &["unused".to_string()]);
    assert_eq!(g.entries[0].term(), "word");
    assert_eq!(g.entries[0].definition(), &Definition::Html("<b>hi</b>".to_string()));
}

#[test]
fn pre_write_renames_duplicates_for_json() {
    let mut g = glossary(vec![Definition::Text("1".to_string()), Definition::Text("2".to_string())]);
    *g.entries[1].term_mut() = "t0".to_string();
    pre_write(&mut g, Some(ReaderFormat::Text), Some(WriterFormat::Json), &[]);
    assert_eq!(g.entries[0].term(), "t0");
    assert_eq!(g.entries[1].term(), "t0 (2)");
}

#[test]
fn pre_write_leaves_a_same_format_glossary_alone() {
    let mut g = glossary(vec![Definition::Text("1".to_string())]);
    *g.entries[0].term_mut() = " padded ".to_string();
    pre_write(&mut g, Some(ReaderFormat::Text), Some(WriterFormat::Text), &[]);
    assert_eq!(g.entries[0].term(), " padded ");
}

#[test]
fn pre_write_resolves_styles_in_the_text_of_a_yomitan_definition() {
    let entry = TermBankEntry {
        term: "t0".to_string(),
        reading: String::new(),
        definition_tags: String::new(),
        rules: String::new(),
        frequency: 0,
        definitions: Vec::new(),
        sequence: 0,
        term_tags: String::new(),
    };
    let mut g = glossary(vec![Definition::Yomitan(YomitanDefinition::TermBankEntry(entry))]);
    g.metadata.stylesheet = Some(vec![(1, ("<i>".to_string(), "</i>".to_string()))]);
    pre_write(&mut g, Some(ReaderFormat::Mdict), Some(WriterFormat::Html), &["`1`x".to_string()]);
    assert_eq!(g.entries[0].definition(), &Definition::Html("<i>x</i>".to_string()));
}

#[test]
fn pre_write_keeps_a_definition_without_style_markers() {
    let mut g = glossary(vec![Definition::Html("plain <b>text</b>".to_string())]);
    g.metadata.stylesheet = Some(vec![(1, ("<i>".to_string(), "</i>".to_string()))]);
    pre_write(&mut g, Some(ReaderFormat::Mdict), Some(WriterFormat::Text), &["unused".to_string()]);
    assert_eq!(g.entries[0].definition(), &Definition::Html("plain <b>text</b>".to_string()));
}
