use pangloss::formats::json::glossary_from_members;
use pangloss::formats::json::{read_json, write_json};
use pangloss::formats::mdict::reader::read_mdx;
use pangloss::formats::mdict::writer::write_mdx;
use pangloss::formats::mdict::CompressionKind;
use pangloss::formats::stardict::reader::{read_stardict, NamedFile};
use pangloss::formats::stardict::writer::write_stardict;
use pangloss::formats::text::{read_text, write_text, FormatError};
use pangloss::formats::yomitan::reader::read_yomitan;
use pangloss::formats::yomitan::writer::{split_definitions, write_index};
use pangloss::{AltEntry, Definition, Entry, Glossary};

fn apple() -> Glossary {
    let entries = vec![Entry::new("apple".to_string(), Definition::Text("a fruit".to_string()))];
    Glossary { entries, ..Default::default() }
}

fn texts(g: &Glossary) -> Vec<String> {
    g.entries.iter().map(|e| e.definition().to_text().unwrap()).collect()
}

fn same_terms_and_texts(original: &Glossary, back: &Glossary) {
    assert_eq!(original.entries.len(), back.entries.len());
    for (o, r) in original.entries.iter().zip(back.entries.iter()) {
        assert_eq!(o.term(), r.term());
        assert_eq!(o.definition().to_text(), r.definition().to_text());
    }
}

#[test]
fn test_roundtrip_text() {
    let g = apple();
    let out = write_text(&g, &texts(&g));
    let back = read_text("test.txt", &out).unwrap();
    same_terms_and_texts(&g, &back);
}

#[test]
fn test_roundtrip_json() {
    let g = apple();
    let out = write_json(&g, &texts(&g));
    let back = read_json("test.json", &out).unwrap();
    same_terms_and_texts(&g, &back);
}

#[test]
fn test_roundtrip_mdict() {
    let g = apple();
    let (mdx, _) = write_mdx(&g, "test.mdx", CompressionKind::Zip).unwrap();
    let back = read_mdx(&mdx).unwrap();
    same_terms_and_texts(&g, &back);
}

#[test]
fn test_roundtrip_stardict() {
    let g = apple();
    let files = write_stardict(&g, "test.ifo").unwrap();
    let back = read_stardict(
        "test.ifo",
        &files.ifo,
        NamedFile { name: "test.idx".to_string(), bytes: files.idx },
        NamedFile { name: "test.dict".to_string(), bytes: files.dict },
        None,
        None,
    )
    .unwrap();
    same_terms_and_texts(&g, &back);
}

#[test]
fn test_roundtrip_yomitan() {
    let g = apple();
    let index = write_index(&g.info);
    let (tb, tm) = split_definitions(apple().entries).unwrap();
    let back = read_yomitan(index.as_bytes(), vec![tb], vec![tm], vec![], None).unwrap();
    same_terms_and_texts(&g, &back);
}

#[test]
fn alts_survive_a_roundtrip() {
    let glossary = Glossary {
        entries: vec![Entry::new("bank".to_string(), Definition::Text("a riverside".to_string()))
            .with_alts(vec![AltEntry::only_term("banks".to_string())])],
        ..Default::default()
    };
    let out = write_json(&glossary, &texts(&glossary));
    let read = read_json("out.json", &out).expect("failed to read");
    assert_eq!(read.entries[0].term(), "bank");
    assert_eq!(read.entries[0].alts().len(), 1);
    assert_eq!(read.entries[0].alts()[0].term(), "banks");
}

#[test]
fn text_lines_and_info_are_written_in_order() {
    let mut g = apple();
    g.entries[0] = Entry::new("apple".to_string(), Definition::Text("a\nfruit".to_string()))
        .with_alts(vec![AltEntry::only_term("apples".to_string())]);
    let out = write_text(&g, &texts(&g));
    assert_eq!(out, "##name\tname\napple|apples\ta\\nfruit\n");
    let back = read_text("t.txt", &out).unwrap();
    assert_eq!(back.entries[0].alts()[0].term(), "apples");
}

#[test]
fn text_and_json_readers_want_their_extension() {
    assert_eq!(read_text("t.json", "").err(), Some(FormatError::WrongExtension("t.json".to_string())));
    assert_eq!(read_json("t.txt", "{}").err(), Some(FormatError::WrongExtension("t.txt".to_string())));
    assert_eq!(read_json("t.json", "[1]").err(), Some(FormatError::Malformed));
}

#[test]
fn json_is_indented_with_tabs() {
    let g = apple();
    let out = write_json(&g, &texts(&g));
    assert_eq!(out, "{\n\t\"##name\": \"name\",\n\t\"apple\": \"a fruit\"\n}\n");
}

#[test]
fn json_members_give_info_and_entries() {
    let members = vec![
        ("##name".to_string(), "Mine".to_string()),
        ("apple|apples".to_string(), "<b>fruit</b>".to_string()),
        ("".to_string(), "skipped".to_string()),
        ("pear".to_string(), "".to_string()),
    ];
    let g = glossary_from_members(members);
    assert_eq!(g.info.get("name"), Some("Mine"));
    assert_eq!(g.entries.len(), 1);
    assert_eq!(g.entries[0].term(), "apple");
    assert_eq!(g.entries[0].alts().len(), 1);
    assert_eq!(g.entries[0].alts()[0].term(), "apples");
    assert_eq!(g.entries[0].definition(), &Definition::Html("<b>fruit</b>".to_string()));
}
