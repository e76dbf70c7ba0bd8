use pangloss::formats::text::read_text;
use pangloss::formats::yomitan::reader::{flatten_banks, read_yomitan};
use pangloss::formats::yomitan::writer::{chunk_banks, split_definitions, write_index};
use pangloss::formats::yomitan::{DetailedDefinition, YomitanDefinition};
use pangloss::transform::PreventDuplicateTerms;
use pangloss::{AltEntry, Definition, Entry, Glossary};

#[test]
fn renaming_duplicates_numbers_them_from_two() {
    let mut t = PreventDuplicateTerms::new();
    let mut names = Vec::new();
    for term in ["a", "a", "b", "a", "a (2)"] {
        let mut e = Entry::new(term.to_string(), Definition::Text("x".to_string()));
        t.apply(&mut e);
        names.push(e.term().to_string());
    }
    assert_eq!(names, vec!["a", "a (2)", "b", "a (3)", "a (2) (2)"]);
}

#[test]
fn yomitan_roundtrip_keeps_alts_as_inflections() {
    let entries = vec![
        Entry::new("run".to_string(), Definition::Text("to move".to_string()))
            .with_alts(vec![AltEntry::only_term("ran".to_string()), AltEntry::only_term("runs".to_string())]),
        Entry::new("walk".to_string(), Definition::Html("<i>to stroll</i>".to_string())),
    ];
    let g = Glossary { entries, ..Default::default() };
    let index = write_index(&g.info);
    let (tb, tm) = split_definitions(g.entries).unwrap();
    assert_eq!(tb.len(), 4);
    let back = read_yomitan(index.as_bytes(), vec![tb], vec![tm], vec![], None).unwrap();
    assert_eq!(back.entries.len(), 2);
    assert_eq!(back.entries[0].term(), "run");
    let alts: Vec<&str> = back.entries[0].alts().iter().map(|a| a.term()).collect();
    assert_eq!(alts, vec!["ran", "runs"]);
    match back.entries[0].alts()[0].definition() {
        Some(Definition::Yomitan(YomitanDefinition::TermBankEntry(e))) => {
            assert_eq!(e.definitions, vec![DetailedDefinition::Inflection("run".to_string(), vec![])]);
        }
        other => panic!("unexpected {other:?}"),
    }
    assert_eq!(back.entries[1].term(), "walk");
    assert!(back.entries[1].alts().is_empty());
}

#[test]
fn banks_read_back_in_order_are_the_items() {
    let items: Vec<u32> = (0..2345).collect();
    let banks: Vec<Vec<u32>> = chunk_banks(items.clone(), "term_bank").into_iter().map(|(_, b)| b).collect();
    assert_eq!(flatten_banks(banks), items);
}

#[test]
fn a_text_glossary_with_alts_splits_into_banks() {
    let g = read_text("d.txt", "run|ran|runs\tto move\nwalk\tto stroll\n").unwrap();
    let (tb, tm) = split_definitions(g.entries).unwrap();
    assert_eq!(tb.len(), 4);
    assert!(tm.is_empty());
}
