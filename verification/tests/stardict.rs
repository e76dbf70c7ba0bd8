use pangloss::formats::stardict::reader::{parse_idx, read_stardict, NamedFile};
use pangloss::formats::stardict::writer::write_stardict;
use pangloss::formats::stardict::StardictError;
use pangloss::{AltEntry, Definition, Entry, Glossary};

fn read_back(path: &str, g: &Glossary) -> Glossary {
    let files = write_stardict(g, path).unwrap();
    read_stardict(
        path,
        &files.ifo,
        NamedFile { name: "test.idx".to_string(), bytes: files.idx },
        NamedFile { name: "test.dict".to_string(), bytes: files.dict },
        files.syn.map(|b| NamedFile { name: "test.syn".to_string(), bytes: b }),
        None,
    )
    .unwrap()
}

#[test]
fn test_idx_entries_written_in_sorted_order() {
    let entries = vec![
        Entry::new("zebra".to_string(), Definition::Text("last alphabetically".to_string())),
        Entry::new("apple".to_string(), Definition::Text("first alphabetically".to_string())),
        Entry::new("mango".to_string(), Definition::Text("middle alphabetically".to_string())),
    ];
    let glossary = Glossary {
        entries,
        ..Default::default()
    };

    let read_glossary = read_back("test.ifo", &glossary);
    let read_terms: Vec<_> = read_glossary.entries.iter().map(Entry::term).collect();

    let mut expected = read_terms.clone();
    expected.sort_by_key(|t| t.to_lowercase());
    assert_eq!(read_terms, expected, "idx entries should be in lexicographic order");
}

#[test]
fn stardict_sort_is_by_lowercase_and_stable() {
    let entries = vec![
        Entry::new("b".to_string(), Definition::Html("1".to_string())),
        Entry::new("B".to_string(), Definition::Html("2".to_string())),
        Entry::new("a".to_string(), Definition::Html("3".to_string())),
    ];
    let g = Glossary { entries, ..Default::default() };
    let back = read_back("x.ifo", &g);
    let terms: Vec<_> = back.entries.iter().map(Entry::term).collect();
    assert_eq!(terms, vec!["a", "b", "B"]);
}

#[test]
fn stardict_idx_reads_back_what_was_written() {
    let entries = vec![
        Entry::new("one".to_string(), Definition::Html("<i>1</i>".to_string())),
        Entry::new("two".to_string(), Definition::Html("2".to_string())),
    ];
    let g = Glossary { entries, ..Default::default() };
    let files = write_stardict(&g, "d.ifo").unwrap();
    let items = parse_idx(&files.idx, false);
    assert_eq!(items.len(), 2);
    assert_eq!(files.dict, b"<i>1</i>2".to_vec());
    assert!(files.ifo.starts_with("StarDict's dict ifo file\nversion=3.0.0\nbookname=name\nwordcount=2\nidxfilesize=24\nsametypesequence=h\n"));
}

#[test]
fn stardict_alts_become_synonyms_and_come_back() {
    let entries = vec![Entry::new("run".to_string(), Definition::Html("to move".to_string()))
        .with_alts(vec![AltEntry::only_term("ran".to_string())])];
    let g = Glossary { entries, ..Default::default() };
    let files = write_stardict(&g, "d.ifo").unwrap();
    assert!(files.syn.is_some());
    assert!(files.ifo.contains("synwordcount=1\n"));
    let back = read_back("d.ifo", &g);
    let alts: Vec<&str> = back.entries[0].alts().iter().map(|a| a.term()).collect();
    assert_eq!(alts, vec!["ran"]);
    assert_eq!(back.entries[0].definition(), &Definition::Html("to move".to_string()));
}

#[test]
fn stardict_writer_wants_an_ifo_path() {
    let g = Glossary::default();
    assert_eq!(
        write_stardict(&g, "dict.txt").err(),
        Some(StardictError::NotAnIfo("dict.txt".to_string()))
    );
}
