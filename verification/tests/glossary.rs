use pangloss::glossary::glossary_info::normalize_key;
use pangloss::{AltEntry, DataEntry, Definition, Entry, Glossary, GlossaryInfo};

#[test]
fn add_entry() {
    let entry = Entry::new("apple".to_string(), Definition::Text("a fruit".to_string()));
    let glossary = Glossary {
        entries: vec![entry],
        ..Default::default()
    };
    assert_eq!(glossary.entries.len(), 1);
}

#[test]
fn add_info_pair() {
    let mut glossary = Glossary::default();
    assert_eq!(glossary.info.len(), 1); // The "name" key
    let _ = glossary.info.insert("snake_case", "value".to_string());
    assert_eq!(glossary.info.len(), 2);
}

#[test]
fn glossary_info() {
    let mut info = GlossaryInfo::default();
    let pairs = [("sametypesequence", "h"), ("source_language", "en")];
    for (key, value) in pairs {
        info.insert(key, value.to_string());
    }
    assert_eq!(info.len(), 3);
    assert_eq!(info.get("sourceLanguage"), Some("en"));
}

#[test]
fn test_normalize_key_resolve() {
    assert_eq!(normalize_key("Title"), "name");
    assert_eq!(normalize_key("BookName"), "name");
    assert_eq!(normalize_key("book name"), "name");
    assert_eq!(normalize_key("book   Name"), "name");
    assert_eq!(normalize_key("Date"), "creationTime");

    assert_eq!(normalize_key("sourcelang"), "sourceLang");
    assert_eq!(normalize_key("SourceLang"), "sourceLang");
    assert_eq!(normalize_key("inputlang"), "sourceLang");
    assert_eq!(normalize_key("targetlang"), "targetLang");
    assert_eq!(normalize_key("date"), "creationTime");
}

#[test]
fn test_normalize_key() {
    // PascalCase -> camelCase
    assert_eq!(normalize_key("CreationDate"), "creationDate");

    // already camelCase -> unchanged
    assert_eq!(normalize_key("camelCase"), "camelCase");
    assert_eq!(normalize_key("sourceLang"), "sourceLang");

    // separators -> camelCase
    assert_eq!(normalize_key("creation_date"), "creationDate");
    assert_eq!(normalize_key("creation-date"), "creationDate");

    // lowercase -> unchanged
    assert_eq!(normalize_key("name"), "name");
    assert_eq!(normalize_key("description"), "description");
}

#[test]
fn new_with_existing_file_succeeds() {
    let file = tempfile::NamedTempFile::new().unwrap();
    let path = file.path().to_string_lossy().into_owned();
    let entry = DataEntry::new(path.clone(), vec![1, 2, 3]);
    assert_eq!(entry.bytes(), &[1u8, 2, 3][..]);
    assert_eq!(entry.fname(), path.as_str());
}

#[test]
fn info_insert_then_get_gives_the_value_back_under_the_normalized_key() {
    let mut info = GlossaryInfo::default();
    assert_eq!(info.insert("Book Name", "My dict".to_string()), Some("name".to_string()));
    assert_eq!(info.name(), "My dict");
    assert_eq!(info.insert("target_lang", "de".to_string()), None);
    assert_eq!(info.get("targetLang"), Some("de"));
    assert_eq!(info.get("target_lang"), Some("de"));
    assert_eq!(info.len(), 2);
}

#[test]
fn info_update_only_touches_a_present_key() {
    let mut info = GlossaryInfo::default();
    assert!(info.update("name", "renamed".to_string()));
    assert_eq!(info.name(), "renamed");
    assert!(!info.update("description", "x".to_string()));
    assert_eq!(info.get("description"), None);
}

#[test]
fn entry_terms_join_headword_and_alts() {
    let entry = Entry::new("run".to_string(), Definition::Text("to move".to_string()))
        .with_alts(vec![AltEntry::only_term("ran".to_string()), AltEntry::only_term("runs".to_string())]);
    assert_eq!(entry.s_terms(), "run|ran|runs");
    assert_eq!(entry.b_term(), b"run");
    assert_eq!(entry.b_alts(), vec![b"ran".to_vec(), b"runs".to_vec()]);
}

#[test]
fn css_files_are_the_stylesheets_in_order() {
    let glossary = Glossary {
        data_entries: vec![
            DataEntry::new("a.css".to_string(), vec![1]),
            DataEntry::new("pic.png".to_string(), vec![2]),
            DataEntry::new("b.css".to_string(), vec![3]),
        ],
        ..Default::default()
    };
    let css: Vec<&str> = glossary.css_files().iter().map(|d| d.fname()).collect();
    assert_eq!(css, vec!["a.css", "b.css"]);
}

#[test]
fn get_tries_the_key_then_its_normalized_form() {
    let mut info = GlossaryInfo::new();
    info.insert("Title", "Mine".to_string());
    info.insert("inputlang", "el".to_string());
    assert_eq!(info.get("name"), Some("Mine"));
    assert_eq!(info.get("bookName"), Some("Mine"));
    assert_eq!(info.get("sourceLang"), Some("el"));
    assert_eq!(info.get("SourceLang"), Some("el"));
    assert_eq!(info.get("author"), None);
}
