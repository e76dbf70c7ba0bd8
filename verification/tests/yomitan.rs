use pangloss::formats::yomitan::reader::{index_info, IndexValue};
use pangloss::formats::yomitan::reader::{collect_zip_contents, parse_index_file, YomitanError};
use pangloss::formats::yomitan::writer::{
    chunk_banks, other_files, parse_i64, split_definitions, styles_css, write_index, SplitError, CHUNK_SIZE,
};
use pangloss::formats::yomitan::{
    DetailedDefinition, FreqKind, FrequencyData, FrequencyTerm, TermBankEntry, TermMetaBankEntry, YomitanDefinition,
};
use pangloss::{AltEntry, DataEntry, Definition, Entry, GlossaryInfo, ReaderFormat};

fn entry(term: &str, rules: &str, definitions: Vec<DetailedDefinition>) -> TermBankEntry {
    TermBankEntry {
        term: term.to_string(),
        reading: String::new(),
        definition_tags: String::new(),
        rules: rules.to_string(),
        frequency: 0,
        definitions,
        sequence: 0,
        term_tags: String::new(),
    }
}

#[test]
fn inflection_source_reads_the_term_inside_the_definition() {
    let inflection = entry(
        "nieves",
        "n",
        vec![DetailedDefinition::Inflection("nieve".to_string(), vec!["plural".to_string()])],
    );
    assert_eq!(inflection.term, "nieves");
    assert_eq!(inflection.inflection_source(), Some("nieve"));

    // A plain definition is not an inflection.
    let lemma = entry("nieve", "", vec![DetailedDefinition::String("snow".to_string())]);
    assert_eq!(lemma.inflection_source(), None);

    // Nor is a mix of the two.
    let mixed = entry(
        "nieves",
        "",
        vec![
            DetailedDefinition::Inflection("nieve".to_string(), vec![]),
            DetailedDefinition::String("snow".to_string()),
        ],
    );
    assert_eq!(mixed.inflection_source(), None);

    // Nor is an entry with no definitions at all.
    let empty = entry("nieves", "", vec![]);
    assert_eq!(empty.inflection_source(), None);
}

#[test]
fn index_of_a_default_info() {
    let info = GlossaryInfo::default();
    assert_eq!(
        write_index(&info),
        "{\n  \"title\": \"name\",\n  \"revision\": \"1\",\n  \"version\": 3\n}"
    );
}

#[test]
fn index_keeps_a_numeric_format_and_drops_a_bad_version() {
    let mut info = GlossaryInfo::default();
    info.insert("format", "3".to_string());
    info.insert("version", "three".to_string());
    info.insert("sequenced", "true".to_string());
    assert_eq!(
        write_index(&info),
        "{\n  \"title\": \"name\",\n  \"format\": 3,\n  \"sequenced\": true,\n  \"revision\": \"1\"\n}"
    );
}

#[test]
fn parse_i64_reads_signed_decimals() {
    assert_eq!(parse_i64("42"), Some(42));
    assert_eq!(parse_i64("-7"), Some(-7));
    assert_eq!(parse_i64("+5"), Some(5));
    assert_eq!(parse_i64(""), None);
    assert_eq!(parse_i64("4x"), None);
    assert_eq!(parse_i64("9223372036854775808"), None);
}

#[test]
fn chunks_of_a_thousand_named_from_one() {
    let items: Vec<u32> = (0..2500).collect();
    let banks = chunk_banks(items, "term_bank");
    assert_eq!(banks.len(), 3);
    assert_eq!(banks[0].0, "term_bank_1.json");
    assert_eq!(banks[2].0, "term_bank_3.json");
    assert_eq!(banks[0].1.len(), CHUNK_SIZE);
    assert_eq!(banks[2].1, (2000..2500).collect::<Vec<u32>>());
    assert!(chunk_banks(Vec::<u32>::new(), "x").is_empty());
}

#[test]
fn zip_contents_are_sorted_by_bank_number() {
    let names: Vec<String> = ["term_bank_10.json", "index.json", "term_bank_2.json", "tag_bank_1.json", "styles.css", "img/a.png"]
        .iter()
        .map(|s| s.to_string())
        .collect();
    let z = collect_zip_contents(&names).unwrap();
    assert_eq!(z.term_banks, vec![2, 0]);
    assert_eq!(z.tag_banks, vec![3]);
    assert!(z.term_meta_banks.is_empty());
    assert_eq!(z.index_json, 1);
    assert_eq!(z.styles_css, Some(4));
}

#[test]
fn zip_without_index_is_refused() {
    let names = vec!["term_bank_1.json".to_string()];
    assert_eq!(collect_zip_contents(&names).err(), Some(YomitanError::MissingIndex));
}

#[test]
fn split_puts_alts_after_the_entries() {
    let e1 = Entry::new("run".to_string(), Definition::Text("to move".to_string()))
        .with_alts(vec![AltEntry::only_term("ran".to_string())]);
    let (tb, tm) = split_definitions(vec![e1]).unwrap();
    assert!(tm.is_empty());
    assert_eq!(tb.len(), 2);
    assert_eq!(tb[0], TermBankEntry::raw("run".to_string(), "to move".to_string()));
    assert_eq!(tb[1], TermBankEntry::raw_inflection("run".to_string(), "ran".to_string()));
}

#[test]
fn split_sends_meta_entries_to_their_own_bank() {
    let meta = TermMetaBankEntry::Frequency(
        "run".to_string(),
        FreqKind::Freq,
        FrequencyData::Plain(FrequencyTerm::Frequency(5)),
    );
    let e = Entry::new("run".to_string(), Definition::Yomitan(YomitanDefinition::TermMetaBankEntry(meta.clone())));
    let (tb, tm) = split_definitions(vec![e]).unwrap();
    assert!(tb.is_empty());
    assert_eq!(tm, vec![meta]);
}

#[test]
fn split_refuses_rich_alts() {
    let e = Entry::new("run".to_string(), Definition::Text("x".to_string()))
        .with_alts(vec![AltEntry::new("ran".to_string(), Definition::Html("<b>ran</b>".to_string()))]);
    assert_eq!(split_definitions(vec![e]).err(), Some(SplitError::UnexpectedRichAlt));

    let meta = TermMetaBankEntry::Frequency(
        "ran".to_string(),
        FreqKind::Freq,
        FrequencyData::Plain(FrequencyTerm::Frequency(1)),
    );
    let e = Entry::new("run".to_string(), Definition::Text("x".to_string())).with_alts(vec![AltEntry::new(
        "ran".to_string(),
        Definition::Yomitan(YomitanDefinition::TermMetaBankEntry(meta)),
    )]);
    assert_eq!(split_definitions(vec![e]).err(), Some(SplitError::MetaEntryInAlts));
}

#[test]
fn styles_are_joined_and_rewritten_unless_from_yomitan() {
    let data = vec![
        DataEntry::new("a.css".to_string(), b"span.x { }".to_vec()),
        DataEntry::new("p.png".to_string(), vec![1, 2]),
        DataEntry::new("b.css".to_string(), b"\ndiv.y { }".to_vec()),
    ];
    assert_eq!(
        styles_css(&data, Some(ReaderFormat::Yomitan)),
        Some(b"span.x { }\ndiv.y { }".to_vec())
    );
    assert_eq!(
        styles_css(&data, Some(ReaderFormat::Mdict)),
        Some(b"span[data-sc-class=\"x\"] { }\ndiv[data-sc-class=\"y\"] { }".to_vec())
    );
    assert_eq!(styles_css(&data[1..2], Some(ReaderFormat::Mdict)), None);
    let others: Vec<&str> = other_files(&data).iter().map(|d| d.fname()).collect();
    assert_eq!(others, vec!["p.png"]);
}

#[test]
fn index_format_three_is_read_under_either_name() {
    let info = parse_index_file(br#"{"title": "T", "format": 3, "revision": "1"}"#).unwrap();
    assert_eq!(info.name(), "T");
    assert_eq!(info.get("format"), Some("3"));
    assert!(parse_index_file(br#"{"title": "T", "version": 3}"#).is_ok());
    assert_eq!(parse_index_file(br#"{"format": 2}"#).err(), Some(YomitanError::UnsupportedFormat));
    assert_eq!(parse_index_file(br#"{"format": "3"}"#).err(), Some(YomitanError::UnsupportedFormat));
    assert_eq!(parse_index_file(br#"{"format": 2, "version": 3}"#).err(), Some(YomitanError::UnsupportedFormat));
    assert_eq!(parse_index_file(b"[3]").err(), Some(YomitanError::MalformedIndex));
}

#[test]
fn index_members_give_info_only_for_format_3() {
    let ok = index_info(vec![
        ("title".to_string(), IndexValue::Text("Dict".to_string())),
        ("format".to_string(), IndexValue::Number("3".to_string())),
    ])
    .unwrap();
    assert_eq!(ok.get("title"), Some("Dict"));
    assert_eq!(ok.get("format"), Some("3"));
    let old = index_info(vec![("version".to_string(), IndexValue::Number("3".to_string()))]);
    assert!(old.is_ok());
    let two = index_info(vec![("format".to_string(), IndexValue::Number("2".to_string()))]);
    assert!(matches!(two, Err(YomitanError::UnsupportedFormat)));
    let text = index_info(vec![("format".to_string(), IndexValue::Text("3".to_string()))]);
    assert!(matches!(text, Err(YomitanError::UnsupportedFormat)));
}
