use pangloss::formats::mdict::reader::read_keys;
use pangloss::formats::mdict::writer::write_key_section;
use pangloss::formats::mdict::EncryptionKind;
use pangloss::formats::mdict::mdd::read_mdd;
use pangloss::formats::mdict::reader::{parse_header_str, read_mdx, ParsedHeader};
use pangloss::formats::mdict::writer::write_mdx;
use pangloss::formats::mdict::{CompressionKind, MdictError};
use pangloss::{AltEntry, DataEntry, Definition, Entry, Glossary};

fn attr<'a>(attrs: &'a [(String, String)], key: &str) -> &'a str {
    attrs.iter().find(|(k, _)| k == key).map(|(_, v)| v.as_str()).expect("missing attribute")
}

#[test]
fn parse_header_str_multiline_description() {
    let header = r#"<Dictionary
GeneratedByEngineVersion="2.0"
Encoding="UTF-8"
Description="This is a &lt;b&gt;bold&lt;/b&gt; description
with a newline and &quot;quoted&quot; text and &amp;amp; entity"
Title="My Dictionary"/>"#;

    let ParsedHeader { attrs, encoding, .. } = parse_header_str(header).unwrap();
    assert_eq!(encoding, "UTF-8");
    assert_eq!(attr(&attrs, "Title"), "My Dictionary");
    assert_eq!(
        attr(&attrs, "Description"),
        "This is a <b>bold</b> description\nwith a newline and \"quoted\" text and &amp; entity"
    );
}

#[test]
fn parse_header_str_stylesheet() {
    let header = r#"<Dictionary
GeneratedByEngineVersion="2.0"
Encoding="UTF-8"
Description="description"
StyleSheet="1


2
</font>

3

<font color="\#006AD5">
"
Title="My Dictionary"/>"#;
    let ParsedHeader { stylesheet, .. } = parse_header_str(header).unwrap();
    let stylesheet = stylesheet.unwrap();
    assert_eq!(stylesheet.len(), 3);
    assert_eq!(stylesheet[0].1, (String::new(), String::new()));
    assert_eq!(stylesheet[1].1, ("</font>".to_string(), String::new()));
}

#[test]
fn parse_header_rejects_another_version() {
    let header = r#"<Dictionary GeneratedByEngineVersion="1.2" Encoding="UTF-8" Title="x"/>"#;
    match parse_header_str(header) {
        Err(MdictError::UnsupportedVersion(v)) => assert_eq!(v, "1.2"),
        Err(e) => panic!("unexpected {e:?}"),
        Ok(_) => panic!("unexpected success"),
    }
}

#[test]
fn parse_header_rejects_a_missing_encoding() {
    let header = r#"<Dictionary GeneratedByEngineVersion="2.0" Title="x"/>"#;
    assert!(matches!(parse_header_str(header), Err(MdictError::MissingEncoding)));
}

fn sample() -> Glossary {
    let b = Entry::new("bee".to_string(), Definition::Html("<b>an insect</b>".to_string()))
        .with_alts(vec![AltEntry::only_term("bees".to_string())]);
    let a = Entry::new("ant".to_string(), Definition::Html("another insect".to_string()));
    Glossary {
        entries: vec![b, a],
        ..Default::default()
    }
}

fn roundtrip(kind: CompressionKind) {
    let g = sample();
    let (mdx, mdd) = write_mdx(&g, "out.mdx", kind).expect("write");
    assert!(mdd.is_none());
    let back = read_mdx(&mdx).expect("read");
    assert_eq!(back.entries.len(), 2);
    for e in &g.entries {
        let found = back.entries.iter().find(|x| x.term() == e.term()).expect("entry back");
        assert_eq!(found.definition(), e.definition());
        let alts: Vec<&str> = found.alts().iter().map(|a| a.term()).collect();
        let want: Vec<&str> = e.alts().iter().map(|a| a.term()).collect();
        assert_eq!(alts, want);
    }
}

#[test]
fn mdx_written_uncompressed_reads_back() {
    roundtrip(CompressionKind::Stored);
}

#[test]
fn mdx_written_with_zlib_reads_back() {
    roundtrip(CompressionKind::Zip);
}

#[test]
fn mdd_is_written_only_with_data_entries() {
    let mut g = sample();
    g.data_entries.push(DataEntry::new("pic.png".to_string(), vec![0x89, b'P', b'N', b'G']));
    let (_, mdd) = write_mdx(&g, "dir/out.mdx", CompressionKind::Zip).expect("write");
    assert!(mdd.is_some());
}

#[test]
fn broken_mdx_files_give_the_first_error_met() {
    assert_eq!(read_mdx(&[]).err(), Some(MdictError::UnexpectedEof));
    let (mdx, _) = write_mdx(&sample(), "out.mdx", CompressionKind::Stored).expect("write");
    let header_len = u32::from_be_bytes([mdx[0], mdx[1], mdx[2], mdx[3]]) as usize;
    let mut bad_sum = mdx.clone();
    bad_sum[4 + header_len] ^= 0xff;
    assert_eq!(read_mdx(&bad_sum).err(), Some(MdictError::HeaderChecksumMismatch));
    let cut = &mdx[..4 + header_len + 4 + 10];
    assert_eq!(read_mdx(cut).err(), Some(MdictError::UnexpectedEof));
    // a key block whose compression type is unknown
    let mut bad_kind = mdx.clone();
    let key_section = 4 + header_len + 4;
    let info_len = u64::from_be_bytes(mdx[key_section + 24..key_section + 32].try_into().unwrap()) as usize;
    let block = key_section + 44 + info_len;
    bad_kind[block] = 7;
    assert_eq!(read_mdx(&bad_kind).err(), Some(MdictError::UnsupportedCompression(0x0700_0000)));
}

#[test]
fn a_picture_survives_the_mdd() {
    let png = vec![0x89, b'P', b'N', b'G', 0, 1, 2, 3];
    for kind in [CompressionKind::Stored, CompressionKind::Zip] {
        let mut g = sample();
        g.data_entries.push(DataEntry::new("apple.png".to_string(), png.clone()));
        g.data_entries.push(DataEntry::new("img/pear.jpg".to_string(), vec![9, 9]));
        let (_, mdd) = write_mdx(&g, "dir/out.mdx", kind).expect("write");
        let back = read_mdd(&mdd.expect("mdd")).expect("read");
        assert_eq!(back.len(), 2);
        assert_eq!(back[0].fname(), "apple.png");
        assert_eq!(back[0].bytes(), &png[..]);
        assert_eq!(&back[0].bytes()[..4], b"\x89PNG");
        assert_eq!(back[1].fname(), "img/pear.jpg");
        assert_eq!(back[1].bytes(), &[9u8, 9][..]);
    }
}

#[test]
fn a_broken_mdd_is_refused() {
    assert!(read_mdd(&[]).is_err());
}

#[test]
fn the_mdict_reader_wants_an_mdx() {
    use_check("dict.mdx", true);
    use_check("dict.mdd", false);
    use_check("dict", false);
}

fn use_check(path: &str, ok: bool) {
    let r = pangloss::formats::mdict::reader::check_mdx_path(path);
    if ok {
        assert!(r.is_ok());
    } else {
        assert_eq!(r, Err(MdictError::NotAnMdx(path.to_string())));
    }
}

#[test]
fn key_section_reads_back_its_headwords() {
    let terms = ["apple", "ñandú", "日本"];
    let keys: Vec<Vec<u8>> = terms.iter().map(|t| t.as_bytes().to_vec()).collect();
    for kind in [CompressionKind::Stored, CompressionKind::Zip] {
        let section = write_key_section(&keys, &[0, 10, 20], kind);
        let mut data = vec![7u8, 7];
        data.extend_from_slice(&section);
        let mut pos = 2;
        let back = read_keys(&data, &mut pos, "UTF-8", EncryptionKind::Zero).expect("keys");
        assert_eq!(back, terms.iter().map(|t| t.to_string()).collect::<Vec<_>>());
        assert_eq!(pos, data.len());
    }
}
