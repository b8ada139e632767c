use trash_cli::trash::ds_store::{
    encode_entries, parse_entries, remove_entries, remove_trash_entry, upsert_entries, upsert_trash_entry, DsStoreEntry,
    DsStoreValue,
};

fn entry(name: &str, st: &str, dt: &str, value: DsStoreValue) -> DsStoreEntry {
    DsStoreEntry {
        filename: name.to_string(),
        structure_type: st.to_string(),
        data_type: dt.to_string(),
        value,
    }
}

#[test]
fn upsert_and_remove_native_trash_entries_round_trip() {
    let bytes = upsert_trash_entry(None, "demo.txt", "/workspace/docs/demo.txt").expect("should create metadata");
    let bytes = upsert_trash_entry(Some(&bytes), "note.txt", "/workspace/note.txt").expect("should append metadata");

    let entries = parse_entries(&bytes).expect("metadata should parse");
    assert!(entries.iter().any(|entry| {
        entry.filename == "demo.txt"
            && entry.structure_type == "ptbL"
            && entry.value.as_string() == Some("/workspace/docs")
    }));
    assert!(entries.iter().any(|entry| {
        entry.filename == "note.txt"
            && entry.structure_type == "ptbN"
            && entry.value.as_string() == Some("note.txt")
    }));

    let bytes = remove_trash_entry(Some(&bytes), "demo.txt")
        .expect("should remove metadata")
        .expect("other entries remain");
    let entries = parse_entries(&bytes).expect("metadata should still parse");
    assert!(!entries.iter().any(|entry| entry.filename == "demo.txt"));
    assert!(entries.iter().any(|entry| entry.filename == "note.txt"));

    let last = remove_trash_entry(Some(&bytes), "note.txt").expect("should remove final metadata");
    assert!(last.is_none());
}

#[test]
fn upsert_replaces_old_location_records() {
    let bytes = upsert_trash_entry(None, "a", "/one/a").expect("first");
    let bytes = upsert_trash_entry(Some(&bytes), "a", "/two/b").expect("second");
    let entries = parse_entries(&bytes).expect("parse");
    assert_eq!(entries.len(), 2);
    assert_eq!(entries[0].structure_type, "ptbL");
    assert_eq!(entries[0].value.as_string(), Some("/two"));
    assert_eq!(entries[1].structure_type, "ptbN");
    assert_eq!(entries[1].value.as_string(), Some("b"));
}

#[test]
fn upsert_records_root_and_relative_parents() {
    let entries = upsert_entries(Vec::new(), "x", "top").expect("relative");
    assert_eq!(entries[0].value.as_string(), Some(""));
    let entries = upsert_entries(Vec::new(), "x", "/top").expect("under root");
    assert_eq!(entries[0].value.as_string(), Some("/"));
    let err = upsert_entries(Vec::new(), "x", "/").expect_err("no file name");
    assert_eq!(err.text(), "invalid original file name");
    let err = upsert_entries(Vec::new(), "x", "/a/..").expect_err("no file name");
    assert_eq!(err.text(), "invalid original file name");
}

#[test]
fn remove_keeps_other_files() {
    let es = vec![
        entry("a", "ptbL", "ustr", DsStoreValue::String("/x".to_string())),
        entry("b", "dscl", "bool", DsStoreValue::Bool(true)),
        entry("a", "ptbN", "ustr", DsStoreValue::String("a".to_string())),
    ];
    let rest = remove_entries(es, "a");
    assert_eq!(rest.len(), 1);
    assert_eq!(rest[0].filename, "b");
    assert!(remove_trash_entry(None, "a").expect("no file").is_none());
}

#[test]
fn encoded_entries_read_back_sorted() {
    let es = vec![
        entry("b", "ptbN", "ustr", DsStoreValue::String("é€😀".to_string())),
        entry("a", "lg1S", "comp", DsStoreValue::U64(0x0102_0304_0506_0708)),
        entry("a", "dscl", "bool", DsStoreValue::Bool(true)),
        entry("a", "vSrn", "long", DsStoreValue::U32(0xDEAD_BEEF)),
        entry("a", "ICVO", "blob", DsStoreValue::Blob(vec![1, 2, 3])),
        entry("a", "pict", "type", DsStoreValue::FourCharCode("icnv".to_string())),
    ];
    let bytes = encode_entries(es).expect("should encode");
    let back = parse_entries(&bytes).expect("should parse");
    let order: Vec<(&str, &str)> =
        back.iter().map(|e| (e.filename.as_str(), e.structure_type.as_str())).collect();
    assert_eq!(order, vec![("a", "ICVO"), ("a", "dscl"), ("a", "lg1S"), ("a", "pict"), ("a", "vSrn"), ("b", "ptbN")]);
    assert!(matches!(back[0].value, DsStoreValue::Blob(ref b) if b == &vec![1, 2, 3]));
    assert!(matches!(back[1].value, DsStoreValue::Bool(true)));
    assert!(matches!(back[2].value, DsStoreValue::U64(0x0102_0304_0506_0708)));
    assert_eq!(back[3].value.as_string(), Some("icnv"));
    assert!(matches!(back[4].value, DsStoreValue::U32(0xDEAD_BEEF)));
    assert_eq!(back[5].value.as_string(), Some("é€😀"));
}

#[test]
fn encoded_layout_is_fixed() {
    let bytes = encode_entries(Vec::new()).expect("empty file");
    assert_eq!(bytes.len(), 1124 + 32);
    assert_eq!(&bytes[0..8], &[0, 0, 0, 1, 0x42, 0x75, 0x64, 0x31]);
    assert_eq!(&bytes[8..16], &[0, 0, 0, 32, 0, 0, 4, 21]);
    assert_eq!(&bytes[36..52], &[0, 0, 0, 2, 0, 0, 0, 0, 0, 0, 4, 69, 0, 0, 4, 101]);
    assert!(parse_entries(&bytes).expect("parse").is_empty());
}

#[test]
fn large_leaf_blocks_grow_by_doubling() {
    let big = "x".repeat(100);
    let es = vec![entry("f", "ptbL", "ustr", DsStoreValue::String(big.clone()))];
    let bytes = encode_entries(es).expect("encode");
    assert_eq!(bytes.len(), 1124 + 256);
    let back = parse_entries(&bytes).expect("parse");
    assert_eq!(back[0].value.as_string(), Some(big.as_str()));
}

#[test]
fn encoding_rejects_bad_codes_and_values() {
    let err = encode_entries(vec![entry("f", "toolong", "ustr", DsStoreValue::String(String::new()))])
        .expect_err("long code");
    assert_eq!(err.text(), "invalid DS_Store fourcc: toolong");
    let err = encode_entries(vec![entry("f", "ptbL", "ustr", DsStoreValue::Bool(true))]).expect_err("mismatch");
    assert_eq!(err.text(), "unsupported DS_Store value for type ustr");
    let err = encode_entries(vec![entry("f", "ptbL", "xxxx", DsStoreValue::U32(1))]).expect_err("unknown type");
    assert_eq!(err.text(), "unsupported DS_Store value for type xxxx");
}

#[test]
fn parsing_rejects_damaged_files() {
    assert_eq!(parse_entries(&[0, 0]).expect_err("short").text(), "truncated DS_Store");
    assert_eq!(
        parse_entries(&[0, 0, 0, 2, 0x42, 0x75, 0x64, 0x31]).expect_err("alignment").text(),
        "invalid DS_Store alignment header"
    );
    assert_eq!(
        parse_entries(&[0, 0, 0, 1, 0x42, 0x75, 0x64, 0x32]).expect_err("magic").text(),
        "invalid DS_Store buddy allocator header"
    );
    let good = encode_entries(Vec::new()).expect("empty file");
    assert_eq!(parse_entries(&good[..1000]).expect_err("cut").text(), "truncated DS_Store body");
    let mut bad = good.clone();
    bad[36 + 1041 + 1] = 9;
    assert_eq!(parse_entries(&bad).expect_err("dir").text(), "invalid DS_Store master block id: 589824");
}

#[test]
fn unknown_value_types_and_bad_text_are_reported() {
    let bytes = encode_entries(vec![entry("f", "ptbL", "ustr", DsStoreValue::String("v".to_string()))])
        .expect("encode");
    // The record starts after the leaf header: name length, "f", then the codes.
    let record = 1124 + 8;
    let mut odd_type = bytes.clone();
    odd_type[record + 6 + 4..record + 6 + 8].copy_from_slice(b"zzzz");
    assert_eq!(parse_entries(&odd_type).expect_err("type").text(), "unsupported DS_Store value type: zzzz");
    let mut odd_code = bytes.clone();
    odd_code[record + 6] = 0xFF;
    let back = parse_entries(&odd_code).expect("lossy code");
    assert_eq!(back[0].structure_type, "\u{FFFD}tbL");
}
