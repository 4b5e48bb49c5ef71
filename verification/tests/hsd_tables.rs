use hasami::hsd::meta::{KEY_NAME, KEY_POS_SCHEME, KEY_SOURCES, MAX_META_LEN, Meta, PosScheme};
use hasami::hsd::records::{EntryRecord, LAST_IN_GROUP};
use hasami::hsd::strtab::{StringTableBuilder, parse};
use hasami::hsd::DictError;

#[test]
fn roundtrip_keeps_first_appearance_order() {
    let mut b = StringTableBuilder::default();
    assert_eq!(b.intern("名詞,一般,*,*"), 0);
    assert_eq!(b.intern("助詞,格助詞,一般,*"), 1);
    assert_eq!(b.intern("名詞,一般,*,*"), 0);
    assert_eq!(b.intern(""), 2);
    let strings = parse(&b.to_bytes(), "POS_STRINGS", 10).unwrap();
    let strings: Vec<&str> = strings.iter().map(|s| &**s).collect();
    assert_eq!(strings, ["名詞,一般,*,*", "助詞,格助詞,一般,*", ""]);
}

#[test]
fn empty_table_roundtrips() {
    let b = StringTableBuilder::default();
    assert!(parse(&b.to_bytes(), "t", 0).unwrap().is_empty());
}

#[test]
fn rejects_broken_tables() {
    let mut b = StringTableBuilder::default();
    b.intern("あ");
    b.intern("いう");
    let good = b.to_bytes();
    assert!(parse(&good, "t", 2).is_ok());
    assert!(parse(&good, "t", 1).is_err());
    assert!(parse(&good[..3], "t", 2).is_err());
    assert!(parse(&good[..10], "t", 2).is_err());
    assert!(parse(&good[..good.len() - 1], "t", 2).is_err());
    let mut bad = good.clone();
    bad[8..12].copy_from_slice(&7u32.to_le_bytes());
    assert!(parse(&bad, "t", 2).is_err());
    let mut bad = good.clone();
    bad[4..8].copy_from_slice(&1u32.to_le_bytes());
    assert!(parse(&bad, "t", 2).is_err());
    let mut bad = good.clone();
    bad[8..12].copy_from_slice(&2u32.to_le_bytes());
    assert!(parse(&bad, "t", 2).is_err());
    let mut bad = good.clone();
    bad[..4].copy_from_slice(&u32::MAX.to_le_bytes());
    assert!(parse(&bad, "t", usize::MAX).is_err());
}

#[test]
fn string_table_errors_are_corrupt_and_name_the_table() {
    let err = parse(&[1, 0], "POS_STRINGS", 2).unwrap_err();
    assert!(matches!(err, DictError::Corrupt(_)));
    assert!(err.message().contains("POS_STRINGS"));
}

#[test]
fn roundtrip_keeps_order_and_unknown_keys() {
    let mut meta = Meta::new("ipadic", PosScheme::Ipadic);
    meta.set(KEY_SOURCES, "ipadic@61b90ba").unwrap();
    meta.set("custom_key", "値 = そのまま").unwrap();
    let parsed = Meta::parse(&meta.to_bytes().unwrap()).unwrap();
    assert_eq!(parsed, meta);
    assert_eq!(parsed.get("custom_key"), Some("値 = そのまま"));
    assert_eq!(parsed.name(), "ipadic");
    assert_eq!(parsed.pos_scheme(), PosScheme::Ipadic);
}

#[test]
fn set_replaces_and_validates() {
    let mut meta = Meta::new("x", PosScheme::Unidic);
    meta.set(KEY_NAME, "y").unwrap();
    assert_eq!(meta.name(), "y");
    assert!(meta.set("Bad-Key", "v").is_err());
    assert!(meta.set("k", "a\nb").is_err());
    assert!(meta.set(KEY_POS_SCHEME, "sudachi").is_err());
    meta.remove(KEY_NAME);
    assert_eq!(meta.name(), "y");
}

#[test]
fn rejects_broken_metadata() {
    for bad in [
        &b"pos_scheme=ipadic\n"[..],
        b"name=x\n",
        b"name=x\npos_scheme=mecab\n",
        b"name=x\npos_scheme=ipadic\nname=y\n",
        b"name=x\npos_scheme=ipadic\nnoequals\n",
        b"name=x\npos_scheme=ipadic\nKey=v\n",
        b"name=x\r\npos_scheme=ipadic\n",
        b"name=\xFF\npos_scheme=ipadic\n",
        b"",
    ] {
        assert!(Meta::parse(bad).is_err(), "{:?}", String::from_utf8_lossy(bad));
    }
    let long = format!("name={}\npos_scheme=ipadic\n", "x".repeat(MAX_META_LEN));
    assert!(Meta::parse(long.as_bytes()).is_err());
}

#[test]
fn meta_remove_drops_optional_keys_and_iter_keeps_order() {
    let mut meta = Meta::new("x", PosScheme::Unidic);
    meta.set("a", "1").unwrap();
    meta.set("b", "2").unwrap();
    meta.remove("a");
    let pairs = meta.iter();
    assert_eq!(pairs, [("name", "x"), ("pos_scheme", "unidic"), ("b", "2")]);
    assert_eq!(meta.to_bytes().unwrap(), b"name=x\npos_scheme=unidic\nb=2\n".to_vec());
    assert_eq!(PosScheme::parse("unidic"), Some(PosScheme::Unidic));
    assert_eq!(PosScheme::Unidic.as_str(), "unidic");
}

#[test]
fn entry_record_splits_left_id_and_last_flag() {
    let e = EntryRecord {
        left_and_last: 1234 | LAST_IN_GROUP,
        right_id: 5,
        cost: -3,
    };
    assert_eq!(e.left_id(), 1234);
    assert!(e.is_last());
}
