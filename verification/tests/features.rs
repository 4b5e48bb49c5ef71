use hasami::hsd::features::{
    decode, push_varint, read_varint, FeatureInput, FeatureTable, FeatureTableBuilder, BASE_IS_SURFACE,
    MAX_VARINT_LEN, PRON_IS_READING, PRON_KANA, READING_KANA,
};

fn input<'a>(
    surface: &'a str,
    base: &'a str,
    reading: &'a str,
    pron: &'a str,
) -> FeatureInput<'a> {
    FeatureInput {
        pos_id: 3,
        conj_type_id: 1,
        conj_form_id: 2,
        surface,
        base_form: base,
        reading,
        pronunciation: pron,
    }
}

fn roundtrip(i: &FeatureInput<'_>) -> (String, String, String) {
    let table = single(i);
    let mut buf = vec![0xAA];
    buf.extend_from_slice(&table.blob);
    let f = decode(&buf, 1, &table.grammar).unwrap();
    assert_eq!(f.end, buf.len());
    assert_eq!((f.pos_id, f.conj_type_id, f.conj_form_id), (3, 1, 2));
    let reading = f.reading.into_string();
    let pron = f
        .pronunciation
        .map_or_else(|| reading.clone(), |p| p.into_string());
    let base = f
        .base_form
        .map_or_else(|| i.surface.to_owned(), |b| b.into_string());
    (base, reading, pron)
}

fn single(i: &FeatureInput<'_>) -> FeatureTable {
    let mut b = FeatureTableBuilder::default();
    assert_eq!(b.intern(i).unwrap(), 0);
    b.finish().unwrap()
}

#[test]
fn varint_roundtrip_and_limits() {
    for v in [0u32, 1, 127, 128, 300, 16_383, 16_384, u32::MAX] {
        let mut buf = Vec::new();
        push_varint(&mut buf, v);
        assert!(buf.len() <= MAX_VARINT_LEN);
        assert_eq!(read_varint(&buf, 0), Some((v, buf.len())));
    }
    assert_eq!(read_varint(&[0x80], 0), None);
    assert_eq!(read_varint(&[0x80, 0x80, 0x80, 0x80, 0x80, 0x00], 0), None);
    assert_eq!(read_varint(&[0xFF, 0xFF, 0xFF, 0xFF, 0x1F], 0), None);
}

#[test]
fn omits_base_and_pronunciation_when_equal() {
    let table = single(&input("東京", "東京", "トウキョウ", "トウキョウ"));
    assert_eq!(table.blob.len(), 2 + 1 + 5);
    assert_eq!(
        table.blob[1],
        BASE_IS_SURFACE | PRON_IS_READING | READING_KANA
    );
    assert_eq!(
        roundtrip(&input("東京", "東京", "トウキョウ", "トウキョウ")),
        ("東京".into(), "トウキョウ".into(), "トウキョウ".into())
    );
}

#[test]
fn keeps_different_base_and_pronunciation() {
    assert_eq!(
        roundtrip(&input("方法", "方法", "ホウホウ", "ホーホー")),
        ("方法".into(), "ホウホウ".into(), "ホーホー".into())
    );
    assert_eq!(
        roundtrip(&input("示し", "示す", "シメシ", "シメシ")),
        ("示す".into(), "シメシ".into(), "シメシ".into())
    );
}

#[test]
fn non_katakana_strings_are_stored_as_utf8() {
    for (reading, pron) in [
        ("", ""),
        ("", "ア"),
        ("ひらがな", "ヒラガナ"),
        ("Siemens", "シーメンス"),
        ("ア・ラ・カルト", "アーラーカルト"),
        ("ヴァ゠ヿ", "ヴァ"),
    ] {
        let (_, r, p) = roundtrip(&input("x", "y", reading, pron));
        assert_eq!((r.as_str(), p.as_str()), (reading, pron));
    }
}

#[test]
fn builder_deduplicates_records() {
    let mut b = FeatureTableBuilder::default();
    let a = b
        .intern(&input("東京", "東京", "トウキョウ", "トウキョウ"))
        .unwrap();
    let a2 = b
        .intern(&input(
            "とうきょう",
            "とうきょう",
            "トウキョウ",
            "トウキョウ",
        ))
        .unwrap();
    let c = b
        .intern(&input("京都", "京都", "キョウト", "キョウト"))
        .unwrap();
    assert_eq!(a, a2);
    assert_ne!(a, c);
    assert_eq!(b.len(), 2);
}

#[test]
fn rejects_broken_records() {
    let table = single(&input("方法", "方", "ホウホウ", "ホーホー"));
    let good = table.blob;
    let decode =
        |bytes: &[u8], offset| decode(bytes, offset, &table.grammar).map(|_| ());
    assert!(decode(&good, 0).is_ok());
    assert!(decode(&good, good.len()).is_err());
    assert!(decode(&good, usize::MAX).is_err());
    assert!(decode(&good[..good.len() - 1], 0).is_err());
    let mut bad = good.clone();
    bad[1] |= 0x10;
    assert!(decode(&bad, 0).is_err());
    let mut bad = good.clone();
    bad[1] = PRON_IS_READING | PRON_KANA;
    assert!(decode(&bad, 0).is_err());
    let mut bad = good.clone();
    bad[3] = 0x60;
    assert!(decode(&bad, 0).is_err());
    let mut bad = good.clone();
    let last = bad.len() - 1;
    bad[last] = 0xFF;
    assert!(decode(&bad, 0).is_err());
    let mut bad = good.clone();
    bad[0] = 1;
    assert!(decode(&bad, 0).is_err());
    assert!(decode(&[0x80], 0).is_err());
    assert!(decode(&[0xff, 0xff, 0xff, 0xff, 0x10], 0).is_err());
    assert!(decode(&[0], 0).is_err());
}

#[test]
fn grammar_frequency_counts_unique_features_and_breaks_ties_by_ids() {
    let build = || {
        let mut b = FeatureTableBuilder::default();
        for (pos, reading) in [(5, "a"), (5, "b"), (1, "c"), (3, "d")] {
            let mut i = input("x", "x", reading, reading);
            i.pos_id = pos;
            b.intern(&i).unwrap();
            if pos == 3 {
                for _ in 0..10 {
                    b.intern(&i).unwrap();
                }
            }
        }
        b.finish().unwrap()
    };
    let a = build();
    let b = build();
    assert_eq!(
        a.grammar.iter().map(|g| g.pos_id).collect::<Vec<_>>(),
        [5, 1, 3]
    );
    assert_eq!(a.grammar, b.grammar);
    assert_eq!(a.offsets, b.offsets);
    assert_eq!(a.blob, b.blob);
    for (index, expected) in [5, 5, 1, 3].into_iter().enumerate() {
        assert_eq!(
            decode(&a.blob, a.offsets[index] as usize, &a.grammar)
                .unwrap()
                .pos_id,
            expected
        );
    }
}

#[test]
fn grammar_has_no_u16_tuple_limit_and_ids_cross_varint_boundaries() {
    let mut b = FeatureTableBuilder::default();
    for id in 0..=65_536u32 {
        let mut i = input("x", "x", "x", "x");
        i.pos_id = (id >> 16) as u16;
        i.conj_type_id = id as u16;
        i.conj_form_id = 0;
        assert_eq!(b.intern(&i).unwrap(), id);
    }
    let table = b.finish().unwrap();
    assert_eq!(table.grammar.len(), 65_537);
    for id in [0, 127, 128, 16_383, 16_384, 65_535, 65_536] {
        let offset = table.offsets[id] as usize;
        let (stored, end) = read_varint(&table.blob, offset).unwrap();
        assert_eq!(stored as usize, id);
        let expected_len = if id < 128 {
            1
        } else if id < 16_384 {
            2
        } else {
            3
        };
        assert_eq!(end - offset, expected_len);
        let f = decode(&table.blob, offset, &table.grammar).unwrap();
        assert_eq!(
            (f.pos_id, f.conj_type_id, f.conj_form_id),
            ((id >> 16) as u16, id as u16, 0)
        );
    }
}
