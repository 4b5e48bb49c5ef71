use hasami::hsd::container::{SectionId, FLAG_PRUNED_DOMINATED};
use hasami::hsd::image::validate_image;
use hasami::hsd::meta::{Meta, PosScheme};
use hasami::hsd::strtab::StringTableBuilder;
use hasami::hsd::trie::build;
use hasami::hsd::DictError;

const CHAR_TYPES: usize = 3;

fn table(words: &[&str]) -> Vec<u8> {
    let mut b = StringTableBuilder::default();
    for w in words {
        b.intern(w);
    }
    b.to_bytes()
}

fn u16s(xs: &[u16]) -> Vec<u8> {
    xs.iter().flat_map(|x| x.to_le_bytes()).collect()
}

fn u32s(xs: &[u32]) -> Vec<u8> {
    xs.iter().flat_map(|x| x.to_le_bytes()).collect()
}

/// The sections of a small dictionary: two entries, a 2 x 3 matrix, one character category
/// and range, and one unknown-word template per character type.
fn sections(meta: &Meta) -> Vec<(SectionId, Vec<u8>)> {
    let parts = build(&["東", "東京"], &[0, 1]).unwrap();
    let nodes: Vec<u8> = parts
        .nodes
        .iter()
        .flat_map(|n| [n.base.to_le_bytes(), n.check.to_le_bytes()].concat())
        .collect();
    let mut matrix = u32s(&[2, 3]);
    matrix.extend(vec![0u8; 2 * 2 * 3]);
    let categories = u32s(&[0, 1, 0, 0]);
    let ranges = u32s(&[0x3000, 0x30FF, 0, 0]);
    let mut buckets = Vec::new();
    for _ in 0..CHAR_TYPES {
        buckets.extend(0u32.to_le_bytes());
        buckets.extend(1u16.to_le_bytes());
        buckets.extend([1u8, 0u8]);
    }
    let mut template = u32s(&[0]);
    template.extend(u16s(&[1, 2, 100, 0]));
    vec![
        (SectionId::Meta, meta.to_bytes().unwrap()),
        (SectionId::CharBlocks, u16s(&parts.blocks)),
        (SectionId::CharTables, u16s(&parts.tables)),
        (SectionId::TrieNodes, nodes),
        (SectionId::TrieTails, parts.tails.clone()),
        (SectionId::Entries, vec![0u8; 12]),
        (SectionId::FeatureOffsets, vec![0u8; 8]),
        (SectionId::Features, vec![0u8; 4]),
        (SectionId::PosStrings, table(&["名詞"])),
        (SectionId::ConjTypeStrings, table(&["*"])),
        (SectionId::ConjFormStrings, table(&["*"])),
        (SectionId::Matrix, matrix),
        (SectionId::CharCategories, categories),
        (SectionId::CharRanges, ranges),
        (SectionId::UnkBuckets, buckets),
        (SectionId::UnkTemplates, template),
        (SectionId::CategoryNames, table(&["KANJI"])),
    ]
}

fn file(flags: u32, secs: &[(SectionId, Vec<u8>)]) -> Vec<u8> {
    let refs: Vec<(SectionId, &[u8])> = secs.iter().map(|(id, b)| (*id, b.as_slice())).collect();
    hasami::hsd::container::write(flags, &refs)
}

fn with(secs: &[(SectionId, Vec<u8>)], id: SectionId, body: Vec<u8>) -> Vec<(SectionId, Vec<u8>)> {
    secs.iter()
        .map(|(i, b)| if *i == id { (*i, body.clone()) } else { (*i, b.clone()) })
        .collect()
}

fn corrupt(data: &[u8]) -> String {
    match validate_image(data, CHAR_TYPES) {
        Err(DictError::Corrupt(m)) => m,
        Err(e) => panic!("not Corrupt: {e:?}"),
        Ok(_) => panic!("accepted"),
    }
}

#[test]
fn a_sound_image_is_read() {
    let meta = Meta::new("t", PosScheme::Ipadic);
    let secs = sections(&meta);
    let img = validate_image(&file(0, &secs), CHAR_TYPES).unwrap();
    assert_eq!(img.entry_count, 2);
    assert_eq!((img.num_left, img.num_right), (2, 3));
    assert_eq!(img.pos, vec!["名詞".to_string()]);
    assert_eq!(img.meta.name(), "t");
    assert!(img.nodes.len() > 1);
}

#[test]
fn the_pruned_flag_must_agree_with_meta() {
    let mut meta = Meta::new("t", PosScheme::Ipadic);
    meta.set("pruned_dominated", "true").unwrap();
    let secs = sections(&meta);
    assert!(validate_image(&file(FLAG_PRUNED_DOMINATED, &secs), CHAR_TYPES).is_ok());
    assert!(corrupt(&file(0, &secs)).contains("pruned_dominated"));
}

#[test]
fn broken_sections_are_refused() {
    let meta = Meta::new("t", PosScheme::Ipadic);
    let secs = sections(&meta);
    assert!(corrupt(&file(0, &with(&secs, SectionId::Entries, vec![0u8; 7]))).contains("6-byte"));
    assert!(corrupt(&file(0, &with(&secs, SectionId::Entries, vec![]))).contains("no entries"));
    assert!(corrupt(&file(0, &with(&secs, SectionId::FeatureOffsets, vec![0u8; 4]))).contains("different"));
    let mut matrix = u32s(&[2, 3]);
    matrix.extend(vec![0u8; 10]);
    assert!(corrupt(&file(0, &with(&secs, SectionId::Matrix, matrix))).contains("MATRIX"));
    assert!(corrupt(&file(0, &with(&secs, SectionId::CharRanges, u32s(&[5, 4, 0, 0])))).contains("range"));
    assert!(corrupt(&file(0, &with(&secs, SectionId::CharCategories, u32s(&[1, 0, 0, 0])))).contains("category"));
    assert!(corrupt(&file(0, &with(&secs, SectionId::CharBlocks, vec![0u8; 3]))).contains("CHAR_BLOCKS"));
    assert!(corrupt(&file(0, &with(&secs, SectionId::TrieNodes, vec![0u8; 8]))).contains("trie"));
    // the buckets must match the character types
    assert!(validate_image(&file(0, &secs), CHAR_TYPES + 1).is_err());
    assert!(matches!(validate_image(b"not a dictionary at all", CHAR_TYPES), Err(DictError::NotHsd)));
}
