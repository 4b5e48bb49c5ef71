use hasami::hsd::container::{
    FLAG_PRUNED_DOMINATED, HEADER_LEN, SECTION_ALIGN, SECTION_ENTRY_LEN, SectionId, parse,
};
use hasami::hsd::DictError;
use hasami::le::read_u64;

fn all_sections() -> Vec<(SectionId, Vec<u8>)> {
    SectionId::all()
        .iter()
        .map(|&id| (id, vec![id.code() as u8; id.code() as usize * 3]))
        .collect()
}

fn write_to_vec(flags: u32, sections: &[(SectionId, Vec<u8>)]) -> Vec<u8> {
    let refs: Vec<(SectionId, &[u8])> = sections.iter().map(|(id, b)| (*id, b.as_slice())).collect();
    hasami::hsd::container::write(flags, &refs)
}

fn section_entry_at(i: usize) -> usize {
    HEADER_LEN + i * SECTION_ENTRY_LEN
}

#[test]
fn roundtrip_places_sections_on_64_byte_boundaries() {
    let sections = all_sections();
    let buf = write_to_vec(FLAG_PRUNED_DOMINATED, &sections);
    let layout = parse(&buf).unwrap();
    assert_eq!(layout.flags, FLAG_PRUNED_DOMINATED);
    for (id, body) in &sections {
        let r = layout.get(*id);
        assert_eq!(r.offset % SECTION_ALIGN, 0);
        assert_eq!(&buf[r.offset..r.end()], body.as_slice());
    }
}

#[test]
fn missing_optional_section_reads_as_empty() {
    let sections: Vec<_> = all_sections()
        .into_iter()
        .filter(|(id, _)| *id != SectionId::TrieTails)
        .collect();
    let buf = write_to_vec(0, &sections);
    let layout = parse(&buf).unwrap();
    assert_eq!(layout.get(SectionId::TrieTails).len, 0);
}

#[test]
fn rejects_missing_required_section() {
    let sections: Vec<_> = all_sections()
        .into_iter()
        .filter(|(id, _)| *id != SectionId::Matrix)
        .collect();
    let buf = write_to_vec(0, &sections);
    let err = parse(&buf).unwrap_err().message();
    assert!(err.contains("MATRIX"), "{err}");
}

#[test]
fn rejects_old_versions_with_rebuild_hint() {
    let mut buf = write_to_vec(0, &all_sections());
    buf[8..12].copy_from_slice(&3u32.to_le_bytes());
    let err = parse(&buf).unwrap_err();
    assert!(matches!(err, DictError::UnsupportedVersion(3)));
    assert!(err.message().contains("build-dict.sh"));
}

#[test]
fn rejects_other_files() {
    assert!(matches!(parse(b"not a dictionary"), Err(DictError::NotHsd)));
    assert!(matches!(parse(b""), Err(DictError::NotHsd)));
    assert!(matches!(parse(b"HSMDICT\0"), Err(DictError::Corrupt(_))));
}

#[test]
fn rejects_truncated_and_appended_files() {
    let buf = write_to_vec(0, &all_sections());
    assert!(matches!(parse(&buf[..buf.len() - 1]), Err(DictError::Corrupt(_))));
    let mut longer = buf.clone();
    longer.push(0);
    assert!(matches!(parse(&longer), Err(DictError::Corrupt(_))));
}

#[test]
fn rejects_unknown_flags_and_nonzero_reserved_bytes() {
    let buf = write_to_vec(0, &all_sections());
    let mut bad = buf.clone();
    bad[12] = 2;
    assert!(matches!(parse(&bad), Err(DictError::Corrupt(_))));
    let mut bad = buf.clone();
    bad[20] = 1;
    assert!(matches!(parse(&bad), Err(DictError::Corrupt(_))));
    let mut bad = buf.clone();
    bad[63] = 1;
    assert!(matches!(parse(&bad), Err(DictError::Corrupt(_))));
}

#[test]
fn rejects_duplicate_misaligned_and_overlapping_sections() {
    let buf = write_to_vec(0, &all_sections());
    let mut dup = buf.clone();
    let first = section_entry_at(0);
    let second = section_entry_at(1);
    let id0 = dup[first..first + 4].to_vec();
    dup[second..second + 4].copy_from_slice(&id0);
    assert!(parse(&dup).unwrap_err().message().contains("twice"));

    let mut misaligned = buf.clone();
    let off = read_u64(&buf, second + 8) + 8;
    misaligned[second + 8..second + 16].copy_from_slice(&off.to_le_bytes());
    assert!(parse(&misaligned).unwrap_err().message().contains("aligned"));

    let mut overlap = buf.clone();
    let off0 = read_u64(&buf, first + 8);
    overlap[second + 8..second + 16].copy_from_slice(&off0.to_le_bytes());
    assert!(parse(&overlap).unwrap_err().message().contains("overlap"));

    let mut past_end = buf.clone();
    past_end[second + 16..second + 24].copy_from_slice(&u64::MAX.to_le_bytes());
    assert!(parse(&past_end).unwrap_err().message().contains("past the end"));
}

#[test]
fn ignores_unknown_section_ids() {
    let mut sections = all_sections();
    let refs: Vec<(SectionId, &[u8])> = sections.iter().map(|(id, b)| (*id, b.as_slice())).collect();
    let mut buf = hasami::hsd::container::write(0, &refs);
    let last = section_entry_at(sections.len() - 1);
    buf[last..last + 4].copy_from_slice(&999u32.to_le_bytes());
    let (removed_id, _) = sections.pop().unwrap();
    match parse(&buf) {
        Ok(layout) => assert_eq!(layout.unknown_sections, 1),
        Err(e) => assert!(e.message().contains(removed_id.name()), "{}", e.message()),
    }
}

#[test]
fn section_ids_roundtrip_through_codes() {
    for id in SectionId::all() {
        assert_eq!(SectionId::from_u32(id.code()), Some(id));
    }
    assert_eq!(SectionId::from_u32(0), None);
    assert_eq!(SectionId::from_u32(18), None);
    assert_eq!(SectionId::Matrix.name(), "MATRIX");
}

#[test]
fn layout_lists_the_sections_present() {
    let sections: Vec<_> = all_sections()
        .into_iter()
        .filter(|(id, _)| *id != SectionId::TrieTails)
        .collect();
    let buf = write_to_vec(0, &sections);
    let layout = parse(&buf).unwrap();
    let listed: Vec<SectionId> = layout.sections().iter().map(|(id, _)| *id).collect();
    let expected: Vec<SectionId> = sections.iter().map(|(id, _)| *id).collect();
    assert_eq!(listed, expected);
}
