use hasami::mmap_dict::compute_rank;

#[test]
fn test_compute_rank() {
    // 0b1010_1010 = bits at positions 1,3,5,7 are set
    let bits: Vec<u64> = vec![0b1010_1010, 0b1111_0000, 0];
    let ranks: Vec<u32> = vec![12]; // cumulative for first 512-bit block

    assert_eq!(compute_rank(&bits, &ranks, 0), 0); // no bits before pos 0
    assert_eq!(compute_rank(&bits, &ranks, 1), 0); // bit 0 = 0
    assert_eq!(compute_rank(&bits, &ranks, 2), 1); // bit 1 = 1
    assert_eq!(compute_rank(&bits, &ranks, 3), 1); // bit 2 = 0
    assert_eq!(compute_rank(&bits, &ranks, 4), 2); // bits 1,3 set
    assert_eq!(compute_rank(&bits, &ranks, 8), 4); // bits 1,3,5,7 set
}

#[test]
fn rank_adds_the_block_count_and_whole_words() {
    let mut bits: Vec<u64> = vec![u64::MAX; 8];
    bits.push(0b1011);
    bits.push(u64::MAX);
    let ranks: Vec<u32> = vec![512];
    assert_eq!(compute_rank(&bits, &ranks, 64), 64);
    assert_eq!(compute_rank(&bits, &ranks, 512), 512);
    assert_eq!(compute_rank(&bits, &ranks, 514), 514);
    assert_eq!(compute_rank(&bits, &ranks, 515), 514);
    assert_eq!(compute_rank(&bits, &ranks, 577), 516);
    // a position past the last word counts the whole words before it
    assert_eq!(compute_rank(&bits, &ranks, 640), 512 + 3 + 64);
}

