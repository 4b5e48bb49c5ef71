use hasami::lattice::{best_path, Candidate};

fn cand(start: usize, end: usize, left_id: u16, right_id: u16, cost: i16) -> Candidate {
    Candidate { start, end, left_id, right_id, cost }
}

fn conn(matrix: &[i16], nr: usize, left: u16, right: u16) -> i64 {
    matrix[left as usize * nr + right as usize] as i64
}

fn cost_of(cands: &[Candidate], matrix: &[i16], nr: usize, path: &[usize]) -> i64 {
    let mut right = 0u16;
    let mut total = 0i64;
    for &k in path {
        let c = cands[k];
        total += conn(matrix, nr, c.left_id, right) + c.cost as i64;
        right = c.right_id;
    }
    total + conn(matrix, nr, 0, right)
}

/// The least cost over every path, by enumeration.
fn brute(cands: &[Candidate], matrix: &[i16], nr: usize, n: usize) -> Option<i64> {
    fn go(cands: &[Candidate], matrix: &[i16], nr: usize, n: usize, at: usize, path: &mut Vec<usize>, best: &mut Option<i64>) {
        if at == n && !path.is_empty() {
            let c = cost_of(cands, matrix, nr, path);
            if best.map_or(true, |b| c < b) {
                *best = Some(c);
            }
            return;
        }
        for (k, c) in cands.iter().enumerate() {
            if c.start == at {
                path.push(k);
                go(cands, matrix, nr, n, c.end, path, best);
                path.pop();
            }
        }
    }
    let mut best = None;
    go(cands, matrix, nr, n, 0, &mut Vec::new(), &mut best);
    best
}

#[test]
fn cheaper_split_wins() {
    let matrix = vec![0i16; 9];
    let cands = vec![cand(0, 1, 1, 1, 10), cand(0, 2, 2, 2, 30), cand(1, 2, 1, 1, 10)];
    assert_eq!(best_path(2, &cands, &matrix, 3), Some(vec![0, 2]));
    let cands = vec![cand(0, 1, 1, 1, 10), cand(0, 2, 2, 2, 15), cand(1, 2, 1, 1, 10)];
    assert_eq!(best_path(2, &cands, &matrix, 3), Some(vec![1]));
}

#[test]
fn connection_costs_count() {
    let mut matrix = vec![0i16; 9];
    matrix[1 * 3 + 1] = 100;
    let cands = vec![cand(0, 1, 1, 1, 10), cand(0, 2, 2, 2, 30), cand(1, 2, 1, 1, 10)];
    assert_eq!(best_path(2, &cands, &matrix, 3), Some(vec![1]));
}

#[test]
fn ties_go_to_the_first_candidate() {
    let matrix = vec![0i16; 9];
    let cands = vec![cand(0, 1, 1, 1, 10), cand(0, 2, 2, 2, 20), cand(1, 2, 1, 1, 10)];
    assert_eq!(best_path(2, &cands, &matrix, 3), Some(vec![1]));
}

#[test]
fn no_path_gives_none() {
    let matrix = vec![0i16; 4];
    let cands = vec![cand(1, 2, 1, 1, 10)];
    assert_eq!(best_path(2, &cands, &matrix, 2), None);
}

#[test]
fn best_path_matches_enumeration() {
    let mut seed: u64 = 0x1234_5678_9ABC_DEF1;
    let mut next = |n: u64| {
        seed ^= seed << 13;
        seed ^= seed >> 7;
        seed ^= seed << 17;
        seed % n
    };
    for _ in 0..200 {
        let n = 1 + next(6) as usize;
        let nr = 1 + next(3) as usize;
        let nl = 1 + next(3) as usize;
        let matrix: Vec<i16> = (0..nl * nr).map(|_| next(200) as i16 - 100).collect();
        let mut cands = Vec::new();
        for start in 0..n {
            for _ in 0..next(3) {
                let end = start + 1 + next((n - start) as u64) as usize;
                cands.push(cand(start, end, next(nl as u64) as u16, next(nr as u64) as u16, next(300) as i16 - 100));
            }
        }
        let got = best_path(n, &cands, &matrix, nr);
        match brute(&cands, &matrix, nr, n) {
            None => assert_eq!(got, None),
            Some(b) => {
                let p = got.unwrap();
                assert_eq!(cost_of(&cands, &matrix, nr, &p), b);
                assert_eq!(cands[p[0]].start, 0);
                assert_eq!(cands[*p.last().unwrap()].end, n);
            }
        }
    }
}

use hasami::hsd::records::EntryRecord;
use hasami::hsd::trie::build;
use hasami::lattice::known_candidates;

fn entry(left: u16, right: u16, cost: i16, last: bool) -> EntryRecord {
    EntryRecord { left_and_last: left | if last { 0x8000 } else { 0 }, right_id: right, cost }
}

#[test]
fn known_words_give_their_groups() {
    let parts = build(&["東", "東京"], &[0, 1]).unwrap();
    let trie = parts.as_trie().unwrap();
    let text = "東京都";
    let codes: Vec<u16> = text.chars().map(|c| trie.char_code(c) as u16).collect();
    let offsets: Vec<u32> = vec![0, 3, 6, 9];
    let entries = vec![entry(1, 2, 10, true), entry(3, 1, 20, false), entry(2, 2, 30, true)];
    let got = known_candidates(&trie, text, &codes, &offsets, 0, &entries, 4, 4).unwrap();
    assert_eq!(
        got,
        vec![
            Candidate { start: 0, end: 1, left_id: 1, right_id: 2, cost: 10 },
            Candidate { start: 0, end: 2, left_id: 3, right_id: 1, cost: 20 },
            Candidate { start: 0, end: 2, left_id: 2, right_id: 2, cost: 30 },
        ]
    );
    assert!(known_candidates(&trie, text, &codes, &offsets, 1, &entries, 4, 4).unwrap().is_empty());
    // a context id outside the matrix, and a group that runs past the last entry
    assert!(known_candidates(&trie, text, &codes, &offsets, 0, &entries, 3, 4).is_err());
    let short = vec![entry(1, 2, 10, true), entry(3, 1, 20, false)];
    assert!(known_candidates(&trie, text, &codes, &offsets, 0, &short, 4, 4).is_err());
}

use hasami::lattice::{lattice_candidates, UnkAt};

fn unk(invoke: bool, lens: Vec<u32>) -> UnkAt {
    UnkAt { invoke, left_id: 0, right_id: 0, cost: 100, lens }
}

#[test]
fn lattice_from_reached_positions() {
    let parts = build(&["東", "東京"], &[0, 1]).unwrap();
    let trie = parts.as_trie().unwrap();
    let text = "東京都";
    let codes: Vec<u16> = text.chars().map(|c| trie.char_code(c) as u16).collect();
    let offsets: Vec<u32> = vec![0, 3, 6, 9];
    let entries = vec![entry(1, 2, 10, true), entry(3, 1, 20, false), entry(2, 2, 30, true)];
    let unks = vec![unk(false, vec![1]), unk(false, vec![1]), unk(false, vec![1])];
    let cands = lattice_candidates(&trie, text, &codes, &offsets, &entries, 4, 4, &unks).unwrap();
    assert_eq!(
        cands,
        vec![
            Candidate { start: 0, end: 1, left_id: 1, right_id: 2, cost: 10 },
            Candidate { start: 0, end: 2, left_id: 3, right_id: 1, cost: 20 },
            Candidate { start: 0, end: 2, left_id: 2, right_id: 2, cost: 30 },
            Candidate { start: 1, end: 2, left_id: 0, right_id: 0, cost: 100 },
            Candidate { start: 2, end: 3, left_id: 0, right_id: 0, cost: 100 },
        ]
    );
    let matrix = vec![0i16; 16];
    assert_eq!(best_path(3, &cands, &matrix, 4), Some(vec![1, 4]));
    // an insisting template adds unknown words beside known ones, and a single character
    // where no length is 1
    let unks = vec![unk(true, vec![2]), unk(false, vec![1]), unk(false, vec![1])];
    let cands = lattice_candidates(&trie, text, &codes, &offsets, &entries, 4, 4, &unks).unwrap();
    assert_eq!(cands.len(), 7);
    assert_eq!(cands[3], Candidate { start: 0, end: 2, left_id: 0, right_id: 0, cost: 100 });
    assert_eq!(cands[4], Candidate { start: 0, end: 1, left_id: 0, right_id: 0, cost: 100 });
    // a broken group at a reached position fails
    let short = vec![entry(1, 2, 10, true), entry(3, 1, 20, false)];
    assert!(lattice_candidates(&trie, text, &codes, &offsets, &short, 4, 4, &unks).is_err());
}
