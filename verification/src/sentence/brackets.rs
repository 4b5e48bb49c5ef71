//! Bracket matching (rules 2 and 3): one pass with a stack of open brackets. A closing bracket
//! pairs with the nearest open bracket of its kind and drops the open brackets above it; a closing
//! bracket with no open bracket of its kind on the stack is an ordinary character.

use vstd::prelude::*;
use super::marks::{BRACKET_KINDS, CharKind, classify, spec_classify};

verus! {

/// The open brackets waiting for their pair (kind, position), and the pairs found so far
/// (open position, close position).
pub struct BracketState {
    pub stack: Seq<(u8, int)>,
    pub pairs: Seq<(int, int)>,
}

/// Index of the topmost entry of kind `b` in the stack (-1 if there is none).
pub open spec fn last_of_kind(stack: Seq<(u8, int)>, b: u8) -> int
    decreases stack.len(),
{
    if stack.len() == 0 {
        -1
    } else if stack.last().0 == b {
        stack.len() - 1
    } else {
        last_of_kind(stack.drop_last(), b)
    }
}

/// Number of entries of kind `b` in the stack.
pub open spec fn count_kind(stack: Seq<(u8, int)>, b: u8) -> nat
    decreases stack.len(),
{
    if stack.len() == 0 {
        0
    } else {
        count_kind(stack.drop_last(), b) + if stack.last().0 == b {
            1nat
        } else {
            0nat
        }
    }
}

/// One character `c` at position `k` read into the state.
pub open spec fn bracket_step(st: BracketState, c: char, k: int) -> BracketState {
    match spec_classify(c) {
        CharKind::Open(b) => BracketState { stack: st.stack.push((b, k)), pairs: st.pairs },
        CharKind::Close(b) => {
            let j = last_of_kind(st.stack, b);
            if j < 0 {
                st
            } else {
                BracketState { stack: st.stack.take(j), pairs: st.pairs.push((st.stack[j].1, k)) }
            }
        },
        _ => st,
    }
}

/// The state after the first `k` characters of `t`.
pub open spec fn bracket_state(t: Seq<char>, k: int) -> BracketState
    decreases k,
{
    if k <= 0 {
        BracketState { stack: Seq::empty(), pairs: Seq::empty() }
    } else {
        bracket_step(bracket_state(t, k - 1), t[k - 1], k - 1)
    }
}

/// The closing bracket at `k` pairs with an open bracket.
pub open spec fn is_matched_close(t: Seq<char>, k: int) -> bool {
    &&& 0 <= k < t.len()
    &&& spec_classify(t[k]) matches CharKind::Close(b) && last_of_kind(
        bracket_state(t, k).stack,
        b,
    ) >= 0
}

/// All bracket pairs of `t`.
pub open spec fn bracket_pairs(t: Seq<char>) -> Seq<(int, int)> {
    bracket_state(t, t.len() as int).pairs
}

/// Character `p` lies within a pair of brackets (the brackets included).
pub open spec fn is_protected(t: Seq<char>, p: int) -> bool {
    exists|i: int|
        0 <= i < bracket_pairs(t).len() && (#[trigger] bracket_pairs(t)[i]).0 <= p
            <= bracket_pairs(t)[i].1
}

/// The gap before character `p` lies within a pair of brackets (after the open bracket, up to
/// the closing one).
pub open spec fn is_protected_gap(t: Seq<char>, p: int) -> bool {
    exists|i: int|
        0 <= i < bracket_pairs(t).len() && (#[trigger] bracket_pairs(t)[i]).0 < p
            <= bracket_pairs(t)[i].1
}

pub open spec fn stack_view(s: Seq<(u8, usize)>) -> Seq<(u8, int)> {
    s.map_values(|e: (u8, usize)| (e.0, e.1 as int))
}

proof fn lemma_count_kind(stack: Seq<(u8, int)>, b: u8)
    ensures
        count_kind(stack, b) <= stack.len(),
        (count_kind(stack, b) > 0) == (last_of_kind(stack, b) >= 0),
        last_of_kind(stack, b) < stack.len(),
        last_of_kind(stack, b) >= 0 ==> stack[last_of_kind(stack, b)].0 == b,
    decreases stack.len(),
{
    if stack.len() > 0 {
        lemma_count_kind(stack.drop_last(), b);
    }
}

/// Within one pair of `ranges`, including the ends.
pub open spec fn in_ranges(ranges: Seq<(usize, usize)>, p: int) -> bool {
    exists|i: int| 0 <= i < ranges.len() && (#[trigger] ranges[i]).0 <= p <= ranges[i].1
}

/// Within one pair of `ranges`, after its start.
pub open spec fn in_ranges_gap(ranges: Seq<(usize, usize)>, p: int) -> bool {
    exists|i: int| 0 <= i < ranges.len() && (#[trigger] ranges[i]).0 < p <= ranges[i].1
}

pub open spec fn in_pairs(pairs: Seq<(int, int)>, p: int) -> bool {
    exists|i: int| 0 <= i < pairs.len() && (#[trigger] pairs[i]).0 <= p <= pairs[i].1
}

pub open spec fn in_pairs_gap(pairs: Seq<(int, int)>, p: int) -> bool {
    exists|i: int| 0 <= i < pairs.len() && (#[trigger] pairs[i]).0 < p <= pairs[i].1
}

/// Matches the brackets of `t`. Returns, per character, whether it is a matched closing bracket
/// and whether it lies within a pair; and per gap (`0..=t.len()`), whether it lies within a pair.
/// Linear time: only the outermost pairs are kept, and a closing bracket whose kind has no open
/// bracket on the stack is skipped without searching.
pub fn match_brackets(t: &[char]) -> (r: (Vec<bool>, Vec<bool>, Vec<bool>))
    ensures
        r.0@.len() == t@.len(),
        r.1@.len() == t@.len(),
        r.2@.len() == t@.len() + 1,
        forall|k: int| 0 <= k < t@.len() ==> r.0@[k] == is_matched_close(t@, k),
        forall|p: int| 0 <= p < t@.len() ==> r.1@[p] == is_protected(t@, p),
        forall|p: int| 0 <= p <= t@.len() ==> r.2@[p] == is_protected_gap(t@, p),
{
    let n = t.len();
    let mut stack: Vec<(u8, usize)> = Vec::new();
    let mut counts: Vec<usize> = Vec::new();
    while counts.len() < BRACKET_KINDS
        invariant
            counts@.len() <= BRACKET_KINDS,
            forall|b: int| 0 <= b < counts@.len() ==> counts@[b] == 0,
        decreases BRACKET_KINDS - counts.len(),
    {
        counts.push(0);
    }
    let mut ranges: Vec<(usize, usize)> = Vec::new();
    let mut matched: Vec<bool> = Vec::new();
    let mut k: usize = 0;
    while k < n
        invariant
            n == t@.len(),
            k <= n,
            counts@.len() == BRACKET_KINDS,
            stack_view(stack@) == bracket_state(t@, k as int).stack,
            forall|b: int|
                0 <= b < BRACKET_KINDS ==> counts@[b] == count_kind(stack_view(stack@), b as u8),
            forall|i: int| 0 <= i < stack@.len() ==> (#[trigger] stack@[i]).1 < k,
            forall|i: int, j: int| 0 <= i < j < stack@.len() ==> stack@[i].1 < stack@[j].1,
            stack@.len() <= k,
            forall|i: int| 0 <= i < ranges@.len() ==> (#[trigger] ranges@[i]).0 <= ranges@[i].1 < k,
            forall|i: int, j: int| 0 <= i < j < ranges@.len() ==> ranges@[i].1 < ranges@[j].0,
            forall|i: int, j: int|
                #![trigger stack@[i], ranges@[j]]
                0 <= i < stack@.len() && 0 <= j < ranges@.len() ==> !(ranges@[j].0 <= stack@[i].1
                    <= ranges@[j].1),
            forall|p: int|
                in_ranges(ranges@, p) == in_pairs(bracket_state(t@, k as int).pairs, p),
            forall|p: int|
                in_ranges_gap(ranges@, p) == in_pairs_gap(bracket_state(t@, k as int).pairs, p),
            forall|i: int|
                0 <= i < bracket_state(t@, k as int).pairs.len() ==> (#[trigger] bracket_state(
                    t@,
                    k as int,
                ).pairs[i]).1 < k,
            matched@.len() == k,
            forall|j: int| 0 <= j < k ==> matched@[j] == is_matched_close(t@, j),
        decreases n - k,
    {
        let ghost st = bracket_state(t@, k as int);
        let ghost sv = stack_view(stack@);
        proof {
            assert(bracket_state(t@, k + 1) == bracket_step(st, t@[k as int], k as int));
        }
        match classify(t[k]) {
            CharKind::Open(b) => {
                stack.push((b, k));
                proof {
                    lemma_count_kind(sv, b);
                }
                let c = counts[b as usize];
                counts.set(b as usize, c + 1);
                matched.push(false);
                proof {
                    assert(stack_view(stack@) =~= sv.push((b, k as int)));
                    assert forall|x: int| 0 <= x < BRACKET_KINDS implies counts@[x] == count_kind(
                        stack_view(stack@),
                        x as u8,
                    ) by {
                        assert(stack_view(stack@).drop_last() =~= sv);
                    }
                    assert forall|p: int| in_ranges(ranges@, p) == in_pairs(
                        bracket_state(t@, k + 1).pairs,
                        p,
                    ) by {}
                    assert forall|p: int| in_ranges_gap(ranges@, p) == in_pairs_gap(
                        bracket_state(t@, k + 1).pairs,
                        p,
                    ) by {}
                }
            },
            CharKind::Close(b) => {
                proof {
                    lemma_count_kind(sv, b);
                }
                if counts[b as usize] == 0 {
                    matched.push(false);
                    proof {
                        assert(is_matched_close(t@, k as int) == false);
                    }
                } else {
                    let ghost j = last_of_kind(sv, b);
                    let ghost stack0 = stack@;
                    let ghost r0 = ranges@;
                    let mut o: usize = 0;
                    loop
                        invariant_except_break
                            0 <= j < stack@.len(),
                            last_of_kind(stack_view(stack@), b) == j,
                        invariant
                            counts@.len() == BRACKET_KINDS,
                            stack@.len() <= sv.len(),
                            stack_view(stack@) == sv.take(stack@.len() as int),
                            forall|x: int|
                                0 <= x < BRACKET_KINDS ==> counts@[x] == count_kind(
                                    stack_view(stack@),
                                    x as u8,
                                ),
                            sv == bracket_state(t@, k as int).stack,
                            k < t@.len(),
                            sv[j].0 == b,
                        ensures
                            stack_view(stack@) == sv.take(j),
                            o == sv[j].1,
                            forall|x: int|
                                0 <= x < BRACKET_KINDS ==> counts@[x] == count_kind(
                                    stack_view(stack@),
                                    x as u8,
                                ),
                            counts@.len() == BRACKET_KINDS,
                        decreases stack@.len(),
                    {
                        let ghost before = stack_view(stack@);
                        let top = stack.pop();
                        let (ob, pos) = match top {
                            Some(e) => e,
                            None => (0u8, 0usize),
                        };
                        proof {
                            assert(stack_view(stack@) =~= before.drop_last());
                            assert(before.last() == (ob, pos as int));
                            assert(before.last() == sv[before.len() - 1]);
                            lemma_kind_bound(t@, k as int);
                            assert(ob < BRACKET_KINDS);
                            lemma_count_kind(before, ob);
                        }
                        let c = counts[ob as usize];
                        counts.set(ob as usize, c - 1);
                        proof {
                            assert(stack_view(stack@) =~= sv.take(stack@.len() as int));
                        }
                        if ob == b {
                            o = pos;
                            proof {
                                assert(stack@.len() == j);
                            }
                            break;
                        }
                    }
                    proof {
                        assert forall|i: int| 0 <= i < stack@.len() implies stack@[i] == stack0[i] by {
                            assert(stack_view(stack@)[i] == sv[i]);
                            assert(sv[i] == stack_view(stack0)[i]);
                        }
                        assert(o == stack0[j].1) by {
                            assert(sv[j] == stack_view(stack0)[j]);
                        }
                    }
                    while ranges.len() > 0 && ranges[ranges.len() - 1].0 >= o
                        invariant
                            ranges@.len() <= r0.len(),
                            ranges@ == r0.take(ranges@.len() as int),
                            forall|i: int| ranges@.len() <= i < r0.len() ==> (#[trigger] r0[i]).0 >= o,
                        decreases ranges@.len(),
                    {
                        ranges.pop();
                        proof {
                            assert(ranges@ =~= r0.take(ranges@.len() as int));
                        }
                    }
                    let ghost kept = ranges@;
                    proof {
                        assert(!in_ranges(kept, o as int)) by {
                            if in_ranges(kept, o as int) {
                                let i = choose|i: int|
                                    0 <= i < kept.len() && (#[trigger] kept[i]).0 <= o <= kept[i].1;
                                assert(kept[i] == r0[i]);
                                assert(!(r0[i].0 <= stack0[j].1 <= r0[i].1));
                            }
                        }
                    }
                    ranges.push((o, k));
                    matched.push(true);
                    proof {
                        let np = bracket_state(t@, k + 1).pairs;
                        assert(np == st.pairs.push((o as int, k as int)));
                        assert forall|p: int| in_ranges(ranges@, p) == in_pairs(np, p) by {
                            if in_ranges(ranges@, p) {
                                let i = choose|i: int|
                                    0 <= i < ranges@.len() && (#[trigger] ranges@[i]).0 <= p
                                        <= ranges@[i].1;
                                if i < kept.len() {
                                    assert(ranges@[i] == r0[i]);
                                    assert(in_ranges(r0, p));
                                    assert(in_pairs(st.pairs, p));
                                    let q = choose|q: int|
                                        0 <= q < st.pairs.len() && (#[trigger] st.pairs[q]).0 <= p
                                            <= st.pairs[q].1;
                                    assert(np[q] == st.pairs[q]);
                                } else {
                                    assert(np[np.len() - 1] == (o as int, k as int));
                                }
                            }
                            if in_pairs(np, p) {
                                let q = choose|q: int|
                                    0 <= q < np.len() && (#[trigger] np[q]).0 <= p <= np[q].1;
                                if o <= p <= k {
                                    assert(ranges@[ranges@.len() - 1] == (o, k));
                                } else {
                                    assert(np[q] == st.pairs[q]);
                                    assert(in_pairs(st.pairs, p));
                                    assert(in_ranges(r0, p));
                                    let i = choose|i: int|
                                        0 <= i < r0.len() && (#[trigger] r0[i]).0 <= p <= r0[i].1;
                                    assert(i < kept.len());
                                    assert(ranges@[i] == r0[i]);
                                }
                            }
                        }
                        assert forall|p: int| in_ranges_gap(ranges@, p) == in_pairs_gap(np, p) by {
                            if in_ranges_gap(ranges@, p) {
                                let i = choose|i: int|
                                    0 <= i < ranges@.len() && (#[trigger] ranges@[i]).0 < p
                                        <= ranges@[i].1;
                                if i < kept.len() {
                                    assert(ranges@[i] == r0[i]);
                                    assert(in_ranges_gap(r0, p));
                                    assert(in_pairs_gap(st.pairs, p));
                                    let q = choose|q: int|
                                        0 <= q < st.pairs.len() && (#[trigger] st.pairs[q]).0 < p
                                            <= st.pairs[q].1;
                                    assert(np[q] == st.pairs[q]);
                                } else {
                                    assert(np[np.len() - 1] == (o as int, k as int));
                                }
                            }
                            if in_pairs_gap(np, p) {
                                let q = choose|q: int|
                                    0 <= q < np.len() && (#[trigger] np[q]).0 < p <= np[q].1;
                                if o < p <= k {
                                    assert(ranges@[ranges@.len() - 1] == (o, k));
                                } else {
                                    assert(np[q] == st.pairs[q]);
                                    assert(in_pairs_gap(st.pairs, p));
                                    assert(in_ranges_gap(r0, p));
                                    let i = choose|i: int|
                                        0 <= i < r0.len() && (#[trigger] r0[i]).0 < p <= r0[i].1;
                                    assert(i < kept.len());
                                    assert(ranges@[i] == r0[i]);
                                }
                            }
                        }
                        assert forall|i: int, j2: int|
                            #![trigger stack@[i], ranges@[j2]]
                            0 <= i < stack@.len() && 0 <= j2 < ranges@.len() implies !(
                            ranges@[j2].0 <= stack@[i].1 <= ranges@[j2].1) by {
                            assert(stack@[i] == stack0[i]);
                            assert(stack0[i].1 < stack0[j].1);
                            if j2 < kept.len() {
                                assert(ranges@[j2] == r0[j2]);
                            }
                        }
                        assert forall|i: int, j2: int|
                            0 <= i < j2 < ranges@.len() implies ranges@[i].1 < ranges@[j2].0 by {
                            assert(ranges@[i] == r0[i]);
                            if j2 == ranges@.len() - 1 {
                                let last = kept.len() - 1;
                                assert(kept[last] == r0[last]);
                                assert(kept[i].0 < o) by {
                                    if i < last {
                                        assert(r0[i].1 < r0[last].0);
                                    }
                                }
                                if kept[i].1 >= o {
                                    assert(in_ranges(kept, o as int));
                                }
                            } else {
                                assert(ranges@[j2] == r0[j2]);
                            }
                        }
                        assert forall|i: int| 0 <= i < ranges@.len() implies (#[trigger] ranges@[i]).0
                            <= ranges@[i].1 < k + 1 by {
                            if i < kept.len() {
                                assert(ranges@[i] == r0[i]);
                            }
                        }
                        assert forall|i: int|
                            0 <= i < np.len() implies (#[trigger] np[i]).1 < k + 1 by {
                            if i < st.pairs.len() {
                                assert(np[i] == st.pairs[i]);
                            }
                        }
                        assert forall|i: int| 0 <= i < stack@.len() implies (#[trigger] stack@[i]).1
                            < k + 1 by {
                            assert(stack@[i] == stack0[i]);
                        }
                        assert forall|i: int, j2: int|
                            0 <= i < j2 < stack@.len() implies stack@[i].1 < stack@[j2].1 by {
                            assert(stack@[i] == stack0[i]);
                            assert(stack@[j2] == stack0[j2]);
                        }
                    }
                }
            },
            _ => {
                matched.push(false);
            },
        }
        proof {
            assert(is_matched_close(t@, k as int) == matched@[k as int]);
            assert forall|j2: int| 0 <= j2 <= k implies matched@[j2] == is_matched_close(t@, j2) by {}
        }
        k = k + 1;
    }
    let mut inside: Vec<bool> = Vec::new();
    let mut gap: Vec<bool> = Vec::new();
    while gap.len() <= n
        invariant
            inside@.len() == gap@.len() <= n + 1,
            forall|p: int| 0 <= p < gap@.len() ==> !inside@[p] && !gap@[p],
        decreases n + 1 - gap@.len(),
    {
        inside.push(false);
        gap.push(false);
    }
    let mut ri: usize = 0;
    while ri < ranges.len()
        invariant
            n == t@.len(),
            inside@.len() == n + 1,
            gap@.len() == n + 1,
            forall|i: int| 0 <= i < ranges@.len() ==> (#[trigger] ranges@[i]).0 <= ranges@[i].1 < n,
            ri <= ranges@.len(),
            forall|p: int| 0 <= p <= n ==> inside@[p] == in_ranges(ranges@.take(ri as int), p),
            forall|p: int| 0 <= p <= n ==> gap@[p] == in_ranges_gap(ranges@.take(ri as int), p),
            forall|i: int, j: int| 0 <= i < j < ranges@.len() ==> ranges@[i].1 < ranges@[j].0,
        decreases ranges.len() - ri,
    {
        let (a, b) = ranges[ri];
        let mut p = a;
        while p <= b
            invariant
                inside@.len() == n + 1,
                gap@.len() == n + 1,
                a <= p <= b + 1,
                b < n,
                ri < ranges@.len(),
                ranges@[ri as int] == (a, b),
                forall|q: int|
                    0 <= q <= n ==> inside@[q] == (in_ranges(ranges@.take(ri as int), q) || (a <= q
                        < p)),
                forall|q: int|
                    0 <= q <= n ==> gap@[q] == (in_ranges_gap(ranges@.take(ri as int), q) || (a < q
                        < p)),
            decreases b + 1 - p,
        {
            inside.set(p, true);
            if p > a {
                gap.set(p, true);
            }
            p = p + 1;
        }
        proof {
            let pre = ranges@.take(ri as int);
            let nxt = ranges@.take(ri + 1);
            assert forall|q: int| in_ranges(nxt, q) == (in_ranges(pre, q) || (a <= q <= b)) by {
                if in_ranges(nxt, q) {
                    let i = choose|i: int| 0 <= i < nxt.len() && (#[trigger] nxt[i]).0 <= q <= nxt[i].1;
                    if i < ri {
                        assert(pre[i] == nxt[i]);
                    }
                }
                if in_ranges(pre, q) {
                    let i = choose|i: int| 0 <= i < pre.len() && (#[trigger] pre[i]).0 <= q <= pre[i].1;
                    assert(pre[i] == nxt[i]);
                }
                if a <= q <= b {
                    assert(nxt[ri as int] == (a, b));
                }
            }
            assert forall|q: int| in_ranges_gap(nxt, q) == (in_ranges_gap(pre, q) || (a < q <= b)) by {
                if in_ranges_gap(nxt, q) {
                    let i = choose|i: int| 0 <= i < nxt.len() && (#[trigger] nxt[i]).0 < q <= nxt[i].1;
                    if i < ri {
                        assert(pre[i] == nxt[i]);
                    }
                }
                if in_ranges_gap(pre, q) {
                    let i = choose|i: int| 0 <= i < pre.len() && (#[trigger] pre[i]).0 < q <= pre[i].1;
                    assert(pre[i] == nxt[i]);
                }
                if a < q <= b {
                    assert(nxt[ri as int] == (a, b));
                }
            }
        }
        ri = ri + 1;
    }
    proof {
        assert(ranges@.take(ranges@.len() as int) =~= ranges@);
        assert(bracket_pairs(t@) == bracket_state(t@, n as int).pairs);
        assert forall|p: int| 0 <= p <= n implies gap@[p] == is_protected_gap(t@, p) by {
            assert(in_pairs_gap(bracket_pairs(t@), p) == is_protected_gap(t@, p));
        }
    }
    let mut prot: Vec<bool> = Vec::new();
    let mut p: usize = 0;
    while p < n
        invariant
            n == t@.len(),
            p <= n,
            inside@.len() == n + 1,
            prot@.len() == p,
            forall|q: int| 0 <= q <= n ==> inside@[q] == in_pairs(bracket_pairs(t@), q),
            forall|q: int| 0 <= q < p ==> prot@[q] == is_protected(t@, q),
        decreases n - p,
    {
        prot.push(inside[p]);
        proof {
            assert(in_pairs(bracket_pairs(t@), p as int) == is_protected(t@, p as int));
        }
        p = p + 1;
    }
    (matched, prot, gap)
}

proof fn lemma_kind_bound(t: Seq<char>, k: int)
    requires
        0 <= k <= t.len(),
    ensures
        forall|i: int|
            0 <= i < bracket_state(t, k).stack.len() ==> (#[trigger] bracket_state(t, k).stack[i]).0
                < BRACKET_KINDS,
    decreases k,
{
    if k > 0 {
        lemma_kind_bound(t, k - 1);
        let prev = bracket_state(t, k - 1);
        match spec_classify(t[k - 1]) {
            CharKind::Open(b) => {
                assert(b < BRACKET_KINDS) by {
                    super::marks::lemma_classify_bound(t[k - 1]);
                }
                assert forall|i: int| 0 <= i < bracket_state(t, k).stack.len() implies (
                #[trigger] bracket_state(t, k).stack[i]).0 < BRACKET_KINDS by {
                    if i < prev.stack.len() {
                        assert(bracket_state(t, k).stack[i] == prev.stack[i]);
                    }
                }
            },
            CharKind::Close(b) => {
                let jj = last_of_kind(prev.stack, b);
                if jj >= 0 {
                    lemma_count_kind(prev.stack, b);
                    assert forall|i: int| 0 <= i < bracket_state(t, k).stack.len() implies (
                    #[trigger] bracket_state(t, k).stack[i]).0 < BRACKET_KINDS by {
                        assert(bracket_state(t, k).stack[i] == prev.stack[i]);
                    }
                }
            },
            _ => {},
        }
    }
}

/// Every open bracket on the stack and every pair starts at an open bracket before `k`, and a
/// pair closes after it opens.
pub proof fn lemma_pairs_open(t: Seq<char>, k: int)
    requires
        0 <= k <= t.len(),
    ensures
        forall|i: int|
            0 <= i < bracket_state(t, k).stack.len() ==> 0 <= (#[trigger] bracket_state(t, k).stack[i]).1 < k
                && spec_classify(t[bracket_state(t, k).stack[i].1]) is Open,
        forall|i: int|
            0 <= i < bracket_state(t, k).pairs.len() ==> 0 <= (#[trigger] bracket_state(t, k).pairs[i]).0 < bracket_state(
                t,
                k,
            ).pairs[i].1 < k && spec_classify(t[bracket_state(t, k).pairs[i].0]) is Open,
    decreases k,
{
    if k > 0 {
        lemma_pairs_open(t, k - 1);
        let st = bracket_state(t, k - 1);
        let c = t[k - 1];
        let nst = bracket_state(t, k);
        match spec_classify(c) {
            CharKind::Open(b) => {
                assert forall|i: int| 0 <= i < nst.stack.len() implies 0 <= (#[trigger] nst.stack[i]).1 < k
                    && spec_classify(t[nst.stack[i].1]) is Open by {
                    if i < st.stack.len() {
                        assert(nst.stack[i] == st.stack[i]);
                    }
                };
            },
            CharKind::Close(b) => {
                let j = last_of_kind(st.stack, b);
                lemma_count_kind(st.stack, b);
                if j >= 0 {
                    assert forall|i: int| 0 <= i < nst.stack.len() implies 0 <= (#[trigger] nst.stack[i]).1 < k
                        && spec_classify(t[nst.stack[i].1]) is Open by {
                        assert(nst.stack[i] == st.stack[i]);
                    };
                    assert forall|i: int| 0 <= i < nst.pairs.len() implies 0 <= (#[trigger] nst.pairs[i]).0 < nst.pairs[i].1
                        < k && spec_classify(t[nst.pairs[i].0]) is Open by {
                        if i < st.pairs.len() {
                            assert(nst.pairs[i] == st.pairs[i]);
                        } else {
                            assert(nst.pairs[i] == (st.stack[j].1, k - 1));
                        }
                    };
                }
            },
            _ => {},
        }
    }
}

} // verus!
