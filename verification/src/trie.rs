//! Double-array trie over bytes: common-prefix search of keys with their values.

use vstd::prelude::*;

verus! {

/// The values of the entries with key `s` among the first `k` entries, in entry order.
pub open spec fn entry_values(es: Seq<(Seq<u8>, u32)>, s: Seq<u8>, k: int) -> Seq<u32>
    decreases k,
{
    if k <= 0 {
        Seq::empty()
    } else {
        entry_values(es, s, k - 1) + if es[k - 1].0 == s {
            seq![es[k - 1].1]
        } else {
            Seq::empty()
        }
    }
}

pub open spec fn entries_view(entries: Seq<(&[u8], u32)>) -> Seq<(Seq<u8>, u32)> {
    entries.map_values(|e: (&[u8], u32)| (e.0@, e.1))
}

/// Each key of the entries with its values, in entry order.
pub open spec fn entries_map(es: Seq<(Seq<u8>, u32)>) -> Map<Seq<u8>, Seq<u32>> {
    Map::new(
        |s: Seq<u8>| entry_values(es, s, es.len() as int).len() > 0,
        |s: Seq<u8>| entry_values(es, s, es.len() as int),
    )
}

/// One transition: from slot `n` by byte `c`.
pub open spec fn step(base: Seq<i32>, check: Seq<i32>, n: int, c: u8) -> Option<int> {
    if 0 <= n < base.len() && base[n] > 0 && base[n] + c < check.len() && check[base[n] + c] == n {
        Some(base[n] + c)
    } else {
        None
    }
}

/// The slot reached from the root (slot 0) by the bytes of `s`.
pub open spec fn walk(base: Seq<i32>, check: Seq<i32>, s: Seq<u8>) -> Option<int>
    decreases s.len(),
{
    if s.len() == 0 {
        Some(0)
    } else {
        match walk(base, check, s.drop_last()) {
            Some(n) => step(base, check, n, s.last()),
            None => None,
        }
    }
}

/// The values stored for the slot with output index `o`.
pub open spec fn pool_values(pool: Seq<u32>, o: int) -> Seq<u32> {
    pool.subrange(o + 1, o + 1 + pool[o])
}

/// The matches of the keys of `m` that are prefixes of `input`, of lengths `0..=k`, shortest first.
pub open spec fn prefix_matches(m: Map<Seq<u8>, Seq<u32>>, input: Seq<u8>, k: int) -> Seq<(int, Seq<u32>)>
    decreases k + 1,
{
    if k < 0 {
        Seq::empty()
    } else {
        prefix_matches(m, input, k - 1) + if m.contains_key(input.take(k)) {
            seq![(k, m[input.take(k)])]
        } else {
            Seq::empty()
        }
    }
}

/// A double-array trie: `base` and `check` encode the transitions, `output` points each slot that
/// ends a key into `value_pool`, which holds `count, values...` groups.
#[derive(Debug)]
pub struct DoubleArrayTrie {
    base: Vec<i32>,
    check: Vec<i32>,
    /// Index into `value_pool` per slot; `u32::MAX`: no value
    output: Vec<u32>,
    /// `[count, v1, v2, ..., count, v1, ...]`
    value_pool: Vec<u32>,
}

impl View for DoubleArrayTrie {
    type V = Map<Seq<u8>, Seq<u32>>;

    /// The keys with their values.
    closed spec fn view(&self) -> Map<Seq<u8>, Seq<u32>> {
        Map::new(
            |s: Seq<u8>| self.has_output(walk(self.base@, self.check@, s)),
            |s: Seq<u8>| pool_values(self.value_pool@, self.output@[walk(self.base@, self.check@, s)->0] as int),
        )
    }
}

/// Where a search puts the matches it finds, in order: (length, values).
pub trait ValuesSink {
    /// The matches put so far.
    spec fn log(&self) -> Seq<(int, Seq<u32>)>;

    /// Puts one match.
    fn push_values(&mut self, len: usize, values: &[u32])
        ensures
            final(self).log() == old(self).log().push((len as int, values@)),
    ;
}

impl ValuesSink for Vec<(usize, Vec<u32>)> {
    open spec fn log(&self) -> Seq<(int, Seq<u32>)> {
        self@.map_values(|x: (usize, Vec<u32>)| (x.0 as int, x.1@))
    }

    fn push_values(&mut self, len: usize, values: &[u32]) {
        let v = copy_u32s(values);
        let ghost before = self@;
        self.push((len, v));
        proof {
            assert(self@.map_values(|x: (usize, Vec<u32>)| (x.0 as int, x.1@)) =~= before.map_values(
                |x: (usize, Vec<u32>)| (x.0 as int, x.1@),
            ).push((len as int, values@)));
        }
    }
}

impl DoubleArrayTrie {
    pub closed spec fn spec_base(&self) -> Seq<i32> {
        self.base@
    }

    pub closed spec fn spec_check(&self) -> Seq<i32> {
        self.check@
    }

    pub closed spec fn spec_output(&self) -> Seq<u32> {
        self.output@
    }

    pub closed spec fn spec_pool(&self) -> Seq<u32> {
        self.value_pool@
    }

    closed spec fn has_output(&self, n: Option<int>) -> bool {
        n matches Some(x) && 0 <= x < self.output@.len() && self.output@[x] != u32::MAX
    }

    #[verifier::type_invariant]
    closed spec fn wf(&self) -> bool {
        &&& self.base@.len() == self.check@.len()
        &&& self.base@.len() == self.output@.len()
        &&& 1 <= self.base@.len() <= i32::MAX
        &&& forall|x: int|
            0 <= x < self.output@.len() && self.output@[x] != u32::MAX ==> {
                let o = self.output@[x] as int;
                &&& o < self.value_pool@.len()
                &&& o + 1 + self.value_pool@[o] <= self.value_pool@.len()
            }
    }
}

/// A walk that fails stays failed for longer prefixes.
proof fn lemma_walk_none(base: Seq<i32>, check: Seq<i32>, input: Seq<u8>, i: int, j: int)
    requires
        0 <= i <= j <= input.len(),
        walk(base, check, input.take(i)) is None,
    ensures
        walk(base, check, input.take(j)) is None,
    decreases j - i,
{
    if i < j {
        lemma_walk_none(base, check, input, i, j - 1);
        assert(input.take(j).drop_last() =~= input.take(j - 1));
    }
}

fn copy_u32s(s: &[u32]) -> (v: Vec<u32>)
    ensures
        v@ == s@,
{
    let mut v: Vec<u32> = Vec::new();
    let mut i: usize = 0;
    while i < s.len()
        invariant
            i <= s@.len(),
            v@ == s@.take(i as int),
        decreases s@.len() - i,
    {
        v.push(s[i]);
        proof {
            assert(v@ =~= s@.take(i + 1));
        }
        i = i + 1;
    }
    proof {
        assert(s@.take(s@.len() as int) =~= s@);
    }
    v
}

impl DoubleArrayTrie {
    /// The values stored at slot `x`.
    fn values_at(&self, x: usize) -> (r: &[u32])
        requires
            x < self.output@.len(),
            self.output@[x as int] != u32::MAX,
        ensures
            r@ == pool_values(self.value_pool@, self.output@[x as int] as int),
    {
        proof {
            use_type_invariant(self);
        }
        let plen = self.value_pool.len();
        let o = self.output[x] as usize;
        let count = self.value_pool[o] as usize;
        vstd::slice::slice_subrange(self.value_pool.as_slice(), o + 1, o + 1 + count)
    }

    /// The matches of the keys that are prefixes of `input`, shortest first: (length, values).
    pub fn common_prefix_search(&self, input: &[u8]) -> (r: Vec<(usize, Vec<u32>)>)
        ensures
            r@.len() == prefix_matches(self@, input@, input@.len() as int).len(),
            forall|i: int|
                0 <= i < r@.len() ==> (#[trigger] r@[i]).0 == prefix_matches(self@, input@, input@.len() as int)[i].0
                    && r@[i].1@ == prefix_matches(self@, input@, input@.len() as int)[i].1,
    {
        proof {
            use_type_invariant(self);
        }
        let ghost m = self@;
        let ghost pm = |k: int| prefix_matches(m, input@, k);
        let mut r: Vec<(usize, Vec<u32>)> = Vec::new();
        let mut node: usize = 0;
        proof {
            assert(input@.take(0) =~= Seq::<u8>::empty());
            assert(prefix_matches(m, input@, -1) =~= Seq::<(int, Seq<u32>)>::empty());
        }
        if self.output[0] != u32::MAX {
            let vals = copy_u32s(self.values_at(0));
            r.push((0, vals));
        }
        proof {
            assert(walk(self.base@, self.check@, input@.take(0)) == Some(0int));
            assert(m.contains_key(input@.take(0)) == (self.output@[0] != u32::MAX));
        }
        let mut i: usize = 0;
        let mut done = false;
        while i < input.len() && !done
            invariant
                i <= input@.len(),
                m == self@,
                node < self.base@.len(),
                self.base@.len() == self.check@.len(),
                self.base@.len() == self.output@.len(),
                self.base@.len() <= i32::MAX,
                !done ==> walk(self.base@, self.check@, input@.take(i as int)) == Some(node as int),
                done ==> walk(self.base@, self.check@, input@.take(i + 1)) is None && i < input@.len(),
                r@.len() == prefix_matches(m, input@, i as int).len(),
                forall|k: int|
                    0 <= k < r@.len() ==> (#[trigger] r@[k]).0 == prefix_matches(m, input@, i as int)[k].0
                        && r@[k].1@ == prefix_matches(m, input@, i as int)[k].1,
            decreases (input@.len() - i) * 2 + if done { 0int } else { 1int },
        {
            let ghost prev = input@.take(i as int);
            proof {
                assert(input@.take(i + 1).drop_last() =~= prev);
                assert(input@.take(i + 1).last() == input@[i as int]);
            }
            let b = self.base[node];
            if b <= 0 {
                done = true;
            } else {
                let next = b as usize + input[i] as usize;
                if next >= self.check.len() || self.check[next] != node as i32 {
                    done = true;
                } else {
                    node = next;
                    proof {
                        assert(walk(self.base@, self.check@, input@.take(i + 1)) == Some(node as int));
                    }
                    let ghost before = r@;
                    if self.output[node] != u32::MAX {
                        let vals = copy_u32s(self.values_at(node));
                        r.push((i + 1, vals));
                    }
                    proof {
                        let pn = prefix_matches(m, input@, i + 1);
                        assert(pn == prefix_matches(m, input@, i as int) + if m.contains_key(input@.take(i + 1)) {
                            seq![(i + 1, m[input@.take(i + 1)])]
                        } else {
                            Seq::empty()
                        });
                        assert forall|k: int| 0 <= k < r@.len() implies (#[trigger] r@[k]).0 == pn[k].0 && r@[k].1@ == pn[k].1 by {
                            if k < before.len() {
                                assert(r@[k] == before[k]);
                            }
                        }
                    }
                    i = i + 1;
                }
            }
        }
        proof {
            if done {
                assert forall|j: int| i + 1 <= j <= input@.len() implies walk(self.base@, self.check@, #[trigger] input@.take(j)) is None by {
                    lemma_walk_none(self.base@, self.check@, input@, i + 1, j);
                }
                lemma_prefix_matches_stop(m, self, input@, i as int);
            }
        }
        r
    }

    /// Puts `(length, values)` into `sink` for each key that is a prefix of `input`, shortest first
    /// (the matches of [`DoubleArrayTrie::common_prefix_search`]).
    pub fn common_prefix_search_cb<S: ValuesSink>(&self, input: &[u8], sink: &mut S)
        ensures
            final(sink).log() == old(sink).log() + prefix_matches(self@, input@, input@.len() as int),
    {
        let found = self.common_prefix_search(input);
        let ghost pm = prefix_matches(self@, input@, input@.len() as int);
        let ghost base = sink.log();
        let mut i: usize = 0;
        while i < found.len()
            invariant
                i <= found@.len(),
                found@.len() == pm.len(),
                forall|k: int| 0 <= k < found@.len() ==> (#[trigger] found@[k]).0 == pm[k].0 && found@[k].1@ == pm[k].1,
                sink.log() == base + pm.take(i as int),
            decreases found@.len() - i,
        {
            sink.push_values(found[i].0, found[i].1.as_slice());
            proof {
                assert(pm.take(i + 1) =~= pm.take(i as int).push(pm[i as int]));
                assert(base + pm.take(i + 1) =~= (base + pm.take(i as int)).push(pm[i as int]));
            }
            i = i + 1;
        }
        proof {
            assert(pm.take(pm.len() as int) =~= pm);
        }
    }

    /// Number of slots.
    pub fn num_nodes(&self) -> (n: usize)
        ensures
            n == self.spec_base().len(),
    {
        self.base.len()
    }

    /// Bytes held by the four arrays (saturating at `usize::MAX`, which no arrays in memory reach).
    pub fn memory_usage(&self) -> (n: usize)
        ensures
            4 * (self.spec_base().len() + self.spec_check().len() + self.spec_output().len() + self.spec_pool().len()) <= usize::MAX ==>
                n == 4 * (self.spec_base().len() + self.spec_check().len() + self.spec_output().len() + self.spec_pool().len()),
            4 * (self.spec_base().len() + self.spec_check().len() + self.spec_output().len() + self.spec_pool().len()) > usize::MAX ==>
                n == usize::MAX,
    {
        let total = (self.base.len() as u128 + self.check.len() as u128 + self.output.len() as u128
            + self.value_pool.len() as u128) * 4;
        if total > usize::MAX as u128 {
            usize::MAX
        } else {
            total as usize
        }
    }

    pub fn base_slice(&self) -> (r: &[i32])
        ensures
            r@ == self.spec_base(),
    {
        self.base.as_slice()
    }

    pub fn check_slice(&self) -> (r: &[i32])
        ensures
            r@ == self.spec_check(),
    {
        self.check.as_slice()
    }

    pub fn output_slice(&self) -> (r: &[u32])
        ensures
            r@ == self.spec_output(),
    {
        self.output.as_slice()
    }

    pub fn value_pool_slice(&self) -> (r: &[u32])
        ensures
            r@ == self.spec_pool(),
    {
        self.value_pool.as_slice()
    }
}

/// Once a walk fails past `i`, no longer prefix matches.
proof fn lemma_prefix_matches_stop(m: Map<Seq<u8>, Seq<u32>>, t: &DoubleArrayTrie, input: Seq<u8>, i: int)
    requires
        m == t@,
        0 <= i < input.len(),
        forall|j: int| i + 1 <= j <= input.len() ==> walk(t.base@, t.check@, #[trigger] input.take(j)) is None,
    ensures
        forall|k: int| i <= k <= input.len() ==> #[trigger] prefix_matches(m, input, k) == prefix_matches(m, input, i),
{
    assert forall|k: int| i <= k <= input.len() implies #[trigger] prefix_matches(m, input, k) == prefix_matches(m, input, i) by {
        lemma_prefix_matches_stop_k(m, t, input, i, k);
    }
}

proof fn lemma_prefix_matches_stop_k(m: Map<Seq<u8>, Seq<u32>>, t: &DoubleArrayTrie, input: Seq<u8>, i: int, k: int)
    requires
        m == t@,
        0 <= i <= k <= input.len(),
        forall|j: int| i + 1 <= j <= input.len() ==> walk(t.base@, t.check@, #[trigger] input.take(j)) is None,
    ensures
        prefix_matches(m, input, k) == prefix_matches(m, input, i),
    decreases k - i,
{
    if k > i {
        lemma_prefix_matches_stop_k(m, t, input, i, k - 1);
        assert(walk(t.base@, t.check@, input.take(k)) is None);
        assert(!m.contains_key(input.take(k)));
        assert(prefix_matches(m, input, k) =~= prefix_matches(m, input, k - 1));
    }
}

/// Total length of the first `k` keys.
pub open spec fn total_key_bytes(es: Seq<(Seq<u8>, u32)>, k: int) -> int
    decreases k,
{
    if k <= 0 {
        0
    } else {
        total_key_bytes(es, k - 1) + es[k - 1].0.len()
    }
}

/// The entries fit the array sizes: slots are `i32`, the value pool is indexed by `u32`.
pub open spec fn build_fits(es: Seq<(Seq<u8>, u32)>) -> bool {
    &&& es.len() <= 0x1000_0000
    &&& total_key_bytes(es, es.len() as int) <= 8_000_000
}

pub open spec fn kids_view(kids: Seq<Vec<(u8, usize)>>) -> Seq<Seq<(u8, usize)>> {
    kids.map_values(|v: Vec<(u8, usize)>| v@)
}

pub open spec fn vals_view(vals: Seq<Vec<u32>>) -> Seq<Seq<u32>> {
    vals.map_values(|v: Vec<u32>| v@)
}

/// The intermediate trie is a tree: each node's path is its parent's plus the label, labels of
/// siblings differ, paths differ, children come after their parents, and every node but the
/// root is somebody's child.
pub open spec fn tree_ok(kv: Seq<Seq<(u8, usize)>>, paths: Seq<Seq<u8>>) -> bool {
    &&& kv.len() == paths.len()
    &&& kv.len() >= 1
    &&& paths[0] == Seq::<u8>::empty()
    &&& forall|p: int, j: int|
        0 <= p < kv.len() && 0 <= j < kv[p].len() ==> p < (#[trigger] kv[p][j]).1 < kv.len() && paths[kv[p][j].1 as int]
            == paths[p].push(kv[p][j].0)
    &&& forall|p: int, j1: int, j2: int|
        0 <= p < kv.len() && 0 <= j1 < j2 < kv[p].len() ==> (#[trigger] kv[p][j1]).0 != (#[trigger] kv[p][j2]).0
    &&& forall|a: int, b: int| 0 <= a < b < paths.len() ==> paths[a] != paths[b]
    &&& forall|c: int| 0 < c < kv.len() ==> #[trigger] has_parent(kv, c)
}

/// Node `c` is a child of some node.
pub open spec fn has_parent(kv: Seq<Seq<(u8, usize)>>, c: int) -> bool {
    exists|p: int, j: int| 0 <= p < kv.len() && 0 <= j < kv[p].len() && (#[trigger] kv[p][j]).1 == c
}

proof fn lemma_entry_values_key(es: Seq<(Seq<u8>, u32)>, s: Seq<u8>, k: int)
    requires
        entry_values(es, s, k).len() > 0,
    ensures
        exists|j: int| 0 <= j < k && es[j].0 == s,
    decreases k,
{
    if k > 0 && es[k - 1].0 != s {
        lemma_entry_values_key(es, s, k - 1);
    }
}

/// Total number of values held by the first `k` nodes.
pub open spec fn vals_total(vv: Seq<Seq<u32>>, k: int) -> int
    decreases k,
{
    if k <= 0 {
        0
    } else {
        vals_total(vv, k - 1) + vv[k - 1].len()
    }
}

proof fn lemma_vals_total_ext(a: Seq<Seq<u32>>, b: Seq<Seq<u32>>, k: int)
    requires
        forall|i: int| 0 <= i < k ==> (#[trigger] a[i]).len() == b[i].len(),
    ensures
        vals_total(a, k) == vals_total(b, k),
    decreases k,
{
    if k > 0 {
        lemma_vals_total_ext(a, b, k - 1);
    }
}

proof fn lemma_vals_total_update(a: Seq<Seq<u32>>, i: int, x: Seq<u32>, k: int)
    requires
        0 <= i < k <= a.len(),
    ensures
        vals_total(a.update(i, x), k) == vals_total(a, k) - a[i].len() + x.len(),
    decreases k,
{
    if k - 1 == i {
        lemma_vals_total_ext(a.update(i, x), a, k - 1);
    } else {
        lemma_vals_total_update(a, i, x, k - 1);
    }
}

proof fn lemma_vals_total_mono(a: Seq<Seq<u32>>, i: int, k: int)
    requires
        0 <= i <= k,
    ensures
        vals_total(a, i) <= vals_total(a, k),
    decreases k - i,
{
    if i < k {
        lemma_vals_total_mono(a, i, k - 1);
    }
}

fn find_kid(kids: &Vec<(u8, usize)>, l: u8) -> (r: Option<usize>)
    ensures
        r matches Some(c) ==> exists|j: int| 0 <= j < kids@.len() && kids@[j] == (l, c),
        r is None ==> forall|j: int| 0 <= j < kids@.len() ==> kids@[j].0 != l,
{
    let mut j: usize = 0;
    while j < kids.len()
        invariant
            j <= kids@.len(),
            forall|k: int| 0 <= k < j ==> kids@[k].0 != l,
        decreases kids@.len() - j,
    {
        let (label, c) = kids[j];
        if label == l {
            proof {
                assert(kids@[j as int] == (l, c));
            }
            return Some(c);
        }
        j = j + 1;
    }
    None
}

fn pushed<T: Copy>(v: &Vec<T>, x: T) -> (r: Vec<T>)
    ensures
        r@ == v@.push(x),
{
    let mut r: Vec<T> = Vec::new();
    let mut i: usize = 0;
    while i < v.len()
        invariant
            i <= v@.len(),
            r@ == v@.take(i as int),
        decreases v@.len() - i,
    {
        r.push(v[i]);
        proof {
            assert(r@ =~= v@.take(i + 1));
        }
        i = i + 1;
    }
    r.push(x);
    proof {
        assert(r@ =~= v@.push(x));
    }
    r
}

/// Phase 1: the intermediate trie of the entries (children and values of each node), with the
/// path of each node.
fn build_nodes(entries: &[(&[u8], u32)]) -> (r: (Vec<Vec<(u8, usize)>>, Vec<Vec<u32>>, Ghost<Seq<Seq<u8>>>))
    requires
        build_fits(entries_view(entries@)),
    ensures
        tree_ok(kids_view(r.0@), r.2@),
        r.1@.len() == r.0@.len(),
        vals_total(vals_view(r.1@), r.1@.len() as int) == entries@.len(),
        r.0@.len() <= 1 + total_key_bytes(entries_view(entries@), entries@.len() as int),
        forall|p: int| 0 <= p < r.1@.len() ==> (#[trigger] r.1@[p])@ == entry_values(entries_view(entries@), r.2@[p], entries@.len() as int),
        forall|s: Seq<u8>| entry_values(entries_view(entries@), s, entries@.len() as int).len() > 0 ==> exists|p: int|
            0 <= p < r.2@.len() && r.2@[p] == s,
{
    let ghost es = entries_view(entries@);
    let mut kids: Vec<Vec<(u8, usize)>> = Vec::new();
    let mut vals: Vec<Vec<u32>> = Vec::new();
    kids.push(Vec::new());
    vals.push(Vec::new());
    let ghost mut paths: Seq<Seq<u8>> = seq![Seq::<u8>::empty()];
    proof {
        assert(kids_view(kids@) =~= seq![Seq::<(u8, usize)>::empty()]);
        assert(vals_view(vals@) =~= seq![Seq::<u32>::empty()]);
        assert(vals_total(vals_view(vals@), 0) == 0);
    }
    let mut k: usize = 0;
    while k < entries.len()
        invariant
            es == entries_view(entries@),
            build_fits(es),
            k <= entries@.len(),
            tree_ok(kids_view(kids@), paths),
            vals@.len() == kids@.len(),
            vals_total(vals_view(vals@), vals@.len() as int) == k,
            kids@.len() <= 1 + total_key_bytes(es, k as int),
            forall|p: int| 0 <= p < vals@.len() ==> (#[trigger] vals@[p])@ == entry_values(es, paths[p], k as int),
            forall|j: int| 0 <= j < k ==> exists|p: int| 0 <= p < paths.len() && paths[p] == #[trigger] es[j].0,
        decreases entries@.len() - k,
    {
        let (key, v) = entries[k];
        proof {
            assert(es[k as int] == (key@, v));
        }
        let mut cur: usize = 0;
        let mut d: usize = 0;
        proof {
            assert(key@.take(0) =~= Seq::<u8>::empty());
        }
        while d < key.len()
            invariant
                es == entries_view(entries@),
                build_fits(es),
                k < entries@.len(),
                es[k as int] == (key@, v),
                d <= key@.len(),
                tree_ok(kids_view(kids@), paths),
                vals@.len() == kids@.len(),
                vals_total(vals_view(vals@), vals@.len() as int) == k,
                cur < kids@.len(),
                paths[cur as int] == key@.take(d as int),
                kids@.len() <= 1 + total_key_bytes(es, k as int) + d,
                forall|p: int| 0 <= p < vals@.len() ==> (#[trigger] vals@[p])@ == entry_values(es, paths[p], k as int),
                forall|j: int| 0 <= j < k ==> exists|p: int| 0 <= p < paths.len() && paths[p] == #[trigger] es[j].0,
            decreases key@.len() - d,
        {
            let l = key[d];
            let ghost kv = kids_view(kids@);
            proof {
                assert(key@.take(d + 1) =~= key@.take(d as int).push(l));
            }
            match find_kid(&kids[cur], l) {
                Some(c) => {
                    proof {
                        let j = choose|j: int| 0 <= j < kids@[cur as int]@.len() && kids@[cur as int]@[j] == (l, c);
                        assert(kv[cur as int][j] == (l, c));
                    }
                    cur = c;
                },
                None => {
                    let c = kids.len();
                    let ghost np = key@.take(d + 1);
                    proof {
                        // no node has the new path yet
                        assert forall|x: int| 0 <= x < paths.len() implies paths[x] != np by {
                            if paths[x] == np {
                                assert(x != 0);
                                assert(has_parent(kv, x));
                                let (pp, jj) = choose|pp: int, jj: int| 0 <= pp < kv.len() && 0 <= jj < kv[pp].len() && (#[trigger] kv[pp][jj]).1 == x;
                                assert(paths[x] == paths[pp].push(kv[pp][jj].0));
                                assert(paths[pp] == np.drop_last());
                                assert(np.drop_last() =~= paths[cur as int]);
                                if pp != cur {
                                    if pp < cur {
                                        assert(paths[pp] != paths[cur as int]);
                                    } else {
                                        assert(paths[cur as int] != paths[pp]);
                                    }
                                }
                                assert(np.last() == l);
                                assert(paths[pp].push(kv[pp][jj].0).last() == kv[pp][jj].0);
                                assert(kv[cur as int][jj] == kids@[cur as int]@[jj]);
                                assert(kids@[cur as int]@[jj].0 == l);
                            }
                        }
                        assert(entry_values(es, np, k as int).len() == 0) by {
                            if entry_values(es, np, k as int).len() > 0 {
                                lemma_entry_values_key(es, np, k as int);
                                let j = choose|j: int| 0 <= j < k && es[j].0 == np;
                                let x = choose|x: int| 0 <= x < paths.len() && paths[x] == es[j].0;
                            }
                        }
                    }
                    let nk = pushed(&kids[cur], (l, c));
                    let ghost vv0 = vals_view(vals@);
                    kids.push(Vec::new());
                    vals.push(Vec::new());
                    kids.set(cur, nk);
                    proof {
                        let vv1 = vals_view(vals@);
                        assert(vv1 =~= vv0.push(Seq::<u32>::empty()));
                        lemma_vals_total_ext(vv1, vv0, vv0.len() as int);
                        let old_paths = paths;
                        paths = paths.push(np);
                        let kv2 = kids_view(kids@);
                        assert(kv2.len() == kv.len() + 1);
                        assert forall|p: int| 0 <= p < kv2.len() && p != cur implies #[trigger] kv2[p] == if p < kv.len() { kv[p] } else { Seq::<(u8, usize)>::empty() } by {}
                        assert(kv2[cur as int] == kv[cur as int].push((l, c)));
                        assert forall|p: int, j: int| 0 <= p < kv2.len() && 0 <= j < kv2[p].len() implies p < (#[trigger] kv2[p][j]).1 < kv2.len() && paths[kv2[p][j].1 as int]
                            == paths[p].push(kv2[p][j].0) by {
                            if p == cur {
                                if j < kv[cur as int].len() {
                                    assert(kv2[p][j] == kv[p][j]);
                                }
                            } else {
                                assert(kv2[p] == kv[p]);
                            }
                        }
                        assert forall|p: int, j1: int, j2: int|
                            0 <= p < kv2.len() && 0 <= j1 < j2 < kv2[p].len() implies (#[trigger] kv2[p][j1]).0 != (#[trigger] kv2[p][j2]).0 by {
                            if p == cur {
                                if j2 == kv[cur as int].len() {
                                    assert(kv2[p][j1] == kv[p][j1]);
                                } else {
                                    assert(kv2[p][j1] == kv[p][j1]);
                                    assert(kv2[p][j2] == kv[p][j2]);
                                }
                            } else if p < kv.len() {
                                assert(kv2[p] == kv[p]);
                            }
                        }
                        assert forall|a: int, b: int| 0 <= a < b < paths.len() implies paths[a] != paths[b] by {
                            if b == paths.len() - 1 {
                                assert(old_paths[a] != np);
                            } else {
                                assert(old_paths[a] != old_paths[b]);
                            }
                        }
                        assert forall|x: int| 0 < x < kv2.len() implies #[trigger] has_parent(kv2, x) by {
                            if x == c {
                                assert(kv2[cur as int][kv[cur as int].len() as int].1 == x);
                            } else {
                                assert(has_parent(kv, x));
                                let (pp, jj) = choose|pp: int, jj: int| 0 <= pp < kv.len() && 0 <= jj < kv[pp].len() && (#[trigger] kv[pp][jj]).1 == x;
                                if pp == cur {
                                    assert(kv2[pp][jj] == kv[pp][jj]);
                                } else {
                                    assert(kv2[pp] == kv[pp]);
                                }
                            }
                        }
                        assert forall|p: int| 0 <= p < vals@.len() implies (#[trigger] vals@[p])@ == entry_values(es, paths[p], k as int) by {
                            if p == c {
                                assert(vals@[p]@ =~= Seq::<u32>::empty());
                            }
                        }
                        assert forall|j: int| 0 <= j < k implies exists|p: int| 0 <= p < paths.len() && paths[p] == #[trigger] es[j].0 by {
                            let x = choose|x: int| 0 <= x < old_paths.len() && old_paths[x] == es[j].0;
                            assert(paths[x] == old_paths[x]);
                        }
                    }
                    cur = c;
                },
            }
            d = d + 1;
        }
        proof {
            assert(key@.take(d as int) =~= key@);
            assert(total_key_bytes(es, k + 1) == total_key_bytes(es, k as int) + key@.len());
        }
        let nv = pushed(&vals[cur], v);
        let ghost vold = vals@;
        vals.set(cur, nv);
        proof {
            assert(vals_view(vals@) =~= vals_view(vold).update(cur as int, vold[cur as int]@.push(v)));
            lemma_vals_total_update(vals_view(vold), cur as int, vold[cur as int]@.push(v), vold.len() as int);
            assert forall|p: int| 0 <= p < vals@.len() implies (#[trigger] vals@[p])@ == entry_values(es, paths[p], k + 1) by {
                assert(entry_values(es, paths[p], k + 1) == entry_values(es, paths[p], k as int) + if es[k as int].0 == paths[p] {
                    seq![v]
                } else {
                    Seq::empty()
                });
                if p != cur {
                    assert(vals@[p] == vold[p]);
                    if paths[p] == key@ {
                        if p < cur {
                            assert(paths[p] != paths[cur as int]);
                        } else {
                            assert(paths[cur as int] != paths[p]);
                        }
                    }
                }
            }
            assert forall|j: int| 0 <= j < k + 1 implies exists|p: int| 0 <= p < paths.len() && paths[p] == #[trigger] es[j].0 by {
                if j == k {
                    assert(paths[cur as int] == es[j].0);
                }
            }
        }
        k = k + 1;
    }
    proof {
        assert forall|s: Seq<u8>| entry_values(es, s, entries@.len() as int).len() > 0 implies exists|p: int|
            0 <= p < paths.len() && paths[p] == s by {
            lemma_entry_values_key(es, s, entries@.len() as int);
            let j = choose|j: int| 0 <= j < entries@.len() && es[j].0 == s;
            assert(exists|p: int| 0 <= p < paths.len() && paths[p] == #[trigger] es[j].0);
        }
    }
    (kids, vals, Ghost(paths))
}


/// A slot that a node may take: past the end, or neither the root nor taken.
pub open spec fn slot_free(check: Seq<i32>, x: int) -> bool {
    x >= check.len() || (x != 0 && check[x] < 0)
}

/// The node `c` has a parent node that comes before it.
proof fn lemma_parent_of(kv: Seq<Seq<(u8, usize)>>, paths: Seq<Seq<u8>>, c: int) -> (r: (int, int))
    requires
        tree_ok(kv, paths),
        0 < c < kv.len(),
    ensures
        0 <= r.0 < c,
        0 <= r.1 < kv[r.0].len(),
        kv[r.0][r.1].1 == c,
{
    assert(has_parent(kv, c));
    let (p, j) = choose|p: int, j: int| 0 <= p < kv.len() && 0 <= j < kv[p].len() && (#[trigger] kv[p][j]).1 == c;
    (p, j)
}

/// A node has one parent, and is one child of it.
proof fn lemma_one_parent(kv: Seq<Seq<(u8, usize)>>, paths: Seq<Seq<u8>>, p1: int, j1: int, p2: int, j2: int)
    requires
        tree_ok(kv, paths),
        0 <= p1 < kv.len(),
        0 <= j1 < kv[p1].len(),
        0 <= p2 < kv.len(),
        0 <= j2 < kv[p2].len(),
        kv[p1][j1].1 == kv[p2][j2].1,
    ensures
        p1 == p2,
        j1 == j2,
{
    let c = kv[p1][j1].1 as int;
    let e1 = kv[p1][j1];
    let e2 = kv[p2][j2];
    assert(paths[c] == paths[p1].push(e1.0));
    assert(paths[c] == paths[p2].push(e2.0));
    assert(paths[p1] =~= paths[c].drop_last());
    assert(paths[p2] =~= paths[c].drop_last());
    if p1 < p2 {
        assert(paths[p1] != paths[p2]);
    } else if p2 < p1 {
        assert(paths[p2] != paths[p1]);
    }
    assert(e1.0 == paths[c].last());
    assert(e2.0 == paths[c].last());
    if j1 < j2 {
        assert(kv[p1][j1].0 != kv[p1][j2].0);
    } else if j2 < j1 {
        assert(kv[p1][j2].0 != kv[p1][j1].0);
    }
}

fn filled<T: Copy>(n: usize, v: T) -> (r: Vec<T>)
    ensures
        r@.len() == n,
        forall|i: int| 0 <= i < n ==> r@[i] == v,
{
    let mut r: Vec<T> = Vec::new();
    while r.len() < n
        invariant
            r@.len() <= n,
            forall|i: int| 0 <= i < r@.len() ==> r@[i] == v,
        decreases n - r@.len(),
    {
        r.push(v);
    }
    r
}

/// The double array while nodes are being placed: `da` gives the slot of each node, the ghost
/// `own` the node in each slot (`-1`: none).
struct Builder {
    base: Vec<i32>,
    check: Vec<i32>,
    output: Vec<u32>,
    pool: Vec<u32>,
    da: Vec<usize>,
    own: Ghost<Seq<int>>,
}

impl Builder {
    /// Child `j` of the placed node `p` sits at its parent's base plus its label.
    spec fn kid_placed(&self, kv: Seq<Seq<(u8, usize)>>, p: int, j: int) -> bool {
        let n = self.da@[p] as int;
        let c = kv[p][j].1 as int;
        let x = self.da@[c] as int;
        &&& 0 <= c < self.da@.len()
        &&& self.base@[n] >= 1
        &&& x == self.base@[n] + kv[p][j].0
        &&& x < self.check@.len()
        &&& self.own@[x] == c
        &&& self.check@[x] == n
    }

    /// A taken slot `x` is the child, by label `x - base`, of the node in slot `check[x]`.
    spec fn slot_linked(&self, kv: Seq<Seq<(u8, usize)>>, qk: int, x: int) -> bool {
        let n = self.check@[x] as int;
        let p = self.own@[n];
        &&& 0 <= n < self.check@.len()
        &&& 0 <= p < qk
        &&& self.base@[n] >= 1
        &&& 0 <= x - self.base@[n] < 256
        &&& exists|j: int|
            0 <= j < kv[p].len() && (#[trigger] kv[p][j]) == ((x - self.base@[n]) as u8, self.own@[x] as usize)
    }

    /// The slot `x` points at its node's values in the pool.
    spec fn output_ok(&self, vv: Seq<Seq<u32>>, qv: int, x: int) -> bool {
        let o = self.output@[x] as int;
        let m = self.own@[x];
        &&& 0 <= m < qv
        &&& vv[m].len() > 0
        &&& o + 1 + vv[m].len() <= self.pool@.len()
        &&& self.pool@[o] == vv[m].len()
        &&& self.pool@.subrange(o + 1, o + 1 + vv[m].len()) == vv[m]
    }

    /// The nodes before `qv` have their values stored, those before `qk` their children placed.
    spec fn ok(&self, kv: Seq<Seq<(u8, usize)>>, vv: Seq<Seq<u32>>, qv: int, qk: int) -> bool {
        let s = self.check@.len();
        let n = kv.len();
        &&& self.base@.len() == s
        &&& self.output@.len() == s
        &&& self.own@.len() == s
        &&& self.da@.len() == n
        &&& vv.len() == n
        &&& 0 <= qk <= qv <= n
        &&& qv <= qk + 1
        &&& 1 <= s
        &&& 1 <= n
        &&& self.own@[0] == 0
        &&& self.da@[0] == 0
        &&& forall|x: int|
            0 <= x < s ==> -1 <= #[trigger] self.own@[x] < n && (self.own@[x] >= 0 <==> (x == 0 || self.check@[x] >= 0))
        &&& forall|m: int| 0 <= m <= qk && m < n ==> (#[trigger] self.da@[m]) < s && self.own@[self.da@[m] as int] == m
        &&& forall|p: int, j: int| 0 <= p < qk && 0 <= j < kv[p].len() ==> #[trigger] self.kid_placed(kv, p, j)
        &&& forall|x: int| 0 <= x < s && #[trigger] self.base@[x] != 0 ==> 0 <= self.own@[x] < qk && kv[self.own@[x]].len() > 0
        &&& forall|x: int| 0 <= x < s && #[trigger] self.check@[x] >= 0 ==> self.slot_linked(kv, qk, x)
        &&& forall|x: int| 0 <= x < s && #[trigger] self.output@[x] != u32::MAX ==> self.output_ok(vv, qv, x)
        &&& forall|p: int| 0 <= p < qv && (#[trigger] vv[p]).len() > 0 ==> self.output@[self.da@[p] as int] != u32::MAX
        &&& self.pool@.len() <= qv + vals_total(vv, qv)
    }

    fn new(n: usize, Ghost(kv): Ghost<Seq<Seq<(u8, usize)>>>, Ghost(vv): Ghost<Seq<Seq<u32>>>) -> (r: Builder)
        requires
            1 <= n <= 0x1000_0000,
            kv.len() == n,
            vv.len() == n,
        ensures
            r.ok(kv, vv, 0, 0),
            r.check@.len() == 2 * n + 512,
    {
        let s = n * 2 + 512;
        let r = Builder {
            base: filled(s, 0i32),
            check: filled(s, -1i32),
            output: filled(s, u32::MAX),
            pool: Vec::new(),
            da: filled(n, 0usize),
            own: Ghost(Seq::new(s as nat, |x: int| if x == 0 { 0int } else { -1int })),
        };
        proof {
            assert(vals_total(vv, 0) == 0);
        }
        r
    }

    /// Extends the arrays to `len` slots with empty ones.
    fn grow_to(&mut self, len: usize, Ghost(kv): Ghost<Seq<Seq<(u8, usize)>>>, Ghost(vv): Ghost<Seq<Seq<u32>>>, Ghost(qv): Ghost<int>, Ghost(qk): Ghost<int>)
        requires
            old(self).ok(kv, vv, qv, qk),
        ensures
            final(self).ok(kv, vv, qv, qk),
            final(self).check@.len() == if len > old(self).check@.len() { len as int } else { old(self).check@.len() as int },
            forall|x: int| 0 <= x < old(self).check@.len() ==> final(self).check@[x] == old(self).check@[x] && final(self).own@[x] == old(self).own@[x],
            forall|x: int| old(self).check@.len() <= x < final(self).check@.len() ==> final(self).own@[x] == -1,
    {
        while self.check.len() < len
            invariant
                self.ok(kv, vv, qv, qk),
                old(self).check@.len() <= self.check@.len(),
                self.check@.len() <= len || self.check@.len() == old(self).check@.len(),
                forall|x: int| 0 <= x < old(self).check@.len() ==> self.check@[x] == old(self).check@[x],
                forall|x: int| 0 <= x < old(self).check@.len() ==> self.own@[x] == old(self).own@[x],
                forall|x: int| old(self).check@.len() <= x < self.check@.len() ==> self.own@[x] == -1,
            decreases len - self.check@.len(),
        {
            let ghost b0 = *self;
            self.base.push(0);
            self.check.push(-1);
            self.output.push(u32::MAX);
            self.own = Ghost(self.own@.push(-1));
            proof {
                let s0 = b0.check@.len() as int;
                assert(self.own@ == b0.own@.push(-1));
                assert forall|x: int| 0 <= x < old(self).check@.len() implies self.check@[x] == old(self).check@[x] && self.own@[x] == old(self).own@[x] by {
                    assert(self.own@[x] == b0.own@[x]);
                    assert(self.check@[x] == b0.check@[x]);
                }
                assert forall|p: int, j: int| 0 <= p < qk && 0 <= j < kv[p].len() implies #[trigger] self.kid_placed(kv, p, j) by {
                    assert(b0.kid_placed(kv, p, j));
                }
                assert forall|x: int| 0 <= x < self.check@.len() && #[trigger] self.check@[x] >= 0 implies self.slot_linked(kv, qk, x) by {
                    assert(x < s0);
                    assert(b0.check@[x] >= 0);
                    assert(b0.slot_linked(kv, qk, x));
                    let n = b0.check@[x] as int;
                    let j = choose|j: int| 0 <= j < kv[b0.own@[n]].len() && (#[trigger] kv[b0.own@[n]][j]) == ((x - b0.base@[n]) as u8, b0.own@[x] as usize);
                    assert(kv[self.own@[n]][j] == ((x - self.base@[n]) as u8, self.own@[x] as usize));
                }
                assert forall|x: int| 0 <= x < self.check@.len() && #[trigger] self.output@[x] != u32::MAX implies self.output_ok(vv, qv, x) by {
                    assert(x < s0);
                    assert(b0.output@[x] != u32::MAX);
                    assert(b0.output_ok(vv, qv, x));
                }
                assert forall|x: int| 0 <= x < self.check@.len() && #[trigger] self.base@[x] != 0 implies 0 <= self.own@[x] < qk && kv[self.own@[x]].len() > 0 by {
                    assert(x < s0);
                    assert(b0.base@[x] != 0);
                }
            }
        }
    }

    /// Stores the values of node `q` in the pool and points its slot at them.
    fn store_values(&mut self, q: usize, vals: &Vec<u32>, Ghost(kv): Ghost<Seq<Seq<(u8, usize)>>>, Ghost(vv): Ghost<Seq<Seq<u32>>>)
        requires
            old(self).ok(kv, vv, q as int, q as int),
            q < kv.len(),
            vv[q as int] == vals@,
            vals@.len() > 0,
            q + 1 + vals_total(vv, q + 1) < u32::MAX,
        ensures
            final(self).ok(kv, vv, q + 1, q as int),
            final(self).check@ == old(self).check@,
            final(self).own@ == old(self).own@,
    {
        let ghost b0 = *self;
        let x = self.da[q];
        let o = self.pool.len();
        proof {
            assert(vals_total(vv, q + 1) == vals_total(vv, q as int) + vv[q as int].len());
        }
        self.output.set(x, o as u32);
        self.pool.push(vals.len() as u32);
        let mut i: usize = 0;
        while i < vals.len()
            invariant
                i <= vals@.len(),
                self.pool@ == b0.pool@.push(vals@.len() as u32) + vals@.take(i as int),
                self.output@ == b0.output@.update(x as int, o as u32),
                self.base@ == b0.base@,
                self.check@ == b0.check@,
                self.own@ == b0.own@,
                self.da@ == b0.da@,
            decreases vals@.len() - i,
        {
            self.pool.push(vals[i]);
            proof {
                assert(vals@.take(i + 1) =~= vals@.take(i as int).push(vals@[i as int]));
            }
            i = i + 1;
        }
        proof {
            let len = vals@.len() as int;
            assert(vals@.take(len) =~= vals@);
            assert(self.pool@.len() == o + 1 + len);
            assert(self.pool@[o as int] == len);
            assert(self.pool@.subrange(o + 1, o + 1 + len) =~= vals@);
            assert(b0.own@[x as int] == q);
            assert forall|p: int, j: int| 0 <= p < q && 0 <= j < kv[p].len() implies #[trigger] self.kid_placed(kv, p, j) by {
                assert(b0.kid_placed(kv, p, j));
            }
            assert forall|y: int| 0 <= y < self.check@.len() && #[trigger] self.check@[y] >= 0 implies self.slot_linked(kv, q as int, y) by {
                assert(b0.slot_linked(kv, q as int, y));
            }
            assert forall|y: int| 0 <= y < self.check@.len() && #[trigger] self.output@[y] != u32::MAX implies self.output_ok(vv, q + 1, y) by {
                if y != x {
                    assert(b0.output@[y] != u32::MAX);
                    assert(b0.output_ok(vv, q as int, y));
                    let oy = b0.output@[y] as int;
                    let m = b0.own@[y];
                    assert(self.pool@.subrange(oy + 1, oy + 1 + vv[m].len()) =~= b0.pool@.subrange(oy + 1, oy + 1 + vv[m].len()));
                }
            }
            assert forall|p: int| 0 <= p < q + 1 && (#[trigger] vv[p]).len() > 0 implies self.output@[self.da@[p] as int] != u32::MAX by {
                if p < q {
                    assert(b0.output@[b0.da@[p] as int] != u32::MAX);
                }
            }
            assert forall|y: int| 0 <= y < self.check@.len() && #[trigger] self.base@[y] != 0 implies 0 <= self.own@[y] < q && kv[self.own@[y]].len() > 0 by {
                assert(b0.base@[y] != 0);
            }
        }
    }

    /// Whether every child label of `kids` finds a free slot at base `b`.
    fn fits_at(&self, kids: &Vec<(u8, usize)>, b: usize) -> (r: bool)
        requires
            b + 256 <= usize::MAX,
        ensures
            r == forall|j: int| 0 <= j < kids@.len() ==> slot_free(self.check@, b + (#[trigger] kids@[j]).0),
    {
        let mut j: usize = 0;
        while j < kids.len()
            invariant
                j <= kids@.len(),
                b + 256 <= usize::MAX,
                forall|k: int| 0 <= k < j ==> slot_free(self.check@, b + (#[trigger] kids@[k]).0),
            decreases kids@.len() - j,
        {
            let x = b + kids[j].0 as usize;
            if x < self.check.len() && (x == 0 || self.check[x] >= 0) {
                return false;
            }
            j = j + 1;
        }
        true
    }

    /// The first base from the lowest free slot on at which all children find free slots.
    fn find_base(&self, kids: &Vec<(u8, usize)>, first_free: usize) -> (b: usize)
        requires
            1 <= self.check@.len() <= i32::MAX,
            first_free <= self.check@.len(),
            kids@.len() > 0,
        ensures
            1 <= b <= self.check@.len(),
            forall|j: int| 0 <= j < kids@.len() ==> slot_free(self.check@, b + (#[trigger] kids@[j]).0),
    {
        let mut min_label: u8 = kids[0].0;
        let mut j: usize = 1;
        while j < kids.len()
            invariant
                1 <= j <= kids@.len(),
            decreases kids@.len() - j,
        {
            if kids[j].0 < min_label {
                min_label = kids[j].0;
            }
            j = j + 1;
        }
        let mut b: usize = if first_free > min_label as usize {
            first_free - min_label as usize
        } else {
            1
        };
        loop
            invariant
                1 <= b <= self.check@.len(),
                self.check@.len() <= i32::MAX,
            decreases self.check@.len() - b,
        {
            if self.fits_at(kids, b) {
                return b;
            }
            proof {
                if b == self.check@.len() {
                    assert forall|j: int| 0 <= j < kids@.len() implies slot_free(self.check@, b + (#[trigger] kids@[j]).0) by {}
                }
            }
            b = b + 1;
        }
    }

    /// The first slot from `from` on that is free, or the end of the arrays.
    fn next_free(&self, from: usize) -> (r: usize)
        requires
            from <= self.check@.len(),
        ensures
            from <= r <= self.check@.len(),
    {
        let mut x = from;
        while x < self.check.len() && (x == 0 || self.check[x] >= 0)
            invariant
                from <= x <= self.check@.len(),
            decreases self.check@.len() - x,
        {
            x = x + 1;
        }
        x
    }
}

/// Slot `x` is taken by one of the first `k` children at base `b`.
spec fn is_kid_slot(kids: Seq<(u8, usize)>, b: int, x: int, k: int) -> bool {
    exists|j: int| 0 <= j < k && x == b + (#[trigger] kids[j]).0
}

/// Node `m` is one of the first `k` children.
spec fn is_kid_node(kids: Seq<(u8, usize)>, m: int, k: int) -> bool {
    exists|j: int| 0 <= j < k && m == (#[trigger] kids[j]).1
}

impl Builder {
    /// Gives node `q` the base `b` and places its children at `b` plus their labels.
    #[verifier::rlimit(60)]
    fn place_kids(
        &mut self,
        q: usize,
        kids: &Vec<(u8, usize)>,
        b: usize,
        Ghost(kv): Ghost<Seq<Seq<(u8, usize)>>>,
        Ghost(vv): Ghost<Seq<Seq<u32>>>,
        Ghost(paths): Ghost<Seq<Seq<u8>>>,
    )
        requires
            old(self).ok(kv, vv, q + 1, q as int),
            tree_ok(kv, paths),
            q < kv.len(),
            kids@ == kv[q as int],
            kids@.len() > 0,
            1 <= b,
            old(self).check@.len() <= i32::MAX,
            forall|j: int|
                0 <= j < kids@.len() ==> b + (#[trigger] kids@[j]).0 < old(self).check@.len() && old(self).own@[b + kids@[j].0] == -1,
        ensures
            final(self).ok(kv, vv, q + 1, q + 1),
            final(self).check@.len() == old(self).check@.len(),
    {
        let ghost b0 = *self;
        let ghost sz = b0.check@.len() as int;
        let ghost n = kv.len() as int;
        let p = self.da[q];
        proof {
            assert(b0.own@[p as int] == q);
        }
        self.base.set(p, b as i32);
        let mut j: usize = 0;
        while j < kids.len()
            invariant
                b0.ok(kv, vv, q + 1, q as int),
                tree_ok(kv, paths),
                q < kv.len(),
                n == kv.len(),
                sz == b0.check@.len(),
                kids@ == kv[q as int],
                p == b0.da@[q as int],
                p < sz,
                sz <= i32::MAX,
                1 <= b,
                j <= kids@.len(),
                forall|k: int| 0 <= k < kids@.len() ==> b + (#[trigger] kids@[k]).0 < sz && b0.own@[b + kids@[k].0] == -1,
                self.base@ == b0.base@.update(p as int, b as i32),
                self.output@ == b0.output@,
                self.pool@ == b0.pool@,
                self.check@.len() == sz,
                self.own@.len() == sz,
                self.da@.len() == n,
                forall|k: int|
                    0 <= k < j ==> {
                        let x = b + (#[trigger] kids@[k]).0;
                        &&& self.check@[x] == p
                        &&& self.own@[x] == kids@[k].1
                        &&& self.da@[kids@[k].1 as int] == x
                    },
                forall|x: int| 0 <= x < sz && !is_kid_slot(kids@, b as int, x, j as int) ==> #[trigger] self.check@[x] == b0.check@[x],
                forall|x: int| 0 <= x < sz && !is_kid_slot(kids@, b as int, x, j as int) ==> #[trigger] self.own@[x] == b0.own@[x],
                forall|m: int| 0 <= m < n && !is_kid_node(kids@, m, j as int) ==> #[trigger] self.da@[m] == b0.da@[m],
            decreases kids@.len() - j,
        {
            let (l, c) = kids[j];
            let x = b + l as usize;
            proof {
                assert(kv[q as int][j as int] == (l, c));
                assert(q < c < n);
                assert forall|k: int| 0 <= k < j implies (#[trigger] kids@[k]).0 != l && kids@[k].1 != c by {
                    assert(kv[q as int][k].0 != kv[q as int][j as int].0);
                    if kids@[k].1 == c {
                        lemma_one_parent(kv, paths, q as int, k, q as int, j as int);
                    }
                }
            }
            let ghost prev = *self;
            self.check.set(x, p as i32);
            self.da.set(c, x);
            self.own = Ghost(self.own@.update(x as int, c as int));
            proof {
                assert forall|y: int| 0 <= y < sz && !is_kid_slot(kids@, b as int, y, j + 1) implies #[trigger] self.check@[y] == b0.check@[y] && self.own@[y] == b0.own@[y] by {
                    assert(y != x);
                    assert(self.check@[y] == prev.check@[y]);
                    assert(self.own@[y] == prev.own@[y]);
                    if is_kid_slot(kids@, b as int, y, j as int) {
                        let k = choose|k: int| 0 <= k < j && y == b + (#[trigger] kids@[k]).0;
                        assert(is_kid_slot(kids@, b as int, y, j + 1));
                    }
                }
                assert forall|m: int| 0 <= m < n && !is_kid_node(kids@, m, j + 1) implies #[trigger] self.da@[m] == b0.da@[m] by {
                    assert(m != c);
                    assert(self.da@[m] == prev.da@[m]);
                    if is_kid_node(kids@, m, j as int) {
                        let k = choose|k: int| 0 <= k < j && m == (#[trigger] kids@[k]).1;
                        assert(is_kid_node(kids@, m, j + 1));
                    }
                }
            }
            j = j + 1;
        }
        proof {
            let kq = kids@;
            let nb = b as int;
            // slots of the children were free, so no old node sits in them
            assert forall|y: int| 0 <= y < sz && b0.own@[y] >= 0 implies !is_kid_slot(kq, nb, y, kq.len() as int) by {
                if is_kid_slot(kq, nb, y, kq.len() as int) {
                    let k = choose|k: int| 0 <= k < kq.len() && y == nb + (#[trigger] kq[k]).0;
                }
            }
            // nodes up to q are not children of q
            assert forall|m: int| 0 <= m <= q implies !is_kid_node(kq, m, kq.len() as int) by {
                if is_kid_node(kq, m, kq.len() as int) {
                    let k = choose|k: int| 0 <= k < kq.len() && m == (#[trigger] kq[k]).1;
                    assert(kv[q as int][k].1 > q);
                }
            }
            assert(self.own@[0] == 0) by {
                assert(b0.own@[0] >= 0);
            }
            assert(self.da@[0] == 0) by {
                assert(!is_kid_node(kq, 0, kq.len() as int));
            }
            assert forall|y: int|
                0 <= y < sz implies -1 <= #[trigger] self.own@[y] < n && (self.own@[y] >= 0 <==> (y == 0 || self.check@[y] >= 0)) by {
                if is_kid_slot(kq, nb, y, kq.len() as int) {
                    let k = choose|k: int| 0 <= k < kq.len() && y == nb + (#[trigger] kq[k]).0;
                    assert(kv[q as int][k].1 < n);
                } else {
                    assert(b0.own@[y] == self.own@[y]);
                }
            }
            assert forall|m: int| 0 <= m <= q + 1 && m < n implies (#[trigger] self.da@[m]) < sz && self.own@[self.da@[m] as int] == m by {
                if m <= q {
                    assert(!is_kid_node(kq, m, kq.len() as int));
                    assert(self.da@[m] == b0.da@[m]);
                    let y = b0.da@[m] as int;
                    assert(b0.own@[y] == m);
                    assert(!is_kid_slot(kq, nb, y, kq.len() as int));
                } else {
                    let (pp, jj) = lemma_parent_of(kv, paths, m);
                    if pp == q {
                        assert(kq[jj].1 == m);
                    } else {
                        assert(b0.kid_placed(kv, pp, jj));
                        if is_kid_node(kq, m, kq.len() as int) {
                            let k = choose|k: int| 0 <= k < kq.len() && m == (#[trigger] kq[k]).1;
                            lemma_one_parent(kv, paths, pp, jj, q as int, k);
                        }
                        let y = b0.da@[m] as int;
                        assert(b0.own@[y] == m);
                        assert(!is_kid_slot(kq, nb, y, kq.len() as int));
                    }
                }
            }
            assert forall|pp: int, jj: int| 0 <= pp < q + 1 && 0 <= jj < kv[pp].len() implies #[trigger] self.kid_placed(kv, pp, jj) by {
                if pp == q {
                    assert(kq[jj] == kv[pp][jj]);
                    assert(self.da@[pp] == p) by {
                        assert(!is_kid_node(kq, pp, kq.len() as int));
                    }
                } else {
                    assert(b0.kid_placed(kv, pp, jj));
                    let cc = kv[pp][jj].1 as int;
                    assert(self.da@[pp] == b0.da@[pp]) by {
                        assert(!is_kid_node(kq, pp, kq.len() as int));
                    }
                    assert(b0.own@[b0.da@[pp] as int] == pp);
                    assert(b0.da@[pp] != p);
                    if is_kid_node(kq, cc, kq.len() as int) {
                        let k = choose|k: int| 0 <= k < kq.len() && cc == (#[trigger] kq[k]).1;
                        lemma_one_parent(kv, paths, pp, jj, q as int, k);
                    }
                    assert(self.da@[cc] == b0.da@[cc]);
                    let y = b0.da@[cc] as int;
                    assert(!is_kid_slot(kq, nb, y, kq.len() as int));
                }
            }
            assert forall|y: int| 0 <= y < sz && #[trigger] self.base@[y] != 0 implies 0 <= self.own@[y] < q + 1 && kv[self.own@[y]].len() > 0 by {
                if y == p {
                    assert(!is_kid_slot(kq, nb, y, kq.len() as int));
                } else {
                    assert(b0.base@[y] != 0);
                    assert(!is_kid_slot(kq, nb, y, kq.len() as int));
                }
            }
            assert forall|y: int| 0 <= y < sz && #[trigger] self.check@[y] >= 0 implies self.slot_linked(kv, q + 1, y) by {
                if is_kid_slot(kq, nb, y, kq.len() as int) {
                    let k = choose|k: int| 0 <= k < kq.len() && y == nb + (#[trigger] kq[k]).0;
                    assert(self.check@[y] == p);
                    assert(!is_kid_slot(kq, nb, p as int, kq.len() as int));
                    assert(self.own@[p as int] == q);
                    assert(self.base@[p as int] == b);
                    assert(kv[q as int][k] == ((y - nb) as u8, self.own@[y] as usize));
                } else {
                    assert(b0.check@[y] >= 0);
                    assert(b0.slot_linked(kv, q as int, y));
                    let nn = b0.check@[y] as int;
                    let pp = b0.own@[nn];
                    assert(!is_kid_slot(kq, nb, nn, kq.len() as int));
                    assert(nn != p);
                    let k = choose|k: int| 0 <= k < kv[pp].len() && (#[trigger] kv[pp][k]) == ((y - b0.base@[nn]) as u8, b0.own@[y] as usize);
                    assert(kv[self.own@[nn]][k] == ((y - self.base@[nn]) as u8, self.own@[y] as usize));
                }
            }
            assert forall|y: int| 0 <= y < sz && #[trigger] self.output@[y] != u32::MAX implies self.output_ok(vv, q + 1, y) by {
                assert(b0.output_ok(vv, q + 1, y));
                assert(!is_kid_slot(kq, nb, y, kq.len() as int));
            }
            assert forall|pp: int| 0 <= pp < q + 1 && (#[trigger] vv[pp]).len() > 0 implies self.output@[self.da@[pp] as int] != u32::MAX by {
                assert(!is_kid_node(kq, pp, kq.len() as int));
                assert(b0.output@[b0.da@[pp] as int] != u32::MAX);
            }
        }
    }
}

/// Node `q` without values: nothing to store.
proof fn lemma_no_values(bl: Builder, kv: Seq<Seq<(u8, usize)>>, vv: Seq<Seq<u32>>, q: int)
    requires
        bl.ok(kv, vv, q, q),
        q < kv.len(),
        vv[q].len() == 0,
    ensures
        bl.ok(kv, vv, q + 1, q),
{
    assert(vals_total(vv, q + 1) == vals_total(vv, q));
    assert forall|x: int| 0 <= x < bl.check@.len() && #[trigger] bl.output@[x] != u32::MAX implies bl.output_ok(vv, q + 1, x) by {
        assert(bl.output_ok(vv, q, x));
    }
}

/// Node `q` without children: nothing to place.
proof fn lemma_no_kids(bl: Builder, kv: Seq<Seq<(u8, usize)>>, vv: Seq<Seq<u32>>, paths: Seq<Seq<u8>>, q: int)
    requires
        bl.ok(kv, vv, q + 1, q),
        tree_ok(kv, paths),
        q < kv.len(),
        kv[q].len() == 0,
    ensures
        bl.ok(kv, vv, q + 1, q + 1),
{
    assert forall|x: int| 0 <= x < bl.check@.len() && #[trigger] bl.check@[x] >= 0 implies bl.slot_linked(kv, q + 1, x) by {
        assert(bl.slot_linked(kv, q, x));
    }
    if q + 1 < kv.len() {
        let (p, j) = lemma_parent_of(kv, paths, q + 1);
        assert(p < q);
        assert(bl.kid_placed(kv, p, j));
    }
}

/// The largest child label.
fn max_label(kids: &Vec<(u8, usize)>) -> (m: u8)
    ensures
        forall|j: int| 0 <= j < kids@.len() ==> (#[trigger] kids@[j]).0 <= m,
{
    let mut m: u8 = 0;
    let mut j: usize = 0;
    while j < kids.len()
        invariant
            j <= kids@.len(),
            forall|k: int| 0 <= k < j ==> (#[trigger] kids@[k]).0 <= m,
        decreases kids@.len() - j,
    {
        if kids[j].0 > m {
            m = kids[j].0;
        }
        j = j + 1;
    }
    m
}

impl Builder {
    /// Stores the values of node `q`, then gives it a base and places its children.
    fn place_node(
        &mut self,
        first_free: &mut usize,
        q: usize,
        kids: &Vec<(u8, usize)>,
        vals: &Vec<u32>,
        Ghost(kv): Ghost<Seq<Seq<(u8, usize)>>>,
        Ghost(vv): Ghost<Seq<Seq<u32>>>,
        Ghost(paths): Ghost<Seq<Seq<u8>>>,
    )
        requires
            old(self).ok(kv, vv, q as int, q as int),
            tree_ok(kv, paths),
            q < kv.len(),
            kids@ == kv[q as int],
            vals@ == vv[q as int],
            kv.len() + vals_total(vv, kv.len() as int) < u32::MAX,
            old(self).check@.len() + 256 <= i32::MAX,
            *old(first_free) <= old(self).check@.len(),
        ensures
            final(self).ok(kv, vv, q + 1, q + 1),
            final(self).check@.len() <= old(self).check@.len() + 256,
            *final(first_free) <= final(self).check@.len(),
    {
        if vals.len() > 0 {
            proof {
                lemma_vals_total_mono(vv, q + 1, kv.len() as int);
            }
            self.store_values(q, vals, Ghost(kv), Ghost(vv));
        } else {
            proof {
                lemma_no_values(*self, kv, vv, q as int);
            }
        }
        if kids.len() > 0 {
            let b = self.find_base(kids, *first_free);
            let m = max_label(kids);
            let ghost bg = *self;
            self.grow_to(b + m as usize + 1, Ghost(kv), Ghost(vv), Ghost(q + 1), Ghost(q as int));
            proof {
                assert forall|k: int| 0 <= k < kids@.len() implies b + (#[trigger] kids@[k]).0 < self.check@.len()
                    && self.own@[b + kids@[k].0] == -1 by {
                    let x = b + kids@[k].0;
                    assert(slot_free(bg.check@, x));
                    if x < bg.check@.len() {
                        assert(bg.own@[x] >= -1);
                    }
                }
            }
            self.place_kids(q, kids, b, Ghost(kv), Ghost(vv), Ghost(paths));
            *first_free = self.next_free(*first_free);
        } else {
            proof {
                lemma_no_kids(*self, kv, vv, paths, q as int);
            }
        }
    }
}

impl Builder {
    /// What the walks need of a builder that has placed every node.
    spec fn walk_ready(&self, kv: Seq<Seq<(u8, usize)>>) -> bool {
        let n = kv.len();
        let s = self.check@.len();
        &&& self.base@.len() == s
        &&& self.da@.len() == n
        &&& self.da@[0] == 0
        &&& forall|m: int| 0 <= m < n ==> (#[trigger] self.da@[m]) < s && self.own@[self.da@[m] as int] == m
        &&& forall|p: int, j: int| 0 <= p < n && 0 <= j < kv[p].len() ==> #[trigger] self.kid_placed(kv, p, j)
        &&& forall|x: int| 0 <= x < s && #[trigger] self.check@[x] >= 0 ==> self.slot_linked(kv, n as int, x)
    }
}

/// Once every node is placed, the walk by a byte string reaches exactly the slot of the node
/// with that path.
proof fn lemma_walk_nodes(bl: Builder, kv: Seq<Seq<(u8, usize)>>, paths: Seq<Seq<u8>>, s: Seq<u8>)
    requires
        bl.walk_ready(kv),
        tree_ok(kv, paths),
    ensures
        walk(bl.base@, bl.check@, s) is Some ==> exists|m: int| 0 <= m < kv.len() && #[trigger] paths[m] == s,
        forall|m: int| 0 <= m < kv.len() && #[trigger] paths[m] == s ==> walk(bl.base@, bl.check@, s) == Some(bl.da@[m] as int),
    decreases s.len(),
{
    let n = kv.len() as int;
    if s.len() == 0 {
        assert(paths[0] == s);
        assert forall|m: int| 0 <= m < n && #[trigger] paths[m] == s implies walk(bl.base@, bl.check@, s) == Some(bl.da@[m] as int) by {
            if m != 0 {
                assert(paths[0] != paths[m]);
            }
        }
    } else {
        let s1 = s.drop_last();
        let c = s.last();
        lemma_walk_nodes(bl, kv, paths, s1);
        assert(s1.push(c) =~= s);
        assert forall|m: int| 0 <= m < n && #[trigger] paths[m] == s implies walk(bl.base@, bl.check@, s) == Some(bl.da@[m] as int) by {
            assert(m != 0);
            let (p, j) = lemma_parent_of(kv, paths, m);
            let e = kv[p][j];
            assert(paths[m] == paths[p].push(e.0));
            assert(paths[p] =~= s1);
            assert(e.0 == c);
            assert(bl.kid_placed(kv, p, j));
            assert(bl.da@[p] < bl.check@.len());
        }
        if walk(bl.base@, bl.check@, s) is Some {
            let nn = walk(bl.base@, bl.check@, s1)->0;
            let m1 = choose|m: int| 0 <= m < n && #[trigger] paths[m] == s1;
            assert(nn == bl.da@[m1] as int);
            let x = bl.base@[nn] + c;
            assert(bl.check@[x] == nn);
            assert(bl.slot_linked(kv, n, x));
            assert(bl.own@[nn] == m1);
            let j = choose|j: int| 0 <= j < kv[m1].len() && (#[trigger] kv[m1][j]) == ((x - bl.base@[nn]) as u8, bl.own@[x] as usize);
            let cc = kv[m1][j].1 as int;
            assert(paths[cc] == paths[m1].push(c));
            assert(paths[cc] == s);
        }
    }
}

/// Dropping trailing slots that no transition reaches leaves every walk as it was.
proof fn lemma_walk_take(base: Seq<i32>, check: Seq<i32>, len: int, s: Seq<u8>)
    requires
        base.len() == check.len(),
        1 <= len <= check.len(),
        forall|x: int| len <= x < check.len() ==> #[trigger] check[x] < 0,
    ensures
        walk(base.take(len), check.take(len), s) == walk(base, check, s),
        walk(base, check, s) matches Some(x) ==> 0 <= x < len,
    decreases s.len(),
{
    if s.len() > 0 {
        lemma_walk_take(base, check, len, s.drop_last());
        match walk(base, check, s.drop_last()) {
            Some(nn) => {
                let x = base[nn] + s.last();
                if base[nn] > 0 && x < check.len() && x >= len {
                    assert(check[x] < 0);
                }
            },
            None => {},
        }
    }
}

impl DoubleArrayTrie {
    /// Builds the trie of `entries` (key bytes and value); a key given more than once keeps all
    /// its values in entry order.
    pub fn build(entries: &[(&[u8], u32)]) -> (t: Self)
        requires
            build_fits(entries_view(entries@)),
        ensures
            t@ == entries_map(entries_view(entries@)),
    {
        Self::build_with_progress(entries, |_done: usize, _total: usize| {})
    }

    /// [`DoubleArrayTrie::build`], calling `progress(processed, total)` after every 10 000 nodes
    /// placed out of `total`.
    #[verifier::rlimit(40)]
    pub fn build_with_progress(entries: &[(&[u8], u32)], mut progress: impl FnMut(usize, usize)) -> (t: Self)
        requires
            build_fits(entries_view(entries@)),
            forall|a: usize, b: usize| call_requires(progress, (a, b)),
        ensures
            t@ == entries_map(entries_view(entries@)),
    {
        let ghost es = entries_view(entries@);
        let (kids, vals, Ghost(paths)) = build_nodes(entries);
        let ghost kv = kids_view(kids@);
        let ghost vv = vals_view(vals@);
        let n = kids.len();
        proof {
            assert(n <= 8_000_001);
        }
        let mut bl = Builder::new(n, Ghost(kv), Ghost(vv));
        let mut first_free: usize = 1;
        let mut q: usize = 0;
        while q < n
            invariant
                n == kids@.len(),
                n == vals@.len(),
                1 <= n <= 8_000_001,
                kv == kids_view(kids@),
                vv == vals_view(vals@),
                tree_ok(kv, paths),
                vals_total(vv, n as int) == entries@.len(),
                entries@.len() <= 0x1000_0000,
                q <= n,
                bl.ok(kv, vv, q as int, q as int),
                bl.check@.len() <= 2 * n + 512 + 256 * q,
                first_free <= bl.check@.len(),
                forall|a: usize, b: usize| call_requires(progress, (a, b)),
            decreases n - q,
        {
            bl.place_node(&mut first_free, q, &kids[q], &vals[q], Ghost(kv), Ghost(vv), Ghost(paths));
            let processed = q + 1;
            if processed % 10_000 == 0 {
                progress(processed, n);
            }
            q = q + 1;
        }
        let sz = bl.check.len();
        let mut len: usize = sz;
        while len > 1 && bl.check[len - 1] < 0
            invariant
                1 <= len <= sz,
                sz == bl.check@.len(),
                forall|x: int| len <= x < sz ==> #[trigger] bl.check@[x] < 0,
            decreases len,
        {
            len = len - 1;
        }
        let ghost full = bl;
        let Builder { mut base, mut check, mut output, pool, .. } = bl;
        base.truncate(len);
        check.truncate(len);
        output.truncate(len);
        proof {
            assert forall|x: int| 0 <= x < output@.len() && output@[x] != u32::MAX implies {
                let o = output@[x] as int;
                &&& o < pool@.len()
                &&& o + 1 + pool@[o] <= pool@.len()
            } by {
                assert(full.output@[x] != u32::MAX);
                assert(full.output_ok(vv, n as int, x));
            }
        }
        let t = DoubleArrayTrie { base, check, output, value_pool: pool };
        proof {
            assert(full.walk_ready(kv));
            let em = entries_map(es);
            assert forall|s: Seq<u8>| #[trigger] t@.contains_key(s) == em.contains_key(s) && (em.contains_key(s) ==> t@[s] == em[s]) by {
                lemma_walk_take(full.base@, full.check@, len as int, s);
                lemma_walk_nodes(full, kv, paths, s);
                assert(t.base@ == full.base@.take(len as int));
                assert(t.check@ == full.check@.take(len as int));
                if exists|m: int| 0 <= m < n && #[trigger] paths[m] == s {
                    let m = choose|m: int| 0 <= m < n && #[trigger] paths[m] == s;
                    let x = full.da@[m] as int;
                    assert(walk(t.base@, t.check@, s) == Some(x));
                    assert(full.own@[x] == m);
                    assert(vv[m] == entry_values(es, s, entries@.len() as int));
                    if vv[m].len() > 0 {
                        assert(full.output@[x] != u32::MAX);
                        assert(full.output_ok(vv, n as int, x));
                    } else if full.output@[x] != u32::MAX {
                        assert(full.output_ok(vv, n as int, x));
                    }
                } else {
                    assert(walk(t.base@, t.check@, s) is None);
                    assert(!em.contains_key(s));
                }
            }
            assert(t@ =~= em);
        }
        t
    }
}

} // verus!
