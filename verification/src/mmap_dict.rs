//! Rank queries over the bit sets of a memory-mapped dictionary.

use vstd::prelude::*;

verus! {

/// The number of set bits among the low `n` bits of `x`.
pub open spec fn popcount_low(x: u64, n: nat) -> nat
    decreases n,
{
    if n == 0 {
        0
    } else {
        popcount_low(x / 2, (n - 1) as nat) + (x % 2) as nat
    }
}

/// The number of set bits of `x`.
pub open spec fn popcount(x: u64) -> nat {
    popcount_low(x, 64)
}

proof fn lemma_popcount_low_le(x: u64, n: nat)
    ensures
        popcount_low(x, n) <= n,
    decreases n,
{
    if n > 0 {
        lemma_popcount_low_le(x / 2, (n - 1) as nat);
    }
}

/// The number of set bits of `x`.
fn count_ones(x: u64) -> (r: u32)
    ensures
        r == popcount(x),
{
    let mut y = x;
    let mut n: u32 = 0;
    let mut i: u32 = 0;
    while i < 64
        invariant
            i <= 64,
            n <= i,
            n + popcount_low(y, (64 - i) as nat) == popcount(x),
        decreases 64 - i,
    {
        n = n + (y % 2) as u32;
        y = y / 2;
        i = i + 1;
    }
    n
}

/// The set bits of the words `from..to` of `bits`.
pub open spec fn words_popcount(bits: Seq<u64>, from: int, to: int) -> int
    decreases to - from,
{
    if to <= from {
        0
    } else {
        words_popcount(bits, from, to - 1) + popcount(bits[to - 1])
    }
}

/// The mask of the low `b` bits.
pub open spec fn low_mask(b: u64) -> u64 {
    ((1u64 << b) - 1) as u64
}

/// rank(pos) of a bit set with a cumulative count per 512-bit block (`ranks[k]` = set bits
/// before block `k + 1`): the count before `pos`'s block, plus the set bits of its block's words
/// before `pos`'s word, plus the set bits of that word below `pos`.
pub open spec fn spec_rank(bits: Seq<u64>, ranks: Seq<u32>, pos: int) -> int {
    let block = pos / 512;
    let base: int = if block > 0 {
        ranks[block - 1] as int
    } else {
        0
    };
    let word = pos / 64;
    base + words_popcount(bits, block * 8, word) + if word < bits.len() {
        popcount(bits[word] & low_mask((pos % 64) as u64)) as int
    } else {
        0
    }
}

/// The number of set bits before `pos`, from the block counts `ranks` and the words of the
/// block that holds `pos`.
pub fn compute_rank(bits: &[u64], ranks: &[u32], pos: usize) -> (r: usize)
    requires
        pos / 512 > 0 ==> pos / 512 - 1 < ranks@.len(),
        pos / 64 <= bits@.len(),
        (if pos / 512 > 0 {
            ranks@[pos / 512 - 1] as int
        } else {
            0
        }) + 512 <= usize::MAX,
    ensures
        r == spec_rank(bits@, ranks@, pos as int),
{
    let block = pos / 512;
    let base: usize = if block > 0 {
        ranks[block - 1] as usize
    } else {
        0
    };
    let word_start = block * 8;
    let target_word = pos / 64;
    let bit_in_word = pos % 64;
    let mut r = base;
    let mut w = word_start;
    while w < target_word
        invariant
            word_start <= w <= target_word <= bits@.len(),
            target_word - word_start <= 8,
            r == base + words_popcount(bits@, word_start as int, w as int),
            words_popcount(bits@, word_start as int, w as int) <= 64 * (w - word_start),
            base + 512 <= usize::MAX,
        decreases target_word - w,
    {
        proof {
            lemma_popcount_low_le(bits@[w as int], 64);
        }
        r = r + count_ones(bits[w]) as usize;
        w = w + 1;
    }
    if target_word < bits.len() {
        let b = bit_in_word as u64;
        let mask = (1u64 << b).wrapping_sub(1);
        proof {
            assert(1u64 << b >= 1u64) by (bit_vector)
                requires
                    b < 64u64,
            ;
            assert(mask == low_mask(b));
            lemma_popcount_low_le(bits@[target_word as int] & mask, 64);
        }
        r = r + count_ones(bits[target_word] & mask) as usize;
    }
    r
}

} // verus!
