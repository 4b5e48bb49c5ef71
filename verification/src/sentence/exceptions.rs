//! Words that contain sentence enders (`モーニング娘。`, `Yahoo!ニュース`) and the matcher that
//! keeps the splitter from cutting them.

use vstd::prelude::*;
use vstd::utf8::encode_utf8;
use vstd::string::StringSliceAdditionalSpecFns;
use super::chars::{
    Script, fold_width, is_sentence_ender, script, spec_fold_width, spec_is_sentence_ender,
    spec_script,
};

verus! {

/// The built-in exception words, in byte order: names of groups, works and services that hold a
/// sentence ender.
pub open spec fn builtin_exception_list() -> Seq<&'static str> {
    seq![
        "Hey! Say! JUMP",
        "Hey!Say!JUMP",
        "Yahoo!",
        "Yahoo!ニュース",
        "けいおん!",
        "ご注文はうさぎですか?",
        "やはり俺の青春ラブコメはまちがっている。",
        "モーニング娘。",
    ]
}

/// The built-in exception words (one word each, in byte order).
pub fn builtin_exceptions() -> (r: Vec<&'static str>)
    ensures
        r@ == builtin_exception_list(),
{
    let mut v: Vec<&'static str> = Vec::new();
    v.push("Hey! Say! JUMP");
    v.push("Hey!Say!JUMP");
    v.push("Yahoo!");
    v.push("Yahoo!ニュース");
    v.push("けいおん!");
    v.push("ご注文はうさぎですか?");
    v.push("やはり俺の青春ラブコメはまちがっている。");
    v.push("モーニング娘。");
    assert(v@ =~= builtin_exception_list());
    v
}

/// Longest word (in characters) that the matcher uses; longer words are dropped.
pub const MAX_WORD_CHARS: usize = 256;
/// Most sentence enders a word may hold to be used by the matcher; words with more are dropped.
pub const MAX_WORD_ENDERS: usize = 16;

/// Number of sentence enders in `w`.
pub open spec fn count_enders(w: Seq<char>) -> nat
    decreases w.len(),
{
    if w.len() == 0 {
        0
    } else {
        count_enders(w.drop_last()) + if spec_is_sentence_ender(w.last()) {
            1nat
        } else {
            0nat
        }
    }
}

/// A word the matcher can use: it holds a sentence ender and stays within the limits.
pub open spec fn spec_is_matchable(w: Seq<char>) -> bool {
    &&& w.len() <= MAX_WORD_CHARS
    &&& count_enders(w) <= MAX_WORD_ENDERS
    &&& count_enders(w) > 0
}

proof fn lemma_count_enders_le(w: Seq<char>)
    ensures
        count_enders(w) <= w.len(),
    decreases w.len(),
{
    if w.len() > 0 {
        lemma_count_enders_le(w.drop_last());
    }
}

proof fn lemma_count_enders_mono(w: Seq<char>, i: int, j: int)
    requires
        0 <= i <= j <= w.len(),
    ensures
        count_enders(w.take(i)) <= count_enders(w.take(j)),
    decreases j - i,
{
    if i < j {
        lemma_count_enders_mono(w, i, j - 1);
        assert(w.take(j).drop_last() =~= w.take(j - 1));
    }
}

/// Whether the word can be used by the matcher.
pub fn is_matchable(word: &str) -> (r: bool)
    ensures
        r == spec_is_matchable(word@),
{
    let (cs, _) = crate::text::chars_and_offsets(word);
    is_matchable_chars(cs.as_slice())
}

/// Whether the word (as characters) can be used by the matcher.
pub fn is_matchable_chars(w: &[char]) -> (r: bool)
    ensures
        r == spec_is_matchable(w@),
{
    let mut k: usize = 0;
    let mut enders: usize = 0;
    while k < w.len()
        invariant
            k <= w.len(),
            enders == count_enders(w@.take(k as int)),
            k <= MAX_WORD_CHARS,
            enders <= MAX_WORD_ENDERS,
        decreases w.len() - k,
    {
        let e = is_sentence_ender(w[k]);
        proof {
            assert(w@.take(k + 1).drop_last() =~= w@.take(k as int));
        }
        if e {
            enders = enders + 1;
        }
        k = k + 1;
        if k > MAX_WORD_CHARS || enders > MAX_WORD_ENDERS {
            proof {
                lemma_count_enders_mono(w@, k as int, w@.len() as int);
                assert(w@.take(w@.len() as int) =~= w@);
            }
            return false;
        }
    }
    proof {
        assert(w@.take(w@.len() as int) =~= w@);
    }
    enders > 0
}

/// Characters of `t` starting at `q` spell `w`.
pub open spec fn starts_with_at(t: Seq<char>, q: int, w: Seq<char>) -> bool {
    0 <= q && q + w.len() <= t.len() && t.subrange(q, q + w.len()) == w
}

/// The particles that let a word ending in a sentence ender continue the sentence.
pub open spec fn spec_is_particle(c: char) -> bool {
    c == 'の' || c == 'は' || c == 'が' || c == 'を' || c == 'に' || c == 'と' || c == 'で' || c
        == 'も' || c == 'や' || c == 'へ'
}

/// The text at `q` starts with a word that continues the sentence after an exception word:
/// a particle, or `から まで より って など だけ しか さえ くらい ぐらい ほど として について`.
pub open spec fn starts_continuation(t: Seq<char>, q: int) -> bool {
    ||| (0 <= q < t.len() && spec_is_particle(t[q]))
    ||| starts_with_at(t, q, seq!['か', 'ら'])
    ||| starts_with_at(t, q, seq!['ま', 'で'])
    ||| starts_with_at(t, q, seq!['よ', 'り'])
    ||| starts_with_at(t, q, seq!['っ', 'て'])
    ||| starts_with_at(t, q, seq!['な', 'ど'])
    ||| starts_with_at(t, q, seq!['だ', 'け'])
    ||| starts_with_at(t, q, seq!['し', 'か'])
    ||| starts_with_at(t, q, seq!['さ', 'え'])
    ||| starts_with_at(t, q, seq!['く', 'ら', 'い'])
    ||| starts_with_at(t, q, seq!['ぐ', 'ら', 'い'])
    ||| starts_with_at(t, q, seq!['ほ', 'ど'])
    ||| starts_with_at(t, q, seq!['と', 'し', 'て'])
    ||| starts_with_at(t, q, seq!['に', 'つ', 'い', 'て'])
}

pub open spec fn spec_is_comma_like(c: char) -> bool {
    c == '、' || c == '，' || c == ',' || c == '､'
}

/// The text at `q` starts with a word that opens a new sentence:
/// `もう もし もちろん もっと とにかく ところで やはり しかし`, or `はい` followed by a comma.
pub open spec fn starts_sentence(t: Seq<char>, q: int) -> bool {
    ||| starts_with_at(t, q, seq!['も', 'う'])
    ||| starts_with_at(t, q, seq!['も', 'し'])
    ||| starts_with_at(t, q, seq!['も', 'ち', 'ろ', 'ん'])
    ||| starts_with_at(t, q, seq!['も', 'っ', 'と'])
    ||| starts_with_at(t, q, seq!['と', 'に', 'か', 'く'])
    ||| starts_with_at(t, q, seq!['と', 'こ', 'ろ', 'で'])
    ||| starts_with_at(t, q, seq!['や', 'は', 'り'])
    ||| starts_with_at(t, q, seq!['し', 'か', 'し'])
    ||| (starts_with_at(t, q, seq!['は', 'い']) && q + 2 < t.len() && spec_is_comma_like(
        t[q + 2],
    ))
}

/// After a word whose ender follows a hiragana (the shape of an ordinary sentence end), these
/// also open a new sentence: `でも では で、 とはいえ だけど`.
pub open spec fn starts_sentence_after_kana(t: Seq<char>, q: int) -> bool {
    ||| starts_with_at(t, q, seq!['で', 'も'])
    ||| starts_with_at(t, q, seq!['で', 'は'])
    ||| starts_with_at(t, q, seq!['で', '、'])
    ||| starts_with_at(t, q, seq!['と', 'は', 'い', 'え'])
    ||| starts_with_at(t, q, seq!['だ', 'け', 'ど'])
}

/// The character before the final sentence ender of the word is a hiragana.
pub open spec fn kana_before_end(w: Seq<char>) -> bool {
    w.len() >= 2 && spec_script(w[w.len() - 2]) == Script::Hiragana
}

/// After an exception word that ends in a sentence ender, the text at `q` continues the sentence.
pub open spec fn continues_after(t: Seq<char>, q: int, kana_end: bool) -> bool {
    &&& starts_continuation(t, q)
    &&& !starts_sentence(t, q)
    &&& !(kana_end && starts_sentence_after_kana(t, q))
}

/// The word `w` occurs in `t` at character `st` (comparing width-folded characters).
pub open spec fn occurs_at(t: Seq<char>, w: Seq<char>, st: int) -> bool {
    &&& 0 <= st
    &&& st + w.len() <= t.len()
    &&& forall|j: int|
        0 <= j < w.len() ==> spec_fold_width(t[st + j]) == spec_fold_width(#[trigger] w[j])
}

/// An occurrence whose first character continues a word of the same kind is the tail of a longer
/// word and does not count: a hiragana after kana or kanji, or a katakana, kanji or alphanumeric
/// after the same script.
pub open spec fn mid_word(prev: Script, first: Script) -> bool {
    ||| (first == Script::Hiragana && (prev == Script::Hiragana || prev == Script::Katakana
        || prev == Script::Kanji))
    ||| ((first == Script::Katakana || first == Script::Kanji || first == Script::Alphanumeric)
        && prev == first)
}

/// The occurrence of `w` at `st` counts: it is there and starts on a word boundary.
pub open spec fn counts_at(t: Seq<char>, w: Seq<char>, st: int) -> bool {
    &&& w.len() > 0
    &&& occurs_at(t, w, st)
    &&& (st == 0 || !mid_word(spec_script(t[st - 1]), spec_script(w[0])))
}

/// A counted occurrence of `w` has the character at `p` strictly inside it (not last).
pub open spec fn inside_at(t: Seq<char>, w: Seq<char>, p: int) -> bool {
    exists|st: int| #[trigger] counts_at(t, w, st) && st <= p && p + 1 < st + w.len()
}

/// A counted occurrence of `w` ends with the character at `p`.
pub open spec fn ends_at(t: Seq<char>, w: Seq<char>, p: int) -> bool {
    counts_at(t, w, p + 1 - w.len())
}

/// The sentence ender at `p` must not end a sentence: it lies inside a listed word, or ends one
/// and the text continues with a particle-like word.
pub open spec fn spec_guards(words: Seq<Seq<char>>, t: Seq<char>, p: int) -> bool {
    ||| exists|i: int| 0 <= i < words.len() && inside_at(t, #[trigger] words[i], p)
    ||| exists|i: int|
        0 <= i < words.len() && ends_at(t, #[trigger] words[i], p) && continues_after(
            t,
            p + 1,
            kana_before_end(words[i]),
        )
}

fn starts2(t: &[char], q: usize, a: char, b: char) -> (r: bool)
    ensures
        r == starts_with_at(t@, q as int, seq![a, b]),
{
    if q <= t.len() && t.len() - q >= 2 {
        let r = t[q] == a && t[q + 1] == b;
        proof {
            if r {
                assert(t@.subrange(q as int, q + 2) =~= seq![a, b]);
            } else if t@.subrange(q as int, q + 2) == seq![a, b] {
                assert(t@.subrange(q as int, q + 2)[0] == a);
                assert(t@.subrange(q as int, q + 2)[1] == b);
            }
        }
        r
    } else {
        false
    }
}

fn starts3(t: &[char], q: usize, a: char, b: char, c: char) -> (r: bool)
    ensures
        r == starts_with_at(t@, q as int, seq![a, b, c]),
{
    if q <= t.len() && t.len() - q >= 3 {
        let r = t[q] == a && t[q + 1] == b && t[q + 2] == c;
        proof {
            if r {
                assert(t@.subrange(q as int, q + 3) =~= seq![a, b, c]);
            } else if t@.subrange(q as int, q + 3) == seq![a, b, c] {
                assert(t@.subrange(q as int, q + 3)[0] == a);
                assert(t@.subrange(q as int, q + 3)[1] == b);
                assert(t@.subrange(q as int, q + 3)[2] == c);
            }
        }
        r
    } else {
        false
    }
}

fn starts4(t: &[char], q: usize, a: char, b: char, c: char, d: char) -> (r: bool)
    ensures
        r == starts_with_at(t@, q as int, seq![a, b, c, d]),
{
    if q <= t.len() && t.len() - q >= 4 {
        let r = t[q] == a && t[q + 1] == b && t[q + 2] == c && t[q + 3] == d;
        proof {
            if r {
                assert(t@.subrange(q as int, q + 4) =~= seq![a, b, c, d]);
            } else if t@.subrange(q as int, q + 4) == seq![a, b, c, d] {
                assert(t@.subrange(q as int, q + 4)[0] == a);
                assert(t@.subrange(q as int, q + 4)[1] == b);
                assert(t@.subrange(q as int, q + 4)[2] == c);
                assert(t@.subrange(q as int, q + 4)[3] == d);
            }
        }
        r
    } else {
        false
    }
}

/// Whether `c` is one of the particles that continue a sentence after an exception word.
pub fn is_particle(c: char) -> (r: bool)
    ensures
        r == spec_is_particle(c),
{
    c == 'の' || c == 'は' || c == 'が' || c == 'を' || c == 'に' || c == 'と' || c == 'で' || c
        == 'も' || c == 'や' || c == 'へ'
}

fn starts_continuation_exec(t: &[char], q: usize) -> (r: bool)
    ensures
        r == starts_continuation(t@, q as int),
{
    (q < t.len() && is_particle(t[q])) || starts2(t, q, 'か', 'ら') || starts2(t, q, 'ま', 'で')
        || starts2(t, q, 'よ', 'り') || starts2(t, q, 'っ', 'て') || starts2(t, q, 'な', 'ど')
        || starts2(t, q, 'だ', 'け') || starts2(t, q, 'し', 'か') || starts2(t, q, 'さ', 'え')
        || starts3(t, q, 'く', 'ら', 'い') || starts3(t, q, 'ぐ', 'ら', 'い') || starts2(
        t,
        q,
        'ほ',
        'ど',
    ) || starts3(t, q, 'と', 'し', 'て') || starts4(t, q, 'に', 'つ', 'い', 'て')
}

fn is_comma_like(c: char) -> (r: bool)
    ensures
        r == spec_is_comma_like(c),
{
    c == '、' || c == '，' || c == ',' || c == '､'
}

fn starts_sentence_exec(t: &[char], q: usize) -> (r: bool)
    ensures
        r == starts_sentence(t@, q as int),
{
    starts2(t, q, 'も', 'う') || starts2(t, q, 'も', 'し') || starts4(t, q, 'も', 'ち', 'ろ', 'ん')
        || starts3(t, q, 'も', 'っ', 'と') || starts4(t, q, 'と', 'に', 'か', 'く') || starts4(
        t,
        q,
        'と',
        'こ',
        'ろ',
        'で',
    ) || starts3(t, q, 'や', 'は', 'り') || starts3(t, q, 'し', 'か', 'し') || (starts2(
        t,
        q,
        'は',
        'い',
    ) && q < t.len() && t.len() - q > 2 && is_comma_like(t[q + 2]))
}

fn starts_sentence_after_kana_exec(t: &[char], q: usize) -> (r: bool)
    ensures
        r == starts_sentence_after_kana(t@, q as int),
{
    starts2(t, q, 'で', 'も') || starts2(t, q, 'で', 'は') || starts2(t, q, 'で', '、') || starts4(
        t,
        q,
        'と',
        'は',
        'い',
        'え',
    ) || starts3(t, q, 'だ', 'け', 'ど')
}

fn continues_after_exec(t: &[char], q: usize, kana_end: bool) -> (r: bool)
    ensures
        r == continues_after(t@, q as int, kana_end),
{
    starts_continuation_exec(t, q) && !starts_sentence_exec(t, q) && !(kana_end
        && starts_sentence_after_kana_exec(t, q))
}

fn occurs_at_exec(t: &[char], w: &[char], st: usize) -> (r: bool)
    ensures
        r == occurs_at(t@, w@, st as int),
{
    if st > t.len() || t.len() - st < w.len() {
        return false;
    }
    let mut j: usize = 0;
    while j < w.len()
        invariant
            j <= w.len(),
            st + w.len() <= t.len(),
            forall|k: int|
                0 <= k < j ==> spec_fold_width(t@[st + k]) == spec_fold_width(#[trigger] w@[k]),
        decreases w.len() - j,
    {
        if fold_width(t[st + j]) != fold_width(w[j]) {
            return false;
        }
        j = j + 1;
    }
    true
}

fn mid_word_exec(prev: Script, first: Script) -> (r: bool)
    ensures
        r == mid_word(prev, first),
{
    (first == Script::Hiragana && (prev == Script::Hiragana || prev == Script::Katakana || prev
        == Script::Kanji)) || ((first == Script::Katakana || first == Script::Kanji || first
        == Script::Alphanumeric) && prev == first)
}

fn counts_at_exec(t: &[char], w: &[char], st: usize) -> (r: bool)
    ensures
        r == counts_at(t@, w@, st as int),
{
    if w.len() == 0 || !occurs_at_exec(t, w, st) {
        return false;
    }
    st == 0 || !mid_word_exec(script(t[st - 1]), script(w[0]))
}

/// For one word and the sentence ender at `p`: (a counted occurrence has `p` inside it,
/// a counted occurrence ends at `p`).
fn word_covers(t: &[char], w: &[char], p: usize) -> (r: (bool, bool))
    requires
        p < t.len(),
    ensures
        r.0 == inside_at(t@, w@, p as int),
        r.1 == ends_at(t@, w@, p as int),
{
    let ends = w.len() >= 1 && w.len() - 1 <= p && counts_at_exec(t, w, p + 1 - w.len());
    if w.len() == 0 {
        return (false, false);
    }
    let mut j: usize = 0;
    while j < p + 1 && j < w.len() - 1
        invariant
            p < t.len(),
            j <= w.len(),
            w.len() > 0,
            ends == ends_at(t@, w@, p as int),
            forall|k: int|
                0 <= k < j ==> !#[trigger] counts_at(t@, w@, p - k),
        decreases w.len() - j,
    {
        if counts_at_exec(t, w, p - j) {
            proof {
                assert(counts_at(t@, w@, p - j) && p - j <= p && p + 1 < (p - j) + w@.len());
            }
            return (true, ends);
        }
        j = j + 1;
    }
    proof {
        assert forall|st: int| #[trigger] counts_at(t@, w@, st) && st <= p && p + 1 < st
            + w@.len() implies false by {
            let k = p - st;
            assert(0 <= k < j);
            assert(counts_at(t@, w@, p - k));
        }
    }
    (false, ends)
}

fn kana_before_end_exec(w: &[char]) -> (r: bool)
    ensures
        r == kana_before_end(w@),
{
    w.len() >= 2 && script(w[w.len() - 2]) == Script::Hiragana
}

/// The exception words and the matching against them.
#[derive(Clone, Debug)]
pub struct Matcher {
    words: Vec<Vec<char>>,
}

impl View for Matcher {
    type V = Seq<Seq<char>>;

    closed spec fn view(&self) -> Seq<Seq<char>> {
        Seq::new(self.words@.len(), |i: int| self.words@[i]@)
    }
}

fn same_chars(a: &[char], b: &[char]) -> (r: bool)
    ensures
        r == (a@ == b@),
{
    if a.len() != b.len() {
        return false;
    }
    let mut k: usize = 0;
    while k < a.len()
        invariant
            k <= a.len(),
            a.len() == b.len(),
            forall|j: int| 0 <= j < k ==> a@[j] == b@[j],
        decreases a.len() - k,
    {
        if a[k] != b[k] {
            return false;
        }
        k = k + 1;
    }
    assert(a@ =~= b@);
    true
}

impl Matcher {
    /// Builds the matcher from a word list. Words without a sentence ender, with more than
    /// [`MAX_WORD_ENDERS`] enders or longer than [`MAX_WORD_CHARS`] characters are dropped;
    /// duplicates are kept once.
    pub fn new(words: &[&str]) -> (m: Matcher)
        ensures
            forall|i: int|
                0 <= i < m@.len() ==> spec_is_matchable(#[trigger] m@[i]) && exists|j: int|
                    0 <= j < words@.len() && words@[j]@ == m@[i],
            forall|j: int|
                0 <= j < words@.len() && spec_is_matchable(#[trigger] words@[j]@) ==> m@.contains(
                    words@[j]@,
                ),
            forall|i: int, k: int| 0 <= i < k < m@.len() ==> m@[i] != m@[k],
    {
        let mut kept: Vec<Vec<char>> = Vec::new();
        let mut j: usize = 0;
        while j < words.len()
            invariant
                j <= words.len(),
                forall|i: int|
                    0 <= i < kept@.len() ==> spec_is_matchable(#[trigger] kept@[i]@) && exists|
                        x: int,
                    |
                        0 <= x < words@.len() && words@[x]@ == kept@[i]@,
                forall|x: int|
                    0 <= x < j && spec_is_matchable(#[trigger] words@[x]@) ==> exists|i: int|
                        0 <= i < kept@.len() && kept@[i]@ == words@[x]@,
                forall|i: int, k: int| 0 <= i < k < kept@.len() ==> kept@[i]@ != kept@[k]@,
            decreases words.len() - j,
        {
            let (w, _) = crate::text::chars_and_offsets(words[j]);
            if is_matchable_chars(w.as_slice()) {
                let mut found = false;
                let mut i: usize = 0;
                while i < kept.len()
                    invariant
                        i <= kept.len(),
                        found ==> exists|y: int| 0 <= y < kept@.len() && kept@[y]@ == w@,
                        !found ==> forall|y: int| 0 <= y < i ==> kept@[y]@ != w@,
                    ensures
                        found ==> exists|y: int| 0 <= y < kept@.len() && kept@[y]@ == w@,
                        !found ==> forall|y: int| 0 <= y < kept@.len() ==> kept@[y]@ != w@,
                    decreases kept.len() - i,
                {
                    if same_chars(kept[i].as_slice(), w.as_slice()) {
                        found = true;
                        break;
                    }
                    i = i + 1;
                }
                if !found {
                    let ghost old_kept = kept@;
                    kept.push(w);
                    proof {
                        assert(kept@[kept@.len() - 1]@ == words@[j as int]@);
                        assert forall|i: int, k: int|
                            0 <= i < k < kept@.len() implies kept@[i]@ != kept@[k]@ by {
                            if k < old_kept.len() {
                                assert(kept@[i] == old_kept[i]);
                                assert(kept@[k] == old_kept[k]);
                            } else {
                                assert(kept@[i] == old_kept[i]);
                            }
                        }
                        assert forall|i: int|
                            0 <= i < kept@.len() implies spec_is_matchable(
                                #[trigger] kept@[i]@,
                            ) && exists|x: int|
                                0 <= x < words@.len() && words@[x]@ == kept@[i]@ by {
                            if i < old_kept.len() {
                                assert(kept@[i] == old_kept[i]);
                            } else {
                                assert(words@[j as int]@ == kept@[i]@);
                            }
                        }
                        assert forall|x: int|
                            0 <= x < j + 1 && spec_is_matchable(
                                #[trigger] words@[x]@,
                            ) implies exists|i: int|
                                0 <= i < kept@.len() && kept@[i]@ == words@[x]@ by {
                            if x < j {
                                let i = choose|i: int|
                                    0 <= i < old_kept.len() && old_kept[i]@ == words@[x]@;
                                assert(kept@[i] == old_kept[i]);
                            } else {
                                assert(kept@[kept@.len() - 1]@ == words@[x]@);
                            }
                        }
                    }
                }
            }
            j = j + 1;
        }
        let m = Matcher { words: kept };
        proof {
            assert forall|x: int|
                0 <= x < words@.len() && spec_is_matchable(#[trigger] words@[x]@) implies m@.contains(
                words@[x]@,
            ) by {
                let i = choose|i: int| 0 <= i < m.words@.len() && m.words@[i]@ == words@[x]@;
                assert(m@[i] == words@[x]@);
            }
        }
        m
    }

    /// Number of distinct words in use.
    pub fn len(&self) -> (n: usize)
        ensures
            n == self@.len(),
    {
        self.words.len()
    }

    /// Whether the sentence ender at character `p` of `t` must not end a sentence because of a
    /// listed word (see [`spec_guards`]).
    pub fn guards(&self, t: &[char], p: usize) -> (r: bool)
        requires
            p < t.len(),
        ensures
            r == spec_guards(self@, t@, p as int),
    {
        let mut ends_ok = false;
        let mut i: usize = 0;
        while i < self.words.len()
            invariant
                i <= self.words.len(),
                p < t.len(),
                forall|k: int| 0 <= k < i ==> !inside_at(t@, #[trigger] self@[k], p as int),
                ends_ok == exists|k: int|
                    0 <= k < i && ends_at(t@, #[trigger] self@[k], p as int) && continues_after(
                        t@,
                        p + 1,
                        kana_before_end(self@[k]),
                    ),
            decreases self.words.len() - i,
        {
            let w = self.words[i].as_slice();
            let (inside, ends) = word_covers(t, w, p);
            proof {
                assert(self@[i as int] == w@);
            }
            if inside {
                return true;
            }
            if ends && continues_after_exec(t, p + 1, kana_before_end_exec(w)) {
                ends_ok = true;
            }
            i = i + 1;
        }
        ends_ok
    }
}

/// Unicode `Alphabetic` or `Numeric`: what `char::is_alphanumeric` answers.
pub uninterp spec fn unicode_alphanumeric(c: char) -> bool;

/// `char::is_alphanumeric` (the Unicode `Alphabetic` and `Numeric` properties).
#[verifier::external_body]
pub(crate) fn is_alphanumeric(c: char) -> (r: bool)
    ensures
        r == unicode_alphanumeric(c),
{
    c.is_alphanumeric()
}

/// Control characters (general category Cc): U+0000..U+001F and U+007F..U+009F.
pub open spec fn spec_is_control(c: char) -> bool {
    (c as u32) <= 0x1F || (0x7F <= (c as u32) <= 0x9F)
}

/// A surface that [`extract_candidates`] keeps: at least 2 characters, not starting with an ender
/// or `#`, no white space at either end, an ender and an alphanumeric inside, no control
/// characters.
pub open spec fn is_candidate(w: Seq<char>) -> bool {
    &&& w.len() >= 2
    &&& !spec_is_sentence_ender(w[0])
    &&& w[0] != '#'
    &&& !super::chars::spec_is_whitespace(w[0])
    &&& !super::chars::spec_is_whitespace(w.last())
    &&& exists|i: int| 0 <= i < w.len() && spec_is_sentence_ender(#[trigger] w[i])
    &&& exists|i: int| 0 <= i < w.len() && unicode_alphanumeric(#[trigger] w[i])
    &&& forall|i: int| 0 <= i < w.len() ==> !spec_is_control(#[trigger] w[i])
}

fn candidate(w: &str) -> (r: bool)
    ensures
        r == is_candidate(w@),
{
    let (cs, _) = crate::text::chars_and_offsets(w);
    let n = cs.len();
    if n < 2 {
        return false;
    }
    if is_sentence_ender(cs[0]) || cs[0] == '#' || super::chars::is_whitespace(cs[0])
        || super::chars::is_whitespace(cs[n - 1]) {
        return false;
    }
    let mut ender = false;
    let mut alnum = false;
    let mut i: usize = 0;
    while i < n
        invariant
            n == cs@.len(),
            cs@ == w@,
            i <= n,
            ender == exists|j: int| 0 <= j < i && spec_is_sentence_ender(#[trigger] cs@[j]),
            alnum == exists|j: int| 0 <= j < i && unicode_alphanumeric(#[trigger] cs@[j]),
            forall|j: int| 0 <= j < i ==> !spec_is_control(#[trigger] cs@[j]),
        decreases n - i,
    {
        let c = cs[i];
        let u = c as u32;
        if u <= 0x1F || (0x7F <= u && u <= 0x9F) {
            proof {
                assert(spec_is_control(cs@[i as int]));
            }
            return false;
        }
        if is_sentence_ender(c) {
            ender = true;
        }
        if is_alphanumeric(c) {
            alnum = true;
        }
        i = i + 1;
    }
    ender && alnum
}

/// Lexicographic order of byte sequences (the order of `str` and `String`).
pub open spec fn lex_lt(a: Seq<u8>, b: Seq<u8>) -> bool
    decreases a.len(),
{
    if a.len() == 0 {
        b.len() > 0
    } else if b.len() == 0 {
        false
    } else if a[0] != b[0] {
        a[0] < b[0]
    } else {
        lex_lt(a.drop_first(), b.drop_first())
    }
}

proof fn lemma_lex_total(a: Seq<u8>, b: Seq<u8>)
    ensures
        a == b || lex_lt(a, b) || lex_lt(b, a),
        !(lex_lt(a, b) && lex_lt(b, a)),
        !lex_lt(a, a),
    decreases a.len(),
{
    if a.len() > 0 && b.len() > 0 && a[0] == b[0] {
        lemma_lex_total(a.drop_first(), b.drop_first());
        if a.drop_first() == b.drop_first() {
            assert(a =~= seq![a[0]] + a.drop_first());
            assert(b =~= seq![b[0]] + b.drop_first());
        }
    }
    if a.len() > 0 {
        lemma_lex_total(a.drop_first(), a.drop_first());
    }
}

proof fn lemma_lex_trans(a: Seq<u8>, b: Seq<u8>, c: Seq<u8>)
    requires
        lex_lt(a, b),
        lex_lt(b, c),
    ensures
        lex_lt(a, c),
    decreases a.len(),
{
    if a.len() > 0 && b.len() > 0 && c.len() > 0 && a[0] == b[0] && b[0] == c[0] {
        lemma_lex_trans(a.drop_first(), b.drop_first(), c.drop_first());
    }
}

pub(crate) fn bytes_lt(a: &[u8], b: &[u8]) -> (r: bool)
    ensures
        r == lex_lt(a@, b@),
{
    let mut i: usize = 0;
    proof {
        assert(a@.skip(0) =~= a@);
        assert(b@.skip(0) =~= b@);
    }
    while i < a.len() && i < b.len() && a[i] == b[i]
        invariant
            i <= a@.len(),
            i <= b@.len(),
            lex_lt(a@, b@) == lex_lt(a@.skip(i as int), b@.skip(i as int)),
        decreases a@.len() - i,
    {
        proof {
            assert(a@.skip(i as int).drop_first() =~= a@.skip(i + 1));
            assert(b@.skip(i as int).drop_first() =~= b@.skip(i + 1));
        }
        i = i + 1;
    }
    if i == a.len() {
        i < b.len()
    } else if i == b.len() {
        false
    } else {
        a[i] < b[i]
    }
}

/// The surfaces that look like exception words (see [`is_candidate`]), each once, in byte order.
pub fn extract_candidates(surfaces: &[&str]) -> (r: Vec<String>)
    ensures
        forall|i: int, j: int| 0 <= i < j < r@.len() ==> lex_lt(encode_utf8(r@[i]@), encode_utf8(r@[j]@)),
        forall|i: int| 0 <= i < r@.len() ==> is_candidate(#[trigger] r@[i]@) && exists|j: int|
            0 <= j < surfaces@.len() && surfaces@[j]@ == r@[i]@,
        forall|j: int| 0 <= j < surfaces@.len() && is_candidate(#[trigger] surfaces@[j]@) ==> exists|i: int|
            0 <= i < r@.len() && r@[i]@ == surfaces@[j]@,
{
    let mut out: Vec<String> = Vec::new();
    let mut k: usize = 0;
    while k < surfaces.len()
        invariant
            k <= surfaces@.len(),
            forall|i: int, j: int| 0 <= i < j < out@.len() ==> lex_lt(encode_utf8(out@[i]@), encode_utf8(out@[j]@)),
            forall|i: int| 0 <= i < out@.len() ==> is_candidate(#[trigger] out@[i]@) && exists|j: int|
                0 <= j < surfaces@.len() && surfaces@[j]@ == out@[i]@,
            forall|j: int| 0 <= j < k && is_candidate(#[trigger] surfaces@[j]@) ==> exists|i: int|
                0 <= i < out@.len() && out@[i]@ == surfaces@[j]@,
        decreases surfaces@.len() - k,
    {
        let s = surfaces[k];
        if candidate(s) {
            let sb = s.as_bytes();
            let mut i: usize = 0;
            while i < out.len() && bytes_lt(out[i].as_str().as_bytes(), sb)
                invariant
                    i <= out@.len(),
                    sb@ == encode_utf8(s@),
                    forall|p: int| 0 <= p < i ==> lex_lt(encode_utf8(out@[p]@), sb@),
                decreases out@.len() - i,
            {
                i = i + 1;
            }
            let owned = s.to_owned();
            let dup = i < out.len() && out[i] == owned;
            if !dup {
                let ghost old_out = out@;
                proof {
                    if i < old_out.len() {
                        vstd::utf8::encode_utf8_decode_utf8(old_out[i as int]@);
                        vstd::utf8::encode_utf8_decode_utf8(s@);
                        lemma_lex_total(encode_utf8(old_out[i as int]@), sb@);
                    }
                }
                out.insert(i, owned);
                proof {
                    assert forall|p: int, q: int| 0 <= p < q < out@.len() implies lex_lt(encode_utf8(out@[p]@), encode_utf8(out@[q]@)) by {
                        if q < i {
                            assert(out@[p] == old_out[p] && out@[q] == old_out[q]);
                        } else if q == i {
                            assert(out@[p] == old_out[p]);
                        } else if p < i {
                            assert(out@[p] == old_out[p] && out@[q] == old_out[q - 1]);
                            if q - 1 > i {
                                assert(lex_lt(encode_utf8(old_out[i as int]@), encode_utf8(old_out[q - 1]@)));
                                lemma_lex_trans(sb@, encode_utf8(old_out[i as int]@), encode_utf8(old_out[q - 1]@));
                            }
                            lemma_lex_trans(encode_utf8(old_out[p]@), sb@, encode_utf8(old_out[q - 1]@));
                        } else if p == i {
                            assert(out@[q] == old_out[q - 1]);
                            if q - 1 > i {
                                lemma_lex_trans(sb@, encode_utf8(old_out[i as int]@), encode_utf8(old_out[q - 1]@));
                            }
                        } else {
                            assert(out@[p] == old_out[p - 1] && out@[q] == old_out[q - 1]);
                        }
                    }
                    assert forall|x: int| 0 <= x < out@.len() implies is_candidate(#[trigger] out@[x]@) && exists|j: int|
                        0 <= j < surfaces@.len() && surfaces@[j]@ == out@[x]@ by {
                        if x < i {
                            assert(out@[x] == old_out[x]);
                        } else if x == i {
                            assert(surfaces@[k as int]@ == out@[x]@);
                        } else {
                            assert(out@[x] == old_out[x - 1]);
                        }
                    }
                    assert forall|j: int| 0 <= j < k + 1 && is_candidate(#[trigger] surfaces@[j]@) implies exists|x: int|
                        0 <= x < out@.len() && out@[x]@ == surfaces@[j]@ by {
                        if j == k {
                            assert(out@[i as int]@ == surfaces@[j]@);
                        } else {
                            let x = choose|x: int| 0 <= x < old_out.len() && old_out[x]@ == surfaces@[j]@;
                            if x < i {
                                assert(out@[x] == old_out[x]);
                            } else {
                                assert(out@[x + 1] == old_out[x]);
                            }
                        }
                    }
                }
            } else {
                proof {
                    assert(out@[i as int]@ == surfaces@[k as int]@);
                }
            }
        }
        k = k + 1;
    }
    proof {
        assert forall|i: int| 0 <= i < out@.len() implies is_candidate(#[trigger] out@[i]@) && exists|j: int|
            0 <= j < surfaces@.len() && surfaces@[j]@ == out@[i]@ by {}
    }
    out
}

/// After an exception word that ends with the ender at `p`, text that opens with one of もう もし
/// もちろん もっと とにかく ところで やはり しかし never keeps that ender from ending the
/// sentence: only a word that has the ender strictly inside it can still guard it.
pub proof fn lemma_sentence_words_end_sentences(words: Seq<Seq<char>>, t: Seq<char>, p: int)
    requires
        starts_with_at(t, p + 1, seq!['も', 'う']) || starts_with_at(t, p + 1, seq!['も', 'し']) || starts_with_at(
            t,
            p + 1,
            seq!['も', 'ち', 'ろ', 'ん'],
        ) || starts_with_at(t, p + 1, seq!['も', 'っ', 'と']) || starts_with_at(t, p + 1, seq!['と', 'に', 'か', 'く'])
            || starts_with_at(t, p + 1, seq!['と', 'こ', 'ろ', 'で']) || starts_with_at(t, p + 1, seq!['や', 'は', 'り'])
            || starts_with_at(t, p + 1, seq!['し', 'か', 'し']),
        forall|i: int| 0 <= i < words.len() ==> !inside_at(t, #[trigger] words[i], p),
    ensures
        !spec_guards(words, t, p),
{
    assert forall|i: int| 0 <= i < words.len() implies !(ends_at(t, #[trigger] words[i], p) && continues_after(
        t,
        p + 1,
        kana_before_end(words[i]),
    )) by {
        assert(starts_sentence(t, p + 1));
    };
}

} // verus!
