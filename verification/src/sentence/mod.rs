//! Sentence splitting without a dictionary.
//!
//! The rules, in the order the splitter applies them:
//!
//! 1. A run of sentence enders `。！？!?‼⁇⁈⁉．｡` ends one sentence.
//! 2. Enders inside matching brackets (`「」『』（）()〔〕［］[]｛｝{}〈〉《》【】〖〗〘〙〚〛｟｠“”‘’«»‹›｢｣〝〟`)
//!    do not split.
//! 3. Brackets are matched first with a stack; a closing bracket pops back to the nearest open
//!    bracket of its kind (dropping the ones between). Unmatched brackets are ordinary characters.
//! 4. An ASCII `!` `?` run does not end a sentence before an ASCII letter, digit or symbol.
//! 5. Unmatched closing brackets right after the enders stay with the sentence.
//! 6. Line breaks join by default; with [`LineBreaks::Split`] the ones outside brackets split.
//! 7. Sentences exclude surrounding white space; white space alone is no sentence.
//! 8. Enders inside exception words (`Yahoo!ニュース`) do not split; one at the end of a word does
//!    not split when a particle-like word follows.
//! 9. `．` and `｡` between two digits are no enders.

pub mod brackets;
pub mod chars;
pub mod exceptions;
pub mod index;
pub mod marks;

use vstd::prelude::*;
use core::ops::Range;
use vstd::string::StringSliceAdditionalSpecFns;
use crate::text::{byte_pos, chars_and_offsets, lemma_byte_pos_strict, lemma_byte_pos_mono};
use self::exceptions::{
    Matcher, builtin_exception_list, builtin_exceptions, spec_guards, spec_is_matchable, inside_at,
    ends_at, continues_after, kana_before_end,
};
use self::marks::{
    CharKind, spec_classify, classify, spec_is_decimal_point, is_decimal_point, ascii_run_end,
    char_at, spec_ascii_run_is_ender, ascii_run_is_ender, is_counted_line_break,
    counted_line_break,
};

verus! {

/// How line breaks are treated.
#[derive(Debug, Clone, Copy, PartialEq, Eq, Structural)]
pub enum LineBreaks {
    /// Line breaks do not end sentences (the default): wrapped lines of Markdown are one sentence.
    Join,
    /// Line breaks outside brackets end sentences (for one-sentence-per-line text without enders).
    Split,
}

impl Default for LineBreaks {
    fn default() -> (r: Self)
        ensures
            r == LineBreaks::Join,
    {
        LineBreaks::Join
    }
}

/// Settings of the splitter.
#[derive(Debug, Clone)]
pub struct SplitOptions<'a> {
    /// How line breaks are treated
    pub line_breaks: LineBreaks,
    /// Words added to the built-in exception table. Words without an ender, with more than 16
    /// enders or longer than 256 characters are ignored.
    pub extra_exceptions: &'a [&'a str],
    /// Whether the built-in exception table is used (default true)
    pub use_builtin_exceptions: bool,
}

impl<'a> Default for SplitOptions<'a> {
    fn default() -> (r: Self)
        ensures
            r.line_breaks == LineBreaks::Join,
            r.extra_exceptions@.len() == 0,
            r.use_builtin_exceptions,
    {
        SplitOptions { line_breaks: LineBreaks::Join, extra_exceptions: &[], use_builtin_exceptions: true }
    }
}

/// One sentence.
#[derive(Debug, PartialEq, Eq)]
pub struct Sentence {
    /// Byte range in the input, without surrounding white space, with the enders
    pub range: Range<usize>,
    /// Whether enders inside brackets were kept in this sentence
    pub embedded_enders: bool,
    /// What ended the sentence
    pub end: SentenceEnd,
}

impl Clone for Sentence {
    fn clone(&self) -> (r: Self)
        ensures
            r == *self,
    {
        Sentence {
            range: self.range.start..self.range.end,
            embedded_enders: self.embedded_enders,
            end: self.end,
        }
    }
}

/// What ended a sentence.
#[derive(Debug, Clone, Copy, PartialEq, Eq, Structural)]
pub enum SentenceEnd {
    /// Sentence enders (and the unmatched closing brackets right after them)
    Ender,
    /// A line break ([`LineBreaks::Split`] or a position given to [`Splitter::split_with_breaks`])
    LineBreak,
    /// The end of the input
    EndOfText,
}

/// The words of a list that the matcher uses.
pub open spec fn matchable_words(ws: Seq<&str>) -> Set<Seq<char>> {
    Set::new(|w: Seq<char>| spec_is_matchable(w) && exists|j: int| 0 <= j < ws.len() && ws[j]@ == w)
}

/// The exception words that the given options put in use.
pub open spec fn option_words(o: SplitOptions) -> Set<Seq<char>> {
    (if o.use_builtin_exceptions {
        matchable_words(builtin_exception_list())
    } else {
        Set::empty()
    }).union(matchable_words(o.extra_exceptions@))
}

/// An exception word of `words` keeps the ender at `p` from ending a sentence (rule 8): the
/// ender is inside a counted occurrence, or ends one and a particle-like word follows.
pub open spec fn guarded_by(words: Set<Seq<char>>, t: Seq<char>, p: int) -> bool {
    ||| exists|w: Seq<char>| #[trigger] words.contains(w) && inside_at(t, w, p)
    ||| exists|w: Seq<char>|
        #[trigger] words.contains(w) && ends_at(t, w, p) && continues_after(
            t,
            p + 1,
            kana_before_end(w),
        )
}

proof fn lemma_guards_set(ws: Seq<Seq<char>>, t: Seq<char>, p: int)
    ensures
        spec_guards(ws, t, p) == guarded_by(ws.to_set(), t, p),
{
    if spec_guards(ws, t, p) {
        if exists|i: int| 0 <= i < ws.len() && inside_at(t, #[trigger] ws[i], p) {
            let i = choose|i: int| 0 <= i < ws.len() && inside_at(t, #[trigger] ws[i], p);
            assert(ws.to_set().contains(ws[i]));
        } else {
            let i = choose|i: int|
                0 <= i < ws.len() && ends_at(t, #[trigger] ws[i], p) && continues_after(
                    t,
                    p + 1,
                    kana_before_end(ws[i]),
                );
            assert(ws.to_set().contains(ws[i]));
        }
    }
    if guarded_by(ws.to_set(), t, p) {
        if exists|w: Seq<char>| #[trigger] ws.to_set().contains(w) && inside_at(t, w, p) {
            let w = choose|w: Seq<char>| #[trigger] ws.to_set().contains(w) && inside_at(t, w, p);
            let i = choose|i: int| 0 <= i < ws.len() && ws[i] == w;
            assert(inside_at(t, ws[i], p));
        } else {
            let w = choose|w: Seq<char>|
                #[trigger] ws.to_set().contains(w) && ends_at(t, w, p) && continues_after(
                    t,
                    p + 1,
                    kana_before_end(w),
                );
            let i = choose|i: int| 0 <= i < ws.len() && ws[i] == w;
            assert(ends_at(t, ws[i], p));
        }
    }
}

proof fn lemma_guarded_subset(a: Set<Seq<char>>, b: Set<Seq<char>>, t: Seq<char>, p: int)
    requires
        a.subset_of(b),
    ensures
        guarded_by(a, t, p) ==> guarded_by(b, t, p),
{
    if guarded_by(a, t, p) {
        if exists|w: Seq<char>| #[trigger] a.contains(w) && inside_at(t, w, p) {
            let w = choose|w: Seq<char>| #[trigger] a.contains(w) && inside_at(t, w, p);
            assert(b.contains(w));
        } else {
            let w = choose|w: Seq<char>|
                #[trigger] a.contains(w) && ends_at(t, w, p) && continues_after(
                    t,
                    p + 1,
                    kana_before_end(w),
                );
            assert(b.contains(w));
        }
    }
}

/// What the splitter is: how it treats line breaks and the exception words in use.
pub struct SplitterModel {
    pub line_breaks: LineBreaks,
    pub words: Set<Seq<char>>,
}

/// The splitter, with the matchers of the exception words built once.
#[derive(Clone, Debug)]
pub struct Splitter {
    line_breaks: LineBreaks,
    builtin_exceptions: usize,
    extra_exceptions: usize,
    builtin: Matcher,
    extra: Matcher,
}

impl View for Splitter {
    type V = SplitterModel;

    closed spec fn view(&self) -> SplitterModel {
        SplitterModel {
            line_breaks: self.line_breaks,
            words: self.builtin@.to_set().union(self.extra@.to_set()),
        }
    }
}

/// The ender at `p` ends a sentence: it is an ender that rules 4 and 9 leave on, and no exception
/// word keeps it (rule 8).
pub open spec fn is_active_ender(words: Set<Seq<char>>, t: Seq<char>, p: int) -> bool {
    &&& 0 <= p < t.len()
    &&& match spec_classify(t[p]) {
        CharKind::Ender => !spec_is_decimal_point(t, p),
        CharKind::AsciiEnder => spec_ascii_run_is_ender(char_at(t, ascii_run_end(t, p))),
        _ => false,
    }
    &&& !guarded_by(words, t, p)
}

/// A piece of [`Splitter::chunk_ends`] ends before character `p`: at the end of the text, after a
/// run of active enders, or after a line break.
pub open spec fn is_chunk_end(words: Set<Seq<char>>, t: Seq<char>, p: int) -> bool {
    ||| p == t.len()
    ||| (is_active_ender(words, t, p - 1) && !is_active_ender(words, t, p))
    ||| is_counted_line_break(t, p - 1)
}

/// The character positions `1..=k` at which pieces end, in order.
pub open spec fn chunk_ends_upto(words: Set<Seq<char>>, t: Seq<char>, k: int) -> Seq<int>
    decreases k,
{
    if k <= 0 {
        Seq::empty()
    } else {
        chunk_ends_upto(words, t, k - 1) + if is_chunk_end(words, t, k) {
            seq![k]
        } else {
            Seq::empty()
        }
    }
}

proof fn lemma_chunk_ends_upto(words: Set<Seq<char>>, t: Seq<char>, k: int)
    requires
        0 <= k,
    ensures
        forall|i: int|
            0 <= i < chunk_ends_upto(words, t, k).len() ==> 1 <= #[trigger] chunk_ends_upto(
                words,
                t,
                k,
            )[i] <= k,
        forall|i: int, j: int|
            0 <= i < j < chunk_ends_upto(words, t, k).len() ==> chunk_ends_upto(words, t, k)[i]
                < chunk_ends_upto(words, t, k)[j],
        k > 0 && is_chunk_end(words, t, k) ==> chunk_ends_upto(words, t, k).len() > 0
            && chunk_ends_upto(words, t, k).last() == k,
    decreases k,
{
    if k > 0 {
        lemma_chunk_ends_upto(words, t, k - 1);
        let prev = chunk_ends_upto(words, t, k - 1);
        let e = chunk_ends_upto(words, t, k);
        assert forall|i: int| 0 <= i < e.len() implies 1 <= #[trigger] e[i] <= k by {
            if i < prev.len() {
                assert(e[i] == prev[i]);
            }
        }
        assert forall|i: int, j: int| 0 <= i < j < e.len() implies e[i] < e[j] by {
            assert(e[i] == prev[i]);
            if j < prev.len() {
                assert(e[j] == prev[j]);
            }
        }
    }
}


/// A sentence in character positions: (start, end, embedded enders, what ended it).
pub type CharSentence = (int, int, bool, SentenceEnd);

/// Where the splitter stands in a run that may end the current sentence.
#[derive(Debug, Clone, Copy, PartialEq, Eq, Structural)]
pub enum RunPhase {
    /// Not in a run
    Normal,
    /// After active enders
    Enders,
    /// After active enders and unmatched closing brackets
    Closes,
}

/// The state of the splitter between two characters: where the current sentence starts, whether
/// it holds enders inside brackets, the run it is in, and the sentences found.
pub struct SplitState {
    pub start: int,
    pub emb: bool,
    pub phase: RunPhase,
    pub out: Seq<CharSentence>,
}

/// The splitter's input: exception words, the text, whether line breaks split, and the gaps
/// (`0..=t.len()`) that count as line breaks.
pub struct SplitEnv {
    pub words: Set<Seq<char>>,
    pub t: Seq<char>,
    pub lines: bool,
    pub breaks: Seq<bool>,
}

/// First position of `s..e` that is not white space (`e` if there is none).
pub open spec fn first_non_ws(t: Seq<char>, s: int, e: int) -> int
    decreases e - s,
{
    if s < e && chars::spec_is_whitespace(t[s]) {
        first_non_ws(t, s + 1, e)
    } else {
        s
    }
}

/// End of `s..e` without trailing white space.
pub open spec fn last_non_ws(t: Seq<char>, s: int, e: int) -> int
    decreases e - s,
{
    if s < e && chars::spec_is_whitespace(t[e - 1]) {
        last_non_ws(t, s, e - 1)
    } else {
        e
    }
}

/// Adds the sentence `s..e` without surrounding white space, unless nothing is left (rule 7).
pub open spec fn push_trimmed(
    out: Seq<CharSentence>,
    t: Seq<char>,
    s: int,
    e: int,
    emb: bool,
    kind: SentenceEnd,
) -> Seq<CharSentence> {
    let a = first_non_ws(t, s, e);
    let b = last_non_ws(t, a, e);
    if a < b {
        out.push((a, b, emb, kind))
    } else {
        out
    }
}

/// An unmatched closing bracket at `k`.
pub open spec fn is_unmatched_close(t: Seq<char>, k: int) -> bool {
    &&& 0 <= k < t.len()
    &&& spec_classify(t[k]) is Close
    &&& !brackets::is_matched_close(t, k)
}

/// Ends the run: the sentence ends before `k` with its enders.
pub open spec fn close_run(st: SplitState, t: Seq<char>, k: int) -> SplitState {
    SplitState {
        start: k,
        emb: false,
        phase: RunPhase::Normal,
        out: push_trimmed(st.out, t, st.start, k, st.emb, SentenceEnd::Ender),
    }
}

/// Character `k` continues the run of `phase`: active enders, then unmatched closing brackets,
/// with no line-break gap before `k`.
pub open spec fn continues_run(env: SplitEnv, phase: RunPhase, k: int) -> bool {
    &&& !env.breaks[k]
    &&& ((phase == RunPhase::Enders && (is_active_ender(env.words, env.t, k) || is_unmatched_close(
        env.t,
        k,
    ))) || (phase == RunPhase::Closes && is_unmatched_close(env.t, k)))
}

/// The gap before `k` (when it counts as a line break outside brackets), then character `k`,
/// outside a run.
pub open spec fn normal_step(env: SplitEnv, st: SplitState, k: int) -> SplitState {
    let t = env.t;
    let st1 = if env.breaks[k] && !brackets::is_protected_gap(t, k) {
        SplitState {
            start: k,
            emb: false,
            phase: st.phase,
            out: push_trimmed(st.out, t, st.start, k, st.emb, SentenceEnd::LineBreak),
        }
    } else {
        st
    };
    if brackets::is_protected(t, k) {
        SplitState { emb: st1.emb || is_active_ender(env.words, t, k), ..st1 }
    } else if is_active_ender(env.words, t, k) {
        SplitState { phase: RunPhase::Enders, ..st1 }
    } else if env.lines && is_counted_line_break(t, k) {
        SplitState {
            start: k + 1,
            emb: false,
            phase: st1.phase,
            out: push_trimmed(st1.out, t, st1.start, k, st1.emb, SentenceEnd::LineBreak),
        }
    } else {
        st1
    }
}

/// Character `k` read into the state.
pub open spec fn split_step(env: SplitEnv, st: SplitState, k: int) -> SplitState {
    if st.phase != RunPhase::Normal {
        if continues_run(env, st.phase, k) {
            SplitState {
                phase: if st.phase == RunPhase::Enders && is_active_ender(env.words, env.t, k) {
                    RunPhase::Enders
                } else {
                    RunPhase::Closes
                },
                ..st
            }
        } else {
            normal_step(env, close_run(st, env.t, k), k)
        }
    } else {
        normal_step(env, st, k)
    }
}

/// The state after the first `k` characters.
pub open spec fn split_state(env: SplitEnv, k: int) -> SplitState
    decreases k,
{
    if k <= 0 {
        SplitState { start: 0, emb: false, phase: RunPhase::Normal, out: Seq::empty() }
    } else {
        split_step(env, split_state(env, k - 1), k - 1)
    }
}

/// The sentences of the text, in character positions.
pub open spec fn split_sentences(env: SplitEnv) -> Seq<CharSentence> {
    let t = env.t;
    let n = t.len() as int;
    let st = split_state(env, n);
    let st1 = if st.phase != RunPhase::Normal {
        close_run(st, t, n)
    } else {
        st
    };
    let st2 = if env.breaks[n] && !brackets::is_protected_gap(t, n) {
        SplitState {
            start: n,
            emb: false,
            phase: st1.phase,
            out: push_trimmed(st1.out, t, st1.start, n, st1.emb, SentenceEnd::LineBreak),
        }
    } else {
        st1
    };
    if st2.start < n {
        push_trimmed(st2.out, t, st2.start, n, st2.emb, SentenceEnd::EndOfText)
    } else {
        st2.out
    }
}

/// No gap counts as a line break.
pub open spec fn no_breaks(t: Seq<char>) -> Seq<bool> {
    Seq::new((t.len() + 1) as nat, |k: int| false)
}

/// The gaps at the given byte positions.
pub open spec fn break_gaps(t: Seq<char>, breaks: Seq<usize>) -> Seq<bool> {
    Seq::new(
        (t.len() + 1) as nat,
        |k: int| exists|i: int| 0 <= i < breaks.len() && breaks[i] == byte_pos(t, k),
    )
}

/// The sentence is well formed within `t`: not empty, within bounds, without surrounding white
/// space; one ended by enders ends with an ender or a closing bracket.
pub open spec fn well_formed_sentence(t: Seq<char>, s: CharSentence) -> bool {
    &&& 0 <= s.0 < s.1 <= t.len()
    &&& !chars::spec_is_whitespace(t[s.0])
    &&& !chars::spec_is_whitespace(t[s.1 - 1])
    &&& (s.3 == SentenceEnd::Ender ==> (chars::spec_is_sentence_ender(t[s.1 - 1])
        || marks::spec_bracket(t[s.1 - 1]) matches Some((_, false))))
}

/// The laws of a split: each sentence is well formed, they come in order without overlap, and
/// every character that is not white space before `upto` lies in one of them.
pub open spec fn split_laws(t: Seq<char>, out: Seq<CharSentence>, upto: int) -> bool {
    &&& forall|i: int| 0 <= i < out.len() ==> well_formed_sentence(t, #[trigger] out[i])
    &&& forall|i: int, j: int| 0 <= i < j < out.len() ==> out[i].1 <= out[j].0
    &&& forall|i: int| 0 <= i < out.len() ==> (#[trigger] out[i]).1 <= upto
    &&& forall|p: int|
        0 <= p < upto && !chars::spec_is_whitespace(t[p]) ==> exists|i: int|
            0 <= i < out.len() && (#[trigger] out[i]).0 <= p < out[i].1
}

proof fn lemma_first_non_ws(t: Seq<char>, s: int, e: int)
    requires
        0 <= s <= e <= t.len(),
    ensures
        s <= first_non_ws(t, s, e) <= e,
        first_non_ws(t, s, e) < e ==> !chars::spec_is_whitespace(t[first_non_ws(t, s, e)]),
        forall|p: int| s <= p < first_non_ws(t, s, e) ==> chars::spec_is_whitespace(t[p]),
    decreases e - s,
{
    if s < e && chars::spec_is_whitespace(t[s]) {
        lemma_first_non_ws(t, s + 1, e);
    }
}

proof fn lemma_last_non_ws(t: Seq<char>, s: int, e: int)
    requires
        0 <= s <= e <= t.len(),
    ensures
        s <= last_non_ws(t, s, e) <= e,
        s < last_non_ws(t, s, e) ==> !chars::spec_is_whitespace(t[last_non_ws(t, s, e) - 1]),
        forall|p: int| last_non_ws(t, s, e) <= p < e ==> chars::spec_is_whitespace(t[p]),
        s < e && !chars::spec_is_whitespace(t[e - 1]) ==> last_non_ws(t, s, e) == e,
    decreases e - s,
{
    if s < e && chars::spec_is_whitespace(t[e - 1]) {
        lemma_last_non_ws(t, s, e - 1);
    }
}

/// What `push_trimmed` adds keeps the laws.
#[verifier::rlimit(40)]
proof fn lemma_push_trimmed(
    t: Seq<char>,
    out: Seq<CharSentence>,
    s: int,
    e: int,
    emb: bool,
    kind: SentenceEnd,
)
    requires
        0 <= s <= e <= t.len(),
        split_laws(t, out, s),
        kind == SentenceEnd::Ender ==> s < e && (chars::spec_is_sentence_ender(t[e - 1])
            || marks::spec_bracket(t[e - 1]) matches Some((_, false))),
    ensures
        split_laws(t, push_trimmed(out, t, s, e, emb, kind), e),
{
    let a = first_non_ws(t, s, e);
    lemma_first_non_ws(t, s, e);
    let b = last_non_ws(t, a, e);
    lemma_last_non_ws(t, a, e);
    let r = push_trimmed(out, t, s, e, emb, kind);
    if kind == SentenceEnd::Ender {
        assert(!chars::spec_is_whitespace(t[e - 1]));
        if a == e {
            assert(chars::spec_is_whitespace(t[e - 1]));
        }
    }
    if a < b {
        assert(r[r.len() - 1] == (a, b, emb, kind));
        assert forall|i: int| 0 <= i < r.len() implies well_formed_sentence(t, #[trigger] r[i]) by {
            if i < out.len() {
                assert(r[i] == out[i]);
            }
        }
        assert forall|i: int, j: int| 0 <= i < j < r.len() implies r[i].1 <= r[j].0 by {
            assert(r[i] == out[i]);
            if j < out.len() {
                assert(r[j] == out[j]);
            }
        }
        assert forall|i: int| 0 <= i < r.len() implies (#[trigger] r[i]).1 <= e by {
            if i < out.len() {
                assert(r[i] == out[i]);
            }
        }
        assert forall|p: int| 0 <= p < e && !chars::spec_is_whitespace(t[p]) implies exists|i: int|
            0 <= i < r.len() && (#[trigger] r[i]).0 <= p < r[i].1 by {
            if p < s {
                let i = choose|i: int| 0 <= i < out.len() && (#[trigger] out[i]).0 <= p < out[i].1;
                assert(r[i] == out[i]);
            } else {
                assert(r[r.len() - 1].0 <= p < r[r.len() - 1].1);
            }
        }
    } else {
        assert forall|p: int| 0 <= p < e && !chars::spec_is_whitespace(t[p]) implies exists|i: int|
            0 <= i < r.len() && (#[trigger] r[i]).0 <= p < r[i].1 by {
            if p >= s {
                assert(false);
            }
        }
    }
}

/// A run of white space between `e` and `e2` keeps the laws.
proof fn lemma_laws_extend(t: Seq<char>, out: Seq<CharSentence>, e: int, e2: int)
    requires
        split_laws(t, out, e),
        e <= e2,
        forall|p: int| e <= p < e2 ==> chars::spec_is_whitespace(t[p]),
    ensures
        split_laws(t, out, e2),
{
}

pub open spec fn out_view(v: Seq<(usize, usize, bool, SentenceEnd)>) -> Seq<CharSentence> {
    v.map_values(|x: (usize, usize, bool, SentenceEnd)| (x.0 as int, x.1 as int, x.2, x.3))
}

/// The splitter's input for a model, a text and its line-break gaps.
pub open spec fn env_for(m: SplitterModel, t: Seq<char>, breaks: Seq<bool>) -> SplitEnv {
    SplitEnv { words: m.words, t, lines: m.line_breaks == LineBreaks::Split, breaks }
}

/// `r` holds the sentences `cs` with their character positions turned into byte positions.
pub open spec fn in_bytes(r: Seq<Sentence>, t: Seq<char>, cs: Seq<CharSentence>) -> bool {
    &&& r.len() == cs.len()
    &&& forall|i: int|
        0 <= i < r.len() ==> (#[trigger] r[i]).range.start == byte_pos(t, cs[i].0)
            && r[i].range.end == byte_pos(t, cs[i].1) && r[i].embedded_enders == cs[i].2
            && r[i].end == cs[i].3
}

fn push_trimmed_exec(
    out: &mut Vec<(usize, usize, bool, SentenceEnd)>,
    t: &[char],
    s: usize,
    e: usize,
    emb: bool,
    kind: SentenceEnd,
)
    requires
        s <= e <= t@.len(),
    ensures
        out_view(final(out)@) == push_trimmed(out_view(old(out)@), t@, s as int, e as int, emb, kind),
{
    let mut a = s;
    while a < e && chars::is_whitespace(t[a])
        invariant
            s <= a <= e <= t@.len(),
            first_non_ws(t@, s as int, e as int) == first_non_ws(t@, a as int, e as int),
        decreases e - a,
    {
        a = a + 1;
    }
    let mut b = e;
    while b > a && chars::is_whitespace(t[b - 1])
        invariant
            a <= b <= e <= t@.len(),
            a == first_non_ws(t@, s as int, e as int),
            last_non_ws(t@, a as int, e as int) == last_non_ws(t@, a as int, b as int),
        decreases b - a,
    {
        b = b - 1;
    }
    let ghost before = out_view(out@);
    if a < b {
        out.push((a, b, emb, kind));
        proof {
            assert(out_view(out@) =~= before.push((a as int, b as int, emb, kind)));
        }
    }
}

fn is_close(c: char) -> (r: bool)
    ensures
        r == (spec_classify(c) is Close),
{
    match classify(c) {
        CharKind::Close(_) => true,
        _ => false,
    }
}

/// A gap that counts as a line break and is not within brackets.
pub open spec fn breaks_at(env: SplitEnv, k: int) -> bool {
    env.breaks[k] && !brackets::is_protected_gap(env.t, k)
}

impl Splitter {
    /// Builds the splitter for the given options.
    pub fn new(options: &SplitOptions) -> (s: Splitter)
        ensures
            s@.line_breaks == options.line_breaks,
            s@.words == option_words(*options),
    {
        let builtin = if options.use_builtin_exceptions {
            let list = builtin_exceptions();
            Matcher::new(list.as_slice())
        } else {
            Matcher::new(&[])
        };
        let extra = Matcher::new(options.extra_exceptions);
        let s = Splitter {
            line_breaks: options.line_breaks,
            builtin_exceptions: builtin.len(),
            extra_exceptions: extra.len(),
            builtin,
            extra,
        };
        proof {
            let bl = builtin_exception_list();
            let ex = options.extra_exceptions@;
            if options.use_builtin_exceptions {
                assert(builtin@.to_set() =~= matchable_words(bl)) by {
                    assert forall|w: Seq<char>| #[trigger] builtin@.to_set().contains(w) implies matchable_words(bl).contains(w) by {
                        let i = choose|i: int| 0 <= i < builtin@.len() && builtin@[i] == w;
                        assert(spec_is_matchable(builtin@[i]));
                    }
                    assert forall|w: Seq<char>| #[trigger] matchable_words(bl).contains(w) implies builtin@.to_set().contains(w) by {
                        let j = choose|j: int| 0 <= j < bl.len() && bl[j]@ == w;
                        assert(spec_is_matchable(bl[j]@));
                    }
                }
            } else {
                assert(builtin@.to_set() =~= Set::empty()) by {
                    assert forall|w: Seq<char>| !(#[trigger] builtin@.to_set().contains(w)) by {
                        if builtin@.to_set().contains(w) {
                            let i = choose|i: int| 0 <= i < builtin@.len() && builtin@[i] == w;
                            assert(spec_is_matchable(builtin@[i]));
                        }
                    }
                }
            }
            assert(extra@.to_set() =~= matchable_words(ex)) by {
                assert forall|w: Seq<char>| #[trigger] extra@.to_set().contains(w) implies matchable_words(ex).contains(w) by {
                    let i = choose|i: int| 0 <= i < extra@.len() && extra@[i] == w;
                    assert(spec_is_matchable(extra@[i]));
                }
                assert forall|w: Seq<char>| #[trigger] matchable_words(ex).contains(w) implies extra@.to_set().contains(w) by {
                    let j = choose|j: int| 0 <= j < ex.len() && ex[j]@ == w;
                    assert(spec_is_matchable(ex[j]@));
                }
            }
        }
        s
    }

    /// Whether an exception word keeps the ender at `p` from ending a sentence.
    fn guarded(&self, t: &[char], p: usize) -> (r: bool)
        requires
            p < t.len(),
        ensures
            r == guarded_by(self@.words, t@, p as int),
    {
        let a = self.builtin.guards(t, p);
        let b = self.extra.guards(t, p);
        proof {
            lemma_guards_set(self.builtin@, t@, p as int);
            lemma_guards_set(self.extra@, t@, p as int);
            let u = self.builtin@.to_set().union(self.extra@.to_set());
            if guarded_by(u, t@, p as int) {
                if exists|w: Seq<char>| #[trigger] u.contains(w) && inside_at(t@, w, p as int) {
                    let w = choose|w: Seq<char>| #[trigger] u.contains(w) && inside_at(t@, w, p as int);
                    if self.builtin@.to_set().contains(w) {
                        assert(guarded_by(self.builtin@.to_set(), t@, p as int));
                    } else {
                        assert(guarded_by(self.extra@.to_set(), t@, p as int));
                    }
                } else {
                    let w = choose|w: Seq<char>|
                        #[trigger] u.contains(w) && ends_at(t@, w, p as int) && continues_after(
                            t@,
                            p + 1,
                            kana_before_end(w),
                        );
                    if self.builtin@.to_set().contains(w) {
                        assert(guarded_by(self.builtin@.to_set(), t@, p as int));
                    } else {
                        assert(guarded_by(self.extra@.to_set(), t@, p as int));
                    }
                }
            }
            lemma_guarded_subset(self.builtin@.to_set(), u, t@, p as int);
            lemma_guarded_subset(self.extra@.to_set(), u, t@, p as int);
        }
        a || b
    }

    /// For each character, whether it is an active ender.
    fn active_enders(&self, t: &[char]) -> (act: Vec<bool>)
        ensures
            act@.len() == t@.len(),
            forall|k: int| 0 <= k < t@.len() ==> act@[k] == is_active_ender(self@.words, t@, k),
    {
        let n = t.len();
        let mut act: Vec<bool> = Vec::new();
        let mut k: usize = 0;
        let mut run_end: usize = 0;
        let mut run_ok = false;
        while k < n
            invariant
                n == t.len(),
                k <= n,
                run_end <= n,
                act@.len() == k,
                forall|j: int| 0 <= j < k ==> act@[j] == is_active_ender(self@.words, t@, j),
                k < run_end ==> ascii_run_end(t@, k as int) == run_end as int && run_ok
                    == spec_ascii_run_is_ender(char_at(t@, run_end as int)),
                forall|j: int| k <= j < run_end ==> (t@[j] == '!' || t@[j] == '?'),
            decreases n - k,
        {
            let c = t[k];
            let a = match classify(c) {
                CharKind::Ender => !is_decimal_point(t, k) && !self.guarded(t, k),
                CharKind::AsciiEnder => {
                    if k >= run_end {
                        let mut q = k;
                        while q < n && (t[q] == '!' || t[q] == '?')
                            invariant
                                n == t.len(),
                                k <= q <= n,
                                ascii_run_end(t@, k as int) == ascii_run_end(t@, q as int),
                                forall|j: int| k <= j < q ==> (t@[j] == '!' || t@[j] == '?'),
                            decreases n - q,
                        {
                            q = q + 1;
                        }
                        run_end = q;
                        let next = if q < n {
                            Some(t[q])
                        } else {
                            None
                        };
                        run_ok = ascii_run_is_ender(next);
                    }
                    run_ok && !self.guarded(t, k)
                },
                _ => false,
            };
            act.push(a);
            k = k + 1;
        }
        act
    }

    /// Splits the whole input into pieces without gaps and returns the byte position where each
    /// piece ends, in order (the last is `text.len()`; empty input gives no pieces). For
    /// presplitting before morphological analysis: brackets are not matched, every line break
    /// splits (right after it), and white space is kept. Rules 1, 4, 8 and 9 apply.
    pub fn chunk_ends(&self, text: &str) -> (ends: Vec<usize>)
        ensures
            ends@.len() == chunk_ends_upto(self@.words, text@, text@.len() as int).len(),
            forall|i: int|
                0 <= i < ends@.len() ==> ends@[i] == byte_pos(
                    text@,
                    #[trigger] chunk_ends_upto(self@.words, text@, text@.len() as int)[i],
                ),
            forall|i: int, j: int| 0 <= i < j < ends@.len() ==> ends@[i] < ends@[j],
            ends@.len() == 0 <==> text@.len() == 0,
            ends@.len() > 0 ==> ends@.last() == text.spec_bytes().len(),
    {
        let (t, offs) = chars_and_offsets(text);
        let act = self.active_enders(t.as_slice());
        let n = t.len();
        let ghost w = self@.words;
        let mut ends: Vec<usize> = Vec::new();
        let mut p: usize = 1;
        while p < offs.len()
            invariant
                n == t@.len(),
                t@ == text@,
                1 <= p <= n + 1,
                act@.len() == n,
                offs@.len() == n + 1,
                forall|k: int| 0 <= k <= n ==> #[trigger] offs@[k] == byte_pos(text@, k),
                forall|k: int| 0 <= k < n ==> act@[k] == is_active_ender(w, t@, k),
                ends@.len() == chunk_ends_upto(w, t@, p - 1).len(),
                forall|i: int|
                    0 <= i < ends@.len() ==> ends@[i] == byte_pos(
                        text@,
                        #[trigger] chunk_ends_upto(w, t@, p - 1)[i],
                    ),
            decreases n + 1 - p,
        {
            let lb = counted_line_break(t.as_slice(), p - 1);
            let is_end = p == n || (act[p - 1] && !(p < n && act[p])) || lb;
            proof {
                assert(is_end == is_chunk_end(w, t@, p as int));
            }
            if is_end {
                ends.push(offs[p]);
            }
            proof {
                let prev = chunk_ends_upto(w, t@, p - 1);
                assert(chunk_ends_upto(w, t@, p as int) == prev + if is_chunk_end(w, t@, p as int) {
                    seq![p as int]
                } else {
                    Seq::empty()
                });
                assert forall|i: int| 0 <= i < ends@.len() implies ends@[i] == byte_pos(
                    text@,
                    #[trigger] chunk_ends_upto(w, t@, p as int)[i],
                ) by {
                    if i < prev.len() {
                        assert(chunk_ends_upto(w, t@, p as int)[i] == prev[i]);
                    }
                }
            }
            p = p + 1;
        }
        proof {
            let e = chunk_ends_upto(w, t@, n as int);
            lemma_chunk_ends_upto(w, t@, n as int);
            assert forall|i: int, j: int| 0 <= i < j < ends@.len() implies ends@[i] < ends@[j] by {
                assert(e[i] < e[j]);
                lemma_byte_pos_strict(text@, e[i], e[j]);
            }
            if n > 0 {
                assert(is_chunk_end(w, t@, n as int));
                crate::text::lemma_byte_pos_full(text@);
            }
        }
        ends
    }

    /// Splits the characters `t` with the line-break gaps `zb` (rules 1 to 9).
    fn split_chars(&self, t: &[char], zb: &[bool]) -> (out: Vec<(usize, usize, bool, SentenceEnd)>)
        requires
            zb@.len() == t@.len() + 1,
        ensures
            out_view(out@) == split_sentences(env_for(self@, t@, zb@)),
            split_laws(t@, out_view(out@), t@.len() as int),
    {
        let n = t.len();
        let act = self.active_enders(t);
        let (matched, prot, gap) = brackets::match_brackets(t);
        let lines = self.line_breaks == LineBreaks::Split;
        let ghost env = env_for(self@, t@, zb@);
        let mut out: Vec<(usize, usize, bool, SentenceEnd)> = Vec::new();
        let mut start: usize = 0;
        let mut emb = false;
        let mut phase = RunPhase::Normal;
        let mut k: usize = 0;
        proof {
            assert(out_view(out@) =~= Seq::<CharSentence>::empty());
        }
        while k < n
            invariant
                n == t@.len(),
                zb@.len() == n + 1,
                k <= n,
                start <= k,
                act@.len() == n,
                matched@.len() == n,
                prot@.len() == n,
                gap@.len() == n + 1,
                env == env_for(self@, t@, zb@),
                lines == env.lines,
                forall|j: int| 0 <= j < n ==> act@[j] == is_active_ender(env.words, t@, j),
                forall|j: int| 0 <= j < n ==> matched@[j] == brackets::is_matched_close(t@, j),
                forall|j: int| 0 <= j < n ==> prot@[j] == brackets::is_protected(t@, j),
                forall|j: int| 0 <= j <= n ==> gap@[j] == brackets::is_protected_gap(t@, j),
                split_state(env, k as int) == (SplitState {
                    start: start as int,
                    emb,
                    phase,
                    out: out_view(out@),
                }),
                split_laws(t@, out_view(out@), start as int),
                phase != RunPhase::Normal ==> start < k && (chars::spec_is_sentence_ender(t@[k - 1])
                    || marks::spec_bracket(t@[k - 1]) matches Some((_, false))),
            decreases n - k,
        {
            let ghost st0 = SplitState { start: start as int, emb, phase, out: out_view(out@) };
            let unm = is_close(t[k]) && !matched[k];
            proof {
                assert(split_state(env, k + 1) == split_step(env, st0, k as int));
                assert(unm == is_unmatched_close(t@, k as int));
            }
            let mut normal = true;
            if phase != RunPhase::Normal {
                let cont = !zb[k] && ((phase == RunPhase::Enders && (act[k] || unm)) || (phase
                    == RunPhase::Closes && unm));
                if cont {
                    phase = if phase == RunPhase::Enders && act[k] {
                        RunPhase::Enders
                    } else {
                        RunPhase::Closes
                    };
                    normal = false;
                    proof {
                        if is_unmatched_close(t@, k as int) {
                            assert(spec_classify(t@[k as int]) is Close);
                        }
                    }
                } else {
                    proof {
                        lemma_push_trimmed(t@, out_view(out@), start as int, k as int, emb, SentenceEnd::Ender);
                    }
                    push_trimmed_exec(&mut out, t, start, k, emb, SentenceEnd::Ender);
                    start = k;
                    emb = false;
                    phase = RunPhase::Normal;
                }
            }
            let ghost st1 = SplitState { start: start as int, emb, phase, out: out_view(out@) };
            if normal {
                if zb[k] && !gap[k] {
                    proof {
                        lemma_push_trimmed(t@, out_view(out@), start as int, k as int, emb, SentenceEnd::LineBreak);
                    }
                    push_trimmed_exec(&mut out, t, start, k, emb, SentenceEnd::LineBreak);
                    start = k;
                    emb = false;
                }
                if prot[k] {
                    emb = emb || act[k];
                } else if act[k] {
                    phase = RunPhase::Enders;
                } else if lines && counted_line_break(t, k) {
                    proof {
                        lemma_push_trimmed(t@, out_view(out@), start as int, k as int, emb, SentenceEnd::LineBreak);
                        lemma_laws_extend(t@, push_trimmed(out_view(out@), t@, start as int, k as int, emb, SentenceEnd::LineBreak), k as int, k + 1);
                    }
                    push_trimmed_exec(&mut out, t, start, k, emb, SentenceEnd::LineBreak);
                    start = k + 1;
                    emb = false;
                }
                proof {
                    assert(split_state(env, k + 1) == normal_step(env, st1, k as int));
                }
            }
            k = k + 1;
        }
        if phase != RunPhase::Normal {
            proof {
                lemma_push_trimmed(t@, out_view(out@), start as int, n as int, emb, SentenceEnd::Ender);
            }
            push_trimmed_exec(&mut out, t, start, n, emb, SentenceEnd::Ender);
            start = n;
            emb = false;
            phase = RunPhase::Normal;
        }
        if zb[n] && !gap[n] {
            proof {
                lemma_push_trimmed(t@, out_view(out@), start as int, n as int, emb, SentenceEnd::LineBreak);
            }
            push_trimmed_exec(&mut out, t, start, n, emb, SentenceEnd::LineBreak);
            start = n;
            emb = false;
        }
        if start < n {
            proof {
                lemma_push_trimmed(t@, out_view(out@), start as int, n as int, emb, SentenceEnd::EndOfText);
            }
            push_trimmed_exec(&mut out, t, start, n, emb, SentenceEnd::EndOfText);
        }
        out
    }

    /// Turns sentences in character positions into byte ranges.
    fn to_sentences(cs: &Vec<(usize, usize, bool, SentenceEnd)>, offs: &Vec<usize>, Ghost(t): Ghost<Seq<char>>) -> (r: Vec<Sentence>)
        requires
            offs@.len() == t.len() + 1,
            forall|k: int| 0 <= k <= t.len() ==> #[trigger] offs@[k] == byte_pos(t, k),
            forall|i: int| 0 <= i < cs@.len() ==> (#[trigger] cs@[i]).0 <= cs@[i].1 <= t.len(),
        ensures
            in_bytes(r@, t, out_view(cs@)),
    {
        let mut r: Vec<Sentence> = Vec::new();
        let mut i: usize = 0;
        while i < cs.len()
            invariant
                i <= cs@.len(),
                r@.len() == i,
                offs@.len() == t.len() + 1,
                forall|k: int| 0 <= k <= t.len() ==> #[trigger] offs@[k] == byte_pos(t, k),
                forall|j: int| 0 <= j < cs@.len() ==> (#[trigger] cs@[j]).0 <= cs@[j].1 <= t.len(),
                forall|j: int|
                    0 <= j < i ==> (#[trigger] r@[j]).range.start == byte_pos(t, cs@[j].0 as int)
                        && r@[j].range.end == byte_pos(t, cs@[j].1 as int) && r@[j].embedded_enders
                        == cs@[j].2 && r@[j].end == cs@[j].3,
            decreases cs@.len() - i,
        {
            let (a, b, emb, kind) = cs[i];
            r.push(Sentence { range: offs[a]..offs[b], embedded_enders: emb, end: kind });
            i = i + 1;
        }
        r
    }

    /// Splits `text` into sentences.
    pub fn split(&self, text: &str) -> (r: Vec<Sentence>)
        ensures
            in_bytes(r@, text@, split_sentences(env_for(self@, text@, no_breaks(text@)))),
            split_laws(text@, split_sentences(env_for(self@, text@, no_breaks(text@))), text@.len() as int),
    {
        let (t, offs) = chars_and_offsets(text);
        let mut zb: Vec<bool> = Vec::new();
        while zb.len() <= t.len()
            invariant
                zb@.len() <= t@.len() + 1,
                forall|k: int| 0 <= k < zb@.len() ==> !zb@[k],
            decreases t@.len() + 1 - zb@.len(),
        {
            zb.push(false);
        }
        proof {
            assert(zb@ =~= no_breaks(text@));
        }
        let cs = self.split_chars(t.as_slice(), zb.as_slice());
        proof {
            assert forall|i: int| 0 <= i < cs@.len() implies (#[trigger] cs@[i]).0 <= cs@[i].1 <= t@.len() by {
                assert(out_view(cs@)[i] == (cs@[i].0 as int, cs@[i].1 as int, cs@[i].2, cs@[i].3));
            }
        }
        Self::to_sentences(&cs, &offs, Ghost(text@))
    }


    /// Splits `text` into sentences, treating each byte position of `breaks` as a line break
    /// (in any order, repeats allowed): a position outside brackets ends a sentence there. Line
    /// break characters left in `text` follow the splitter's [`LineBreaks`]. Every position must be
    /// a character boundary of `text`.
    pub fn split_with_breaks(&self, text: &str, breaks: &[usize]) -> (r: Vec<Sentence>)
        requires
            forall|i: int|
                0 <= i < breaks@.len() ==> exists|k: int|
                    0 <= k <= text@.len() && byte_pos(text@, k) == #[trigger] breaks@[i],
        ensures
            in_bytes(r@, text@, split_sentences(env_for(self@, text@, break_gaps(text@, breaks@)))),
            split_laws(
                text@,
                split_sentences(env_for(self@, text@, break_gaps(text@, breaks@))),
                text@.len() as int,
            ),
    {
        let (t, offs) = chars_and_offsets(text);
        let n = t.len();
        let total = offs[n];
        let mut at: Vec<usize> = Vec::new();
        while at.len() <= total
            invariant
                at@.len() <= total + 1,
            decreases total + 1 - at@.len(),
        {
            at.push(0);
        }
        let mut k: usize = 0;
        while k < offs.len()
            invariant
                offs@.len() == n + 1,
                n == text@.len(),
                total == byte_pos(text@, n as int),
                at@.len() == total + 1,
                k <= n + 1,
                forall|j: int| 0 <= j <= n ==> #[trigger] offs@[j] == byte_pos(text@, j),
                forall|j: int| 0 <= j < k ==> #[trigger] at@[offs@[j] as int] == j,
            decreases n + 1 - k,
        {
            proof {
                lemma_byte_pos_mono(text@, k as int, n as int);
            }
            at.set(offs[k], k);
            proof {
                assert forall|j: int| 0 <= j < k + 1 implies #[trigger] at@[offs@[j] as int] == j by {
                    if j < k {
                        lemma_byte_pos_strict(text@, j, k as int);
                    }
                }
            }
            k = k + 1;
        }
        let mut zb: Vec<bool> = Vec::new();
        while zb.len() <= n
            invariant
                zb@.len() <= n + 1,
                forall|q: int| 0 <= q < zb@.len() ==> !zb@[q],
            decreases n + 1 - zb@.len(),
        {
            zb.push(false);
        }
        let mut i: usize = 0;
        while i < breaks.len()
            invariant
                offs@.len() == n + 1,
                n == text@.len(),
                total == byte_pos(text@, n as int),
                at@.len() == total + 1,
                zb@.len() == n + 1,
                i <= breaks@.len(),
                forall|j: int| 0 <= j <= n ==> #[trigger] offs@[j] == byte_pos(text@, j),
                forall|j: int| 0 <= j <= n ==> #[trigger] at@[offs@[j] as int] == j,
                forall|i2: int|
                    0 <= i2 < breaks@.len() ==> exists|k2: int|
                        0 <= k2 <= text@.len() && byte_pos(text@, k2) == #[trigger] breaks@[i2],
                forall|q: int|
                    0 <= q <= n ==> zb@[q] == exists|i2: int|
                        0 <= i2 < i && breaks@[i2] == byte_pos(text@, q),
            decreases breaks.len() - i,
        {
            let b = breaks[i];
            let ghost kb = choose|k2: int| 0 <= k2 <= text@.len() && byte_pos(text@, k2) == breaks@[i as int];
            proof {
                lemma_byte_pos_mono(text@, kb, n as int);
                assert(at@[offs@[kb] as int] == kb);
            }
            let kk = at[b];
            zb.set(kk, true);
            proof {
                assert forall|q: int| 0 <= q <= n implies zb@[q] == exists|i2: int|
                    0 <= i2 < i + 1 && breaks@[i2] == byte_pos(text@, q) by {
                    if q == kb {
                        assert(breaks@[i as int] == byte_pos(text@, q));
                    } else {
                        if breaks@[i as int] == byte_pos(text@, q) {
                            if q < kb {
                                lemma_byte_pos_strict(text@, q, kb);
                            } else {
                                lemma_byte_pos_strict(text@, kb, q);
                            }
                        }
                        if exists|i2: int| 0 <= i2 < i + 1 && breaks@[i2] == byte_pos(text@, q) {
                            let i2 = choose|i2: int| 0 <= i2 < i + 1 && breaks@[i2] == byte_pos(text@, q);
                            if i2 == i {
                                if q < kb {
                                    lemma_byte_pos_strict(text@, q, kb);
                                } else {
                                    lemma_byte_pos_strict(text@, kb, q);
                                }
                            }
                        }
                    }
                }
            }
            i = i + 1;
        }
        proof {
            assert(zb@ =~= break_gaps(text@, breaks@));
        }
        let cs = self.split_chars(t.as_slice(), zb.as_slice());
        proof {
            assert forall|i: int| 0 <= i < cs@.len() implies (#[trigger] cs@[i]).0 <= cs@[i].1 <= t@.len() by {
                assert(out_view(cs@)[i] == (cs@[i].0 as int, cs@[i].1 as int, cs@[i].2, cs@[i].3));
            }
        }
        Self::to_sentences(&cs, &offs, Ghost(text@))
    }

}

impl Default for Splitter {
    fn default() -> (s: Self)
        ensures
            s@.line_breaks == LineBreaks::Join,
            s@.words == option_words(SplitOptions { line_breaks: LineBreaks::Join, extra_exceptions: &[], use_builtin_exceptions: true }),
    {
        let o = SplitOptions::default();
        let s = Splitter::new(&o);
        proof {
            assert(o.extra_exceptions@ =~= Seq::<&str>::empty());
            assert(matchable_words(o.extra_exceptions@) =~= matchable_words(Seq::<&str>::empty()));
        }
        s
    }
}

/// Splits `text` into sentences with the given options (builds a [`Splitter`] each time; build
/// one and reuse it to split many texts).
pub fn split(text: &str, options: &SplitOptions) -> (r: Vec<Sentence>)
    ensures
        in_bytes(r@, text@, split_sentences(options_env(*options, text@))),
        split_laws(text@, split_sentences(options_env(*options, text@)), text@.len() as int),
{
    Splitter::new(options).split(text)
}

/// The splitter's input for options and a text without extra line-break gaps.
pub open spec fn options_env(o: SplitOptions, t: Seq<char>) -> SplitEnv {
    SplitEnv {
        words: option_words(o),
        t,
        lines: o.line_breaks == LineBreaks::Split,
        breaks: no_breaks(t),
    }
}

/// Some active ender inside a bracket pair lies in `s..e`.
spec fn emb_in(words: Set<Seq<char>>, t: Seq<char>, s: int, e: int) -> bool {
    exists|p: int| s <= p < e && #[trigger] brackets::is_protected(t, p) && is_active_ender(words, t, p)
}

/// Each sentence says it holds an ender inside brackets exactly when it does.
spec fn emb_law(words: Set<Seq<char>>, t: Seq<char>, out: Seq<CharSentence>) -> bool {
    forall|i: int| 0 <= i < out.len() ==> (#[trigger] out[i]).2 == emb_in(words, t, out[i].0, out[i].1)
}

/// What the split keeps true between characters: the flag covers the current sentence so far,
/// a run of enders is not inside brackets, and the sentences found obey the law.
spec fn emb_inv(env: SplitEnv, st: SplitState, k: int) -> bool {
    &&& 0 <= st.start <= k
    &&& st.emb == emb_in(env.words, env.t, st.start, k)
    &&& st.phase != RunPhase::Normal ==> k >= 1 && !brackets::is_protected(env.t, k - 1)
    &&& emb_law(env.words, env.t, st.out)
}

proof fn lemma_active_not_ws(words: Set<Seq<char>>, t: Seq<char>, p: int)
    requires
        is_active_ender(words, t, p),
    ensures
        !chars::spec_is_whitespace(t[p]),
{
}

proof fn lemma_emb_push(words: Set<Seq<char>>, t: Seq<char>, out: Seq<CharSentence>, s: int, e: int, emb: bool, kind: SentenceEnd)
    requires
        0 <= s <= e <= t.len(),
        emb == emb_in(words, t, s, e),
        emb_law(words, t, out),
    ensures
        emb_law(words, t, push_trimmed(out, t, s, e, emb, kind)),
{
    let a = first_non_ws(t, s, e);
    lemma_first_non_ws(t, s, e);
    lemma_last_non_ws(t, a, e);
    let b = last_non_ws(t, a, e);
    if a < b {
        assert(emb_in(words, t, a, b) == emb) by {
            if emb {
                let p = choose|p: int| s <= p < e && #[trigger] brackets::is_protected(t, p) && is_active_ender(words, t, p);
                lemma_active_not_ws(words, t, p);
                assert(a <= p < b);
            }
        };
        let r = out.push((a, b, emb, kind));
        assert forall|i: int| 0 <= i < r.len() implies (#[trigger] r[i]).2 == emb_in(words, t, r[i].0, r[i].1) by {
            if i < out.len() {
                assert(r[i] == out[i]);
            }
        };
    }
}

proof fn lemma_emb_extend(words: Set<Seq<char>>, t: Seq<char>, s: int, k: int)
    requires
        s <= k,
    ensures
        emb_in(words, t, s, k + 1) == (emb_in(words, t, s, k) || (brackets::is_protected(t, k) && is_active_ender(words, t, k))),
{
    if emb_in(words, t, s, k + 1) && !(brackets::is_protected(t, k) && is_active_ender(words, t, k)) {
        let p = choose|p: int| s <= p < k + 1 && #[trigger] brackets::is_protected(t, p) && is_active_ender(words, t, p);
        assert(p < k);
    }
}

/// A character that continues a run of enders is not inside brackets either.
proof fn lemma_run_unprotected(t: Seq<char>, k: int)
    requires
        1 <= k < t.len(),
        !brackets::is_protected(t, k - 1),
        !(spec_classify(t[k]) is Open),
    ensures
        !brackets::is_protected(t, k),
{
    if brackets::is_protected(t, k) {
        let ps = brackets::bracket_pairs(t);
        let i = choose|i: int| 0 <= i < ps.len() && (#[trigger] ps[i]).0 <= k <= ps[i].1;
        brackets::lemma_pairs_open(t, t.len() as int);
        assert(ps[i].0 != k);
        assert(ps[i].0 <= k - 1 <= ps[i].1);
    }
}

proof fn lemma_emb_step(env: SplitEnv, st: SplitState, k: int)
    requires
        0 <= k < env.t.len(),
        env.breaks.len() == env.t.len() + 1,
        emb_inv(env, st, k),
    ensures
        emb_inv(env, split_step(env, st, k), k + 1),
{
    let t = env.t;
    let w = env.words;
    if st.phase != RunPhase::Normal && continues_run(env, st.phase, k) {
        if is_active_ender(w, t, k) {
            assert(spec_classify(t[k]) is Ender || spec_classify(t[k]) is AsciiEnder);
        } else {
            assert(is_unmatched_close(t, k));
        }
        lemma_run_unprotected(t, k);
        lemma_emb_extend(w, t, st.start, k);
    } else {
        let st0 = if st.phase != RunPhase::Normal {
            close_run(st, t, k)
        } else {
            st
        };
        if st.phase != RunPhase::Normal {
            lemma_emb_push(w, t, st.out, st.start, k, st.emb, SentenceEnd::Ender);
        }
        assert(emb_in(w, t, k, k) == false);
        assert(0 <= st0.start <= k && st0.emb == emb_in(w, t, st0.start, k) && emb_law(w, t, st0.out));
        let st1 = if env.breaks[k] && !brackets::is_protected_gap(t, k) {
            SplitState { start: k, emb: false, phase: st0.phase, out: push_trimmed(st0.out, t, st0.start, k, st0.emb, SentenceEnd::LineBreak) }
        } else {
            st0
        };
        if env.breaks[k] && !brackets::is_protected_gap(t, k) {
            lemma_emb_push(w, t, st0.out, st0.start, k, st0.emb, SentenceEnd::LineBreak);
        }
        assert(0 <= st1.start <= k && st1.emb == emb_in(w, t, st1.start, k) && emb_law(w, t, st1.out));
        lemma_emb_extend(w, t, st1.start, k);
        if brackets::is_protected(t, k) {
        } else if is_active_ender(w, t, k) {
        } else if env.lines && is_counted_line_break(t, k) {
            lemma_emb_push(w, t, st1.out, st1.start, k, st1.emb, SentenceEnd::LineBreak);
            assert(emb_in(w, t, k + 1, k + 1) == false);
        } else {
        }
        assert(split_step(env, st, k) == normal_step(env, st0, k));
    }
}

proof fn lemma_emb_state(env: SplitEnv, k: int)
    requires
        0 <= k <= env.t.len(),
        env.breaks.len() == env.t.len() + 1,
    ensures
        emb_inv(env, split_state(env, k), k),
    decreases k,
{
    if k == 0 {
        assert(emb_in(env.words, env.t, 0, 0) == false);
    } else {
        lemma_emb_state(env, k - 1);
        lemma_emb_step(env, split_state(env, k - 1), k - 1);
    }
}

/// A sentence says that it holds sentence enders inside brackets exactly when an active ender
/// lies inside a matched bracket pair within its own range (so the flag never carries over from
/// the sentence before).
pub proof fn lemma_embedded_enders(env: SplitEnv)
    requires
        env.breaks.len() == env.t.len() + 1,
    ensures
        forall|i: int|
            0 <= i < split_sentences(env).len() ==> ((#[trigger] split_sentences(env)[i]).2 <==> exists|p: int|
                split_sentences(env)[i].0 <= p < split_sentences(env)[i].1 && brackets::is_protected(env.t, p)
                    && is_active_ender(env.words, env.t, p)),
{
    let t = env.t;
    let w = env.words;
    let n = t.len() as int;
    lemma_emb_state(env, n);
    let st = split_state(env, n);
    let st1 = if st.phase != RunPhase::Normal {
        close_run(st, t, n)
    } else {
        st
    };
    if st.phase != RunPhase::Normal {
        lemma_emb_push(w, t, st.out, st.start, n, st.emb, SentenceEnd::Ender);
    }
    assert(emb_in(w, t, n, n) == false);
    assert(0 <= st1.start <= n && st1.emb == emb_in(w, t, st1.start, n) && emb_law(w, t, st1.out));
    let st2 = if env.breaks[n] && !brackets::is_protected_gap(t, n) {
        SplitState { start: n, emb: false, phase: st1.phase, out: push_trimmed(st1.out, t, st1.start, n, st1.emb, SentenceEnd::LineBreak) }
    } else {
        st1
    };
    if env.breaks[n] && !brackets::is_protected_gap(t, n) {
        lemma_emb_push(w, t, st1.out, st1.start, n, st1.emb, SentenceEnd::LineBreak);
    }
    if st2.start < n {
        lemma_emb_push(w, t, st2.out, st2.start, n, st2.emb, SentenceEnd::EndOfText);
    }
    let out = split_sentences(env);
    assert(emb_law(w, t, out));
    assert forall|i: int| 0 <= i < out.len() implies ((#[trigger] out[i]).2 <==> exists|p: int| out[i].0 <= p < out[i].1
        && brackets::is_protected(t, p) && is_active_ender(w, t, p)) by {
        assert(out[i].2 == emb_in(w, t, out[i].0, out[i].1));
    };
}

} // verus!
