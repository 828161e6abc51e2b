//! Extraction of candidate claim transitions: sentences that join a source
//! claim to a target claim through an explicit trigger phrase.
use crate::model::{CandidateView, ClaimCandidate, Span};
use crate::text::{
    append_str, ascii_lower, ascii_text, byte_len, byte_len_at_least, byte_offset, byte_offsets, char_at_byte,
    char_at_byte_of, char_width_of, chars_of, clean, clean_range, find, find_chars, lead_run,
    lemma_byte_len_push, lemma_byte_len_subrange, lemma_byte_offset_mono, lemma_byte_offset_strict,
    lemma_char_at_byte_from, lemma_char_at_byte_offset, lemma_find_from_bounds, lowercase,
    string_of, strip_range, strip_start, sub_vec, text_between, to_lowercase, trim, utf8_len,
    white_space, CharClass,
};
use vstd::prelude::*;

verus! {

// ---------------------------------------------------------------------------
// Sentences
// ---------------------------------------------------------------------------

/// Characters that close a sentence.
pub open spec fn is_sentence_end(c: char) -> bool {
    c == '.' || c == '!' || c == '?' || c == '\n'
}

/// The sentences closed within the first `n` characters of `t`, as character
/// ranges, and where the next sentence starts.
pub open spec fn split_state(t: Seq<char>, n: nat) -> (Seq<(int, int)>, int)
    decreases n,
{
    if n == 0 || n > t.len() {
        (Seq::empty(), 0)
    } else {
        let prev = split_state(t, (n - 1) as nat);
        if is_sentence_end(t[n - 1]) {
            (prev.0.push((prev.1, n as int)), n as int)
        } else {
            prev
        }
    }
}

/// The sentences of `t` as character ranges: each ends just after a `.`,
/// `!`, `?` or newline, and a trailing remainder without one is a sentence
/// too.
pub open spec fn sentence_spans(t: Seq<char>) -> Seq<(int, int)> {
    let st = split_state(t, t.len());
    if st.1 < t.len() {
        st.0.push((st.1, t.len() as int))
    } else {
        st.0
    }
}

/// Sentence ranges are non-empty, in order, and inside the text.
pub open spec fn spans_wf(sp: Seq<(int, int)>, n: int) -> bool {
    &&& forall|i: int| 0 <= i < sp.len() ==> 0 <= (#[trigger] sp[i]).0 < sp[i].1 <= n
    &&& forall|i: int, j: int| 0 <= i < j < sp.len() ==> (#[trigger] sp[i]).1 <= (#[trigger] sp[j]).0
}

pub proof fn lemma_split_state_wf(t: Seq<char>, n: nat)
    requires
        n <= t.len(),
    ensures
        spans_wf(split_state(t, n).0, split_state(t, n).1),
        0 <= split_state(t, n).1 <= n,
    decreases n,
{
    if n > 0 {
        lemma_split_state_wf(t, (n - 1) as nat);
    }
}

pub proof fn lemma_sentence_spans_wf(t: Seq<char>)
    ensures
        spans_wf(sentence_spans(t), t.len() as int),
{
    lemma_split_state_wf(t, t.len());
    let st = split_state(t, t.len());
    assert(spans_wf(st.0, t.len() as int));
}

/// The sentences closed within the first `n` characters tile `0..start`:
/// each closes right after a sentence end and holds none before it, and
/// none lies in `start..n`.
proof fn lemma_split_state_tiles(t: Seq<char>, n: nat)
    requires
        n <= t.len(),
    ensures
        ({
            let st = split_state(t, n);
            &&& st.0.len() == 0 ==> st.1 == 0
            &&& st.0.len() > 0 ==> st.0[0].0 == 0 && st.0.last().1 == st.1
            &&& forall|i: int| 0 <= i < st.0.len() - 1 ==> (#[trigger] st.0[i]).1 == st.0[i + 1].0
            &&& forall|i: int| 0 <= i < st.0.len() ==> is_sentence_end(t[(#[trigger] st.0[i]).1 - 1])
            &&& forall|i: int, k: int|
                0 <= i < st.0.len() && (#[trigger] st.0[i]).0 <= k < st.0[i].1 - 1 ==> !is_sentence_end(
                    #[trigger] t[k],
                )
            &&& forall|k: int| st.1 <= k < n ==> !is_sentence_end(#[trigger] t[k])
        }),
    decreases n,
{
    if n > 0 {
        lemma_split_state_tiles(t, (n - 1) as nat);
        lemma_split_state_wf(t, (n - 1) as nat);
        let prev = split_state(t, (n - 1) as nat);
        let cur = split_state(t, n);
        if is_sentence_end(t[n - 1]) {
            assert forall|i: int| 0 <= i < cur.0.len() - 1 implies (#[trigger] cur.0[i]).1
                == cur.0[i + 1].0 by {
                assert(cur.0[i] == prev.0[i]);
                if i + 1 < prev.0.len() {
                    assert(cur.0[i + 1] == prev.0[i + 1]);
                }
            }
            assert forall|i: int| 0 <= i < cur.0.len() implies is_sentence_end(
                t[(#[trigger] cur.0[i]).1 - 1],
            ) by {
                if i < prev.0.len() {
                    assert(cur.0[i] == prev.0[i]);
                }
            }
            assert forall|i: int, k: int|
                0 <= i < cur.0.len() && (#[trigger] cur.0[i]).0 <= k < cur.0[i].1 - 1 implies !is_sentence_end(
                #[trigger] t[k],
            ) by {
                if i < prev.0.len() {
                    assert(cur.0[i] == prev.0[i]);
                }
            }
        }
    }
}

/// Sentences end where the text says: the ranges tile the text from its
/// start to its end, each ends right after a '.', '!', '?' or newline or at
/// the end of the text, and none holds one of these before its last
/// character.
pub proof fn lemma_sentence_spans_tile(t: Seq<char>)
    ensures
        ({
            let sp = sentence_spans(t);
            &&& sp.len() == 0 <==> t.len() == 0
            &&& sp.len() > 0 ==> sp[0].0 == 0 && sp.last().1 == t.len()
            &&& forall|i: int| 0 <= i < sp.len() - 1 ==> (#[trigger] sp[i]).1 == sp[i + 1].0
            &&& forall|i: int| 0 <= i < sp.len() ==> 0 <= (#[trigger] sp[i]).0 < sp[i].1 <= t.len()
            &&& forall|i: int|
                0 <= i < sp.len() ==> (#[trigger] sp[i]).1 == t.len() || t[sp[i].1 - 1] == '.'
                    || t[sp[i].1 - 1] == '!' || t[sp[i].1 - 1] == '?' || t[sp[i].1 - 1] == '\n'
            &&& forall|i: int, k: int|
                0 <= i < sp.len() && (#[trigger] sp[i]).0 <= k < sp[i].1 - 1 ==> #[trigger] t[k]
                    != '.' && t[k] != '!' && t[k] != '?' && t[k] != '\n'
        }),
{
    lemma_split_state_tiles(t, t.len());
    lemma_split_state_wf(t, t.len());
    lemma_sentence_spans_wf(t);
    let st = split_state(t, t.len());
    let sp = sentence_spans(t);
    if st.1 < t.len() {
        assert forall|i: int| 0 <= i < sp.len() - 1 implies (#[trigger] sp[i]).1 == sp[i + 1].0 by {
            assert(sp[i] == st.0[i]);
            if i + 1 < st.0.len() {
                assert(sp[i + 1] == st.0[i + 1]);
            }
        }
        assert forall|i: int|
            0 <= i < sp.len() implies (#[trigger] sp[i]).1 == t.len() || is_sentence_end(
            t[sp[i].1 - 1],
        ) by {
            if i < st.0.len() {
                assert(sp[i] == st.0[i]);
            }
        }
        assert forall|i: int, k: int|
            0 <= i < sp.len() && (#[trigger] sp[i]).0 <= k < sp[i].1 - 1 implies !is_sentence_end(
            #[trigger] t[k],
        ) by {
            if i < st.0.len() {
                assert(sp[i] == st.0[i]);
            }
        }
    } else {
        assert forall|i: int|
            0 <= i < sp.len() implies (#[trigger] sp[i]).1 == t.len() || is_sentence_end(
            t[sp[i].1 - 1],
        ) by {
            assert(sp[i] == st.0[i]);
        }
    }
}

/// The sentence ranges of `cs`.
pub fn sentence_spans_of(cs: &Vec<char>) -> (r: Vec<(usize, usize)>)
    ensures
        r@.len() == sentence_spans(cs@).len(),
        forall|i: int| 0 <= i < r@.len() ==> (#[trigger] r@[i]).0 as int == sentence_spans(cs@)[i].0
            && r@[i].1 as int == sentence_spans(cs@)[i].1,
{
    let mut spans: Vec<(usize, usize)> = Vec::new();
    let mut start: usize = 0;
    let mut i: usize = 0;
    while i < cs.len()
        invariant
            i <= cs.len(),
            start as int == split_state(cs@, i as nat).1,
            spans@.len() == split_state(cs@, i as nat).0.len(),
            forall|k: int| 0 <= k < spans@.len() ==> (#[trigger] spans@[k]).0 as int == split_state(
                cs@,
                i as nat,
            ).0[k].0 && spans@[k].1 as int == split_state(cs@, i as nat).0[k].1,
        decreases cs.len() - i,
    {
        let c = cs[i];
        if c == '.' || c == '!' || c == '?' || c == '\n' {
            spans.push((start, i + 1));
            start = i + 1;
        }
        i = i + 1;
    }
    if start < cs.len() {
        spans.push((start, cs.len()));
    }
    spans
}

// ---------------------------------------------------------------------------
// Triggers
// ---------------------------------------------------------------------------

/// The phrases that mark a claim transition, in order of preference.
pub const TRIGGERS: [&'static str; 13] = [
    "therefore",
    "this proves",
    "this shows",
    "implies",
    "proves",
    "shows",
    "means",
    "must",
    "guarantees",
    "under assumptions",
    "in practice",
    "clearly",
    "obviously",
];

pub open spec fn trigger_words() -> Seq<Seq<char>> {
    seq![
        "therefore"@,
        "this proves"@,
        "this shows"@,
        "implies"@,
        "proves"@,
        "shows"@,
        "means"@,
        "must"@,
        "guarantees"@,
        "under assumptions"@,
        "in practice"@,
        "clearly"@,
        "obviously"@,
    ]
}

pub proof fn lemma_triggers()
    ensures
        TRIGGERS@.len() == 13,
        forall|i: int| 0 <= i < 13 ==> (#[trigger] TRIGGERS@[i])@ == trigger_words()[i],
{
}


/// The earliest trigger among the first `n` triggers that occurs in `lower`,
/// as (trigger number, character index); on a tie the earlier trigger wins.
pub open spec fn earliest_from(lower: Seq<char>, n: nat) -> Option<(nat, nat)>
    decreases n,
{
    if n == 0 {
        None
    } else {
        let best = earliest_from(lower, (n - 1) as nat);
        match find(lower, trigger_words()[n - 1]) {
            None => best,
            Some(i) => match best {
                Some(b) => if b.1 <= i {
                    best
                } else {
                    Some(((n - 1) as nat, i))
                },
                None => Some(((n - 1) as nat, i)),
            },
        }
    }
}

/// The earliest trigger phrase in a lowercase sentence.
pub open spec fn earliest_trigger_spec(lower: Seq<char>) -> Option<(nat, nat)> {
    earliest_from(lower, 13)
}

pub proof fn lemma_earliest_from(lower: Seq<char>, n: nat)
    requires
        n <= 13,
    ensures
        earliest_from(lower, n) matches Some(b) ==> b.0 < n && b.1 + trigger_words()[b.0 as int].len()
            <= lower.len(),
    decreases n,
{
    if n > 0 {
        lemma_earliest_from(lower, (n - 1) as nat);
        lemma_find_from_bounds(lower, trigger_words()[n - 1], 0);
    }
}

fn earliest_trigger_chars(lower: &Vec<char>) -> (r: Option<(usize, usize)>)
    ensures
        r matches Some(b) ==> earliest_trigger_spec(lower@) == Some((b.0 as nat, b.1 as nat)),
        r is None ==> earliest_trigger_spec(lower@) is None,
{
    proof {
        lemma_triggers();
    }
    let mut best: Option<(usize, usize)> = None;
    let mut n: usize = 0;
    while n < 13
        invariant
            n <= 13,
            best matches Some(b) ==> earliest_from(lower@, n as nat) == Some((b.0 as nat, b.1 as nat)),
            best is None ==> earliest_from(lower@, n as nat) is None,
        decreases 13 - n,
    {
        proof {
            lemma_triggers();
        }
        let word = chars_of(TRIGGERS[n]);
        match find_chars(lower, &word) {
            Some(i) => {
                match best {
                    Some(b) => {
                        if b.1 > i {
                            best = Some((n, i));
                        }
                    },
                    None => {
                        best = Some((n, i));
                    },
                }
            },
            None => {},
        }
        n = n + 1;
    }
    best
}

/// The earliest trigger phrase in a lowercase sentence and its byte offset.
pub fn earliest_trigger(lower_sentence: &str) -> (r: Option<(&'static str, usize)>)
    ensures
        r is None <==> earliest_trigger_spec(lower_sentence@) is None,
        r matches Some(found) ==> earliest_trigger_spec(lower_sentence@) matches Some(b) && found.0@
            == trigger_words()[b.0 as int] && found.1 == byte_offset(lower_sentence@, b.1 as int),
{
    let lower = chars_of(lower_sentence);
    let total = utf8_len(lower_sentence);
    let offs = byte_offsets(&lower);
    match earliest_trigger_chars(&lower) {
        Some(b) => {
            proof {
                lemma_earliest_from(lower@, 13);
                lemma_triggers();
            }
            Some((TRIGGERS[b.0], offs[b.1]))
        },
        None => None,
    }
}

// ---------------------------------------------------------------------------
// Cutting a sentence around a matched phrase
// ---------------------------------------------------------------------------

/// The cleaned text before byte `b1` and after byte `b2`, where both must
/// fall on character boundaries of `text` (slicing elsewhere is refused).
pub open spec fn cut_at_bytes(text: Seq<char>, b1: int, b2: int) -> Option<(Seq<char>, Seq<char>)> {
    match char_at_byte(text, b1) {
        Some(k1) => match char_at_byte(text, b2) {
            Some(k2) => Some((clean(text.take(k1 as int)), clean(text.skip(k2 as int)))),
            None => None,
        },
        None => None,
    }
}

/// `text` cut around the phrase `word` that was found at character `ci` of
/// its lowercase form `lower`; byte offsets are those of `lower`.
pub open spec fn cut_around(text: Seq<char>, lower: Seq<char>, word: Seq<char>, ci: nat) -> Option<
    (Seq<char>, Seq<char>),
> {
    cut_at_bytes(
        text,
        byte_offset(lower, ci as int) as int,
        (byte_offset(lower, ci as int) + byte_len(word)) as int,
    )
}

proof fn lemma_char_at_byte_bound(s: Seq<char>, b: int)
    ensures
        char_at_byte(s, b) matches Some(k) ==> k <= s.len() && byte_offset(s, k as int) == b && b
            <= byte_len(s),
{
    lemma_char_at_byte_from(s, b, 0);
    if char_at_byte(s, b) is Some {
        let k = char_at_byte(s, b)->0;
        lemma_byte_offset_mono(s, k as int, s.len() as int);
        assert(s.take(s.len() as int) =~= s);
    }
}

fn char_at_byte_plus(offs: &Vec<usize>, b1: usize, extra: usize, Ghost(s): Ghost<Seq<char>>) -> (r:
    Option<usize>)
    requires
        offs.len() == s.len() + 1,
        forall|k: int| 0 <= k <= s.len() ==> #[trigger] offs@[k] == byte_offset(s, k),
        byte_len(s) <= usize::MAX,
    ensures
        r matches Some(k) ==> char_at_byte(s, b1 + extra) == Some(k as nat) && k <= s.len(),
        r is None ==> char_at_byte(s, b1 + extra) is None,
{
    match b1.checked_add(extra) {
        Some(b) => char_at_byte_of(offs, b, Ghost(s)),
        None => {
            proof {
                lemma_char_at_byte_bound(s, b1 + extra);
            }
            None
        },
    }
}

/// `cut_around` on vectors; the result is given as two ranges of `text`.
fn cut_around_chars(
    text: &Vec<char>,
    toffs: &Vec<usize>,
    lower: &Vec<char>,
    loffs: &Vec<usize>,
    word: &str,
    ci: usize,
) -> (r: Option<((usize, usize), (usize, usize))>)
    requires
        toffs.len() == text.len() + 1,
        forall|k: int| 0 <= k <= text.len() ==> #[trigger] toffs@[k] == byte_offset(text@, k),
        loffs.len() == lower.len() + 1,
        forall|k: int| 0 <= k <= lower.len() ==> #[trigger] loffs@[k] == byte_offset(lower@, k),
        byte_len(text@) <= usize::MAX,
        ci <= lower.len(),
    ensures
        r is None <==> cut_around(text@, lower@, word@, ci as nat) is None,
        r matches Some(rr) ==> ({
            let (p, q) = rr.0;
            let (u, w) = rr.1;
            &&& p <= q <= text.len()
            &&& u <= w <= text.len()
            &&& cut_around(text@, lower@, word@, ci as nat) == Some(
                (text@.subrange(p as int, q as int), text@.subrange(u as int, w as int)),
            )
        }),
{
    let b1 = loffs[ci];
    let tb = word.as_bytes().len();
    let k1 = match char_at_byte_of(toffs, b1, Ghost(text@)) {
        Some(k) => k,
        None => {
            return None;
        },
    };
    let k2 = match char_at_byte_plus(toffs, b1, tb, Ghost(text@)) {
        Some(k) => k,
        None => {
            return None;
        },
    };
    let src = clean_range(text, 0, k1);
    let tgt = clean_range(text, k2, text.len());
    proof {
        assert(text@.take(k1 as int) =~= text@.subrange(0, k1 as int));
        assert(text@.skip(k2 as int) =~= text@.subrange(k2 as int, text.len() as int));
    }
    Some((src, tgt))
}

// ---------------------------------------------------------------------------
// Secondary transitions
// ---------------------------------------------------------------------------

/// Inner phrases that split a target text into a second source and target.
pub open spec fn secondary_tokens() -> Seq<Seq<char>> {
    seq![" implies "@, " means "@, " proves "@, " shows "@, " guarantees "@, " must "@]
}

/// The first inner phrase, from token `n` on, that splits `text` (with
/// lowercase form `lower`) into two parts of at least five bytes each.
pub open spec fn secondary_from(text: Seq<char>, lower: Seq<char>, n: nat) -> Option<
    (Seq<char>, Seq<char>),
>
    decreases 6 - n,
{
    if n >= 6 {
        None
    } else {
        let rest = secondary_from(text, lower, n + 1);
        match find(lower, secondary_tokens()[n as int]) {
            None => rest,
            Some(ci) => match cut_around(text, lower, secondary_tokens()[n as int], ci) {
                Some(p) => if byte_len(p.0) >= 5 && byte_len(p.1) >= 5 {
                    Some(p)
                } else {
                    rest
                },
                None => rest,
            },
        }
    }
}

/// A source/target split inside `text`, whose lowercase form is `lower`.
pub open spec fn secondary_split(text: Seq<char>, lower: Seq<char>) -> Option<(Seq<char>, Seq<char>)> {
    secondary_from(text, lower, 0)
}

fn secondary_tokens_exec() -> (r: Vec<&'static str>)
    ensures
        r@.len() == 6,
        forall|i: int| 0 <= i < 6 ==> (#[trigger] r@[i])@ == secondary_tokens()[i],
{
    vec![" implies ", " means ", " proves ", " shows ", " guarantees ", " must "]
}

/// The secondary split of `text` (see `secondary_split`).
fn secondary_chars(text: &Vec<char>, lower: &Vec<char>) -> (r: Option<(Vec<char>, Vec<char>)>)
    requires
        byte_len(text@) <= usize::MAX,
        byte_len(lower@) <= usize::MAX,
    ensures
        r is None <==> secondary_split(text@, lower@) is None,
        r matches Some(p) ==> secondary_split(text@, lower@) == Some((p.0@, p.1@)),
{
    let toffs = byte_offsets(text);
    let loffs = byte_offsets(lower);
    let tokens = secondary_tokens_exec();
    let mut n: usize = 0;
    while n < 6
        invariant
            n <= 6,
            tokens@.len() == 6,
            forall|i: int| 0 <= i < 6 ==> (#[trigger] tokens@[i])@ == secondary_tokens()[i],
            toffs.len() == text.len() + 1,
            forall|k: int| 0 <= k <= text.len() ==> #[trigger] toffs@[k] == byte_offset(text@, k),
            loffs.len() == lower.len() + 1,
            forall|k: int| 0 <= k <= lower.len() ==> #[trigger] loffs@[k] == byte_offset(lower@, k),
            byte_len(text@) <= usize::MAX,
            secondary_split(text@, lower@) == secondary_from(text@, lower@, n as nat),
        decreases 6 - n,
    {
        let tok = chars_of(tokens[n]);
        match find_chars(lower, &tok) {
            Some(ci) => {
                proof {
                    lemma_find_from_bounds(lower@, tok@, 0);
                }
                match cut_around_chars(text, &toffs, lower, &loffs, tokens[n], ci) {
                    Some(rr) => {
                        let src = sub_vec(text, rr.0.0, rr.0.1);
                        let tgt = sub_vec(text, rr.1.0, rr.1.1);
                        if byte_len_at_least(&src, 5) && byte_len_at_least(&tgt, 5) {
                            return Some((src, tgt));
                        }
                    },
                    None => {},
                }
            },
            None => {},
        }
        n = n + 1;
    }
    None
}

/// Splits `text` at the first inner transition phrase (" implies ",
/// " means ", " proves ", " shows ", " guarantees ", " must ") that leaves
/// at least five bytes on each side, given the lowercase form of `text`.
/// The phrase is found in `lowered` and `text` is cut at the same byte
/// offsets; a phrase whose offsets are not character boundaries of `text` is
/// passed over.
pub fn split_secondary_lowered(text: &str, lowered: &str) -> (r: Option<(String, String)>)
    ensures
        r is None <==> secondary_split(text@, lowered@) is None,
        r matches Some(p) ==> secondary_split(text@, lowered@) == Some((p.0@, p.1@)),
{
    let t = chars_of(text);
    let l = chars_of(lowered);
    let tb = utf8_len(text);
    let lb = utf8_len(lowered);
    match secondary_chars(&t, &l) {
        Some(p) => Some((string_of(&p.0, 0, p.0.len()), string_of(&p.1, 0, p.1.len()))),
        None => None,
    }
}

/// Splits `text` at its first inner transition phrase, searched for in
/// lowercase (`str::to_lowercase`); see `split_secondary_lowered`.
pub fn split_secondary_transition(text: &str) -> (r: Option<(String, String)>)
    ensures
        r is None <==> secondary_split(text@, lowercase(text@)) is None,
        r matches Some(p) ==> secondary_split(text@, lowercase(text@)) == Some((p.0@, p.1@)),
{
    let lower = to_lowercase(text);
    split_secondary_lowered(text, lower.as_str())
}


// ---------------------------------------------------------------------------
// Path descriptions
// ---------------------------------------------------------------------------

pub open spec fn newline_to_space(s: Seq<char>) -> Seq<char> {
    s.map_values(|c: char| if c == '\n' { ' ' } else { c })
}

/// The longest prefix length, from `k` on, whose encoding fits in `limit`
/// bytes.
pub open spec fn fit_from(s: Seq<char>, limit: nat, k: nat) -> nat
    decreases s.len() - k,
{
    if k < s.len() && byte_offset(s, (k + 1) as int) <= limit {
        fit_from(s, limit, k + 1)
    } else {
        k
    }
}

/// The text, trimmed and on one line; over 90 bytes it is cut to at most 87
/// bytes (at a character boundary) and marked with "...".
pub open spec fn compact(s: Seq<char>) -> Seq<char> {
    let v = newline_to_space(trim(s));
    if byte_len(v) > 90 {
        v.take(fit_from(v, 87, 0) as int) + "..."@
    } else {
        v
    }
}

/// "<source> -> <target> via '<trigger>'", with both claims compacted.
pub open spec fn path_description(src: Seq<char>, tgt: Seq<char>, trigger: Seq<char>) -> Seq<char> {
    compact(src) + " -> "@ + compact(tgt) + " via '"@ + trigger + "'"@
}

/// `v` trimmed, with each newline replaced by a space.
fn one_line(v: &Vec<char>) -> (m: Vec<char>)
    ensures
        m@ == newline_to_space(trim(v@)),
{
    let (a, b) = strip_range(v, 0, v.len(), CharClass::Space);
    proof {
        assert(v@.subrange(0, v.len() as int) =~= v@);
    }
    let mut m: Vec<char> = Vec::new();
    let mut i = a;
    while i < b
        invariant
            a <= i <= b <= v.len(),
            m@ == newline_to_space(v@.subrange(a as int, i as int)),
        decreases b - i,
    {
        let c = v[i];
        if c == '\n' {
            m.push(' ');
        } else {
            m.push(c);
        }
        proof {
            assert(newline_to_space(v@.subrange(a as int, i + 1)) =~= newline_to_space(
                v@.subrange(a as int, i as int),
            ).push(if c == '\n' { ' ' } else { c }));
        }
        i = i + 1;
    }
    m
}

/// The longest prefix of `m` that fits in 87 bytes: its length in
/// characters and in bytes.
fn cut_point(m: &Vec<char>) -> (r: (usize, usize))
    ensures
        r.0 == fit_from(m@, 87, 0),
        r.0 <= m.len(),
        r.1 == byte_offset(m@, r.0 as int),
        r.1 <= 87,
        r.0 < m.len() ==> byte_offset(m@, r.0 + 1) > 87,
{
    let mut k: usize = 0;
    let mut acc: usize = 0;
    proof {
        assert(m@.take(0) =~= Seq::<char>::empty());
    }
    while k < m.len() && acc + char_width_of(m[k]) <= 87
        invariant
            k <= m.len(),
            acc == byte_offset(m@, k as int),
            acc <= 87,
            fit_from(m@, 87, 0) == fit_from(m@, 87, k as nat),
        decreases m.len() - k,
    {
        proof {
            assert(m@.take(k + 1) =~= m@.take(k as int).push(m@[k as int]));
            lemma_byte_len_push(m@.take(k as int), m@[k as int]);
        }
        acc = acc + char_width_of(m[k]);
        k = k + 1;
    }
    proof {
        if k < m.len() {
            assert(m@.take(k + 1) =~= m@.take(k as int).push(m@[k as int]));
            lemma_byte_len_push(m@.take(k as int), m@[k as int]);
        }
    }
    (k, acc)
}

/// `compact` as a string.
pub fn compact_text(v: &Vec<char>) -> (r: String)
    ensures
        r@ == compact(v@),
{
    let m = one_line(v);
    if byte_len_at_least(&m, 91) {
        let (k, acc) = cut_point(&m);
        let mut out = string_of(&m, 0, k);
        append_str(&mut out, "...");
        out
    } else {
        string_of(&m, 0, m.len())
    }
}

// ---------------------------------------------------------------------------
// Candidates
// ---------------------------------------------------------------------------

/// The first steps on sentence `idx` of `t`. The sentence is trimmed; under
/// 12 bytes, or without a trigger (searched for in lowercase), there is
/// nothing to cut (`Some(None)`). Otherwise the sentence is cut around the
/// earliest trigger at the byte offsets found in the lowercase form, which
/// must be character boundaries of the sentence (`None` where they are
/// not). The result is the trigger's index, the source (taken from the
/// previous sentence where it is empty) and the target.
pub open spec fn sentence_cut(t: Seq<char>, idx: int) -> Option<Option<(nat, Seq<char>, Seq<char>)>> {
    let spans = sentence_spans(t);
    let sentence = trim(t.subrange(spans[idx].0, spans[idx].1));
    if byte_len(sentence) < 12 {
        Some(None)
    } else {
        let lower = lowercase(sentence);
        match earliest_trigger_spec(lower) {
            None => Some(None),
            Some(b) => match cut_around(sentence, lower, trigger_words()[b.0 as int], b.1) {
                None => None,
                Some(parts) => {
                    let src = if parts.0.len() == 0 && idx > 0 {
                        clean(t.subrange(spans[idx - 1].0, spans[idx - 1].1))
                    } else {
                        parts.0
                    };
                    Some(Some((b.0, src, parts.1)))
                },
            },
        }
    }
}

/// Source and target after the cut: an empty source makes way for a
/// secondary split of the target, where there is one.
pub open spec fn final_pair(src: Seq<char>, tgt: Seq<char>) -> (Seq<char>, Seq<char>) {
    if src.len() == 0 {
        match secondary_split(tgt, lowercase(tgt)) {
            Some(p) => p,
            None => (src, tgt),
        }
    } else {
        (src, tgt)
    }
}

/// The candidate found in sentence `idx` of `t`, if any: after the cut
/// (`sentence_cut`) and the secondary split (`final_pair`), both parts need
/// at least 5 bytes. The span runs from the first non-blank character of the
/// sentence to its end, in bytes.
pub open spec fn candidate_at(t: Seq<char>, idx: int) -> Option<CandidateView> {
    let spans = sentence_spans(t);
    let s = spans[idx].0;
    let e = spans[idx].1;
    match sentence_cut(t, idx) {
        Some(Some(cut)) => {
            let trig = trigger_words()[cut.0 as int];
            let pair = final_pair(cut.1, cut.2);
            if byte_len(pair.0) < 5 || byte_len(pair.1) < 5 {
                None
            } else {
                Some(
                    CandidateView {
                        span: Span {
                            start: byte_offset(t, s + lead_run(t.subrange(s, e), CharClass::Space))
                                as usize,
                            end: byte_offset(t, e) as usize,
                        },
                        source_text: pair.0,
                        target_text: pair.1,
                        trigger: trig,
                        path_description: path_description(pair.0, pair.1, trig),
                    },
                )
            }
        },
        _ => None,
    }
}

/// The candidates of the first `n` sentences of `t`, in order.
pub open spec fn candidates_upto(t: Seq<char>, n: nat) -> Seq<CandidateView>
    decreases n,
{
    if n == 0 {
        Seq::empty()
    } else {
        let prev = candidates_upto(t, (n - 1) as nat);
        match candidate_at(t, n - 1) {
            Some(c) => prev.push(c),
            None => prev,
        }
    }
}

/// The candidates of every sentence of `t`, in order.
pub open spec fn candidates_spec(t: Seq<char>) -> Seq<CandidateView> {
    candidates_upto(t, sentence_spans(t).len())
}

pub open spec fn candidates_view(v: Seq<ClaimCandidate>) -> Seq<CandidateView> {
    v.map_values(|c: ClaimCandidate| c@)
}

pub open spec fn opt_candidate_view(o: Option<ClaimCandidate>) -> Option<CandidateView> {
    match o {
        Some(c) => Some(c@),
        None => None,
    }
}

proof fn lemma_subrange_bytes_bounded(s: Seq<char>, i: int, j: int)
    requires
        0 <= i <= j <= s.len(),
    ensures
        byte_len(s.subrange(i, j)) <= byte_len(s),
        byte_offset(s, j) <= byte_len(s),
{
    lemma_byte_len_subrange(s, i, j);
    lemma_byte_offset_mono(s, j, s.len() as int);
    assert(s.take(s.len() as int) =~= s);
}

/// `sentence_cut` on vectors; `cs` comes with its byte offsets and sentence
/// ranges.
fn sentence_cut_of(cs: &Vec<char>, offs: &Vec<usize>, spans: &Vec<(usize, usize)>, idx: usize) -> (r:
    Option<Option<(usize, Vec<char>, Vec<char>)>>)
    requires
        byte_len(cs@) <= usize::MAX,
        offs.len() == cs.len() + 1,
        forall|k: int| 0 <= k <= cs.len() ==> #[trigger] offs@[k] == byte_offset(cs@, k),
        spans@.len() == sentence_spans(cs@).len(),
        forall|i: int| 0 <= i < spans@.len() ==> (#[trigger] spans@[i]).0 as int == sentence_spans(
            cs@,
        )[i].0 && spans@[i].1 as int == sentence_spans(cs@)[i].1,
        idx < spans@.len(),
    ensures
        r is None <==> sentence_cut(cs@, idx as int) is None,
        r matches Some(None) ==> sentence_cut(cs@, idx as int) matches Some(None),
        r matches Some(Some(c)) ==> sentence_cut(cs@, idx as int) == Some(
            Some((c.0 as nat, c.1@, c.2@)),
        ) && c.0 < 13 && byte_len(c.2@) <= usize::MAX,
        lowered_as_ascii(cs@, idx as int),
{
    proof {
        lemma_sentence_spans_wf(cs@);
    }
    let ghost t = cs@;
    let (s, e) = spans[idx];
    let (a, b) = strip_range(cs, s, e, CharClass::Space);
    let sent = sub_vec(cs, a, b);
    if !byte_len_at_least(&sent, 12) {
        return Some(None);
    }
    proof {
        lemma_subrange_bytes_bounded(t, a as int, b as int);
    }
    let sent_str = string_of(&sent, 0, sent.len());
    proof {
        assert(sent@.subrange(0, sent.len() as int) =~= sent@);
    }
    proof {
        if ascii_text(cs@) {
            assert forall|i: int| 0 <= i < sent_str@.len() implies (#[trigger] sent_str@[i] as u32)
                < 128 by {
                assert(sent_str@[i] == cs@[a + i]);
            }
        }
    }
    let lower_str = to_lowercase(sent_str.as_str());
    let lb = utf8_len(lower_str.as_str());
    let lower = chars_of(lower_str.as_str());
    let loffs = byte_offsets(&lower);
    let soffs = byte_offsets(&sent);
    let found = match earliest_trigger_chars(&lower) {
        Some(f) => f,
        None => {
            return Some(None);
        },
    };
    proof {
        lemma_earliest_from(lower@, 13);
        lemma_triggers();
    }
    let parts = match cut_around_chars(&sent, &soffs, &lower, &loffs, TRIGGERS[found.0], found.1) {
        Some(p) => p,
        None => {
            return None;
        },
    };
    let mut src = sub_vec(&sent, parts.0.0, parts.0.1);
    let tgt = sub_vec(&sent, parts.1.0, parts.1.1);
    if src.len() == 0 && idx > 0 {
        let (ps, pe) = spans[idx - 1];
        let (x, y) = clean_range(cs, ps, pe);
        src = sub_vec(cs, x, y);
    }
    proof {
        lemma_subrange_bytes_bounded(sent@, parts.1.0 as int, parts.1.1 as int);
    }
    Some(Some((found.0, src, tgt)))
}

/// The candidate of sentence `idx` (see `candidate_at`).
fn candidate_in(cs: &Vec<char>, offs: &Vec<usize>, spans: &Vec<(usize, usize)>, idx: usize) -> (r:
    Option<ClaimCandidate>)
    requires
        byte_len(cs@) <= usize::MAX,
        offs.len() == cs.len() + 1,
        forall|k: int| 0 <= k <= cs.len() ==> #[trigger] offs@[k] == byte_offset(cs@, k),
        spans@.len() == sentence_spans(cs@).len(),
        forall|i: int| 0 <= i < spans@.len() ==> (#[trigger] spans@[i]).0 as int == sentence_spans(
            cs@,
        )[i].0 && spans@[i].1 as int == sentence_spans(cs@)[i].1,
        idx < spans@.len(),
    ensures
        opt_candidate_view(r) == candidate_at(cs@, idx as int),
        lowered_as_ascii(cs@, idx as int),
{
    proof {
        lemma_sentence_spans_wf(cs@);
    }
    let (trig_idx, mut src, mut tgt) = match sentence_cut_of(cs, offs, spans, idx) {
        Some(Some(c)) => c,
        _ => {
            return None;
        },
    };
    proof {
        lemma_triggers();
    }
    let trig: &'static str = TRIGGERS[trig_idx];
    if src.len() == 0 {
        let tgt_str = string_of(&tgt, 0, tgt.len());
        proof {
            assert(tgt@.subrange(0, tgt.len() as int) =~= tgt@);
        }
        match split_secondary_transition(tgt_str.as_str()) {
            Some(p) => {
                src = chars_of(p.0.as_str());
                tgt = chars_of(p.1.as_str());
            },
            None => {},
        }
    }
    if !byte_len_at_least(&src, 5) || !byte_len_at_least(&tgt, 5) {
        return None;
    }
    let source_text = string_of(&src, 0, src.len());
    let target_text = string_of(&tgt, 0, tgt.len());
    proof {
        assert(src@.subrange(0, src.len() as int) =~= src@);
        assert(tgt@.subrange(0, tgt.len() as int) =~= tgt@);
    }
    let mut desc = compact_text(&src);
    append_str(&mut desc, " -> ");
    let compact_target = compact_text(&tgt);
    append_str(&mut desc, compact_target.as_str());
    append_str(&mut desc, " via '");
    append_str(&mut desc, trig);
    append_str(&mut desc, "'");
    let (s, e) = spans[idx];
    let (a, b) = strip_range(cs, s, e, CharClass::Space);
    let cand = ClaimCandidate {
        span: Span { start: offs[a], end: offs[e] },
        source_text,
        target_text,
        trigger: String::from_str(trig),
        path_description: desc,
    };
    Some(cand)
}

/// The claim transitions of a text, one per qualifying sentence, in order
/// (see `candidate_at`). Extraction is total: a sentence whose trigger
/// offsets (found in its lowercase form) are not character boundaries gives
/// no candidate, and compacting cuts at the last boundary within 87 bytes.
pub fn extract_candidates(text: &str) -> (r: Vec<ClaimCandidate>)
    ensures
        candidates_view(r@) == candidates_spec(text@),
        forall|i: int|
            0 <= i < r@.len() ==> candidate_anchored((#[trigger] r@[i])@, byte_len(text@))
                && span_text_ok(r@[i]@, text@),
        ascii_text(text@) ==> forall|i: int|
            0 <= i < r@.len() ==> trigger_is_first((#[trigger] r@[i])@, text@),
        ascii_text(text@) && no_trigger_in(ascii_lower(text@)) ==> r@.len() == 0,
        forall|i: int, j: int|
            0 <= i < j < r@.len() ==> (#[trigger] r@[i]).span.end <= (#[trigger] r@[j]).span.start,
{
    let cs = chars_of(text);
    let total = utf8_len(text);
    let offs = byte_offsets(&cs);
    let spans = sentence_spans_of(&cs);
    let mut out: Vec<ClaimCandidate> = Vec::new();
    let mut idx: usize = 0;
    while idx < spans.len()
        invariant
            idx <= spans@.len(),
            cs@ == text@,
            byte_len(cs@) <= usize::MAX,
            offs.len() == cs.len() + 1,
            forall|k: int| 0 <= k <= cs.len() ==> #[trigger] offs@[k] == byte_offset(cs@, k),
            spans@.len() == sentence_spans(cs@).len(),
            forall|i: int| 0 <= i < spans@.len() ==> (#[trigger] spans@[i]).0 as int
                == sentence_spans(cs@)[i].0 && spans@[i].1 as int == sentence_spans(cs@)[i].1,
            candidates_view(out@) == candidates_upto(cs@, idx as nat),
            ascii_text(cs@) ==> forall|k: int|
                0 <= k < out@.len() ==> trigger_is_first((#[trigger] out@[k])@, cs@),
            ascii_text(cs@) && no_trigger_in(ascii_lower(cs@)) ==> out@.len() == 0,
        decreases spans@.len() - idx,
    {
        let found = candidate_in(&cs, &offs, &spans, idx);
        match found {
            Some(c) => {
                proof {
                    if ascii_text(cs@) {
                        lemma_ascii_candidate(cs@, idx as int);
                    }
                    assert forall|k: int| 0 <= k < out@.len() + 1 && ascii_text(cs@) implies
                        trigger_is_first((#[trigger] out@.push(c)[k])@, cs@) by {
                        if k < out@.len() {
                            assert(out@.push(c)[k] == out@[k]);
                        }
                    }
                    assert(candidates_view(out@.push(c)) =~= candidates_view(out@).push(c@));
                }
                out.push(c);
            },
            None => {},
        }
        idx = idx + 1;
    }
    proof {
        lemma_candidates_anchored_in_order(cs@);
        let spec_c = candidates_spec(text@);
        assert(candidates_view(out@) == spec_c);
        assert forall|i: int| 0 <= i < out@.len() implies candidate_anchored(
            (#[trigger] out@[i])@,
            byte_len(text@),
        ) && span_text_ok(out@[i]@, text@) by {
            assert(candidates_view(out@)[i] == out@[i]@);
            assert(candidate_anchored(spec_c[i], byte_len(text@)));
            assert(span_text_ok(spec_c[i], text@));
        }
        assert forall|i: int, j: int| 0 <= i < j < out@.len() implies (#[trigger] out@[i]).span.end
            <= (#[trigger] out@[j]).span.start by {
            assert(candidates_view(out@)[i] == out@[i]@);
            assert(candidates_view(out@)[j] == out@[j]@);
            assert(spec_c[i].span.end <= spec_c[j].span.start);
        }
    }
    out
}

// ---------------------------------------------------------------------------
// Laws
// ---------------------------------------------------------------------------

/// A candidate is anchored: its span is non-empty and lies inside the text,
/// its trigger is one of the trigger phrases, and both claims have at least
/// five bytes.
pub open spec fn candidate_anchored(c: CandidateView, text_bytes: nat) -> bool {
    &&& c.span.start < c.span.end <= text_bytes
    &&& trigger_words().contains(c.trigger)
    &&& byte_len(c.source_text) >= 5
    &&& byte_len(c.target_text) >= 5
}

/// The text of a candidate's span in `t`: both offsets are character
/// boundaries, the span starts at a non-blank character, and its trimmed
/// text has at least 12 bytes.
pub open spec fn span_text_ok(c: CandidateView, t: Seq<char>) -> bool {
    let sp = text_between(t, c.span.start as int, c.span.end as int);
    &&& char_at_byte(t, c.span.start as int) is Some
    &&& char_at_byte(t, c.span.end as int) is Some
    &&& sp.len() > 0
    &&& !white_space(sp[0])
    &&& byte_len(trim(sp)) >= 12
}

/// The trimmed text of sentence `idx` of `t`.
pub open spec fn sentence_text(t: Seq<char>, idx: int) -> Seq<char> {
    trim(t.subrange(sentence_spans(t)[idx].0, sentence_spans(t)[idx].1))
}

/// Where `t` is ASCII, the lowercase form of sentence `idx` (when it is long
/// enough to be searched for a trigger) is its ASCII lowercase form.
pub open spec fn lowered_as_ascii(t: Seq<char>, idx: int) -> bool {
    ascii_text(t) && byte_len(sentence_text(t, idx)) >= 12 ==> lowercase(sentence_text(t, idx))
        == ascii_lower(sentence_text(t, idx))
}

/// The candidate's trigger is the earliest trigger phrase (ties going to the
/// earlier phrase of `TRIGGERS`) in the ASCII lowercase form of its trimmed
/// span text.
pub open spec fn trigger_is_first(c: CandidateView, t: Seq<char>) -> bool {
    earliest_trigger_spec(
        ascii_lower(trim(text_between(t, c.span.start as int, c.span.end as int))),
    ) matches Some(b) && trigger_words()[b.0 as int] == c.trigger
}

/// No trigger phrase occurs in `h`.
pub open spec fn no_trigger_in(h: Seq<char>) -> bool {
    forall|n: int, j: int|
        0 <= n < 13 && 0 <= j && j + trigger_words()[n].len() <= h.len() ==> #[trigger] h.subrange(
            j,
            j + trigger_words()[n].len(),
        ) != trigger_words()[n]
}

/// The earliest trigger is found where `find` finds it.
proof fn lemma_earliest_found(lower: Seq<char>, n: nat)
    ensures
        earliest_from(lower, n) matches Some(b) ==> find(lower, trigger_words()[b.0 as int]) == Some(
            b.1,
        ),
    decreases n,
{
    if n > 0 {
        lemma_earliest_found(lower, (n - 1) as nat);
    }
}

proof fn lemma_candidate_at(t: Seq<char>, idx: int)
    requires
        byte_len(t) <= usize::MAX,
        0 <= idx < sentence_spans(t).len(),
    ensures
        candidate_at(t, idx) matches Some(c) ==> candidate_anchored(c, byte_len(t))
            && span_text_ok(c, t) && byte_offset(t, sentence_spans(t)[idx].0) <= c.span.start
            && c.span.end == byte_offset(t, sentence_spans(t)[idx].1) && trim(
            text_between(t, c.span.start as int, c.span.end as int),
        ) == sentence_text(t, idx),
{
    lemma_sentence_spans_wf(t);
    let spans = sentence_spans(t);
    let s = spans[idx].0;
    let e = spans[idx].1;
    let raw = t.subrange(s, e);
    crate::text::lemma_lead_run_bounded(raw, CharClass::Space);
    let lead = lead_run(raw, CharClass::Space) as int;
    lemma_byte_offset_mono(t, s, s + lead);
    lemma_byte_offset_mono(t, s + lead, e);
    lemma_byte_offset_mono(t, e, t.len() as int);
    assert(t.take(t.len() as int) =~= t);
    let sentence = trim(raw);
    if lead == raw.len() {
        assert(strip_start(raw, CharClass::Space) =~= Seq::<char>::empty());
        crate::text::lemma_trail_run_bounded(Seq::<char>::empty(), CharClass::Space);
        assert(sentence =~= Seq::<char>::empty());
    } else {
        lemma_byte_offset_strict(t, s + lead, e);
        lemma_char_at_byte_offset(t, s + lead);
        lemma_char_at_byte_offset(t, e);
        crate::text::lemma_lead_run_stops(raw, CharClass::Space);
        let sp = t.subrange(s + lead, e);
        assert(sp =~= raw.skip(lead));
        assert(sp[0] == raw[lead]);
        crate::text::lemma_lead_run_is(sp, CharClass::Space, 0);
        assert(strip_start(sp, CharClass::Space) =~= sp);
        assert(trim(sp) == trim(raw));
        assert(text_between(t, byte_offset(t, s + lead) as int, byte_offset(t, e) as int) == sp);
    }
    let lower = lowercase(sentence);
    lemma_earliest_from(lower, 13);
    lemma_triggers();
    if let Some(b) = earliest_trigger_spec(lower) {
        assert(trigger_words()[b.0 as int] == trigger_words()[b.0 as int]);
        assert(trigger_words().contains(trigger_words()[b.0 as int]));
    }
}

/// On ASCII text, a sentence's candidate has the earliest trigger of its
/// trimmed span text, and that trigger occurs in the ASCII lowercase form of
/// the whole text.
proof fn lemma_ascii_candidate(t: Seq<char>, idx: int)
    requires
        byte_len(t) <= usize::MAX,
        0 <= idx < sentence_spans(t).len(),
        ascii_text(t),
        lowered_as_ascii(t, idx),
        candidate_at(t, idx) is Some,
    ensures
        trigger_is_first(candidate_at(t, idx)->0, t),
        !no_trigger_in(ascii_lower(t)),
{
    lemma_candidate_at(t, idx);
    lemma_sentence_spans_wf(t);
    let spans = sentence_spans(t);
    let s = spans[idx].0;
    let e = spans[idx].1;
    let raw = t.subrange(s, e);
    let sentence = sentence_text(t, idx);
    let lower = lowercase(sentence);
    assert(byte_len(sentence) >= 12);
    assert(lower == ascii_lower(sentence));
    lemma_earliest_found(lower, 13);
    lemma_earliest_from(lower, 13);
    let b = earliest_trigger_spec(lower)->0;
    let w = trigger_words()[b.0 as int];
    lemma_find_from_bounds(lower, w, 0);
    crate::text::lemma_lead_run_bounded(raw, CharClass::Space);
    let lead = lead_run(raw, CharClass::Space) as int;
    let st = strip_start(raw, CharClass::Space);
    crate::text::lemma_trail_run_bounded(st, CharClass::Space);
    let m = st.len() - crate::text::trail_run(st, CharClass::Space);
    let x = s + lead;
    assert(sentence =~= t.subrange(x, x + m));
    assert(ascii_lower(t).subrange(x + b.1, x + b.1 + w.len()) =~= lower.subrange(
        b.1 as int,
        (b.1 + w.len()) as int,
    ));
    if no_trigger_in(ascii_lower(t)) {
        assert(ascii_lower(t).subrange(
            x + b.1,
            x + b.1 + trigger_words()[b.0 as int].len(),
        ) != trigger_words()[b.0 as int]);
    }
}

proof fn lemma_candidates_upto(t: Seq<char>, n: nat)
    requires
        byte_len(t) <= usize::MAX,
        n <= sentence_spans(t).len(),
    ensures
        forall|i: int|
            0 <= i < candidates_upto(t, n).len() ==> candidate_anchored(
                #[trigger] candidates_upto(t, n)[i],
                byte_len(t),
            ) && span_text_ok(candidates_upto(t, n)[i], t),
        forall|i: int, j: int|
            0 <= i < j < candidates_upto(t, n).len() ==> (#[trigger] candidates_upto(t, n)[i]).span.end
                <= (#[trigger] candidates_upto(t, n)[j]).span.start,
        n > 0 ==> forall|i: int|
            0 <= i < candidates_upto(t, n).len() ==> (#[trigger] candidates_upto(t, n)[i]).span.end
                <= byte_offset(t, sentence_spans(t)[n - 1].1),
    decreases n,
{
    if n > 0 {
        lemma_candidates_upto(t, (n - 1) as nat);
        lemma_candidate_at(t, n - 1);
        lemma_sentence_spans_wf(t);
        let spans = sentence_spans(t);
        let prev = candidates_upto(t, (n - 1) as nat);
        if n > 1 {
            lemma_byte_offset_mono(t, spans[n - 2].1, spans[n - 1].0);
            lemma_byte_offset_mono(t, spans[n - 2].1, spans[n - 1].1);
        }
        match candidate_at(t, n - 1) {
            Some(c) => {
                let cur = prev.push(c);
                assert forall|i: int| 0 <= i < cur.len() implies (#[trigger] cur[i]).span.end
                    <= byte_offset(t, spans[n - 1].1) by {
                    if i < prev.len() {
                        assert(cur[i] == prev[i]);
                    }
                }
                assert forall|i: int, j: int| 0 <= i < j < cur.len() implies (#[trigger] cur[i]).span.end
                    <= (#[trigger] cur[j]).span.start by {
                    if j < prev.len() {
                        assert(cur[i] == prev[i] && cur[j] == prev[j]);
                    } else {
                        assert(cur[i] == prev[i]);
                    }
                }
            },
            None => {},
        }
    }
}

/// Every candidate is anchored (`candidate_anchored`), its span starts at a
/// non-blank character and holds at least 12 bytes once trimmed
/// (`span_text_ok`), and candidates come in text order with spans that do
/// not overlap.
pub proof fn lemma_candidates_anchored_in_order(text: Seq<char>)
    requires
        byte_len(text) <= usize::MAX,
    ensures
        forall|i: int|
            0 <= i < candidates_spec(text).len() ==> candidate_anchored(
                #[trigger] candidates_spec(text)[i],
                byte_len(text),
            ) && span_text_ok(candidates_spec(text)[i], text),
        forall|i: int, j: int|
            0 <= i < j < candidates_spec(text).len() ==> (#[trigger] candidates_spec(text)[i]).span.end
                <= (#[trigger] candidates_spec(text)[j]).span.start,
{
    lemma_candidates_upto(text, sentence_spans(text).len());
}

} // verus!
