//! Document-claim grounding: factual claims that documentation makes about
//! the world (file paths, repository state, command results) are extracted
//! and judged against what the file system shows.
use crate::model::{hex_digits, is_lower_hex, lemma_hex_digits_shape, push_hex, Span};
use crate::text::{
    append_str, byte_len, byte_offset, byte_offsets, char_at_byte, chars_of,
    contains, contains_chars, find, find_chars, lemma_byte_len_subrange,
    lemma_byte_offset_mono, lemma_char_at_byte_from, lemma_char_at_byte_order,
    lemma_char_at_byte_shift, lowercase, same_text, string_of, sub_vec, text_between, to_lowercase,
    utf8_len,
};
use std::hash::{BuildHasher, BuildHasherDefault, DefaultHasher};
use vstd::prelude::*;

verus! {

// ---------------------------------------------------------------------------
// Types
// ---------------------------------------------------------------------------

/// A factual claim extracted from a documentation file.
#[derive(Debug, Clone, PartialEq, Eq)]
pub struct DocClaim {
    /// Stable id derived from the source URI, the span and the claim text.
    pub id: String,
    /// `repo://<relative path>` or `file://<abs>` form.
    pub source_uri: String,
    /// 1-based line number where the claim was matched.
    pub line: usize,
    pub span: Span,
    /// The raw claim text as it appeared in the source (single line).
    pub raw: String,
    /// Structured predicate the grounder will resolve.
    pub predicate: Predicate,
}

/// What ground truth the claim is asserting.
#[derive(Debug, Clone, PartialEq, Eq)]
pub enum Predicate {
    /// The named path should exist (file or directory).
    FileExists { path: String },
    /// The named path should exist and its contents should match `pattern`.
    PathContainsRegex { path: String, pattern: String },
    /// An A2ML key (dotted path) should be present in an A2ML file.
    A2mlKeyPresent { file: String, key: String },
    /// A claim about command output that only execution could verify.
    CommandCleanClaim { command: String },
    /// A recognised claim that cannot be decomposed into a checkable
    /// predicate; reported but not failed.
    Unknown { reason: String },
}

/// Result of grounding a claim.
#[derive(Debug, Clone, PartialEq, Eq)]
pub enum ClaimResult {
    /// Predicate evaluated and held.
    Grounded,
    /// Predicate evaluated and failed.
    Ungrounded { reason: String },
    /// Predicate could not be evaluated.
    Unknown { reason: String },
}

/// One row of the grounding report.
#[derive(Debug, Clone, PartialEq, Eq)]
pub struct DocClaimRecord {
    pub claim: DocClaim,
    pub result: ClaimResult,
    pub assessed_at: String,
}

/// Knobs for the grounder. The defaults are CI-safe (no command execution).
#[derive(Debug, Clone)]
pub struct GrounderConfig {
    /// Whether command claims may be executed.
    pub allow_exec: bool,
    /// Max bytes to read from a file when checking its contents.
    pub max_read_bytes: usize,
}

impl Default for GrounderConfig {
    fn default() -> (r: Self)
        ensures
            r.allow_exec == false,
            r.max_read_bytes == 4 * 1024 * 1024,
    {
        GrounderConfig { allow_exec: false, max_read_bytes: 4 * 1024 * 1024 }
    }
}

/// The mathematical value of a [`Predicate`].
pub enum PredicateView {
    FileExists(Seq<char>),
    PathContainsRegex(Seq<char>, Seq<char>),
    A2mlKeyPresent(Seq<char>, Seq<char>),
    CommandCleanClaim(Seq<char>),
    Unknown(Seq<char>),
}

impl View for Predicate {
    type V = PredicateView;

    open spec fn view(&self) -> PredicateView {
        match self {
            Predicate::FileExists { path } => PredicateView::FileExists(path@),
            Predicate::PathContainsRegex { path, pattern } => PredicateView::PathContainsRegex(
                path@,
                pattern@,
            ),
            Predicate::A2mlKeyPresent { file, key } => PredicateView::A2mlKeyPresent(file@, key@),
            Predicate::CommandCleanClaim { command } => PredicateView::CommandCleanClaim(command@),
            Predicate::Unknown { reason } => PredicateView::Unknown(reason@),
        }
    }
}

/// The mathematical value of a [`DocClaim`].
pub struct DocClaimView {
    pub id: Seq<char>,
    pub source_uri: Seq<char>,
    pub line: usize,
    pub span: Span,
    pub raw: Seq<char>,
    pub predicate: PredicateView,
}

impl View for DocClaim {
    type V = DocClaimView;

    open spec fn view(&self) -> DocClaimView {
        DocClaimView {
            id: self.id@,
            source_uri: self.source_uri@,
            line: self.line,
            span: self.span,
            raw: self.raw@,
            predicate: self.predicate@,
        }
    }
}

/// The mathematical value of a [`ClaimResult`].
pub enum ResultView {
    Grounded,
    Ungrounded(Seq<char>),
    Unknown(Seq<char>),
}

impl View for ClaimResult {
    type V = ResultView;

    open spec fn view(&self) -> ResultView {
        match self {
            ClaimResult::Grounded => ResultView::Grounded,
            ClaimResult::Ungrounded { reason } => ResultView::Ungrounded(reason@),
            ClaimResult::Unknown { reason } => ResultView::Unknown(reason@),
        }
    }
}

pub open spec fn claims_view(v: Seq<DocClaim>) -> Seq<DocClaimView> {
    v.map_values(|c: DocClaim| c@)
}

// ---------------------------------------------------------------------------
// The regex crate
// ---------------------------------------------------------------------------

/// What `regex::Regex::new` reports for a pattern: `None` when it compiles,
/// otherwise the text of its error.
pub uninterp spec fn regex_new_error(pattern: Seq<char>) -> Option<Seq<char>>;

/// The leftmost-first, non-overlapping matches that `Regex::captures_iter`
/// yields for `pattern` over `haystack`: the byte range of each match, and of
/// capture group 1 where that group took part.
pub uninterp spec fn regex_captures(pattern: Seq<char>, haystack: Seq<char>) -> Seq<
    (int, int, Option<(int, int)>),
>;

/// One match of a regex: byte offsets into the haystack, the matched text,
/// and capture group 1 (offsets and text) where it took part.
pub struct RegexCapture {
    pub start: usize,
    pub end: usize,
    pub matched: String,
    pub group: Option<(usize, usize, String)>,
}


/// Byte offsets of the haystack that `regex` documents for a match: ordered,
/// inside the haystack and on character boundaries.
pub open spec fn match_range_ok(hay: Seq<char>, b1: int, b2: int) -> bool {
    &&& 0 <= b1 <= b2 <= byte_len(hay)
    &&& char_at_byte(hay, b1) is Some
    &&& char_at_byte(hay, b2) is Some
}

/// `c` reports the match `m` of a haystack.
pub open spec fn capture_agrees(c: RegexCapture, m: (int, int, Option<(int, int)>), hay: Seq<char>) -> bool {
    &&& c.start == m.0
    &&& c.end == m.1
    &&& match_range_ok(hay, m.0, m.1)
    &&& c.matched@ == text_between(hay, m.0, m.1)
    &&& match (c.group, m.2) {
        (None, None) => true,
        (Some(g), Some(mg)) => g.0 == mg.0 && g.1 == mg.1 && match_range_ok(hay, mg.0, mg.1)
            && g.2@ == text_between(hay, mg.0, mg.1),
        _ => false,
    }
}

/// `Regex::new` followed by `captures_iter`: every match with its text and
/// group 1. `None` when the pattern does not compile. The offsets are
/// documented by the regex crate to satisfy `start <= end`, to fall on
/// character boundaries of the haystack, and `as_str` to be the haystack's
/// text between them.
#[verifier::external_body]
fn regex_captures_of(pattern: &str, haystack: &str) -> (r: Option<Vec<RegexCapture>>)
    ensures
        r is Some <==> regex_new_error(pattern@) is None,
        r matches Some(v) ==> v@.len() == regex_captures(pattern@, haystack@).len() && forall|i: int|
            0 <= i < v@.len() ==> capture_agrees(
                #[trigger] v@[i],
                regex_captures(pattern@, haystack@)[i],
                haystack@,
            ),
{
    let re = regex::Regex::new(pattern).ok()?;
    Some(
        re.captures_iter(haystack).map(
            |caps| {
                let m = caps.get_match();
                RegexCapture {
                    start: m.start(),
                    end: m.end(),
                    matched: m.as_str().to_string(),
                    group: caps.get(1).map(|g| (g.start(), g.end(), g.as_str().to_string())),
                }
            },
        ).collect(),
    )
}

/// `Regex::new` followed by `is_match`: `Err` with the error text when the
/// pattern does not compile; otherwise whether a match exists anywhere,
/// which the regex crate documents as the case exactly when `captures_iter`
/// yields a match.
#[verifier::external_body]
fn regex_is_match(pattern: &str, haystack: &str) -> (r: Result<bool, String>)
    ensures
        r is Ok <==> regex_new_error(pattern@) is None,
        r matches Err(e) ==> regex_new_error(pattern@) == Some(e@),
        r matches Ok(b) ==> b == (regex_captures(pattern@, haystack@).len() > 0),
{
    match regex::Regex::new(pattern) {
        Ok(re) => Ok(re.is_match(haystack)),
        Err(e) => Err(e.to_string()),
    }
}

// ---------------------------------------------------------------------------
// Recognisers
// ---------------------------------------------------------------------------

/// The three kinds of claims recognised in documentation.
#[derive(Clone, Copy, PartialEq, Eq)]
pub enum Recogniser {
    /// A backtick-quoted path with a recognised extension.
    BacktickPath,
    /// An A2ML file mentioned with a presence verb.
    A2mlPresent,
    /// A canned command-output claim ("panic-attack assail returns clean").
    CommandClean,
}

/// The regular expression of each recogniser.
pub open spec fn recogniser_pattern(r: Recogniser) -> Seq<char> {
    match r {
        Recogniser::BacktickPath => "`([A-Za-z0-9_.\\-/]+\\.(?:adoc|md|toml|rs|hs|ml|jl|sh|a2ml|ncl|scm|nix|cabal|just|yml|yaml|idr|lean|v|zig|gleam|ex|ml|cs|py))`"@,
        Recogniser::A2mlPresent => "`?([A-Za-z0-9_.\\-/]+\\.a2ml)`?\\s+(?:present|exists|wired|validated)"@,
        Recogniser::CommandClean => "(?i)\\b(panic-attack assail|hypatia(?: scan)?|just (?:test|build|ci))\\b\\s+(?:returns? )?(?:clean|passes?|green|zero findings?)"@,
    }
}

fn recogniser_pattern_of(r: Recogniser) -> (p: &'static str)
    ensures
        p@ == recogniser_pattern(r),
{
    match r {
        Recogniser::BacktickPath => "`([A-Za-z0-9_.\\-/]+\\.(?:adoc|md|toml|rs|hs|ml|jl|sh|a2ml|ncl|scm|nix|cabal|just|yml|yaml|idr|lean|v|zig|gleam|ex|ml|cs|py))`",
        Recogniser::A2mlPresent => "`?([A-Za-z0-9_.\\-/]+\\.a2ml)`?\\s+(?:present|exists|wired|validated)",
        Recogniser::CommandClean => "(?i)\\b(panic-attack assail|hypatia(?: scan)?|just (?:test|build|ci))\\b\\s+(?:returns? )?(?:clean|passes?|green|zero findings?)",
    }
}

// ---------------------------------------------------------------------------
// Claim identifiers
// ---------------------------------------------------------------------------

/// What `BuildHasher::hash_one` of `BuildHasherDefault<DefaultHasher>` gives
/// for the key `(source_uri, start, end, raw)`.
pub uninterp spec fn claim_key_hash(source_uri: Seq<char>, start: usize, end: usize, raw: Seq<char>) -> u64;

/// `BuildHasher::hash_one` with a default `DefaultHasher`, on the claim key.
/// `DefaultHasher::new` is unkeyed, so the value depends on the key alone.
#[verifier::external_body]
fn hash_claim_key(source_uri: &str, start: usize, end: usize, raw: &str) -> (h: u64)
    ensures
        h == claim_key_hash(source_uri@, start, end, raw@),
{
    BuildHasherDefault::<DefaultHasher>::default().hash_one((source_uri, start, end, raw))
}

/// `"ipdc-"` followed by 16 lowercase hexadecimal digits of the key hash.
pub open spec fn claim_id(source_uri: Seq<char>, span: Span, raw: Seq<char>) -> Seq<char> {
    "ipdc-"@ + hex_digits(claim_key_hash(source_uri, span.start, span.end, raw) as nat, 16)
}

/// The stable identifier of a claim.
pub fn make_claim_id(source_uri: &str, span: &Span, raw: &str) -> (r: String)
    ensures
        r@ == claim_id(source_uri@, *span, raw@),
{
    let h = hash_claim_key(source_uri, span.start, span.end, raw);
    let mut out = String::from_str("ipdc-");
    push_hex(&mut out, h, 16);
    out
}

// ---------------------------------------------------------------------------
// Lines
// ---------------------------------------------------------------------------

/// The lines closed by a newline within the first `n` characters of `t`
/// (character ranges, newline excluded) and where the next line starts.
pub open spec fn line_state(t: Seq<char>, n: nat) -> (Seq<(int, int)>, int)
    decreases n,
{
    if n == 0 || n > t.len() {
        (Seq::empty(), 0)
    } else {
        let prev = line_state(t, (n - 1) as nat);
        if t[n - 1] == '\n' {
            (prev.0.push((prev.1, n - 1)), n as int)
        } else {
            prev
        }
    }
}

/// The lines of `t`: each newline closes one, and a non-empty remainder
/// after the last newline is one more. Line `i` has number `i + 1`.
pub open spec fn line_ranges(t: Seq<char>) -> Seq<(int, int)> {
    let st = line_state(t, t.len());
    if st.1 < t.len() {
        st.0.push((st.1, t.len() as int))
    } else {
        st.0
    }
}

pub open spec fn ranges_in(sp: Seq<(int, int)>, n: int) -> bool {
    forall|i: int| 0 <= i < sp.len() ==> 0 <= (#[trigger] sp[i]).0 <= sp[i].1 <= n
}

/// No newline among the characters `lo..hi` of `t`.
pub open spec fn no_newline(t: Seq<char>, lo: int, hi: int) -> bool {
    forall|k: int| lo <= k < hi ==> #[trigger] t[k] != '\n'
}

/// Every range of `sp` is free of newlines in `t`.
pub open spec fn ranges_single_line(t: Seq<char>, sp: Seq<(int, int)>) -> bool {
    forall|i: int| 0 <= i < sp.len() ==> no_newline(t, (#[trigger] sp[i]).0, sp[i].1)
}

pub proof fn lemma_line_state(t: Seq<char>, n: nat)
    requires
        n <= t.len(),
    ensures
        ranges_in(line_state(t, n).0, n as int),
        0 <= line_state(t, n).1 <= n,
        forall|i: int| 0 <= i < line_state(t, n).0.len() ==> (#[trigger] line_state(t, n).0[i]).1
            < line_state(t, n).1,
        ranges_single_line(t, line_state(t, n).0),
        no_newline(t, line_state(t, n).1, n as int),
    decreases n,
{
    if n > 0 {
        lemma_line_state(t, (n - 1) as nat);
    }
}

pub proof fn lemma_line_ranges(t: Seq<char>)
    ensures
        ranges_in(line_ranges(t), t.len() as int),
        ranges_single_line(t, line_ranges(t)),
{
    lemma_line_state(t, t.len());
}

fn line_ranges_of(cs: &Vec<char>) -> (r: Vec<(usize, usize)>)
    ensures
        r@.len() == line_ranges(cs@).len(),
        forall|i: int| 0 <= i < r@.len() ==> (#[trigger] r@[i]).0 as int == line_ranges(cs@)[i].0
            && r@[i].1 as int == line_ranges(cs@)[i].1,
{
    let mut lines: Vec<(usize, usize)> = Vec::new();
    let mut start: usize = 0;
    let mut i: usize = 0;
    while i < cs.len()
        invariant
            i <= cs.len(),
            start as int == line_state(cs@, i as nat).1,
            lines@.len() == line_state(cs@, i as nat).0.len(),
            forall|k: int| 0 <= k < lines@.len() ==> (#[trigger] lines@[k]).0 as int == line_state(
                cs@,
                i as nat,
            ).0[k].0 && lines@[k].1 as int == line_state(cs@, i as nat).0[k].1,
        decreases cs.len() - i,
    {
        if cs[i] == '\n' {
            lines.push((start, i));
            start = i + 1;
        }
        i = i + 1;
    }
    if start < cs.len() {
        lines.push((start, cs.len()));
    }
    lines
}

// ---------------------------------------------------------------------------
// Extraction
// ---------------------------------------------------------------------------

/// The claim that match `m` of a recogniser makes on a line whose text is
/// `lt`, which starts at byte `ls` of the file and has number `line`.
pub open spec fn claim_for(
    rec: Recogniser,
    m: (int, int, Option<(int, int)>),
    lt: Seq<char>,
    ls: int,
    line: int,
    uri: Seq<char>,
) -> Option<DocClaimView> {
    match m.2 {
        None => None,
        Some(g) => {
            let span = Span { start: (ls + m.0) as usize, end: (ls + m.1) as usize };
            let raw = text_between(lt, m.0, m.1);
            let arg = text_between(lt, g.0, g.1);
            Some(
                DocClaimView {
                    id: claim_id(uri, span, raw),
                    source_uri: uri,
                    line: line as usize,
                    span,
                    raw,
                    predicate: match rec {
                        Recogniser::CommandClean => PredicateView::CommandCleanClaim(arg),
                        _ => PredicateView::FileExists(arg),
                    },
                },
            )
        },
    }
}

/// The claims made by the first `n` matches.
pub open spec fn matches_claims(
    rec: Recogniser,
    ms: Seq<(int, int, Option<(int, int)>)>,
    n: nat,
    lt: Seq<char>,
    ls: int,
    line: int,
    uri: Seq<char>,
) -> Seq<DocClaimView>
    decreases n,
{
    if n == 0 || n > ms.len() {
        Seq::empty()
    } else {
        let prev = matches_claims(rec, ms, (n - 1) as nat, lt, ls, line, uri);
        match claim_for(rec, ms[n - 1], lt, ls, line, uri) {
            Some(c) => prev.push(c),
            None => prev,
        }
    }
}

/// The claims one recogniser finds on a line, in match order.
pub open spec fn recogniser_claims(
    rec: Recogniser,
    lt: Seq<char>,
    ls: int,
    line: int,
    uri: Seq<char>,
) -> Seq<DocClaimView> {
    let p = recogniser_pattern(rec);
    if regex_new_error(p) is None {
        let ms = regex_captures(p, lt);
        matches_claims(rec, ms, ms.len(), lt, ls, line, uri)
    } else {
        Seq::empty()
    }
}

/// The claims of line `i` of `t`: backtick paths, then A2ML presence, then
/// command claims.
pub open spec fn line_claims(t: Seq<char>, uri: Seq<char>, i: int) -> Seq<DocClaimView> {
    let r = line_ranges(t)[i];
    let lt = t.subrange(r.0, r.1);
    let ls = byte_offset(t, r.0) as int;
    recogniser_claims(Recogniser::BacktickPath, lt, ls, i + 1, uri) + recogniser_claims(
        Recogniser::A2mlPresent,
        lt,
        ls,
        i + 1,
        uri,
    ) + recogniser_claims(Recogniser::CommandClean, lt, ls, i + 1, uri)
}

/// The claims of the first `n` lines, before duplicates are dropped.
pub open spec fn raw_claims(t: Seq<char>, uri: Seq<char>, n: nat) -> Seq<DocClaimView>
    decreases n,
{
    if n == 0 {
        Seq::empty()
    } else {
        raw_claims(t, uri, (n - 1) as nat) + line_claims(t, uri, n - 1)
    }
}

pub open spec fn claim_ids(s: Seq<DocClaimView>) -> Seq<Seq<char>> {
    s.map_values(|c: DocClaimView| c.id)
}

/// The first `n` claims of `s`, keeping only the first claim of each id.
pub open spec fn dedupe_claims(s: Seq<DocClaimView>, n: nat) -> Seq<DocClaimView>
    decreases n,
{
    if n == 0 || n > s.len() {
        Seq::empty()
    } else {
        let kept = dedupe_claims(s, (n - 1) as nat);
        if claim_ids(kept).contains(s[n - 1].id) {
            kept
        } else {
            kept.push(s[n - 1])
        }
    }
}

/// The claims of a file, line by line, without repeated ids.
pub open spec fn claims_spec(t: Seq<char>, uri: Seq<char>) -> Seq<DocClaimView> {
    let raw = raw_claims(t, uri, line_ranges(t).len());
    dedupe_claims(raw, raw.len())
}

/// Where a claim stands in the file text `t`: its span's offsets are
/// character boundaries of `t`, its raw text is the text between them, and
/// that text lies on one line.
pub open spec fn claim_in_text(c: DocClaimView, t: Seq<char>) -> bool {
    &&& match_range_ok(t, c.span.start as int, c.span.end as int)
    &&& c.raw == text_between(t, c.span.start as int, c.span.end as int)
    &&& !c.raw.contains('\n')
}

/// The number of newlines in `s`.
pub open spec fn newline_count(s: Seq<char>) -> nat
    decreases s.len(),
{
    if s.len() == 0 {
        0
    } else {
        newline_count(s.drop_last()) + if s.last() == '\n' {
            1nat
        } else {
            0nat
        }
    }
}

/// The number (from 1) of the line of `t` that holds byte `b`: one more
/// than the newlines before it.
pub open spec fn line_of_byte(t: Seq<char>, b: int) -> nat {
    1 + newline_count(t.take(char_at_byte(t, b)->0 as int))
}

/// A claim identifier: `ipdc-` and 16 lowercase hexadecimal digits.
pub open spec fn claim_id_shaped(id: Seq<char>) -> bool {
    &&& id.len() == 21
    &&& id.take(5) == "ipdc-"@
    &&& forall|k: int| 5 <= k < 21 ==> is_lower_hex(#[trigger] id[k])
}

/// A claim of the file `t` with URI `uri`: it stands in the text
/// (`claim_in_text`), carries the file's URI and a well-formed id, and its
/// line number is that of the line where its span starts.
pub open spec fn claim_of_file(c: DocClaimView, t: Seq<char>, uri: Seq<char>) -> bool {
    &&& claim_in_text(c, t)
    &&& c.source_uri == uri
    &&& claim_id_shaped(c.id)
    &&& c.line == line_of_byte(t, c.span.start as int)
}

/// Every claim id has the shape `ipdc-` and 16 hexadecimal digits.
pub proof fn lemma_claim_id_shaped(uri: Seq<char>, span: Span, raw: Seq<char>)
    ensures
        claim_id_shaped(claim_id(uri, span, raw)),
{
    reveal_strlit("ipdc-");
    let h = hex_digits(claim_key_hash(uri, span.start, span.end, raw) as nat, 16);
    lemma_hex_digits_shape(claim_key_hash(uri, span.start, span.end, raw) as nat, 16);
    let id = claim_id(uri, span, raw);
    assert(id.take(5) =~= "ipdc-"@);
    assert forall|k: int| 5 <= k < 21 implies is_lower_hex(#[trigger] id[k]) by {
        assert(id[k] == h[k - 5]);
    }
}

proof fn lemma_newline_count_concat(a: Seq<char>, b: Seq<char>)
    ensures
        newline_count(a + b) == newline_count(a) + newline_count(b),
    decreases b.len(),
{
    if b.len() == 0 {
        assert(a + b =~= a);
    } else {
        lemma_newline_count_concat(a, b.drop_last());
        assert((a + b).drop_last() =~= a + b.drop_last());
    }
}

proof fn lemma_newline_count_none(s: Seq<char>)
    requires
        !s.contains('\n'),
    ensures
        newline_count(s) == 0,
    decreases s.len(),
{
    if s.len() > 0 {
        assert(s.drop_last().contains('\n') ==> s.contains('\n')) by {
            if s.drop_last().contains('\n') {
                let j = choose|j: int| 0 <= j < s.drop_last().len() && s.drop_last()[j] == '\n';
                assert(s[j] == '\n');
            }
        }
        assert(s[s.len() - 1] != '\n');
        lemma_newline_count_none(s.drop_last());
    }
}

/// Each line starts after as many newlines as its index.
proof fn lemma_line_state_counts(t: Seq<char>, n: nat)
    requires
        n <= t.len(),
    ensures
        forall|i: int| 0 <= i < line_state(t, n).0.len() ==> newline_count(
            t.take((#[trigger] line_state(t, n).0[i]).0),
        ) == i,
        newline_count(t.take(line_state(t, n).1)) == line_state(t, n).0.len(),
    decreases n,
{
    if n > 0 {
        lemma_line_state_counts(t, (n - 1) as nat);
        lemma_line_state(t, (n - 1) as nat);
        let prev = line_state(t, (n - 1) as nat);
        if t[n - 1] == '\n' {
            let mid = t.subrange(prev.1, n - 1);
            assert(t.take(n - 1) =~= t.take(prev.1) + mid);
            lemma_newline_count_concat(t.take(prev.1), mid);
            assert(!mid.contains('\n')) by {
                if mid.contains('\n') {
                    let j = choose|j: int| 0 <= j < mid.len() && mid[j] == '\n';
                    assert(t[prev.1 + j] == '\n');
                }
            }
            lemma_newline_count_none(mid);
            assert(t.take(n as int).drop_last() =~= t.take(n - 1));
            let cur = line_state(t, n).0;
            assert forall|i: int| 0 <= i < cur.len() implies newline_count(
                t.take((#[trigger] cur[i]).0),
            ) == i by {
                if i < prev.0.len() {
                    assert(cur[i] == prev.0[i]);
                }
            }
        }
    }
}

/// Line `i` of `t` starts after `i` newlines.
proof fn lemma_line_ranges_counts(t: Seq<char>)
    ensures
        forall|i: int| 0 <= i < line_ranges(t).len() ==> newline_count(
            t.take((#[trigger] line_ranges(t)[i]).0),
        ) == i,
{
    lemma_line_state_counts(t, t.len());
    let st = line_state(t, t.len());
    let lr = line_ranges(t);
    assert forall|i: int| 0 <= i < lr.len() implies newline_count(t.take((#[trigger] lr[i]).0))
        == i by {
        if i < st.0.len() {
            assert(lr[i] == st.0[i]);
        }
    }
}

/// A match at byte `b` of the line `t[a..c]`, which holds no newline, lies
/// on that line.
proof fn lemma_line_of_match(t: Seq<char>, a: int, c: int, b: int)
    requires
        0 <= a <= c <= t.len(),
        char_at_byte(t.subrange(a, c), b) is Some,
        !t.subrange(a, c).contains('\n'),
    ensures
        line_of_byte(t, byte_offset(t, a) + b) == 1 + newline_count(t.take(a)),
{
    let lt = t.subrange(a, c);
    lemma_char_at_byte_shift(t, a, c, b);
    lemma_char_at_byte_from(lt, b, 0);
    let k = char_at_byte(lt, b)->0 as int;
    let pre = t.subrange(a, a + k);
    assert(t.take(a + k) =~= t.take(a) + pre);
    lemma_newline_count_concat(t.take(a), pre);
    assert(!pre.contains('\n')) by {
        if pre.contains('\n') {
            let j = choose|j: int| 0 <= j < pre.len() && pre[j] == '\n';
            assert(lt[j] == '\n');
        }
    }
    lemma_newline_count_none(pre);
}

/// A match inside the slice `t[a..c]` is a match of `t`, shifted by the
/// byte offset of `a`, with the same text.
proof fn lemma_text_between_shift(t: Seq<char>, a: int, c: int, b1: int, b2: int)
    requires
        0 <= a <= c <= t.len(),
        match_range_ok(t.subrange(a, c), b1, b2),
    ensures
        match_range_ok(t, byte_offset(t, a) + b1, byte_offset(t, a) + b2),
        text_between(t, byte_offset(t, a) + b1, byte_offset(t, a) + b2) == text_between(
            t.subrange(a, c),
            b1,
            b2,
        ),
{
    let lt = t.subrange(a, c);
    let off = byte_offset(t, a) as int;
    lemma_char_at_byte_shift(t, a, c, b1);
    lemma_char_at_byte_shift(t, a, c, b2);
    lemma_char_at_byte_order(lt, b1, b2);
    let k1 = char_at_byte(lt, b1)->0 as int;
    let k2 = char_at_byte(lt, b2)->0 as int;
    lemma_char_at_byte_from(lt, b2, 0);
    lemma_char_at_byte_from(t, off + b2, 0);
    lemma_byte_offset_mono(t, a + k2, t.len() as int);
    assert(t.take(t.len() as int) =~= t);
    assert(t.subrange(a + k1, a + k2) =~= lt.subrange(k1, k2));
}

/// The text between two boundaries of `s` holds only characters of `s`.
proof fn lemma_text_between_no_newline(s: Seq<char>, b1: int, b2: int)
    requires
        match_range_ok(s, b1, b2),
        !s.contains('\n'),
    ensures
        !text_between(s, b1, b2).contains('\n'),
{
    lemma_char_at_byte_order(s, b1, b2);
    lemma_char_at_byte_from(s, b2, 0);
    let k1 = char_at_byte(s, b1)->0 as int;
    let k2 = char_at_byte(s, b2)->0 as int;
    let sub = s.subrange(k1, k2);
    if sub.contains('\n') {
        let j = choose|j: int| 0 <= j < sub.len() && sub[j] == '\n';
        assert(s[k1 + j] == '\n');
    }
}

fn claims_of_matches(
    rec: Recogniser,
    caps: Vec<RegexCapture>,
    lt: Ghost<Seq<char>>,
    ls: usize,
    ls_bound: usize,
    line: usize,
    uri: &str,
    out: &mut Vec<DocClaim>,
    Ghost(ms): Ghost<Seq<(int, int, Option<(int, int)>)>>,
    Ghost(t): Ghost<Seq<char>>,
    Ghost(a): Ghost<int>,
    Ghost(b): Ghost<int>,
)
    requires
        caps@.len() == ms.len(),
        forall|i: int| 0 <= i < caps@.len() ==> capture_agrees(#[trigger] caps@[i], ms[i], lt@),
        ls + byte_len(lt@) <= ls_bound,
        0 <= a <= b <= t.len(),
        lt@ == t.subrange(a, b),
        ls == byte_offset(t, a),
        !lt@.contains('\n'),
        line == 1 + newline_count(t.take(a)),
        forall|i: int| 0 <= i < old(out)@.len() ==> claim_of_file(
            (#[trigger] old(out)@[i])@,
            t,
            uri@,
        ),
    ensures
        claims_view(final(out)@) == claims_view(old(out)@) + matches_claims(
            rec,
            ms,
            ms.len(),
            lt@,
            ls as int,
            line as int,
            uri@,
        ),
        forall|i: int| 0 <= i < final(out)@.len() ==> claim_of_file(
            (#[trigger] final(out)@[i])@,
            t,
            uri@,
        ),
        final(out)@.len() >= old(out)@.len(),
        forall|i: int| 0 <= i < old(out)@.len() ==> #[trigger] final(out)@[i] == old(out)@[i],
        forall|i: int| old(out)@.len() <= i < final(out)@.len() ==> (#[trigger] final(out)@[i]).line
            == line,
{
    let mut rest = caps;
    let ghost all = rest@;
    assert(all.len() <= usize::MAX) by {
        assert(rest@.len() == rest.len());
    }
    let ghost base = out@;
    let mut taken: usize = 0;
    proof {
        assert(claims_view(base) + matches_claims(rec, ms, 0, lt@, ls as int, line as int, uri@)
            =~= claims_view(base));
    }
    while rest.len() > 0
        invariant
            all.len() == ms.len(),
            all.len() <= usize::MAX,
            forall|i: int| 0 <= i < all.len() ==> capture_agrees(#[trigger] all[i], ms[i], lt@),
            taken + rest@.len() == all.len(),
            forall|i: int| 0 <= i < rest@.len() ==> #[trigger] rest@[i] == all[taken + i],
            ls + byte_len(lt@) <= ls_bound,
            0 <= a <= b <= t.len(),
            lt@ == t.subrange(a, b),
            ls == byte_offset(t, a),
            !lt@.contains('\n'),
            line == 1 + newline_count(t.take(a)),
            forall|i: int| 0 <= i < out@.len() ==> claim_of_file((#[trigger] out@[i])@, t, uri@),
            out@.len() >= base.len(),
            forall|i: int| 0 <= i < base.len() ==> #[trigger] out@[i] == base[i],
            forall|i: int| base.len() <= i < out@.len() ==> (#[trigger] out@[i]).line == line,
            claims_view(out@) == claims_view(base) + matches_claims(
                rec,
                ms,
                taken as nat,
                lt@,
                ls as int,
                line as int,
                uri@,
            ),
        decreases rest.len(),
    {
        let c = rest.remove(0);
        proof {
            assert(c == all[taken as int]);
            assert(capture_agrees(c, ms[taken as int], lt@));
        }
        match c.group {
            Some(g) => {
                let span = Span { start: ls + c.start, end: ls + c.end };
                let id = make_claim_id(uri, &span, c.matched.as_str());
                let predicate = match rec {
                    Recogniser::CommandClean => Predicate::CommandCleanClaim { command: g.2 },
                    _ => Predicate::FileExists { path: g.2 },
                };
                let claim = DocClaim {
                    id,
                    source_uri: String::from_str(uri),
                    line,
                    span,
                    raw: c.matched,
                    predicate,
                };
                proof {
                    let m = ms[taken as int];
                    lemma_text_between_shift(t, a, b, m.0, m.1);
                    lemma_text_between_no_newline(lt@, m.0, m.1);
                    lemma_line_of_match(t, a, b, m.0);
                    lemma_claim_id_shaped(uri@, span, c.matched@);
                    assert(claim_of_file(claim@, t, uri@));
                }
                let ghost before = out@;
                out.push(claim);
                proof {
                    assert(claims_view(out@) =~= claims_view(before).push(claim@));
                }
            },
            None => {},
        }
        taken = taken + 1;
    }
}

fn recognise(
    rec: Recogniser,
    line_text: &String,
    ls: usize,
    ls_bound: usize,
    line: usize,
    uri: &str,
    out: &mut Vec<DocClaim>,
    Ghost(t): Ghost<Seq<char>>,
    Ghost(a): Ghost<int>,
    Ghost(b): Ghost<int>,
)
    requires
        ls + byte_len(line_text@) <= ls_bound,
        0 <= a <= b <= t.len(),
        line_text@ == t.subrange(a, b),
        ls == byte_offset(t, a),
        !line_text@.contains('\n'),
        line == 1 + newline_count(t.take(a)),
        forall|i: int| 0 <= i < old(out)@.len() ==> claim_of_file(
            (#[trigger] old(out)@[i])@,
            t,
            uri@,
        ),
    ensures
        claims_view(final(out)@) == claims_view(old(out)@) + recogniser_claims(
            rec,
            line_text@,
            ls as int,
            line as int,
            uri@,
        ),
        forall|i: int| 0 <= i < final(out)@.len() ==> claim_of_file(
            (#[trigger] final(out)@[i])@,
            t,
            uri@,
        ),
        final(out)@.len() >= old(out)@.len(),
        forall|i: int| 0 <= i < old(out)@.len() ==> #[trigger] final(out)@[i] == old(out)@[i],
        forall|i: int| old(out)@.len() <= i < final(out)@.len() ==> (#[trigger] final(out)@[i]).line
            == line,
{
    let pattern = recogniser_pattern_of(rec);
    match regex_captures_of(pattern, line_text.as_str()) {
        Some(caps) => {
            claims_of_matches(
                rec,
                caps,
                Ghost(line_text@),
                ls,
                ls_bound,
                line,
                uri,
                out,
                Ghost(regex_captures(pattern@, line_text@)),
                Ghost(t),
                Ghost(a),
                Ghost(b),
            );
        },
        None => {
            proof {
                assert(claims_view(out@) + Seq::<DocClaimView>::empty() =~= claims_view(out@));
            }
        },
    }
}

/// `claims` without the claims whose id an earlier claim already has.
fn dedupe_claims_of(claims: Vec<DocClaim>) -> (r: Vec<DocClaim>)
    requires
        forall|i: int, j: int|
            0 <= i < j < claims@.len() ==> (#[trigger] claims@[i]).line <= (#[trigger] claims@[j]).line,
    ensures
        forall|i: int, j: int|
            0 <= i < j < r@.len() ==> (#[trigger] r@[i]).line <= (#[trigger] r@[j]).line,
        claims_view(r@) == dedupe_claims(claims_view(claims@), claims@.len()),
        forall|i: int| 0 <= i < r@.len() ==> exists|j: int| 0 <= j < claims@.len() && (#[trigger] r@[i])@ == (#[trigger] claims@[j])@,
{
    let ghost orig = claims@;
    let ghost all = claims_view(claims@);
    let mut rest = claims;
    let ghost n = rest@.len();
    assert(n <= usize::MAX) by {
        assert(rest@.len() == rest.len());
    }
    let mut kept: Vec<DocClaim> = Vec::new();
    let mut taken: usize = 0;
    while rest.len() > 0
        invariant
            all.len() == n,
            n <= usize::MAX,
            taken + rest@.len() == n,
            forall|i: int| 0 <= i < rest@.len() ==> (#[trigger] rest@[i])@ == all[taken + i],
            claims_view(kept@) == dedupe_claims(all, taken as nat),
            all == claims_view(orig),
            orig.len() == n,
            forall|i: int, j: int|
                0 <= i < j < orig.len() ==> (#[trigger] orig[i]).line <= (#[trigger] orig[j]).line,
            forall|i: int, j: int|
                0 <= i < j < kept@.len() ==> (#[trigger] kept@[i]).line <= (#[trigger] kept@[j]).line,
            forall|i: int, j: int|
                0 <= i < kept@.len() && taken <= j < n ==> (#[trigger] kept@[i]).line <= (
                #[trigger] orig[j]).line,
            forall|i: int| 0 <= i < kept@.len() ==> exists|j: int| 0 <= j < orig.len() && (#[trigger] kept@[i])@ == (#[trigger] orig[j])@,
        decreases rest.len(),
    {
        let c = rest.remove(0);
        proof {
            assert(c@ == all[taken as int]);
        }
        let mut seen = false;
        let mut j: usize = 0;
        while j < kept.len()
            invariant
                j <= kept@.len(),
                seen == (exists|k: int| 0 <= k < j && (#[trigger] kept@[k]).id@ == c.id@),
            decreases kept.len() - j,
        {
            if same_text(kept[j].id.as_str(), c.id.as_str()) {
                seen = true;
            }
            j = j + 1;
        }
        proof {
            let ids = claim_ids(claims_view(kept@));
            if seen {
                let k = choose|k: int| 0 <= k < kept@.len() && (#[trigger] kept@[k]).id@ == c.id@;
                assert(ids[k] == c.id@);
            } else {
                assert forall|k: int| 0 <= k < ids.len() implies ids[k] != c.id@ by {
                    assert(ids[k] == kept@[k].id@);
                }
            }
        }
        if !seen {
            let ghost before = kept@;
            kept.push(c);
            proof {
                assert(claims_view(kept@) =~= claims_view(before).push(c@));
                assert(c@ == orig[taken as int]@);
                assert(c.line == orig[taken as int].line);
                assert forall|i: int, j: int| 0 <= i < j < kept@.len() implies (
                #[trigger] kept@[i]).line <= (#[trigger] kept@[j]).line by {
                    assert(kept@[i] == before[i]);
                    if j < before.len() {
                        assert(kept@[j] == before[j]);
                    } else {
                        assert(before[i].line <= orig[taken as int].line);
                    }
                }
                assert forall|i: int, j: int| 0 <= i < kept@.len() && taken + 1 <= j < n implies (
                #[trigger] kept@[i]).line <= (#[trigger] orig[j]).line by {
                    if i < before.len() {
                        assert(kept@[i] == before[i]);
                    }
                    assert(orig[taken as int].line <= orig[j].line);
                }
                assert forall|i: int| 0 <= i < kept@.len() implies exists|j: int| 0 <= j < orig.len() && (#[trigger] kept@[i])@ == (#[trigger] orig[j])@ by {
                    if i == kept@.len() - 1 {
                        assert(kept@[i]@ == orig[taken as int]@);
                    } else {
                        assert(kept@[i] == before[i]);
                    }
                }
            }
        }
        taken = taken + 1;
    }
    kept
}

/// Extracts the claims of one file's text, line by line (each `\n` ends a
/// line; numbers start at 1; spans are byte offsets into `text`), dropping a
/// claim whose id an earlier claim already has. Every claim carries the
/// file's URI, an id `ipdc-` plus 16 hexadecimal digits and the number of the
/// line where it stands; claims come in line order.
pub fn extract_claims(text: &str, source_uri: &str) -> (r: Vec<DocClaim>)
    ensures
        claims_view(r@) == claims_spec(text@, source_uri@),
        claim_ids(claims_view(r@)).no_duplicates(),
        forall|i: int| 0 <= i < r@.len() ==> claim_of_file((#[trigger] r@[i])@, text@, source_uri@),
        forall|i: int, j: int|
            0 <= i < j < r@.len() ==> (#[trigger] r@[i]).line <= (#[trigger] r@[j]).line,
{
    let cs = chars_of(text);
    let total = utf8_len(text);
    let offs = byte_offsets(&cs);
    let lines = line_ranges_of(&cs);
    proof {
        lemma_line_ranges(cs@);
        lemma_line_ranges_counts(cs@);
    }
    let mut out: Vec<DocClaim> = Vec::new();
    let mut i: usize = 0;
    while i < lines.len()
        invariant
            i <= lines@.len(),
            cs@ == text@,
            byte_len(cs@) <= usize::MAX,
            offs.len() == cs.len() + 1,
            forall|k: int| 0 <= k <= cs.len() ==> #[trigger] offs@[k] == byte_offset(cs@, k),
            lines@.len() == line_ranges(cs@).len(),
            forall|k: int| 0 <= k < lines@.len() ==> (#[trigger] lines@[k]).0 as int == line_ranges(
                cs@,
            )[k].0 && lines@[k].1 as int == line_ranges(cs@)[k].1,
            ranges_in(line_ranges(cs@), cs@.len() as int),
            ranges_single_line(cs@, line_ranges(cs@)),
            claims_view(out@) == raw_claims(cs@, source_uri@, i as nat),
            forall|k: int| 0 <= k < out@.len() ==> claim_of_file(
                (#[trigger] out@[k])@,
                cs@,
                source_uri@,
            ),
            forall|k: int| 0 <= k < line_ranges(cs@).len() ==> newline_count(
                cs@.take((#[trigger] line_ranges(cs@)[k]).0),
            ) == k,
            forall|k: int| 0 <= k < out@.len() ==> (#[trigger] out@[k]).line <= i,
            forall|k1: int, k2: int|
                0 <= k1 < k2 < out@.len() ==> (#[trigger] out@[k1]).line <= (#[trigger] out@[k2]).line,
        decreases lines@.len() - i,
    {
        let (a, b) = lines[i];
        proof {
            assert(0 <= line_ranges(cs@)[i as int].0 <= line_ranges(cs@)[i as int].1 <= cs@.len());
            lemma_byte_len_subrange(cs@, a as int, b as int);
        }
        let line_text = string_of(&cs, a, b);
        let ls = offs[a];
        let bound = offs[b];
        let ghost before = claims_view(out@);
        let ghost t = cs@;
        let ghost out0 = out@;
        proof {
            assert(newline_count(t.take(a as int)) == i);
            assert(no_newline(t, line_ranges(t)[i as int].0, line_ranges(t)[i as int].1));
            if line_text@.contains('\n') {
                let j = choose|j: int| 0 <= j < line_text@.len() && line_text@[j] == '\n';
                assert(t[a + j] == '\n');
            }
        }
        recognise(
            Recogniser::BacktickPath,
            &line_text,
            ls,
            bound,
            i + 1,
            source_uri,
            &mut out,
            Ghost(t),
            Ghost(a as int),
            Ghost(b as int),
        );
        recognise(
            Recogniser::A2mlPresent,
            &line_text,
            ls,
            bound,
            i + 1,
            source_uri,
            &mut out,
            Ghost(t),
            Ghost(a as int),
            Ghost(b as int),
        );
        recognise(
            Recogniser::CommandClean,
            &line_text,
            ls,
            bound,
            i + 1,
            source_uri,
            &mut out,
            Ghost(t),
            Ghost(a as int),
            Ghost(b as int),
        );
        proof {
            assert(claims_view(out@) =~= before + line_claims(cs@, source_uri@, i as int));
            assert forall|k: int| 0 <= k < out@.len() implies (#[trigger] out@[k]).line <= i + 1 by {
                if k < out0.len() {
                    assert(out@[k] == out0[k]);
                }
            }
            assert forall|k1: int, k2: int| 0 <= k1 < k2 < out@.len() implies (
            #[trigger] out@[k1]).line <= (#[trigger] out@[k2]).line by {
                if k2 < out0.len() {
                    assert(out@[k1] == out0[k1]);
                    assert(out@[k2] == out0[k2]);
                } else if k1 < out0.len() {
                    assert(out@[k1] == out0[k1]);
                }
            }
        }
        i = i + 1;
    }
    proof {
        lemma_claim_ids_unique(text@, source_uri@);
    }
    let ghost raw = out@;
    let r = dedupe_claims_of(out);
    proof {
        assert forall|i: int| 0 <= i < r@.len() implies claim_of_file(
            (#[trigger] r@[i])@,
            text@,
            source_uri@,
        ) by {
            let j = choose|j: int| 0 <= j < raw.len() && r@[i]@ == (#[trigger] raw[j])@;
            assert(claim_of_file(raw[j]@, cs@, source_uri@));
        }
    }
    r
}

// ---------------------------------------------------------------------------
// Grounding
// ---------------------------------------------------------------------------

/// What the file system showed for the path that a claim names.
#[derive(Debug, Clone, PartialEq, Eq)]
pub enum FileProbe {
    /// No corpus root holds the path.
    NotFound,
    /// The path exists; its content (up to the read cap) where the claim
    /// needs it, otherwise any text.
    Found(String),
    /// The path exists but reading it failed, with the error's text.
    ReadFailed(String),
}

pub enum ProbeView {
    NotFound,
    Found(Seq<char>),
    ReadFailed(Seq<char>),
}

impl View for FileProbe {
    type V = ProbeView;

    open spec fn view(&self) -> ProbeView {
        match self {
            FileProbe::NotFound => ProbeView::NotFound,
            FileProbe::Found(s) => ProbeView::Found(s@),
            FileProbe::ReadFailed(s) => ProbeView::ReadFailed(s@),
        }
    }
}

/// The path that a predicate asks the file system about, and whether its
/// content is needed.
pub fn claim_target(predicate: &Predicate) -> (r: Option<(&str, bool)>)
    ensures
        predicate@ matches PredicateView::FileExists(p) ==> r matches Some(t) && t.0@ == p && !t.1,
        predicate@ matches PredicateView::PathContainsRegex(p, _) ==> r matches Some(t) && t.0@ == p
            && t.1,
        predicate@ matches PredicateView::A2mlKeyPresent(f, _) ==> r matches Some(t) && t.0@ == f
            && t.1,
        predicate@ matches PredicateView::CommandCleanClaim(_) ==> r is None,
        predicate@ matches PredicateView::Unknown(_) ==> r is None,
{
    match predicate {
        Predicate::FileExists { path } => Some((path.as_str(), false)),
        Predicate::PathContainsRegex { path, pattern: _ } => Some((path.as_str(), true)),
        Predicate::A2mlKeyPresent { file, key: _ } => Some((file.as_str(), true)),
        Predicate::CommandCleanClaim { command: _ } => None,
        Predicate::Unknown { reason: _ } => None,
    }
}

/// The part of an A2ML key before its first `.` (the whole key without one).
pub open spec fn first_segment(key: Seq<char>) -> Seq<char> {
    match find(key, "."@) {
        Some(i) => key.take(i as int),
        None => key,
    }
}

/// The judgment on a predicate, given what the file system showed for the
/// path it names and whether command execution is allowed. Command claims
/// are never executed.
/// The segment of an A2ML key that is looked for is the key's prefix before
/// its first '.', or the whole key where it has no '.': a prefix of the key,
/// free of '.', that ends the key or stops at a '.'.
pub proof fn lemma_first_segment_is_prefix(key: Seq<char>)
    ensures
        first_segment(key).len() <= key.len(),
        key.take(first_segment(key).len() as int) == first_segment(key),
        forall|k: int| 0 <= k < first_segment(key).len() ==> #[trigger] first_segment(key)[k] != '.',
        first_segment(key).len() < key.len() ==> key[first_segment(key).len() as int] == '.',
{
    reveal_strlit(".");
    let dot = "."@;
    assert(dot =~= seq!['.']);
    crate::text::lemma_find_from_bounds(key, dot, 0);
    crate::text::lemma_find_from_first(key, dot, 0);
    let seg = first_segment(key);
    assert forall|k: int| 0 <= k < seg.len() implies #[trigger] seg[k] != '.' by {
        assert(key.subrange(k, k + 1) != dot);
        assert(key.subrange(k, k + 1)[0] == key[k]);
        if key[k] == '.' {
            assert(key.subrange(k, k + 1) =~= dot);
        }
    }
    if let Some(i) = find(key, dot) {
        assert(key.subrange(i as int, i as int + 1)[0] == key[i as int]);
    }
    assert(key.take(seg.len() as int) =~= seg);
}

/// An A2ML key claim on a file that was read is grounded exactly when the
/// body holds '(' followed by the key's first segment
/// (`lemma_first_segment_is_prefix`).
pub proof fn lemma_a2ml_key_grounded(
    file: Seq<char>,
    key: Seq<char>,
    body: Seq<char>,
    allow_exec: bool,
)
    ensures
        judge_spec(PredicateView::A2mlKeyPresent(file, key), ProbeView::Found(body), allow_exec)
            is Grounded <==> contains(body, seq!['('] + first_segment(key)),
{
    reveal_strlit("(");
    assert("("@ =~= seq!['(']);
}

pub open spec fn judge_spec(p: PredicateView, probe: ProbeView, allow_exec: bool) -> ResultView {
    match p {
        PredicateView::FileExists(path) => match probe {
            ProbeView::NotFound => ResultView::Ungrounded(
                "path not found under any corpus root: "@ + path,
            ),
            _ => ResultView::Grounded,
        },
        PredicateView::PathContainsRegex(path, pattern) => match probe {
            ProbeView::NotFound => ResultView::Ungrounded("path not found: "@ + path),
            ProbeView::ReadFailed(e) => ResultView::Unknown("read error: "@ + e),
            ProbeView::Found(body) => match regex_new_error(pattern) {
                Some(e) => ResultView::Unknown("invalid pattern: "@ + e),
                None => if regex_captures(pattern, body).len() > 0 {
                    ResultView::Grounded
                } else {
                    ResultView::Ungrounded("pattern not found in "@ + path + ": "@ + pattern)
                },
            },
        },
        PredicateView::A2mlKeyPresent(file, key) => match probe {
            ProbeView::NotFound => ResultView::Ungrounded("a2ml file not found: "@ + file),
            ProbeView::ReadFailed(e) => ResultView::Unknown("a2ml read error: "@ + e),
            ProbeView::Found(body) => if contains(body, "("@ + first_segment(key)) {
                ResultView::Grounded
            } else {
                ResultView::Ungrounded("a2ml key not found: "@ + key + " in "@ + file)
            },
        },
        PredicateView::CommandCleanClaim(command) => if !allow_exec {
            ResultView::Unknown(
                "command claim not executed (use --allow-exec to verify): "@ + command,
            )
        } else {
            ResultView::Unknown(
                "exec resolver not yet implemented for: "@ + command + " (planned)"@,
            )
        },
        PredicateView::Unknown(reason) => ResultView::Unknown(reason),
    }
}

fn concat2(a: &str, b: &str) -> (r: String)
    ensures
        r@ == a@ + b@,
{
    let mut s = String::from_str(a);
    append_str(&mut s, b);
    s
}

fn first_segment_of(key: &str) -> (r: Vec<char>)
    ensures
        r@ == first_segment(key@),
{
    let k = chars_of(key);
    let dot = chars_of(".");
    match find_chars(&k, &dot) {
        Some(i) => {
            proof {
                crate::text::lemma_find_from_bounds(k@, dot@, 0);
            }
            sub_vec(&k, 0, i)
        },
        None => k,
    }
}

/// Judges a claim's predicate; see `judge_spec`.
pub fn judge_claim(predicate: &Predicate, probe: &FileProbe, cfg: &GrounderConfig) -> (r:
    ClaimResult)
    ensures
        r@ == judge_spec(predicate@, probe@, cfg.allow_exec),
{
    match predicate {
        Predicate::FileExists { path } => match probe {
            FileProbe::NotFound => ClaimResult::Ungrounded {
                reason: concat2("path not found under any corpus root: ", path.as_str()),
            },
            _ => ClaimResult::Grounded,
        },
        Predicate::PathContainsRegex { path, pattern } => match probe {
            FileProbe::NotFound => ClaimResult::Ungrounded {
                reason: concat2("path not found: ", path.as_str()),
            },
            FileProbe::ReadFailed(e) => ClaimResult::Unknown {
                reason: concat2("read error: ", e.as_str()),
            },
            FileProbe::Found(body) => match regex_is_match(pattern.as_str(), body.as_str()) {
                Ok(true) => ClaimResult::Grounded,
                Ok(false) => {
                    let mut reason = concat2("pattern not found in ", path.as_str());
                    append_str(&mut reason, ": ");
                    append_str(&mut reason, pattern.as_str());
                    ClaimResult::Ungrounded { reason }
                },
                Err(e) => ClaimResult::Unknown { reason: concat2("invalid pattern: ", e.as_str()) },
            },
        },
        Predicate::A2mlKeyPresent { file, key } => match probe {
            FileProbe::NotFound => ClaimResult::Ungrounded {
                reason: concat2("a2ml file not found: ", file.as_str()),
            },
            FileProbe::ReadFailed(e) => ClaimResult::Unknown {
                reason: concat2("a2ml read error: ", e.as_str()),
            },
            FileProbe::Found(body) => {
                let seg = first_segment_of(key.as_str());
                let mut needle = chars_of("(");
                let ghost open_paren = needle@;
                let mut j: usize = 0;
                while j < seg.len()
                    invariant
                        j <= seg.len(),
                        needle@ == open_paren + seg@.take(j as int),
                    decreases seg.len() - j,
                {
                    proof {
                        assert(seg@.take(j + 1) =~= seg@.take(j as int).push(seg@[j as int]));
                    }
                    needle.push(seg[j]);
                    j = j + 1;
                }
                proof {
                    assert(seg@.take(seg.len() as int) =~= seg@);
                }
                let hay = chars_of(body.as_str());
                if contains_chars(&hay, &needle) {
                    ClaimResult::Grounded
                } else {
                    let mut reason = concat2("a2ml key not found: ", key.as_str());
                    append_str(&mut reason, " in ");
                    append_str(&mut reason, file.as_str());
                    ClaimResult::Ungrounded { reason }
                }
            },
        },
        Predicate::CommandCleanClaim { command } => {
            if !cfg.allow_exec {
                ClaimResult::Unknown {
                    reason: concat2(
                        "command claim not executed (use --allow-exec to verify): ",
                        command.as_str(),
                    ),
                }
            } else {
                let mut reason = concat2("exec resolver not yet implemented for: ", command.as_str());
                append_str(&mut reason, " (planned)");
                ClaimResult::Unknown { reason }
            }
        },
        Predicate::Unknown { reason } => ClaimResult::Unknown {
            reason: reason.clone(),
        },
    }
}

// ---------------------------------------------------------------------------
// Reports
// ---------------------------------------------------------------------------

pub open spec fn is_failure(r: DocClaimRecord) -> bool {
    r.result is Ungrounded
}

/// The ungrounded records among the first `n`, in order.
pub open spec fn failures_upto(s: Seq<DocClaimRecord>, n: nat) -> Seq<DocClaimRecord>
    decreases n,
{
    if n == 0 || n > s.len() {
        Seq::empty()
    } else if is_failure(s[n - 1]) {
        failures_upto(s, (n - 1) as nat).push(s[n - 1])
    } else {
        failures_upto(s, (n - 1) as nat)
    }
}

/// The other records among the first `n`, in order.
pub open spec fn others_upto(s: Seq<DocClaimRecord>, n: nat) -> Seq<DocClaimRecord>
    decreases n,
{
    if n == 0 || n > s.len() {
        Seq::empty()
    } else if is_failure(s[n - 1]) {
        others_upto(s, (n - 1) as nat)
    } else {
        others_upto(s, (n - 1) as nat).push(s[n - 1])
    }
}

pub open spec fn refs_view(v: Seq<&DocClaimRecord>) -> Seq<DocClaimRecord> {
    v.map_values(|r: &DocClaimRecord| *r)
}

/// Splits records into the ungrounded ones (a CI failure) and the rest
/// (grounded or merely unknown), each in input order.
pub fn partition_failures(records: &[DocClaimRecord]) -> (r: (
    Vec<&DocClaimRecord>,
    Vec<&DocClaimRecord>,
))
    ensures
        refs_view(r.0@) == failures_upto(records@, records@.len()),
        refs_view(r.1@) == others_upto(records@, records@.len()),
        r.0@.len() + r.1@.len() == records@.len(),
{
    let mut failures: Vec<&DocClaimRecord> = Vec::new();
    let mut ok_or_unknown: Vec<&DocClaimRecord> = Vec::new();
    let mut i: usize = 0;
    while i < records.len()
        invariant
            i <= records@.len(),
            refs_view(failures@) == failures_upto(records@, i as nat),
            refs_view(ok_or_unknown@) == others_upto(records@, i as nat),
            failures@.len() + ok_or_unknown@.len() == i,
        decreases records@.len() - i,
    {
        let r = &records[i];
        match &r.result {
            ClaimResult::Ungrounded { .. } => {
                let ghost before = failures@;
                failures.push(r);
                proof {
                    assert(refs_view(failures@) =~= refs_view(before).push(*r));
                }
            },
            _ => {
                let ghost before = ok_or_unknown@;
                ok_or_unknown.push(r);
                proof {
                    assert(refs_view(ok_or_unknown@) =~= refs_view(before).push(*r));
                }
            },
        }
        i = i + 1;
    }
    (failures, ok_or_unknown)
}

// ---------------------------------------------------------------------------
// Walking a corpus
// ---------------------------------------------------------------------------

/// What a corpus walk does with a directory entry.
#[derive(Debug, Clone, Copy, PartialEq, Eq, Structural)]
pub enum EntryAction {
    Skip,
    Descend,
    Scan,
}

/// Hidden entries and build output directories are not walked.
pub open spec fn is_excluded_name(name: Seq<char>) -> bool {
    (name.len() > 0 && name[0] == '.') || name == "target"@ || name == "node_modules"@
}

/// Documentation files: `.md` and `.adoc`, in any letter case.
pub open spec fn is_doc_extension(ext: Seq<char>) -> bool {
    lowercase(ext) == "md"@ || lowercase(ext) == "adoc"@
}

pub open spec fn entry_action_spec(name: Option<Seq<char>>, is_dir: bool, ext: Option<Seq<char>>) -> EntryAction {
    if name matches Some(n) && is_excluded_name(n) {
        EntryAction::Skip
    } else if is_dir {
        EntryAction::Descend
    } else {
        match ext {
            Some(e) => if is_doc_extension(e) {
                EntryAction::Scan
            } else {
                EntryAction::Skip
            },
            None => EntryAction::Skip,
        }
    }
}

pub open spec fn opt_str_view(o: Option<&str>) -> Option<Seq<char>> {
    match o {
        Some(s) => Some(s@),
        None => None,
    }
}

/// Where a claimed path is looked for.
#[derive(Debug, Clone, Copy, PartialEq, Eq, Structural)]
pub enum RootPick {
    /// The path is absolute and is used as given.
    AsGiven,
    /// The path under the corpus root with this index.
    Root(usize),
    /// There is no corpus root to look under.
    Unresolved,
}

/// Chooses where a relative path is resolved, from whether it is absolute
/// and whether it exists under each corpus root: an absolute path as given;
/// otherwise the first root that holds it, or the first root where none
/// does, or nothing where there are no roots.
pub fn pick_root(absolute: bool, exists: &Vec<bool>) -> (r: RootPick)
    ensures
        r is AsGiven <==> absolute,
        r is Unresolved <==> !absolute && exists@.len() == 0,
        r matches RootPick::Root(i) ==> i < exists@.len() && (forall|j: int|
            0 <= j < i ==> !#[trigger] exists@[j]) && (exists@[i as int] || (i == 0 && forall|j: int|
            0 <= j < exists@.len() ==> !#[trigger] exists@[j])),
{
    if absolute {
        return RootPick::AsGiven;
    }
    let mut i: usize = 0;
    while i < exists.len()
        invariant
            !absolute,
            i <= exists@.len(),
            forall|j: int| 0 <= j < i ==> !#[trigger] exists@[j],
        decreases exists@.len() - i,
    {
        if exists[i] {
            return RootPick::Root(i);
        }
        i = i + 1;
    }
    if exists.len() == 0 {
        RootPick::Unresolved
    } else {
        RootPick::Root(0)
    }
}

/// Decides what a corpus walk does with an entry, from its file name (when
/// it is valid UTF-8), whether it is a directory, and its extension.
pub fn entry_action(name: Option<&str>, is_dir: bool, extension: Option<&str>) -> (r: EntryAction)
    ensures
        r == entry_action_spec(opt_str_view(name), is_dir, opt_str_view(extension)),
{
    match name {
        Some(n) => {
            let cs = chars_of(n);
            let hidden = cs.len() > 0 && cs[0] == '.';
            if hidden || same_text(n, "target") || same_text(n, "node_modules") {
                return EntryAction::Skip;
            }
        },
        None => {},
    }
    if is_dir {
        return EntryAction::Descend;
    }
    match extension {
        Some(e) => {
            let lower = to_lowercase(e);
            if same_text(lower.as_str(), "md") || same_text(lower.as_str(), "adoc") {
                EntryAction::Scan
            } else {
                EntryAction::Skip
            }
        },
        None => EntryAction::Skip,
    }
}

/// The source URI of a documentation file: `repo://` and its path relative
/// to the scanned root.
pub fn doc_source_uri(relative_path: &str) -> (r: String)
    ensures
        r@ == "repo://"@ + relative_path@,
{
    concat2("repo://", relative_path)
}

// ---------------------------------------------------------------------------
// Laws
// ---------------------------------------------------------------------------

proof fn lemma_dedupe_unique(s: Seq<DocClaimView>, n: nat)
    ensures
        claim_ids(dedupe_claims(s, n)).no_duplicates(),
        forall|i: int|
            0 <= i < dedupe_claims(s, n).len() ==> s.contains(#[trigger] dedupe_claims(s, n)[i]),
    decreases n,
{
    if n > 0 && n <= s.len() {
        lemma_dedupe_unique(s, (n - 1) as nat);
        let kept = dedupe_claims(s, (n - 1) as nat);
        let ids = claim_ids(kept);
        if !ids.contains(s[n - 1].id) {
            let now = kept.push(s[n - 1]);
            let nids = claim_ids(now);
            assert(nids =~= ids.push(s[n - 1].id));
            assert forall|i: int, j: int| 0 <= i < nids.len() && 0 <= j < nids.len() && i != j implies nids[i]
                != nids[j] by {
                if i < ids.len() && j < ids.len() {
                    assert(nids[i] == ids[i] && nids[j] == ids[j]);
                } else if i < ids.len() {
                    assert(nids[i] == ids[i]);
                } else {
                    assert(nids[j] == ids[j]);
                }
            }
            assert forall|i: int| 0 <= i < now.len() implies s.contains(#[trigger] now[i]) by {
                if i < kept.len() {
                    assert(now[i] == kept[i]);
                } else {
                    assert(now[i] == s[n - 1]);
                }
            }
        }
    }
}

/// No two claims of a file share an id, and every claim comes from the
/// recognisers' output for its file.
pub proof fn lemma_claim_ids_unique(t: Seq<char>, uri: Seq<char>)
    ensures
        claim_ids(claims_spec(t, uri)).no_duplicates(),
        forall|i: int|
            0 <= i < claims_spec(t, uri).len() ==> raw_claims(t, uri, line_ranges(t).len()).contains(
                #[trigger] claims_spec(t, uri)[i],
            ),
{
    let raw = raw_claims(t, uri, line_ranges(t).len());
    lemma_dedupe_unique(raw, raw.len());
}

/// Command claims are never executed by default and never fail a run: they
/// are judged unknown whatever the file system shows and whatever the
/// configuration.
pub proof fn lemma_command_claims_never_fail(command: Seq<char>, probe: ProbeView, allow_exec: bool)
    ensures
        judge_spec(PredicateView::CommandCleanClaim(command), probe, allow_exec) is Unknown,
{
}

/// An unknown predicate is reported unknown with its own reason.
pub proof fn lemma_unknown_predicate_passes_through(reason: Seq<char>, probe: ProbeView, allow_exec: bool)
    ensures
        judge_spec(PredicateView::Unknown(reason), probe, allow_exec) == ResultView::Unknown(reason),
{
}

/// A claim whose path is missing from every root is ungrounded, whatever
/// it asserts about the file.
pub proof fn lemma_missing_path_is_ungrounded(p: PredicateView, allow_exec: bool)
    requires
        p is FileExists || p is PathContainsRegex || p is A2mlKeyPresent,
    ensures
        judge_spec(p, ProbeView::NotFound, allow_exec) is Ungrounded,
{
}

/// Partitioning loses and invents no record: failures are exactly the
/// ungrounded records, the rest are all the others, and the two add up.
pub proof fn lemma_partition_complete(s: Seq<DocClaimRecord>, n: nat)
    requires
        n <= s.len(),
    ensures
        failures_upto(s, n).len() + others_upto(s, n).len() == n,
        forall|i: int| 0 <= i < failures_upto(s, n).len() ==> is_failure(#[trigger] failures_upto(s, n)[i]),
        forall|i: int| 0 <= i < others_upto(s, n).len() ==> !is_failure(#[trigger] others_upto(s, n)[i]),
    decreases n,
{
    if n > 0 {
        lemma_partition_complete(s, (n - 1) as nat);
        let f = failures_upto(s, (n - 1) as nat);
        let o = others_upto(s, (n - 1) as nat);
        if is_failure(s[n - 1]) {
            assert forall|i: int| 0 <= i < failures_upto(s, n).len() implies is_failure(
                #[trigger] failures_upto(s, n)[i],
            ) by {
                if i < f.len() {
                    assert(failures_upto(s, n)[i] == f[i]);
                }
            }
        } else {
            assert forall|i: int| 0 <= i < others_upto(s, n).len() implies !is_failure(
                #[trigger] others_upto(s, n)[i],
            ) by {
                if i < o.len() {
                    assert(others_upto(s, n)[i] == o[i]);
                }
            }
        }
    }
}

} // verus!
