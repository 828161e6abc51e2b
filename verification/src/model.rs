//! The domain model: claim candidates, classification outcomes and the
//! annotations that are stored and edited, with their stable identifiers.
use crate::text::append_chars;
use std::hash::{BuildHasher, BuildHasherDefault, DefaultHasher};
use vstd::prelude::*;

verus! {

/// How a claim transition is judged.
#[derive(Debug, Clone, Copy, PartialEq, Eq, Structural)]
pub enum Classification {
    ValidPath,
    Overextended,
    Conflation,
    Incomplete,
    Abstain,
}

/// What kind of invariant a claim transition has to carry.
#[derive(Debug, Clone, Copy, PartialEq, Eq, Structural)]
pub enum InvariantType {
    CausalRelationship,
    StatisticalRelationship,
    LogicalImplication,
    Mechanism,
    RiskProbability,
    NormativeBridge,
    ResourceBudget,
    Provenance,
}

/// Who sees an annotation.
#[derive(Debug, Clone, Copy, PartialEq, Eq, Structural)]
pub enum Visibility {
    Private,
    SharedTeam,
}

/// Where an annotation stands: open, accepted, dismissed or clarified.
#[derive(Debug, Clone, Copy, PartialEq, Eq, Structural)]
pub enum Status {
    Open,
    Accepted,
    Dismissed,
    Clarified,
}

/// A byte range of an artifact.
#[derive(Debug, Clone, Copy, PartialEq, Eq, Structural)]
pub struct Span {
    pub start: usize,
    pub end: usize,
}

/// A claim transition found in prose: a source claim, a target claim and the
/// trigger phrase that joins them.
#[derive(Debug, Clone, PartialEq, Eq)]
pub struct ClaimCandidate {
    pub span: Span,
    pub source_text: String,
    pub target_text: String,
    pub trigger: String,
    pub path_description: String,
}

/// The mathematical value of a [`ClaimCandidate`].
pub struct CandidateView {
    pub span: Span,
    pub source_text: Seq<char>,
    pub target_text: Seq<char>,
    pub trigger: Seq<char>,
    pub path_description: Seq<char>,
}

impl View for ClaimCandidate {
    type V = CandidateView;

    open spec fn view(&self) -> CandidateView {
        CandidateView {
            span: self.span,
            source_text: self.source_text@,
            target_text: self.target_text@,
            trigger: self.trigger@,
            path_description: self.path_description@,
        }
    }
}

/// The judgment on one claim transition.
#[derive(Debug, Clone, PartialEq, Eq)]
pub struct ClassificationOutcome {
    pub invariant_type: InvariantType,
    pub preserved: Option<bool>,
    pub losses: Vec<String>,
    pub break_condition: Option<String>,
    pub classification: Classification,
}

/// The mathematical value of a [`ClassificationOutcome`].
pub struct OutcomeView {
    pub invariant_type: InvariantType,
    pub preserved: Option<bool>,
    pub losses: Seq<Seq<char>>,
    pub break_condition: Option<Seq<char>>,
    pub classification: Classification,
}

pub open spec fn texts_view(v: Seq<String>) -> Seq<Seq<char>> {
    v.map_values(|s: String| s@)
}

pub open spec fn opt_text_view(o: Option<String>) -> Option<Seq<char>> {
    match o {
        Some(s) => Some(s@),
        None => None,
    }
}

impl View for ClassificationOutcome {
    type V = OutcomeView;

    open spec fn view(&self) -> OutcomeView {
        OutcomeView {
            invariant_type: self.invariant_type,
            preserved: self.preserved,
            losses: texts_view(self.losses@),
            break_condition: opt_text_view(self.break_condition),
            classification: self.classification,
        }
    }
}

/// A stored, user-editable record of a claim transition and its judgment.
#[derive(Debug, Clone, PartialEq, Eq)]
pub struct Annotation {
    pub id: String,
    pub artifact_uri: String,
    pub span: Span,
    pub source_text: String,
    pub target_text: String,
    pub path_description: String,
    pub invariant_type: InvariantType,
    pub preserved: Option<bool>,
    pub losses: Vec<String>,
    pub break_condition: Option<String>,
    pub classification: Classification,
    pub visibility: Visibility,
    pub status: Status,
    pub created_by: String,
    pub updated_at: String,
    pub notes: String,
}

/// The mathematical value of an [`Annotation`].
pub struct AnnotationView {
    pub id: Seq<char>,
    pub artifact_uri: Seq<char>,
    pub span: Span,
    pub source_text: Seq<char>,
    pub target_text: Seq<char>,
    pub path_description: Seq<char>,
    pub invariant_type: InvariantType,
    pub preserved: Option<bool>,
    pub losses: Seq<Seq<char>>,
    pub break_condition: Option<Seq<char>>,
    pub classification: Classification,
    pub visibility: Visibility,
    pub status: Status,
    pub created_by: Seq<char>,
    pub updated_at: Seq<char>,
    pub notes: Seq<char>,
}

impl View for Annotation {
    type V = AnnotationView;

    open spec fn view(&self) -> AnnotationView {
        AnnotationView {
            id: self.id@,
            artifact_uri: self.artifact_uri@,
            span: self.span,
            source_text: self.source_text@,
            target_text: self.target_text@,
            path_description: self.path_description@,
            invariant_type: self.invariant_type,
            preserved: self.preserved,
            losses: texts_view(self.losses@),
            break_condition: opt_text_view(self.break_condition),
            classification: self.classification,
            visibility: self.visibility,
            status: self.status,
            created_by: self.created_by@,
            updated_at: self.updated_at@,
            notes: self.notes@,
        }
    }
}

pub open spec fn annotations_view(v: Seq<Annotation>) -> Seq<AnnotationView> {
    v.map_values(|a: Annotation| a@)
}

/// Whether the annotation overlay is shown.
#[derive(Debug, Clone, PartialEq, Eq)]
pub struct OverlayState {
    pub enabled: bool,
    pub updated_at: String,
}

// ---------------------------------------------------------------------------
// Timestamps
// ---------------------------------------------------------------------------

#[verifier::external_type_specification]
#[verifier::external_body]
pub struct ExOffsetDateTime(time::OffsetDateTime);

#[verifier::external_type_specification]
#[verifier::external_body]
pub struct ExFormatError(time::error::Format);

/// `time::OffsetDateTime::now_utc`: the current moment, read from the system
/// clock. Nothing is stated of the value.
#[verifier::external_body]
fn now_utc() -> time::OffsetDateTime {
    time::OffsetDateTime::now_utc()
}

/// Whether the characters `i..i + n` of `s` are ASCII digits.
pub open spec fn ascii_digits(s: Seq<char>, i: int, n: int) -> bool {
    forall|k: int| i <= k < i + n ==> '0' <= #[trigger] s[k] <= '9'
}

/// A fraction of a second: a dot and one to nine digits.
pub open spec fn rfc3339_fraction(f: Seq<char>) -> bool {
    f.len() == 0 || (2 <= f.len() <= 10 && f[0] == '.' && ascii_digits(f, 1, f.len() - 1))
}

/// A UTC offset: `Z`, or a sign and `hh:mm`.
pub open spec fn rfc3339_offset(z: Seq<char>) -> bool {
    z == seq!['Z'] || (z.len() == 6 && (z[0] == '+' || z[0] == '-') && ascii_digits(z, 1, 2)
        && z[3] == ':' && ascii_digits(z, 4, 2))
}

/// An RFC 3339 timestamp as the time crate writes it:
/// `YYYY-MM-DDThh:mm:ss`, an optional fraction of a second, and an offset.
pub open spec fn rfc3339_shaped(s: Seq<char>) -> bool {
    &&& s.len() >= 20
    &&& ascii_digits(s, 0, 4)
    &&& s[4] == '-'
    &&& ascii_digits(s, 5, 2)
    &&& s[7] == '-'
    &&& ascii_digits(s, 8, 2)
    &&& s[10] == 'T'
    &&& ascii_digits(s, 11, 2)
    &&& s[13] == ':'
    &&& ascii_digits(s, 14, 2)
    &&& s[16] == ':'
    &&& ascii_digits(s, 17, 2)
    &&& exists|k: int|
        19 <= k <= s.len() && rfc3339_fraction(s.subrange(19, k)) && #[trigger] rfc3339_offset(
            s.skip(k),
        )
}

/// `time::OffsetDateTime::format` with the well-known RFC 3339 description.
/// Where it succeeds, the text has the shape that the crate's RFC 3339
/// formatter writes (four-digit year, two-digit month, day, hour, minute and
/// second, an optional fraction of one to nine digits, then `Z` or a signed
/// `hh:mm` offset). Which moment it renders is not stated: the moment is
/// opaque.
#[verifier::external_body]
fn format_rfc3339(moment: time::OffsetDateTime) -> (r: Result<String, time::error::Format>)
    ensures
        r matches Ok(s) ==> rfc3339_shaped(s@),
{
    moment.format(&time::format_description::well_known::Rfc3339)
}

/// The timestamp used when the clock cannot be rendered.
pub open spec fn epoch_text() -> Seq<char> {
    "1970-01-01T00:00:00Z"@
}

/// The rendered timestamp, or the Unix epoch when rendering failed.
pub fn timestamp_or_epoch(formatted: Option<String>) -> (r: String)
    ensures
        formatted matches Some(s) ==> r@ == s@,
        formatted is None ==> r@ == epoch_text(),
{
    match formatted {
        Some(s) => s,
        None => String::from_str("1970-01-01T00:00:00Z"),
    }
}

/// The epoch text is itself an RFC 3339 timestamp.
pub proof fn lemma_epoch_is_rfc3339()
    ensures
        rfc3339_shaped(epoch_text()),
{
    reveal_strlit("1970-01-01T00:00:00Z");
    let s = epoch_text();
    assert(s.skip(19) =~= seq!['Z']);
    assert(s.subrange(19, 19) =~= Seq::<char>::empty());
    assert(rfc3339_offset(s.skip(19)));
}

/// The current UTC time in RFC 3339 form, or the Unix epoch when it cannot
/// be rendered. The moment comes from the system clock, so which moment the
/// text shows is not stated; it is always an RFC 3339 timestamp.
pub fn now_rfc3339() -> (r: String)
    ensures
        rfc3339_shaped(r@),
{
    let formatted = match format_rfc3339(now_utc()) {
        Ok(s) => Some(s),
        Err(_) => None,
    };
    proof {
        lemma_epoch_is_rfc3339();
    }
    timestamp_or_epoch(formatted)
}

// ---------------------------------------------------------------------------
// Identifiers
// ---------------------------------------------------------------------------

/// What `BuildHasher::hash_one` of `BuildHasherDefault<DefaultHasher>` gives
/// for the key `(artifact_uri, start, end, source, target)`.
pub uninterp spec fn annotation_key_hash(
    artifact_uri: Seq<char>,
    start: usize,
    end: usize,
    source: Seq<char>,
    target: Seq<char>,
) -> u64;

/// `BuildHasher::hash_one` with a default `DefaultHasher`, on the annotation
/// key. `DefaultHasher::new` is unkeyed, so the value depends on the key alone.
#[verifier::external_body]
fn hash_annotation_key(
    artifact_uri: &str,
    start: usize,
    end: usize,
    source: &str,
    target: &str,
) -> (h: u64)
    ensures
        h == annotation_key_hash(artifact_uri@, start, end, source@, target@),
{
    BuildHasherDefault::<DefaultHasher>::default().hash_one((artifact_uri, start, end, source, target))
}

/// The lowercase hexadecimal digit of `d` (`0 <= d < 16`).
pub open spec fn hex_digit(d: nat) -> char {
    if d < 10 {
        ((d + 48) as u8) as char
    } else {
        ((d + 87) as u8) as char
    }
}

/// The last `n` lowercase hexadecimal digits of `v`, most significant first.
pub open spec fn hex_digits(v: nat, n: nat) -> Seq<char>
    decreases n,
{
    if n == 0 {
        Seq::empty()
    } else {
        hex_digits(v / 16, (n - 1) as nat).push(hex_digit(v % 16))
    }
}

/// A lowercase hexadecimal digit.
pub open spec fn is_lower_hex(c: char) -> bool {
    ('0' <= c && c <= '9') || ('a' <= c && c <= 'f')
}

/// `hex_digits(v, n)` is `n` lowercase hexadecimal digits.
pub proof fn lemma_hex_digits_shape(v: nat, n: nat)
    ensures
        hex_digits(v, n).len() == n,
        forall|i: int| 0 <= i < n ==> is_lower_hex(#[trigger] hex_digits(v, n)[i]),
    decreases n,
{
    if n > 0 {
        lemma_hex_digits_shape(v / 16, (n - 1) as nat);
        let d = v % 16;
        assert(is_lower_hex(hex_digit(d))) by {
            if d < 10 {
                assert(((d + 48) as u8) as char == ((d + 48) as u8) as char);
            }
        }
        let h = hex_digits(v, n);
        assert forall|i: int| 0 <= i < n implies is_lower_hex(#[trigger] h[i]) by {
            if i < n - 1 {
                assert(h[i] == hex_digits(v / 16, (n - 1) as nat)[i]);
            }
        }
    }
}

fn hex_char(d: u64) -> (c: char)
    requires
        d < 16,
    ensures
        c == hex_digit(d as nat),
{
    let b: u8 = if d < 10 {
        (d as u8) + 48
    } else {
        (d as u8) + 87
    };
    b as char
}

/// Appends the last `n` hexadecimal digits of `v`.
pub fn push_hex(out: &mut String, v: u64, n: usize)
    ensures
        final(out)@ == old(out)@ + hex_digits(v as nat, n as nat),
    decreases n,
{
    if n == 0 {
        proof {
            assert(old(out)@ + Seq::<char>::empty() =~= old(out)@);
        }
    } else {
        push_hex(out, v / 16, n - 1);
        let mut one: Vec<char> = Vec::new();
        one.push(hex_char(v % 16));
        append_chars(out, &one);
        proof {
            assert(out@ =~= old(out)@ + hex_digits(v as nat, n as nat));
        }
    }
}

/// `"ip-"` followed by 16 lowercase hexadecimal digits of the key hash.
pub open spec fn annotation_id(
    artifact_uri: Seq<char>,
    span: Span,
    source: Seq<char>,
    target: Seq<char>,
) -> Seq<char> {
    "ip-"@ + hex_digits(
        annotation_key_hash(artifact_uri, span.start, span.end, source, target) as nat,
        16,
    )
}

/// The stable identifier of an annotation: it depends on the artifact, the
/// span and the two claim texts only.
pub fn make_annotation_id(artifact_uri: &str, span: &Span, source: &str, target: &str) -> (r:
    String)
    ensures
        r@ == annotation_id(artifact_uri@, *span, source@, target@),
{
    let h = hash_annotation_key(artifact_uri, span.start, span.end, source, target);
    let mut out = String::from_str("ip-");
    push_hex(&mut out, h, 16);
    out
}

} // verus!
