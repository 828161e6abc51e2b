//! The decisions behind the command-line tool: scan profiles, labels,
//! argument parsing, manual annotations and edits, and the grounding
//! summary with its exit status.
use crate::annotations::{merge_notes, merged_notes, opt_text};
use crate::classifier::{add_loss, push_loss};
use crate::doc_claims::{opt_str_view, ClaimResult, DocClaimRecord};
use crate::model::{
    annotation_id, annotations_view, make_annotation_id, texts_view, Annotation, AnnotationView,
    Classification, InvariantType, Span, Status, Visibility,
};
use crate::text::{ascii_lower, chars_of, same_chars, same_text};
use vstd::prelude::*;

verus! {

// ---------------------------------------------------------------------------
// Profiles
// ---------------------------------------------------------------------------

/// The built-in scan profiles.
#[derive(Debug, Clone, Copy, PartialEq, Eq, Structural)]
pub enum ProfilePreset {
    Generic,
    Echidna,
    Panll,
    Hypatia,
}

/// A profile's defaults: its name, the visibility of its suggestions, the
/// artifact suffixes it prefers and the transitions it focuses on.
pub struct ProfileConfig {
    pub name: &'static str,
    pub default_visibility: Visibility,
    pub include_suffixes: Vec<&'static str>,
    pub focus: Vec<&'static str>,
}

pub open spec fn strs(v: Seq<&'static str>) -> Seq<Seq<char>> {
    v.map_values(|s: &'static str| s@)
}

/// The name, default visibility, suffixes and focus of each profile.
pub open spec fn profile_spec(p: ProfilePreset) -> (Seq<char>, Visibility, Seq<Seq<char>>, Seq<Seq<char>>) {
    match p {
        ProfilePreset::Generic => (
            "generic"@,
            Visibility::Private,
            seq![".md"@, ".markdown"@, ".adoc"@, ".txt"@],
            seq!["claim transitions"@],
        ),
        ProfilePreset::Echidna => (
            "echidna"@,
            Visibility::SharedTeam,
            seq![".md"@, ".adoc"@, ".txt"@],
            seq![
                "theorem -> guarantee"@,
                "assumption-bound -> general truth"@,
                "local result -> universal claim"@,
            ],
        ),
        ProfilePreset::Panll => (
            "panll"@,
            Visibility::Private,
            seq![".md"@, ".adoc"@, ".txt"@],
            seq![
                "model -> reality"@,
                "benchmark -> capability"@,
                "descriptive -> normative"@,
            ],
        ),
        ProfilePreset::Hypatia => (
            "hypatia"@,
            Visibility::SharedTeam,
            seq![".md"@, ".adoc"@, ".txt"@],
            seq!["data -> policy"@, "probability -> certainty"@, "benchmark -> capability"@],
        ),
    }
}

/// The defaults of a profile.
pub fn profile_config(profile: ProfilePreset) -> (r: ProfileConfig)
    ensures
        r.name@ == profile_spec(profile).0,
        r.default_visibility == profile_spec(profile).1,
        strs(r.include_suffixes@) == profile_spec(profile).2,
        strs(r.focus@) == profile_spec(profile).3,
{
    let r = match profile {
        ProfilePreset::Generic => ProfileConfig {
            name: "generic",
            default_visibility: Visibility::Private,
            include_suffixes: vec![".md", ".markdown", ".adoc", ".txt"],
            focus: vec!["claim transitions"],
        },
        ProfilePreset::Echidna => ProfileConfig {
            name: "echidna",
            default_visibility: Visibility::SharedTeam,
            include_suffixes: vec![".md", ".adoc", ".txt"],
            focus: vec![
                "theorem -> guarantee",
                "assumption-bound -> general truth",
                "local result -> universal claim",
            ],
        },
        ProfilePreset::Panll => ProfileConfig {
            name: "panll",
            default_visibility: Visibility::Private,
            include_suffixes: vec![".md", ".adoc", ".txt"],
            focus: vec!["model -> reality", "benchmark -> capability", "descriptive -> normative"],
        },
        ProfilePreset::Hypatia => ProfileConfig {
            name: "hypatia",
            default_visibility: Visibility::SharedTeam,
            include_suffixes: vec![".md", ".adoc", ".txt"],
            focus: vec!["data -> policy", "probability -> certainty", "benchmark -> capability"],
        },
    };
    proof {
        assert(strs(r.include_suffixes@) =~= profile_spec(profile).2);
        assert(strs(r.focus@) =~= profile_spec(profile).3);
    }
    r
}

/// Whether `s` ends with `suffix`.
pub open spec fn ends_with(s: Seq<char>, suffix: Seq<char>) -> bool {
    suffix.len() <= s.len() && s.skip(s.len() - suffix.len()) == suffix
}

fn ends_with_chars(s: &Vec<char>, suffix: &Vec<char>) -> (r: bool)
    ensures
        r == ends_with(s@, suffix@),
{
    if suffix.len() > s.len() {
        return false;
    }
    let off = s.len() - suffix.len();
    let mut j: usize = 0;
    while j < suffix.len()
        invariant
            j <= suffix.len(),
            off + suffix.len() == s.len(),
            forall|k: int| 0 <= k < j ==> s@[off + k] == suffix@[k],
        decreases suffix.len() - j,
    {
        if s[off + j] != suffix[j] {
            proof {
                assert(s@.skip(off as int)[j as int] == s@[off + j]);
            }
            return false;
        }
        j = j + 1;
    }
    proof {
        assert(s@.skip(off as int) =~= suffix@);
    }
    true
}

/// Whether the artifact URI ends with one of the suffixes.
pub fn path_matches_profile(artifact_uri: &str, suffixes: &Vec<&'static str>) -> (r: bool)
    ensures
        r == exists|i: int| 0 <= i < suffixes@.len() && ends_with(artifact_uri@, #[trigger] suffixes@[i]@),
{
    let uri = chars_of(artifact_uri);
    let mut i: usize = 0;
    while i < suffixes.len()
        invariant
            i <= suffixes@.len(),
            uri@ == artifact_uri@,
            forall|j: int| 0 <= j < i ==> !ends_with(artifact_uri@, #[trigger] suffixes@[j]@),
        decreases suffixes@.len() - i,
    {
        let suffix = chars_of(suffixes[i]);
        if ends_with_chars(&uri, &suffix) {
            return true;
        }
        i = i + 1;
    }
    false
}

// ---------------------------------------------------------------------------
// Labels
// ---------------------------------------------------------------------------

pub open spec fn status_label(s: Status) -> Seq<char> {
    match s {
        Status::Open => "open"@,
        Status::Accepted => "accepted"@,
        Status::Dismissed => "dismissed"@,
        Status::Clarified => "clarified"@,
    }
}

pub open spec fn classification_label(c: Classification) -> Seq<char> {
    match c {
        Classification::ValidPath => "valid_path"@,
        Classification::Overextended => "overextended"@,
        Classification::Conflation => "conflation"@,
        Classification::Incomplete => "incomplete"@,
        Classification::Abstain => "abstain"@,
    }
}

pub open spec fn invariant_label(t: InvariantType) -> Seq<char> {
    match t {
        InvariantType::CausalRelationship => "causal_relationship"@,
        InvariantType::StatisticalRelationship => "statistical_relationship"@,
        InvariantType::LogicalImplication => "logical_implication"@,
        InvariantType::Mechanism => "mechanism"@,
        InvariantType::RiskProbability => "risk_probability"@,
        InvariantType::NormativeBridge => "normative_bridge"@,
        InvariantType::ResourceBudget => "resource_budget"@,
        InvariantType::Provenance => "provenance"@,
    }
}

/// The snake-case label of a status.
pub fn enum_label_status(value: &Status) -> (r: &'static str)
    ensures
        r@ == status_label(*value),
{
    match value {
        Status::Open => "open",
        Status::Accepted => "accepted",
        Status::Dismissed => "dismissed",
        Status::Clarified => "clarified",
    }
}

/// The snake-case label of a classification.
pub fn enum_label_classification(value: &Classification) -> (r: &'static str)
    ensures
        r@ == classification_label(*value),
{
    match value {
        Classification::ValidPath => "valid_path",
        Classification::Overextended => "overextended",
        Classification::Conflation => "conflation",
        Classification::Incomplete => "incomplete",
        Classification::Abstain => "abstain",
    }
}

/// The snake-case label of an invariant type.
pub fn enum_label_invariant(value: &InvariantType) -> (r: &'static str)
    ensures
        r@ == invariant_label(*value),
{
    match value {
        InvariantType::CausalRelationship => "causal_relationship",
        InvariantType::StatisticalRelationship => "statistical_relationship",
        InvariantType::LogicalImplication => "logical_implication",
        InvariantType::Mechanism => "mechanism",
        InvariantType::RiskProbability => "risk_probability",
        InvariantType::NormativeBridge => "normative_bridge",
        InvariantType::ResourceBudget => "resource_budget",
        InvariantType::Provenance => "provenance",
    }
}

// ---------------------------------------------------------------------------
// Parsing `--preserved`
// ---------------------------------------------------------------------------


fn ascii_lower_of(s: &str) -> (r: Vec<char>)
    ensures
        r@ == ascii_lower(s@),
{
    let cs = chars_of(s);
    let mut out: Vec<char> = Vec::new();
    let mut i: usize = 0;
    while i < cs.len()
        invariant
            i <= cs.len(),
            out@ == ascii_lower(cs@.take(i as int)),
        decreases cs.len() - i,
    {
        let c = cs[i];
        let d = if 'A' <= c && c <= 'Z' {
            ((c as u8) + 32) as char
        } else {
            c
        };
        out.push(d);
        proof {
            assert(ascii_lower(cs@.take(i + 1)) =~= ascii_lower(cs@.take(i as int)).push(d));
        }
        i = i + 1;
    }
    proof {
        assert(cs@.take(cs.len() as int) =~= cs@);
    }
    out
}

/// The value of `--preserved`: "true", "false", or "none"/"null" for no
/// judgment, in any ASCII letter case.
pub open spec fn preserved_value(raw: Seq<char>) -> Option<Option<bool>> {
    let l = ascii_lower(raw);
    if l == "true"@ {
        Some(Some(true))
    } else if l == "false"@ {
        Some(Some(false))
    } else if l == "none"@ || l == "null"@ {
        Some(None)
    } else {
        None
    }
}

/// Parses `--preserved`; any other text is refused with a message.
pub fn parse_preserved(raw: &str) -> (r: Result<Option<bool>, String>)
    ensures
        r matches Ok(v) ==> preserved_value(raw@) == Some(v),
        r is Err ==> preserved_value(raw@) is None,
        r matches Err(e) ==> e@ == "--preserved must be one of: true, false, none"@,
{
    let l = ascii_lower_of(raw);
    if same_chars(&l, &chars_of("true")) {
        Ok(Some(true))
    } else if same_chars(&l, &chars_of("false")) {
        Ok(Some(false))
    } else if same_chars(&l, &chars_of("none")) || same_chars(&l, &chars_of("null")) {
        Ok(None)
    } else {
        Err(String::from_str("--preserved must be one of: true, false, none"))
    }
}

// ---------------------------------------------------------------------------
// Listing
// ---------------------------------------------------------------------------

/// Whether an annotation passes the listing filters that were given: the
/// artifact URI, the visibility and the status, each only where given.
pub open spec fn listed(
    a: AnnotationView,
    uri: Option<Seq<char>>,
    visibility: Option<Visibility>,
    status: Option<Status>,
) -> bool {
    &&& (uri matches Some(u) ==> a.artifact_uri == u)
    &&& (visibility matches Some(v) ==> a.visibility == v)
    &&& (status matches Some(st) ==> a.status == st)
}

/// The annotations among the first `n` of `s` that pass the filters, in
/// their order.
pub open spec fn listed_upto(
    s: Seq<AnnotationView>,
    uri: Option<Seq<char>>,
    visibility: Option<Visibility>,
    status: Option<Status>,
    n: nat,
) -> Seq<AnnotationView>
    decreases n,
{
    if n == 0 || n > s.len() {
        Seq::empty()
    } else {
        let prev = listed_upto(s, uri, visibility, status, (n - 1) as nat);
        if listed(s[n - 1], uri, visibility, status) {
            prev.push(s[n - 1])
        } else {
            prev
        }
    }
}

/// The annotations that a listing shows: those with the given artifact
/// URI, visibility and status (each filter only where given), in order.
pub fn filter_annotations(
    items: Vec<Annotation>,
    artifact_uri: Option<&str>,
    visibility: Option<Visibility>,
    status: Option<Status>,
) -> (r: Vec<Annotation>)
    ensures
        annotations_view(r@) == listed_upto(
            annotations_view(items@),
            opt_str_view(artifact_uri),
            visibility,
            status,
            items@.len(),
        ),
{
    let ghost all = annotations_view(items@);
    let ghost uri = opt_str_view(artifact_uri);
    let mut rest = items;
    let ghost n = rest@.len();
    assert(n <= usize::MAX) by {
        assert(rest@.len() == rest.len());
    }
    let mut kept: Vec<Annotation> = Vec::new();
    let mut taken: usize = 0;
    while rest.len() > 0
        invariant
            all.len() == n,
            n <= usize::MAX,
            uri == opt_str_view(artifact_uri),
            taken + rest@.len() == n,
            forall|i: int| 0 <= i < rest@.len() ==> (#[trigger] rest@[i])@ == all[taken + i],
            annotations_view(kept@) == listed_upto(all, uri, visibility, status, taken as nat),
        decreases rest.len(),
    {
        let a = rest.remove(0);
        proof {
            assert(a@ == all[taken as int]);
        }
        let uri_ok = match artifact_uri {
            Some(u) => same_text(a.artifact_uri.as_str(), u),
            None => true,
        };
        let visibility_ok = match visibility {
            Some(v) => a.visibility == v,
            None => true,
        };
        let status_ok = match status {
            Some(st) => a.status == st,
            None => true,
        };
        if uri_ok && visibility_ok && status_ok {
            let ghost before = kept@;
            kept.push(a);
            proof {
                assert(annotations_view(kept@) =~= annotations_view(before).push(a@));
            }
        }
        taken = taken + 1;
    }
    kept
}

// ---------------------------------------------------------------------------
// Manual annotations and edits
// ---------------------------------------------------------------------------

/// What a user states when adding an annotation by hand.
pub struct AnnotationDraft {
    pub artifact_uri: String,
    pub span: Span,
    pub source_text: String,
    pub target_text: String,
    pub path_description: Option<String>,
    pub invariant_type: InvariantType,
    pub classification: Classification,
    pub visibility: Visibility,
    pub status: Status,
    pub preserved: Option<bool>,
    pub losses: Vec<String>,
    pub break_condition: Option<String>,
    pub created_by: String,
    pub notes: String,
}

/// The annotation added by hand from a draft: its id is derived like a
/// generated one, and a missing path description reads "manual annotation".
pub fn manual_annotation(draft: AnnotationDraft, updated_at: String) -> (r: Annotation)
    ensures
        r.id@ == annotation_id(
            draft.artifact_uri@,
            draft.span,
            draft.source_text@,
            draft.target_text@,
        ),
        r.artifact_uri == draft.artifact_uri,
        r.span == draft.span,
        r.source_text == draft.source_text,
        r.target_text == draft.target_text,
        draft.path_description matches Some(p) ==> r.path_description == p,
        draft.path_description is None ==> r.path_description@ == "manual annotation"@,
        r.invariant_type == draft.invariant_type,
        r.preserved == draft.preserved,
        r.losses == draft.losses,
        r.break_condition == draft.break_condition,
        r.classification == draft.classification,
        r.visibility == draft.visibility,
        r.status == draft.status,
        r.created_by == draft.created_by,
        r.updated_at == updated_at,
        r.notes == draft.notes,
{
    let id = make_annotation_id(
        draft.artifact_uri.as_str(),
        &draft.span,
        draft.source_text.as_str(),
        draft.target_text.as_str(),
    );
    let path_description = match draft.path_description {
        Some(p) => p,
        None => String::from_str("manual annotation"),
    };
    Annotation {
        id,
        artifact_uri: draft.artifact_uri,
        span: draft.span,
        source_text: draft.source_text,
        target_text: draft.target_text,
        path_description,
        invariant_type: draft.invariant_type,
        preserved: draft.preserved,
        losses: draft.losses,
        break_condition: draft.break_condition,
        classification: draft.classification,
        visibility: draft.visibility,
        status: draft.status,
        created_by: draft.created_by,
        updated_at,
        notes: draft.notes,
    }
}

/// The fields a user may change on a stored annotation; `None` leaves a
/// field as it is.
pub struct AnnotationEdit {
    pub invariant_type: Option<InvariantType>,
    pub classification: Option<Classification>,
    pub visibility: Option<Visibility>,
    pub status: Option<Status>,
    pub preserved: Option<Option<bool>>,
    pub break_condition: Option<String>,
    pub add_losses: Vec<String>,
    pub notes: Option<String>,
}

/// `losses` after adding each of `extra` that is not there yet.
pub open spec fn add_losses(losses: Seq<Seq<char>>, extra: Seq<Seq<char>>) -> Seq<Seq<char>>
    decreases extra.len(),
{
    if extra.len() == 0 {
        losses
    } else {
        add_loss(add_losses(losses, extra.drop_last()), extra.last())
    }
}

/// An annotation after an edit, stamped with `now`.
pub open spec fn edited(a: AnnotationView, e: AnnotationEdit, now: Seq<char>) -> AnnotationView {
    AnnotationView {
        invariant_type: match e.invariant_type {
            Some(t) => t,
            None => a.invariant_type,
        },
        classification: match e.classification {
            Some(c) => c,
            None => a.classification,
        },
        visibility: match e.visibility {
            Some(v) => v,
            None => a.visibility,
        },
        status: match e.status {
            Some(s) => s,
            None => a.status,
        },
        preserved: match e.preserved {
            Some(p) => p,
            None => a.preserved,
        },
        break_condition: match e.break_condition {
            Some(b) => Some(b@),
            None => a.break_condition,
        },
        losses: add_losses(a.losses, texts_view(e.add_losses@)),
        notes: merged_notes(a.notes, opt_text(e.notes)),
        updated_at: now,
        ..a
    }
}

/// Applies an edit to an annotation.
/// An edit sets each field it gives and leaves each field it does not give
/// as it was; it never touches the annotation's identity (id, artifact,
/// span, texts, path description, author), and it stamps the edit time.
pub proof fn lemma_edit_sets_given_fields(a: AnnotationView, e: AnnotationEdit, now: Seq<char>)
    ensures
        e.invariant_type matches Some(t) ==> edited(a, e, now).invariant_type == t,
        e.invariant_type is None ==> edited(a, e, now).invariant_type == a.invariant_type,
        e.classification matches Some(c) ==> edited(a, e, now).classification == c,
        e.classification is None ==> edited(a, e, now).classification == a.classification,
        e.visibility matches Some(v) ==> edited(a, e, now).visibility == v,
        e.visibility is None ==> edited(a, e, now).visibility == a.visibility,
        e.status matches Some(st) ==> edited(a, e, now).status == st,
        e.status is None ==> edited(a, e, now).status == a.status,
        e.preserved matches Some(p) ==> edited(a, e, now).preserved == p,
        e.preserved is None ==> edited(a, e, now).preserved == a.preserved,
        e.break_condition matches Some(b) ==> edited(a, e, now).break_condition == Some(b@),
        e.break_condition is None ==> edited(a, e, now).break_condition == a.break_condition,
        edited(a, e, now).id == a.id,
        edited(a, e, now).artifact_uri == a.artifact_uri,
        edited(a, e, now).span == a.span,
        edited(a, e, now).source_text == a.source_text,
        edited(a, e, now).target_text == a.target_text,
        edited(a, e, now).path_description == a.path_description,
        edited(a, e, now).created_by == a.created_by,
        edited(a, e, now).updated_at == now,
{
}

/// Adding losses keeps every loss already there and every loss added.
pub proof fn lemma_add_losses_keeps(losses: Seq<Seq<char>>, extra: Seq<Seq<char>>)
    ensures
        forall|i: int| 0 <= i < losses.len() ==> add_losses(losses, extra).contains(
            #[trigger] losses[i],
        ),
        forall|j: int| 0 <= j < extra.len() ==> add_losses(losses, extra).contains(
            #[trigger] extra[j],
        ),
    decreases extra.len(),
{
    if extra.len() > 0 {
        let pre = extra.drop_last();
        lemma_add_losses_keeps(losses, pre);
        let mid = add_losses(losses, pre);
        let l = extra.last();
        let r = add_loss(mid, l);
        assert forall|x: Seq<char>| mid.contains(x) implies r.contains(x) by {
            if !mid.contains(l) {
                let k = choose|k: int| 0 <= k < mid.len() && mid[k] == x;
                assert(r[k] == x);
            }
        }
        assert(r.contains(l)) by {
            if !mid.contains(l) {
                assert(r[mid.len() as int] == l);
            }
        }
        assert forall|j: int| 0 <= j < extra.len() implies r.contains(#[trigger] extra[j]) by {
            if j < extra.len() - 1 {
                assert(extra[j] == pre[j]);
            }
        }
    }
}

/// An edit keeps every loss the annotation had and adds every loss it gives.
pub proof fn lemma_edit_keeps_and_adds_losses(a: AnnotationView, e: AnnotationEdit, now: Seq<char>)
    ensures
        forall|i: int| 0 <= i < a.losses.len() ==> edited(a, e, now).losses.contains(
            #[trigger] a.losses[i],
        ),
        forall|j: int| 0 <= j < e.add_losses@.len() ==> edited(a, e, now).losses.contains(
            (#[trigger] e.add_losses@[j])@,
        ),
{
    lemma_add_losses_keeps(a.losses, texts_view(e.add_losses@));
    assert forall|j: int| 0 <= j < e.add_losses@.len() implies edited(a, e, now).losses.contains(
        (#[trigger] e.add_losses@[j])@,
    ) by {
        assert(texts_view(e.add_losses@)[j] == e.add_losses@[j]@);
    }
}

pub fn apply_edit(annotation: &mut Annotation, edit: AnnotationEdit, now: String)
    ensures
        final(annotation)@ == edited(old(annotation)@, edit, now@),
        edit.invariant_type matches Some(t) ==> final(annotation).invariant_type == t,
        edit.invariant_type is None ==> final(annotation).invariant_type == old(
            annotation,
        ).invariant_type,
        edit.classification matches Some(c) ==> final(annotation).classification == c,
        edit.classification is None ==> final(annotation).classification == old(
            annotation,
        ).classification,
        edit.visibility matches Some(v) ==> final(annotation).visibility == v,
        edit.visibility is None ==> final(annotation).visibility == old(annotation).visibility,
        edit.status matches Some(st) ==> final(annotation).status == st,
        edit.status is None ==> final(annotation).status == old(annotation).status,
        edit.preserved matches Some(p) ==> final(annotation).preserved == p,
        edit.preserved is None ==> final(annotation).preserved == old(annotation).preserved,
{
    let ghost e = edit;
    if let Some(t) = edit.invariant_type {
        annotation.invariant_type = t;
    }
    if let Some(c) = edit.classification {
        annotation.classification = c;
    }
    if let Some(v) = edit.visibility {
        annotation.visibility = v;
    }
    if let Some(s) = edit.status {
        annotation.status = s;
    }
    if let Some(p) = edit.preserved {
        annotation.preserved = p;
    }
    if let Some(b) = edit.break_condition {
        annotation.break_condition = Some(b);
    }
    let extra = edit.add_losses;
    let mut losses: Vec<String> = Vec::new();
    std::mem::swap(&mut losses, &mut annotation.losses);
    let ghost base = texts_view(losses@);
    let mut i: usize = 0;
    while i < extra.len()
        invariant
            i <= extra@.len(),
            texts_view(losses@) == add_losses(base, texts_view(extra@.take(i as int))),
        decreases extra@.len() - i,
    {
        proof {
            let pre = texts_view(extra@.take(i as int));
            let now_ = texts_view(extra@.take(i + 1));
            assert(now_.drop_last() =~= pre);
            assert(now_.last() == extra@[i as int]@);
        }
        push_loss(&mut losses, extra[i].as_str());
        i = i + 1;
    }
    proof {
        assert(extra@.take(extra@.len() as int) =~= extra@);
    }
    annotation.losses = losses;
    annotation.notes = merge_notes(&annotation.notes, edit.notes);
    annotation.updated_at = now;
}

// ---------------------------------------------------------------------------
// Grounding summary
// ---------------------------------------------------------------------------

/// Counts of a grounding report.
#[derive(Debug, Clone, Copy, PartialEq, Eq, Structural)]
pub struct ClaimSummary {
    pub total: usize,
    pub grounded: usize,
    pub ungrounded: usize,
    pub unknown: usize,
}

pub open spec fn count_results(s: Seq<DocClaimRecord>, n: nat) -> (nat, nat, nat)
    decreases n,
{
    if n == 0 || n > s.len() {
        (0, 0, 0)
    } else {
        let c = count_results(s, (n - 1) as nat);
        match s[n - 1].result {
            ClaimResult::Grounded => ((c.0 + 1) as nat, c.1, c.2),
            ClaimResult::Ungrounded { .. } => (c.0, (c.1 + 1) as nat, c.2),
            ClaimResult::Unknown { .. } => (c.0, c.1, (c.2 + 1) as nat),
        }
    }
}

/// How many records are grounded, ungrounded and unknown.
pub fn summarize(records: &[DocClaimRecord]) -> (r: ClaimSummary)
    ensures
        r.total == records@.len(),
        r.grounded == count_results(records@, records@.len()).0,
        r.ungrounded == count_results(records@, records@.len()).1,
        r.unknown == count_results(records@, records@.len()).2,
        r.grounded + r.ungrounded + r.unknown == r.total,
{
    let mut g: usize = 0;
    let mut u: usize = 0;
    let mut k: usize = 0;
    let mut i: usize = 0;
    while i < records.len()
        invariant
            i <= records@.len(),
            g == count_results(records@, i as nat).0,
            u == count_results(records@, i as nat).1,
            k == count_results(records@, i as nat).2,
            g + u + k == i,
        decreases records@.len() - i,
    {
        match &records[i].result {
            ClaimResult::Grounded => {
                g = g + 1;
            },
            ClaimResult::Ungrounded { .. } => {
                u = u + 1;
            },
            ClaimResult::Unknown { .. } => {
                k = k + 1;
            },
        }
        i = i + 1;
    }
    ClaimSummary { total: records.len(), grounded: g, ungrounded: u, unknown: k }
}

/// The exit status of a grounding run: 2 when an ungrounded claim (or, in
/// strict mode, an unknown one) was found, 0 otherwise.
pub fn exit_status(summary: &ClaimSummary, strict_unknown: bool) -> (r: i32)
    ensures
        r == (if summary.ungrounded > 0 || (strict_unknown && summary.unknown > 0) {
            2int
        } else {
            0int
        }),
{
    if summary.ungrounded > 0 || (strict_unknown && summary.unknown > 0) {
        2
    } else {
        0
    }
}

} // verus!
