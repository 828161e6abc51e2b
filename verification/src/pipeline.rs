//! Scanning artifacts: extraction, classification and annotation in one
//! pass.
use crate::classifier::{classify_candidate, classify_spec};
use crate::extractor::{candidates_spec, extract_candidates};
use crate::model::{
    annotation_id, make_annotation_id, now_rfc3339, rfc3339_shaped, Annotation, AnnotationView, CandidateView,
    ClaimCandidate, ClassificationOutcome, Status, Visibility,
};
use crate::text::lowercase;
use vstd::prelude::*;

verus! {

/// The note on every generated annotation.
pub open spec fn generated_note() -> Seq<char> {
    "auto-generated heuristic suggestion; editable"@
}

/// `a` is the annotation generated for candidate `c` of artifact `uri`:
/// every field but the timestamp is determined, and the timestamp is an
/// RFC 3339 timestamp.
pub open spec fn annotates(
    a: AnnotationView,
    uri: Seq<char>,
    c: CandidateView,
    created_by: Seq<char>,
    visibility: Visibility,
) -> bool {
    let o = classify_spec(lowercase(c.source_text), lowercase(c.target_text), c.trigger);
    &&& a.id == annotation_id(uri, c.span, c.source_text, c.target_text)
    &&& a.artifact_uri == uri
    &&& a.span == c.span
    &&& a.source_text == c.source_text
    &&& a.target_text == c.target_text
    &&& a.path_description == c.path_description
    &&& a.invariant_type == o.invariant_type
    &&& a.preserved == o.preserved
    &&& a.losses == o.losses
    &&& a.break_condition == o.break_condition
    &&& a.classification == o.classification
    &&& a.visibility == visibility
    &&& a.status == Status::Open
    &&& a.created_by == created_by
    &&& a.notes == generated_note()
    &&& rfc3339_shaped(a.updated_at)
}

/// Builds the annotation of a classified candidate.
pub fn annotate(
    artifact_uri: &str,
    candidate: ClaimCandidate,
    outcome: ClassificationOutcome,
    created_by: &str,
    visibility: Visibility,
    updated_at: String,
) -> (r: Annotation)
    ensures
        r.id@ == annotation_id(
            artifact_uri@,
            candidate.span,
            candidate.source_text@,
            candidate.target_text@,
        ),
        r.artifact_uri@ == artifact_uri@,
        r.span == candidate.span,
        r.source_text@ == candidate.source_text@,
        r.target_text@ == candidate.target_text@,
        r.path_description@ == candidate.path_description@,
        r.invariant_type == outcome.invariant_type,
        r.preserved == outcome.preserved,
        r.losses@ == outcome.losses@,
        r.break_condition == outcome.break_condition,
        r.classification == outcome.classification,
        r.visibility == visibility,
        r.status == Status::Open,
        r.created_by@ == created_by@,
        r.updated_at == updated_at,
        r.notes@ == generated_note(),
{
    let id = make_annotation_id(
        artifact_uri,
        &candidate.span,
        candidate.source_text.as_str(),
        candidate.target_text.as_str(),
    );
    Annotation {
        id,
        artifact_uri: String::from_str(artifact_uri),
        span: candidate.span,
        source_text: candidate.source_text,
        target_text: candidate.target_text,
        path_description: candidate.path_description,
        invariant_type: outcome.invariant_type,
        preserved: outcome.preserved,
        losses: outcome.losses,
        break_condition: outcome.break_condition,
        classification: outcome.classification,
        visibility,
        status: Status::Open,
        created_by: String::from_str(created_by),
        updated_at,
        notes: String::from_str("auto-generated heuristic suggestion; editable"),
    }
}

/// Extracts the claim transitions of one artifact, classifies them and
/// returns one open annotation per transition, in text order, each stamped
/// with the current time.
pub fn scan_artifact(artifact_uri: &str, text: &str, created_by: &str, visibility: Visibility) -> (r:
    Vec<Annotation>)
    ensures
        r@.len() == candidates_spec(text@).len(),
        forall|i: int|
            0 <= i < r@.len() ==> annotates(
                (#[trigger] r@[i])@,
                artifact_uri@,
                candidates_spec(text@)[i],
                created_by@,
                visibility,
            ),
{
    let candidates = extract_candidates(text);
    let ghost cands = candidates_spec(text@);
    assert(candidates@.len() == cands.len()) by {
        assert(crate::extractor::candidates_view(candidates@).len() == candidates@.len());
    }
    let mut out: Vec<Annotation> = Vec::new();
    let mut rest = candidates;
    let mut taken: usize = 0;
    let ghost all = rest@;
    assert(all.len() <= usize::MAX) by {
        assert(rest@.len() == rest.len());
    }
    while rest.len() > 0
        invariant
            all.len() == cands.len(),
            all.len() <= usize::MAX,
            forall|i: int| 0 <= i < all.len() ==> (#[trigger] all[i])@ == cands[i],
            taken + rest@.len() == all.len(),
            forall|i: int| 0 <= i < rest@.len() ==> #[trigger] rest@[i] == all[all.len() - rest@.len() + i],
            out@.len() == taken,
            forall|i: int|
                0 <= i < taken ==> annotates(
                    (#[trigger] out@[i])@,
                    artifact_uri@,
                    cands[i],
                    created_by@,
                    visibility,
                ),
        decreases rest.len(),
    {
        let candidate = rest.remove(0);
        proof {
            assert(candidate == all[taken as int]);
        }
        let outcome = classify_candidate(&candidate);
        let ann = annotate(artifact_uri, candidate, outcome, created_by, visibility, now_rfc3339());
        out.push(ann);
        taken = taken + 1;
    }
    out
}

/// The (artifact, candidate) pairs of several artifacts, artifact by
/// artifact in input order.
pub open spec fn root_candidates(roots: Seq<(Seq<char>, Seq<char>)>) -> Seq<(Seq<char>, CandidateView)>
    decreases roots.len(),
{
    if roots.len() == 0 {
        Seq::empty()
    } else {
        let last = roots.last();
        root_candidates(roots.drop_last()) + candidates_spec(last.1).map_values(
            |c: CandidateView| (last.0, c),
        )
    }
}

pub open spec fn roots_view(roots: Seq<(&str, &str)>) -> Seq<(Seq<char>, Seq<char>)> {
    roots.map_values(|r: (&str, &str)| (r.0@, r.1@))
}

/// Scans several artifacts in one pass, e.g. every root document of a
/// corpus. Each root is an `(artifact_uri, text)` pair; the annotations are
/// concatenated in input order, so each artifact's annotations are exactly
/// those a scan of that artifact alone produces.
pub fn scan_multi_root(roots: &[(&str, &str)], created_by: &str, visibility: Visibility) -> (r: Vec<
    Annotation,
>)
    ensures
        r@.len() == root_candidates(roots_view(roots@)).len(),
        forall|i: int|
            0 <= i < r@.len() ==> annotates(
                (#[trigger] r@[i])@,
                root_candidates(roots_view(roots@))[i].0,
                root_candidates(roots_view(roots@))[i].1,
                created_by@,
                visibility,
            ),
{
    let mut out: Vec<Annotation> = Vec::new();
    let mut k: usize = 0;
    while k < roots.len()
        invariant
            k <= roots@.len(),
            out@.len() == root_candidates(roots_view(roots@).take(k as int)).len(),
            forall|i: int|
                0 <= i < out@.len() ==> annotates(
                    (#[trigger] out@[i])@,
                    root_candidates(roots_view(roots@).take(k as int))[i].0,
                    root_candidates(roots_view(roots@).take(k as int))[i].1,
                    created_by@,
                    visibility,
                ),
        decreases roots@.len() - k,
    {
        let (uri, text) = roots[k];
        let mut batch = scan_artifact(uri, text, created_by, visibility);
        let ghost prev = out@;
        let ghost b = batch@;
        out.append(&mut batch);
        proof {
            let rv = roots_view(roots@);
            let pre = rv.take(k as int);
            let now = rv.take(k + 1);
            assert(now.drop_last() =~= pre);
            assert(now.last() == (uri@, text@));
            let tail = candidates_spec(text@).map_values(|c: CandidateView| (uri@, c));
            assert(root_candidates(now) == root_candidates(pre) + tail);
            assert forall|i: int| 0 <= i < out@.len() implies annotates(
                (#[trigger] out@[i])@,
                root_candidates(now)[i].0,
                root_candidates(now)[i].1,
                created_by@,
                visibility,
            ) by {
                if i < prev.len() {
                    assert(out@[i] == prev[i]);
                } else {
                    assert(out@[i] == b[i - prev.len()]);
                    assert(root_candidates(now)[i] == tail[i - prev.len()]);
                }
            }
        }
        k = k + 1;
    }
    proof {
        assert(roots_view(roots@).take(roots@.len() as int) =~= roots_view(roots@));
    }
    out
}

} // verus!
