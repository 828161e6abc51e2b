//! Annotation bookkeeping: the upsert-on-write record set behind the JSONL
//! store, lookups by id, and the status actions (accept, clarify, dismiss,
//! edit). Reading and writing the store file is the caller's part.
use crate::model::{annotations_view, texts_view, Annotation, AnnotationView, Status, Visibility};
use crate::text::{append_str, same_text};
use vstd::prelude::*;

verus! {

/// The index of the first annotation with id `id`, searching from `i`.
pub open spec fn first_with_id_from(s: Seq<AnnotationView>, id: Seq<char>, i: nat) -> Option<nat>
    decreases s.len() - i,
{
    if i >= s.len() {
        None
    } else if s[i as int].id == id {
        Some(i)
    } else {
        first_with_id_from(s, id, i + 1)
    }
}

/// The index of the first annotation with id `id`.
pub open spec fn first_with_id(s: Seq<AnnotationView>, id: Seq<char>) -> Option<nat> {
    first_with_id_from(s, id, 0)
}

pub proof fn lemma_first_with_id_from(s: Seq<AnnotationView>, id: Seq<char>, i: nat)
    ensures
        first_with_id_from(s, id, i) matches Some(k) ==> i <= k < s.len() && s[k as int].id == id
            && forall|j: int| i <= j < k ==> (#[trigger] s[j]).id != id,
        first_with_id_from(s, id, i) is None ==> forall|j: int| i <= j < s.len() ==> (#[trigger] s[
            j]).id != id,
    decreases s.len() - i,
{
    if i < s.len() && s[i as int].id != id {
        lemma_first_with_id_from(s, id, i + 1);
    }
}

/// `s` after saving `a`: the first annotation with the same id is replaced,
/// or `a` is appended when there is none.
pub open spec fn upsert_spec(s: Seq<AnnotationView>, a: AnnotationView) -> Seq<AnnotationView> {
    match first_with_id(s, a.id) {
        Some(i) => s.update(i as int, a),
        None => s.push(a),
    }
}

/// `s` after saving each of `batch` in turn.
pub open spec fn upsert_all(s: Seq<AnnotationView>, batch: Seq<AnnotationView>) -> Seq<AnnotationView>
    decreases batch.len(),
{
    if batch.len() == 0 {
        s
    } else {
        upsert_spec(upsert_all(s, batch.drop_last()), batch.last())
    }
}

/// Notes after appending `extra`: an empty note is replaced, otherwise the
/// extra text goes on a new line.
pub open spec fn merged_notes(notes: Seq<char>, extra: Option<Seq<char>>) -> Seq<char> {
    match extra {
        None => notes,
        Some(e) => if notes.len() == 0 {
            e
        } else {
            notes + "\n"@ + e
        },
    }
}

/// `a` with a new status, timestamp and notes.
pub open spec fn with_status(
    a: AnnotationView,
    status: Status,
    extra: Option<Seq<char>>,
    now: Seq<char>,
) -> AnnotationView {
    AnnotationView { status, updated_at: now, notes: merged_notes(a.notes, extra), ..a }
}

/// `a` dismissed for oneself: status dismissed and visibility private.
pub open spec fn dismissed(a: AnnotationView, extra: Option<Seq<char>>, now: Seq<char>) -> AnnotationView {
    AnnotationView {
        status: Status::Dismissed,
        visibility: Visibility::Private,
        updated_at: now,
        notes: merged_notes(a.notes, extra),
        ..a
    }
}

pub open spec fn opt_text(o: Option<String>) -> Option<Seq<char>> {
    match o {
        Some(s) => Some(s@),
        None => None,
    }
}

/// A copy of an annotation.
pub fn copy_annotation(a: &Annotation) -> (r: Annotation)
    ensures
        r@ == a@,
{
    let mut losses: Vec<String> = Vec::new();
    let mut i: usize = 0;
    while i < a.losses.len()
        invariant
            i <= a.losses@.len(),
            texts_view(losses@) == texts_view(a.losses@.take(i as int)),
        decreases a.losses@.len() - i,
    {
        let ghost before = losses@;
        let item = a.losses[i].clone();
        losses.push(item);
        proof {
            assert(a.losses@.take(i + 1) =~= a.losses@.take(i as int).push(a.losses@[i as int]));
            assert(texts_view(losses@) =~= texts_view(before).push(item@));
            assert(texts_view(a.losses@.take(i + 1)) =~= texts_view(a.losses@.take(i as int)).push(
                a.losses@[i as int]@,
            ));
        }
        i = i + 1;
    }
    proof {
        assert(a.losses@.take(a.losses@.len() as int) =~= a.losses@);
    }
    let break_condition = match &a.break_condition {
        Some(b) => Some(b.clone()),
        None => None,
    };
    Annotation {
        id: a.id.clone(),
        artifact_uri: a.artifact_uri.clone(),
        span: a.span,
        source_text: a.source_text.clone(),
        target_text: a.target_text.clone(),
        path_description: a.path_description.clone(),
        invariant_type: a.invariant_type,
        preserved: a.preserved,
        losses,
        break_condition,
        classification: a.classification,
        visibility: a.visibility,
        status: a.status,
        created_by: a.created_by.clone(),
        updated_at: a.updated_at.clone(),
        notes: a.notes.clone(),
    }
}

/// The index of the first annotation with the given id.
pub fn find_annotation(annotations: &Vec<Annotation>, id: &str) -> (r: Option<usize>)
    ensures
        r matches Some(i) ==> first_with_id(annotations_view(annotations@), id@) == Some(i as nat)
            && i < annotations@.len(),
        r is None ==> first_with_id(annotations_view(annotations@), id@) is None,
{
    let ghost s = annotations_view(annotations@);
    proof {
        lemma_first_with_id_from(s, id@, 0);
    }
    let mut i: usize = 0;
    while i < annotations.len()
        invariant
            i <= annotations@.len(),
            s == annotations_view(annotations@),
            first_with_id(s, id@) == first_with_id_from(s, id@, i as nat),
        decreases annotations@.len() - i,
    {
        if same_text(annotations[i].id.as_str(), id) {
            return Some(i);
        }
        i = i + 1;
    }
    None
}

/// The first annotation with the given id.
pub fn get_annotation(annotations: &Vec<Annotation>, id: &str) -> (r: Option<Annotation>)
    ensures
        r matches Some(a) ==> first_with_id(annotations_view(annotations@), id@) matches Some(i)
            && a@ == annotations_view(annotations@)[i as int],
        r is None ==> first_with_id(annotations_view(annotations@), id@) is None,
{
    match find_annotation(annotations, id) {
        Some(i) => Some(copy_annotation(&annotations[i])),
        None => None,
    }
}

/// Saves an annotation: it replaces the first annotation with the same id,
/// or is appended when there is none.
pub fn upsert_annotation(annotations: &mut Vec<Annotation>, annotation: Annotation)
    ensures
        annotations_view(final(annotations)@) == upsert_spec(
            annotations_view(old(annotations)@),
            annotation@,
        ),
{
    match find_annotation(annotations, annotation.id.as_str()) {
        Some(i) => {
            let ghost before = annotations@;
            annotations.set(i, annotation);
            proof {
                assert(annotations_view(annotations@) =~= annotations_view(before).update(
                    i as int,
                    annotation@,
                ));
            }
        },
        None => {
            let ghost before = annotations@;
            annotations.push(annotation);
            proof {
                assert(annotations_view(annotations@) =~= annotations_view(before).push(annotation@));
            }
        },
    }
}

/// Saves each annotation of `batch` in turn.
pub fn upsert_annotations(annotations: &mut Vec<Annotation>, batch: Vec<Annotation>)
    ensures
        annotations_view(final(annotations)@) == upsert_all(
            annotations_view(old(annotations)@),
            annotations_view(batch@),
        ),
{
    let ghost start = annotations_view(annotations@);
    let ghost all = batch@;
    let mut rest = batch;
    let mut taken: usize = 0;
    assert(all.len() <= usize::MAX) by {
        assert(rest@.len() == rest.len());
    }
    proof {
        assert(annotations_view(all).take(0) =~= Seq::<AnnotationView>::empty());
    }
    while rest.len() > 0
        invariant
            all.len() <= usize::MAX,
            taken + rest@.len() == all.len(),
            forall|i: int| 0 <= i < rest@.len() ==> #[trigger] rest@[i] == all[taken + i],
            annotations_view(annotations@) == upsert_all(
                start,
                annotations_view(all).take(taken as int),
            ),
        decreases rest.len(),
    {
        let a = rest.remove(0);
        proof {
            let pre = annotations_view(all).take(taken as int);
            let now = annotations_view(all).take(taken + 1);
            assert(now.drop_last() =~= pre);
            assert(now.last() == a@);
        }
        upsert_annotation(annotations, a);
        taken = taken + 1;
    }
    proof {
        assert(annotations_view(all).take(all.len() as int) =~= annotations_view(all));
    }
}

/// The notes after appending `extra` (see `merged_notes`).
pub fn merge_notes(notes: &String, extra: Option<String>) -> (r: String)
    ensures
        r@ == merged_notes(notes@, opt_text(extra)),
{
    match extra {
        None => notes.clone(),
        Some(e) => {
            if notes.as_str().is_empty() {
                e
            } else {
                let mut out = notes.clone();
                append_str(&mut out, "\n");
                append_str(&mut out, e.as_str());
                out
            }
        },
    }
}

/// Sets the status of the first annotation with the given id, stamps it
/// with `now` and appends `notes` to its notes; returns the updated
/// annotation, or `None` (and no change) when no annotation has the id.
pub fn update_status_in(
    annotations: &mut Vec<Annotation>,
    id: &str,
    status: Status,
    notes: Option<String>,
    now: String,
) -> (r: Option<Annotation>)
    ensures
        first_with_id(annotations_view(old(annotations)@), id@) matches Some(i) ==> {
            let updated = with_status(
                annotations_view(old(annotations)@)[i as int],
                status,
                opt_text(notes),
                now@,
            );
            &&& annotations_view(final(annotations)@) == annotations_view(old(annotations)@).update(
                i as int,
                updated,
            )
            &&& r matches Some(a) && a@ == updated
        },
        first_with_id(annotations_view(old(annotations)@), id@) is None ==> r is None
            && final(annotations)@ == old(annotations)@,
{
    match find_annotation(annotations, id) {
        Some(i) => {
            let mut a = copy_annotation(&annotations[i]);
            a.status = status;
            a.updated_at = now;
            a.notes = merge_notes(&a.notes, notes);
            let result = copy_annotation(&a);
            let ghost before = annotations@;
            annotations.set(i, a);
            proof {
                assert(annotations_view(annotations@) =~= annotations_view(before).update(
                    i as int,
                    result@,
                ));
            }
            Some(result)
        },
        None => None,
    }
}

/// Dismisses the first annotation with the given id for oneself: its status
/// becomes dismissed and its visibility private; it is stamped with `now` and
/// `notes` are appended. Returns the updated annotation, or `None` (and no
/// change) when no annotation has the id.
pub fn dismiss_in(annotations: &mut Vec<Annotation>, id: &str, notes: Option<String>, now: String) -> (r:
    Option<Annotation>)
    ensures
        first_with_id(annotations_view(old(annotations)@), id@) matches Some(i) ==> {
            let updated = dismissed(annotations_view(old(annotations)@)[i as int], opt_text(notes), now@);
            &&& annotations_view(final(annotations)@) == annotations_view(old(annotations)@).update(
                i as int,
                updated,
            )
            &&& r matches Some(a) && a@ == updated
        },
        first_with_id(annotations_view(old(annotations)@), id@) is None ==> r is None
            && final(annotations)@ == old(annotations)@,
{
    match find_annotation(annotations, id) {
        Some(i) => {
            let mut a = copy_annotation(&annotations[i]);
            a.status = Status::Dismissed;
            a.visibility = Visibility::Private;
            a.updated_at = now;
            a.notes = merge_notes(&a.notes, notes);
            let result = copy_annotation(&a);
            let ghost before = annotations@;
            annotations.set(i, a);
            proof {
                assert(annotations_view(annotations@) =~= annotations_view(before).update(
                    i as int,
                    result@,
                ));
            }
            Some(result)
        },
        None => None,
    }
}

// ---------------------------------------------------------------------------
// Laws
// ---------------------------------------------------------------------------

/// A saved annotation is what a lookup of its id gives back.
pub proof fn lemma_get_after_save(s: Seq<AnnotationView>, a: AnnotationView)
    ensures
        first_with_id(upsert_spec(s, a), a.id) matches Some(i) && upsert_spec(s, a)[i as int] == a,
{
    lemma_first_with_id_from(s, a.id, 0);
    let r = upsert_spec(s, a);
    match first_with_id(s, a.id) {
        Some(i) => {
            assert forall|j: int| 0 <= j < i implies (#[trigger] r[j]).id != a.id by {
                assert(r[j] == s[j]);
            }
            lemma_first_with_id_is(r, a.id, i);
        },
        None => {
            assert forall|j: int| 0 <= j < s.len() implies (#[trigger] r[j]).id != a.id by {
                assert(r[j] == s[j]);
            }
            lemma_first_with_id_is(r, a.id, s.len());
        },
    }
}

proof fn lemma_first_with_id_is(s: Seq<AnnotationView>, id: Seq<char>, k: nat)
    requires
        k < s.len(),
        s[k as int].id == id,
        forall|j: int| 0 <= j < k ==> (#[trigger] s[j]).id != id,
    ensures
        first_with_id(s, id) == Some(k),
{
    lemma_first_with_id_from_is(s, id, 0, k);
}

proof fn lemma_first_with_id_from_is(s: Seq<AnnotationView>, id: Seq<char>, i: nat, k: nat)
    requires
        i <= k < s.len(),
        s[k as int].id == id,
        forall|j: int| i <= j < k ==> (#[trigger] s[j]).id != id,
    ensures
        first_with_id_from(s, id, i) == Some(k),
    decreases k - i,
{
    if i < k {
        lemma_first_with_id_from_is(s, id, i + 1, k);
    }
}

/// Saving touches nothing but the first annotation with the saved id: every
/// other annotation keeps its place and value, and the store grows by one
/// exactly when the id was new.
pub proof fn lemma_save_keeps_others(s: Seq<AnnotationView>, a: AnnotationView)
    ensures
        first_with_id(s, a.id) is None ==> upsert_spec(s, a) == s.push(a),
        first_with_id(s, a.id) matches Some(i) ==> i < s.len() && upsert_spec(s, a).len() == s.len()
            && forall|j: int| 0 <= j < s.len() && j != i ==> #[trigger] upsert_spec(s, a)[j] == s[j],
{
    lemma_first_with_id_from(s, a.id, 0);
}

/// Saving the same annotation twice stores it once: a repeated save changes
/// nothing.
pub proof fn lemma_save_idempotent(s: Seq<AnnotationView>, a: AnnotationView)
    ensures
        upsert_spec(upsert_spec(s, a), a) == upsert_spec(s, a),
{
    lemma_get_after_save(s, a);
    let r = upsert_spec(s, a);
    lemma_first_with_id_from(r, a.id, 0);
    let i = first_with_id(r, a.id)->0;
    assert(r[i as int] == a);
    assert(r.update(i as int, a) =~= r);
}

/// Dismissing for oneself always leaves the annotation dismissed and
/// private, whatever its state before.
pub proof fn lemma_dismiss_is_private(a: AnnotationView, extra: Option<Seq<char>>, now: Seq<char>)
    ensures
        dismissed(a, extra, now).status == Status::Dismissed,
        dismissed(a, extra, now).visibility == Visibility::Private,
        dismissed(a, extra, now).id == a.id,
{
}

} // verus!
