use invariant_path_core::annotations::{
    copy_annotation, dismiss_in, find_annotation, get_annotation, merge_notes, update_status_in,
    upsert_annotation, upsert_annotations,
};
use invariant_path_core::model::{Annotation, Status, Visibility};
use invariant_path_core::pipeline::scan_artifact;

fn first(text: &str) -> Annotation {
    scan_artifact("repo://test.md", text, "tester", Visibility::Private)
        .into_iter()
        .next()
        .expect("expected at least one annotation")
}

#[test]
fn store_round_trip_in_memory() {
    let mut store: Vec<Annotation> = Vec::new();
    let mut ann = first("This benchmark proves the model can reason.");
    ann.visibility = Visibility::SharedTeam;
    upsert_annotation(&mut store, ann.clone());

    let fetched = get_annotation(&store, &ann.id).expect("get annotation");
    assert_eq!(fetched.id, ann.id);
    assert_eq!(fetched, ann);

    let accepted = update_status_in(
        &mut store,
        &ann.id,
        Status::Accepted,
        Some("accepted for now".to_string()),
        "t1".to_string(),
    )
    .expect("update status");
    assert_eq!(accepted.status, Status::Accepted);
    assert_eq!(accepted.updated_at, "t1");

    let dismissed = dismiss_in(
        &mut store,
        &ann.id,
        Some("dismiss local noise".to_string()),
        "t2".to_string(),
    )
    .expect("dismiss for self");
    assert_eq!(dismissed.status, Status::Dismissed);
    assert_eq!(dismissed.visibility, Visibility::Private);
    assert_eq!(
        dismissed.notes,
        "auto-generated heuristic suggestion; editable\naccepted for now\ndismiss local noise"
    );
    assert_eq!(store.len(), 1);
    assert_eq!(store[0], dismissed);
}

#[test]
fn saving_an_existing_id_replaces_it() {
    let mut store = vec![
        first("This benchmark proves the model can reason."),
        first("This theorem guarantees production safety."),
    ];
    let mut changed = store[1].clone();
    changed.notes = "edited".to_string();
    upsert_annotation(&mut store, changed.clone());
    assert_eq!(store.len(), 2);
    assert_eq!(store[1], changed);
    assert_eq!(find_annotation(&store, &changed.id), Some(1));
}

#[test]
fn saving_a_new_id_appends() {
    let mut store = vec![first("This benchmark proves the model can reason.")];
    let other = first("This theorem guarantees production safety.");
    upsert_annotation(&mut store, other.clone());
    assert_eq!(store.len(), 2);
    assert_eq!(store[1], other);
}

#[test]
fn save_many_applies_in_order() {
    let a = first("This benchmark proves the model can reason.");
    let mut a2 = a.clone();
    a2.notes = "second".to_string();
    let b = first("This theorem guarantees production safety.");
    let mut store = Vec::new();
    upsert_annotations(&mut store, vec![a.clone(), b.clone(), a2.clone()]);
    assert_eq!(store, vec![a2, b]);
}

#[test]
fn missing_ids_change_nothing() {
    let mut store = vec![first("This benchmark proves the model can reason.")];
    let before = store.clone();
    assert!(update_status_in(&mut store, "nope", Status::Clarified, None, "t".into()).is_none());
    assert!(dismiss_in(&mut store, "nope", None, "t".into()).is_none());
    assert!(get_annotation(&store, "nope").is_none());
    assert_eq!(store, before);
}

#[test]
fn notes_merge() {
    assert_eq!(merge_notes(&String::new(), Some("x".into())), "x");
    assert_eq!(merge_notes(&"a".to_string(), Some("x".into())), "a\nx");
    assert_eq!(merge_notes(&"a".to_string(), None), "a");
}

#[test]
fn copies_are_equal() {
    let a = first("This theorem guarantees production safety.");
    assert_eq!(copy_annotation(&a), a);
}
