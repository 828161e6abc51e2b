use invariant_path_core::model::{Annotation, Classification, InvariantType, Status, Visibility};
use invariant_path_core::pipeline::{scan_artifact, scan_multi_root};

fn first(text: &str) -> Annotation {
    scan_artifact("repo://test.md", text, "tester", Visibility::Private)
        .into_iter()
        .next()
        .expect("expected at least one annotation")
}

#[test]
fn benchmark_to_capability_is_overextended() {
    let ann = first("This benchmark proves the model can reason.");
    assert_eq!(ann.classification, Classification::Overextended);
    assert!(ann.losses.iter().any(|x| x == "task_transfer"));
}

#[test]
fn theorem_to_guarantee_is_overextended() {
    let ann = first("This theorem guarantees production safety.");
    assert_eq!(ann.classification, Classification::Overextended);
    assert!(ann.losses.iter().any(|x| x == "implementation_gap"));
}

#[test]
fn cost_transition_uses_resource_budget_invariant() {
    let ann = first("This cost reduction means transition is easy.");
    assert_eq!(ann.invariant_type, InvariantType::ResourceBudget);
}

#[test]
fn local_to_universal_is_overextended() {
    let ann = first("This model result shows all workers are motivated by incentives.");
    assert_eq!(ann.classification, Classification::Overextended);
    assert!(ann.losses.iter().any(|x| x == "scope"));
}

#[test]
fn uncertainty_to_normative_is_conflation() {
    let ann = first("This uncertainty means we should delay action.");
    assert_eq!(ann.classification, Classification::Conflation);
    assert_eq!(ann.invariant_type, InvariantType::NormativeBridge);
}

#[test]
fn assumption_bound_generalization_is_incomplete() {
    let ann = first("Under assumptions, the local result implies all deployments are safe.");
    assert_eq!(ann.classification, Classification::Incomplete);
    assert!(ann.losses.iter().any(|x| x == "assumptions"));
}

#[test]
fn data_to_policy_is_conflation() {
    let ann = first("The pilot data implies we should change policy immediately.");
    assert_eq!(ann.classification, Classification::Conflation);
    assert!(ann.losses.iter().any(|x| x == "normative_step"));
}

#[test]
fn formal_corollary_path_is_valid() {
    let ann = first("The proof implies the corollary in the same formal system.");
    assert_eq!(ann.classification, Classification::ValidPath);
}

#[test]
fn rhetorical_clearly_is_incomplete() {
    let ann = first("Clearly, this single test means every environment is secure.");
    assert_eq!(ann.classification, Classification::Incomplete);
    assert!(ann.losses.iter().any(|x| x == "missing_evidence"));
}

#[test]
fn extractor_handles_multiple_sentences() {
    let text = "The benchmark is narrow. Therefore we should avoid broad deployment claims.";
    let ann = first(text);
    assert_eq!(ann.classification, Classification::Conflation);
    assert_eq!(ann.invariant_type, InvariantType::NormativeBridge);
}

#[test]
fn scan_artifact_handles_awkward_text() {
    let samples = [
        "",
        ".",
        "...!!!???\n\n\n",
        "İİİİİİİİİİİİİİ this proves something important about everything.",
        "Ünïcödé therefore ñoñ-ascii çlaims are fine to scan here.",
        "therefore therefore therefore therefore.",
        "   \t  implies   \n",
        "ẞẞẞẞẞẞẞẞẞẞẞẞẞ ẞ implies ẞẞẞẞẞẞẞẞ ẞ",
        "Therefore ẞẞẞẞ implies nothing at all here",
    ];
    for s in samples {
        let _ = scan_artifact("repo://awkward.md", s, "tester", Visibility::Private);
    }
}

#[test]
fn cuts_inside_a_character_are_passed_over() {
    // "ẞ" lowercases to the shorter "ß": the trigger's offset in the
    // lowercase form ends inside a character, so the sentence gives nothing.
    let shifted = "ẞẞẞẞẞẞẞẞẞẞẞẞẞ ẞ implies ẞẞẞẞẞẞẞẞ ẞ";
    assert!(scan_artifact("repo://a.md", shifted, "t", Visibility::Private).is_empty());
    // A part of 100 bytes of two-byte characters is compacted at the last
    // boundary within 87 bytes: 43 characters, 86 bytes.
    let long = format!("short one implies {}", "д".repeat(50));
    let anns = scan_artifact("repo://a.md", &long, "t", Visibility::Private);
    assert_eq!(anns.len(), 1);
    assert_eq!(
        anns[0].path_description,
        format!("short one -> {}... via 'implies'", "д".repeat(43))
    );
    let roots = [("repo://a.md", "This benchmark proves the model can reason."), ("repo://b.md", shifted)];
    assert_eq!(scan_multi_root(&roots, "t", Visibility::Private).len(), 1);
}

#[test]
fn scan_fills_every_annotation_field() {
    let anns = scan_artifact(
        "repo://doc.md",
        "This benchmark proves the model can reason.",
        "alice",
        Visibility::SharedTeam,
    );
    assert_eq!(anns.len(), 1);
    let a = &anns[0];
    assert!(a.id.starts_with("ip-"));
    assert_eq!(a.id.len(), 19);
    assert_eq!(a.artifact_uri, "repo://doc.md");
    assert_eq!(a.span.start, 0);
    assert_eq!(a.span.end, 43);
    assert_eq!(a.source_text, "This benchmark");
    assert_eq!(a.target_text, "the model can reason");
    assert_eq!(a.path_description, "This benchmark -> the model can reason via 'proves'");
    assert_eq!(a.visibility, Visibility::SharedTeam);
    assert_eq!(a.status, Status::Open);
    assert_eq!(a.created_by, "alice");
    assert_eq!(a.notes, "auto-generated heuristic suggestion; editable");
    assert_eq!(a.preserved, Some(false));
    assert!(a.break_condition.is_some());
}

#[test]
fn scan_ids_are_stable_across_runs() {
    let text = "This theorem guarantees production safety. The data implies we must act.";
    let a = scan_artifact("repo://x.md", text, "a", Visibility::Private);
    let b = scan_artifact("repo://x.md", text, "b", Visibility::SharedTeam);
    assert_eq!(a.len(), b.len());
    for (x, y) in a.iter().zip(b.iter()) {
        assert_eq!(x.id, y.id);
    }
    let c = scan_artifact("repo://y.md", text, "a", Visibility::Private);
    assert_ne!(a[0].id, c[0].id);
}

#[test]
fn multi_root_concatenates_in_input_order() {
    let roots = [
        ("repo://a.md", "This benchmark proves the model can reason."),
        ("repo://b.md", "Nothing to see here at all"),
        ("repo://c.md", "This theorem guarantees production safety. Clearly, this single test means every environment is secure."),
    ];
    let all = scan_multi_root(&roots, "tester", Visibility::Private);
    let mut expected = Vec::new();
    for (uri, text) in roots {
        expected.extend(scan_artifact(uri, text, "tester", Visibility::Private));
    }
    assert_eq!(all.len(), 3);
    assert_eq!(all.len(), expected.len());
    for (x, y) in all.iter().zip(expected.iter()) {
        assert_eq!(x.id, y.id);
        assert_eq!(x.artifact_uri, y.artifact_uri);
        assert_eq!(x.span, y.span);
    }
    assert_eq!(all[0].artifact_uri, "repo://a.md");
    assert_eq!(all[1].artifact_uri, "repo://c.md");
    assert_eq!(all[2].artifact_uri, "repo://c.md");
}
