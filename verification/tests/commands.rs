use invariant_path_core::commands::{
    apply_edit, enum_label_classification, enum_label_invariant, enum_label_status, exit_status,
    filter_annotations, manual_annotation, parse_preserved, path_matches_profile, profile_config, summarize,
    AnnotationDraft, AnnotationEdit, ProfilePreset,
};
use invariant_path_core::doc_claims::{ClaimResult, DocClaim, DocClaimRecord, Predicate};
use invariant_path_core::model::{
    make_annotation_id, Classification, InvariantType, Span, Status, Visibility,
};

#[test]
fn profiles_have_their_defaults() {
    let g = profile_config(ProfilePreset::Generic);
    assert_eq!(g.name, "generic");
    assert_eq!(g.default_visibility, Visibility::Private);
    assert_eq!(g.include_suffixes, vec![".md", ".markdown", ".adoc", ".txt"]);
    let e = profile_config(ProfilePreset::Echidna);
    assert_eq!(e.name, "echidna");
    assert_eq!(e.default_visibility, Visibility::SharedTeam);
    assert_eq!(e.focus.len(), 3);
    assert_eq!(profile_config(ProfilePreset::Panll).default_visibility, Visibility::Private);
    assert_eq!(profile_config(ProfilePreset::Hypatia).focus[0], "data -> policy");
}

#[test]
fn profile_suffix_matching() {
    let suffixes = profile_config(ProfilePreset::Echidna).include_suffixes;
    assert!(path_matches_profile("repo://README.md", &suffixes));
    assert!(path_matches_profile("repo://x.txt", &suffixes));
    assert!(!path_matches_profile("repo://x.markdown", &suffixes));
    assert!(!path_matches_profile("md", &suffixes));
}

#[test]
fn preserved_parsing() {
    assert_eq!(parse_preserved("true"), Ok(Some(true)));
    assert_eq!(parse_preserved("FALSE"), Ok(Some(false)));
    assert_eq!(parse_preserved("None"), Ok(None));
    assert_eq!(parse_preserved("null"), Ok(None));
    assert_eq!(
        parse_preserved("maybe"),
        Err("--preserved must be one of: true, false, none".to_string())
    );
}

#[test]
fn labels() {
    assert_eq!(enum_label_status(&Status::Clarified), "clarified");
    assert_eq!(enum_label_classification(&Classification::ValidPath), "valid_path");
    assert_eq!(enum_label_invariant(&InvariantType::RiskProbability), "risk_probability");
}

fn draft(path_description: Option<String>) -> AnnotationDraft {
    AnnotationDraft {
        artifact_uri: "repo://m.md".into(),
        span: Span { start: 1, end: 5 },
        source_text: "s".into(),
        target_text: "t".into(),
        path_description,
        invariant_type: InvariantType::Mechanism,
        classification: Classification::Conflation,
        visibility: Visibility::SharedTeam,
        status: Status::Open,
        preserved: None,
        losses: vec!["scope".into()],
        break_condition: None,
        created_by: "me".into(),
        notes: String::new(),
    }
}

#[test]
fn manual_annotations() {
    let a = manual_annotation(draft(None), "now".into());
    assert_eq!(a.path_description, "manual annotation");
    assert_eq!(a.id, make_annotation_id("repo://m.md", &Span { start: 1, end: 5 }, "s", "t"));
    assert_eq!(a.updated_at, "now");
    let b = manual_annotation(draft(Some("custom".into())), "now".into());
    assert_eq!(b.path_description, "custom");
    assert_eq!(a.id, b.id);
}

#[test]
fn edits_apply() {
    let mut a = manual_annotation(draft(None), "then".into());
    apply_edit(
        &mut a,
        AnnotationEdit {
            invariant_type: None,
            classification: Some(Classification::Incomplete),
            visibility: Some(Visibility::Private),
            status: Some(Status::Accepted),
            preserved: Some(Some(true)),
            break_condition: Some("b".into()),
            add_losses: vec!["scope".into(), "assumptions".into(), "assumptions".into()],
            notes: Some("n1".into()),
        },
        "later".into(),
    );
    assert_eq!(a.invariant_type, InvariantType::Mechanism);
    assert_eq!(a.classification, Classification::Incomplete);
    assert_eq!(a.visibility, Visibility::Private);
    assert_eq!(a.status, Status::Accepted);
    assert_eq!(a.preserved, Some(true));
    assert_eq!(a.break_condition, Some("b".into()));
    assert_eq!(a.losses, vec!["scope".to_string(), "assumptions".to_string()]);
    assert_eq!(a.notes, "n1");
    assert_eq!(a.updated_at, "later");
}

fn record(result: ClaimResult) -> DocClaimRecord {
    DocClaimRecord {
        claim: DocClaim {
            id: "i".into(),
            source_uri: "u".into(),
            line: 1,
            span: Span { start: 0, end: 1 },
            raw: "r".into(),
            predicate: Predicate::FileExists { path: "p".into() },
        },
        result,
        assessed_at: "t".into(),
    }
}

#[test]
fn summaries_and_exit_status() {
    let records = vec![
        record(ClaimResult::Grounded),
        record(ClaimResult::Unknown { reason: "u".into() }),
        record(ClaimResult::Grounded),
    ];
    let s = summarize(&records);
    assert_eq!((s.total, s.grounded, s.ungrounded, s.unknown), (3, 2, 0, 1));
    assert_eq!(exit_status(&s, false), 0);
    assert_eq!(exit_status(&s, true), 2);
    let failing = summarize(&[record(ClaimResult::Ungrounded { reason: "x".into() })]);
    assert_eq!(exit_status(&failing, false), 2);
}

#[test]
fn listing_filters_by_uri_visibility_and_status() {
    let mut a = manual_annotation(draft(None), "t0".into());
    let mut b = manual_annotation(draft(None), "t0".into());
    b.id = "b".into();
    b.artifact_uri = "repo://other.md".into();
    let mut c = manual_annotation(draft(None), "t0".into());
    c.id = "c".into();
    c.status = Status::Accepted;
    a.visibility = Visibility::Private;
    let all = vec![a.clone(), b.clone(), c.clone()];
    assert_eq!(filter_annotations(all.clone(), None, None, None), all);
    let by_uri = filter_annotations(all.clone(), Some("repo://m.md"), None, None);
    assert_eq!(by_uri, vec![a.clone(), c.clone()]);
    let by_status = filter_annotations(all.clone(), None, None, Some(Status::Accepted));
    assert_eq!(by_status, vec![c.clone()]);
    let both = filter_annotations(all.clone(), Some("repo://m.md"), None, Some(Status::Open));
    assert_eq!(both, vec![a.clone()]);
    let shared = filter_annotations(all.clone(), None, Some(Visibility::SharedTeam), None);
    assert_eq!(shared, vec![b, c]);
    let none = filter_annotations(all, Some("repo://other.md"), Some(Visibility::Private), None);
    assert!(none.is_empty());
}
