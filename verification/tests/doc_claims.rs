use invariant_path_core::doc_claims::{
    claim_target, doc_source_uri, entry_action, extract_claims, judge_claim, make_claim_id,
    partition_failures, pick_root, ClaimResult, DocClaim, DocClaimRecord, EntryAction, FileProbe,
    GrounderConfig, Predicate, RootPick,
};
use invariant_path_core::model::Span;

#[test]
fn extracts_backtick_path() {
    let text = "The proof suite lives at `templates/CANONICAL-PROOF-SUITE.adoc`.";
    let claims = extract_claims(text, "repo://test.adoc");
    assert_eq!(claims.len(), 1);
    match &claims[0].predicate {
        Predicate::FileExists { path } => {
            assert_eq!(path, "templates/CANONICAL-PROOF-SUITE.adoc")
        }
        other => panic!("expected FileExists, got {:?}", other),
    }
}

#[test]
fn extracts_a2ml_present() {
    let text = "The `0-AI-MANIFEST.a2ml` is present and validated.";
    let claims = extract_claims(text, "repo://x.adoc");
    assert!(claims.iter().any(|c| matches!(
        &c.predicate,
        Predicate::FileExists { path } if path == "0-AI-MANIFEST.a2ml"
    )));
}

#[test]
fn extracts_command_clean_claim() {
    let text = "panic-attack assail returns clean across all severities.";
    let claims = extract_claims(text, "repo://y.adoc");
    assert!(claims
        .iter()
        .any(|c| matches!(c.predicate, Predicate::CommandCleanClaim { .. })));
}

fn claim(predicate: Predicate) -> DocClaim {
    DocClaim {
        id: "t".into(),
        source_uri: "repo://t.adoc".into(),
        line: 1,
        span: Span { start: 0, end: 0 },
        raw: "raw".into(),
        predicate,
    }
}

#[test]
fn command_claim_is_unknown_without_exec() {
    let c = claim(Predicate::CommandCleanClaim {
        command: "panic-attack assail".into(),
    });
    let cfg = GrounderConfig::default();
    match judge_claim(&c.predicate, &FileProbe::NotFound, &cfg) {
        ClaimResult::Unknown { .. } => {}
        other => panic!("expected Unknown, got {:?}", other),
    }
}

#[test]
fn command_claim_is_unknown_even_with_exec() {
    let p = Predicate::CommandCleanClaim { command: "just test".into() };
    let cfg = GrounderConfig { allow_exec: true, max_read_bytes: 10 };
    assert_eq!(
        judge_claim(&p, &FileProbe::NotFound, &cfg),
        ClaimResult::Unknown {
            reason: "exec resolver not yet implemented for: just test (planned)".into()
        }
    );
    let cfg = GrounderConfig::default();
    assert_eq!(
        judge_claim(&p, &FileProbe::NotFound, &cfg),
        ClaimResult::Unknown {
            reason: "command claim not executed (use --allow-exec to verify): just test".into()
        }
    );
}

#[test]
fn default_config_is_ci_safe() {
    let cfg = GrounderConfig::default();
    assert!(!cfg.allow_exec);
    assert_eq!(cfg.max_read_bytes, 4 * 1024 * 1024);
}

#[test]
fn file_exists_judgments() {
    let p = Predicate::FileExists { path: "templates/X.adoc".into() };
    let cfg = GrounderConfig::default();
    assert_eq!(judge_claim(&p, &FileProbe::Found(String::new()), &cfg), ClaimResult::Grounded);
    assert_eq!(
        judge_claim(&p, &FileProbe::ReadFailed("denied".into()), &cfg),
        ClaimResult::Grounded
    );
    assert_eq!(
        judge_claim(&p, &FileProbe::NotFound, &cfg),
        ClaimResult::Ungrounded {
            reason: "path not found under any corpus root: templates/X.adoc".into()
        }
    );
}

#[test]
fn path_contains_regex_judgments() {
    let p = Predicate::PathContainsRegex { path: "a.md".into(), pattern: "ab+c".into() };
    let cfg = GrounderConfig::default();
    assert_eq!(judge_claim(&p, &FileProbe::Found("xxabbbcxx".into()), &cfg), ClaimResult::Grounded);
    assert_eq!(
        judge_claim(&p, &FileProbe::Found("ac".into()), &cfg),
        ClaimResult::Ungrounded { reason: "pattern not found in a.md: ab+c".into() }
    );
    assert_eq!(
        judge_claim(&p, &FileProbe::NotFound, &cfg),
        ClaimResult::Ungrounded { reason: "path not found: a.md".into() }
    );
    assert_eq!(
        judge_claim(&p, &FileProbe::ReadFailed("boom".into()), &cfg),
        ClaimResult::Unknown { reason: "read error: boom".into() }
    );
    let bad = Predicate::PathContainsRegex { path: "a.md".into(), pattern: "foo(bar".into() };
    match judge_claim(&bad, &FileProbe::Found("foo(bar".into()), &cfg) {
        ClaimResult::Unknown { reason } => assert!(reason.starts_with("invalid pattern: ")),
        other => panic!("expected Unknown, got {:?}", other),
    }
}

#[test]
fn a2ml_key_judgments() {
    let p = Predicate::A2mlKeyPresent { file: "STATE.a2ml".into(), key: "project.name".into() };
    let cfg = GrounderConfig::default();
    assert_eq!(
        judge_claim(&p, &FileProbe::Found("(project (name x))".into()), &cfg),
        ClaimResult::Grounded
    );
    assert_eq!(
        judge_claim(&p, &FileProbe::Found("(other)".into()), &cfg),
        ClaimResult::Ungrounded { reason: "a2ml key not found: project.name in STATE.a2ml".into() }
    );
    assert_eq!(
        judge_claim(&p, &FileProbe::NotFound, &cfg),
        ClaimResult::Ungrounded { reason: "a2ml file not found: STATE.a2ml".into() }
    );
    assert_eq!(
        judge_claim(&p, &FileProbe::ReadFailed("io".into()), &cfg),
        ClaimResult::Unknown { reason: "a2ml read error: io".into() }
    );
}

#[test]
fn unknown_predicate_keeps_its_reason() {
    let p = Predicate::Unknown { reason: "vague".into() };
    assert_eq!(
        judge_claim(&p, &FileProbe::NotFound, &GrounderConfig::default()),
        ClaimResult::Unknown { reason: "vague".into() }
    );
}

#[test]
fn claim_targets() {
    assert_eq!(claim_target(&Predicate::FileExists { path: "p".into() }), Some(("p", false)));
    assert_eq!(
        claim_target(&Predicate::PathContainsRegex { path: "q".into(), pattern: "x".into() }),
        Some(("q", true))
    );
    assert_eq!(
        claim_target(&Predicate::A2mlKeyPresent { file: "f".into(), key: "k".into() }),
        Some(("f", true))
    );
    assert_eq!(claim_target(&Predicate::CommandCleanClaim { command: "c".into() }), None);
    assert_eq!(claim_target(&Predicate::Unknown { reason: "r".into() }), None);
}

#[test]
fn lines_and_spans_are_counted() {
    let text = "first line\nsee `docs/a.md` here\n\nand `b.toml`";
    let claims = extract_claims(text, "repo://d.md");
    assert_eq!(claims.len(), 2);
    assert_eq!(claims[0].line, 2);
    assert_eq!(claims[0].span, Span { start: 15, end: 26 });
    assert_eq!(claims[0].raw, "`docs/a.md`");
    assert_eq!(&text[claims[0].span.start..claims[0].span.end], "`docs/a.md`");
    assert_eq!(claims[1].line, 4);
    assert_eq!(claims[1].raw, "`b.toml`");
    assert_eq!(&text[claims[1].span.start..claims[1].span.end], "`b.toml`");
    assert!(claims[0].id.starts_with("ipdc-"));
    assert_eq!(claims[0].id.len(), 21);
    assert_ne!(claims[0].id, claims[1].id);
    assert_eq!(claims[0].source_uri, "repo://d.md");
}

#[test]
fn spans_are_byte_offsets_after_multibyte_text() {
    let text = "Ünïcödé → `x/y.rs`";
    let claims = extract_claims(text, "repo://u.md");
    assert_eq!(claims.len(), 1);
    assert_eq!(&text[claims[0].span.start..claims[0].span.end], "`x/y.rs`");
}

#[test]
fn every_span_addresses_its_single_line_raw_text() {
    let text = "ÄÖ `a.md` and `b/c.rs`\n日本 `STATE.a2ml` exists\r\njust test passes ✓\n`d.toml`";
    let claims = extract_claims(text, "repo://m.md");
    assert_eq!(claims.len(), 6);
    for c in &claims {
        assert_eq!(&text[c.span.start..c.span.end], c.raw);
        assert!(!c.raw.contains('\n'));
    }
    assert_eq!(claims[5].line, 4);
    assert_eq!(claims[5].raw, "`d.toml`");
}

#[test]
fn a2ml_presence_and_backtick_both_recorded() {
    let text = "`STATE.a2ml` exists in the tree";
    let claims = extract_claims(text, "repo://s.md");
    assert_eq!(claims.len(), 2);
    assert_eq!(claims[0].raw, "`STATE.a2ml`");
    assert_eq!(claims[1].raw, "`STATE.a2ml` exists");
    assert_eq!(claims[1].predicate, Predicate::FileExists { path: "STATE.a2ml".into() });
}

#[test]
fn command_claim_is_case_insensitive() {
    let claims = extract_claims("HYPATIA SCAN passes", "repo://h.md");
    assert_eq!(claims.len(), 1);
    assert_eq!(
        claims[0].predicate,
        Predicate::CommandCleanClaim { command: "HYPATIA SCAN".into() }
    );
}

#[test]
fn claim_ids_are_stable() {
    let span = Span { start: 3, end: 9 };
    let a = make_claim_id("repo://x", &span, "`a.md`");
    let b = make_claim_id("repo://x", &span, "`a.md`");
    let c = make_claim_id("repo://x", &Span { start: 3, end: 10 }, "`a.md`");
    assert_eq!(a, b);
    assert_ne!(a, c);
    assert!(a[5..].chars().all(|ch| ch.is_ascii_hexdigit() && !ch.is_ascii_uppercase()));
}

fn record(result: ClaimResult) -> DocClaimRecord {
    DocClaimRecord {
        claim: claim(Predicate::FileExists { path: "p".into() }),
        result,
        assessed_at: "now".into(),
    }
}

#[test]
fn partition_splits_ungrounded_from_the_rest() {
    let records = vec![
        record(ClaimResult::Grounded),
        record(ClaimResult::Ungrounded { reason: "a".into() }),
        record(ClaimResult::Unknown { reason: "b".into() }),
        record(ClaimResult::Ungrounded { reason: "c".into() }),
    ];
    let (failures, rest) = partition_failures(&records);
    assert_eq!(failures.len(), 2);
    assert_eq!(rest.len(), 2);
    assert_eq!(failures[0].result, ClaimResult::Ungrounded { reason: "a".into() });
    assert_eq!(failures[1].result, ClaimResult::Ungrounded { reason: "c".into() });
    assert_eq!(rest[0].result, ClaimResult::Grounded);
    assert_eq!(rest[1].result, ClaimResult::Unknown { reason: "b".into() });
}

#[test]
fn walk_decisions() {
    assert_eq!(entry_action(Some(".git"), true, None), EntryAction::Skip);
    assert_eq!(entry_action(Some("target"), true, None), EntryAction::Skip);
    assert_eq!(entry_action(Some("node_modules"), true, None), EntryAction::Skip);
    assert_eq!(entry_action(Some("docs"), true, None), EntryAction::Descend);
    assert_eq!(entry_action(Some("README.MD"), false, Some("MD")), EntryAction::Scan);
    assert_eq!(entry_action(Some("guide.adoc"), false, Some("adoc")), EntryAction::Scan);
    assert_eq!(entry_action(Some("main.rs"), false, Some("rs")), EntryAction::Skip);
    assert_eq!(entry_action(Some("Makefile"), false, None), EntryAction::Skip);
    assert_eq!(entry_action(None, false, Some("md")), EntryAction::Scan);
}

#[test]
fn source_uris_are_repo_relative() {
    assert_eq!(doc_source_uri("docs/a.md"), "repo://docs/a.md");
}

#[test]
fn root_choice() {
    assert_eq!(pick_root(true, &vec![true, false]), RootPick::AsGiven);
    assert_eq!(pick_root(false, &vec![false, true, true]), RootPick::Root(1));
    assert_eq!(pick_root(false, &vec![false, false]), RootPick::Root(0));
    assert_eq!(pick_root(false, &vec![]), RootPick::Unresolved);
}

#[test]
fn claims_carry_uri_id_shape_and_line() {
    let text = "x `a.md`\n\nÄ `STATE.a2ml` exists\njust build passes and `b.rs`";
    let claims = extract_claims(text, "repo://f.md");
    assert_eq!(claims.len(), 5);
    for c in &claims {
        assert_eq!(c.source_uri, "repo://f.md");
        assert_eq!(c.id.len(), 21);
        assert!(c.id.starts_with("ipdc-"));
        assert!(c.id[5..].chars().all(|h| h.is_ascii_digit() || ('a'..='f').contains(&h)));
        assert_eq!(c.line, 1 + text[..c.span.start].matches('\n').count());
    }
    for w in claims.windows(2) {
        assert!(w[0].line <= w[1].line);
    }
}
