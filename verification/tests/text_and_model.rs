use invariant_path_core::classifier::{classify_candidate, classify_lowered, infer_invariant_type, push_loss};
use invariant_path_core::extractor::{
    earliest_trigger, extract_candidates, split_secondary_lowered, split_secondary_transition,
    TRIGGERS,
};
use invariant_path_core::model::{
    make_annotation_id, now_rfc3339, timestamp_or_epoch, ClaimCandidate, Classification,
    InvariantType, Span,
};
use invariant_path_core::text::{chars_of, is_white_space, same_text};

#[test]
fn lowercase_is_unicode() {
    let c = ClaimCandidate {
        span: Span { start: 0, end: 0 },
        source_text: "ÜBER MODEL".into(),
        target_text: "PRODUCTION".into(),
        trigger: "means".into(),
        path_description: String::new(),
    };
    assert_eq!(classify_candidate(&c).classification, Classification::Overextended);
}

#[test]
fn classification_reads_text_in_lowercase() {
    let c = ClaimCandidate {
        span: Span { start: 0, end: 0 },
        source_text: "THE BENCHMARK".into(),
        target_text: "IT CAN REASON".into(),
        trigger: "proves".into(),
        path_description: String::new(),
    };
    let o = classify_candidate(&c);
    assert_eq!(o.classification, Classification::Overextended);
    assert_eq!(o.losses, vec!["task_transfer".to_string()]);
}

#[test]
fn lowered_classification_rules() {
    let o = classify_lowered("the probability is high", "we should act", "means");
    assert_eq!(o.classification, Classification::Conflation);
    assert_eq!(o.losses, vec!["uncertainty".to_string(), "value_judgment".to_string()]);
    assert_eq!(o.preserved, Some(false));
    assert_eq!(o.invariant_type, InvariantType::NormativeBridge);
    let v = classify_lowered("the axiom", "the corollary", "therefore");
    assert_eq!(v.classification, Classification::ValidPath);
    assert_eq!(v.preserved, Some(true));
    assert!(v.losses.is_empty());
    assert!(v.break_condition.is_none());
    let a = classify_lowered("nothing", "here", "means");
    assert_eq!(a.classification, Classification::Abstain);
    assert_eq!(a.preserved, None);
    let r = classify_lowered("x", "y", "obviously");
    assert_eq!(r.classification, Classification::Incomplete);
    assert_eq!(r.preserved, None);
    assert_eq!(r.losses, vec!["missing_evidence".to_string()]);
}

#[test]
fn invariant_inference_order() {
    assert_eq!(infer_invariant_type("a policy", "causes", "x"), InvariantType::NormativeBridge);
    assert_eq!(infer_invariant_type("it", "leads to", "x"), InvariantType::CausalRelationship);
    assert_eq!(infer_invariant_type("a", "b", "in practice"), InvariantType::Mechanism);
    assert_eq!(infer_invariant_type("a", "b", "c"), InvariantType::Provenance);
}

#[test]
fn losses_do_not_repeat() {
    let mut v = vec!["a".to_string()];
    push_loss(&mut v, "a");
    push_loss(&mut v, "b");
    push_loss(&mut v, "b");
    assert_eq!(v, vec!["a".to_string(), "b".to_string()]);
}

#[test]
fn earliest_trigger_prefers_position_then_order() {
    assert_eq!(earliest_trigger("x this proves y"), Some(("this proves", 2)));
    assert_eq!(earliest_trigger("ä means b"), Some(("means", 3)));
    assert_eq!(earliest_trigger("nothing"), None);
    assert_eq!(TRIGGERS.len(), 13);
}

#[test]
fn secondary_split() {
    assert_eq!(
        split_secondary_transition("The Data Implies a change"),
        Some(("The Data".to_string(), "a change".to_string()))
    );
    assert_eq!(split_secondary_lowered("ab implies cdefgh", "ab implies cdefgh"), None);
    assert_eq!(
        split_secondary_lowered("alpha beta means gamma delta", "alpha beta means gamma delta"),
        Some(("alpha beta".to_string(), "gamma delta".to_string()))
    );
}

#[test]
fn previous_sentence_supplies_the_source() {
    let c = extract_candidates("The benchmark is narrow. Therefore we should avoid broad deployment claims.");
    assert_eq!(c.len(), 1);
    assert_eq!(c[0].source_text, "The benchmark is narrow");
    assert_eq!(c[0].target_text, "we should avoid broad deployment claims");
    assert_eq!(c[0].trigger, "therefore");
    assert_eq!(c[0].span, Span { start: 25, end: 75 });
}

#[test]
fn long_claims_are_compacted() {
    let long = "a".repeat(100);
    let text = format!("short one implies {long}");
    let c = extract_candidates(&text);
    assert_eq!(c.len(), 1);
    let expected = format!("short one -> {}... via 'implies'", "a".repeat(87));
    assert_eq!(c[0].path_description, expected);
}

#[test]
fn short_sentences_are_skipped() {
    assert!(extract_candidates("A implies B.").is_empty());
    assert!(extract_candidates("It must be.").is_empty());
}

#[test]
fn whitespace_trim_is_unicode() {
    let c = extract_candidates("\u{a0}\u{a0}The data implies we should act now");
    assert_eq!(c.len(), 1);
    assert_eq!(c[0].source_text, "The data");
    assert_eq!(c[0].span.start, 4);
}

#[test]
fn annotation_ids() {
    let span = Span { start: 0, end: 10 };
    let a = make_annotation_id("repo://a", &span, "s", "t");
    assert!(a.starts_with("ip-"));
    assert_eq!(a.len(), 19);
    assert_eq!(a, make_annotation_id("repo://a", &span, "s", "t"));
    assert_ne!(a, make_annotation_id("repo://a", &span, "s", "u"));
}

#[test]
fn timestamps() {
    let now = now_rfc3339();
    assert!(now.ends_with('Z'));
    assert!(now.len() >= 20);
    let b = now.as_bytes();
    for i in [0, 1, 2, 3, 5, 6, 8, 9, 11, 12, 14, 15, 17, 18] {
        assert!(b[i].is_ascii_digit());
    }
    assert_eq!(&now[4..5], "-");
    assert_eq!(&now[7..8], "-");
    assert_eq!(&now[10..11], "T");
    assert_eq!(&now[13..14], ":");
    assert_eq!(&now[16..17], ":");
    assert_eq!(timestamp_or_epoch(None), "1970-01-01T00:00:00Z");
    assert_eq!(timestamp_or_epoch(Some("x".into())), "x");
}

#[test]
fn text_helpers() {
    assert_eq!(chars_of("aé"), vec!['a', 'é']);
    assert!(same_text("abc", "abc"));
    assert!(!same_text("abc", "abd"));
}

#[test]
fn extraction_is_total_on_multibyte_text() {
    let text = format!("{} therefore yes indeed", "é".repeat(50));
    let c = extract_candidates(&text);
    assert_eq!(c.len(), 1);
    assert_eq!(c[0].span, Span { start: 0, end: 121 });
    assert_eq!(c[0].source_text, "é".repeat(50));
    assert_eq!(c[0].target_text, "yes indeed");
    assert_eq!(c[0].trigger, "therefore");
    assert_eq!(
        c[0].path_description,
        format!("{}... -> yes indeed via 'therefore'", "é".repeat(43))
    );
    // A secondary phrase whose offset falls inside a character is passed over.
    assert_eq!(split_secondary_transition("ẞẞẞẞ implies nothing at all here"), None);
}

#[test]
fn white_space_is_the_unicode_property() {
    for v in 0u32..0x11000 {
        if let Some(c) = char::from_u32(v) {
            assert_eq!(is_white_space(c), c.is_whitespace(), "U+{:04X}", v);
        }
    }
    assert!(is_white_space('\u{3000}'));
    assert!(!is_white_space('\u{180e}'));
}

#[test]
fn losses_are_known_tags_in_rule_order() {
    let tags = [
        "external_validity",
        "task_transfer",
        "implementation_gap",
        "normative_step",
        "uncertainty",
        "value_judgment",
        "scope",
        "assumptions",
        "missing_evidence",
    ];
    let cases = [
        ("the model under assumptions in this benchmark", "it will work in production for everyone always", "clearly"),
        ("there is a risk probability in the data", "we should ban it in policy everywhere", "obviously"),
        ("this theorem", "guarantees production safety", "therefore"),
    ];
    for (src, tgt, trig) in cases {
        let c = ClaimCandidate {
            span: Span { start: 0, end: 0 },
            source_text: src.into(),
            target_text: tgt.into(),
            trigger: trig.into(),
            path_description: String::new(),
        };
        let losses = classify_candidate(&c).losses;
        assert!(!losses.is_empty());
        let ranks: Vec<usize> = losses
            .iter()
            .map(|l| tags.iter().position(|t| t == l).expect("known tag"))
            .collect();
        assert!(ranks.windows(2).all(|w| w[0] < w[1]), "{:?}", losses);
    }
}

#[test]
fn ascii_case_does_not_change_the_judgment() {
    let c = ClaimCandidate {
        span: Span { start: 0, end: 0 },
        source_text: "this benchmark shows".into(),
        target_text: "the model can reason in production".into(),
        trigger: "proves".into(),
        path_description: String::new(),
    };
    let mut up = c.clone();
    up.source_text = c.source_text.to_ascii_uppercase();
    up.target_text = c.target_text.to_ascii_uppercase();
    assert_eq!(classify_candidate(&up), classify_candidate(&c));
}

#[test]
fn candidate_spans_and_triggers() {
    let text = "  The study SHOWS that this Therefore means nothing.\n   Data clearly implies we must act now!";
    let c = extract_candidates(text);
    assert!(!c.is_empty());
    for cand in &c {
        let span = &text[cand.span.start..cand.span.end];
        assert!(!span.starts_with(char::is_whitespace));
        assert!(span.trim().len() >= 12);
        let lower = span.trim().to_lowercase();
        let first = TRIGGERS
            .iter()
            .filter_map(|t| lower.find(t).map(|k| (k, *t)))
            .min_by_key(|(k, _)| *k)
            .expect("a trigger");
        assert_eq!(first.1, cand.trigger);
    }
    assert!(extract_candidates("No transition words appear in this text at all.").is_empty());
}
