//! Heuristic classification of claim transitions: which invariant a
//! transition has to carry, what it loses on the way, and the resulting
//! judgment.
use crate::model::{
    texts_view, ClaimCandidate, Classification, ClassificationOutcome, InvariantType, OutcomeView,
};
use crate::text::{
    append_str, ascii_lower, ascii_text, ascii_upper, chars_of, contains, contains_chars, lowercase,
    same_text, to_lowercase,
};
use vstd::prelude::*;

verus! {

// ---------------------------------------------------------------------------
// Term lists
// ---------------------------------------------------------------------------

pub open spec fn strs_view(v: Seq<&str>) -> Seq<Seq<char>> {
    v.map_values(|s: &str| s@)
}

pub open spec fn model_terms() -> Seq<Seq<char>> {
    seq!["model"@, "simulation"@, "toy"@, "lab"@, "prototype"@]
}

pub open spec fn reality_terms() -> Seq<Seq<char>> {
    seq!["production"@, "real-world"@, "real world"@, "deployment"@, "all users"@]
}

pub open spec fn benchmark_terms() -> Seq<Seq<char>> {
    seq!["benchmark"@, "leaderboard"@, "test set"@, "eval"@]
}

pub open spec fn capability_terms() -> Seq<Seq<char>> {
    seq!["can reason"@, "general intelligence"@, "capability"@, "understands"@]
}

pub open spec fn theorem_terms() -> Seq<Seq<char>> {
    seq!["theorem"@, "proof"@, "lemma"@, "formal"@]
}

pub open spec fn guarantee_terms() -> Seq<Seq<char>> {
    seq!["guarantee"@, "guarantees"@, "safe"@, "safety"@, "always"@, "certain"@]
}

pub open spec fn data_terms() -> Seq<Seq<char>> {
    seq!["data"@, "dataset"@, "study"@, "sample"@, "observation"@]
}

pub open spec fn policy_terms() -> Seq<Seq<char>> {
    seq!["policy"@, "regulation"@, "mandate"@, "ban"@]
}

pub open spec fn prob_terms() -> Seq<Seq<char>> {
    seq!["probability"@, "likely"@, "uncertainty"@, "risk"@, "confidence"@]
}

pub open spec fn certainty_terms() -> Seq<Seq<char>> {
    seq!["certain"@, "guarantee"@, "proves"@, "always"@, "definitely"@]
}

pub open spec fn descriptive_terms() -> Seq<Seq<char>> {
    seq!["is"@, "are"@, "observed"@, "shows"@, "means"@]
}

pub open spec fn normative_terms() -> Seq<Seq<char>> {
    seq!["should"@, "must"@, "ought"@, "need to"@]
}

pub open spec fn local_terms() -> Seq<Seq<char>> {
    seq![
        "pilot"@,
        "single"@,
        "single test"@,
        "local"@,
        "subset"@,
        "case study"@,
        "model result"@,
    ]
}

pub open spec fn universal_terms() -> Seq<Seq<char>> {
    seq!["all"@, "every"@, "universal"@, "always"@, "everyone"@]
}

pub open spec fn assumption_terms() -> Seq<Seq<char>> {
    seq!["under assumptions"@, "assuming"@, "if we assume"@]
}

pub open spec fn normative_cues() -> Seq<Seq<char>> {
    seq!["should"@, "must"@, "policy"@, "ought"@]
}

pub open spec fn causal_cues() -> Seq<Seq<char>> {
    seq!["because"@, "causes"@, "leads to"@, "therefore"@]
}

pub open spec fn statistical_cues() -> Seq<Seq<char>> {
    seq!["probability"@, "likely"@, "confidence"@, "distribution"@]
}

pub open spec fn logical_cues() -> Seq<Seq<char>> {
    seq!["implies"@, "proof"@, "theorem"@, "logical"@]
}

pub open spec fn mechanism_cues() -> Seq<Seq<char>> {
    seq!["mechanism"@, "in practice"@, "works by"@, "pathway"@]
}

pub open spec fn risk_cues() -> Seq<Seq<char>> {
    seq!["risk"@, "uncertainty"@, "safety"@, "hazard"@]
}

pub open spec fn resource_cues() -> Seq<Seq<char>> {
    seq!["cost"@, "budget"@, "resource"@, "easy"@, "transition"@]
}

/// The term lists, by number, as the executable code uses them.
pub open spec fn term_list(n: nat) -> Seq<Seq<char>> {
    if n == 0 {
        model_terms()
    } else if n == 1 {
        reality_terms()
    } else if n == 2 {
        benchmark_terms()
    } else if n == 3 {
        capability_terms()
    } else if n == 4 {
        theorem_terms()
    } else if n == 5 {
        guarantee_terms()
    } else if n == 6 {
        data_terms()
    } else if n == 7 {
        policy_terms()
    } else if n == 8 {
        prob_terms()
    } else if n == 9 {
        certainty_terms()
    } else if n == 10 {
        descriptive_terms()
    } else if n == 11 {
        normative_terms()
    } else if n == 12 {
        local_terms()
    } else if n == 13 {
        universal_terms()
    } else if n == 14 {
        assumption_terms()
    } else if n == 15 {
        normative_cues()
    } else if n == 16 {
        causal_cues()
    } else if n == 17 {
        statistical_cues()
    } else if n == 18 {
        logical_cues()
    } else if n == 19 {
        mechanism_cues()
    } else if n == 20 {
        risk_cues()
    } else {
        resource_cues()
    }
}

fn terms(n: usize) -> (r: Vec<&'static str>)
    requires
        n <= 21,
    ensures
        strs_view(r@) == term_list(n as nat),
{
    let v: Vec<&'static str> = if n == 0 {
        vec!["model", "simulation", "toy", "lab", "prototype"]
    } else if n == 1 {
        vec!["production", "real-world", "real world", "deployment", "all users"]
    } else if n == 2 {
        vec!["benchmark", "leaderboard", "test set", "eval"]
    } else if n == 3 {
        vec!["can reason", "general intelligence", "capability", "understands"]
    } else if n == 4 {
        vec!["theorem", "proof", "lemma", "formal"]
    } else if n == 5 {
        vec!["guarantee", "guarantees", "safe", "safety", "always", "certain"]
    } else if n == 6 {
        vec!["data", "dataset", "study", "sample", "observation"]
    } else if n == 7 {
        vec!["policy", "regulation", "mandate", "ban"]
    } else if n == 8 {
        vec!["probability", "likely", "uncertainty", "risk", "confidence"]
    } else if n == 9 {
        vec!["certain", "guarantee", "proves", "always", "definitely"]
    } else if n == 10 {
        vec!["is", "are", "observed", "shows", "means"]
    } else if n == 11 {
        vec!["should", "must", "ought", "need to"]
    } else if n == 12 {
        vec!["pilot", "single", "single test", "local", "subset", "case study", "model result"]
    } else if n == 13 {
        vec!["all", "every", "universal", "always", "everyone"]
    } else if n == 14 {
        vec!["under assumptions", "assuming", "if we assume"]
    } else if n == 15 {
        vec!["should", "must", "policy", "ought"]
    } else if n == 16 {
        vec!["because", "causes", "leads to", "therefore"]
    } else if n == 17 {
        vec!["probability", "likely", "confidence", "distribution"]
    } else if n == 18 {
        vec!["implies", "proof", "theorem", "logical"]
    } else if n == 19 {
        vec!["mechanism", "in practice", "works by", "pathway"]
    } else if n == 20 {
        vec!["risk", "uncertainty", "safety", "hazard"]
    } else {
        vec!["cost", "budget", "resource", "easy", "transition"]
    };
    proof {
        assert(strs_view(v@) =~= term_list(n as nat));
    }
    v
}

// ---------------------------------------------------------------------------
// Primitive checks
// ---------------------------------------------------------------------------

/// Whether any of `words` occurs in `text`.
pub open spec fn has_any(text: Seq<char>, words: Seq<Seq<char>>) -> bool {
    exists|i: int| 0 <= i < words.len() && contains(text, #[trigger] words[i])
}

fn has_any_of(text: &Vec<char>, words: &Vec<&str>) -> (r: bool)
    ensures
        r == has_any(text@, strs_view(words@)),
{
    let mut i: usize = 0;
    while i < words.len()
        invariant
            i <= words.len(),
            forall|j: int| 0 <= j < i ==> !contains(text@, #[trigger] strs_view(words@)[j]),
        decreases words.len() - i,
    {
        let w = chars_of(words[i]);
        if contains_chars(text, &w) {
            proof {
                assert(strs_view(words@)[i as int] == w@);
            }
            return true;
        }
        i = i + 1;
    }
    false
}

fn has_term(text: &Vec<char>, n: usize) -> (r: bool)
    requires
        n <= 21,
    ensures
        r == has_any(text@, term_list(n as nat)),
{
    let words = terms(n);
    has_any_of(text, &words)
}

/// `losses` with `loss` appended unless it is already there.
pub open spec fn add_loss(losses: Seq<Seq<char>>, loss: Seq<char>) -> Seq<Seq<char>> {
    if losses.contains(loss) {
        losses
    } else {
        losses.push(loss)
    }
}

/// Appends `loss` to `losses` unless an equal entry is already there.
pub fn push_loss(losses: &mut Vec<String>, loss: &str)
    ensures
        texts_view(final(losses)@) == add_loss(texts_view(old(losses)@), loss@),
{
    let mut i: usize = 0;
    while i < losses.len()
        invariant
            i <= losses.len(),
            forall|j: int| 0 <= j < i ==> losses@[j]@ != loss@,
        decreases losses.len() - i,
    {
        if same_text(losses[i].as_str(), loss) {
            proof {
                assert(texts_view(losses@)[i as int] == loss@);
            }
            return;
        }
        i = i + 1;
    }
    proof {
        assert(!texts_view(losses@).contains(loss@)) by {
            if texts_view(losses@).contains(loss@) {
                let j = choose|j: int| 0 <= j < losses.len() && texts_view(losses@)[j] == loss@;
                assert(losses@[j]@ == loss@);
            }
        }
    }
    let ghost before = losses@;
    losses.push(String::from_str(loss));
    proof {
        assert(texts_view(losses@) =~= texts_view(before).push(loss@));
    }
}

// ---------------------------------------------------------------------------
// Invariant type
// ---------------------------------------------------------------------------

/// The invariant type chosen by the first cue list with a match in
/// `source + " " + target + " " + trigger`.
pub open spec fn infer_spec(source: Seq<char>, target: Seq<char>, trigger: Seq<char>) -> InvariantType {
    let text = source + " "@ + target + " "@ + trigger;
    if has_any(text, normative_cues()) {
        InvariantType::NormativeBridge
    } else if has_any(text, causal_cues()) {
        InvariantType::CausalRelationship
    } else if has_any(text, statistical_cues()) {
        InvariantType::StatisticalRelationship
    } else if has_any(text, logical_cues()) {
        InvariantType::LogicalImplication
    } else if has_any(text, mechanism_cues()) {
        InvariantType::Mechanism
    } else if has_any(text, risk_cues()) {
        InvariantType::RiskProbability
    } else if has_any(text, resource_cues()) {
        InvariantType::ResourceBudget
    } else {
        InvariantType::Provenance
    }
}

/// The invariant type that a transition from `source` to `target` through
/// `trigger` has to carry.
pub fn infer_invariant_type(source: &str, target: &str, trigger: &str) -> (r: InvariantType)
    ensures
        r == infer_spec(source@, target@, trigger@),
{
    let mut joined = String::new();
    append_str(&mut joined, source);
    append_str(&mut joined, " ");
    append_str(&mut joined, target);
    append_str(&mut joined, " ");
    append_str(&mut joined, trigger);
    let text = chars_of(joined.as_str());
    proof {
        assert(text@ =~= source@ + " "@ + target@ + " "@ + trigger@);
    }
    if has_term(&text, 15) {
        InvariantType::NormativeBridge
    } else if has_term(&text, 16) {
        InvariantType::CausalRelationship
    } else if has_term(&text, 17) {
        InvariantType::StatisticalRelationship
    } else if has_term(&text, 18) {
        InvariantType::LogicalImplication
    } else if has_term(&text, 19) {
        InvariantType::Mechanism
    } else if has_term(&text, 20) {
        InvariantType::RiskProbability
    } else if has_term(&text, 21) {
        InvariantType::ResourceBudget
    } else {
        InvariantType::Provenance
    }
}

// ---------------------------------------------------------------------------
// Classification rules
// ---------------------------------------------------------------------------

/// The outcome before any rule fires.
pub open spec fn initial_outcome(t: InvariantType) -> OutcomeView {
    OutcomeView {
        invariant_type: t,
        preserved: None,
        losses: Seq::empty(),
        break_condition: None,
        classification: Classification::Abstain,
    }
}

/// The outcome after a rule that records `loss` and judges the transition
/// broken.
pub open spec fn judged(
    s: OutcomeView,
    loss: Seq<char>,
    c: Classification,
    reason: Seq<char>,
) -> OutcomeView {
    OutcomeView {
        invariant_type: s.invariant_type,
        preserved: Some(false),
        losses: add_loss(s.losses, loss),
        break_condition: Some(reason),
        classification: c,
    }
}

pub open spec fn model_reality_reason() -> Seq<char> {
    "Model behavior does not directly transfer to deployment reality"@
}

pub open spec fn benchmark_capability_reason() -> Seq<char> {
    "Benchmark performance is narrower than general capability claims"@
}

pub open spec fn theorem_guarantee_reason() -> Seq<char> {
    "Formal theorem scope does not imply production guarantee"@
}

pub open spec fn data_policy_reason() -> Seq<char> {
    "Data alone does not encode policy or value tradeoffs"@
}

pub open spec fn probability_certainty_reason() -> Seq<char> {
    "Probabilistic evidence cannot justify certainty"@
}

pub open spec fn risk_normative_reason() -> Seq<char> {
    "Risk or uncertainty statements need explicit value framing before normative action"@
}

pub open spec fn descriptive_normative_reason() -> Seq<char> {
    "Descriptive claims require explicit normative bridge to justify prescriptions"@
}

pub open spec fn local_universal_reason() -> Seq<char> {
    "Local evidence cannot justify universal claim without additional support"@
}

pub open spec fn assumption_reason() -> Seq<char> {
    "Assumption-bound result was generalized without keeping assumptions explicit"@
}

pub open spec fn rhetorical_reason() -> Seq<char> {
    "Rhetorical confidence marker without explicit supporting path"@
}

/// Model or simulation evidence stretched to deployment reality.
pub open spec fn rule_model_reality(s: OutcomeView, src: Seq<char>, tgt: Seq<char>) -> OutcomeView {
    if has_any(src, model_terms()) && has_any(tgt, reality_terms()) {
        judged(s, "external_validity"@, Classification::Overextended, model_reality_reason())
    } else {
        s
    }
}

/// Benchmark results stretched to general capability.
pub open spec fn rule_benchmark_capability(
    s: OutcomeView,
    src: Seq<char>,
    tgt: Seq<char>,
) -> OutcomeView {
    if has_any(src, benchmark_terms()) && has_any(tgt, capability_terms()) {
        judged(s, "task_transfer"@, Classification::Overextended, benchmark_capability_reason())
    } else {
        s
    }
}

/// A formal result stretched to a production guarantee.
pub open spec fn rule_theorem_guarantee(
    s: OutcomeView,
    src: Seq<char>,
    tgt: Seq<char>,
) -> OutcomeView {
    if has_any(src, theorem_terms()) && has_any(tgt, guarantee_terms()) {
        judged(s, "implementation_gap"@, Classification::Overextended, theorem_guarantee_reason())
    } else {
        s
    }
}

/// Data turned into policy or prescription.
pub open spec fn rule_data_policy(s: OutcomeView, src: Seq<char>, tgt: Seq<char>) -> OutcomeView {
    if has_any(src, data_terms()) && (has_any(tgt, policy_terms()) || has_any(
        tgt,
        normative_terms(),
    )) {
        judged(s, "normative_step"@, Classification::Conflation, data_policy_reason())
    } else {
        s
    }
}

/// Probabilistic evidence turned into certainty.
pub open spec fn rule_probability_certainty(
    s: OutcomeView,
    src: Seq<char>,
    tgt: Seq<char>,
) -> OutcomeView {
    if has_any(src, prob_terms()) && has_any(tgt, certainty_terms()) {
        judged(s, "uncertainty"@, Classification::Overextended, probability_certainty_reason())
    } else {
        s
    }
}

/// Risk or uncertainty turned into prescription.
pub open spec fn rule_risk_normative(s: OutcomeView, src: Seq<char>, tgt: Seq<char>) -> OutcomeView {
    if has_any(src, prob_terms()) && has_any(tgt, normative_terms()) {
        judged(
            OutcomeView { losses: add_loss(s.losses, "uncertainty"@), ..s },
            "value_judgment"@,
            Classification::Conflation,
            risk_normative_reason(),
        )
    } else {
        s
    }
}

/// Description turned into prescription.
pub open spec fn rule_descriptive_normative(
    s: OutcomeView,
    src: Seq<char>,
    tgt: Seq<char>,
) -> OutcomeView {
    if has_any(src, descriptive_terms()) && has_any(tgt, normative_terms()) {
        judged(s, "value_judgment"@, Classification::Conflation, descriptive_normative_reason())
    } else {
        s
    }
}

/// Local evidence stretched to a universal claim.
pub open spec fn rule_local_universal(s: OutcomeView, src: Seq<char>, tgt: Seq<char>) -> OutcomeView {
    if has_any(src, local_terms()) && has_any(tgt, universal_terms()) {
        judged(s, "scope"@, Classification::Overextended, local_universal_reason())
    } else {
        s
    }
}

/// An assumption-bound result generalized without its assumptions.
pub open spec fn rule_assumptions(
    s: OutcomeView,
    src: Seq<char>,
    tgt: Seq<char>,
    trigger: Seq<char>,
) -> OutcomeView {
    let combined = src + " "@ + tgt;
    if (has_any(combined, assumption_terms()) || trigger == "under assumptions"@) && has_any(
        tgt,
        universal_terms(),
    ) {
        judged(s, "assumptions"@, Classification::Incomplete, assumption_reason())
    } else {
        s
    }
}

/// A rhetorical confidence marker standing in for evidence.
pub open spec fn rule_rhetorical(s: OutcomeView, trigger: Seq<char>) -> OutcomeView {
    if trigger == "clearly"@ || trigger == "obviously"@ {
        OutcomeView {
            invariant_type: s.invariant_type,
            preserved: None,
            losses: add_loss(s.losses, "missing_evidence"@),
            break_condition: Some(rhetorical_reason()),
            classification: Classification::Incomplete,
        }
    } else {
        s
    }
}

/// An explicit inference marker with nothing found against it.
pub open spec fn rule_valid_path(s: OutcomeView, trigger: Seq<char>) -> OutcomeView {
    if s.classification == Classification::Abstain && (trigger == "therefore"@ || trigger
        == "implies"@ || trigger == "this shows"@) {
        OutcomeView { classification: Classification::ValidPath, preserved: Some(true), ..s }
    } else {
        s
    }
}

/// The judgment on a transition from the (lowercase) `source` to the
/// (lowercase) `target` through `trigger`: every rule is applied in turn,
/// and a later rule that fires overrides the classification, preservation
/// and break condition of an earlier one, while losses accumulate.
pub open spec fn classify_spec(src: Seq<char>, tgt: Seq<char>, trigger: Seq<char>) -> OutcomeView {
    let s0 = initial_outcome(infer_spec(src, tgt, trigger));
    let s1 = rule_model_reality(s0, src, tgt);
    let s2 = rule_benchmark_capability(s1, src, tgt);
    let s3 = rule_theorem_guarantee(s2, src, tgt);
    let s4 = rule_data_policy(s3, src, tgt);
    let s5 = rule_probability_certainty(s4, src, tgt);
    let s6 = rule_risk_normative(s5, src, tgt);
    let s7 = rule_descriptive_normative(s6, src, tgt);
    let s8 = rule_local_universal(s7, src, tgt);
    let s9 = rule_assumptions(s8, src, tgt, trigger);
    let s10 = rule_rhetorical(s9, trigger);
    rule_valid_path(s10, trigger)
}

// ---------------------------------------------------------------------------
// Executable classifier
// ---------------------------------------------------------------------------

fn judge(out: &mut ClassificationOutcome, loss: &str, c: Classification, reason: &str)
    ensures
        final(out)@ == judged(old(out)@, loss@, c, reason@),
{
    push_loss(&mut out.losses, loss);
    out.classification = c;
    out.preserved = Some(false);
    out.break_condition = Some(String::from_str(reason));
}

fn text_is(s: &str, lit: &str) -> (r: bool)
    ensures
        r == (s@ == lit@),
{
    same_text(s, lit)
}

/// Classifies a transition whose source and target text are already in
/// lowercase; see `classify_spec`.
pub fn classify_lowered(source: &str, target: &str, trigger: &str) -> (r: ClassificationOutcome)
    ensures
        r@ == classify_spec(source@, target@, trigger@),
{
    let src = chars_of(source);
    let tgt = chars_of(target);
    let mut joined = String::new();
    append_str(&mut joined, source);
    append_str(&mut joined, " ");
    append_str(&mut joined, target);
    let combined = chars_of(joined.as_str());
    proof {
        assert(combined@ =~= source@ + " "@ + target@);
    }
    let ghost s_src = source@;
    let ghost s_tgt = target@;
    let ghost s_trig = trigger@;
    let mut out = ClassificationOutcome {
        invariant_type: infer_invariant_type(source, target, trigger),
        preserved: None,
        losses: Vec::new(),
        break_condition: None,
        classification: Classification::Abstain,
    };
    proof {
        assert(out@.losses =~= Seq::<Seq<char>>::empty());
        assert(out@ == initial_outcome(infer_spec(s_src, s_tgt, s_trig)));
    }
    let ghost s0 = out@;
    if has_term(&src, 0) && has_term(&tgt, 1) {
        judge(
            &mut out,
            "external_validity",
            Classification::Overextended,
            "Model behavior does not directly transfer to deployment reality",
        );
    }
    let ghost s1 = out@;
    assert(s1 == rule_model_reality(s0, s_src, s_tgt));
    if has_term(&src, 2) && has_term(&tgt, 3) {
        judge(
            &mut out,
            "task_transfer",
            Classification::Overextended,
            "Benchmark performance is narrower than general capability claims",
        );
    }
    let ghost s2 = out@;
    assert(s2 == rule_benchmark_capability(s1, s_src, s_tgt));
    if has_term(&src, 4) && has_term(&tgt, 5) {
        judge(
            &mut out,
            "implementation_gap",
            Classification::Overextended,
            "Formal theorem scope does not imply production guarantee",
        );
    }
    let ghost s3 = out@;
    assert(s3 == rule_theorem_guarantee(s2, s_src, s_tgt));
    if has_term(&src, 6) && (has_term(&tgt, 7) || has_term(&tgt, 11)) {
        judge(
            &mut out,
            "normative_step",
            Classification::Conflation,
            "Data alone does not encode policy or value tradeoffs",
        );
    }
    let ghost s4 = out@;
    assert(s4 == rule_data_policy(s3, s_src, s_tgt));
    if has_term(&src, 8) && has_term(&tgt, 9) {
        judge(
            &mut out,
            "uncertainty",
            Classification::Overextended,
            "Probabilistic evidence cannot justify certainty",
        );
    }
    let ghost s5 = out@;
    assert(s5 == rule_probability_certainty(s4, s_src, s_tgt));
    if has_term(&src, 8) && has_term(&tgt, 11) {
        push_loss(&mut out.losses, "uncertainty");
        judge(
            &mut out,
            "value_judgment",
            Classification::Conflation,
            "Risk or uncertainty statements need explicit value framing before normative action",
        );
    }
    let ghost s6 = out@;
    assert(s6 == rule_risk_normative(s5, s_src, s_tgt));
    if has_term(&src, 10) && has_term(&tgt, 11) {
        judge(
            &mut out,
            "value_judgment",
            Classification::Conflation,
            "Descriptive claims require explicit normative bridge to justify prescriptions",
        );
    }
    let ghost s7 = out@;
    assert(s7 == rule_descriptive_normative(s6, s_src, s_tgt));
    if has_term(&src, 12) && has_term(&tgt, 13) {
        judge(
            &mut out,
            "scope",
            Classification::Overextended,
            "Local evidence cannot justify universal claim without additional support",
        );
    }
    let ghost s8 = out@;
    assert(s8 == rule_local_universal(s7, s_src, s_tgt));
    if (has_term(&combined, 14) || text_is(trigger, "under assumptions")) && has_term(&tgt, 13) {
        judge(
            &mut out,
            "assumptions",
            Classification::Incomplete,
            "Assumption-bound result was generalized without keeping assumptions explicit",
        );
    }
    let ghost s9 = out@;
    assert(s9 == rule_assumptions(s8, s_src, s_tgt, s_trig));
    if text_is(trigger, "clearly") || text_is(trigger, "obviously") {
        out.classification = Classification::Incomplete;
        out.preserved = None;
        push_loss(&mut out.losses, "missing_evidence");
        out.break_condition = Some(
            String::from_str("Rhetorical confidence marker without explicit supporting path"),
        );
    }
    let ghost s10 = out@;
    assert(s10 == rule_rhetorical(s9, s_trig));
    let abstained = match out.classification {
        Classification::Abstain => true,
        _ => false,
    };
    if abstained && (text_is(trigger, "therefore") || text_is(trigger, "implies") || text_is(
        trigger,
        "this shows",
    )) {
        out.classification = Classification::ValidPath;
        out.preserved = Some(true);
    }
    assert(out@ == rule_valid_path(s10, s_trig));
    out
}

/// Classifies a claim candidate: its source and target text are compared in
/// lowercase (`str::to_lowercase`); see `classify_spec`.
pub fn classify_candidate(candidate: &ClaimCandidate) -> (r: ClassificationOutcome)
    ensures
        r@ == classify_spec(
            lowercase(candidate.source_text@),
            lowercase(candidate.target_text@),
            candidate.trigger@,
        ),
        ascii_text(candidate.source_text@) && ascii_text(candidate.target_text@) ==> r@
            == classify_spec(
            ascii_lower(candidate.source_text@),
            ascii_lower(candidate.target_text@),
            candidate.trigger@,
        ),
        outcome_consistent(r@),
{
    let source = to_lowercase(candidate.source_text.as_str());
    let target = to_lowercase(candidate.target_text.as_str());
    let r = classify_lowered(source.as_str(), target.as_str(), candidate.trigger.as_str());
    proof {
        lemma_outcome_consistent(source@, target@, candidate.trigger@);
    }
    r
}

// ---------------------------------------------------------------------------
// Laws
// ---------------------------------------------------------------------------

/// What every outcome keeps: a broken path carries its losses and a break
/// condition, an unbroken one carries neither, and `preserved` agrees with
/// the classification.
pub open spec fn outcome_consistent(o: OutcomeView) -> bool {
    &&& (o.classification == Classification::ValidPath || o.classification
        == Classification::Abstain) <==> o.losses.len() == 0
    &&& (o.losses.len() == 0 <==> o.break_condition is None)
    &&& (o.classification == Classification::ValidPath <==> o.preserved == Some(true))
    &&& (o.classification == Classification::Overextended || o.classification
        == Classification::Conflation) ==> o.preserved == Some(false)
    &&& o.classification == Classification::Abstain ==> o.preserved is None
    &&& o.losses.no_duplicates()
}

/// The state that every rule keeps.
pub open spec fn rules_inv(s: OutcomeView) -> bool {
    &&& s.losses.no_duplicates()
    &&& s.classification != Classification::ValidPath
    &&& (s.classification == Classification::Abstain) ==> (s.losses.len() == 0
        && s.break_condition is None && s.preserved is None)
    &&& (s.classification != Classification::Abstain) ==> (s.losses.len() > 0
        && s.break_condition is Some && (s.preserved == Some(false) || (s.classification
        == Classification::Incomplete && s.preserved is None)))
}

proof fn lemma_add_loss(ls: Seq<Seq<char>>, l: Seq<char>)
    requires
        ls.no_duplicates(),
    ensures
        add_loss(ls, l).no_duplicates(),
        add_loss(ls, l).len() > 0,
        add_loss(ls, l).contains(l),
{
    if !ls.contains(l) {
        let r = ls.push(l);
        assert forall|i: int, j: int| 0 <= i < r.len() && 0 <= j < r.len() && i != j implies r[i]
            != r[j] by {
            if i == ls.len() as int {
                assert(r[j] == ls[j]);
            } else if j == ls.len() as int {
                assert(r[i] == ls[i]);
            } else {
                assert(r[i] == ls[i] && r[j] == ls[j]);
            }
        }
        assert(r[ls.len() as int] == l);
    }
}

proof fn lemma_judged_inv(s: OutcomeView, loss: Seq<char>, c: Classification, reason: Seq<char>)
    requires
        s.losses.no_duplicates(),
        c != Classification::Abstain,
        c != Classification::ValidPath,
    ensures
        rules_inv(judged(s, loss, c, reason)),
{
    lemma_add_loss(s.losses, loss);
}

/// Every classification outcome is consistent (see `outcome_consistent`).
pub proof fn lemma_outcome_consistent(src: Seq<char>, tgt: Seq<char>, trigger: Seq<char>)
    ensures
        outcome_consistent(classify_spec(src, tgt, trigger)),
{
    let s0 = initial_outcome(infer_spec(src, tgt, trigger));
    assert(s0.losses.no_duplicates());
    assert(rules_inv(s0));
    let s1 = rule_model_reality(s0, src, tgt);
    lemma_judged_inv(s0, "external_validity"@, Classification::Overextended, model_reality_reason());
    let s2 = rule_benchmark_capability(s1, src, tgt);
    lemma_judged_inv(s1, "task_transfer"@, Classification::Overextended, benchmark_capability_reason());
    let s3 = rule_theorem_guarantee(s2, src, tgt);
    lemma_judged_inv(s2, "implementation_gap"@, Classification::Overextended, theorem_guarantee_reason());
    let s4 = rule_data_policy(s3, src, tgt);
    lemma_judged_inv(s3, "normative_step"@, Classification::Conflation, data_policy_reason());
    let s5 = rule_probability_certainty(s4, src, tgt);
    lemma_judged_inv(s4, "uncertainty"@, Classification::Overextended, probability_certainty_reason());
    let s6 = rule_risk_normative(s5, src, tgt);
    lemma_add_loss(s5.losses, "uncertainty"@);
    let mid = OutcomeView { losses: add_loss(s5.losses, "uncertainty"@), ..s5 };
    lemma_judged_inv(mid, "value_judgment"@, Classification::Conflation, risk_normative_reason());
    let s7 = rule_descriptive_normative(s6, src, tgt);
    lemma_judged_inv(s6, "value_judgment"@, Classification::Conflation, descriptive_normative_reason());
    let s8 = rule_local_universal(s7, src, tgt);
    lemma_judged_inv(s7, "scope"@, Classification::Overextended, local_universal_reason());
    let s9 = rule_assumptions(s8, src, tgt, trigger);
    lemma_judged_inv(s8, "assumptions"@, Classification::Incomplete, assumption_reason());
    let s10 = rule_rhetorical(s9, trigger);
    lemma_add_loss(s9.losses, "missing_evidence"@);
    assert(rules_inv(s10));
}

/// The position of a loss tag in the order in which the rules add them:
/// `external_validity`, `task_transfer`, `implementation_gap`,
/// `normative_step`, `uncertainty`, `value_judgment`, `scope`, `assumptions`,
/// `missing_evidence`; 9 for any other text.
pub open spec fn tag_rank(l: Seq<char>) -> nat {
    if l == "external_validity"@ {
        0
    } else if l == "task_transfer"@ {
        1
    } else if l == "implementation_gap"@ {
        2
    } else if l == "normative_step"@ {
        3
    } else if l == "uncertainty"@ {
        4
    } else if l == "value_judgment"@ {
        5
    } else if l == "scope"@ {
        6
    } else if l == "assumptions"@ {
        7
    } else if l == "missing_evidence"@ {
        8
    } else {
        9
    }
}

/// The losses are known tags, in rule order, none twice.
pub open spec fn in_tag_order(ls: Seq<Seq<char>>) -> bool {
    &&& forall|i: int| 0 <= i < ls.len() ==> tag_rank(#[trigger] ls[i]) < 9
    &&& forall|i: int, j: int|
        0 <= i < j < ls.len() ==> tag_rank(#[trigger] ls[i]) < tag_rank(#[trigger] ls[j])
}

/// No loss ranks above `r`.
pub open spec fn ranks_at_most(ls: Seq<Seq<char>>, r: nat) -> bool {
    forall|i: int| 0 <= i < ls.len() ==> tag_rank(#[trigger] ls[i]) <= r
}

proof fn lemma_tag_ranks()
    ensures
        tag_rank("external_validity"@) == 0,
        tag_rank("task_transfer"@) == 1,
        tag_rank("implementation_gap"@) == 2,
        tag_rank("normative_step"@) == 3,
        tag_rank("uncertainty"@) == 4,
        tag_rank("value_judgment"@) == 5,
        tag_rank("scope"@) == 6,
        tag_rank("assumptions"@) == 7,
        tag_rank("missing_evidence"@) == 8,
{
    reveal_strlit("external_validity");
    reveal_strlit("task_transfer");
    reveal_strlit("implementation_gap");
    reveal_strlit("normative_step");
    reveal_strlit("uncertainty");
    reveal_strlit("value_judgment");
    reveal_strlit("scope");
    reveal_strlit("assumptions");
    reveal_strlit("missing_evidence");
    // The nine tags have distinct first letters.
    assert("external_validity"@[0] == 'e');
    assert("task_transfer"@[0] == 't');
    assert("implementation_gap"@[0] == 'i');
    assert("normative_step"@[0] == 'n');
    assert("uncertainty"@[0] == 'u');
    assert("value_judgment"@[0] == 'v');
    assert("scope"@[0] == 's');
    assert("assumptions"@[0] == 'a');
    assert("missing_evidence"@[0] == 'm');
}

/// Adding a tag that ranks at least as high as every present one keeps the
/// order.
proof fn lemma_add_loss_in_order(ls: Seq<Seq<char>>, l: Seq<char>)
    requires
        in_tag_order(ls),
        tag_rank(l) < 9,
        ranks_at_most(ls, tag_rank(l)),
    ensures
        in_tag_order(add_loss(ls, l)),
        ranks_at_most(add_loss(ls, l), tag_rank(l)),
{
    if !ls.contains(l) {
        let r = ls.push(l);
        assert forall|i: int| 0 <= i < ls.len() implies tag_rank(#[trigger] ls[i]) < tag_rank(l) by {
            if tag_rank(ls[i]) == tag_rank(l) {
                assert(ls[i] == l);
            }
        }
        assert forall|i: int, j: int| 0 <= i < j < r.len() implies tag_rank(#[trigger] r[i])
            < tag_rank(#[trigger] r[j]) by {
            assert(r[i] == ls[i]);
            if j < ls.len() {
                assert(r[j] == ls[j]);
            }
        }
        assert forall|i: int| 0 <= i < r.len() implies tag_rank(#[trigger] r[i]) <= tag_rank(l) by {
            if i < ls.len() {
                assert(r[i] == ls[i]);
            }
        }
    }
}

proof fn lemma_rank_weaken(ls: Seq<Seq<char>>, r1: nat, r2: nat)
    requires
        ranks_at_most(ls, r1),
        r1 <= r2,
    ensures
        ranks_at_most(ls, r2),
{
}

/// The losses of every judgment are known tags, each at most once, in the
/// order in which the rules add them (`tag_rank`).
pub proof fn lemma_losses_in_rule_order(src: Seq<char>, tgt: Seq<char>, trigger: Seq<char>)
    ensures
        in_tag_order(classify_spec(src, tgt, trigger).losses),
{
    lemma_tag_ranks();
    let s0 = initial_outcome(infer_spec(src, tgt, trigger));
    let s1 = rule_model_reality(s0, src, tgt);
    lemma_add_loss_in_order(s0.losses, "external_validity"@);
    let s2 = rule_benchmark_capability(s1, src, tgt);
    lemma_rank_weaken(s1.losses, 0, 1);
    lemma_add_loss_in_order(s1.losses, "task_transfer"@);
    let s3 = rule_theorem_guarantee(s2, src, tgt);
    lemma_rank_weaken(s2.losses, 1, 2);
    lemma_add_loss_in_order(s2.losses, "implementation_gap"@);
    let s4 = rule_data_policy(s3, src, tgt);
    lemma_rank_weaken(s3.losses, 2, 3);
    lemma_add_loss_in_order(s3.losses, "normative_step"@);
    let s5 = rule_probability_certainty(s4, src, tgt);
    lemma_rank_weaken(s4.losses, 3, 4);
    lemma_add_loss_in_order(s4.losses, "uncertainty"@);
    let s6 = rule_risk_normative(s5, src, tgt);
    lemma_add_loss_in_order(s5.losses, "uncertainty"@);
    let u = add_loss(s5.losses, "uncertainty"@);
    lemma_rank_weaken(u, 4, 5);
    lemma_add_loss_in_order(u, "value_judgment"@);
    lemma_rank_weaken(s5.losses, 4, 5);
    let s7 = rule_descriptive_normative(s6, src, tgt);
    lemma_add_loss_in_order(s6.losses, "value_judgment"@);
    let s8 = rule_local_universal(s7, src, tgt);
    lemma_rank_weaken(s7.losses, 5, 6);
    lemma_add_loss_in_order(s7.losses, "scope"@);
    let s9 = rule_assumptions(s8, src, tgt, trigger);
    lemma_rank_weaken(s8.losses, 6, 7);
    lemma_add_loss_in_order(s8.losses, "assumptions"@);
    let s10 = rule_rhetorical(s9, trigger);
    lemma_rank_weaken(s9.losses, 7, 8);
    lemma_add_loss_in_order(s9.losses, "missing_evidence"@);
}

/// Upper-casing the ASCII letters of ASCII text keeps it ASCII and leaves its
/// ASCII lowercase form unchanged.
pub proof fn lemma_ascii_upper_lower(s: Seq<char>)
    requires
        ascii_text(s),
    ensures
        ascii_text(ascii_upper(s)),
        ascii_lower(ascii_upper(s)) == ascii_lower(s),
{
    let u = ascii_upper(s);
    assert forall|i: int| 0 <= i < s.len() implies (#[trigger] u[i] as u32) < 128
        && ascii_lower(u)[i] == ascii_lower(s)[i] by {
        let c = s[i];
        assert((c as u32) < 128);
        if 'a' <= c && c <= 'z' {
            assert(u[i] == (((c as u8) - 32) as u8) as char);
            assert((u[i] as u32) == (c as u32) - 32);
        } else {
            assert(u[i] == c);
        }
    }
    assert(ascii_lower(u) =~= ascii_lower(s));
}

/// Letter case does not matter on ASCII text: a candidate whose source and
/// target are ASCII is judged as the one with those texts upper-cased
/// (`classify_candidate` judges ASCII texts by their ASCII lowercase form).
pub proof fn lemma_ascii_case_ignored(src: Seq<char>, tgt: Seq<char>, trigger: Seq<char>)
    requires
        ascii_text(src),
        ascii_text(tgt),
    ensures
        ascii_text(ascii_upper(src)),
        ascii_text(ascii_upper(tgt)),
        classify_spec(ascii_lower(ascii_upper(src)), ascii_lower(ascii_upper(tgt)), trigger)
            == classify_spec(ascii_lower(src), ascii_lower(tgt), trigger),
{
    lemma_ascii_upper_lower(src);
    lemma_ascii_upper_lower(tgt);
}

/// Probabilistic evidence stretched to certainty is an overextension: where
/// the (lowercase) source holds a probability term and the target a
/// certainty term, and no later rule takes over (the target holds no
/// normative and no universal term, and the trigger is not rhetorical), the
/// transition is overextended, not preserved, loses "uncertainty", and
/// breaks because probabilistic evidence cannot justify certainty.
pub proof fn lemma_probability_to_certainty_overextends(
    src: Seq<char>,
    tgt: Seq<char>,
    trigger: Seq<char>,
)
    requires
        has_any(src, prob_terms()),
        has_any(tgt, certainty_terms()),
        !has_any(tgt, normative_terms()),
        !has_any(tgt, universal_terms()),
        trigger != "clearly"@,
        trigger != "obviously"@,
    ensures
        classify_spec(src, tgt, trigger).classification == Classification::Overextended,
        classify_spec(src, tgt, trigger).preserved == Some(false),
        classify_spec(src, tgt, trigger).losses.contains("uncertainty"@),
        classify_spec(src, tgt, trigger).break_condition == Some(
            "Probabilistic evidence cannot justify certainty"@,
        ),
{
    let s0 = initial_outcome(infer_spec(src, tgt, trigger));
    let s1 = rule_model_reality(s0, src, tgt);
    let s2 = rule_benchmark_capability(s1, src, tgt);
    let s3 = rule_theorem_guarantee(s2, src, tgt);
    let s4 = rule_data_policy(s3, src, tgt);
    let s5 = rule_probability_certainty(s4, src, tgt);
    assert(s5.losses.contains("uncertainty"@)) by {
        if !s4.losses.contains("uncertainty"@) {
            assert(s4.losses.push("uncertainty"@)[s4.losses.len() as int] == "uncertainty"@);
        }
    }
}

/// The invariant type follows the first cue list that matches the joined
/// text (source, target, trigger): a statistical cue with no normative or
/// causal cue gives a statistical relationship; each other type needs a cue
/// of its own list and none of the lists before it.
pub proof fn lemma_invariant_type_cues(src: Seq<char>, tgt: Seq<char>, trigger: Seq<char>)
    ensures
        ({
            let text = src + " "@ + tgt + " "@ + trigger;
            let t = infer_spec(src, tgt, trigger);
            &&& (!has_any(text, normative_cues()) && !has_any(text, causal_cues()) && has_any(
                text,
                statistical_cues(),
            )) ==> t == InvariantType::StatisticalRelationship
            &&& t == InvariantType::NormativeBridge <==> has_any(text, normative_cues())
            &&& t == InvariantType::CausalRelationship ==> has_any(text, causal_cues())
            &&& t == InvariantType::StatisticalRelationship ==> has_any(text, statistical_cues())
                && !has_any(text, causal_cues())
            &&& t == InvariantType::LogicalImplication ==> has_any(text, logical_cues())
                && !has_any(text, statistical_cues()) && !has_any(text, causal_cues())
            &&& t == InvariantType::Mechanism ==> has_any(text, mechanism_cues()) && !has_any(
                text,
                logical_cues(),
            ) && !has_any(text, statistical_cues()) && !has_any(text, causal_cues())
            &&& t == InvariantType::RiskProbability ==> has_any(text, risk_cues()) && !has_any(
                text,
                mechanism_cues(),
            ) && !has_any(text, logical_cues()) && !has_any(text, statistical_cues())
                && !has_any(text, causal_cues()) && !has_any(text, normative_cues())
            &&& t == InvariantType::ResourceBudget ==> has_any(text, resource_cues())
                && !has_any(text, risk_cues())
            &&& t == InvariantType::Provenance ==> !has_any(text, resource_cues()) && !has_any(
                text,
                risk_cues(),
            ) && !has_any(text, statistical_cues())
        }),
{
}

/// The judgment depends on the lowercase source and target text and the
/// trigger alone: candidates that differ elsewhere (span, path description,
/// letter case) share one outcome.
pub proof fn lemma_classification_depends_on_claim_text(a: ClaimCandidate, b: ClaimCandidate)
    requires
        lowercase(a.source_text@) == lowercase(b.source_text@),
        lowercase(a.target_text@) == lowercase(b.target_text@),
        a.trigger@ == b.trigger@,
    ensures
        classify_spec(lowercase(a.source_text@), lowercase(a.target_text@), a.trigger@)
            == classify_spec(lowercase(b.source_text@), lowercase(b.target_text@), b.trigger@),
{
}

} // verus!
