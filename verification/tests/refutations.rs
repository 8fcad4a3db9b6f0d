use mrs_proof_kernel::identity::verify_alpha_identity;
use mrs_proof_kernel::refutation::{verify_proof, FormulaRole, LeafSource, ProblemFormula, ProofStep};
use mrs_proof_kernel::term::{Atom, Formula, Term};
use mrs_proof_kernel::verdict::{KernelVerdict, VerificationLimits};

const P: u32 = 1;
const A: u32 = 10;

fn p_of(t: Term) -> Formula {
    Formula::Atom(Atom::Pred(P, vec![t]))
}

fn p_a() -> Formula {
    p_of(Term::App(A, Vec::new()))
}

fn not_p_x() -> Formula {
    Formula::Neg(Box::new(p_of(Term::Var(0))))
}

fn not_p_y() -> Formula {
    Formula::Neg(Box::new(p_of(Term::Var(7))))
}

fn problem() -> Vec<ProblemFormula> {
    vec![
        ProblemFormula { name: "ax1".to_string(), role: FormulaRole::Axiom, source_name: None, formula: p_a() },
        ProblemFormula { name: "ax2".to_string(), role: FormulaRole::Axiom, source_name: None, formula: not_p_x() },
    ]
}

fn leaf(name: &str, cited: &str) -> ProofStep {
    ProofStep {
        name: name.to_string(),
        role: FormulaRole::Axiom,
        rule: None,
        status: None,
        source: Some(LeafSource { file: "problem.p".to_string(), name: cited.to_string() }),
        parents: Vec::new(),
        negated: Vec::new(),
    }
}

fn step(name: &str, rule: &str, status: &str, parents: &[&str]) -> ProofStep {
    ProofStep {
        name: name.to_string(),
        role: FormulaRole::Plain,
        rule: Some(rule.to_string()),
        status: Some(status.to_string()),
        source: None,
        parents: parents.iter().map(|p| p.to_string()).collect(),
        negated: Vec::new(),
    }
}

fn refutation(rule: &str, status: &str) -> (Vec<ProofStep>, Vec<Formula>) {
    (
        vec![leaf("c1", "ax1"), leaf("c2", "ax2"), step("c3", rule, status, &["c1", "c2"])],
        vec![p_a(), not_p_y(), Formula::False],
    )
}

fn run(steps: &Vec<ProofStep>, formulas: Vec<Formula>, source: Option<&str>) -> KernelVerdict {
    verify_proof(&problem(), steps, formulas, source, VerificationLimits::default()).0
}

#[test]
fn certifies_resolution_refutation() {
    let (steps, formulas) = refutation("resolution", "thm");
    let (verdict, telemetry) = verify_proof(&problem(), &steps, formulas, Some("problem.p"), VerificationLimits::default());
    assert_eq!(verdict, KernelVerdict::Certified);
    assert_eq!(telemetry.len(), 3);
    assert_eq!(telemetry[0].name, "c1");
    assert_eq!(telemetry[2].name, "c3");
    assert_eq!(telemetry[2].rule.as_deref(), Some("resolution"));
    assert_eq!(telemetry[2].parent_count, 2);
    assert_eq!(telemetry[2].clause_literals, 0);
    assert_eq!(telemetry[0].clause_literals, 1);
}

#[test]
fn unsupported_rule_is_never_certified() {
    let (steps, formulas) = refutation("magic_step", "thm");
    assert_eq!(
        run(&steps, formulas, None),
        KernelVerdict::Inconclusive("node `c3` uses unsupported strict rule `magic_step`".to_string())
    );
}

#[test]
fn rule_status_must_match() {
    let (steps, formulas) = refutation("resolution", "esa");
    assert_eq!(
        run(&steps, formulas, None),
        KernelVerdict::Rejected("node `c3` rule `resolution` must have status `thm`".to_string())
    );
}

#[test]
fn leaf_from_other_source_is_rejected() {
    let (steps, formulas) = refutation("resolution", "thm");
    assert_eq!(
        run(&steps, formulas, Some("other.p")),
        KernelVerdict::Rejected("leaf `c1` cites `problem.p` instead of proof source `other.p`".to_string())
    );
}

#[test]
fn leaf_citing_missing_formula_is_rejected() {
    let steps = vec![leaf("c1", "ax9"), leaf("c2", "ax2"), step("c3", "resolution", "thm", &["c1", "c2"])];
    let formulas = vec![p_a(), not_p_y(), Formula::False];
    assert_eq!(
        run(&steps, formulas, None),
        KernelVerdict::Rejected("leaf `c1` references missing problem formula `ax9`".to_string())
    );
}

#[test]
fn leaf_with_other_formula_is_rejected() {
    let steps = vec![leaf("c1", "ax2"), leaf("c2", "ax2"), step("c3", "resolution", "thm", &["c1", "c2"])];
    let formulas = vec![p_a(), not_p_y(), Formula::False];
    assert_eq!(
        run(&steps, formulas, None),
        KernelVerdict::Rejected("leaf `c1` does not match problem formula `ax2`".to_string())
    );
}

#[test]
fn anonymous_leaf_is_inconclusive() {
    let steps = vec![leaf("c1", "unknown"), leaf("c2", "ax2"), step("c3", "resolution", "thm", &["c1", "c2"])];
    let formulas = vec![p_a(), not_p_y(), Formula::False];
    assert_eq!(
        run(&steps, formulas, None),
        KernelVerdict::Inconclusive("leaf `c1` has anonymous provenance".to_string())
    );
}

#[test]
fn wrong_resolvent_is_rejected_with_node_name() {
    let steps = vec![
        leaf("c1", "ax1"),
        leaf("c2", "ax2"),
        step("c3", "resolution", "thm", &["c1", "c2"]),
        step("c4", "resolution", "thm", &["c3", "c2"]),
    ];
    let formulas = vec![p_a(), not_p_y(), p_a(), Formula::False];
    assert_eq!(
        run(&steps, formulas, None),
        KernelVerdict::Rejected("node c3: resolution conclusion is not a parent resolvent".to_string())
    );
}

#[test]
fn proof_without_false_root_is_rejected() {
    let steps = vec![leaf("c1", "ax1")];
    assert_eq!(
        run(&steps, vec![p_a()], None),
        KernelVerdict::Rejected("proof has no unparented `$false` root".to_string())
    );
}

#[test]
fn duplicate_step_name_is_rejected() {
    let steps = vec![leaf("c1", "ax1"), leaf("c1", "ax2")];
    assert_eq!(
        run(&steps, vec![p_a(), not_p_y()], None),
        KernelVerdict::Rejected("duplicate proof formula name `c1`".to_string())
    );
}

#[test]
fn unknown_parent_is_rejected() {
    let steps = vec![leaf("c1", "ax1"), step("c3", "resolution", "thm", &["c1", "c9"])];
    assert_eq!(
        run(&steps, vec![p_a(), Formula::False], None),
        KernelVerdict::Rejected("node `c3` references unknown parent `c9`".to_string())
    );
}

#[test]
fn parent_cycle_is_rejected() {
    let steps = vec![
        step("c1", "resolution", "thm", &["c2"]),
        step("c2", "resolution", "thm", &["c1"]),
        step("c3", "resolution", "thm", &["c1", "c2"]),
    ];
    assert_eq!(
        run(&steps, vec![p_a(), not_p_y(), Formula::False], None),
        KernelVerdict::Rejected("cycle in proof parent graph".to_string())
    );
}

#[test]
fn empty_and_oversized_proofs_are_inconclusive() {
    assert_eq!(
        run(&Vec::new(), Vec::new(), None),
        KernelVerdict::Inconclusive("proof contains no FOF/CNF nodes".to_string())
    );
    let (steps, formulas) = refutation("resolution", "thm");
    let mut limits = VerificationLimits::default();
    limits.max_nodes = 2;
    let (verdict, telemetry) = verify_proof(&problem(), &steps, formulas, None, limits);
    assert_eq!(verdict, KernelVerdict::Inconclusive("proof has 3 formulas, exceeding limit 2".to_string()));
    assert!(telemetry.is_empty());
}

#[test]
fn step_without_parents_or_source_is_inconclusive() {
    let steps = vec![
        leaf("c1", "ax1"),
        step("c2", "resolution", "thm", &[]),
        step("c3", "resolution", "thm", &["c1", "c2"]),
    ];
    assert_eq!(
        run(&steps, vec![p_a(), not_p_y(), Formula::False], None),
        KernelVerdict::Inconclusive("node `c2` has no provenance and no parents".to_string())
    );
}

#[test]
fn leaf_citing_the_conjecture_as_an_axiom_is_rejected() {
    let problem = vec![
        ProblemFormula { name: "g".to_string(), role: FormulaRole::Conjecture, source_name: None, formula: p_a() },
        ProblemFormula { name: "h".to_string(), role: FormulaRole::Axiom, source_name: None, formula: not_p_x() },
    ];
    let steps = vec![leaf("g", "g"), leaf("h", "h"), step("bot", "resolution", "thm", &["g", "h"])];
    let (verdict, _) = verify_proof(&problem, &steps, vec![p_a(), not_p_y(), Formula::False], None, VerificationLimits::default());
    assert_eq!(
        verdict,
        KernelVerdict::Rejected("leaf `g` role `axiom` is incompatible with problem role `g`".to_string())
    );
}

#[test]
fn leaf_may_cite_a_problem_formula_by_its_own_source_name() {
    let problem = vec![
        ProblemFormula { name: "a1".to_string(), role: FormulaRole::Axiom, source_name: Some("orig_a".to_string()), formula: p_a() },
        ProblemFormula { name: "a2".to_string(), role: FormulaRole::Axiom, source_name: None, formula: not_p_x() },
    ];
    let steps = vec![leaf("c1", "orig_a"), leaf("c2", "a2"), step("bot", "resolution", "thm", &["c1", "c2"])];
    let (verdict, _) = verify_proof(&problem, &steps, vec![p_a(), not_p_y(), Formula::False], None, VerificationLimits::default());
    assert_eq!(verdict, KernelVerdict::Certified);
}

#[test]
fn identity_steps_restate_their_parent_up_to_renaming() {
    let renamed = Formula::Forall(3, Box::new(p_of(Term::Var(3))));
    let original = Formula::Forall(0, Box::new(p_of(Term::Var(0))));
    assert_eq!(verify_alpha_identity(&[original], &renamed), KernelVerdict::Certified);
    let changed = Formula::Exists(3, Box::new(p_of(Term::Var(3))));
    let original = Formula::Forall(0, Box::new(p_of(Term::Var(0))));
    assert_eq!(
        verify_alpha_identity(&[original], &changed),
        KernelVerdict::Rejected("conclusion is not alpha-equivalent to parent".to_string())
    );
    assert_eq!(
        verify_alpha_identity(&[], &changed),
        KernelVerdict::Rejected("identity rule must have at least one parent".to_string())
    );
}

#[test]
fn copy_step_is_checked_in_a_proof() {
    let steps = vec![
        leaf("c1", "ax1"),
        leaf("c2", "ax2"),
        step("c3", "copy", "thm", &["c1"]),
        step("bot", "resolution", "thm", &["c3", "c2"]),
    ];
    let (verdict, _) = verify_proof(&problem(), &steps, vec![p_a(), not_p_y(), p_a(), Formula::False], None, VerificationLimits::default());
    assert_eq!(verdict, KernelVerdict::Certified);
}

#[test]
fn negated_parent_reference_stands_for_the_negation() {
    let problem = vec![
        ProblemFormula { name: "a".to_string(), role: FormulaRole::Axiom, source_name: None, formula: p_a() },
    ];
    let mut bot = step("bot", "resolution", "thm", &["c1", "c1b"]);
    bot.negated = vec![false, true];
    let steps = vec![leaf("c1", "a"), leaf("c1b", "a"), bot];
    let (verdict, _) = verify_proof(&problem, &steps, vec![p_a(), p_a(), Formula::False], None, VerificationLimits::default());
    assert_eq!(verdict, KernelVerdict::Certified);
}
