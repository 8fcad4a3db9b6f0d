use mrs_proof_kernel::ac::{classify_ac_axiom, AcAxiomKind};
use mrs_proof_kernel::alpha::clause_alpha_equiv;
use mrs_proof_kernel::clause::{clause_from_formula, condense_clause};
use mrs_proof_kernel::demodulation::verify_demodulation;
use mrs_proof_kernel::factoring::{verify_equality_factoring, verify_factoring};
use mrs_proof_kernel::inference::{
    verify_consequence, verify_equality_resolution, verify_ex_falso, verify_reflexivity,
    verify_resolution, verify_transitivity,
};
use mrs_proof_kernel::simplify::{verify_condensation, verify_subsumption_resolution};
use mrs_proof_kernel::term::{Atom, Formula, Literal, Term};
use mrs_proof_kernel::verdict::{KernelVerdict, VerificationLimits};

const P: u32 = 1;
const Q: u32 = 2;
const A: u32 = 10;
const B: u32 = 11;
const C: u32 = 12;
const F: u32 = 20;

fn var(v: u32) -> Term {
    Term::Var(v)
}

fn cst(c: u32) -> Term {
    Term::App(c, Vec::new())
}

fn app(f: u32, args: Vec<Term>) -> Term {
    Term::App(f, args)
}

fn pred(p: u32, args: Vec<Term>) -> Formula {
    Formula::Atom(Atom::Pred(p, args))
}

fn eq(l: Term, r: Term) -> Formula {
    Formula::Atom(Atom::Eq(l, r))
}

fn not(f: Formula) -> Formula {
    Formula::Neg(Box::new(f))
}

fn or(parts: Vec<Formula>) -> Formula {
    Formula::Or(parts)
}

fn lit(positive: bool, p: u32, args: Vec<Term>) -> Literal {
    Literal { positive, atom: Atom::Pred(p, args) }
}

fn limits() -> VerificationLimits {
    VerificationLimits::default()
}

fn rejected(reason: &str) -> KernelVerdict {
    KernelVerdict::Rejected(reason.to_string())
}

fn inconclusive(reason: &str) -> KernelVerdict {
    KernelVerdict::Inconclusive(reason.to_string())
}

#[test]
fn classifies_commutativity_axiom() {
    let f = F;
    let left = app(f, vec![var(0), var(1)]);
    let right = app(f, vec![var(1), var(0)]);
    let (Term::App(left_symbol, left_args), Term::App(right_symbol, right_args)) = (&left, &right) else {
        panic!("not apps")
    };
    assert_eq!(left_symbol, right_symbol);
    assert_eq!(left_args.len(), 2);
    assert_eq!(right_args.len(), 2);
    let (Term::Var(x), Term::Var(y)) = (&left_args[0], &left_args[1]) else {
        panic!("left vars")
    };
    let (Term::Var(y2), Term::Var(x2)) = (&right_args[0], &right_args[1]) else {
        panic!("right vars")
    };
    assert_ne!(x, y);
    assert_eq!(x, x2);
    assert_eq!(y, y2);
    assert!(matches!(
        classify_ac_axiom(&left, &right),
        Some((symbol, AcAxiomKind::Commutative)) if symbol == f
    ));

    let assoc_left = app(f, vec![app(f, vec![var(0), var(1)]), var(2)]);
    let assoc_right = app(f, vec![var(0), app(f, vec![var(1), var(2)])]);
    assert!(matches!(
        classify_ac_axiom(&assoc_left, &assoc_right),
        Some((symbol, AcAxiomKind::Associative)) if symbol == f
    ));
}

#[test]
fn classify_ac_axiom_reads_associativity_in_both_directions() {
    let assoc_left = app(F, vec![app(F, vec![var(0), var(1)]), var(2)]);
    let assoc_right = app(F, vec![var(0), app(F, vec![var(1), var(2)])]);
    assert_eq!(classify_ac_axiom(&assoc_right, &assoc_left), Some((F, AcAxiomKind::Associative)));
}

#[test]
fn classify_ac_axiom_rejects_other_shapes() {
    let same = app(F, vec![var(0), var(1)]);
    assert_eq!(classify_ac_axiom(&same, &app(F, vec![var(0), var(1)])), None);
    assert_eq!(classify_ac_axiom(&app(F, vec![var(0), var(0)]), &app(F, vec![var(0), var(0)])), None);
    assert_eq!(classify_ac_axiom(&app(F, vec![var(0), var(1)]), &app(Q, vec![var(1), var(0)])), None);
    assert_eq!(classify_ac_axiom(&var(0), &var(1)), None);
    let bad_assoc_left = app(F, vec![app(F, vec![var(0), var(1)]), var(1)]);
    let bad_assoc_right = app(F, vec![var(0), app(F, vec![var(1), var(1)])]);
    assert_eq!(classify_ac_axiom(&bad_assoc_left, &bad_assoc_right), None);
}

#[test]
fn clause_from_formula_reads_universal_disjunctions() {
    let f = Formula::Forall(0, Box::new(or(vec![pred(P, vec![var(0)]), not(pred(Q, vec![var(0)])), Formula::False])));
    let clause = clause_from_formula(&f, limits()).expect("a clause");
    assert_eq!(clause.len(), 2);
    assert!(clause[0].positive);
    assert!(!clause[1].positive);
    assert!(clause_from_formula(&Formula::And(vec![pred(P, vec![])]), limits()).is_none());
    assert!(clause_from_formula(&not(not(pred(P, vec![]))), limits()).is_none());
    let small = VerificationLimits { max_clause_literals: 1, ..limits() };
    assert!(clause_from_formula(&f, small).is_none());
    assert_eq!(clause_from_formula(&Formula::False, limits()).map(|c| c.len()), Some(0));
}

#[test]
fn condense_clause_keeps_first_of_repeated_literals() {
    let clause = vec![
        lit(true, P, vec![var(0)]),
        lit(false, Q, vec![]),
        lit(true, P, vec![var(0)]),
        lit(true, P, vec![var(1)]),
    ];
    let condensed = condense_clause(&clause);
    assert_eq!(condensed.len(), 3);
    assert!(condensed[0].positive && !condensed[1].positive);
}

#[test]
fn clause_alpha_equiv_allows_renaming_and_reordering() {
    let left = vec![lit(true, P, vec![var(0), var(1)]), lit(false, Q, vec![var(1)])];
    let right = vec![lit(false, Q, vec![var(7)]), lit(true, P, vec![var(3), var(7)])];
    assert!(clause_alpha_equiv(&left, &right));
    let same = vec![lit(true, P, vec![var(0), var(0)])];
    let distinct = vec![lit(true, P, vec![var(1), var(2)])];
    assert!(!clause_alpha_equiv(&same, &distinct));
    assert!(!clause_alpha_equiv(&distinct, &same));
    let flipped_left = vec![Literal { positive: true, atom: Atom::Eq(var(0), app(F, vec![var(1)])) }];
    let flipped_right = vec![Literal { positive: true, atom: Atom::Eq(app(F, vec![var(5)]), var(4)) }];
    assert!(clause_alpha_equiv(&flipped_left, &flipped_right));
    assert!(!clause_alpha_equiv(&left, &vec![lit(true, P, vec![var(0), var(1)])]));
}

#[test]
fn resolution_of_complementary_units_gives_false() {
    let parents = vec![pred(P, vec![cst(A)]), not(pred(P, vec![cst(A)]))];
    assert_eq!(verify_resolution(&parents, &Formula::False, limits()), KernelVerdict::Certified);
}

#[test]
fn resolution_unifies_across_parents() {
    let left = Formula::Forall(0, Box::new(or(vec![pred(P, vec![var(0)]), pred(Q, vec![var(0)])])));
    let right = not(pred(P, vec![cst(A)]));
    let parents = vec![left, right];
    assert_eq!(verify_resolution(&parents, &pred(Q, vec![cst(A)]), limits()), KernelVerdict::Certified);
    assert_eq!(
        verify_resolution(&parents, &pred(Q, vec![cst(B)]), limits()),
        rejected("resolution conclusion is not a parent resolvent")
    );
}

#[test]
fn resolution_checks_its_inputs() {
    let one = vec![pred(P, vec![])];
    assert_eq!(verify_resolution(&one, &Formula::False, limits()), rejected("resolution rule must have two parents"));
    let bad_parent = vec![Formula::And(vec![]), pred(P, vec![])];
    assert_eq!(
        verify_resolution(&bad_parent, &Formula::False, limits()),
        inconclusive("resolution parent is not a supported clause")
    );
    let parents = vec![pred(P, vec![]), not(pred(P, vec![]))];
    assert_eq!(
        verify_resolution(&parents, &Formula::True, limits()),
        inconclusive("resolution conclusion is not a supported clause")
    );
    let empty_parent = vec![Formula::False, pred(Q, vec![])];
    assert_eq!(verify_resolution(&empty_parent, &Formula::False, limits()), KernelVerdict::Certified);
}

#[test]
fn resolution_compares_modulo_repeated_literals() {
    let left = or(vec![pred(P, vec![]), pred(Q, vec![])]);
    let right = or(vec![not(pred(P, vec![])), pred(Q, vec![])]);
    let parents = vec![left, right];
    assert_eq!(verify_resolution(&parents, &pred(Q, vec![]), limits()), KernelVerdict::Certified);
    assert_eq!(
        verify_resolution(&parents, &or(vec![pred(Q, vec![]), pred(Q, vec![])]), limits()),
        KernelVerdict::Certified
    );
}

#[test]
fn resolution_reads_equations_in_either_direction() {
    let parents = vec![eq(cst(A), cst(B)), not(eq(cst(B), cst(A)))];
    assert_eq!(verify_resolution(&parents, &Formula::False, limits()), KernelVerdict::Certified);
}

#[test]
fn consequence_resolves_some_pair() {
    let parents = vec![pred(P, vec![cst(A)]), not(pred(P, vec![cst(A)])), pred(Q, vec![cst(A)])];
    assert_eq!(verify_consequence(&parents, &Formula::False, limits()), KernelVerdict::Certified);
    let unrelated = vec![pred(P, vec![cst(A)]), pred(P, vec![cst(B)]), pred(Q, vec![cst(A)])];
    assert_eq!(
        verify_consequence(&unrelated, &Formula::False, limits()),
        rejected("consequence conclusion is not justified by parents")
    );
}

#[test]
fn consequence_pair_search_respects_the_step_limit() {
    let parents = vec![
        pred(P, vec![cst(A)]),
        pred(P, vec![cst(B)]),
        pred(Q, vec![cst(A)]),
        pred(Q, vec![cst(B)]),
    ];
    let tight = VerificationLimits { max_equivalence_steps: 2, ..limits() };
    assert_eq!(
        verify_consequence(&parents, &Formula::False, tight),
        inconclusive("consequence exceeded strict matching-step limit")
    );
}

#[test]
fn consequence_accepts_an_empty_parent_and_needs_a_parent() {
    assert_eq!(verify_consequence(&[Formula::False], &Formula::False, limits()), KernelVerdict::Certified);
    assert_eq!(
        verify_consequence(&[], &Formula::False, limits()),
        rejected("consequence must have at least one parent")
    );
    assert_eq!(
        verify_consequence(&[pred(P, vec![])], &Formula::False, limits()),
        rejected("consequence conclusion is not justified by parents")
    );
}

#[test]
fn ex_falso_from_false_or_a_contradiction() {
    assert_eq!(verify_ex_falso(&[Formula::False], limits()), KernelVerdict::Certified);
    let pair = vec![pred(P, vec![]), not(pred(P, vec![]))];
    assert_eq!(verify_ex_falso(&pair, limits()), KernelVerdict::Certified);
    assert_eq!(
        verify_ex_falso(&[pred(P, vec![])], limits()),
        rejected("ex_falso must have one `$false` parent or two contradiction parents")
    );
    let tiny = VerificationLimits { max_formula_nodes: 1, ..limits() };
    assert_eq!(verify_ex_falso(&pair, tiny), inconclusive("ex_falso exceeded strict formula-size limit"));
    let consistent = vec![pred(P, vec![]), pred(Q, vec![])];
    assert_eq!(verify_ex_falso(&consistent, limits()), rejected("resolution conclusion is not a parent resolvent"));
}

#[test]
fn reflexivity_needs_identical_sides() {
    let parent = vec![pred(P, vec![])];
    assert_eq!(verify_reflexivity(&parent, &eq(cst(A), cst(A))), KernelVerdict::Certified);
    assert_eq!(verify_reflexivity(&parent, &eq(cst(A), cst(B))), rejected("reflexivity conclusion is not t = t"));
    assert_eq!(verify_reflexivity(&[], &eq(cst(A), cst(A))), rejected("reflexivity must have one parent"));
}

#[test]
fn transitivity_chains_ground_equations() {
    let parents = vec![eq(cst(A), cst(B)), eq(cst(B), cst(C))];
    assert_eq!(verify_transitivity(&parents, &eq(cst(A), cst(C)), limits()), KernelVerdict::Certified);
    assert_eq!(verify_transitivity(&parents, &eq(cst(C), cst(A)), limits()), KernelVerdict::Certified);
    let reversed = vec![eq(cst(B), cst(A)), eq(cst(C), cst(B))];
    assert_eq!(verify_transitivity(&reversed, &eq(cst(A), cst(C)), limits()), KernelVerdict::Certified);
    let broken = vec![eq(cst(A), cst(B)), eq(cst(C), cst(C))];
    assert_eq!(
        verify_transitivity(&broken, &eq(cst(A), cst(C)), limits()),
        rejected("transitivity conclusion is not a parent equality chain")
    );
    let open = vec![eq(var(0), cst(B)), eq(cst(B), cst(C))];
    assert_eq!(
        verify_transitivity(&open, &eq(var(0), cst(C)), limits()),
        inconclusive("transitivity strict fragment requires ground equalities")
    );
    let not_eq = vec![pred(P, vec![]), eq(cst(B), cst(C))];
    assert_eq!(
        verify_transitivity(&not_eq, &eq(cst(A), cst(C)), limits()),
        rejected("transitivity parent is not a positive equality")
    );
}

#[test]
fn equality_resolution_removes_a_unifiable_disequation() {
    let parent = or(vec![not(eq(var(0), cst(A))), pred(P, vec![var(0)])]);
    assert_eq!(
        verify_equality_resolution(&[parent], &pred(P, vec![cst(A)]), limits()),
        KernelVerdict::Certified
    );
    let stuck = or(vec![not(eq(cst(B), cst(A))), pred(P, vec![var(0)])]);
    assert_eq!(
        verify_equality_resolution(&[stuck], &pred(P, vec![var(0)]), limits()),
        rejected("equality_resolution conclusion is not a valid equality resolvent")
    );
}

#[test]
fn factoring_merges_unifiable_literals() {
    let parent = or(vec![pred(P, vec![var(0)]), pred(P, vec![cst(A)]), pred(Q, vec![var(0)])]);
    let goal = or(vec![pred(P, vec![cst(A)]), pred(Q, vec![cst(A)])]);
    assert_eq!(verify_factoring(&[parent], &goal, limits()), KernelVerdict::Certified);
    let unrelated = or(vec![pred(P, vec![cst(A)]), pred(P, vec![cst(B)])]);
    assert_eq!(
        verify_factoring(&[unrelated], &pred(P, vec![cst(A)]), limits()),
        rejected("factoring conclusion is not a valid factor")
    );
    assert_eq!(verify_factoring(&[], &Formula::False, limits()), rejected("factoring rule must have one parent"));
}

#[test]
fn equality_factoring_adds_the_side_disequation() {
    let parent = or(vec![eq(cst(A), cst(B)), eq(cst(A), cst(C))]);
    let goal = or(vec![eq(cst(A), cst(B)), not(eq(cst(B), cst(C)))]);
    assert_eq!(verify_equality_factoring(&[parent], &goal, limits()), KernelVerdict::Certified);
    let parent = or(vec![eq(cst(A), cst(B)), eq(cst(C), cst(C))]);
    assert_eq!(
        verify_equality_factoring(&[parent], &goal, limits()),
        rejected("equality_factoring conclusion is not a valid factor")
    );
}

#[test]
fn condensation_merges_an_instance() {
    let parent = or(vec![pred(P, vec![var(0)]), pred(P, vec![cst(A)])]);
    assert_eq!(verify_condensation(&[parent], &pred(P, vec![cst(A)]), limits()), KernelVerdict::Certified);
    let same_size = || or(vec![pred(P, vec![var(0)]), pred(P, vec![cst(A)])]);
    assert_eq!(
        verify_condensation(&[same_size()], &same_size(), limits()),
        rejected("condensation must remove at least one literal")
    );
}

#[test]
fn subsumption_resolution_removes_the_resolved_literal() {
    let target = or(vec![pred(P, vec![cst(A)]), pred(Q, vec![cst(A)])]);
    let active = not(pred(P, vec![var(0)]));
    let parents = vec![target, active];
    assert_eq!(verify_subsumption_resolution(&parents, &pred(Q, vec![cst(A)]), limits()), KernelVerdict::Certified);
    assert_eq!(
        verify_subsumption_resolution(&parents, &pred(P, vec![cst(A)]), limits()),
        rejected("subsumption_resolution conclusion is not the target with a justified literal removed")
    );
    assert_eq!(
        verify_subsumption_resolution(&parents, &or(vec![pred(P, vec![cst(A)]), pred(Q, vec![cst(A)])]), limits()),
        KernelVerdict::Certified
    );
}

#[test]
fn demodulation_rewrites_with_an_oriented_equation() {
    let target = pred(P, vec![app(F, vec![cst(A)])]);
    let equation = eq(app(F, vec![var(0)]), cst(B));
    let parents = vec![target, equation];
    assert_eq!(verify_demodulation(&parents, &pred(P, vec![cst(B)]), limits()), KernelVerdict::Certified);
    assert_eq!(
        verify_demodulation(&parents, &pred(P, vec![cst(C)]), limits()),
        inconclusive("demodulation replay could not reach the conclusion within the implemented search")
    );
}

#[test]
fn demodulation_checks_its_equality_parents() {
    let target = pred(P, vec![cst(A)]);
    let no_equation = vec![pred(P, vec![cst(A)]), pred(Q, vec![])];
    assert_eq!(
        verify_demodulation(&no_equation, &target, limits()),
        rejected("demodulation parents must contain a positive equality")
    );
    let two = vec![pred(P, vec![cst(A)]), or(vec![eq(cst(A), cst(B)), eq(cst(B), cst(C))])];
    assert_eq!(
        verify_demodulation(&two, &target, limits()),
        rejected("demodulation parents must contain at most one positive equality")
    );
    let condition = vec![pred(P, vec![cst(A)]), or(vec![eq(cst(A), cst(B)), pred(Q, vec![var(0)])])];
    assert_eq!(
        verify_demodulation(&condition, &pred(P, vec![cst(B)]), limits()),
        rejected("demodulation condition literal not satisfied in target or conclusion")
    );
    assert_eq!(
        verify_demodulation(&[target], &pred(P, vec![cst(A)]), limits()),
        rejected("demodulation requires a target and at least one equality parent")
    );
    let trivial = vec![pred(P, vec![cst(A)]), eq(cst(A), cst(A))];
    assert_eq!(
        verify_demodulation(&trivial, &pred(P, vec![cst(A)]), limits()),
        rejected("demodulation has no non-trivial rewrite rule")
    );
}

#[test]
fn demodulation_step_limit_is_inconclusive() {
    let target = pred(P, vec![app(F, vec![cst(A)])]);
    let equation = eq(app(F, vec![var(0)]), cst(B));
    let parents = vec![target, equation];
    let none = VerificationLimits { max_rewrite_steps: 0, ..limits() };
    assert_eq!(
        verify_demodulation(&parents, &pred(P, vec![cst(B)]), none),
        inconclusive("demodulation exceeded strict rewrite-step limit")
    );
}

#[test]
fn equality_resolution_with_identical_sides_is_certified() {
    let parent = or(vec![not(eq(cst(A), cst(A))), pred(P, vec![cst(B)])]);
    let conclusion = pred(P, vec![cst(B)]);
    assert_eq!(verify_equality_resolution(&[parent], &conclusion, limits()), KernelVerdict::Certified);
}

#[test]
fn ground_resolution_is_certified() {
    let left = or(vec![pred(P, vec![cst(A)]), pred(Q, vec![cst(B)])]);
    let right = not(pred(P, vec![cst(A)]));
    let conclusion = pred(Q, vec![cst(B)]);
    assert_eq!(verify_resolution(&[left, right], &conclusion, limits()), KernelVerdict::Certified);
}

#[test]
fn factoring_identical_literals_is_certified() {
    let parent = or(vec![pred(P, vec![cst(A)]), pred(P, vec![cst(A)]), pred(Q, vec![cst(B)])]);
    let conclusion = or(vec![pred(P, vec![cst(A)]), pred(Q, vec![cst(B)])]);
    assert_eq!(verify_factoring(&[parent], &conclusion, limits()), KernelVerdict::Certified);
}

#[test]
fn equality_factoring_with_identical_sides_is_certified() {
    let parent = or(vec![eq(cst(A), cst(B)), eq(cst(A), cst(C))]);
    let conclusion = or(vec![eq(cst(A), cst(B)), not(eq(cst(B), cst(C)))]);
    assert_eq!(verify_equality_factoring(&[parent], &conclusion, limits()), KernelVerdict::Certified);
}
