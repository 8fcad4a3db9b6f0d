use mrs_proof_kernel::instance::{max_var_clause, shift_clause, unify_atoms, unify_term_pair};
use mrs_proof_kernel::measure::{formula_size, term_size};
use mrs_proof_kernel::rewrite::{replace_atom_side, replace_term_at, rewrite_term, term_at_position};
use mrs_proof_kernel::skolem::{validate_skolem_annotation, SkolemAnnotation, SkolemMatch};
use mrs_proof_kernel::subst::{apply_substitution_term, match_pattern, term_eq, Subst};
use mrs_proof_kernel::term::{Atom, Formula, Literal, Term};
use mrs_proof_kernel::verdict::{KernelVerdict, VerificationLimits};

const F: u32 = 20;
const G: u32 = 21;
const A: u32 = 10;
const B: u32 = 11;
const P: u32 = 1;

fn var(v: u32) -> Term {
    Term::Var(v)
}

fn cst(c: u32) -> Term {
    Term::App(c, Vec::new())
}

fn app(f: u32, args: Vec<Term>) -> Term {
    Term::App(f, args)
}

#[test]
fn unification_makes_both_sides_equal() {
    let left = app(F, vec![var(0), cst(B)]);
    let right = app(F, vec![cst(A), var(1)]);
    let s = unify_term_pair(&left, &right).expect("unifiable");
    let l = apply_substitution_term(&left, &s);
    let r = apply_substitution_term(&right, &s);
    assert!(term_eq(&l, &r));
    assert!(term_eq(&l, &app(F, vec![cst(A), cst(B)])));
    assert!(unify_term_pair(&var(0), &app(F, vec![var(0)])).is_none());
    assert!(unify_term_pair(&cst(A), &cst(B)).is_none());
}

#[test]
fn unify_atoms_flips_equations() {
    let left = Atom::Eq(var(0), cst(A));
    let right = Atom::Eq(cst(A), cst(B));
    let s = unify_atoms(&left, &right).expect("flipped unifier");
    assert!(term_eq(&apply_substitution_term(&var(0), &s), &cst(B)));
    assert!(unify_atoms(&Atom::Pred(P, vec![cst(A)]), &Atom::Pred(P, vec![cst(B)])).is_none());
}

#[test]
fn matching_binds_pattern_variables_only() {
    let mut s = Subst::new();
    assert!(match_pattern(&app(F, vec![var(0), var(0)]), &app(F, vec![cst(A), cst(A)]), &mut s));
    assert!(term_eq(&apply_substitution_term(&var(0), &s), &cst(A)));
    let mut s = Subst::new();
    assert!(!match_pattern(&app(F, vec![var(0), var(0)]), &app(F, vec![cst(A), cst(B)]), &mut s));
    let mut s = Subst::new();
    assert!(!match_pattern(&cst(A), &var(3), &mut s));
}

#[test]
fn positions_address_subterms() {
    let t = app(F, vec![cst(A), app(G, vec![var(3), cst(B)])]);
    assert!(term_eq(term_at_position(&t, &[1, 1]).expect("present"), &cst(B)));
    assert!(term_eq(term_at_position(&t, &[]).expect("root"), &t));
    assert!(term_at_position(&t, &[2]).is_none());
    assert!(term_at_position(&t, &[1, 0, 0]).is_none());
    let replaced = replace_term_at(&t, &[1, 0], cst(A));
    assert!(term_eq(&replaced, &app(F, vec![cst(A), app(G, vec![cst(A), cst(B)])])));
    let unchanged = replace_term_at(&t, &[5], cst(A));
    assert!(term_eq(&unchanged, &t));
}

#[test]
fn replace_atom_side_replaces_one_argument() {
    let atom = Atom::Eq(cst(A), cst(B));
    assert!(matches!(replace_atom_side(&atom, 0, var(1)), Atom::Eq(Term::Var(1), Term::App(b, _)) if b == B));
    assert!(matches!(replace_atom_side(&atom, 1, var(1)), Atom::Eq(Term::App(a, _), Term::Var(1)) if a == A));
    let pred = Atom::Pred(P, vec![cst(A), cst(B)]);
    match replace_atom_side(&pred, 1, var(2)) {
        Atom::Pred(p, args) => {
            assert_eq!(p, P);
            assert!(term_eq(&args[0], &cst(A)));
            assert!(term_eq(&args[1], &var(2)));
        },
        _ => panic!("predicate expected"),
    }
}

#[test]
fn rewrite_term_rewrites_the_first_redex() {
    let rules = vec![(app(F, vec![var(0)]), var(0))];
    let t = app(G, vec![app(F, vec![cst(A)]), app(F, vec![cst(B)])]);
    let mut steps = 0usize;
    let r = rewrite_term(&t, &rules, &mut steps, 10).expect("a redex");
    assert_eq!(steps, 1);
    assert!(term_eq(&r, &app(G, vec![cst(A), app(F, vec![cst(B)])])));
    let mut steps = 10usize;
    assert!(rewrite_term(&t, &rules, &mut steps, 10).is_none());
    assert_eq!(steps, 10);
    let mut steps = 0usize;
    assert!(rewrite_term(&cst(A), &rules, &mut steps, 10).is_none());
}

#[test]
fn clauses_are_renamed_apart_by_shifting() {
    let mut clause = vec![
        Literal { positive: true, atom: Atom::Pred(P, vec![var(2), app(F, vec![var(5)])]) },
        Literal { positive: false, atom: Atom::Eq(var(1), cst(A)) },
    ];
    assert_eq!(max_var_clause(&clause), 5);
    shift_clause(&mut clause, 10);
    assert_eq!(max_var_clause(&clause), 15);
    assert!(matches!(&clause[1].atom, Atom::Eq(Term::Var(11), _)));
    let mut top = vec![Literal { positive: true, atom: Atom::Pred(P, vec![var(u32::MAX - 1)]) }];
    shift_clause(&mut top, 5);
    assert_eq!(max_var_clause(&top), u32::MAX);
    assert_eq!(max_var_clause(&vec![]), 0);
}

#[test]
fn sizes_count_nodes() {
    let t = app(F, vec![var(0), app(G, vec![cst(A)])]);
    assert_eq!(term_size(&t), 4);
    let f = Formula::Forall(0, Box::new(Formula::Or(vec![
        Formula::Atom(Atom::Pred(P, vec![t])),
        Formula::Neg(Box::new(Formula::Atom(Atom::Eq(cst(A), cst(B))))),
    ])));
    assert_eq!(formula_size(&f), 1 + 1 + 5 + 1 + 3);
    assert_eq!(formula_size(&Formula::True), 1);
}

#[test]
fn skolem_match_budget_and_annotation() {
    let mut state = SkolemMatch::new(vec!["sk0".to_string()], 2);
    assert!(state.charge());
    assert!(state.charge());
    assert!(!state.charge());
    assert!(state.exhausted);
    let annotation = SkolemAnnotation {
        variable: "X".to_string(),
        symbol: "sk0".to_string(),
        arguments: vec!["Y".to_string()],
    };
    assert!(!validate_skolem_annotation(&annotation, &state));
    state.existential_witnesses.push(("X".to_string(), ("sk0".to_string(), vec!["Y0".to_string()])));
    state.universal_history.push(("Y".to_string(), "Y0".to_string()));
    assert!(validate_skolem_annotation(&annotation, &state));
    let other = SkolemAnnotation { variable: "X".to_string(), symbol: "sk1".to_string(), arguments: vec!["Y".to_string()] };
    assert!(!validate_skolem_annotation(&other, &state));
}

#[test]
fn verdicts_render_and_limits_default() {
    assert_eq!(KernelVerdict::Certified.to_display_string(), "Certified");
    assert_eq!(KernelVerdict::Rejected("bad".to_string()).to_display_string(), "Rejected: bad");
    assert_eq!(KernelVerdict::Inconclusive("open".to_string()).to_display_string(), "Inconclusive: open");
    let limits = VerificationLimits::default();
    assert_eq!(limits.max_nodes, 100_000);
    assert_eq!(limits.max_clause_literals, 10_000);
    assert_eq!(limits.max_term_depth, 256);
    assert_eq!(limits.max_rewrite_steps, 64);
    assert_eq!(limits.max_avatar_steps, 100_000);
}
