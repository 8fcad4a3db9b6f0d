use mrs_proof_kernel::dispatch::verify_clause_rule;
use mrs_proof_kernel::skolemisation::verify_skolemisation;
use mrs_proof_kernel::term::{Atom, Formula, Term};
use mrs_proof_kernel::verdict::{KernelVerdict, VerificationLimits};

const P: u32 = 1;
const SK: u32 = 40;
const SK2: u32 = 41;

fn p(a: Term, b: Term) -> Formula {
    Formula::Atom(Atom::Pred(P, vec![a, b]))
}

fn all(v: u32, f: Formula) -> Formula {
    Formula::Forall(v, Box::new(f))
}

fn ex(v: u32, f: Formula) -> Formula {
    Formula::Exists(v, Box::new(f))
}

fn parent() -> Formula {
    all(0, ex(1, p(Term::Var(0), Term::Var(1))))
}

fn sk(f: u32) -> Term {
    Term::App(f, vec![Term::Var(0)])
}

#[test]
fn skolemisation_replaces_the_existential_by_a_skolem_term() {
    let conclusion = all(0, p(Term::Var(0), sk(SK)));
    assert_eq!(verify_skolemisation("s", &parent(), &conclusion, &vec![SK]), KernelVerdict::Certified);
}

#[test]
fn skolemisation_rejects_a_term_outside_the_universal_scope() {
    let conclusion = all(0, p(Term::Var(0), Term::App(SK, Vec::new())));
    assert_eq!(
        verify_skolemisation("s", &parent(), &conclusion, &vec![SK]),
        KernelVerdict::Rejected("node `s` does not use exactly its fresh Skolem symbols".to_string())
    );
}

#[test]
fn skolemisation_must_use_every_fresh_symbol() {
    let conclusion = all(0, p(Term::Var(0), sk(SK)));
    assert_eq!(
        verify_skolemisation("s", &parent(), &conclusion, &vec![SK, SK2]),
        KernelVerdict::Rejected("node `s` does not use exactly its fresh Skolem symbols".to_string())
    );
}

#[test]
fn skolemisation_keeps_the_universal_prefix() {
    let conclusion = p(Term::Var(0), sk(SK));
    assert_eq!(
        verify_skolemisation("s", &parent(), &conclusion, &vec![SK]),
        KernelVerdict::Rejected("node `s` is not an exact Skolemization of its parent".to_string())
    );
}

#[test]
fn skolemisation_without_an_existential_is_inconclusive() {
    let parent = all(0, p(Term::Var(0), Term::Var(0)));
    let conclusion = all(0, p(Term::Var(0), sk(SK)));
    assert_eq!(
        verify_skolemisation("s", &parent, &conclusion, &vec![SK]),
        KernelVerdict::Inconclusive("Skolemization introduced symbols without an existential parent".to_string())
    );
}

#[test]
fn skolemisation_is_dispatched_with_fresh_symbols_from_the_known_ones() {
    let conclusion = all(0, p(Term::Var(0), sk(SK)));
    let limits = VerificationLimits::default();
    assert_eq!(
        verify_clause_rule("skolemisation", "s", &[parent()], &conclusion, limits, &vec![], &vec![], &vec![]),
        Some(KernelVerdict::Certified)
    );
    // A symbol the proof already knows is not fresh, so nothing may replace the existential.
    assert_eq!(
        verify_clause_rule("skolemisation", "s", &[parent()], &conclusion, limits, &vec![], &vec![], &vec![SK]),
        Some(KernelVerdict::Rejected("conclusion is not alpha-equivalent to parent".to_string()))
    );
}
