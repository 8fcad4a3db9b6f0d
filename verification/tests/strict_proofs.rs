use mrs_proof_kernel::refutation::{verify_proof, FormulaRole, LeafSource, ProblemFormula, ProofStep};
use mrs_proof_kernel::term::{Atom, Formula, Term};
use mrs_proof_kernel::verdict::{KernelVerdict, VerificationLimits};

const P: u32 = 1;
const Q: u32 = 2;
const R: u32 = 3;
const A: u32 = 10;
const B: u32 = 11;

fn atom(p: u32, args: Vec<Term>) -> Formula {
    Formula::Atom(Atom::Pred(p, args))
}

fn of(p: u32, c: u32) -> Formula {
    atom(p, vec![Term::App(c, Vec::new())])
}

fn prop(p: u32) -> Formula {
    atom(p, Vec::new())
}

fn not(f: Formula) -> Formula {
    Formula::Neg(Box::new(f))
}

fn or(parts: Vec<Formula>) -> Formula {
    Formula::Or(parts)
}

/// A proof line: name, formula, and either the problem formula it cites
/// (`Err`) or its rule and parents (`Ok`).
type Line = (&'static str, Formula, Result<(&'static str, Vec<&'static str>), &'static str>);

fn check(problem: Vec<(&str, Formula)>, proof: Vec<Line>) -> KernelVerdict {
    let problem: Vec<ProblemFormula> = problem
        .into_iter()
        .map(|(name, formula)| ProblemFormula { name: name.to_string(), role: FormulaRole::Axiom, source_name: None, formula })
        .collect();
    let mut steps = Vec::new();
    let mut formulas = Vec::new();
    for (name, formula, how) in proof {
        let step = match how {
            Err(cited) => ProofStep {
                name: name.to_string(),
                role: FormulaRole::Axiom,
                rule: None,
                status: None,
                source: Some(LeafSource { file: "problem.p".to_string(), name: cited.to_string() }),
                parents: Vec::new(),
                negated: Vec::new(),
            },
            Ok((rule, parents)) => ProofStep {
                name: name.to_string(),
                role: FormulaRole::Plain,
                rule: Some(rule.to_string()),
                status: Some("thm".to_string()),
                source: None,
                parents: parents.iter().map(|p| p.to_string()).collect(),
                negated: Vec::new(),
            },
        };
        steps.push(step);
        formulas.push(formula);
    }
    verify_proof(&problem, &steps, formulas, None, VerificationLimits::default()).0
}

#[test]
fn certifies_direct_resolution() {
    let problem = vec![("a", of(P, A)), ("b", not(of(P, A)))];
    let proof: Vec<Line> = vec![
        ("a", of(P, A), Err("a")),
        ("b", not(of(P, A)), Err("b")),
        ("s", Formula::False, Ok(("resolution", vec!["a", "b"]))),
    ];
    assert_eq!(check(problem, proof), KernelVerdict::Certified);
}

#[test]
fn rejects_forged_resolution_conclusion() {
    let problem = vec![("a", of(P, A)), ("b", not(of(P, A)))];
    let proof: Vec<Line> = vec![
        ("a", of(P, A), Err("a")),
        ("b", not(of(P, A)), Err("b")),
        ("s", of(Q, A), Ok(("resolution", vec!["a", "b"]))),
    ];
    assert!(matches!(check(problem, proof), KernelVerdict::Rejected(_)));
}

#[test]
fn rejects_anonymous_leaf_provenance() {
    let problem = vec![("a", of(P, A))];
    let proof: Vec<Line> = vec![
        ("a", of(P, A), Err("unknown")),
        ("s", Formula::False, Ok(("consequence", vec!["a"]))),
    ];
    assert!(matches!(check(problem, proof), KernelVerdict::Inconclusive(_)));
}

#[test]
fn rejects_unrelated_dangling_node() {
    let problem = vec![("a", of(P, A)), ("b", not(of(P, A)))];
    let proof: Vec<Line> = vec![
        ("a", of(P, A), Err("a")),
        ("b", not(of(P, A)), Err("b")),
        ("s", Formula::False, Ok(("resolution", vec!["a", "b"]))),
        ("d", of(Q, A), Err("a")),
    ];
    assert!(matches!(check(problem, proof), KernelVerdict::Rejected(_)));
}

#[test]
fn certifies_resolution_with_duplicate_condensation() {
    let c1 = || or(vec![not(prop(R)), prop(Q)]);
    let c2 = || or(vec![prop(Q), prop(P), prop(R)]);
    let problem = vec![("c1", c1()), ("c2", c2()), ("c3", not(prop(Q))), ("c4", not(prop(P)))];
    let proof: Vec<Line> = vec![
        ("c1", c1(), Err("c1")),
        ("c2", c2(), Err("c2")),
        ("c3", not(prop(Q)), Err("c3")),
        ("c4", not(prop(P)), Err("c4")),
        ("c5", or(vec![prop(Q), prop(P)]), Ok(("resolution", vec!["c1", "c2"]))),
        ("c6", prop(P), Ok(("resolution", vec!["c5", "c3"]))),
        ("bot", Formula::False, Ok(("resolution", vec!["c6", "c4"]))),
    ];
    assert_eq!(check(problem, proof), KernelVerdict::Certified);
}

#[test]
fn certifies_consequence_as_resolution_alias() {
    let problem = vec![("p", of(P, A)), ("np", not(of(P, A)))];
    let proof: Vec<Line> = vec![
        ("p", of(P, A), Err("p")),
        ("np", not(of(P, A)), Err("np")),
        ("bot", Formula::False, Ok(("consequence", vec!["p", "np"]))),
    ];
    assert_eq!(check(problem, proof), KernelVerdict::Certified);
}

#[test]
fn rejects_consequence_with_forged_non_resolution_step() {
    let problem = vec![("p", of(P, A)), ("q", of(Q, A))];
    let proof: Vec<Line> = vec![
        ("p", of(P, A), Err("p")),
        ("q", of(Q, A), Err("q")),
        ("bot", Formula::False, Ok(("consequence", vec!["p", "q"]))),
    ];
    assert!(matches!(check(problem, proof), KernelVerdict::Rejected(_)));
}

#[test]
fn consequence_requires_two_parents() {
    let problem = vec![("p", of(P, A))];
    let proof: Vec<Line> = vec![
        ("p", of(P, A), Err("p")),
        ("bot", Formula::False, Ok(("consequence", vec!["p"]))),
    ];
    assert!(matches!(check(problem, proof), KernelVerdict::Rejected(_)));
}

#[test]
fn certifies_consequence_from_resolving_pair() {
    let problem = vec![("p", of(P, A)), ("np", not(of(P, A))), ("q", of(Q, A))];
    let proof: Vec<Line> = vec![
        ("p", of(P, A), Err("p")),
        ("np", not(of(P, A)), Err("np")),
        ("q", of(Q, A), Err("q")),
        ("bot", Formula::False, Ok(("consequence", vec!["p", "np", "q"]))),
    ];
    assert_eq!(check(problem, proof), KernelVerdict::Certified);
}

#[test]
fn certifies_consequence_ex_falso_single_parent() {
    let problem = vec![("p", of(P, A)), ("np", not(of(P, A)))];
    let proof: Vec<Line> = vec![
        ("p", of(P, A), Err("p")),
        ("np", not(of(P, A)), Err("np")),
        ("f", Formula::False, Ok(("resolution", vec!["p", "np"]))),
        ("bot", Formula::False, Ok(("consequence", vec!["f"]))),
    ];
    assert_eq!(check(problem, proof), KernelVerdict::Certified);
}

#[test]
fn rejects_consequence_when_no_pair_resolves() {
    let problem = vec![("a", of(P, A)), ("b", of(P, B)), ("c", of(Q, A))];
    let proof: Vec<Line> = vec![
        ("a", of(P, A), Err("a")),
        ("b", of(P, B), Err("b")),
        ("c", of(Q, A), Err("c")),
        ("bot", Formula::False, Ok(("consequence", vec!["a", "b", "c"]))),
    ];
    assert!(matches!(check(problem, proof), KernelVerdict::Rejected(_)));
}

#[test]
fn rejects_inconsistent_symbol_arity() {
    let problem = vec![("a", of(P, A)), ("b", atom(P, vec![Term::App(A, Vec::new()), Term::App(B, Vec::new())]))];
    let proof: Vec<Line> = vec![
        ("a", of(P, A), Err("a")),
        ("b", atom(P, vec![Term::App(A, Vec::new()), Term::App(B, Vec::new())]), Err("b")),
        ("bot", Formula::False, Ok(("consequence", vec!["a"]))),
    ];
    assert_eq!(
        check(problem, proof),
        KernelVerdict::Rejected("problem has inconsistent symbol signature: symbol 1 used with arities 1 and 2".to_string())
    );
}

#[test]
fn rejects_proof_node_with_new_arity() {
    let problem = vec![("a", of(P, A)), ("b", not(of(P, A)))];
    let proof: Vec<Line> = vec![
        ("a", of(P, A), Err("a")),
        ("b", not(of(P, A)), Err("b")),
        ("c", atom(P, Vec::new()), Ok(("resolution", vec!["a", "b"]))),
        ("bot", Formula::False, Ok(("resolution", vec!["a", "b"]))),
    ];
    assert_eq!(
        check(problem, proof),
        KernelVerdict::Rejected("proof node `c` has inconsistent symbol signature: symbol 1 used with arities 1 and 0".to_string())
    );
}
