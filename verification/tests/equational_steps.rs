use std::collections::HashMap;

use mrs_proof_kernel::ac_inference::{verify_ac_resolution, verify_ac_superposition};
use mrs_proof_kernel::ac_match::ac_clause_alpha_equiv;
use mrs_proof_kernel::ac_unify::ac_unify_term_pair;
use mrs_proof_kernel::ac_rules::verify_ac_normalization;
use mrs_proof_kernel::dispatch::verify_clause_rule;
use mrs_proof_kernel::equality::verify_equality_normalization;
use mrs_proof_kernel::superposition::verify_paramodulation;
use mrs_proof_kernel::superposition::{unit_rewrite_closure_matches, verify_superposition};
use mrs_proof_kernel::term::{Atom, Formula, Literal, Term};
use mrs_proof_kernel::verdict::{KernelVerdict, VerificationLimits};

/// Reads clauses written as in TPTP (`p(X) | ~q(a) | f(X) = b`), interning
/// symbols across clauses and numbering each clause's variables from zero.
struct Reader {
    symbols: HashMap<String, u32>,
}

impl Reader {
    fn new() -> Self {
        Reader { symbols: HashMap::new() }
    }

    fn symbol(&mut self, name: &str) -> u32 {
        let next = self.symbols.len() as u32;
        *self.symbols.entry(name.to_string()).or_insert(next)
    }

    fn clause(&mut self, text: &str) -> Formula {
        let chars: Vec<char> = text.chars().filter(|c| !c.is_whitespace()).collect();
        let mut pos = 0;
        let mut vars = HashMap::new();
        let mut parts = vec![self.literal(&chars, &mut pos, &mut vars)];
        while pos < chars.len() && chars[pos] == '|' {
            pos += 1;
            parts.push(self.literal(&chars, &mut pos, &mut vars));
        }
        assert_eq!(pos, chars.len(), "unread input in {text}");
        if parts.len() == 1 {
            parts.pop().unwrap()
        } else {
            Formula::Or(parts)
        }
    }

    fn literal(&mut self, c: &[char], pos: &mut usize, vars: &mut HashMap<String, u32>) -> Formula {
        if c[*pos] == '~' {
            *pos += 1;
            return Formula::Neg(Box::new(self.literal(c, pos, vars)));
        }
        let left = self.term(c, pos, vars);
        if *pos < c.len() && c[*pos] == '=' {
            *pos += 1;
            let right = self.term(c, pos, vars);
            return Formula::Atom(Atom::Eq(left, right));
        }
        if *pos + 1 < c.len() && c[*pos] == '!' && c[*pos + 1] == '=' {
            *pos += 2;
            let right = self.term(c, pos, vars);
            return Formula::Neg(Box::new(Formula::Atom(Atom::Eq(left, right))));
        }
        match left {
            Term::App(p, args) => Formula::Atom(Atom::Pred(p, args)),
            Term::Var(_) => panic!("a variable is no atom"),
        }
    }

    fn term(&mut self, c: &[char], pos: &mut usize, vars: &mut HashMap<String, u32>) -> Term {
        let start = *pos;
        while *pos < c.len() && (c[*pos].is_alphanumeric() || c[*pos] == '_') {
            *pos += 1;
        }
        let name: String = c[start..*pos].iter().collect();
        assert!(!name.is_empty(), "expected a name at {start}");
        if name.chars().next().unwrap().is_uppercase() {
            let next = vars.len() as u32;
            return Term::Var(*vars.entry(name).or_insert(next));
        }
        let f = self.symbol(&name);
        let mut args = Vec::new();
        if *pos < c.len() && c[*pos] == '(' {
            *pos += 1;
            args.push(self.term(c, pos, vars));
            while c[*pos] == ',' {
                *pos += 1;
                args.push(self.term(c, pos, vars));
            }
            assert_eq!(c[*pos], ')');
            *pos += 1;
        }
        Term::App(f, args)
    }
}

fn limits() -> VerificationLimits {
    VerificationLimits::default()
}

fn rejected(reason: &str) -> KernelVerdict {
    KernelVerdict::Rejected(reason.to_string())
}

fn inconclusive(reason: &str) -> KernelVerdict {
    KernelVerdict::Inconclusive(reason.to_string())
}

fn literals(f: &Formula) -> Vec<Literal> {
    fn one(f: &Formula, positive: bool) -> Literal {
        match f {
            Formula::Atom(Atom::Pred(p, args)) => Literal { positive, atom: Atom::Pred(*p, copy_terms(args)) },
            Formula::Atom(Atom::Eq(l, r)) => Literal { positive, atom: Atom::Eq(copy(l), copy(r)) },
            Formula::Neg(inner) => one(inner, !positive),
            _ => panic!("not a literal"),
        }
    }
    match f {
        Formula::Or(parts) => parts.iter().map(|p| one(p, true)).collect(),
        other => vec![one(other, true)],
    }
}

fn copy(t: &Term) -> Term {
    match t {
        Term::Var(v) => Term::Var(*v),
        Term::App(f, args) => Term::App(*f, copy_terms(args)),
    }
}

fn copy_terms(ts: &[Term]) -> Vec<Term> {
    ts.iter().map(copy).collect()
}

#[test]
fn certifies_ac_normalization_with_reversed_equality() {
    let mut r = Reader::new();
    let source = r.clause("least_upper_bound(X, greatest_lower_bound(X,Y)) = X");
    let conclusion = r.clause("X = least_upper_bound(X, greatest_lower_bound(X,Y))");
    let lub_assoc = r.clause("least_upper_bound(least_upper_bound(X,Y),Z) = least_upper_bound(X,least_upper_bound(Y,Z))");
    let lub_comm = r.clause("least_upper_bound(X,Y) = least_upper_bound(Y,X)");
    let glb_comm = r.clause("greatest_lower_bound(X,Y) = greatest_lower_bound(Y,X)");
    let glb_assoc = r.clause("greatest_lower_bound(greatest_lower_bound(X,Y),Z) = greatest_lower_bound(X,greatest_lower_bound(Y,Z))");
    assert_eq!(
        verify_ac_normalization(&[source, lub_assoc, lub_comm, glb_comm, glb_assoc], &conclusion, limits()),
        KernelVerdict::Certified
    );
}

#[test]
fn certifies_ac_normalization_predicate_args() {
    let mut r = Reader::new();
    let source = r.clause("~def(vplus(X5, X3), X5)");
    let conclusion = r.clause("~def(vplus(X3, X5), X5)");
    let plus_comm = r.clause("vplus(X1, X0) = vplus(X0, X1)");
    let plus_assoc = r.clause("vplus(vplus(X0, X1), X2) = vplus(X0, vplus(X1, X2))");
    assert_eq!(
        verify_ac_normalization(&[source, plus_comm, plus_assoc], &conclusion, limits()),
        KernelVerdict::Certified
    );
}

#[test]
fn certifies_ac_normalization_with_nested_lub_glb_terms() {
    let mut r = Reader::new();
    let source = r.clause("least_upper_bound(X, greatest_lower_bound(X,Y)) = X");
    let conclusion = r.clause("X = least_upper_bound(X, greatest_lower_bound(X,Y))");
    let lub_assoc = r.clause("least_upper_bound(least_upper_bound(X,Y),Z) = least_upper_bound(X,least_upper_bound(Y,Z))");
    let lub_comm = r.clause("least_upper_bound(X,Y) = least_upper_bound(Y,X)");
    let glb_comm = r.clause("greatest_lower_bound(X,Y) = greatest_lower_bound(Y,X)");
    let glb_assoc = r.clause("greatest_lower_bound(greatest_lower_bound(X,Y),Z) = greatest_lower_bound(X,greatest_lower_bound(Y,Z))");
    assert_eq!(
        verify_ac_normalization(&[source, lub_assoc, lub_comm, glb_comm, glb_assoc], &conclusion, limits()),
        KernelVerdict::Certified
    );
}

#[test]
fn certifies_ac_normalization_with_nested_addition_reassociation() {
    let mut r = Reader::new();
    let source = r.clause("addition(multiplication(addition(X9,multiplication(X9,X1)),X8),multiplication(X9,X11)) = multiplication(X9,addition(addition(X8,multiplication(X1,X8)),X11))");
    let conclusion = r.clause("addition(multiplication(X9,X11),multiplication(addition(X9,multiplication(X9,X1)),X8)) = multiplication(X9,addition(X8,addition(multiplication(X1,X8),X11)))");
    let add_assoc = r.clause("addition(addition(X,Y),Z) = addition(X,addition(Y,Z))");
    let add_comm = r.clause("addition(X,Y) = addition(Y,X)");
    assert_eq!(
        verify_ac_normalization(&[source, add_assoc, add_comm], &conclusion, limits()),
        KernelVerdict::Certified
    );
}

#[test]
fn certifies_ac_normalization_with_nested_meet_reassociation() {
    let mut r = Reader::new();
    let source = r.clause("meet(X9,meet(X1,X9)) = meet(X9,meet(meet(X1,X9),join(X9,meet(X1,X9))))");
    let conclusion = r.clause("meet(X1,meet(X9,X9)) = meet(X1,meet(X9,meet(X9,join(X9,meet(X1,X9)))))");
    let meet_assoc = r.clause("meet(meet(X,Y),Z) = meet(X,meet(Y,Z))");
    let meet_comm = r.clause("meet(X,Y) = meet(Y,X)");
    assert_eq!(
        verify_ac_normalization(&[source, meet_assoc, meet_comm], &conclusion, limits()),
        KernelVerdict::Certified
    );
}

#[test]
fn ac_normalization_errors() {
    let mut r = Reader::new();
    let source = r.clause("f(a, b) = c");
    let conclusion = r.clause("f(b, a) = c");
    assert_eq!(
        verify_ac_normalization(&[r.clause("f(a, b) = c")], &conclusion, limits()),
        rejected("ac_normalization requires a source clause and AC axioms")
    );
    let not_unit = r.clause("p(a) | q(a)");
    assert_eq!(
        verify_ac_normalization(&[r.clause("f(a, b) = c"), not_unit], &conclusion, limits()),
        rejected("ac_normalization parents must be positive unit equalities")
    );
    let not_axiom = r.clause("f(X, Y) = f(X, Y)");
    match verify_ac_normalization(&[r.clause("f(a, b) = c"), not_axiom], &conclusion, limits()) {
        KernelVerdict::Rejected(reason) => {
            assert!(reason.starts_with("ac_normalization parent 0 is not a commutativity or associativity axiom: "))
        },
        other => panic!("unexpected {:?}", other),
    }
    let only_assoc = r.clause("f(f(X,Y),Z) = f(X,f(Y,Z))");
    assert_eq!(
        verify_ac_normalization(&[source, only_assoc], &conclusion, limits()),
        inconclusive("ac_normalization replay could not establish AC-equivalence within the implemented search")
    );
    let comm = r.clause("f(X,Y) = f(Y,X)");
    let source = r.clause("f(a, b) = c");
    assert_eq!(verify_ac_normalization(&[source, comm], &conclusion, limits()), KernelVerdict::Certified);
}

#[test]
fn ac_equality_respects_renaming_and_sign() {
    let mut r = Reader::new();
    let f = r.symbol("f");
    let left = literals(&r.clause("p(f(X, g(Y))) | ~q(X)"));
    let same = literals(&r.clause("~q(Z) | p(f(g(W), Z))"));
    let merged = literals(&r.clause("~q(Z) | p(f(g(Z), Z))"));
    let flipped = literals(&r.clause("q(Z) | p(f(g(W), Z))"));
    assert!(ac_clause_alpha_equiv(&left, &same, &vec![f], &Vec::new(), limits()));
    assert!(!ac_clause_alpha_equiv(&left, &same, &Vec::new(), &Vec::new(), limits()));
    assert!(!ac_clause_alpha_equiv(&left, &merged, &vec![f], &Vec::new(), limits()));
    assert!(!ac_clause_alpha_equiv(&left, &flipped, &vec![f], &Vec::new(), limits()));
    let tight = VerificationLimits { max_equivalence_steps: 1, ..limits() };
    assert!(!ac_clause_alpha_equiv(&left, &same, &vec![f], &Vec::new(), tight));
}

#[test]
fn superposition_rewrites_into_a_predicate() {
    let mut r = Reader::new();
    let eq = r.clause("f(a) = b");
    let target = r.clause("p(f(a))");
    let conclusion = r.clause("p(b)");
    assert_eq!(verify_superposition(&[eq, target], &conclusion, limits(), &vec![], &vec![]), KernelVerdict::Certified);
}

#[test]
fn superposition_accepts_a_condensed_conclusion() {
    let mut r = Reader::new();
    let eq = r.clause("f(a) = b | ~s1 | ~s2");
    let target = r.clause("p(f(a)) | ~s1");
    let conclusion = r.clause("p(b) | ~s1 | ~s2");
    assert_eq!(verify_superposition(&[eq, target], &conclusion, limits(), &vec![], &vec![]), KernelVerdict::Certified);
}

#[test]
fn superposition_instantiates_under_the_unifier() {
    let mut r = Reader::new();
    let eq = r.clause("f(X, c) = g(X) | q(X)");
    let target = r.clause("p(f(a, Y)) | r(Y)");
    let conclusion = r.clause("q(a) | p(g(a)) | r(c)");
    assert_eq!(verify_superposition(&[eq, target], &conclusion, limits(), &vec![], &vec![]), KernelVerdict::Certified);
}

#[test]
fn superposition_with_folded_demodulation() {
    let mut r = Reader::new();
    let eq = r.clause("inter(X,es) = es");
    let target = r.clause("d(X8) | m(sk(X8), inter(X8,inter(X8,X8)))");
    let conclusion = r.clause("d(es) | m(sk(es),es)");
    assert_eq!(verify_superposition(&[eq, target], &conclusion, limits(), &vec![], &vec![]), KernelVerdict::Certified);
}

#[test]
fn superposition_rejects_a_forged_conclusion() {
    let mut r = Reader::new();
    let eq = r.clause("f(a) = b");
    let target = r.clause("p(f(a))");
    let conclusion = r.clause("q(b)");
    assert_eq!(
        verify_superposition(&[eq, target], &conclusion, limits(), &vec![], &vec![]),
        rejected("superposition conclusion is not a valid rewrite")
    );
    let eq = r.clause("f(a) = b");
    assert_eq!(verify_superposition(&[eq], &conclusion, limits(), &vec![], &vec![]), rejected("superposition must have two parents"));
    let eq = r.clause("f(a) = b");
    let target = Formula::And(vec![r.clause("p(a)"), r.clause("p(b)")]);
    assert_eq!(
        verify_superposition(&[eq, target], &conclusion, limits(), &vec![], &vec![]),
        inconclusive("superposition target parent is not a supported clause")
    );
}

#[test]
fn unit_rewriting_reaches_the_simplified_goal() {
    let mut r = Reader::new();
    let es = r.symbol("es");
    let inter = r.symbol("inter");
    let left = Term::App(inter, vec![Term::Var(0), Term::App(es, Vec::new())]);
    let right = Term::App(es, Vec::new());
    let start = literals(&r.clause("d(es) | m(sk(es), inter(es,inter(es,es)))"));
    let goal = literals(&r.clause("d(es) | m(sk(es),es)"));
    assert!(unit_rewrite_closure_matches(&left, &right, &start, &goal, limits()));
    let other = literals(&r.clause("d(es) | m(sk(es),sk(es))"));
    assert!(!unit_rewrite_closure_matches(&left, &right, &start, &other, limits()));
}

#[test]
fn goal_transformation_and_superposition_are_dispatched() {
    let mut r = Reader::new();
    let eq = r.clause("f(a) = b");
    let target = r.clause("p(f(a))");
    let conclusion = r.clause("p(b)");
    let parents = [eq, target];
    assert_eq!(verify_clause_rule("superposition", "s", &parents, &conclusion, limits(), &vec![], &vec![], &vec![]), Some(KernelVerdict::Certified));
    assert_eq!(
        verify_clause_rule("goal_transformation", "s", &[], &conclusion, limits(), &vec![], &vec![], &vec![]),
        Some(rejected("goal_transformation requires at least one parent"))
    );
    assert_eq!(
        verify_clause_rule("goal_transformation", "s", &parents[..1], &conclusion, limits(), &vec![], &vec![], &vec![]),
        Some(rejected("conclusion is not alpha-equivalent to parent"))
    );
}

#[test]
fn equality_normalization_rewrites_a_predicate() {
    let mut r = Reader::new();
    let ab = r.clause("a = b");
    let n = r.clause("~p(b)");
    let na = r.clause("~p(a)");
    assert_eq!(verify_equality_normalization(&[n, ab], &na, limits()), KernelVerdict::Certified);
    let ab = r.clause("a = b");
    let n = r.clause("~p(b)");
    assert_eq!(verify_equality_normalization(&[ab, n], &na, limits()), KernelVerdict::Certified);
}

#[test]
fn equality_normalization_follows_chains_and_any_representative() {
    let mut r = Reader::new();
    let (ab, bc) = (r.clause("a = b"), r.clause("b = c"));
    let n = r.clause("~p(c)");
    assert_eq!(verify_equality_normalization(&[n, ab, bc], &r.clause("~p(a)"), limits()), KernelVerdict::Certified);
    let bc = r.clause("b = c");
    let n = r.clause("~p(c)");
    assert_eq!(verify_equality_normalization(&[n, bc], &r.clause("~p(b)"), limits()), KernelVerdict::Certified);
    let nested = r.clause("~q(f(c, X))");
    let bc = r.clause("b = c");
    assert_eq!(verify_equality_normalization(&[nested, bc], &r.clause("~q(f(b, Y))"), limits()), KernelVerdict::Certified);
}

#[test]
fn equality_normalization_to_the_empty_clause() {
    let mut r = Reader::new();
    let ab = r.clause("a = b");
    let neq = r.clause("a != b");
    assert_eq!(verify_equality_normalization(&[neq, ab], &Formula::False, limits()), KernelVerdict::Certified);
}

#[test]
fn equality_normalization_errors() {
    let mut r = Reader::new();
    let forged = verify_equality_normalization(&[r.clause("~p(b)"), r.clause("a = b")], &r.clause("~r(a)"), limits());
    assert_eq!(forged, rejected("equality_normalization conclusion is not the normalized target"));
    let non_unit = verify_equality_normalization(&[r.clause("~p(a)"), r.clause("a = b | c = d")], &r.clause("~p(b)"), limits());
    assert_eq!(non_unit, rejected("equality_normalization conclusion is not the normalized target"));
    let reflexive = verify_equality_normalization(&[r.clause("a = b"), r.clause("a = b")], &r.clause("a = b"), limits());
    assert_eq!(reflexive, rejected("equality_normalization conclusion is not the normalized target"));
    let missing = verify_equality_normalization(&[r.clause("~p(b)")], &r.clause("~p(b)"), limits());
    assert_eq!(missing, rejected("equality_normalization requires a target and equality parents"));
    let non_ground = verify_equality_normalization(&[r.clause("~p(b)"), r.clause("X = b")], &r.clause("~p(b)"), limits());
    assert_eq!(non_ground, inconclusive("equality_normalization requires ground constant equalities"));
    let tight = VerificationLimits { max_formula_nodes: 1, ..limits() };
    let big = verify_equality_normalization(&[r.clause("~p(b)"), r.clause("a = b")], &r.clause("~p(a)"), tight);
    assert_eq!(big, inconclusive("equality_normalization exceeded strict formula-size limit"));
}

#[test]
fn paramodulation_takes_either_parent_order() {
    let mut r = Reader::new();
    let conclusion = r.clause("p(b)");
    assert_eq!(
        verify_paramodulation(&[r.clause("f(a) = b"), r.clause("p(f(a))")], &conclusion, limits(), &vec![], &vec![]),
        KernelVerdict::Certified
    );
    assert_eq!(
        verify_paramodulation(&[r.clause("p(f(a))"), r.clause("f(a) = b")], &conclusion, limits(), &vec![], &vec![]),
        KernelVerdict::Certified
    );
    assert_eq!(
        verify_paramodulation(&[r.clause("f(a) = b"), r.clause("p(f(a))")], &r.clause("q(b)"), limits(), &vec![], &vec![]),
        rejected("superposition conclusion is not a valid rewrite")
    );
    assert_eq!(
        verify_paramodulation(&[r.clause("p(f(a))")], &conclusion, limits(), &vec![], &vec![]),
        rejected("paramodulation must have two parents")
    );
}

#[test]
fn certifies_ac_superposition_replay() {
    let mut r = Reader::new();
    let source = r.clause("positive_part(X) = least_upper_bound(X, identity)");
    let target = r.clause("Y = greatest_lower_bound(Y, least_upper_bound(Z, Y))");
    let conclusion = r.clause("identity = greatest_lower_bound(identity, positive_part(Z))");
    let lub_assoc = r.clause("least_upper_bound(least_upper_bound(X,Y),Z) = least_upper_bound(X,least_upper_bound(Y,Z))");
    let lub_comm = r.clause("least_upper_bound(X,Y) = least_upper_bound(Y,X)");
    let glb_comm = r.clause("greatest_lower_bound(X,Y) = greatest_lower_bound(Y,X)");
    let glb_assoc = r.clause("greatest_lower_bound(greatest_lower_bound(X,Y),Z) = greatest_lower_bound(X,greatest_lower_bound(Y,Z))");
    assert_eq!(
        verify_ac_superposition(
            &[source, target, lub_assoc, lub_comm, glb_comm, glb_assoc],
            &conclusion,
            limits(),
            &vec![],
            &vec![],
        ),
        KernelVerdict::Certified
    );
}

#[test]
fn certifies_grp167_ac_superposition_shape() {
    let mut r = Reader::new();
    let source = r.clause("positive_part(X) = least_upper_bound(X, identity)");
    let target = r.clause("X = greatest_lower_bound(X, least_upper_bound(Y, X))");
    let conclusion = r.clause("identity = greatest_lower_bound(identity, positive_part(X))");
    let lub_assoc = r.clause("least_upper_bound(least_upper_bound(X,Y),Z) = least_upper_bound(X,least_upper_bound(Y,Z))");
    let lub_comm = r.clause("least_upper_bound(X,Y) = least_upper_bound(Y,X)");
    let glb_comm = r.clause("greatest_lower_bound(X,Y) = greatest_lower_bound(Y,X)");
    let glb_assoc = r.clause("greatest_lower_bound(greatest_lower_bound(X,Y),Z) = greatest_lower_bound(X,greatest_lower_bound(Y,Z))");
    assert_eq!(
        verify_ac_superposition(
            &[source, target, lub_assoc, lub_comm, glb_comm, glb_assoc],
            &conclusion,
            limits(),
            &vec![],
            &vec![],
        ),
        KernelVerdict::Certified
    );
}

#[test]
fn ac_superposition_errors() {
    let mut r = Reader::new();
    let pair = |r: &mut Reader| [r.clause("f(a) = b"), r.clause("p(f(a))")];
    let [s1, t1] = pair(&mut r);
    assert_eq!(
        verify_ac_superposition(&[s1, t1], &r.clause("p(b)"), limits(), &vec![], &vec![]),
        rejected("ac_superposition requires two inference parents and AC axioms")
    );
    let [s1, t1] = pair(&mut r);
    assert_eq!(
        verify_ac_superposition(&[s1, t1, r.clause("p(a)")], &r.clause("p(b)"), limits(), &vec![], &vec![]),
        rejected("AC axiom is not an equality")
    );
    let [s1, t1] = pair(&mut r);
    assert_eq!(
        verify_ac_superposition(&[s1, t1, r.clause("g(X,Y) = g(Y,Z)")], &r.clause("p(b)"), limits(), &vec![], &vec![]),
        rejected("AC axiom has unsupported shape")
    );
    let [s1, t1] = pair(&mut r);
    assert_eq!(
        verify_ac_superposition(&[s1, t1, r.clause("g(X,Y) != g(Y,X)")], &r.clause("p(b)"), limits(), &vec![], &vec![]),
        rejected("AC axiom is not a positive unit equality")
    );
    let bad = Formula::And(vec![r.clause("p(a)"), r.clause("p(b)")]);
    let [_, t1] = pair(&mut r);
    assert_eq!(
        verify_ac_superposition(&[bad, t1, r.clause("g(X,Y) = g(Y,X)")], &r.clause("p(b)"), limits(), &vec![], &vec![]),
        inconclusive("AC source is not a clause")
    );
    // The replay finds the plain rewrite as well.
    let [s1, t1] = pair(&mut r);
    assert_eq!(
        verify_ac_superposition(&[s1, t1, r.clause("g(X,Y) = g(Y,X)")], &r.clause("p(b)"), limits(), &vec![], &vec![]),
        KernelVerdict::Certified
    );
    // Neither the replay nor the plain rule reaches the conclusion.
    let [s1, t1] = pair(&mut r);
    assert_eq!(
        verify_ac_superposition(&[s1, t1, r.clause("g(X,Y) = g(Y,X)")], &r.clause("q(b)"), limits(), &vec![], &vec![]),
        inconclusive("ac_superposition replay is incomplete: superposition conclusion is not a valid rewrite")
    );
}

#[test]
fn ac_resolution_with_commutativity_law() {
    let mut r = Reader::new();
    let parents = |r: &mut Reader, law: &str| [r.clause("p(f(a, b))"), r.clause("~p(f(b, a))"), r.clause(law)];
    let empty = Formula::False;
    assert_eq!(verify_ac_resolution(&parents(&mut r, "f(X, Y) = f(Y, X)"), &empty, limits()), KernelVerdict::Certified);
    assert_eq!(
        verify_clause_rule("ac_resolution", "c_bot", &parents(&mut r, "f(X, Y) = f(Y, X)"), &empty, limits(), &vec![], &vec![], &vec![]),
        Some(KernelVerdict::Certified)
    );
    // With the commutativity of another symbol the atoms do not unify.
    assert_eq!(
        verify_ac_resolution(&parents(&mut r, "g(X, Y) = g(Y, X)"), &empty, limits()),
        inconclusive("ac_resolution replay could not establish equivalence within limits")
    );
    assert_eq!(
        verify_ac_resolution(&[r.clause("p(f(a, b))"), r.clause("~p(f(b, a))")], &empty, limits()),
        rejected("ac_resolution requires two inference parents and AC axioms")
    );
}

#[test]
fn ac_resolution_keeps_side_literals() {
    let mut r = Reader::new();
    let parents = |r: &mut Reader| [r.clause("p(f(X, a)) | q(X)"), r.clause("~p(f(b, Y)) | s(Y)"), r.clause("f(X, Y) = f(Y, X)")];
    let goal = r.clause("q(b) | s(a)");
    assert_eq!(verify_ac_resolution(&parents(&mut r), &goal, limits()), KernelVerdict::Certified);
    // The side literals carry the unifier's instance.
    let wrong = r.clause("q(a) | s(a)");
    assert_eq!(
        verify_ac_resolution(&parents(&mut r), &wrong, limits()),
        inconclusive("ac_resolution replay could not establish equivalence within limits")
    );
}

#[test]
fn superposition_with_background_commutativity() {
    let mut r = Reader::new();
    let plus = r.symbol("plus");
    let pair = |r: &mut Reader| [r.clause("plus(X1,one) = plus(X1,sk(X1))"), r.clause("p(plus(Y,sk0)) | q(Y)")];
    let conclusion = r.clause("p(plus(sk0,sk(sk0))) | q(one)");
    // Plain superposition cannot rewrite `plus(Y,sk0)` with `plus(X1,one)`.
    assert_eq!(
        verify_superposition(&pair(&mut r), &conclusion, limits(), &vec![], &vec![]),
        rejected("superposition conclusion is not a valid rewrite")
    );
    // With the problem's commutativity of `plus` it can.
    assert_eq!(
        verify_superposition(&pair(&mut r), &conclusion, limits(), &vec![plus], &vec![]),
        KernelVerdict::Certified
    );
    let [eq, target] = pair(&mut r);
    assert_eq!(
        verify_paramodulation(&[target, eq], &conclusion, limits(), &vec![plus], &vec![]),
        KernelVerdict::Certified
    );
    assert_eq!(
        verify_clause_rule("superposition", "s", &pair(&mut r), &conclusion, limits(), &vec![plus], &vec![], &vec![]),
        Some(KernelVerdict::Certified)
    );
}

#[test]
fn ac_unification_of_leaves() {
    let f = 0u32;
    let a = || Term::App(1, vec![]);
    let b = || Term::App(2, vec![]);
    let x = || Term::Var(0);
    let ac = vec![f];
    // f(X, f(a, b)) against f(b, f(a, a)): the leaves match once X is `a`.
    let l = Term::App(f, vec![x(), Term::App(f, vec![a(), b()])]);
    let r = Term::App(f, vec![b(), Term::App(f, vec![a(), a()])]);
    let s = ac_unify_term_pair(&l, &r, &ac, &ac).expect("unifiable modulo AC");
    assert!(matches!(s.get(0), Some(Term::App(1, args)) if args.is_empty()));
    // Without the AC axioms the same terms do not unify.
    assert!(ac_unify_term_pair(&l, &r, &vec![], &vec![]).is_none());
    // A different number of leaves never matches.
    let r4 = Term::App(f, vec![a(), Term::App(f, vec![b(), Term::App(f, vec![a(), a()])])]);
    assert!(ac_unify_term_pair(&l, &r4, &ac, &ac).is_none());
    // f(X, b) against f(a, a): `b` has no partner.
    let l2 = Term::App(f, vec![x(), b()]);
    let r2 = Term::App(f, vec![a(), a()]);
    assert!(ac_unify_term_pair(&l2, &r2, &ac, &ac).is_none());
    // Commutativity alone: f(a, b) against f(b, a).
    let l3 = Term::App(f, vec![a(), b()]);
    let r3 = Term::App(f, vec![b(), a()]);
    assert!(ac_unify_term_pair(&l3, &r3, &ac, &vec![]).is_some());
    assert!(ac_unify_term_pair(&l3, &r3, &vec![], &ac).is_none());
}
