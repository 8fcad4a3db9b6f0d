//! Skolemisation of a prenex formula: each existential of the parent's
//! quantifier prefix is replaced by a fresh function symbol applied to the
//! universals before it, and the universals stay.
use vstd::prelude::*;
use vstd::string::*;
use crate::term::{Term, Atom, Formula, STerm, SAtom, terms_view, lemma_terms_view};
use crate::subst::{Subst, match_spec, match_all_spec, match_pattern};
use crate::verdict::{KernelVerdict, VerdictView, inconclusive};
use crate::identity::{alpha_identity_outcome, verify_alpha_identity};

verus! {

/// The leading quantifiers of a formula: `(true, x)` for `!x`, `(false, x)`
/// for `?x`.
pub open spec fn prefix_of(f: Formula) -> Seq<(bool, u32)>
    decreases f,
{
    match f {
        Formula::Forall(v, x) => seq![(true, v)] + prefix_of(*x),
        Formula::Exists(v, x) => seq![(false, v)] + prefix_of(*x),
        _ => Seq::empty(),
    }
}

/// The formula under its leading quantifiers.
pub open spec fn matrix_of(f: Formula) -> Formula
    decreases f,
{
    match f {
        Formula::Forall(_, x) => matrix_of(*x),
        Formula::Exists(_, x) => matrix_of(*x),
        _ => f,
    }
}

/// The universal variables of a prefix, in order.
pub open spec fn universals(q: Seq<(bool, u32)>) -> Seq<u32>
    decreases q.len(),
{
    if q.len() == 0 {
        Seq::empty()
    } else if q.last().0 {
        universals(q.drop_last()).push(q.last().1)
    } else {
        universals(q.drop_last())
    }
}

/// The prefix of universals alone.
pub open spec fn universal_prefix(q: Seq<(bool, u32)>) -> Seq<(bool, u32)> {
    universals(q).map_values(|v: u32| (true, v))
}

/// A Skolem term: `f` applied to the variables in scope.
pub open spec fn skolem_term(f: u32, scope: Seq<u32>) -> STerm {
    STerm::App(f, scope.map_values(|v: u32| STerm::Var(v)))
}

/// The formula has no quantifier.
pub open spec fn quantifier_free(f: Formula) -> bool
    decreases f,
{
    match f {
        Formula::Atom(_) => true,
        Formula::Neg(x) => quantifier_free(*x),
        Formula::And(xs) => all_quantifier_free(xs@),
        Formula::Or(xs) => all_quantifier_free(xs@),
        Formula::Implies(a, b) => quantifier_free(*a) && quantifier_free(*b),
        Formula::Iff(a, b) => quantifier_free(*a) && quantifier_free(*b),
        Formula::Forall(_, _) => false,
        Formula::Exists(_, _) => false,
        Formula::True => true,
        Formula::False => true,
    }
}

pub open spec fn all_quantifier_free(xs: Seq<Formula>) -> bool
    decreases xs,
{
    if xs.len() == 0 {
        true
    } else {
        all_quantifier_free(xs.drop_last()) && quantifier_free(xs.last())
    }
}

/// Extends the match so that the pattern atom becomes the target atom.
pub open spec fn atom_match(a: SAtom, b: SAtom, m: Map<u32, STerm>) -> Option<Map<u32, STerm>> {
    match (a, b) {
        (SAtom::Pred(p, xs), SAtom::Pred(q, ys)) => if p == q && xs.len() == ys.len() {
            match_all_spec(xs, ys, m)
        } else {
            None
        },
        (SAtom::Eq(l1, r1), SAtom::Eq(l2, r2)) => match match_spec(l1, l2, m) {
            Some(m1) => match_spec(r1, r2, m1),
            None => None,
        },
        _ => None,
    }
}

/// Extends the match so that the quantifier-free pattern formula becomes
/// the target formula, connective by connective.
pub open spec fn formula_match(p: Formula, s: Formula, m: Map<u32, STerm>) -> Option<Map<u32, STerm>>
    decreases p,
{
    match (p, s) {
        (Formula::Atom(a), Formula::Atom(b)) => atom_match(a@, b@, m),
        (Formula::Neg(x), Formula::Neg(y)) => formula_match(*x, *y, m),
        (Formula::And(xs), Formula::And(ys)) => if xs@.len() == ys@.len() {
            formulas_match(xs@, ys@, m)
        } else {
            None
        },
        (Formula::Or(xs), Formula::Or(ys)) => if xs@.len() == ys@.len() {
            formulas_match(xs@, ys@, m)
        } else {
            None
        },
        (Formula::Implies(a, b), Formula::Implies(c, d)) => match formula_match(*a, *c, m) {
            Some(m1) => formula_match(*b, *d, m1),
            None => None,
        },
        (Formula::Iff(a, b), Formula::Iff(c, d)) => match formula_match(*a, *c, m) {
            Some(m1) => formula_match(*b, *d, m1),
            None => None,
        },
        (Formula::True, Formula::True) => Some(m),
        (Formula::False, Formula::False) => Some(m),
        _ => None,
    }
}

pub open spec fn formulas_match(xs: Seq<Formula>, ys: Seq<Formula>, m: Map<u32, STerm>) -> Option<Map<u32, STerm>>
    decreases xs,
{
    if xs.len() == 0 {
        Some(m)
    } else {
        match formulas_match(xs.drop_last(), ys.drop_last(), m) {
            Some(m1) => formula_match(xs.last(), ys.last(), m1),
            None => None,
        }
    }
}

/// Every universal of the prefix stands for itself.
pub open spec fn seed(q: Seq<(bool, u32)>) -> Map<u32, STerm>
    decreases q.len(),
{
    if q.len() == 0 {
        Map::empty()
    } else if q.last().0 {
        seed(q.drop_last()).insert(q.last().1, STerm::Var(q.last().1))
    } else {
        seed(q.drop_last())
    }
}

/// Each existential `q[i]` is matched to a Skolem term over the universals
/// before it, with a fresh symbol, no symbol twice, and every fresh symbol
/// used.
pub open spec fn witnesses_ok(q: Seq<(bool, u32)>, m: Map<u32, STerm>, fresh: Seq<u32>) -> bool {
    &&& forall|i: int| 0 <= i < q.len() && !q[i].0 ==> {
        &&& m.contains_key(#[trigger] q[i].1)
        &&& m[q[i].1] is App
        &&& m[q[i].1] == skolem_term(m[q[i].1]->App_0, universals(q.take(i)))
        &&& fresh.contains(m[q[i].1]->App_0)
    }
    &&& forall|i: int, j: int| 0 <= i < j < q.len() && !q[i].0 && !q[j].0
        ==> #[trigger] m[q[i].1]->App_0 != #[trigger] m[q[j].1]->App_0
    &&& forall|f: u32| fresh.contains(f) ==> exists|i: int| 0 <= i < q.len() && !q[i].0
        && #[trigger] m[q[i].1]->App_0 == f
}

/// The prefix binds each variable once.
pub open spec fn prefix_distinct(q: Seq<(bool, u32)>) -> bool {
    forall|i: int, j: int| 0 <= i < j < q.len() ==> #[trigger] q[i].1 != #[trigger] q[j].1
}

/// What Skolemisation certifies: the conclusion keeps the parent's
/// universals, in order, and its matrix is the parent's matrix with every
/// existential replaced by a Skolem term over the universals before it,
/// the Skolem symbols being exactly the fresh ones, each used once.
pub open spec fn skolemises(parent: Formula, conclusion: Formula, fresh: Seq<u32>) -> bool {
    let q = prefix_of(parent);
    &&& prefix_distinct(q)
    &&& prefix_of(conclusion) == universal_prefix(q)
    &&& formula_match(matrix_of(parent), matrix_of(conclusion), seed(q)) matches Some(m)
    &&& witnesses_ok(q, m, fresh)
}

/// The verdicts of a Skolemisation step.
pub open spec fn skolemisation_outcome(
    node: Seq<char>,
    parent: Formula,
    conclusion: Formula,
    fresh: Seq<u32>,
    v: VerdictView,
) -> bool {
    let q = prefix_of(parent);
    if fresh.len() == 0 {
        v == alpha_identity_outcome(seq![parent], conclusion)
    } else if !(exists|i: int| 0 <= i < q.len() && !#[trigger] q[i].0) {
        v == VerdictView::Inconclusive("Skolemization introduced symbols without an existential parent"@)
    } else if !prefix_distinct(q) || !quantifier_free(matrix_of(parent)) || !quantifier_free(matrix_of(conclusion)) {
        v == VerdictView::Inconclusive("strict kernel checks Skolemization of a prenex parent only"@)
    } else {
        &&& v is Certified <==> skolemises(parent, conclusion, fresh)
        &&& (v is Certified || v == VerdictView::Rejected("node `"@ + node + "` is not an exact Skolemization of its parent"@)
            || v == VerdictView::Rejected("node `"@ + node + "` does not use exactly its fresh Skolem symbols"@))
    }
}

/// The leading quantifiers and the matrix of a formula.
fn peel_prefix(f: &Formula) -> (r: (Vec<(bool, u32)>, &Formula))
    ensures
        r.0@ == prefix_of(*f),
        *r.1 == matrix_of(*f),
    decreases f,
{
    match f {
        Formula::Forall(v, x) => {
            let (mut q, m) = peel_prefix(x);
            q.insert(0, (true, *v));
            assert(q@ =~= seq![(true, *v)] + prefix_of(**x));
            (q, m)
        },
        Formula::Exists(v, x) => {
            let (mut q, m) = peel_prefix(x);
            q.insert(0, (false, *v));
            assert(q@ =~= seq![(false, *v)] + prefix_of(**x));
            (q, m)
        },
        _ => (Vec::new(), f),
    }
}

/// Whether the formula has no quantifier.
fn is_quantifier_free(f: &Formula) -> (r: bool)
    ensures
        r == quantifier_free(*f),
    decreases f,
{
    match f {
        Formula::Atom(_) | Formula::True | Formula::False => true,
        Formula::Neg(x) => is_quantifier_free(x),
        Formula::Implies(a, b) | Formula::Iff(a, b) => is_quantifier_free(a) && is_quantifier_free(b),
        Formula::Forall(_, _) | Formula::Exists(_, _) => false,
        Formula::And(xs) | Formula::Or(xs) => {
            let mut i: usize = 0;
            assert(xs@.take(0) =~= Seq::<Formula>::empty());
            while i < xs.len()
                invariant
                    0 <= i <= xs.len(),
                    *f is And || *f is Or,
                    *f is And ==> (*f)->And_0 == *xs,
                    *f is Or ==> (*f)->Or_0 == *xs,
                    quantifier_free(*f) == all_quantifier_free(xs@),
                    all_quantifier_free(xs@.take(i as int)),
                decreases xs.len() - i,
            {
                proof {
                    if *f is And {
                        assert(decreases_to!(*f => (*f)->And_0));
                    } else {
                        assert(decreases_to!(*f => (*f)->Or_0));
                    }
                    assert(decreases_to!(*xs => xs@));
                    assert(decreases_to!(xs@ => xs@[i as int]));
                    assert(xs@.take(i as int + 1).drop_last() == xs@.take(i as int));
                    assert(xs@.take(i as int + 1).last() == xs@[i as int]);
                }
                if !is_quantifier_free(&xs[i]) {
                    proof {
                        lemma_all_qf_prefix(xs@, i as int + 1);
                    }
                    return false;
                }
                i = i + 1;
            }
            assert(xs@.take(xs.len() as int) == xs@);
            true
        },
    }
}

proof fn lemma_all_qf_prefix(xs: Seq<Formula>, k: int)
    requires
        0 <= k <= xs.len(),
        !all_quantifier_free(xs.take(k)),
    ensures
        !all_quantifier_free(xs),
    decreases xs.len() - k,
{
    if k < xs.len() {
        assert(xs.take(k + 1).drop_last() == xs.take(k));
        lemma_all_qf_prefix(xs, k + 1);
    } else {
        assert(xs.take(k) == xs);
    }
}

proof fn lemma_match_all_prefix(xs: Seq<STerm>, ys: Seq<STerm>, m: Map<u32, STerm>, k: int)
    requires
        0 <= k <= xs.len(),
        xs.len() == ys.len(),
        match_all_spec(xs.take(k), ys.take(k), m) is None,
    ensures
        match_all_spec(xs, ys, m) is None,
    decreases xs.len() - k,
{
    if k < xs.len() {
        assert(xs.take(k + 1).drop_last() == xs.take(k));
        assert(ys.take(k + 1).drop_last() == ys.take(k));
        lemma_match_all_prefix(xs, ys, m, k + 1);
    } else {
        assert(xs.take(k) == xs);
        assert(ys.take(k) == ys);
    }
}

/// Matches two argument lists pairwise.
fn match_args(xs: &Vec<Term>, ys: &Vec<Term>, s: &mut Subst) -> (r: bool)
    requires
        xs@.len() == ys@.len(),
    ensures
        match match_all_spec(terms_view(xs@), terms_view(ys@), old(s)@) {
            Some(m) => r && final(s)@ == m,
            None => !r,
        },
{
    proof {
        lemma_terms_view(xs@);
        lemma_terms_view(ys@);
    }
    let ghost m0 = s@;
    let mut i: usize = 0;
    assert(terms_view(xs@).take(0) =~= Seq::<STerm>::empty());
    assert(terms_view(ys@).take(0) =~= Seq::<STerm>::empty());
    while i < xs.len()
        invariant
            0 <= i <= xs.len(),
            xs@.len() == ys@.len(),
            m0 == old(s)@,
            terms_view(xs@).len() == xs@.len(),
            terms_view(ys@).len() == ys@.len(),
            forall|k: int| 0 <= k < xs@.len() ==> #[trigger] terms_view(xs@)[k] == xs@[k]@,
            forall|k: int| 0 <= k < ys@.len() ==> #[trigger] terms_view(ys@)[k] == ys@[k]@,
            match_all_spec(terms_view(xs@).take(i as int), terms_view(ys@).take(i as int), m0) == Some(s@),
        decreases xs.len() - i,
    {
        proof {
            assert(terms_view(xs@).take(i as int + 1).drop_last() == terms_view(xs@).take(i as int));
            assert(terms_view(ys@).take(i as int + 1).drop_last() == terms_view(ys@).take(i as int));
            assert(terms_view(xs@).take(i as int + 1).last() == xs@[i as int]@);
            assert(terms_view(ys@).take(i as int + 1).last() == ys@[i as int]@);
        }
        if !match_pattern(&xs[i], &ys[i], s) {
            proof {
                lemma_match_all_prefix(terms_view(xs@), terms_view(ys@), m0, i as int + 1);
            }
            return false;
        }
        i = i + 1;
    }
    assert(terms_view(xs@).take(xs.len() as int) == terms_view(xs@));
    assert(terms_view(ys@).take(ys.len() as int) == terms_view(ys@));
    true
}

/// Matches the pattern atom against the target atom.
fn match_atom(a: &Atom, b: &Atom, s: &mut Subst) -> (r: bool)
    ensures
        match atom_match(a@, b@, old(s)@) {
            Some(m) => r && final(s)@ == m,
            None => !r,
        },
{
    match (a, b) {
        (Atom::Pred(p, xs), Atom::Pred(q, ys)) => {
            proof {
                lemma_terms_view(xs@);
                lemma_terms_view(ys@);
            }
            if *p != *q || xs.len() != ys.len() {
                return false;
            }
            match_args(xs, ys, s)
        },
        (Atom::Eq(l1, r1), Atom::Eq(l2, r2)) => {
            if !match_pattern(l1, l2, s) {
                return false;
            }
            match_pattern(r1, r2, s)
        },
        _ => false,
    }
}

proof fn lemma_formulas_match_prefix(xs: Seq<Formula>, ys: Seq<Formula>, m: Map<u32, STerm>, k: int)
    requires
        0 <= k <= xs.len(),
        xs.len() == ys.len(),
        formulas_match(xs.take(k), ys.take(k), m) is None,
    ensures
        formulas_match(xs, ys, m) is None,
    decreases xs.len() - k,
{
    if k < xs.len() {
        assert(xs.take(k + 1).drop_last() == xs.take(k));
        assert(ys.take(k + 1).drop_last() == ys.take(k));
        lemma_formulas_match_prefix(xs, ys, m, k + 1);
    } else {
        assert(xs.take(k) == xs);
        assert(ys.take(k) == ys);
    }
}

/// Matches the pattern formula against the target formula.
fn match_formula(p: &Formula, t: &Formula, s: &mut Subst) -> (r: bool)
    ensures
        match formula_match(*p, *t, old(s)@) {
            Some(m) => r && final(s)@ == m,
            None => !r,
        },
    decreases p,
{
    match (p, t) {
        (Formula::Atom(a), Formula::Atom(b)) => match_atom(a, b, s),
        (Formula::Neg(x), Formula::Neg(y)) => match_formula(x, y, s),
        (Formula::Implies(a, b), Formula::Implies(c, d)) | (Formula::Iff(a, b), Formula::Iff(c, d)) => {
            if !match_formula(a, c, s) {
                return false;
            }
            match_formula(b, d, s)
        },
        (Formula::True, Formula::True) | (Formula::False, Formula::False) => true,
        (Formula::And(xs), Formula::And(ys)) | (Formula::Or(xs), Formula::Or(ys)) => {
            if xs.len() != ys.len() {
                return false;
            }
            let ghost m0 = s@;
            let mut i: usize = 0;
            assert(xs@.take(0) =~= Seq::<Formula>::empty());
            assert(ys@.take(0) =~= Seq::<Formula>::empty());
            while i < xs.len()
                invariant
                    0 <= i <= xs.len(),
                    xs.len() == ys.len(),
                    m0 == old(s)@,
                    *p is And || *p is Or,
                    *p is And ==> (*p)->And_0 == *xs,
                    *p is Or ==> (*p)->Or_0 == *xs,
                    formula_match(*p, *t, m0) == formulas_match(xs@, ys@, m0),
                    formulas_match(xs@.take(i as int), ys@.take(i as int), m0) == Some(s@),
                decreases xs.len() - i,
            {
                proof {
                    if *p is And {
                        assert(decreases_to!(*p => (*p)->And_0));
                    } else {
                        assert(decreases_to!(*p => (*p)->Or_0));
                    }
                    assert(decreases_to!(*xs => xs@));
                    assert(decreases_to!(xs@ => xs@[i as int]));
                    assert(xs@.take(i as int + 1).drop_last() == xs@.take(i as int));
                    assert(ys@.take(i as int + 1).drop_last() == ys@.take(i as int));
                    assert(xs@.take(i as int + 1).last() == xs@[i as int]);
                    assert(ys@.take(i as int + 1).last() == ys@[i as int]);
                }
                if !match_formula(&xs[i], &ys[i], s) {
                    proof {
                        lemma_formulas_match_prefix(xs@, ys@, m0, i as int + 1);
                    }
                    return false;
                }
                i = i + 1;
            }
            assert(xs@.take(xs.len() as int) == xs@);
            assert(ys@.take(ys.len() as int) == ys@);
            true
        },
        _ => false,
    }
}

/// Binds every universal of the prefix to itself.
fn seed_subst(q: &Vec<(bool, u32)>) -> (s: Subst)
    ensures
        s@ == seed(q@),
{
    let mut s = Subst::new();
    let mut i: usize = 0;
    assert(q@.take(0) =~= Seq::<(bool, u32)>::empty());
    while i < q.len()
        invariant
            0 <= i <= q@.len(),
            s@ == seed(q@.take(i as int)),
        decreases q.len() - i,
    {
        assert(q@.take(i as int + 1).drop_last() == q@.take(i as int));
        assert(q@.take(i as int + 1).last() == q@[i as int]);
        if q[i].0 {
            s.bind(q[i].1, Term::Var(q[i].1));
        }
        i = i + 1;
    }
    assert(q@.take(q@.len() as int) == q@);
    s
}

fn contains_u32(v: &Vec<u32>, x: u32) -> (r: bool)
    ensures
        r == v@.contains(x),
{
    let mut i: usize = 0;
    while i < v.len()
        invariant
            0 <= i <= v@.len(),
            forall|k: int| 0 <= k < i ==> v@[k] != x,
        decreases v.len() - i,
    {
        if v[i] == x {
            assert(v@[i as int] == x);
            return true;
        }
        i = i + 1;
    }
    false
}

/// The Skolem term `f(scope)`.
fn skolem_term_exec(f: u32, scope: &Vec<u32>) -> (t: Term)
    ensures
        t@ == skolem_term(f, scope@),
{
    let mut args: Vec<Term> = Vec::new();
    let mut i: usize = 0;
    while i < scope.len()
        invariant
            0 <= i <= scope@.len(),
            terms_view(args@) == scope@.take(i as int).map_values(|v: u32| STerm::Var(v)),
        decreases scope.len() - i,
    {
        let ghost before = args@;
        args.push(Term::Var(scope[i]));
        proof {
            crate::subst::lemma_terms_view_push(before, Term::Var(scope@[i as int]));
            assert(args@ == before.push(Term::Var(scope@[i as int])));
            assert(scope@.take(i as int + 1).map_values(|v: u32| STerm::Var(v))
                =~= scope@.take(i as int).map_values(|v: u32| STerm::Var(v)).push(STerm::Var(scope@[i as int])));
        }
        i = i + 1;
    }
    assert(scope@.take(scope@.len() as int) == scope@);
    Term::App(f, args)
}

proof fn lemma_universals_step(q: Seq<(bool, u32)>, i: int)
    requires
        0 <= i < q.len(),
    ensures
        universals(q.take(i + 1)) == if q[i].0 { universals(q.take(i)).push(q[i].1) } else { universals(q.take(i)) },
{
    assert(q.take(i + 1).drop_last() == q.take(i));
    assert(q.take(i + 1).last() == q[i]);
}

/// Whether every existential of the prefix is matched to a Skolem term as
/// `witnesses_ok` says.
#[verifier::rlimit(60)]
fn check_witnesses(q: &Vec<(bool, u32)>, s: &Subst, fresh: &Vec<u32>) -> (r: bool)
    ensures
        r == witnesses_ok(q@, s@, fresh@),
{
    let m = Ghost(s@);
    let mut scope: Vec<u32> = Vec::new();
    let mut used: Vec<u32> = Vec::new();
    let mut i: usize = 0;
    assert(q@.take(0) =~= Seq::<(bool, u32)>::empty());
    while i < q.len()
        invariant
            0 <= i <= q@.len(),
            m@ == s@,
            scope@ == universals(q@.take(i as int)),
            forall|k: int| 0 <= k < i && !q@[k].0 ==> {
                &&& s@.contains_key(#[trigger] q@[k].1)
                &&& s@[q@[k].1] is App
                &&& s@[q@[k].1] == skolem_term(s@[q@[k].1]->App_0, universals(q@.take(k)))
                &&& fresh@.contains(s@[q@[k].1]->App_0)
            },
            forall|k1: int, k2: int| 0 <= k1 < k2 < i && !q@[k1].0 && !q@[k2].0
                ==> #[trigger] s@[q@[k1].1]->App_0 != #[trigger] s@[q@[k2].1]->App_0,
            forall|u: u32| used@.contains(u) <==> exists|k: int| 0 <= k < i && !q@[k].0
                && #[trigger] s@[q@[k].1]->App_0 == u,
        decreases q.len() - i,
    {
        proof {
            lemma_universals_step(q@, i as int);
        }
        let (is_universal, x) = q[i];
        if is_universal {
            scope.push(x);
        } else {
            let t = match s.get(x) {
                Some(t) => t,
                None => {
                    return false;
                },
            };
            let f = match t {
                Term::App(f, _) => *f,
                Term::Var(_) => {
                    return false;
                },
            };
            let expected = skolem_term_exec(f, &scope);
            if !crate::subst::term_eq(t, &expected) {
                return false;
            }
            if !contains_u32(fresh, f) {
                return false;
            }
            if contains_u32(&used, f) {
                proof {
                    let k = choose|k: int| 0 <= k < i && !q@[k].0 && #[trigger] s@[q@[k].1]->App_0 == f;
                    assert(s@[q@[k].1]->App_0 == s@[q@[i as int].1]->App_0);
                }
                return false;
            }
            let ghost u0 = used@;
            used.push(f);
            proof {
                assert forall|u: u32| used@.contains(u) <==> exists|k: int| 0 <= k < i + 1 && !q@[k].0
                    && #[trigger] s@[q@[k].1]->App_0 == u by {
                    if used@.contains(u) && u != f {
                        let w = choose|w: int| 0 <= w < used@.len() && used@[w] == u;
                        assert(u0[w] == u);
                        assert(u0.contains(u));
                    }
                    if u == f {
                        assert(used@[used@.len() - 1] == f);
                    }
                    if exists|k: int| 0 <= k < i && !q@[k].0 && #[trigger] s@[q@[k].1]->App_0 == u {
                        assert(u0.contains(u));
                        let w = choose|w: int| 0 <= w < u0.len() && u0[w] == u;
                        assert(used@[w] == u);
                    }
                }
            }
        }
        i = i + 1;
    }
    assert(q@.take(q@.len() as int) == q@);
    let mut j: usize = 0;
    while j < fresh.len()
        invariant
            0 <= j <= fresh@.len(),
            forall|u: u32| used@.contains(u) <==> exists|k: int| 0 <= k < q@.len() && !q@[k].0
                && #[trigger] s@[q@[k].1]->App_0 == u,
            forall|k: int| 0 <= k < j ==> used@.contains(#[trigger] fresh@[k]),
        decreases fresh.len() - j,
    {
        if !contains_u32(&used, fresh[j]) {
            proof {
                assert(fresh@.contains(fresh@[j as int]));
            }
            return false;
        }
        j = j + 1;
    }
    proof {
        assert forall|f: u32| fresh@.contains(f) implies exists|i: int| 0 <= i < q@.len() && !q@[i].0
            && #[trigger] s@[q@[i].1]->App_0 == f by {
            let k = choose|k: int| 0 <= k < fresh@.len() && fresh@[k] == f;
            assert(used@.contains(fresh@[k]));
        }
    }
    true
}

/// Whether the prefix binds each variable once.
fn distinct_prefix(q: &Vec<(bool, u32)>) -> (r: bool)
    ensures
        r == prefix_distinct(q@),
{
    let mut a: usize = 0;
    while a < q.len()
        invariant
            0 <= a <= q@.len(),
            forall|i: int, j: int| 0 <= i < j < q@.len() && i < a ==> q@[i].1 != q@[j].1,
        decreases q.len() - a,
    {
        let mut b: usize = a + 1;
        while b < q.len()
            invariant
                0 <= a < q@.len(),
                a + 1 <= b <= q@.len(),
                forall|i: int, j: int| 0 <= i < j < q@.len() && i < a ==> q@[i].1 != q@[j].1,
                forall|j: int| a < j < b ==> q@[a as int].1 != q@[j].1,
            decreases q.len() - b,
        {
            if q[a].1 == q[b].1 {
                return false;
            }
            b = b + 1;
        }
        a = a + 1;
    }
    true
}

/// Whether `c` is the universals of `q`, each as `(true, x)`, in order.
fn is_universal_prefix(c: &Vec<(bool, u32)>, q: &Vec<(bool, u32)>) -> (r: bool)
    ensures
        r == (c@ == universal_prefix(q@)),
{
    let mut u: Vec<(bool, u32)> = Vec::new();
    let mut i: usize = 0;
    assert(q@.take(0) =~= Seq::<(bool, u32)>::empty());
    while i < q.len()
        invariant
            0 <= i <= q@.len(),
            u@ == universal_prefix(q@.take(i as int)),
        decreases q.len() - i,
    {
        proof {
            lemma_universals_step(q@, i as int);
        }
        if q[i].0 {
            let ghost before = u@;
            u.push((true, q[i].1));
            assert(u@ =~= universal_prefix(q@.take(i as int + 1)));
        } else {
            assert(u@ =~= universal_prefix(q@.take(i as int + 1)));
        }
        i = i + 1;
    }
    assert(q@.take(q@.len() as int) == q@);
    if c.len() != u.len() {
        return false;
    }
    let mut k: usize = 0;
    while k < c.len()
        invariant
            0 <= k <= c@.len(),
            c@.len() == u@.len(),
            u@ == universal_prefix(q@),
            forall|j: int| 0 <= j < k ==> c@[j] == u@[j],
        decreases c.len() - k,
    {
        if c[k].0 != u[k].0 || c[k].1 != u[k].1 {
            assert(c@[k as int] != u@[k as int]);
            return false;
        }
        k = k + 1;
    }
    assert(c@ =~= u@);
    true
}

/// Skolemisation of a prenex parent: the conclusion keeps the parent's
/// universals and replaces each existential by a term over the universals
/// before it, whose symbol is one of the step's fresh symbols, each used
/// once. With no fresh symbol the step must restate its parent.
pub fn verify_skolemisation(node_name: &str, parent: &Formula, conclusion: &Formula, fresh: &Vec<u32>) -> (v: KernelVerdict)
    ensures
        skolemisation_outcome(node_name@, *parent, *conclusion, fresh@, v@),
{
    if fresh.len() == 0 {
        assert(seq![*parent][0] == *parent);
        assert(seq![*parent].len() == 1);
        if crate::identity::formulas_alpha_equal(parent, conclusion) {
            return KernelVerdict::Certified;
        }
        return crate::verdict::rejected("conclusion is not alpha-equivalent to parent");
    }
    let (q, pm) = peel_prefix(parent);
    let (c, cm) = peel_prefix(conclusion);
    let mut has_existential = false;
    let mut i: usize = 0;
    while i < q.len()
        invariant
            0 <= i <= q@.len(),
            has_existential == exists|k: int| 0 <= k < i && !#[trigger] q@[k].0,
        decreases q.len() - i,
    {
        if !q[i].0 {
            has_existential = true;
        }
        i = i + 1;
    }
    if !has_existential {
        return inconclusive("Skolemization introduced symbols without an existential parent");
    }
    if !distinct_prefix(&q) || !is_quantifier_free(pm) || !is_quantifier_free(cm) {
        return inconclusive("strict kernel checks Skolemization of a prenex parent only");
    }
    let mut text = String::from_str("node `");
    text.append(node_name);
    if !is_universal_prefix(&c, &q) {
        text.append("` is not an exact Skolemization of its parent");
        return KernelVerdict::Rejected(text);
    }
    let mut s = seed_subst(&q);
    if !match_formula(pm, cm, &mut s) {
        text.append("` is not an exact Skolemization of its parent");
        return KernelVerdict::Rejected(text);
    }
    if !check_witnesses(&q, &s, fresh) {
        text.append("` does not use exactly its fresh Skolem symbols");
        return KernelVerdict::Rejected(text);
    }
    KernelVerdict::Certified
}

} // verus!
