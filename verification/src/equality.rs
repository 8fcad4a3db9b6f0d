//! Equality normalization: a clause rewritten with ground equations between
//! constants, each constant replaced by the representative of its class.
use vstd::prelude::*;
use crate::term::{Term, Atom, Literal, Formula, STerm, SAtom, SLiteral, clause_view, terms_view, lemma_terms_view};
use crate::verdict::{KernelVerdict, VerdictView, VerificationLimits, rejected, inconclusive};
use crate::clause::{clause_of, clause_from_formula};
use crate::alpha::{clause_alpha, clause_alpha_equiv, lemma_clause_alpha_reflexive};
use crate::measure::{cap, formula_nodes, formula_size};
use crate::subst::term_eq;

verus! {

/// The representative of constant `c` after merging the classes of each
/// pair in turn, the class of the pair's right constant joining that of its
/// left one.
pub open spec fn class_rep(pairs: Seq<(u32, u32)>, c: u32) -> u32
    decreases pairs.len(),
{
    if pairs.len() == 0 {
        c
    } else {
        let prev = pairs.drop_last();
        let (l, r) = pairs.last();
        if class_rep(prev, c) == class_rep(prev, r) {
            class_rep(prev, l)
        } else {
            class_rep(prev, c)
        }
    }
}

/// Some pair names `c`.
pub open spec fn pairs_mention(pairs: Seq<(u32, u32)>, c: u32) -> bool {
    exists|i: int| 0 <= i < pairs.len() && (pairs[i].0 == c || pairs[i].1 == c)
}

proof fn lemma_rep_range(pairs: Seq<(u32, u32)>, c: u32)
    ensures
        class_rep(pairs, c) == c || pairs_mention(pairs, class_rep(pairs, c)),
    decreases pairs.len(),
{
    if pairs.len() > 0 {
        let prev = pairs.drop_last();
        let (l, r) = pairs.last();
        lemma_rep_range(prev, c);
        lemma_rep_range(prev, l);
        let x = class_rep(pairs, c);
        if pairs_mention(prev, x) {
            let i = choose|i: int| 0 <= i < prev.len() && (prev[i].0 == x || prev[i].1 == x);
            assert(pairs[i] == prev[i]);
        }
        if x == l {
            assert(pairs[pairs.len() - 1].0 == l);
        }
    }
}

proof fn lemma_rep_absent(pairs: Seq<(u32, u32)>, c: u32)
    requires
        !pairs_mention(pairs, c),
    ensures
        class_rep(pairs, c) == c,
    decreases pairs.len(),
{
    if pairs.len() > 0 {
        let prev = pairs.drop_last();
        let (l, r) = pairs.last();
        assert(!pairs_mention(prev, c)) by {
            if pairs_mention(prev, c) {
                let i = choose|i: int| 0 <= i < prev.len() && (prev[i].0 == c || prev[i].1 == c);
                assert(pairs[i] == prev[i]);
            }
        }
        lemma_rep_absent(prev, c);
        lemma_rep_range(prev, r);
        assert(r != c) by {
            assert(pairs[pairs.len() - 1].1 == r);
        }
        if class_rep(prev, r) == c {
            assert(pairs_mention(prev, c));
        }
    }
}

/// A term with each constant replaced by its representative.
pub open spec fn normalized_term(t: STerm, pairs: Seq<(u32, u32)>) -> STerm
    decreases t,
{
    match t {
        STerm::Var(_) => t,
        STerm::App(f, args) => if args.len() == 0 {
            STerm::App(class_rep(pairs, f), Seq::empty())
        } else {
            STerm::App(f, normalized_terms(args, pairs))
        },
    }
}

pub open spec fn normalized_terms(ts: Seq<STerm>, pairs: Seq<(u32, u32)>) -> Seq<STerm>
    decreases ts,
{
    if ts.len() == 0 {
        Seq::empty()
    } else {
        normalized_terms(ts.drop_last(), pairs).push(normalized_term(ts.last(), pairs))
    }
}

/// A clause with its constants normalized; an equation whose sides become
/// equal is dropped when negative and makes the clause a tautology (`None`)
/// when positive.
pub open spec fn normalized_clause(c: Seq<SLiteral>, pairs: Seq<(u32, u32)>) -> Option<Seq<SLiteral>>
    decreases c.len(),
{
    if c.len() == 0 {
        Some(Seq::empty())
    } else {
        match normalized_clause(c.drop_last(), pairs) {
            None => None,
            Some(front) => {
                let l = c.last();
                match l.atom {
                    SAtom::Pred(p, args) => Some(front.push(SLiteral {
                        positive: l.positive,
                        atom: SAtom::Pred(p, normalized_terms(args, pairs)),
                    })),
                    SAtom::Eq(a, b) => {
                        let na = normalized_term(a, pairs);
                        let nb = normalized_term(b, pairs);
                        if na == nb {
                            if l.positive {
                                None
                            } else {
                                Some(front)
                            }
                        } else {
                            Some(front.push(SLiteral { positive: l.positive, atom: SAtom::Eq(na, nb) }))
                        }
                    },
                }
            },
        }
    }
}

/// A positive unit equation between two constants.
pub open spec fn constant_equation(c: Seq<SLiteral>) -> Option<(u32, u32)> {
    if c.len() == 1 && c[0].positive && c[0].atom is Eq {
        match (c[0].atom->Eq_0, c[0].atom->Eq_1) {
            (STerm::App(a, la), STerm::App(b, lb)) => if la.len() == 0 && lb.len() == 0 {
                Some((a, b))
            } else {
                None
            },
            _ => None,
        }
    } else {
        None
    }
}

/// Reads the clauses other than `target` from index `i` on as equations
/// between constants: the pairs they give, or `Err(true)` when the first
/// other clause that is none is a positive unit equation (between other
/// terms), `Err(false)` when it is anything else.
pub open spec fn other_equations(cs: Seq<Seq<SLiteral>>, target: int, i: int) -> Result<Seq<(u32, u32)>, bool>
    decreases cs.len() - i,
{
    if i < 0 || i >= cs.len() {
        Ok(Seq::empty())
    } else if i == target {
        other_equations(cs, target, i + 1)
    } else {
        let c = cs[i];
        match constant_equation(c) {
            Some(pair) => match other_equations(cs, target, i + 1) {
                Ok(rest) => Ok(seq![pair] + rest),
                Err(e) => Err(e),
            },
            None => Err(c.len() == 1 && c[0].positive && c[0].atom is Eq),
        }
    }
}

/// Normalizing `cs[target]` and `goal` by the classes the other clauses
/// state gives clauses equal up to renaming.
pub open spec fn normalizes_to(cs: Seq<Seq<SLiteral>>, goal: Seq<SLiteral>, target: int) -> bool {
    match other_equations(cs, target, 0) {
        Ok(pairs) => match (normalized_clause(cs[target], pairs), normalized_clause(goal, pairs)) {
            (Some(nt), Some(ng)) => clause_alpha(nt, ng),
            _ => false,
        },
        Err(_) => false,
    }
}

/// The parents as clauses, when all are.
pub open spec fn parent_clauses(parents: Seq<Formula>, n: usize) -> Option<Seq<Seq<SLiteral>>>
    decreases parents.len(),
{
    if parents.len() == 0 {
        Some(Seq::empty())
    } else {
        match (parent_clauses(parents.drop_last(), n), clause_of(parents.last(), n)) {
            (Some(cs), Some(c)) => Some(cs.push(c)),
            _ => None,
        }
    }
}

/// The verdict on an `equality_normalization` step: some parent, normalized
/// by the constant classes that all the other parents state, equals the
/// normalized conclusion.
pub open spec fn equality_normalization_outcome(parents: Seq<Formula>, conclusion: Formula, limits: VerificationLimits) -> VerdictView {
    let n = limits.max_clause_literals;
    if parents.len() < 2 {
        VerdictView::Rejected("equality_normalization requires a target and equality parents"@)
    } else if (exists|i: int| 0 <= i < parents.len() && cap(formula_nodes(#[trigger] parents[i])) > limits.max_formula_nodes)
        || cap(formula_nodes(conclusion)) > limits.max_formula_nodes {
        VerdictView::Inconclusive("equality_normalization exceeded strict formula-size limit"@)
    } else if clause_of(conclusion, n) is None {
        VerdictView::Inconclusive("equality_normalization conclusion is not a supported clause"@)
    } else if parent_clauses(parents, n) is None {
        VerdictView::Inconclusive("equality_normalization parent is not a supported clause"@)
    } else {
        let cs = parent_clauses(parents, n)->Some_0;
        let goal = clause_of(conclusion, n)->Some_0;
        if exists|k: int| 0 <= k < cs.len() && #[trigger] normalizes_to(cs, goal, k) {
            VerdictView::Certified
        } else if exists|k: int| 0 <= k < cs.len() && #[trigger] other_equations(cs, k, 0) == Err::<Seq<(u32, u32)>, bool>(true) {
            VerdictView::Inconclusive("equality_normalization requires ground constant equalities"@)
        } else {
            VerdictView::Rejected("equality_normalization conclusion is not the normalized target"@)
        }
    }
}

/// Constant classes: each constant named by a merged pair, with its current
/// representative.
struct Classes {
    reps: Vec<(u32, u32)>,
}

spec fn classes_ok(reps: Seq<(u32, u32)>, pairs: Seq<(u32, u32)>) -> bool {
    &&& forall|i: int, j: int| 0 <= i < j < reps.len() ==> reps[i].0 != reps[j].0
    &&& forall|i: int| 0 <= i < reps.len() ==> #[trigger] reps[i].1 == class_rep(pairs, reps[i].0)
    &&& forall|c: u32| pairs_mention(pairs, c) ==> exists|i: int| 0 <= i < reps.len() && #[trigger] reps[i].0 == c
}

fn rep_lookup(reps: &Vec<(u32, u32)>, c: u32, Ghost(pairs): Ghost<Seq<(u32, u32)>>) -> (r: u32)
    requires
        classes_ok(reps@, pairs),
    ensures
        r == class_rep(pairs, c),
{
    let mut i: usize = 0;
    while i < reps.len()
        invariant
            0 <= i <= reps@.len(),
            classes_ok(reps@, pairs),
            forall|k: int| 0 <= k < i ==> reps@[k].0 != c,
        decreases reps.len() - i,
    {
        if reps[i].0 == c {
            assert(reps@[i as int].1 == class_rep(pairs, reps@[i as int].0));
            return reps[i].1;
        }
        i = i + 1;
    }
    proof {
        if pairs_mention(pairs, c) {
            let k = choose|k: int| 0 <= k < reps@.len() && #[trigger] reps@[k].0 == c;
        }
        lemma_rep_absent(pairs, c);
    }
    c
}

fn has_key(reps: &Vec<(u32, u32)>, c: u32) -> (r: bool)
    ensures
        r == exists|i: int| 0 <= i < reps@.len() && #[trigger] reps@[i].0 == c,
{
    let mut i: usize = 0;
    while i < reps.len()
        invariant
            0 <= i <= reps@.len(),
            forall|k: int| 0 <= k < i ==> reps@[k].0 != c,
        decreases reps.len() - i,
    {
        if reps[i].0 == c {
            return true;
        }
        i = i + 1;
    }
    false
}

impl Classes {
    /// Merges the class of `r` into that of `l`.
    fn union(&mut self, l: u32, r: u32, Ghost(pairs): Ghost<Seq<(u32, u32)>>)
        requires
            classes_ok(old(self).reps@, pairs),
        ensures
            classes_ok(final(self).reps@, pairs.push((l, r))),
    {
        let ghost next = pairs.push((l, r));
        let ghost reps0 = self.reps@;
        let lr = rep_lookup(&self.reps, l, Ghost(pairs));
        let rr = rep_lookup(&self.reps, r, Ghost(pairs));
        proof {
            assert(next.drop_last() =~= pairs);
        }
        if !has_key(&self.reps, l) {
            proof {
                if pairs_mention(pairs, l) {
                    let k = choose|k: int| 0 <= k < self.reps@.len() && #[trigger] self.reps@[k].0 == l;
                }
                lemma_rep_absent(pairs, l);
            }
            self.reps.push((l, l));
            assert(self.reps@[self.reps@.len() - 1].0 == l);
        }
        assert(exists|k: int| 0 <= k < self.reps@.len() && #[trigger] self.reps@[k].0 == l);
        assert(forall|k: int| 0 <= k < reps0.len() ==> self.reps@[k] == reps0[k]);
        let ghost reps1 = self.reps@;
        if !has_key(&self.reps, r) {
            proof {
                if pairs_mention(pairs, r) {
                    let k = choose|k: int| 0 <= k < reps0.len() && #[trigger] reps0[k].0 == r;
                    assert(self.reps@[k].0 == r);
                }
                lemma_rep_absent(pairs, r);
            }
            self.reps.push((r, r));
            assert(self.reps@[self.reps@.len() - 1].0 == r);
        }
        let ghost before = self.reps@;
        assert(forall|k: int| 0 <= k < reps1.len() ==> before[k] == reps1[k]);
        assert(exists|k: int| 0 <= k < before.len() && #[trigger] before[k].0 == r);
        assert(exists|k: int| 0 <= k < before.len() && #[trigger] before[k].0 == l) by {
            let k = choose|k: int| 0 <= k < reps1.len() && #[trigger] reps1[k].0 == l;
            assert(before[k].0 == l);
        }
        assert(forall|k: int| 0 <= k < reps0.len() ==> before[k] == reps0[k]);
        assert(forall|i: int| 0 <= i < before.len() ==> #[trigger] before[i].1 == class_rep(pairs, before[i].0)) by {
            assert forall|i: int| 0 <= i < before.len() implies #[trigger] before[i].1 == class_rep(pairs, before[i].0) by {
                if i < reps0.len() {
                    assert(before[i] == reps0[i]);
                }
            }
        }
        let mut i: usize = 0;
        while i < self.reps.len()
            invariant
                0 <= i <= self.reps@.len(),
                self.reps@.len() == before.len(),
                forall|k: int| 0 <= k < before.len() ==> #[trigger] self.reps@[k].0 == before[k].0,
                forall|k: int| 0 <= k < i ==> #[trigger] self.reps@[k].1 == class_rep(next, before[k].0),
                forall|k: int| i <= k < before.len() ==> #[trigger] self.reps@[k].1 == before[k].1,
                forall|k: int| 0 <= k < before.len() ==> #[trigger] before[k].1 == class_rep(pairs, before[k].0),
                lr == class_rep(pairs, l),
                rr == class_rep(pairs, r),
                next == pairs.push((l, r)),
                next.drop_last() == pairs,
                next.last() == (l, r),
            decreases self.reps.len() - i,
        {
            let (key, value) = self.reps[i];
            if value == rr && lr != rr {
                self.reps.set(i, (key, lr));
            }
            i = i + 1;
        }
        proof {
            let reps = self.reps@;
            assert forall|a: int, b: int| 0 <= a < b < reps.len() implies reps[a].0 != reps[b].0 by {
                assert(reps[a].0 == before[a].0 && reps[b].0 == before[b].0);
            }
            assert forall|c: u32| pairs_mention(next, c) implies exists|k: int| 0 <= k < reps.len() && #[trigger] reps[k].0 == c by {
                let j = choose|j: int| 0 <= j < next.len() && (next[j].0 == c || next[j].1 == c);
                if j < pairs.len() as int {
                    assert(next[j] == pairs[j]);
                    assert(pairs_mention(pairs, c));
                    let k = choose|k: int| 0 <= k < reps0.len() && #[trigger] reps0[k].0 == c;
                    assert(reps[k].0 == before[k].0);
                } else if c == l {
                    let k = choose|k: int| 0 <= k < before.len() && #[trigger] before[k].0 == l;
                    assert(reps[k].0 == l);
                } else {
                    let k = choose|k: int| 0 <= k < before.len() && #[trigger] before[k].0 == r;
                    assert(reps[k].0 == r);
                }
            }
        }
    }
}

fn normalize_term(t: &Term, classes: &Classes, Ghost(pairs): Ghost<Seq<(u32, u32)>>) -> (r: Term)
    requires
        classes_ok(classes.reps@, pairs),
    ensures
        r@ == normalized_term(t@, pairs),
    decreases t,
{
    match t {
        Term::Var(v) => Term::Var(*v),
        Term::App(f, args) => {
            proof {
                lemma_terms_view(args@);
            }
            if args.len() == 0 {
                let rep = rep_lookup(&classes.reps, *f, Ghost(pairs));
                let out = Term::App(rep, Vec::new());
                assert(terms_view(Seq::<Term>::empty()) =~= Seq::<STerm>::empty());
                return out;
            }
            let mut out: Vec<Term> = Vec::new();
            let mut i: usize = 0;
            while i < args.len()
                invariant
                    0 <= i <= args.len(),
                    *t is App,
                    (*t)->App_1 == *args,
                    classes_ok(classes.reps@, pairs),
                    terms_view(out@) == normalized_terms(terms_view(args@).take(i as int), pairs),
                    terms_view(args@).len() == args@.len(),
                    forall|k: int| 0 <= k < args@.len() ==> #[trigger] terms_view(args@)[k] == args@[k]@,
                decreases args.len() - i,
            {
                proof {
                    assert(decreases_to!(*t => (*t)->App_1));
                    assert(decreases_to!((*t)->App_1 => (*t)->App_1@));
                    assert(decreases_to!(args@ => args@[i as int]));
                }
                let n = normalize_term(&args[i], classes, Ghost(pairs));
                let ghost before = out@;
                out.push(n);
                proof {
                    crate::subst::lemma_terms_view_push(before, n);
                    let tv = terms_view(args@);
                    assert(tv.take(i as int + 1).drop_last() =~= tv.take(i as int));
                    assert(tv.take(i as int + 1).last() == args@[i as int]@);
                }
                i = i + 1;
            }
            proof {
                assert(terms_view(args@).take(args@.len() as int) =~= terms_view(args@));
            }
            Term::App(*f, out)
        },
    }
}

fn normalize_clause(c: &Vec<Literal>, classes: &Classes, Ghost(pairs): Ghost<Seq<(u32, u32)>>) -> (r: Option<Vec<Literal>>)
    requires
        classes_ok(classes.reps@, pairs),
    ensures
        match normalized_clause(clause_view(c@), pairs) {
            Some(n) => r matches Some(v) && clause_view(v@) == n,
            None => r is None,
        },
{
    let ghost cv = clause_view(c@);
    let mut out: Vec<Literal> = Vec::new();
    let mut i: usize = 0;
    while i < c.len()
        invariant
            0 <= i <= c@.len(),
            cv == clause_view(c@),
            classes_ok(classes.reps@, pairs),
            normalized_clause(cv.take(i as int), pairs) == Some(clause_view(out@)),
        decreases c.len() - i,
    {
        proof {
            assert(cv.take(i as int + 1).drop_last() =~= cv.take(i as int));
            assert(cv.take(i as int + 1).last() == c@[i as int]@);
        }
        let lit = &c[i];
        let ghost before = out@;
        match &lit.atom {
            Atom::Pred(p, args) => {
                proof {
                    lemma_terms_view(args@);
                }
                let mut nargs: Vec<Term> = Vec::new();
                let mut k: usize = 0;
                while k < args.len()
                    invariant
                        0 <= k <= args.len(),
                        classes_ok(classes.reps@, pairs),
                        terms_view(nargs@) == normalized_terms(terms_view(args@).take(k as int), pairs),
                        terms_view(args@).len() == args@.len(),
                        forall|m: int| 0 <= m < args@.len() ==> #[trigger] terms_view(args@)[m] == args@[m]@,
                    decreases args.len() - k,
                {
                    let n = normalize_term(&args[k], classes, Ghost(pairs));
                    let ghost nb = nargs@;
                    nargs.push(n);
                    proof {
                        crate::subst::lemma_terms_view_push(nb, n);
                        let tv = terms_view(args@);
                        assert(tv.take(k as int + 1).drop_last() =~= tv.take(k as int));
                        assert(tv.take(k as int + 1).last() == args@[k as int]@);
                    }
                    k = k + 1;
                }
                proof {
                    assert(terms_view(args@).take(args@.len() as int) =~= terms_view(args@));
                }
                out.push(Literal { positive: lit.positive, atom: Atom::Pred(*p, nargs) });
                assert(clause_view(out@) =~= clause_view(before).push(out@[out@.len() - 1]@));
            },
            Atom::Eq(a, b) => {
                let na = normalize_term(a, classes, Ghost(pairs));
                let nb = normalize_term(b, classes, Ghost(pairs));
                if term_eq(&na, &nb) {
                    if lit.positive {
                        proof {
                            lemma_normalized_none(cv, pairs, i as int + 1);
                            assert(cv.take(cv.len() as int) =~= cv);
                        }
                        return None;
                    }
                } else {
                    out.push(Literal { positive: lit.positive, atom: Atom::Eq(na, nb) });
                    assert(clause_view(out@) =~= clause_view(before).push(out@[out@.len() - 1]@));
                }
            },
        }
        i = i + 1;
    }
    assert(cv.take(cv.len() as int) =~= cv);
    Some(out)
}

proof fn lemma_normalized_none(c: Seq<SLiteral>, pairs: Seq<(u32, u32)>, k: int)
    requires
        0 <= k <= c.len(),
        normalized_clause(c.take(k), pairs) is None,
    ensures
        normalized_clause(c.take(c.len() as int), pairs) is None,
    decreases c.len() - k,
{
    if k < c.len() {
        assert(c.take(k + 1).drop_last() =~= c.take(k));
        lemma_normalized_none(c, pairs, k + 1);
    }
}

/// The pair of constants of a positive unit equation between constants.
fn constant_pair(c: &Vec<Literal>) -> (r: Option<(u32, u32)>)
    ensures
        r == constant_equation(clause_view(c@)),
{
    if c.len() != 1 || !c[0].positive {
        return None;
    }
    assert(clause_view(c@)[0] == c@[0]@);
    match &c[0].atom {
        Atom::Eq(Term::App(a, la), Term::App(b, lb)) => {
            proof {
                lemma_terms_view(la@);
                lemma_terms_view(lb@);
            }
            if la.len() == 0 && lb.len() == 0 {
                Some((*a, *b))
            } else {
                None
            }
        },
        _ => None,
    }
}

fn is_unit_equation(c: &Vec<Literal>) -> (r: bool)
    ensures
        r == {
            let cv = clause_view(c@);
            cv.len() == 1 && cv[0].positive && cv[0].atom is Eq
        },
{
    if c.len() != 1 {
        return false;
    }
    assert(clause_view(c@)[0] == c@[0]@);
    c[0].positive && match &c[0].atom {
        Atom::Eq(_, _) => true,
        _ => false,
    }
}

/// The constant classes the parents other than `target` state, or whether
/// the first that states none is a positive unit equation.
#[verifier::loop_isolation(false)]
fn classes_for(parsed: &Vec<Vec<Literal>>, target: usize) -> (r: Result<(Classes, Ghost<Seq<(u32, u32)>>), bool>)
    requires
        target < parsed@.len(),
    ensures
        match other_equations(parsed@.map_values(|c: Vec<Literal>| clause_view(c@)), target as int, 0) {
            Ok(pairs) => r matches Ok((classes, g)) && g@ == pairs && classes_ok(classes.reps@, pairs),
            Err(e) => r == Err::<(Classes, Ghost<Seq<(u32, u32)>>), bool>(e),
        },
{
    let ghost cs = parsed@.map_values(|c: Vec<Literal>| clause_view(c@));
    let mut classes = Classes { reps: Vec::new() };
    let ghost mut pairs: Seq<(u32, u32)> = Seq::empty();
    let mut i: usize = 0;
    proof {
        assert forall|c: u32| pairs_mention(pairs, c) implies exists|k: int| 0 <= k < classes.reps@.len() && #[trigger] classes.reps@[k].0 == c by {}
        match other_equations(cs, target as int, 0) {
            Ok(all) => assert(all == pairs + all),
            Err(_) => {},
        }
    }
    while i < parsed.len()
        invariant
            0 <= i <= parsed@.len(),
            cs == parsed@.map_values(|c: Vec<Literal>| clause_view(c@)),
            classes_ok(classes.reps@, pairs),
            match other_equations(cs, target as int, 0) {
                Ok(all) => other_equations(cs, target as int, i as int) matches Ok(rest) && all == pairs + rest,
                Err(e) => other_equations(cs, target as int, i as int) == Err::<Seq<(u32, u32)>, bool>(e),
            },
        decreases parsed.len() - i,
    {
        if i != target {
            assert(cs[i as int] == clause_view(parsed@[i as int]@));
            match constant_pair(&parsed[i]) {
                Some((l, r)) => {
                    classes.union(l, r, Ghost(pairs));
                    proof {
                        match other_equations(cs, target as int, 0) {
                            Ok(all) => {
                                let rest = other_equations(cs, target as int, i as int + 1)->Ok_0;
                                assert(all == pairs.push((l, r)) + rest);
                            },
                            Err(_) => {},
                        }
                        pairs = pairs.push((l, r));
                    }
                },
                None => {
                    let quiet = !is_unit_equation(&parsed[i]);
                    return Err(!quiet);
                },
            }
        }
        i = i + 1;
    }
    proof {
        match other_equations(cs, target as int, 0) {
            Ok(all) => assert(all =~= pairs),
            Err(_) => {},
        }
    }
    Ok((classes, Ghost(pairs)))
}

/// Equality normalization: a parent and the conclusion become equal once
/// each constant is replaced by the representative of its class under the
/// ground constant equations the other parents state.
#[verifier::loop_isolation(false)]
pub fn verify_equality_normalization(parents: &[Formula], conclusion: &Formula, limits: VerificationLimits) -> (v: KernelVerdict)
    ensures
        v@ == equality_normalization_outcome(parents@, *conclusion, limits),
{
    if parents.len() < 2 {
        return rejected("equality_normalization requires a target and equality parents");
    }
    let mut i: usize = 0;
    let mut too_big = false;
    while i < parents.len()
        invariant
            0 <= i <= parents@.len(),
            too_big == exists|k: int| 0 <= k < i && cap(formula_nodes(#[trigger] parents@[k])) > limits.max_formula_nodes,
        decreases parents.len() - i,
    {
        if formula_size(&parents[i]) > limits.max_formula_nodes {
            too_big = true;
        }
        i = i + 1;
    }
    if too_big || formula_size(conclusion) > limits.max_formula_nodes {
        return inconclusive("equality_normalization exceeded strict formula-size limit");
    }
    let goal = match clause_from_formula(conclusion, limits) {
        Some(c) => c,
        None => return inconclusive("equality_normalization conclusion is not a supported clause"),
    };
    let mut parsed: Vec<Vec<Literal>> = Vec::new();
    let mut j: usize = 0;
    while j < parents.len()
        invariant
            0 <= j <= parents@.len(),
            parsed@.len() == j,
            parent_clauses(parents@.take(j as int), limits.max_clause_literals) == Some(parsed@.map_values(|c: Vec<Literal>| clause_view(c@))),
        decreases parents.len() - j,
    {
        proof {
            assert(parents@.take(j as int + 1).drop_last() =~= parents@.take(j as int));
        }
        match clause_from_formula(&parents[j], limits) {
            Some(c) => {
                let ghost before = parsed@;
                parsed.push(c);
                assert(parsed@.map_values(|c: Vec<Literal>| clause_view(c@))
                    =~= before.map_values(|c: Vec<Literal>| clause_view(c@)).push(clause_view(parsed@[j as int]@)));
            },
            None => {
                proof {
                    lemma_parent_clauses_none(parents@, limits.max_clause_literals, j as int + 1);
                    assert(parents@.take(parents@.len() as int) =~= parents@);
                }
                return inconclusive("equality_normalization parent is not a supported clause");
            },
        }
        j = j + 1;
    }
    assert(parents@.take(parents@.len() as int) =~= parents@);
    let ghost cs = parsed@.map_values(|c: Vec<Literal>| clause_view(c@));
    let ghost gv = clause_view(goal@);
    let mut saw_inconclusive = false;
    let mut target: usize = 0;
    while target < parsed.len()
        invariant
            0 <= target <= parsed@.len(),
            cs == parsed@.map_values(|c: Vec<Literal>| clause_view(c@)),
            gv == clause_view(goal@),
            forall|k: int| 0 <= k < target ==> !#[trigger] normalizes_to(cs, gv, k),
            saw_inconclusive == exists|k: int| 0 <= k < target
                && #[trigger] other_equations(cs, k, 0) == Err::<Seq<(u32, u32)>, bool>(true),
        decreases parsed.len() - target,
    {
        assert(cs[target as int] == clause_view(parsed@[target as int]@));
        match classes_for(&parsed, target) {
            Err(flag) => {
                if flag {
                    saw_inconclusive = true;
                }
            },
            Ok((classes, g)) => {
                let ghost pairs = g@;
                let nt = normalize_clause(&parsed[target], &classes, Ghost(pairs));
                let ng = normalize_clause(&goal, &classes, Ghost(pairs));
                match (nt, ng) {
                    (Some(a), Some(b)) => {
                        if clause_alpha_equiv(&a, &b) {
                            assert(normalizes_to(cs, gv, target as int));
                            return KernelVerdict::Certified;
                        }
                    },
                    _ => {},
                }
            },
        }
        target = target + 1;
    }
    if saw_inconclusive {
        return inconclusive("equality_normalization requires ground constant equalities");
    }
    rejected("equality_normalization conclusion is not the normalized target")
}

proof fn lemma_parent_clauses_none(parents: Seq<Formula>, n: usize, k: int)
    requires
        0 <= k <= parents.len(),
        parent_clauses(parents.take(k), n) is None,
    ensures
        parent_clauses(parents.take(parents.len() as int), n) is None,
    decreases parents.len() - k,
{
    if k < parents.len() {
        assert(parents.take(k + 1).drop_last() =~= parents.take(k));
        lemma_parent_clauses_none(parents, n, k + 1);
    }
}

/// Two terms that agree but for constants of one class: the same variable,
/// two constants with one representative, or one function symbol applied to
/// arguments that agree in turn.
pub open spec fn same_class_term(s: STerm, t: STerm, pairs: Seq<(u32, u32)>) -> bool
    decreases s,
{
    match s {
        STerm::Var(x) => t == STerm::Var(x),
        STerm::App(f, xs) => match t {
            STerm::Var(_) => false,
            STerm::App(g, ys) => if xs.len() == 0 || ys.len() == 0 {
                xs.len() == 0 && ys.len() == 0 && class_rep(pairs, f) == class_rep(pairs, g)
            } else {
                f == g && same_class_terms(xs, ys, pairs)
            },
        },
    }
}

pub open spec fn same_class_terms(xs: Seq<STerm>, ys: Seq<STerm>, pairs: Seq<(u32, u32)>) -> bool
    decreases xs,
{
    if xs.len() == 0 {
        ys.len() == 0
    } else {
        &&& ys.len() == xs.len()
        &&& same_class_terms(xs.drop_last(), ys.drop_last(), pairs)
        &&& same_class_term(xs.last(), ys.last(), pairs)
    }
}

/// Two literals of one sign whose atoms agree but for constants of one class,
/// each side of an equation with the same side of the other.
pub open spec fn same_class_literal(a: SLiteral, b: SLiteral, pairs: Seq<(u32, u32)>) -> bool {
    &&& a.positive == b.positive
    &&& match (a.atom, b.atom) {
        (SAtom::Pred(p, xs), SAtom::Pred(q, ys)) => p == q && same_class_terms(xs, ys, pairs),
        (SAtom::Eq(x1, x2), SAtom::Eq(y1, y2)) => same_class_term(x1, y1, pairs) && same_class_term(x2, y2, pairs),
        _ => false,
    }
}

/// Two clauses that agree literal by literal but for constants of one class.
pub open spec fn same_class_clauses(c: Seq<SLiteral>, d: Seq<SLiteral>, pairs: Seq<(u32, u32)>) -> bool {
    &&& c.len() == d.len()
    &&& forall|i: int| 0 <= i < c.len() ==> #[trigger] same_class_literal(c[i], d[i], pairs)
}

/// No positive equation of `c` has its two sides in one class.
pub open spec fn no_trivial_positive_equation(c: Seq<SLiteral>, pairs: Seq<(u32, u32)>) -> bool {
    forall|i: int| 0 <= i < c.len() && c[i].positive && #[trigger] c[i].atom is Eq
        ==> !same_class_term(c[i].atom->Eq_0, c[i].atom->Eq_1, pairs)
}

proof fn lemma_normalized_terms_len(ts: Seq<STerm>, pairs: Seq<(u32, u32)>)
    ensures
        normalized_terms(ts, pairs).len() == ts.len(),
    decreases ts.len(),
{
    if ts.len() > 0 {
        lemma_normalized_terms_len(ts.drop_last(), pairs);
    }
}

/// Two terms normalize to one term exactly when they agree but for constants
/// of one class.
pub proof fn lemma_normalized_term_same_class(s: STerm, t: STerm, pairs: Seq<(u32, u32)>)
    ensures
        same_class_term(s, t, pairs) <==> normalized_term(s, pairs) == normalized_term(t, pairs),
    decreases s,
{
    match s {
        STerm::Var(x) => {},
        STerm::App(f, xs) => match t {
            STerm::Var(_) => {},
            STerm::App(g, ys) => {
                lemma_normalized_terms_len(xs, pairs);
                lemma_normalized_terms_len(ys, pairs);
                if xs.len() != 0 && ys.len() != 0 {
                    lemma_normalized_terms_same_class(xs, ys, pairs);
                }
            },
        },
    }
}

pub proof fn lemma_normalized_terms_same_class(xs: Seq<STerm>, ys: Seq<STerm>, pairs: Seq<(u32, u32)>)
    ensures
        same_class_terms(xs, ys, pairs) <==> normalized_terms(xs, pairs) == normalized_terms(ys, pairs),
    decreases xs,
{
    lemma_normalized_terms_len(xs, pairs);
    lemma_normalized_terms_len(ys, pairs);
    if xs.len() > 0 && ys.len() == xs.len() {
        let nx = normalized_terms(xs, pairs);
        let ny = normalized_terms(ys, pairs);
        lemma_normalized_terms_same_class(xs.drop_last(), ys.drop_last(), pairs);
        lemma_normalized_term_same_class(xs.last(), ys.last(), pairs);
        if nx == ny {
            assert(nx.drop_last() =~= normalized_terms(xs.drop_last(), pairs));
            assert(ny.drop_last() =~= normalized_terms(ys.drop_last(), pairs));
            assert(nx.last() == normalized_term(xs.last(), pairs));
            assert(ny.last() == normalized_term(ys.last(), pairs));
        }
    }
}

proof fn lemma_normalized_clause_same_class(c: Seq<SLiteral>, d: Seq<SLiteral>, pairs: Seq<(u32, u32)>)
    requires
        same_class_clauses(c, d, pairs),
    ensures
        normalized_clause(c, pairs) == normalized_clause(d, pairs),
    decreases c.len(),
{
    if c.len() > 0 {
        assert(same_class_clauses(c.drop_last(), d.drop_last(), pairs)) by {
            assert forall|i: int| 0 <= i < c.len() - 1 implies #[trigger] same_class_literal(c.drop_last()[i], d.drop_last()[i], pairs) by {
                assert(same_class_literal(c[i], d[i], pairs));
            }
        }
        lemma_normalized_clause_same_class(c.drop_last(), d.drop_last(), pairs);
        let l = c.last();
        let m = d.last();
        assert(same_class_literal(c[c.len() - 1], d[d.len() - 1], pairs));
        match (l.atom, m.atom) {
            (SAtom::Pred(p, xs), SAtom::Pred(q, ys)) => {
                lemma_normalized_terms_same_class(xs, ys, pairs);
            },
            (SAtom::Eq(x1, x2), SAtom::Eq(y1, y2)) => {
                lemma_normalized_term_same_class(x1, y1, pairs);
                lemma_normalized_term_same_class(x2, y2, pairs);
            },
            _ => {},
        }
    }
}

proof fn lemma_normalized_clause_some(c: Seq<SLiteral>, pairs: Seq<(u32, u32)>)
    requires
        no_trivial_positive_equation(c, pairs),
    ensures
        normalized_clause(c, pairs) is Some,
    decreases c.len(),
{
    if c.len() > 0 {
        assert(no_trivial_positive_equation(c.drop_last(), pairs)) by {
            assert forall|i: int| 0 <= i < c.len() - 1 && c.drop_last()[i].positive && #[trigger] c.drop_last()[i].atom is Eq
                implies !same_class_term(c.drop_last()[i].atom->Eq_0, c.drop_last()[i].atom->Eq_1, pairs) by {
                assert(c[i] == c.drop_last()[i]);
            }
        }
        lemma_normalized_clause_some(c.drop_last(), pairs);
        let l = c.last();
        match l.atom {
            SAtom::Eq(a, b) => {
                assert(c[c.len() - 1].atom is Eq);
                lemma_normalized_term_same_class(a, b, pairs);
            },
            _ => {},
        }
    }
}

/// A parent that agrees with the conclusion literal by literal, but for
/// constants that the other parents put in one class, certifies an
/// `equality_normalization` step: both sides of every equation are
/// normalized, and no positive equation of it collapses.
pub proof fn lemma_normalization_certifies_class_variants(
    parents: Seq<Formula>,
    conclusion: Formula,
    limits: VerificationLimits,
    k: int,
)
    requires
        parents.len() >= 2,
        forall|i: int| 0 <= i < parents.len() ==> cap(formula_nodes(#[trigger] parents[i])) <= limits.max_formula_nodes,
        cap(formula_nodes(conclusion)) <= limits.max_formula_nodes,
        clause_of(conclusion, limits.max_clause_literals) is Some,
        parent_clauses(parents, limits.max_clause_literals) is Some,
        0 <= k < parents.len(),
        ({
            let cs = parent_clauses(parents, limits.max_clause_literals)->Some_0;
            let goal = clause_of(conclusion, limits.max_clause_literals)->Some_0;
            &&& other_equations(cs, k, 0) is Ok
            &&& same_class_clauses(cs[k], goal, other_equations(cs, k, 0)->Ok_0)
            &&& no_trivial_positive_equation(cs[k], other_equations(cs, k, 0)->Ok_0)
        }),
    ensures
        equality_normalization_outcome(parents, conclusion, limits) == VerdictView::Certified,
{
    let n = limits.max_clause_literals;
    let cs = parent_clauses(parents, n)->Some_0;
    let goal = clause_of(conclusion, n)->Some_0;
    let pairs = other_equations(cs, k, 0)->Ok_0;
    lemma_parent_clauses_len(parents, n);
    lemma_normalized_clause_same_class(cs[k], goal, pairs);
    lemma_normalized_clause_some(cs[k], pairs);
    lemma_clause_alpha_reflexive(normalized_clause(cs[k], pairs)->Some_0);
    assert(normalizes_to(cs, goal, k));
}

proof fn lemma_parent_clauses_len(parents: Seq<Formula>, n: usize)
    requires
        parent_clauses(parents, n) is Some,
    ensures
        parent_clauses(parents, n)->Some_0.len() == parents.len(),
    decreases parents.len(),
{
    if parents.len() > 0 {
        lemma_parent_clauses_len(parents.drop_last(), n);
    }
}

} // verus!
