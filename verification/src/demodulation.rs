//! Demodulation: rewriting a target clause with oriented unit (or
//! conditional) equations from the other parents.
use vstd::prelude::*;
use crate::term::{Term, Atom, Literal, Formula, STerm, SAtom, SLiteral, clause_view, terms_view, lemma_terms_view, copy_term};
use crate::verdict::{KernelVerdict, VerdictView, VerificationLimits, rejected, inconclusive};
use crate::clause::{clause_of, clause_from_formula, clause_contains, copy_clause, copy_literal, literal_eq};
use crate::alpha::{clause_alpha, clause_alpha_equiv};
use crate::subst::term_eq;
use crate::unify::{vars_of, vars_all, lemma_vars_all, occurs};
use crate::inference::{ground, ground_all, is_ground};
use crate::instance::{shift_sclause, shift_clause, max_var_clause, max_var_term};
use crate::measure::term_size;
use crate::rewrite::{rules_view, atom_rewrites_once, rewrite_atom};

verus! {

/// All terms of the list are ground.
pub proof fn lemma_ground_all(ts: Seq<STerm>)
    ensures
        ground_all(ts) <==> forall|i: int| 0 <= i < ts.len() ==> ground(#[trigger] ts[i]),
    decreases ts.len(),
{
    if ts.len() > 0 {
        lemma_ground_all(ts.drop_last());
        assert(ts[ts.len() - 1] == ts.last());
        if ground_all(ts) {
            assert forall|i: int| 0 <= i < ts.len() implies ground(#[trigger] ts[i]) by {
                if i < ts.len() - 1 {
                    assert(ts.drop_last()[i] == ts[i]);
                }
            }
        }
        if forall|i: int| 0 <= i < ts.len() ==> ground(#[trigger] ts[i]) {
            assert forall|i: int| 0 <= i < ts.drop_last().len() implies ground(#[trigger] ts.drop_last()[i]) by {
                assert(ts.drop_last()[i] == ts[i]);
            }
        }
    }
}

/// A literal without variables.
pub open spec fn literal_ground(l: SLiteral) -> bool {
    match l.atom {
        SAtom::Pred(_, args) => ground_all(args),
        SAtom::Eq(a, b) => ground(a) && ground(b),
    }
}

pub fn literal_is_ground(l: &Literal) -> (r: bool)
    ensures
        r == literal_ground(l@),
{
    match &l.atom {
        Atom::Pred(p, args) => {
            proof {
                lemma_terms_view(args@);
                lemma_ground_all(terms_view(args@));
                assert(l@.atom == SAtom::Pred(*p, terms_view(args@)));
            }
            let mut i: usize = 0;
            while i < args.len()
                invariant
                    0 <= i <= args.len(),
                    forall|k: int| 0 <= k < i ==> ground(#[trigger] terms_view(args@)[k]),
                    l@.atom == SAtom::Pred(*p, terms_view(args@)),
                    ground_all(terms_view(args@)) <==> forall|k: int| 0 <= k < terms_view(args@).len() ==> ground(#[trigger] terms_view(args@)[k]),
                    terms_view(args@).len() == args@.len(),
                    forall|k: int| 0 <= k < args@.len() ==> #[trigger] terms_view(args@)[k] == args@[k]@,
                decreases args.len() - i,
            {
                if !is_ground(&args[i]) {
                    assert(!ground(terms_view(args@)[i as int]));
                    return false;
                }
                i = i + 1;
            }
            true
        },
        Atom::Eq(a, b) => is_ground(a) && is_ground(b),
    }
}

/// Whether every variable of `a` occurs in `b`.
pub fn vars_subset(a: &Term, b: &Term) -> (r: bool)
    ensures
        r == vars_of(a@).subset_of(vars_of(b@)),
    decreases a,
{
    match a {
        Term::Var(v) => {
            proof {
                assert(vars_of(a@) == set![*v]);
                assert(set![*v].contains(*v));
            }
            occurs(*v, b)
        },
        Term::App(f, args) => {
            proof {
                lemma_terms_view(args@);
                lemma_vars_all(terms_view(args@));
                assert(a@ == STerm::App(*f, terms_view(args@)));
            }
            let mut i: usize = 0;
            while i < args.len()
                invariant
                    0 <= i <= args.len(),
                    *a is App,
                    (*a)->App_1 == *args,
                    (*a)->App_0 == *f,
                    a@ == STerm::App(*f, terms_view(args@)),
                    terms_view(args@).len() == args@.len(),
                    forall|k: int| 0 <= k < args@.len() ==> #[trigger] terms_view(args@)[k] == args@[k]@,
                    forall|k: int| 0 <= k < i ==> vars_of(#[trigger] terms_view(args@)[k]).subset_of(vars_of(b@)),
                    forall|v: u32| vars_all(terms_view(args@)).contains(v) <==> exists|k: int| 0 <= k < terms_view(args@).len() && #[trigger] vars_of(terms_view(args@)[k]).contains(v),
                decreases args.len() - i,
            {
                proof {
                    assert(decreases_to!(*a => (*a)->App_1));
                    assert(decreases_to!((*a)->App_1 => (*a)->App_1@));
                    assert(decreases_to!(args@ => args@[i as int]));
                }
                if !vars_subset(&args[i], b) {
                    proof {
                        let w = choose|w: u32| vars_of(args@[i as int]@).contains(w) && !vars_of(b@).contains(w);
                        assert(vars_of(terms_view(args@)[i as int]).contains(w));
                        assert(vars_all(terms_view(args@)).contains(w));
                    }
                    return false;
                }
                i = i + 1;
            }
            proof {
                assert(vars_of(a@) == vars_all(terms_view(args@)));
                assert forall|w: u32| vars_of(a@).contains(w) implies vars_of(b@).contains(w) by {
                    assert(vars_all(terms_view(args@)).contains(w));
                    let k = choose|k: int| 0 <= k < terms_view(args@).len() && #[trigger] vars_of(terms_view(args@)[k]).contains(w);
                }
            }
            true
        },
    }
}

/// A positive equation.
pub open spec fn is_positive_equation(l: SLiteral) -> bool {
    l.positive && l.atom is Eq
}

/// Where the only positive equation of a clause is: `Err(true)` for two
/// or more, `Err(false)` for none.
fn equation_index(c: &Vec<Literal>) -> (r: Result<usize, bool>)
    ensures
        r matches Ok(e) ==> e < c@.len() && is_positive_equation(clause_view(c@)[e as int])
            && forall|i: int| 0 <= i < c@.len() && i != e ==> !is_positive_equation(#[trigger] clause_view(c@)[i]),
        r == Err::<usize, bool>(true) ==> exists|i1: int, i2: int| 0 <= i1 < i2 < c@.len()
            && #[trigger] is_positive_equation(clause_view(c@)[i1]) && #[trigger] is_positive_equation(clause_view(c@)[i2]),
        r == Err::<usize, bool>(false) ==> forall|i: int| 0 <= i < c@.len() ==> !is_positive_equation(#[trigger] clause_view(c@)[i]),
{
    let ghost cv = clause_view(c@);
    let mut found: Option<usize> = None;
    let mut i: usize = 0;
    while i < c.len()
        invariant
            0 <= i <= c.len(),
            cv == clause_view(c@),
            match found {
                Some(e) => e < i && is_positive_equation(cv[e as int])
                    && forall|k: int| 0 <= k < i && k != e ==> !is_positive_equation(#[trigger] cv[k]),
                None => forall|k: int| 0 <= k < i ==> !is_positive_equation(#[trigger] cv[k]),
            },
        decreases c.len() - i,
    {
        assert(cv[i as int] == c@[i as int]@);
        if c[i].positive && matches!(c[i].atom, Atom::Eq(_, _)) {
            match found {
                Some(e) => {
                    assert(is_positive_equation(cv[e as int]) && is_positive_equation(cv[i as int]));
                    return Err(true);
                },
                None => {
                    found = Some(i);
                },
            }
        }
        i = i + 1;
    }
    match found {
        Some(e) => Ok(e),
        None => Err(false),
    }
}

/// A literal of an equality parent is justified: it is in the target, or it
/// is ground and in the conclusion.
pub open spec fn condition_justified(l: SLiteral, target: Seq<SLiteral>, goal: Seq<SLiteral>) -> bool {
    target.contains(l) || (literal_ground(l) && goal.contains(l))
}

/// Checks the literals of `c` other than its equation `e`, collecting the
/// ground ones taken from the conclusion.
fn check_conditions(
    c: &Vec<Literal>,
    e: usize,
    target: &Vec<Literal>,
    goal: &Vec<Literal>,
    conds: &mut Vec<Literal>,
) -> (r: bool)
    requires
        e < c@.len(),
        forall|k: int| 0 <= k < old(conds)@.len() ==> literal_ground(#[trigger] old(conds)@[k]@)
            && clause_view(goal@).contains(old(conds)@[k]@),
    ensures
        forall|k: int| 0 <= k < final(conds)@.len() ==> literal_ground(#[trigger] final(conds)@[k]@)
            && clause_view(goal@).contains(final(conds)@[k]@),
        r ==> forall|i: int| 0 <= i < c@.len() && i != e ==> #[trigger] condition_justified(
            clause_view(c@)[i], clause_view(target@), clause_view(goal@)),
        !r ==> exists|i: int| 0 <= i < c@.len() && i != e && !#[trigger] condition_justified(
            clause_view(c@)[i], clause_view(target@), clause_view(goal@)),
        c@.len() == 1 ==> final(conds)@ == old(conds)@,
{
    let ghost cv = clause_view(c@);
    let ghost tv = clause_view(target@);
    let ghost gv = clause_view(goal@);
    let mut i: usize = 0;
    while i < c.len()
        invariant
            0 <= i <= c.len(),
            e < c@.len(),
            cv == clause_view(c@),
            tv == clause_view(target@),
            gv == clause_view(goal@),
            forall|k: int| 0 <= k < conds@.len() ==> literal_ground(#[trigger] conds@[k]@) && gv.contains(conds@[k]@),
            forall|k: int| 0 <= k < i && k != e ==> #[trigger] condition_justified(cv[k], tv, gv),
            c@.len() == 1 ==> conds@ == old(conds)@,
        decreases c.len() - i,
    {
        assert(cv[i as int] == c@[i as int]@);
        if i != e && !clause_contains(target, &c[i]) {
            if literal_is_ground(&c[i]) && clause_contains(goal, &c[i]) {
                if !clause_contains(conds, &c[i]) {
                    let ghost before = conds@;
                    conds.push(copy_literal(&c[i]));
                    proof {
                        assert forall|k: int| 0 <= k < conds@.len() implies literal_ground(#[trigger] conds@[k]@) && gv.contains(conds@[k]@) by {
                            if k < before.len() {
                                assert(conds@[k] == before[k]);
                            }
                        }
                    }
                }
            } else {
                assert(!condition_justified(cv[i as int], tv, gv));
                return false;
            }
        }
        i = i + 1;
    }
    true
}

/// `rule` is the equation `l = r` read in one direction.
pub open spec fn orientation_of(rule: (STerm, STerm), l: STerm, r: STerm) -> bool {
    rule == (l, r) || rule == (r, l)
}

/// The directions in which an equation may rewrite: from the side that
/// holds every variable of the other and is at least as large.
pub open spec fn orientable(l: STerm, r: STerm) -> bool {
    vars_of(r).subset_of(vars_of(l)) && crate::measure::cap(crate::term::sterm_size(l)) >= crate::measure::cap(crate::term::sterm_size(r))
}

fn copy_rule(rule: &(Term, Term)) -> (r: (Term, Term))
    ensures
        r.0@ == rule.0@,
        r.1@ == rule.1@,
{
    (copy_term(&rule.0), copy_term(&rule.1))
}

/// The rewrite rules an equation `l = r` yields.
fn orientations(l: &Term, r: &Term) -> (out: Vec<(Term, Term)>)
    ensures
        forall|b: int| 0 <= b < out@.len() ==> orientation_of((#[trigger] out@[b].0@, out@[b].1@), l@, r@),
        out@.len() > 0 <==> (orientable(l@, r@) || orientable(r@, l@)),
{
    let mut out: Vec<(Term, Term)> = Vec::new();
    if vars_subset(r, l) && term_size(l) >= term_size(r) {
        out.push((copy_term(l), copy_term(r)));
    }
    if vars_subset(l, r) && term_size(r) >= term_size(l) {
        let rev = (copy_term(r), copy_term(l));
        let duplicate = out.len() > 0 && term_eq(&out[0].0, &rev.0) && term_eq(&out[0].1, &rev.1);
        if !duplicate {
            out.push(rev);
        }
    }
    out
}

/// `rule` reads the positive equation at `idx` of a parent in one direction.
pub open spec fn parent_equation_at(p: Formula, limits: VerificationLimits, idx: int, rule: (STerm, STerm)) -> bool {
    &&& clause_of(p, limits.max_clause_literals) matches Some(c)
    &&& 0 <= idx < c.len()
    &&& c[idx].positive
    &&& c[idx].atom matches SAtom::Eq(l, r)
    &&& orientation_of(rule, l, r)
}

/// `rule` reads a positive equation of one of the equality parents.
pub open spec fn rule_from_parents(rule: (STerm, STerm), parents: Seq<Formula>, limits: VerificationLimits) -> bool {
    exists|j: int, idx: int| 1 <= j < parents.len() && #[trigger] parent_equation_at(parents[j], limits, idx, rule)
}

pub open spec fn rule_at(rules: Seq<(Term, Term)>, q: int) -> (STerm, STerm) {
    (rules[q].0@, rules[q].1@)
}

fn copy_rules(rules: &Vec<(Term, Term)>) -> (r: Vec<(Term, Term)>)
    ensures
        r@.len() == rules@.len(),
        forall|q: int| 0 <= q < rules@.len() ==> #[trigger] rule_at(r@, q) == rule_at(rules@, q),
{
    let mut out: Vec<(Term, Term)> = Vec::new();
    let mut i: usize = 0;
    while i < rules.len()
        invariant
            0 <= i <= rules.len(),
            out@.len() == i,
            forall|q: int| 0 <= q < i ==> #[trigger] rule_at(out@, q) == rule_at(rules@, q),
        decreases rules.len() - i,
    {
        let ghost before = out@;
        out.push(copy_rule(&rules[i]));
        proof {
            assert forall|q: int| 0 <= q < i + 1 implies #[trigger] rule_at(out@, q) == rule_at(rules@, q) by {
                if q < i {
                    assert(out@[q] == before[q]);
                    assert(rule_at(before, q) == rule_at(rules@, q));
                }
            }
        }
        i = i + 1;
    }
    out
}

/// The combinations of one rule per choice list, in order, keeping at most
/// sixteen at each stage.
fn rule_combinations(choices: &Vec<Vec<(Term, Term)>>, Ghost(parents): Ghost<Seq<Formula>>, Ghost(limits): Ghost<VerificationLimits>) -> (r: Vec<Vec<(Term, Term)>>)
    requires
        forall|c: int, b: int| 0 <= c < choices@.len() && 0 <= b < choices@[c]@.len()
            ==> rule_from_parents(#[trigger] rule_at(choices@[c]@, b), parents, limits),
    ensures
        forall|a: int, q: int| 0 <= a < r@.len() && 0 <= q < r@[a]@.len()
            ==> rule_from_parents(#[trigger] rule_at(r@[a]@, q), parents, limits),
{
    let mut cands: Vec<Vec<(Term, Term)>> = Vec::new();
    cands.push(Vec::new());
    let mut c: usize = 0;
    while c < choices.len()
        invariant
            0 <= c <= choices.len(),
            forall|c: int, b: int| 0 <= c < choices@.len() && 0 <= b < choices@[c]@.len()
                ==> rule_from_parents(#[trigger] rule_at(choices@[c]@, b), parents, limits),
            forall|a: int, q: int| 0 <= a < cands@.len() && 0 <= q < cands@[a]@.len()
                ==> rule_from_parents(#[trigger] rule_at(cands@[a]@, q), parents, limits),
        decreases choices.len() - c,
    {
        let mut next: Vec<Vec<(Term, Term)>> = Vec::new();
        let mut full = false;
        let mut a: usize = 0;
        while a < cands.len() && !full
            invariant
                0 <= c < choices.len(),
                0 <= a <= cands.len(),
                forall|c: int, b: int| 0 <= c < choices@.len() && 0 <= b < choices@[c]@.len()
                    ==> rule_from_parents(#[trigger] rule_at(choices@[c]@, b), parents, limits),
                forall|a: int, q: int| 0 <= a < cands@.len() && 0 <= q < cands@[a]@.len()
                    ==> rule_from_parents(#[trigger] rule_at(cands@[a]@, q), parents, limits),
                forall|a: int, q: int| 0 <= a < next@.len() && 0 <= q < next@[a]@.len()
                    ==> rule_from_parents(#[trigger] rule_at(next@[a]@, q), parents, limits),
            decreases cands.len() - a,
        {
            let mut b: usize = 0;
            while b < choices[c].len() && !full
                invariant
                    0 <= c < choices.len(),
                    0 <= a < cands.len(),
                    0 <= b <= choices@[c as int]@.len(),
                    forall|c: int, b: int| 0 <= c < choices@.len() && 0 <= b < choices@[c]@.len()
                        ==> rule_from_parents(#[trigger] rule_at(choices@[c]@, b), parents, limits),
                    forall|a: int, q: int| 0 <= a < cands@.len() && 0 <= q < cands@[a]@.len()
                        ==> rule_from_parents(#[trigger] rule_at(cands@[a]@, q), parents, limits),
                    forall|a: int, q: int| 0 <= a < next@.len() && 0 <= q < next@[a]@.len()
                        ==> rule_from_parents(#[trigger] rule_at(next@[a]@, q), parents, limits),
                decreases choices@[c as int]@.len() - b,
            {
                let mut combo = copy_rules(&cands[a]);
                let ghost base = combo@;
                combo.push(copy_rule(&choices[c][b]));
                proof {
                    assert forall|q: int| 0 <= q < combo@.len() implies rule_from_parents(#[trigger] rule_at(combo@, q), parents, limits) by {
                        if q < base.len() {
                            assert(rule_at(combo@, q) == rule_at(base, q));
                            assert(rule_at(base, q) == rule_at(cands@[a as int]@, q));
                        } else {
                            assert(rule_at(combo@, q) == rule_at(choices@[c as int]@, b as int));
                        }
                    }
                }
                let ghost before = next@;
                next.push(combo);
                proof {
                    assert forall|x: int, q: int| 0 <= x < next@.len() && 0 <= q < next@[x]@.len()
                        implies rule_from_parents(#[trigger] rule_at(next@[x]@, q), parents, limits) by {
                        if x < before.len() {
                            assert(next@[x] == before[x]);
                        }
                    }
                }
                if next.len() >= 16 {
                    full = true;
                }
                b = b + 1;
            }
            a = a + 1;
        }
        cands = next;
        c = c + 1;
    }
    cands
}

/// Rewriting literal `li` of `c` (inside its atom) gives `c2`.
pub open spec fn literal_rewrite_at(c: Seq<SLiteral>, c2: Seq<SLiteral>, rules: Seq<(STerm, STerm)>, li: int, a2: SAtom) -> bool {
    &&& 0 <= li < c.len()
    &&& atom_rewrites_once(c[li].atom, a2, rules)
    &&& c2 == c.update(li, SLiteral { positive: c[li].positive, atom: a2 })
}

/// One rewrite step inside one literal leads from `c` to `c2`.
pub open spec fn clause_rewrites_once(c: Seq<SLiteral>, c2: Seq<SLiteral>, rules: Seq<(STerm, STerm)>) -> bool {
    exists|li: int, a2: SAtom| #[trigger] literal_rewrite_at(c, c2, rules, li, a2)
}

/// Each clause of the chain rewrites in one step to the next.
pub open spec fn rewrite_chain(chain: Seq<Seq<SLiteral>>, rules: Seq<(STerm, STerm)>) -> bool {
    forall|i: int| 0 <= i < chain.len() - 1 ==> #[trigger] clause_rewrites_once(chain[i], chain[i + 1], rules)
}

pub enum Replay {
    Reached,
    StepLimit,
    Stuck,
}

/// Whether two clauses are the same literal for literal.
pub fn clause_eq(a: &Vec<Literal>, b: &Vec<Literal>) -> (r: bool)
    ensures
        r == (clause_view(a@) == clause_view(b@)),
{
    if a.len() != b.len() {
        assert(clause_view(a@).len() != clause_view(b@).len());
        return false;
    }
    let mut i: usize = 0;
    while i < a.len()
        invariant
            0 <= i <= a.len(),
            a@.len() == b@.len(),
            forall|k: int| 0 <= k < i ==> clause_view(a@)[k] == clause_view(b@)[k],
        decreases a.len() - i,
    {
        if !literal_eq(&a[i], &b[i]) {
            assert(clause_view(a@)[i as int] != clause_view(b@)[i as int]);
            return false;
        }
        i = i + 1;
    }
    assert(clause_view(a@) =~= clause_view(b@));
    true
}

fn seen_before(visited: &Vec<Vec<Literal>>, c: &Vec<Literal>) -> (r: bool) {
    let mut i: usize = 0;
    while i < visited.len()
        invariant
            0 <= i <= visited.len(),
        decreases visited.len() - i,
    {
        if clause_eq(&visited[i], c) {
            return true;
        }
        i = i + 1;
    }
    false
}

/// Rewrites `current` one literal at a time until it is `goal` up to
/// renaming, the steps run out, nothing rewrites, or a clause repeats.
fn replay_rewrites(rules: &Vec<(Term, Term)>, start_clause: Vec<Literal>, goal: &Vec<Literal>, max_steps: usize) -> (r: Replay)
    ensures
        r is Reached ==> exists|chain: Seq<Seq<SLiteral>>| chain.len() >= 1 && chain[0] == clause_view(start_clause@)
            && #[trigger] rewrite_chain(chain, rules_view(rules@)) && clause_alpha(chain.last(), clause_view(goal@)),
{
    let ghost start = clause_view(start_clause@);
    let ghost rv = rules_view(rules@);
    let mut current = start_clause;
    let mut steps: usize = 0;
    let mut visited: Vec<Vec<Literal>> = Vec::new();
    let ghost mut chain: Seq<Seq<SLiteral>> = seq![start];
    loop
        invariant
            steps <= max_steps,
            rv == rules_view(rules@),
            chain.len() >= 1,
            chain[0] == start,
            start == clause_view(start_clause@),
            chain.last() == clause_view(current@),
            rewrite_chain(chain, rv),
        decreases max_steps - steps,
    {
        if clause_alpha_equiv(&current, goal) {
            assert(rewrite_chain(chain, rules_view(rules@)));
            assert(clause_alpha(chain.last(), clause_view(goal@)));
            return Replay::Reached;
        }
        if steps >= max_steps {
            return Replay::StepLimit;
        }
        if seen_before(&visited, &current) {
            return Replay::Stuck;
        }
        visited.push(copy_clause(&current));
        let ghost old_steps = steps;
        let mut changed = false;
        let mut li: usize = 0;
        while li < current.len() && !changed
            invariant
                0 <= li <= current@.len(),
                steps <= max_steps,
                rv == rules_view(rules@),
                chain.len() >= 1,
                chain[0] == start,
                !changed ==> steps == old_steps,
                changed ==> steps == old_steps + 1,
                old_steps < max_steps,
                !changed ==> chain.last() == clause_view(current@),
                changed ==> chain.len() >= 2 && chain.last() == clause_view(current@)
                    && clause_rewrites_once(chain[chain.len() - 2], chain.last(), rv),
                changed ==> rewrite_chain(chain.drop_last(), rv),
                !changed ==> rewrite_chain(chain, rv),
            decreases current@.len() - li + (if changed { 0int } else { 1int }),
        {
            match rewrite_atom(&current[li].atom, rules, &mut steps, max_steps) {
                Some(a2) => {
                    let ghost before = clause_view(current@);
                    let ghost a2v = a2@;
                    let positive = current[li].positive;
                    current.set(li, Literal { positive, atom: a2 });
                    proof {
                        let after = clause_view(current@);
                        assert(after =~= before.update(li as int, SLiteral { positive, atom: a2v }));
                        assert(literal_rewrite_at(before, after, rv, li as int, a2v));
                        let prev = chain;
                        chain = chain.push(after);
                        assert(chain.drop_last() == prev);
                    }
                    changed = true;
                },
                None => {
                    li = li + 1;
                },
            }
        }
        if !changed {
            return Replay::Stuck;
        }
        proof {
            let n = chain.len();
            assert forall|i: int| 0 <= i < chain.len() - 1 implies #[trigger] clause_rewrites_once(chain[i], chain[i + 1], rv) by {
                if i < n - 2 {
                    assert(chain.drop_last()[i] == chain[i]);
                    assert(chain.drop_last()[i + 1] == chain[i + 1]);
                }
            }
        }
    }
}

/// The clause has two positive equations.
pub open spec fn has_two_equations(c: Seq<SLiteral>) -> bool {
    exists|i1: int, i2: int| 0 <= i1 < i2 < c.len() && #[trigger] is_positive_equation(c[i1]) && #[trigger] is_positive_equation(c[i2])
}

/// The clause has no positive equation.
pub open spec fn has_no_equation(c: Seq<SLiteral>) -> bool {
    forall|i: int| 0 <= i < c.len() ==> !is_positive_equation(#[trigger] c[i])
}

/// `e` is the only positive equation of `c`.
pub open spec fn equation_position(c: Seq<SLiteral>, e: int) -> bool {
    &&& 0 <= e < c.len()
    &&& is_positive_equation(c[e])
    &&& forall|i: int| 0 <= i < c.len() && i != e ==> !is_positive_equation(#[trigger] c[i])
}

/// An equality parent has exactly one positive equation, and each of its
/// other literals is in the target or is a ground literal of the
/// conclusion.
pub open spec fn equality_parent_ok(c: Seq<SLiteral>, target: Seq<SLiteral>, goal: Seq<SLiteral>) -> bool {
    exists|e: int| #[trigger] equation_position(c, e)
        && forall|i: int| 0 <= i < c.len() && i != e ==> #[trigger] condition_justified(c[i], target, goal)
}

/// The rules come from the equality parents, the condition literals are
/// ground literals of the conclusion, and the target with those literals,
/// renamed apart by `k`, rewrites along `chain` into the conclusion up to
/// renaming.
pub open spec fn demodulation_witness(
    parents: Seq<Formula>,
    limits: VerificationLimits,
    target: Seq<SLiteral>,
    goal: Seq<SLiteral>,
    rules: Seq<(STerm, STerm)>,
    conds: Seq<SLiteral>,
    k: u32,
    chain: Seq<Seq<SLiteral>>,
) -> bool {
    &&& forall|q: int| 0 <= q < rules.len() ==> rule_from_parents(#[trigger] rules[q], parents, limits)
    &&& forall|c: int| 0 <= c < conds.len() ==> literal_ground(#[trigger] conds[c]) && goal.contains(conds[c])
    &&& chain.len() >= 1
    &&& chain[0] == shift_sclause(target + conds, k)
    &&& rewrite_chain(chain, rules)
    &&& clause_alpha(chain.last(), goal)
}

/// What demodulation certifies: every equality parent is well formed and
/// the target rewrites into the conclusion with the parents' equations.
pub open spec fn demodulation_accepts(parents: Seq<Formula>, limits: VerificationLimits, target: Seq<SLiteral>, goal: Seq<SLiteral>) -> bool {
    &&& forall|j: int| 1 <= j < parents.len() ==> (#[trigger] clause_of(parents[j], limits.max_clause_literals) matches Some(c)
        && equality_parent_ok(c, target, goal))
    &&& exists|rules: Seq<(STerm, STerm)>, conds: Seq<SLiteral>, k: u32, chain: Seq<Seq<SLiteral>>|
        #[trigger] demodulation_witness(parents, limits, target, goal, rules, conds, k, chain)
}

fn max_var_rules(rules: &Vec<(Term, Term)>) -> (r: u32) {
    let mut m: u32 = 0;
    let mut i: usize = 0;
    while i < rules.len()
        invariant
            0 <= i <= rules.len(),
        decreases rules.len() - i,
    {
        let a = max_var_term(&rules[i].0);
        let b = max_var_term(&rules[i].1);
        if a > m {
            m = a;
        }
        if b > m {
            m = b;
        }
        i = i + 1;
    }
    m
}

/// The clause of parent `j`.
pub open spec fn parent_clause(parents: Seq<Formula>, limits: VerificationLimits, j: int) -> Seq<SLiteral> {
    clause_of(parents[j], limits.max_clause_literals)->Some_0
}

/// The two sides of the only positive equation of an equality parent.
pub open spec fn parent_equation(c: Seq<SLiteral>) -> (STerm, STerm) {
    let e = choose|e: int| equation_position(c, e);
    (c[e].atom->Eq_0, c[e].atom->Eq_1)
}

/// The parent's equation has equal sides and yields no rewrite rule.
pub open spec fn trivial_equation(c: Seq<SLiteral>) -> bool {
    parent_equation(c).0 == parent_equation(c).1
}

/// The parent's equation has different sides, but neither side can
/// rewrite into the other.
pub open spec fn blocked_equation(c: Seq<SLiteral>) -> bool {
    let (l, r) = parent_equation(c);
    l != r && !orientable(l, r) && !orientable(r, l)
}

/// Equality parents `1..=j` are supported clauses and well formed.
pub open spec fn parents_ok_through(parents: Seq<Formula>, limits: VerificationLimits, tv: Seq<SLiteral>, gv: Seq<SLiteral>, j: int) -> bool {
    forall|i: int| 1 <= i <= j ==> (#[trigger] clause_of(parents[i], limits.max_clause_literals) matches Some(c)
        && equality_parent_ok(c, tv, gv))
}

/// Every equality parent is a unit equation.
pub open spec fn unit_parents(parents: Seq<Formula>, limits: VerificationLimits) -> bool {
    forall|j: int| 1 <= j < parents.len() ==> #[trigger] parent_clause(parents, limits, j).len() == 1
}

/// The verdicts `verify_demodulation` may give.
pub open spec fn demodulation_outcome(parents: Seq<Formula>, conclusion: Formula, limits: VerificationLimits, v: VerdictView) -> bool {
    &&& parents.len() < 2 ==> v == VerdictView::Rejected("demodulation requires a target and at least one equality parent"@)
    &&& parents.len() >= 2 ==> {
        let tc = clause_of(parents[0], limits.max_clause_literals);
        let gc = clause_of(conclusion, limits.max_clause_literals);
        if tc is None {
            v == VerdictView::Inconclusive("demodulation target is not a supported clause"@)
        } else if gc is None {
            v == VerdictView::Inconclusive("demodulation conclusion is not a supported clause"@)
        } else {
            let tv = tc->Some_0;
            let gv = gc->Some_0;
            ||| v == VerdictView::Certified && demodulation_accepts(parents, limits, tv, gv)
            ||| v == VerdictView::Inconclusive("demodulation equality parent is not a supported clause"@)
                && exists|j: int| 1 <= j < parents.len() && #[trigger] clause_of(parents[j], limits.max_clause_literals) is None
            ||| v == VerdictView::Rejected("demodulation parents must contain at most one positive equality"@)
                && exists|j: int| 1 <= j < parents.len() && (#[trigger] clause_of(parents[j], limits.max_clause_literals) matches Some(c)
                    && has_two_equations(c))
            ||| v == VerdictView::Rejected("demodulation parents must contain a positive equality"@)
                && exists|j: int| 1 <= j < parents.len() && (#[trigger] clause_of(parents[j], limits.max_clause_literals) matches Some(c)
                    && has_no_equation(c))
            ||| v == VerdictView::Rejected("demodulation condition literal not satisfied in target or conclusion"@)
                && exists|j: int| 1 <= j < parents.len() && (#[trigger] clause_of(parents[j], limits.max_clause_literals) matches Some(c)
                    && !equality_parent_ok(c, tv, gv))
            ||| v == VerdictView::Rejected("demodulation has no non-trivial rewrite rule"@) && {
                ||| exists|j: int| 1 <= j < parents.len() && parents_ok_through(parents, limits, tv, gv, j)
                        && #[trigger] blocked_equation(parent_clause(parents, limits, j))
                ||| parents_ok_through(parents, limits, tv, gv, parents.len() - 1)
                        && forall|j: int| 1 <= j < parents.len() ==> #[trigger] trivial_equation(parent_clause(parents, limits, j))
            }
            ||| (v == VerdictView::Inconclusive("demodulation exceeded strict rewrite-step limit"@)
                || v == VerdictView::Inconclusive("demodulation replay could not reach the conclusion within the implemented search"@))
                && parents_ok_through(parents, limits, tv, gv, parents.len() - 1)
                && (forall|j: int| 1 <= j < parents.len() ==> !#[trigger] blocked_equation(parent_clause(parents, limits, j)))
                && exists|j: int| 1 <= j < parents.len() && !#[trigger] trivial_equation(parent_clause(parents, limits, j))
                && !(unit_parents(parents, limits) && clause_alpha(tv, gv))
        }
    }
}

/// A demodulation step whose parents are all supported, well-formed
/// equality parents, one of them with a rewrite rule and none with an
/// equation that cannot be oriented, is never rejected: a replay that does
/// not reach the conclusion leaves it inconclusive.
pub proof fn lemma_demodulation_never_rejects_usable_rules(
    parents: Seq<Formula>,
    conclusion: Formula,
    limits: VerificationLimits,
    v: VerdictView,
)
    requires
        demodulation_outcome(parents, conclusion, limits, v),
        parents.len() >= 2,
        clause_of(parents[0], limits.max_clause_literals) is Some,
        clause_of(conclusion, limits.max_clause_literals) is Some,
        parents_ok_through(parents, limits, clause_of(parents[0], limits.max_clause_literals)->Some_0,
            clause_of(conclusion, limits.max_clause_literals)->Some_0, parents.len() - 1),
        forall|j: int| 1 <= j < parents.len() ==> !#[trigger] blocked_equation(parent_clause(parents, limits, j)),
        exists|j: int| 1 <= j < parents.len() && !#[trigger] trivial_equation(parent_clause(parents, limits, j)),
    ensures
        v is Certified || v is Inconclusive,
{
    let tv = clause_of(parents[0], limits.max_clause_literals)->Some_0;
    let gv = clause_of(conclusion, limits.max_clause_literals)->Some_0;
    if v is Rejected {
        if exists|j: int| 1 <= j < parents.len() && (#[trigger] clause_of(parents[j], limits.max_clause_literals) matches Some(c)
            && has_two_equations(c)) {
            let j = choose|j: int| 1 <= j < parents.len() && (#[trigger] clause_of(parents[j], limits.max_clause_literals) matches Some(c)
                && has_two_equations(c));
            let c = clause_of(parents[j], limits.max_clause_literals)->Some_0;
            assert(equality_parent_ok(c, tv, gv));
            let e = choose|e: int| #[trigger] equation_position(c, e)
                && forall|i: int| 0 <= i < c.len() && i != e ==> #[trigger] condition_justified(c[i], tv, gv);
            let (i1, i2) = choose|i1: int, i2: int| 0 <= i1 < i2 < c.len() && #[trigger] is_positive_equation(c[i1])
                && #[trigger] is_positive_equation(c[i2]);
            assert(false);
        }
        if exists|j: int| 1 <= j < parents.len() && (#[trigger] clause_of(parents[j], limits.max_clause_literals) matches Some(c)
            && has_no_equation(c)) {
            let j = choose|j: int| 1 <= j < parents.len() && (#[trigger] clause_of(parents[j], limits.max_clause_literals) matches Some(c)
                && has_no_equation(c));
            let c = clause_of(parents[j], limits.max_clause_literals)->Some_0;
            assert(equality_parent_ok(c, tv, gv));
            let e = choose|e: int| #[trigger] equation_position(c, e)
                && forall|i: int| 0 <= i < c.len() && i != e ==> #[trigger] condition_justified(c[i], tv, gv);
            assert(false);
        }
        if exists|j: int| 1 <= j < parents.len() && parents_ok_through(parents, limits, tv, gv, j)
            && #[trigger] blocked_equation(parent_clause(parents, limits, j)) {
            let j = choose|j: int| 1 <= j < parents.len() && parents_ok_through(parents, limits, tv, gv, j)
                && #[trigger] blocked_equation(parent_clause(parents, limits, j));
            assert(false);
        }
        if forall|j: int| 1 <= j < parents.len() ==> #[trigger] trivial_equation(parent_clause(parents, limits, j)) {
            let j = choose|j: int| 1 <= j < parents.len() && !#[trigger] trivial_equation(parent_clause(parents, limits, j));
            assert(false);
        }
    }
}

/// Demodulation: the conclusion is the target (with ground condition
/// literals of conditional equations added) rewritten by oriented
/// equations of the other parents.
pub fn verify_demodulation(parents: &[Formula], conclusion: &Formula, limits: VerificationLimits) -> (r: KernelVerdict)
    ensures
        demodulation_outcome(parents@, *conclusion, limits, r@),
{
    if parents.len() < 2 {
        return rejected("demodulation requires a target and at least one equality parent");
    }
    let target = match clause_from_formula(&parents[0], limits) {
        Some(c) => c,
        None => return inconclusive("demodulation target is not a supported clause"),
    };
    let goal = match clause_from_formula(conclusion, limits) {
        Some(c) => c,
        None => return inconclusive("demodulation conclusion is not a supported clause"),
    };
    let ghost tv = clause_view(target@);
    let ghost gv = clause_view(goal@);
    let mut choices: Vec<Vec<(Term, Term)>> = Vec::new();
    let mut conds: Vec<Literal> = Vec::new();
    let mut j: usize = 1;
    while j < parents.len()
        invariant
            1 <= j <= parents@.len(),
            parents@.len() >= 2,
            tv == clause_view(target@),
            gv == clause_view(goal@),
            clause_of(parents@[0], limits.max_clause_literals) == Some(tv),
            clause_of(*conclusion, limits.max_clause_literals) == Some(gv),
            forall|i: int| 1 <= i < j ==> (#[trigger] clause_of(parents@[i], limits.max_clause_literals) matches Some(c)
                && equality_parent_ok(c, tv, gv)),
            forall|i: int| 1 <= i < j ==> !#[trigger] blocked_equation(parent_clause(parents@, limits, i)),
            (choices@.len() == 0) == (forall|i: int| 1 <= i < j ==> #[trigger] trivial_equation(parent_clause(parents@, limits, i))),
            (forall|i: int| 1 <= i < j ==> #[trigger] parent_clause(parents@, limits, i).len() == 1) ==> conds@.len() == 0,
            forall|c: int, b: int| 0 <= c < choices@.len() && 0 <= b < choices@[c]@.len()
                ==> rule_from_parents(#[trigger] rule_at(choices@[c]@, b), parents@, limits),
            forall|k: int| 0 <= k < conds@.len() ==> literal_ground(#[trigger] conds@[k]@) && gv.contains(conds@[k]@),
        decreases parents.len() - j,
    {
        let clause = match clause_from_formula(&parents[j], limits) {
            Some(c) => c,
            None => return inconclusive("demodulation equality parent is not a supported clause"),
        };
        let ghost cv = clause_view(clause@);
        let e = match equation_index(&clause) {
            Ok(e) => e,
            Err(two) => {
                if two {
                    return rejected("demodulation parents must contain at most one positive equality");
                } else {
                    return rejected("demodulation parents must contain a positive equality");
                }
            },
        };
        if !check_conditions(&clause, e, &target, &goal, &mut conds) {
            proof {
                if equality_parent_ok(cv, tv, gv) {
                    let e2 = choose|e2: int| #[trigger] equation_position(cv, e2)
                        && forall|i: int| 0 <= i < cv.len() && i != e2 ==> #[trigger] condition_justified(cv[i], tv, gv);
                    assert(e2 == e as int);
                }
            }
            return rejected("demodulation condition literal not satisfied in target or conclusion");
        }
        proof {
            assert(equation_position(cv, e as int));
            assert(equality_parent_ok(cv, tv, gv));
            assert forall|e2: int| equation_position(cv, e2) implies e2 == e as int by {}
            assert(parent_clause(parents@, limits, j as int) == cv);
            assert(parents_ok_through(parents@, limits, tv, gv, j as int));
        }
        let ghost choices_before = choices@;
        match &clause[e].atom {
            Atom::Eq(l, r) => {
                proof {
                    assert(cv[e as int] == clause@[e as int]@);
                    assert(parent_equation(cv) == (l@, r@));
                }
                if !term_eq(l, r) {
                    let orients = orientations(l, r);
                    if orients.len() == 0 {
                        proof {
                            assert(blocked_equation(parent_clause(parents@, limits, j as int)));
                        }
                        return rejected("demodulation has no non-trivial rewrite rule");
                    }
                    proof {
                        assert(cv[e as int] == clause@[e as int]@);
                        assert forall|b: int| 0 <= b < orients@.len() implies rule_from_parents(#[trigger] rule_at(orients@, b), parents@, limits) by {
                            assert(orientation_of((orients@[b].0@, orients@[b].1@), l@, r@));
                            assert(parent_equation_at(parents@[j as int], limits, e as int, rule_at(orients@, b)));
                        }
                    }
                    let ghost before = choices@;
                    choices.push(orients);
                    proof {
                        assert forall|c: int, b: int| 0 <= c < choices@.len() && 0 <= b < choices@[c]@.len()
                            implies rule_from_parents(#[trigger] rule_at(choices@[c]@, b), parents@, limits) by {
                            if c < before.len() {
                                assert(choices@[c] == before[c]);
                            }
                        }
                    }
                }
            },
            Atom::Pred(_, _) => {
                assert(false);
            },
        }
        proof {
            assert(!blocked_equation(parent_clause(parents@, limits, j as int)));
            assert(choices@.len() == 0 ==> trivial_equation(parent_clause(parents@, limits, j as int)));
            assert(choices@.len() != 0 && choices_before.len() == 0 ==> !trivial_equation(parent_clause(parents@, limits, j as int)));
        }
        j = j + 1;
    }
    assert(parents_ok_through(parents@, limits, tv, gv, parents@.len() - 1));
    if choices.len() == 0 {
        return rejected("demodulation has no non-trivial rewrite rule");
    }
    let ghost nontrivial = choose|i: int| 1 <= i < parents@.len() && !trivial_equation(parent_clause(parents@, limits, i));
    assert(1 <= nontrivial < parents@.len() && !trivial_equation(parent_clause(parents@, limits, nontrivial)));
    if conds.len() == 0 && clause_alpha_equiv(&target, &goal) {
        proof {
            crate::instance::lemma_shift_zero_clause(tv);
            let cs = clause_view(conds@);
            assert(cs =~= Seq::<SLiteral>::empty());
            assert(tv + cs =~= tv);
            let chain = seq![tv];
            assert(rewrite_chain(chain, Seq::<(STerm, STerm)>::empty()));
            assert(demodulation_witness(parents@, limits, tv, gv, Seq::<(STerm, STerm)>::empty(), cs, 0, chain));
        }
        return KernelVerdict::Certified;
    }
    proof {
        if unit_parents(parents@, limits) {
            assert forall|i: int| 1 <= i < parents@.len() implies #[trigger] parent_clause(parents@, limits, i).len() == 1 by {}
            assert(conds@.len() == 0);
        }
    }
    let candidates = rule_combinations(&choices, Ghost(parents@), Ghost(limits));
    let mut hit_step_limit = false;
    let mut a: usize = 0;
    while a < candidates.len()
        invariant
            0 <= a <= candidates@.len(),
            parents@.len() >= 2,
            tv == clause_view(target@),
            gv == clause_view(goal@),
            clause_of(parents@[0], limits.max_clause_literals) == Some(tv),
            clause_of(*conclusion, limits.max_clause_literals) == Some(gv),
            forall|i: int| 1 <= i < parents@.len() ==> (#[trigger] clause_of(parents@[i], limits.max_clause_literals) matches Some(c)
                && equality_parent_ok(c, tv, gv)),
            forall|x: int, q: int| 0 <= x < candidates@.len() && 0 <= q < candidates@[x]@.len()
                ==> rule_from_parents(#[trigger] rule_at(candidates@[x]@, q), parents@, limits),
            forall|k: int| 0 <= k < conds@.len() ==> literal_ground(#[trigger] conds@[k]@) && gv.contains(conds@[k]@),
            parents_ok_through(parents@, limits, tv, gv, parents@.len() - 1),
            forall|i: int| 1 <= i < parents@.len() ==> !#[trigger] blocked_equation(parent_clause(parents@, limits, i)),
            1 <= nontrivial < parents@.len() && !trivial_equation(parent_clause(parents@, limits, nontrivial)),
            !(unit_parents(parents@, limits) && clause_alpha(tv, gv)),
        decreases candidates.len() - a,
    {
        let rules = &candidates[a];
        let mut start = copy_clause(&target);
        let mut k: usize = 0;
        while k < conds.len()
            invariant
                0 <= k <= conds.len(),
                clause_view(start@) == tv + clause_view(conds@.take(k as int)),
                tv == clause_view(target@),
            decreases conds.len() - k,
        {
            let ghost before = clause_view(start@);
            start.push(copy_literal(&conds[k]));
            proof {
                assert(clause_view(start@) =~= before.push(conds@[k as int]@));
                assert(clause_view(conds@.take(k as int + 1)) =~= clause_view(conds@.take(k as int)).push(conds@[k as int]@));
            }
            k = k + 1;
        }
        assert(conds@.take(conds@.len() as int) =~= conds@);
        let m1 = max_var_clause(&start);
        let m2 = max_var_clause(&goal);
        let m3 = max_var_rules(rules);
        let mut m = m1;
        if m2 > m {
            m = m2;
        }
        if m3 > m {
            m = m3;
        }
        let shift = m.saturating_add(1);
        shift_clause(&mut start, shift);
        match replay_rewrites(rules, start, &goal, limits.max_rewrite_steps) {
            Replay::Reached => {
                proof {
                    let rv = rules_view(rules@);
                    let cs = clause_view(conds@);
                    let chain = choose|chain: Seq<Seq<SLiteral>>| chain.len() >= 1 && chain[0] == shift_sclause(tv + cs, shift)
                        && #[trigger] rewrite_chain(chain, rv) && clause_alpha(chain.last(), gv);
                    assert forall|q: int| 0 <= q < rv.len() implies rule_from_parents(#[trigger] rv[q], parents@, limits) by {
                        assert(rv[q] == rule_at(candidates@[a as int]@, q));
                    }
                    assert forall|c: int| 0 <= c < cs.len() implies literal_ground(#[trigger] cs[c]) && gv.contains(cs[c]) by {
                        assert(cs[c] == conds@[c]@);
                    }
                    assert(demodulation_witness(parents@, limits, tv, gv, rv, cs, shift, chain));
                }
                return KernelVerdict::Certified;
            },
            Replay::StepLimit => {
                hit_step_limit = true;
            },
            Replay::Stuck => {},
        }
        a = a + 1;
    }
    if hit_step_limit {
        inconclusive("demodulation exceeded strict rewrite-step limit")
    } else {
        inconclusive("demodulation replay could not reach the conclusion within the implemented search")
    }
}

} // verus!
