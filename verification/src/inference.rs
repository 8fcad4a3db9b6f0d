//! Clause-level inference checks: resolution and the rules built on it.
//! A check certifies a conclusion only with a witness: the literals
//! resolved upon and a substitution under which the claimed inference holds.
use vstd::prelude::*;
use crate::term::{Term, Atom, Literal, Formula, STerm, SAtom, SLiteral, clause_view, terms_view, lemma_terms_view};
use crate::subst::{subst_term, term_eq, lemma_take_push, lemma_take_all, lemma_terms_view_push};
use crate::unify::{vars_of, absorbs, lemma_subst_disjoint};
use crate::verdict::{KernelVerdict, VerdictView, VerificationLimits, rejected, inconclusive};
use crate::measure::{cap, formula_nodes, formula_size};
use crate::clause::{clause_of, clause_from_formula, condensed, condense_clause};
use crate::alpha::{clause_alpha, clause_alpha_equiv};
use crate::instance::{
    subst_clause, without, push_instance_except, shift_var, shift_sclause, shift_clause, clause_max_var,
    max_var_clause, atoms_unified, unify_atoms, unify_term_pair, lemma_ground_unifier_unique, most_general_unifier,
};

verus! {

/// The resolvent of `left` and `right` on literals `i` and `j` under `s`.
pub open spec fn resolvent(left: Seq<SLiteral>, right: Seq<SLiteral>, i: int, j: int, s: Map<u32, STerm>) -> Seq<SLiteral> {
    subst_clause(without(left, i) + without(right, j), s)
}

/// Resolving `left` and `right` on complementary literals `i` and `j`,
/// unified by `s`, gives `goal` up to renaming; or, when the resolvent
/// repeats a literal, gives it up to renaming once repeats are removed on
/// both sides.
pub open spec fn resolution_step(
    left: Seq<SLiteral>,
    right: Seq<SLiteral>,
    goal: Seq<SLiteral>,
    i: int,
    j: int,
    s: Map<u32, STerm>,
) -> bool {
    &&& 0 <= i < left.len()
    &&& 0 <= j < right.len()
    &&& left[i].positive != right[j].positive
    &&& atoms_unified(left[i].atom, right[j].atom, s)
    &&& {
        let res = resolvent(left, right, i, j, s);
        clause_alpha(res, goal) || (condensed(res).len() != res.len() && clause_alpha(condensed(res), condensed(goal)))
    }
}

/// `goal` is a binary resolvent of `left` and `right`.
pub open spec fn resolves_to(left: Seq<SLiteral>, right: Seq<SLiteral>, goal: Seq<SLiteral>) -> bool {
    exists|i: int, j: int, s: Map<u32, STerm>| #[trigger] resolution_step(left, right, goal, i, j, s)
}

/// The right clause renamed apart from the left one: its variables shifted
/// past the largest variable of the left clause.
pub open spec fn renamed_apart(left: Seq<SLiteral>, right: Seq<SLiteral>) -> Seq<SLiteral> {
    shift_sclause(right, shift_var(clause_max_var(left), 1))
}

/// The empty clause follows from an empty parent.
pub open spec fn refutes_trivially(left: Seq<SLiteral>, right: Seq<SLiteral>, goal: Seq<SLiteral>) -> bool {
    goal.len() == 0 && (left.len() == 0 || right.len() == 0)
}

/// What resolution accepts: the empty clause from an empty parent, or a
/// resolvent of the parents renamed apart.
pub open spec fn resolution_accepts(left: Seq<SLiteral>, right: Seq<SLiteral>, goal: Seq<SLiteral>) -> bool {
    refutes_trivially(left, right, goal) || resolves_to(left, renamed_apart(left, right), goal)
}

/// Literals `i` of `left` and `j` of `right` have opposite signs and the
/// same atom, and the rest of the two clauses is `goal` up to renaming: a
/// resolution step that needs no substitution.
pub open spec fn plain_resolution(left: Seq<SLiteral>, right: Seq<SLiteral>, goal: Seq<SLiteral>, i: int, j: int) -> bool {
    &&& 0 <= i < left.len()
    &&& 0 <= j < right.len()
    &&& left[i].positive != right[j].positive
    &&& left[i].atom == right[j].atom
    &&& clause_alpha(without(left, i) + without(right, j), goal)
}

/// The verdict of resolution on parent clauses `left` and `right` and
/// conclusion `goal`.
pub open spec fn resolution_verdict(left: Seq<SLiteral>, right: Seq<SLiteral>, goal: Seq<SLiteral>, v: VerdictView) -> bool {
    &&& v == VerdictView::Certified || v == VerdictView::Rejected("resolution conclusion is not a parent resolvent"@)
    &&& v == VerdictView::Certified ==> resolution_accepts(left, right, goal)
    &&& refutes_trivially(left, right, goal) ==> v == VerdictView::Certified
    &&& (exists|i: int, j: int| #[trigger] plain_resolution(left, renamed_apart(left, right), goal, i, j))
        ==> v == VerdictView::Certified
}

/// Searches the literal pairs of `left` and `right` for a resolvent that
/// is `goal`.
fn find_resolvent(left: &Vec<Literal>, right: &Vec<Literal>, goal: &Vec<Literal>) -> (r: bool)
    ensures
        r ==> resolves_to(clause_view(left@), clause_view(right@), clause_view(goal@)),
        (exists|i: int, j: int| #[trigger] plain_resolution(clause_view(left@), clause_view(right@), clause_view(goal@), i, j)) ==> r,
{
    let ghost lv = clause_view(left@);
    let ghost rv = clause_view(right@);
    let ghost gv = clause_view(goal@);
    let mut i: usize = 0;
    while i < left.len()
        invariant
            0 <= i <= left.len(),
            lv == clause_view(left@),
            rv == clause_view(right@),
            gv == clause_view(goal@),
            forall|a: int, b: int| 0 <= a < i && 0 <= b < rv.len() ==> !#[trigger] plain_resolution(lv, rv, gv, a, b),
        decreases left.len() - i,
    {
        let mut j: usize = 0;
        while j < right.len()
            invariant
                0 <= i < left.len(),
                0 <= j <= right.len(),
                lv == clause_view(left@),
                rv == clause_view(right@),
                gv == clause_view(goal@),
                forall|a: int, b: int| 0 <= a < i && 0 <= b < rv.len() ==> !#[trigger] plain_resolution(lv, rv, gv, a, b),
                forall|b: int| 0 <= b < j ==> !#[trigger] plain_resolution(lv, rv, gv, i as int, b),
            decreases right.len() - j,
        {
            proof {
                assert(lv[i as int] == left@[i as int]@);
                assert(rv[j as int] == right@[j as int]@);
            }
            if left[i].positive != right[j].positive {
                match unify_atoms(&left[i].atom, &right[j].atom) {
                    Some(s) => {
                        let mut res: Vec<Literal> = Vec::new();
                        push_instance_except(&mut res, left, i, &s);
                        push_instance_except(&mut res, right, j, &s);
                        proof {
                            assert(lv[i as int] == left@[i as int]@);
                            assert(rv[j as int] == right@[j as int]@);
                            assert(clause_view(res@) =~= resolvent(lv, rv, i as int, j as int, s@)) by {
                                assert(clause_view(Seq::<Literal>::empty()) =~= Seq::<SLiteral>::empty());
                            }
                        }
                        if clause_alpha_equiv(&res, goal) {
                            assert(resolution_step(lv, rv, gv, i as int, j as int, s@));
                            return true;
                        }
                        let dedup = condense_clause(&res);
                        let dedup_goal = condense_clause(goal);
                        if dedup.len() != res.len() && clause_alpha_equiv(&dedup, &dedup_goal) {
                            assert(resolution_step(lv, rv, gv, i as int, j as int, s@));
                            return true;
                        }
                        proof {
                            if lv[i as int].atom == rv[j as int].atom {
                                crate::instance::lemma_subst_clause_empty(without(lv, i as int) + without(rv, j as int));
                            }
                        }
                    },
                    None => {},
                }
            }
            j = j + 1;
        }
        i = i + 1;
    }
    false
}

/// What resolution gives for parents `p0`, `p1` and `conclusion`, once
/// the parent count is right.
pub open spec fn resolution_outcome(p0: Formula, p1: Formula, conclusion: Formula, limits: VerificationLimits, v: VerdictView) -> bool {
    let lc = clause_of(p0, limits.max_clause_literals);
    let rc = clause_of(p1, limits.max_clause_literals);
    let gc = clause_of(conclusion, limits.max_clause_literals);
    if lc is None || rc is None {
        v == VerdictView::Inconclusive("resolution parent is not a supported clause"@)
    } else if gc is None {
        v == VerdictView::Inconclusive("resolution conclusion is not a supported clause"@)
    } else {
        resolution_verdict(lc->Some_0, rc->Some_0, gc->Some_0, v)
    }
}

/// Resolution of two parent formulas.
fn resolve_formulas(p0: &Formula, p1: &Formula, conclusion: &Formula, limits: VerificationLimits) -> (r: KernelVerdict)
    ensures
        resolution_outcome(*p0, *p1, *conclusion, limits, r@),
{
    let left = match clause_from_formula(p0, limits) {
        Some(c) => c,
        None => return inconclusive("resolution parent is not a supported clause"),
    };
    let mut right = match clause_from_formula(p1, limits) {
        Some(c) => c,
        None => return inconclusive("resolution parent is not a supported clause"),
    };
    let goal = match clause_from_formula(conclusion, limits) {
        Some(c) => c,
        None => return inconclusive("resolution conclusion is not a supported clause"),
    };
    if goal.len() == 0 && (left.len() == 0 || right.len() == 0) {
        return KernelVerdict::Certified;
    }
    let shift = max_var_clause(&left).saturating_add(1);
    shift_clause(&mut right, shift);
    if find_resolvent(&left, &right, &goal) {
        KernelVerdict::Certified
    } else {
        rejected("resolution conclusion is not a parent resolvent")
    }
}

/// The verdicts `verify_resolution` may give.
pub open spec fn resolution_rule_outcome(parents: Seq<Formula>, conclusion: Formula, limits: VerificationLimits, v: VerdictView) -> bool {
    &&& parents.len() != 2 ==> v == VerdictView::Rejected("resolution rule must have two parents"@)
    &&& parents.len() == 2 ==> resolution_outcome(parents[0], parents[1], conclusion, limits, v)
}

/// Binary resolution: the conclusion is a resolvent of the two parents
/// (the second renamed apart from the first), or the empty clause when a
/// parent is empty.
pub fn verify_resolution(parents: &[Formula], conclusion: &Formula, limits: VerificationLimits) -> (r: KernelVerdict)
    ensures
        resolution_rule_outcome(parents@, *conclusion, limits, r@),
{
    if parents.len() != 2 {
        return rejected("resolution rule must have two parents");
    }
    resolve_formulas(&parents[0], &parents[1], conclusion, limits)
}

/// The formula denotes the empty clause.
pub open spec fn is_empty_clause(f: Formula, limits: VerificationLimits) -> bool {
    clause_of(f, limits.max_clause_literals) matches Some(c) && c.len() == 0
}

/// Some two parents, in order, resolve to the conclusion.
pub open spec fn some_pair_resolves(parents: Seq<Formula>, conclusion: Formula, limits: VerificationLimits) -> bool {
    exists|i: int, j: int| 0 <= i < j < parents.len() && #[trigger] resolution_outcome(
        parents[i],
        parents[j],
        conclusion,
        limits,
        VerdictView::Certified,
    )
}

fn is_empty_clause_exec(f: &Formula, limits: VerificationLimits) -> (r: bool)
    ensures
        r == is_empty_clause(*f, limits),
{
    match clause_from_formula(f, limits) {
        Some(c) => c.len() == 0,
        None => false,
    }
}

/// The verdicts `verify_consequence` may give.
/// Parents `i` and `j` resolve to the conclusion without a substitution,
/// or one of them is empty and the conclusion is the empty clause.
pub open spec fn plain_pair(parents: Seq<Formula>, conclusion: Formula, limits: VerificationLimits, i: int, j: int) -> bool {
    let n = limits.max_clause_literals;
    &&& 0 <= i < j < parents.len()
    &&& clause_of(parents[i], n) matches Some(lc)
    &&& clause_of(parents[j], n) matches Some(rc)
    &&& clause_of(conclusion, n) matches Some(gc)
    &&& (refutes_trivially(lc, rc, gc) || exists|a: int, b: int| #[trigger] plain_resolution(lc, renamed_apart(lc, rc), gc, a, b))
}

pub open spec fn consequence_outcome(parents: Seq<Formula>, conclusion: Formula, limits: VerificationLimits, v: VerdictView) -> bool {
    &&& parents.len() == 2 ==> resolution_outcome(parents[0], parents[1], conclusion, limits, v)
    &&& parents.len() == 0 ==> v == VerdictView::Rejected("consequence must have at least one parent"@)
    &&& parents.len() != 0 && parents.len() != 2 ==> {
        &&& (is_empty_clause(conclusion, limits) && exists|k: int| 0 <= k < parents.len() && #[trigger] is_empty_clause(parents[k], limits))
            ==> v == VerdictView::Certified
        &&& v == VerdictView::Certified ==> (
            (is_empty_clause(conclusion, limits) && exists|k: int| 0 <= k < parents.len() && #[trigger] is_empty_clause(parents[k], limits))
            || some_pair_resolves(parents, conclusion, limits))
        &&& v == VerdictView::Certified
            || v == VerdictView::Inconclusive("consequence exceeded strict matching-step limit"@)
            || v == VerdictView::Rejected("consequence conclusion is not justified by parents"@)
        &&& (exists|i: int, j: int| #[trigger] plain_pair(parents, conclusion, limits, i, j))
            ==> v != VerdictView::Rejected("consequence conclusion is not justified by parents"@)
        &&& parents.len() == 1 && !(is_empty_clause(conclusion, limits) && is_empty_clause(parents[0], limits))
            ==> v == VerdictView::Rejected("consequence conclusion is not justified by parents"@)
    }
}

/// A consequence of the parents: with two parents, their resolvent; with
/// more, the resolvent of some pair (within the step limit), or the empty
/// clause when a parent is empty.
pub fn verify_consequence(parents: &[Formula], conclusion: &Formula, limits: VerificationLimits) -> (r: KernelVerdict)
    ensures
        consequence_outcome(parents@, *conclusion, limits, r@),
{
    if parents.len() == 2 {
        return verify_resolution(parents, conclusion, limits);
    }
    if parents.len() == 0 {
        return rejected("consequence must have at least one parent");
    }
    let conclusion_empty = is_empty_clause_exec(conclusion, limits);
    if conclusion_empty {
        let mut k: usize = 0;
        while k < parents.len()
            invariant
                0 <= k <= parents@.len(),
                parents@.len() != 2,
                parents@.len() != 0,
                conclusion_empty == is_empty_clause(*conclusion, limits),
                conclusion_empty,
                forall|m: int| 0 <= m < k ==> !#[trigger] is_empty_clause(parents@[m], limits),
            decreases parents.len() - k,
        {
            if is_empty_clause_exec(&parents[k], limits) {
                return KernelVerdict::Certified;
            }
            k = k + 1;
        }
    }
    let mut attempts: usize = 0;
    let mut i: usize = 0;
    while i < parents.len()
        invariant
            0 <= i <= parents@.len(),
            parents@.len() != 2,
            parents@.len() != 0,
            !(is_empty_clause(*conclusion, limits) && exists|k: int| 0 <= k < parents@.len() && #[trigger] is_empty_clause(parents@[k], limits)),
            forall|a: int, b: int| 0 <= a < i ==> !#[trigger] plain_pair(parents@, *conclusion, limits, a, b),
        decreases parents.len() - i,
    {
        let mut j: usize = i + 1;
        while j < parents.len()
            invariant
                0 <= i < parents@.len(),
                parents@.len() != 2,
                parents@.len() != 0,
                i + 1 <= j <= parents@.len(),
                !(is_empty_clause(*conclusion, limits) && exists|k: int| 0 <= k < parents@.len() && #[trigger] is_empty_clause(parents@[k], limits)),
                forall|a: int, b: int| 0 <= a < i ==> !#[trigger] plain_pair(parents@, *conclusion, limits, a, b),
                forall|b: int| b < j ==> !#[trigger] plain_pair(parents@, *conclusion, limits, i as int, b),
            decreases parents.len() - j,
        {
            if attempts >= limits.max_equivalence_steps {
                return inconclusive("consequence exceeded strict matching-step limit");
            }
            attempts = attempts + 1;
            let v = resolve_formulas(&parents[i], &parents[j], conclusion, limits);
            if v.is_certified() {
                assert(resolution_outcome(parents@[i as int], parents@[j as int], *conclusion, limits, VerdictView::Certified));
                assert(some_pair_resolves(parents@, *conclusion, limits));
                return KernelVerdict::Certified;
            }
            proof {
                if plain_pair(parents@, *conclusion, limits, i as int, j as int) {
                    let n = limits.max_clause_literals;
                    let lc = clause_of(parents@[i as int], n)->Some_0;
                    let rc = clause_of(parents@[j as int], n)->Some_0;
                    let gc = clause_of(*conclusion, n)->Some_0;
                    if !refutes_trivially(lc, rc, gc) {
                        let (a, b) = choose|a: int, b: int| #[trigger] plain_resolution(lc, renamed_apart(lc, rc), gc, a, b);
                    }
                }
            }
            j = j + 1;
        }
        i = i + 1;
    }
    rejected("consequence conclusion is not justified by parents")
}

/// The verdicts `verify_ex_falso` may give.
pub open spec fn ex_falso_outcome(parents: Seq<Formula>, limits: VerificationLimits, v: VerdictView) -> bool {
    &&& parents.len() == 1 && parents[0] is False ==> v == VerdictView::Certified
    &&& parents.len() == 1 && !(parents[0] is False) || parents.len() != 1 && parents.len() != 2
        ==> v == VerdictView::Rejected("ex_falso must have one `$false` parent or two contradiction parents"@)
    &&& parents.len() == 2 ==> if cap(formula_nodes(parents[0])) > limits.max_formula_nodes
        || cap(formula_nodes(parents[1])) > limits.max_formula_nodes {
        v == VerdictView::Inconclusive("ex_falso exceeded strict formula-size limit"@)
    } else {
        resolution_outcome(parents[0], parents[1], Formula::False, limits, v)
    }
}

/// Ex falso: one `$false` parent, or two parents that resolve to the empty
/// clause.
pub fn verify_ex_falso(parents: &[Formula], limits: VerificationLimits) -> (r: KernelVerdict)
    ensures
        ex_falso_outcome(parents@, limits, r@),
{
    if parents.len() == 1 {
        if let Formula::False = &parents[0] {
            return KernelVerdict::Certified;
        }
    }
    if parents.len() != 2 {
        return rejected("ex_falso must have one `$false` parent or two contradiction parents");
    }
    if formula_size(&parents[0]) > limits.max_formula_nodes || formula_size(&parents[1]) > limits.max_formula_nodes {
        return inconclusive("ex_falso exceeded strict formula-size limit");
    }
    let falsum = Formula::False;
    resolve_formulas(&parents[0], &parents[1], &falsum, limits)
}

/// The verdicts `verify_reflexivity` may give.
pub open spec fn reflexivity_outcome(parents: Seq<Formula>, conclusion: Formula, v: VerdictView) -> bool {
    &&& parents.len() != 1 ==> v == VerdictView::Rejected("reflexivity must have one parent"@)
    &&& parents.len() == 1 ==> if (conclusion matches Formula::Atom(Atom::Eq(a, b)) && a@ == b@) {
        v == VerdictView::Certified
    } else {
        v == VerdictView::Rejected("reflexivity conclusion is not t = t"@)
    }
}

/// Reflexivity: one parent and a conclusion `t = t`.
pub fn verify_reflexivity(parents: &[Formula], conclusion: &Formula) -> (r: KernelVerdict)
    ensures
        reflexivity_outcome(parents@, *conclusion, r@),
{
    if parents.len() != 1 {
        return rejected("reflexivity must have one parent");
    }
    match conclusion {
        Formula::Atom(Atom::Eq(a, b)) => {
            if term_eq(a, b) {
                return KernelVerdict::Certified;
            }
        },
        _ => {},
    }
    rejected("reflexivity conclusion is not t = t")
}

/// A term without variables.
pub open spec fn ground(t: STerm) -> bool
    decreases t,
{
    match t {
        STerm::Var(_) => false,
        STerm::App(_, args) => ground_all(args),
    }
}

pub open spec fn ground_all(ts: Seq<STerm>) -> bool
    decreases ts,
{
    ts.len() == 0 || (ground_all(ts.drop_last()) && ground(ts.last()))
}

/// Whether a term has no variables.
pub fn is_ground(t: &Term) -> (r: bool)
    ensures
        r == ground(t@),
    decreases t,
{
    match t {
        Term::Var(_) => false,
        Term::App(_, args) => {
            let mut i: usize = 0;
            while i < args.len()
                invariant
                    0 <= i <= args.len(),
                    *t is App,
                    (*t)->App_1 == *args,
                    ground_all(terms_view(args@.take(i as int))),
                decreases args.len() - i,
            {
                proof {
                    assert(decreases_to!(*t => (*t)->App_1));
                    assert(decreases_to!((*t)->App_1 => (*t)->App_1@));
                    assert(decreases_to!(args@ => args@[i as int]));
                    lemma_take_push(args@, i as int);
                    lemma_terms_view_push(args@.take(i as int), args@[i as int]);
                    let ts = terms_view(args@.take(i as int));
                    assert(ts.push(args@[i as int]@).drop_last() == ts);
                }
                if !is_ground(&args[i]) {
                    proof {
                        lemma_terms_view(args@);
                        assert(terms_view(args@)[i as int] == args@[i as int]@);
                        lemma_ground_all_fails(terms_view(args@), i as int);
                    }
                    return false;
                }
                i = i + 1;
            }
            proof {
                lemma_take_all(args@);
            }
            true
        },
    }
}

proof fn lemma_ground_all_fails(ts: Seq<STerm>, k: int)
    requires
        0 <= k < ts.len(),
        !ground(ts[k]),
    ensures
        !ground_all(ts),
    decreases ts.len(),
{
    if k < ts.len() - 1 {
        assert(ts.drop_last()[k] == ts[k]);
        lemma_ground_all_fails(ts.drop_last(), k);
    }
}

/// The two sides of a formula that is a single equation.
pub open spec fn positive_equality(f: Formula) -> Option<(STerm, STerm)> {
    match f {
        Formula::Atom(Atom::Eq(l, r)) => Some((l@, r@)),
        _ => None,
    }
}

fn positive_equality_exec(f: &Formula) -> (r: Option<(&Term, &Term)>)
    ensures
        match positive_equality(*f) {
            Some(p) => r matches Some(q) && q.0@ == p.0 && q.1@ == p.1,
            None => r is None,
        },
{
    match f {
        Formula::Atom(Atom::Eq(l, r)) => Some((l, r)),
        _ => None,
    }
}

/// `a = b` and `c = d`, each read in either direction, chain through a
/// shared middle term to `gl = gr`, in either direction.
pub open spec fn equality_chain(a: STerm, b: STerm, c: STerm, d: STerm, gl: STerm, gr: STerm) -> bool {
    exists|first: (STerm, STerm), second: (STerm, STerm)|
        (#[trigger] orientation(first, a, b) && #[trigger] orientation(second, c, d))
        && first.1 == second.0
        && ((gl == first.0 && gr == second.1) || (gl == second.1 && gr == first.0))
}

/// `p` is the pair `(x, y)` or `(y, x)`.
pub open spec fn orientation(p: (STerm, STerm), x: STerm, y: STerm) -> bool {
    p == (x, y) || p == (y, x)
}

/// The verdicts `verify_transitivity` may give.
pub open spec fn transitivity_outcome(parents: Seq<Formula>, conclusion: Formula, limits: VerificationLimits, v: VerdictView) -> bool {
    &&& parents.len() != 2 ==> v == VerdictView::Rejected("transitivity must have two parents"@)
    &&& parents.len() == 2 ==> if cap(formula_nodes(parents[0])) > limits.max_formula_nodes
        || cap(formula_nodes(parents[1])) > limits.max_formula_nodes
        || cap(formula_nodes(conclusion)) > limits.max_formula_nodes {
        v == VerdictView::Inconclusive("transitivity exceeded strict formula-size limit"@)
    } else if positive_equality(parents[0]) is None || positive_equality(parents[1]) is None {
        v == VerdictView::Rejected("transitivity parent is not a positive equality"@)
    } else if positive_equality(conclusion) is None {
        v == VerdictView::Rejected("transitivity conclusion is not a positive equality"@)
    } else {
        let (a, b) = positive_equality(parents[0])->Some_0;
        let (c, d) = positive_equality(parents[1])->Some_0;
        let (gl, gr) = positive_equality(conclusion)->Some_0;
        if !(ground(a) && ground(b) && ground(c) && ground(d) && ground(gl) && ground(gr)) {
            v == VerdictView::Inconclusive("transitivity strict fragment requires ground equalities"@)
        } else if equality_chain(a, b, c, d, gl, gr) {
            v == VerdictView::Certified
        } else {
            v == VerdictView::Rejected("transitivity conclusion is not a parent equality chain"@)
        }
    }
}

/// Transitivity over ground equations: the parents `a = b` and `b = c`
/// (in either orientation) give `a = c` (in either orientation).
pub fn verify_transitivity(parents: &[Formula], conclusion: &Formula, limits: VerificationLimits) -> (r: KernelVerdict)
    ensures
        transitivity_outcome(parents@, *conclusion, limits, r@),
{
    if parents.len() != 2 {
        return rejected("transitivity must have two parents");
    }
    if formula_size(&parents[0]) > limits.max_formula_nodes || formula_size(&parents[1]) > limits.max_formula_nodes
        || formula_size(conclusion) > limits.max_formula_nodes {
        return inconclusive("transitivity exceeded strict formula-size limit");
    }
    let (a, b) = match positive_equality_exec(&parents[0]) {
        Some(p) => p,
        None => return rejected("transitivity parent is not a positive equality"),
    };
    let (c, d) = match positive_equality_exec(&parents[1]) {
        Some(p) => p,
        None => return rejected("transitivity parent is not a positive equality"),
    };
    let (gl, gr) = match positive_equality_exec(conclusion) {
        Some(p) => p,
        None => return rejected("transitivity conclusion is not a positive equality"),
    };
    if !(is_ground(a) && is_ground(b) && is_ground(c) && is_ground(d) && is_ground(gl) && is_ground(gr)) {
        return inconclusive("transitivity strict fragment requires ground equalities");
    }
    if chain_exists(a, b, c, d, gl, gr) {
        KernelVerdict::Certified
    } else {
        rejected("transitivity conclusion is not a parent equality chain")
    }
}

/// Whether `a = b` and `c = d` chain to `gl = gr`, each in either
/// direction.
fn chain_exists(a: &Term, b: &Term, c: &Term, d: &Term, gl: &Term, gr: &Term) -> (r: bool)
    ensures
        r == equality_chain(a@, b@, c@, d@, gl@, gr@),
{
    let firsts = [(a, b), (b, a)];
    let seconds = [(c, d), (d, c)];
    let mut x: usize = 0;
    while x < 2
        invariant
            0 <= x <= 2,
            firsts@ == seq![(a, b), (b, a)],
            seconds@ == seq![(c, d), (d, c)],
            forall|p: int, q: int| 0 <= p < x && 0 <= q < 2 ==> !#[trigger] chain_at(firsts@[p], seconds@[q], gl@, gr@),
        decreases 2 - x,
    {
        let mut y: usize = 0;
        while y < 2
            invariant
                0 <= x < 2,
                0 <= y <= 2,
                firsts@ == seq![(a, b), (b, a)],
                seconds@ == seq![(c, d), (d, c)],
                forall|p: int, q: int| 0 <= p < x && 0 <= q < 2 ==> !#[trigger] chain_at(firsts@[p], seconds@[q], gl@, gr@),
                forall|q: int| 0 <= q < y ==> !#[trigger] chain_at(firsts@[x as int], seconds@[q], gl@, gr@),
            decreases 2 - y,
        {
            let (first_left, first_right) = firsts[x];
            let (second_left, second_right) = seconds[y];
            if term_eq(first_right, second_left) {
                if (term_eq(gl, first_left) && term_eq(gr, second_right)) || (term_eq(gl, second_right) && term_eq(gr, first_left)) {
                    proof {
                        let f = (first_left@, first_right@);
                        let g = (second_left@, second_right@);
                        assert(orientation(f, a@, b@));
                        assert(orientation(g, c@, d@));
                    }
                    return true;
                }
            }
            y = y + 1;
        }
        x = x + 1;
    }
    proof {
        assert forall|f: (STerm, STerm), g: (STerm, STerm)|
            #[trigger] orientation(f, a@, b@) && #[trigger] orientation(g, c@, d@) implies !(f.1 == g.0
                && ((gl@ == f.0 && gr@ == g.1) || (gl@ == g.1 && gr@ == f.0))) by {
            let p: int = if f == (a@, b@) { 0 } else { 1 };
            let q: int = if g == (c@, d@) { 0 } else { 1 };
            assert(!chain_at(firsts@[p], seconds@[q], gl@, gr@));
        }
    }
    false
}

/// The oriented pairs chain to `gl = gr` in either direction.
pub open spec fn chain_at(first: (&Term, &Term), second: (&Term, &Term), gl: STerm, gr: STerm) -> bool {
    first.1@ == second.0@ && ((gl == first.0@ && gr == second.1@) || (gl == second.1@ && gr == first.0@))
}

/// Equality resolution on literal `i` under `s`: the negative equation
/// there has sides made equal by `s`, and the instance of the rest of the
/// clause is `goal` up to renaming (possibly after removing repeated
/// literals on both sides).
pub open spec fn equality_resolution_step(parent: Seq<SLiteral>, goal: Seq<SLiteral>, i: int, s: Map<u32, STerm>) -> bool {
    &&& 0 <= i < parent.len()
    &&& !parent[i].positive
    &&& parent[i].atom matches SAtom::Eq(l, r)
    &&& subst_term(l, s) == subst_term(r, s)
    &&& {
        let expected = subst_clause(without(parent, i), s);
        clause_alpha(expected, goal) || clause_alpha(condensed(expected), condensed(goal))
    }
}

/// The parent has a negative equation with identical sides at `i`, and
/// the rest of the parent is `goal` up to renaming.
pub open spec fn plain_equality_resolution(parent: Seq<SLiteral>, goal: Seq<SLiteral>, i: int) -> bool {
    &&& 0 <= i < parent.len()
    &&& !parent[i].positive
    &&& parent[i].atom matches SAtom::Eq(l, r)
    &&& l == r
    &&& clause_alpha(without(parent, i), goal)
}

/// Literal `i` of the parent is a negative equation with one ground side,
/// which the other side becomes under `w`, binding exactly that side's
/// variables; the rest of the parent under `w` is `goal` up to renaming
/// (possibly after removing repeated literals on both sides).
pub open spec fn ground_side_equality_resolution(parent: Seq<SLiteral>, goal: Seq<SLiteral>, i: int, w: Map<u32, STerm>) -> bool {
    &&& 0 <= i < parent.len()
    &&& !parent[i].positive
    &&& parent[i].atom matches SAtom::Eq(l, r)
    &&& (vars_of(r) == Set::<u32>::empty() && w.dom() == vars_of(l) && subst_term(l, w) == r)
        || (vars_of(l) == Set::<u32>::empty() && w.dom() == vars_of(r) && subst_term(r, w) == l)
    &&& {
        let expected = subst_clause(without(parent, i), w);
        clause_alpha(expected, goal) || clause_alpha(condensed(expected), condensed(goal))
    }
}

/// Literal `i` of the parent is a negative equation whose sides unify, and
/// under every most general unifier of them the rest of the parent is
/// `goal` up to renaming (possibly after removing repeated literals on
/// both sides).
pub open spec fn unifiable_equality_resolution(parent: Seq<SLiteral>, goal: Seq<SLiteral>, i: int) -> bool {
    &&& 0 <= i < parent.len()
    &&& !parent[i].positive
    &&& parent[i].atom matches SAtom::Eq(l, r)
    &&& exists|w: Map<u32, STerm>| subst_term(l, w) == subst_term(r, w)
    &&& forall|s: Map<u32, STerm>| #[trigger] most_general_unifier(l, r, s) ==> {
        let expected = subst_clause(without(parent, i), s);
        clause_alpha(expected, goal) || clause_alpha(condensed(expected), condensed(goal))
    }
}

/// The verdicts `verify_equality_resolution` may give.
pub open spec fn equality_resolution_outcome(parents: Seq<Formula>, conclusion: Formula, limits: VerificationLimits, v: VerdictView) -> bool {
    &&& parents.len() != 1 ==> v == VerdictView::Rejected("equality_resolution must have one parent"@)
    &&& parents.len() == 1 ==> {
        let pc = clause_of(parents[0], limits.max_clause_literals);
        let gc = clause_of(conclusion, limits.max_clause_literals);
        if pc is None {
            v == VerdictView::Inconclusive("equality_resolution parent is not a supported clause"@)
        } else if gc is None {
            v == VerdictView::Inconclusive("equality_resolution conclusion is not a supported clause"@)
        } else {
            &&& v == VerdictView::Certified
                || v == VerdictView::Rejected("equality_resolution conclusion is not a valid equality resolvent"@)
            &&& v == VerdictView::Certified ==> exists|i: int, s: Map<u32, STerm>|
                #[trigger] equality_resolution_step(pc->Some_0, gc->Some_0, i, s)
            &&& (exists|i: int| #[trigger] plain_equality_resolution(pc->Some_0, gc->Some_0, i)) ==> v == VerdictView::Certified
            &&& (exists|i: int, w: Map<u32, STerm>| #[trigger] ground_side_equality_resolution(pc->Some_0, gc->Some_0, i, w))
                ==> v == VerdictView::Certified
            &&& (exists|i: int| #[trigger] unifiable_equality_resolution(pc->Some_0, gc->Some_0, i)) ==> v == VerdictView::Certified
        }
    }
}

/// Equality resolution: the conclusion is the parent without a negative
/// equation whose sides unify, under that unifier.
pub fn verify_equality_resolution(parents: &[Formula], conclusion: &Formula, limits: VerificationLimits) -> (r: KernelVerdict)
    ensures
        equality_resolution_outcome(parents@, *conclusion, limits, r@),
{
    if parents.len() != 1 {
        return rejected("equality_resolution must have one parent");
    }
    let parent = match clause_from_formula(&parents[0], limits) {
        Some(c) => c,
        None => return inconclusive("equality_resolution parent is not a supported clause"),
    };
    let goal = match clause_from_formula(conclusion, limits) {
        Some(c) => c,
        None => return inconclusive("equality_resolution conclusion is not a supported clause"),
    };
    let ghost pv = clause_view(parent@);
    let ghost gv = clause_view(goal@);
    let mut i: usize = 0;
    while i < parent.len()
        invariant
            0 <= i <= parent.len(),
            pv == clause_view(parent@),
            gv == clause_view(goal@),
            parents@.len() == 1,
            clause_of(parents@[0], limits.max_clause_literals) == Some(pv),
            clause_of(*conclusion, limits.max_clause_literals) == Some(gv),
            forall|k: int| 0 <= k < i ==> !#[trigger] plain_equality_resolution(pv, gv, k),
            forall|k: int, w: Map<u32, STerm>| 0 <= k < i ==> !#[trigger] ground_side_equality_resolution(pv, gv, k, w),
            forall|k: int| 0 <= k < i ==> !#[trigger] unifiable_equality_resolution(pv, gv, k),
        decreases parent.len() - i,
    {
        proof {
            assert(pv[i as int] == parent@[i as int]@);
        }
        let ghost witness = exists|w: Map<u32, STerm>| #[trigger] ground_side_equality_resolution(pv, gv, i as int, w);
        let ghost w = choose|w: Map<u32, STerm>| #[trigger] ground_side_equality_resolution(pv, gv, i as int, w);
        if !parent[i].positive {
            match &parent[i].atom {
                Atom::Eq(l, r) => {
                    proof {
                        if witness {
                            if vars_of(r@) == Set::<u32>::empty() && w.dom() == vars_of(l@) && subst_term(l@, w) == r@ {
                                lemma_subst_disjoint(r@, w);
                            } else {
                                lemma_subst_disjoint(l@, w);
                            }
                            assert(subst_term(l@, w) == subst_term(r@, w));
                        }
                    }
                    match unify_term_pair(l, r) {
                        Some(s) => {
                            proof {
                                if unifiable_equality_resolution(pv, gv, i as int) {
                                    assert(most_general_unifier(l@, r@, s@));
                                }
                                if witness {
                                    assert(absorbs(w, s@));
                                    if vars_of(r@) == Set::<u32>::empty() && w.dom() == vars_of(l@) && subst_term(l@, w) == r@ {
                                        lemma_ground_unifier_unique(l@, r@, s@, w);
                                    } else {
                                        assert(s@.dom().subset_of(vars_of(r@) + vars_of(l@)));
                                        lemma_ground_unifier_unique(r@, l@, s@, w);
                                    }
                                }
                            }
                            let mut expected: Vec<Literal> = Vec::new();
                            push_instance_except(&mut expected, &parent, i, &s);
                            proof {
                                assert(pv[i as int] == parent@[i as int]@);
                                assert(clause_view(expected@) =~= subst_clause(without(pv, i as int), s@)) by {
                                    assert(clause_view(Seq::<Literal>::empty()) =~= Seq::<SLiteral>::empty());
                                }
                            }
                            if clause_alpha_equiv(&expected, &goal)
                                || clause_alpha_equiv(&condense_clause(&expected), &condense_clause(&goal)) {
                                assert(equality_resolution_step(pv, gv, i as int, s@));
                                return KernelVerdict::Certified;
                            }
                            proof {
                                if l@ == r@ {
                                    crate::instance::lemma_subst_clause_empty(without(pv, i as int));
                                }
                            }
                        },
                        None => {},
                    }
                },
                _ => {},
            }
        }
        i = i + 1;
    }
    rejected("equality_resolution conclusion is not a valid equality resolvent")
}

} // verus!
