//! Simplification checks that remove literals: subsumption resolution and
//! condensation.
use vstd::prelude::*;
use crate::term::{Atom, Literal, Formula, STerm, SAtom, SLiteral, clause_view};
use crate::verdict::{KernelVerdict, VerdictView, VerificationLimits, rejected, inconclusive};
use crate::clause::{clause_of, clause_from_formula, condensed, condense_clause, copy_clause, copy_atom};
use crate::alpha::{clause_alpha, clause_alpha_equiv};
use crate::subst::{Subst, subst_term, subst_terms};
use crate::instance::{
    clause_without, subst_clause, without, push_instance_except, atoms_unified, unify_pred_atoms, unify_equation_sides,
    shift_var, shift_sterm, shift_sterms, shift_sclause, clause_max_var, atom_max_var, term_max_var,
    terms_max_var, lemma_subst_clause_empty, atom_vars, lemma_ground_unifier_unique_all, lemma_pair_terms,
};
use crate::unify::{vars_of, vars_all, absorbs, lemma_subst_disjoint};
use crate::subsume::{
    subsumes, subsumes_directly, match_subsumes, instance_choice, direct_choice, atom_instance, direct_instance, none_used,
};
use crate::clause::lemma_condense_laws;

verus! {

/// The clause with the sign of literal `i` flipped.
pub open spec fn flip_at(c: Seq<SLiteral>, i: int) -> Seq<SLiteral> {
    c.update(i, SLiteral { positive: !c[i].positive, atom: c[i].atom })
}

/// `active` (nonempty) has an instance inside `target` with literal `i`
/// flipped, and the goal is the target without literal `i`, up to renaming
/// after removing repeated literals on both sides.
pub open spec fn subsumption_resolution_step(
    target: Seq<SLiteral>,
    active: Seq<SLiteral>,
    goal: Seq<SLiteral>,
    i: int,
) -> bool {
    &&& active.len() > 0
    &&& 0 <= i < target.len()
    &&& subsumes(active, flip_at(target, i), true)
    &&& clause_alpha(condensed(without(target, i)), condensed(goal))
}

/// A subsumption resolution step in which `active` instantiates each of its
/// equations with the sides as written.
pub open spec fn direct_subsumption_resolution_step(
    target: Seq<SLiteral>,
    active: Seq<SLiteral>,
    goal: Seq<SLiteral>,
    i: int,
) -> bool {
    &&& active.len() > 0
    &&& 0 <= i < target.len()
    &&& subsumes_directly(active, flip_at(target, i), true)
    &&& clause_alpha(condensed(without(target, i)), condensed(goal))
}

/// What subsumption resolution certifies: a conclusion that restates a
/// parent, or a target parent with one literal removed whose complement
/// the other parent subsumes.
pub open spec fn subsumption_resolution_accepts(c0: Seq<SLiteral>, c1: Seq<SLiteral>, goal: Seq<SLiteral>) -> bool {
    ||| clause_alpha(c0, goal)
    ||| clause_alpha(c1, goal)
    ||| exists|i: int| #[trigger] subsumption_resolution_step(c0, c1, goal, i)
    ||| exists|i: int| #[trigger] subsumption_resolution_step(c1, c0, goal, i)
}

pub enum Search {
    Found,
    NotFound,
    Exhausted,
}

/// Tries each literal of `target` as the one removed by `active`.
fn resolve_away_literal(target: &Vec<Literal>, active: &Vec<Literal>, goal: &Vec<Literal>, limits: VerificationLimits) -> (r: Search)
    ensures
        r is Found ==> exists|i: int| #[trigger] subsumption_resolution_step(clause_view(target@), clause_view(active@), clause_view(goal@), i),
        (exists|i: int| #[trigger] direct_subsumption_resolution_step(clause_view(target@), clause_view(active@), clause_view(goal@), i))
            ==> !(r is NotFound),
{
    if active.len() == 0 {
        assert(clause_view(active@).len() == 0);
        return Search::NotFound;
    }
    let ghost tv = clause_view(target@);
    let ghost av = clause_view(active@);
    let ghost gv = clause_view(goal@);
    let mut matching_steps: usize = 0;
    let mut i: usize = 0;
    while i < target.len()
        invariant
            0 <= i <= target.len(),
            active@.len() > 0,
            tv == clause_view(target@),
            av == clause_view(active@),
            gv == clause_view(goal@),
            forall|j: int| 0 <= j < i ==> !#[trigger] direct_subsumption_resolution_step(tv, av, gv, j),
        decreases target.len() - i,
    {
        let mut modified = copy_clause(target);
        assert(modified@.len() == target@.len()) by {
            assert(clause_view(modified@).len() == clause_view(target@).len());
        }
        let flipped = Literal { positive: !target[i].positive, atom: copy_atom(&target[i].atom) };
        modified.set(i, flipped);
        proof {
            assert(tv[i as int] == target@[i as int]@);
            assert(clause_view(modified@) =~= flip_at(tv, i as int));
        }
        match match_subsumes(active, &modified, &mut matching_steps, limits.max_subsumption_steps, true) {
            Ok(true) => {
                let expected = clause_without(target, i);
                if clause_alpha_equiv(&condense_clause(&expected), &condense_clause(goal)) {
                    assert(subsumption_resolution_step(tv, av, gv, i as int));
                    return Search::Found;
                }
            },
            Ok(false) => {},
            Err(()) => {
                return Search::Exhausted;
            },
        }
        i = i + 1;
    }
    proof {
        if exists|j: int| #[trigger] direct_subsumption_resolution_step(tv, av, gv, j) {
            let j = choose|j: int| #[trigger] direct_subsumption_resolution_step(tv, av, gv, j);
            assert(0 <= j < tv.len());
        }
    }
    Search::NotFound
}

/// The verdicts `verify_subsumption_resolution` may give.
pub open spec fn subsumption_resolution_outcome(parents: Seq<Formula>, conclusion: Formula, limits: VerificationLimits, v: VerdictView) -> bool {
    &&& parents.len() != 2 ==> v == VerdictView::Rejected("subsumption_resolution must have a target and an active parent"@)
    &&& parents.len() == 2 ==> {
        let c0 = clause_of(parents[0], limits.max_clause_literals);
        let c1 = clause_of(parents[1], limits.max_clause_literals);
        let gc = clause_of(conclusion, limits.max_clause_literals);
        if c0 is None {
            v == VerdictView::Inconclusive("subsumption_resolution parent 0 is not a supported clause"@)
        } else if gc is None {
            v == VerdictView::Inconclusive("subsumption_resolution conclusion is not a supported clause"@)
        } else if c1 is None {
            v == VerdictView::Inconclusive("subsumption_resolution parent 1 is not a supported clause"@)
        } else {
            &&& v == VerdictView::Certified
                || v == VerdictView::Inconclusive("subsumption_resolution exceeded strict matching-step limit"@)
                || v == VerdictView::Rejected("subsumption_resolution conclusion is not the target with a justified literal removed"@)
            &&& v == VerdictView::Certified ==> subsumption_resolution_accepts(c0->Some_0, c1->Some_0, gc->Some_0)
            &&& (clause_alpha(c0->Some_0, gc->Some_0) || clause_alpha(c1->Some_0, gc->Some_0)) ==> v == VerdictView::Certified
            &&& ((exists|i: int| #[trigger] direct_subsumption_resolution_step(c0->Some_0, c1->Some_0, gc->Some_0, i))
                || (exists|i: int| #[trigger] direct_subsumption_resolution_step(c1->Some_0, c0->Some_0, gc->Some_0, i)))
                ==> v != VerdictView::Rejected("subsumption_resolution conclusion is not the target with a justified literal removed"@)
        }
    }
}

/// Subsumption resolution: the conclusion restates a parent, or is one
/// parent (the target) with a literal removed whose complement the other
/// parent subsumes; literal repeats are ignored.
pub fn verify_subsumption_resolution(parents: &[Formula], conclusion: &Formula, limits: VerificationLimits) -> (r: KernelVerdict)
    ensures
        subsumption_resolution_outcome(parents@, *conclusion, limits, r@),
{
    if parents.len() != 2 {
        return rejected("subsumption_resolution must have a target and an active parent");
    }
    let c0 = match clause_from_formula(&parents[0], limits) {
        Some(c) => c,
        None => return inconclusive("subsumption_resolution parent 0 is not a supported clause"),
    };
    let goal = match clause_from_formula(conclusion, limits) {
        Some(c) => c,
        None => return inconclusive("subsumption_resolution conclusion is not a supported clause"),
    };
    let c1 = match clause_from_formula(&parents[1], limits) {
        Some(c) => c,
        None => return inconclusive("subsumption_resolution parent 1 is not a supported clause"),
    };
    if clause_alpha_equiv(&c0, &goal) || clause_alpha_equiv(&c1, &goal) {
        return KernelVerdict::Certified;
    }
    match resolve_away_literal(&c0, &c1, &goal, limits) {
        Search::Found => return KernelVerdict::Certified,
        Search::Exhausted => return inconclusive("subsumption_resolution exceeded strict matching-step limit"),
        Search::NotFound => {},
    }
    match resolve_away_literal(&c1, &c0, &goal, limits) {
        Search::Found => return KernelVerdict::Certified,
        Search::Exhausted => return inconclusive("subsumption_resolution exceeded strict matching-step limit"),
        Search::NotFound => {},
    }
    rejected("subsumption_resolution conclusion is not the target with a justified literal removed")
}

/// `s` unifies two atoms, equations with their sides as written.
pub open spec fn unifies_directly(a: SAtom, b: SAtom, s: Map<u32, STerm>) -> bool {
    match (a, b) {
        (SAtom::Pred(p, xs), SAtom::Pred(q, ys)) => p == q && subst_terms(xs, s) == subst_terms(ys, s),
        (SAtom::Eq(l1, r1), SAtom::Eq(l2, r2)) => subst_term(l1, s) == subst_term(l2, s) && subst_term(r1, s) == subst_term(r2, s),
        _ => false,
    }
}

/// The unifiers condensation tries for two atoms: the argument unifier of
/// two predicate atoms, or for two equations the unifier as written and
/// the unifier flipped, each when it exists.
pub fn unifiers_for_condensation(left: &Atom, right: &Atom) -> (r: Vec<Subst>)
    ensures
        r@.len() <= 2,
        forall|k: int| 0 <= k < r@.len() ==> atoms_unified(left@, right@, #[trigger] r@[k]@),
        left@ == right@ ==> r@.len() > 0 && r@[0]@ == Map::<u32, STerm>::empty(),
        (exists|w: Map<u32, STerm>| unifies_directly(left@, right@, w)) ==> r@.len() > 0
            && unifies_directly(left@, right@, r@[0]@)
            && r@[0]@.dom().subset_of(atom_vars(left@) + atom_vars(right@))
            && forall|w: Map<u32, STerm>| unifies_directly(left@, right@, w) ==> #[trigger] absorbs(w, r@[0]@),
{
    let mut out: Vec<Subst> = Vec::new();
    let ghost wit = exists|w: Map<u32, STerm>| unifies_directly(left@, right@, w);
    let ghost w0 = choose|w: Map<u32, STerm>| unifies_directly(left@, right@, w);
    proof {
        if wit {
            assert(unifies_directly(left@, right@, w0));
            match (left@, right@) {
                (SAtom::Pred(_, _), SAtom::Pred(_, _)) => assert(atoms_unified(left@, right@, w0)),
                _ => {},
            }
        }
    }
    match (left, right) {
        (Atom::Pred(_, _), Atom::Pred(_, _)) => {
            match unify_pred_atoms(left, right) {
                Some(s) => out.push(s),
                None => {},
            }
        },
        (Atom::Eq(ll, lr), Atom::Eq(rl, rr)) => {
            match unify_equation_sides(ll, lr, rl, rr) {
                Some(s) => {
                    assert(vars_of(ll@) + vars_of(lr@) + vars_of(rl@) + vars_of(rr@)
                        =~= atom_vars(left@) + atom_vars(right@));
                    out.push(s);
                },
                None => {},
            }
            match unify_equation_sides(ll, lr, rr, rl) {
                Some(s) => out.push(s),
                None => {},
            }
        },
        _ => {},
    }
    out
}

/// Literal `matched` of the parent is ground, and literal `removed`, of the
/// same sign, becomes it under `w` (an equation with its sides as written),
/// `w` binding exactly the variables of `removed`; the instance of the rest
/// of the parent, with repeats removed, still subsumes the parent, and is
/// the goal up to renaming.
pub open spec fn ground_instance_condensation(
    parent: Seq<SLiteral>,
    goal: Seq<SLiteral>,
    removed: int,
    matched: int,
    w: Map<u32, STerm>,
) -> bool {
    &&& 0 <= removed < parent.len()
    &&& 0 <= matched < parent.len()
    &&& removed != matched
    &&& parent[removed].positive == parent[matched].positive
    &&& atom_vars(parent[matched].atom) == Set::<u32>::empty()
    &&& w.dom() == atom_vars(parent[removed].atom)
    &&& direct_instance(parent[removed].atom, parent[matched].atom, w)
    &&& {
        let expected = subst_clause(without(parent, removed), w);
        &&& subsumes_directly(condensed(expected), parent, false)
        &&& clause_alpha(expected, goal) || clause_alpha(condensed(expected), condensed(goal))
    }
}

/// `s` is a most general unifier of two atoms (equations with their sides
/// as written): it unifies them, binds only their variables, and every such
/// unifier of them absorbs it.
pub open spec fn atoms_most_general_unifier(a: SAtom, b: SAtom, s: Map<u32, STerm>) -> bool {
    &&& unifies_directly(a, b, s)
    &&& s.dom().subset_of(atom_vars(a) + atom_vars(b))
    &&& forall|w: Map<u32, STerm>| unifies_directly(a, b, w) ==> #[trigger] absorbs(w, s)
}

/// Literals `removed` and `matched` of the parent have one sign and atoms
/// that unify (equations with their sides as written); under every most
/// general unifier of them the instance of the rest of the parent, with
/// repeats removed, still subsumes the parent and is the goal up to renaming.
pub open spec fn unifiable_condensation(parent: Seq<SLiteral>, goal: Seq<SLiteral>, removed: int, matched: int) -> bool {
    &&& 0 <= removed < parent.len()
    &&& 0 <= matched < parent.len()
    &&& removed != matched
    &&& parent[removed].positive == parent[matched].positive
    &&& exists|w: Map<u32, STerm>| unifies_directly(parent[removed].atom, parent[matched].atom, w)
    &&& forall|s: Map<u32, STerm>| #[trigger] atoms_most_general_unifier(parent[removed].atom, parent[matched].atom, s) ==> {
        let expected = subst_clause(without(parent, removed), s);
        &&& subsumes_directly(condensed(expected), parent, false)
        &&& clause_alpha(expected, goal) || clause_alpha(condensed(expected), condensed(goal))
    }
}

/// An atom that `w` instantiates to a ground atom, `w` binding exactly its
/// variables, is unified with it by `w`, and by no most general unifier
/// binding only their variables but `w` itself.
proof fn lemma_ground_instance_unifier(a: SAtom, b: SAtom, w: Map<u32, STerm>, s: Map<u32, STerm>)
    requires
        atom_vars(b) == Set::<u32>::empty(),
        w.dom() == atom_vars(a),
        direct_instance(a, b, w),
    ensures
        unifies_directly(a, b, w),
        unifies_directly(a, b, s) && s.dom().subset_of(atom_vars(a) + atom_vars(b)) && absorbs(w, s) ==> s == w,
{
    match (a, b) {
        (SAtom::Pred(p, xs), SAtom::Pred(q, ys)) => {
            assert(vars_of(STerm::App(0, ys)) == vars_all(ys));
            lemma_subst_disjoint(STerm::App(0, ys), w);
            if unifies_directly(a, b, s) && s.dom().subset_of(atom_vars(a) + atom_vars(b)) && absorbs(w, s) {
                lemma_ground_unifier_unique_all(xs, ys, s, w);
            }
        },
        (SAtom::Eq(ll, lr), SAtom::Eq(rl, rr)) => {
            assert(vars_of(rl) =~= Set::<u32>::empty()) by {
                assert(vars_of(rl).subset_of(atom_vars(b)));
            }
            assert(vars_of(rr) =~= Set::<u32>::empty()) by {
                assert(vars_of(rr).subset_of(atom_vars(b)));
            }
            lemma_subst_disjoint(rl, w);
            lemma_subst_disjoint(rr, w);
            lemma_pair_terms(ll, lr, w);
            lemma_pair_terms(rl, rr, w);
            lemma_pair_terms(ll, lr, s);
            lemma_pair_terms(rl, rr, s);
            if unifies_directly(a, b, s) && s.dom().subset_of(atom_vars(a) + atom_vars(b)) && absorbs(w, s) {
                lemma_ground_unifier_unique_all(seq![ll, lr], seq![rl, rr], s, w);
            }
        },
        _ => {},
    }
}

/// Condensation of `parent` removing literal `removed` by unifying it with
/// literal `matched` through `s`: the instance of the rest, with repeats
/// removed, still subsumes the parent, and is the goal up to renaming.
pub open spec fn condensation_step(parent: Seq<SLiteral>, goal: Seq<SLiteral>, removed: int, matched: int, s: Map<u32, STerm>) -> bool {
    &&& 0 <= removed < parent.len()
    &&& 0 <= matched < parent.len()
    &&& removed != matched
    &&& parent[removed].positive == parent[matched].positive
    &&& atoms_unified(parent[removed].atom, parent[matched].atom, s)
    &&& {
        let expected = subst_clause(without(parent, removed), s);
        &&& subsumes(condensed(expected), parent, false)
        &&& clause_alpha(expected, goal) || clause_alpha(condensed(expected), condensed(goal))
    }
}

/// Literals `removed` and `matched` of `parent` are one literal, and the goal
/// is the parent without `removed`, up to renaming (or after removing
/// repeats on both sides).
pub open spec fn repeated_literal_condensation(parent: Seq<SLiteral>, goal: Seq<SLiteral>, removed: int, matched: int) -> bool {
    &&& 0 <= removed < parent.len()
    &&& 0 <= matched < parent.len()
    &&& removed != matched
    &&& parent[removed] == parent[matched]
    &&& clause_alpha(without(parent, removed), goal) || clause_alpha(condensed(without(parent, removed)), condensed(goal))
}

/// Undoes a shift by `k` of the variables.
spec fn unshift(k: u32) -> Map<u32, STerm> {
    Map::new(|v: u32| v >= k, |v: u32| STerm::Var((v - k) as u32))
}

proof fn lemma_unshift_term(t: STerm, k: u32)
    requires
        term_max_var(t) + k <= u32::MAX,
    ensures
        subst_term(shift_sterm(t, k), unshift(k)) == t,
    decreases t,
{
    match t {
        STerm::Var(v) => {},
        STerm::App(f, args) => {
            lemma_unshift_terms(args, k);
        },
    }
}

proof fn lemma_unshift_terms(ts: Seq<STerm>, k: u32)
    requires
        terms_max_var(ts) + k <= u32::MAX,
    ensures
        subst_terms(shift_sterms(ts, k), unshift(k)) == ts,
    decreases ts,
{
    if ts.len() > 0 {
        lemma_unshift_terms(ts.drop_last(), k);
        lemma_unshift_term(ts.last(), k);
        let sh = shift_sterms(ts, k);
        assert(sh.drop_last() =~= shift_sterms(ts.drop_last(), k));
        assert(ts.drop_last().push(ts.last()) =~= ts);
    }
}

proof fn lemma_atom_max_var_bound(c: Seq<SLiteral>, i: int)
    requires
        0 <= i < c.len(),
    ensures
        atom_max_var(c[i].atom) <= clause_max_var(c),
    decreases c.len(),
{
    if i < c.len() - 1 {
        lemma_atom_max_var_bound(c.drop_last(), i);
        assert(c.drop_last()[i] == c[i]);
    }
}

/// A clause with one literal removed, and its repeats, still subsumes it,
/// each literal going to its own occurrence (for variables small enough that
/// renaming apart does not saturate).
pub proof fn lemma_without_subsumes(parent: Seq<SLiteral>, removed: int)
    requires
        0 <= removed < parent.len(),
        2 * clause_max_var(parent) < u32::MAX,
    ensures
        subsumes_directly(condensed(without(parent, removed)), parent, false),
        condensed(without(parent, removed)).len() <= parent.len(),
{
    let cw = condensed(without(parent, removed));
    let k = shift_var(clause_max_var(parent), 1);
    let shifted = shift_sclause(cw, k);
    let w = unshift(k);
    lemma_condense_laws(without(parent, removed));
    let choice = Seq::new(cw.len(), |q: int| choose|j: int| 0 <= j < parent.len() && parent[j] == cw[q]);
    assert forall|q: int| 0 <= q < cw.len() implies 0 <= #[trigger] choice[q] < parent.len() && parent[choice[q]] == cw[q] by {
        assert(cw.contains(cw[q]));
        assert(without(parent, removed).contains(cw[q]));
        let j0 = choose|j: int| 0 <= j < without(parent, removed).len() && without(parent, removed)[j] == cw[q];
        if j0 < removed {
            assert(parent[j0] == cw[q]);
        } else {
            assert(parent[j0 + 1] == cw[q]);
        }
    }
    assert forall|q: int| 0 <= q < choice.len() implies 0 <= #[trigger] choice[q] < parent.len()
        && shifted[0 + q].positive == parent[choice[q]].positive
        && atom_instance(shifted[0 + q].atom, parent[choice[q]].atom, w)
        && direct_instance(shifted[0 + q].atom, parent[choice[q]].atom, w) by {
        let j = choice[q];
        lemma_atom_max_var_bound(parent, j);
        assert(parent[j] == cw[q]);
        match cw[q].atom {
            SAtom::Pred(_, args) => {
                lemma_unshift_terms(args, k);
            },
            SAtom::Eq(l, r) => {
                lemma_unshift_term(l, k);
                lemma_unshift_term(r, k);
            },
        }
    }
    assert forall|q1: int, q2: int| 0 <= q1 < q2 < choice.len() implies #[trigger] choice[q1] != #[trigger] choice[q2] by {
        assert(cw[q1] != cw[q2]);
    }
    assert(instance_choice(shifted, parent, 0, w, choice, none_used(parent.len()), false));
    assert(direct_choice(shifted, parent, 0, w, choice));
}

/// Searches the pairs of literals for a condensation reaching `goal`.
fn find_condensation(parent: &Vec<Literal>, goal: &Vec<Literal>, limits: VerificationLimits) -> (r: Search)
    ensures
        r is Found ==> exists|removed: int, matched: int, s: Map<u32, STerm>|
            #[trigger] condensation_step(clause_view(parent@), clause_view(goal@), removed, matched, s),
        2 * clause_max_var(clause_view(parent@)) < u32::MAX
            && (exists|removed: int, matched: int| #[trigger] repeated_literal_condensation(clause_view(parent@), clause_view(goal@), removed, matched))
            ==> !(r is NotFound),
        (exists|removed: int, matched: int, w: Map<u32, STerm>|
            #[trigger] ground_instance_condensation(clause_view(parent@), clause_view(goal@), removed, matched, w))
            ==> !(r is NotFound),
        (exists|removed: int, matched: int| #[trigger] unifiable_condensation(clause_view(parent@), clause_view(goal@), removed, matched))
            ==> !(r is NotFound),
{
    let ghost pv = clause_view(parent@);
    let ghost gv = clause_view(goal@);
    let goal_condensed = condense_clause(goal);
    let mut removed: usize = 0;
    while removed < parent.len()
        invariant
            0 <= removed <= parent.len(),
            pv == clause_view(parent@),
            gv == clause_view(goal@),
            clause_view(goal_condensed@) == condensed(gv),
            2 * clause_max_var(pv) < u32::MAX ==> forall|r0: int, m0: int| 0 <= r0 < removed
                ==> !#[trigger] repeated_literal_condensation(pv, gv, r0, m0),
            forall|r0: int, m0: int, w: Map<u32, STerm>| 0 <= r0 < removed
                ==> !#[trigger] ground_instance_condensation(pv, gv, r0, m0, w),
            forall|r0: int, m0: int| 0 <= r0 < removed ==> !#[trigger] unifiable_condensation(pv, gv, r0, m0),
        decreases parent.len() - removed,
    {
        let mut matched: usize = 0;
        while matched < parent.len()
            invariant
                0 <= removed < parent.len(),
                0 <= matched <= parent.len(),
                pv == clause_view(parent@),
                gv == clause_view(goal@),
                clause_view(goal_condensed@) == condensed(gv),
                2 * clause_max_var(pv) < u32::MAX ==> forall|r0: int, m0: int| 0 <= r0 < removed
                    ==> !#[trigger] repeated_literal_condensation(pv, gv, r0, m0),
                2 * clause_max_var(pv) < u32::MAX ==> forall|m0: int| 0 <= m0 < matched
                    ==> !#[trigger] repeated_literal_condensation(pv, gv, removed as int, m0),
                forall|r0: int, m0: int, w: Map<u32, STerm>| 0 <= r0 < removed
                    ==> !#[trigger] ground_instance_condensation(pv, gv, r0, m0, w),
                forall|m0: int, w: Map<u32, STerm>| 0 <= m0 < matched
                    ==> !#[trigger] ground_instance_condensation(pv, gv, removed as int, m0, w),
                forall|r0: int, m0: int| 0 <= r0 < removed ==> !#[trigger] unifiable_condensation(pv, gv, r0, m0),
                forall|m0: int| 0 <= m0 < matched ==> !#[trigger] unifiable_condensation(pv, gv, removed as int, m0),
            decreases parent.len() - matched,
        {
            let ghost repeated = 2 * clause_max_var(pv) < u32::MAX && repeated_literal_condensation(pv, gv, removed as int, matched as int);
            let ghost gw = exists|w: Map<u32, STerm>| #[trigger] ground_instance_condensation(pv, gv, removed as int, matched as int, w);
            let ghost wg = choose|w: Map<u32, STerm>| #[trigger] ground_instance_condensation(pv, gv, removed as int, matched as int, w);
            proof {
                assert(pv[removed as int] == parent@[removed as int]@);
                assert(pv[matched as int] == parent@[matched as int]@);
                if gw {
                    lemma_ground_instance_unifier(pv[removed as int].atom, pv[matched as int].atom, wg, wg);
                    lemma_condense_laws(subst_clause(without(pv, removed as int), wg));
                }
                if repeated {
                    assert(pv[removed as int] == parent@[removed as int]@);
                    assert(pv[matched as int] == parent@[matched as int]@);
                    lemma_without_subsumes(pv, removed as int);
                    lemma_subst_clause_empty(without(pv, removed as int));
                }
            }
            if removed != matched && parent[removed].positive == parent[matched].positive {
                let unifiers = unifiers_for_condensation(&parent[removed].atom, &parent[matched].atom);
                let ghost uw = unifiable_condensation(pv, gv, removed as int, matched as int);
                proof {
                    if gw {
                        lemma_ground_instance_unifier(pv[removed as int].atom, pv[matched as int].atom, wg, unifiers@[0]@);
                    }
                    if uw {
                        assert(atoms_most_general_unifier(pv[removed as int].atom, pv[matched as int].atom, unifiers@[0]@));
                        lemma_condense_laws(subst_clause(without(pv, removed as int), unifiers@[0]@));
                    }
                }
                let mut k: usize = 0;
                while k < unifiers.len()
                    invariant
                        0 <= removed < parent.len(),
                        0 <= matched < parent.len(),
                        removed != matched,
                        parent@[removed as int].positive == parent@[matched as int].positive,
                        0 <= k <= unifiers@.len(),
                        forall|q: int| 0 <= q < unifiers@.len() ==> atoms_unified(parent@[removed as int]@.atom, parent@[matched as int]@.atom, #[trigger] unifiers@[q]@),
                        pv == clause_view(parent@),
                        gv == clause_view(goal@),
                        clause_view(goal_condensed@) == condensed(gv),
                        repeated ==> k == 0 && unifiers@.len() > 0 && unifiers@[0]@ == Map::<u32, STerm>::empty(),
                        repeated ==> subsumes_directly(condensed(without(pv, removed as int)), pv, false),
                        repeated ==> condensed(without(pv, removed as int)).len() <= pv.len(),
                        repeated ==> subst_clause(without(pv, removed as int), Map::<u32, STerm>::empty()) == without(pv, removed as int),
                        repeated ==> repeated_literal_condensation(pv, gv, removed as int, matched as int),
                        gw ==> k == 0 && unifiers@.len() > 0 && unifiers@[0]@ == wg,
                        gw ==> ground_instance_condensation(pv, gv, removed as int, matched as int, wg),
                        gw ==> condensed(subst_clause(without(pv, removed as int), wg)).len() <= pv.len(),
                        uw ==> k == 0 && unifiers@.len() > 0,
                        uw ==> ({
                            let expected = subst_clause(without(pv, removed as int), unifiers@[0]@);
                            &&& subsumes_directly(condensed(expected), pv, false)
                            &&& clause_alpha(expected, gv) || clause_alpha(condensed(expected), condensed(gv))
                            &&& condensed(expected).len() <= pv.len()
                        }),
                    decreases unifiers.len() - k,
                {
                    let s = &unifiers[k];
                    let mut expected: Vec<Literal> = Vec::new();
                    push_instance_except(&mut expected, parent, removed, s);
                    proof {
                        assert(pv[removed as int] == parent@[removed as int]@);
                        assert(pv[matched as int] == parent@[matched as int]@);
                        assert(clause_view(expected@) =~= subst_clause(without(pv, removed as int), s@)) by {
                            assert(clause_view(Seq::<Literal>::empty()) =~= Seq::<SLiteral>::empty());
                        }
                        assert(atoms_unified(parent@[removed as int]@.atom, parent@[matched as int]@.atom, unifiers@[k as int]@));
                    }
                    let condensed_expected = condense_clause(&expected);
                    let mut matching_steps: usize = 0;
                    match match_subsumes(&condensed_expected, parent, &mut matching_steps, limits.max_subsumption_steps, false) {
                        Err(()) => {
                            return Search::Exhausted;
                        },
                        Ok(subsumes_parent) => {
                            if subsumes_parent && (clause_alpha_equiv(&expected, goal)
                                || clause_alpha_equiv(&condensed_expected, &goal_condensed)) {
                                assert(condensation_step(pv, gv, removed as int, matched as int, s@));
                                return Search::Found;
                            }
                        },
                    }
                    k = k + 1;
                }
                assert(!repeated);
                assert(!gw);
                assert(!uw);
            }
            matched = matched + 1;
        }
        removed = removed + 1;
    }
    Search::NotFound
}

/// The verdicts `verify_condensation` may give.
pub open spec fn condensation_outcome(parents: Seq<Formula>, conclusion: Formula, limits: VerificationLimits, v: VerdictView) -> bool {
    &&& parents.len() != 1 ==> v == VerdictView::Rejected("condensation must have one parent"@)
    &&& parents.len() == 1 ==> {
        let pc = clause_of(parents[0], limits.max_clause_literals);
        let gc = clause_of(conclusion, limits.max_clause_literals);
        if pc is None {
            v == VerdictView::Inconclusive("condensation parent is not a supported clause"@)
        } else if gc is None {
            v == VerdictView::Inconclusive("condensation conclusion is not a supported clause"@)
        } else if pc->Some_0.len() < 2 || gc->Some_0.len() >= pc->Some_0.len() {
            v == VerdictView::Rejected("condensation must remove at least one literal"@)
        } else {
            &&& v == VerdictView::Certified
                || v == VerdictView::Inconclusive("condensation exceeded strict matching-step limit"@)
                || v == VerdictView::Rejected("condensation conclusion is not a valid condensed clause"@)
            &&& v == VerdictView::Certified ==> exists|removed: int, matched: int, s: Map<u32, STerm>|
                #[trigger] condensation_step(pc->Some_0, gc->Some_0, removed, matched, s)
            &&& 2 * clause_max_var(pc->Some_0) < u32::MAX
                && (exists|removed: int, matched: int| #[trigger] repeated_literal_condensation(pc->Some_0, gc->Some_0, removed, matched))
                ==> v != VerdictView::Rejected("condensation conclusion is not a valid condensed clause"@)
            &&& (exists|removed: int, matched: int, w: Map<u32, STerm>|
                #[trigger] ground_instance_condensation(pc->Some_0, gc->Some_0, removed, matched, w))
                ==> v != VerdictView::Rejected("condensation conclusion is not a valid condensed clause"@)
            &&& (exists|removed: int, matched: int| #[trigger] unifiable_condensation(pc->Some_0, gc->Some_0, removed, matched))
                ==> v != VerdictView::Rejected("condensation conclusion is not a valid condensed clause"@)
        }
    }
}

/// Condensation: the conclusion is the parent with a literal merged into
/// another by a unifier, when that instance still subsumes the parent.
pub fn verify_condensation(parents: &[Formula], conclusion: &Formula, limits: VerificationLimits) -> (r: KernelVerdict)
    ensures
        condensation_outcome(parents@, *conclusion, limits, r@),
{
    if parents.len() != 1 {
        return rejected("condensation must have one parent");
    }
    let parent = match clause_from_formula(&parents[0], limits) {
        Some(c) => c,
        None => return inconclusive("condensation parent is not a supported clause"),
    };
    let goal = match clause_from_formula(conclusion, limits) {
        Some(c) => c,
        None => return inconclusive("condensation conclusion is not a supported clause"),
    };
    if parent.len() < 2 || goal.len() >= parent.len() {
        return rejected("condensation must remove at least one literal");
    }
    match find_condensation(&parent, &goal, limits) {
        Search::Found => KernelVerdict::Certified,
        Search::Exhausted => inconclusive("condensation exceeded strict matching-step limit"),
        Search::NotFound => rejected("condensation conclusion is not a valid condensed clause"),
    }
}

} // verus!
