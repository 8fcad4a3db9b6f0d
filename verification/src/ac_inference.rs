//! Superposition and resolution modulo associativity and commutativity:
//! the unifier only has to make the rewritten subterm, or the resolved
//! atoms, equal modulo the AC theory that the cited axioms state.
use vstd::prelude::*;
use vstd::string::*;
use crate::term::{Term, Atom, Literal, Formula, STerm, SAtom, SLiteral, clause_view};
use crate::verdict::{KernelVerdict, VerdictView, VerificationLimits, rejected, inconclusive};
use crate::clause::{clause_of, clause_from_formula, condensed, condense_clause, copy_clause};
use crate::alpha::{clause_alpha, clause_alpha_equiv};
use crate::subst::{Subst, subst_term};
use crate::instance::{subst_clause, without, push_instance_except, shift_var, shift_sclause, shift_clause, clause_max_var, max_var_clause};
use crate::rewrite::{subterm_at, atom_side, term_at_position};
use crate::superposition::{
    oriented_equation, superposed, build_superposed, atom_position, atom_term_positions, atom_argument,
    superposition_outcome, verify_superposition,
};
use crate::ac_match::{ac_alpha, ac_clause_alpha, ac_clause_alpha_equiv, identity_renaming};
use crate::ac_unify::{ac_unify_term_pair, ac_unify_arg_lists};
use crate::ac_rules::{ac_theory, collect_ac_theory};

verus! {

/// `d` renamed apart from `c`: its variables shifted past those of `c`.
pub open spec fn renamed_apart(c: Seq<SLiteral>, d: Seq<SLiteral>) -> Seq<SLiteral> {
    shift_sclause(d, shift_var(clause_max_var(c), 1))
}

/// `s` makes `from` equal modulo AC to the subterm at `path` of argument
/// `side` of literal `c[j]`.
pub open spec fn ac_unifies_at(
    c: Seq<SLiteral>,
    j: int,
    side: int,
    path: Seq<usize>,
    from: STerm,
    s: Map<u32, STerm>,
    comm: Set<u32>,
    assoc: Set<u32>,
) -> bool {
    &&& 0 <= j < c.len()
    &&& atom_side(c[j].atom, side) matches Some(base)
    &&& subterm_at(base, path) matches Some(sub)
    &&& ac_alpha(subst_term(from, s), subst_term(sub, s), identity_renaming(), comm, assoc)
}

/// `expected` is a superposition of equation `eq[i]`, read `from -> to`,
/// into `target` under a unifier modulo AC.
pub open spec fn ac_superposition_instance(
    eq: Seq<SLiteral>,
    target: Seq<SLiteral>,
    i: int,
    from: STerm,
    to: STerm,
    j: int,
    side: int,
    path: Seq<usize>,
    s: Map<u32, STerm>,
    expected: Seq<SLiteral>,
    comm: Set<u32>,
    assoc: Set<u32>,
) -> bool {
    &&& oriented_equation(eq, i, from, to)
    &&& ac_unifies_at(target, j, side, path, from, s, comm, assoc)
    &&& expected == superposed(eq, target, i, to, j, side, path, s)
}

/// Some superposition modulo AC of an equation of `eq` into `target` gives
/// a clause equal to `goal` up to renaming, or modulo AC and renaming.
pub open spec fn ac_superposition_accepts(
    eq: Seq<SLiteral>,
    target: Seq<SLiteral>,
    goal: Seq<SLiteral>,
    comm: Set<u32>,
    assoc: Set<u32>,
) -> bool {
    exists|i: int, from: STerm, to: STerm, j: int, side: int, path: Seq<usize>, s: Map<u32, STerm>, expected: Seq<SLiteral>|
        #[trigger] ac_superposition_instance(eq, target, i, from, to, j, side, path, s, expected, comm, assoc)
            && (clause_alpha(expected, goal) || ac_clause_alpha(expected, goal, comm, assoc))
}

/// Tries one superposition modulo AC: equation `eq[i]` read `from -> to`
/// into the subterm at `path` of argument `side` of `target[j]`.
fn ac_superposition_candidate(
    eq: &Vec<Literal>,
    i: usize,
    from: &Term,
    to: &Term,
    target: &Vec<Literal>,
    j: usize,
    side: usize,
    path: &Vec<usize>,
    goal: &Vec<Literal>,
    comm: &Vec<u32>,
    assoc: &Vec<u32>,
    limits: VerificationLimits,
) -> (r: bool)
    requires
        oriented_equation(clause_view(eq@), i as int, from@, to@),
        j < target@.len(),
    ensures
        r ==> ac_superposition_accepts(clause_view(eq@), clause_view(target@), clause_view(goal@), comm@.to_set(), assoc@.to_set()),
{
    let ghost ev = clause_view(eq@);
    let ghost tv = clause_view(target@);
    let ghost gv = clause_view(goal@);
    let ghost cs = comm@.to_set();
    let ghost as_ = assoc@.to_set();
    assert(tv[j as int] == target@[j as int]@);
    let base = match atom_argument(&target[j].atom, side) {
        Some(b) => b,
        None => return false,
    };
    let subterm = match term_at_position(base, path.as_slice()) {
        Some(t) => t,
        None => return false,
    };
    let s = match ac_unify_term_pair(from, subterm, comm, assoc) {
        Some(s) => s,
        None => return false,
    };
    let expected = build_superposed(eq, i, to, target, j, side, path, &s);
    proof {
        assert(atom_side(tv[j as int].atom, side as int) == Some(base@));
        assert(ac_unifies_at(tv, j as int, side as int, path@, from@, s@, cs, as_));
        assert(ac_superposition_instance(ev, tv, i as int, from@, to@, j as int, side as int, path@, s@, clause_view(expected@), cs, as_));
    }
    clause_alpha_equiv(&expected, goal) || ac_clause_alpha_equiv(&expected, goal, comm, assoc, limits)
}

/// Replays a superposition modulo AC of an equation of `equation_clause`
/// into `target_clause`, renamed apart, looking for a result equal to
/// `goal` up to renaming or modulo AC.
pub fn ac_superposition_replay(
    equation_clause: &Vec<Literal>,
    target_clause: &Vec<Literal>,
    goal: &Vec<Literal>,
    comm: &Vec<u32>,
    assoc: &Vec<u32>,
    limits: VerificationLimits,
) -> (r: bool)
    ensures
        r ==> ac_superposition_accepts(clause_view(equation_clause@),
            renamed_apart(clause_view(equation_clause@), clause_view(target_clause@)),
            clause_view(goal@), comm@.to_set(), assoc@.to_set()),
{
    let target_shift = max_var_clause(equation_clause).saturating_add(1);
    let mut shifted_target = copy_clause(target_clause);
    shift_clause(&mut shifted_target, target_shift);
    let ghost ev = clause_view(equation_clause@);
    let mut i: usize = 0;
    while i < equation_clause.len()
        invariant
            0 <= i <= equation_clause@.len(),
            ev == clause_view(equation_clause@),
            clause_view(shifted_target@) == renamed_apart(ev, clause_view(target_clause@)),
        decreases equation_clause.len() - i,
    {
        assert(ev[i as int] == equation_clause@[i as int]@);
        if equation_clause[i].positive {
            match &equation_clause[i].atom {
                Atom::Eq(left, right) => {
                    let mut dir: usize = 0;
                    while dir < 2
                        invariant
                            0 <= dir <= 2,
                            i < equation_clause@.len(),
                            ev == clause_view(equation_clause@),
                            clause_view(shifted_target@) == renamed_apart(ev, clause_view(target_clause@)),
                            ev[i as int].positive,
                            ev[i as int].atom == SAtom::Eq(left@, right@),
                        decreases 2 - dir,
                    {
                        let (from, to) = if dir == 0 { (left, right) } else { (right, left) };
                        let from_is_var = match from {
                            Term::Var(_) => true,
                            _ => false,
                        };
                        if !from_is_var {
                            let mut j: usize = 0;
                            while j < shifted_target.len()
                                invariant
                                    0 <= j <= shifted_target@.len(),
                                    i < equation_clause@.len(),
                                    ev == clause_view(equation_clause@),
                                    clause_view(shifted_target@) == renamed_apart(ev, clause_view(target_clause@)),
                                    oriented_equation(ev, i as int, from@, to@),
                                decreases shifted_target.len() - j,
                            {
                                let positions = atom_term_positions(&shifted_target[j].atom);
                                let mut pi: usize = 0;
                                while pi < positions.len()
                                    invariant
                                        0 <= pi <= positions@.len(),
                                        j < shifted_target@.len(),
                                        i < equation_clause@.len(),
                                        ev == clause_view(equation_clause@),
                                        clause_view(shifted_target@) == renamed_apart(ev, clause_view(target_clause@)),
                                        oriented_equation(ev, i as int, from@, to@),
                                    decreases positions.len() - pi,
                                {
                                    if ac_superposition_candidate(equation_clause, i, from, to, &shifted_target, j,
                                        positions[pi].0, &positions[pi].1, goal, comm, assoc, limits) {
                                        return true;
                                    }
                                    pi = pi + 1;
                                }
                                j = j + 1;
                            }
                        }
                        dir = dir + 1;
                    }
                },
                _ => {},
            }
        }
        i = i + 1;
    }
    false
}

/// The resolvent of `left[i]` and `right[j]` under `s`: the other literals
/// of both clauses, instantiated.
pub open spec fn ac_resolvent(left: Seq<SLiteral>, right: Seq<SLiteral>, i: int, j: int, s: Map<u32, STerm>) -> Seq<SLiteral> {
    subst_clause(without(left, i), s) + subst_clause(without(right, j), s)
}

/// `left[i]` and `right[j]` are complementary predicate literals whose
/// arguments `s` makes equal modulo AC.
pub open spec fn ac_resolves_at(
    left: Seq<SLiteral>,
    right: Seq<SLiteral>,
    i: int,
    j: int,
    s: Map<u32, STerm>,
    comm: Set<u32>,
    assoc: Set<u32>,
) -> bool {
    &&& 0 <= i < left.len()
    &&& 0 <= j < right.len()
    &&& left[i].positive != right[j].positive
    &&& left[i].atom is Pred
    &&& right[j].atom is Pred
    &&& left[i].atom->Pred_0 == right[j].atom->Pred_0
    &&& left[i].atom->Pred_1.len() == right[j].atom->Pred_1.len()
    &&& forall|k: int| 0 <= k < left[i].atom->Pred_1.len() ==> ac_alpha(
        subst_term(#[trigger] left[i].atom->Pred_1[k], s), subst_term(right[j].atom->Pred_1[k], s),
        identity_renaming(), comm, assoc)
}

/// Some resolution modulo AC of `left` with `right` gives a resolvent that
/// equals `goal` modulo AC and renaming, as it is or with repeated literals
/// dropped.
pub open spec fn ac_resolution_accepts(
    left: Seq<SLiteral>,
    right: Seq<SLiteral>,
    goal: Seq<SLiteral>,
    comm: Set<u32>,
    assoc: Set<u32>,
) -> bool {
    exists|i: int, j: int, s: Map<u32, STerm>| #[trigger] ac_resolves_at(left, right, i, j, s, comm, assoc)
        && (ac_clause_alpha(ac_resolvent(left, right, i, j, s), goal, comm, assoc)
            || ac_clause_alpha(condensed(ac_resolvent(left, right, i, j, s)), goal, comm, assoc))
}

/// Replays a resolution modulo AC of `left` with `right`, renamed apart,
/// looking for a resolvent equal to `goal` modulo AC.
pub fn ac_resolution_replay(
    left: &Vec<Literal>,
    right: &Vec<Literal>,
    goal: &Vec<Literal>,
    comm: &Vec<u32>,
    assoc: &Vec<u32>,
    limits: VerificationLimits,
) -> (r: bool)
    ensures
        r ==> ac_resolution_accepts(clause_view(left@), renamed_apart(clause_view(left@), clause_view(right@)),
            clause_view(goal@), comm@.to_set(), assoc@.to_set()),
{
    let shift = max_var_clause(left).saturating_add(1);
    let mut shifted_right = copy_clause(right);
    shift_clause(&mut shifted_right, shift);
    let ghost lv = clause_view(left@);
    let ghost rv = clause_view(shifted_right@);
    let ghost cs = comm@.to_set();
    let ghost as_ = assoc@.to_set();
    let mut li: usize = 0;
    while li < left.len()
        invariant
            0 <= li <= left@.len(),
            lv == clause_view(left@),
            rv == clause_view(shifted_right@),
            rv == renamed_apart(lv, clause_view(right@)),
            cs == comm@.to_set(),
            as_ == assoc@.to_set(),
        decreases left.len() - li,
    {
        let mut rj: usize = 0;
        while rj < shifted_right.len()
            invariant
                0 <= li < left@.len(),
                0 <= rj <= shifted_right@.len(),
                lv == clause_view(left@),
                rv == clause_view(shifted_right@),
                rv == renamed_apart(lv, clause_view(right@)),
                cs == comm@.to_set(),
                as_ == assoc@.to_set(),
            decreases shifted_right.len() - rj,
        {
            assert(lv[li as int] == left@[li as int]@);
            assert(rv[rj as int] == shifted_right@[rj as int]@);
            if left[li].positive != shifted_right[rj].positive {
                match (&left[li].atom, &shifted_right[rj].atom) {
                    (Atom::Pred(p, la), Atom::Pred(q, ra)) => {
                        if *p == *q && la.len() == ra.len() {
                            match ac_unify_arg_lists(la, ra, comm, assoc) {
                                Some(s) => {
                                    let mut resolvent: Vec<Literal> = Vec::new();
                                    push_instance_except(&mut resolvent, left, li, &s);
                                    push_instance_except(&mut resolvent, &shifted_right, rj, &s);
                                    proof {
                                        crate::term::lemma_terms_view(la@);
                                        crate::term::lemma_terms_view(ra@);
                                        assert(clause_view(Seq::<Literal>::empty()) =~= Seq::<SLiteral>::empty());
                                        assert(clause_view(resolvent@) =~= ac_resolvent(lv, rv, li as int, rj as int, s@));
                                        assert forall|k: int| 0 <= k < lv[li as int].atom->Pred_1.len() implies ac_alpha(
                                            subst_term(#[trigger] lv[li as int].atom->Pred_1[k], s@),
                                            subst_term(rv[rj as int].atom->Pred_1[k], s@), identity_renaming(), cs, as_) by {
                                            assert(lv[li as int].atom->Pred_1[k] == la@[k]@);
                                            assert(rv[rj as int].atom->Pred_1[k] == ra@[k]@);
                                        }
                                        assert(ac_resolves_at(lv, rv, li as int, rj as int, s@, cs, as_));
                                    }
                                    if ac_clause_alpha_equiv(&resolvent, goal, comm, assoc, limits) {
                                        return true;
                                    }
                                    let deduplicated = condense_clause(&resolvent);
                                    if ac_clause_alpha_equiv(&deduplicated, goal, comm, assoc, limits) {
                                        return true;
                                    }
                                },
                                None => {},
                            }
                        }
                    },
                    _ => {},
                }
            }
            rj = rj + 1;
        }
        li = li + 1;
    }
    false
}

/// Some superposition modulo the problem's own AC axioms, of either parent
/// into the other, gives the conclusion; there must be such axioms.
pub open spec fn background_accepts(
    first: Formula,
    second: Formula,
    goal: Seq<SLiteral>,
    limits: VerificationLimits,
    bc: Set<u32>,
    ba: Set<u32>,
) -> bool {
    let n = limits.max_clause_literals;
    &&& !(bc.is_empty() && ba.is_empty())
    &&& clause_of(first, n) is Some
    &&& clause_of(second, n) is Some
    &&& {
        let c1 = clause_of(first, n)->Some_0;
        let c2 = clause_of(second, n)->Some_0;
        ac_superposition_accepts(c1, renamed_apart(c1, c2), goal, bc, ba)
            || ac_superposition_accepts(c2, renamed_apart(c2, c1), goal, bc, ba)
    }
}

/// Retries a superposition step that found no plain rewrite as a
/// superposition modulo the problem's own AC axioms, in both orders.
pub fn background_ac_fallback(
    first: &Formula,
    second: &Formula,
    goal: &Vec<Literal>,
    limits: VerificationLimits,
    background_commutative: &Vec<u32>,
    background_associative: &Vec<u32>,
) -> (r: bool)
    ensures
        r ==> background_accepts(*first, *second, clause_view(goal@), limits,
            background_commutative@.to_set(), background_associative@.to_set()),
{
    if background_commutative.len() == 0 && background_associative.len() == 0 {
        return false;
    }
    proof {
        if background_commutative@.len() != 0 {
            assert(background_commutative@.to_set().contains(background_commutative@[0]));
        } else {
            assert(background_associative@.to_set().contains(background_associative@[0]));
        }
    }
    let c1 = match clause_from_formula(first, limits) {
        Some(c) => c,
        None => return false,
    };
    let c2 = match clause_from_formula(second, limits) {
        Some(c) => c,
        None => return false,
    };
    ac_superposition_replay(&c1, &c2, goal, background_commutative, background_associative, limits)
        || ac_superposition_replay(&c2, &c1, goal, background_commutative, background_associative, limits)
}

/// The verdict an `ac_superposition` step falls back on when the replay
/// finds nothing: the plain superposition verdict, a rejection turned into
/// an inconclusive verdict that quotes its reason.
pub open spec fn replay_incomplete(inference: VerdictView) -> VerdictView {
    match inference {
        VerdictView::Rejected(reason) => VerdictView::Inconclusive("ac_superposition replay is incomplete: "@ + reason),
        other => other,
    }
}

/// The verdicts an `ac_superposition` step may give: its first two parents
/// are the equation and the target clause, the others AC axioms.
pub open spec fn ac_superposition_outcome(
    parents: Seq<Formula>,
    conclusion: Formula,
    limits: VerificationLimits,
    bc: Set<u32>,
    ba: Set<u32>,
    v: VerdictView,
) -> bool {
    let n = limits.max_clause_literals;
    if parents.len() < 3 {
        v == VerdictView::Rejected("ac_superposition requires two inference parents and AC axioms"@)
    } else if clause_of(parents[0], n) is None {
        v == VerdictView::Inconclusive("AC source is not a clause"@)
    } else if clause_of(parents[1], n) is None {
        v == VerdictView::Inconclusive("AC target is not a clause"@)
    } else if clause_of(conclusion, n) is None {
        v == VerdictView::Inconclusive("AC conclusion is not a clause"@)
    } else {
        let source = clause_of(parents[0], n)->Some_0;
        let target = clause_of(parents[1], n)->Some_0;
        let goal = clause_of(conclusion, n)->Some_0;
        match ac_theory(parents, limits, 2, 2, false) {
            Err(e) => v == e,
            Ok((cs, as_)) => (v == VerdictView::Certified
                && ac_superposition_accepts(source, renamed_apart(source, target), goal, cs, as_))
                || exists|w: VerdictView| #[trigger] superposition_outcome(parents.take(2), conclusion, limits, bc, ba, w)
                    && v == replay_incomplete(w),
        }
    }
}

/// AC superposition: the conclusion is a superposition of the first parent
/// into the second modulo the AC axioms cited after them.
pub fn verify_ac_superposition(
    parents: &[Formula],
    conclusion: &Formula,
    limits: VerificationLimits,
    background_commutative: &Vec<u32>,
    background_associative: &Vec<u32>,
) -> (v: KernelVerdict)
    ensures
        ac_superposition_outcome(parents@, *conclusion, limits, background_commutative@.to_set(),
            background_associative@.to_set(), v@),
{
    if parents.len() < 3 {
        return rejected("ac_superposition requires two inference parents and AC axioms");
    }
    let inference = verify_superposition(vstd::slice::slice_subrange(parents, 0, 2), conclusion, limits, background_commutative, background_associative);
    let source = match clause_from_formula(&parents[0], limits) {
        Some(c) => c,
        None => return inconclusive("AC source is not a clause"),
    };
    let target = match clause_from_formula(&parents[1], limits) {
        Some(c) => c,
        None => return inconclusive("AC target is not a clause"),
    };
    let goal = match clause_from_formula(conclusion, limits) {
        Some(c) => c,
        None => return inconclusive("AC conclusion is not a clause"),
    };
    let (comm, assoc) = match collect_ac_theory(parents, 2, limits, false) {
        Ok(x) => x,
        Err(e) => return e,
    };
    if ac_superposition_replay(&source, &target, &goal, &comm, &assoc, limits) {
        return KernelVerdict::Certified;
    }
    let ghost w = inference@;
    proof {
        assert(parents@.subrange(0, 2) == parents@.take(2));
    }
    match inference {
        KernelVerdict::Rejected(reason) => {
            let mut text = String::from_str("ac_superposition replay is incomplete: ");
            text.append(reason.as_str());
            proof {
                reveal_strlit("ac_superposition replay is incomplete: ");
            }
            KernelVerdict::Inconclusive(text)
        },
        other => other,
    }
}

/// The verdicts an `ac_resolution` step may give: its first two parents
/// are resolved modulo the AC axioms cited after them.
pub open spec fn ac_resolution_outcome(parents: Seq<Formula>, conclusion: Formula, limits: VerificationLimits, v: VerdictView) -> bool {
    let n = limits.max_clause_literals;
    if parents.len() < 3 {
        v == VerdictView::Rejected("ac_resolution requires two inference parents and AC axioms"@)
    } else if clause_of(parents[0], n) is None {
        v == VerdictView::Inconclusive("AC left parent is not a clause"@)
    } else if clause_of(parents[1], n) is None {
        v == VerdictView::Inconclusive("AC right parent is not a clause"@)
    } else if clause_of(conclusion, n) is None {
        v == VerdictView::Inconclusive("AC conclusion is not a clause"@)
    } else {
        let left = clause_of(parents[0], n)->Some_0;
        let right = clause_of(parents[1], n)->Some_0;
        let goal = clause_of(conclusion, n)->Some_0;
        match ac_theory(parents, limits, 2, 2, false) {
            Err(e) => v == e,
            Ok((cs, as_)) => (v == VerdictView::Certified && ac_resolution_accepts(left, renamed_apart(left, right), goal, cs, as_))
                || v == VerdictView::Inconclusive("ac_resolution replay could not establish equivalence within limits"@),
        }
    }
}

/// AC resolution: the conclusion is a resolvent of the first two parents
/// modulo the AC axioms cited after them.
pub fn verify_ac_resolution(parents: &[Formula], conclusion: &Formula, limits: VerificationLimits) -> (v: KernelVerdict)
    ensures
        ac_resolution_outcome(parents@, *conclusion, limits, v@),
{
    if parents.len() < 3 {
        return rejected("ac_resolution requires two inference parents and AC axioms");
    }
    let left = match clause_from_formula(&parents[0], limits) {
        Some(c) => c,
        None => return inconclusive("AC left parent is not a clause"),
    };
    let right = match clause_from_formula(&parents[1], limits) {
        Some(c) => c,
        None => return inconclusive("AC right parent is not a clause"),
    };
    let goal = match clause_from_formula(conclusion, limits) {
        Some(c) => c,
        None => return inconclusive("AC conclusion is not a clause"),
    };
    let (comm, assoc) = match collect_ac_theory(parents, 2, limits, false) {
        Ok(x) => x,
        Err(e) => return e,
    };
    if ac_resolution_replay(&left, &right, &goal, &comm, &assoc, limits) {
        KernelVerdict::Certified
    } else {
        inconclusive("ac_resolution replay could not establish equivalence within limits")
    }
}

} // verus!
