//! Factoring checks: merging unifiable literals of one clause, and
//! equality factoring.
use vstd::prelude::*;
use crate::term::{Term, Atom, Literal, Formula, STerm, SAtom, SLiteral, clause_view};
use crate::subst::{Subst, subst_term, apply_substitution_term};
use crate::verdict::{KernelVerdict, VerdictView, VerificationLimits, rejected, inconclusive};
use crate::clause::{clause_of, clause_from_formula, condensed, condense_clause};
use crate::alpha::{clause_alpha, clause_alpha_equiv};
use crate::instance::{
    subst_clause, subst_literal, without, push_instance_except, clause_without, atoms_unified, unify_pred_atoms,
    unify_term_pair, apply_substitution_literal,
};

verus! {

/// `d` is the factor of `c` merging predicate literal `second` into the
/// earlier literal `first` of the same sign through the unifier `s`.
pub open spec fn factor_at(c: Seq<SLiteral>, first: int, second: int, s: Map<u32, STerm>, d: Seq<SLiteral>) -> bool {
    &&& 0 <= first < second < c.len()
    &&& c[first].positive == c[second].positive
    &&& c[first].atom is Pred
    &&& c[second].atom is Pred
    &&& atoms_unified(c[first].atom, c[second].atom, s)
    &&& d == subst_clause(without(c, second), s)
}

/// `d` is a one-step factor of `c`.
pub open spec fn factor_step(c: Seq<SLiteral>, d: Seq<SLiteral>) -> bool {
    exists|first: int, second: int, s: Map<u32, STerm>| #[trigger] factor_at(c, first, second, s, d)
}

/// `chain` leads from its first clause to its last by factor steps.
pub open spec fn factor_chain(chain: Seq<Seq<SLiteral>>) -> bool {
    forall|i: int| 0 <= i < chain.len() - 1 ==> #[trigger] factor_step(chain[i], chain[i + 1])
}

/// `d` arises from `c` by one or more factor steps.
pub open spec fn reachable_factor(c: Seq<SLiteral>, d: Seq<SLiteral>) -> bool {
    exists|chain: Seq<Seq<SLiteral>>| chain.len() >= 2 && chain[0] == c && chain.last() == d && #[trigger] factor_chain(chain)
}

/// Factoring certifies a conclusion that is, up to renaming (possibly
/// after removing repeated literals on both sides), a clause reached from
/// the parent by one or more factor steps.
pub open spec fn factoring_accepts(parent: Seq<SLiteral>, goal: Seq<SLiteral>) -> bool {
    exists|state: Seq<SLiteral>| #[trigger] reachable_factor(parent, state)
        && (clause_alpha(state, goal) || clause_alpha(condensed(state), condensed(goal)))
}

proof fn lemma_factor_extends(c: Seq<SLiteral>, m: Seq<SLiteral>, d: Seq<SLiteral>)
    requires
        c == m || reachable_factor(c, m),
        factor_step(m, d),
    ensures
        reachable_factor(c, d),
{
    if c == m {
        let chain = seq![c, d];
        assert(factor_step(chain[0], chain[1]));
        assert(factor_chain(chain));
    } else {
        let chain = choose|chain: Seq<Seq<SLiteral>>| chain.len() >= 2 && chain[0] == c && chain.last() == m && #[trigger] factor_chain(chain);
        let longer = chain.push(d);
        assert forall|i: int| 0 <= i < longer.len() - 1 implies #[trigger] factor_step(longer[i], longer[i + 1]) by {
            if i < chain.len() - 1 {
                assert(factor_step(chain[i], chain[i + 1]));
            } else {
                assert(longer[i] == m);
            }
        }
        assert(factor_chain(longer));
    }
}

/// Literals `first` and `second` of `c` have the same sign and the same
/// predicate atom, so dropping `second` is a factor that needs no
/// substitution; it is `goal` up to renaming, and no shorter than `goal`
/// once repeated literals are removed.
pub open spec fn plain_factor(c: Seq<SLiteral>, goal: Seq<SLiteral>, first: int, second: int) -> bool {
    &&& 0 <= first < second < c.len()
    &&& c[first].positive == c[second].positive
    &&& c[first].atom is Pred
    &&& c[first].atom == c[second].atom
    &&& clause_alpha(without(c, second), goal)
    &&& condensed(without(c, second)).len() >= condensed(goal).len()
}

/// Some entry of the stack is `goal` up to renaming.
pub open spec fn stack_has_goal(stack: Seq<Vec<Literal>>, goal: Seq<SLiteral>) -> bool {
    exists|k: int| 0 <= k < stack.len() && clause_alpha(clause_view(#[trigger] stack[k]@), goal)
}

/// Pushes every one-step factor of `state` that is not shorter (after
/// removing repeats) than `goal_len`.
fn push_factors(
    state: &Vec<Literal>,
    goal_len: usize,
    stack: &mut Vec<Vec<Literal>>,
    Ghost(parent): Ghost<Seq<SLiteral>>,
    Ghost(goal): Ghost<Seq<SLiteral>>,
)
    requires
        clause_view(state@) == parent || reachable_factor(parent, clause_view(state@)),
        forall|k: int| 0 <= k < old(stack)@.len() ==> #[trigger] reachable_factor(parent, clause_view(old(stack)@[k]@)),
        goal_len == condensed(goal).len(),
    ensures
        forall|k: int| 0 <= k < final(stack)@.len() ==> #[trigger] reachable_factor(parent, clause_view(final(stack)@[k]@)),
        stack_has_goal(old(stack)@, goal) ==> stack_has_goal(final(stack)@, goal),
        (exists|a: int, b: int| #[trigger] plain_factor(clause_view(state@), goal, a, b)) ==> stack_has_goal(final(stack)@, goal),
{
    let ghost st0 = stack@;
    let ghost sv = clause_view(state@);
    let mut first: usize = 0;
    while first < state.len()
        invariant
            0 <= first <= state.len(),
            sv == clause_view(state@),
            sv == parent || reachable_factor(parent, sv),
            forall|k: int| 0 <= k < stack@.len() ==> #[trigger] reachable_factor(parent, clause_view(stack@[k]@)),
            goal_len == condensed(goal).len(),
            stack_has_goal(st0, goal) ==> stack_has_goal(stack@, goal),
            (exists|a: int, b: int| a < first && #[trigger] plain_factor(sv, goal, a, b)) ==> stack_has_goal(stack@, goal),
        decreases state.len() - first,
    {
        let mut second: usize = first + 1;
        while second < state.len()
            invariant
                0 <= first < state.len(),
                first + 1 <= second <= state.len(),
                sv == clause_view(state@),
                sv == parent || reachable_factor(parent, sv),
                forall|k: int| 0 <= k < stack@.len() ==> #[trigger] reachable_factor(parent, clause_view(stack@[k]@)),
                goal_len == condensed(goal).len(),
                stack_has_goal(st0, goal) ==> stack_has_goal(stack@, goal),
                (exists|a: int, b: int| a < first && #[trigger] plain_factor(sv, goal, a, b)) ==> stack_has_goal(stack@, goal),
                (exists|b: int| b < second && #[trigger] plain_factor(sv, goal, first as int, b)) ==> stack_has_goal(stack@, goal),
            decreases state.len() - second,
        {
            let ghost before_stack = stack@;
            let ghost plain_here = plain_factor(sv, goal, first as int, second as int);
            proof {
                assert(sv[first as int] == state@[first as int]@);
                assert(sv[second as int] == state@[second as int]@);
            }
            if state[first].positive == state[second].positive {
                match unify_pred_atoms(&state[first].atom, &state[second].atom) {
                    Some(s) => {
                        let mut expected: Vec<Literal> = Vec::new();
                        push_instance_except(&mut expected, state, second, &s);
                        proof {
                            assert(sv[first as int] == state@[first as int]@);
                            assert(sv[second as int] == state@[second as int]@);
                            let d = clause_view(expected@);
                            assert(d =~= subst_clause(without(sv, second as int), s@)) by {
                                assert(clause_view(Seq::<Literal>::empty()) =~= Seq::<SLiteral>::empty());
                            }
                            assert(factor_at(sv, first as int, second as int, s@, d));
                            assert(factor_step(sv, d));
                            lemma_factor_extends(parent, sv, d);
                            assert(reachable_factor(parent, d));
                        }
                        let ghost ev = clause_view(expected@);
                        proof {
                            if plain_here {
                                crate::instance::lemma_subst_clause_empty(without(sv, second as int));
                                assert(ev == without(sv, second as int));
                            }
                        }
                        if condense_clause(&expected).len() >= goal_len {
                            let ghost st = stack@;
                            stack.push(expected);
                            proof {
                                assert forall|k: int| 0 <= k < stack@.len() implies #[trigger] reachable_factor(parent, clause_view(stack@[k]@)) by {
                                    if k < st.len() {
                                        assert(stack@[k] == st[k]);
                                    }
                                }
                                if stack_has_goal(st, goal) {
                                    let k = choose|k: int| 0 <= k < st.len() && clause_alpha(clause_view(#[trigger] st[k]@), goal);
                                    assert(stack@[k] == st[k]);
                                }
                                if plain_here {
                                    assert(clause_view(stack@[st.len() as int]@) == ev);
                                }
                            }
                        }
                    },
                    None => {
                        proof {
                            if plain_here {
                                assert(state@[first as int]@.atom == state@[second as int]@.atom);
                            }
                        }
                    },
                }
            }
            proof {
                if exists|b: int| b < second + 1 && #[trigger] plain_factor(sv, goal, first as int, b) {
                    let b = choose|b: int| b < second + 1 && #[trigger] plain_factor(sv, goal, first as int, b);
                    if b < second {
                    } else {
                        assert(plain_here);
                    }
                }
            }
            second = second + 1;
        }
        proof {
            if exists|a: int, b: int| a < first + 1 && #[trigger] plain_factor(sv, goal, a, b) {
                let (a, b) = choose|a: int, b: int| a < first + 1 && #[trigger] plain_factor(sv, goal, a, b);
                if a == first {
                    assert(b < state@.len());
                }
            }
        }
        first = first + 1;
    }
    proof {
        if exists|a: int, b: int| #[trigger] plain_factor(sv, goal, a, b) {
            let (a, b) = choose|a: int, b: int| #[trigger] plain_factor(sv, goal, a, b);
            assert(a < first);
        }
    }
}

/// The verdicts `verify_factoring` may give.
pub open spec fn factoring_outcome(parents: Seq<Formula>, conclusion: Formula, limits: VerificationLimits, v: VerdictView) -> bool {
    &&& parents.len() != 1 ==> v == VerdictView::Rejected("factoring rule must have one parent"@)
    &&& parents.len() == 1 ==> {
        let pc = clause_of(parents[0], limits.max_clause_literals);
        let gc = clause_of(conclusion, limits.max_clause_literals);
        if pc is None {
            v == VerdictView::Inconclusive("factoring parent is not a supported clause"@)
        } else if gc is None {
            v == VerdictView::Inconclusive("factoring conclusion is not a supported clause"@)
        } else {
            &&& v == VerdictView::Certified
                || v == VerdictView::Inconclusive("factoring search exceeded step limit"@)
                || v == VerdictView::Rejected("factoring conclusion is not a valid factor"@)
            &&& v == VerdictView::Certified ==> factoring_accepts(pc->Some_0, gc->Some_0)
            &&& (exists|a: int, b: int| #[trigger] plain_factor(pc->Some_0, gc->Some_0, a, b))
                ==> v != VerdictView::Rejected("factoring conclusion is not a valid factor"@)
        }
    }
}

/// Factoring: the conclusion is reached from the parent by merging pairs
/// of unifiable predicate literals, one pair per step, within a step cap.
pub fn verify_factoring(parents: &[Formula], conclusion: &Formula, limits: VerificationLimits) -> (r: KernelVerdict)
    ensures
        factoring_outcome(parents@, *conclusion, limits, r@),
{
    if parents.len() != 1 {
        return rejected("factoring rule must have one parent");
    }
    let parent = match clause_from_formula(&parents[0], limits) {
        Some(c) => c,
        None => return inconclusive("factoring parent is not a supported clause"),
    };
    let goal = match clause_from_formula(conclusion, limits) {
        Some(c) => c,
        None => return inconclusive("factoring conclusion is not a supported clause"),
    };
    let ghost pv = clause_view(parent@);
    let ghost gv = clause_view(goal@);
    let goal_condensed = condense_clause(&goal);
    let step_cap: usize = if limits.max_subsumption_steps >= 5000 { limits.max_subsumption_steps } else { 5000 };
    let mut visited: usize = 0;
    let mut stack: Vec<Vec<Literal>> = Vec::new();
    push_factors(&parent, goal_condensed.len(), &mut stack, Ghost(pv), Ghost(gv));
    loop
        invariant
            visited <= step_cap,
            pv == clause_view(parent@),
            gv == clause_view(goal@),
            clause_view(goal_condensed@) == condensed(gv),
            parents@.len() == 1,
            clause_of(parents@[0], limits.max_clause_literals) == Some(pv),
            clause_of(*conclusion, limits.max_clause_literals) == Some(gv),
            forall|k: int| 0 <= k < stack@.len() ==> #[trigger] reachable_factor(pv, clause_view(stack@[k]@)),
            (exists|a: int, b: int| #[trigger] plain_factor(pv, gv, a, b)) ==> stack_has_goal(stack@, gv),
        ensures
            !(exists|a: int, b: int| #[trigger] plain_factor(pv, gv, a, b)),
        decreases step_cap - visited,
    {
        let ghost before = stack@;
        let state = match stack.pop() {
            Some(st) => st,
            None => {
                proof {
                    if exists|a: int, b: int| #[trigger] plain_factor(pv, gv, a, b) {
                        let k = choose|k: int| 0 <= k < before.len() && clause_alpha(clause_view(#[trigger] before[k]@), gv);
                        assert(before.len() == 0);
                    }
                }
                break;
            },
        };
        proof {
            let k = stack@.len() as int;
            assert(reachable_factor(pv, clause_view(state@)));
        }
        if visited >= step_cap {
            return inconclusive("factoring search exceeded step limit");
        }
        visited = visited + 1;
        let condensed_state = condense_clause(&state);
        if clause_alpha_equiv(&state, &goal) || clause_alpha_equiv(&condensed_state, &goal_condensed) {
            assert(factoring_accepts(pv, gv));
            return KernelVerdict::Certified;
        }
        proof {
            if stack_has_goal(before, gv) {
                let k = choose|k: int| 0 <= k < before.len() && clause_alpha(clause_view(#[trigger] before[k]@), gv);
                if k < before.len() - 1 {
                    assert(stack@[k] == before[k]);
                } else {
                    assert(state == before[k]);
                }
            }
        }
        if condensed_state.len() > goal_condensed.len() {
            push_factors(&state, goal_condensed.len(), &mut stack, Ghost(pv), Ghost(gv));
        }
    }
    rejected("factoring conclusion is not a valid factor")
}

/// Equality factoring of positive equations `first` (read as `l = r`) and
/// `second` (read as `ol = or`), with `s` unifying `l` and `ol`: the
/// conclusion is `s(first) | s(r) != s(or) | s(rest)` up to renaming.
pub open spec fn equality_factor_at(
    parent: Seq<SLiteral>,
    goal: Seq<SLiteral>,
    first: int,
    second: int,
    l: STerm,
    r: STerm,
    ol: STerm,
    or: STerm,
    s: Map<u32, STerm>,
) -> bool {
    &&& 0 <= first < second < parent.len()
    &&& parent[first].positive
    &&& parent[second].positive
    &&& parent[first].atom == SAtom::Eq(l, r) || parent[first].atom == SAtom::Eq(r, l)
    &&& parent[second].atom == SAtom::Eq(ol, or) || parent[second].atom == SAtom::Eq(or, ol)
    &&& subst_term(l, s) == subst_term(ol, s)
    &&& clause_alpha(
        seq![
            subst_literal(parent[first], s),
            SLiteral { positive: false, atom: SAtom::Eq(subst_term(r, s), subst_term(or, s)) },
        ] + subst_clause(without(without(parent, second), first), s),
        goal,
    )
}

/// Equality factoring that needs no substitution: the sides `l` and `ol`
/// of the two positive equations are identical, and the conclusion is
/// `first | r != or | rest` up to renaming.
pub open spec fn plain_equality_factor(
    parent: Seq<SLiteral>,
    goal: Seq<SLiteral>,
    first: int,
    second: int,
    l: STerm,
    r: STerm,
    ol: STerm,
    or: STerm,
) -> bool {
    &&& 0 <= first < second < parent.len()
    &&& parent[first].positive
    &&& parent[second].positive
    &&& parent[first].atom == SAtom::Eq(l, r) || parent[first].atom == SAtom::Eq(r, l)
    &&& parent[second].atom == SAtom::Eq(ol, or) || parent[second].atom == SAtom::Eq(or, ol)
    &&& l == ol
    &&& clause_alpha(
        seq![parent[first], SLiteral { positive: false, atom: SAtom::Eq(r, or) }]
            + without(without(parent, second), first),
        goal,
    )
}

/// Some orientation of literals `first` and `second` is a plain equality
/// factoring step.
pub open spec fn plain_equality_factor_pair(parent: Seq<SLiteral>, goal: Seq<SLiteral>, first: int, second: int) -> bool {
    exists|l: STerm, r: STerm, ol: STerm, or: STerm| #[trigger] plain_equality_factor(parent, goal, first, second, l, r, ol, or)
}

/// Tries one orientation of the two equations.
fn try_equality_factor(
    parent: &Vec<Literal>,
    goal: &Vec<Literal>,
    first: usize,
    second: usize,
    l: &Term,
    r: &Term,
    ol: &Term,
    or: &Term,
) -> (res: bool)
    requires
        first < second < parent@.len(),
        parent@[first as int]@.positive,
        parent@[second as int]@.positive,
        parent@[first as int]@.atom == SAtom::Eq(l@, r@) || parent@[first as int]@.atom == SAtom::Eq(r@, l@),
        parent@[second as int]@.atom == SAtom::Eq(ol@, or@) || parent@[second as int]@.atom == SAtom::Eq(or@, ol@),
    ensures
        res ==> exists|s: Map<u32, STerm>| #[trigger] equality_factor_at(
            clause_view(parent@), clause_view(goal@), first as int, second as int, l@, r@, ol@, or@, s),
        plain_equality_factor(clause_view(parent@), clause_view(goal@), first as int, second as int, l@, r@, ol@, or@) ==> res,
{
    let ghost pv = clause_view(parent@);
    let s = match unify_term_pair(l, ol) {
        Some(s) => s,
        None => return false,
    };
    let ghost plain = plain_equality_factor(pv, clause_view(goal@), first as int, second as int, l@, r@, ol@, or@);
    let mut expected: Vec<Literal> = Vec::new();
    expected.push(apply_substitution_literal(&parent[first], &s));
    expected.push(Literal {
        positive: false,
        atom: Atom::Eq(apply_substitution_term(r, &s), apply_substitution_term(or, &s)),
    });
    let rest = clause_without(parent, second);
    assert(rest@.len() == parent@.len() - 1) by {
        assert(clause_view(rest@).len() == rest@.len());
        assert(clause_view(parent@).len() == parent@.len());
    }
    push_instance_except(&mut expected, &rest, first, &s);
    proof {
        assert(pv[first as int] == parent@[first as int]@);
        assert(pv[second as int] == parent@[second as int]@);
        assert(without(pv, second as int)[first as int] == pv[first as int]);
    }
    if clause_alpha_equiv(&expected, goal) {
        proof {
            let head = seq![
                subst_literal(pv[first as int], s@),
                SLiteral { positive: false, atom: SAtom::Eq(subst_term(r@, s@), subst_term(or@, s@)) },
            ];
            assert(clause_view(expected@) =~= head + subst_clause(without(without(pv, second as int), first as int), s@));
            assert(equality_factor_at(pv, clause_view(goal@), first as int, second as int, l@, r@, ol@, or@, s@));
        }
        true
    } else {
        proof {
            if plain {
                let e = Map::<u32, STerm>::empty();
                let rest = without(without(pv, second as int), first as int);
                crate::instance::lemma_subst_clause_empty(rest);
                crate::instance::lemma_subst_clause_empty(seq![pv[first as int]]);
                assert(subst_clause(seq![pv[first as int]], e)[0] == subst_literal(pv[first as int], e));
                crate::unify::lemma_subst_disjoint(r@, e);
                crate::unify::lemma_subst_disjoint(or@, e);
                assert(clause_view(expected@) =~= seq![pv[first as int],
                    SLiteral { positive: false, atom: SAtom::Eq(r@, or@) }] + rest);
            }
        }
        false
    }
}

/// The verdicts `verify_equality_factoring` may give.
pub open spec fn equality_factoring_outcome(parents: Seq<Formula>, conclusion: Formula, limits: VerificationLimits, v: VerdictView) -> bool {
    &&& parents.len() != 1 ==> v == VerdictView::Rejected("equality_factoring must have one parent"@)
    &&& parents.len() == 1 ==> {
        let pc = clause_of(parents[0], limits.max_clause_literals);
        let gc = clause_of(conclusion, limits.max_clause_literals);
        if pc is None {
            v == VerdictView::Inconclusive("equality_factoring parent is not a supported clause"@)
        } else if gc is None {
            v == VerdictView::Inconclusive("equality_factoring conclusion is not a supported clause"@)
        } else {
            &&& v == VerdictView::Certified
                || v == VerdictView::Rejected("equality_factoring conclusion is not a valid factor"@)
            &&& v == VerdictView::Certified ==> exists|first: int, second: int, l: STerm, rr: STerm, ol: STerm, or: STerm, s: Map<u32, STerm>|
                #[trigger] equality_factor_at(pc->Some_0, gc->Some_0, first, second, l, rr, ol, or, s)
            &&& (exists|first: int, second: int| #[trigger] plain_equality_factor_pair(pc->Some_0, gc->Some_0, first, second))
                ==> v == VerdictView::Certified
        }
    }
}

/// Equality factoring: two positive equations with unifiable sides become
/// one equation and a disequation of the other sides.
pub fn verify_equality_factoring(parents: &[Formula], conclusion: &Formula, limits: VerificationLimits) -> (r: KernelVerdict)
    ensures
        equality_factoring_outcome(parents@, *conclusion, limits, r@),
{
    if parents.len() != 1 {
        return rejected("equality_factoring must have one parent");
    }
    let parent = match clause_from_formula(&parents[0], limits) {
        Some(c) => c,
        None => return inconclusive("equality_factoring parent is not a supported clause"),
    };
    let goal = match clause_from_formula(conclusion, limits) {
        Some(c) => c,
        None => return inconclusive("equality_factoring conclusion is not a supported clause"),
    };
    let ghost pv = clause_view(parent@);
    let ghost gv = clause_view(goal@);
    let mut first: usize = 0;
    while first < parent.len()
        invariant
            0 <= first <= parent.len(),
            pv == clause_view(parent@),
            gv == clause_view(goal@),
            parents@.len() == 1,
            clause_of(parents@[0], limits.max_clause_literals) == Some(pv),
            clause_of(*conclusion, limits.max_clause_literals) == Some(gv),
            forall|a: int, b: int| 0 <= a < first ==> !#[trigger] plain_equality_factor_pair(pv, gv, a, b),
        decreases parent.len() - first,
    {
        proof {
            assert(pv[first as int] == parent@[first as int]@);
            if !(pv[first as int].positive && pv[first as int].atom is Eq) {
                assert forall|b: int| !#[trigger] plain_equality_factor_pair(pv, gv, first as int, b) by {
                    if plain_equality_factor_pair(pv, gv, first as int, b) {
                        let (l, r, ol, or) = choose|l: STerm, r: STerm, ol: STerm, or: STerm|
                            #[trigger] plain_equality_factor(pv, gv, first as int, b, l, r, ol, or);
                    }
                }
            }
        }
        if parent[first].positive {
            if let Atom::Eq(fl, fr) = &parent[first].atom {
                let mut second: usize = first + 1;
                while second < parent.len()
                    invariant
                        0 <= first < parent.len(),
                        first + 1 <= second <= parent.len(),
                        parent@[first as int]@.positive,
                        parent@[first as int]@.atom == SAtom::Eq(fl@, fr@),
                        pv == clause_view(parent@),
                        gv == clause_view(goal@),
                        parents@.len() == 1,
                        clause_of(parents@[0], limits.max_clause_literals) == Some(pv),
                        clause_of(*conclusion, limits.max_clause_literals) == Some(gv),
                        forall|a: int, b: int| 0 <= a < first ==> !#[trigger] plain_equality_factor_pair(pv, gv, a, b),
                        forall|b: int| b < second ==> !#[trigger] plain_equality_factor_pair(pv, gv, first as int, b),
                    decreases parent.len() - second,
                {
                    proof {
                        assert(pv[second as int] == parent@[second as int]@);
                        if !(pv[second as int].positive && pv[second as int].atom is Eq) {
                            if plain_equality_factor_pair(pv, gv, first as int, second as int) {
                                let (l, r, ol, or) = choose|l: STerm, r: STerm, ol: STerm, or: STerm|
                                    #[trigger] plain_equality_factor(pv, gv, first as int, second as int, l, r, ol, or);
                            }
                        }
                    }
                    if parent[second].positive {
                        if let Atom::Eq(sl, sr) = &parent[second].atom {
                            if try_equality_factor(&parent, &goal, first, second, fl, fr, sl, sr)
                                || try_equality_factor(&parent, &goal, first, second, fl, fr, sr, sl)
                                || try_equality_factor(&parent, &goal, first, second, fr, fl, sl, sr)
                                || try_equality_factor(&parent, &goal, first, second, fr, fl, sr, sl) {
                                return KernelVerdict::Certified;
                            }
                            proof {
                                if plain_equality_factor_pair(pv, gv, first as int, second as int) {
                                    let (l, r, ol, or) = choose|l: STerm, r: STerm, ol: STerm, or: STerm|
                                        #[trigger] plain_equality_factor(pv, gv, first as int, second as int, l, r, ol, or);
                                    assert((l, r) == (fl@, fr@) || (l, r) == (fr@, fl@));
                                    assert((ol, or) == (sl@, sr@) || (ol, or) == (sr@, sl@));
                                }
                            }
                        }
                    }
                    second = second + 1;
                }
            }
        }
        first = first + 1;
    }
    rejected("equality_factoring conclusion is not a valid factor")
}

} // verus!
