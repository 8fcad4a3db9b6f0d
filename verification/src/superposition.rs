//! Superposition: an equation of one clause rewrites a non-variable
//! subterm of a literal of another under a unifier; and the bounded replay
//! of simplifications by a unit equation folded into such a step.
use vstd::prelude::*;
use crate::term::{Term, Atom, Literal, Formula, STerm, SAtom, SLiteral, clause_view, terms_view, lemma_terms_view};
use crate::verdict::{KernelVerdict, VerdictView, VerificationLimits, rejected, inconclusive};
use crate::clause::{clause_of, clause_from_formula, condensed, condense_clause, copy_clause, copy_literal};
use crate::alpha::{clause_alpha, clause_alpha_equiv};
use crate::subst::{Subst, subst_term, apply_substitution_term};
use crate::instance::{
    subst_clause, subst_literal, without, push_instance_except, shift_var, shift_sclause, shift_clause,
    clause_max_var, max_var_clause, apply_substitution_literal, unify_term_pair, most_general_unifier,
};
use crate::rewrite::{subterm_at, replace_at, atom_side, term_at_position, replace_term_at, replace_side, replace_atom_side};
use crate::measure::{cap, term_size};
use crate::term::sterm_size;
use crate::ac_inference::{background_accepts, background_ac_fallback};

verus! {

/// The subterm at `p` exists and is no variable.
pub open spec fn non_var_at(t: STerm, p: Seq<usize>) -> bool {
    subterm_at(t, p) matches Some(u) && !(u is Var)
}

/// Argument `side` of the atom has a non-variable subterm at `p`.
pub open spec fn atom_position(a: SAtom, side: int, p: Seq<usize>) -> bool {
    atom_side(a, side) matches Some(base) && non_var_at(base, p)
}

/// `p` is one of the listed paths.
pub open spec fn lists_path(r: Seq<Vec<usize>>, p: Seq<usize>) -> bool {
    exists|k: int| 0 <= k < r.len() && #[trigger] r[k]@ == p
}

proof fn lemma_lists_path_push(r: Seq<Vec<usize>>, x: Vec<usize>, p: Seq<usize>)
    requires
        lists_path(r, p),
    ensures
        lists_path(r.push(x), p),
{
    let k = choose|k: int| 0 <= k < r.len() && #[trigger] r[k]@ == p;
    assert(r.push(x)[k] == r[k]);
}

/// The non-variable positions of a term, in pre-order.
fn term_positions(term: &Term) -> (r: Vec<Vec<usize>>)
    ensures
        forall|k: int| 0 <= k < r@.len() ==> #[trigger] non_var_at(term@, r@[k]@),
        term@ is App ==> r@.len() > 0 && r@[0]@ == Seq::<usize>::empty(),
        forall|p: Seq<usize>| #[trigger] non_var_at(term@, p) ==> lists_path(r@, p),
    decreases term,
{
    let mut out: Vec<Vec<usize>> = Vec::new();
    match term {
        Term::Var(_) => {},
        Term::App(f, args) => {
            out.push(Vec::new());
            proof {
                lemma_terms_view(args@);
                assert(subterm_at(term@, out@[0]@) == Some(term@));
            }
            let mut i: usize = 0;
            while i < args.len()
                invariant
                    0 <= i <= args.len(),
                    *term is App,
                    (*term)->App_1 == *args,
                    term@ == STerm::App(*f, terms_view(args@)),
                    terms_view(args@).len() == args@.len(),
                    forall|k: int| 0 <= k < args@.len() ==> #[trigger] terms_view(args@)[k] == args@[k]@,
                    forall|k: int| 0 <= k < out@.len() ==> #[trigger] non_var_at(term@, out@[k]@),
                    out@.len() > 0 && out@[0]@ == Seq::<usize>::empty(),
                    forall|p: Seq<usize>| #[trigger] non_var_at(term@, p) && p.len() > 0 && p[0] < i ==> lists_path(out@, p),
                decreases args.len() - i,
            {
                proof {
                    assert(decreases_to!(*term => (*term)->App_1));
                    assert(decreases_to!((*term)->App_1 => (*term)->App_1@));
                    assert(decreases_to!(args@ => args@[i as int]));
                }
                let sub = term_positions(&args[i]);
                let mut k: usize = 0;
                while k < sub.len()
                    invariant
                        0 <= k <= sub@.len(),
                        i < args@.len(),
                        term@ == STerm::App(*f, terms_view(args@)),
                        terms_view(args@).len() == args@.len(),
                        terms_view(args@)[i as int] == args@[i as int]@,
                        forall|j: int| 0 <= j < sub@.len() ==> #[trigger] non_var_at(args@[i as int]@, sub@[j]@),
                        forall|j: int| 0 <= j < out@.len() ==> #[trigger] non_var_at(term@, out@[j]@),
                        out@.len() > 0 && out@[0]@ == Seq::<usize>::empty(),
                        forall|p: Seq<usize>| #[trigger] non_var_at(term@, p) && p.len() > 0 && p[0] < i ==> lists_path(out@, p),
                        forall|j: int| 0 <= j < k ==> lists_path(out@, seq![i].add(#[trigger] sub@[j]@)),
                    decreases sub.len() - k,
                {
                    let ghost before = out@;
                    let mut p: Vec<usize> = Vec::new();
                    p.push(i);
                    let mut j: usize = 0;
                    while j < sub[k].len()
                        invariant
                            0 <= j <= sub@[k as int]@.len(),
                            k < sub@.len(),
                            p@ == seq![i].add(sub@[k as int]@.take(j as int)),
                        decreases sub@[k as int]@.len() - j,
                    {
                        p.push(sub[k][j]);
                        j = j + 1;
                        assert(p@ =~= seq![i].add(sub@[k as int]@.take(j as int)));
                    }
                    proof {
                        assert(sub@[k as int]@.take(sub@[k as int]@.len() as int) =~= sub@[k as int]@);
                        assert(p@.drop_first() =~= sub@[k as int]@);
                        assert(p@[0] == i);
                        assert(subterm_at(term@, p@) == subterm_at(args@[i as int]@, sub@[k as int]@));
                        assert(non_var_at(args@[i as int]@, sub@[k as int]@));
                    }
                    out.push(p);
                    proof {
                        assert forall|q: Seq<usize>| #[trigger] non_var_at(term@, q) && q.len() > 0 && q[0] < i implies lists_path(out@, q) by {
                            lemma_lists_path_push(before, p, q);
                        }
                        assert forall|j: int| 0 <= j < k + 1 implies lists_path(out@, seq![i].add(#[trigger] sub@[j]@)) by {
                            if j < k {
                                lemma_lists_path_push(before, p, seq![i].add(sub@[j]@));
                            } else {
                                assert(p@ =~= seq![i].add(sub@[k as int]@));
                                assert(out@[before.len() as int]@ == seq![i].add(sub@[j]@));
                            }
                        }
                    }
                    k = k + 1;
                }
                proof {
                    assert forall|q: Seq<usize>| #[trigger] non_var_at(term@, q) && q.len() > 0 && q[0] < i + 1 implies lists_path(out@, q) by {
                        if q[0] == i {
                            let rest = q.drop_first();
                            assert(subterm_at(term@, q) == subterm_at(terms_view(args@)[i as int], rest));
                            assert(non_var_at(args@[i as int]@, rest));
                            let j = choose|j: int| 0 <= j < sub@.len() && #[trigger] sub@[j]@ == rest;
                            assert(seq![i].add(sub@[j]@) =~= q);
                        }
                    }
                }
                i = i + 1;
            }
            proof {
                assert forall|q: Seq<usize>| #[trigger] non_var_at(term@, q) implies lists_path(out@, q) by {
                    if q.len() == 0 {
                        assert(out@[0]@ == q);
                    } else {
                        let q0 = q[0];
                        if q0 >= args@.len() {
                            assert(subterm_at(term@, q) is None);
                        }
                    }
                }
            }
        },
    }
    out
}

/// The non-variable positions of an atom's arguments, argument by argument.
pub(crate) fn atom_term_positions(atom: &Atom) -> (r: Vec<(usize, Vec<usize>)>)
    ensures
        forall|k: int| 0 <= k < r@.len() ==> #[trigger] atom_position(atom@, r@[k].0 as int, r@[k].1@),
        forall|side: int, p: Seq<usize>| #[trigger] atom_position(atom@, side, p)
            ==> exists|k: int| 0 <= k < r@.len() && r@[k].0 == side && #[trigger] r@[k].1@ == p,
{
    let mut out: Vec<(usize, Vec<usize>)> = Vec::new();
    let n: usize = match atom {
        Atom::Pred(_, args) => args.len(),
        Atom::Eq(_, _) => 2,
    };
    proof {
        match atom {
            Atom::Pred(_, args) => lemma_terms_view(args@),
            Atom::Eq(_, _) => {},
        }
    }
    let mut side: usize = 0;
    while side < n
        invariant
            0 <= side <= n,
            n == match atom@ {
                SAtom::Pred(_, args) => args.len(),
                SAtom::Eq(_, _) => 2,
            },
            forall|k: int| 0 <= k < out@.len() ==> #[trigger] atom_position(atom@, out@[k].0 as int, out@[k].1@),
            forall|s0: int, p: Seq<usize>| 0 <= s0 < side && #[trigger] atom_position(atom@, s0, p)
                ==> exists|k: int| 0 <= k < out@.len() && out@[k].0 == s0 && #[trigger] out@[k].1@ == p,
        decreases n - side,
    {
        let term: &Term = match atom {
            Atom::Pred(_, args) => {
                proof {
                    lemma_terms_view(args@);
                }
                &args[side]
            },
            Atom::Eq(l, r) => if side == 0 {
                l
            } else {
                r
            },
        };
        assert(atom_side(atom@, side as int) == Some(term@));
        let positions = term_positions(term);
        let mut k: usize = 0;
        while k < positions.len()
            invariant
                0 <= k <= positions@.len(),
                side < n,
                atom_side(atom@, side as int) == Some(term@),
                forall|j: int| 0 <= j < positions@.len() ==> #[trigger] non_var_at(term@, positions@[j]@),
                forall|j: int| 0 <= j < out@.len() ==> #[trigger] atom_position(atom@, out@[j].0 as int, out@[j].1@),
                forall|p: Seq<usize>| #[trigger] non_var_at(term@, p) ==> lists_path(positions@, p),
                forall|s0: int, p: Seq<usize>| 0 <= s0 < side && #[trigger] atom_position(atom@, s0, p)
                    ==> exists|q: int| 0 <= q < out@.len() && out@[q].0 == s0 && #[trigger] out@[q].1@ == p,
                forall|j: int| 0 <= j < k ==> exists|q: int| 0 <= q < out@.len() && out@[q].0 == side
                    && #[trigger] out@[q].1@ == #[trigger] positions@[j]@,
            decreases positions.len() - k,
        {
            let ghost before = out@;
            let mut p: Vec<usize> = Vec::new();
            let mut j: usize = 0;
            while j < positions[k].len()
                invariant
                    0 <= j <= positions@[k as int]@.len(),
                    k < positions@.len(),
                    p@ == positions@[k as int]@.take(j as int),
                decreases positions@[k as int]@.len() - j,
            {
                p.push(positions[k][j]);
                j = j + 1;
                assert(p@ =~= positions@[k as int]@.take(j as int));
            }
            assert(positions@[k as int]@.take(positions@[k as int]@.len() as int) =~= positions@[k as int]@);
            out.push((side, p));
            proof {
                assert forall|s0: int, pp: Seq<usize>| 0 <= s0 < side && #[trigger] atom_position(atom@, s0, pp)
                    implies exists|q: int| 0 <= q < out@.len() && out@[q].0 == s0 && #[trigger] out@[q].1@ == pp by {
                    let q = choose|q: int| 0 <= q < before.len() && before[q].0 == s0 && #[trigger] before[q].1@ == pp;
                    assert(out@[q] == before[q]);
                }
                assert forall|j: int| 0 <= j < k + 1 implies exists|q: int| 0 <= q < out@.len() && out@[q].0 == side
                    && #[trigger] out@[q].1@ == #[trigger] positions@[j]@ by {
                    if j < k {
                        let q = choose|q: int| 0 <= q < before.len() && before[q].0 == side && #[trigger] before[q].1@ == positions@[j]@;
                        assert(out@[q] == before[q]);
                    } else {
                        assert(out@[before.len() as int].1@ == positions@[j]@);
                    }
                }
            }
            k = k + 1;
        }
        proof {
            assert forall|s0: int, pp: Seq<usize>| 0 <= s0 < side + 1 && #[trigger] atom_position(atom@, s0, pp)
                implies exists|q: int| 0 <= q < out@.len() && out@[q].0 == s0 && #[trigger] out@[q].1@ == pp by {
                if s0 == side {
                    assert(non_var_at(term@, pp));
                    let j = choose|j: int| 0 <= j < positions@.len() && #[trigger] positions@[j]@ == pp;
                    let q = choose|q: int| 0 <= q < out@.len() && out@[q].0 == side && #[trigger] out@[q].1@ == positions@[j]@;
                }
            }
        }
        side = side + 1;
    }
    out
}

/// Literal `l` with the subterm at `path` of its argument `side` replaced
/// by `u`.
pub open spec fn rewritten_at(l: SLiteral, side: int, path: Seq<usize>, u: STerm) -> SLiteral {
    SLiteral {
        positive: l.positive,
        atom: replace_side(l.atom, side, replace_at(atom_side(l.atom, side)->Some_0, path, u)),
    }
}

/// `from -> to` is one orientation of the positive equation `c[i]`, with a
/// non-variable left side.
pub open spec fn oriented_equation(c: Seq<SLiteral>, i: int, from: STerm, to: STerm) -> bool {
    &&& 0 <= i < c.len()
    &&& c[i].positive
    &&& c[i].atom is Eq
    &&& (from == c[i].atom->Eq_0 && to == c[i].atom->Eq_1) || (from == c[i].atom->Eq_1 && to == c[i].atom->Eq_0)
    &&& !(from is Var)
}

/// `s` unifies `from` with the subterm at `path` of argument `side` of
/// literal `c[j]`.
pub open spec fn unifies_at(c: Seq<SLiteral>, j: int, side: int, path: Seq<usize>, from: STerm, s: Map<u32, STerm>) -> bool {
    &&& 0 <= j < c.len()
    &&& atom_side(c[j].atom, side) matches Some(base)
    &&& subterm_at(base, path) matches Some(sub)
    &&& subst_term(from, s) == subst_term(sub, s)
}

/// `expected` is the superposition of equation `eq[i]`, read `from -> to`,
/// into the subterm at `path` of argument `side` of literal `target[j]`
/// under the unifier `s`: the other equation literals and the target with
/// that subterm replaced by `to`, all instantiated by `s`.
pub open spec fn superposition_instance(
    eq: Seq<SLiteral>,
    target: Seq<SLiteral>,
    i: int,
    from: STerm,
    to: STerm,
    j: int,
    side: int,
    path: Seq<usize>,
    s: Map<u32, STerm>,
    expected: Seq<SLiteral>,
) -> bool {
    &&& oriented_equation(eq, i, from, to)
    &&& unifies_at(target, j, side, path, from, s)
    &&& expected == superposed(eq, target, i, to, j, side, path, s)
}

/// The clause a superposition yields: the other literals of the equation
/// clause, then the target clause with the subterm at `path` of argument
/// `side` of literal `j` replaced by `to`, all instantiated by `s`.
pub open spec fn superposed(
    eq: Seq<SLiteral>,
    target: Seq<SLiteral>,
    i: int,
    to: STerm,
    j: int,
    side: int,
    path: Seq<usize>,
    s: Map<u32, STerm>,
) -> Seq<SLiteral> {
    subst_clause(without(eq, i), s)
        + subst_clause(target.update(j, rewritten_at(target[j], side, path, subst_term(to, s))), s)
}

/// One simplification of clause `c` by the unit equation `l = r`: a
/// non-variable subterm of literal `c[i]` unifies with one side, the other
/// side's instance is smaller, and the literal moves to the end with that
/// subterm replaced, the whole clause instantiated.
pub open spec fn unit_step_at(
    c: Seq<SLiteral>,
    c2: Seq<SLiteral>,
    l: STerm,
    r: STerm,
    i: int,
    from: STerm,
    to: STerm,
    side: int,
    path: Seq<usize>,
    s: Map<u32, STerm>,
) -> bool {
    &&& (from == l && to == r) || (from == r && to == l)
    &&& !(from is Var)
    &&& unifies_at(c, i, side, path, from, s)
    &&& cap(sterm_size(subst_term(to, s))) < cap(sterm_size(subst_term(from, s)))
    &&& c2 == subst_clause(without(c, i), s).push(subst_literal(rewritten_at(c[i], side, path, subst_term(to, s)), s))
}

pub open spec fn unit_step(c: Seq<SLiteral>, c2: Seq<SLiteral>, l: STerm, r: STerm) -> bool {
    exists|i: int, from: STerm, to: STerm, side: int, path: Seq<usize>, s: Map<u32, STerm>|
        #[trigger] unit_step_at(c, c2, l, r, i, from, to, side, path, s)
}

/// `chain` starts at `start` or its condensation and takes unit steps.
pub open spec fn unit_chain(chain: Seq<Seq<SLiteral>>, l: STerm, r: STerm, start: Seq<SLiteral>) -> bool {
    &&& chain.len() > 0
    &&& chain[0] == start || chain[0] == condensed(start)
    &&& forall|k: int| 0 <= k < chain.len() - 1 ==> unit_step(#[trigger] chain[k], chain[k + 1], l, r)
}

/// Bounded simplification by the unit equation `l = r` reaches, from
/// `start`, a clause equal to `goal` up to condensation and renaming.
pub open spec fn unit_rewrite_reaches(l: STerm, r: STerm, start: Seq<SLiteral>, goal: Seq<SLiteral>) -> bool {
    exists|chain: Seq<Seq<SLiteral>>| #[trigger] unit_chain(chain, l, r, start)
        && clause_alpha(condensed(chain.last()), condensed(goal))
}

/// The literal `lit` with the subterm at `path` of argument `side`
/// replaced by `u`, instantiated by `s`.
fn rewrite_literal(lit: &Literal, side: usize, path: &Vec<usize>, u: Term, s: &Subst) -> (r: Literal)
    requires
        atom_side(lit@.atom, side as int) is Some,
    ensures
        r@ == subst_literal(rewritten_at(lit@, side as int, path@, u@), s@),
{
    let base: &Term = match &lit.atom {
        Atom::Pred(_, args) => {
            proof {
                lemma_terms_view(args@);
            }
            &args[side]
        },
        Atom::Eq(l, r) => if side == 0 {
            l
        } else {
            r
        },
    };
    assert(atom_side(lit@.atom, side as int) == Some(base@));
    let replaced = replace_term_at(base, path.as_slice(), u);
    let atom = replace_atom_side(&lit.atom, side, replaced);
    let out = Literal { positive: lit.positive, atom };
    apply_substitution_literal(&out, s)
}

/// The argument `side` of an atom, if it has one.
pub(crate) fn atom_argument(atom: &Atom, side: usize) -> (r: Option<&Term>)
    ensures
        match atom_side(atom@, side as int) {
            Some(t) => r matches Some(x) && x@ == t,
            None => r is None,
        },
{
    match atom {
        Atom::Pred(_, args) => {
            proof {
                lemma_terms_view(args@);
            }
            if side < args.len() {
                Some(&args[side])
            } else {
                None
            }
        },
        Atom::Eq(l, r) => if side == 0 {
            Some(l)
        } else if side == 1 {
            Some(r)
        } else {
            None
        },
    }
}

/// One unit simplification of `state` at literal `li`, argument `side`
/// and `path`, with `from -> to`, when the subterm there unifies with
/// `from` and the instance of `to` is smaller.
fn unit_step_from(state: &Vec<Literal>, li: usize, from: &Term, to: &Term, side: usize, path: &Vec<usize>) -> (r: Option<Vec<Literal>>)
    requires
        li < state@.len(),
        !(from@ is Var),
        atom_position(state@[li as int]@.atom, side as int, path@),
    ensures
        r is Some ==> exists|sw: Map<u32, STerm>|
            #[trigger] unit_step_at(clause_view(state@), clause_view(r->Some_0@), from@, to@, li as int, from@, to@, side as int, path@, sw),
{
    let base = match atom_argument(&state[li].atom, side) {
        Some(b) => b,
        None => return None,
    };
    let subterm = match term_at_position(base, path.as_slice()) {
        Some(t) => t,
        None => return None,
    };
    let s = match unify_term_pair(from, subterm) {
        Some(s) => s,
        None => return None,
    };
    let from_instance = apply_substitution_term(from, &s);
    let to_instance = apply_substitution_term(to, &s);
    if term_size(&to_instance) >= term_size(&from_instance) {
        return None;
    }
    let mut next: Vec<Literal> = Vec::new();
    push_instance_except(&mut next, state, li, &s);
    let ghost before = clause_view(next@);
    let lit = rewrite_literal(&state[li], side, path, to_instance, &s);
    next.push(lit);
    proof {
        let cv = clause_view(state@);
        assert(cv[li as int] == state@[li as int]@);
        assert(lit@ == subst_literal(rewritten_at(cv[li as int], side as int, path@, subst_term(to@, s@)), s@));
        assert(atom_side(cv[li as int].atom, side as int) == Some(base@));
        assert(subterm_at(base@, path@) == Some(subterm@));
        assert(subst_term(from@, s@) == subst_term(subterm@, s@));
        assert(unifies_at(cv, li as int, side as int, path@, from@, s@));
        assert(clause_view(next@) =~= before.push(lit@));
        assert(clause_view(Seq::<Literal>::empty()) =~= Seq::<SLiteral>::empty());
        assert(before =~= subst_clause(without(cv, li as int), s@));
        assert(unit_step_at(cv, clause_view(next@), from@, to@, li as int, from@, to@, side as int, path@, s@));
        assert(exists|sw: Map<u32, STerm>| #[trigger] unit_step_at(cv, clause_view(next@), from@, to@, li as int, from@, to@, side as int, path@, sw));
    }
    let r = Some(next);
    assert(r is Some);
    assert(clause_view(r->Some_0@) == clause_view(next@));
    r
}

fn seen_variant(visited: &Vec<Vec<Literal>>, c: &Vec<Literal>) -> (r: bool) {
    let mut i: usize = 0;
    while i < visited.len()
        invariant
            0 <= i <= visited.len(),
        decreases visited.len() - i,
    {
        if clause_alpha_equiv(&visited[i], c) {
            return true;
        }
        i = i + 1;
    }
    false
}

/// Whether the goal is reached from `start` by bounded simplification with
/// the unit equation `left = right` in either direction, comparing up to
/// condensation and renaming; at most `max_rewrite_steps` distinct clauses
/// (and at least one) are visited.
pub fn unit_rewrite_closure_matches(
    left: &Term,
    right: &Term,
    start: &Vec<Literal>,
    goal: &Vec<Literal>,
    limits: VerificationLimits,
) -> (r: bool)
    ensures
        r ==> unit_rewrite_reaches(left@, right@, clause_view(start@), clause_view(goal@)),
{
    let ghost sv = clause_view(start@);
    let ghost lv = left@;
    let ghost rv = right@;
    let condensed_goal = condense_clause(goal);
    let bound: usize = if limits.max_rewrite_steps > 1 { limits.max_rewrite_steps } else { 1 };
    let mut visited: Vec<Vec<Literal>> = Vec::new();
    let mut stack: Vec<Vec<Literal>> = Vec::new();
    stack.push(copy_clause(start));
    stack.push(condense_clause(start));
    let ghost mut chains: Seq<Seq<Seq<SLiteral>>> = seq![seq![sv], seq![condensed(sv)]];
    proof {
        assert(unit_chain(chains[0], lv, rv, sv));
        assert(unit_chain(chains[1], lv, rv, sv));
    }
    while stack.len() > 0
        invariant
            chains.len() == stack@.len(),
            visited@.len() <= bound,
            sv == clause_view(start@),
            lv == left@,
            rv == right@,
            forall|k: int| 0 <= k < stack@.len() ==> unit_chain(#[trigger] chains[k], lv, rv, sv)
                && chains[k].last() == clause_view(stack@[k]@),
            clause_view(condensed_goal@) == condensed(clause_view(goal@)),
        decreases bound - visited@.len(), stack@.len(),
    {
        let ghost old_chains = chains;
        let ghost old_stack = stack@;
        let state = stack.pop().unwrap();
        let ghost chain = chains.last();
        proof {
            chains = chains.drop_last();
            assert(unit_chain(old_chains[old_chains.len() - 1], lv, rv, sv));
            assert forall|k: int| 0 <= k < stack@.len() implies unit_chain(#[trigger] chains[k], lv, rv, sv)
                && chains[k].last() == clause_view(stack@[k]@) by {
                assert(chains[k] == old_chains[k]);
                assert(stack@[k] == old_stack[k]);
                assert(unit_chain(old_chains[k], lv, rv, sv));
            }
            assert(forall|k: int| 0 <= k < stack@.len() ==> unit_chain(#[trigger] chains[k], lv, rv, sv)
                && chains[k].last() == clause_view(stack@[k]@));
        }
        if visited.len() >= bound {
            return false;
        }
        if !seen_variant(&visited, &state) {
            assert(forall|k: int| 0 <= k < stack@.len() ==> unit_chain(#[trigger] chains[k], lv, rv, sv)
                && chains[k].last() == clause_view(stack@[k]@));
            visited.push(copy_clause(&state));
            assert(forall|k: int| 0 <= k < stack@.len() ==> unit_chain(#[trigger] chains[k], lv, rv, sv)
                && chains[k].last() == clause_view(stack@[k]@));
            let condensed_state = condense_clause(&state);
            if clause_alpha_equiv(&condensed_state, &condensed_goal) {
                proof {
                    assert(unit_chain(chain, lv, rv, sv));
                    assert(clause_alpha(condensed(chain.last()), condensed(clause_view(goal@))));
                }
                return true;
            }
            assert(forall|k: int| 0 <= k < stack@.len() ==> unit_chain(#[trigger] chains[k], lv, rv, sv)
                && chains[k].last() == clause_view(stack@[k]@));
            let mut li: usize = 0;
            while li < state.len()
                invariant
                    0 <= li <= state@.len(),
                    chains.len() == stack@.len(),
                    sv == clause_view(start@),
                    lv == left@,
                    rv == right@,
                    unit_chain(chain, lv, rv, sv),
                    chain.last() == clause_view(state@),
                    forall|k: int| 0 <= k < stack@.len() ==> unit_chain(#[trigger] chains[k], lv, rv, sv)
                        && chains[k].last() == clause_view(stack@[k]@),
                decreases state.len() - li,
            {
                let mut dir: usize = 0;
                while dir < 2
                    invariant
                        0 <= dir <= 2,
                        li < state@.len(),
                        chains.len() == stack@.len(),
                        sv == clause_view(start@),
                        lv == left@,
                        rv == right@,
                        unit_chain(chain, lv, rv, sv),
                        chain.last() == clause_view(state@),
                        forall|k: int| 0 <= k < stack@.len() ==> unit_chain(#[trigger] chains[k], lv, rv, sv)
                            && chains[k].last() == clause_view(stack@[k]@),
                    decreases 2 - dir,
                {
                    let (from, to) = if dir == 0 { (left, right) } else { (right, left) };
                    let from_is_var = match from {
                        Term::Var(_) => true,
                        _ => false,
                    };
                    if !from_is_var {
                        let positions = atom_term_positions(&state[li].atom);
                        let mut pi: usize = 0;
                        while pi < positions.len()
                            invariant
                                0 <= pi <= positions@.len(),
                                li < state@.len(),
                                (from@ == lv && to@ == rv) || (from@ == rv && to@ == lv),
                                !(from@ is Var),
                                chains.len() == stack@.len(),
                                sv == clause_view(start@),
                                lv == left@,
                                rv == right@,
                                unit_chain(chain, lv, rv, sv),
                                chain.last() == clause_view(state@),
                                forall|k: int| 0 <= k < positions@.len() ==> #[trigger] atom_position(state@[li as int]@.atom, positions@[k].0 as int, positions@[k].1@),
                                forall|k: int| 0 <= k < stack@.len() ==> unit_chain(#[trigger] chains[k], lv, rv, sv)
                                    && chains[k].last() == clause_view(stack@[k]@),
                            decreases positions.len() - pi,
                        {
                            assert(atom_position(state@[li as int]@.atom, positions@[pi as int].0 as int, positions@[pi as int].1@));
                            match unit_step_from(&state, li, from, to, positions[pi].0, &positions[pi].1) {
                                None => {},
                                Some(next) => {
                                    proof {
                                        let cv = clause_view(state@);
                                        let sw = choose|sw: Map<u32, STerm>| #[trigger] unit_step_at(cv, clause_view(next@), from@, to@,
                                            li as int, from@, to@, positions@[pi as int].0 as int, positions@[pi as int].1@, sw);
                                        assert(unit_step_at(cv, clause_view(next@), lv, rv, li as int, from@, to@,
                                            positions@[pi as int].0 as int, positions@[pi as int].1@, sw));
                                        assert(unit_step(cv, clause_view(next@), lv, rv));
                                        let nc = chain.push(clause_view(next@));
                                        assert forall|k: int| 0 <= k < nc.len() - 1 implies unit_step(#[trigger] nc[k], nc[k + 1], lv, rv) by {
                                            if k < chain.len() - 1 {
                                                assert(nc[k] == chain[k] && nc[k + 1] == chain[k + 1]);
                                            } else {
                                                assert(nc[k] == cv);
                                            }
                                        }
                                        assert(unit_chain(nc, lv, rv, sv));
                                        chains = chains.push(nc);
                                    }
                                    stack.push(next);
                                },
                            }
                            pi = pi + 1;
                        }
                    }
                    dir = dir + 1;
                }
                li = li + 1;
            }
        }
    }
    false
}

/// The conclusion is accepted for this superposition result: equal to it
/// up to renaming, or up to condensation and renaming, or, for a unit
/// equation, reached from it by bounded simplification with that equation.
pub open spec fn superposition_result_ok(eq: Seq<SLiteral>, expected: Seq<SLiteral>, goal: Seq<SLiteral>) -> bool {
    ||| clause_alpha(expected, goal)
    ||| clause_alpha(condensed(expected), condensed(goal))
    ||| eq.len() == 1 && eq[0].atom is Eq && unit_rewrite_reaches(eq[0].atom->Eq_0, eq[0].atom->Eq_1, expected, goal)
}

/// Some superposition of an equation of `eq` into `target` gives a clause
/// that the conclusion `goal` is accepted for.
pub open spec fn superposition_accepts(eq: Seq<SLiteral>, target: Seq<SLiteral>, goal: Seq<SLiteral>) -> bool {
    exists|i: int, from: STerm, to: STerm, j: int, side: int, path: Seq<usize>, s: Map<u32, STerm>, expected: Seq<SLiteral>|
        #[trigger] superposition_instance(eq, target, i, from, to, j, side, path, s, expected)
            && superposition_result_ok(eq, expected, goal)
}

/// Equation `eq[i]`, read `from -> to`, is itself argument `side` of
/// literal `target[j]`, and the conclusion is accepted for replacing that
/// argument by `to` (no unifier needed).
pub open spec fn argument_superposition(
    eq: Seq<SLiteral>,
    target: Seq<SLiteral>,
    goal: Seq<SLiteral>,
    i: int,
    from: STerm,
    to: STerm,
    j: int,
    side: int,
) -> bool {
    &&& oriented_equation(eq, i, from, to)
    &&& 0 <= j < target.len()
    &&& atom_side(target[j].atom, side) == Some(from)
    &&& {
        let expected = superposed(eq, target, i, to, j, side, Seq::empty(), Map::empty());
        clause_alpha(expected, goal) || clause_alpha(condensed(expected), condensed(goal))
    }
}

/// Equation `eq[i]`, read `from -> to`, has a most general unifier with the
/// non-variable subterm at `path` of argument `side` of `target[j]`, and
/// under every such unifier the superposition gives a clause that the
/// conclusion equals up to renaming (possibly after removing repeated
/// literals on both sides).
pub open spec fn unifiable_superposition(
    eq: Seq<SLiteral>,
    target: Seq<SLiteral>,
    goal: Seq<SLiteral>,
    i: int,
    from: STerm,
    to: STerm,
    j: int,
    side: int,
    path: Seq<usize>,
) -> bool {
    &&& oriented_equation(eq, i, from, to)
    &&& 0 <= j < target.len()
    &&& atom_position(target[j].atom, side, path)
    &&& {
        let sub = subterm_at(atom_side(target[j].atom, side)->Some_0, path)->Some_0;
        &&& exists|s: Map<u32, STerm>| most_general_unifier(from, sub, s)
        &&& forall|s: Map<u32, STerm>| #[trigger] most_general_unifier(from, sub, s) ==> {
            let expected = superposed(eq, target, i, to, j, side, path, s);
            clause_alpha(expected, goal) || clause_alpha(condensed(expected), condensed(goal))
        }
    }
}

/// A superposition at a unifiable position is a superposition, under a
/// most general unifier.
proof fn lemma_unifiable_superposition_accepts(
    eq: Seq<SLiteral>,
    target: Seq<SLiteral>,
    goal: Seq<SLiteral>,
    i: int,
    from: STerm,
    to: STerm,
    j: int,
    side: int,
    path: Seq<usize>,
)
    requires
        unifiable_superposition(eq, target, goal, i, from, to, j, side, path),
    ensures
        superposition_accepts(eq, target, goal),
{
    let sub = subterm_at(atom_side(target[j].atom, side)->Some_0, path)->Some_0;
    let s = choose|s: Map<u32, STerm>| most_general_unifier(from, sub, s);
    let expected = superposed(eq, target, i, to, j, side, path, s);
    assert(most_general_unifier(from, sub, s));
    assert(unifies_at(target, j, side, path, from, s));
    assert(superposition_instance(eq, target, i, from, to, j, side, path, s, expected));
    assert(superposition_result_ok(eq, expected, goal));
}

/// Rewriting an argument that is itself the equation's side is a
/// superposition, with the empty unifier.
proof fn lemma_argument_superposition_accepts(
    eq: Seq<SLiteral>,
    target: Seq<SLiteral>,
    goal: Seq<SLiteral>,
    i: int,
    from: STerm,
    to: STerm,
    j: int,
    side: int,
)
    requires
        argument_superposition(eq, target, goal, i, from, to, j, side),
    ensures
        superposition_accepts(eq, target, goal),
{
    let e = Map::<u32, STerm>::empty();
    let p = Seq::<usize>::empty();
    let expected = superposed(eq, target, i, to, j, side, p, e);
    assert(unifies_at(target, j, side, p, from, e));
    assert(superposition_instance(eq, target, i, from, to, j, side, p, e, expected));
    assert(superposition_result_ok(eq, expected, goal));
}

/// The verdicts a superposition of the equations of `eq_parent` into
/// `target_parent` may give: certified only when some superposition of the
/// former into the latter, renamed apart, yields the conclusion.
pub open spec fn superposition_pair_outcome(
    eq_parent: Formula,
    target_parent: Formula,
    conclusion: Formula,
    limits: VerificationLimits,
    bc: Set<u32>,
    ba: Set<u32>,
    v: VerdictView,
) -> bool {
    let n = limits.max_clause_literals;
    if clause_of(eq_parent, n) is None {
        v == VerdictView::Inconclusive("superposition equality parent is not a supported clause"@)
    } else if clause_of(target_parent, n) is None {
        v == VerdictView::Inconclusive("superposition target parent is not a supported clause"@)
    } else if clause_of(conclusion, n) is None {
        v == VerdictView::Inconclusive("superposition conclusion is not a supported clause"@)
    } else {
        let eq = clause_of(eq_parent, n)->Some_0;
        let target = shift_sclause(clause_of(target_parent, n)->Some_0, shift_var(clause_max_var(eq), 1));
        let goal = clause_of(conclusion, n)->Some_0;
        &&& (v == VerdictView::Certified && (superposition_accepts(eq, target, goal)
            || background_accepts(eq_parent, target_parent, goal, limits, bc, ba)))
            || v == VerdictView::Rejected("superposition conclusion is not a valid rewrite"@)
        &&& (exists|i: int, from: STerm, to: STerm, j: int, side: int|
            #[trigger] argument_superposition(eq, target, goal, i, from, to, j, side)) ==> v == VerdictView::Certified
        &&& (exists|i: int, from: STerm, to: STerm, j: int, side: int, path: Seq<usize>|
            #[trigger] unifiable_superposition(eq, target, goal, i, from, to, j, side, path)) ==> v == VerdictView::Certified
    }
}

/// The verdicts a `superposition` step may give; `bc` and `ba` are the
/// commutative and associative symbols of the problem's own AC axioms.
pub open spec fn superposition_outcome(
    parents: Seq<Formula>,
    conclusion: Formula,
    limits: VerificationLimits,
    bc: Set<u32>,
    ba: Set<u32>,
    v: VerdictView,
) -> bool {
    if parents.len() != 2 {
        v == VerdictView::Rejected("superposition must have two parents"@)
    } else {
        superposition_pair_outcome(parents[0], parents[1], conclusion, limits, bc, ba, v)
    }
}

/// Builds the clause a superposition yields (see `superposed`).
pub(crate) fn build_superposed(
    eq: &Vec<Literal>,
    i: usize,
    to: &Term,
    target: &Vec<Literal>,
    j: usize,
    side: usize,
    path: &Vec<usize>,
    s: &Subst,
) -> (r: Vec<Literal>)
    requires
        i < eq@.len(),
        j < target@.len(),
        atom_side(target@[j as int]@.atom, side as int) is Some,
    ensures
        clause_view(r@) == superposed(clause_view(eq@), clause_view(target@), i as int, to@, j as int, side as int, path@, s@),
{
    let ghost ev = clause_view(eq@);
    let ghost tv = clause_view(target@);
    assert(tv[j as int] == target@[j as int]@);
    let replacement = apply_substitution_term(to, s);
    let mut expected: Vec<Literal> = Vec::new();
    push_instance_except(&mut expected, eq, i, s);
    let ghost front = clause_view(expected@);
    let mut k: usize = 0;
    while k < target.len()
        invariant
            0 <= k <= target@.len(),
            j < target@.len(),
            tv == clause_view(target@),
            atom_side(tv[j as int].atom, side as int) is Some,
            replacement@ == subst_term(to@, s@),
            clause_view(expected@) == front + subst_clause(
                tv.update(j as int, rewritten_at(tv[j as int], side as int, path@, subst_term(to@, s@))).take(k as int), s@),
        decreases target.len() - k,
    {
        let ghost before = clause_view(expected@);
        let ghost upd = tv.update(j as int, rewritten_at(tv[j as int], side as int, path@, subst_term(to@, s@)));
        assert(tv[k as int] == target@[k as int]@);
        if k == j {
            let lit = rewrite_literal(&target[k], side, path, crate::term::copy_term(&replacement), s);
            expected.push(lit);
            assert(clause_view(expected@) =~= before.push(lit@));
        } else {
            let lit = apply_substitution_literal(&target[k], s);
            expected.push(lit);
            assert(clause_view(expected@) =~= before.push(lit@));
        }
        proof {
            assert(upd.take(k as int + 1) =~= upd.take(k as int).push(upd[k as int]));
            assert(subst_clause(upd.take(k as int + 1), s@) =~= subst_clause(upd.take(k as int), s@).push(subst_literal(upd[k as int], s@)));
        }
        k = k + 1;
    }
    proof {
        let upd = tv.update(j as int, rewritten_at(tv[j as int], side as int, path@, subst_term(to@, s@)));
        assert(upd.take(tv.len() as int) =~= upd);
        assert(clause_view(Seq::<Literal>::empty()) =~= Seq::<SLiteral>::empty());
        assert(front =~= subst_clause(without(ev, i as int), s@));
    }
    expected
}

/// Tries one superposition: equation `eq[i]` read `from -> to` into the
/// subterm at `path` of argument `side` of `target[j]`.
fn superposition_candidate(
    eq: &Vec<Literal>,
    i: usize,
    from: &Term,
    to: &Term,
    target: &Vec<Literal>,
    j: usize,
    side: usize,
    path: &Vec<usize>,
    goal: &Vec<Literal>,
    limits: VerificationLimits,
) -> (r: bool)
    requires
        oriented_equation(clause_view(eq@), i as int, from@, to@),
        j < target@.len(),
        atom_position(target@[j as int]@.atom, side as int, path@),
    ensures
        r ==> superposition_accepts(clause_view(eq@), clause_view(target@), clause_view(goal@)),
        path@ == Seq::<usize>::empty()
            && argument_superposition(clause_view(eq@), clause_view(target@), clause_view(goal@), i as int, from@, to@, j as int, side as int)
            ==> r,
        unifiable_superposition(clause_view(eq@), clause_view(target@), clause_view(goal@), i as int, from@, to@, j as int, side as int, path@)
            ==> r,
{
    let ghost ev = clause_view(eq@);
    let ghost tv = clause_view(target@);
    let ghost gv = clause_view(goal@);
    let base = match atom_argument(&target[j].atom, side) {
        Some(b) => b,
        None => return false,
    };
    let subterm = match term_at_position(base, path.as_slice()) {
        Some(t) => t,
        None => return false,
    };
    proof {
        assert(tv[j as int] == target@[j as int]@);
    }
    proof {
        if unifiable_superposition(ev, tv, gv, i as int, from@, to@, j as int, side as int, path@) {
            let w = choose|w: Map<u32, STerm>| most_general_unifier(from@, subterm@, w);
            assert(most_general_unifier(from@, subterm@, w));
            assert(subst_term(from@, w) == subst_term(subterm@, w));
        }
    }
    let s = match unify_term_pair(from, subterm) {
        Some(s) => s,
        None => return false,
    };
    let expected = build_superposed(eq, i, to, target, j, side, path, &s);
    proof {
        if path@ == Seq::<usize>::empty() && argument_superposition(ev, tv, gv, i as int, from@, to@, j as int, side as int) {
            assert(s@ == Map::<u32, STerm>::empty());
        }
        if unifiable_superposition(ev, tv, gv, i as int, from@, to@, j as int, side as int, path@) {
            assert(most_general_unifier(from@, subterm@, s@));
        }
    }
    proof {
        assert(tv[j as int] == target@[j as int]@);
        assert(atom_side(tv[j as int].atom, side as int) == Some(base@));
        assert(unifies_at(tv, j as int, side as int, path@, from@, s@));
        assert(superposition_instance(ev, tv, i as int, from@, to@, j as int, side as int, path@, s@, clause_view(expected@)));
    }
    let ok = clause_alpha_equiv(&expected, goal) || clause_alpha_equiv(&condense_clause(&expected), &condense_clause(goal));
    if ok {
        return true;
    }
    if eq.len() == 1 {
        assert(ev[i as int] == eq@[i as int]@);
        match &eq[i].atom {
            Atom::Eq(unit_left, unit_right) => {
                if unit_rewrite_closure_matches(unit_left, unit_right, &expected, goal, limits) {
                    return true;
                }
            },
            _ => {},
        }
    }
    false
}

/// Superposition: the conclusion is the result of rewriting a subterm of
/// the second parent with an equation of the first, under a unifier; when
/// no such rewrite is found, the step is replayed modulo the problem's own
/// AC axioms (`background_commutative`, `background_associative`).
pub fn verify_superposition(
    parents: &[Formula],
    conclusion: &Formula,
    limits: VerificationLimits,
    background_commutative: &Vec<u32>,
    background_associative: &Vec<u32>,
) -> (v: KernelVerdict)
    ensures
        superposition_outcome(parents@, *conclusion, limits, background_commutative@.to_set(), background_associative@.to_set(), v@),
{
    if parents.len() != 2 {
        return rejected("superposition must have two parents");
    }
    superpose(&parents[0], &parents[1], conclusion, limits, background_commutative, background_associative)
}

/// Superposition of the equations of `eq_parent` into `target_parent`.
#[verifier::loop_isolation(false)]
fn superpose(
    eq_parent: &Formula,
    target_parent: &Formula,
    conclusion: &Formula,
    limits: VerificationLimits,
    bc: &Vec<u32>,
    ba: &Vec<u32>,
) -> (v: KernelVerdict)
    ensures
        superposition_pair_outcome(*eq_parent, *target_parent, *conclusion, limits, bc@.to_set(), ba@.to_set(), v@),
{
    let equation_clause = match clause_from_formula(eq_parent, limits) {
        Some(c) => c,
        None => return inconclusive("superposition equality parent is not a supported clause"),
    };
    let mut target_clause = match clause_from_formula(target_parent, limits) {
        Some(c) => c,
        None => return inconclusive("superposition target parent is not a supported clause"),
    };
    let goal = match clause_from_formula(conclusion, limits) {
        Some(c) => c,
        None => return inconclusive("superposition conclusion is not a supported clause"),
    };
    let target_shift = max_var_clause(&equation_clause).saturating_add(1);
    shift_clause(&mut target_clause, target_shift);
    let ghost ev = clause_view(equation_clause@);
    let ghost tv = clause_view(target_clause@);
    let ghost gv = clause_view(goal@);
    let mut i: usize = 0;
    while i < equation_clause.len()
        invariant
            0 <= i <= equation_clause@.len(),
            ev == clause_view(equation_clause@),
            tv == clause_view(target_clause@),
            gv == clause_view(goal@),
            forall|i0: int, from: STerm, to: STerm, j: int, side: int| 0 <= i0 < i
                ==> !#[trigger] argument_superposition(ev, tv, gv, i0, from, to, j, side),
            forall|i0: int, from: STerm, to: STerm, j: int, side: int, path: Seq<usize>| 0 <= i0 < i
                ==> !#[trigger] unifiable_superposition(ev, tv, gv, i0, from, to, j, side, path),
        decreases equation_clause.len() - i,
    {
        assert(ev[i as int] == equation_clause@[i as int]@);
        if equation_clause[i].positive {
            match &equation_clause[i].atom {
                Atom::Eq(left, right) => {
                    let mut dir: usize = 0;
                    while dir < 2
                        invariant
                            0 <= dir <= 2,
                            i < equation_clause@.len(),
                            ev == clause_view(equation_clause@),
                            ev[i as int].positive,
                            ev[i as int].atom == SAtom::Eq(left@, right@),
                            tv == clause_view(target_clause@),
                            gv == clause_view(goal@),
                            forall|from: STerm, to: STerm, j: int, side: int|
                                ((dir >= 1 && from == left@ && to == right@) || (dir >= 2 && from == right@ && to == left@))
                                ==> !#[trigger] argument_superposition(ev, tv, gv, i as int, from, to, j, side),
                            forall|from: STerm, to: STerm, j: int, side: int, path: Seq<usize>|
                                ((dir >= 1 && from == left@ && to == right@) || (dir >= 2 && from == right@ && to == left@))
                                ==> !#[trigger] unifiable_superposition(ev, tv, gv, i as int, from, to, j, side, path),
                        decreases 2 - dir,
                    {
                        let (from, to) = if dir == 0 { (left, right) } else { (right, left) };
                        let from_is_var = match from {
                            Term::Var(_) => true,
                            _ => false,
                        };
                        if !from_is_var {
                            let mut j: usize = 0;
                            while j < target_clause.len()
                                invariant
                                    0 <= j <= target_clause@.len(),
                                    i < equation_clause@.len(),
                                    ev == clause_view(equation_clause@),
                                    oriented_equation(ev, i as int, from@, to@),
                                    tv == clause_view(target_clause@),
                                    gv == clause_view(goal@),
                                    forall|j0: int, side: int| 0 <= j0 < j
                                        ==> !#[trigger] argument_superposition(ev, tv, gv, i as int, from@, to@, j0, side),
                                    forall|j0: int, side: int, path: Seq<usize>| 0 <= j0 < j
                                        ==> !#[trigger] unifiable_superposition(ev, tv, gv, i as int, from@, to@, j0, side, path),
                                decreases target_clause.len() - j,
                            {
                                let positions = atom_term_positions(&target_clause[j].atom);
                                let mut pi: usize = 0;
                                while pi < positions.len()
                                    invariant
                                        0 <= pi <= positions@.len(),
                                        j < target_clause@.len(),
                                        i < equation_clause@.len(),
                                        ev == clause_view(equation_clause@),
                                        oriented_equation(ev, i as int, from@, to@),
                                        forall|k: int| 0 <= k < positions@.len() ==> #[trigger] atom_position(target_clause@[j as int]@.atom, positions@[k].0 as int, positions@[k].1@),
                                        tv == clause_view(target_clause@),
                                        gv == clause_view(goal@),
                                        forall|k: int| 0 <= k < pi && #[trigger] positions@[k].1@ == Seq::<usize>::empty()
                                            ==> !argument_superposition(ev, tv, gv, i as int, from@, to@, j as int, positions@[k].0 as int),
                                        forall|k: int| 0 <= k < pi ==> !unifiable_superposition(ev, tv, gv, i as int, from@, to@, j as int,
                                            #[trigger] positions@[k].0 as int, positions@[k].1@),
                                    decreases positions.len() - pi,
                                {
                                    assert(atom_position(target_clause@[j as int]@.atom, positions@[pi as int].0 as int, positions@[pi as int].1@));
                                    if superposition_candidate(&equation_clause, i, from, to, &target_clause, j,
                                        positions[pi].0, &positions[pi].1, &goal, limits) {
                                        return KernelVerdict::Certified;
                                    }
                                    pi = pi + 1;
                                }
                                proof {
                                    assert forall|side: int, path: Seq<usize>|
                                        !#[trigger] unifiable_superposition(ev, tv, gv, i as int, from@, to@, j as int, side, path) by {
                                        if unifiable_superposition(ev, tv, gv, i as int, from@, to@, j as int, side, path) {
                                            assert(tv[j as int] == target_clause@[j as int]@);
                                            assert(atom_position(target_clause@[j as int]@.atom, side, path));
                                            let k = choose|k: int| 0 <= k < positions@.len() && positions@[k].0 == side
                                                && #[trigger] positions@[k].1@ == path;
                                        }
                                    }
                                    assert forall|side: int| !#[trigger] argument_superposition(ev, tv, gv, i as int, from@, to@, j as int, side) by {
                                        if argument_superposition(ev, tv, gv, i as int, from@, to@, j as int, side) {
                                            assert(tv[j as int] == target_clause@[j as int]@);
                                            assert(atom_position(target_clause@[j as int]@.atom, side, Seq::<usize>::empty()));
                                            let k = choose|k: int| 0 <= k < positions@.len() && positions@[k].0 == side
                                                && #[trigger] positions@[k].1@ == Seq::<usize>::empty();
                                        }
                                    }
                                }
                                j = j + 1;
                            }
                        }
                        proof {
                            assert forall|j0: int, side: int, path: Seq<usize>|
                                !#[trigger] unifiable_superposition(ev, tv, gv, i as int, from@, to@, j0, side, path) by {
                                if unifiable_superposition(ev, tv, gv, i as int, from@, to@, j0, side, path) {
                                    assert(0 <= j0 < tv.len());
                                }
                            }
                            assert forall|j0: int, side: int| !#[trigger] argument_superposition(ev, tv, gv, i as int, from@, to@, j0, side) by {
                                if argument_superposition(ev, tv, gv, i as int, from@, to@, j0, side) {
                                    assert(0 <= j0 < tv.len());
                                }
                            }
                        }
                        dir = dir + 1;
                    }
                    proof {
                        assert forall|from: STerm, to: STerm, j: int, side: int, path: Seq<usize>|
                            !#[trigger] unifiable_superposition(ev, tv, gv, i as int, from, to, j, side, path) by {
                            if unifiable_superposition(ev, tv, gv, i as int, from, to, j, side, path) {
                                assert(oriented_equation(ev, i as int, from, to));
                            }
                        }
                        assert forall|from: STerm, to: STerm, j: int, side: int|
                            !#[trigger] argument_superposition(ev, tv, gv, i as int, from, to, j, side) by {
                            if argument_superposition(ev, tv, gv, i as int, from, to, j, side) {
                                assert(oriented_equation(ev, i as int, from, to));
                            }
                        }
                    }
                },
                _ => {},
            }
        }
        i = i + 1;
    }
    if background_ac_fallback(eq_parent, target_parent, &goal, limits, bc, ba) {
        return KernelVerdict::Certified;
    }
    rejected("superposition conclusion is not a valid rewrite")
}

/// A verdict that a superposition attempt may give without any rewrite
/// being found.
pub open spec fn pair_outcome_fallback(eq_parent: Formula, target_parent: Formula, conclusion: Formula, limits: VerificationLimits) -> VerdictView {
    let n = limits.max_clause_literals;
    if clause_of(eq_parent, n) is None {
        VerdictView::Inconclusive("superposition equality parent is not a supported clause"@)
    } else if clause_of(target_parent, n) is None {
        VerdictView::Inconclusive("superposition target parent is not a supported clause"@)
    } else if clause_of(conclusion, n) is None {
        VerdictView::Inconclusive("superposition conclusion is not a supported clause"@)
    } else {
        VerdictView::Rejected("superposition conclusion is not a valid rewrite"@)
    }
}

/// The verdict of `paramodulation`: superposition of the first parent into
/// the second, else of the second into the first; when neither certifies,
/// the first attempt's verdict if it was inconclusive, else the second's.
pub open spec fn paramodulation_outcome(
    parents: Seq<Formula>,
    conclusion: Formula,
    limits: VerificationLimits,
    bc: Set<u32>,
    ba: Set<u32>,
    v: VerdictView,
) -> bool {
    if parents.len() != 2 {
        v == VerdictView::Rejected("paramodulation must have two parents"@)
    } else {
        exists|v1: VerdictView, v2: VerdictView|
            #[trigger] superposition_pair_outcome(parents[0], parents[1], conclusion, limits, bc, ba, v1)
            && #[trigger] superposition_pair_outcome(parents[1], parents[0], conclusion, limits, bc, ba, v2)
            && v == if v1 == VerdictView::Certified {
                v1
            } else if v2 == VerdictView::Certified {
                v2
            } else if v1 is Inconclusive {
                v1
            } else {
                v2
            }
    }
}

/// Paramodulation: superposition with the parents in either order.
pub fn verify_paramodulation(
    parents: &[Formula],
    conclusion: &Formula,
    limits: VerificationLimits,
    background_commutative: &Vec<u32>,
    background_associative: &Vec<u32>,
) -> (v: KernelVerdict)
    ensures
        paramodulation_outcome(parents@, *conclusion, limits, background_commutative@.to_set(), background_associative@.to_set(), v@),
{
    let ghost bc = background_commutative@.to_set();
    let ghost ba = background_associative@.to_set();
    if parents.len() != 2 {
        return rejected("paramodulation must have two parents");
    }
    let first = superpose(&parents[0], &parents[1], conclusion, limits, background_commutative, background_associative);
    let ghost v1 = first@;
    if first.is_certified() {
        proof {
            let n = limits.max_clause_literals;
            let fallback = pair_outcome_fallback(parents@[1], parents@[0], *conclusion, limits);
            let w = if clause_of(parents@[1], n) is Some && clause_of(parents@[0], n) is Some && clause_of(*conclusion, n) is Some {
                let eq = clause_of(parents@[1], n)->Some_0;
                let target = shift_sclause(clause_of(parents@[0], n)->Some_0, shift_var(clause_max_var(eq), 1));
                let goal = clause_of(*conclusion, n)->Some_0;
                if exists|i: int, from: STerm, to: STerm, j: int, side: int|
                    #[trigger] argument_superposition(eq, target, goal, i, from, to, j, side) {
                    let (i, from, to, j, side) = choose|i: int, from: STerm, to: STerm, j: int, side: int|
                        #[trigger] argument_superposition(eq, target, goal, i, from, to, j, side);
                    lemma_argument_superposition_accepts(eq, target, goal, i, from, to, j, side);
                    VerdictView::Certified
                } else if exists|i: int, from: STerm, to: STerm, j: int, side: int, path: Seq<usize>|
                    #[trigger] unifiable_superposition(eq, target, goal, i, from, to, j, side, path) {
                    let (i, from, to, j, side, path) = choose|i: int, from: STerm, to: STerm, j: int, side: int, path: Seq<usize>|
                        #[trigger] unifiable_superposition(eq, target, goal, i, from, to, j, side, path);
                    lemma_unifiable_superposition_accepts(eq, target, goal, i, from, to, j, side, path);
                    VerdictView::Certified
                } else {
                    fallback
                }
            } else {
                fallback
            };
            assert(superposition_pair_outcome(parents@[1], parents@[0], *conclusion, limits, bc, ba, w));
            assert(superposition_pair_outcome(parents@[0], parents@[1], *conclusion, limits, bc, ba, v1));
        }
        return first;
    }
    let second = superpose(&parents[1], &parents[0], conclusion, limits, background_commutative, background_associative);
    let ghost v2 = second@;
    assert(superposition_pair_outcome(parents@[0], parents@[1], *conclusion, limits, bc, ba, v1));
    assert(superposition_pair_outcome(parents@[1], parents@[0], *conclusion, limits, bc, ba, v2));
    let first_inconclusive = match first {
        KernelVerdict::Inconclusive(_) => true,
        _ => false,
    };
    if second.is_certified() {
        second
    } else if first_inconclusive {
        first
    } else {
        second
    }
}

} // verus!
