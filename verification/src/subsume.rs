//! Clause subsumption by one-way matching. The target's variables are
//! rigid; only variables from `min` up (the pattern renamed apart) may be
//! bound.
use vstd::prelude::*;
use crate::term::{Term, Atom, Literal, STerm, SAtom, SLiteral, terms_view, lemma_terms_view, copy_term, clause_view, occurs_in, occurs_in_all};
use crate::subst::{Subst, subst_term, subst_terms, lemma_subst_terms, term_eq, lemma_take_push, lemma_take_all, lemma_terms_view_take, bindings_map};
use crate::instance::{shift_var, shift_sterm, shift_sterms, shift_satom, shift_sclause, shift_clause, max_var_clause, clause_max_var};

verus! {

/// Only variables from `min` up are bound.
pub open spec fn binds_above(s: Map<u32, STerm>, min: u32) -> bool {
    forall|v: u32| #[trigger] s.contains_key(v) ==> v >= min
}

/// Every variable of `t` from `min` up is bound.
pub open spec fn covers(t: STerm, s: Map<u32, STerm>, min: u32) -> bool {
    forall|v: u32| occurs_in(v, t) && v >= min ==> #[trigger] s.contains_key(v)
}

/// Matching with rigid variables below `min`: the extension of `s` that
/// makes `p` equal to `t`.
pub open spec fn rigid_match(p: STerm, t: STerm, s: Map<u32, STerm>, min: u32) -> Option<Map<u32, STerm>>
    decreases p,
{
    match p {
        STerm::Var(v) => if v >= min {
            if s.contains_key(v) {
                if s[v] == t {
                    Some(s)
                } else {
                    None
                }
            } else {
                Some(s.insert(v, t))
            }
        } else if t == STerm::Var(v) {
            Some(s)
        } else {
            None
        },
        STerm::App(f, ps) => match t {
            STerm::App(g, ts) => if f == g && ps.len() == ts.len() {
                rigid_match_all(ps, ts, s, min)
            } else {
                None
            },
            STerm::Var(_) => None,
        },
    }
}

pub open spec fn rigid_match_all(ps: Seq<STerm>, ts: Seq<STerm>, s: Map<u32, STerm>, min: u32) -> Option<Map<u32, STerm>>
    decreases ps,
{
    if ps.len() == 0 {
        Some(s)
    } else {
        match rigid_match_all(ps.drop_last(), ts.drop_last(), s, min) {
            None => None,
            Some(s1) => rigid_match(ps.last(), ts.last(), s1, min),
        }
    }
}

proof fn lemma_occurs_in_all_at(v: u32, ts: Seq<STerm>)
    ensures
        occurs_in_all(v, ts) <==> exists|i: int| 0 <= i < ts.len() && occurs_in(v, #[trigger] ts[i]),
    decreases ts.len(),
{
    if ts.len() > 0 {
        lemma_occurs_in_all_at(v, ts.drop_last());
        if occurs_in_all(v, ts.drop_last()) {
            let i = choose|i: int| 0 <= i < ts.drop_last().len() && occurs_in(v, #[trigger] ts.drop_last()[i]);
            assert(ts[i] == ts.drop_last()[i]);
        }
        if exists|i: int| 0 <= i < ts.len() && occurs_in(v, #[trigger] ts[i]) {
            let i = choose|i: int| 0 <= i < ts.len() && occurs_in(v, #[trigger] ts[i]);
            if i < ts.len() - 1 {
                assert(ts.drop_last()[i] == ts[i]);
            }
        }
    }
}

/// A larger substitution binding nothing new among the term's variables
/// instantiates the term alike.
pub proof fn lemma_subst_stable(t: STerm, s1: Map<u32, STerm>, s2: Map<u32, STerm>, min: u32)
    requires
        s1.submap_of(s2),
        binds_above(s2, min),
        covers(t, s1, min),
    ensures
        subst_term(t, s1) == subst_term(t, s2),
    decreases t,
{
    match t {
        STerm::Var(v) => {
            assert(occurs_in(v, t));
            if v < min {
                assert(!s2.contains_key(v));
            }
        },
        STerm::App(f, args) => {
            lemma_subst_terms(args, s1);
            lemma_subst_terms(args, s2);
            assert forall|i: int| 0 <= i < args.len() implies subst_term(args[i], s1) == subst_term(#[trigger] args[i], s2) by {
                assert forall|v: u32| occurs_in(v, args[i]) && v >= min implies #[trigger] s1.contains_key(v) by {
                    lemma_occurs_in_all_at(v, args);
                    assert(occurs_in(v, t));
                }
                lemma_subst_stable(args[i], s1, s2, min);
            }
            assert(subst_terms(args, s1) =~= subst_terms(args, s2));
        },
    }
}

/// Rigid matching extends the substitution, binds only from `min` up,
/// covers the pattern and instantiates it to the target.
pub proof fn lemma_rigid_match_sound(p: STerm, t: STerm, s: Map<u32, STerm>, min: u32)
    requires
        binds_above(s, min),
    ensures
        rigid_match(p, t, s, min) matches Some(m) ==> s.submap_of(m) && binds_above(m, min) && covers(p, m, min)
            && subst_term(p, m) == t,
    decreases p,
{
    match p {
        STerm::Var(v) => {},
        STerm::App(f, ps) => {
            if let STerm::App(g, ts) = t {
                if f == g && ps.len() == ts.len() {
                    lemma_rigid_match_all_sound(ps, ts, s, min);
                    if let Some(m) = rigid_match(p, t, s, min) {
                        lemma_subst_terms(ps, m);
                        assert(subst_terms(ps, m) =~= ts);
                        assert forall|v: u32| occurs_in(v, p) && v >= min implies #[trigger] m.contains_key(v) by {
                            lemma_occurs_in_all_at(v, ps);
                        }
                    }
                }
            }
        },
    }
}

proof fn lemma_rigid_match_all_sound(ps: Seq<STerm>, ts: Seq<STerm>, s: Map<u32, STerm>, min: u32)
    requires
        ps.len() == ts.len(),
        binds_above(s, min),
    ensures
        rigid_match_all(ps, ts, s, min) matches Some(m) ==> s.submap_of(m) && binds_above(m, min)
            && forall|i: int| 0 <= i < ps.len() ==> covers(#[trigger] ps[i], m, min) && subst_term(ps[i], m) == ts[i],
    decreases ps,
{
    if ps.len() > 0 {
        lemma_rigid_match_all_sound(ps.drop_last(), ts.drop_last(), s, min);
        if let Some(s1) = rigid_match_all(ps.drop_last(), ts.drop_last(), s, min) {
            lemma_rigid_match_sound(ps.last(), ts.last(), s1, min);
            if let Some(m) = rigid_match(ps.last(), ts.last(), s1, min) {
                vstd::map_lib::lemma_submap_of_trans(s, s1, m);
                assert forall|i: int| 0 <= i < ps.len() implies covers(#[trigger] ps[i], m, min) && subst_term(ps[i], m) == ts[i] by {
                    if i == ps.len() - 1 {
                        assert(ps[i] == ps.last());
                        assert(ts[i] == ts.last());
                    } else {
                        assert(ps.drop_last()[i] == ps[i]);
                        assert(ts.drop_last()[i] == ts[i]);
                        lemma_subst_stable(ps[i], s1, m, min);
                        assert forall|v: u32| occurs_in(v, ps[i]) && v >= min implies #[trigger] m.contains_key(v) by {
                            assert(s1.contains_key(v));
                        }
                    }
                }
            }
        }
    }
}

proof fn lemma_rigid_match_all_push(ps: Seq<STerm>, ts: Seq<STerm>, p: STerm, t: STerm, s: Map<u32, STerm>, min: u32)
    ensures
        rigid_match_all(ps.push(p), ts.push(t), s, min) == (match rigid_match_all(ps, ts, s, min) {
            None => None,
            Some(s1) => rigid_match(p, t, s1, min),
        }),
{
    assert(ps.push(p).drop_last() == ps);
    assert(ts.push(t).drop_last() == ts);
}

proof fn lemma_rigid_match_all_fails(ps: Seq<STerm>, ts: Seq<STerm>, s: Map<u32, STerm>, min: u32, k: int)
    requires
        0 <= k <= ps.len(),
        ps.len() == ts.len(),
        rigid_match_all(ps.take(k), ts.take(k), s, min) is None,
    ensures
        rigid_match_all(ps, ts, s, min) is None,
    decreases ps.len() - k,
{
    if k < ps.len() {
        assert(ps.take(k + 1).drop_last() == ps.take(k));
        assert(ts.take(k + 1).drop_last() == ts.take(k));
        lemma_rigid_match_all_fails(ps, ts, s, min, k + 1);
    } else {
        assert(ps.take(k) == ps);
        assert(ts.take(k) == ts);
    }
}

/// Matches `pattern` against `target` with variables below `min` rigid.
pub fn match_subsumption_term(pattern: &Term, target: &Term, substitution: &mut Subst, min: u32) -> (r: bool)
    ensures
        match rigid_match(pattern@, target@, old(substitution)@, min) {
            Some(m) => r && final(substitution)@ == m,
            None => !r,
        },
    decreases pattern,
{
    match pattern {
        Term::Var(v) => {
            if *v >= min {
                match substitution.get(*v) {
                    Some(existing) => term_eq(existing, target),
                    None => {
                        let c = copy_term(target);
                        substitution.bind(*v, c);
                        true
                    },
                }
            } else {
                match target {
                    Term::Var(w) => *w == *v,
                    Term::App(_, _) => false,
                }
            }
        },
        Term::App(f, ps) => match target {
            Term::App(g, ts) => {
                proof {
                    lemma_terms_view(ps@);
                    lemma_terms_view(ts@);
                }
                if *f != *g || ps.len() != ts.len() {
                    return false;
                }
                let ghost s0 = substitution@;
                let mut i: usize = 0;
                assert(terms_view(ps@.take(0)) =~= Seq::<STerm>::empty());
                assert(terms_view(ts@.take(0)) =~= Seq::<STerm>::empty());
                while i < ps.len()
                    invariant
                        0 <= i <= ps.len(),
                        ps.len() == ts.len(),
                        *pattern is App,
                        (*pattern)->App_1 == *ps,
                        *target is App,
                        (*target)->App_1 == *ts,
                        (*pattern)->App_0 == (*target)->App_0,
                        s0 == old(substitution)@,
                        rigid_match_all(terms_view(ps@.take(i as int)), terms_view(ts@.take(i as int)), s0, min) == Some(substitution@),
                    decreases ps.len() - i,
                {
                    proof {
                        assert(decreases_to!(*pattern => (*pattern)->App_1));
                        assert(decreases_to!((*pattern)->App_1 => (*pattern)->App_1@));
                        assert(decreases_to!(ps@ => ps@[i as int]));
                        lemma_take_push(ps@, i as int);
                        lemma_take_push(ts@, i as int);
                        crate::subst::lemma_terms_view_push(ps@.take(i as int), ps@[i as int]);
                        crate::subst::lemma_terms_view_push(ts@.take(i as int), ts@[i as int]);
                        lemma_rigid_match_all_push(terms_view(ps@.take(i as int)), terms_view(ts@.take(i as int)), ps@[i as int]@, ts@[i as int]@, s0, min);
                    }
                    if !match_subsumption_term(&ps[i], &ts[i], substitution, min) {
                        proof {
                            lemma_terms_view(ps@);
                            lemma_terms_view(ts@);
                            lemma_terms_view_take(ps@, i as int + 1);
                            lemma_terms_view_take(ts@, i as int + 1);
                            lemma_rigid_match_all_fails(terms_view(ps@), terms_view(ts@), s0, min, i as int + 1);
                        }
                        return false;
                    }
                    i = i + 1;
                }
                proof {
                    lemma_take_all(ps@);
                    lemma_take_all(ts@);
                }
                true
            },
            Term::Var(_) => false,
        },
    }
}

/// Matches two argument lists pairwise with variables below `min` rigid.
pub fn match_subsumption_terms(ps: &Vec<Term>, ts: &Vec<Term>, substitution: &mut Subst, min: u32) -> (r: bool)
    requires
        ps@.len() == ts@.len(),
    ensures
        match rigid_match_all(terms_view(ps@), terms_view(ts@), old(substitution)@, min) {
            Some(m) => r && final(substitution)@ == m,
            None => !r,
        },
{
    let ghost s0 = substitution@;
    let mut i: usize = 0;
    assert(terms_view(ps@.take(0)) =~= Seq::<STerm>::empty());
    assert(terms_view(ts@.take(0)) =~= Seq::<STerm>::empty());
    while i < ps.len()
        invariant
            0 <= i <= ps.len(),
            ps.len() == ts.len(),
            s0 == old(substitution)@,
            rigid_match_all(terms_view(ps@.take(i as int)), terms_view(ts@.take(i as int)), s0, min) == Some(substitution@),
        decreases ps.len() - i,
    {
        proof {
            lemma_take_push(ps@, i as int);
            lemma_take_push(ts@, i as int);
            crate::subst::lemma_terms_view_push(ps@.take(i as int), ps@[i as int]);
            crate::subst::lemma_terms_view_push(ts@.take(i as int), ts@[i as int]);
            lemma_rigid_match_all_push(terms_view(ps@.take(i as int)), terms_view(ts@.take(i as int)), ps@[i as int]@, ts@[i as int]@, s0, min);
        }
        if !match_subsumption_term(&ps[i], &ts[i], substitution, min) {
            proof {
                lemma_terms_view(ps@);
                lemma_terms_view(ts@);
                lemma_terms_view_take(ps@, i as int + 1);
                lemma_terms_view_take(ts@, i as int + 1);
                lemma_rigid_match_all_fails(terms_view(ps@), terms_view(ts@), s0, min, i as int + 1);
            }
            return false;
        }
        i = i + 1;
    }
    proof {
        lemma_take_all(ps@);
        lemma_take_all(ts@);
    }
    true
}

/// Rigid matching of atoms; an equation is matched as written, or else
/// flipped.
pub open spec fn atom_rigid_match(p: SAtom, t: SAtom, s: Map<u32, STerm>, min: u32) -> Option<Map<u32, STerm>> {
    match (p, t) {
        (SAtom::Pred(ps, pargs), SAtom::Pred(ts, targs)) => if ps == ts && pargs.len() == targs.len() {
            rigid_match_all(pargs, targs, s, min)
        } else {
            None
        },
        (SAtom::Eq(pl, pr), SAtom::Eq(tl, tr)) => {
            let direct = match rigid_match(pl, tl, s, min) {
                Some(s1) => rigid_match(pr, tr, s1, min),
                None => None,
            };
            match direct {
                Some(m) => Some(m),
                None => match rigid_match(pl, tr, s, min) {
                    Some(s1) => rigid_match(pr, tl, s1, min),
                    None => None,
                },
            }
        },
        _ => None,
    }
}

/// `s` instantiates atom `p` to atom `t`, an equation possibly flipped.
pub open spec fn atom_instance(p: SAtom, t: SAtom, s: Map<u32, STerm>) -> bool {
    match (p, t) {
        (SAtom::Pred(ps, pargs), SAtom::Pred(ts, targs)) => ps == ts && subst_terms(pargs, s) == targs,
        (SAtom::Eq(pl, pr), SAtom::Eq(tl, tr)) => (subst_term(pl, s) == tl && subst_term(pr, s) == tr)
            || (subst_term(pl, s) == tr && subst_term(pr, s) == tl),
        _ => false,
    }
}

/// Every variable of the atom from `min` up is bound.
pub open spec fn covers_atom(p: SAtom, s: Map<u32, STerm>, min: u32) -> bool {
    match p {
        SAtom::Pred(_, args) => forall|i: int| 0 <= i < args.len() ==> covers(#[trigger] args[i], s, min),
        SAtom::Eq(l, r) => covers(l, s, min) && covers(r, s, min),
    }
}

pub proof fn lemma_atom_rigid_match_sound(p: SAtom, t: SAtom, s: Map<u32, STerm>, min: u32)
    requires
        binds_above(s, min),
    ensures
        atom_rigid_match(p, t, s, min) matches Some(m) ==> s.submap_of(m) && binds_above(m, min) && covers_atom(p, m, min)
            && atom_instance(p, t, m),
{
    match (p, t) {
        (SAtom::Pred(ps, pargs), SAtom::Pred(ts, targs)) => {
            if ps == ts && pargs.len() == targs.len() {
                lemma_rigid_match_all_sound(pargs, targs, s, min);
                if let Some(m) = rigid_match_all(pargs, targs, s, min) {
                    lemma_subst_terms(pargs, m);
                    assert(subst_terms(pargs, m) =~= targs);
                }
            }
        },
        (SAtom::Eq(pl, pr), SAtom::Eq(tl, tr)) => {
            lemma_rigid_match_sound(pl, tl, s, min);
            lemma_rigid_match_sound(pl, tr, s, min);
            if let Some(s1) = rigid_match(pl, tl, s, min) {
                lemma_rigid_match_sound(pr, tr, s1, min);
                if let Some(m) = rigid_match(pr, tr, s1, min) {
                    vstd::map_lib::lemma_submap_of_trans(s, s1, m);
                    lemma_subst_stable(pl, s1, m, min);
                    assert forall|v: u32| occurs_in(v, pl) && v >= min implies #[trigger] m.contains_key(v) by {
                        assert(s1.contains_key(v));
                    }
                }
            }
            if let Some(s1) = rigid_match(pl, tr, s, min) {
                lemma_rigid_match_sound(pr, tl, s1, min);
                if let Some(m) = rigid_match(pr, tl, s1, min) {
                    vstd::map_lib::lemma_submap_of_trans(s, s1, m);
                    lemma_subst_stable(pl, s1, m, min);
                    assert forall|v: u32| occurs_in(v, pl) && v >= min implies #[trigger] m.contains_key(v) by {
                        assert(s1.contains_key(v));
                    }
                }
            }
        },
        _ => {},
    }
}

/// An atom instance is kept by a larger substitution binding only from
/// `min` up.
pub proof fn lemma_atom_instance_stable(p: SAtom, t: SAtom, s1: Map<u32, STerm>, s2: Map<u32, STerm>, min: u32)
    requires
        s1.submap_of(s2),
        binds_above(s2, min),
        covers_atom(p, s1, min),
        atom_instance(p, t, s1),
    ensures
        atom_instance(p, t, s2),
{
    match p {
        SAtom::Pred(_, args) => {
            lemma_subst_terms(args, s1);
            lemma_subst_terms(args, s2);
            assert forall|i: int| 0 <= i < args.len() implies subst_term(args[i], s1) == subst_term(#[trigger] args[i], s2) by {
                lemma_subst_stable(args[i], s1, s2, min);
            }
            assert(subst_terms(args, s1) =~= subst_terms(args, s2));
        },
        SAtom::Eq(l, r) => {
            lemma_subst_stable(l, s1, s2, min);
            lemma_subst_stable(r, s1, s2, min);
        },
    }
}

/// Matches atom `p` against `t`, extending a copy of `s`.
pub fn match_subsumption_atom(p: &Atom, t: &Atom, s: &Subst, min: u32) -> (r: Option<Subst>)
    ensures
        match atom_rigid_match(p@, t@, s@, min) {
            Some(m) => r matches Some(x) && x@ == m,
            None => r is None,
        },
{
    match (p, t) {
        (Atom::Pred(ps, pargs), Atom::Pred(ts, targs)) => {
            proof {
                lemma_terms_view(pargs@);
                lemma_terms_view(targs@);
            }
            if *ps != *ts || pargs.len() != targs.len() {
                return None;
            }
            let mut next = s.copy();
            if match_subsumption_terms(pargs, targs, &mut next, min) {
                Some(next)
            } else {
                None
            }
        },
        (Atom::Eq(pl, pr), Atom::Eq(tl, tr)) => {
            let mut next = s.copy();
            if match_subsumption_term(pl, tl, &mut next, min) {
                if match_subsumption_term(pr, tr, &mut next, min) {
                    return Some(next);
                }
            }
            let mut next = s.copy();
            if match_subsumption_term(pl, tr, &mut next, min) {
                if match_subsumption_term(pr, tl, &mut next, min) {
                    return Some(next);
                }
            }
            None
        },
        _ => None,
    }
}

/// `s` instantiates atom `p` to atom `t`, an equation with its sides as
/// written.
pub open spec fn direct_instance(p: SAtom, t: SAtom, s: Map<u32, STerm>) -> bool {
    match (p, t) {
        (SAtom::Pred(ps, pargs), SAtom::Pred(ts, targs)) => ps == ts && subst_terms(pargs, s) == targs,
        (SAtom::Eq(pl, pr), SAtom::Eq(tl, tr)) => subst_term(pl, s) == tl && subst_term(pr, s) == tr,
        _ => false,
    }
}

/// Every variable from `min` up is bound.
pub open spec fn binds_all_above(s: Map<u32, STerm>, min: u32) -> bool {
    forall|v: u32| v >= min ==> #[trigger] s.contains_key(v)
}

/// Rigid matching finds an extension of `s` inside any substitution that
/// extends `s`, binds only from `min` up, covers `p` and instantiates it to `t`.
pub proof fn lemma_rigid_match_complete(p: STerm, t: STerm, s: Map<u32, STerm>, w: Map<u32, STerm>, min: u32)
    requires
        s.submap_of(w),
        binds_above(w, min),
        covers(p, w, min),
        subst_term(p, w) == t,
    ensures
        rigid_match(p, t, s, min) matches Some(m) && m.submap_of(w),
    decreases p,
{
    match p {
        STerm::Var(v) => {
            assert(occurs_in(v, p));
            if v < min {
                assert(!w.contains_key(v));
            }
        },
        STerm::App(f, ps) => {
            lemma_subst_terms(ps, w);
            assert forall|i: int| 0 <= i < ps.len() implies covers(#[trigger] ps[i], w, min) by {
                assert forall|v: u32| occurs_in(v, ps[i]) && v >= min implies #[trigger] w.contains_key(v) by {
                    lemma_occurs_in_all_at(v, ps);
                    assert(occurs_in(v, p));
                }
            }
            lemma_rigid_match_all_complete(ps, subst_terms(ps, w), s, w, min);
        },
    }
}

proof fn lemma_rigid_match_all_complete(ps: Seq<STerm>, ts: Seq<STerm>, s: Map<u32, STerm>, w: Map<u32, STerm>, min: u32)
    requires
        s.submap_of(w),
        binds_above(w, min),
        ps.len() == ts.len(),
        forall|i: int| 0 <= i < ps.len() ==> covers(#[trigger] ps[i], w, min) && subst_term(ps[i], w) == ts[i],
    ensures
        rigid_match_all(ps, ts, s, min) matches Some(m) && m.submap_of(w),
    decreases ps,
{
    if ps.len() > 0 {
        assert forall|i: int| 0 <= i < ps.len() - 1 implies covers(#[trigger] ps.drop_last()[i], w, min)
            && subst_term(ps.drop_last()[i], w) == ts.drop_last()[i] by {
            assert(ps.drop_last()[i] == ps[i]);
        }
        lemma_rigid_match_all_complete(ps.drop_last(), ts.drop_last(), s, w, min);
        let s1 = rigid_match_all(ps.drop_last(), ts.drop_last(), s, min)->Some_0;
        assert(covers(ps[ps.len() - 1], w, min));
        lemma_rigid_match_complete(ps.last(), ts.last(), s1, w, min);
    }
}

/// Rigid matching of atoms finds an extension inside any substitution that
/// extends `s`, binds every variable from `min` up and nothing below, and
/// instantiates `p` to `t` with equations' sides as written.
pub proof fn lemma_atom_rigid_match_complete(p: SAtom, t: SAtom, s: Map<u32, STerm>, w: Map<u32, STerm>, min: u32)
    requires
        s.submap_of(w),
        binds_above(w, min),
        binds_all_above(w, min),
        direct_instance(p, t, w),
    ensures
        atom_rigid_match(p, t, s, min) matches Some(m) && m.submap_of(w),
{
    match (p, t) {
        (SAtom::Pred(_, pargs), SAtom::Pred(_, targs)) => {
            lemma_subst_terms(pargs, w);
            assert forall|i: int| 0 <= i < pargs.len() implies covers(#[trigger] pargs[i], w, min)
                && subst_term(pargs[i], w) == targs[i] by {
                assert(subst_terms(pargs, w)[i] == subst_term(pargs[i], w));
            }
            lemma_rigid_match_all_complete(pargs, targs, s, w, min);
        },
        (SAtom::Eq(pl, pr), SAtom::Eq(tl, tr)) => {
            lemma_rigid_match_complete(pl, tl, s, w, min);
            let s1 = rigid_match(pl, tl, s, min)->Some_0;
            lemma_rigid_match_complete(pr, tr, s1, w, min);
        },
        _ => {},
    }
}

/// The picks of `choice` instantiate each pattern atom from `idx` on with
/// equations' sides as written.
pub open spec fn direct_choice(
    pattern: Seq<SLiteral>,
    target: Seq<SLiteral>,
    idx: int,
    s: Map<u32, STerm>,
    choice: Seq<int>,
) -> bool {
    forall|k: int| 0 <= k < choice.len() ==> direct_instance(pattern[idx + k].atom, target[#[trigger] choice[k]].atom, s)
}

/// `choice` picks, for each pattern literal from `idx` on, a target literal
/// of the same sign that `s` instantiates it to; unless `reuse`, the picks
/// are pairwise different and avoid the target literals marked `used`.
pub open spec fn instance_choice(
    pattern: Seq<SLiteral>,
    target: Seq<SLiteral>,
    idx: int,
    s: Map<u32, STerm>,
    choice: Seq<int>,
    used: Seq<bool>,
    reuse: bool,
) -> bool {
    &&& 0 <= idx <= pattern.len()
    &&& choice.len() == pattern.len() - idx
    &&& forall|k: int| 0 <= k < choice.len() ==> 0 <= #[trigger] choice[k] < target.len()
        && pattern[idx + k].positive == target[choice[k]].positive
        && atom_instance(pattern[idx + k].atom, target[choice[k]].atom, s)
    &&& !reuse ==> (forall|k: int| 0 <= k < choice.len() ==> !used[#[trigger] choice[k]])
    &&& !reuse ==> (forall|k1: int, k2: int| 0 <= k1 < k2 < choice.len() ==> #[trigger] choice[k1] != #[trigger] choice[k2])
}

/// Pairs the pattern literals from `idx` on with target literals.
fn match_literals_from(
    idx: usize,
    pattern: &Vec<Literal>,
    target: &Vec<Literal>,
    s: &Subst,
    used: &mut Vec<bool>,
    steps: &mut usize,
    step_limit: usize,
    reuse: bool,
    min: u32,
) -> (r: Result<bool, ()>)
    requires
        idx <= pattern@.len(),
        old(used)@.len() == target@.len(),
        binds_above(s@, min),
    ensures
        final(used)@ == old(used)@,
        r == Ok::<bool, ()>(true) ==> exists|s2: Map<u32, STerm>, choice: Seq<int>| s@.submap_of(s2) && binds_above(s2, min)
            && #[trigger] instance_choice(clause_view(pattern@), clause_view(target@), idx as int, s2, choice, old(used)@, reuse),
        (exists|w: Map<u32, STerm>, choice: Seq<int>| s@.submap_of(w) && binds_above(w, min) && binds_all_above(w, min)
            && #[trigger] instance_choice(clause_view(pattern@), clause_view(target@), idx as int, w, choice, old(used)@, reuse)
            && direct_choice(clause_view(pattern@), clause_view(target@), idx as int, w, choice)) ==> r != Ok::<bool, ()>(false),
    decreases pattern@.len() - idx,
{
    let ghost pv = clause_view(pattern@);
    let ghost tv = clause_view(target@);
    let ghost has = exists|w: Map<u32, STerm>, choice: Seq<int>| s@.submap_of(w) && binds_above(w, min) && binds_all_above(w, min)
        && #[trigger] instance_choice(pv, tv, idx as int, w, choice, used@, reuse)
        && direct_choice(pv, tv, idx as int, w, choice);
    let ghost wc: (Map<u32, STerm>, Seq<int>) = choose|w: Map<u32, STerm>, choice: Seq<int>| s@.submap_of(w) && binds_above(w, min)
        && binds_all_above(w, min)
        && #[trigger] instance_choice(pv, tv, idx as int, w, choice, used@, reuse)
        && direct_choice(pv, tv, idx as int, w, choice);
    if idx == pattern.len() {
        assert(instance_choice(pv, tv, idx as int, s@, Seq::<int>::empty(), used@, reuse));
        return Ok(true);
    }
    if *steps >= step_limit {
        return Err(());
    }
    *steps = *steps + 1;
    let ghost u0 = used@;
    let n: usize = pattern.len();
    let mut m: usize = 0;
    while m < target.len()
        invariant
            0 <= m <= target.len(),
            idx < n,
            n == pattern@.len(),
            used@ == u0,
            u0 == old(used)@,
            u0.len() == target@.len(),
            binds_above(s@, min),
            pv == clause_view(pattern@),
            tv == clause_view(target@),
            has ==> s@.submap_of(wc.0) && binds_above(wc.0, min) && binds_all_above(wc.0, min)
                && instance_choice(pv, tv, idx as int, wc.0, wc.1, u0, reuse)
                && direct_choice(pv, tv, idx as int, wc.0, wc.1),
            has ==> m <= wc.1[0],
        decreases target.len() - m,
    {
        let ghost hit = has && m == wc.1[0];
        proof {
            if hit {
                assert(0 <= wc.1[0] < tv.len());
                assert(pv[idx as int] == pattern@[idx as int]@);
                assert(tv[m as int] == target@[m as int]@);
                assert(direct_instance(pv[idx as int + 0].atom, tv[wc.1[0]].atom, wc.0));
                lemma_atom_rigid_match_complete(pv[idx as int].atom, tv[m as int].atom, s@, wc.0, min);
            }
        }
        if (reuse || !used[m]) && pattern[idx].positive == target[m].positive {
            match match_subsumption_atom(&pattern[idx].atom, &target[m].atom, s, min) {
                Some(next) => {
                    proof {
                        lemma_atom_rigid_match_sound(pattern@[idx as int]@.atom, target@[m as int]@.atom, s@, min);
                    }
                    if !reuse {
                        used.set(m, true);
                    }
                    let ghost u1 = used@;
                    proof {
                        if hit {
                            let rest = wc.1.subrange(1, wc.1.len() as int);
                            assert forall|k: int| 0 <= k < rest.len() implies 0 <= #[trigger] rest[k] < tv.len()
                                && pv[idx + 1 + k].positive == tv[rest[k]].positive
                                && atom_instance(pv[idx + 1 + k].atom, tv[rest[k]].atom, wc.0)
                                && direct_instance(pv[idx + 1 + k].atom, tv[rest[k]].atom, wc.0) by {
                                assert(rest[k] == wc.1[k + 1]);
                                assert(idx + 1 + k == idx + (k + 1));
                            }
                            if !reuse {
                                assert forall|k: int| 0 <= k < rest.len() implies !u1[#[trigger] rest[k]] by {
                                    assert(rest[k] == wc.1[k + 1]);
                                    assert(wc.1[0] != wc.1[k + 1]);
                                }
                                assert forall|k1: int, k2: int| 0 <= k1 < k2 < rest.len() implies #[trigger] rest[k1] != #[trigger] rest[k2] by {
                                    assert(rest[k1] == wc.1[k1 + 1]);
                                    assert(rest[k2] == wc.1[k2 + 1]);
                                }
                            } else {
                                assert(u1 == u0);
                            }
                            assert(instance_choice(pv, tv, idx as int + 1, wc.0, rest, u1, reuse));
                            assert(direct_choice(pv, tv, idx as int + 1, wc.0, rest));
                        }
                    }
                    let matched = match_literals_from(idx + 1, pattern, target, &next, used, steps, step_limit, reuse, min);
                    if !reuse {
                        used.set(m, false);
                    }
                    assert(used@ =~= u0);
                    match matched {
                        Ok(true) => {
                            proof {
                                let (s2, c1) = choose|s2: Map<u32, STerm>, choice: Seq<int>| next@.submap_of(s2) && binds_above(s2, min)
                                    && #[trigger] instance_choice(pv, tv, idx as int + 1, s2, choice, u1, reuse);
                                let c = seq![m as int] + c1;
                                assert(pv[idx as int] == pattern@[idx as int]@);
                                assert(tv[m as int] == target@[m as int]@);
                                lemma_atom_instance_stable(pv[idx as int].atom, tv[m as int].atom, next@, s2, min);
                                vstd::map_lib::lemma_submap_of_trans(s@, next@, s2);
                                assert forall|k: int| 0 <= k < c.len() implies 0 <= #[trigger] c[k] < tv.len()
                                    && pv[idx + k].positive == tv[c[k]].positive
                                    && atom_instance(pv[idx + k].atom, tv[c[k]].atom, s2) by {
                                    if k > 0 {
                                        assert(c[k] == c1[k - 1]);
                                        assert(idx + k == (idx + 1) + (k - 1));
                                    }
                                }
                                if !reuse {
                                    assert forall|k: int| 0 <= k < c.len() implies !u0[#[trigger] c[k]] by {
                                        if k > 0 {
                                            assert(c[k] == c1[k - 1]);
                                            assert(!u1[c1[k - 1]]);
                                        }
                                    }
                                    assert forall|k1: int, k2: int| 0 <= k1 < k2 < c.len() implies #[trigger] c[k1] != #[trigger] c[k2] by {
                                        assert(c[k2] == c1[k2 - 1]);
                                        assert(!u1[c1[k2 - 1]]);
                                        if k1 > 0 {
                                            assert(c[k1] == c1[k1 - 1]);
                                        }
                                    }
                                }
                                assert(instance_choice(pv, tv, idx as int, s2, c, u0, reuse));
                            }
                            return Ok(true);
                        },
                        Ok(false) => {},
                        Err(()) => {
                            return Err(());
                        },
                    }
                },
                None => {},
            }
        }
        m = m + 1;
    }
    Ok(false)
}

/// No target literal used yet.
pub open spec fn none_used(n: nat) -> Seq<bool> {
    Seq::new(n, |i: int| false)
}

/// `pattern`, renamed apart from `target`, has an instance whose literals
/// all occur in `target`; unless `reuse`, distinct pattern literals go to
/// distinct target literals.
pub open spec fn subsumes(pattern: Seq<SLiteral>, target: Seq<SLiteral>, reuse: bool) -> bool {
    exists|s: Map<u32, STerm>, choice: Seq<int>| #[trigger] instance_choice(
        shift_sclause(pattern, shift_var(clause_max_var(target), 1)),
        target,
        0,
        s,
        choice,
        none_used(target.len()),
        reuse,
    )
}

/// Like `subsumes`, with each equation of the pattern instantiated with its
/// sides as written.
pub open spec fn subsumes_directly(pattern: Seq<SLiteral>, target: Seq<SLiteral>, reuse: bool) -> bool {
    let shifted = shift_sclause(pattern, shift_var(clause_max_var(target), 1));
    exists|s: Map<u32, STerm>, choice: Seq<int>|
        #[trigger] instance_choice(shifted, target, 0, s, choice, none_used(target.len()), reuse)
        && direct_choice(shifted, target, 0, s, choice)
}

/// Every variable of a shifted term is at least the shift.
proof fn lemma_shift_vars_above(t: STerm, k: u32, v: u32)
    ensures
        occurs_in(v, shift_sterm(t, k)) ==> v >= k,
    decreases t,
{
    match t {
        STerm::Var(_) => {},
        STerm::App(f, args) => {
            lemma_shift_vars_above_all(args, k, v);
        },
    }
}

proof fn lemma_shift_vars_above_all(ts: Seq<STerm>, k: u32, v: u32)
    ensures
        occurs_in_all(v, shift_sterms(ts, k)) ==> v >= k,
    decreases ts,
{
    if ts.len() > 0 {
        lemma_shift_vars_above_all(ts.drop_last(), k, v);
        lemma_shift_vars_above(ts.last(), k, v);
        let sh = shift_sterms(ts, k);
        assert(sh.drop_last() =~= shift_sterms(ts.drop_last(), k));
    }
}

/// `s` with its bindings below `min` dropped and every unbound variable from
/// `min` up bound to itself.
pub open spec fn bound_from(s: Map<u32, STerm>, min: u32) -> Map<u32, STerm> {
    Map::new(|v: u32| v >= min, |v: u32| subst_term(STerm::Var(v), s))
}

/// A term whose variables are all from `min` up is instantiated alike by
/// `s` and by `bound_from(s, min)`.
proof fn lemma_bound_from_term(t: STerm, s: Map<u32, STerm>, min: u32)
    requires
        forall|v: u32| #[trigger] occurs_in(v, t) ==> v >= min,
    ensures
        subst_term(t, bound_from(s, min)) == subst_term(t, s),
    decreases t,
{
    match t {
        STerm::Var(v) => {
            assert(occurs_in(v, t));
        },
        STerm::App(f, args) => {
            assert forall|v: u32| #[trigger] occurs_in_all(v, args) implies v >= min by {
                assert(occurs_in(v, t));
            }
            lemma_bound_from_terms(args, s, min);
        },
    }
}

proof fn lemma_bound_from_terms(ts: Seq<STerm>, s: Map<u32, STerm>, min: u32)
    requires
        forall|v: u32| #[trigger] occurs_in_all(v, ts) ==> v >= min,
    ensures
        subst_terms(ts, bound_from(s, min)) == subst_terms(ts, s),
    decreases ts,
{
    if ts.len() > 0 {
        assert forall|v: u32| #[trigger] occurs_in_all(v, ts.drop_last()) implies v >= min by {
            assert(occurs_in_all(v, ts));
        }
        assert forall|v: u32| #[trigger] occurs_in(v, ts.last()) implies v >= min by {
            assert(occurs_in_all(v, ts));
        }
        lemma_bound_from_terms(ts.drop_last(), s, min);
        lemma_bound_from_term(ts.last(), s, min);
    }
}

/// A shifted atom is instantiated alike by `s` and by `bound_from(s, k)`.
proof fn lemma_bound_from_shifted(a: SAtom, t: SAtom, s: Map<u32, STerm>, k: u32)
    ensures
        atom_instance(shift_satom(a, k), t, s) ==> atom_instance(shift_satom(a, k), t, bound_from(s, k)),
        direct_instance(shift_satom(a, k), t, s) ==> direct_instance(shift_satom(a, k), t, bound_from(s, k)),
{
    match a {
        SAtom::Pred(p, args) => {
            assert forall|v: u32| #[trigger] occurs_in_all(v, shift_sterms(args, k)) implies v >= k by {
                lemma_shift_vars_above_all(args, k, v);
            }
            lemma_bound_from_terms(shift_sterms(args, k), s, k);
        },
        SAtom::Eq(l, r) => {
            assert forall|v: u32| #[trigger] occurs_in(v, shift_sterm(l, k)) implies v >= k by {
                lemma_shift_vars_above(l, k, v);
            }
            assert forall|v: u32| #[trigger] occurs_in(v, shift_sterm(r, k)) implies v >= k by {
                lemma_shift_vars_above(r, k, v);
            }
            lemma_bound_from_term(shift_sterm(l, k), s, k);
            lemma_bound_from_term(shift_sterm(r, k), s, k);
        },
    }
}

/// Searches for an instance of `pattern` inside `target`, counting search
/// steps in `steps`; fails with `Err` once `step_limit` steps are spent.
pub fn match_subsumes(
    pattern: &Vec<Literal>,
    target: &Vec<Literal>,
    steps: &mut usize,
    step_limit: usize,
    allow_target_reuse: bool,
) -> (r: Result<bool, ()>)
    ensures
        !allow_target_reuse && pattern@.len() > target@.len() ==> r == Ok::<bool, ()>(false),
        r == Ok::<bool, ()>(true) ==> subsumes(clause_view(pattern@), clause_view(target@), allow_target_reuse),
        (allow_target_reuse || pattern@.len() <= target@.len())
            && subsumes_directly(clause_view(pattern@), clause_view(target@), allow_target_reuse) ==> r != Ok::<bool, ()>(false),
{
    if pattern.len() > target.len() && !allow_target_reuse {
        return Ok(false);
    }
    let shift = max_var_clause(target).saturating_add(1);
    let mut shifted = crate::clause::copy_clause(pattern);
    shift_clause(&mut shifted, shift);
    let mut used: Vec<bool> = Vec::new();
    let mut i: usize = 0;
    while i < target.len()
        invariant
            0 <= i <= target.len(),
            used@ == none_used(i as nat),
        decreases target.len() - i,
    {
        used.push(false);
        i = i + 1;
        assert(used@ =~= none_used(i as nat));
    }
    let empty = Subst::new();
    proof {
        let pv = clause_view(pattern@);
        let tv = clause_view(target@);
        let sv = clause_view(shifted@);
        assert(sv == shift_sclause(pv, shift_var(clause_max_var(tv), 1)));
        if subsumes_directly(pv, tv, allow_target_reuse) {
            let (w, c) = choose|w: Map<u32, STerm>, choice: Seq<int>|
                #[trigger] instance_choice(sv, tv, 0, w, choice, none_used(tv.len()), allow_target_reuse)
                && direct_choice(sv, tv, 0, w, choice);
            let b = bound_from(w, shift);
            assert forall|k: int| 0 <= k < c.len() implies 0 <= #[trigger] c[k] < tv.len()
                && sv[0 + k].positive == tv[c[k]].positive
                && atom_instance(sv[0 + k].atom, tv[c[k]].atom, b)
                && direct_instance(sv[0 + k].atom, tv[c[k]].atom, b) by {
                assert(sv[k].atom == shift_satom(pv[k].atom, shift));
                lemma_bound_from_shifted(pv[k].atom, tv[c[k]].atom, w, shift);
            }
            assert(instance_choice(sv, tv, 0, b, c, used@, allow_target_reuse));
            assert(direct_choice(sv, tv, 0, b, c));
            assert(empty@.submap_of(b));
        }
    }
    let r = match_literals_from(0, &shifted, target, &empty, &mut used, steps, step_limit, allow_target_reuse, shift);
    proof {
        if r == Ok::<bool, ()>(true) {
            let (s2, c) = choose|s2: Map<u32, STerm>, choice: Seq<int>| empty@.submap_of(s2) && binds_above(s2, shift)
                && #[trigger] instance_choice(clause_view(shifted@), clause_view(target@), 0, s2, choice, none_used(target@.len()), allow_target_reuse);
            assert(instance_choice(
                shift_sclause(clause_view(pattern@), shift_var(clause_max_var(clause_view(target@)), 1)),
                clause_view(target@), 0, s2, c, none_used(clause_view(target@).len()), allow_target_reuse));
        }
    }
    r
}

} // verus!
