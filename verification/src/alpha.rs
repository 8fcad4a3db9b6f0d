//! Alpha-equivalence: equality up to a one-to-one renaming of variables,
//! for terms, atoms (equations in either orientation) and clauses (literals
//! in any order).
use vstd::prelude::*;
use std::collections::HashMap;
use crate::term::{Term, Atom, Literal, STerm, SAtom, SLiteral, terms_view, lemma_terms_view, clause_view};
use crate::subst::lemma_terms_view_push;

verus! {

broadcast use vstd::std_specs::hash::group_hash_axioms;

/// A pair of renamings: variables of the left side to the right side, and back.
pub type Renaming = (Map<u32, u32>, Map<u32, u32>);

/// Extends the renaming so that `l` becomes `r`, if that is possible.
pub open spec fn term_alpha(l: STerm, r: STerm, m: Map<u32, u32>, rev: Map<u32, u32>) -> Option<Renaming>
    decreases l,
{
    match l {
        STerm::Var(a) => match r {
            STerm::Var(b) => if m.contains_key(a) {
                if m[a] == b {
                    Some((m, rev))
                } else {
                    None
                }
            } else if rev.contains_key(b) {
                None
            } else {
                Some((m.insert(a, b), rev.insert(b, a)))
            },
            _ => None,
        },
        STerm::App(f, ls) => match r {
            STerm::App(g, rs) => if f == g && ls.len() == rs.len() {
                terms_alpha(ls, rs, m, rev)
            } else {
                None
            },
            _ => None,
        },
    }
}

pub open spec fn terms_alpha(ls: Seq<STerm>, rs: Seq<STerm>, m: Map<u32, u32>, rev: Map<u32, u32>) -> Option<Renaming>
    decreases ls,
{
    if ls.len() == 0 {
        Some((m, rev))
    } else {
        match terms_alpha(ls.drop_last(), rs.drop_last(), m, rev) {
            None => None,
            Some((m1, r1)) => term_alpha(ls.last(), rs.last(), m1, r1),
        }
    }
}

/// Atoms match under an extension of the renaming; an equation may match
/// as written or flipped (the first that works is taken).
pub open spec fn atom_alpha(l: SAtom, r: SAtom, m: Map<u32, u32>, rev: Map<u32, u32>) -> Option<Renaming> {
    match (l, r) {
        (SAtom::Pred(p, ls), SAtom::Pred(q, rs)) => if p == q && ls.len() == rs.len() {
            terms_alpha(ls, rs, m, rev)
        } else {
            None
        },
        (SAtom::Eq(ll, lr), SAtom::Eq(rl, rr)) => match terms_alpha(seq![ll, lr], seq![rl, rr], m, rev) {
            Some(x) => Some(x),
            None => terms_alpha(seq![ll, lr], seq![rr, rl], m, rev),
        },
        _ => None,
    }
}

/// Left literals from `idx` on can be paired one-to-one with unused right
/// literals of the same sign, threading the renaming left to right.
pub open spec fn clause_alpha_from(
    idx: int,
    left: Seq<SLiteral>,
    right: Seq<SLiteral>,
    used: Seq<bool>,
    m: Map<u32, u32>,
    rev: Map<u32, u32>,
) -> bool
    decreases left.len() - idx, right.len() + 2,
{
    if idx < 0 || idx >= left.len() {
        true
    } else {
        alpha_candidates_from(idx, 0, left, right, used, m, rev)
    }
}

/// Some right literal at position `j` or later can be paired with left
/// literal `idx` so that the rest can be paired after it.
pub open spec fn alpha_candidates_from(
    idx: int,
    j: int,
    left: Seq<SLiteral>,
    right: Seq<SLiteral>,
    used: Seq<bool>,
    m: Map<u32, u32>,
    rev: Map<u32, u32>,
) -> bool
    decreases left.len() - idx, right.len() - j + 1,
{
    if idx < 0 || idx >= left.len() || j < 0 || j >= right.len() {
        false
    } else {
        alpha_candidate(idx, j, left, right, used, m, rev)
            || alpha_candidates_from(idx, j + 1, left, right, used, m, rev)
    }
}

/// Pairing left literal `idx` with right literal `j` works and the rest can
/// be paired after it.
pub open spec fn alpha_candidate(
    idx: int,
    j: int,
    left: Seq<SLiteral>,
    right: Seq<SLiteral>,
    used: Seq<bool>,
    m: Map<u32, u32>,
    rev: Map<u32, u32>,
) -> bool
    decreases left.len() - idx, 0int,
{
    if 0 <= idx < left.len() && 0 <= j < right.len() && j < used.len() && !used[j]
        && left[idx].positive == right[j].positive {
        match atom_alpha(left[idx].atom, right[j].atom, m, rev) {
            Some(x) => clause_alpha_from(idx + 1, left, right, used.update(j, true), x.0, x.1),
            None => false,
        }
    } else {
        false
    }
}

/// Two clauses are alpha-variants of each other.
pub open spec fn clause_alpha(left: Seq<SLiteral>, right: Seq<SLiteral>) -> bool {
    left.len() == right.len() && clause_alpha_from(
        0,
        left,
        right,
        Seq::new(right.len(), |i: int| false),
        Map::empty(),
        Map::empty(),
    )
}

proof fn lemma_terms_alpha_push(ls: Seq<STerm>, rs: Seq<STerm>, l: STerm, r: STerm, m: Map<u32, u32>, rev: Map<u32, u32>)
    ensures
        terms_alpha(ls.push(l), rs.push(r), m, rev) == (match terms_alpha(ls, rs, m, rev) {
            None => None,
            Some(x) => term_alpha(l, r, x.0, x.1),
        }),
{
    assert(ls.push(l).drop_last() == ls);
    assert(rs.push(r).drop_last() == rs);
}

proof fn lemma_terms_alpha_fails(ls: Seq<STerm>, rs: Seq<STerm>, m: Map<u32, u32>, rev: Map<u32, u32>, k: int)
    requires
        0 <= k <= ls.len(),
        ls.len() == rs.len(),
        terms_alpha(ls.take(k), rs.take(k), m, rev) is None,
    ensures
        terms_alpha(ls, rs, m, rev) is None,
    decreases ls.len() - k,
{
    if k < ls.len() {
        assert(ls.take(k + 1).drop_last() == ls.take(k));
        assert(rs.take(k + 1).drop_last() == rs.take(k));
        lemma_terms_alpha_fails(ls, rs, m, rev, k + 1);
    } else {
        assert(ls.take(k) == ls);
        assert(rs.take(k) == rs);
    }
}

proof fn lemma_view_take(s: Seq<Term>, k: int)
    requires
        0 <= k <= s.len(),
    ensures
        terms_view(s.take(k)) == terms_view(s).take(k),
{
    lemma_terms_view(s);
    lemma_terms_view(s.take(k));
    assert(terms_view(s.take(k)) =~= terms_view(s).take(k));
}

/// Extends the renaming so that `left` becomes `right`.
pub fn term_alpha_equiv(
    left: &Term,
    right: &Term,
    mapping: &mut HashMap<u32, u32>,
    reverse: &mut HashMap<u32, u32>,
) -> (r: bool)
    ensures
        match term_alpha(left@, right@, old(mapping)@, old(reverse)@) {
            Some(x) => r && final(mapping)@ == x.0 && final(reverse)@ == x.1,
            None => !r,
        },
    decreases left,
{
    match (left, right) {
        (Term::Var(a), Term::Var(b)) => {
            match mapping.get(a) {
                Some(mapped) => *mapped == *b,
                None => {
                    if reverse.contains_key(b) {
                        false
                    } else {
                        mapping.insert(*a, *b);
                        reverse.insert(*b, *a);
                        true
                    }
                },
            }
        },
        (Term::App(f, ls), Term::App(g, rs)) => {
            proof {
                lemma_terms_view(ls@);
                lemma_terms_view(rs@);
            }
            if *f != *g || ls.len() != rs.len() {
                return false;
            }
            args_alpha_equiv(left, right, ls, rs, mapping, reverse)
        },
        _ => false,
    }
}

/// `args_alpha_equiv` for the arguments of `left` and `right`.
fn args_alpha_equiv(
    left: &Term,
    right: &Term,
    ls: &Vec<Term>,
    rs: &Vec<Term>,
    mapping: &mut HashMap<u32, u32>,
    reverse: &mut HashMap<u32, u32>,
) -> (r: bool)
    requires
        *left is App,
        left->App_1 == *ls,
        ls.len() == rs.len(),
    ensures
        match terms_alpha(terms_view(ls@), terms_view(rs@), old(mapping)@, old(reverse)@) {
            Some(x) => r && final(mapping)@ == x.0 && final(reverse)@ == x.1,
            None => !r,
        },
    decreases left, 0nat,
{
    proof {
        lemma_terms_view(ls@);
        lemma_terms_view(rs@);
    }
    let ghost m0 = mapping@;
    let ghost r0 = reverse@;
    let mut i: usize = 0;
    assert(terms_view(ls@.take(0)) =~= Seq::<STerm>::empty());
    assert(terms_view(rs@.take(0)) =~= Seq::<STerm>::empty());
    while i < ls.len()
        invariant
            0 <= i <= ls.len(),
            ls.len() == rs.len(),
            *left is App,
            left->App_1 == *ls,
            m0 == old(mapping)@,
            r0 == old(reverse)@,
            terms_alpha(terms_view(ls@.take(i as int)), terms_view(rs@.take(i as int)), m0, r0) == Some::<Renaming>((mapping@, reverse@)),
        decreases ls.len() - i,
    {
        proof {
            assert(ls@.take(i as int + 1) =~= ls@.take(i as int).push(ls@[i as int]));
            assert(rs@.take(i as int + 1) =~= rs@.take(i as int).push(rs@[i as int]));
            lemma_terms_view_push(ls@.take(i as int), ls@[i as int]);
            lemma_terms_view_push(rs@.take(i as int), rs@[i as int]);
            lemma_terms_alpha_push(terms_view(ls@.take(i as int)), terms_view(rs@.take(i as int)), ls@[i as int]@, rs@[i as int]@, m0, r0);
            assert(decreases_to!(*left => left->App_1));
            assert(decreases_to!(left->App_1 => left->App_1@));
            assert(decreases_to!(ls@ => ls@[i as int]));
        }
        if !term_alpha_equiv(&ls[i], &rs[i], mapping, reverse) {
            proof {
                lemma_view_take(ls@, i as int + 1);
                lemma_view_take(rs@, i as int + 1);
                lemma_terms_view(ls@);
                lemma_terms_view(rs@);
                lemma_terms_alpha_fails(terms_view(ls@), terms_view(rs@), m0, r0, i as int + 1);
            }
            return false;
        }
        i = i + 1;
    }
    assert(ls@.take(ls.len() as int) =~= ls@);
    assert(rs@.take(rs.len() as int) =~= rs@);
    true
}

/// Extends the renaming pairwise through two argument lists.
fn list_alpha_equiv(
    ls: &Vec<Term>,
    rs: &Vec<Term>,
    mapping: &mut HashMap<u32, u32>,
    reverse: &mut HashMap<u32, u32>,
) -> (r: bool)
    requires
        ls.len() == rs.len(),
    ensures
        match terms_alpha(terms_view(ls@), terms_view(rs@), old(mapping)@, old(reverse)@) {
            Some(x) => r && final(mapping)@ == x.0 && final(reverse)@ == x.1,
            None => !r,
        },
{
    proof {
        lemma_terms_view(ls@);
        lemma_terms_view(rs@);
    }
    let ghost m0 = mapping@;
    let ghost r0 = reverse@;
    let mut i: usize = 0;
    assert(terms_view(ls@.take(0)) =~= Seq::<STerm>::empty());
    assert(terms_view(rs@.take(0)) =~= Seq::<STerm>::empty());
    while i < ls.len()
        invariant
            0 <= i <= ls.len(),
            ls.len() == rs.len(),
            m0 == old(mapping)@,
            r0 == old(reverse)@,
            terms_alpha(terms_view(ls@.take(i as int)), terms_view(rs@.take(i as int)), m0, r0) == Some::<Renaming>((mapping@, reverse@)),
        decreases ls.len() - i,
    {
        proof {
            assert(ls@.take(i as int + 1) =~= ls@.take(i as int).push(ls@[i as int]));
            assert(rs@.take(i as int + 1) =~= rs@.take(i as int).push(rs@[i as int]));
            lemma_terms_view_push(ls@.take(i as int), ls@[i as int]);
            lemma_terms_view_push(rs@.take(i as int), rs@[i as int]);
            lemma_terms_alpha_push(terms_view(ls@.take(i as int)), terms_view(rs@.take(i as int)), ls@[i as int]@, rs@[i as int]@, m0, r0);
        }
        if !term_alpha_equiv(&ls[i], &rs[i], mapping, reverse) {
            proof {
                lemma_view_take(ls@, i as int + 1);
                lemma_view_take(rs@, i as int + 1);
                lemma_terms_view(ls@);
                lemma_terms_view(rs@);
                lemma_terms_alpha_fails(terms_view(ls@), terms_view(rs@), m0, r0, i as int + 1);
            }
            return false;
        }
        i = i + 1;
    }
    assert(ls@.take(ls.len() as int) =~= ls@);
    assert(rs@.take(rs.len() as int) =~= rs@);
    true
}

/// Extends the renaming over a list of terms, pairwise.
fn pair_alpha_equiv(
    l0: &Term,
    l1: &Term,
    r0: &Term,
    r1: &Term,
    mapping: &mut HashMap<u32, u32>,
    reverse: &mut HashMap<u32, u32>,
) -> (r: bool)
    ensures
        match terms_alpha(seq![l0@, l1@], seq![r0@, r1@], old(mapping)@, old(reverse)@) {
            Some(x) => r && final(mapping)@ == x.0 && final(reverse)@ == x.1,
            None => !r,
        },
{
    proof {
        let ls = seq![l0@, l1@];
        let rs = seq![r0@, r1@];
        assert(ls.drop_last() =~= seq![l0@]);
        assert(rs.drop_last() =~= seq![r0@]);
        assert(seq![l0@].drop_last() =~= Seq::<STerm>::empty());
        assert(seq![r0@].drop_last() =~= Seq::<STerm>::empty());
        reveal_with_fuel(terms_alpha, 3);
        assert(terms_alpha(seq![l0@], seq![r0@], mapping@, reverse@) == term_alpha(l0@, r0@, mapping@, reverse@));
    }
    if !term_alpha_equiv(l0, r0, mapping, reverse) {
        return false;
    }
    term_alpha_equiv(l1, r1, mapping, reverse)
}

/// Extends the renaming so that the atoms coincide; an equation may match
/// as written or flipped.
pub fn atom_alpha_equiv(
    left: &Atom,
    right: &Atom,
    mapping: &mut HashMap<u32, u32>,
    reverse: &mut HashMap<u32, u32>,
) -> (r: bool)
    ensures
        match atom_alpha(left@, right@, old(mapping)@, old(reverse)@) {
            Some(x) => r && final(mapping)@ == x.0 && final(reverse)@ == x.1,
            None => !r,
        },
{
    match (left, right) {
        (Atom::Pred(p, ls), Atom::Pred(q, rs)) => {
            proof {
                lemma_terms_view(ls@);
                lemma_terms_view(rs@);
            }
            if *p != *q || ls.len() != rs.len() {
                return false;
            }
            list_alpha_equiv(ls, rs, mapping, reverse)
        },
        (Atom::Eq(ll, lr), Atom::Eq(rl, rr)) => {
            let mut direct_mapping = mapping.clone();
            let mut direct_reverse = reverse.clone();
            if pair_alpha_equiv(ll, lr, rl, rr, &mut direct_mapping, &mut direct_reverse) {
                *mapping = direct_mapping;
                *reverse = direct_reverse;
                return true;
            }
            let mut flip_mapping = mapping.clone();
            let mut flip_reverse = reverse.clone();
            if pair_alpha_equiv(ll, lr, rr, rl, &mut flip_mapping, &mut flip_reverse) {
                *mapping = flip_mapping;
                *reverse = flip_reverse;
                true
            } else {
                false
            }
        },
        _ => false,
    }
}

/// Pairs the left literals from `idx` on with unused right literals.
fn clause_alpha_search(
    idx: usize,
    left: &Vec<Literal>,
    right: &Vec<Literal>,
    used: &mut Vec<bool>,
    mapping: &HashMap<u32, u32>,
    reverse: &HashMap<u32, u32>,
) -> (r: bool)
    requires
        old(used)@.len() == right@.len(),
        idx <= left@.len(),
    ensures
        r == clause_alpha_from(idx as int, clause_view(left@), clause_view(right@), old(used)@, mapping@, reverse@),
        final(used)@ == old(used)@,
    decreases left@.len() - idx,
{
    let ghost lv = clause_view(left@);
    let ghost rv = clause_view(right@);
    let n: usize = left.len();
    if idx == n {
        return true;
    }
    let ghost u0 = used@;
    let mut j: usize = 0;
    assert(lv.len() == n);
    while j < right.len()
        invariant
            0 <= j <= right.len(),
            idx < n,
            n == left@.len(),
            used@ == u0,
            u0 == old(used)@,
            u0.len() == right@.len(),
            lv == clause_view(left@),
            rv == clause_view(right@),
            lv.len() == n,
            clause_alpha_from(idx as int, lv, rv, u0, mapping@, reverse@)
                == alpha_candidates_from(idx as int, j as int, lv, rv, u0, mapping@, reverse@),
        decreases right.len() - j,
    {
        assert(lv[idx as int] == left@[idx as int]@);
        assert(rv[j as int] == right@[j as int]@);
        if !used[j] && left[idx].positive == right[j].positive {
            let mut next_mapping = mapping.clone();
            let mut next_reverse = reverse.clone();
            if atom_alpha_equiv(&left[idx].atom, &right[j].atom, &mut next_mapping, &mut next_reverse) {
                used.set(j, true);
                let ghost u1 = used@;
                assert(u1 == u0.update(j as int, true));
                let found = clause_alpha_search(idx + 1, left, right, used, &next_mapping, &next_reverse);
                used.set(j, false);
                assert(used@ =~= u0);
                if found {
                    assert(alpha_candidate(idx as int, j as int, lv, rv, u0, mapping@, reverse@));
                    assert(alpha_candidates_from(idx as int, j as int, lv, rv, u0, mapping@, reverse@));
                    return true;
                }
                assert(!alpha_candidate(idx as int, j as int, lv, rv, u0, mapping@, reverse@));
            } else {
                assert(!alpha_candidate(idx as int, j as int, lv, rv, u0, mapping@, reverse@));
            }
        } else {
            assert(!alpha_candidate(idx as int, j as int, lv, rv, u0, mapping@, reverse@));
        }
        j = j + 1;
    }
    assert(!alpha_candidates_from(idx as int, j as int, lv, rv, u0, mapping@, reverse@));
    false
}

/// Whether two clauses are alpha-variants: the same length, with the
/// literals paired one-to-one under a consistent one-to-one renaming.
pub fn clause_alpha_equiv(left: &Vec<Literal>, right: &Vec<Literal>) -> (r: bool)
    ensures
        r == clause_alpha(clause_view(left@), clause_view(right@)),
{
    if left.len() != right.len() {
        return false;
    }
    let mut used: Vec<bool> = Vec::new();
    let mut i: usize = 0;
    while i < right.len()
        invariant
            0 <= i <= right.len(),
            used@ == Seq::new(i as nat, |k: int| false),
        decreases right.len() - i,
    {
        used.push(false);
        i = i + 1;
        assert(used@ =~= Seq::new(i as nat, |k: int| false));
    }
    let mapping: HashMap<u32, u32> = HashMap::new();
    let reverse: HashMap<u32, u32> = HashMap::new();
    clause_alpha_search(0, left, right, &mut used, &mapping, &reverse)
}

/// Both renamings are the identity, on the same variables.
pub open spec fn identity_renaming(m: Map<u32, u32>, rev: Map<u32, u32>) -> bool {
    &&& forall|k: u32| m.contains_key(k) <==> rev.contains_key(k)
    &&& forall|k: u32| #[trigger] m.contains_key(k) ==> m[k] == k && rev[k] == k
}

proof fn lemma_term_alpha_refl(t: STerm, m: Map<u32, u32>, rev: Map<u32, u32>)
    requires
        identity_renaming(m, rev),
    ensures
        term_alpha(t, t, m, rev) matches Some(x) && identity_renaming(x.0, x.1),
    decreases t,
{
    match t {
        STerm::Var(a) => {
            if !m.contains_key(a) {
                assert(!rev.contains_key(a));
                let m2 = m.insert(a, a);
                let r2 = rev.insert(a, a);
                assert(identity_renaming(m2, r2));
            }
        },
        STerm::App(f, args) => {
            lemma_terms_alpha_refl(args, m, rev);
        },
    }
}

proof fn lemma_terms_alpha_refl(ts: Seq<STerm>, m: Map<u32, u32>, rev: Map<u32, u32>)
    requires
        identity_renaming(m, rev),
    ensures
        terms_alpha(ts, ts, m, rev) matches Some(x) && identity_renaming(x.0, x.1),
    decreases ts,
{
    if ts.len() > 0 {
        lemma_terms_alpha_refl(ts.drop_last(), m, rev);
        let x = terms_alpha(ts.drop_last(), ts.drop_last(), m, rev)->Some_0;
        assert(decreases_to!(ts => ts[ts.len() - 1]));
        assert(ts[ts.len() - 1] == ts.last());
        lemma_term_alpha_refl(ts.last(), x.0, x.1);
    }
}

proof fn lemma_atom_alpha_refl(a: SAtom, m: Map<u32, u32>, rev: Map<u32, u32>)
    requires
        identity_renaming(m, rev),
    ensures
        atom_alpha(a, a, m, rev) matches Some(x) && identity_renaming(x.0, x.1),
{
    match a {
        SAtom::Pred(_, args) => lemma_terms_alpha_refl(args, m, rev),
        SAtom::Eq(l, r) => lemma_terms_alpha_refl(seq![l, r], m, rev),
    }
}

/// The right literals before `idx` are taken.
pub open spec fn used_below(n: nat, idx: int) -> Seq<bool> {
    Seq::new(n, |j: int| j < idx)
}

proof fn lemma_candidates_from(
    idx: int,
    j: int,
    k: int,
    left: Seq<SLiteral>,
    right: Seq<SLiteral>,
    used: Seq<bool>,
    m: Map<u32, u32>,
    rev: Map<u32, u32>,
)
    requires
        0 <= j <= k,
        alpha_candidate(idx, k, left, right, used, m, rev),
    ensures
        alpha_candidates_from(idx, j, left, right, used, m, rev),
    decreases k - j,
{
    if j < k {
        lemma_candidates_from(idx, j + 1, k, left, right, used, m, rev);
    }
}

proof fn lemma_clause_alpha_from_refl(c: Seq<SLiteral>, idx: int, m: Map<u32, u32>, rev: Map<u32, u32>)
    requires
        0 <= idx <= c.len(),
        identity_renaming(m, rev),
    ensures
        clause_alpha_from(idx, c, c, used_below(c.len(), idx), m, rev),
    decreases c.len() - idx,
{
    if idx < c.len() {
        lemma_atom_alpha_refl(c[idx].atom, m, rev);
        let x = atom_alpha(c[idx].atom, c[idx].atom, m, rev)->Some_0;
        lemma_clause_alpha_from_refl(c, idx + 1, x.0, x.1);
        assert(used_below(c.len(), idx).update(idx, true) =~= used_below(c.len(), idx + 1));
        assert(alpha_candidate(idx, idx, c, c, used_below(c.len(), idx), m, rev));
        lemma_candidates_from(idx, 0, idx, c, c, used_below(c.len(), idx), m, rev);
    }
}

/// Every clause is an alpha-variant of itself.
pub proof fn lemma_clause_alpha_reflexive(c: Seq<SLiteral>)
    ensures
        clause_alpha(c, c),
{
    assert(identity_renaming(Map::<u32, u32>::empty(), Map::<u32, u32>::empty()));
    lemma_clause_alpha_from_refl(c, 0, Map::empty(), Map::empty());
    assert(Seq::new(c.len(), |i: int| false) =~= used_below(c.len(), 0));
}

} // verus!
