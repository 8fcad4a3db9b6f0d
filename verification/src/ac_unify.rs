//! Unification modulo associativity and commutativity: a substitution that
//! makes two terms AC-equal, found by a backtracking search over the
//! leaves of AC applications.
use vstd::prelude::*;
use crate::term::{Term, STerm, sterm_size, sterms_size, terms_view, lemma_terms_view, copy_term};
use crate::subst::{Subst, subst_term, subst_terms, lemma_subst_terms, apply_substitution_term, term_eq};
use crate::unify::{lemma_size_arg, vars_of, vars_all, lemma_vars_all, unifier_ok, absorbs, lemma_dom_len,
    lemma_instance_vars, bind_var, lemma_absorbs_apply, lemma_absorbs_refl, lemma_absorbs_trans, lemma_idempotent_apply,
    lemma_subst_disjoint, occurs, lemma_vars_finite, lemma_vars_all_finite};
use crate::ac_match::{index_perm, none_used, refs_view, flatten_ac_term, contains_symbol, ac_leaves, ac_leaves_all, ac_alpha, identity_renaming, lemma_ac_alpha_refl, lemma_leaves_smaller};

verus! {

/// Blocks of terms, one after another.
pub open spec fn concat(bs: Seq<Seq<STerm>>) -> Seq<STerm>
    decreases bs.len(),
{
    if bs.len() == 0 {
        Seq::empty()
    } else {
        concat(bs.drop_last()) + bs.last()
    }
}

proof fn lemma_concat_append(xs: Seq<Seq<STerm>>, ys: Seq<Seq<STerm>>)
    ensures
        concat(xs + ys) == concat(xs) + concat(ys),
    decreases ys.len(),
{
    if ys.len() == 0 {
        assert(xs + ys =~= xs);
        assert(concat(xs) + concat(ys) =~= concat(xs));
    } else {
        lemma_concat_append(xs, ys.drop_last());
        assert((xs + ys).drop_last() =~= xs + ys.drop_last());
        assert((xs + ys).last() == ys.last());
        assert(concat(xs) + concat(ys) =~= concat(xs) + concat(ys.drop_last()) + ys.last());
    }
}

proof fn lemma_concat_split(bs: Seq<Seq<STerm>>, j: int)
    requires
        0 <= j < bs.len(),
    ensures
        concat(bs) == concat(bs.take(j)) + bs[j] + concat(bs.skip(j + 1)),
        concat(bs.remove(j)) == concat(bs.take(j)) + concat(bs.skip(j + 1)),
{
    assert(bs =~= bs.take(j) + (seq![bs[j]] + bs.skip(j + 1)));
    lemma_concat_append(bs.take(j), seq![bs[j]] + bs.skip(j + 1));
    lemma_concat_append(seq![bs[j]], bs.skip(j + 1));
    assert(concat(seq![bs[j]]) =~= bs[j]) by {
        let one = seq![bs[j]];
        assert(one.drop_last() =~= Seq::<Seq<STerm>>::empty());
        assert(concat(one.drop_last()) =~= Seq::<STerm>::empty());
        assert(concat(one) == concat(one.drop_last()) + one.last());
    }
    assert(bs.remove(j) =~= bs.take(j) + bs.skip(j + 1));
    lemma_concat_append(bs.take(j), bs.skip(j + 1));
}

/// The leaves of each term, one after another, are the blocks of their
/// leaves concatenated.
proof fn lemma_leaves_all_concat(ts: Seq<STerm>, f: u32, assoc: Set<u32>)
    ensures
        ac_leaves_all(ts, f, assoc) == concat(ts.map_values(|t: STerm| ac_leaves(t, f, assoc))),
    decreases ts.len(),
{
    if ts.len() > 0 {
        lemma_leaves_all_concat(ts.drop_last(), f, assoc);
        assert(ts.map_values(|t: STerm| ac_leaves(t, f, assoc)).drop_last()
            =~= ts.drop_last().map_values(|t: STerm| ac_leaves(t, f, assoc)));
    }
}

/// `q` sends `xs`, one-to-one, to elements of `ys` that they equal modulo
/// AC and `m`.
pub open spec fn rel_witness(xs: Seq<STerm>, ys: Seq<STerm>, q: Seq<int>, m: Map<u32, u32>, comm: Set<u32>, assoc: Set<u32>) -> bool {
    &&& index_perm(q, xs.len())
    &&& forall|k: int| 0 <= k < xs.len() ==> ac_alpha(#[trigger] xs[k], ys[q[k]], m, comm, assoc)
}

/// `xs` goes, one-to-one, onto `ys` modulo AC and `m`, as the AC case of
/// `ac_alpha` compares leaves.
pub open spec fn leaves_rel(xs: Seq<STerm>, ys: Seq<STerm>, m: Map<u32, u32>, comm: Set<u32>, assoc: Set<u32>) -> bool {
    xs.len() == ys.len() && exists|q: Seq<int>| #[trigger] rel_witness(xs, ys, q, m, comm, assoc)
}

/// Matching blocks matched one-to-one give matching concatenations.
proof fn lemma_blocks_rel(
    ba: Seq<Seq<STerm>>,
    bb: Seq<Seq<STerm>>,
    q: Seq<int>,
    m: Map<u32, u32>,
    comm: Set<u32>,
    assoc: Set<u32>,
)
    requires
        ba.len() == bb.len(),
        q.len() == ba.len(),
        forall|k1: int, k2: int| 0 <= k1 < k2 < ba.len() ==> q[k1] != q[k2],
        forall|k: int| 0 <= k < ba.len() ==> 0 <= #[trigger] q[k] < bb.len() && leaves_rel(ba[k], bb[q[k]], m, comm, assoc),
    ensures
        leaves_rel(concat(ba), concat(bb), m, comm, assoc),
    decreases ba.len(),
{
    let n = ba.len();
    if n == 0 {
        let w = Seq::<int>::empty();
        assert(concat(ba) =~= Seq::<STerm>::empty());
        assert(concat(bb) =~= Seq::<STerm>::empty());
        assert(rel_witness(concat(ba), concat(bb), w, m, comm, assoc));
    } else {
        let last = n - 1;
        let j = q[last];
        let ba2 = ba.drop_last();
        let bb2 = bb.remove(j);
        let q2 = Seq::new((n - 1) as nat, |k: int| if q[k] < j { q[k] } else { q[k] - 1 });
        assert forall|k: int| 0 <= k < ba2.len() implies 0 <= #[trigger] q2[k] < bb2.len()
            && leaves_rel(ba2[k], bb2[q2[k]], m, comm, assoc) by {
            assert(q[k] != j);
            if q[k] < j {
                assert(bb2[q2[k]] == bb[q[k]]);
            } else {
                assert(bb2[q2[k]] == bb[q[k]]);
            }
            assert(ba2[k] == ba[k]);
        }
        assert forall|k1: int, k2: int| 0 <= k1 < k2 < ba2.len() implies q2[k1] != q2[k2] by {
            assert(q[k1] != q[k2]);
            assert(q[k1] != j && q[k2] != j);
        }
        lemma_blocks_rel(ba2, bb2, q2, m, comm, assoc);
        let a1 = concat(ba2);
        let b1 = concat(bb2);
        let w1 = choose|q: Seq<int>| rel_witness(a1, b1, q, m, comm, assoc);
        let xa = ba[last];
        let yb = bb[j];
        assert(leaves_rel(xa, yb, m, comm, assoc));
        let w2 = choose|q: Seq<int>| rel_witness(xa, yb, q, m, comm, assoc);
        lemma_concat_split(bb, j);
        let t = concat(bb.take(j));
        let s = concat(bb.skip(j + 1));
        assert(concat(ba) == a1 + xa);
        assert(concat(bb) == t + yb + s);
        assert(b1 == t + s);
        let whole_a = a1 + xa;
        let whole_b = t + yb + s;
        let w = Seq::new(whole_a.len(), |x: int|
            if x < a1.len() {
                if w1[x] < t.len() { w1[x] } else { w1[x] + yb.len() }
            } else {
                t.len() + w2[x - a1.len()]
            });
        assert forall|x: int| 0 <= x < whole_a.len() implies 0 <= #[trigger] w[x] < whole_b.len()
            && ac_alpha(whole_a[x], whole_b[w[x]], m, comm, assoc) by {
            if x < a1.len() {
                assert(whole_a[x] == a1[x]);
                assert(ac_alpha(a1[x], b1[w1[x]], m, comm, assoc));
                if w1[x] < t.len() {
                    assert(b1[w1[x]] == t[w1[x]]);
                    assert(whole_b[w[x]] == t[w1[x]]);
                } else {
                    assert(b1[w1[x]] == s[w1[x] - t.len()]);
                    assert(whole_b[w[x]] == s[w1[x] - t.len()]);
                }
            } else {
                let i = x - a1.len();
                assert(whole_a[x] == xa[i]);
                assert(ac_alpha(xa[i], yb[w2[i]], m, comm, assoc));
                assert(whole_b[w[x]] == yb[w2[i]]);
            }
        }
        assert forall|k1: int, k2: int| 0 <= k1 < k2 < whole_a.len() implies w[k1] != w[k2] by {
            if k2 < a1.len() {
                assert(w1[k1] != w1[k2]);
            } else if k1 >= a1.len() {
                assert(w2[k1 - a1.len()] != w2[k2 - a1.len()]);
            }
        }
        assert(w.len() == whole_a.len());
        assert(whole_a.len() == whole_b.len());
        assert(rel_witness(whole_a, whole_b, w, m, comm, assoc));
    }
}

proof fn lemma_leaves_all_append(xs: Seq<STerm>, ys: Seq<STerm>, f: u32, assoc: Set<u32>)
    ensures
        ac_leaves_all(xs + ys, f, assoc) == ac_leaves_all(xs, f, assoc) + ac_leaves_all(ys, f, assoc),
    decreases ys.len(),
{
    if ys.len() == 0 {
        assert(xs + ys =~= xs);
        assert(ac_leaves_all(ys, f, assoc) =~= Seq::<STerm>::empty());
        assert(ac_leaves_all(xs, f, assoc) + ac_leaves_all(ys, f, assoc) =~= ac_leaves_all(xs, f, assoc));
    } else {
        lemma_leaves_all_append(xs, ys.drop_last(), f, assoc);
        assert((xs + ys).drop_last() =~= xs + ys.drop_last());
        assert((xs + ys).last() == ys.last());
        assert(ac_leaves_all(xs, f, assoc) + ac_leaves_all(ys, f, assoc)
            =~= ac_leaves_all(xs, f, assoc) + ac_leaves_all(ys.drop_last(), f, assoc) + ac_leaves(ys.last(), f, assoc));
    }
}

proof fn lemma_subst_terms_append(xs: Seq<STerm>, ys: Seq<STerm>, s: Map<u32, STerm>)
    ensures
        subst_terms(xs + ys, s) == subst_terms(xs, s) + subst_terms(ys, s),
{
    lemma_subst_terms(xs + ys, s);
    lemma_subst_terms(xs, s);
    lemma_subst_terms(ys, s);
    assert forall|i: int| 0 <= i < (xs + ys).len() implies #[trigger] subst_terms(xs + ys, s)[i] == (subst_terms(xs, s) + subst_terms(ys, s))[i] by {
        if i < xs.len() {
            assert((xs + ys)[i] == xs[i]);
        } else {
            assert((xs + ys)[i] == ys[i - xs.len()]);
        }
    }
    assert(subst_terms(xs + ys, s) =~= subst_terms(xs, s) + subst_terms(ys, s));
}

proof fn lemma_leaves_single(x: STerm, f: u32, assoc: Set<u32>)
    ensures
        ac_leaves_all(seq![x], f, assoc) == ac_leaves(x, f, assoc),
{
    assert(seq![x].drop_last() =~= Seq::<STerm>::empty());
    assert(ac_leaves_all(Seq::<STerm>::empty(), f, assoc) + ac_leaves(x, f, assoc) =~= ac_leaves(x, f, assoc));
}

/// The leaves of an instance are the leaves of the instances of the leaves.
proof fn lemma_leaves_subst(t: STerm, f: u32, assoc: Set<u32>, s: Map<u32, STerm>)
    ensures
        ac_leaves(subst_term(t, s), f, assoc) == ac_leaves_all(subst_terms(ac_leaves(t, f, assoc), s), f, assoc),
    decreases t,
{
    match t {
        STerm::App(g, args) => {
            if g == f && assoc.contains(f) {
                lemma_leaves_all_subst(args, f, assoc, s);
            } else {
                lemma_subst_terms(seq![t], s);
                assert(subst_terms(seq![t], s) =~= seq![subst_term(t, s)]);
                lemma_leaves_single(subst_term(t, s), f, assoc);
            }
        },
        STerm::Var(_) => {
            lemma_subst_terms(seq![t], s);
            assert(subst_terms(seq![t], s) =~= seq![subst_term(t, s)]);
            lemma_leaves_single(subst_term(t, s), f, assoc);
        },
    }
}

proof fn lemma_leaves_all_subst(ts: Seq<STerm>, f: u32, assoc: Set<u32>, s: Map<u32, STerm>)
    ensures
        ac_leaves_all(subst_terms(ts, s), f, assoc) == ac_leaves_all(subst_terms(ac_leaves_all(ts, f, assoc), s), f, assoc),
    decreases ts,
{
    if ts.len() > 0 {
        let init = ts.drop_last();
        let l = ts.last();
        lemma_leaves_all_subst(init, f, assoc, s);
        lemma_leaves_subst(l, f, assoc, s);
        let st = subst_terms(ts, s);
        assert(st.drop_last() == subst_terms(init, s));
        assert(st.last() == subst_term(l, s));
        lemma_subst_terms_append(ac_leaves_all(init, f, assoc), ac_leaves(l, f, assoc), s);
        lemma_leaves_all_append(subst_terms(ac_leaves_all(init, f, assoc), s), subst_terms(ac_leaves(l, f, assoc), s), f, assoc);
    } else {
        assert(subst_terms(ts, s) =~= Seq::<STerm>::empty());
    }
}

/// The leaves of an instance, block by block: one block for each leaf.
proof fn lemma_leaves_subst_blocks(a: STerm, f: u32, assoc: Set<u32>, s: Map<u32, STerm>)
    ensures
        ac_leaves(subst_term(a, s), f, assoc)
            == concat(ac_leaves(a, f, assoc).map_values(|x: STerm| ac_leaves(subst_term(x, s), f, assoc))),
{
    let ll = ac_leaves(a, f, assoc);
    lemma_leaves_subst(a, f, assoc, s);
    lemma_leaves_all_concat(subst_terms(ll, s), f, assoc);
    lemma_subst_terms(ll, s);
    assert(subst_terms(ll, s).map_values(|t: STerm| ac_leaves(t, f, assoc))
        =~= ll.map_values(|x: STerm| ac_leaves(subst_term(x, s), f, assoc)));
}

/// Terms equal modulo AC have leaves that go one-to-one onto each other.
proof fn lemma_alpha_leaves_rel(x: STerm, y: STerm, f: u32, m: Map<u32, u32>, comm: Set<u32>, assoc: Set<u32>)
    requires
        assoc.contains(f),
        comm.contains(f),
        ac_alpha(x, y, m, comm, assoc),
    ensures
        leaves_rel(ac_leaves(x, f, assoc), ac_leaves(y, f, assoc), m, comm, assoc),
{
    let lx = ac_leaves(x, f, assoc);
    let ly = ac_leaves(y, f, assoc);
    if x is App && x->App_0 == f {
        let xa = x->App_1;
        let ya = y->App_1;
        lemma_leaves_smaller(f, xa, assoc);
        let q = choose|q: Seq<int>| #[trigger] index_perm(q, lx.len())
            && forall|k: int| 0 <= k < lx.len() ==> ac_alpha(#[trigger] lx[k], ly[q[k]], m, comm, assoc);
        assert(rel_witness(lx, ly, q, m, comm, assoc));
    } else {
        assert(lx == seq![x]);
        assert(ly == seq![y]);
        let q = seq![0int];
        assert(rel_witness(lx, ly, q, m, comm, assoc));
    }
}

/// Two AC applications whose leaves, instantiated, match one-to-one are
/// equal modulo AC once instantiated.
proof fn lemma_ac_from_leaf_instances(f: u32, la: Seq<STerm>, ra: Seq<STerm>, s: Map<u32, STerm>, q: Seq<int>, comm: Set<u32>, assoc: Set<u32>)
    requires
        assoc.contains(f),
        comm.contains(f),
        ac_leaves(STerm::App(f, la), f, assoc).len() == ac_leaves(STerm::App(f, ra), f, assoc).len(),
        index_perm(q, ac_leaves(STerm::App(f, la), f, assoc).len()),
        forall|k: int| 0 <= k < ac_leaves(STerm::App(f, la), f, assoc).len() ==> ac_alpha(
            subst_term(#[trigger] ac_leaves(STerm::App(f, la), f, assoc)[k], s),
            subst_term(ac_leaves(STerm::App(f, ra), f, assoc)[q[k]], s),
            identity_renaming(), comm, assoc),
    ensures
        ac_alpha(subst_term(STerm::App(f, la), s), subst_term(STerm::App(f, ra), s), identity_renaming(), comm, assoc),
{
    let m = identity_renaming();
    let a = STerm::App(f, la);
    let b = STerm::App(f, ra);
    let sa = subst_term(a, s);
    let sb = subst_term(b, s);
    let ll = ac_leaves(a, f, assoc);
    let rl = ac_leaves(b, f, assoc);
    let ba = ll.map_values(|x: STerm| ac_leaves(subst_term(x, s), f, assoc));
    let bb = rl.map_values(|x: STerm| ac_leaves(subst_term(x, s), f, assoc));
    assert forall|k: int| 0 <= k < ba.len() implies 0 <= #[trigger] q[k] < bb.len()
        && leaves_rel(ba[k], bb[q[k]], m, comm, assoc) by {
        assert(ac_alpha(subst_term(ll[k], s), subst_term(rl[q[k]], s), m, comm, assoc));
        lemma_alpha_leaves_rel(subst_term(ll[k], s), subst_term(rl[q[k]], s), f, m, comm, assoc);
    }
    lemma_blocks_rel(ba, bb, q, m, comm, assoc);
    lemma_leaves_subst_blocks(a, f, assoc, s);
    lemma_leaves_subst_blocks(b, f, assoc, s);
    let lsa = ac_leaves(sa, f, assoc);
    let lsb = ac_leaves(sb, f, assoc);
    assert(leaves_rel(lsa, lsb, m, comm, assoc));
    let w = choose|w: Seq<int>| rel_witness(lsa, lsb, w, m, comm, assoc);
    assert(index_perm(w, lsa.len()));
    lemma_subst_terms(la, s);
    lemma_subst_terms(ra, s);
    assert(sa == STerm::App(f, subst_terms(la, s)));
    assert(sb == STerm::App(f, subst_terms(ra, s)));
}

/// The leaves of a term are at most as many as its size, and mention only
/// its variables.
proof fn lemma_leaves_bounds(t: STerm, f: u32, assoc: Set<u32>)
    ensures
        ac_leaves(t, f, assoc).len() <= sterm_size(t),
        forall|k: int| 0 <= k < ac_leaves(t, f, assoc).len() ==> vars_of(#[trigger] ac_leaves(t, f, assoc)[k]).subset_of(vars_of(t)),
    decreases t,
{
    match t {
        STerm::App(g, args) => if g == f && assoc.contains(f) {
            lemma_leaves_all_bounds(args, f, assoc);
            lemma_vars_all(args);
        } else {
            assert(ac_leaves(t, f, assoc) == seq![t]);
        },
        STerm::Var(_) => {
            assert(ac_leaves(t, f, assoc) == seq![t]);
        },
    }
}

proof fn lemma_leaves_all_bounds(ts: Seq<STerm>, f: u32, assoc: Set<u32>)
    ensures
        ac_leaves_all(ts, f, assoc).len() <= sterms_size(ts),
        forall|k: int| 0 <= k < ac_leaves_all(ts, f, assoc).len() ==> vars_of(#[trigger] ac_leaves_all(ts, f, assoc)[k]).subset_of(vars_all(ts)),
    decreases ts,
{
    if ts.len() > 0 {
        lemma_leaves_all_bounds(ts.drop_last(), f, assoc);
        lemma_leaves_bounds(ts.last(), f, assoc);
        lemma_vars_all(ts);
        lemma_vars_all(ts.drop_last());
        let a = ac_leaves_all(ts.drop_last(), f, assoc);
        let b = ac_leaves(ts.last(), f, assoc);
        assert forall|k: int| 0 <= k < (a + b).len() implies vars_of(#[trigger] (a + b)[k]).subset_of(vars_all(ts)) by {
            if k < a.len() {
                assert((a + b)[k] == a[k]);
                assert forall|w: u32| vars_of(a[k]).contains(w) implies vars_all(ts).contains(w) by {
                    let i = choose|i: int| 0 <= i < ts.drop_last().len() && #[trigger] vars_of(ts.drop_last()[i]).contains(w);
                    assert(ts[i] == ts.drop_last()[i]);
                }
            } else {
                assert((a + b)[k] == b[k - a.len()]);
                assert forall|w: u32| vars_of(b[k - a.len()]).contains(w) implies vars_all(ts).contains(w) by {
                    assert(ts[ts.len() - 1] == ts.last());
                }
            }
        }
    }
}

/// Law: an instance of two terms equal modulo AC are equal modulo AC; the
/// equality is stable under substitution.
pub proof fn lemma_ac_alpha_subst(a: STerm, b: STerm, s: Map<u32, STerm>, comm: Set<u32>, assoc: Set<u32>)
    requires
        ac_alpha(a, b, identity_renaming(), comm, assoc),
    ensures
        ac_alpha(subst_term(a, s), subst_term(b, s), identity_renaming(), comm, assoc),
    decreases sterm_size(a),
{
    let m = identity_renaming();
    let sa = subst_term(a, s);
    let sb = subst_term(b, s);
    match (a, b) {
        (STerm::Var(x), STerm::Var(y)) => {
            lemma_ac_alpha_refl(sa, comm, assoc);
        },
        (STerm::App(f, la), STerm::App(g, ra)) => {
            lemma_subst_terms(la, s);
            lemma_subst_terms(ra, s);
            if assoc.contains(f) && comm.contains(f) {
                let ll = ac_leaves(a, f, assoc);
                let rl = ac_leaves(b, f, assoc);
                lemma_leaves_smaller(f, la, assoc);
                let q = choose|q: Seq<int>| #[trigger] index_perm(q, ll.len())
                    && forall|k: int| 0 <= k < ll.len() ==> ac_alpha(#[trigger] ll[k], rl[q[k]], m, comm, assoc);
                assert forall|k: int| 0 <= k < ll.len() implies ac_alpha(subst_term(#[trigger] ll[k], s), subst_term(rl[q[k]], s), m, comm, assoc) by {
                    lemma_ac_alpha_subst(ll[k], rl[q[k]], s, comm, assoc);
                }
                lemma_ac_from_leaf_instances(f, la, ra, s, q, comm, assoc);
            } else if comm.contains(f) && la.len() == 2 && ra.len() == 2 {
                lemma_size_arg(f, la, 0);
                lemma_size_arg(f, la, 1);
                if ac_alpha(la[0], ra[0], m, comm, assoc) && ac_alpha(la[1], ra[1], m, comm, assoc) {
                    lemma_ac_alpha_subst(la[0], ra[0], s, comm, assoc);
                    lemma_ac_alpha_subst(la[1], ra[1], s, comm, assoc);
                } else {
                    lemma_ac_alpha_subst(la[0], ra[1], s, comm, assoc);
                    lemma_ac_alpha_subst(la[1], ra[0], s, comm, assoc);
                }
            } else {
                assert forall|k: int| 0 <= k < la.len() implies ac_alpha(#[trigger] subst_terms(la, s)[k], subst_terms(ra, s)[k], m, comm, assoc) by {
                    lemma_size_arg(f, la, k);
                    assert(ac_alpha(la[k], ra[k], m, comm, assoc));
                    lemma_ac_alpha_subst(la[k], ra[k], s, comm, assoc);
                }
            }
        },
        _ => {},
    }
}

/// Leaves `i..` of `ll` go, one-to-one, to unused leaves of `rl` whose
/// instances under `s` they equal modulo AC.
pub open spec fn leaves_unified(
    ll: Seq<STerm>,
    rl: Seq<STerm>,
    i: int,
    used: Seq<bool>,
    s: Map<u32, STerm>,
    comm: Set<u32>,
    assoc: Set<u32>,
) -> bool {
    exists|q: Seq<int>| #[trigger] q.len() == ll.len()
        && (forall|k1: int, k2: int| i <= k1 < k2 < ll.len() ==> q[k1] != q[k2])
        && forall|k: int| i <= k < ll.len() ==> 0 <= #[trigger] q[k] < rl.len() && !used[q[k]]
            && ac_alpha(subst_term(ll[k], s), subst_term(rl[q[k]], s), identity_renaming(), comm, assoc)
}

proof fn lemma_unified_step(
    ll: Seq<STerm>,
    rl: Seq<STerm>,
    i: int,
    used: Seq<bool>,
    j: int,
    s: Map<u32, STerm>,
    comm: Set<u32>,
    assoc: Set<u32>,
)
    requires
        0 <= i < ll.len(),
        0 <= j < rl.len(),
        used.len() == rl.len(),
        !used[j],
        ac_alpha(subst_term(ll[i], s), subst_term(rl[j], s), identity_renaming(), comm, assoc),
        leaves_unified(ll, rl, i + 1, used.update(j, true), s, comm, assoc),
    ensures
        leaves_unified(ll, rl, i, used, s, comm, assoc),
{
    let u2 = used.update(j, true);
    let q = choose|q: Seq<int>| #[trigger] q.len() == ll.len()
        && (forall|k1: int, k2: int| i + 1 <= k1 < k2 < ll.len() ==> q[k1] != q[k2])
        && forall|k: int| i + 1 <= k < ll.len() ==> 0 <= #[trigger] q[k] < rl.len() && !u2[q[k]]
            && ac_alpha(subst_term(ll[k], s), subst_term(rl[q[k]], s), identity_renaming(), comm, assoc);
    let q2 = q.update(i, j);
    assert forall|k: int| i <= k < ll.len() implies 0 <= #[trigger] q2[k] < rl.len() && !used[q2[k]]
        && ac_alpha(subst_term(ll[k], s), subst_term(rl[q2[k]], s), identity_renaming(), comm, assoc) by {
        if k > i {
            assert(q2[k] == q[k]);
            assert(!u2[q[k]]);
        }
    }
    assert forall|k1: int, k2: int| i <= k1 < k2 < ll.len() implies q2[k1] != q2[k2] by {
        if k1 == i {
            assert(q2[k2] == q[k2]);
            assert(!u2[q[k2]]);
        }
    }
    assert(q2.len() == ll.len());
}

/// All leaves matched: the AC applications they came from are equal modulo
/// AC once instantiated.
proof fn lemma_unified_alpha(f: u32, la: Seq<STerm>, ra: Seq<STerm>, s: Map<u32, STerm>, comm: Set<u32>, assoc: Set<u32>)
    requires
        assoc.contains(f),
        comm.contains(f),
        ac_leaves(STerm::App(f, la), f, assoc).len() == ac_leaves(STerm::App(f, ra), f, assoc).len(),
        leaves_unified(ac_leaves(STerm::App(f, la), f, assoc), ac_leaves(STerm::App(f, ra), f, assoc), 0,
            none_used(ac_leaves(STerm::App(f, ra), f, assoc).len()), s, comm, assoc),
    ensures
        ac_alpha(subst_term(STerm::App(f, la), s), subst_term(STerm::App(f, ra), s), identity_renaming(), comm, assoc),
{
    let ll = ac_leaves(STerm::App(f, la), f, assoc);
    let rl = ac_leaves(STerm::App(f, ra), f, assoc);
    let u = none_used(rl.len());
    let q = choose|q: Seq<int>| #[trigger] q.len() == ll.len()
        && (forall|k1: int, k2: int| 0 <= k1 < k2 < ll.len() ==> q[k1] != q[k2])
        && forall|k: int| 0 <= k < ll.len() ==> 0 <= #[trigger] q[k] < rl.len() && !u[q[k]]
            && ac_alpha(subst_term(ll[k], s), subst_term(rl[q[k]], s), identity_renaming(), comm, assoc);
    assert(index_perm(q, ll.len()));
    lemma_ac_from_leaf_instances(f, la, ra, s, q, comm, assoc);
}

/// Unifies the leaves `index..` of one AC application with unused leaves of
/// another, trying each candidate in turn and backtracking on failure.
fn ac_unify_multiset(
    ll: &Vec<&Term>,
    rl: &Vec<&Term>,
    index: usize,
    used: &mut Vec<bool>,
    substitution: &mut Subst,
    comm: &Vec<u32>,
    assoc: &Vec<u32>,
    Ghost(xs): Ghost<Set<u32>>,
    Ghost(s0): Ghost<Map<u32, STerm>>,
    Ghost(unbound): Ghost<int>,
    Ghost(size): Ghost<nat>,
) -> (r: bool)
    requires
        xs.finite(),
        unifier_ok(s0, xs),
        unbound == xs.len() - s0.dom().len(),
        unifier_ok(old(substitution)@, xs),
        absorbs(old(substitution)@, s0),
        old(substitution)@ == s0 || old(substitution)@.dom().len() > s0.dom().len(),
        index <= ll.len(),
        ll.len() == rl.len(),
        old(used)@.len() == rl.len(),
        ll.len() <= size,
        forall|k: int| 0 <= k < ll.len() ==> sterm_size(#[trigger] ll@[k]@) < size,
        forall|k: int| 0 <= k < ll.len() ==> vars_of(#[trigger] ll@[k]@).subset_of(xs),
        forall|k: int| 0 <= k < rl.len() ==> vars_of(#[trigger] rl@[k]@).subset_of(xs),
        forall|k: int, w: u32| 0 <= k < ll.len() && #[trigger] vars_of(ll@[k]@).contains(w) ==> !s0.contains_key(w),
    ensures
        unifier_ok(final(substitution)@, xs),
        absorbs(final(substitution)@, old(substitution)@),
        final(substitution)@ == old(substitution)@ || final(substitution)@.dom().len() > old(substitution)@.dom().len(),
        !r ==> final(used)@ == old(used)@ && final(substitution)@ == old(substitution)@,
        r ==> leaves_unified(refs_view(ll@), refs_view(rl@), index as int, old(used)@, final(substitution)@, comm@.to_set(), assoc@.to_set()),
    decreases unbound, size, ll.len() - index,
{
    let ghost cs = comm@.to_set();
    let ghost as_ = assoc@.to_set();
    let ghost lv = refs_view(ll@);
    let ghost rv = refs_view(rl@);
    let ghost cur = substitution@;
    let ghost u0 = used@;
    proof {
        lemma_absorbs_refl_ok(cur, xs);
    }
    if index == ll.len() {
        proof {
            let q = Seq::new(lv.len(), |k: int| 0int);
            assert(q.len() == lv.len());
        }
        return true;
    }
    let mut ri: usize = 0;
    while ri < rl.len()
        invariant
            0 <= ri <= rl.len(),
            index < ll.len(),
            ll.len() == rl.len(),
            used@ == u0,
            substitution@ == cur,
            cur == old(substitution)@,
            u0 == old(used)@,
            u0.len() == rl.len(),
            xs.finite(),
            unifier_ok(s0, xs),
            unbound == xs.len() - s0.dom().len(),
            unifier_ok(cur, xs),
            absorbs(cur, s0),
            absorbs(cur, cur),
            cur == s0 || cur.dom().len() > s0.dom().len(),
            ll.len() <= size,
            lv == refs_view(ll@),
            rv == refs_view(rl@),
            cs == comm@.to_set(),
            as_ == assoc@.to_set(),
            forall|k: int| 0 <= k < ll.len() ==> sterm_size(#[trigger] ll@[k]@) < size,
            forall|k: int| 0 <= k < ll.len() ==> vars_of(#[trigger] ll@[k]@).subset_of(xs),
            forall|k: int| 0 <= k < rl.len() ==> vars_of(#[trigger] rl@[k]@).subset_of(xs),
            forall|k: int, w: u32| 0 <= k < ll.len() && #[trigger] vars_of(ll@[k]@).contains(w) ==> !s0.contains_key(w),
        decreases rl.len() - ri,
    {
        if used[ri] {
            ri = ri + 1;
            continue;
        }
        let mut next = substitution.copy();
        proof {
            lemma_dom_len(cur, xs);
            lemma_dom_len(s0, xs);
            lemma_instance_vars(ll@[index as int]@, cur, xs);
            if cur == s0 {
                assert forall|w: u32| vars_of(ll@[index as int]@).contains(w) implies !s0.contains_key(w) by {}
                lemma_subst_disjoint(ll@[index as int]@, s0);
            }
        }
        let ok = ac_unify_terms(
            ll[index],
            rl[ri],
            &mut next,
            comm,
            assoc,
            Ghost(xs),
            Ghost(xs.len() - cur.dom().len()),
            Ghost(sterm_size(subst_term(ll@[index as int]@, cur))),
        );
        if ok {
            let ghost mid = next@;
            used.set(ri, true);
            proof {
                lemma_absorbs_trans(mid, cur, s0);
            }
            let rest = ac_unify_multiset(
                ll,
                rl,
                index + 1,
                used,
                &mut next,
                comm,
                assoc,
                Ghost(xs),
                Ghost(s0),
                Ghost(unbound),
                Ghost(size),
            );
            if rest {
                proof {
                    let fin = next@;
                    lemma_ac_alpha_subst(subst_term(ll@[index as int]@, mid), subst_term(rl@[ri as int]@, mid), fin, cs, as_);
                    lemma_absorbs_apply(ll@[index as int]@, mid, fin);
                    lemma_absorbs_apply(rl@[ri as int]@, mid, fin);
                    assert(lv[index as int] == ll@[index as int]@);
                    assert(rv[ri as int] == rl@[ri as int]@);
                    lemma_unified_step(lv, rv, index as int, u0, ri as int, fin, cs, as_);
                    lemma_absorbs_trans(fin, mid, cur);
                }
                *substitution = next;
                return true;
            }
            used.set(ri, false);
            proof {
                assert(used@ =~= u0);
            }
        }
        ri = ri + 1;
    }
    false
}

proof fn lemma_absorbs_refl_ok(s: Map<u32, STerm>, xs: Set<u32>)
    requires
        unifier_ok(s, xs),
    ensures
        absorbs(s, s),
{
    lemma_absorbs_refl(s);
}

/// Unifies two argument lists position by position, extending the
/// substitution; stops at the first pair that does not unify.
fn ac_unify_args(
    la: &Vec<Term>,
    ra: &Vec<Term>,
    substitution: &mut Subst,
    comm: &Vec<u32>,
    assoc: &Vec<u32>,
    Ghost(xs): Ghost<Set<u32>>,
    Ghost(unbound): Ghost<int>,
    Ghost(size): Ghost<nat>,
) -> (r: bool)
    requires
        xs.finite(),
        unifier_ok(old(substitution)@, xs),
        unbound == xs.len() - old(substitution)@.dom().len(),
        la.len() == ra.len(),
        forall|k: int| 0 <= k < la.len() ==> sterm_size(#[trigger] la@[k]@) < size,
        forall|k: int| 0 <= k < la.len() ==> vars_of(#[trigger] la@[k]@).subset_of(xs),
        forall|k: int| 0 <= k < ra.len() ==> vars_of(#[trigger] ra@[k]@).subset_of(xs),
        forall|k: int, w: u32| 0 <= k < la.len() && #[trigger] vars_of(la@[k]@).contains(w) ==> !old(substitution)@.contains_key(w),
    ensures
        unifier_ok(final(substitution)@, xs),
        absorbs(final(substitution)@, old(substitution)@),
        final(substitution)@ == old(substitution)@ || final(substitution)@.dom().len() > old(substitution)@.dom().len(),
        r ==> forall|k: int| 0 <= k < la.len() ==> ac_alpha(subst_term(#[trigger] la@[k]@, final(substitution)@),
            subst_term(ra@[k]@, final(substitution)@), identity_renaming(), comm@.to_set(), assoc@.to_set()),
    decreases unbound, size, size,
{
    let ghost s0 = substitution@;
    let ghost cs = comm@.to_set();
    let ghost as_ = assoc@.to_set();
    proof {
        lemma_absorbs_refl(s0);
    }
    let mut i: usize = 0;
    while i < la.len()
        invariant
            0 <= i <= la.len(),
            la.len() == ra.len(),
            xs.finite(),
            s0 == old(substitution)@,
            unifier_ok(s0, xs),
            unbound == xs.len() - s0.dom().len(),
            unifier_ok(substitution@, xs),
            absorbs(substitution@, s0),
            substitution@ == s0 || substitution@.dom().len() > s0.dom().len(),
            cs == comm@.to_set(),
            as_ == assoc@.to_set(),
            forall|k: int| 0 <= k < la.len() ==> sterm_size(#[trigger] la@[k]@) < size,
            forall|k: int| 0 <= k < la.len() ==> vars_of(#[trigger] la@[k]@).subset_of(xs),
            forall|k: int| 0 <= k < ra.len() ==> vars_of(#[trigger] ra@[k]@).subset_of(xs),
            forall|k: int, w: u32| 0 <= k < la.len() && #[trigger] vars_of(la@[k]@).contains(w) ==> !s0.contains_key(w),
            forall|k: int| 0 <= k < i ==> ac_alpha(subst_term(#[trigger] la@[k]@, substitution@),
                subst_term(ra@[k]@, substitution@), identity_renaming(), cs, as_),
        decreases la.len() - i,
    {
        let ghost cur = substitution@;
        proof {
            lemma_dom_len(cur, xs);
            lemma_dom_len(s0, xs);
            lemma_instance_vars(la@[i as int]@, cur, xs);
            if cur == s0 {
                lemma_subst_disjoint(la@[i as int]@, s0);
            }
        }
        let ok = ac_unify_terms(
            &la[i],
            &ra[i],
            substitution,
            comm,
            assoc,
            Ghost(xs),
            Ghost(xs.len() - cur.dom().len()),
            Ghost(sterm_size(subst_term(la@[i as int]@, cur))),
        );
        proof {
            lemma_absorbs_trans(substitution@, cur, s0);
        }
        if !ok {
            return false;
        }
        proof {
            let nx = substitution@;
            assert forall|k: int| 0 <= k < i + 1 implies ac_alpha(subst_term(#[trigger] la@[k]@, nx),
                subst_term(ra@[k]@, nx), identity_renaming(), cs, as_) by {
                if k < i {
                    lemma_ac_alpha_subst(subst_term(la@[k]@, cur), subst_term(ra@[k]@, cur), nx, cs, as_);
                    lemma_absorbs_apply(la@[k]@, cur, nx);
                    lemma_absorbs_apply(ra@[k]@, cur, nx);
                }
            }
        }
        i = i + 1;
    }
    true
}

/// Unifies two terms modulo the commutativity of the symbols in `comm` and
/// the associativity and commutativity of those in both lists, extending an
/// idempotent substitution. On success the extended substitution makes the
/// two terms equal modulo AC.
pub fn ac_unify_terms(
    left: &Term,
    right: &Term,
    substitution: &mut Subst,
    comm: &Vec<u32>,
    assoc: &Vec<u32>,
    Ghost(xs): Ghost<Set<u32>>,
    Ghost(unbound): Ghost<int>,
    Ghost(size): Ghost<nat>,
) -> (r: bool)
    requires
        xs.finite(),
        unbound == xs.len() - old(substitution)@.dom().len(),
        size == sterm_size(subst_term(left@, old(substitution)@)),
        unifier_ok(old(substitution)@, xs),
        vars_of(left@).subset_of(xs),
        vars_of(right@).subset_of(xs),
    ensures
        unifier_ok(final(substitution)@, xs),
        absorbs(final(substitution)@, old(substitution)@),
        final(substitution)@ == old(substitution)@ || final(substitution)@.dom().len() > old(substitution)@.dom().len(),
        r ==> ac_alpha(subst_term(left@, final(substitution)@), subst_term(right@, final(substitution)@),
            identity_renaming(), comm@.to_set(), assoc@.to_set()),
    decreases unbound, size, size + 1,
{
    let ghost s0 = substitution@;
    let ghost cs = comm@.to_set();
    let ghost as_ = assoc@.to_set();
    proof {
        lemma_dom_len(s0, xs);
        lemma_absorbs_refl(s0);
        lemma_idempotent_apply(left@, s0);
        lemma_idempotent_apply(right@, s0);
        lemma_instance_vars(left@, s0, xs);
        lemma_instance_vars(right@, s0, xs);
    }
    let a = apply_substitution_term(left, substitution);
    let b = apply_substitution_term(right, substitution);
    if term_eq(&a, &b) {
        proof {
            lemma_ac_alpha_refl(a@, cs, as_);
        }
        return true;
    }
    match (&a, &b) {
        (Term::Var(x), _) => {
            if occurs(*x, &b) {
                return false;
            }
            proof {
                assert(vars_of(a@).contains(*x));
            }
            let bc = copy_term(&b);
            bind_var(substitution, *x, bc, Ghost(xs));
            proof {
                lemma_absorbs_apply(left@, s0, substitution@);
                lemma_absorbs_apply(right@, s0, substitution@);
                lemma_ac_alpha_refl(subst_term(right@, substitution@), cs, as_);
            }
            true
        },
        (_, Term::Var(y)) => {
            if occurs(*y, &a) {
                return false;
            }
            proof {
                assert(vars_of(b@).contains(*y));
            }
            let ac = copy_term(&a);
            bind_var(substitution, *y, ac, Ghost(xs));
            proof {
                lemma_absorbs_apply(left@, s0, substitution@);
                lemma_absorbs_apply(right@, s0, substitution@);
                lemma_ac_alpha_refl(subst_term(right@, substitution@), cs, as_);
            }
            true
        },
        (Term::App(f, la), Term::App(g, ra)) => {
            let ghost tla = terms_view(la@);
            let ghost tra = terms_view(ra@);
            proof {
                lemma_terms_view(la@);
                lemma_terms_view(ra@);
                lemma_vars_all(tla);
                lemma_vars_all(tra);
                assert(a@ == STerm::App(*f, tla));
                assert(b@ == STerm::App(*g, tra));
                assert forall|k: int| 0 <= k < la.len() implies sterm_size(#[trigger] la@[k]@) < size by {
                    lemma_size_arg(*f, tla, k);
                }
                assert forall|k: int| 0 <= k < la.len() implies vars_of(#[trigger] la@[k]@).subset_of(xs) by {
                    assert(tla[k] == la@[k]@);
                    assert forall|w: u32| vars_of(la@[k]@).contains(w) implies xs.contains(w) by {
                        assert(vars_of(tla[k]).contains(w));
                        assert(vars_all(tla).contains(w));
                        assert(vars_of(a@).contains(w));
                    }
                }
                assert forall|k: int| 0 <= k < ra.len() implies vars_of(#[trigger] ra@[k]@).subset_of(xs) by {
                    assert(tra[k] == ra@[k]@);
                    assert forall|w: u32| vars_of(ra@[k]@).contains(w) implies xs.contains(w) by {
                        assert(vars_of(tra[k]).contains(w));
                        assert(vars_all(tra).contains(w));
                        assert(vars_of(b@).contains(w));
                    }
                }
                assert forall|k: int, w: u32| 0 <= k < la.len() && #[trigger] vars_of(la@[k]@).contains(w) implies !s0.contains_key(w) by {
                    assert(tla[k] == la@[k]@);
                    assert(vars_of(tla[k]).contains(w));
                    assert(vars_all(tla).contains(w));
                    assert(vars_of(a@).contains(w));
                }
            }
            if *f == *g && contains_symbol(assoc, *f) && contains_symbol(comm, *f) {
                let lleaves = flatten_ac_term(&a, *f, assoc);
                let rleaves = flatten_ac_term(&b, *g, assoc);
                if lleaves.len() != rleaves.len() {
                    return false;
                }
                let mut used: Vec<bool> = Vec::new();
                let mut k: usize = 0;
                while k < rleaves.len()
                    invariant
                        0 <= k <= rleaves.len(),
                        used@ == Seq::new(k as nat, |x: int| false),
                    decreases rleaves.len() - k,
                {
                    used.push(false);
                    k = k + 1;
                    assert(used@ =~= Seq::new(k as nat, |x: int| false));
                }
                let ghost lv = refs_view(lleaves@);
                let ghost rv = refs_view(rleaves@);
                proof {
                    lemma_leaves_smaller(*f, tla, as_);
                    lemma_leaves_bounds(a@, *f, as_);
                    lemma_leaves_bounds(b@, *f, as_);
                    assert forall|k: int| 0 <= k < lleaves.len() implies sterm_size(#[trigger] lleaves@[k]@) < size by {
                        assert(lv[k] == lleaves@[k]@);
                    }
                    assert forall|k: int| 0 <= k < lleaves.len() implies vars_of(#[trigger] lleaves@[k]@).subset_of(xs) by {
                        assert(lv[k] == lleaves@[k]@);
                    }
                    assert forall|k: int| 0 <= k < rleaves.len() implies vars_of(#[trigger] rleaves@[k]@).subset_of(xs) by {
                        assert(rv[k] == rleaves@[k]@);
                    }
                    assert forall|k: int, w: u32| 0 <= k < lleaves.len() && #[trigger] vars_of(lleaves@[k]@).contains(w) implies !s0.contains_key(w) by {
                        assert(lv[k] == lleaves@[k]@);
                        assert(vars_of(a@).contains(w));
                    }
                }
                let ok = ac_unify_multiset(
                    &lleaves,
                    &rleaves,
                    0,
                    &mut used,
                    substitution,
                    comm,
                    assoc,
                    Ghost(xs),
                    Ghost(s0),
                    Ghost(unbound),
                    Ghost(size),
                );
                proof {
                    if ok {
                        let fin = substitution@;
                        assert(Seq::new(rleaves@.len(), |x: int| false) =~= none_used(rv.len()));
                        lemma_unified_alpha(*f, tla, tra, fin, cs, as_);
                        lemma_absorbs_apply(left@, s0, fin);
                        lemma_absorbs_apply(right@, s0, fin);
                    }
                }
                ok
            } else if *f == *g && contains_symbol(assoc, *f) {
                if la.len() != ra.len() {
                    return false;
                }
                let ok = ac_unify_args(la, ra, substitution, comm, assoc, Ghost(xs), Ghost(unbound), Ghost(size));
                proof {
                    if ok {
                        let fin = substitution@;
                        lemma_subst_terms(tla, fin);
                        lemma_subst_terms(tra, fin);
                        assert forall|k: int| 0 <= k < tla.len() implies ac_alpha(#[trigger] subst_terms(tla, fin)[k], subst_terms(tra, fin)[k], identity_renaming(), cs, as_) by {
                            assert(tla[k] == la@[k]@);
                            assert(tra[k] == ra@[k]@);
                        }
                        lemma_absorbs_apply(left@, s0, fin);
                        lemma_absorbs_apply(right@, s0, fin);
                    }
                }
                ok
            } else if *f == *g && contains_symbol(comm, *f) && la.len() == 2 && ra.len() == 2 {
                let mut direct = substitution.copy();
                proof {
                    lemma_subst_disjoint(la@[0]@, s0);
                    lemma_subst_disjoint(la@[1]@, s0);
                }
                if ac_unify_terms(&la[0], &ra[0], &mut direct, comm, assoc, Ghost(xs), Ghost(unbound),
                    Ghost(sterm_size(la@[0]@))) {
                    let ghost d1 = direct@;
                    proof {
                        lemma_dom_len(d1, xs);
                        lemma_instance_vars(la@[1]@, d1, xs);
                    }
                    if ac_unify_terms(&la[1], &ra[1], &mut direct, comm, assoc, Ghost(xs), Ghost(xs.len() - d1.dom().len()),
                        Ghost(sterm_size(subst_term(la@[1]@, d1)))) {
                        proof {
                            let fin = direct@;
                            lemma_absorbs_trans(fin, d1, s0);
                            lemma_ac_alpha_subst(subst_term(la@[0]@, d1), subst_term(ra@[0]@, d1), fin, cs, as_);
                            lemma_absorbs_apply(la@[0]@, d1, fin);
                            lemma_absorbs_apply(ra@[0]@, d1, fin);
                            lemma_subst_terms(tla, fin);
                            lemma_subst_terms(tra, fin);
                            assert(tla[0] == la@[0]@ && tla[1] == la@[1]@);
                            assert(tra[0] == ra@[0]@ && tra[1] == ra@[1]@);
                            lemma_absorbs_apply(left@, s0, fin);
                            lemma_absorbs_apply(right@, s0, fin);
                        }
                        *substitution = direct;
                        return true;
                    }
                }
                let mut swapped = substitution.copy();
                if ac_unify_terms(&la[0], &ra[1], &mut swapped, comm, assoc, Ghost(xs), Ghost(unbound),
                    Ghost(sterm_size(la@[0]@))) {
                    let ghost d1 = swapped@;
                    proof {
                        lemma_dom_len(d1, xs);
                        lemma_instance_vars(la@[1]@, d1, xs);
                    }
                    if ac_unify_terms(&la[1], &ra[0], &mut swapped, comm, assoc, Ghost(xs), Ghost(xs.len() - d1.dom().len()),
                        Ghost(sterm_size(subst_term(la@[1]@, d1)))) {
                        proof {
                            let fin = swapped@;
                            lemma_absorbs_trans(fin, d1, s0);
                            lemma_ac_alpha_subst(subst_term(la@[0]@, d1), subst_term(ra@[1]@, d1), fin, cs, as_);
                            lemma_absorbs_apply(la@[0]@, d1, fin);
                            lemma_absorbs_apply(ra@[1]@, d1, fin);
                            lemma_subst_terms(tla, fin);
                            lemma_subst_terms(tra, fin);
                            assert(tla[0] == la@[0]@ && tla[1] == la@[1]@);
                            assert(tra[0] == ra@[0]@ && tra[1] == ra@[1]@);
                            lemma_absorbs_apply(left@, s0, fin);
                            lemma_absorbs_apply(right@, s0, fin);
                        }
                        *substitution = swapped;
                        return true;
                    }
                }
                false
            } else {
                if *f != *g || la.len() != ra.len() {
                    return false;
                }
                let ok = ac_unify_args(la, ra, substitution, comm, assoc, Ghost(xs), Ghost(unbound), Ghost(size));
                proof {
                    if ok {
                        let fin = substitution@;
                        lemma_subst_terms(tla, fin);
                        lemma_subst_terms(tra, fin);
                        assert forall|k: int| 0 <= k < tla.len() implies ac_alpha(#[trigger] subst_terms(tla, fin)[k], subst_terms(tra, fin)[k], identity_renaming(), cs, as_) by {
                            assert(tla[k] == la@[k]@);
                            assert(tra[k] == ra@[k]@);
                        }
                        lemma_absorbs_apply(left@, s0, fin);
                        lemma_absorbs_apply(right@, s0, fin);
                    }
                }
                ok
            }
        },
    }
}

/// A unifier modulo AC of two terms, starting from the empty substitution.
pub fn ac_unify_term_pair(a: &Term, b: &Term, comm: &Vec<u32>, assoc: &Vec<u32>) -> (r: Option<Subst>)
    ensures
        r matches Some(s) ==> ac_alpha(subst_term(a@, s@), subst_term(b@, s@), identity_renaming(), comm@.to_set(), assoc@.to_set()),
{
    let ghost vs = vars_of(a@) + vars_of(b@);
    proof {
        lemma_vars_finite(a@);
        lemma_vars_finite(b@);
    }
    let mut s = Subst::new();
    let ghost size = sterm_size(subst_term(a@, s@));
    if ac_unify_terms(a, b, &mut s, comm, assoc, Ghost(vs), Ghost(vs.len() as int), Ghost(size)) {
        Some(s)
    } else {
        None
    }
}

/// A unifier modulo AC of two argument lists, position by position,
/// starting from the empty substitution.
pub fn ac_unify_arg_lists(xs: &Vec<Term>, ys: &Vec<Term>, comm: &Vec<u32>, assoc: &Vec<u32>) -> (r: Option<Subst>)
    requires
        xs@.len() == ys@.len(),
    ensures
        r matches Some(s) ==> forall|k: int| 0 <= k < xs@.len() ==> ac_alpha(subst_term(#[trigger] xs@[k]@, s@),
            subst_term(ys@[k]@, s@), identity_renaming(), comm@.to_set(), assoc@.to_set()),
{
    let ghost tx = terms_view(xs@);
    let ghost ty = terms_view(ys@);
    let ghost vs = vars_all(tx) + vars_all(ty);
    proof {
        lemma_vars_all_finite(tx);
        lemma_vars_all_finite(ty);
        lemma_terms_view(xs@);
        lemma_terms_view(ys@);
        lemma_vars_all(tx);
        lemma_vars_all(ty);
        assert forall|k: int| 0 <= k < xs.len() implies sterm_size(#[trigger] xs@[k]@) < sterm_size(STerm::App(0, tx)) by {
            lemma_size_arg(0, tx, k);
        }
        assert forall|k: int| 0 <= k < xs.len() implies vars_of(#[trigger] xs@[k]@).subset_of(vs) by {
            assert(tx[k] == xs@[k]@);
            assert forall|w: u32| vars_of(xs@[k]@).contains(w) implies vs.contains(w) by {
                assert(vars_of(tx[k]).contains(w));
            }
        }
        assert forall|k: int| 0 <= k < ys.len() implies vars_of(#[trigger] ys@[k]@).subset_of(vs) by {
            assert(ty[k] == ys@[k]@);
            assert forall|w: u32| vars_of(ys@[k]@).contains(w) implies vs.contains(w) by {
                assert(vars_of(ty[k]).contains(w));
            }
        }
    }
    let mut s = Subst::new();
    if ac_unify_args(xs, ys, &mut s, comm, assoc, Ghost(vs), Ghost(vs.len() as int), Ghost(sterm_size(STerm::App(0, tx)))) {
        Some(s)
    } else {
        None
    }
}

} // verus!
