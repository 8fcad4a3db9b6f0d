//! Equality of terms and clauses modulo associativity and commutativity of
//! given function symbols and a renaming of variables, and the bounded
//! backtracking search that establishes it.
use vstd::prelude::*;
use crate::term::{Term, Atom, Literal, STerm, SAtom, SLiteral, sterm_size, sterms_size, terms_view, lemma_terms_view};
use crate::unify::lemma_size_arg;
use crate::term::clause_view;
use crate::subst::term_eq;
use crate::verdict::VerificationLimits;

verus! {

/// The arguments of nested applications of an associative `f`, left to
/// right; a term whose head is not `f` is its own single leaf.
pub open spec fn ac_leaves(t: STerm, f: u32, assoc: Set<u32>) -> Seq<STerm>
    decreases t,
{
    match t {
        STerm::App(g, args) => if g == f && assoc.contains(f) {
            ac_leaves_all(args, f, assoc)
        } else {
            seq![t]
        },
        STerm::Var(_) => seq![t],
    }
}

pub open spec fn ac_leaves_all(ts: Seq<STerm>, f: u32, assoc: Set<u32>) -> Seq<STerm>
    decreases ts,
{
    if ts.len() == 0 {
        Seq::empty()
    } else {
        ac_leaves_all(ts.drop_last(), f, assoc) + ac_leaves(ts.last(), f, assoc)
    }
}

proof fn lemma_leaves_size(t: STerm, f: u32, assoc: Set<u32>)
    ensures
        forall|k: int| 0 <= k < ac_leaves(t, f, assoc).len() ==> sterm_size(#[trigger] ac_leaves(t, f, assoc)[k]) <= sterm_size(t),
    decreases t,
{
    match t {
        STerm::App(g, args) => if g == f && assoc.contains(f) {
            lemma_leaves_all_size(args, f, assoc);
            assert(sterm_size(t) == 1 + sterms_size(args));
            assert(ac_leaves(t, f, assoc) == ac_leaves_all(args, f, assoc));
        } else {
            assert(ac_leaves(t, f, assoc) == seq![t]);
        },
        STerm::Var(_) => {
            assert(ac_leaves(t, f, assoc) == seq![t]);
        },
    }
}

proof fn lemma_leaves_all_size(ts: Seq<STerm>, f: u32, assoc: Set<u32>)
    ensures
        forall|k: int| 0 <= k < ac_leaves_all(ts, f, assoc).len() ==> sterm_size(#[trigger] ac_leaves_all(ts, f, assoc)[k]) <= sterms_size(ts),
    decreases ts,
{
    if ts.len() > 0 {
        lemma_leaves_all_size(ts.drop_last(), f, assoc);
        lemma_leaves_size(ts.last(), f, assoc);
        let a = ac_leaves_all(ts.drop_last(), f, assoc);
        let b = ac_leaves(ts.last(), f, assoc);
        assert forall|k: int| 0 <= k < (a + b).len() implies sterm_size(#[trigger] (a + b)[k]) <= sterms_size(ts) by {
            if k < a.len() {
                assert((a + b)[k] == a[k]);
            } else {
                assert((a + b)[k] == b[k - a.len()]);
            }
        }
    }
}

/// The leaves of an application of an associative symbol are smaller than
/// the application.
pub proof fn lemma_leaves_smaller(f: u32, args: Seq<STerm>, assoc: Set<u32>)
    requires
        assoc.contains(f),
    ensures
        forall|k: int| 0 <= k < ac_leaves(STerm::App(f, args), f, assoc).len()
            ==> sterm_size(#[trigger] ac_leaves(STerm::App(f, args), f, assoc)[k]) < sterm_size(STerm::App(f, args)),
{
    lemma_leaves_all_size(args, f, assoc);
    let t = STerm::App(f, args);
    assert(ac_leaves(t, f, assoc) == ac_leaves_all(args, f, assoc));
    assert(sterm_size(t) == 1 + sterms_size(args));
}

/// `q` is a permutation of `0..n`: `n` distinct indices below `n`.
pub open spec fn index_perm(q: Seq<int>, n: nat) -> bool {
    &&& q.len() == n
    &&& forall|k1: int, k2: int| 0 <= k1 < k2 < n ==> q[k1] != q[k2]
    &&& forall|k: int| 0 <= k < n ==> 0 <= #[trigger] q[k] < n
}

/// `l` equals `r` modulo the renaming `m` of its variables, the
/// commutativity of the symbols in `comm` and the associativity and
/// commutativity of those in both `comm` and `assoc`: a symbol in both
/// compares its leaves up to a permutation, a binary symbol in `comm` alone
/// its arguments in either order, and any other symbol its arguments in
/// order.
pub open spec fn ac_alpha(l: STerm, r: STerm, m: Map<u32, u32>, comm: Set<u32>, assoc: Set<u32>) -> bool
    decreases sterm_size(l),
{
    match (l, r) {
        (STerm::Var(x), STerm::Var(y)) => m.contains_key(x) && m[x] == y,
        (STerm::App(f, la), STerm::App(g, ra)) => {
            if f != g {
                false
            } else if assoc.contains(f) && comm.contains(f) {
                let ll = ac_leaves(l, f, assoc);
                let rl = ac_leaves(r, f, assoc);
                proof {
                    lemma_leaves_smaller(f, la, assoc);
                }
                ll.len() == rl.len() && exists|q: Seq<int>| #[trigger] index_perm(q, ll.len())
                    && forall|k: int| 0 <= k < ll.len() ==> ac_alpha(#[trigger] ll[k], rl[q[k]], m, comm, assoc)
            } else if comm.contains(f) && la.len() == 2 && ra.len() == 2 {
                proof {
                    lemma_size_arg(f, la, 0);
                    lemma_size_arg(f, la, 1);
                }
                (ac_alpha(la[0], ra[0], m, comm, assoc) && ac_alpha(la[1], ra[1], m, comm, assoc))
                    || (ac_alpha(la[0], ra[1], m, comm, assoc) && ac_alpha(la[1], ra[0], m, comm, assoc))
            } else {
                la.len() == ra.len() && forall|k: int| 0 <= k < la.len() ==> {
                    proof {
                        lemma_size_arg(f, la, k);
                    }
                    ac_alpha(#[trigger] la[k], ra[k], m, comm, assoc)
                }
            }
        },
        _ => false,
    }
}

/// Atoms equal modulo AC and the renaming `m`; an equation may also be
/// read with its sides swapped.
pub open spec fn ac_atom_alpha(l: SAtom, r: SAtom, m: Map<u32, u32>, comm: Set<u32>, assoc: Set<u32>) -> bool {
    match (l, r) {
        (SAtom::Pred(p, la), SAtom::Pred(q, ra)) => p == q && la.len() == ra.len()
            && forall|k: int| 0 <= k < la.len() ==> ac_alpha(#[trigger] la[k], ra[k], m, comm, assoc),
        (SAtom::Eq(l1, r1), SAtom::Eq(l2, r2)) =>
            (ac_alpha(l1, l2, m, comm, assoc) && ac_alpha(r1, r2, m, comm, assoc))
                || (ac_alpha(l1, r2, m, comm, assoc) && ac_alpha(r1, l2, m, comm, assoc)),
        _ => false,
    }
}

/// A renaming that sends no two variables to the same one.
pub open spec fn map_injective(m: Map<u32, u32>) -> bool {
    forall|x1: u32, x2: u32| m.contains_key(x1) && m.contains_key(x2) && x1 != x2 ==> m[x1] != m[x2]
}

/// `m2` agrees with `m` wherever `m` is defined.
pub open spec fn map_extends(m2: Map<u32, u32>, m: Map<u32, u32>) -> bool {
    forall|x: u32| #[trigger] m.contains_key(x) ==> m2.contains_key(x) && m2[x] == m[x]
}

/// Literals `i..` of `left` go, one-to-one, to unused literals of `right`
/// of the same sign whose atoms they equal modulo AC and `m`.
pub open spec fn literals_match(
    left: Seq<SLiteral>,
    right: Seq<SLiteral>,
    i: int,
    used: Seq<bool>,
    m: Map<u32, u32>,
    comm: Set<u32>,
    assoc: Set<u32>,
) -> bool {
    exists|q: Seq<int>| #[trigger] q.len() == left.len()
        && (forall|k1: int, k2: int| i <= k1 < k2 < left.len() ==> q[k1] != q[k2])
        && forall|k: int| i <= k < left.len() ==> 0 <= #[trigger] q[k] < right.len() && !used[q[k]]
            && left[k].positive == right[q[k]].positive && ac_atom_alpha(left[k].atom, right[q[k]].atom, m, comm, assoc)
}

/// No index is taken yet.
pub open spec fn none_used(n: nat) -> Seq<bool> {
    Seq::new(n, |k: int| false)
}

/// Two clauses are equal modulo AC and a one-to-one renaming of variables,
/// up to the order of their literals.
pub open spec fn ac_clause_alpha(left: Seq<SLiteral>, right: Seq<SLiteral>, comm: Set<u32>, assoc: Set<u32>) -> bool {
    left.len() == right.len() && exists|m: Map<u32, u32>| map_injective(m)
        && #[trigger] literals_match(left, right, 0, none_used(right.len()), m, comm, assoc)
}

/// Leaves `i..` of `ll` go, one-to-one, to unused leaves of `rl` that they
/// equal modulo AC and `m`.
pub open spec fn leaves_match(
    ll: Seq<STerm>,
    rl: Seq<STerm>,
    i: int,
    used: Seq<bool>,
    m: Map<u32, u32>,
    comm: Set<u32>,
    assoc: Set<u32>,
) -> bool {
    exists|q: Seq<int>| #[trigger] q.len() == ll.len()
        && (forall|k1: int, k2: int| i <= k1 < k2 < ll.len() ==> q[k1] != q[k2])
        && forall|k: int| i <= k < ll.len() ==> 0 <= #[trigger] q[k] < rl.len() && !used[q[k]]
            && ac_alpha(ll[k], rl[q[k]], m, comm, assoc)
}

/// The renaming a list of distinct variable pairs stands for.
pub open spec fn pairs_map(p: Seq<(u32, u32)>) -> Map<u32, u32> {
    Map::new(
        |x: u32| exists|i: int| 0 <= i < p.len() && p[i].0 == x,
        |x: u32| p[choose|i: int| 0 <= i < p.len() && p[i].0 == x].1,
    )
}

/// No variable occurs twice on either side.
pub open spec fn distinct_pairs(p: Seq<(u32, u32)>) -> bool {
    forall|i: int, j: int| 0 <= i < j < p.len() ==> p[i].0 != p[j].0 && p[i].1 != p[j].1
}

proof fn lemma_pairs_map_at(p: Seq<(u32, u32)>, i: int)
    requires
        distinct_pairs(p),
        0 <= i < p.len(),
    ensures
        pairs_map(p).contains_key(p[i].0),
        pairs_map(p)[p[i].0] == p[i].1,
{
    let x = p[i].0;
    assert(exists|j: int| 0 <= j < p.len() && p[j].0 == x);
    let j = choose|j: int| 0 <= j < p.len() && p[j].0 == x;
    if j != i {
        if j < i {
            assert(p[j].0 != p[i].0);
        } else {
            assert(p[i].0 != p[j].0);
        }
    }
}

proof fn lemma_pairs_injective(p: Seq<(u32, u32)>)
    requires
        distinct_pairs(p),
    ensures
        map_injective(pairs_map(p)),
{
    let m = pairs_map(p);
    assert forall|x1: u32, x2: u32| m.contains_key(x1) && m.contains_key(x2) && x1 != x2 implies m[x1] != m[x2] by {
        let i1 = choose|i: int| 0 <= i < p.len() && p[i].0 == x1;
        let i2 = choose|i: int| 0 <= i < p.len() && p[i].0 == x2;
        lemma_pairs_map_at(p, i1);
        lemma_pairs_map_at(p, i2);
        if i1 < i2 {
            assert(p[i1].1 != p[i2].1);
        } else if i2 < i1 {
            assert(p[i2].1 != p[i1].1);
        }
    }
}

proof fn lemma_pairs_push(p: Seq<(u32, u32)>, x: u32, y: u32)
    requires
        distinct_pairs(p),
        !pairs_map(p).contains_key(x),
        forall|i: int| 0 <= i < p.len() ==> p[i].1 != y,
    ensures
        distinct_pairs(p.push((x, y))),
        map_extends(pairs_map(p.push((x, y))), pairs_map(p)),
        pairs_map(p.push((x, y))).contains_key(x),
        pairs_map(p.push((x, y)))[x] == y,
{
    let q = p.push((x, y));
    assert forall|i: int, j: int| 0 <= i < j < q.len() implies q[i].0 != q[j].0 && q[i].1 != q[j].1 by {
        if j == p.len() {
            if q[i].0 == x {
                assert(pairs_map(p).contains_key(x));
            }
        }
    }
    assert forall|z: u32| #[trigger] pairs_map(p).contains_key(z) implies pairs_map(q).contains_key(z)
        && pairs_map(q)[z] == pairs_map(p)[z] by {
        let i = choose|i: int| 0 <= i < p.len() && p[i].0 == z;
        lemma_pairs_map_at(p, i);
        assert(q[i] == p[i]);
        lemma_pairs_map_at(q, i);
    }
    lemma_pairs_map_at(q, p.len() as int);
}

fn lookup_pair(p: &Vec<(u32, u32)>, x: u32) -> (r: Option<u32>)
    requires
        distinct_pairs(p@),
    ensures
        match r {
            Some(v) => pairs_map(p@).contains_key(x) && pairs_map(p@)[x] == v,
            None => !pairs_map(p@).contains_key(x),
        },
{
    let mut i: usize = 0;
    while i < p.len()
        invariant
            0 <= i <= p.len(),
            distinct_pairs(p@),
            forall|k: int| 0 <= k < i ==> p@[k].0 != x,
        decreases p.len() - i,
    {
        if p[i].0 == x {
            proof {
                lemma_pairs_map_at(p@, i as int);
            }
            return Some(p[i].1);
        }
        i = i + 1;
    }
    None
}

fn has_image(p: &Vec<(u32, u32)>, y: u32) -> (r: bool)
    ensures
        r == exists|i: int| 0 <= i < p@.len() && p@[i].1 == y,
{
    let mut i: usize = 0;
    while i < p.len()
        invariant
            0 <= i <= p.len(),
            forall|k: int| 0 <= k < i ==> p@[k].1 != y,
        decreases p.len() - i,
    {
        if p[i].1 == y {
            return true;
        }
        i = i + 1;
    }
    false
}

fn copy_pairs(p: &Vec<(u32, u32)>) -> (r: Vec<(u32, u32)>)
    ensures
        r@ == p@,
{
    let mut out: Vec<(u32, u32)> = Vec::new();
    let mut i: usize = 0;
    while i < p.len()
        invariant
            0 <= i <= p.len(),
            out@ == p@.take(i as int),
        decreases p.len() - i,
    {
        out.push(p[i]);
        i = i + 1;
        assert(out@ =~= p@.take(i as int));
    }
    assert(p@.take(p@.len() as int) =~= p@);
    out
}

pub(crate) fn contains_symbol(v: &Vec<u32>, x: u32) -> (r: bool)
    ensures
        r == v@.to_set().contains(x),
{
    let mut i: usize = 0;
    while i < v.len()
        invariant
            0 <= i <= v.len(),
            forall|k: int| 0 <= k < i ==> v@[k] != x,
        decreases v.len() - i,
    {
        if v[i] == x {
            assert(v@.contains(x)) by {
                assert(v@[i as int] == x);
            }
            return true;
        }
        i = i + 1;
    }
    assert(!v@.contains(x));
    false
}

/// The leaves of a term under an associative `f`, as references into it.
pub open spec fn refs_view(v: Seq<&Term>) -> Seq<STerm> {
    v.map_values(|t: &Term| t@)
}

pub(crate) fn flatten_ac_term<'a>(term: &'a Term, f: u32, assoc: &Vec<u32>) -> (r: Vec<&'a Term>)
    ensures
        refs_view(r@) == ac_leaves(term@, f, assoc@.to_set()),
    decreases term,
{
    match term {
        Term::App(g, args) => {
            if *g == f && contains_symbol(assoc, f) {
                let mut out: Vec<&'a Term> = Vec::new();
                let mut i: usize = 0;
                proof {
                    lemma_terms_view(args@);
                    assert(refs_view(out@) =~= ac_leaves_all(terms_view(args@).take(0), f, assoc@.to_set()));
                }
                while i < args.len()
                    invariant
                        0 <= i <= args.len(),
                        *term is App,
                        (*term)->App_1 == *args,
                        terms_view(args@).len() == args@.len(),
                        forall|k: int| 0 <= k < args@.len() ==> #[trigger] terms_view(args@)[k] == args@[k]@,
                        refs_view(out@) == ac_leaves_all(terms_view(args@).take(i as int), f, assoc@.to_set()),
                    decreases args.len() - i,
                {
                    proof {
                        assert(decreases_to!(*term => (*term)->App_1));
                        assert(decreases_to!((*term)->App_1 => (*term)->App_1@));
                        assert(decreases_to!(args@ => args@[i as int]));
                    }
                    let sub = flatten_ac_term(&args[i], f, assoc);
                    let ghost before = out@;
                    let mut k: usize = 0;
                    while k < sub.len()
                        invariant
                            0 <= k <= sub.len(),
                            refs_view(out@) == refs_view(before) + refs_view(sub@).take(k as int),
                        decreases sub.len() - k,
                    {
                        let ghost mid = out@;
                        out.push(sub[k]);
                        proof {
                            assert(refs_view(out@) =~= refs_view(mid).push(sub@[k as int]@));
                            assert(refs_view(sub@).take(k as int + 1) =~= refs_view(sub@).take(k as int).push(sub@[k as int]@));
                        }
                        k = k + 1;
                        assert(refs_view(out@) =~= refs_view(before) + refs_view(sub@).take(k as int));
                    }
                    proof {
                        let tv = terms_view(args@);
                        assert(tv.take(i as int + 1).drop_last() =~= tv.take(i as int));
                        assert(tv.take(i as int + 1).last() == args@[i as int]@);
                        assert(refs_view(sub@).take(sub@.len() as int) =~= refs_view(sub@));
                    }
                    i = i + 1;
                }
                proof {
                    assert(terms_view(args@).take(args@.len() as int) =~= terms_view(args@));
                }
                out
            } else {
                let out = vec![term];
                assert(refs_view(out@) =~= seq![term@]);
                out
            }
        },
        Term::Var(_) => {
            let out = vec![term];
            assert(refs_view(out@) =~= seq![term@]);
            out
        },
    }
}

/// A pending obligation of the AC matching search.
enum AcGoal<'a> {
    Terms(&'a Term, &'a Term),
    Args(&'a Vec<Term>, &'a Vec<Term>, usize),
    Leaves(Vec<&'a Term>, Vec<&'a Term>, usize, Vec<bool>),
    Literals(usize, Vec<bool>),
}

/// An obligation as a value.
enum SGoal {
    Terms(STerm, STerm),
    Args(Seq<STerm>, Seq<STerm>, int),
    Leaves(Seq<STerm>, Seq<STerm>, int, Seq<bool>),
    Literals(int, Seq<bool>),
}

spec fn goal_view(g: AcGoal) -> SGoal {
    match g {
        AcGoal::Terms(l, r) => SGoal::Terms(l@, r@),
        AcGoal::Args(la, ra, i) => SGoal::Args(terms_view(la@), terms_view(ra@), i as int),
        AcGoal::Leaves(ll, rl, i, used) => SGoal::Leaves(refs_view(ll@), refs_view(rl@), i as int, used@),
        AcGoal::Literals(i, used) => SGoal::Literals(i as int, used@),
    }
}

spec fn goals_view(gs: Seq<AcGoal>) -> Seq<SGoal> {
    gs.map_values(|g: AcGoal| goal_view(g))
}

spec fn goal_holds(g: SGoal, left: Seq<SLiteral>, right: Seq<SLiteral>, m: Map<u32, u32>, comm: Set<u32>, assoc: Set<u32>) -> bool {
    match g {
        SGoal::Terms(l, r) => ac_alpha(l, r, m, comm, assoc),
        SGoal::Args(la, ra, i) => forall|k: int| i <= k < la.len() ==> ac_alpha(#[trigger] la[k], ra[k], m, comm, assoc),
        SGoal::Leaves(ll, rl, i, used) => leaves_match(ll, rl, i, used, m, comm, assoc),
        SGoal::Literals(i, used) => literals_match(left, right, i, used, m, comm, assoc),
    }
}

spec fn goal_wf(g: SGoal, n_left: nat, n_right: nat) -> bool {
    match g {
        SGoal::Terms(_, _) => true,
        SGoal::Args(la, ra, i) => la.len() == ra.len() && 0 <= i <= la.len(),
        SGoal::Leaves(ll, rl, i, used) => ll.len() == rl.len() && used.len() == rl.len() && 0 <= i <= ll.len(),
        SGoal::Literals(i, used) => used.len() == n_right && 0 <= i <= n_left,
    }
}

spec fn atom_measure(a: SAtom) -> nat {
    match a {
        SAtom::Pred(_, args) => 2 * args.len() + 1,
        SAtom::Eq(_, _) => 2,
    }
}

spec fn literals_measure(left: Seq<SLiteral>, i: int) -> nat
    decreases left.len() - i,
{
    if i < 0 || i >= left.len() {
        0
    } else {
        atom_measure(left[i].atom) + 1 + literals_measure(left, i + 1)
    }
}

spec fn goal_measure(g: SGoal, left: Seq<SLiteral>) -> nat {
    match g {
        SGoal::Terms(_, _) => 1,
        SGoal::Args(la, _, i) => 2 * ((la.len() - i) as nat) + 1,
        SGoal::Leaves(ll, _, i, _) => 2 * ((ll.len() - i) as nat) + 1,
        SGoal::Literals(i, _) => literals_measure(left, i) + 1,
    }
}

spec fn goals_measure(gs: Seq<SGoal>, left: Seq<SLiteral>) -> nat
    decreases gs.len(),
{
    if gs.len() == 0 {
        0
    } else {
        goals_measure(gs.drop_last(), left) + goal_measure(gs.last(), left)
    }
}

proof fn lemma_goals_push(gs: Seq<SGoal>, g: SGoal, left: Seq<SLiteral>)
    ensures
        goals_measure(gs.push(g), left) == goals_measure(gs, left) + goal_measure(g, left),
{
    assert(gs.push(g).drop_last() =~= gs);
}

fn copy_bools(v: &Vec<bool>) -> (r: Vec<bool>)
    ensures
        r@ == v@,
{
    let mut out: Vec<bool> = Vec::new();
    let mut i: usize = 0;
    while i < v.len()
        invariant
            0 <= i <= v.len(),
            out@ == v@.take(i as int),
        decreases v.len() - i,
    {
        out.push(v[i]);
        i = i + 1;
        assert(out@ =~= v@.take(i as int));
    }
    assert(v@.take(v@.len() as int) =~= v@);
    out
}

fn copy_refs<'a>(v: &Vec<&'a Term>) -> (r: Vec<&'a Term>)
    ensures
        r@ == v@,
{
    let mut out: Vec<&'a Term> = Vec::new();
    let mut i: usize = 0;
    while i < v.len()
        invariant
            0 <= i <= v.len(),
            out@ == v@.take(i as int),
        decreases v.len() - i,
    {
        out.push(v[i]);
        i = i + 1;
        assert(out@ =~= v@.take(i as int));
    }
    assert(v@.take(v@.len() as int) =~= v@);
    out
}

fn copy_goal<'a>(g: &AcGoal<'a>) -> (r: AcGoal<'a>)
    ensures
        goal_view(r) == goal_view(*g),
{
    match g {
        AcGoal::Terms(l, r) => AcGoal::Terms(*l, *r),
        AcGoal::Args(la, ra, i) => AcGoal::Args(*la, *ra, *i),
        AcGoal::Leaves(ll, rl, i, used) => AcGoal::Leaves(copy_refs(ll), copy_refs(rl), *i, copy_bools(used)),
        AcGoal::Literals(i, used) => AcGoal::Literals(*i, copy_bools(used)),
    }
}

fn copy_goals<'a>(gs: &Vec<AcGoal<'a>>) -> (r: Vec<AcGoal<'a>>)
    ensures
        goals_view(r@) == goals_view(gs@),
{
    let mut out: Vec<AcGoal<'a>> = Vec::new();
    let mut i: usize = 0;
    while i < gs.len()
        invariant
            0 <= i <= gs.len(),
            goals_view(out@) == goals_view(gs@.take(i as int)),
        decreases gs.len() - i,
    {
        let ghost before = out@;
        out.push(copy_goal(&gs[i]));
        proof {
            assert(goals_view(out@) =~= goals_view(before).push(goal_view(gs@[i as int])));
            assert(goals_view(gs@.take(i as int + 1)) =~= goals_view(gs@.take(i as int)).push(goal_view(gs@[i as int])));
        }
        i = i + 1;
    }
    assert(gs@.take(gs@.len() as int) =~= gs@);
    out
}

/// The unused leaves of `rl`, the likeliest partners of leaf `i` first:
/// an identical leaf, then a variable already renamed to it, then the same
/// variable not yet taken, then the rest, each group in index order.
fn leaf_candidates(ll: &Vec<&Term>, rl: &Vec<&Term>, i: usize, used: &Vec<bool>, pairs: &Vec<(u32, u32)>) -> (r: Vec<usize>)
    requires
        i < ll@.len(),
        used@.len() == rl@.len(),
        distinct_pairs(pairs@),
    ensures
        forall|k: int| 0 <= k < r@.len() ==> #[trigger] r@[k] < rl@.len() && !used@[r@[k] as int],
{
    let mut out: Vec<usize> = Vec::new();
    let mut rank: u8 = 0;
    while rank < 4
        invariant
            0 <= rank <= 4,
            i < ll@.len(),
            used@.len() == rl@.len(),
            distinct_pairs(pairs@),
            forall|k: int| 0 <= k < out@.len() ==> #[trigger] out@[k] < rl@.len() && !used@[out@[k] as int],
        decreases 4 - rank,
    {
        let mut j: usize = 0;
        while j < rl.len()
            invariant
                0 <= j <= rl@.len(),
                i < ll@.len(),
                used@.len() == rl@.len(),
                distinct_pairs(pairs@),
                forall|k: int| 0 <= k < out@.len() ==> #[trigger] out@[k] < rl@.len() && !used@[out@[k] as int],
            decreases rl.len() - j,
        {
            if !used[j] && match_priority(ll[i], rl[j], pairs) == rank {
                out.push(j);
            }
            j = j + 1;
        }
        rank = rank + 1;
    }
    out
}

fn match_priority(l: &Term, r: &Term, pairs: &Vec<(u32, u32)>) -> (rank: u8)
    requires
        distinct_pairs(pairs@),
{
    if term_eq(l, r) {
        return 0;
    }
    match (l, r) {
        (Term::Var(x), Term::Var(y)) => {
            if lookup_pair(pairs, *x) == Some(*y) {
                1
            } else if *x == *y && !has_image(pairs, *y) {
                2
            } else {
                3
            }
        },
        _ => 3,
    }
}

proof fn lemma_literals_step(
    left: Seq<SLiteral>,
    right: Seq<SLiteral>,
    i: int,
    used: Seq<bool>,
    j: int,
    m: Map<u32, u32>,
    comm: Set<u32>,
    assoc: Set<u32>,
)
    requires
        0 <= i < left.len(),
        0 <= j < right.len(),
        used.len() == right.len(),
        !used[j],
        left[i].positive == right[j].positive,
        ac_atom_alpha(left[i].atom, right[j].atom, m, comm, assoc),
        literals_match(left, right, i + 1, used.update(j, true), m, comm, assoc),
    ensures
        literals_match(left, right, i, used, m, comm, assoc),
{
    let u2 = used.update(j, true);
    let q = choose|q: Seq<int>| #[trigger] q.len() == left.len()
        && (forall|k1: int, k2: int| i + 1 <= k1 < k2 < left.len() ==> q[k1] != q[k2])
        && forall|k: int| i + 1 <= k < left.len() ==> 0 <= #[trigger] q[k] < right.len() && !u2[q[k]]
            && left[k].positive == right[q[k]].positive && ac_atom_alpha(left[k].atom, right[q[k]].atom, m, comm, assoc);
    let q2 = q.update(i, j);
    assert forall|k: int| i <= k < left.len() implies 0 <= #[trigger] q2[k] < right.len() && !used[q2[k]]
        && left[k].positive == right[q2[k]].positive && ac_atom_alpha(left[k].atom, right[q2[k]].atom, m, comm, assoc) by {
        if k > i {
            assert(q2[k] == q[k]);
            assert(!u2[q[k]]);
        }
    }
    assert forall|k1: int, k2: int| i <= k1 < k2 < left.len() implies q2[k1] != q2[k2] by {
        if k1 == i {
            assert(q2[k2] == q[k2]);
            assert(!u2[q[k2]]);
        }
    }
    assert(q2.len() == left.len());
}

proof fn lemma_leaves_step(
    ll: Seq<STerm>,
    rl: Seq<STerm>,
    i: int,
    used: Seq<bool>,
    j: int,
    m: Map<u32, u32>,
    comm: Set<u32>,
    assoc: Set<u32>,
)
    requires
        0 <= i < ll.len(),
        0 <= j < rl.len(),
        used.len() == rl.len(),
        !used[j],
        ac_alpha(ll[i], rl[j], m, comm, assoc),
        leaves_match(ll, rl, i + 1, used.update(j, true), m, comm, assoc),
    ensures
        leaves_match(ll, rl, i, used, m, comm, assoc),
{
    let u2 = used.update(j, true);
    let q = choose|q: Seq<int>| #[trigger] q.len() == ll.len()
        && (forall|k1: int, k2: int| i + 1 <= k1 < k2 < ll.len() ==> q[k1] != q[k2])
        && forall|k: int| i + 1 <= k < ll.len() ==> 0 <= #[trigger] q[k] < rl.len() && !u2[q[k]]
            && ac_alpha(ll[k], rl[q[k]], m, comm, assoc);
    let q2 = q.update(i, j);
    assert forall|k: int| i <= k < ll.len() implies 0 <= #[trigger] q2[k] < rl.len() && !used[q2[k]]
        && ac_alpha(ll[k], rl[q2[k]], m, comm, assoc) by {
        if k > i {
            assert(q2[k] == q[k]);
            assert(!u2[q[k]]);
        }
    }
    assert forall|k1: int, k2: int| i <= k1 < k2 < ll.len() implies q2[k1] != q2[k2] by {
        if k1 == i {
            assert(q2[k2] == q[k2]);
            assert(!u2[q[k2]]);
        }
    }
    assert(q2.len() == ll.len());
}

spec fn all_goals_wf(gs: Seq<SGoal>, n_left: nat, n_right: nat) -> bool {
    forall|k: int| 0 <= k < gs.len() ==> goal_wf(#[trigger] gs[k], n_left, n_right)
}

spec fn all_goals_hold(gs: Seq<SGoal>, left: Seq<SLiteral>, right: Seq<SLiteral>, m: Map<u32, u32>, comm: Set<u32>, assoc: Set<u32>) -> bool {
    forall|k: int| 0 <= k < gs.len() ==> goal_holds(#[trigger] gs[k], left, right, m, comm, assoc)
}

proof fn lemma_extends_trans(m3: Map<u32, u32>, m2: Map<u32, u32>, m1: Map<u32, u32>)
    requires
        map_extends(m3, m2),
        map_extends(m2, m1),
    ensures
        map_extends(m3, m1),
{
    assert forall|x: u32| #[trigger] m1.contains_key(x) implies m3.contains_key(x) && m3[x] == m1[x] by {
        assert(m2.contains_key(x));
    }
}

/// Works through the obligations, last first, trying the alternatives of
/// each in order and backtracking on failure, within `max_steps` term
/// comparisons in all; on success gives a renaming that extends `pairs`
/// and meets every obligation.
#[verifier::loop_isolation(false)]
fn solve<'a>(
    goals: Vec<AcGoal<'a>>,
    pairs: &Vec<(u32, u32)>,
    left: &'a Vec<Literal>,
    right: &'a Vec<Literal>,
    comm: &Vec<u32>,
    assoc: &Vec<u32>,
    steps: &mut usize,
    max_steps: usize,
) -> (r: Option<Vec<(u32, u32)>>)
    requires
        distinct_pairs(pairs@),
        *old(steps) <= max_steps,
        all_goals_wf(goals_view(goals@), left@.len(), right@.len()),
    ensures
        *old(steps) <= *final(steps) <= max_steps,
        r matches Some(p2) ==> distinct_pairs(p2@) && map_extends(pairs_map(p2@), pairs_map(pairs@))
            && all_goals_hold(goals_view(goals@), clause_view(left@), clause_view(right@), pairs_map(p2@),
                comm@.to_set(), assoc@.to_set()),
    decreases max_steps - *old(steps), goals_measure(goals_view(goals@), clause_view(left@)),
{
    let ghost lv = clause_view(left@);
    let ghost rv = clause_view(right@);
    let ghost cs = comm@.to_set();
    let ghost as_ = assoc@.to_set();
    let ghost m0 = pairs_map(pairs@);
    if goals.len() == 0 {
        let out = copy_pairs(pairs);
        assert(map_extends(pairs_map(out@), m0));
        return Some(out);
    }
    let ghost all = goals_view(goals@);
    let mut goals = goals;
    let g = goals.pop().unwrap();
    let ghost rest = goals_view(goals@);
    proof {
        assert(all =~= rest.push(goal_view(g)));
        lemma_goals_push(rest, goal_view(g), lv);
        assert(goal_wf(all[all.len() - 1], left@.len(), right@.len()));
        assert(all_goals_wf(rest, left@.len(), right@.len())) by {
            assert forall|k: int| 0 <= k < rest.len() implies goal_wf(#[trigger] rest[k], left@.len(), right@.len()) by {
                assert(rest[k] == all[k]);
            }
        }
    }
    match g {
        AcGoal::Literals(i, used) => {
            if *steps >= max_steps {
                return None;
            }
            if i == left.len() {
                let r = solve(goals, pairs, left, right, comm, assoc, steps, max_steps);
                proof {
                    if r is Some {
                        let m2 = pairs_map(r->Some_0@);
                        assert(literals_match(lv, rv, i as int, used@, m2, cs, as_)) by {
                            let q = Seq::new(lv.len(), |k: int| 0int);
                            assert(q.len() == lv.len());
                        }
                        assert forall|k: int| 0 <= k < all.len() implies goal_holds(#[trigger] all[k], lv, rv, m2, cs, as_) by {
                            if k < rest.len() {
                                assert(all[k] == rest[k]);
                            }
                        }
                    }
                }
                return r;
            }
            let mut j: usize = 0;
            while j < right.len()
                invariant
                    0 <= j <= right@.len(),
                    *old(steps) <= *steps <= max_steps,
                    i < left@.len(),
                    used@.len() == right@.len(),
                    goals_view(goals@) == rest,
                decreases right.len() - j,
            {
                if !used[j] && left[i].positive == right[j].positive {
                    let mut used2 = copy_bools(&used);
                    used2.set(j, true);
                    proof {
                        assert(lv[i as int] == left@[i as int]@);
                        assert(rv[j as int] == right@[j as int]@);
                    }
                    match (&left[i].atom, &right[j].atom) {
                        (Atom::Pred(p, la), Atom::Pred(q, ra)) => {
                            if *p == *q && la.len() == ra.len() {
                                let mut next = copy_goals(&goals);
                                let lit_goal = AcGoal::Literals(i + 1, used2);
                                let arg_goal = AcGoal::Args(la, ra, 0);
                                let ghost n1 = goals_view(next@);
                                next.push(lit_goal);
                                let ghost n2 = goals_view(next@);
                                next.push(arg_goal);
                                proof {
                                    lemma_terms_view(la@);
                                    lemma_terms_view(ra@);
                                    assert(n2 =~= n1.push(goal_view(lit_goal)));
                                    assert(goals_view(next@) =~= n2.push(goal_view(arg_goal)));
                                    lemma_goals_push(n1, goal_view(lit_goal), lv);
                                    lemma_goals_push(n2, goal_view(arg_goal), lv);
                                    assert(literals_measure(lv, i as int) == atom_measure(lv[i as int].atom) + 1 + literals_measure(lv, i + 1));
                                    assert forall|k: int| 0 <= k < goals_view(next@).len() implies goal_wf(#[trigger] goals_view(next@)[k], left@.len(), right@.len()) by {
                                        if k < rest.len() {
                                            assert(goals_view(next@)[k] == rest[k]);
                                        }
                                    }
                                }
                                let r = solve(next, pairs, left, right, comm, assoc, steps, max_steps);
                                match r {
                                    Some(p2) => {
                                        proof {
                                            let m2 = pairs_map(p2@);
                                            let nv = n2.push(goal_view(arg_goal));
                                            assert(goal_holds(nv[nv.len() - 1], lv, rv, m2, cs, as_));
                                            assert(goal_holds(nv[nv.len() - 2], lv, rv, m2, cs, as_));
                                            assert(ac_atom_alpha(lv[i as int].atom, rv[j as int].atom, m2, cs, as_)) by {
                                                assert forall|k: int| 0 <= k < terms_view(la@).len() implies ac_alpha(#[trigger] terms_view(la@)[k], terms_view(ra@)[k], m2, cs, as_) by {
                                                    assert(0 <= k < terms_view(la@).len());
                                                }
                                            }
                                            lemma_literals_step(lv, rv, i as int, used@, j as int, m2, cs, as_);
                                            assert forall|k: int| 0 <= k < all.len() implies goal_holds(#[trigger] all[k], lv, rv, m2, cs, as_) by {
                                                if k < rest.len() {
                                                    assert(all[k] == rest[k]);
                                                    assert(nv[k] == rest[k]);
                                                }
                                            }
                                        }
                                        return Some(p2);
                                    },
                                    None => {},
                                }
                            }
                        },
                        (Atom::Eq(ll, lr), Atom::Eq(rl, rr)) => {
                            let used3 = copy_bools(&used2);
                            let mut next = copy_goals(&goals);
                            let lit_goal = AcGoal::Literals(i + 1, used2);
                            let ghost n1 = goals_view(next@);
                            next.push(lit_goal);
                            let ghost n2 = goals_view(next@);
                            next.push(AcGoal::Terms(lr, rr));
                            let ghost n3 = goals_view(next@);
                            next.push(AcGoal::Terms(ll, rl));
                            proof {
                                assert(n2 =~= n1.push(goal_view(lit_goal)));
                                assert(n3 =~= n2.push(SGoal::Terms(lr@, rr@)));
                                assert(goals_view(next@) =~= n3.push(SGoal::Terms(ll@, rl@)));
                                lemma_goals_push(n1, goal_view(lit_goal), lv);
                                lemma_goals_push(n2, SGoal::Terms(lr@, rr@), lv);
                                lemma_goals_push(n3, SGoal::Terms(ll@, rl@), lv);
                                assert(literals_measure(lv, i as int) == atom_measure(lv[i as int].atom) + 1 + literals_measure(lv, i + 1));
                                assert forall|k: int| 0 <= k < goals_view(next@).len() implies goal_wf(#[trigger] goals_view(next@)[k], left@.len(), right@.len()) by {
                                    if k < rest.len() {
                                        assert(goals_view(next@)[k] == rest[k]);
                                    }
                                }
                            }
                            let r = solve(next, pairs, left, right, comm, assoc, steps, max_steps);
                            if let Some(p2) = r {
                                proof {
                                    let m2 = pairs_map(p2@);
                                    let nv = n3.push(SGoal::Terms(ll@, rl@));
                                    assert(goal_holds(nv[nv.len() - 1], lv, rv, m2, cs, as_));
                                    assert(goal_holds(nv[nv.len() - 2], lv, rv, m2, cs, as_));
                                    assert(goal_holds(nv[nv.len() - 3], lv, rv, m2, cs, as_));
                                    lemma_literals_step(lv, rv, i as int, used@, j as int, m2, cs, as_);
                                    assert forall|k: int| 0 <= k < all.len() implies goal_holds(#[trigger] all[k], lv, rv, m2, cs, as_) by {
                                        if k < rest.len() {
                                            assert(all[k] == rest[k]);
                                            assert(nv[k] == rest[k]);
                                        }
                                    }
                                }
                                return Some(p2);
                            }
                            let mut next = copy_goals(&goals);
                            let lit_goal = AcGoal::Literals(i + 1, used3);
                            let ghost n1 = goals_view(next@);
                            next.push(lit_goal);
                            let ghost n2 = goals_view(next@);
                            next.push(AcGoal::Terms(lr, rl));
                            let ghost n3 = goals_view(next@);
                            next.push(AcGoal::Terms(ll, rr));
                            proof {
                                assert(n2 =~= n1.push(goal_view(lit_goal)));
                                assert(n3 =~= n2.push(SGoal::Terms(lr@, rl@)));
                                assert(goals_view(next@) =~= n3.push(SGoal::Terms(ll@, rr@)));
                                lemma_goals_push(n1, goal_view(lit_goal), lv);
                                lemma_goals_push(n2, SGoal::Terms(lr@, rl@), lv);
                                lemma_goals_push(n3, SGoal::Terms(ll@, rr@), lv);
                                assert(literals_measure(lv, i as int) == atom_measure(lv[i as int].atom) + 1 + literals_measure(lv, i + 1));
                                assert forall|k: int| 0 <= k < goals_view(next@).len() implies goal_wf(#[trigger] goals_view(next@)[k], left@.len(), right@.len()) by {
                                    if k < rest.len() {
                                        assert(goals_view(next@)[k] == rest[k]);
                                    }
                                }
                            }
                            let r = solve(next, pairs, left, right, comm, assoc, steps, max_steps);
                            if let Some(p2) = r {
                                proof {
                                    let m2 = pairs_map(p2@);
                                    let nv = n3.push(SGoal::Terms(ll@, rr@));
                                    assert(goal_holds(nv[nv.len() - 1], lv, rv, m2, cs, as_));
                                    assert(goal_holds(nv[nv.len() - 2], lv, rv, m2, cs, as_));
                                    assert(goal_holds(nv[nv.len() - 3], lv, rv, m2, cs, as_));
                                    lemma_literals_step(lv, rv, i as int, used@, j as int, m2, cs, as_);
                                    assert forall|k: int| 0 <= k < all.len() implies goal_holds(#[trigger] all[k], lv, rv, m2, cs, as_) by {
                                        if k < rest.len() {
                                            assert(all[k] == rest[k]);
                                            assert(nv[k] == rest[k]);
                                        }
                                    }
                                }
                                return Some(p2);
                            }
                        },
                        _ => {},
                    }
                }
                j = j + 1;
            }
            None
        },
        AcGoal::Args(la, ra, i) => {
            if *steps >= max_steps {
                return None;
            }
            proof {
                lemma_terms_view(la@);
                lemma_terms_view(ra@);
            }
            if i == la.len() {
                let r = solve(goals, pairs, left, right, comm, assoc, steps, max_steps);
                proof {
                    if r is Some {
                        let m2 = pairs_map(r->Some_0@);
                        assert forall|k: int| 0 <= k < all.len() implies goal_holds(#[trigger] all[k], lv, rv, m2, cs, as_) by {
                            if k < rest.len() {
                                assert(all[k] == rest[k]);
                            }
                        }
                    }
                }
                return r;
            }
            let args_goal = AcGoal::Args(la, ra, i + 1);
            let term_goal = AcGoal::Terms(&la[i], &ra[i]);
            let ghost n1 = goals_view(goals@);
            goals.push(args_goal);
            let ghost n2 = goals_view(goals@);
            goals.push(term_goal);
            proof {
                assert(n2 =~= n1.push(goal_view(args_goal)));
                assert(goals_view(goals@) =~= n2.push(goal_view(term_goal)));
                lemma_goals_push(n1, goal_view(args_goal), lv);
                lemma_goals_push(n2, goal_view(term_goal), lv);
                assert forall|k: int| 0 <= k < goals_view(goals@).len() implies goal_wf(#[trigger] goals_view(goals@)[k], left@.len(), right@.len()) by {
                    if k < rest.len() {
                        assert(goals_view(goals@)[k] == rest[k]);
                    }
                }
            }
            let r = solve(goals, pairs, left, right, comm, assoc, steps, max_steps);
            proof {
                if r is Some {
                    let m2 = pairs_map(r->Some_0@);
                    let nv = n2.push(goal_view(term_goal));
                    assert(goal_holds(nv[nv.len() - 1], lv, rv, m2, cs, as_));
                    assert(goal_holds(nv[nv.len() - 2], lv, rv, m2, cs, as_));
                    assert(goal_holds(all[all.len() - 1], lv, rv, m2, cs, as_)) by {
                        assert forall|k: int| i <= k < terms_view(la@).len() implies ac_alpha(#[trigger] terms_view(la@)[k], terms_view(ra@)[k], m2, cs, as_) by {
                            if k > i {
                                assert(i + 1 <= k);
                            }
                        }
                    }
                    assert forall|k: int| 0 <= k < all.len() implies goal_holds(#[trigger] all[k], lv, rv, m2, cs, as_) by {
                        if k < rest.len() {
                            assert(all[k] == rest[k]);
                            assert(nv[k] == rest[k]);
                        }
                    }
                }
            }
            r
        },
        AcGoal::Leaves(ll, rl, i, used) => {
            if *steps >= max_steps {
                return None;
            }
            if i == ll.len() {
                let r = solve(goals, pairs, left, right, comm, assoc, steps, max_steps);
                proof {
                    if r is Some {
                        let m2 = pairs_map(r->Some_0@);
                        assert(leaves_match(refs_view(ll@), refs_view(rl@), i as int, used@, m2, cs, as_)) by {
                            let q = Seq::new(ll@.len(), |k: int| 0int);
                            assert(q.len() == refs_view(ll@).len());
                        }
                        assert forall|k: int| 0 <= k < all.len() implies goal_holds(#[trigger] all[k], lv, rv, m2, cs, as_) by {
                            if k < rest.len() {
                                assert(all[k] == rest[k]);
                            }
                        }
                    }
                }
                return r;
            }
            let candidates = leaf_candidates(&ll, &rl, i, &used, pairs);
            let mut c: usize = 0;
            while c < candidates.len()
                invariant
                    0 <= c <= candidates@.len(),
                    *old(steps) <= *steps <= max_steps,
                    i < ll@.len(),
                    ll@.len() == rl@.len(),
                    used@.len() == rl@.len(),
                    goals_view(goals@) == rest,
                    forall|k: int| 0 <= k < candidates@.len() ==> #[trigger] candidates@[k] < rl@.len() && !used@[candidates@[k] as int],
                decreases candidates.len() - c,
            {
                let j = candidates[c];
                assert(j < rl@.len() && !used@[j as int]);
                let mut used2 = copy_bools(&used);
                used2.set(j, true);
                let mut next = copy_goals(&goals);
                let leaves_goal = AcGoal::Leaves(copy_refs(&ll), copy_refs(&rl), i + 1, used2);
                let term_goal = AcGoal::Terms(ll[i], rl[j]);
                let ghost n1 = goals_view(next@);
                next.push(leaves_goal);
                let ghost n2 = goals_view(next@);
                next.push(term_goal);
                proof {
                    assert(n2 =~= n1.push(goal_view(leaves_goal)));
                    assert(goals_view(next@) =~= n2.push(goal_view(term_goal)));
                    lemma_goals_push(n1, goal_view(leaves_goal), lv);
                    lemma_goals_push(n2, goal_view(term_goal), lv);
                    assert forall|k: int| 0 <= k < goals_view(next@).len() implies goal_wf(#[trigger] goals_view(next@)[k], left@.len(), right@.len()) by {
                        if k < rest.len() {
                            assert(goals_view(next@)[k] == rest[k]);
                        }
                    }
                }
                let r = solve(next, pairs, left, right, comm, assoc, steps, max_steps);
                if let Some(p2) = r {
                    proof {
                        let m2 = pairs_map(p2@);
                        let nv = n2.push(goal_view(term_goal));
                        assert(goal_holds(nv[nv.len() - 1], lv, rv, m2, cs, as_));
                        assert(goal_holds(nv[nv.len() - 2], lv, rv, m2, cs, as_));
                        assert(refs_view(ll@)[i as int] == ll@[i as int]@);
                        assert(refs_view(rl@)[j as int] == rl@[j as int]@);
                        lemma_leaves_step(refs_view(ll@), refs_view(rl@), i as int, used@, j as int, m2, cs, as_);
                        assert forall|k: int| 0 <= k < all.len() implies goal_holds(#[trigger] all[k], lv, rv, m2, cs, as_) by {
                            if k < rest.len() {
                                assert(all[k] == rest[k]);
                                assert(nv[k] == rest[k]);
                            }
                        }
                    }
                    return Some(p2);
                }
                c = c + 1;
            }
            None
        },
        AcGoal::Terms(l, r) => {
            if *steps >= max_steps {
                return None;
            }
            *steps = *steps + 1;
            match (l, r) {
                (Term::Var(x), Term::Var(y)) => {
                    match lookup_pair(pairs, *x) {
                        Some(v) => {
                            if v != *y {
                                return None;
                            }
                            let res = solve(goals, pairs, left, right, comm, assoc, steps, max_steps);
                            proof {
                                if res is Some {
                                    let m2 = pairs_map(res->Some_0@);
                                    assert(m0.contains_key(*x));
                                    assert forall|k: int| 0 <= k < all.len() implies goal_holds(#[trigger] all[k], lv, rv, m2, cs, as_) by {
                                        if k < rest.len() {
                                            assert(all[k] == rest[k]);
                                        }
                                    }
                                }
                            }
                            res
                        },
                        None => {
                            if has_image(pairs, *y) {
                                return None;
                            }
                            let mut p1 = copy_pairs(pairs);
                            p1.push((*x, *y));
                            proof {
                                lemma_pairs_push(pairs@, *x, *y);
                            }
                            let res = solve(goals, &p1, left, right, comm, assoc, steps, max_steps);
                            proof {
                                if res is Some {
                                    let m2 = pairs_map(res->Some_0@);
                                    let m1 = pairs_map(p1@);
                                    lemma_extends_trans(m2, m1, m0);
                                    assert(m1.contains_key(*x));
                                    assert forall|k: int| 0 <= k < all.len() implies goal_holds(#[trigger] all[k], lv, rv, m2, cs, as_) by {
                                        if k < rest.len() {
                                            assert(all[k] == rest[k]);
                                        }
                                    }
                                }
                            }
                            res
                        },
                    }
                },
                (Term::App(f, la), Term::App(g2, ra)) => {
                    if *f != *g2 {
                        return None;
                    }
                    proof {
                        lemma_terms_view(la@);
                        lemma_terms_view(ra@);
                    }
                    if contains_symbol(assoc, *f) && contains_symbol(comm, *f) {
                        let ll = flatten_ac_term(l, *f, assoc);
                        let rl = flatten_ac_term(r, *f, assoc);
                        if ll.len() != rl.len() {
                            return None;
                        }
                        let mut used: Vec<bool> = Vec::new();
                        let mut k: usize = 0;
                        while k < rl.len()
                            invariant
                                0 <= k <= rl@.len(),
                                used@ == Seq::new(k as nat, |x: int| false),
                            decreases rl.len() - k,
                        {
                            used.push(false);
                            k = k + 1;
                            assert(used@ =~= Seq::new(k as nat, |x: int| false));
                        }
                        let leaves_goal = AcGoal::Leaves(ll, rl, 0, used);
                        let ghost n1 = goals_view(goals@);
                        goals.push(leaves_goal);
                        proof {
                            assert(goals_view(goals@) =~= n1.push(goal_view(leaves_goal)));
                            assert forall|k2: int| 0 <= k2 < goals_view(goals@).len() implies goal_wf(#[trigger] goals_view(goals@)[k2], left@.len(), right@.len()) by {
                                if k2 < rest.len() {
                                    assert(goals_view(goals@)[k2] == rest[k2]);
                                }
                            }
                        }
                        let res = solve(goals, pairs, left, right, comm, assoc, steps, max_steps);
                        proof {
                            if res is Some {
                                let m2 = pairs_map(res->Some_0@);
                                let nv = n1.push(goal_view(leaves_goal));
                                assert(goal_holds(nv[nv.len() - 1], lv, rv, m2, cs, as_));
                                let lls = ac_leaves(l@, *f, as_);
                                let rls = ac_leaves(r@, *f, as_);
                                let q = choose|q: Seq<int>| #[trigger] q.len() == lls.len()
                                    && (forall|k1: int, k2: int| 0 <= k1 < k2 < lls.len() ==> q[k1] != q[k2])
                                    && forall|k: int| 0 <= k < lls.len() ==> 0 <= #[trigger] q[k] < rls.len()
                                        && !Seq::new(rls.len(), |x: int| false)[q[k]] && ac_alpha(lls[k], rls[q[k]], m2, cs, as_);
                                assert(q.len() == lls.len());
                                assert(index_perm(q, lls.len()));
                                assert(ac_alpha(l@, r@, m2, cs, as_));
                                assert forall|k: int| 0 <= k < all.len() implies goal_holds(#[trigger] all[k], lv, rv, m2, cs, as_) by {
                                    if k < rest.len() {
                                        assert(all[k] == rest[k]);
                                        assert(nv[k] == rest[k]);
                                    }
                                }
                            }
                        }
                        res
                    } else if contains_symbol(comm, *f) && la.len() == 2 && ra.len() == 2 {
                        let mut next = copy_goals(&goals);
                        let ghost n1 = goals_view(next@);
                        next.push(AcGoal::Terms(&la[1], &ra[1]));
                        let ghost n2 = goals_view(next@);
                        next.push(AcGoal::Terms(&la[0], &ra[0]));
                        proof {
                            assert(n2 =~= n1.push(SGoal::Terms(la@[1]@, ra@[1]@)));
                            assert(goals_view(next@) =~= n2.push(SGoal::Terms(la@[0]@, ra@[0]@)));
                            assert forall|k2: int| 0 <= k2 < goals_view(next@).len() implies goal_wf(#[trigger] goals_view(next@)[k2], left@.len(), right@.len()) by {
                                if k2 < rest.len() {
                                    assert(goals_view(next@)[k2] == rest[k2]);
                                }
                            }
                        }
                        let res = solve(next, pairs, left, right, comm, assoc, steps, max_steps);
                        if let Some(p2) = res {
                            proof {
                                let m2 = pairs_map(p2@);
                                let nv = n2.push(SGoal::Terms(la@[0]@, ra@[0]@));
                                assert(goal_holds(nv[nv.len() - 1], lv, rv, m2, cs, as_));
                                assert(goal_holds(nv[nv.len() - 2], lv, rv, m2, cs, as_));
                                assert(ac_alpha(l@, r@, m2, cs, as_));
                                assert forall|k: int| 0 <= k < all.len() implies goal_holds(#[trigger] all[k], lv, rv, m2, cs, as_) by {
                                    if k < rest.len() {
                                        assert(all[k] == rest[k]);
                                        assert(nv[k] == rest[k]);
                                    }
                                }
                            }
                            return Some(p2);
                        }
                        let ghost n1 = goals_view(goals@);
                        goals.push(AcGoal::Terms(&la[1], &ra[0]));
                        let ghost n2 = goals_view(goals@);
                        goals.push(AcGoal::Terms(&la[0], &ra[1]));
                        proof {
                            assert(n2 =~= n1.push(SGoal::Terms(la@[1]@, ra@[0]@)));
                            assert(goals_view(goals@) =~= n2.push(SGoal::Terms(la@[0]@, ra@[1]@)));
                            assert forall|k2: int| 0 <= k2 < goals_view(goals@).len() implies goal_wf(#[trigger] goals_view(goals@)[k2], left@.len(), right@.len()) by {
                                if k2 < rest.len() {
                                    assert(goals_view(goals@)[k2] == rest[k2]);
                                }
                            }
                        }
                        let res = solve(goals, pairs, left, right, comm, assoc, steps, max_steps);
                        proof {
                            if res is Some {
                                let m2 = pairs_map(res->Some_0@);
                                let nv = n2.push(SGoal::Terms(la@[0]@, ra@[1]@));
                                assert(goal_holds(nv[nv.len() - 1], lv, rv, m2, cs, as_));
                                assert(goal_holds(nv[nv.len() - 2], lv, rv, m2, cs, as_));
                                assert(ac_alpha(l@, r@, m2, cs, as_));
                                assert forall|k: int| 0 <= k < all.len() implies goal_holds(#[trigger] all[k], lv, rv, m2, cs, as_) by {
                                    if k < rest.len() {
                                        assert(all[k] == rest[k]);
                                        assert(nv[k] == rest[k]);
                                    }
                                }
                            }
                        }
                        res
                    } else {
                        if la.len() != ra.len() {
                            return None;
                        }
                        let args_goal = AcGoal::Args(la, ra, 0);
                        let ghost n1 = goals_view(goals@);
                        goals.push(args_goal);
                        proof {
                            assert(goals_view(goals@) =~= n1.push(goal_view(args_goal)));
                            assert forall|k2: int| 0 <= k2 < goals_view(goals@).len() implies goal_wf(#[trigger] goals_view(goals@)[k2], left@.len(), right@.len()) by {
                                if k2 < rest.len() {
                                    assert(goals_view(goals@)[k2] == rest[k2]);
                                }
                            }
                        }
                        let res = solve(goals, pairs, left, right, comm, assoc, steps, max_steps);
                        proof {
                            if res is Some {
                                let m2 = pairs_map(res->Some_0@);
                                let nv = n1.push(goal_view(args_goal));
                                assert(goal_holds(nv[nv.len() - 1], lv, rv, m2, cs, as_));
                                assert(ac_alpha(l@, r@, m2, cs, as_));
                                assert forall|k: int| 0 <= k < all.len() implies goal_holds(#[trigger] all[k], lv, rv, m2, cs, as_) by {
                                    if k < rest.len() {
                                        assert(all[k] == rest[k]);
                                        assert(nv[k] == rest[k]);
                                    }
                                }
                            }
                        }
                        res
                    }
                },
                _ => None,
            }
        },
    }
}

/// Whether two clauses are equal modulo AC of the given symbols and a
/// renaming, found by a backtracking search of at most
/// `max_equivalence_steps` term comparisons.
pub fn ac_clause_alpha_equiv(
    left: &Vec<Literal>,
    right: &Vec<Literal>,
    comm: &Vec<u32>,
    assoc: &Vec<u32>,
    limits: VerificationLimits,
) -> (r: bool)
    ensures
        r ==> ac_clause_alpha(clause_view(left@), clause_view(right@), comm@.to_set(), assoc@.to_set()),
        limits.max_equivalence_steps > 0 && clause_view(left@) == clause_view(right@) ==> r,
{
    if left.len() != right.len() {
        return false;
    }
    if limits.max_equivalence_steps > 0 && crate::demodulation::clause_eq(left, right) {
        proof {
            lemma_ac_clause_alpha_refl(clause_view(left@), comm@.to_set(), assoc@.to_set());
        }
        return true;
    }
    let mut used: Vec<bool> = Vec::new();
    let mut k: usize = 0;
    while k < right.len()
        invariant
            0 <= k <= right@.len(),
            used@ == Seq::new(k as nat, |x: int| false),
        decreases right.len() - k,
    {
        used.push(false);
        k = k + 1;
        assert(used@ =~= Seq::new(k as nat, |x: int| false));
    }
    let mut goals: Vec<AcGoal> = Vec::new();
    goals.push(AcGoal::Literals(0, used));
    let pairs: Vec<(u32, u32)> = Vec::new();
    let mut steps: usize = 0;
    proof {
        assert(goals_view(goals@) =~= seq![SGoal::Literals(0, Seq::new(right@.len(), |x: int| false))]);
        assert(all_goals_wf(goals_view(goals@), left@.len(), right@.len()));
    }
    let ghost gv = goals_view(goals@);
    match solve(goals, &pairs, left, right, comm, assoc, &mut steps, limits.max_equivalence_steps) {
        Some(p2) => {
            proof {
                lemma_pairs_injective(p2@);
                let m2 = pairs_map(p2@);
                assert(goal_holds(gv[0], clause_view(left@), clause_view(right@), m2, comm@.to_set(), assoc@.to_set()));
                assert(goal_holds(SGoal::Literals(0, Seq::new(right@.len(), |x: int| false)), clause_view(left@),
                    clause_view(right@), m2, comm@.to_set(), assoc@.to_set()));
                assert(none_used(clause_view(right@).len()) =~= Seq::new(right@.len(), |x: int| false));
            }
            true
        },
        None => false,
    }
}

/// The renaming that keeps every variable.
pub open spec fn identity_renaming() -> Map<u32, u32> {
    Map::new(|x: u32| true, |x: u32| x)
}

/// Every term equals itself modulo AC under the identity renaming.
pub proof fn lemma_ac_alpha_refl(t: STerm, comm: Set<u32>, assoc: Set<u32>)
    ensures
        ac_alpha(t, t, identity_renaming(), comm, assoc),
    decreases sterm_size(t),
{
    let m = identity_renaming();
    match t {
        STerm::Var(x) => {},
        STerm::App(f, args) => {
            if assoc.contains(f) && comm.contains(f) {
                let ll = ac_leaves(t, f, assoc);
                lemma_leaves_smaller(f, args, assoc);
                let q = Seq::new(ll.len(), |k: int| k);
                assert forall|k: int| 0 <= k < ll.len() implies 0 <= q[k] < ll.len()
                    && ac_alpha(#[trigger] ll[k], ll[q[k]], m, comm, assoc) by {
                    lemma_ac_alpha_refl(ll[k], comm, assoc);
                }
                assert(index_perm(q, ll.len()));
            } else if comm.contains(f) && args.len() == 2 {
                lemma_size_arg(f, args, 0);
                lemma_size_arg(f, args, 1);
                lemma_ac_alpha_refl(args[0], comm, assoc);
                lemma_ac_alpha_refl(args[1], comm, assoc);
            } else {
                assert forall|k: int| 0 <= k < args.len() implies ac_alpha(#[trigger] args[k], args[k], m, comm, assoc) by {
                    lemma_size_arg(f, args, k);
                    lemma_ac_alpha_refl(args[k], comm, assoc);
                }
            }
        },
    }
}

/// Law: every clause is AC-equal to itself, whatever symbols are taken as
/// associative and commutative.
pub proof fn lemma_ac_clause_alpha_refl(c: Seq<SLiteral>, comm: Set<u32>, assoc: Set<u32>)
    ensures
        ac_clause_alpha(c, c, comm, assoc),
{
    let m = identity_renaming();
    let q = Seq::new(c.len(), |k: int| k);
    assert forall|k: int| 0 <= k < c.len() implies 0 <= #[trigger] q[k] < c.len() && !none_used(c.len())[q[k]]
        && c[k].positive == c[q[k]].positive && ac_atom_alpha(c[k].atom, c[q[k]].atom, m, comm, assoc) by {
        match c[k].atom {
            SAtom::Pred(p, args) => {
                assert forall|i: int| 0 <= i < args.len() implies ac_alpha(#[trigger] args[i], args[i], m, comm, assoc) by {
                    lemma_ac_alpha_refl(args[i], comm, assoc);
                }
            },
            SAtom::Eq(l, r) => {
                lemma_ac_alpha_refl(l, comm, assoc);
                lemma_ac_alpha_refl(r, comm, assoc);
            },
        }
    }
    assert(q.len() == c.len());
    assert(literals_match(c, c, 0, none_used(c.len()), m, comm, assoc));
    assert(map_injective(m));
}

} // verus!
