//! Syntactic unification with an occurs check. Substitutions are kept
//! idempotent: no bound variable occurs in any binding.
use vstd::prelude::*;
use crate::term::{Term, STerm, terms_view, lemma_terms_view, copy_term};
use crate::subst::{
    Subst, bindings_map, subst_term, subst_terms, lemma_subst_terms, apply_substitution_term,
    lemma_terms_view_push,
};

verus! {

/// The variables of a term.
pub open spec fn vars_of(t: STerm) -> Set<u32>
    decreases t,
{
    match t {
        STerm::Var(v) => set![v],
        STerm::App(_, args) => vars_all(args),
    }
}

pub open spec fn vars_all(ts: Seq<STerm>) -> Set<u32>
    decreases ts,
{
    if ts.len() == 0 {
        Set::empty()
    } else {
        vars_all(ts.drop_last()) + vars_of(ts.last())
    }
}

pub proof fn lemma_vars_all(ts: Seq<STerm>)
    ensures
        forall|v: u32| vars_all(ts).contains(v) <==> exists|i: int| 0 <= i < ts.len() && #[trigger] vars_of(ts[i]).contains(v),
    decreases ts.len(),
{
    if ts.len() > 0 {
        lemma_vars_all(ts.drop_last());
        assert forall|v: u32| vars_all(ts).contains(v) <==> exists|i: int| 0 <= i < ts.len() && #[trigger] vars_of(ts[i]).contains(v) by {
            assert(ts[ts.len() - 1] == ts.last());
            if vars_all(ts.drop_last()).contains(v) {
                let i = choose|i: int| 0 <= i < ts.drop_last().len() && #[trigger] vars_of(ts.drop_last()[i]).contains(v);
                assert(ts[i] == ts.drop_last()[i]);
            }
            if vars_of(ts.last()).contains(v) {
                assert(vars_of(ts[ts.len() - 1]).contains(v));
            }
            if exists|i: int| 0 <= i < ts.len() && #[trigger] vars_of(ts[i]).contains(v) {
                let i = choose|i: int| 0 <= i < ts.len() && #[trigger] vars_of(ts[i]).contains(v);
                if i < ts.len() - 1 {
                    assert(ts.drop_last()[i] == ts[i]);
                    assert(vars_all(ts.drop_last()).contains(v));
                }
            }
        }
    }
}

pub proof fn lemma_vars_finite(t: STerm)
    ensures
        vars_of(t).finite(),
    decreases t,
{
    match t {
        STerm::Var(_) => {},
        STerm::App(_, args) => {
            lemma_vars_all_finite(args);
        },
    }
}

pub proof fn lemma_vars_all_finite(ts: Seq<STerm>)
    ensures
        vars_all(ts).finite(),
    decreases ts,
{
    if ts.len() > 0 {
        lemma_vars_all_finite(ts.drop_last());
        lemma_vars_finite(ts.last());
    }
}

/// No bound variable occurs in any binding.
pub open spec fn idempotent(s: Map<u32, STerm>) -> bool {
    forall|v: u32, w: u32| #![trigger s[v], s.contains_key(w)]
        s.contains_key(v) && s.contains_key(w) ==> !vars_of(s[v]).contains(w)
}

/// The variables a substitution's bindings mention.
pub open spec fn range_vars(s: Map<u32, STerm>) -> Set<u32> {
    Set::new(|w: u32| exists|v: u32| s.contains_key(v) && #[trigger] vars_of(s[v]).contains(w))
}

/// `s2` absorbs `s1`: applying `s1` first changes nothing under `s2`.
pub open spec fn absorbs(s2: Map<u32, STerm>, s1: Map<u32, STerm>) -> bool {
    forall|t: STerm| #[trigger] subst_term(subst_term(t, s1), s2) == subst_term(t, s2)
}

/// A term with no bound variable is unchanged by the substitution.
pub proof fn lemma_subst_disjoint(t: STerm, s: Map<u32, STerm>)
    requires
        forall|v: u32| vars_of(t).contains(v) ==> !s.contains_key(v),
    ensures
        subst_term(t, s) == t,
    decreases t,
{
    match t {
        STerm::Var(v) => {},
        STerm::App(f, args) => {
            lemma_vars_all(args);
            lemma_subst_terms(args, s);
            assert forall|i: int| 0 <= i < args.len() implies subst_term(#[trigger] args[i], s) == args[i] by {
                assert forall|v: u32| vars_of(args[i]).contains(v) implies !s.contains_key(v) by {
                    assert(vars_all(args).contains(v));
                    assert(vars_of(t).contains(v));
                }
                lemma_subst_disjoint(args[i], s);
            }
            assert(subst_terms(args, s) =~= args);
        },
    }
}

/// The variables of an instance come from the term's unbound variables and
/// the bindings.
pub proof fn lemma_subst_vars(t: STerm, s: Map<u32, STerm>)
    ensures
        forall|w: u32| #[trigger] vars_of(subst_term(t, s)).contains(w) ==> (vars_of(t).contains(w) && !s.contains_key(w)) || exists|v: u32| vars_of(t).contains(v) && s.contains_key(v) && vars_of(s[v]).contains(w),
    decreases t,
{
    match t {
        STerm::Var(v) => {},
        STerm::App(f, args) => {
            lemma_vars_all(args);
            lemma_subst_terms(args, s);
            lemma_vars_all(subst_terms(args, s));
            assert(vars_of(subst_term(t, s)) == vars_all(subst_terms(args, s)));
            assert forall|w: u32| #[trigger] vars_of(subst_term(t, s)).contains(w) implies (vars_of(t).contains(w) && !s.contains_key(w)) || exists|v: u32| vars_of(t).contains(v) && s.contains_key(v) && vars_of(s[v]).contains(w) by {
                assert(vars_all(subst_terms(args, s)).contains(w));
                let i = choose|i: int| 0 <= i < subst_terms(args, s).len() && #[trigger] vars_of(subst_terms(args, s)[i]).contains(w);
                lemma_subst_vars(args[i], s);
                assert(vars_of(subst_term(args[i], s)).contains(w));
                if vars_of(args[i]).contains(w) && !s.contains_key(w) {
                    assert(vars_all(args).contains(w));
                    assert(vars_of(t).contains(w));
                } else {
                    let v = choose|v: u32| vars_of(args[i]).contains(v) && s.contains_key(v) && vars_of(s[v]).contains(w);
                    assert(vars_all(args).contains(v));
                    assert(vars_of(t).contains(v));
                }
            }
        },
    }
}

/// Under an idempotent substitution an instance has no bound variable, and
/// applying the substitution again changes nothing.
pub proof fn lemma_idempotent_apply(t: STerm, s: Map<u32, STerm>)
    requires
        idempotent(s),
    ensures
        forall|w: u32| vars_of(subst_term(t, s)).contains(w) ==> !s.contains_key(w),
        subst_term(subst_term(t, s), s) == subst_term(t, s),
{
    lemma_subst_vars(t, s);
    assert forall|w: u32| vars_of(subst_term(t, s)).contains(w) implies !s.contains_key(w) by {
        if !(vars_of(t).contains(w) && !s.contains_key(w)) {
            let v = choose|v: u32| vars_of(t).contains(v) && s.contains_key(v) && vars_of(s[v]).contains(w);
            if s.contains_key(w) {
                assert(!vars_of(s[v]).contains(w));
            }
        }
    }
    lemma_subst_disjoint(subst_term(t, s), s);
}

/// The single binding `x := t`.
pub open spec fn single(x: u32, t: STerm) -> Map<u32, STerm> {
    Map::empty().insert(x, t)
}

/// The composition of `s` with `x := t`.
pub open spec fn compose_bind(s: Map<u32, STerm>, x: u32, t: STerm) -> Map<u32, STerm> {
    s.map_values(|u: STerm| subst_term(u, single(x, t))).insert(x, t)
}

/// Applying the composition is applying `s` and then `x := t`.
pub proof fn lemma_compose_apply(u: STerm, s: Map<u32, STerm>, x: u32, t: STerm)
    requires
        !s.contains_key(x),
    ensures
        subst_term(u, compose_bind(s, x, t)) == subst_term(subst_term(u, s), single(x, t)),
    decreases u,
{
    match u {
        STerm::Var(v) => {
            if !s.contains_key(v) && v != x {
            }
        },
        STerm::App(f, args) => {
            let c = compose_bind(s, x, t);
            lemma_subst_terms(args, c);
            lemma_subst_terms(args, s);
            lemma_subst_terms(subst_terms(args, s), single(x, t));
            assert forall|i: int| 0 <= i < args.len() implies #[trigger] subst_terms(args, c)[i] == subst_terms(subst_terms(args, s), single(x, t))[i] by {
                lemma_compose_apply(args[i], s, x, t);
            }
            assert(subst_terms(args, c) =~= subst_terms(subst_terms(args, s), single(x, t)));
        },
    }
}

/// The composition stays idempotent when `t` mentions neither `x` nor a
/// bound variable.
pub proof fn lemma_compose_idempotent(s: Map<u32, STerm>, x: u32, t: STerm)
    requires
        idempotent(s),
        !s.contains_key(x),
        !vars_of(t).contains(x),
        forall|w: u32| vars_of(t).contains(w) ==> !s.contains_key(w),
    ensures
        idempotent(compose_bind(s, x, t)),
{
    let c = compose_bind(s, x, t);
    assert forall|v: u32, w: u32| #![trigger c[v], c.contains_key(w)] c.contains_key(v) && c.contains_key(w) implies !vars_of(c[v]).contains(w) by {
        if v == x {
            assert(c[v] == t);
        } else {
            assert(c[v] == subst_term(s[v], single(x, t)));
            lemma_subst_vars(s[v], single(x, t));
            if vars_of(c[v]).contains(w) {
                if vars_of(s[v]).contains(w) && !single(x, t).contains_key(w) {
                    assert(s.contains_key(w) ==> !vars_of(s[v]).contains(w));
                } else {
                    let y = choose|y: u32| vars_of(s[v]).contains(y) && single(x, t).contains_key(y) && vars_of(single(x, t)[y]).contains(w);
                    assert(y == x);
                    assert(vars_of(t).contains(w));
                }
            }
        }
    }
}

/// The composition absorbs `s`.
pub proof fn lemma_compose_absorbs(s: Map<u32, STerm>, x: u32, t: STerm)
    requires
        idempotent(s),
        !s.contains_key(x),
    ensures
        absorbs(compose_bind(s, x, t), s),
{
    assert forall|u: STerm| #[trigger] subst_term(subst_term(u, s), compose_bind(s, x, t)) == subst_term(u, compose_bind(s, x, t)) by {
        lemma_compose_apply(subst_term(u, s), s, x, t);
        lemma_idempotent_apply(u, s);
        lemma_compose_apply(u, s, x, t);
    }
}

pub proof fn lemma_absorbs_trans(s3: Map<u32, STerm>, s2: Map<u32, STerm>, s1: Map<u32, STerm>)
    requires
        absorbs(s3, s2),
        absorbs(s2, s1),
    ensures
        absorbs(s3, s1),
{
    assert forall|t: STerm| #[trigger] subst_term(subst_term(t, s1), s3) == subst_term(t, s3) by {
        assert(subst_term(subst_term(subst_term(t, s1), s2), s3) == subst_term(subst_term(t, s1), s3));
        assert(subst_term(subst_term(t, s1), s2) == subst_term(t, s2));
        assert(subst_term(subst_term(t, s2), s3) == subst_term(t, s3));
    }
}

pub proof fn lemma_absorbs_refl(s: Map<u32, STerm>)
    requires
        idempotent(s),
    ensures
        absorbs(s, s),
{
    assert forall|t: STerm| #[trigger] subst_term(subst_term(t, s), s) == subst_term(t, s) by {
        lemma_idempotent_apply(t, s);
    }
}

/// Whether variable `x` occurs in the term.
pub fn occurs(x: u32, t: &Term) -> (r: bool)
    ensures
        r == vars_of(t@).contains(x),
    decreases t,
{
    match t {
        Term::Var(v) => {
            proof {
                assert(t@ == STerm::Var(*v));
                assert(vars_of(t@) == set![*v]);
                if *v == x {
                    assert(set![*v].contains(x));
                } else {
                    assert(!set![*v].contains(x));
                }
            }
            *v == x
        },
        Term::App(f, args) => {
            proof {
                lemma_terms_view(args@);
                lemma_vars_all(terms_view(args@));
            }
            let mut i: usize = 0;
            while i < args.len()
                invariant
                    0 <= i <= args.len(),
                    *t is App,
                    (*t)->App_1 == *args,
                    (*t)->App_0 == *f,
                    terms_view(args@).len() == args@.len(),
                    forall|k: int| 0 <= k < args@.len() ==> #[trigger] terms_view(args@)[k] == args@[k]@,
                    forall|k: int| 0 <= k < i ==> !vars_of(#[trigger] terms_view(args@)[k]).contains(x),
                decreases args.len() - i,
            {
                proof {
                    assert(decreases_to!(*t => (*t)->App_1));
                    assert(decreases_to!((*t)->App_1 => (*t)->App_1@));
                    assert(decreases_to!(args@ => args@[i as int]));
                }
                if occurs(x, &args[i]) {
                    proof {
                        assert(vars_of(terms_view(args@)[i as int]).contains(x));
                        lemma_vars_all(terms_view(args@));
                        assert(t@ == STerm::App(*f, terms_view(args@)));
                        assert(vars_of(t@) == vars_all(terms_view(args@)));
                        assert(vars_all(terms_view(args@)).contains(x));
                    }
                    return true;
                }
                i = i + 1;
            }
            proof {
                lemma_vars_all(terms_view(args@));
                assert(t@ == STerm::App(*f, terms_view(args@)));
                assert(vars_of(t@) == vars_all(terms_view(args@)));
                assert(!vars_all(terms_view(args@)).contains(x));
            }
            false
        },
    }
}

proof fn lemma_bindings_map_values(p: Seq<(u32, Term)>, q: Seq<(u32, Term)>, x: u32, t: STerm)
    requires
        p.len() == q.len(),
        forall|i: int| 0 <= i < p.len() ==> (#[trigger] q[i]).0 == p[i].0 && q[i].1@ == subst_term(p[i].1@, single(x, t)),
    ensures
        bindings_map(q) == bindings_map(p).map_values(|u: STerm| subst_term(u, single(x, t))),
    decreases p.len(),
{
    if p.len() > 0 {
        assert forall|i: int| 0 <= i < p.drop_last().len() implies (#[trigger] q.drop_last()[i]).0 == p.drop_last()[i].0 && q.drop_last()[i].1@ == subst_term(p.drop_last()[i].1@, single(x, t)) by {
            assert(q.drop_last()[i] == q[i]);
            assert(p.drop_last()[i] == p[i]);
        }
        lemma_bindings_map_values(p.drop_last(), q.drop_last(), x, t);
        assert(q.last() == q[q.len() - 1]);
        assert(p.last() == p[p.len() - 1]);
        assert(bindings_map(q) =~= bindings_map(p).map_values(|u: STerm| subst_term(u, single(x, t))));
    }
}

/// Replaces the substitution by its composition with `x := t`.
fn compose_bind_exec(s: &mut Subst, x: u32, t: Term)
    ensures
        final(s)@ == compose_bind(old(s)@, x, t@),
{
    let mut one = Subst::new();
    let tc = copy_term(&t);
    one.bind(x, tc);
    assert(one@ == single(x, t@));
    let mut pairs: Vec<(u32, Term)> = Vec::new();
    let mut i: usize = 0;
    while i < s.pairs.len()
        invariant
            0 <= i <= s.pairs.len(),
            one@ == single(x, t@),
            pairs@.len() == i,
            forall|k: int| 0 <= k < i ==> (#[trigger] pairs@[k]).0 == s.pairs@[k].0 && pairs@[k].1@ == subst_term(s.pairs@[k].1@, single(x, t@)),
        decreases s.pairs.len() - i,
    {
        let u = apply_substitution_term(&s.pairs[i].1, &one);
        pairs.push((s.pairs[i].0, u));
        i = i + 1;
    }
    proof {
        lemma_bindings_map_values(s.pairs@, pairs@, x, t@);
    }
    let ghost q = pairs@;
    pairs.push((x, t));
    assert(pairs@.drop_last() == q);
    s.pairs = pairs;
}

/// What a unification call keeps true of its substitution.
pub open spec fn unifier_ok(s: Map<u32, STerm>, xs: Set<u32>) -> bool {
    &&& idempotent(s)
    &&& s.dom().subset_of(xs)
    &&& range_vars(s).subset_of(xs)
}

pub(crate) proof fn lemma_dom_len(s: Map<u32, STerm>, xs: Set<u32>)
    requires
        xs.finite(),
        s.dom().subset_of(xs),
    ensures
        s.dom().finite(),
        s.dom().len() <= xs.len(),
{
    vstd::set_lib::lemma_len_subset(s.dom(), xs);
}

pub(crate) proof fn lemma_instance_vars(t: STerm, s: Map<u32, STerm>, xs: Set<u32>)
    requires
        vars_of(t).subset_of(xs),
        range_vars(s).subset_of(xs),
    ensures
        vars_of(subst_term(t, s)).subset_of(xs),
{
    lemma_subst_vars(t, s);
    assert forall|w: u32| vars_of(subst_term(t, s)).contains(w) implies xs.contains(w) by {
        if !(vars_of(t).contains(w) && !s.contains_key(w)) {
            let v = choose|v: u32| vars_of(t).contains(v) && s.contains_key(v) && vars_of(s[v]).contains(w);
            assert(range_vars(s).contains(w));
        }
    }
}

/// Binds a variable that is neither bound nor in `t`.
pub(crate) fn bind_var(s: &mut Subst, x: u32, t: Term, Ghost(xs): Ghost<Set<u32>>)
    requires
        unifier_ok(old(s)@, xs),
        xs.contains(x),
        vars_of(t@).subset_of(xs),
        !old(s)@.contains_key(x),
        !vars_of(t@).contains(x),
        forall|w: u32| vars_of(t@).contains(w) ==> !old(s)@.contains_key(w),
    ensures
        final(s)@ == compose_bind(old(s)@, x, t@),
        unifier_ok(final(s)@, xs),
        absorbs(final(s)@, old(s)@),
        final(s)@.dom().len() > old(s)@.dom().len() || !xs.finite(),
        subst_term(STerm::Var(x), final(s)@) == subst_term(t@, final(s)@),
{
    let ghost s0 = s@;
    let ghost tv = t@;
    compose_bind_exec(s, x, t);
    proof {
        lemma_compose_idempotent(s0, x, tv);
        lemma_compose_absorbs(s0, x, tv);
        let c = s@;
        assert forall|w: u32| range_vars(c).contains(w) implies xs.contains(w) by {
            let v = choose|v: u32| c.contains_key(v) && #[trigger] vars_of(c[v]).contains(w);
            if v != x {
                lemma_subst_vars(s0[v], single(x, tv));
                if !(vars_of(s0[v]).contains(w) && !single(x, tv).contains_key(w)) {
                    let y = choose|y: u32| vars_of(s0[v]).contains(y) && single(x, tv).contains_key(y) && vars_of(single(x, tv)[y]).contains(w);
                } else {
                    assert(range_vars(s0).contains(w));
                }
            }
        }
        assert(c.dom() == s0.dom().insert(x));
        if xs.finite() {
            lemma_dom_len(s0, xs);
            assert(c.dom().len() == s0.dom().len() + 1);
        }
        lemma_compose_apply(tv, s0, x, tv);
        lemma_subst_disjoint(tv, s0);
        lemma_subst_disjoint(tv, single(x, tv));
    }
}

/// Substituting `x := b` first changes nothing under a substitution that
/// maps `x` as it maps `b`.
proof fn lemma_single_absorbed(v: STerm, x: u32, b: STerm, w: Map<u32, STerm>)
    requires
        subst_term(STerm::Var(x), w) == subst_term(b, w),
    ensures
        subst_term(subst_term(v, single(x, b)), w) == subst_term(v, w),
    decreases v,
{
    match v {
        STerm::Var(y) => {},
        STerm::App(f, args) => {
            let sa = subst_terms(args, single(x, b));
            lemma_subst_terms(args, single(x, b));
            lemma_subst_terms(sa, w);
            lemma_subst_terms(args, w);
            assert forall|i: int| 0 <= i < args.len() implies #[trigger] subst_terms(sa, w)[i] == subst_terms(args, w)[i] by {
                lemma_single_absorbed(args[i], x, b, w);
            }
            assert(subst_terms(sa, w) =~= subst_terms(args, w));
        },
    }
}

/// A unifier that absorbs `s` and maps `x` as it maps `b` absorbs the
/// composition of `s` with `x := b`.
proof fn lemma_bind_absorbed(w: Map<u32, STerm>, s: Map<u32, STerm>, x: u32, b: STerm)
    requires
        absorbs(w, s),
        !s.contains_key(x),
        subst_term(STerm::Var(x), w) == subst_term(b, w),
    ensures
        absorbs(w, compose_bind(s, x, b)),
{
    assert forall|u: STerm| #[trigger] subst_term(subst_term(u, compose_bind(s, x, b)), w) == subst_term(u, w) by {
        lemma_compose_apply(u, s, x, b);
        lemma_single_absorbed(subst_term(u, s), x, b, w);
        assert(subst_term(subst_term(u, s), w) == subst_term(u, w));
    }
}

/// A variable of `t` has an instance no larger than that of `t`, and
/// smaller when `t` is not the variable itself.
proof fn lemma_occurs_size(t: STerm, x: u32, w: Map<u32, STerm>)
    requires
        vars_of(t).contains(x),
    ensures
        crate::term::sterm_size(subst_term(STerm::Var(x), w)) <= crate::term::sterm_size(subst_term(t, w)),
        t != STerm::Var(x) ==> crate::term::sterm_size(subst_term(STerm::Var(x), w)) < crate::term::sterm_size(subst_term(t, w)),
    decreases t,
{
    match t {
        STerm::Var(y) => {
            assert(set![y].contains(x));
        },
        STerm::App(f, args) => {
            lemma_vars_all(args);
            assert(vars_all(args).contains(x));
            let i = choose|i: int| 0 <= i < args.len() && #[trigger] vars_of(args[i]).contains(x);
            assert(decreases_to!(t => args[i]));
            lemma_occurs_size(args[i], x, w);
            lemma_subst_terms(args, w);
            lemma_size_arg(f, subst_terms(args, w), i);
        },
    }
}

/// Unifies two terms, extending an idempotent substitution. On success the
/// extended substitution makes both terms equal.
pub fn unify_terms(
    left: &Term,
    right: &Term,
    substitution: &mut Subst,
    Ghost(xs): Ghost<Set<u32>>,
    Ghost(unbound): Ghost<int>,
    Ghost(size): Ghost<nat>,
) -> (r: bool)
    requires
        xs.finite(),
        unbound == xs.len() - old(substitution)@.dom().len(),
        size == crate::term::sterm_size(subst_term(left@, old(substitution)@)),
        unifier_ok(old(substitution)@, xs),
        vars_of(left@).subset_of(xs),
        vars_of(right@).subset_of(xs),
    ensures
        unifier_ok(final(substitution)@, xs),
        absorbs(final(substitution)@, old(substitution)@),
        final(substitution)@ == old(substitution)@ || final(substitution)@.dom().len() > old(substitution)@.dom().len(),
        r ==> subst_term(left@, final(substitution)@) == subst_term(right@, final(substitution)@),
        subst_term(left@, old(substitution)@) == subst_term(right@, old(substitution)@)
            ==> r && final(substitution)@ == old(substitution)@,
        forall|w: Map<u32, STerm>| #[trigger] absorbs(w, old(substitution)@) && subst_term(left@, w) == subst_term(right@, w)
            ==> r && absorbs(w, final(substitution)@),
    decreases unbound, size,
{
    let ghost s0 = substitution@;
    proof {
        lemma_dom_len(s0, xs);
        lemma_absorbs_refl(s0);
        lemma_idempotent_apply(left@, s0);
        lemma_idempotent_apply(right@, s0);
        lemma_instance_vars(left@, s0, xs);
        lemma_instance_vars(right@, s0, xs);
    }
    let a = apply_substitution_term(left, substitution);
    let b = apply_substitution_term(right, substitution);
    match (&a, &b) {
        (Term::Var(x), Term::Var(y)) if *x == *y => {
            true
        },
        (Term::Var(x), _) => {
            if occurs(*x, &b) {
                proof {
                    assert(b@ != a@);
                    assert forall|w: Map<u32, STerm>| #[trigger] absorbs(w, s0) && subst_term(left@, w) == subst_term(right@, w)
                        implies false by {
                        assert(subst_term(subst_term(left@, s0), w) == subst_term(left@, w));
                        assert(subst_term(subst_term(right@, s0), w) == subst_term(right@, w));
                        lemma_occurs_size(b@, *x, w);
                    }
                }
                return false;
            }
            proof {
                assert(vars_of(a@).contains(*x));
            }
            let bc = copy_term(&b);
            bind_var(substitution, *x, bc, Ghost(xs));
            proof {
                lemma_absorbs_apply(left@, s0, substitution@);
                lemma_absorbs_apply(right@, s0, substitution@);
                assert forall|w: Map<u32, STerm>| #[trigger] absorbs(w, s0) && subst_term(left@, w) == subst_term(right@, w)
                    implies absorbs(w, substitution@) by {
                    assert(subst_term(subst_term(left@, s0), w) == subst_term(left@, w));
                    assert(subst_term(subst_term(right@, s0), w) == subst_term(right@, w));
                    lemma_bind_absorbed(w, s0, *x, b@);
                }
            }
            true
        },
        (_, Term::Var(y)) => {
            if occurs(*y, &a) {
                proof {
                    assert(a@ is App);
                    assert forall|w: Map<u32, STerm>| #[trigger] absorbs(w, s0) && subst_term(left@, w) == subst_term(right@, w)
                        implies false by {
                        assert(subst_term(subst_term(left@, s0), w) == subst_term(left@, w));
                        assert(subst_term(subst_term(right@, s0), w) == subst_term(right@, w));
                        lemma_occurs_size(a@, *y, w);
                    }
                }
                return false;
            }
            proof {
                assert(vars_of(b@).contains(*y));
            }
            let ac = copy_term(&a);
            bind_var(substitution, *y, ac, Ghost(xs));
            proof {
                lemma_absorbs_apply(left@, s0, substitution@);
                lemma_absorbs_apply(right@, s0, substitution@);
                assert forall|w: Map<u32, STerm>| #[trigger] absorbs(w, s0) && subst_term(left@, w) == subst_term(right@, w)
                    implies absorbs(w, substitution@) by {
                    assert(subst_term(subst_term(left@, s0), w) == subst_term(left@, w));
                    assert(subst_term(subst_term(right@, s0), w) == subst_term(right@, w));
                    lemma_bind_absorbed(w, s0, *y, a@);
                }
            }
            true
        },
        (Term::App(f, xs_args), Term::App(g, ys_args)) => {
            proof {
                lemma_terms_view(xs_args@);
                lemma_terms_view(ys_args@);
            }
            if *f != *g || xs_args.len() != ys_args.len() {
                proof {
                    assert forall|w: Map<u32, STerm>| #[trigger] absorbs(w, s0) && subst_term(left@, w) == subst_term(right@, w)
                        implies false by {
                        assert(subst_term(subst_term(left@, s0), w) == subst_term(left@, w));
                        assert(subst_term(subst_term(right@, s0), w) == subst_term(right@, w));
                        lemma_subst_terms(terms_view(xs_args@), w);
                        lemma_subst_terms(terms_view(ys_args@), w);
                    }
                }
                return false;
            }
            let mut i: usize = 0;
            while i < xs_args.len()
                invariant
                    0 <= i <= xs_args.len(),
                    xs_args.len() == ys_args.len(),
                    xs.finite(),
                    a@ == subst_term(left@, s0),
                    b@ == subst_term(right@, s0),
                    a is App,
                    a->App_1 == *xs_args,
                    b is App,
                    b->App_1 == *ys_args,
                    a@ == STerm::App(*f, terms_view(xs_args@)),
                    b@ == STerm::App(*g, terms_view(ys_args@)),
                    *f == *g,
                    terms_view(xs_args@).len() == xs_args@.len(),
                    terms_view(ys_args@).len() == ys_args@.len(),
                    forall|k: int| 0 <= k < xs_args@.len() ==> #[trigger] terms_view(xs_args@)[k] == xs_args@[k]@,
                    forall|k: int| 0 <= k < ys_args@.len() ==> #[trigger] terms_view(ys_args@)[k] == ys_args@[k]@,
                    unifier_ok(substitution@, xs),
                    unifier_ok(s0, xs),
                    unbound == xs.len() - s0.dom().len(),
                    s0 == old(substitution)@,
                    size == crate::term::sterm_size(subst_term(left@, s0)),
                    absorbs(substitution@, s0),
                    substitution@ == s0 || substitution@.dom().len() > s0.dom().len(),
                    vars_of(a@).subset_of(xs),
                    vars_of(b@).subset_of(xs),
                    forall|w: u32| vars_of(a@).contains(w) ==> !s0.contains_key(w),
                    forall|k: int| 0 <= k < i ==> subst_term(#[trigger] xs_args@[k]@, substitution@) == subst_term(ys_args@[k]@, substitution@),
                    a@ == b@ ==> substitution@ == s0,
                    forall|w: Map<u32, STerm>| #[trigger] absorbs(w, s0) && subst_term(left@, w) == subst_term(right@, w)
                        ==> absorbs(w, substitution@),
                decreases xs_args.len() - i,
            {
                let ghost cur = substitution@;
                proof {
                    lemma_vars_all(terms_view(xs_args@));
                    lemma_vars_all(terms_view(ys_args@));
                    assert(vars_of(a@) == vars_all(terms_view(xs_args@)));
                    assert(vars_of(b@) == vars_all(terms_view(ys_args@)));
                    assert(vars_of(xs_args@[i as int]@).subset_of(xs)) by {
                        assert forall|w: u32| vars_of(xs_args@[i as int]@).contains(w) implies xs.contains(w) by {
                            assert(vars_of(terms_view(xs_args@)[i as int]).contains(w));
                            assert(vars_of(a@).contains(w));
                        }
                    }
                    assert(vars_of(ys_args@[i as int]@).subset_of(xs)) by {
                        assert forall|w: u32| vars_of(ys_args@[i as int]@).contains(w) implies xs.contains(w) by {
                            assert(vars_of(terms_view(ys_args@)[i as int]).contains(w));
                            assert(vars_of(b@).contains(w));
                        }
                    }
                    lemma_dom_len(cur, xs);
                    if cur == s0 {
                        assert forall|w: u32| vars_of(xs_args@[i as int]@).contains(w) implies !s0.contains_key(w) by {
                            assert(vars_of(terms_view(xs_args@)[i as int]).contains(w));
                            assert(vars_of(a@).contains(w));
                        }
                        lemma_subst_disjoint(xs_args@[i as int]@, s0);
                        lemma_size_arg(*f, terms_view(xs_args@), i as int);
                        assert(crate::term::sterm_size(subst_term(xs_args@[i as int]@, cur)) < crate::term::sterm_size(subst_term(left@, s0)));
                    } else {
                        assert(cur.dom().len() > s0.dom().len());
                        assert(xs.len() - cur.dom().len() < xs.len() - s0.dom().len());
                    }
                }
                proof {
                    if a@ == b@ {
                        assert(terms_view(xs_args@) == terms_view(ys_args@));
                        assert(xs_args@[i as int]@ == ys_args@[i as int]@) by {
                            assert(terms_view(xs_args@)[i as int] == terms_view(ys_args@)[i as int]);
                        }
                    }
                }
                let ok = unify_terms(
                    &xs_args[i],
                    &ys_args[i],
                    substitution,
                    Ghost(xs),
                    Ghost(xs.len() - cur.dom().len()),
                    Ghost(crate::term::sterm_size(subst_term(xs_args@[i as int]@, cur))),
                );
                proof {
                    lemma_absorbs_trans(substitution@, cur, s0);
                    assert forall|w: Map<u32, STerm>| #[trigger] absorbs(w, s0) && subst_term(left@, w) == subst_term(right@, w)
                        implies ok && absorbs(w, substitution@) by {
                        assert(subst_term(subst_term(left@, s0), w) == subst_term(left@, w));
                        assert(subst_term(subst_term(right@, s0), w) == subst_term(right@, w));
                        lemma_subst_terms(terms_view(xs_args@), w);
                        lemma_subst_terms(terms_view(ys_args@), w);
                        assert(subst_terms(terms_view(xs_args@), w)[i as int] == subst_terms(terms_view(ys_args@), w)[i as int]);
                        assert(absorbs(w, cur));
                    }
                }
                if !ok {
                    return false;
                }
                proof {
                    assert forall|k: int| 0 <= k < i + 1 implies subst_term(#[trigger] xs_args@[k]@, substitution@) == subst_term(ys_args@[k]@, substitution@) by {
                        if k < i {
                            lemma_absorbs_apply(xs_args@[k]@, cur, substitution@);
                            lemma_absorbs_apply(ys_args@[k]@, cur, substitution@);
                        }
                    }
                }
                i = i + 1;
            }
            proof {
                let sf = substitution@;
                lemma_subst_terms(terms_view(xs_args@), sf);
                lemma_subst_terms(terms_view(ys_args@), sf);
                assert(subst_terms(terms_view(xs_args@), sf) =~= subst_terms(terms_view(ys_args@), sf));
                assert(subst_term(a@, sf) == subst_term(b@, sf));
                lemma_absorbs_apply(left@, s0, sf);
                lemma_absorbs_apply(right@, s0, sf);
            }
            true
        },
    }
}

pub(crate) proof fn lemma_absorbs_apply(t: STerm, s1: Map<u32, STerm>, s2: Map<u32, STerm>)
    requires
        absorbs(s2, s1),
    ensures
        subst_term(subst_term(t, s1), s2) == subst_term(t, s2),
{
}

pub proof fn lemma_size_arg(f: u32, args: Seq<STerm>, i: int)
    requires
        0 <= i < args.len(),
    ensures
        crate::term::sterm_size(args[i]) < crate::term::sterm_size(STerm::App(f, args)),
    decreases args.len(),
{
    if i < args.len() - 1 {
        lemma_size_arg(f, args.drop_last(), i);
        assert(args.drop_last()[i] == args[i]);
    } else {
        assert(args[i] == args.last());
    }
}

} // verus!
