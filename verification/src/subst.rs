//! Substitutions: application, one-way matching and term equality.
use vstd::prelude::*;
use crate::term::{Term, STerm, term_view, terms_view, lemma_terms_view, copy_term, occurs_in, occurs_in_all};

verus! {

/// A substitution as a finite list of bindings; a later binding of a
/// variable overrides an earlier one.
pub struct Subst {
    pub pairs: Vec<(u32, Term)>,
}

pub open spec fn bindings_map(p: Seq<(u32, Term)>) -> Map<u32, STerm>
    decreases p.len(),
{
    if p.len() == 0 {
        Map::empty()
    } else {
        bindings_map(p.drop_last()).insert(p.last().0, p.last().1@)
    }
}

impl View for Subst {
    type V = Map<u32, STerm>;

    open spec fn view(&self) -> Map<u32, STerm> {
        bindings_map(self.pairs@)
    }
}

/// Applies a substitution to a term (each variable is replaced once).
pub open spec fn subst_term(t: STerm, s: Map<u32, STerm>) -> STerm
    decreases t,
{
    match t {
        STerm::Var(v) => if s.contains_key(v) {
            s[v]
        } else {
            t
        },
        STerm::App(f, args) => STerm::App(f, subst_terms(args, s)),
    }
}

pub open spec fn subst_terms(ts: Seq<STerm>, s: Map<u32, STerm>) -> Seq<STerm>
    decreases ts,
{
    if ts.len() == 0 {
        Seq::empty()
    } else {
        subst_terms(ts.drop_last(), s).push(subst_term(ts.last(), s))
    }
}

pub proof fn lemma_subst_terms(ts: Seq<STerm>, s: Map<u32, STerm>)
    ensures
        subst_terms(ts, s).len() == ts.len(),
        forall|i: int| 0 <= i < ts.len() ==> #[trigger] subst_terms(ts, s)[i] == subst_term(ts[i], s),
    decreases ts.len(),
{
    if ts.len() > 0 {
        lemma_subst_terms(ts.drop_last(), s);
        assert forall|i: int| 0 <= i < ts.len() implies #[trigger] subst_terms(ts, s)[i] == subst_term(ts[i], s) by {
            if i < ts.len() - 1 {
                assert(ts.drop_last()[i] == ts[i]);
            }
        }
    }
}

impl Subst {
    pub fn new() -> (r: Subst)
        ensures
            r@ == Map::<u32, STerm>::empty(),
    {
        Subst { pairs: Vec::new() }
    }

    /// The binding of a variable.
    pub fn get(&self, v: u32) -> (r: Option<&Term>)
        ensures
            match r {
                Some(t) => self@.contains_key(v) && self@[v] == t@,
                None => !self@.contains_key(v),
            },
    {
        let mut i: usize = self.pairs.len();
        assert(self.pairs@.take(i as int) =~= self.pairs@);
        while i > 0
            invariant
                0 <= i <= self.pairs.len(),
                bindings_map(self.pairs@.take(i as int)).contains_key(v) == self@.contains_key(v),
                bindings_map(self.pairs@.take(i as int)).contains_key(v) ==> bindings_map(self.pairs@.take(i as int))[v] == self@[v],
            decreases i,
        {
            let ghost pre = self.pairs@.take(i as int);
            assert(pre.drop_last() == self.pairs@.take(i as int - 1));
            if self.pairs[i - 1].0 == v {
                return Some(&self.pairs[i - 1].1);
            }
            i = i - 1;
        }
        assert(bindings_map(self.pairs@.take(0)) =~= Map::empty());
        None
    }

    /// A copy of the substitution.
    pub fn copy(&self) -> (r: Subst)
        ensures
            r@ == self@,
    {
        let mut out = Subst::new();
        let mut i: usize = 0;
        while i < self.pairs.len()
            invariant
                0 <= i <= self.pairs.len(),
                out@ == bindings_map(self.pairs@.take(i as int)),
            decreases self.pairs.len() - i,
        {
            assert(self.pairs@.take(i as int + 1).drop_last() == self.pairs@.take(i as int));
            let t = copy_term(&self.pairs[i].1);
            out.bind(self.pairs[i].0, t);
            i = i + 1;
        }
        assert(self.pairs@.take(self.pairs.len() as int) == self.pairs@);
        out
    }

    /// Adds a binding.
    pub fn bind(&mut self, v: u32, t: Term)
        ensures
            final(self)@ == old(self)@.insert(v, t@),
    {
        let ghost p = self.pairs@;
        self.pairs.push((v, t));
        assert(self.pairs@.drop_last() == p);
    }
}

pub proof fn lemma_terms_view_take(s: Seq<Term>, k: int)
    requires
        0 <= k <= s.len(),
    ensures
        terms_view(s.take(k)) == terms_view(s).take(k),
{
    lemma_terms_view(s);
    lemma_terms_view(s.take(k));
    assert(terms_view(s.take(k)) =~= terms_view(s).take(k));
}

pub proof fn lemma_terms_view_push(s: Seq<Term>, t: Term)
    ensures
        terms_view(s.push(t)) == terms_view(s).push(t@),
{
    assert(s.push(t).drop_last() == s);
}

pub proof fn lemma_subst_terms_push(ts: Seq<STerm>, t: STerm, s: Map<u32, STerm>)
    ensures
        subst_terms(ts.push(t), s) == subst_terms(ts, s).push(subst_term(t, s)),
{
    assert(ts.push(t).drop_last() == ts);
}

proof fn lemma_match_all_push(ps: Seq<STerm>, ts: Seq<STerm>, p: STerm, t: STerm, s: Map<u32, STerm>)
    ensures
        match_all_spec(ps.push(p), ts.push(t), s) == (match match_all_spec(ps, ts, s) {
            None => None,
            Some(s1) => match_spec(p, t, s1),
        }),
{
    assert(ps.push(p).drop_last() == ps);
    assert(ts.push(t).drop_last() == ts);
}

pub proof fn lemma_take_push<A>(s: Seq<A>, i: int)
    requires
        0 <= i < s.len(),
    ensures
        s.take(i + 1) == s.take(i).push(s[i]),
{
    assert(s.take(i + 1) =~= s.take(i).push(s[i]));
}

pub proof fn lemma_take_all<A>(s: Seq<A>)
    ensures
        s.take(s.len() as int) == s,
{
    assert(s.take(s.len() as int) =~= s);
}

/// Structural equality of terms.
pub fn term_eq(a: &Term, b: &Term) -> (r: bool)
    ensures
        r == (a@ == b@),
    decreases a,
{
    match (a, b) {
        (Term::Var(x), Term::Var(y)) => *x == *y,
        (Term::App(f, xs), Term::App(g, ys)) => {
            if *f != *g || xs.len() != ys.len() {
                proof {
                    lemma_terms_view(xs@);
                    lemma_terms_view(ys@);
                }
                return false;
            }
            let mut i: usize = 0;
            while i < xs.len()
                invariant
                    0 <= i <= xs.len(),
                    xs.len() == ys.len(),
                    *a is App,
                    (*a)->App_1 == *xs,
                    *b is App,
                    (*b)->App_1 == *ys,
                    (*a)->App_0 == (*b)->App_0,
                    forall|k: int| 0 <= k < i ==> xs@[k]@ == ys@[k]@,
                decreases xs.len() - i,
            {
                proof {
                    assert(decreases_to!(*a => (*a)->App_1));
                    assert(decreases_to!((*a)->App_1 => (*a)->App_1@));
                    assert(decreases_to!(xs@ => xs@[i as int]));
                }
                if !term_eq(&xs[i], &ys[i]) {
                    proof {
                        lemma_terms_view(xs@);
                        lemma_terms_view(ys@);
                        assert(terms_view(xs@)[i as int] != terms_view(ys@)[i as int]);
                    }
                    return false;
                }
                i = i + 1;
            }
            proof {
                lemma_terms_view(xs@);
                lemma_terms_view(ys@);
                assert(terms_view(xs@) =~= terms_view(ys@));
            }
            true
        },
        _ => false,
    }
}

/// Applies a substitution to a term.
pub fn apply_substitution_term(term: &Term, s: &Subst) -> (r: Term)
    ensures
        r@ == subst_term(term@, s@),
    decreases term,
{
    match term {
        Term::Var(v) => match s.get(*v) {
            Some(t) => copy_term(t),
            None => Term::Var(*v),
        },
        Term::App(f, args) => {
            let mut out: Vec<Term> = Vec::new();
            let mut i: usize = 0;
            while i < args.len()
                invariant
                    0 <= i <= args.len(),
                    *term is App,
                    (*term)->App_1 == *args,
                    terms_view(out@) == subst_terms(terms_view(args@.take(i as int)), s@),
                decreases args.len() - i,
            {
                proof {
                    assert(decreases_to!(*term => (*term)->App_1));
                    assert(decreases_to!((*term)->App_1 => (*term)->App_1@));
                    assert(decreases_to!(args@ => args@[i as int]));
                }
                let c = apply_substitution_term(&args[i], s);
                proof {
                    lemma_take_push(args@, i as int);
                    lemma_terms_view_push(args@.take(i as int), args@[i as int]);
                    lemma_subst_terms_push(terms_view(args@.take(i as int)), args@[i as int]@, s@);
                    lemma_terms_view_push(out@, c);
                }
                out.push(c);
                i = i + 1;
            }
            proof {
                lemma_take_all(args@);
            }
            Term::App(*f, out)
        },
    }
}

/// One-way matching: the extension of `s` that makes `pattern` equal to
/// `target`, binding each unbound pattern variable to the subterm it meets.
pub open spec fn match_spec(pattern: STerm, target: STerm, s: Map<u32, STerm>) -> Option<Map<u32, STerm>>
    decreases pattern,
{
    match pattern {
        STerm::Var(v) => if s.contains_key(v) {
            if s[v] == target {
                Some(s)
            } else {
                None
            }
        } else {
            Some(s.insert(v, target))
        },
        STerm::App(f, ps) => match target {
            STerm::App(g, ts) => if f == g && ps.len() == ts.len() {
                match_all_spec(ps, ts, s)
            } else {
                None
            },
            STerm::Var(_) => None,
        },
    }
}

pub open spec fn match_all_spec(ps: Seq<STerm>, ts: Seq<STerm>, s: Map<u32, STerm>) -> Option<Map<u32, STerm>>
    decreases ps,
{
    if ps.len() == 0 {
        Some(s)
    } else {
        match match_all_spec(ps.drop_last(), ts.drop_last(), s) {
            None => None,
            Some(s1) => match_spec(ps.last(), ts.last(), s1),
        }
    }
}

proof fn lemma_match_all_fails(ps: Seq<STerm>, ts: Seq<STerm>, s: Map<u32, STerm>, k: int)
    requires
        0 <= k <= ps.len(),
        ps.len() == ts.len(),
        match_all_spec(ps.take(k), ts.take(k), s) is None,
    ensures
        match_all_spec(ps, ts, s) is None,
    decreases ps.len() - k,
{
    if k < ps.len() {
        assert(ps.take(k + 1).drop_last() == ps.take(k));
        assert(ts.take(k + 1).drop_last() == ts.take(k));
        lemma_match_all_fails(ps, ts, s, k + 1);
    } else {
        assert(ps.take(k) == ps);
        assert(ts.take(k) == ts);
    }
}

/// Every variable of the term is bound by the substitution.
pub open spec fn binds_all(t: STerm, s: Map<u32, STerm>) -> bool {
    forall|v: u32| occurs_in(v, t) ==> s.contains_key(v)
}

proof fn lemma_occurs_in_all(v: u32, ts: Seq<STerm>)
    ensures
        occurs_in_all(v, ts) <==> exists|i: int| 0 <= i < ts.len() && occurs_in(v, #[trigger] ts[i]),
    decreases ts.len(),
{
    if ts.len() > 0 {
        lemma_occurs_in_all(v, ts.drop_last());
        if occurs_in_all(v, ts.drop_last()) {
            let i = choose|i: int| 0 <= i < ts.drop_last().len() && occurs_in(v, #[trigger] ts.drop_last()[i]);
            assert(ts[i] == ts.drop_last()[i]);
        }
        if exists|i: int| 0 <= i < ts.len() && occurs_in(v, #[trigger] ts[i]) {
            let i = choose|i: int| 0 <= i < ts.len() && occurs_in(v, #[trigger] ts[i]);
            if i < ts.len() - 1 {
                assert(ts.drop_last()[i] == ts[i]);
            }
        }
    }
}

/// Extending a substitution does not change a term all of whose variables
/// are already bound.
pub proof fn lemma_subst_extend(t: STerm, s1: Map<u32, STerm>, s2: Map<u32, STerm>)
    requires
        s1.submap_of(s2),
        binds_all(t, s1),
    ensures
        subst_term(t, s1) == subst_term(t, s2),
    decreases t,
{
    match t {
        STerm::Var(v) => {
            assert(occurs_in(v, t));
        },
        STerm::App(f, args) => {
            lemma_subst_terms(args, s1);
            lemma_subst_terms(args, s2);
            assert forall|i: int| 0 <= i < args.len() implies subst_term(args[i], s1) == subst_term(#[trigger] args[i], s2) by {
                assert forall|v: u32| occurs_in(v, args[i]) implies s1.contains_key(v) by {
                    lemma_occurs_in_all(v, args);
                    assert(occurs_in(v, t));
                }
                lemma_subst_extend(args[i], s1, s2);
            }
            assert(subst_terms(args, s1) =~= subst_terms(args, s2));
        },
    }
}

/// Matching is sound: the match extends the given substitution, binds every
/// pattern variable, and instantiates the pattern to the target.
pub proof fn lemma_match_sound(p: STerm, t: STerm, s: Map<u32, STerm>)
    ensures
        match_spec(p, t, s) matches Some(m) ==> s.submap_of(m) && binds_all(p, m) && subst_term(p, m) == t,
    decreases p,
{
    match p {
        STerm::Var(v) => {},
        STerm::App(f, ps) => {
            if let STerm::App(g, ts) = t {
                if f == g && ps.len() == ts.len() {
                    lemma_match_all_sound(ps, ts, s);
                    if let Some(m) = match_spec(p, t, s) {
                        lemma_subst_terms(ps, m);
                        assert(subst_terms(ps, m) =~= ts);
                        assert forall|v: u32| occurs_in(v, p) implies m.contains_key(v) by {
                            lemma_occurs_in_all(v, ps);
                        }
                    }
                }
            }
        },
    }
}

proof fn lemma_match_all_sound(ps: Seq<STerm>, ts: Seq<STerm>, s: Map<u32, STerm>)
    requires
        ps.len() == ts.len(),
    ensures
        match_all_spec(ps, ts, s) matches Some(m) ==> s.submap_of(m) && forall|i: int| 0 <= i < ps.len() ==> binds_all(#[trigger] ps[i], m) && subst_term(ps[i], m) == ts[i],
    decreases ps,
{
    if ps.len() > 0 {
        lemma_match_all_sound(ps.drop_last(), ts.drop_last(), s);
        if let Some(s1) = match_all_spec(ps.drop_last(), ts.drop_last(), s) {
            lemma_match_sound(ps.last(), ts.last(), s1);
            if let Some(m) = match_spec(ps.last(), ts.last(), s1) {
                vstd::map_lib::lemma_submap_of_trans(s, s1, m);
                assert forall|i: int| 0 <= i < ps.len() implies binds_all(#[trigger] ps[i], m) && subst_term(ps[i], m) == ts[i] by {
                    if i == ps.len() - 1 {
                        assert(ps[i] == ps.last());
                        assert(ts[i] == ts.last());
                    } else {
                        assert(ps.drop_last()[i] == ps[i]);
                        assert(ts.drop_last()[i] == ts[i]);
                        lemma_subst_extend(ps[i], s1, m);
                    }
                }
            }
        }
    }
}

/// Matching is complete: when some extension of `s` instantiates the
/// pattern to the target, matching succeeds with a part of it.
pub proof fn lemma_match_complete(p: STerm, t: STerm, s: Map<u32, STerm>, w: Map<u32, STerm>)
    requires
        s.submap_of(w),
        binds_all(p, w),
        subst_term(p, w) == t,
    ensures
        match_spec(p, t, s) matches Some(m) && m.submap_of(w),
    decreases p,
{
    match p {
        STerm::Var(v) => {
            assert(occurs_in(v, p));
        },
        STerm::App(f, ps) => {
            lemma_subst_terms(ps, w);
            let ts = subst_terms(ps, w);
            assert forall|i: int| 0 <= i < ps.len() implies binds_all(#[trigger] ps[i], w) by {
                assert forall|v: u32| occurs_in(v, ps[i]) implies w.contains_key(v) by {
                    lemma_occurs_in_all(v, ps);
                    assert(occurs_in(v, p));
                }
            }
            lemma_match_all_complete(ps, ts, s, w);
        },
    }
}

proof fn lemma_match_all_complete(ps: Seq<STerm>, ts: Seq<STerm>, s: Map<u32, STerm>, w: Map<u32, STerm>)
    requires
        s.submap_of(w),
        ps.len() == ts.len(),
        forall|i: int| 0 <= i < ps.len() ==> subst_term(#[trigger] ps[i], w) == ts[i] && binds_all(ps[i], w),
    ensures
        match_all_spec(ps, ts, s) matches Some(m) && m.submap_of(w),
    decreases ps,
{
    if ps.len() > 0 {
        assert forall|i: int| 0 <= i < ps.drop_last().len() implies subst_term(#[trigger] ps.drop_last()[i], w) == ts.drop_last()[i] && binds_all(ps.drop_last()[i], w) by {
            assert(ps.drop_last()[i] == ps[i]);
        }
        assert(binds_all(ps.last(), w)) by {
            assert(ps[ps.len() - 1] == ps.last());
        }
        lemma_match_all_complete(ps.drop_last(), ts.drop_last(), s, w);
        let s1 = match_all_spec(ps.drop_last(), ts.drop_last(), s)->Some_0;
        assert(subst_term(ps.last(), w) == ts.last());
        lemma_match_complete(ps.last(), ts.last(), s1, w);
    }
}

/// Matches `pattern` against `target`, extending the substitution.
pub fn match_pattern(pattern: &Term, target: &Term, substitution: &mut Subst) -> (r: bool)
    ensures
        match match_spec(pattern@, target@, old(substitution)@) {
            Some(m) => r && final(substitution)@ == m,
            None => !r,
        },
    decreases pattern,
{
    match pattern {
        Term::Var(v) => match substitution.get(*v) {
            Some(existing) => term_eq(existing, target),
            None => {
                let c = copy_term(target);
                substitution.bind(*v, c);
                true
            },
        },
        Term::App(f, ps) => match target {
            Term::App(g, ts) => {
                if *f != *g || ps.len() != ts.len() {
                    proof {
                        lemma_terms_view(ps@);
                        lemma_terms_view(ts@);
                    }
                    return false;
                }
                proof {
                    lemma_terms_view(ps@);
                    lemma_terms_view(ts@);
                }
                let ghost s0 = substitution@;
                let mut i: usize = 0;
                assert(terms_view(ps@.take(0)) =~= Seq::<STerm>::empty());
                assert(terms_view(ts@.take(0)) =~= Seq::<STerm>::empty());
                while i < ps.len()
                    invariant
                        0 <= i <= ps.len(),
                        ps.len() == ts.len(),
                        *pattern is App,
                        (*pattern)->App_1 == *ps,
                        *target is App,
                        (*target)->App_1 == *ts,
                        (*pattern)->App_0 == (*target)->App_0,
                        s0 == old(substitution)@,
                        match_all_spec(terms_view(ps@.take(i as int)), terms_view(ts@.take(i as int)), s0) == Some(substitution@),
                    decreases ps.len() - i,
                {
                    proof {
                        assert(decreases_to!(*pattern => (*pattern)->App_1));
                        assert(decreases_to!((*pattern)->App_1 => (*pattern)->App_1@));
                        assert(decreases_to!(ps@ => ps@[i as int]));
                        lemma_take_push(ps@, i as int);
                        lemma_take_push(ts@, i as int);
                        lemma_terms_view_push(ps@.take(i as int), ps@[i as int]);
                        lemma_terms_view_push(ts@.take(i as int), ts@[i as int]);
                        lemma_match_all_push(terms_view(ps@.take(i as int)), terms_view(ts@.take(i as int)), ps@[i as int]@, ts@[i as int]@, s0);
                    }
                    let ok = match_pattern(&ps[i], &ts[i], substitution);
                    if !ok {
                        proof {
                            lemma_terms_view(ps@);
                            lemma_terms_view(ts@);
                            lemma_terms_view_take(ps@, i as int + 1);
                            lemma_terms_view_take(ts@, i as int + 1);
                            lemma_match_all_fails(terms_view(ps@), terms_view(ts@), s0, i as int + 1);
                        }
                        return false;
                    }
                    i = i + 1;
                }
                proof {
                    lemma_take_all(ps@);
                    lemma_take_all(ts@);
                }
                true
            },
            Term::Var(_) => false,
        },
    }
}

} // verus!
