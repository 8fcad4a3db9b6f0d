//! Instances of atoms, literals and clauses: substitution, renaming apart by
//! shifting variables, the largest variable of a clause, and unification of
//! atoms.
use vstd::prelude::*;
use crate::term::{Term, Atom, Literal, STerm, SAtom, SLiteral, terms_view, lemma_terms_view, clause_view};
use crate::subst::{
    Subst, subst_term, subst_terms, lemma_subst_terms, apply_substitution_term, lemma_terms_view_push,
    lemma_subst_terms_push, lemma_take_push, lemma_take_all,
};
use crate::unify::{
    vars_of, vars_all, lemma_vars_all, lemma_vars_finite, lemma_vars_all_finite, unifier_ok, unify_terms,
    absorbs, lemma_subst_disjoint,
};

verus! {

pub open spec fn subst_atom(a: SAtom, s: Map<u32, STerm>) -> SAtom {
    match a {
        SAtom::Pred(p, args) => SAtom::Pred(p, subst_terms(args, s)),
        SAtom::Eq(l, r) => SAtom::Eq(subst_term(l, s), subst_term(r, s)),
    }
}

pub open spec fn subst_literal(l: SLiteral, s: Map<u32, STerm>) -> SLiteral {
    SLiteral { positive: l.positive, atom: subst_atom(l.atom, s) }
}

/// The empty substitution leaves a clause unchanged.
pub proof fn lemma_subst_clause_empty(c: Seq<SLiteral>)
    ensures
        subst_clause(c, Map::<u32, STerm>::empty()) == c,
{
    let e = Map::<u32, STerm>::empty();
    assert forall|i: int| 0 <= i < c.len() implies #[trigger] subst_clause(c, e)[i] == c[i] by {
        match c[i].atom {
            SAtom::Pred(p, args) => {
                crate::subst::lemma_subst_terms(args, e);
                assert forall|k: int| 0 <= k < args.len() implies #[trigger] subst_terms(args, e)[k] == args[k] by {
                    crate::unify::lemma_subst_disjoint(args[k], e);
                }
                assert(subst_terms(args, e) =~= args);
            },
            SAtom::Eq(l, r) => {
                crate::unify::lemma_subst_disjoint(l, e);
                crate::unify::lemma_subst_disjoint(r, e);
            },
        }
    }
    assert(subst_clause(c, e) =~= c);
}

/// The instance of a clause under a substitution.
pub open spec fn subst_clause(c: Seq<SLiteral>, s: Map<u32, STerm>) -> Seq<SLiteral> {
    c.map_values(|l: SLiteral| subst_literal(l, s))
}

/// Applies a substitution to each term of a list.
pub fn apply_substitution_terms(args: &Vec<Term>, s: &Subst) -> (r: Vec<Term>)
    ensures
        terms_view(r@) == subst_terms(terms_view(args@), s@),
{
    let mut out: Vec<Term> = Vec::new();
    let mut i: usize = 0;
    while i < args.len()
        invariant
            0 <= i <= args.len(),
            terms_view(out@) == subst_terms(terms_view(args@.take(i as int)), s@),
        decreases args.len() - i,
    {
        let c = apply_substitution_term(&args[i], s);
        proof {
            lemma_take_push(args@, i as int);
            lemma_terms_view_push(args@.take(i as int), args@[i as int]);
            lemma_subst_terms_push(terms_view(args@.take(i as int)), args@[i as int]@, s@);
            lemma_terms_view_push(out@, c);
        }
        out.push(c);
        i = i + 1;
    }
    proof {
        lemma_take_all(args@);
    }
    out
}

pub fn apply_substitution_atom(atom: &Atom, s: &Subst) -> (r: Atom)
    ensures
        r@ == subst_atom(atom@, s@),
{
    match atom {
        Atom::Pred(p, args) => Atom::Pred(*p, apply_substitution_terms(args, s)),
        Atom::Eq(l, r) => Atom::Eq(apply_substitution_term(l, s), apply_substitution_term(r, s)),
    }
}

pub fn apply_substitution_literal(literal: &Literal, s: &Subst) -> (r: Literal)
    ensures
        r@ == subst_literal(literal@, s@),
{
    Literal { positive: literal.positive, atom: apply_substitution_atom(&literal.atom, s) }
}

/// The clause without its literal at `skip`, in order.
pub open spec fn without(c: Seq<SLiteral>, skip: int) -> Seq<SLiteral> {
    c.remove(skip)
}

/// Appends the instance of every literal of `c` but the one at `skip`.
pub fn push_instance_except(out: &mut Vec<Literal>, c: &Vec<Literal>, skip: usize, s: &Subst)
    requires
        skip < c@.len(),
    ensures
        clause_view(final(out)@) == clause_view(old(out)@) + subst_clause(without(clause_view(c@), skip as int), s@),
{
    let ghost cv = clause_view(c@);
    let ghost o0 = clause_view(out@);
    let mut k: usize = 0;
    while k < c.len()
        invariant
            0 <= k <= c.len(),
            skip < c@.len(),
            cv == clause_view(c@),
            o0 == clause_view(old(out)@),
            clause_view(out@) == o0 + subst_clause(
                if k <= skip { cv.take(k as int) } else { cv.take(skip as int) + cv.subrange(skip as int + 1, k as int) },
                s@,
            ),
        decreases c.len() - k,
    {
        if k != skip {
            let l = apply_substitution_literal(&c[k], s);
            let ghost before = clause_view(out@);
            out.push(l);
            proof {
                assert(clause_view(out@) =~= before.push(l@));
                assert(cv[k as int] == c@[k as int]@);
                if k < skip {
                    assert(cv.take(k as int + 1) =~= cv.take(k as int).push(cv[k as int]));
                    assert(subst_clause(cv.take(k as int + 1), s@) =~= subst_clause(cv.take(k as int), s@).push(subst_literal(cv[k as int], s@)));
                } else {
                    let a = cv.take(skip as int) + cv.subrange(skip as int + 1, k as int);
                    let b = cv.take(skip as int) + cv.subrange(skip as int + 1, k as int + 1);
                    assert(b =~= a.push(cv[k as int]));
                    assert(subst_clause(b, s@) =~= subst_clause(a, s@).push(subst_literal(cv[k as int], s@)));
                }
            }
        } else {
            proof {
                assert(cv.take(skip as int) + cv.subrange(skip as int + 1, skip as int + 1) =~= cv.take(skip as int));
            }
        }
        k = k + 1;
    }
    proof {
        assert(cv.take(skip as int) + cv.subrange(skip as int + 1, c@.len() as int) =~= cv.remove(skip as int));
    }
}

/// A copy of the clause without its literal at `skip`.
pub fn clause_without(c: &Vec<Literal>, skip: usize) -> (r: Vec<Literal>)
    requires
        skip < c@.len(),
    ensures
        clause_view(r@) == without(clause_view(c@), skip as int),
{
    let ghost cv = clause_view(c@);
    let mut out: Vec<Literal> = Vec::new();
    let mut k: usize = 0;
    while k < c.len()
        invariant
            0 <= k <= c.len(),
            skip < c@.len(),
            cv == clause_view(c@),
            clause_view(out@) == (if k <= skip { cv.take(k as int) } else { cv.take(skip as int) + cv.subrange(skip as int + 1, k as int) }),
        decreases c.len() - k,
    {
        if k != skip {
            let l = crate::clause::copy_literal(&c[k]);
            let ghost before = clause_view(out@);
            out.push(l);
            proof {
                assert(clause_view(out@) =~= before.push(l@));
                assert(cv[k as int] == c@[k as int]@);
                if k < skip {
                    assert(cv.take(k as int + 1) =~= cv.take(k as int).push(cv[k as int]));
                } else {
                    let a = cv.take(skip as int) + cv.subrange(skip as int + 1, k as int);
                    let b = cv.take(skip as int) + cv.subrange(skip as int + 1, k as int + 1);
                    assert(b =~= a.push(cv[k as int]));
                }
            }
        } else {
            proof {
                assert(cv.take(skip as int) + cv.subrange(skip as int + 1, skip as int + 1) =~= cv.take(skip as int));
            }
        }
        k = k + 1;
    }
    proof {
        assert(cv.take(skip as int) + cv.subrange(skip as int + 1, c@.len() as int) =~= cv.remove(skip as int));
    }
    out
}

/// Adding `k` to a variable, saturating at the largest variable.
pub open spec fn shift_var(v: u32, k: u32) -> u32 {
    if v + k > u32::MAX {
        u32::MAX
    } else {
        (v + k) as u32
    }
}

pub open spec fn shift_sterm(t: STerm, k: u32) -> STerm
    decreases t,
{
    match t {
        STerm::Var(v) => STerm::Var(shift_var(v, k)),
        STerm::App(f, args) => STerm::App(f, shift_sterms(args, k)),
    }
}

pub open spec fn shift_sterms(ts: Seq<STerm>, k: u32) -> Seq<STerm>
    decreases ts,
{
    if ts.len() == 0 {
        Seq::empty()
    } else {
        shift_sterms(ts.drop_last(), k).push(shift_sterm(ts.last(), k))
    }
}

pub open spec fn shift_satom(a: SAtom, k: u32) -> SAtom {
    match a {
        SAtom::Pred(p, args) => SAtom::Pred(p, shift_sterms(args, k)),
        SAtom::Eq(l, r) => SAtom::Eq(shift_sterm(l, k), shift_sterm(r, k)),
    }
}

proof fn lemma_shift_zero_term(t: STerm)
    ensures
        shift_sterm(t, 0) == t,
    decreases t,
{
    match t {
        STerm::Var(_) => {},
        STerm::App(f, args) => {
            lemma_shift_zero_terms(args);
        },
    }
}

proof fn lemma_shift_zero_terms(ts: Seq<STerm>)
    ensures
        shift_sterms(ts, 0) == ts,
    decreases ts,
{
    if ts.len() > 0 {
        lemma_shift_zero_terms(ts.drop_last());
        lemma_shift_zero_term(ts.last());
        assert(ts.drop_last().push(ts.last()) =~= ts);
    }
}

/// Shifting by zero changes nothing.
pub proof fn lemma_shift_zero_clause(c: Seq<SLiteral>)
    ensures
        shift_sclause(c, 0) == c,
{
    assert forall|i: int| 0 <= i < c.len() implies #[trigger] shift_sclause(c, 0)[i] == c[i] by {
        match c[i].atom {
            SAtom::Pred(p, args) => lemma_shift_zero_terms(args),
            SAtom::Eq(l, r) => {
                lemma_shift_zero_term(l);
                lemma_shift_zero_term(r);
            },
        }
    }
    assert(shift_sclause(c, 0) =~= c);
}

/// The clause with every variable shifted by `k`.
pub open spec fn shift_sclause(c: Seq<SLiteral>, k: u32) -> Seq<SLiteral> {
    c.map_values(|l: SLiteral| SLiteral { positive: l.positive, atom: shift_satom(l.atom, k) })
}

fn shift_var_exec(v: u32, k: u32) -> (r: u32)
    ensures
        r == shift_var(v, k),
{
    v.saturating_add(k)
}

pub fn shift_term(t: &Term, k: u32) -> (r: Term)
    ensures
        r@ == shift_sterm(t@, k),
    decreases t,
{
    match t {
        Term::Var(v) => Term::Var(shift_var_exec(*v, k)),
        Term::App(f, args) => {
            let mut out: Vec<Term> = Vec::new();
            let mut i: usize = 0;
            while i < args.len()
                invariant
                    0 <= i <= args.len(),
                    *t is App,
                    (*t)->App_1 == *args,
                    terms_view(out@) == shift_sterms(terms_view(args@.take(i as int)), k),
                decreases args.len() - i,
            {
                proof {
                    assert(decreases_to!(*t => (*t)->App_1));
                    assert(decreases_to!((*t)->App_1 => (*t)->App_1@));
                    assert(decreases_to!(args@ => args@[i as int]));
                }
                let c = shift_term(&args[i], k);
                proof {
                    lemma_take_push(args@, i as int);
                    lemma_terms_view_push(args@.take(i as int), args@[i as int]);
                    let ts = terms_view(args@.take(i as int));
                    assert(ts.push(args@[i as int]@).drop_last() == ts);
                    lemma_terms_view_push(out@, c);
                }
                out.push(c);
                i = i + 1;
            }
            proof {
                lemma_take_all(args@);
            }
            Term::App(*f, out)
        },
    }
}

fn shift_terms(args: &Vec<Term>, k: u32) -> (r: Vec<Term>)
    ensures
        terms_view(r@) == shift_sterms(terms_view(args@), k),
{
    let mut out: Vec<Term> = Vec::new();
    let mut i: usize = 0;
    while i < args.len()
        invariant
            0 <= i <= args.len(),
            terms_view(out@) == shift_sterms(terms_view(args@.take(i as int)), k),
        decreases args.len() - i,
    {
        let c = shift_term(&args[i], k);
        proof {
            lemma_take_push(args@, i as int);
            lemma_terms_view_push(args@.take(i as int), args@[i as int]);
            let ts = terms_view(args@.take(i as int));
            assert(ts.push(args@[i as int]@).drop_last() == ts);
            lemma_terms_view_push(out@, c);
        }
        out.push(c);
        i = i + 1;
    }
    proof {
        lemma_take_all(args@);
    }
    out
}

pub fn shift_atom(atom: &Atom, k: u32) -> (r: Atom)
    ensures
        r@ == shift_satom(atom@, k),
{
    match atom {
        Atom::Pred(p, args) => Atom::Pred(*p, shift_terms(args, k)),
        Atom::Eq(l, r) => Atom::Eq(shift_term(l, k), shift_term(r, k)),
    }
}

/// Renames the clause apart by shifting every variable by `shift`
/// (saturating).
pub fn shift_clause(clause: &mut Vec<Literal>, shift: u32)
    ensures
        clause_view(final(clause)@) == shift_sclause(clause_view(old(clause)@), shift),
{
    let ghost cv = clause_view(clause@);
    let mut out: Vec<Literal> = Vec::new();
    let mut i: usize = 0;
    while i < clause.len()
        invariant
            0 <= i <= clause.len(),
            cv == clause_view(clause@),
            clause_view(out@) == shift_sclause(cv.take(i as int), shift),
        decreases clause.len() - i,
    {
        let l = Literal { positive: clause[i].positive, atom: shift_atom(&clause[i].atom, shift) };
        let ghost before = clause_view(out@);
        out.push(l);
        proof {
            assert(cv[i as int] == clause@[i as int]@);
            assert(clause_view(out@) =~= before.push(l@));
            assert(cv.take(i as int + 1) =~= cv.take(i as int).push(cv[i as int]));
            assert(shift_sclause(cv.take(i as int + 1), shift) =~= shift_sclause(cv.take(i as int), shift).push(l@));
        }
        i = i + 1;
    }
    proof {
        assert(cv.take(clause@.len() as int) =~= cv);
    }
    *clause = out;
}

pub open spec fn max_u32(a: u32, b: u32) -> u32 {
    if a >= b {
        a
    } else {
        b
    }
}

/// The largest variable of a term.
pub open spec fn term_max_var(t: STerm) -> u32
    decreases t,
{
    match t {
        STerm::Var(v) => v,
        STerm::App(_, args) => terms_max_var(args),
    }
}

/// The largest variable of a list of terms, or 0.
pub open spec fn terms_max_var(ts: Seq<STerm>) -> u32
    decreases ts,
{
    if ts.len() == 0 {
        0
    } else {
        max_u32(terms_max_var(ts.drop_last()), term_max_var(ts.last()))
    }
}

pub open spec fn atom_max_var(a: SAtom) -> u32 {
    match a {
        SAtom::Pred(_, args) => terms_max_var(args),
        SAtom::Eq(l, r) => max_u32(term_max_var(l), term_max_var(r)),
    }
}

/// The largest variable of a clause, or 0 when it has none.
pub open spec fn clause_max_var(c: Seq<SLiteral>) -> u32
    decreases c.len(),
{
    if c.len() == 0 {
        0
    } else {
        max_u32(clause_max_var(c.drop_last()), atom_max_var(c.last().atom))
    }
}

pub fn max_var_term(t: &Term) -> (r: u32)
    ensures
        r == term_max_var(t@),
    decreases t,
{
    match t {
        Term::Var(v) => *v,
        Term::App(_, args) => {
            let mut m: u32 = 0;
            let mut i: usize = 0;
            while i < args.len()
                invariant
                    0 <= i <= args.len(),
                    *t is App,
                    (*t)->App_1 == *args,
                    m == terms_max_var(terms_view(args@.take(i as int))),
                decreases args.len() - i,
            {
                proof {
                    assert(decreases_to!(*t => (*t)->App_1));
                    assert(decreases_to!((*t)->App_1 => (*t)->App_1@));
                    assert(decreases_to!(args@ => args@[i as int]));
                }
                let c = max_var_term(&args[i]);
                proof {
                    lemma_take_push(args@, i as int);
                    lemma_terms_view_push(args@.take(i as int), args@[i as int]);
                    let ts = terms_view(args@.take(i as int));
                    assert(ts.push(args@[i as int]@).drop_last() == ts);
                }
                if c > m {
                    m = c;
                }
                i = i + 1;
            }
            proof {
                lemma_take_all(args@);
            }
            m
        },
    }
}

fn max_var_terms(args: &Vec<Term>) -> (r: u32)
    ensures
        r == terms_max_var(terms_view(args@)),
{
    let mut m: u32 = 0;
    let mut i: usize = 0;
    while i < args.len()
        invariant
            0 <= i <= args.len(),
            m == terms_max_var(terms_view(args@.take(i as int))),
        decreases args.len() - i,
    {
        let c = max_var_term(&args[i]);
        proof {
            lemma_take_push(args@, i as int);
            lemma_terms_view_push(args@.take(i as int), args@[i as int]);
            let ts = terms_view(args@.take(i as int));
            assert(ts.push(args@[i as int]@).drop_last() == ts);
        }
        if c > m {
            m = c;
        }
        i = i + 1;
    }
    proof {
        lemma_take_all(args@);
    }
    m
}

pub fn max_var_atom(atom: &Atom) -> (r: u32)
    ensures
        r == atom_max_var(atom@),
{
    match atom {
        Atom::Pred(_, args) => max_var_terms(args),
        Atom::Eq(l, r) => {
            let a = max_var_term(l);
            let b = max_var_term(r);
            if a >= b {
                a
            } else {
                b
            }
        },
    }
}

/// The largest variable of a clause, or 0 when it has none.
pub fn max_var_clause(clause: &Vec<Literal>) -> (r: u32)
    ensures
        r == clause_max_var(clause_view(clause@)),
{
    let ghost cv = clause_view(clause@);
    let mut m: u32 = 0;
    let mut i: usize = 0;
    while i < clause.len()
        invariant
            0 <= i <= clause.len(),
            cv == clause_view(clause@),
            m == clause_max_var(cv.take(i as int)),
        decreases clause.len() - i,
    {
        let c = max_var_atom(&clause[i].atom);
        proof {
            assert(cv[i as int] == clause@[i as int]@);
            assert(cv.take(i as int + 1).drop_last() =~= cv.take(i as int));
        }
        if c > m {
            m = c;
        }
        i = i + 1;
    }
    proof {
        assert(cv.take(clause@.len() as int) =~= cv);
    }
    m
}

/// The variables of an atom.
pub open spec fn atom_vars(a: SAtom) -> Set<u32> {
    match a {
        SAtom::Pred(_, args) => vars_all(args),
        SAtom::Eq(l, r) => vars_of(l) + vars_of(r),
    }
}

pub proof fn lemma_atom_vars_finite(a: SAtom)
    ensures
        atom_vars(a).finite(),
{
    match a {
        SAtom::Pred(_, args) => lemma_vars_all_finite(args),
        SAtom::Eq(l, r) => {
            lemma_vars_finite(l);
            lemma_vars_finite(r);
        },
    }
}

/// Unifies two terms under an idempotent substitution over `xs`.
pub fn unify_pair(a: &Term, b: &Term, s: &mut Subst, Ghost(xs): Ghost<Set<u32>>) -> (r: bool)
    requires
        xs.finite(),
        unifier_ok(old(s)@, xs),
        vars_of(a@).subset_of(xs),
        vars_of(b@).subset_of(xs),
    ensures
        unifier_ok(final(s)@, xs),
        absorbs(final(s)@, old(s)@),
        r ==> subst_term(a@, final(s)@) == subst_term(b@, final(s)@),
        subst_term(a@, old(s)@) == subst_term(b@, old(s)@) ==> r && final(s)@ == old(s)@,
        forall|w: Map<u32, STerm>| #[trigger] absorbs(w, old(s)@) && subst_term(a@, w) == subst_term(b@, w)
            ==> r && absorbs(w, final(s)@),
{
    let ghost unbound = xs.len() - s@.dom().len();
    let ghost size = crate::term::sterm_size(subst_term(a@, s@));
    unify_terms(a, b, s, Ghost(xs), Ghost(unbound), Ghost(size))
}

/// Unifies two lists of terms pairwise under one substitution.
pub fn unify_lists(ls: &Vec<Term>, rs: &Vec<Term>, s: &mut Subst, Ghost(xs): Ghost<Set<u32>>) -> (r: bool)
    requires
        xs.finite(),
        ls@.len() == rs@.len(),
        unifier_ok(old(s)@, xs),
        vars_all(terms_view(ls@)).subset_of(xs),
        vars_all(terms_view(rs@)).subset_of(xs),
    ensures
        unifier_ok(final(s)@, xs),
        absorbs(final(s)@, old(s)@),
        r ==> subst_terms(terms_view(ls@), final(s)@) == subst_terms(terms_view(rs@), final(s)@),
        (forall|k: int| 0 <= k < ls@.len() ==> subst_term(#[trigger] ls@[k]@, old(s)@) == subst_term(rs@[k]@, old(s)@))
            ==> r && final(s)@ == old(s)@,
        forall|w: Map<u32, STerm>| #[trigger] absorbs(w, old(s)@)
            && subst_terms(terms_view(ls@), w) == subst_terms(terms_view(rs@), w) ==> r && absorbs(w, final(s)@),
{
    proof {
        lemma_terms_view(ls@);
        lemma_terms_view(rs@);
        lemma_vars_all(terms_view(ls@));
        lemma_vars_all(terms_view(rs@));
    }
    let ghost s0 = s@;
    proof {
        crate::unify::lemma_absorbs_refl(s0);
    }
    let mut i: usize = 0;
    while i < ls.len()
        invariant
            0 <= i <= ls.len(),
            ls@.len() == rs@.len(),
            xs.finite(),
            s0 == old(s)@,
            unifier_ok(s@, xs),
            absorbs(s@, s0),
            vars_all(terms_view(ls@)).subset_of(xs),
            vars_all(terms_view(rs@)).subset_of(xs),
            terms_view(ls@).len() == ls@.len(),
            terms_view(rs@).len() == rs@.len(),
            forall|k: int| 0 <= k < ls@.len() ==> #[trigger] terms_view(ls@)[k] == ls@[k]@,
            forall|k: int| 0 <= k < rs@.len() ==> #[trigger] terms_view(rs@)[k] == rs@[k]@,
            forall|v: u32| vars_all(terms_view(ls@)).contains(v) <==> exists|k: int| 0 <= k < terms_view(ls@).len() && #[trigger] vars_of(terms_view(ls@)[k]).contains(v),
            forall|v: u32| vars_all(terms_view(rs@)).contains(v) <==> exists|k: int| 0 <= k < terms_view(rs@).len() && #[trigger] vars_of(terms_view(rs@)[k]).contains(v),
            forall|k: int| 0 <= k < i ==> subst_term(#[trigger] ls@[k]@, s@) == subst_term(rs@[k]@, s@),
            (forall|k: int| 0 <= k < ls@.len() ==> subst_term(#[trigger] ls@[k]@, s0) == subst_term(rs@[k]@, s0))
                ==> s@ == s0,
            forall|w: Map<u32, STerm>| #[trigger] absorbs(w, s0)
                && subst_terms(terms_view(ls@), w) == subst_terms(terms_view(rs@), w) ==> absorbs(w, s@),
        decreases ls.len() - i,
    {
        let ghost cur = s@;
        proof {
            assert(terms_view(ls@)[i as int] == ls@[i as int]@);
            assert(terms_view(rs@)[i as int] == rs@[i as int]@);
            assert forall|w: u32| vars_of(ls@[i as int]@).contains(w) implies xs.contains(w) by {
                assert(vars_of(terms_view(ls@)[i as int]).contains(w));
            }
            assert forall|w: u32| vars_of(rs@[i as int]@).contains(w) implies xs.contains(w) by {
                assert(vars_of(terms_view(rs@)[i as int]).contains(w));
            }
        }
        let ok = unify_pair(&ls[i], &rs[i], s, Ghost(xs));
        proof {
            assert forall|w: Map<u32, STerm>| #[trigger] absorbs(w, s0)
                && subst_terms(terms_view(ls@), w) == subst_terms(terms_view(rs@), w) implies ok && absorbs(w, s@) by {
                lemma_subst_terms(terms_view(ls@), w);
                lemma_subst_terms(terms_view(rs@), w);
                assert(subst_terms(terms_view(ls@), w)[i as int] == subst_terms(terms_view(rs@), w)[i as int]);
                assert(absorbs(w, cur));
            }
            assert forall|t: STerm| #[trigger] subst_term(subst_term(t, s0), s@) == subst_term(t, s@) by {
                assert(subst_term(subst_term(subst_term(t, s0), cur), s@) == subst_term(subst_term(t, s0), s@));
                assert(subst_term(subst_term(t, cur), s@) == subst_term(t, s@));
            }
        }
        if !ok {
            return false;
        }
        proof {
            assert forall|k: int| 0 <= k < i + 1 implies subst_term(#[trigger] ls@[k]@, s@) == subst_term(rs@[k]@, s@) by {
                if k < i {
                    assert(subst_term(subst_term(ls@[k]@, cur), s@) == subst_term(ls@[k]@, s@));
                    assert(subst_term(subst_term(rs@[k]@, cur), s@) == subst_term(rs@[k]@, s@));
                }
            }
        }
        i = i + 1;
    }
    proof {
        lemma_subst_terms(terms_view(ls@), s@);
        lemma_subst_terms(terms_view(rs@), s@);
        assert(subst_terms(terms_view(ls@), s@) =~= subst_terms(terms_view(rs@), s@));
    }
    true
}

/// `s` makes the two atoms equal, an equation possibly read flipped.
pub open spec fn atoms_unified(a: SAtom, b: SAtom, s: Map<u32, STerm>) -> bool {
    match (a, b) {
        (SAtom::Pred(p, xs), SAtom::Pred(q, ys)) => p == q && subst_terms(xs, s) == subst_terms(ys, s),
        (SAtom::Eq(l1, r1), SAtom::Eq(l2, r2)) => (subst_term(l1, s) == subst_term(l2, s) && subst_term(r1, s) == subst_term(r2, s))
            || (subst_term(l1, s) == subst_term(r2, s) && subst_term(r1, s) == subst_term(l2, s)),
        _ => false,
    }
}

/// Unifies the argument lists of two predicate atoms with the same symbol
/// and arity, starting from the empty substitution.
pub fn unify_pred_atoms(a: &Atom, b: &Atom) -> (r: Option<Subst>)
    ensures
        r matches Some(s) ==> (a@ is Pred && b@ is Pred && atoms_unified(a@, b@, s@)),
        a@ == b@ && a@ is Pred ==> (r matches Some(s) && s@ == Map::<u32, STerm>::empty()),
        a@ is Pred && (exists|w: Map<u32, STerm>| atoms_unified(a@, b@, w)) ==> r is Some,
        r matches Some(s) ==> s@.dom().subset_of(atom_vars(a@) + atom_vars(b@))
            && forall|w: Map<u32, STerm>| atoms_unified(a@, b@, w) ==> #[trigger] absorbs(w, s@),
{
    proof {
        lemma_absorbs_empty();
    }
    match (a, b) {
        (Atom::Pred(p, xs), Atom::Pred(q, ys)) => {
            proof {
                lemma_terms_view(xs@);
                lemma_terms_view(ys@);
                if a@ == b@ {
                    assert forall|k: int| 0 <= k < xs@.len() implies subst_term(#[trigger] xs@[k]@, Map::<u32, STerm>::empty())
                        == subst_term(ys@[k]@, Map::<u32, STerm>::empty()) by {
                        assert(terms_view(xs@)[k] == terms_view(ys@)[k]);
                    }
                }
            }
            if *p != *q || xs.len() != ys.len() {
                proof {
                    if exists|w: Map<u32, STerm>| atoms_unified(a@, b@, w) {
                        let w = choose|w: Map<u32, STerm>| atoms_unified(a@, b@, w);
                        lemma_subst_terms(terms_view(xs@), w);
                        lemma_subst_terms(terms_view(ys@), w);
                    }
                }
                return None;
            }
            let ghost vs = atom_vars(a@) + atom_vars(b@);
            proof {
                lemma_atom_vars_finite(a@);
                lemma_atom_vars_finite(b@);
            }
            let mut s = Subst::new();
            let ghost s0 = s@;
            let ok = unify_lists(xs, ys, &mut s, Ghost(vs));
            proof {
                assert(s0 == Map::<u32, STerm>::empty());
                if exists|w: Map<u32, STerm>| atoms_unified(a@, b@, w) {
                    let w = choose|w: Map<u32, STerm>| atoms_unified(a@, b@, w);
                    assert(absorbs(w, s0));
                }
                assert forall|w: Map<u32, STerm>| atoms_unified(a@, b@, w) implies #[trigger] absorbs(w, s@) by {
                    assert(absorbs(w, s0));
                }
                assert(unifier_ok(s@, vs));
            }
            if ok {
                Some(s)
            } else {
                None
            }
        },
        _ => None,
    }
}

/// Every substitution absorbs the empty one.
pub proof fn lemma_absorbs_empty()
    ensures
        forall|w: Map<u32, STerm>| #[trigger] absorbs(w, Map::<u32, STerm>::empty()),
{
    assert forall|w: Map<u32, STerm>| #[trigger] absorbs(w, Map::<u32, STerm>::empty()) by {
        assert forall|t: STerm| #[trigger] subst_term(subst_term(t, Map::<u32, STerm>::empty()), w) == subst_term(t, w) by {
            crate::unify::lemma_subst_disjoint(t, Map::<u32, STerm>::empty());
        }
    }
}

/// Unifies the two sides of two equations in the given pairing, starting
/// from the empty substitution.
pub fn unify_equation_sides(l1: &Term, r1: &Term, l2: &Term, r2: &Term) -> (r: Option<Subst>)
    ensures
        r matches Some(s) ==> subst_term(l1@, s@) == subst_term(l2@, s@) && subst_term(r1@, s@) == subst_term(r2@, s@),
        l1@ == l2@ && r1@ == r2@ ==> (r matches Some(s) && s@ == Map::<u32, STerm>::empty()),
        (exists|w: Map<u32, STerm>| subst_term(l1@, w) == subst_term(l2@, w) && subst_term(r1@, w) == subst_term(r2@, w))
            ==> r is Some,
        r matches Some(s) ==> s@.dom().subset_of(vars_of(l1@) + vars_of(r1@) + vars_of(l2@) + vars_of(r2@))
            && forall|w: Map<u32, STerm>| subst_term(l1@, w) == subst_term(l2@, w) && subst_term(r1@, w) == subst_term(r2@, w)
                ==> #[trigger] absorbs(w, s@),
{
    proof {
        lemma_absorbs_empty();
    }
    let ghost vs = vars_of(l1@) + vars_of(r1@) + vars_of(l2@) + vars_of(r2@);
    proof {
        lemma_vars_finite(l1@);
        lemma_vars_finite(r1@);
        lemma_vars_finite(l2@);
        lemma_vars_finite(r2@);
    }
    let mut s = Subst::new();
    proof {
        crate::unify::lemma_subst_disjoint(l1@, Map::<u32, STerm>::empty());
        crate::unify::lemma_subst_disjoint(l2@, Map::<u32, STerm>::empty());
        crate::unify::lemma_subst_disjoint(r1@, Map::<u32, STerm>::empty());
        crate::unify::lemma_subst_disjoint(r2@, Map::<u32, STerm>::empty());
    }
    let ghost s0 = s@;
    let ok1 = unify_pair(l1, l2, &mut s, Ghost(vs));
    proof {
        assert(s0 == Map::<u32, STerm>::empty());
        assert forall|w: Map<u32, STerm>| subst_term(l1@, w) == subst_term(l2@, w) && subst_term(r1@, w) == subst_term(r2@, w)
            implies ok1 && #[trigger] absorbs(w, s@) by {
            assert(absorbs(w, s0));
        }
        if exists|w: Map<u32, STerm>| subst_term(l1@, w) == subst_term(l2@, w) && subst_term(r1@, w) == subst_term(r2@, w) {
            let w = choose|w: Map<u32, STerm>| subst_term(l1@, w) == subst_term(l2@, w) && subst_term(r1@, w) == subst_term(r2@, w);
            assert(absorbs(w, s@));
        }
    }
    if !ok1 {
        return None;
    }
    let ghost s1 = s@;
    let ok2 = unify_pair(r1, r2, &mut s, Ghost(vs));
    proof {
        assert forall|w: Map<u32, STerm>| subst_term(l1@, w) == subst_term(l2@, w) && subst_term(r1@, w) == subst_term(r2@, w)
            implies ok2 && #[trigger] absorbs(w, s@) by {
            assert(absorbs(w, s1));
        }
        if exists|w: Map<u32, STerm>| subst_term(l1@, w) == subst_term(l2@, w) && subst_term(r1@, w) == subst_term(r2@, w) {
            let w = choose|w: Map<u32, STerm>| subst_term(l1@, w) == subst_term(l2@, w) && subst_term(r1@, w) == subst_term(r2@, w);
            assert(absorbs(w, s@));
        }
        assert(unifier_ok(s@, vs));
    }
    if !ok2 {
        return None;
    }
    proof {
        assert(subst_term(subst_term(l1@, s1), s@) == subst_term(l1@, s@));
        assert(subst_term(subst_term(l2@, s1), s@) == subst_term(l2@, s@));
    }
    Some(s)
}

/// The instance of a variable of `t` has its variables among those of the
/// instance of `t`.
pub proof fn lemma_instance_vars_contain(t: STerm, x: u32, s: Map<u32, STerm>)
    requires
        vars_of(t).contains(x),
    ensures
        vars_of(subst_term(STerm::Var(x), s)).subset_of(vars_of(subst_term(t, s))),
    decreases t,
{
    match t {
        STerm::Var(y) => {
            assert(set![y].contains(x));
        },
        STerm::App(f, args) => {
            lemma_vars_all(args);
            assert(vars_all(args).contains(x));
            let i = choose|i: int| 0 <= i < args.len() && #[trigger] vars_of(args[i]).contains(x);
            assert(decreases_to!(t => args[i]));
            lemma_instance_vars_contain(args[i], x, s);
            lemma_subst_terms(args, s);
            lemma_vars_all(subst_terms(args, s));
            assert(subst_term(t, s) == STerm::App(f, subst_terms(args, s)));
            assert(subst_terms(args, s)[i] == subst_term(args[i], s));
            assert forall|v: u32| vars_of(subst_term(args[i], s)).contains(v) implies vars_of(subst_term(t, s)).contains(v) by {
                assert(vars_of(subst_terms(args, s)[i]).contains(v));
                assert(vars_all(subst_terms(args, s)).contains(v));
            }
        },
    }
}

/// A most general unifier of a term with a ground term, binding only
/// variables of the two, is the substitution that binds exactly the term's
/// variables and makes it the ground term.
pub proof fn lemma_ground_unifier_unique(l: STerm, r: STerm, s: Map<u32, STerm>, w: Map<u32, STerm>)
    requires
        vars_of(r) == Set::<u32>::empty(),
        w.dom() == vars_of(l),
        subst_term(l, w) == r,
        subst_term(l, s) == subst_term(r, s),
        s.dom().subset_of(vars_of(l) + vars_of(r)),
        absorbs(w, s),
    ensures
        s == w,
{
    lemma_subst_disjoint(r, s);
    assert forall|x: u32| #[trigger] w.contains_key(x) implies s.contains_key(x) && s[x] == w[x] by {
        lemma_instance_vars_contain(l, x, s);
        if !s.contains_key(x) {
            assert(vars_of(subst_term(STerm::Var(x), s)).contains(x));
        }
        assert(vars_of(s[x]) =~= Set::<u32>::empty());
        lemma_subst_disjoint(s[x], w);
        assert(subst_term(subst_term(STerm::Var(x), s), w) == subst_term(STerm::Var(x), w));
    }
    assert(s.dom() =~= w.dom());
    assert(s =~= w);
}

/// The list form: a most general unifier of a list of terms with a list
/// of ground terms, binding only their variables, is the substitution that
/// binds exactly the list's variables and makes it the ground list.
pub proof fn lemma_ground_unifier_unique_all(ls: Seq<STerm>, rs: Seq<STerm>, s: Map<u32, STerm>, w: Map<u32, STerm>)
    requires
        vars_all(rs) == Set::<u32>::empty(),
        w.dom() == vars_all(ls),
        subst_terms(ls, w) == rs,
        subst_terms(ls, s) == subst_terms(rs, s),
        s.dom().subset_of(vars_all(ls) + vars_all(rs)),
        absorbs(w, s),
    ensures
        s == w,
{
    let l = STerm::App(0, ls);
    let r = STerm::App(0, rs);
    assert(vars_of(l) == vars_all(ls));
    assert(vars_of(r) == vars_all(rs));
    lemma_ground_unifier_unique(l, r, s, w);
}

/// The variables and instance of a pair of terms read as a list.
pub proof fn lemma_pair_terms(a: STerm, b: STerm, s: Map<u32, STerm>)
    ensures
        vars_all(seq![a, b]) == vars_of(a) + vars_of(b),
        subst_terms(seq![a, b], s) == seq![subst_term(a, s), subst_term(b, s)],
{
    assert(seq![a, b].drop_last() =~= seq![a]);
    assert(seq![a].drop_last() =~= Seq::<STerm>::empty());
    assert(seq![a].last() == a);
    assert(seq![a, b].last() == b);
    assert(vars_all(Seq::<STerm>::empty()) =~= Set::<u32>::empty());
    assert(subst_terms(Seq::<STerm>::empty(), s) =~= Seq::<STerm>::empty());
    assert(vars_all(seq![a]) =~= vars_of(a));
    assert(vars_all(seq![a, b]) =~= vars_of(a) + vars_of(b));
    assert(subst_terms(seq![a], s) =~= seq![subst_term(a, s)]);
    assert(subst_terms(seq![a, b], s) =~= seq![subst_term(a, s), subst_term(b, s)]);
}

/// `s` is a most general unifier of `l` and `r`: it unifies them, binds
/// only their variables, and every unifier of them absorbs it.
pub open spec fn most_general_unifier(l: STerm, r: STerm, s: Map<u32, STerm>) -> bool {
    &&& subst_term(l, s) == subst_term(r, s)
    &&& s.dom().subset_of(vars_of(l) + vars_of(r))
    &&& forall|w: Map<u32, STerm>| subst_term(l, w) == subst_term(r, w) ==> #[trigger] absorbs(w, s)
}

/// A unifier of two terms, starting from the empty substitution.
pub fn unify_term_pair(a: &Term, b: &Term) -> (r: Option<Subst>)
    ensures
        r matches Some(s) ==> subst_term(a@, s@) == subst_term(b@, s@),
        a@ == b@ ==> (r matches Some(s) && s@ == Map::<u32, STerm>::empty()),
        (exists|w: Map<u32, STerm>| subst_term(a@, w) == subst_term(b@, w)) ==> r is Some,
        r matches Some(s) ==> most_general_unifier(a@, b@, s@),
{
    let ghost vs = vars_of(a@) + vars_of(b@);
    proof {
        lemma_vars_finite(a@);
        lemma_vars_finite(b@);
        crate::unify::lemma_subst_disjoint(a@, Map::<u32, STerm>::empty());
        crate::unify::lemma_subst_disjoint(b@, Map::<u32, STerm>::empty());
        assert forall|w: Map<u32, STerm>| #[trigger] absorbs(w, Map::<u32, STerm>::empty()) by {
            assert forall|t: STerm| #[trigger] subst_term(subst_term(t, Map::<u32, STerm>::empty()), w) == subst_term(t, w) by {
                crate::unify::lemma_subst_disjoint(t, Map::<u32, STerm>::empty());
            }
        }
    }
    let mut s = Subst::new();
    let ghost s0 = s@;
    let ok = unify_pair(a, b, &mut s, Ghost(vs));
    proof {
        assert(s0 == Map::<u32, STerm>::empty());
        if exists|w: Map<u32, STerm>| subst_term(a@, w) == subst_term(b@, w) {
            let w = choose|w: Map<u32, STerm>| subst_term(a@, w) == subst_term(b@, w);
            assert(absorbs(w, s0));
        }
        assert forall|w: Map<u32, STerm>| subst_term(a@, w) == subst_term(b@, w) implies #[trigger] absorbs(w, s@) by {
            assert(absorbs(w, s0));
        }
        assert(unifier_ok(s@, vs));
    }
    if ok {
        Some(s)
    } else {
        None
    }
}

/// A unifier of two atoms: predicate arguments pairwise, or an equation
/// as written or else flipped.
pub fn unify_atoms(a: &Atom, b: &Atom) -> (r: Option<Subst>)
    ensures
        r matches Some(s) ==> atoms_unified(a@, b@, s@),
        a@ == b@ ==> (r matches Some(s) && s@ == Map::<u32, STerm>::empty()),
{
    match (a, b) {
        (Atom::Pred(_, _), Atom::Pred(_, _)) => unify_pred_atoms(a, b),
        (Atom::Eq(l1, r1), Atom::Eq(l2, r2)) => {
            match unify_equation_sides(l1, r1, l2, r2) {
                Some(s) => Some(s),
                None => unify_equation_sides(l1, r1, r2, l2),
            }
        },
        _ => None,
    }
}

} // verus!
