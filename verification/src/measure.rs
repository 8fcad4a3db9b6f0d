//! Sizes of terms and formulas, counted in symbol and variable
//! occurrences, as the resource limits measure them.
use vstd::prelude::*;
use crate::term::{Term, Atom, Formula, terms_view, sterm_size, sterms_size};
use crate::subst::{lemma_take_push, lemma_take_all, lemma_terms_view_push};

verus! {

/// A count as a `usize`, saturating at `usize::MAX`.
pub open spec fn cap(n: nat) -> usize {
    if n >= usize::MAX {
        usize::MAX
    } else {
        n as usize
    }
}

/// Number of nodes of a formula: connectives, quantifiers, atoms and the
/// symbol and variable occurrences of their terms.
pub open spec fn formula_nodes(f: Formula) -> nat
    decreases f,
{
    match f {
        Formula::Atom(a) => match a {
            Atom::Pred(_, terms) => 1 + sterms_size(terms_view(terms@)),
            Atom::Eq(l, r) => 1 + sterm_size(l@) + sterm_size(r@),
        },
        Formula::Neg(inner) => 1 + formula_nodes(*inner),
        Formula::Forall(_, inner) => 1 + formula_nodes(*inner),
        Formula::Exists(_, inner) => 1 + formula_nodes(*inner),
        Formula::And(parts) => 1 + formulas_nodes(parts@),
        Formula::Or(parts) => 1 + formulas_nodes(parts@),
        Formula::Implies(l, r) => 1 + formula_nodes(*l) + formula_nodes(*r),
        Formula::Iff(l, r) => 1 + formula_nodes(*l) + formula_nodes(*r),
        Formula::True => 1,
        Formula::False => 1,
    }
}

pub open spec fn formulas_nodes(ps: Seq<Formula>) -> nat
    decreases ps,
{
    if ps.len() == 0 {
        0
    } else {
        formulas_nodes(ps.drop_last()) + formula_nodes(ps.last())
    }
}

fn sat_add(a: usize, b: usize) -> (r: usize)
    ensures
        r == cap((a + b) as nat),
{
    a.saturating_add(b)
}

proof fn lemma_cap_add(a: nat, b: nat)
    ensures
        cap((cap(a) + cap(b)) as nat) == cap(a + b),
{
}

/// Number of symbol and variable occurrences of a term (saturating).
pub fn term_size(t: &Term) -> (r: usize)
    ensures
        r == cap(sterm_size(t@)),
    decreases t,
{
    match t {
        Term::Var(_) => 1,
        Term::App(_, args) => {
            let mut total: usize = 0;
            let mut i: usize = 0;
            while i < args.len()
                invariant
                    0 <= i <= args.len(),
                    *t is App,
                    (*t)->App_1 == *args,
                    total == cap(sterms_size(terms_view(args@.take(i as int)))),
                decreases args.len() - i,
            {
                proof {
                    assert(decreases_to!(*t => (*t)->App_1));
                    assert(decreases_to!((*t)->App_1 => (*t)->App_1@));
                    assert(decreases_to!(args@ => args@[i as int]));
                }
                let c = term_size(&args[i]);
                proof {
                    lemma_take_push(args@, i as int);
                    lemma_terms_view_push(args@.take(i as int), args@[i as int]);
                    let ts = terms_view(args@.take(i as int));
                    assert(ts.push(args@[i as int]@).drop_last() == ts);
                    lemma_cap_add(sterms_size(ts), sterm_size(args@[i as int]@));
                }
                total = sat_add(total, c);
                i = i + 1;
            }
            proof {
                lemma_take_all(args@);
                lemma_cap_add(1, sterms_size(terms_view(args@)));
            }
            sat_add(1, total)
        },
    }
}

fn terms_size(args: &Vec<Term>) -> (r: usize)
    ensures
        r == cap(sterms_size(terms_view(args@))),
{
    let mut total: usize = 0;
    let mut i: usize = 0;
    while i < args.len()
        invariant
            0 <= i <= args.len(),
            total == cap(sterms_size(terms_view(args@.take(i as int)))),
        decreases args.len() - i,
    {
        let c = term_size(&args[i]);
        proof {
            lemma_take_push(args@, i as int);
            lemma_terms_view_push(args@.take(i as int), args@[i as int]);
            let ts = terms_view(args@.take(i as int));
            assert(ts.push(args@[i as int]@).drop_last() == ts);
            lemma_cap_add(sterms_size(ts), sterm_size(args@[i as int]@));
        }
        total = sat_add(total, c);
        i = i + 1;
    }
    proof {
        lemma_take_all(args@);
    }
    total
}

/// Number of nodes of a formula (saturating).
pub fn formula_size(formula: &Formula) -> (r: usize)
    ensures
        r == cap(formula_nodes(*formula)),
    decreases formula,
{
    match formula {
        Formula::Atom(a) => match a {
            Atom::Pred(_, terms) => {
                let s = terms_size(terms);
                proof {
                    lemma_cap_add(1, sterms_size(terms_view(terms@)));
                }
                sat_add(1, s)
            },
            Atom::Eq(l, r) => {
                let a = term_size(l);
                let b = term_size(r);
                proof {
                    lemma_cap_add(sterm_size(l@), sterm_size(r@));
                    lemma_cap_add(1, sterm_size(l@) + sterm_size(r@));
                }
                sat_add(1, sat_add(a, b))
            },
        },
        Formula::Neg(inner) | Formula::Forall(_, inner) | Formula::Exists(_, inner) => {
            let s = formula_size(inner);
            proof {
                lemma_cap_add(1, formula_nodes(**inner));
            }
            sat_add(1, s)
        },
        Formula::And(parts) | Formula::Or(parts) => {
            let mut total: usize = 0;
            let mut i: usize = 0;
            while i < parts.len()
                invariant
                    0 <= i <= parts.len(),
                    (*formula is And && (*formula)->And_0 == *parts) || (*formula is Or && (*formula)->Or_0 == *parts),
                    total == cap(formulas_nodes(parts@.take(i as int))),
                decreases parts.len() - i,
            {
                proof {
                    if *formula is And {
                        assert(decreases_to!(*formula => (*formula)->And_0));
                        assert(decreases_to!((*formula)->And_0 => (*formula)->And_0@));
                    } else {
                        assert(decreases_to!(*formula => (*formula)->Or_0));
                        assert(decreases_to!((*formula)->Or_0 => (*formula)->Or_0@));
                    }
                    assert(decreases_to!(parts@ => parts@[i as int]));
                }
                let c = formula_size(&parts[i]);
                proof {
                    lemma_take_push(parts@, i as int);
                    assert(parts@.take(i as int + 1).drop_last() == parts@.take(i as int));
                    lemma_cap_add(formulas_nodes(parts@.take(i as int)), formula_nodes(parts@[i as int]));
                }
                total = sat_add(total, c);
                i = i + 1;
            }
            proof {
                lemma_take_all(parts@);
                lemma_cap_add(1, formulas_nodes(parts@));
            }
            sat_add(1, total)
        },
        Formula::Implies(l, r) | Formula::Iff(l, r) => {
            let a = formula_size(l);
            let b = formula_size(r);
            proof {
                lemma_cap_add(formula_nodes(**l), formula_nodes(**r));
                lemma_cap_add(1, formula_nodes(**l) + formula_nodes(**r));
            }
            sat_add(1, sat_add(a, b))
        },
        Formula::True | Formula::False => 1,
    }
}

} // verus!
