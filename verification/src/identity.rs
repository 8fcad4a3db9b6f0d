//! Identity steps: a conclusion that restates its parents up to a
//! one-to-one renaming of variables.
use vstd::prelude::*;
use std::collections::HashMap;
use crate::term::{Formula, STerm};
use crate::alpha::{Renaming, term_alpha, atom_alpha, atom_alpha_equiv, term_alpha_equiv};
use crate::verdict::{KernelVerdict, VerdictView, rejected};
use crate::term::Term;

verus! {

broadcast use vstd::std_specs::hash::group_hash_axioms;

/// Extends the renaming so that formula `l` becomes `r`: the same
/// connectives, atoms matching as `atom_alpha` does, and bound variables
/// renamed one-to-one like every other variable.
pub open spec fn formula_alpha(l: Formula, r: Formula, m: Map<u32, u32>, rev: Map<u32, u32>) -> Option<Renaming>
    decreases l,
{
    match (l, r) {
        (Formula::Atom(a), Formula::Atom(b)) => atom_alpha(a@, b@, m, rev),
        (Formula::Neg(x), Formula::Neg(y)) => formula_alpha(*x, *y, m, rev),
        (Formula::And(xs), Formula::And(ys)) => if xs@.len() == ys@.len() {
            formulas_alpha(xs@, ys@, m, rev)
        } else {
            None
        },
        (Formula::Or(xs), Formula::Or(ys)) => if xs@.len() == ys@.len() {
            formulas_alpha(xs@, ys@, m, rev)
        } else {
            None
        },
        (Formula::Implies(a, b), Formula::Implies(c, d)) => match formula_alpha(*a, *c, m, rev) {
            Some((m1, r1)) => formula_alpha(*b, *d, m1, r1),
            None => None,
        },
        (Formula::Iff(a, b), Formula::Iff(c, d)) => match formula_alpha(*a, *c, m, rev) {
            Some((m1, r1)) => formula_alpha(*b, *d, m1, r1),
            None => None,
        },
        (Formula::Forall(v, x), Formula::Forall(w, y)) => match term_alpha(STerm::Var(v), STerm::Var(w), m, rev) {
            Some((m1, r1)) => formula_alpha(*x, *y, m1, r1),
            None => None,
        },
        (Formula::Exists(v, x), Formula::Exists(w, y)) => match term_alpha(STerm::Var(v), STerm::Var(w), m, rev) {
            Some((m1, r1)) => formula_alpha(*x, *y, m1, r1),
            None => None,
        },
        (Formula::True, Formula::True) => Some((m, rev)),
        (Formula::False, Formula::False) => Some((m, rev)),
        _ => None,
    }
}

/// `formula_alpha` pairwise through two lists, threading the renaming.
pub open spec fn formulas_alpha(xs: Seq<Formula>, ys: Seq<Formula>, m: Map<u32, u32>, rev: Map<u32, u32>) -> Option<Renaming>
    decreases xs,
{
    if xs.len() == 0 {
        Some((m, rev))
    } else {
        match formulas_alpha(xs.drop_last(), ys.drop_last(), m, rev) {
            Some((m1, r1)) => formula_alpha(xs.last(), ys.last(), m1, r1),
            None => None,
        }
    }
}

/// The two formulas are equal up to a one-to-one renaming of variables.
pub open spec fn alpha_equal(l: Formula, r: Formula) -> bool {
    formula_alpha(l, r, Map::empty(), Map::empty()) is Some
}

proof fn lemma_formulas_alpha_fails(xs: Seq<Formula>, ys: Seq<Formula>, m: Map<u32, u32>, rev: Map<u32, u32>, k: int)
    requires
        0 <= k <= xs.len(),
        xs.len() == ys.len(),
        formulas_alpha(xs.take(k), ys.take(k), m, rev) is None,
    ensures
        formulas_alpha(xs, ys, m, rev) is None,
    decreases xs.len() - k,
{
    if k < xs.len() {
        assert(xs.take(k + 1).drop_last() == xs.take(k));
        assert(ys.take(k + 1).drop_last() == ys.take(k));
        lemma_formulas_alpha_fails(xs, ys, m, rev, k + 1);
    } else {
        assert(xs.take(k) == xs);
        assert(ys.take(k) == ys);
    }
}

/// Extends the renaming so that `left` becomes `right`.
pub fn formula_alpha_equiv(
    left: &Formula,
    right: &Formula,
    mapping: &mut HashMap<u32, u32>,
    reverse: &mut HashMap<u32, u32>,
) -> (r: bool)
    ensures
        match formula_alpha(*left, *right, old(mapping)@, old(reverse)@) {
            Some(x) => r && final(mapping)@ == x.0 && final(reverse)@ == x.1,
            None => !r,
        },
    decreases left,
{
    match (left, right) {
        (Formula::Atom(a), Formula::Atom(b)) => atom_alpha_equiv(a, b, mapping, reverse),
        (Formula::Neg(x), Formula::Neg(y)) => formula_alpha_equiv(x, y, mapping, reverse),
        (Formula::And(xs), Formula::And(ys)) | (Formula::Or(xs), Formula::Or(ys)) => {
            if xs.len() != ys.len() {
                return false;
            }
            let ghost m0 = mapping@;
            let ghost r0 = reverse@;
            let mut i: usize = 0;
            assert(xs@.take(0) =~= Seq::<Formula>::empty());
            assert(ys@.take(0) =~= Seq::<Formula>::empty());
            while i < xs.len()
                invariant
                    0 <= i <= xs.len(),
                    xs.len() == ys.len(),
                    m0 == old(mapping)@,
                    r0 == old(reverse)@,
                    *left is And || *left is Or,
                    *left is And ==> (*left)->And_0 == *xs,
                    *left is Or ==> (*left)->Or_0 == *xs,
                    formula_alpha(*left, *right, m0, r0) == formulas_alpha(xs@, ys@, m0, r0),
                    formulas_alpha(xs@.take(i as int), ys@.take(i as int), m0, r0) == Some::<Renaming>((mapping@, reverse@)),
                decreases xs.len() - i,
            {
                proof {
                    if *left is And {
                        assert(decreases_to!(*left => (*left)->And_0));
                    } else {
                        assert(decreases_to!(*left => (*left)->Or_0));
                    }
                    assert(decreases_to!(*xs => xs@));
                    assert(decreases_to!(xs@ => xs@[i as int]));
                    assert(xs@.take(i as int + 1).drop_last() == xs@.take(i as int));
                    assert(ys@.take(i as int + 1).drop_last() == ys@.take(i as int));
                    assert(xs@.take(i as int + 1).last() == xs@[i as int]);
                    assert(ys@.take(i as int + 1).last() == ys@[i as int]);
                }
                if !formula_alpha_equiv(&xs[i], &ys[i], mapping, reverse) {
                    proof {
                        lemma_formulas_alpha_fails(xs@, ys@, m0, r0, i as int + 1);
                    }
                    return false;
                }
                i = i + 1;
            }
            assert(xs@.take(xs.len() as int) == xs@);
            assert(ys@.take(ys.len() as int) == ys@);
            true
        },
        (Formula::Implies(a, b), Formula::Implies(c, d)) | (Formula::Iff(a, b), Formula::Iff(c, d)) => {
            if !formula_alpha_equiv(a, c, mapping, reverse) {
                return false;
            }
            formula_alpha_equiv(b, d, mapping, reverse)
        },
        (Formula::Forall(v, x), Formula::Forall(w, y)) | (Formula::Exists(v, x), Formula::Exists(w, y)) => {
            let tv = Term::Var(*v);
            let tw = Term::Var(*w);
            if !term_alpha_equiv(&tv, &tw, mapping, reverse) {
                return false;
            }
            formula_alpha_equiv(x, y, mapping, reverse)
        },
        (Formula::True, Formula::True) | (Formula::False, Formula::False) => true,
        _ => false,
    }
}

/// Whether two formulas are equal up to a one-to-one renaming of variables.
pub fn formulas_alpha_equal(left: &Formula, right: &Formula) -> (r: bool)
    ensures
        r == alpha_equal(*left, *right),
{
    let mut mapping: HashMap<u32, u32> = HashMap::new();
    let mut reverse: HashMap<u32, u32> = HashMap::new();
    assert(mapping@ =~= Map::<u32, u32>::empty());
    assert(reverse@ =~= Map::<u32, u32>::empty());
    formula_alpha_equiv(left, right, &mut mapping, &mut reverse)
}

/// The verdict of an identity step (`copy`, `rename`, `rectify`, ...).
pub open spec fn alpha_identity_outcome(parents: Seq<Formula>, conclusion: Formula) -> VerdictView {
    if parents.len() == 0 {
        VerdictView::Rejected("identity rule must have at least one parent"@)
    } else if forall|i: int| 0 <= i < parents.len() ==> #[trigger] alpha_equal(parents[i], conclusion) {
        VerdictView::Certified
    } else {
        VerdictView::Rejected("conclusion is not alpha-equivalent to parent"@)
    }
}

/// An identity step: every parent is the conclusion up to renaming.
pub fn verify_alpha_identity(parents: &[Formula], conclusion: &Formula) -> (r: KernelVerdict)
    ensures
        r@ == alpha_identity_outcome(parents@, *conclusion),
{
    if parents.len() == 0 {
        return rejected("identity rule must have at least one parent");
    }
    let mut i: usize = 0;
    while i < parents.len()
        invariant
            0 <= i <= parents@.len(),
            forall|k: int| 0 <= k < i ==> #[trigger] alpha_equal(parents@[k], *conclusion),
        decreases parents.len() - i,
    {
        if !formulas_alpha_equal(&parents[i], conclusion) {
            return rejected("conclusion is not alpha-equivalent to parent");
        }
        i = i + 1;
    }
    KernelVerdict::Certified
}

} // verus!
