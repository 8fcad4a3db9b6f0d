//! Recognition of commutativity and associativity axioms.
use vstd::prelude::*;
use crate::term::{Term, STerm, lemma_terms_view};

verus! {

/// Shape of a unit equality axiom recognised as commutativity or associativity.
#[derive(Clone, Copy, Debug, PartialEq, Eq, Structural)]
pub enum AcAxiomKind {
    Commutative,
    Associative,
}

/// `f(x, y) = f(y, x)` with distinct variables `x` and `y`.
pub open spec fn is_commutativity(f: u32, la: Seq<STerm>, ra: Seq<STerm>) -> bool {
    &&& la.len() == 2
    &&& ra.len() == 2
    &&& la[0] matches STerm::Var(x)
    &&& la[1] matches STerm::Var(y)
    &&& x != y
    &&& ra[0] == STerm::Var(y)
    &&& ra[1] == STerm::Var(x)
}

/// `f(f(x, y), z)` on one side and `f(x, f(y, z))` on the other, with
/// pairwise distinct variables; the arguments are given as
/// `(nested, last)` and `(first, nested)`.
pub open spec fn is_associativity(f: u32, nested: STerm, last: STerm, first: STerm, right_nested: STerm) -> bool {
    &&& nested matches STerm::App(g, inner)
    &&& right_nested matches STerm::App(h, rinner)
    &&& g == f
    &&& h == f
    &&& inner.len() == 2
    &&& rinner.len() == 2
    &&& inner[0] matches STerm::Var(x)
    &&& inner[1] matches STerm::Var(y)
    &&& last matches STerm::Var(z)
    &&& x != y && y != z && x != z
    &&& first == STerm::Var(x)
    &&& rinner[0] == STerm::Var(y)
    &&& rinner[1] == STerm::Var(z)
}

/// The axiom that `left = right` states, if it is commutativity or
/// associativity of a binary function symbol.
pub open spec fn ac_axiom_of(left: STerm, right: STerm) -> Option<(u32, AcAxiomKind)> {
    match (left, right) {
        (STerm::App(f, la), STerm::App(g, ra)) => if f != g || la.len() != 2 || ra.len() != 2 {
            None
        } else if is_commutativity(f, la, ra) {
            Some((f, AcAxiomKind::Commutative))
        } else if is_associativity(f, la[0], la[1], ra[0], ra[1])
            || is_associativity(f, ra[0], ra[1], la[0], la[1]) {
            Some((f, AcAxiomKind::Associative))
        } else {
            None
        },
        _ => None,
    }
}

fn var_of(t: &Term) -> (r: Option<u32>)
    ensures
        match t@ {
            STerm::Var(v) => r == Some(v),
            _ => r is None,
        },
{
    match t {
        Term::Var(v) => Some(*v),
        Term::App(_, _) => None,
    }
}

/// Checks the associativity shape for symbol `f`.
fn associative_shape(f: u32, nested: &Term, last: &Term, first: &Term, right_nested: &Term) -> (r: bool)
    ensures
        r == is_associativity(f, nested@, last@, first@, right_nested@),
{
    match (nested, right_nested) {
        (Term::App(g, inner), Term::App(h, rinner)) => {
            proof {
                lemma_terms_view(inner@);
                lemma_terms_view(rinner@);
            }
            if *g != f || *h != f || inner.len() != 2 || rinner.len() != 2 {
                return false;
            }
            match (var_of(&inner[0]), var_of(&inner[1]), var_of(last), var_of(first)) {
                (Some(x), Some(y), Some(z), Some(x2)) => {
                    match (var_of(&rinner[0]), var_of(&rinner[1])) {
                        (Some(y2), Some(z2)) => x != y && y != z && x != z && x == x2 && y == y2 && z == z2,
                        _ => false,
                    }
                },
                _ => false,
            }
        },
        _ => false,
    }
}

/// Classify a binary-function equation as commutativity or associativity.
///
/// Returns the function symbol and the axiom kind when `left = right` matches
/// `f(X,Y) = f(Y,X)` (commutative) or the nested associativity pattern.
pub fn classify_ac_axiom(left: &Term, right: &Term) -> (r: Option<(u32, AcAxiomKind)>)
    ensures
        r == ac_axiom_of(left@, right@),
{
    match (left, right) {
        (Term::App(f, la), Term::App(g, ra)) => {
            proof {
                lemma_terms_view(la@);
                lemma_terms_view(ra@);
            }
            if *f != *g || la.len() != 2 || ra.len() != 2 {
                return None;
            }
            match (var_of(&la[0]), var_of(&la[1]), var_of(&ra[0]), var_of(&ra[1])) {
                (Some(x), Some(y), Some(y2), Some(x2)) => {
                    if x != y && x == x2 && y == y2 {
                        return Some((*f, AcAxiomKind::Commutative));
                    }
                },
                _ => {},
            }
            if associative_shape(*f, &la[0], &la[1], &ra[0], &ra[1])
                || associative_shape(*f, &ra[0], &ra[1], &la[0], &la[1]) {
                return Some((*f, AcAxiomKind::Associative));
            }
            None
        },
        _ => None,
    }
}

/// The commutativity axiom `f(x, y) = f(y, x)`.
pub open spec fn commutativity_axiom(f: u32, x: u32, y: u32) -> (STerm, STerm) {
    (
        STerm::App(f, seq![STerm::Var(x), STerm::Var(y)]),
        STerm::App(f, seq![STerm::Var(y), STerm::Var(x)]),
    )
}

/// The associativity axiom `f(f(x, y), z) = f(x, f(y, z))`.
pub open spec fn associativity_axiom(f: u32, x: u32, y: u32, z: u32) -> (STerm, STerm) {
    (
        STerm::App(f, seq![STerm::App(f, seq![STerm::Var(x), STerm::Var(y)]), STerm::Var(z)]),
        STerm::App(f, seq![STerm::Var(x), STerm::App(f, seq![STerm::Var(y), STerm::Var(z)])]),
    )
}

/// What the recognised axioms are: the classification does not depend on
/// the side the equation is written on; it is commutativity of `f` exactly
/// for `f(x, y) = f(y, x)` with distinct variables, and associativity of `f`
/// exactly for `f(f(x, y), z) = f(x, f(y, z))` with pairwise distinct
/// variables, in either orientation. Every other equation, such as
/// `f(x, x) = f(x, x)`, is neither.
pub proof fn lemma_ac_axiom_shapes(left: STerm, right: STerm, f: u32)
    ensures
        ac_axiom_of(left, right) == ac_axiom_of(right, left),
        ac_axiom_of(left, right) == Some((f, AcAxiomKind::Commutative)) <==> exists|x: u32, y: u32|
            x != y && #[trigger] commutativity_axiom(f, x, y) == (left, right),
        ac_axiom_of(left, right) == Some((f, AcAxiomKind::Associative)) <==> exists|x: u32, y: u32, z: u32|
            x != y && y != z && x != z && (#[trigger] associativity_axiom(f, x, y, z) == (left, right)
                || associativity_axiom(f, x, y, z) == (right, left)),
{
    if let (STerm::App(g, la), STerm::App(h, ra)) = (left, right) {
        if g == f && h == f && la.len() == 2 && ra.len() == 2 {
            if is_commutativity(g, la, ra) {
                let x = la[0]->Var_0;
                let y = la[1]->Var_0;
                assert(la =~= seq![STerm::Var(x), STerm::Var(y)]);
                assert(ra =~= seq![STerm::Var(y), STerm::Var(x)]);
                let (cl, cr) = commutativity_axiom(f, x, y);
                assert(cl->App_1 =~= la);
                assert(cr->App_1 =~= ra);
                assert(cl == left && cr == right);
            }
            if is_associativity(g, la[0], la[1], ra[0], ra[1]) {
                let inner = la[0]->App_1;
                let rinner = ra[1]->App_1;
                let x = inner[0]->Var_0;
                let y = inner[1]->Var_0;
                let z = la[1]->Var_0;
                assert(inner =~= seq![STerm::Var(x), STerm::Var(y)]);
                assert(rinner =~= seq![STerm::Var(y), STerm::Var(z)]);
                assert(la =~= seq![STerm::App(f, inner), STerm::Var(z)]);
                assert(ra =~= seq![STerm::Var(x), STerm::App(f, rinner)]);
                let (al, ar) = associativity_axiom(f, x, y, z);
                assert(al->App_1[0]->App_1 =~= inner);
                assert(ar->App_1[1]->App_1 =~= rinner);
                assert(al->App_1[0] == la[0]);
                assert(ar->App_1[1] == ra[1]);
                assert(al->App_1 =~= la);
                assert(ar->App_1 =~= ra);
                assert(al == left && ar == right);
            }
            if is_associativity(g, ra[0], ra[1], la[0], la[1]) {
                let inner = ra[0]->App_1;
                let rinner = la[1]->App_1;
                let x = inner[0]->Var_0;
                let y = inner[1]->Var_0;
                let z = ra[1]->Var_0;
                assert(inner =~= seq![STerm::Var(x), STerm::Var(y)]);
                assert(rinner =~= seq![STerm::Var(y), STerm::Var(z)]);
                assert(ra =~= seq![STerm::App(f, inner), STerm::Var(z)]);
                assert(la =~= seq![STerm::Var(x), STerm::App(f, rinner)]);
                let (al, ar) = associativity_axiom(f, x, y, z);
                assert(al->App_1[0]->App_1 =~= inner);
                assert(ar->App_1[1]->App_1 =~= rinner);
                assert(al->App_1[0] == ra[0]);
                assert(ar->App_1[1] == la[1]);
                assert(al->App_1 =~= ra);
                assert(ar->App_1 =~= la);
                assert(al == right && ar == left);
            }
        }
    }
}

} // verus!
