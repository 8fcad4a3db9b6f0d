//! The proof steps that work modulo associativity and commutativity: AC
//! normalization of a clause under cited AC axioms.
use vstd::prelude::*;
use vstd::string::*;
use crate::term::{Atom, Formula, SAtom, SLiteral, clause_view, atom_text, render_atom};
use crate::verdict::{KernelVerdict, VerdictView, VerificationLimits, rejected, inconclusive};
use crate::clause::{clause_of, clause_from_formula};
use crate::alpha::{clause_alpha, clause_alpha_equiv};
use crate::ac::{AcAxiomKind, ac_axiom_of, classify_ac_axiom};
use crate::ac_match::{ac_clause_alpha, ac_clause_alpha_equiv};
use crate::text::{decimal, decimal_text};

verus! {

/// The reason an AC-axiom parent is refused, in the wording of AC
/// normalization or of the AC inference rules.
pub open spec fn ac_axiom_error(c: Seq<SLiteral>, index: int, normalization: bool) -> Option<VerdictView> {
    if normalization {
        if c.len() != 1 || !c[0].positive || !(c[0].atom is Eq) {
            Some(VerdictView::Rejected("ac_normalization parents must be positive unit equalities"@))
        } else if ac_axiom_of(c[0].atom->Eq_0, c[0].atom->Eq_1) is None {
            Some(VerdictView::Rejected("ac_normalization parent "@ + decimal(index as nat)
                + " is not a commutativity or associativity axiom: "@ + atom_text(c[0].atom)))
        } else {
            None
        }
    } else if c.len() != 1 || !c[0].positive {
        Some(VerdictView::Rejected("AC axiom is not a positive unit equality"@))
    } else if !(c[0].atom is Eq) {
        Some(VerdictView::Rejected("AC axiom is not an equality"@))
    } else if ac_axiom_of(c[0].atom->Eq_0, c[0].atom->Eq_1) is None {
        Some(VerdictView::Rejected("AC axiom has unsupported shape"@))
    } else {
        None
    }
}

/// The commutative and the associative symbols that the AC axioms
/// `parents[k..]` state, or the verdict on the first of them that is not
/// such an axiom; `first` is the index of the first axiom parent.
pub open spec fn ac_theory(
    parents: Seq<Formula>,
    limits: VerificationLimits,
    first: int,
    k: int,
    normalization: bool,
) -> Result<(Set<u32>, Set<u32>), VerdictView>
    decreases parents.len() - k,
{
    if k < 0 || k >= parents.len() {
        Ok((Set::empty(), Set::empty()))
    } else {
        match clause_of(parents[k], limits.max_clause_literals) {
            None => Err(if normalization {
                VerdictView::Inconclusive("ac_normalization axiom is not a clause"@)
            } else {
                VerdictView::Inconclusive("AC axiom is not a clause"@)
            }),
            Some(c) => match ac_axiom_error(c, k - first, normalization) {
                Some(e) => Err(e),
                None => {
                    let (f, kind) = ac_axiom_of(c[0].atom->Eq_0, c[0].atom->Eq_1)->Some_0;
                    match ac_theory(parents, limits, first, k + 1, normalization) {
                        Err(e) => Err(e),
                        Ok((cs, as_)) => if kind == AcAxiomKind::Commutative {
                            Ok((cs.insert(f), as_))
                        } else {
                            Ok((cs, as_.insert(f)))
                        },
                    }
                },
            },
        }
    }
}

/// Collects the commutative and associative symbols of the AC axioms
/// `parents[first..]`.
pub fn collect_ac_theory(
    parents: &[Formula],
    first: usize,
    limits: VerificationLimits,
    normalization: bool,
) -> (r: Result<(Vec<u32>, Vec<u32>), KernelVerdict>)
    requires
        first <= parents@.len(),
    ensures
        match ac_theory(parents@, limits, first as int, first as int, normalization) {
            Ok((cs, as_)) => r matches Ok((c, a)) && c@.to_set() == cs && a@.to_set() == as_,
            Err(e) => r matches Err(v) && v@ == e,
        },
{
    let mut comm: Vec<u32> = Vec::new();
    let mut assoc: Vec<u32> = Vec::new();
    let ghost whole = ac_theory(parents@, limits, first as int, first as int, normalization);
    let mut k: usize = first;
    proof {
        assert(comm@.to_set() =~= Set::<u32>::empty());
        assert(assoc@.to_set() =~= Set::<u32>::empty());
        match whole {
            Ok((c2, a2)) => {
                assert(comm@.to_set() + c2 =~= c2);
                assert(assoc@.to_set() + a2 =~= a2);
            },
            Err(_) => {},
        }
    }
    while k < parents.len()
        invariant
            first <= k <= parents@.len(),
            whole == ac_theory(parents@, limits, first as int, first as int, normalization),
            match ac_theory(parents@, limits, first as int, k as int, normalization) {
                Err(e) => whole == Err::<(Set<u32>, Set<u32>), VerdictView>(e),
                Ok((c2, a2)) => whole == Ok::<(Set<u32>, Set<u32>), VerdictView>((comm@.to_set() + c2, assoc@.to_set() + a2)),
            },
        decreases parents.len() - k,
    {
        let clause = match clause_from_formula(&parents[k], limits) {
            Some(c) => c,
            None => {
                if normalization {
                    return Err(inconclusive("ac_normalization axiom is not a clause"));
                } else {
                    return Err(inconclusive("AC axiom is not a clause"));
                }
            },
        };
        let ghost cv = clause_view(clause@);
        if clause.len() == 1 {
            assert(cv[0] == clause@[0]@);
        }
        let unit = clause.len() == 1 && clause[0].positive;
        let equation = unit && match &clause[0].atom {
            Atom::Eq(_, _) => true,
            _ => false,
        };
        if normalization && !equation {
            return Err(rejected("ac_normalization parents must be positive unit equalities"));
        }
        if !normalization && !unit {
            return Err(rejected("AC axiom is not a positive unit equality"));
        }
        if !normalization && !equation {
            return Err(rejected("AC axiom is not an equality"));
        }
        let (l, r) = match &clause[0].atom {
            Atom::Eq(l, r) => (l, r),
            _ => {
                assert(false);
                return Err(rejected("AC axiom is not an equality"));
            },
        };
        let (f, kind) = match classify_ac_axiom(l, r) {
            Some(x) => x,
            None => {
                if normalization {
                    let mut text = String::from_str("ac_normalization parent ");
                    let index = decimal_text(k - first);
                    text.append(index.as_str());
                    text.append(" is not a commutativity or associativity axiom: ");
                    let shown = render_atom(&clause[0].atom);
                    text.append(shown.as_str());
                    proof {
                        reveal_strlit("ac_normalization parent ");
                    }
                    return Err(KernelVerdict::Rejected(text));
                } else {
                    return Err(rejected("AC axiom has unsupported shape"));
                }
            },
        };
        let ghost before_c = comm@.to_set();
        let ghost before_a = assoc@.to_set();
        let ghost seq_c = comm@;
        let ghost seq_a = assoc@;
        match kind {
            AcAxiomKind::Commutative => comm.push(f),
            AcAxiomKind::Associative => assoc.push(f),
        }
        proof {
            match kind {
                AcAxiomKind::Commutative => {
                    assert(comm@.to_set() =~= before_c.insert(f)) by {
                        seq_c.lemma_push_to_set_commute(f);
                    }
                    assert(assoc@.to_set() =~= before_a);
                },
                AcAxiomKind::Associative => {
                    assert(assoc@.to_set() =~= before_a.insert(f)) by {
                        seq_a.lemma_push_to_set_commute(f);
                    }
                    assert(comm@.to_set() =~= before_c);
                },
            }
            match ac_theory(parents@, limits, first as int, k as int + 1, normalization) {
                Err(e) => {},
                Ok((c2, a2)) => {
                    assert(before_c + c2.insert(f) =~= before_c.insert(f) + c2);
                    assert(before_a + a2.insert(f) =~= before_a.insert(f) + a2);
                },
            }
        }
        k = k + 1;
    }
    proof {
        assert(comm@.to_set() + Set::<u32>::empty() =~= comm@.to_set());
        assert(assoc@.to_set() + Set::<u32>::empty() =~= assoc@.to_set());
    }
    Ok((comm, assoc))
}

/// The verdicts an `ac_normalization` step may give: the source clause and
/// the conclusion must be equal modulo the AC theory the other parents
/// state and a renaming, or plainly alpha-equivalent.
pub open spec fn ac_normalization_outcome(parents: Seq<Formula>, conclusion: Formula, limits: VerificationLimits, v: VerdictView) -> bool {
    let n = limits.max_clause_literals;
    if parents.len() < 2 {
        v == VerdictView::Rejected("ac_normalization requires a source clause and AC axioms"@)
    } else if clause_of(parents[0], n) is None {
        v == VerdictView::Inconclusive("ac_normalization source is not a clause"@)
    } else if clause_of(conclusion, n) is None {
        v == VerdictView::Inconclusive("ac_normalization conclusion is not a clause"@)
    } else {
        let source = clause_of(parents[0], n)->Some_0;
        let goal = clause_of(conclusion, n)->Some_0;
        match ac_theory(parents, limits, 1, 1, true) {
            Err(e) => v == e,
            Ok((cs, as_)) => if clause_alpha(source, goal) {
                v == VerdictView::Certified
            } else {
                (v == VerdictView::Certified && (!cs.is_empty() || !as_.is_empty())
                    && ac_clause_alpha(source, goal, cs, as_))
                || v == VerdictView::Inconclusive(
                    "ac_normalization replay could not establish AC-equivalence within the implemented search"@)
            },
        }
    }
}

/// AC normalization: the conclusion is the source clause rewritten modulo
/// the commutativity and associativity axioms cited after it.
pub fn verify_ac_normalization(parents: &[Formula], conclusion: &Formula, limits: VerificationLimits) -> (v: KernelVerdict)
    ensures
        ac_normalization_outcome(parents@, *conclusion, limits, v@),
{
    if parents.len() < 2 {
        return rejected("ac_normalization requires a source clause and AC axioms");
    }
    let source = match clause_from_formula(&parents[0], limits) {
        Some(c) => c,
        None => return inconclusive("ac_normalization source is not a clause"),
    };
    let goal = match clause_from_formula(conclusion, limits) {
        Some(c) => c,
        None => return inconclusive("ac_normalization conclusion is not a clause"),
    };
    let (comm, assoc) = match collect_ac_theory(parents, 1, limits, true) {
        Ok(x) => x,
        Err(e) => return e,
    };
    if (comm.len() != 0 || assoc.len() != 0) && ac_clause_alpha_equiv(&source, &goal, &comm, &assoc, limits) {
        proof {
            if comm@.len() != 0 {
                assert(comm@.to_set().contains(comm@[0]));
            } else {
                assert(assoc@.to_set().contains(assoc@[0]));
            }
        }
        return KernelVerdict::Certified;
    }
    if clause_alpha_equiv(&source, &goal) {
        KernelVerdict::Certified
    } else {
        inconclusive("ac_normalization replay could not establish AC-equivalence within the implemented search")
    }
}

} // verus!
