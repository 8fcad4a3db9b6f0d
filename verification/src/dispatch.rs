//! The clause-level proof steps, looked up by the rule name a proof step
//! cites.
use vstd::prelude::*;
use vstd::string::*;
use crate::term::Formula;
use crate::text::{str_chars, token_is};
use crate::verdict::{KernelVerdict, VerdictView, VerificationLimits};
use crate::inference::{
    resolution_rule_outcome, consequence_outcome, ex_falso_outcome, reflexivity_outcome, transitivity_outcome,
    equality_resolution_outcome, verify_resolution, verify_consequence, verify_ex_falso, verify_reflexivity,
    verify_transitivity, verify_equality_resolution,
};
use crate::simplify::{subsumption_resolution_outcome, condensation_outcome, verify_subsumption_resolution, verify_condensation};
use crate::factoring::{factoring_outcome, equality_factoring_outcome, verify_factoring, verify_equality_factoring};
use crate::demodulation::{demodulation_outcome, verify_demodulation};
use crate::equality::{equality_normalization_outcome, verify_equality_normalization};
use crate::ac_rules::{ac_normalization_outcome, verify_ac_normalization};
use crate::superposition::{superposition_outcome, verify_superposition, paramodulation_outcome, verify_paramodulation};
use crate::identity::{alpha_identity_outcome, verify_alpha_identity};
use crate::skolemisation::{skolemisation_outcome, verify_skolemisation};
use crate::signature::{formula_funs, collect_formula_funs};
use crate::ac_inference::{ac_superposition_outcome, verify_ac_superposition, ac_resolution_outcome, verify_ac_resolution};

verus! {

/// An inconclusive verdict with the node's name put before its reason.
pub open spec fn node_scoped(node: Seq<char>, v: VerdictView) -> VerdictView {
    match v {
        VerdictView::Inconclusive(reason) => VerdictView::Inconclusive("node "@ + node + ": "@ + reason),
        _ => v,
    }
}

fn scope_to_node(node_name: &str, v: KernelVerdict) -> (r: KernelVerdict)
    ensures
        r@ == node_scoped(node_name@, v@),
{
    match v {
        KernelVerdict::Inconclusive(reason) => {
            let mut text = String::from_str("node ");
            text.append(node_name);
            text.append(": ");
            text.append(reason.as_str());
            proof {
                reveal_strlit("node ");
                reveal_strlit(": ");
            }
            KernelVerdict::Inconclusive(text)
        },
        other => other,
    }
}

/// The rules whose conclusion restates the parents up to renaming.
pub open spec fn identity_rule(rule: Seq<char>) -> bool {
    ||| rule == "variable_rename"@
    ||| rule == "rename_variable"@
    ||| rule == "rename"@
    ||| rule == "rectify"@
    ||| rule == "copy"@
    ||| rule == "assume"@
    ||| rule == "rewrite"@
    ||| rule == "duplicate"@
}

/// What checking a step of rule `rule` gives: the verdict of the rule's
/// check, or `None` for a rule not checked here.
pub open spec fn clause_rule_outcome(
    rule: Seq<char>,
    node: Seq<char>,
    parents: Seq<Formula>,
    conclusion: Formula,
    limits: VerificationLimits,
    bc: Set<u32>,
    ba: Set<u32>,
    known: Set<u32>,
    r: Option<KernelVerdict>,
) -> bool {
    if rule == "skolemisation"@ {
        if parents.len() != 1 {
            r matches Some(v) && v@ == VerdictView::Inconclusive("strict kernel currently supports single-parent Skolemization"@)
        } else {
            r matches Some(v) && exists|fresh: Seq<u32>| fresh.to_set() == formula_funs(conclusion).difference(known)
                && #[trigger] skolemisation_outcome(node, parents[0], conclusion, fresh, v@)
        }
    } else if rule == "resolution"@ {
        r matches Some(v) && resolution_rule_outcome(parents, conclusion, limits, v@)
    } else if rule == "consequence"@ {
        r matches Some(v) && consequence_outcome(parents, conclusion, limits, v@)
    } else if rule == "ex_falso"@ {
        r matches Some(v) && ex_falso_outcome(parents, limits, v@)
    } else if rule == "reflexivity"@ {
        r matches Some(v) && reflexivity_outcome(parents, conclusion, v@)
    } else if rule == "transitivity"@ {
        r matches Some(v) && transitivity_outcome(parents, conclusion, limits, v@)
    } else if rule == "subsumption_resolution"@ {
        r matches Some(v) && subsumption_resolution_outcome(parents, conclusion, limits, v@)
    } else if rule == "factoring"@ {
        r matches Some(v) && factoring_outcome(parents, conclusion, limits, v@)
    } else if rule == "equality_resolution"@ || rule == "destructive_equality_resolution"@ {
        r matches Some(v) && equality_resolution_outcome(parents, conclusion, limits, v@)
    } else if rule == "equality_factoring"@ {
        r matches Some(v) && equality_factoring_outcome(parents, conclusion, limits, v@)
    } else if rule == "condensation"@ {
        r matches Some(v) && condensation_outcome(parents, conclusion, limits, v@)
    } else if rule == "demodulation"@ {
        r matches Some(v) && exists|d: VerdictView| demodulation_outcome(parents, conclusion, limits, d)
            && v@ == #[trigger] node_scoped(node, d)
    } else if rule == "ac_normalization"@ {
        r matches Some(v) && ac_normalization_outcome(parents, conclusion, limits, v@)
    } else if rule == "superposition"@ {
        r matches Some(v) && superposition_outcome(parents, conclusion, limits, bc, ba, v@)
    } else if rule == "ac_superposition"@ {
        r matches Some(v) && ac_superposition_outcome(parents, conclusion, limits, bc, ba, v@)
    } else if rule == "ac_resolution"@ {
        r matches Some(v) && ac_resolution_outcome(parents, conclusion, limits, v@)
    } else if rule == "equality_normalization"@ {
        r matches Some(v) && v@ == equality_normalization_outcome(parents, conclusion, limits)
    } else if rule == "paramodulation"@ {
        r matches Some(v) && paramodulation_outcome(parents, conclusion, limits, bc, ba, v@)
    } else if rule == "goal_transformation"@ {
        if parents.len() == 0 {
            r matches Some(v) && v@ == VerdictView::Rejected("goal_transformation requires at least one parent"@)
        } else if parents.len() == 1 {
            r matches Some(v) && v@ == alpha_identity_outcome(parents, conclusion)
        } else {
            r matches Some(v) && demodulation_outcome(parents, conclusion, limits, v@)
        }
    } else if identity_rule(rule) {
        r matches Some(v) && v@ == alpha_identity_outcome(parents, conclusion)
    } else {
        r is None
    }
}

/// Checks a step by its rule name; `None` for a rule that is not checked
/// here.
pub fn verify_clause_rule(
    rule: &str,
    node_name: &str,
    parents: &[Formula],
    conclusion: &Formula,
    limits: VerificationLimits,
    background_commutative: &Vec<u32>,
    background_associative: &Vec<u32>,
    known_functions: &Vec<u32>,
) -> (r: Option<KernelVerdict>)
    ensures
        clause_rule_outcome(rule@, node_name@, parents@, *conclusion, limits, background_commutative@.to_set(),
            background_associative@.to_set(), known_functions@.to_set(), r),
{
    let name = str_chars(rule);
    if token_is(&name, "skolemisation") {
        if parents.len() != 1 {
            return Some(crate::verdict::inconclusive("strict kernel currently supports single-parent Skolemization"));
        }
        let mut all: Vec<u32> = Vec::new();
        assert(all@.to_set() =~= Set::<u32>::empty());
        collect_formula_funs(conclusion, &mut all);
        let mut fresh: Vec<u32> = Vec::new();
        let mut i: usize = 0;
        while i < all.len()
            invariant
                0 <= i <= all@.len(),
                all@.to_set() == formula_funs(*conclusion),
                forall|g: u32| fresh@.contains(g) <==> exists|k: int| 0 <= k < i && all@[k] == g
                    && !known_functions@.contains(g),
            decreases all.len() - i,
        {
            let g = all[i];
            let mut known = false;
            let mut k: usize = 0;
            while k < known_functions.len()
                invariant
                    0 <= k <= known_functions@.len(),
                    known == exists|q: int| 0 <= q < k && known_functions@[q] == g,
                decreases known_functions.len() - k,
            {
                if known_functions[k] == g {
                    known = true;
                }
                k = k + 1;
            }
            let ghost f0 = fresh@;
            if !known {
                fresh.push(g);
            }
            proof {
                assert forall|h: u32| fresh@.contains(h) <==> exists|k: int| 0 <= k < i + 1 && all@[k] == h
                    && !known_functions@.contains(h) by {
                    if fresh@.contains(h) && !f0.contains(h) {
                        let w = choose|w: int| 0 <= w < fresh@.len() && fresh@[w] == h;
                        assert(w == f0.len());
                    }
                    if f0.contains(h) {
                        let w = choose|w: int| 0 <= w < f0.len() && f0[w] == h;
                        assert(fresh@[w] == h);
                    }
                    if exists|k: int| 0 <= k < i + 1 && all@[k] == h && !known_functions@.contains(h) {
                        let k = choose|k: int| 0 <= k < i + 1 && all@[k] == h && !known_functions@.contains(h);
                        if k == i {
                            assert(!known);
                            assert(fresh@[fresh@.len() - 1] == h);
                        }
                    }
                }
            }
            i = i + 1;
        }
        let v = verify_skolemisation(node_name, &parents[0], conclusion, &fresh);
        proof {
            assert(fresh@.to_set() =~= formula_funs(*conclusion).difference(known_functions@.to_set())) by {
                assert forall|h: u32| fresh@.to_set().contains(h) <==> formula_funs(*conclusion).difference(known_functions@.to_set()).contains(h) by {
                    if formula_funs(*conclusion).contains(h) {
                        assert(all@.to_set().contains(h));
                        let k = choose|k: int| 0 <= k < all@.len() && all@[k] == h;
                    }
                    if fresh@.contains(h) {
                        let k = choose|k: int| 0 <= k < all@.len() && all@[k] == h && !known_functions@.contains(h);
                        assert(all@.contains(h));
                    }
                }
            }
        }
        Some(v)
    } else if token_is(&name, "resolution") {
        Some(verify_resolution(parents, conclusion, limits))
    } else if token_is(&name, "consequence") {
        Some(verify_consequence(parents, conclusion, limits))
    } else if token_is(&name, "ex_falso") {
        Some(verify_ex_falso(parents, limits))
    } else if token_is(&name, "reflexivity") {
        Some(verify_reflexivity(parents, conclusion))
    } else if token_is(&name, "transitivity") {
        Some(verify_transitivity(parents, conclusion, limits))
    } else if token_is(&name, "subsumption_resolution") {
        Some(verify_subsumption_resolution(parents, conclusion, limits))
    } else if token_is(&name, "factoring") {
        Some(verify_factoring(parents, conclusion, limits))
    } else if token_is(&name, "equality_resolution") || token_is(&name, "destructive_equality_resolution") {
        Some(verify_equality_resolution(parents, conclusion, limits))
    } else if token_is(&name, "equality_factoring") {
        Some(verify_equality_factoring(parents, conclusion, limits))
    } else if token_is(&name, "condensation") {
        Some(verify_condensation(parents, conclusion, limits))
    } else if token_is(&name, "demodulation") {
        let v = verify_demodulation(parents, conclusion, limits);
        let ghost d = v@;
        let scoped = scope_to_node(node_name, v);
        assert(demodulation_outcome(parents@, *conclusion, limits, d) && scoped@ == node_scoped(node_name@, d));
        Some(scoped)
    } else if token_is(&name, "ac_normalization") {
        Some(verify_ac_normalization(parents, conclusion, limits))
    } else if token_is(&name, "superposition") {
        Some(verify_superposition(parents, conclusion, limits, background_commutative, background_associative))
    } else if token_is(&name, "ac_superposition") {
        Some(verify_ac_superposition(parents, conclusion, limits, background_commutative, background_associative))
    } else if token_is(&name, "ac_resolution") {
        Some(verify_ac_resolution(parents, conclusion, limits))
    } else if token_is(&name, "equality_normalization") {
        Some(verify_equality_normalization(parents, conclusion, limits))
    } else if token_is(&name, "paramodulation") {
        Some(verify_paramodulation(parents, conclusion, limits, background_commutative, background_associative))
    } else if token_is(&name, "goal_transformation") {
        if parents.len() == 0 {
            Some(crate::verdict::rejected("goal_transformation requires at least one parent"))
        } else if parents.len() == 1 {
            Some(verify_alpha_identity(parents, conclusion))
        } else {
            Some(verify_demodulation(parents, conclusion, limits))
        }
    } else if token_is(&name, "variable_rename") || token_is(&name, "rename_variable") || token_is(&name, "rename")
        || token_is(&name, "rectify") || token_is(&name, "copy") || token_is(&name, "assume")
        || token_is(&name, "rewrite") || token_is(&name, "duplicate") {
        Some(verify_alpha_identity(parents, conclusion))
    } else {
        None
    }
}

} // verus!
