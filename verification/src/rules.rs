//! The inference rules the kernel knows and the SZS status each must carry.
use vstd::prelude::*;
use crate::text::{str_chars, token_is};

verus! {

pub open spec fn texts(list: Seq<&str>) -> Seq<Seq<char>> {
    list.map_values(|s: &str| s@)
}

/// Rules whose conclusion is a negated conjecture (status `cth`).
pub open spec fn cth_rules() -> Seq<Seq<char>> {
    seq!["negated_conjecture"@, "assume_negation"@]
}

/// Rules whose conclusion is equisatisfiable with its parents (status `esa`).
pub open spec fn esa_rules() -> Seq<Seq<char>> {
    seq![
        "skolemisation"@,
        "skolemize"@,
        "avatar_split_clause"@,
        "avatar_component_clause"@,
        "avatar_branch_refutation"@,
        "split_component"@,
    ]
}

/// Rules whose conclusion is a theorem of its parents (status `thm`).
pub open spec fn thm_rules() -> Seq<Seq<char>> {
    seq![
        "fof_nnf"@, "fof_nnf_transformation"@, "nnf_transformation"@, "variable_rename"@,
        "rename_variable"@, "rename"@, "alpha"@, "rectify"@, "copy"@, "assume"@, "rewrite"@,
        "duplicate"@, "reassociate"@, "formula_equivalence"@, "equivalence"@,
        "fof_simplification"@, "true_and_iff_removal"@, "trivial_inequality_removal"@,
        "evaluation"@, "remove_duplicate_literals"@, "duplicate_literal_removal"@,
        "flattening"@, "distribute"@, "ennf_transformation"@, "simplification"@,
        "double_negation"@, "remove_double_negation"@, "commute"@, "excluded_middle"@,
        "modus_ponens"@, "instantiate_mp"@, "contrapositive"@, "disjunctive_syllogism"@,
        "horn"@, "consequence"@, "ex_falso"@, "weaken"@, "reflexivity"@, "transitivity"@,
        "instantiate"@, "instantiation"@, "definition_renaming"@, "existential_gen"@,
        "conjunction"@, "split_conjunct"@, "cnf_transformation"@, "resolution"@,
        "subsumption_resolution"@, "factoring"@, "equality_resolution"@,
        "destructive_equality_resolution"@, "equality_factoring"@, "equality_normalization"@,
        "condensation"@, "demodulation"@, "goal_transformation"@, "ac_normalization"@,
        "avatar_sat_refutation"@, "sat_backed_refutation"@, "superposition"@,
        "ac_superposition"@, "ac_resolution"@, "paramodulation"@,
    ]
}

/// The SZS status a proof step of the given rule must declare.
pub open spec fn expected_status_of(rule: Seq<char>) -> Option<Seq<char>> {
    if cth_rules().contains(rule) {
        Some("cth"@)
    } else if esa_rules().contains(rule) {
        Some("esa"@)
    } else if thm_rules().contains(rule) {
        Some("thm"@)
    } else {
        None
    }
}

fn listed(rule: &Vec<char>, list: &Vec<&str>) -> (r: bool)
    ensures
        r == texts(list@).contains(rule@),
{
    let mut i: usize = 0;
    while i < list.len()
        invariant
            0 <= i <= list.len(),
            forall|k: int| 0 <= k < i ==> texts(list@)[k] != rule@,
        decreases list.len() - i,
    {
        if token_is(rule, list[i]) {
            assert(texts(list@)[i as int] == rule@);
            return true;
        }
        i = i + 1;
    }
    false
}

/// The SZS status (`cth`, `esa` or `thm`) that a step of `rule` must have,
/// or `None` for a rule the kernel does not constrain.
pub fn expected_status(rule: &str) -> (r: Option<&'static str>)
    ensures
        match expected_status_of(rule@) {
            Some(s) => r matches Some(x) && x@ == s,
            None => r is None,
        },
{
    let name = str_chars(rule);
    let cth = vec!["negated_conjecture", "assume_negation"];
    assert(texts(cth@) =~= cth_rules());
    if listed(&name, &cth) {
        return Some("cth");
    }
    let esa = vec![
        "skolemisation",
        "skolemize",
        "avatar_split_clause",
        "avatar_component_clause",
        "avatar_branch_refutation",
        "split_component",
    ];
    assert(texts(esa@) =~= esa_rules());
    if listed(&name, &esa) {
        return Some("esa");
    }
    let thm = vec![
        "fof_nnf", "fof_nnf_transformation", "nnf_transformation", "variable_rename",
        "rename_variable", "rename", "alpha", "rectify", "copy", "assume", "rewrite",
        "duplicate", "reassociate", "formula_equivalence", "equivalence",
        "fof_simplification", "true_and_iff_removal", "trivial_inequality_removal",
        "evaluation", "remove_duplicate_literals", "duplicate_literal_removal",
        "flattening", "distribute", "ennf_transformation", "simplification",
        "double_negation", "remove_double_negation", "commute", "excluded_middle",
        "modus_ponens", "instantiate_mp", "contrapositive", "disjunctive_syllogism",
        "horn", "consequence", "ex_falso", "weaken", "reflexivity", "transitivity",
        "instantiate", "instantiation", "definition_renaming", "existential_gen",
        "conjunction", "split_conjunct", "cnf_transformation", "resolution",
        "subsumption_resolution", "factoring", "equality_resolution",
        "destructive_equality_resolution", "equality_factoring", "equality_normalization",
        "condensation", "demodulation", "goal_transformation", "ac_normalization",
        "avatar_sat_refutation", "sat_backed_refutation", "superposition",
        "ac_superposition", "ac_resolution", "paramodulation",
    ];
    assert(texts(thm@) =~= thm_rules());
    if listed(&name, &thm) {
        return Some("thm");
    }
    None
}

} // verus!
