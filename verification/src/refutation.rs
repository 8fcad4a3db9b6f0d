//! Checking a whole refutation: the proof's steps are put in dependency
//! order, every leaf is matched against the problem formula it cites, and
//! every inference step is checked by the clause rule it names.
use vstd::prelude::*;
use vstd::string::*;
use crate::term::{Formula, SLiteral};
use crate::verdict::{KernelVerdict, VerdictView, VerificationLimits, VerificationStepTelemetry, rejected, inconclusive};
use crate::clause::{clause_of, clause_from_formula};
use crate::alpha::{clause_alpha, clause_alpha_equiv};
use crate::ac::{AcAxiomKind, ac_axiom_of, classify_ac_axiom};
use crate::measure::{cap, formula_nodes, formula_size};
use crate::text::{decimal, decimal_text};
use crate::rules::{expected_status_of, expected_status};
use crate::dispatch::{clause_rule_outcome, verify_clause_rule};
use crate::signature::{formulas_funs, formula_funs, collect_formula_funs, arity_clash, clash_text, formulas_symbols, formula_symbols, table_of, register_formula, clash_reason};
use crate::dag::{kahn_order, lists_view, parents_in_range, topo_sort, topological, lemma_kahn_order_topological};

verus! {

/// The role a formula plays in a problem or a proof.
#[derive(Clone, Copy, Debug, PartialEq, Eq, Structural)]
pub enum FormulaRole {
    Axiom,
    Hypothesis,
    Definition,
    Assumption,
    Lemma,
    Theorem,
    Corollary,
    Conjecture,
    NegatedConjecture,
    Plain,
    Unknown,
}

/// A role whose formula the problem asserts: axiom, hypothesis,
/// definition, assumption, lemma, theorem or corollary.
pub open spec fn is_premise(r: FormulaRole) -> bool {
    ||| r == FormulaRole::Axiom
    ||| r == FormulaRole::Hypothesis
    ||| r == FormulaRole::Definition
    ||| r == FormulaRole::Assumption
    ||| r == FormulaRole::Lemma
    ||| r == FormulaRole::Theorem
    ||| r == FormulaRole::Corollary
}

fn premise_role(r: FormulaRole) -> (b: bool)
    ensures
        b == is_premise(r),
{
    match r {
        FormulaRole::Axiom | FormulaRole::Hypothesis | FormulaRole::Definition | FormulaRole::Assumption
        | FormulaRole::Lemma | FormulaRole::Theorem | FormulaRole::Corollary => true,
        _ => false,
    }
}

/// A leaf of role `leaf` may restate a problem formula of role `cited`: a
/// plain or premise leaf only a premise, any other leaf only its own role.
pub open spec fn roles_compatible(leaf: FormulaRole, cited: FormulaRole) -> bool {
    if leaf == FormulaRole::Plain || is_premise(leaf) {
        is_premise(cited)
    } else {
        leaf == cited
    }
}

fn compatible_roles(leaf: FormulaRole, cited: FormulaRole) -> (b: bool)
    ensures
        b == roles_compatible(leaf, cited),
{
    if leaf == FormulaRole::Plain || premise_role(leaf) {
        premise_role(cited)
    } else {
        leaf == cited
    }
}

/// The TPTP name of a role.
pub open spec fn role_name(r: FormulaRole) -> Seq<char> {
    match r {
        FormulaRole::Axiom => "axiom"@,
        FormulaRole::Hypothesis => "hypothesis"@,
        FormulaRole::Definition => "definition"@,
        FormulaRole::Assumption => "assumption"@,
        FormulaRole::Lemma => "lemma"@,
        FormulaRole::Theorem => "theorem"@,
        FormulaRole::Corollary => "corollary"@,
        FormulaRole::Conjecture => "conjecture"@,
        FormulaRole::NegatedConjecture => "negated_conjecture"@,
        FormulaRole::Plain => "plain"@,
        FormulaRole::Unknown => "unknown"@,
    }
}

fn role_text(r: FormulaRole) -> (s: &'static str)
    ensures
        s@ == role_name(r),
{
    match r {
        FormulaRole::Axiom => "axiom",
        FormulaRole::Hypothesis => "hypothesis",
        FormulaRole::Definition => "definition",
        FormulaRole::Assumption => "assumption",
        FormulaRole::Lemma => "lemma",
        FormulaRole::Theorem => "theorem",
        FormulaRole::Corollary => "corollary",
        FormulaRole::Conjecture => "conjecture",
        FormulaRole::NegatedConjecture => "negated_conjecture",
        FormulaRole::Plain => "plain",
        FormulaRole::Unknown => "unknown",
    }
}

/// A formula of the problem that a proof may cite.
pub struct ProblemFormula {
    pub name: String,
    pub role: FormulaRole,
    /// The name under which the formula's own `file(...)` source cites it.
    pub source_name: Option<String>,
    pub formula: Formula,
}

/// Where a leaf of the proof comes from: the file and the formula name it
/// cites.
pub struct LeafSource {
    pub file: String,
    pub name: String,
}

/// One step of a proof: its name, the rule and status it cites, the leaf
/// source it cites, and the names of its parents. Its formula is handed
/// over separately.
pub struct ProofStep {
    pub name: String,
    pub role: FormulaRole,
    pub rule: Option<String>,
    pub status: Option<String>,
    pub source: Option<LeafSource>,
    pub parents: Vec<String>,
    /// Which parent references are negated (`~name`); a missing entry is
    /// not negated.
    pub negated: Vec<bool>,
}

/// The first index from `k` on of a step with the given name.
pub open spec fn index_from(steps: Seq<ProofStep>, name: Seq<char>, k: int) -> Option<int>
    decreases steps.len() - k,
{
    if k < 0 || k >= steps.len() {
        None
    } else if steps[k].name@ == name {
        Some(k)
    } else {
        index_from(steps, name, k + 1)
    }
}

proof fn lemma_index_from(steps: Seq<ProofStep>, name: Seq<char>, k: int)
    requires
        0 <= k,
    ensures
        index_from(steps, name, k) matches Some(i) ==> k <= i < steps.len() && steps[i].name@ == name,
        index_from(steps, name, k) is None ==> forall|i: int| k <= i < steps.len() ==> #[trigger] steps[i].name@ != name,
    decreases steps.len() - k,
{
    if k < steps.len() && steps[k].name@ != name {
        lemma_index_from(steps, name, k + 1);
    }
}

/// The step a name refers to.
pub open spec fn step_named(steps: Seq<ProofStep>, name: Seq<char>) -> Option<int> {
    index_from(steps, name, 0)
}

/// The verdict on the first step, from `j` on, whose name an earlier step
/// already has.
pub open spec fn duplicate_from(steps: Seq<ProofStep>, j: int) -> Option<VerdictView>
    decreases steps.len() - j,
{
    if j < 0 || j >= steps.len() {
        None
    } else if step_named(steps, steps[j].name@) != Some(j) {
        Some(VerdictView::Rejected("duplicate proof formula name `"@ + steps[j].name@ + "`"@))
    } else {
        duplicate_from(steps, j + 1)
    }
}

/// The verdict on the first parent name, from parent `k` of step `j` on,
/// that names no step.
pub open spec fn unknown_parent_from(steps: Seq<ProofStep>, j: int, k: int) -> Option<VerdictView>
    decreases steps.len() - j, steps[j].parents@.len() - k,
{
    if j < 0 || j >= steps.len() {
        None
    } else if k < 0 || k >= steps[j].parents@.len() {
        unknown_parent_from(steps, j + 1, 0)
    } else if step_named(steps, steps[j].parents@[k]@) is None {
        Some(VerdictView::Rejected("node `"@ + steps[j].name@ + "` references unknown parent `"@
            + steps[j].parents@[k]@ + "`"@))
    } else {
        unknown_parent_from(steps, j, k + 1)
    }
}

/// The parent indices of step `j`.
pub open spec fn parent_indices(steps: Seq<ProofStep>, j: int) -> Seq<usize> {
    steps[j].parents@.map_values(|p: String| step_named(steps, p@)->Some_0 as usize)
}

/// The parent indices of every step.
pub open spec fn parent_graph(steps: Seq<ProofStep>) -> Seq<Seq<usize>> {
    Seq::new(steps.len(), |j: int| parent_indices(steps, j))
}

/// Some step whose formula is `$false` is no step's parent.
pub open spec fn has_false_root(steps: Seq<ProofStep>, formulas: Seq<Formula>) -> bool {
    exists|j: int| 0 <= j < steps.len() && #[trigger] formulas[j] is False
        && forall|i: int, k: int| 0 <= i < steps.len() && 0 <= k < steps[i].parents@.len()
            ==> #[trigger] steps[i].parents@[k]@ != steps[j].name@
}

/// The verdict on the shape of the proof graph, before any step is checked.
pub open spec fn structure_error(steps: Seq<ProofStep>, formulas: Seq<Formula>, limits: VerificationLimits) -> Option<VerdictView> {
    if steps.len() > limits.max_nodes {
        Some(VerdictView::Inconclusive("proof has "@ + decimal(steps.len()) + " formulas, exceeding limit "@
            + decimal(limits.max_nodes as nat)))
    } else if steps.len() == 0 {
        Some(VerdictView::Inconclusive("proof contains no FOF/CNF nodes"@))
    } else if duplicate_from(steps, 0) is Some {
        duplicate_from(steps, 0)
    } else if unknown_parent_from(steps, 0, 0) is Some {
        unknown_parent_from(steps, 0, 0)
    } else if kahn_order(parent_graph(steps)).len() != steps.len() {
        Some(VerdictView::Rejected("cycle in proof parent graph"@))
    } else if !has_false_root(steps, formulas) {
        Some(VerdictView::Rejected("proof has no unparented `$false` root"@))
    } else {
        None
    }
}

/// The first step with the given name.
fn find_step(steps: &Vec<ProofStep>, name: &String) -> (r: Option<usize>)
    ensures
        match step_named(steps@, name@) {
            Some(i) => r == Some(i as usize) && 0 <= i < steps@.len() && steps@[i].name@ == name@,
            None => r is None,
        },
{
    proof {
        lemma_index_from(steps@, name@, 0);
    }
    let mut i: usize = 0;
    while i < steps.len()
        invariant
            0 <= i <= steps.len(),
            step_named(steps@, name@) == index_from(steps@, name@, i as int),
        decreases steps.len() - i,
    {
        if steps[i].name == *name {
            return Some(i);
        }
        i = i + 1;
    }
    None
}

/// A rejection naming a duplicate step.
fn duplicate_verdict(name: &String) -> (v: KernelVerdict)
    ensures
        v@ == VerdictView::Rejected("duplicate proof formula name `"@ + name@ + "`"@),
{
    let mut text = String::from_str("duplicate proof formula name `");
    text.append(name.as_str());
    text.append("`");
    KernelVerdict::Rejected(text)
}

/// Finds the first step whose name an earlier step has.
fn check_duplicates(steps: &Vec<ProofStep>) -> (r: Option<KernelVerdict>)
    ensures
        match duplicate_from(steps@, 0) {
            Some(e) => r matches Some(v) && v@ == e,
            None => r is None,
        },
{
    let mut j: usize = 0;
    while j < steps.len()
        invariant
            0 <= j <= steps.len(),
            duplicate_from(steps@, 0) == duplicate_from(steps@, j as int),
        decreases steps.len() - j,
    {
        match find_step(steps, &steps[j].name) {
            Some(i) => {
                if i != j {
                    return Some(duplicate_verdict(&steps[j].name));
                }
                assert(duplicate_from(steps@, j as int) == duplicate_from(steps@, j as int + 1));
            },
            None => {
                return Some(duplicate_verdict(&steps[j].name));
            },
        }
        j = j + 1;
    }
    None
}

/// A rejection naming a parent that names no step.
fn unknown_parent_verdict(node: &String, parent: &String) -> (v: KernelVerdict)
    ensures
        v@ == VerdictView::Rejected("node `"@ + node@ + "` references unknown parent `"@ + parent@ + "`"@),
{
    let mut text = String::from_str("node `");
    text.append(node.as_str());
    text.append("` references unknown parent `");
    text.append(parent.as_str());
    text.append("`");
    KernelVerdict::Rejected(text)
}

/// Resolves every parent name to its step, or gives the verdict on the
/// first name that names no step.
fn resolve_parents(steps: &Vec<ProofStep>) -> (r: Result<Vec<Vec<usize>>, KernelVerdict>)
    ensures
        match unknown_parent_from(steps@, 0, 0) {
            Some(e) => r matches Err(v) && v@ == e,
            None => r matches Ok(g) && lists_view(g@) == parent_graph(steps@)
                && parents_in_range(lists_view(g@)),
        },
{
    let mut graph: Vec<Vec<usize>> = Vec::new();
    let mut j: usize = 0;
    while j < steps.len()
        invariant
            0 <= j <= steps.len(),
            unknown_parent_from(steps@, 0, 0) == unknown_parent_from(steps@, j as int, 0),
            graph@.len() == j,
            forall|i: int| 0 <= i < j ==> (#[trigger] graph@[i])@ == parent_indices(steps@, i),
            forall|i: int, q: int| 0 <= i < j && 0 <= q < graph@[i]@.len() ==> #[trigger] graph@[i]@[q] < steps@.len(),
        decreases steps.len() - j,
    {
        let ps = &steps[j].parents;
        let mut row: Vec<usize> = Vec::new();
        let mut k: usize = 0;
        while k < ps.len()
            invariant
                0 <= j < steps.len(),
                *ps == steps@[j as int].parents,
                0 <= k <= ps.len(),
                unknown_parent_from(steps@, 0, 0) == unknown_parent_from(steps@, j as int, k as int),
                row@.len() == k,
                forall|q: int| 0 <= q < k ==> #[trigger] row@[q] == parent_indices(steps@, j as int)[q],
                forall|q: int| 0 <= q < k ==> #[trigger] row@[q] < steps@.len(),
                graph@.len() == j,
                forall|i: int, q: int| 0 <= i < j && 0 <= q < graph@[i]@.len() ==> #[trigger] graph@[i]@[q] < steps@.len(),
            decreases ps.len() - k,
        {
            match find_step(steps, &ps[k]) {
                Some(i) => {
                    row.push(i);
                },
                None => {
                    return Err(unknown_parent_verdict(&steps[j].name, &ps[k]));
                },
            }
            k = k + 1;
        }
        assert(row@ =~= parent_indices(steps@, j as int));
        let ghost g0 = graph@;
        graph.push(row);
        proof {
            assert forall|i: int, q: int| 0 <= i < j + 1 && 0 <= q < graph@[i]@.len() implies #[trigger] graph@[i]@[q] < steps@.len() by {
                if i < j {
                    assert(graph@[i] == g0[i]);
                }
            }
            assert forall|i: int| 0 <= i < j + 1 implies (#[trigger] graph@[i])@ == parent_indices(steps@, i) by {
                if i < j {
                    assert(graph@[i] == g0[i]);
                }
            }
        }
        j = j + 1;
    }
    assert(lists_view(graph@) =~= parent_graph(steps@));
    assert(parents_in_range(lists_view(graph@))) by {
        assert forall|i: int, q: int| 0 <= i < lists_view(graph@).len() && 0 <= q < lists_view(graph@)[i].len()
            implies #[trigger] lists_view(graph@)[i][q] < lists_view(graph@).len() by {
            assert(lists_view(graph@)[i] == graph@[i]@);
        }
    }
    Ok(graph)
}

/// Whether some step cites `name` as a parent.
fn cited_as_parent(steps: &Vec<ProofStep>, name: &String) -> (r: bool)
    ensures
        r == exists|i: int, k: int| 0 <= i < steps@.len() && 0 <= k < steps@[i].parents@.len()
            && #[trigger] steps@[i].parents@[k]@ == name@,
{
    let mut i: usize = 0;
    while i < steps.len()
        invariant
            0 <= i <= steps.len(),
            forall|i2: int, k: int| 0 <= i2 < i && 0 <= k < steps@[i2].parents@.len()
                ==> #[trigger] steps@[i2].parents@[k]@ != name@,
        decreases steps.len() - i,
    {
        let ps = &steps[i].parents;
        let mut k: usize = 0;
        while k < ps.len()
            invariant
                0 <= i < steps.len(),
                *ps == steps@[i as int].parents,
                0 <= k <= ps.len(),
                forall|i2: int, k2: int| 0 <= i2 < i && 0 <= k2 < steps@[i2].parents@.len()
                    ==> #[trigger] steps@[i2].parents@[k2]@ != name@,
                forall|k2: int| 0 <= k2 < k ==> #[trigger] steps@[i as int].parents@[k2]@ != name@,
            decreases ps.len() - k,
        {
            if ps[k] == *name {
                assert(steps@[i as int].parents@[k as int]@ == name@);
                return true;
            }
            k = k + 1;
        }
        i = i + 1;
    }
    false
}

/// Whether some `$false` step is no step's parent.
fn false_root(steps: &Vec<ProofStep>, formulas: &Vec<Formula>) -> (r: bool)
    requires
        formulas@.len() == steps@.len(),
    ensures
        r == has_false_root(steps@, formulas@),
{
    let mut j: usize = 0;
    while j < steps.len()
        invariant
            0 <= j <= steps.len(),
            formulas@.len() == steps@.len(),
            forall|q: int| 0 <= q < j ==> !(#[trigger] formulas@[q] is False
                && forall|i: int, k: int| 0 <= i < steps@.len() && 0 <= k < steps@[i].parents@.len()
                    ==> #[trigger] steps@[i].parents@[k]@ != steps@[q].name@),
        decreases steps.len() - j,
    {
        if let Formula::False = &formulas[j] {
            if !cited_as_parent(steps, &steps[j].name) {
                assert(formulas@[j as int] is False);
                return true;
            }
        }
        j = j + 1;
    }
    false
}

/// The AC axiom a formula states as a positive unit equation, if any.
pub open spec fn unit_ac_axiom(f: Formula, limits: VerificationLimits) -> Option<(u32, AcAxiomKind)> {
    match clause_of(f, limits.max_clause_literals) {
        Some(c) => if c.len() == 1 && c[0].positive && c[0].atom is Eq {
            ac_axiom_of(c[0].atom->Eq_0, c[0].atom->Eq_1)
        } else {
            None
        },
        None => None,
    }
}

/// The AC axiom a problem formula contributes: a premise or the negated
/// conjecture as it stands, the conjecture `~A` as `A` (its negation with
/// the double negation removed).
pub open spec fn ac_candidate(p: ProblemFormula, limits: VerificationLimits) -> Option<(u32, AcAxiomKind)> {
    if is_premise(p.role) || p.role == FormulaRole::NegatedConjecture {
        unit_ac_axiom(p.formula, limits)
    } else if p.role == FormulaRole::Conjecture {
        match p.formula {
            Formula::Neg(inner) => unit_ac_axiom(*inner, limits),
            _ => None,
        }
    } else {
        None
    }
}

/// The symbols that the problem states to be commutative (or associative):
/// the background theory of AC-aware superposition.
pub open spec fn background(problem: Seq<ProblemFormula>, limits: VerificationLimits, kind: AcAxiomKind) -> Set<u32> {
    Set::new(|f: u32| exists|i: int| 0 <= i < problem.len()
        && #[trigger] ac_candidate(problem[i], limits) == Some((f, kind)))
}

/// A leaf matches a problem formula when both are clauses equal up to
/// renaming of variables.
pub open spec fn leaf_matches(leaf: Formula, cited: Formula, limits: VerificationLimits) -> bool {
    &&& clause_of(leaf, limits.max_clause_literals) matches Some(a)
    &&& clause_of(cited, limits.max_clause_literals) matches Some(b)
    &&& clause_alpha(a, b)
}

/// The verdict on a leaf, or `None` when it restates the problem formula
/// it cites.
pub open spec fn leaf_error(
    problem: Seq<ProblemFormula>,
    name: Seq<char>,
    role: FormulaRole,
    source: LeafSource,
    formula: Formula,
    expected_source: Option<Seq<char>>,
    limits: VerificationLimits,
) -> Option<VerdictView> {
    let cited = source.name@;
    if cited == "unknown"@ {
        Some(VerdictView::Inconclusive("leaf `"@ + name + "` has anonymous provenance"@))
    } else if expected_source matches Some(e) && source.file@ != e {
        Some(VerdictView::Rejected("leaf `"@ + name + "` cites `"@ + source.file@ + "` instead of proof source `"@
            + expected_source->Some_0 + "`"@))
    } else if clause_of(formula, limits.max_clause_literals) is None {
        Some(VerdictView::Inconclusive("leaf `"@ + name + "` is not a supported clause"@))
    } else if !exists|i: int| 0 <= i < problem.len() && #[trigger] in_pool(problem, i, cited) {
        Some(VerdictView::Rejected("leaf `"@ + name + "` references missing problem formula `"@ + cited + "`"@))
    } else if exists|i: int| 0 <= i < problem.len() && #[trigger] in_pool(problem, i, cited)
        && roles_compatible(role, problem[i].role) && leaf_matches(formula, problem[i].formula, limits) {
        None
    } else if !exists|i: int| 0 <= i < problem.len() && #[trigger] in_pool(problem, i, cited)
        && roles_compatible(role, problem[i].role) {
        Some(VerdictView::Rejected("leaf `"@ + name + "` role `"@ + role_name(role)
            + "` is incompatible with problem role `"@ + cited + "`"@))
    } else {
        Some(VerdictView::Rejected("leaf `"@ + name + "` does not match problem formula `"@ + cited + "`"@))
    }
}

/// Some problem formula has the name.
pub open spec fn problem_names(problem: Seq<ProblemFormula>, cited: Seq<char>) -> bool {
    exists|i: int| 0 <= i < problem.len() && #[trigger] problem[i].name@ == cited
}

/// The problem formulas a leaf citing `cited` may restate: those of that
/// name, or, when none has it, those whose own source cites that name.
pub open spec fn in_pool(problem: Seq<ProblemFormula>, i: int, cited: Seq<char>) -> bool {
    if problem_names(problem, cited) {
        problem[i].name@ == cited
    } else {
        problem[i].source_name matches Some(n) && n@ == cited
    }
}

/// `text` holds `part` somewhere.
pub open spec fn holds_text(text: Seq<char>, part: Seq<char>) -> bool {
    exists|i: int| 0 <= i && i + part.len() <= text.len() && #[trigger] text.subrange(i, i + part.len()) == part
}

/// A reason about step `name`, with the step's name put before it unless
/// it already names the step.
pub open spec fn scoped_reason(name: Seq<char>, reason: Seq<char>) -> Seq<char> {
    if holds_text(reason, name) {
        reason
    } else {
        "node "@ + name + ": "@ + reason
    }
}

/// The formulas of the parents of step `j`.
pub open spec fn parent_formulas(steps: Seq<ProofStep>, formulas: Seq<Formula>, j: int) -> Seq<Formula> {
    Seq::new(parent_indices(steps, j).len(), |q: int| cited_formula(steps[j], formulas, parent_indices(steps, j), q))
}

/// Parent reference `q` of a step is negated.
pub open spec fn negated_ref(st: ProofStep, q: int) -> bool {
    0 <= q < st.negated@.len() && st.negated@[q]
}

/// The formula parent reference `q` stands for: the parent's formula, or
/// its negation for a negated reference.
pub open spec fn cited_formula(st: ProofStep, formulas: Seq<Formula>, ps: Seq<usize>, q: int) -> Formula {
    if negated_ref(st, q) {
        Formula::Neg(Box::new(formulas[ps[q] as int]))
    } else {
        formulas[ps[q] as int]
    }
}

/// The status step `j` cites differs from the one its rule asks for.
pub open spec fn status_mismatch(steps: Seq<ProofStep>, j: int) -> bool {
    &&& steps[j].rule matches Some(rule)
    &&& expected_status_of(rule@) matches Some(s)
    &&& !(steps[j].status matches Some(t) && t@ == s)
}

/// Step `j` is handed to the clause-rule checks: it is an inference step
/// with a rule, the status its rule asks for, and no parent cited twice.
pub open spec fn checked_step(steps: Seq<ProofStep>, j: int) -> bool {
    &&& steps[j].source is None
    &&& steps[j].parents@.len() > 0
    &&& steps[j].rule is Some
    &&& !status_mismatch(steps, j)
    &&& parent_indices(steps, j).no_duplicates()
}

#[verifier::opaque]
/// The verdict on step `j`, given what its rule's check returned (`out`,
/// `None` for a rule not checked here), or `None` when the step passes.
pub open spec fn node_error(
    problem: Seq<ProblemFormula>,
    steps: Seq<ProofStep>,
    formulas: Seq<Formula>,
    j: int,
    expected_source: Option<Seq<char>>,
    limits: VerificationLimits,
    out: Option<KernelVerdict>,
) -> Option<VerdictView> {
    let st = steps[j];
    let n = st.name@;
    match st.source {
        Some(src) => if st.parents@.len() > 0 {
            Some(VerdictView::Rejected("leaf `"@ + n + "` also cites inference parents"@))
        } else {
            leaf_error(problem, n, st.role, src, formulas[j], expected_source, limits)
        },
        None => if st.parents@.len() == 0 {
            Some(VerdictView::Inconclusive("node `"@ + n + "` has no provenance and no parents"@))
        } else if st.rule is None {
            Some(VerdictView::Inconclusive("node `"@ + n + "` has no inference rule"@))
        } else if status_mismatch(steps, j) {
            Some(VerdictView::Rejected("node `"@ + n + "` rule `"@ + st.rule->Some_0@ + "` must have status `"@
                + expected_status_of(st.rule->Some_0@)->Some_0 + "`"@))
        } else if !parent_indices(steps, j).no_duplicates() {
            Some(VerdictView::Inconclusive("node `"@ + n + "` cites one parent twice"@))
        } else {
            match out {
                None => Some(VerdictView::Inconclusive("node `"@ + n + "` uses unsupported strict rule `"@
                    + st.rule->Some_0@ + "`"@)),
                Some(v) => match v@ {
                    VerdictView::Certified => None,
                    VerdictView::Rejected(m) => Some(VerdictView::Rejected(scoped_reason(n, m))),
                    VerdictView::Inconclusive(m) => Some(VerdictView::Inconclusive(scoped_reason(n, m))),
                },
            }
        },
    }
}

/// What the rule checks give on step `j`.
#[verifier::opaque]
pub open spec fn rule_check(
    problem: Seq<ProblemFormula>,
    steps: Seq<ProofStep>,
    formulas: Seq<Formula>,
    j: int,
    limits: VerificationLimits,
    known: Set<u32>,
    out: Option<KernelVerdict>,
) -> bool {
    clause_rule_outcome(steps[j].rule->Some_0@, steps[j].name@, parent_formulas(steps, formulas, j), formulas[j],
        limits, background(problem, limits, AcAxiomKind::Commutative),
        background(problem, limits, AcAxiomKind::Associative), known, out)
}

/// The function symbols known once the problem and the first `k` steps of
/// `order` have been read.
pub open spec fn known_through(problem: Seq<ProblemFormula>, formulas: Seq<Formula>, order: Seq<usize>, k: int) -> Set<u32> {
    formulas_funs(problem_formulas(problem)) + formulas_funs(ordered_formulas(formulas, order, k))
}

/// The problem's formulas.
pub open spec fn problem_formulas(problem: Seq<ProblemFormula>) -> Seq<Formula> {
    problem.map_values(|p: ProblemFormula| p.formula)
}

/// The formulas of the first `k` steps of `order`.
pub open spec fn ordered_formulas(formulas: Seq<Formula>, order: Seq<usize>, k: int) -> Seq<Formula> {
    Seq::new(k as nat, |m: int| formulas[order[m] as int])
}

/// The symbols met once the problem and the first `k` steps of `order`
/// have been read.
pub open spec fn symbols_through(problem: Seq<ProblemFormula>, formulas: Seq<Formula>, order: Seq<usize>, k: int) -> Seq<(u32, nat)> {
    formulas_symbols(problem_formulas(problem)) + formulas_symbols(ordered_formulas(formulas, order, k))
}

/// The verdict on step `order[m]`: a symbol it uses with a new arity, or
/// else the verdict of `node_error`.
#[verifier::opaque]
pub open spec fn step_failure(
    problem: Seq<ProblemFormula>,
    steps: Seq<ProofStep>,
    formulas: Seq<Formula>,
    order: Seq<usize>,
    m: int,
    expected_source: Option<Seq<char>>,
    limits: VerificationLimits,
    outs: Seq<Option<KernelVerdict>>,
) -> Option<VerdictView> {
    match arity_clash(symbols_through(problem, formulas, order, m + 1)) {
        Some(c) => Some(VerdictView::Rejected("proof node `"@ + steps[order[m] as int].name@
            + "` has inconsistent symbol signature: "@ + clash_text(c))),
        None => node_error(problem, steps, formulas, order[m] as int, expected_source, limits, outs[order[m] as int]),
    }
}

/// The first failing step among the first `n` steps of `order`.
pub open spec fn first_failure(
    problem: Seq<ProblemFormula>,
    steps: Seq<ProofStep>,
    formulas: Seq<Formula>,
    order: Seq<usize>,
    n: int,
    expected_source: Option<Seq<char>>,
    limits: VerificationLimits,
    outs: Seq<Option<KernelVerdict>>,
) -> Option<VerdictView>
    decreases n,
{
    if n <= 0 {
        None
    } else {
        match first_failure(problem, steps, formulas, order, n - 1, expected_source, limits, outs) {
            Some(e) => Some(e),
            None => step_failure(problem, steps, formulas, order, n - 1, expected_source, limits, outs),
        }
    }
}

/// The rule checks' answers `outs` are what the checks give, for every
/// step of `order` that is checked before a step fails.
pub open spec fn outs_checked(
    problem: Seq<ProblemFormula>,
    steps: Seq<ProofStep>,
    formulas: Seq<Formula>,
    order: Seq<usize>,
    expected_source: Option<Seq<char>>,
    limits: VerificationLimits,
    outs: Seq<Option<KernelVerdict>>,
) -> bool {
    forall|k: int| 0 <= k < order.len() && first_failure(problem, steps, formulas, order, k, expected_source, limits, outs) is None
        && arity_clash(symbols_through(problem, formulas, order, k + 1)) is None
        && checked_step(steps, #[trigger] order[k] as int)
        ==> rule_check(problem, steps, formulas, order[k] as int, limits, known_through(problem, formulas, order, k), outs[order[k] as int])
}

/// The verdict on a whole proof, given the rule checks' answers `outs`:
/// the verdict on its shape, or on its first failing step in dependency
/// order, or `Certified` when every step passes.
pub open spec fn proof_outcome(
    problem: Seq<ProblemFormula>,
    steps: Seq<ProofStep>,
    formulas: Seq<Formula>,
    expected_source: Option<Seq<char>>,
    limits: VerificationLimits,
    outs: Seq<Option<KernelVerdict>>,
    v: VerdictView,
) -> bool {
    match structure_error(steps, formulas, limits) {
        Some(e) => v == e,
        None => if arity_clash(formulas_symbols(problem_formulas(problem))) is Some {
            v == VerdictView::Rejected("problem has inconsistent symbol signature: "@
                + clash_text(arity_clash(formulas_symbols(problem_formulas(problem)))->Some_0))
        } else {
            let order = kahn_order(parent_graph(steps));
            &&& outs.len() == steps.len()
            &&& outs_checked(problem, steps, formulas, order, expected_source, limits, outs)
            &&& v == match first_failure(problem, steps, formulas, order, order.len() as int, expected_source, limits, outs) {
                Some(e) => e,
                None => VerdictView::Certified,
            }
        },
    }
}

/// The measurements reported for a step.
pub open spec fn telemetry_of(t: VerificationStepTelemetry, st: ProofStep, f: Formula, limits: VerificationLimits) -> bool {
    &&& t.name@ == st.name@
    &&& match (t.rule, st.rule) {
        (Some(a), Some(b)) => a@ == b@,
        (None, None) => true,
        _ => false,
    }
    &&& t.parent_count == st.parents@.len()
    &&& t.formula_nodes == cap(formula_nodes(f))
    &&& t.clause_literals == match clause_of(f, limits.max_clause_literals) {
        Some(c) => c.len(),
        None => 0,
    }
}

/// The expected source as a value.
pub open spec fn source_view(expected_source: Option<&str>) -> Option<Seq<char>> {
    match expected_source {
        Some(e) => Some(e@),
        None => None,
    }
}

/// The AC axiom a formula states as a positive unit equation.
fn formula_ac_axiom(f: &Formula, limits: VerificationLimits) -> (r: Option<(u32, AcAxiomKind)>)
    ensures
        r == unit_ac_axiom(*f, limits),
{
    match clause_from_formula(f, limits) {
        Some(c) => {
            if c.len() == 1 && c[0].positive {
                match &c[0].atom {
                    crate::term::Atom::Eq(l, r) => classify_ac_axiom(l, r),
                    _ => None,
                }
            } else {
                None
            }
        },
        None => None,
    }
}

/// The AC axiom a problem formula contributes.
fn problem_ac_axiom(p: &ProblemFormula, limits: VerificationLimits) -> (r: Option<(u32, AcAxiomKind)>)
    ensures
        r == ac_candidate(*p, limits),
{
    if premise_role(p.role) || p.role == FormulaRole::NegatedConjecture {
        formula_ac_axiom(&p.formula, limits)
    } else if p.role == FormulaRole::Conjecture {
        match &p.formula {
            Formula::Neg(inner) => formula_ac_axiom(inner, limits),
            _ => None,
        }
    } else {
        None
    }
}

/// The symbols the problem's premises state to be commutative and
/// associative.
fn background_symbols(problem: &[ProblemFormula], limits: VerificationLimits) -> (r: (Vec<u32>, Vec<u32>))
    ensures
        r.0@.to_set() == background(problem@, limits, AcAxiomKind::Commutative),
        r.1@.to_set() == background(problem@, limits, AcAxiomKind::Associative),
{
    let mut comm: Vec<u32> = Vec::new();
    let mut assoc: Vec<u32> = Vec::new();
    let mut i: usize = 0;
    while i < problem.len()
        invariant
            0 <= i <= problem@.len(),
            forall|f: u32| comm@.contains(f) <==> exists|q: int| 0 <= q < i && #[trigger] ac_candidate(problem@[q], limits) == Some((f, AcAxiomKind::Commutative)),
            forall|f: u32| assoc@.contains(f) <==> exists|q: int| 0 <= q < i && #[trigger] ac_candidate(problem@[q], limits) == Some((f, AcAxiomKind::Associative)),
        decreases problem.len() - i,
    {
        {
            match problem_ac_axiom(&problem[i], limits) {
                Some((f, kind)) => {
                    let ghost c0 = comm@;
                    let ghost a0 = assoc@;
                    match kind {
                        AcAxiomKind::Commutative => comm.push(f),
                        AcAxiomKind::Associative => assoc.push(f),
                    }
                    proof {
                        assert forall|g: u32| comm@.contains(g) <==> exists|q: int| 0 <= q < i + 1 && #[trigger] ac_candidate(problem@[q], limits) == Some((g, AcAxiomKind::Commutative)) by {
                            if comm@.contains(g) && !c0.contains(g) {
                                let k = choose|k: int| 0 <= k < comm@.len() && comm@[k] == g;
                                assert(k == c0.len());
                                assert(ac_candidate(problem@[i as int], limits) == Some((g, AcAxiomKind::Commutative)));
                            }
                            if c0.contains(g) {
                                let k = choose|k: int| 0 <= k < c0.len() && c0[k] == g;
                                assert(comm@[k] == g);
                            }
                            if exists|q: int| 0 <= q < i + 1 && #[trigger] ac_candidate(problem@[q], limits) == Some((g, AcAxiomKind::Commutative)) {
                                let q = choose|q: int| 0 <= q < i + 1 && #[trigger] ac_candidate(problem@[q], limits) == Some((g, AcAxiomKind::Commutative));
                                if q == i {
                                    assert(comm@[comm@.len() - 1] == g);
                                }
                            }
                        }
                        assert forall|g: u32| assoc@.contains(g) <==> exists|q: int| 0 <= q < i + 1 && #[trigger] ac_candidate(problem@[q], limits) == Some((g, AcAxiomKind::Associative)) by {
                            if assoc@.contains(g) && !a0.contains(g) {
                                let k = choose|k: int| 0 <= k < assoc@.len() && assoc@[k] == g;
                                assert(k == a0.len());
                                assert(ac_candidate(problem@[i as int], limits) == Some((g, AcAxiomKind::Associative)));
                            }
                            if a0.contains(g) {
                                let k = choose|k: int| 0 <= k < a0.len() && a0[k] == g;
                                assert(assoc@[k] == g);
                            }
                            if exists|q: int| 0 <= q < i + 1 && #[trigger] ac_candidate(problem@[q], limits) == Some((g, AcAxiomKind::Associative)) {
                                let q = choose|q: int| 0 <= q < i + 1 && #[trigger] ac_candidate(problem@[q], limits) == Some((g, AcAxiomKind::Associative));
                                if q == i {
                                    assert(assoc@[assoc@.len() - 1] == g);
                                }
                            }
                        }
                    }
                },
                None => {},
            }
        }
        i = i + 1;
    }
    assert(comm@.to_set() =~= background(problem@, limits, AcAxiomKind::Commutative));
    assert(assoc@.to_set() =~= background(problem@, limits, AcAxiomKind::Associative));
    (comm, assoc)
}

/// Whether some problem formula has the given name.
fn problem_has(problem: &[ProblemFormula], name: &String) -> (r: bool)
    ensures
        r == exists|i: int| 0 <= i < problem@.len() && #[trigger] problem@[i].name@ == name@,
{
    let mut i: usize = 0;
    while i < problem.len()
        invariant
            0 <= i <= problem@.len(),
            forall|q: int| 0 <= q < i ==> #[trigger] problem@[q].name@ != name@,
        decreases problem.len() - i,
    {
        if problem[i].name == *name {
            assert(problem@[i as int].name@ == name@);
            return true;
        }
        i = i + 1;
    }
    false
}

/// Whether problem formula `i` is among those a leaf citing `cited` may restate.
fn pool_member(p: &ProblemFormula, cited: &String, named: bool) -> (r: bool)
    ensures
        r == (if named { p.name@ == cited@ } else { p.source_name matches Some(n) && n@ == cited@ }),
{
    if named {
        p.name == *cited
    } else {
        match &p.source_name {
            Some(n) => *n == *cited,
            None => false,
        }
    }
}

/// Checks a leaf against the problem formulas it cites.
fn check_leaf(
    problem: &[ProblemFormula],
    name: &String,
    role: FormulaRole,
    source: &LeafSource,
    formula: &Formula,
    expected_source: Option<&str>,
    limits: VerificationLimits,
) -> (r: Option<KernelVerdict>)
    ensures
        match leaf_error(problem@, name@, role, *source, *formula, source_view(expected_source), limits) {
            Some(e) => r matches Some(v) && v@ == e,
            None => r is None,
        },
{
    let unknown = String::from_str("unknown");
    if source.name == unknown {
        let mut text = String::from_str("leaf `");
        text.append(name.as_str());
        text.append("` has anonymous provenance");
        return Some(KernelVerdict::Inconclusive(text));
    }
    if let Some(e) = expected_source {
        let expected = String::from_str(e);
        if source.file != expected {
            let mut text = String::from_str("leaf `");
            text.append(name.as_str());
            text.append("` cites `");
            text.append(source.file.as_str());
            text.append("` instead of proof source `");
            text.append(e);
            text.append("`");
            return Some(KernelVerdict::Rejected(text));
        }
    }
    let leaf = match clause_from_formula(formula, limits) {
        Some(c) => c,
        None => {
            let mut text = String::from_str("leaf `");
            text.append(name.as_str());
            text.append("` is not a supported clause");
            return Some(KernelVerdict::Inconclusive(text));
        },
    };
    let named = problem_has(problem, &source.name);
    assert(named == problem_names(problem@, source.name@));
    let ghost cited = source.name@;
    let mut any_pool = false;
    let mut any_role = false;
    let mut i: usize = 0;
    while i < problem.len()
        invariant
            0 <= i <= problem@.len(),
            clause_of(*formula, limits.max_clause_literals) == Some(crate::term::clause_view(leaf@)),
            cited == source.name@,
            cited != "unknown"@,
            !(source_view(expected_source) matches Some(e) && source.file@ != e),
            named == problem_names(problem@, cited),
            any_pool == exists|q: int| 0 <= q < i && #[trigger] in_pool(problem@, q, cited),
            any_role == exists|q: int| 0 <= q < i && #[trigger] in_pool(problem@, q, cited)
                && roles_compatible(role, problem@[q].role),
            forall|q: int| 0 <= q < i && #[trigger] in_pool(problem@, q, cited)
                && roles_compatible(role, problem@[q].role) ==> !leaf_matches(*formula, problem@[q].formula, limits),
        decreases problem.len() - i,
    {
        if pool_member(&problem[i], &source.name, named) {
            assert(in_pool(problem@, i as int, cited));
            any_pool = true;
            if compatible_roles(role, problem[i].role) {
                any_role = true;
                match clause_from_formula(&problem[i].formula, limits) {
                    Some(c) => {
                        if clause_alpha_equiv(&leaf, &c) {
                            assert(leaf_matches(*formula, problem@[i as int].formula, limits));
                            return None;
                        }
                    },
                    None => {},
                }
            }
        } else {
            assert(!in_pool(problem@, i as int, cited));
        }
        i = i + 1;
    }
    if !any_pool {
        let mut text = String::from_str("leaf `");
        text.append(name.as_str());
        text.append("` references missing problem formula `");
        text.append(source.name.as_str());
        text.append("`");
        return Some(KernelVerdict::Rejected(text));
    }
    if !any_role {
        let mut text = String::from_str("leaf `");
        text.append(name.as_str());
        text.append("` role `");
        text.append(role_text(role));
        text.append("` is incompatible with problem role `");
        text.append(source.name.as_str());
        text.append("`");
        return Some(KernelVerdict::Rejected(text));
    }
    let mut text = String::from_str("leaf `");
    text.append(name.as_str());
    text.append("` does not match problem formula `");
    text.append(source.name.as_str());
    text.append("`");
    Some(KernelVerdict::Rejected(text))
}

/// Whether `text` holds `part` somewhere.
fn text_holds(text: &String, part: &String) -> (r: bool)
    ensures
        r == holds_text(text@, part@),
{
    let t = crate::text::str_chars(text.as_str());
    let p = crate::text::str_chars(part.as_str());
    if p.len() > t.len() {
        proof {
            assert forall|i: int| 0 <= i && i + p@.len() <= t@.len() implies
                #[trigger] t@.subrange(i, i + p@.len()) != p@ by {}
        }
        return false;
    }
    let mut i: usize = 0;
    while i <= t.len() - p.len()
        invariant
            p@.len() <= t@.len(),
            0 <= i <= t@.len() - p@.len() + 1,
            t@ == text@,
            p@ == part@,
            forall|q: int| 0 <= q < i ==> #[trigger] t@.subrange(q, q + p@.len()) != p@,
        decreases t.len() - i,
    {
        let mut k: usize = 0;
        let mut same = true;
        while k < p.len()
            invariant
                i + p@.len() <= t@.len(),
                t@.len() == t.len(),
                0 <= k <= p@.len(),
                same == forall|m: int| 0 <= m < k ==> t@[i + m] == p@[m],
            decreases p.len() - k,
        {
            assert(i + k < t@.len());
            let at: usize = i + k;
            if t[at] != p[k] {
                same = false;
            }
            k = k + 1;
        }
        if same {
            assert(t@.subrange(i as int, i + p@.len()) =~= p@);
            return true;
        }
        proof {
            let m = choose|m: int| 0 <= m < p@.len() && t@[i + m] != p@[m];
            assert(t@.subrange(i as int, i + p@.len())[m] != p@[m]);
        }
        i = i + 1;
    }
    false
}

/// The reason scoped to the step.
fn scope_reason(name: &String, reason: String) -> (r: String)
    ensures
        r@ == scoped_reason(name@, reason@),
{
    if text_holds(&reason, name) {
        reason
    } else {
        let mut text = String::from_str("node ");
        text.append(name.as_str());
        text.append(": ");
        text.append(reason.as_str());
        text
    }
}

/// The slots holding every formula.
pub open spec fn all_slots(formulas: Seq<Formula>) -> Seq<Option<Formula>> {
    formulas.map_values(|f: Formula| Some(f))
}

/// The slots with those of `j` and of `taken` emptied.
pub open spec fn slots_without(formulas: Seq<Formula>, j: int, taken: Seq<usize>) -> Seq<Option<Formula>> {
    Seq::new(formulas.len(), |x: int| if x == j || taken.contains(x as usize) { None } else { Some(formulas[x]) })
}

/// Moves the formula out of slot `j`.
fn take_slot(slots: &mut Vec<Option<Formula>>, j: usize) -> (f: Formula)
    requires
        j < old(slots)@.len(),
        old(slots)@[j as int] is Some,
    ensures
        f == old(slots)@[j as int]->Some_0,
        final(slots)@ == old(slots)@.update(j as int, None),
{
    let x = slots.remove(j);
    slots.insert(j, None);
    assert(slots@ =~= old(slots)@.update(j as int, None));
    match x {
        Some(f) => f,
        None => {
            assert(false);
            Formula::True
        },
    }
}

/// Whether a list of indices names no index twice.
fn distinct_indices(ps: &Vec<usize>) -> (r: bool)
    ensures
        r == ps@.no_duplicates(),
{
    let mut a: usize = 0;
    while a < ps.len()
        invariant
            0 <= a <= ps@.len(),
            forall|x: int, y: int| 0 <= x < y < ps@.len() && x < a ==> ps@[x] != ps@[y],
        decreases ps.len() - a,
    {
        let mut b: usize = a + 1;
        while b < ps.len()
            invariant
                0 <= a < ps@.len(),
                a + 1 <= b <= ps@.len(),
                forall|x: int, y: int| 0 <= x < y < ps@.len() && x < a ==> ps@[x] != ps@[y],
                forall|y: int| a < y < b ==> ps@[a as int] != ps@[y],
            decreases ps.len() - b,
        {
            if ps[a] == ps[b] {
                return false;
            }
            b = b + 1;
        }
        a = a + 1;
    }
    true
}

/// Checks inference step `j` by its rule, lending the formulas of the step
/// and of its parents to the check and putting them back.
fn check_by_rule(
    steps: &Vec<ProofStep>,
    j: usize,
    ps: &Vec<usize>,
    slots: &mut Vec<Option<Formula>>,
    limits: VerificationLimits,
    comm: &Vec<u32>,
    assoc: &Vec<u32>,
    known: &Vec<u32>,
    Ghost(problem): Ghost<Seq<ProblemFormula>>,
    Ghost(formulas): Ghost<Seq<Formula>>,
) -> (out: Option<KernelVerdict>)
    requires
        j < steps@.len(),
        formulas.len() == steps@.len(),
        old(slots)@ == all_slots(formulas),
        steps@[j as int].rule is Some,
        ps@ == parent_indices(steps@, j as int),
        ps@.no_duplicates(),
        !ps@.contains(j),
        forall|k: int| 0 <= k < ps@.len() ==> #[trigger] ps@[k] < steps@.len(),
        comm@.to_set() == background(problem, limits, AcAxiomKind::Commutative),
        assoc@.to_set() == background(problem, limits, AcAxiomKind::Associative),
    ensures
        final(slots)@ == all_slots(formulas),
        rule_check(problem, steps@, formulas, j as int, limits, known@.to_set(), out),
{
    let n = slots.len();
    let concl = take_slot(slots, j);
    assert(slots@ =~= slots_without(formulas, j as int, ps@.take(0)));
    let mut pf: Vec<Formula> = Vec::new();
    let mut k: usize = 0;
    while k < ps.len()
        invariant
            0 <= k <= ps@.len(),
            n == formulas.len(),
            j < n,
            ps@.no_duplicates(),
            !ps@.contains(j),
            forall|q: int| 0 <= q < ps@.len() ==> #[trigger] ps@[q] < n,
            slots@ == slots_without(formulas, j as int, ps@.take(k as int)),
            pf@ == Seq::new(k as nat, |q: int| cited_formula(steps@[j as int], formulas, ps@, q)),
            j < steps@.len(),
        decreases ps.len() - k,
    {
        let p = ps[k];
        proof {
            assert(!ps@.take(k as int).contains(p)) by {
                if ps@.take(k as int).contains(p) {
                    let q = choose|q: int| 0 <= q < k && #[trigger] ps@.take(k as int)[q] == p;
                    assert(ps@[q] == ps@[k as int]);
                }
            }
            assert(p != j) by {
                assert(ps@[k as int] == p);
            }
        }
        let f = take_slot(slots, p);
        let negated = k < steps[j].negated.len() && steps[j].negated[k];
        if negated {
            pf.push(Formula::Neg(Box::new(f)));
        } else {
            pf.push(f);
        }
        proof {
            assert(ps@.take(k as int + 1) == ps@.take(k as int).push(p));
            assert forall|x: usize| ps@.take(k as int + 1).contains(x) <==> (ps@.take(k as int).contains(x) || x == p) by {
                if ps@.take(k as int + 1).contains(x) {
                    let q = choose|q: int| 0 <= q < k + 1 && #[trigger] ps@.take(k as int + 1)[q] == x;
                    if q < k {
                        assert(ps@.take(k as int)[q] == x);
                    }
                }
                if ps@.take(k as int).contains(x) {
                    let q = choose|q: int| 0 <= q < k && #[trigger] ps@.take(k as int)[q] == x;
                    assert(ps@.take(k as int + 1)[q] == x);
                }
                if x == p {
                    assert(ps@.take(k as int + 1)[k as int] == x);
                }
            }
            assert(slots@ =~= slots_without(formulas, j as int, ps@.take(k as int + 1)));
            assert(pf@ =~= Seq::new(k as nat + 1, |q: int| cited_formula(steps@[j as int], formulas, ps@, q)));
        }
        k = k + 1;
    }
    assert(ps@.take(ps@.len() as int) == ps@);
    assert(pf@ =~= parent_formulas(steps@, formulas, j as int));
    let rule = match &steps[j].rule {
        Some(r) => r,
        None => {
            assert(false);
            return None;
        },
    };
    let out = verify_clause_rule(rule.as_str(), steps[j].name.as_str(), pf.as_slice(), &concl, limits, comm, assoc, known);
    assert(rule_check(problem, steps@, formulas, j as int, limits, known@.to_set(), out)) by {
        reveal(rule_check);
    }
    slots.set(j, Some(concl));
    let mut k2: usize = ps.len();
    while k2 > 0
        invariant
            0 <= k2 <= ps@.len(),
            n == formulas.len(),
            j < n,
            ps@.no_duplicates(),
            forall|q: int| 0 <= q < ps@.len() ==> #[trigger] ps@[q] < n,
            slots@ == Seq::new(n as nat, |x: int| if ps@.take(k2 as int).contains(x as usize) { None } else { Some(formulas[x]) }),
            pf@ == Seq::new(k2 as nat, |q: int| cited_formula(steps@[j as int], formulas, ps@, q)),
            j < steps@.len(),
        decreases k2,
    {
        let f = match pf.pop() {
            Some(f) => f,
            None => {
                assert(false);
                return out;
            },
        };
        let p = ps[k2 - 1];
        let negated = k2 - 1 < steps[j].negated.len() && steps[j].negated[k2 - 1];
        let g = if negated {
            match f {
                Formula::Neg(b) => *b,
                other => {
                    assert(false);
                    other
                },
            }
        } else {
            f
        };
        assert(g == formulas[p as int]);
        slots.set(p, Some(g));
        proof {
            let t = ps@.take(k2 as int);
            let t2 = ps@.take(k2 - 1);
            assert(t2 == t.drop_last());
            assert(pf@ =~= Seq::new((k2 - 1) as nat, |q: int| cited_formula(steps@[j as int], formulas, ps@, q)));
            assert forall|x: usize| t2.contains(x) <==> (t.contains(x) && x != p) by {
                if t2.contains(x) {
                    let q = choose|q: int| 0 <= q < t2.len() && #[trigger] t2[q] == x;
                    assert(t[q] == x);
                    assert(ps@[q] != ps@[k2 - 1]);
                }
                if t.contains(x) && x != p {
                    let q = choose|q: int| 0 <= q < t.len() && #[trigger] t[q] == x;
                    assert(q != k2 - 1);
                    assert(t2[q] == x);
                }
            }
            assert(t.contains(p)) by {
                assert(t[k2 - 1] == p);
            }
            assert(slots@ =~= Seq::new(n as nat, |x: int| if t2.contains(x as usize) { None } else { Some(formulas[x]) }));
        }
        k2 = k2 - 1;
    }
    proof {
        assert(ps@.take(0) =~= Seq::<usize>::empty());
        assert forall|x: int| 0 <= x < n implies slots@[x] == all_slots(formulas)[x] by {
            assert(!ps@.take(0).contains(x as usize));
        }
        assert(slots@ =~= all_slots(formulas));
    }
    out
}

/// A verdict on step `name`: `"<head>`name`<tail>"`.
fn node_text(head: &str, name: &String, tail: &str) -> (r: String)
    ensures
        r@ == head@ + name@ + tail@,
{
    let mut text = String::from_str(head);
    text.append(name.as_str());
    text.append(tail);
    text
}

/// Checks step `j`: a leaf against the problem, an inference step by its
/// rule. Also gives what the rule's check returned.
fn check_node(
    problem: &[ProblemFormula],
    steps: &Vec<ProofStep>,
    ps: &Vec<usize>,
    j: usize,
    slots: &mut Vec<Option<Formula>>,
    expected_source: Option<&str>,
    limits: VerificationLimits,
    comm: &Vec<u32>,
    assoc: &Vec<u32>,
    known: &Vec<u32>,
    Ghost(formulas): Ghost<Seq<Formula>>,
) -> (r: (Option<KernelVerdict>, Ghost<Option<KernelVerdict>>))
    requires
        j < steps@.len(),
        formulas.len() == steps@.len(),
        old(slots)@ == all_slots(formulas),
        ps@ == parent_indices(steps@, j as int),
        !ps@.contains(j),
        forall|k: int| 0 <= k < ps@.len() ==> #[trigger] ps@[k] < steps@.len(),
        comm@.to_set() == background(problem@, limits, AcAxiomKind::Commutative),
        assoc@.to_set() == background(problem@, limits, AcAxiomKind::Associative),
    ensures
        final(slots)@ == all_slots(formulas),
        checked_step(steps@, j as int) ==> rule_check(problem@, steps@, formulas, j as int, limits, known@.to_set(), r.1@),
        match node_error(problem@, steps@, formulas, j as int, source_view(expected_source), limits, r.1@) {
            Some(e) => r.0 matches Some(v) && v@ == e,
            None => r.0 is None,
        },
{
    reveal(node_error);
    let st = &steps[j];
    assert(ps@.len() == st.parents@.len());
    match &st.source {
        Some(src) => {
            if st.parents.len() > 0 {
                let text = node_text("leaf `", &st.name, "` also cites inference parents");
                proof {
                    reveal_strlit("leaf `");
                }
                return (Some(KernelVerdict::Rejected(text)), Ghost(None));
            }
            let e = match &slots[j] {
                Some(f) => check_leaf(problem, &st.name, st.role, src, f, expected_source, limits),
                None => {
                    assert(false);
                    None
                },
            };
            (e, Ghost(None))
        },
        None => {
            if st.parents.len() == 0 {
                let text = node_text("node `", &st.name, "` has no provenance and no parents");
                return (Some(KernelVerdict::Inconclusive(text)), Ghost(None));
            }
            let rule = match &st.rule {
                Some(r) => r,
                None => {
                    let text = node_text("node `", &st.name, "` has no inference rule");
                    return (Some(KernelVerdict::Inconclusive(text)), Ghost(None));
                },
            };
            match expected_status(rule.as_str()) {
                Some(want) => {
                    let wanted = String::from_str(want);
                    let ok = match &st.status {
                        Some(t) => *t == wanted,
                        None => false,
                    };
                    if !ok {
                        let mut text = node_text("node `", &st.name, "` rule `");
                        text.append(rule.as_str());
                        text.append("` must have status `");
                        text.append(want);
                        text.append("`");
                        return (Some(KernelVerdict::Rejected(text)), Ghost(None));
                    }
                },
                None => {},
            }
            assert(!status_mismatch(steps@, j as int));
            if !distinct_indices(ps) {
                let text = node_text("node `", &st.name, "` cites one parent twice");
                return (Some(KernelVerdict::Inconclusive(text)), Ghost(None));
            }
            let out = check_by_rule(steps, j, ps, slots, limits, comm, assoc, known, Ghost(problem@), Ghost(formulas));
            let ghost go = out;
            let e = match out {
                None => {
                    let mut text = node_text("node `", &st.name, "` uses unsupported strict rule `");
                    text.append(rule.as_str());
                    text.append("`");
                    Some(KernelVerdict::Inconclusive(text))
                },
                Some(v) => match v {
                    KernelVerdict::Certified => None,
                    KernelVerdict::Rejected(m) => Some(KernelVerdict::Rejected(scope_reason(&st.name, m))),
                    KernelVerdict::Inconclusive(m) => Some(KernelVerdict::Inconclusive(scope_reason(&st.name, m))),
                },
            };
            (e, Ghost(go))
        },
    }
}

/// The rules the clause-rule checks handle, for a step with `parent_count`
/// parents.
pub open spec fn checked_rule(rule: Seq<char>, parent_count: nat) -> bool {
    ||| rule == "resolution"@
    ||| rule == "consequence"@
    ||| rule == "ex_falso"@
    ||| rule == "reflexivity"@
    ||| rule == "transitivity"@
    ||| rule == "subsumption_resolution"@
    ||| rule == "factoring"@
    ||| rule == "equality_resolution"@
    ||| rule == "destructive_equality_resolution"@
    ||| rule == "equality_factoring"@
    ||| rule == "condensation"@
    ||| rule == "demodulation"@
    ||| rule == "ac_normalization"@
    ||| rule == "superposition"@
    ||| rule == "ac_superposition"@
    ||| rule == "ac_resolution"@
    ||| rule == "equality_normalization"@
    ||| rule == "paramodulation"@
    ||| rule == "goal_transformation"@
    ||| rule == "skolemisation"@
    ||| crate::dispatch::identity_rule(rule)
}

proof fn lemma_failure_none(
    problem: Seq<ProblemFormula>,
    steps: Seq<ProofStep>,
    formulas: Seq<Formula>,
    order: Seq<usize>,
    n: int,
    es: Option<Seq<char>>,
    limits: VerificationLimits,
    outs: Seq<Option<KernelVerdict>>,
)
    ensures
        (forall|m: int| 0 <= m < n ==> (#[trigger] step_failure(problem, steps, formulas, order, m, es, limits, outs)) is None) <==> first_failure(problem, steps, formulas, order, n, es, limits, outs) is None,
    decreases n,
{
    if n > 0 {
        lemma_failure_none(problem, steps, formulas, order, n - 1, es, limits, outs);
        if first_failure(problem, steps, formulas, order, n, es, limits, outs) is None {
            assert forall|m: int| 0 <= m < n implies (#[trigger] step_failure(problem, steps, formulas, order, m, es,
                limits, outs)) is None by {}
        }
    }
}

proof fn lemma_failure_settled(
    problem: Seq<ProblemFormula>,
    steps: Seq<ProofStep>,
    formulas: Seq<Formula>,
    order: Seq<usize>,
    a: int,
    b: int,
    es: Option<Seq<char>>,
    limits: VerificationLimits,
    outs: Seq<Option<KernelVerdict>>,
)
    requires
        0 <= a <= b,
        first_failure(problem, steps, formulas, order, a, es, limits, outs) is Some,
    ensures
        first_failure(problem, steps, formulas, order, b, es, limits, outs)
            == first_failure(problem, steps, formulas, order, a, es, limits, outs),
    decreases b - a,
{
    if a < b {
        lemma_failure_settled(problem, steps, formulas, order, a, b - 1, es, limits, outs);
    }
}

/// A rule check answers only for the rules it handles.
proof fn lemma_checked_rule(
    rule: Seq<char>,
    node: Seq<char>,
    parents: Seq<Formula>,
    conclusion: Formula,
    limits: VerificationLimits,
    bc: Set<u32>,
    ba: Set<u32>,
    known: Set<u32>,
    r: Option<KernelVerdict>,
)
    requires
        clause_rule_outcome(rule, node, parents, conclusion, limits, bc, ba, known, r),
        r is Some,
    ensures
        checked_rule(rule, parents.len()),
{
}

/// The measurements of step `j`.
fn step_telemetry(step: &ProofStep, formula: &Formula, limits: VerificationLimits) -> (t: VerificationStepTelemetry)
    ensures
        telemetry_of(t, *step, *formula, limits),
{
    let rule = match &step.rule {
        Some(r) => Some(r.clone()),
        None => None,
    };
    let clause_literals = match clause_from_formula(formula, limits) {
        Some(c) => c.len(),
        None => 0,
    };
    VerificationStepTelemetry {
        name: step.name.clone(),
        rule,
        parent_count: step.parents.len(),
        formula_nodes: formula_size(formula),
        clause_literals,
    }
}

/// A step is not among its own parents in a topological order.
proof fn lemma_not_own_parent(pg: Seq<Seq<usize>>, order: Seq<usize>, k: int)
    requires
        topological(pg, order),
        0 <= k < order.len(),
    ensures
        !pg[order[k] as int].contains(order[k]),
{
    let j = order[k];
    if pg[j as int].contains(j) {
        let q = choose|q: int| 0 <= q < pg[j as int].len() && pg[j as int][q] == j;
        assert(order.take(k).contains(pg[order[k] as int][q]));
        let w = choose|w: int| 0 <= w < k && order.take(k)[w] == j;
        assert(order[w] == order[k]);
    }
}

/// The outcome when step `order[k]` is the first to fail.
#[verifier::rlimit(40)]
proof fn lemma_failing_step(
    problem: Seq<ProblemFormula>,
    steps: Seq<ProofStep>,
    fs: Seq<Formula>,
    order: Seq<usize>,
    k: int,
    es: Option<Seq<char>>,
    limits: VerificationLimits,
    outs: Seq<Option<KernelVerdict>>,
    v: VerdictView,
)
    requires
        structure_error(steps, fs, limits) is None,
        arity_clash(formulas_symbols(problem_formulas(problem))) is None,
        order == kahn_order(parent_graph(steps)),
        0 <= k < order.len(),
        outs.len() == steps.len(),
        forall|m: int| 0 <= m < k ==> (#[trigger] step_failure(problem, steps, fs, order, m, es, limits, outs)) is None,
        step_failure(problem, steps, fs, order, k, es, limits, outs) == Some(v),
        forall|m: int| 0 <= m <= k && arity_clash(symbols_through(problem, fs, order, m + 1)) is None
            && checked_step(steps, #[trigger] order[m] as int)
            ==> rule_check(problem, steps, fs, order[m] as int, limits, known_through(problem, fs, order, m), outs[order[m] as int]),
    ensures
        proof_outcome(problem, steps, fs, es, limits, outs, v),
{
    lemma_failure_none(problem, steps, fs, order, k, es, limits, outs);
    assert(first_failure(problem, steps, fs, order, k + 1, es, limits, outs) == Some(v));
    lemma_failure_settled(problem, steps, fs, order, k + 1, order.len() as int, es, limits, outs);
    assert forall|m: int| 0 <= m < order.len() && first_failure(problem, steps, fs, order, m, es, limits, outs) is None
        && arity_clash(symbols_through(problem, fs, order, m + 1)) is None
        && checked_step(steps, #[trigger] order[m] as int)
        implies rule_check(problem, steps, fs, order[m] as int, limits, known_through(problem, fs, order, m), outs[order[m] as int]) by {
        if m > k {
            lemma_failure_settled(problem, steps, fs, order, k + 1, m, es, limits, outs);
        }
    }
}

proof fn lemma_structure_rejects(steps: Seq<ProofStep>, j: int, k: int)
    ensures
        duplicate_from(steps, j) matches Some(e) ==> e is Rejected,
        unknown_parent_from(steps, j, k) matches Some(e) ==> e is Rejected,
    decreases steps.len() - j, 2int, steps[j].parents@.len() - k,
{
    if 0 <= j < steps.len() {
        lemma_structure_rejects(steps, j + 1, 0);
        if 0 <= k < steps[j].parents@.len() {
            lemma_structure_rejects(steps, j, k + 1);
        }
    }
}

/// A failing step is never certified.
proof fn lemma_node_error_fails(
    problem: Seq<ProblemFormula>,
    steps: Seq<ProofStep>,
    formulas: Seq<Formula>,
    j: int,
    es: Option<Seq<char>>,
    limits: VerificationLimits,
    out: Option<KernelVerdict>,
)
    ensures
        node_error(problem, steps, formulas, j, es, limits, out) matches Some(e) ==> !(e is Certified),
{
    reveal(node_error);
}

/// A topological order as long as the graph lists every node.
proof fn lemma_order_covers(pg: Seq<Seq<usize>>, order: Seq<usize>, i: int)
    requires
        topological(pg, order),
        order.len() == pg.len(),
        0 <= i < pg.len(),
    ensures
        exists|k: int| 0 <= k < order.len() && order[k] == i,
{
    let oi = order.map_values(|x: usize| x as int);
    let n = pg.len() as int;
    assert(oi.no_duplicates()) by {
        assert forall|a: int, b: int| 0 <= a < oi.len() && 0 <= b < oi.len() && a != b implies oi[a] != oi[b] by {
            assert(order[a] != order[b]);
        }
    }
    oi.unique_seq_to_set();
    let range = vstd::set_lib::set_int_range(0, n);
    vstd::set_lib::lemma_int_range(0, n);
    assert(oi.to_set().subset_of(range)) by {
        assert forall|x: int| oi.to_set().contains(x) implies range.contains(x) by {
            assert(oi.contains(x));
            let k = choose|k: int| 0 <= k < oi.len() && oi[k] == x;
            assert(order[k] < pg.len());
        }
    }
    vstd::set_lib::lemma_subset_equality(oi.to_set(), range);
    assert(range.contains(i));
    assert(oi.to_set().contains(i));
    assert(oi.contains(i));
    let k = choose|k: int| 0 <= k < oi.len() && oi[k] == i;
    assert(order[k] as int == i);
}

proof fn lemma_failure_not_certified(
    problem: Seq<ProblemFormula>,
    steps: Seq<ProofStep>,
    formulas: Seq<Formula>,
    order: Seq<usize>,
    n: int,
    es: Option<Seq<char>>,
    limits: VerificationLimits,
    outs: Seq<Option<KernelVerdict>>,
)
    ensures
        first_failure(problem, steps, formulas, order, n, es, limits, outs) matches Some(e) ==> !(e is Certified),
    decreases n,
{
    reveal(step_failure);
    if n > 0 {
        lemma_failure_not_certified(problem, steps, formulas, order, n - 1, es, limits, outs);
        lemma_node_error_fails(problem, steps, formulas, order[n - 1] as int, es, limits, outs[order[n - 1] as int]);
    }
}

proof fn lemma_step_failure_outs(
    problem: Seq<ProblemFormula>,
    steps: Seq<ProofStep>,
    formulas: Seq<Formula>,
    order: Seq<usize>,
    m: int,
    es: Option<Seq<char>>,
    limits: VerificationLimits,
    outs1: Seq<Option<KernelVerdict>>,
    outs2: Seq<Option<KernelVerdict>>,
)
    requires
        outs1[order[m] as int] == outs2[order[m] as int],
    ensures
        step_failure(problem, steps, formulas, order, m, es, limits, outs1)
            == step_failure(problem, steps, formulas, order, m, es, limits, outs2),
{
    reveal(step_failure);
}

proof fn lemma_source_node(
    problem: Seq<ProblemFormula>,
    steps: Seq<ProofStep>,
    formulas: Seq<Formula>,
    j: int,
    src: Seq<char>,
    limits: VerificationLimits,
    out: Option<KernelVerdict>,
)
    ensures
        node_error(problem, steps, formulas, j, Some(src), limits, out) is None
            ==> node_error(problem, steps, formulas, j, None, limits, out) is None,
        (steps[j].source matches Some(ls) ==> ls.file@ == src)
            ==> node_error(problem, steps, formulas, j, Some(src), limits, out)
                == node_error(problem, steps, formulas, j, None, limits, out),
{
    reveal(node_error);
}

proof fn lemma_source_failure(
    problem: Seq<ProblemFormula>,
    steps: Seq<ProofStep>,
    formulas: Seq<Formula>,
    order: Seq<usize>,
    n: int,
    src: Seq<char>,
    limits: VerificationLimits,
    outs: Seq<Option<KernelVerdict>>,
)
    ensures
        first_failure(problem, steps, formulas, order, n, Some(src), limits, outs) is None
            ==> first_failure(problem, steps, formulas, order, n, None, limits, outs) is None,
        (forall|j: int| 0 <= j < steps.len() ==> (#[trigger] steps[j].source matches Some(ls) ==> ls.file@ == src))
            && (forall|k: int| 0 <= k < n ==> 0 <= #[trigger] order[k] < steps.len())
            ==> first_failure(problem, steps, formulas, order, n, Some(src), limits, outs)
                == first_failure(problem, steps, formulas, order, n, None, limits, outs),
    decreases n,
{
    if n > 0 {
        reveal(step_failure);
        lemma_source_failure(problem, steps, formulas, order, n - 1, src, limits, outs);
        let j = order[n - 1] as int;
        lemma_source_node(problem, steps, formulas, j, src, limits, outs[j]);
    }
}

/// The expected source only narrows what is certified: a proof certified
/// when its leaves must cite `src` is certified when any source will do,
/// with the same answers of the rule checks; and when every leaf cites
/// `src`, asking for it changes no verdict.
pub proof fn lemma_expected_source(
    problem: Seq<ProblemFormula>,
    steps: Seq<ProofStep>,
    formulas: Seq<Formula>,
    src: Seq<char>,
    limits: VerificationLimits,
    outs: Seq<Option<KernelVerdict>>,
    v: VerdictView,
)
    ensures
        proof_outcome(problem, steps, formulas, Some(src), limits, outs, VerdictView::Certified)
            ==> proof_outcome(problem, steps, formulas, None, limits, outs, VerdictView::Certified),
        (forall|j: int| 0 <= j < steps.len() ==> (#[trigger] steps[j].source matches Some(ls) ==> ls.file@ == src))
            ==> (proof_outcome(problem, steps, formulas, Some(src), limits, outs, v)
                == proof_outcome(problem, steps, formulas, None, limits, outs, v)),
{
    if structure_error(steps, formulas, limits) is None {
        let order = kahn_order(parent_graph(steps));
        lemma_kahn_order_topological(parent_graph(steps));
        assert forall|k: int| 0 <= k < order.len() implies 0 <= #[trigger] order[k] < steps.len() by {}
        lemma_source_failure(problem, steps, formulas, order, order.len() as int, src, limits, outs);
        lemma_failure_not_certified(problem, steps, formulas, order, order.len() as int, Some(src), limits, outs);
        lemma_failure_not_certified(problem, steps, formulas, order, order.len() as int, None, limits, outs);
        assert forall|k: int| 0 <= k <= order.len() implies (first_failure(problem, steps, formulas, order, k, Some(src), limits, outs) is None
            ==> first_failure(problem, steps, formulas, order, k, None, limits, outs) is None) by {
            lemma_source_failure(problem, steps, formulas, order, k, src, limits, outs);
        }
        if proof_outcome(problem, steps, formulas, Some(src), limits, outs, VerdictView::Certified) {
            assert forall|k: int| 0 <= k < order.len() && first_failure(problem, steps, formulas, order, k, None, limits, outs) is None
                && arity_clash(symbols_through(problem, formulas, order, k + 1)) is None
                && checked_step(steps, #[trigger] order[k] as int)
                implies rule_check(problem, steps, formulas, order[k] as int, limits, known_through(problem, formulas, order, k), outs[order[k] as int]) by {
                lemma_failure_none(problem, steps, formulas, order, order.len() as int, Some(src), limits, outs);
                lemma_failure_none(problem, steps, formulas, order, k, Some(src), limits, outs);
            }
        }
        if forall|j: int| 0 <= j < steps.len() ==> (#[trigger] steps[j].source matches Some(ls) ==> ls.file@ == src) {
            assert forall|k: int| 0 <= k <= order.len() implies first_failure(problem, steps, formulas, order, k, Some(src), limits, outs)
                == first_failure(problem, steps, formulas, order, k, None, limits, outs) by {
                lemma_source_failure(problem, steps, formulas, order, k, src, limits, outs);
            }
        }
    }
}

/// Checks a whole refutation: the proof's shape (size, names, parents,
/// cycles, a `$false` root), then every step in dependency order. A leaf
/// must restate, as a clause up to renaming, a problem formula of the name
/// it cites, from the expected source file when one is given; an inference
/// step must cite a rule that a clause-rule check handles, with the status
/// that rule asks for, and pass that check. The verdict on the first
/// failing step is the proof's verdict. Also gives each step's
/// measurements, in checking order.
pub fn verify_proof(
    problem: &[ProblemFormula],
    steps: &Vec<ProofStep>,
    formulas: Vec<Formula>,
    expected_source: Option<&str>,
    limits: VerificationLimits,
) -> (r: (KernelVerdict, Vec<VerificationStepTelemetry>))
    requires
        formulas@.len() == steps@.len(),
    ensures
        exists|outs: Seq<Option<KernelVerdict>>| #[trigger] proof_outcome(problem@, steps@, formulas@,
            source_view(expected_source), limits, outs, r.0@),
        structure_error(steps@, formulas@, limits) is Some ==> r.1@.len() == 0,
        structure_error(steps@, formulas@, limits) is None ==> {
            let order = kahn_order(parent_graph(steps@));
            &&& r.1@.len() == order.len()
            &&& forall|k: int| 0 <= k < order.len() ==> telemetry_of(#[trigger] r.1@[k], steps@[order[k] as int],
                formulas@[order[k] as int], limits)
        },
        r.0@ is Certified ==> structure_error(steps@, formulas@, limits) is None
            && forall|j: int| 0 <= j < steps@.len() ==> (#[trigger] steps@[j]).source is Some
                || (steps@[j].rule matches Some(rule) && checked_rule(rule@, steps@[j].parents@.len())),
{
    let ghost fs = formulas@;
    let no_telemetry: Vec<VerificationStepTelemetry> = Vec::new();
    if steps.len() > limits.max_nodes {
        let mut text = String::from_str("proof has ");
        let a = decimal_text(steps.len());
        text.append(a.as_str());
        text.append(" formulas, exceeding limit ");
        let b = decimal_text(limits.max_nodes);
        text.append(b.as_str());
        let v = KernelVerdict::Inconclusive(text);
        assert(proof_outcome(problem@, steps@, fs, source_view(expected_source), limits, Seq::empty(), v@));
        return (v, no_telemetry);
    }
    if steps.len() == 0 {
        let v = inconclusive("proof contains no FOF/CNF nodes");
        assert(proof_outcome(problem@, steps@, fs, source_view(expected_source), limits, Seq::empty(), v@));
        return (v, no_telemetry);
    }
    proof {
        lemma_structure_rejects(steps@, 0, 0);
    }
    if let Some(v) = check_duplicates(steps) {
        assert(proof_outcome(problem@, steps@, fs, source_view(expected_source), limits, Seq::empty(), v@));
        return (v, no_telemetry);
    }
    let graph = match resolve_parents(steps) {
        Ok(g) => g,
        Err(v) => {
            assert(proof_outcome(problem@, steps@, fs, source_view(expected_source), limits, Seq::empty(), v@));
            return (v, no_telemetry);
        },
    };
    let order = match topo_sort(&graph) {
        Ok(o) => o,
        Err(v) => {
            assert(graph@.len() == steps@.len());
            assert(proof_outcome(problem@, steps@, fs, source_view(expected_source), limits, Seq::empty(), v@));
            return (v, no_telemetry);
        },
    };
    if !false_root(steps, &formulas) {
        let v = rejected("proof has no unparented `$false` root");
        assert(proof_outcome(problem@, steps@, fs, source_view(expected_source), limits, Seq::empty(), v@));
        return (v, no_telemetry);
    }
    let ghost pg = parent_graph(steps@);
    assert(structure_error(steps@, fs, limits) is None);
    proof {
        lemma_kahn_order_topological(pg);
    }
    let n = steps.len();
    let mut telemetry: Vec<VerificationStepTelemetry> = Vec::new();
    let mut t: usize = 0;
    while t < order.len()
        invariant
            0 <= t <= order@.len(),
            order@ == kahn_order(pg),
            topological(pg, order@),
            pg.len() == n,
            n == steps@.len(),
            fs == formulas@,
            fs.len() == n,
            telemetry@.len() == t,
            forall|k: int| 0 <= k < t ==> telemetry_of(#[trigger] telemetry@[k], steps@[order@[k] as int],
                fs[order@[k] as int], limits),
        decreases order.len() - t,
    {
        let j = order[t];
        assert(j < n);
        let entry = step_telemetry(&steps[j], &formulas[j], limits);
        telemetry.push(entry);
        t = t + 1;
    }
    let (comm, assoc) = background_symbols(problem, limits);
    let mut table: std::collections::HashMap<u32, usize> = std::collections::HashMap::new();
    let ghost pfs = problem_formulas(problem@);
    let mut pi: usize = 0;
    proof {
        assert(pfs.take(0) =~= Seq::<Formula>::empty());
        assert(table@ =~= Map::<u32, usize>::empty());
    }
    while pi < problem.len()
        invariant
            0 <= pi <= problem@.len(),
            pfs == problem_formulas(problem@),
            pfs.len() == problem@.len(),
            table_of(table@, formulas_symbols(pfs.take(pi as int))),
            arity_clash(formulas_symbols(pfs.take(pi as int))) is None,
            structure_error(steps@, fs, limits) is None,
            fs == formulas@,
            telemetry@.len() == order@.len(),
            order@ == kahn_order(pg),
            pg == parent_graph(steps@),
            forall|q: int| 0 <= q < order@.len() ==> telemetry_of(#[trigger] telemetry@[q], steps@[order@[q] as int],
                fs[order@[q] as int], limits),
        decreases problem.len() - pi,
    {
        let ghost before = formulas_symbols(pfs.take(pi as int));
        proof {
            assert(pfs.take(pi as int + 1).drop_last() == pfs.take(pi as int));
            assert(pfs[pi as int] == problem@[pi as int].formula);
        }
        match register_formula(&problem[pi].formula, &mut table, Ghost(before)) {
            Ok(()) => {},
            Err(c) => {
                let mut text = String::from_str("problem has inconsistent symbol signature: ");
                let reason = clash_reason(c);
                text.append(reason.as_str());
                let v = KernelVerdict::Rejected(text);
                proof {
                    assert(formulas_symbols(pfs.take(pi as int + 1)) == before + formula_symbols(pfs[pi as int]));
                    crate::signature::lemma_formulas_symbols_prefix(pfs, pi as int + 1);
                    let all = formulas_symbols(pfs);
                    let pre = formulas_symbols(pfs.take(pi as int + 1));
                    crate::signature::lemma_clash_prefix(pre, all.subrange(pre.len() as int, all.len() as int));
                    assert(proof_outcome(problem@, steps@, fs, source_view(expected_source), limits, Seq::empty(), v@));
                }
                return (v, telemetry);
            },
        }
        pi = pi + 1;
    }
    assert(pfs.take(problem@.len() as int) == pfs);
    let mut known: Vec<u32> = Vec::new();
    let mut qi: usize = 0;
    assert(known@.to_set() =~= formulas_funs(pfs.take(0)));
    while qi < problem.len()
        invariant
            0 <= qi <= problem@.len(),
            pfs == problem_formulas(problem@),
            pfs.len() == problem@.len(),
            known@.to_set() == formulas_funs(pfs.take(qi as int)),
        decreases problem.len() - qi,
    {
        proof {
            assert(pfs.take(qi as int + 1).drop_last() == pfs.take(qi as int));
            assert(pfs.take(qi as int + 1).last() == problem@[qi as int].formula);
        }
        collect_formula_funs(&problem[qi].formula, &mut known);
        qi = qi + 1;
    }
    proof {
        assert(pfs.take(problem@.len() as int) == pfs);
        assert(ordered_formulas(fs, order@, 0) =~= Seq::<Formula>::empty());
        assert(known@.to_set() =~= known_through(problem@, fs, order@, 0));
    }
    let mut slots: Vec<Option<Formula>> = Vec::new();
    let mut rest = formulas;
    while rest.len() > 0
        invariant
            slots@ + all_slots(rest@) == all_slots(fs),
        decreases rest.len(),
    {
        let ghost r0 = rest@;
        let f = rest.remove(0);
        let ghost before = slots@;
        slots.push(Some(f));
        proof {
            assert(slots@ + all_slots(rest@) =~= before + all_slots(r0));
        }
    }
    assert(all_slots(rest@) =~= Seq::<Option<Formula>>::empty());
    assert(slots@ =~= all_slots(fs));
    let ghost mut outs: Seq<Option<KernelVerdict>> = Seq::new(n as nat, |i: int| None::<KernelVerdict>);
    let mut k: usize = 0;
    while k < order.len()
        invariant
            0 <= k <= order@.len(),
            structure_error(steps@, fs, limits) is None,
            fs == formulas@,
            telemetry@.len() == order@.len(),
            forall|q: int| 0 <= q < order@.len() ==> telemetry_of(#[trigger] telemetry@[q], steps@[order@[q] as int],
                fs[order@[q] as int], limits),
            order@ == kahn_order(pg),
            order@.len() == n,
            topological(pg, order@),
            pg == parent_graph(steps@),
            lists_view(graph@) == pg,
            parents_in_range(pg),
            pg.len() == n,
            n == steps@.len(),
            fs.len() == n,
            slots@ == all_slots(fs),
            outs.len() == n,
            comm@.to_set() == background(problem@, limits, AcAxiomKind::Commutative),
            assoc@.to_set() == background(problem@, limits, AcAxiomKind::Associative),
            arity_clash(formulas_symbols(problem_formulas(problem@))) is None,
            known@.to_set() == known_through(problem@, fs, order@, k as int),
            table_of(table@, symbols_through(problem@, fs, order@, k as int)),
            arity_clash(symbols_through(problem@, fs, order@, k as int)) is None,
            forall|m: int| 0 <= m < k ==> (#[trigger] step_failure(problem@, steps@, fs, order@, m, source_view(expected_source), limits, outs)) is None,
            forall|m: int| 0 <= m < k && arity_clash(symbols_through(problem@, fs, order@, m + 1)) is None
                && checked_step(steps@, #[trigger] order@[m] as int)
                ==> rule_check(problem@, steps@, fs, order@[m] as int, limits, known_through(problem@, fs, order@, m), outs[order@[m] as int]),
        decreases order.len() - k,
    {
        let j = order[k];
        let ps = &graph[j];
        proof {
            lemma_not_own_parent(pg, order@, k as int);
            assert(ps@ == pg[j as int]);
            assert forall|q: int| 0 <= q < ps@.len() implies #[trigger] ps@[q] < steps@.len() by {
                assert(pg[j as int][q] < pg.len());
            }
        }
        let ghost seen = symbols_through(problem@, fs, order@, k as int);
        proof {
            assert(ordered_formulas(fs, order@, k as int + 1) =~= ordered_formulas(fs, order@, k as int).push(fs[j as int]));
            assert(ordered_formulas(fs, order@, k as int + 1).drop_last() == ordered_formulas(fs, order@, k as int));
            assert(symbols_through(problem@, fs, order@, k as int + 1) =~= seen + formula_symbols(fs[j as int]));
            assert(slots@[j as int] == Some(fs[j as int]));
        }
        let registered = match &slots[j] {
            Some(f) => register_formula(f, &mut table, Ghost(seen)),
            None => {
                assert(false);
                Ok(())
            },
        };
        if let Err(c) = registered {
            let mut text = String::from_str("proof node `");
            text.append(steps[j].name.as_str());
            text.append("` has inconsistent symbol signature: ");
            let reason = clash_reason(c);
            text.append(reason.as_str());
            let v = KernelVerdict::Rejected(text);
            proof {
                reveal(step_failure);
                assert(step_failure(problem@, steps@, fs, order@, k as int, source_view(expected_source), limits, outs) == Some(v@));
                lemma_failing_step(problem@, steps@, fs, order@, k as int, source_view(expected_source), limits, outs, v@);
            }
            return (v, telemetry);
        }
        let (e, out) = check_node(problem, steps, ps, j, &mut slots, expected_source, limits, &comm, &assoc, &known, Ghost(fs));
        let ghost prev = outs;
        proof {
            outs = outs.update(j as int, out@);
            assert forall|m: int| 0 <= m < k implies order@[m] != j by {
                assert(order@[m] != order@[k as int]);
            }
            assert forall|m: int| 0 <= m < k implies outs[order@[m] as int] == prev[order@[m] as int] by {
                assert(order@[m] != order@[k as int]);
            }
            assert forall|m: int| 0 <= m < k implies #[trigger] step_failure(problem@, steps@, fs, order@, m,
                source_view(expected_source), limits, outs) == step_failure(problem@, steps@, fs, order@, m,
                source_view(expected_source), limits, prev) by {
                assert(order@[m] != order@[k as int]);
                lemma_step_failure_outs(problem@, steps@, fs, order@, m, source_view(expected_source), limits, outs, prev);
            }
        }
        match e {
            Some(v) => {
                proof {
                    lemma_node_error_fails(problem@, steps@, fs, j as int, source_view(expected_source), limits, outs[j as int]);
                    assert(step_failure(problem@, steps@, fs, order@, k as int, source_view(expected_source), limits, outs) == Some(v@)) by {
                        reveal(step_failure);
                    }
                    lemma_failing_step(problem@, steps@, fs, order@, k as int, source_view(expected_source), limits, outs, v@);
                }
                return (v, telemetry);
            },
            None => {
                proof {
                    reveal(step_failure);
                    assert(step_failure(problem@, steps@, fs, order@, k as int, source_view(expected_source), limits, outs) is None);
                }
            },
        }
        match &slots[j] {
            Some(f) => {
                collect_formula_funs(f, &mut known);
            },
            None => {
                assert(false);
            },
        }
        proof {
            assert(ordered_formulas(fs, order@, k as int + 1).drop_last() == ordered_formulas(fs, order@, k as int));
            assert(ordered_formulas(fs, order@, k as int + 1).last() == fs[j as int]);
            assert(known@.to_set() =~= known_through(problem@, fs, order@, k as int + 1));
        }
        k = k + 1;
    }
    proof {
        let es = source_view(expected_source);
        lemma_failure_none(problem@, steps@, fs, order@, order@.len() as int, es, limits, outs);
        assert(proof_outcome(problem@, steps@, fs, es, limits, outs, VerdictView::Certified));
        assert forall|j: int| 0 <= j < steps@.len() implies (#[trigger] steps@[j]).source is Some
            || (steps@[j].rule matches Some(rule) && checked_rule(rule@, steps@[j].parents@.len())) by {
            lemma_order_covers(pg, order@, j);
            let k = choose|k: int| 0 <= k < order@.len() && order@[k] == j;
            if steps@[j].source is None {
                reveal(node_error);
                reveal(rule_check);
                reveal(step_failure);
                assert(step_failure(problem@, steps@, fs, order@, k, es, limits, outs) is None);
                assert(node_error(problem@, steps@, fs, j, es, limits, outs[j]) is None);
                assert(checked_step(steps@, j));
                let rule = steps@[j].rule->Some_0;
                lemma_checked_rule(rule@, steps@[j].name@, parent_formulas(steps@, fs, j), fs[j], limits,
                    background(problem@, limits, AcAxiomKind::Commutative),
                    background(problem@, limits, AcAxiomKind::Associative), known_through(problem@, fs, order@, k), outs[j]);
                assert(parent_formulas(steps@, fs, j).len() == steps@[j].parents@.len());
            }
        }
    }
    (KernelVerdict::Certified, telemetry)
}

} // verus!
