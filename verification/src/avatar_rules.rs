//! The AVATAR proof steps: case splits into components, the clauses that
//! name split branches by SAT variables, and branch refutations.
use vstd::prelude::*;
use crate::term::{Literal, Formula, SLiteral, clause_view};
use crate::verdict::{KernelVerdict, VerdictView, VerificationLimits, rejected, inconclusive};
use crate::clause::{clause_of, clause_from_formula, copy_literal, condensed, condense_clause};
use crate::text::{str_chars, token_is};
use crate::alpha::{clause_alpha, clause_alpha_equiv};
use crate::avatar::{avatar_var, normalized_of, normalize_avatar_vars, normalize_avatar_vars_copy, parse_avatar_var, lemma_normalized_canonical};
use crate::measure::{cap, formula_nodes, formula_size};
use crate::branch::{
    BranchAssumption, BranchContext, SAssumption, assumptions_view, copy_assumptions, split_markers, names_view,
    split_avatar_markers,
};

verus! {

/// The first literal of `c` that is an alpha-variant of `l`.
pub open spec fn first_variant_index(c: Seq<SLiteral>, l: SLiteral, k: int) -> bool {
    &&& 0 <= k < c.len()
    &&& clause_alpha(seq![c[k]], seq![l])
    &&& forall|j: int| 0 <= j < k ==> !clause_alpha(seq![c[j]], seq![l])
}

fn variant_position(c: &Vec<Literal>, l: &Literal) -> (r: Option<usize>)
    ensures
        match r {
            Some(k) => first_variant_index(clause_view(c@), l@, k as int),
            None => forall|j: int| 0 <= j < c@.len() ==> !clause_alpha(seq![clause_view(c@)[j]], seq![l@]),
        },
{
    let ghost cv = clause_view(c@);
    let mut i: usize = 0;
    while i < c.len()
        invariant
            0 <= i <= c.len(),
            cv == clause_view(c@),
            forall|j: int| 0 <= j < i ==> !clause_alpha(seq![cv[j]], seq![l@]),
        decreases c.len() - i,
    {
        let single = vec![copy_literal(&c[i])];
        let target = vec![copy_literal(l)];
        proof {
            assert(clause_view(single@) =~= seq![cv[i as int]]);
            assert(clause_view(target@) =~= seq![l@]);
        }
        if clause_alpha_equiv(&single, &target) {
            return Some(i);
        }
        i = i + 1;
    }
    None
}

/// The verdicts and contexts a `split_component` step may give.
pub open spec fn split_component_outcome(
    parents: Seq<Formula>,
    conclusion: Formula,
    split_parent: Option<usize>,
    limits: VerificationLimits,
    r: Result<BranchContext, KernelVerdict>,
) -> bool {
    if parents.len() != 1 {
        r matches Err(v) && v@ == VerdictView::Rejected("split_component must have one parent"@)
    } else if clause_of(parents[0], limits.max_clause_literals) is None {
        r matches Err(v) && v@ == VerdictView::Inconclusive("split_component parent is not a supported clause"@)
    } else if clause_of(conclusion, limits.max_clause_literals) is None {
        r matches Err(v) && v@ == VerdictView::Inconclusive("split_component conclusion is not a supported clause"@)
    } else {
        let pc = clause_of(parents[0], limits.max_clause_literals)->Some_0;
        let gc = clause_of(conclusion, limits.max_clause_literals)->Some_0;
        if gc.len() != 1 {
            r matches Err(v) && v@ == VerdictView::Rejected("split_component conclusion must be a unit literal"@)
        } else if forall|j: int| 0 <= j < pc.len() ==> !clause_alpha(seq![pc[j]], seq![gc[0]]) {
            r matches Err(v) && v@ == VerdictView::Rejected("split_component conclusion is not a literal of its parent"@)
        } else if split_parent is None {
            r matches Err(v) && v@ == VerdictView::Rejected("split_component has no parent index"@)
        } else {
            r matches Ok(ctx) && ctx.sat_context@.len() == 0 && exists|k: int| #[trigger] first_variant_index(pc, gc[0], k)
                && assumptions_view(ctx.assumptions@) == seq![SAssumption {
                    split_parent: split_parent->Some_0,
                    branch_index: k as usize,
                    literal: gc[0],
                    sat_var: None,
                }]
        }
    }
}

/// A case split: the conclusion is one literal of the parent clause, which
/// the branch then assumes.
pub fn verify_split_component(
    parents: &[Formula],
    conclusion: &Formula,
    split_parent: Option<usize>,
    limits: VerificationLimits,
) -> (r: Result<BranchContext, KernelVerdict>)
    ensures
        split_component_outcome(parents@, *conclusion, split_parent, limits, r),
{
    if parents.len() != 1 {
        return Err(rejected("split_component must have one parent"));
    }
    let parent_clause = match clause_from_formula(&parents[0], limits) {
        Some(c) => c,
        None => return Err(inconclusive("split_component parent is not a supported clause")),
    };
    let conclusion_clause = match clause_from_formula(conclusion, limits) {
        Some(c) => c,
        None => return Err(inconclusive("split_component conclusion is not a supported clause")),
    };
    if conclusion_clause.len() != 1 {
        return Err(rejected("split_component conclusion must be a unit literal"));
    }
    assert(clause_view(conclusion_clause@)[0] == conclusion_clause@[0]@);
    let branch_index = match variant_position(&parent_clause, &conclusion_clause[0]) {
        Some(k) => k,
        None => return Err(rejected("split_component conclusion is not a literal of its parent")),
    };
    let parent_index = match split_parent {
        Some(p) => p,
        None => return Err(rejected("split_component has no parent index")),
    };
    let literal = copy_literal(&conclusion_clause[0]);
    let assumption = BranchAssumption { split_parent: parent_index, branch_index, literal, sat_var: None };
    let ghost av = assumption@;
    let assumptions = vec![assumption];
    assert(assumptions_view(assumptions@) =~= seq![av]);
    Ok(BranchContext { assumptions, sat_context: Vec::new() })
}

/// The SAT variables named by marker names, when every name is valid.
pub open spec fn avatar_vars(names: Seq<Seq<char>>) -> Option<Seq<u32>>
    decreases names.len(),
{
    if names.len() == 0 {
        Some(Seq::empty())
    } else {
        match (avatar_vars(names.drop_last()), avatar_var(names.last())) {
            (Some(vs), Some(v)) => Some(vs.push(v)),
            _ => None,
        }
    }
}

/// Parses every marker name.
pub fn parse_avatar_vars(names: &Vec<String>) -> (r: Option<Vec<u32>>)
    ensures
        match avatar_vars(names_view(names@)) {
            Some(vs) => r matches Some(v) && v@ == vs,
            None => r is None,
        },
{
    let ghost nv = names_view(names@);
    let mut out: Vec<u32> = Vec::new();
    let mut i: usize = 0;
    while i < names.len()
        invariant
            0 <= i <= names.len(),
            nv == names_view(names@),
            avatar_vars(nv.take(i as int)) == Some(out@),
        decreases names.len() - i,
    {
        proof {
            assert(nv.take(i as int + 1).drop_last() =~= nv.take(i as int));
            assert(nv.take(i as int + 1).last() == names@[i as int]@);
        }
        match parse_avatar_var(names[i].as_str()) {
            Some(v) => out.push(v),
            None => {
                proof {
                    lemma_avatar_vars_fails(nv, i as int + 1);
                    assert(nv.take(nv.len() as int) =~= nv);
                }
                return None;
            },
        }
        i = i + 1;
    }
    assert(nv.take(nv.len() as int) =~= nv);
    Some(out)
}

proof fn lemma_avatar_vars_fails(names: Seq<Seq<char>>, k: int)
    requires
        0 <= k <= names.len(),
        avatar_vars(names.take(k)) is None,
    ensures
        avatar_vars(names.take(names.len() as int)) is None,
    decreases names.len() - k,
{
    if k < names.len() {
        assert(names.take(k + 1).drop_last() =~= names.take(k));
        lemma_avatar_vars_fails(names, k + 1);
    }
}

/// The record kept for node `key`, by its first entry.
pub open spec fn entry_at<T>(entries: Seq<(usize, T)>, key: usize) -> Option<T>
    decreases entries.len(),
{
    if entries.len() == 0 {
        None
    } else if entries[0].0 == key {
        Some(entries[0].1)
    } else {
        entry_at(entries.skip(1), key)
    }
}

pub fn find_entry<'a, T>(entries: &'a Vec<(usize, T)>, key: usize) -> (r: Option<&'a T>)
    ensures
        match entry_at(entries@, key) {
            Some(c) => r matches Some(x) && *x == c,
            None => r is None,
        },
        r matches Some(x) ==> exists|i: int| 0 <= i < entries@.len() && (#[trigger] entries@[i]).1 == *x,
{
    let mut i: usize = 0;
    assert(entries@.skip(0) =~= entries@);
    while i < entries.len()
        invariant
            0 <= i <= entries.len(),
            entry_at(entries@, key) == entry_at(entries@.skip(i as int), key),
        decreases entries.len() - i,
    {
        assert(entries@.skip(i as int)[0] == entries@[i as int]);
        if entries[i].0 == key {
            return Some(&entries[i].1);
        }
        assert(entries@.skip(i as int).skip(1) =~= entries@.skip(i as int + 1));
        i = i + 1;
    }
    None
}

fn same_vars(a: &Vec<u32>, b: &Vec<u32>) -> (r: bool)
    ensures
        r == (a@ == b@),
{
    if a.len() != b.len() {
        return false;
    }
    let mut i: usize = 0;
    while i < a.len()
        invariant
            0 <= i <= a.len(),
            a@.len() == b@.len(),
            forall|k: int| 0 <= k < i ==> a@[k] == b@[k],
        decreases a.len() - i,
    {
        if a[i] != b[i] {
            return false;
        }
        i = i + 1;
    }
    assert(a@ =~= b@);
    true
}

/// The verdicts and contexts an `avatar_branch_refutation` step may give:
/// it closes a branch whose parent is false once its markers are read as
/// the branch's SAT context.
pub open spec fn branch_refutation_outcome(
    parents: Seq<Formula>,
    conclusion: Formula,
    parent_index: Option<usize>,
    contexts: Seq<(usize, BranchContext)>,
    annotation: Option<Seq<Seq<char>>>,
    names: Seq<Seq<char>>,
    limits: VerificationLimits,
    r: Result<BranchContext, KernelVerdict>,
) -> bool {
    if parents.len() != 1 || !(conclusion is False) {
        r matches Err(v) && v@ == VerdictView::Rejected("avatar_branch_refutation must derive `$false` from one branch root"@)
    } else if parent_index is None {
        r matches Err(v) && v@ == VerdictView::Rejected("avatar_branch_refutation has no branch parent"@)
    } else if entry_at(contexts, parent_index->Some_0) is None {
        r matches Err(v) && v@ == VerdictView::Rejected("avatar_branch_refutation parent has no branch context"@)
    } else if annotation is None {
        r matches Err(v) && v@ == VerdictView::Inconclusive("avatar_branch_refutation lacks explicit SAT context"@)
    } else if avatar_vars(annotation->Some_0) is None {
        r matches Err(v) && v@ == VerdictView::Rejected("avatar_branch_refutation has invalid SAT context"@)
    } else {
        let context = entry_at(contexts, parent_index->Some_0)->Some_0;
        let sat = context.sat_context@;
        if !normalized_of(sat, avatar_vars(annotation->Some_0)->Some_0) {
            r matches Err(v) && v@ == VerdictView::Rejected("avatar_branch_refutation SAT context does not match its branch"@)
        } else if cap(formula_nodes(parents[0])) > limits.max_formula_nodes {
            r matches Err(v) && v@ == VerdictView::Inconclusive("avatar_branch_refutation exceeded strict formula-size limit"@)
        } else if clause_of(parents[0], limits.max_clause_literals) is None {
            r matches Err(v) && v@ == VerdictView::Inconclusive("avatar_branch_refutation parent is not a supported clause"@)
        } else if split_markers(clause_of(parents[0], limits.max_clause_literals)->Some_0, names) is None {
            r matches Err(v) && v@ == VerdictView::Rejected("avatar_branch_refutation parent has invalid markers"@)
        } else {
            let (o, n, p) = split_markers(clause_of(parents[0], limits.max_clause_literals)->Some_0, names)->Some_0;
            if o.len() != 0 || p.len() != 0 || !normalized_of(sat, n) {
                r matches Err(v) && v@ == VerdictView::Rejected("avatar_branch_refutation parent is not false under its SAT context"@)
            } else {
                r matches Ok(c) && assumptions_view(c.assumptions@) == assumptions_view(context.assumptions@)
                    && c.sat_context@ == sat
            }
        }
    }
}

/// An AVATAR branch refutation: the branch root is false under its SAT
/// context, which the annotation states.
pub fn verify_avatar_branch_refutation(
    parents: &[Formula],
    conclusion: &Formula,
    parent_index: Option<usize>,
    contexts: &Vec<(usize, BranchContext)>,
    annotation: Option<&Vec<String>>,
    names: &Vec<String>,
    limits: VerificationLimits,
) -> (r: Result<BranchContext, KernelVerdict>)
    ensures
        branch_refutation_outcome(
            parents@,
            *conclusion,
            parent_index,
            contexts@,
            match annotation {
                Some(a) => Some(names_view(a@)),
                None => None,
            },
            names_view(names@),
            limits,
            r,
        ),
{
    let is_false = match conclusion {
        Formula::False => true,
        _ => false,
    };
    if parents.len() != 1 || !is_false {
        return Err(rejected("avatar_branch_refutation must derive `$false` from one branch root"));
    }
    let index = match parent_index {
        Some(i) => i,
        None => return Err(rejected("avatar_branch_refutation has no branch parent")),
    };
    let context = match find_entry(contexts, index) {
        Some(c) => c,
        None => return Err(rejected("avatar_branch_refutation parent has no branch context")),
    };
    let annotated = match annotation {
        Some(a) => a,
        None => return Err(inconclusive("avatar_branch_refutation lacks explicit SAT context")),
    };
    let vars = match parse_avatar_vars(annotated) {
        Some(v) => v,
        None => return Err(rejected("avatar_branch_refutation has invalid SAT context")),
    };
    let ghost vv = vars@;
    let normalized = normalize_avatar_vars_copy(vars);
    proof {
        lemma_normalized_canonical(vv, normalized@, context.sat_context@);
    }
    if !same_vars(&normalized, &context.sat_context) {
        return Err(rejected("avatar_branch_refutation SAT context does not match its branch"));
    }
    if formula_size(&parents[0]) > limits.max_formula_nodes {
        return Err(inconclusive("avatar_branch_refutation exceeded strict formula-size limit"));
    }
    let parent_clause = match clause_from_formula(&parents[0], limits) {
        Some(c) => c,
        None => return Err(inconclusive("avatar_branch_refutation parent is not a supported clause")),
    };
    let (ordinary, negative, positive) = match split_avatar_markers(parent_clause, names) {
        Ok(x) => x,
        Err(_) => return Err(rejected("avatar_branch_refutation parent has invalid markers")),
    };
    proof {
        let n = split_markers(clause_of(parents@[0], limits.max_clause_literals)->Some_0, names_view(names@))->Some_0.1;
        lemma_normalized_canonical(n, negative@, context.sat_context@);
    }
    if ordinary.len() != 0 || positive.len() != 0 || !same_vars(&negative, &context.sat_context) {
        return Err(rejected("avatar_branch_refutation parent is not false under its SAT context"));
    }
    let assumptions = copy_assumptions(&context.assumptions);
    let mut sat_context: Vec<u32> = Vec::new();
    let mut k: usize = 0;
    while k < context.sat_context.len()
        invariant
            0 <= k <= context.sat_context.len(),
            sat_context@ == context.sat_context@.take(k as int),
        decreases context.sat_context.len() - k,
    {
        sat_context.push(context.sat_context[k]);
        k = k + 1;
        assert(sat_context@ =~= context.sat_context@.take(k as int));
    }
    assert(context.sat_context@.take(context.sat_context@.len() as int) =~= context.sat_context@);
    Ok(BranchContext { assumptions, sat_context })
}

/// One component of a split: its branch, the SAT variable naming it and
/// the parent literals it takes.
pub struct SplitComponent {
    pub branch_index: usize,
    pub sat_var: String,
    pub literal_indices: Vec<usize>,
}

/// The branch metadata of an `avatar_split_clause` step.
pub struct AvatarSplitInfo {
    pub components: Vec<SplitComponent>,
    pub inherited: Vec<String>,
}

/// What a validated split records: the split parent node, the parent's
/// ordinary literals, the SAT variable of each branch, the parent literals
/// of each branch's component, and the context it inherits.
pub struct AvatarSplitContext {
    pub split_parent: usize,
    pub parent_literals: Vec<Literal>,
    pub branch_vars: Vec<u32>,
    pub component_literal_indices: Vec<Vec<usize>>,
    pub inherited_vars: Vec<u32>,
    pub inherited_assumptions: Vec<BranchAssumption>,
}

/// The component metadata fits a split of `n_literals` parent literals into
/// branches named by `split_vars`: one component per branch, each with the
/// branch's variable, and the components partition the parent literals.
pub open spec fn split_metadata_ok(n_literals: nat, split_vars: Seq<u32>, comps: Seq<SplitComponent>) -> bool {
    &&& comps.len() == split_vars.len()
    &&& forall|k: int| 0 <= k < comps.len() ==> {
        &&& (#[trigger] comps[k]).branch_index < split_vars.len()
        &&& comps[k].literal_indices@.len() > 0
        &&& avatar_var(comps[k].sat_var@) == Some(split_vars[comps[k].branch_index as int])
        &&& forall|j: int| 0 <= j < comps[k].literal_indices@.len() ==> comps[k].literal_indices@[j] < n_literals
    }
    &&& forall|k1: int, k2: int| 0 <= k1 < k2 < comps.len() ==> #[trigger] comps[k1].branch_index != #[trigger] comps[k2].branch_index
    &&& forall|k1: int, k2: int| 0 <= k1 < k2 < comps.len() ==> avatar_var(#[trigger] comps[k1].sat_var@) != avatar_var(#[trigger] comps[k2].sat_var@)
    &&& forall|b: int| 0 <= b < split_vars.len() ==> #[trigger] branch_covered(comps, b)
    &&& forall|k1: int, j1: int, k2: int, j2: int|
        0 <= k1 < comps.len() && 0 <= k2 < comps.len() && 0 <= j1 < comps[k1].literal_indices@.len()
            && 0 <= j2 < comps[k2].literal_indices@.len() && (k1 != k2 || j1 != j2)
            ==> #[trigger] comps[k1].literal_indices@[j1] != #[trigger] comps[k2].literal_indices@[j2]
    &&& forall|i: int| 0 <= i < n_literals ==> #[trigger] literal_covered(comps, i)
}

/// Some component is for branch `b`.
pub open spec fn branch_covered(comps: Seq<SplitComponent>, b: int) -> bool {
    exists|k: int| 0 <= k < comps.len() && #[trigger] comps[k].branch_index == b
}

/// Some component takes parent literal `i`.
pub open spec fn literal_covered(comps: Seq<SplitComponent>, i: int) -> bool {
    exists|k: int, j: int| 0 <= k < comps.len() && 0 <= j < comps[k].literal_indices@.len()
        && #[trigger] comps[k].literal_indices@[j] == i
}

/// One component is well formed on its own.
pub open spec fn component_ok(c: SplitComponent, split_vars: Seq<u32>, n_literals: nat) -> bool {
    &&& c.branch_index < split_vars.len()
    &&& c.literal_indices@.len() > 0
    &&& avatar_var(c.sat_var@) == Some(split_vars[c.branch_index as int])
    &&& forall|j: int| 0 <= j < c.literal_indices@.len() ==> c.literal_indices@[j] < n_literals
}

fn contains_var(vars: &Vec<u32>, v: u32) -> (r: bool)
    ensures
        r == vars@.contains(v),
{
    let mut i: usize = 0;
    while i < vars.len()
        invariant
            0 <= i <= vars.len(),
            forall|k: int| 0 <= k < i ==> vars@[k] != v,
        decreases vars.len() - i,
    {
        if vars[i] == v {
            assert(vars@[i as int] == v);
            return true;
        }
        i = i + 1;
    }
    false
}

fn all_below_bound(indices: &Vec<usize>, n: usize) -> (r: bool)
    ensures
        r == forall|j: int| 0 <= j < indices@.len() ==> indices@[j] < n,
{
    let mut i: usize = 0;
    while i < indices.len()
        invariant
            0 <= i <= indices.len(),
            forall|j: int| 0 <= j < i ==> indices@[j] < n,
        decreases indices.len() - i,
    {
        if indices[i] >= n {
            return false;
        }
        i = i + 1;
    }
    true
}

fn copy_indices(v: &Vec<usize>) -> (r: Vec<usize>)
    ensures
        r@ == v@,
{
    let mut out: Vec<usize> = Vec::new();
    let mut i: usize = 0;
    while i < v.len()
        invariant
            0 <= i <= v.len(),
            out@ == v@.take(i as int),
        decreases v.len() - i,
    {
        out.push(v[i]);
        i = i + 1;
        assert(out@ =~= v@.take(i as int));
    }
    assert(v@.take(v@.len() as int) =~= v@);
    out
}

/// Checks the component metadata of a split; on success gives the SAT
/// variable and the parent literal indices of each branch.
fn check_split_components(
    n_literals: usize,
    split_vars: &Vec<u32>,
    comps: &Vec<SplitComponent>,
) -> (r: Result<(Vec<u32>, Vec<Vec<usize>>), KernelVerdict>)
    requires
        comps@.len() == split_vars@.len(),
    ensures
        r is Ok <==> split_metadata_ok(n_literals as nat, split_vars@, comps@),
        r matches Ok((bv, cli)) ==> bv@ == split_vars@ && cli@.len() == split_vars@.len()
            && forall|k: int| 0 <= k < comps@.len()
                ==> cli@[(#[trigger] comps@[k]).branch_index as int]@ == comps@[k].literal_indices@,
        r matches Ok((bv, cli)) ==> forall|b: int, j: int| 0 <= b < cli@.len() && 0 <= j < cli@[b]@.len()
            ==> #[trigger] cli@[b]@[j] < n_literals,
        r matches Err(v) ==> v@ == VerdictView::Rejected("avatar_split_clause has invalid branch indices"@)
            || v@ == VerdictView::Rejected("avatar_split_clause has an invalid SAT variable"@)
            || v@ == VerdictView::Rejected("avatar_split_clause reuses a SAT variable"@)
            || v@ == VerdictView::Rejected("avatar_split_clause metadata does not match its split literal"@)
            || v@ == VerdictView::Rejected("avatar_split_clause references an out-of-range literal"@)
            || v@ == VerdictView::Rejected("avatar_split_clause contains duplicate or missing branches"@)
            || v@ == VerdictView::Rejected("avatar_split_clause assigns a literal to multiple components"@)
            || v@ == VerdictView::Rejected("avatar_split_clause does not cover every parent literal"@),
{
    let n = split_vars.len();
    let ghost sv = split_vars@;
    let ghost cs = comps@;
    let mut seen_index: Vec<bool> = Vec::new();
    let mut branch_vars: Vec<u32> = Vec::new();
    let mut indices: Vec<Vec<usize>> = Vec::new();
    let mut b: usize = 0;
    while b < n
        invariant
            0 <= b <= n,
            n == split_vars@.len(),
            seen_index@.len() == b,
            branch_vars@.len() == b,
            indices@.len() == b,
            forall|x: int| 0 <= x < b ==> !seen_index@[x] && branch_vars@[x] == 0 && indices@[x]@.len() == 0,
        decreases n - b,
    {
        seen_index.push(false);
        branch_vars.push(0);
        indices.push(Vec::new());
        b = b + 1;
    }
    let mut seen_vars: Vec<u32> = Vec::new();
    let ghost mut owner: Seq<int> = Seq::new(n as nat, |x: int| -1);
    let mut k: usize = 0;
    while k < comps.len()
        invariant
            0 <= k <= comps@.len(),
            n == split_vars@.len(),
            sv == split_vars@,
            cs == comps@,
            comps@.len() == n,
            seen_index@.len() == n,
            branch_vars@.len() == n,
            indices@.len() == n,
            owner.len() == n,
            seen_vars@.len() == k,
            forall|k2: int| 0 <= k2 < k ==> avatar_var(cs[k2].sat_var@) == Some(#[trigger] seen_vars@[k2]),
            forall|k2: int| 0 <= k2 < k ==> component_ok(#[trigger] cs[k2], sv, n_literals as nat),
            forall|k1: int, k2: int| 0 <= k1 < k2 < k ==> #[trigger] cs[k1].branch_index != #[trigger] cs[k2].branch_index,
            forall|k1: int, k2: int| 0 <= k1 < k2 < k ==> avatar_var(#[trigger] cs[k1].sat_var@) != avatar_var(#[trigger] cs[k2].sat_var@),
            forall|x: int| 0 <= x < n ==> (seen_index@[x] <==> #[trigger] owner[x] >= 0),
            forall|x: int| 0 <= x < n && #[trigger] owner[x] >= 0 ==> owner[x] < k && cs[owner[x]].branch_index == x
                && branch_vars@[x] == sv[x] && indices@[x]@ == cs[owner[x]].literal_indices@,
            forall|x: int| 0 <= x < n && #[trigger] owner[x] < 0 ==> branch_vars@[x] == 0
                && forall|k2: int| 0 <= k2 < k ==> cs[k2].branch_index != x,
        decreases comps.len() - k,
    {
        let c = &comps[k];
        let bi = c.branch_index;
        if bi >= n || seen_index[bi] || c.literal_indices.len() == 0 {
            proof {
                if bi < n && seen_index@[bi as int] {
                    let k1 = owner[bi as int];
                    assert(cs[k1].branch_index == cs[k as int].branch_index);
                }
                assert(!component_ok(cs[k as int], sv, n_literals as nat) || !split_metadata_ok(n_literals as nat, sv, cs));
            }
            return Err(rejected("avatar_split_clause has invalid branch indices"));
        }
        let var = match parse_avatar_var(c.sat_var.as_str()) {
            Some(v) => v,
            None => {
                assert(!component_ok(cs[k as int], sv, n_literals as nat));
                return Err(rejected("avatar_split_clause has an invalid SAT variable"));
            },
        };
        if contains_var(&seen_vars, var) {
            proof {
                let k1 = choose|k1: int| 0 <= k1 < seen_vars@.len() && seen_vars@[k1] == var;
                assert(avatar_var(cs[k1].sat_var@) == avatar_var(cs[k as int].sat_var@));
            }
            return Err(rejected("avatar_split_clause reuses a SAT variable"));
        }
        if split_vars[bi] != var {
            assert(!component_ok(cs[k as int], sv, n_literals as nat));
            return Err(rejected("avatar_split_clause metadata does not match its split literal"));
        }
        if !all_below_bound(&c.literal_indices, n_literals) {
            assert(!component_ok(cs[k as int], sv, n_literals as nat));
            return Err(rejected("avatar_split_clause references an out-of-range literal"));
        }
        proof {
            assert(component_ok(cs[k as int], sv, n_literals as nat));
            assert forall|k1: int| 0 <= k1 < k implies #[trigger] cs[k1].branch_index != cs[k as int].branch_index by {
                if cs[k1].branch_index == cs[k as int].branch_index {
                    assert(owner[bi as int] >= 0);
                }
            }
            assert forall|k1: int| 0 <= k1 < k implies avatar_var(#[trigger] cs[k1].sat_var@) != avatar_var(cs[k as int].sat_var@) by {
                assert(seen_vars@[k1] != var) by {
                    if seen_vars@[k1] == var {
                        assert(seen_vars@.contains(var));
                    }
                }
            }
        }
        seen_index.set(bi, true);
        seen_vars.push(var);
        branch_vars.set(bi, var);
        let copied = copy_indices(&c.literal_indices);
        indices.set(bi, copied);
        proof {
            owner = owner.update(bi as int, k as int);
        }
        k = k + 1;
    }
    let mut x: usize = 0;
    while x < n
        invariant
            0 <= x <= n,
            n == split_vars@.len(),
            branch_vars@.len() == n,
            owner.len() == n,
            comps@.len() == n,
            cs == comps@,
            forall|y: int| 0 <= y < x ==> #[trigger] owner[y] >= 0,
            forall|y: int| 0 <= y < n && #[trigger] owner[y] >= 0 ==> owner[y] < n && cs[owner[y]].branch_index == y
                && branch_vars@[y] == sv[y],
            forall|y: int| 0 <= y < n && #[trigger] owner[y] < 0 ==> branch_vars@[y] == 0
                && forall|k2: int| 0 <= k2 < n ==> cs[k2].branch_index != y,
            forall|k2: int| 0 <= k2 < n ==> component_ok(#[trigger] cs[k2], sv, n_literals as nat),
        decreases n - x,
    {
        if branch_vars[x] == 0 {
            proof {
                if owner[x as int] >= 0 {
                    let k1 = owner[x as int];
                    assert(component_ok(cs[k1], sv, n_literals as nat));
                    assert(avatar_var(cs[k1].sat_var@) == Some(sv[x as int]));
                }
                assert(!branch_covered(cs, x as int));
            }
            return Err(rejected("avatar_split_clause contains duplicate or missing branches"));
        }
        proof {
            if owner[x as int] < 0 {
                assert(false);
            }
        }
        x = x + 1;
    }
    proof {
        assert forall|b: int| 0 <= b < sv.len() implies #[trigger] branch_covered(cs, b) by {
            assert(cs[owner[b]].branch_index == b);
        }
        assert forall|k1: int| 0 <= k1 < n implies indices@[(#[trigger] cs[k1]).branch_index as int]@
            == cs[k1].literal_indices@ by {
            let b = cs[k1].branch_index as int;
            assert(component_ok(cs[k1], sv, n_literals as nat));
            assert(owner[b] >= 0);
            let k2 = owner[b];
            if k2 < k1 {
                assert(cs[k2].branch_index != cs[k1].branch_index);
            } else if k1 < k2 {
                assert(cs[k1].branch_index != cs[k2].branch_index);
            }
        }
        assert forall|b: int, j: int| 0 <= b < n && 0 <= j < indices@[b]@.len()
            implies #[trigger] indices@[b]@[j] < n_literals by {
            let k1 = owner[b];
            assert(owner[b] >= 0);
            assert(component_ok(cs[k1], sv, n_literals as nat));
        }
        assert forall|y: int| 0 <= y < n implies branch_vars@[y] == sv[y] by {
            assert(owner[y] >= 0);
        }
        assert(branch_vars@ =~= sv);
    }
    let mut covered: Vec<bool> = Vec::new();
    let mut i: usize = 0;
    while i < n_literals
        invariant
            0 <= i <= n_literals,
            covered@.len() == i,
            forall|y: int| 0 <= y < i ==> !covered@[y],
        decreases n_literals - i,
    {
        covered.push(false);
        i = i + 1;
    }
    let ghost mut at: Seq<(int, int)> = Seq::new(n_literals as nat, |y: int| (-1int, -1int));
    let mut k: usize = 0;
    while k < comps.len()
        invariant
            0 <= k <= comps@.len(),
            cs == comps@,
            comps@.len() == n,
            covered@.len() == n_literals,
            at.len() == n_literals,
            forall|k2: int| 0 <= k2 < n ==> component_ok(#[trigger] cs[k2], sv, n_literals as nat),
            forall|y: int| 0 <= y < n_literals ==> (covered@[y] <==> (#[trigger] at[y]).0 >= 0),
            forall|y: int| 0 <= y < n_literals && (#[trigger] at[y]).0 >= 0 ==> at[y].0 < k
                && 0 <= at[y].1 < cs[at[y].0].literal_indices@.len() && cs[at[y].0].literal_indices@[at[y].1] == y,
            forall|k1: int, j1: int| 0 <= k1 < k && 0 <= j1 < cs[k1].literal_indices@.len()
                ==> #[trigger] at[cs[k1].literal_indices@[j1] as int] == (k1, j1),
        decreases comps.len() - k,
    {
        let idxs = &comps[k].literal_indices;
        let mut j: usize = 0;
        while j < idxs.len()
            invariant
                0 <= k < comps@.len(),
                0 <= j <= idxs@.len(),
                *idxs == cs[k as int].literal_indices,
                cs == comps@,
                comps@.len() == n,
                covered@.len() == n_literals,
                at.len() == n_literals,
                forall|k2: int| 0 <= k2 < n ==> component_ok(#[trigger] cs[k2], sv, n_literals as nat),
                forall|y: int| 0 <= y < n_literals ==> (covered@[y] <==> (#[trigger] at[y]).0 >= 0),
                forall|y: int| 0 <= y < n_literals && (#[trigger] at[y]).0 >= 0 ==> (at[y].0 < k || (at[y].0 == k && at[y].1 < j))
                    && 0 <= at[y].1 < cs[at[y].0].literal_indices@.len() && cs[at[y].0].literal_indices@[at[y].1] == y,
                forall|k1: int, j1: int| 0 <= k1 < k && 0 <= j1 < cs[k1].literal_indices@.len()
                    ==> #[trigger] at[cs[k1].literal_indices@[j1] as int] == (k1, j1),
                forall|j1: int| 0 <= j1 < j ==> #[trigger] at[cs[k as int].literal_indices@[j1] as int] == (k as int, j1),
            decreases idxs@.len() - j,
        {
            let idx = idxs[j];
            assert(component_ok(cs[k as int], sv, n_literals as nat));
            if covered[idx] {
                proof {
                    let (k1, j1) = at[idx as int];
                    assert(cs[k1].literal_indices@[j1] == cs[k as int].literal_indices@[j as int]);
                    assert(!split_metadata_ok(n_literals as nat, sv, cs));
                }
                return Err(rejected("avatar_split_clause assigns a literal to multiple components"));
            }
            covered.set(idx, true);
            proof {
                at = at.update(idx as int, (k as int, j as int));
            }
            j = j + 1;
        }
        k = k + 1;
    }
    let mut y: usize = 0;
    while y < n_literals
        invariant
            0 <= y <= n_literals,
            covered@.len() == n_literals,
            at.len() == n_literals,
            cs == comps@,
            comps@.len() == n,
            forall|z: int| 0 <= z < y ==> covered@[z],
            forall|z: int| 0 <= z < n_literals ==> (covered@[z] <==> (#[trigger] at[z]).0 >= 0),
            forall|z: int| 0 <= z < n_literals && (#[trigger] at[z]).0 >= 0 ==> at[z].0 < n
                && 0 <= at[z].1 < cs[at[z].0].literal_indices@.len() && cs[at[z].0].literal_indices@[at[z].1] == z,
            forall|k1: int, j1: int| 0 <= k1 < n && 0 <= j1 < cs[k1].literal_indices@.len()
                ==> #[trigger] at[cs[k1].literal_indices@[j1] as int] == (k1, j1),
        decreases n_literals - y,
    {
        if !covered[y] {
            proof {
                assert(!literal_covered(cs, y as int)) by {
                    if literal_covered(cs, y as int) {
                        let (k1, j1) = choose|k1: int, j1: int| 0 <= k1 < cs.len() && 0 <= j1 < cs[k1].literal_indices@.len()
                            && #[trigger] cs[k1].literal_indices@[j1] == y as int;
                        assert(at[cs[k1].literal_indices@[j1] as int] == (k1, j1));
                    }
                }
            }
            return Err(rejected("avatar_split_clause does not cover every parent literal"));
        }
        y = y + 1;
    }
    proof {
        assert forall|z: int| 0 <= z < n_literals implies #[trigger] literal_covered(cs, z) by {
            let (k1, j1) = at[z];
            assert(cs[k1].literal_indices@[j1] == z);
        }
        assert forall|k1: int, j1: int, k2: int, j2: int|
            0 <= k1 < cs.len() && 0 <= k2 < cs.len() && 0 <= j1 < cs[k1].literal_indices@.len()
                && 0 <= j2 < cs[k2].literal_indices@.len() && (k1 != k2 || j1 != j2)
                implies #[trigger] cs[k1].literal_indices@[j1] != #[trigger] cs[k2].literal_indices@[j2] by {
            if cs[k1].literal_indices@[j1] == cs[k2].literal_indices@[j2] {
                assert(at[cs[k1].literal_indices@[j1] as int] == (k1, j1));
                assert(at[cs[k2].literal_indices@[j2] as int] == (k2, j2));
            }
        }
    }
    Ok((branch_vars, indices))
}

/// A split record whose branch components index its parent literals.
pub open spec fn split_context_wf(c: AvatarSplitContext) -> bool {
    &&& c.component_literal_indices@.len() == c.branch_vars@.len()
    &&& forall|b: int, j: int| 0 <= b < c.component_literal_indices@.len()
        && 0 <= j < c.component_literal_indices@[b]@.len()
        ==> #[trigger] c.component_literal_indices@[b]@[j] < c.parent_literals@.len()
}

/// The verdicts a split's component metadata may be refused with.
pub open spec fn split_component_error(v: VerdictView) -> bool {
    ||| v == VerdictView::Rejected("avatar_split_clause has invalid branch indices"@)
    ||| v == VerdictView::Rejected("avatar_split_clause has an invalid SAT variable"@)
    ||| v == VerdictView::Rejected("avatar_split_clause reuses a SAT variable"@)
    ||| v == VerdictView::Rejected("avatar_split_clause metadata does not match its split literal"@)
    ||| v == VerdictView::Rejected("avatar_split_clause references an out-of-range literal"@)
    ||| v == VerdictView::Rejected("avatar_split_clause contains duplicate or missing branches"@)
    ||| v == VerdictView::Rejected("avatar_split_clause assigns a literal to multiple components"@)
    ||| v == VerdictView::Rejected("avatar_split_clause does not cover every parent literal"@)
}

/// The record of a validated split: the split node, the parent's ordinary
/// literals, the branch variables in branch order, each branch's parent
/// literal indices as its component gives them, the inherited variables and
/// the inherited assumptions.
pub open spec fn split_context_is(
    c: AvatarSplitContext,
    split_parent: usize,
    parent: Seq<SLiteral>,
    branch_vars: Seq<u32>,
    comps: Seq<SplitComponent>,
    inherited_vars: Seq<u32>,
    inherited_assumptions: Seq<SAssumption>,
) -> bool {
    &&& c.split_parent == split_parent
    &&& clause_view(c.parent_literals@) == parent
    &&& c.branch_vars@ == branch_vars
    &&& c.component_literal_indices@.len() == branch_vars.len()
    &&& forall|k: int| 0 <= k < comps.len()
        ==> c.component_literal_indices@[(#[trigger] comps[k]).branch_index as int]@ == comps[k].literal_indices@
    &&& c.inherited_vars@ == inherited_vars
    &&& assumptions_view(c.inherited_assumptions@) == inherited_assumptions
}

/// The verdicts and records an `avatar_split_clause` step may give: the
/// parent is a marker-free-positive clause of at least two literals, the
/// conclusion is its split clause (only positive markers, at least two,
/// same negative context), and the metadata partitions the parent literals
/// into one component per branch.
pub open spec fn split_clause_outcome(
    parents: Seq<Formula>,
    conclusion: Formula,
    split_parent: Option<usize>,
    inherited: Option<BranchContext>,
    annotation: Option<AvatarSplitInfo>,
    names: Seq<Seq<char>>,
    limits: VerificationLimits,
    r: Result<AvatarSplitContext, KernelVerdict>,
) -> bool {
    let n = limits.max_clause_literals;
    if parents.len() != 1 {
        r matches Err(v) && v@ == VerdictView::Rejected("avatar_split_clause must have one parent"@)
    } else if split_parent is None {
        r matches Err(v) && v@ == VerdictView::Rejected("avatar_split_clause has no parent index"@)
    } else if clause_of(parents[0], n) is None {
        r matches Err(v) && v@ == VerdictView::Inconclusive("avatar_split_clause parent is not a supported clause"@)
    } else if clause_of(conclusion, n) is None {
        r matches Err(v) && v@ == VerdictView::Inconclusive("avatar_split_clause conclusion is not a supported clause"@)
    } else if split_markers(clause_of(parents[0], n)->Some_0, names) is None
        || split_markers(clause_of(conclusion, n)->Some_0, names) is None {
        r matches Err(v) && v@ == VerdictView::Rejected("AVATAR marker has an invalid SAT variable"@)
    } else {
        let (po, pn, pp) = split_markers(clause_of(parents[0], n)->Some_0, names)->Some_0;
        let (so, sn, sp) = split_markers(clause_of(conclusion, n)->Some_0, names)->Some_0;
        if pp.len() != 0 || po.len() < 2 || so.len() != 0 || sp.len() < 2 || pn.to_set() != sn.to_set() {
            r matches Err(v) && v@ == VerdictView::Rejected("avatar_split_clause has invalid parent or split marker clauses"@)
        } else if annotation is None {
            r matches Err(v) && v@ == VerdictView::Inconclusive("avatar_split_clause lacks explicit branch metadata"@)
        } else {
            let a = annotation->Some_0;
            let comps = a.components@;
            if comps.len() != sp.len() || avatar_vars(names_view(a.inherited@)) is None {
                r matches Err(v) && v@ == VerdictView::Rejected("avatar_split_clause metadata does not cover the parent clause"@)
            } else if !split_metadata_ok(po.len(), sp, comps) {
                r matches Err(v) && split_component_error(v@)
            } else {
                let iv = avatar_vars(names_view(a.inherited@))->Some_0;
                match inherited {
                    Some(ctx) => if ctx.sat_context@.to_set() != iv.to_set() {
                        r matches Err(v) && v@ == VerdictView::Rejected("avatar_split_clause inherited context does not match its parent"@)
                    } else {
                        r matches Ok(c) && split_context_is(c, split_parent->Some_0, po, sp, comps, iv,
                            assumptions_view(ctx.assumptions@))
                    },
                    None => if iv.len() != 0 {
                        r matches Err(v) && v@ == VerdictView::Rejected("avatar_split_clause has inherited context without a branch parent"@)
                    } else {
                        r matches Ok(c) && split_context_is(c, split_parent->Some_0, po, sp, comps, iv, Seq::empty())
                    },
                }
            }
        }
    }
}

/// An AVATAR split: validates the split clause against its parent and the
/// branch metadata, and records what the branches of the split rest on.
pub fn verify_avatar_split_clause(
    parents: &[Formula],
    conclusion: &Formula,
    split_parent: Option<usize>,
    inherited_context: Option<&BranchContext>,
    annotation: Option<&AvatarSplitInfo>,
    names: &Vec<String>,
    limits: VerificationLimits,
) -> (r: Result<AvatarSplitContext, KernelVerdict>)
    ensures
        split_clause_outcome(
            parents@,
            *conclusion,
            split_parent,
            match inherited_context {
                Some(c) => Some(*c),
                None => None,
            },
            match annotation {
                Some(a) => Some(*a),
                None => None,
            },
            names_view(names@),
            limits,
            r,
        ),
        r matches Ok(c) ==> split_context_wf(c),
{
    if parents.len() != 1 {
        return Err(rejected("avatar_split_clause must have one parent"));
    }
    let split_parent = match split_parent {
        Some(i) => i,
        None => return Err(rejected("avatar_split_clause has no parent index")),
    };
    let parent_formula = match clause_from_formula(&parents[0], limits) {
        Some(c) => c,
        None => return Err(inconclusive("avatar_split_clause parent is not a supported clause")),
    };
    let split_formula = match clause_from_formula(conclusion, limits) {
        Some(c) => c,
        None => return Err(inconclusive("avatar_split_clause conclusion is not a supported clause")),
    };
    let (parent, parent_context, parent_positive) = match split_avatar_markers(parent_formula, names) {
        Ok(x) => x,
        Err(e) => return Err(e),
    };
    let (split, split_context, split_positive) = match split_avatar_markers(split_formula, names) {
        Ok(x) => x,
        Err(e) => return Err(e),
    };
    let ghost nv = names_view(names@);
    let ghost pn = split_markers(clause_of(parents@[0], limits.max_clause_literals)->Some_0, nv)->Some_0.1;
    let ghost sn = split_markers(clause_of(*conclusion, limits.max_clause_literals)->Some_0, nv)->Some_0.1;
    proof {
        if pn.to_set() == sn.to_set() {
            lemma_normalized_canonical(pn, parent_context@, split_context@);
        }
    }
    if parent_positive.len() != 0 || parent.len() < 2 || split.len() != 0 || split_positive.len() < 2
        || !same_vars(&split_context, &parent_context) {
        return Err(rejected("avatar_split_clause has invalid parent or split marker clauses"));
    }
    let annotation = match annotation {
        Some(a) => a,
        None => return Err(inconclusive("avatar_split_clause lacks explicit branch metadata")),
    };
    if annotation.components.len() != split_positive.len() {
        return Err(rejected("avatar_split_clause metadata does not cover the parent clause"));
    }
    let inherited_vars = match parse_avatar_vars(&annotation.inherited) {
        Some(v) => v,
        None => return Err(rejected("avatar_split_clause metadata does not cover the parent clause")),
    };
    let (branch_vars, component_literal_indices) = match check_split_components(
        parent.len(),
        &split_positive,
        &annotation.components,
    ) {
        Ok(x) => x,
        Err(e) => return Err(e),
    };
    let inherited_assumptions = match inherited_context {
        Some(context) => {
            let ghost iv = inherited_vars@;
            let expected = normalize_avatar_vars_copy(copy_vars(&context.sat_context));
            let actual = normalize_avatar_vars_copy(copy_vars(&inherited_vars));
            proof {
                if context.sat_context@.to_set() == iv.to_set() {
                    lemma_normalized_canonical(iv, actual@, expected@);
                }
            }
            if !same_vars(&expected, &actual) {
                return Err(rejected("avatar_split_clause inherited context does not match its parent"));
            }
            copy_assumptions(&context.assumptions)
        },
        None => {
            if inherited_vars.len() != 0 {
                return Err(rejected("avatar_split_clause has inherited context without a branch parent"));
            }
            Vec::new()
        },
    };
    proof {
        assert(assumptions_view(Seq::<BranchAssumption>::empty()) =~= Seq::<SAssumption>::empty());
    }
    Ok(AvatarSplitContext {
        split_parent,
        parent_literals: parent,
        branch_vars,
        component_literal_indices,
        inherited_vars,
        inherited_assumptions,
    })
}

fn copy_vars(v: &Vec<u32>) -> (r: Vec<u32>)
    ensures
        r@ == v@,
{
    let mut out: Vec<u32> = Vec::new();
    let mut i: usize = 0;
    while i < v.len()
        invariant
            0 <= i <= v.len(),
            out@ == v@.take(i as int),
        decreases v.len() - i,
    {
        out.push(v[i]);
        i = i + 1;
        assert(out@ =~= v@.take(i as int));
    }
    assert(v@.take(v@.len() as int) =~= v@);
    out
}

/// The branch metadata of an `avatar_component_clause` step: the split
/// parent it cites by name, its branch and the branch's SAT variable.
pub struct AvatarComponentInfo {
    pub split_parent: String,
    pub branch_index: usize,
    pub sat_var: String,
}

/// The parent literals that branch `b` of a split takes, in order.
pub open spec fn component_literals(s: AvatarSplitContext, b: int) -> Seq<SLiteral> {
    s.component_literal_indices@[b]@.map_values(|i: usize| clause_view(s.parent_literals@)[i as int])
}

/// The verdicts and contexts an `avatar_component_clause` step may give:
/// the conclusion is, up to condensation and renaming, the component of
/// the cited branch, guarded by the negative markers of the inherited
/// context and the branch variable.
pub open spec fn component_clause_outcome(
    parents: Seq<Formula>,
    conclusion: Formula,
    split_parent: Option<usize>,
    splits: Seq<(usize, AvatarSplitContext)>,
    inherited: Option<BranchContext>,
    split_parent_name: Option<Seq<char>>,
    annotation: Option<AvatarComponentInfo>,
    names: Seq<Seq<char>>,
    limits: VerificationLimits,
    r: Result<BranchContext, KernelVerdict>,
) -> bool {
    let n = limits.max_clause_literals;
    if parents.len() != 1 {
        r matches Err(v) && v@ == VerdictView::Rejected("avatar_component_clause must have one parent"@)
    } else if split_parent is None {
        r matches Err(v) && v@ == VerdictView::Rejected("avatar_component_clause has no parent index"@)
    } else if entry_at(splits, split_parent->Some_0) is None {
        r matches Err(v) && v@ == VerdictView::Rejected("avatar_component_clause parent is not a validated split"@)
    } else if annotation is None {
        r matches Err(v) && v@ == VerdictView::Inconclusive("avatar_component_clause lacks explicit branch metadata"@)
    } else if split_parent_name != Some(annotation->Some_0.split_parent@) {
        r matches Err(v) && v@ == VerdictView::Rejected("avatar_component_clause cites the wrong split parent"@)
    } else if clause_of(conclusion, n) is None {
        r matches Err(v) && v@ == VerdictView::Inconclusive("avatar_component_clause conclusion is not a supported clause"@)
    } else if split_markers(clause_of(conclusion, n)->Some_0, names) is None {
        r matches Err(v) && v@ == VerdictView::Rejected("AVATAR marker has an invalid SAT variable"@)
    } else {
        let split = entry_at(splits, split_parent->Some_0)->Some_0;
        let a = annotation->Some_0;
        let b = a.branch_index;
        let (go, gn, gp) = split_markers(clause_of(conclusion, n)->Some_0, names)->Some_0;
        if gp.len() != 0 {
            r matches Err(v) && v@ == VerdictView::Rejected("avatar_component_clause contains a positive SAT marker"@)
        } else if b >= split.branch_vars@.len() {
            r matches Err(v) && v@ == VerdictView::Rejected("avatar_component_clause references an unknown branch"@)
        } else {
            let bv = split.branch_vars@[b as int];
            if avatar_var(a.sat_var@) != Some(bv)
                || gn.to_set() != split.inherited_vars@.push(bv).to_set()
                || !clause_alpha(condensed(component_literals(split, b as int)), condensed(go)) {
                r matches Err(v) && v@ == VerdictView::Rejected("avatar_component_clause metadata does not match its branch"@)
            } else if go.len() == 0 {
                r matches Err(v) && v@ == VerdictView::Rejected("avatar_component_clause has an empty component"@)
            } else {
                let assumption = SAssumption {
                    split_parent: split_parent->Some_0,
                    branch_index: b,
                    literal: go[0],
                    sat_var: Some(bv),
                };
                let (base, sat) = match inherited {
                    Some(ctx) => (assumptions_view(ctx.assumptions@), ctx.sat_context@),
                    None => (Seq::<SAssumption>::empty(), split.inherited_vars@),
                };
                r matches Ok(c) && assumptions_view(c.assumptions@) == base.push(assumption)
                    && normalized_of(c.sat_context@, sat.push(bv))
            }
        }
    }
}

/// An AVATAR component clause: the clause that asserts one branch of a
/// validated split under its SAT variable, and the context it opens.
pub fn verify_avatar_component_clause(
    parents: &[Formula],
    conclusion: &Formula,
    split_parent: Option<usize>,
    splits: &Vec<(usize, AvatarSplitContext)>,
    inherited_context: Option<&BranchContext>,
    split_parent_name: Option<&str>,
    annotation: Option<&AvatarComponentInfo>,
    names: &Vec<String>,
    limits: VerificationLimits,
) -> (r: Result<BranchContext, KernelVerdict>)
    requires
        forall|i: int| 0 <= i < splits@.len() ==> split_context_wf(#[trigger] splits@[i].1),
    ensures
        component_clause_outcome(
            parents@,
            *conclusion,
            split_parent,
            splits@,
            match inherited_context {
                Some(c) => Some(*c),
                None => None,
            },
            match split_parent_name {
                Some(s) => Some(s@),
                None => None,
            },
            match annotation {
                Some(a) => Some(*a),
                None => None,
            },
            names_view(names@),
            limits,
            r,
        ),
{
    if parents.len() != 1 {
        return Err(rejected("avatar_component_clause must have one parent"));
    }
    let split_id = match split_parent {
        Some(i) => i,
        None => return Err(rejected("avatar_component_clause has no parent index")),
    };
    let split = match find_entry(splits, split_id) {
        Some(s) => s,
        None => return Err(rejected("avatar_component_clause parent is not a validated split")),
    };
    let annotation = match annotation {
        Some(a) => a,
        None => return Err(inconclusive("avatar_component_clause lacks explicit branch metadata")),
    };
    let cites = match split_parent_name {
        Some(name) => token_is(&str_chars(annotation.split_parent.as_str()), name),
        None => false,
    };
    if !cites {
        return Err(rejected("avatar_component_clause cites the wrong split parent"));
    }
    let goal_formula = match clause_from_formula(conclusion, limits) {
        Some(c) => c,
        None => return Err(inconclusive("avatar_component_clause conclusion is not a supported clause")),
    };
    let (goal, goal_context, goal_positive) = match split_avatar_markers(goal_formula, names) {
        Ok(x) => x,
        Err(e) => return Err(e),
    };
    if goal_positive.len() != 0 {
        return Err(rejected("avatar_component_clause contains a positive SAT marker"));
    }
    let branch_index = annotation.branch_index;
    if branch_index >= split.branch_vars.len() {
        return Err(rejected("avatar_component_clause references an unknown branch"));
    }
    let branch_var = split.branch_vars[branch_index];
    let ghost gn = split_markers(clause_of(*conclusion, limits.max_clause_literals)->Some_0, names_view(names@))->Some_0.1;
    let mut expected_vars = copy_vars(&split.inherited_vars);
    expected_vars.push(branch_var);
    let ghost ev = expected_vars@;
    let expected_context = normalize_avatar_vars_copy(expected_vars);
    let actual_context = normalize_avatar_vars_copy(goal_context);
    proof {
        if gn.to_set() == ev.to_set() {
            lemma_normalized_canonical(gn, actual_context@, expected_context@);
        }
    }
    let expected_component = component_of(split, branch_index);
    let same_component = clause_alpha_equiv(&condense_clause(&expected_component), &condense_clause(&goal));
    if parse_avatar_var(annotation.sat_var.as_str()) != Some(branch_var)
        || !same_vars(&actual_context, &expected_context)
        || !same_component {
        return Err(rejected("avatar_component_clause metadata does not match its branch"));
    }
    if goal.len() == 0 {
        return Err(rejected("avatar_component_clause has an empty component"));
    }
    let literal = copy_literal(&goal[0]);
    let mut assumptions = match inherited_context {
        Some(context) => copy_assumptions(&context.assumptions),
        None => Vec::new(),
    };
    let assumption = BranchAssumption { split_parent: split_id, branch_index, literal, sat_var: Some(branch_var) };
    let ghost before = assumptions@;
    let ghost av = assumption@;
    assumptions.push(assumption);
    proof {
        assert(assumptions_view(assumptions@) =~= assumptions_view(before).push(av));
        assert(assumptions_view(Seq::<BranchAssumption>::empty()) =~= Seq::<SAssumption>::empty());
    }
    let mut sat_context = match inherited_context {
        Some(context) => copy_vars(&context.sat_context),
        None => copy_vars(&split.inherited_vars),
    };
    sat_context.push(branch_var);
    normalize_avatar_vars(&mut sat_context);
    Ok(BranchContext { assumptions, sat_context })
}

/// The parent literals of branch `b` of a split, copied in order.
fn component_of(split: &AvatarSplitContext, b: usize) -> (r: Vec<Literal>)
    requires
        split_context_wf(*split),
        b < split.component_literal_indices@.len(),
    ensures
        clause_view(r@) == component_literals(*split, b as int),
{
    let indices = &split.component_literal_indices[b];
    let mut out: Vec<Literal> = Vec::new();
    let mut i: usize = 0;
    while i < indices.len()
        invariant
            0 <= i <= indices.len(),
            split_context_wf(*split),
            b < split.component_literal_indices@.len(),
            *indices == split.component_literal_indices@[b as int],
            clause_view(out@) == component_literals(*split, b as int).take(i as int),
        decreases indices.len() - i,
    {
        let idx = indices[i];
        assert(idx < split.parent_literals@.len());
        let ghost before = out@;
        out.push(copy_literal(&split.parent_literals[idx]));
        assert(clause_view(out@) =~= clause_view(before).push(split.parent_literals@[idx as int]@));
        assert(clause_view(split.parent_literals@)[idx as int] == split.parent_literals@[idx as int]@);
        assert(component_literals(*split, b as int)[i as int] == clause_view(split.parent_literals@)[idx as int]);
        assert(clause_view(out@) =~= component_literals(*split, b as int).take(i as int + 1));
        i = i + 1;
    }
    assert(component_literals(*split, b as int).take(indices@.len() as int) =~= component_literals(*split, b as int));
    out
}

} // verus!
