//! Closing an explicit case split: every branch of a split clause ends in
//! `$false` under an assumption that names exactly one of its literals.
use vstd::prelude::*;
use vstd::string::*;
use crate::term::{Literal, Formula, SLiteral, clause_view};
use crate::verdict::{KernelVerdict, VerdictView, VerificationLimits, rejected, inconclusive};
use crate::clause::{clause_of, clause_from_formula, copy_literal};
use crate::alpha::{clause_alpha, clause_alpha_equiv};
use crate::branch::{BranchAssumption, BranchContext, SAssumption, assumptions_view, names_view, is_split_literal, is_avatar_split_literal};
use crate::avatar_rules::{AvatarSplitContext, entry_at, find_entry};
use crate::text::{decimal, decimal_text};

verus! {

/// What the AVATAR refutation checks need to know of a proof node: its
/// name, the rule it cites, if any, and whether it concludes `$false`.
pub struct DagNode {
    pub name: String,
    pub rule: Option<String>,
    pub is_false: bool,
}

/// A rejection that names a branch root.
pub open spec fn branch_rejection(name: Seq<char>, tail: Seq<char>) -> VerdictView {
    VerdictView::Rejected("avatar_sat_refutation branch `"@ + name + tail)
}

/// Reads the assumptions of one branch in order, adding each branch index
/// to `seen`: the first assumption of another split, seen branch, or
/// literal that is no variant of the split clause's literal at its index
/// stops the scan.
pub open spec fn assumptions_scan(
    asms: Seq<SAssumption>,
    seen: Seq<usize>,
    split_parent: usize,
    top: Seq<SLiteral>,
    root_name: Seq<char>,
) -> Result<Seq<usize>, VerdictView>
    decreases asms.len(),
{
    if asms.len() == 0 {
        Ok(seen)
    } else {
        let a = asms[0];
        if a.split_parent != split_parent {
            Err(branch_rejection(root_name, "` cites a different split parent"@))
        } else if seen.contains(a.branch_index) {
            Err(VerdictView::Rejected("avatar_sat_refutation contains a duplicate branch"@))
        } else if !(a.branch_index < top.len() && clause_alpha(seq![top[a.branch_index as int]], seq![a.literal])) {
            Err(VerdictView::Rejected("avatar_sat_refutation branch literal does not match split parent"@))
        } else {
            assumptions_scan(asms.skip(1), seen.push(a.branch_index), split_parent, top, root_name)
        }
    }
}

/// Reads the branch roots in order: each needs a case context whose
/// assumptions pass `assumptions_scan`, and must itself be `$false`.
pub open spec fn roots_scan(
    roots: Seq<usize>,
    seen: Seq<usize>,
    nodes: Seq<DagNode>,
    contexts: Seq<(usize, BranchContext)>,
    split_parent: usize,
    top: Seq<SLiteral>,
) -> Result<Seq<usize>, VerdictView>
    decreases roots.len(),
{
    if roots.len() == 0 {
        Ok(seen)
    } else {
        let root = roots[0];
        let name = nodes[root as int].name@;
        match entry_at(contexts, root) {
            None => Err(branch_rejection(name, "` has no case context"@)),
            Some(ctx) => match assumptions_scan(assumptions_view(ctx.assumptions@), seen, split_parent, top, name) {
                Err(e) => Err(e),
                Ok(more) => if !nodes[root as int].is_false {
                    Err(VerdictView::Rejected("avatar_sat_refutation branch root is not `$false`"@))
                } else {
                    roots_scan(roots.skip(1), more, nodes, contexts, split_parent, top)
                },
            },
        }
    }
}

/// Some literal of the clause is a positive AVATAR marker.
pub open spec fn has_split_literal(c: Seq<SLiteral>, names: Seq<Seq<char>>) -> bool {
    exists|i: int| 0 <= i < c.len() && is_split_literal(#[trigger] c[i], names)
}

/// The verdict on an `avatar_sat_refutation` step closed by case analysis:
/// the first parent is the split clause, every other parent is a `$false`
/// branch root, and the branches cover each literal of the split clause
/// exactly once.
pub open spec fn case_split_outcome(
    node_is_false: bool,
    nodes: Seq<DagNode>,
    parents: Seq<usize>,
    formulas: Seq<(usize, Formula)>,
    contexts: Seq<(usize, BranchContext)>,
    splits: Seq<(usize, AvatarSplitContext)>,
    names: Seq<Seq<char>>,
    limits: VerificationLimits,
) -> VerdictView {
    if parents.len() < 2 {
        VerdictView::Rejected("avatar_sat_refutation requires a split parent and branch roots"@)
    } else if !node_is_false {
        VerdictView::Rejected("avatar_sat_refutation must conclude `$false`"@)
    } else {
        let split_parent = parents[0];
        let top = match entry_at(formulas, split_parent) {
            Some(f) => clause_of(f, limits.max_clause_literals),
            None => None,
        };
        if top is None {
            VerdictView::Inconclusive("avatar_sat_refutation split parent is not a supported clause"@)
        } else if top->Some_0.len() < 2 {
            VerdictView::Rejected("avatar_sat_refutation split parent must be a disjunction"@)
        } else {
            let top = top->Some_0;
            match roots_scan(parents.skip(1), Seq::empty(), nodes, contexts, split_parent, top) {
                Err(e) => e,
                Ok(seen) => if seen.len() != top.len() {
                    VerdictView::Rejected("avatar_sat_refutation covers "@ + decimal(seen.len()) + " of "@
                        + decimal(top.len()) + " branches"@)
                } else if entry_at(splits, split_parent) is None && has_split_literal(top, names) {
                    VerdictView::Rejected("avatar_sat_refutation lacks an explicit validated split certificate"@)
                } else {
                    VerdictView::Certified
                },
            }
        }
    }
}

pub(crate) fn reject_branch(name: &str, tail: &str) -> (v: KernelVerdict)
    ensures
        v@ == branch_rejection(name@, tail@),
{
    let mut text = String::from_str("avatar_sat_refutation branch `");
    text.append(name);
    text.append(tail);
    proof {
        reveal_strlit("avatar_sat_refutation branch `");
    }
    KernelVerdict::Rejected(text)
}

fn contains_index(v: &Vec<usize>, x: usize) -> (r: bool)
    ensures
        r == v@.contains(x),
{
    let mut i: usize = 0;
    while i < v.len()
        invariant
            0 <= i <= v.len(),
            forall|k: int| 0 <= k < i ==> v@[k] != x,
        decreases v.len() - i,
    {
        if v[i] == x {
            assert(v@[i as int] == x);
            return true;
        }
        i = i + 1;
    }
    false
}

/// Whether two literals are variants of each other.
fn literal_variant(a: &Literal, b: &Literal) -> (r: bool)
    ensures
        r == clause_alpha(seq![a@], seq![b@]),
{
    let left = vec![copy_literal(a)];
    let right = vec![copy_literal(b)];
    assert(clause_view(left@) =~= seq![a@]);
    assert(clause_view(right@) =~= seq![b@]);
    clause_alpha_equiv(&left, &right)
}

#[verifier::loop_isolation(false)]
fn scan_assumptions(
    asms: &Vec<BranchAssumption>,
    seen: &mut Vec<usize>,
    split_parent: usize,
    top: &Vec<Literal>,
    root_name: &str,
) -> (r: Result<(), KernelVerdict>)
    ensures
        match assumptions_scan(assumptions_view(asms@), old(seen)@, split_parent, clause_view(top@), root_name@) {
            Ok(s) => r is Ok && final(seen)@ == s,
            Err(e) => r matches Err(v) && v@ == e,
        },
{
    let ghost av = assumptions_view(asms@);
    let ghost tv = clause_view(top@);
    let ghost whole = assumptions_scan(av, old(seen)@, split_parent, tv, root_name@);
    let mut i: usize = 0;
    assert(av.skip(0) =~= av);
    while i < asms.len()
        invariant
            0 <= i <= asms.len(),
            av == assumptions_view(asms@),
            tv == clause_view(top@),
            whole == assumptions_scan(av.skip(i as int), seen@, split_parent, tv, root_name@),
        decreases asms.len() - i,
    {
        let a = &asms[i];
        assert(av.skip(i as int)[0] == a@);
        assert(av.skip(i as int).skip(1) =~= av.skip(i as int + 1));
        if a.split_parent != split_parent {
            return Err(reject_branch(root_name, "` cites a different split parent"));
        }
        if contains_index(seen, a.branch_index) {
            return Err(rejected("avatar_sat_refutation contains a duplicate branch"));
        }
        let matches_top = a.branch_index < top.len() && literal_variant(&top[a.branch_index], &a.literal);
        proof {
            if a.branch_index < top.len() {
                assert(tv[a.branch_index as int] == top@[a.branch_index as int]@);
            }
        }
        if !matches_top {
            return Err(rejected("avatar_sat_refutation branch literal does not match split parent"));
        }
        seen.push(a.branch_index);
        i = i + 1;
    }
    Ok(())
}

/// Checks an `avatar_sat_refutation` step that closes an explicit case
/// split: node `parents[0]` is the split clause and the other parents are
/// the branch roots, each with its case context.
#[verifier::loop_isolation(false)]
pub fn verify_case_split(
    node_is_false: bool,
    nodes: &Vec<DagNode>,
    parents: &Vec<usize>,
    formulas: &Vec<(usize, Formula)>,
    contexts: &Vec<(usize, BranchContext)>,
    splits: &Vec<(usize, AvatarSplitContext)>,
    names: &Vec<String>,
    limits: VerificationLimits,
) -> (v: KernelVerdict)
    requires
        forall|i: int| 1 <= i < parents@.len() ==> #[trigger] parents@[i] < nodes@.len(),
    ensures
        v@ == case_split_outcome(node_is_false, nodes@, parents@, formulas@, contexts@, splits@, names_view(names@), limits),
{
    if parents.len() < 2 {
        return rejected("avatar_sat_refutation requires a split parent and branch roots");
    }
    if !node_is_false {
        return rejected("avatar_sat_refutation must conclude `$false`");
    }
    let split_parent = parents[0];
    let top = match find_entry(formulas, split_parent) {
        Some(f) => clause_from_formula(f, limits),
        None => None,
    };
    let top = match top {
        Some(t) => t,
        None => return inconclusive("avatar_sat_refutation split parent is not a supported clause"),
    };
    if top.len() < 2 {
        return rejected("avatar_sat_refutation split parent must be a disjunction");
    }
    let ghost tv = clause_view(top@);
    let ghost roots = parents@.skip(1);
    let ghost whole = roots_scan(roots, Seq::empty(), nodes@, contexts@, split_parent, tv);
    let mut seen: Vec<usize> = Vec::new();
    let mut i: usize = 1;
    assert(roots.skip(0) =~= roots);
    while i < parents.len()
        invariant
            1 <= i <= parents.len(),
            roots == parents@.skip(1),
            tv == clause_view(top@),
            forall|k: int| 1 <= k < parents@.len() ==> #[trigger] parents@[k] < nodes@.len(),
            whole == roots_scan(roots.skip(i - 1), seen@, nodes@, contexts@, split_parent, tv),
        decreases parents.len() - i,
    {
        let root = parents[i];
        assert(roots.skip(i - 1)[0] == root);
        assert(roots.skip(i - 1).skip(1) =~= roots.skip(i as int));
        let node = &nodes[root];
        let context = match find_entry(contexts, root) {
            Some(c) => c,
            None => return reject_branch(node.name.as_str(), "` has no case context"),
        };
        match scan_assumptions(&context.assumptions, &mut seen, split_parent, &top, node.name.as_str()) {
            Ok(()) => {},
            Err(e) => return e,
        }
        if !node.is_false {
            return rejected("avatar_sat_refutation branch root is not `$false`");
        }
        i = i + 1;
    }
    assert(roots.skip(parents@.len() - 1) =~= Seq::<usize>::empty());
    if seen.len() != top.len() {
        let mut text = String::from_str("avatar_sat_refutation covers ");
        let covered = decimal_text(seen.len());
        text.append(covered.as_str());
        text.append(" of ");
        let total = decimal_text(top.len());
        text.append(total.as_str());
        text.append(" branches");
        proof {
            reveal_strlit("avatar_sat_refutation covers ");
        }
        return KernelVerdict::Rejected(text);
    }
    if find_entry(splits, split_parent).is_none() {
        let mut k: usize = 0;
        while k < top.len()
            invariant
                0 <= k <= top.len(),
                tv == clause_view(top@),
                forall|j: int| 0 <= j < k ==> !is_split_literal(#[trigger] tv[j], names_view(names@)),
            decreases top.len() - k,
        {
            assert(tv[k as int] == top@[k as int]@);
            if is_avatar_split_literal(&top[k], names) {
                assert(is_split_literal(tv[k as int], names_view(names@)));
                return rejected("avatar_sat_refutation lacks an explicit validated split certificate");
            }
            k = k + 1;
        }
    }
    KernelVerdict::Certified
}

} // verus!
