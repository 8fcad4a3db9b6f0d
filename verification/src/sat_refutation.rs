//! The AVATAR SAT refutation: the cited splits and refuted branches stand
//! for propositional clauses that together must be unsatisfiable, shown by
//! a stored SAT trace bound to them or else by a SAT solver.
use vstd::prelude::*;
use vstd::string::*;
use crate::verdict::{KernelVerdict, VerdictView, VerificationLimits, rejected, inconclusive};
use crate::branch::{BranchAssumption, BranchContext, names_view};
use crate::avatar_rules::{AvatarSplitContext, entry_at, find_entry};
use crate::avatar::{normalized_of, normalize_avatar_vars};
use crate::case_split::{DagNode, branch_rejection};
use crate::sat_trace::{AvatarSatTrace, trace_check, verify_avatar_sat_trace};
use crate::trace::manifest_view;
use crate::text::{str_chars, token_is};
use crate::case_split::reject_branch;
use crate::manifest::{signed_vars, negatable, split_manifest_clause, manifest_binding_outcome, verify_avatar_sat_manifest_binding};

verus! {

/// The SAT metadata of an AVATAR refutation: the split nodes and branch
/// roots it cites, by name, and the trace it may carry.
pub struct AvatarSatInfo {
    pub split_nodes: Vec<String>,
    pub branch_roots: Vec<String>,
    pub trace: AvatarSatTrace,
}

/// Where checking an AVATAR SAT refutation ends: a verdict, or the SAT
/// instance whose unsatisfiability a solver must decide.
pub enum AvatarSatStep {
    Done(KernelVerdict),
    Solve(Vec<Vec<i32>>),
}

/// What a SAT solver answers.
#[derive(PartialEq, Eq, Structural)]
pub enum SolveOutcome {
    Sat,
    Unsat,
    Unknown,
}

/// The refutation carries some part of a SAT trace.
pub open spec fn has_trace_payload(t: AvatarSatTrace) -> bool {
    ||| t.format is Some
    ||| t.variables is Some
    ||| t.digest is Some
    ||| t.original_ids@.len() > 0
    ||| t.cited_indices@.len() > 0
    ||| t.clauses@.len() > 0
    ||| t.bytes is Some
}

/// The node cites the named rule.
pub open spec fn cites_rule(n: DagNode, rule: Seq<char>) -> bool {
    n.rule matches Some(r) && r@ == rule
}

/// The first node with the given name.
pub open spec fn name_index(nodes: Seq<DagNode>, name: Seq<char>) -> Option<usize> {
    if exists|k: int| 0 <= k < nodes.len() && #[trigger] nodes[k].name@ == name {
        Some((choose|k: int| 0 <= k < nodes.len() && nodes[k].name@ == name
            && forall|j: int| 0 <= j < k ==> #[trigger] nodes[j].name@ != name) as usize)
    } else {
        None
    }
}

/// The nodes with the given names, or `None` when one name is unknown.
pub open spec fn name_indices(nodes: Seq<DagNode>, names: Seq<Seq<char>>) -> Option<Seq<usize>> {
    if forall|i: int| 0 <= i < names.len() ==> #[trigger] name_index(nodes, names[i]) is Some {
        Some(names.map_values(|n: Seq<char>| name_index(nodes, n)->Some_0))
    } else {
        None
    }
}

/// Why a cited split node is refused, if it is.
pub open spec fn split_error(nodes: Seq<DagNode>, splits: Seq<(usize, AvatarSplitContext)>, k: usize) -> Option<VerdictView> {
    if !cites_rule(nodes[k as int], "avatar_split_clause"@) {
        Some(VerdictView::Rejected("avatar_sat_refutation cites a non-split node"@))
    } else if entry_at(splits, k) is None {
        Some(VerdictView::Rejected("avatar_sat_refutation cites an unvalidated split"@))
    } else {
        None
    }
}

/// The refusal of the first refused split node of `si`, if any.
pub open spec fn splits_error(nodes: Seq<DagNode>, splits: Seq<(usize, AvatarSplitContext)>, si: Seq<usize>) -> Option<VerdictView> {
    if exists|i: int| 0 <= i < si.len() && #[trigger] split_error(nodes, splits, si[i]) is Some {
        split_error(nodes, splits, si[choose|i: int| 0 <= i < si.len() && split_error(nodes, splits, si[i]) is Some
            && forall|j: int| 0 <= j < i ==> #[trigger] split_error(nodes, splits, si[j]) is None])
    } else {
        None
    }
}

/// Why an assumption of a branch is refused, if it is: its split must be
/// recorded, and its SAT variable must be the one of its branch there.
pub open spec fn assumption_error(
    splits: Seq<(usize, AvatarSplitContext)>,
    split_parent: usize,
    branch_index: usize,
    sat_var: Option<u32>,
) -> Option<VerdictView> {
    match entry_at(splits, split_parent) {
        None => Some(VerdictView::Rejected("avatar_sat_refutation branch cites an unknown split context"@)),
        Some(sp) => if branch_index >= sp.branch_vars@.len() || sat_var != Some(sp.branch_vars@[branch_index as int]) {
            Some(VerdictView::Rejected("avatar_sat_refutation branch has an invalid SAT assumption"@))
        } else {
            None
        },
    }
}

/// The refusal of the first refused assumption of the context, if any.
pub open spec fn assumptions_error(splits: Seq<(usize, AvatarSplitContext)>, ctx: BranchContext) -> Option<VerdictView> {
    let a = ctx.assumptions@;
    if exists|i: int| 0 <= i < a.len()
        && #[trigger] assumption_error(splits, a[i].split_parent, a[i].branch_index, a[i].sat_var) is Some {
        let i = choose|i: int| 0 <= i < a.len()
            && assumption_error(splits, a[i].split_parent, a[i].branch_index, a[i].sat_var) is Some
            && forall|j: int| 0 <= j < i ==> #[trigger] assumption_error(splits, a[j].split_parent, a[j].branch_index, a[j].sat_var) is None;
        assumption_error(splits, a[i].split_parent, a[i].branch_index, a[i].sat_var)
    } else {
        None
    }
}

/// The context recorded for a branch root; `seen` holds the context sets of
/// the roots before it.
pub open spec fn root_error(
    nodes: Seq<DagNode>,
    contexts: Seq<(usize, BranchContext)>,
    splits: Seq<(usize, AvatarSplitContext)>,
    split_set: Set<usize>,
    root: usize,
    seen: Seq<Set<u32>>,
) -> Option<VerdictView> {
    let n = nodes[root as int];
    match entry_at(contexts, root) {
        None => Some(branch_rejection(n.name@, "` has no context"@)),
        Some(ctx) => if !n.is_false {
            Some(VerdictView::Rejected("avatar_sat_refutation branch root is not `$false`"@))
        } else if !cites_rule(n, "avatar_branch_refutation"@) {
            Some(VerdictView::Rejected("avatar_sat_refutation branch root is not an AVATAR branch refutation"@))
        } else if exists|i: int| 0 <= i < ctx.assumptions@.len() && !split_set.contains(#[trigger] ctx.assumptions@[i].split_parent) {
            Some(VerdictView::Rejected("avatar_sat_refutation branch descends from an uncited split"@))
        } else if assumptions_error(splits, ctx) is Some {
            assumptions_error(splits, ctx)
        } else if seen.contains(ctx.sat_context@.to_set()) {
            Some(VerdictView::Rejected("avatar_sat_refutation contains a duplicate branch context"@))
        } else {
            None
        },
    }
}

/// The context sets of the first `i` roots.
pub open spec fn seen_contexts(contexts: Seq<(usize, BranchContext)>, bi: Seq<usize>, i: int) -> Seq<Set<u32>> {
    bi.take(i).map_values(|k: usize| entry_at(contexts, k)->Some_0.sat_context@.to_set())
}

/// The refusal of the first refused branch root of `bi`, if any.
pub open spec fn roots_error(
    nodes: Seq<DagNode>,
    contexts: Seq<(usize, BranchContext)>,
    splits: Seq<(usize, AvatarSplitContext)>,
    split_set: Set<usize>,
    bi: Seq<usize>,
) -> Option<VerdictView> {
    if exists|i: int| 0 <= i < bi.len()
        && #[trigger] root_error(nodes, contexts, splits, split_set, bi[i], seen_contexts(contexts, bi, i)) is Some {
        let i = choose|i: int| 0 <= i < bi.len()
            && root_error(nodes, contexts, splits, split_set, bi[i], seen_contexts(contexts, bi, i)) is Some
            && forall|j: int| 0 <= j < i ==> #[trigger] root_error(nodes, contexts, splits, split_set, bi[j], seen_contexts(contexts, bi, j)) is None;
        root_error(nodes, contexts, splits, split_set, bi[i], seen_contexts(contexts, bi, i))
    } else {
        None
    }
}

/// The SAT variables of the cited splits and refuted branches.
pub open spec fn instance_vars(sctx: Seq<AvatarSplitContext>, bctx: Seq<BranchContext>) -> Set<u32> {
    Set::new(|v: u32|
        (exists|i: int| 0 <= i < sctx.len() && (#[trigger] sctx[i].branch_vars@.contains(v) || sctx[i].inherited_vars@.contains(v)))
        || (exists|i: int| 0 <= i < bctx.len() && #[trigger] bctx[i].sat_context@.contains(v)))
}

/// The negated variables, as SAT literals.
pub open spec fn negated(vars: Seq<u32>) -> Seq<i32> {
    vars.map_values(|v: u32| (-(v as i32)) as i32)
}

/// `c` is the negation of the branch context `sat`, listed in ascending
/// order without repeats.
pub open spec fn context_clause(c: Seq<i32>, sat: Seq<u32>) -> bool {
    exists|r: Seq<u32>| #[trigger] normalized_of(r, sat) && c == negated(r)
}

/// The SAT instance of the refutation: one clause per cited split, then one
/// per refuted branch, its context negated.
pub open spec fn solver_instance(cls: Seq<Seq<i32>>, sctx: Seq<AvatarSplitContext>, bctx: Seq<BranchContext>) -> bool {
    &&& cls.len() == sctx.len() + bctx.len()
    &&& forall|i: int| 0 <= i < sctx.len() ==> #[trigger] cls[i] == split_manifest_clause(sctx[i])
    &&& forall|j: int| 0 <= j < bctx.len() ==> context_clause(#[trigger] cls[sctx.len() + j], bctx[j].sat_context@)
}

/// The step ends with this verdict.
pub open spec fn done(r: AvatarSatStep, v: VerdictView) -> bool {
    r matches AvatarSatStep::Done(x) && x@ == v
}

/// Where checking an `avatar_sat_refutation` step ends, `digest` being the
/// digest of the trace payload it carries, if any.
pub open spec fn avatar_sat_outcome(
    node_is_false: bool,
    nodes: Seq<DagNode>,
    parents: Seq<usize>,
    contexts: Seq<(usize, BranchContext)>,
    splits: Seq<(usize, AvatarSplitContext)>,
    info: Option<AvatarSatInfo>,
    digest: Seq<u8>,
    limits: VerificationLimits,
    r: AvatarSatStep,
) -> bool {
    if !node_is_false || parents.len() < 2 {
        done(r, VerdictView::Rejected("avatar_sat_refutation must conclude `$false` from a split and branches"@))
    } else if info is None {
        done(r, VerdictView::Inconclusive("avatar_sat_refutation lacks explicit SAT metadata"@))
    } else {
        let info = info->Some_0;
        let t = info.trace;
        let traced = has_trace_payload(t);
        if traced && trace_check(t, digest, limits) is Err {
            done(r, trace_check(t, digest, limits)->Err_0)
        } else if name_indices(nodes, names_view(info.split_nodes@)) is None {
            done(r, VerdictView::Rejected("avatar_sat_refutation references an unknown split node"@))
        } else if name_indices(nodes, names_view(info.branch_roots@)) is None {
            done(r, VerdictView::Rejected("avatar_sat_refutation references an unknown branch root"@))
        } else {
            let si = name_indices(nodes, names_view(info.split_nodes@))->Some_0;
            let bi = name_indices(nodes, names_view(info.branch_roots@))->Some_0;
            if si.len() == 0 || bi.len() == 0 {
                done(r, VerdictView::Rejected("avatar_sat_refutation must cite split nodes and branch roots"@))
            } else if parents.len() != (si + bi).to_set().len() || parents.to_set() != (si + bi).to_set() {
                done(r, VerdictView::Rejected("avatar_sat_refutation metadata does not match its parent list"@))
            } else if splits_error(nodes, splits, si) is Some {
                done(r, splits_error(nodes, splits, si)->Some_0)
            } else if roots_error(nodes, contexts, splits, si.to_set(), bi) is Some {
                done(r, roots_error(nodes, contexts, splits, si.to_set(), bi)->Some_0)
            } else if traced {
                exists|b: Result<(), KernelVerdict>| #[trigger] manifest_binding_outcome(t.cited_indices@,
                    manifest_view(t.clauses@), si, bi, splits, contexts, b)
                    && match b {
                        Ok(()) => done(r, VerdictView::Certified),
                        Err(v) => done(r, v@),
                    }
            } else {
                let sctx = si.map_values(|k: usize| entry_at(splits, k)->Some_0);
                let bctx = bi.map_values(|k: usize| entry_at(contexts, k)->Some_0);
                if instance_vars(sctx, bctx).len() > limits.max_avatar_steps {
                    done(r, VerdictView::Inconclusive("avatar_sat_refutation exceeded strict SAT-variable limit"@))
                } else {
                    r matches AvatarSatStep::Solve(cls) && solver_instance(manifest_view(cls@), sctx, bctx)
                }
            }
        }
    }
}

/// An entry found for a key is one of the entries.
pub proof fn lemma_entry_member<T>(entries: Seq<(usize, T)>, key: usize)
    ensures
        entry_at(entries, key) matches Some(c) ==> exists|i: int| 0 <= i < entries.len() && #[trigger] entries[i].1 == c,
    decreases entries.len(),
{
    if entries.len() > 0 && entries[0].0 != key {
        lemma_entry_member(entries.skip(1), key);
        if entry_at(entries, key) is Some {
            let c = entry_at(entries, key)->Some_0;
            let i = choose|i: int| 0 <= i < entries.skip(1).len() && #[trigger] entries.skip(1)[i].1 == c;
            assert(entries[i + 1].1 == c);
        }
    }
}

fn rule_is(n: &DagNode, rule: &str) -> (r: bool)
    ensures
        r == cites_rule(*n, rule@),
{
    match &n.rule {
        Some(x) => token_is(&str_chars(x.as_str()), rule),
        None => false,
    }
}

fn find_node(nodes: &Vec<DagNode>, name: &String) -> (r: Option<usize>)
    ensures
        r == name_index(nodes@, name@),
        r matches Some(k) ==> k < nodes@.len(),
{
    let mut i: usize = 0;
    while i < nodes.len()
        invariant
            0 <= i <= nodes.len(),
            forall|j: int| 0 <= j < i ==> #[trigger] nodes@[j].name@ != name@,
        decreases nodes.len() - i,
    {
        if nodes[i].name == *name {
            proof {
                assert(nodes@[i as int].name@ == name@);
                let k = choose|k: int| 0 <= k < nodes@.len() && nodes@[k].name@ == name@
                    && forall|j: int| 0 <= j < k ==> #[trigger] nodes@[j].name@ != name@;
                if k < i {
                    assert(nodes@[k].name@ != name@);
                }
                if k > i {
                    assert(nodes@[i as int].name@ != name@);
                }
            }
            return Some(i);
        }
        i = i + 1;
    }
    None
}

fn find_nodes(nodes: &Vec<DagNode>, names: &Vec<String>) -> (r: Option<Vec<usize>>)
    ensures
        match name_indices(nodes@, names_view(names@)) {
            Some(ks) => r matches Some(v) && v@ == ks,
            None => r is None,
        },
        r matches Some(v) ==> forall|j: int| 0 <= j < v@.len() ==> #[trigger] v@[j] < nodes@.len(),
{
    let ghost nv = names_view(names@);
    let mut out: Vec<usize> = Vec::new();
    let mut i: usize = 0;
    while i < names.len()
        invariant
            0 <= i <= names.len(),
            nv == names_view(names@),
            out@.len() == i,
            forall|k: int| 0 <= k < i ==> #[trigger] name_index(nodes@, nv[k]) is Some && out@[k] == name_index(nodes@, nv[k])->Some_0,
            forall|k: int| 0 <= k < i ==> #[trigger] out@[k] < nodes@.len(),
        decreases names.len() - i,
    {
        assert(nv[i as int] == names@[i as int]@);
        match find_node(nodes, &names[i]) {
            Some(k) => {
                out.push(k);
            },
            None => {
                return None;
            },
        }
        i = i + 1;
    }
    proof {
        assert(out@ =~= nv.map_values(|n: Seq<char>| name_index(nodes@, n)->Some_0));
    }
    Some(out)
}

fn index_listed(v: &Vec<usize>, x: usize) -> (r: bool)
    ensures
        r == v@.contains(x),
{
    let mut i: usize = 0;
    while i < v.len()
        invariant
            0 <= i <= v.len(),
            forall|k: int| 0 <= k < i ==> v@[k] != x,
        decreases v.len() - i,
    {
        if v[i] == x {
            assert(v@[i as int] == x);
            return true;
        }
        i = i + 1;
    }
    false
}

fn var_listed(v: &Vec<u32>, x: u32) -> (r: bool)
    ensures
        r == v@.contains(x),
{
    let mut i: usize = 0;
    while i < v.len()
        invariant
            0 <= i <= v.len(),
            forall|k: int| 0 <= k < i ==> v@[k] != x,
        decreases v.len() - i,
    {
        if v[i] == x {
            assert(v@[i as int] == x);
            return true;
        }
        i = i + 1;
    }
    false
}

/// Adds the indices of `vs` not yet in `acc`.
fn add_indices(acc: &mut Vec<usize>, vs: &Vec<usize>)
    requires
        old(acc)@.no_duplicates(),
    ensures
        final(acc)@.no_duplicates(),
        final(acc)@.to_set() == old(acc)@.to_set() + vs@.to_set(),
{
    let ghost a0 = acc@;
    let mut i: usize = 0;
    assert(vs@.take(0).to_set() =~= Set::<usize>::empty());
    assert(a0.to_set() + Set::<usize>::empty() =~= a0.to_set());
    while i < vs.len()
        invariant
            0 <= i <= vs.len(),
            acc@.no_duplicates(),
            acc@.to_set() == a0.to_set() + vs@.take(i as int).to_set(),
        decreases vs.len() - i,
    {
        let x = vs[i];
        let ghost before = acc@;
        assert(vs@.take(i as int + 1) =~= vs@.take(i as int).push(x));
        proof {
            vs@.take(i as int).lemma_push_to_set_commute(x);
        }
        if !index_listed(acc, x) {
            acc.push(x);
            proof {
                before.lemma_push_to_set_commute(x);
                assert forall|p: int, q: int| 0 <= p < q < acc@.len() implies acc@[p] != acc@[q] by {
                    if q == acc@.len() - 1 {
                        assert(before.contains(before[p]));
                    }
                }
            }
        }
        assert(acc@.to_set() =~= a0.to_set() + vs@.take(i as int + 1).to_set());
        i = i + 1;
    }
    assert(vs@.take(vs.len() as int) =~= vs@);
}

/// The indices of `a` then `b`, each once.
fn distinct_union(a: &Vec<usize>, b: &Vec<usize>) -> (r: Vec<usize>)
    ensures
        r@.no_duplicates(),
        r@.to_set() == (a@ + b@).to_set(),
{
    let mut out: Vec<usize> = Vec::new();
    assert(out@.to_set() =~= Set::<usize>::empty());
    add_indices(&mut out, a);
    add_indices(&mut out, b);
    assert forall|x: usize| (a@ + b@).contains(x) <==> a@.contains(x) || b@.contains(x) by {
        if (a@ + b@).contains(x) {
            let k = choose|k: int| 0 <= k < (a@ + b@).len() && #[trigger] (a@ + b@)[k] == x;
            if k < a@.len() {
                assert(a@[k] == x);
            } else {
                assert(b@[k - a@.len()] == x);
            }
        }
        if a@.contains(x) {
            let k = choose|k: int| 0 <= k < a@.len() && #[trigger] a@[k] == x;
            assert((a@ + b@)[k] == x);
        }
        if b@.contains(x) {
            let k = choose|k: int| 0 <= k < b@.len() && #[trigger] b@[k] == x;
            assert((a@ + b@)[a@.len() + k] == x);
        }
    }
    assert(out@.to_set() =~= (a@ + b@).to_set());
    out
}

/// Whether two index lists hold the same indices.
fn same_index_sets(p: &Vec<usize>, d: &Vec<usize>) -> (r: bool)
    ensures
        r == (p@.to_set() == d@.to_set()),
{
    let mut i: usize = 0;
    while i < p.len()
        invariant
            0 <= i <= p.len(),
            forall|k: int| 0 <= k < i ==> d@.contains(#[trigger] p@[k]),
        decreases p.len() - i,
    {
        if !index_listed(d, p[i]) {
            assert(p@.to_set().contains(p@[i as int]));
            return false;
        }
        i = i + 1;
    }
    let mut j: usize = 0;
    while j < d.len()
        invariant
            0 <= j <= d.len(),
            forall|k: int| 0 <= k < p@.len() ==> d@.contains(#[trigger] p@[k]),
            forall|k: int| 0 <= k < j ==> p@.contains(#[trigger] d@[k]),
        decreases d.len() - j,
    {
        if !index_listed(p, d[j]) {
            assert(d@.to_set().contains(d@[j as int]));
            return false;
        }
        j = j + 1;
    }
    assert forall|x: usize| p@.to_set().contains(x) <==> d@.to_set().contains(x) by {
        if p@.contains(x) {
            let k = choose|k: int| 0 <= k < p@.len() && p@[k] == x;
            assert(d@.contains(p@[k]));
        }
        if d@.contains(x) {
            let k = choose|k: int| 0 <= k < d@.len() && d@[k] == x;
            assert(p@.contains(d@[k]));
        }
    }
    assert(p@.to_set() =~= d@.to_set());
    true
}

/// Whether two variable lists hold the same variables.
fn same_vars(p: &Vec<u32>, d: &Vec<u32>) -> (r: bool)
    ensures
        r == (p@.to_set() == d@.to_set()),
{
    let mut i: usize = 0;
    while i < p.len()
        invariant
            0 <= i <= p.len(),
            forall|k: int| 0 <= k < i ==> d@.contains(#[trigger] p@[k]),
        decreases p.len() - i,
    {
        if !var_listed(d, p[i]) {
            assert(p@.to_set().contains(p@[i as int]));
            return false;
        }
        i = i + 1;
    }
    let mut j: usize = 0;
    while j < d.len()
        invariant
            0 <= j <= d.len(),
            forall|k: int| 0 <= k < p@.len() ==> d@.contains(#[trigger] p@[k]),
            forall|k: int| 0 <= k < j ==> p@.contains(#[trigger] d@[k]),
        decreases d.len() - j,
    {
        if !var_listed(p, d[j]) {
            assert(d@.to_set().contains(d@[j as int]));
            return false;
        }
        j = j + 1;
    }
    assert forall|x: u32| p@.to_set().contains(x) <==> d@.to_set().contains(x) by {
        if p@.contains(x) {
            let k = choose|k: int| 0 <= k < p@.len() && p@[k] == x;
            assert(d@.contains(p@[k]));
        }
        if d@.contains(x) {
            let k = choose|k: int| 0 <= k < d@.len() && d@[k] == x;
            assert(p@.contains(d@[k]));
        }
    }
    assert(p@.to_set() =~= d@.to_set());
    true
}

/// Adds the variables of `vs` not yet in `acc`.
fn add_vars(acc: &mut Vec<u32>, vs: &Vec<u32>)
    requires
        old(acc)@.no_duplicates(),
    ensures
        final(acc)@.no_duplicates(),
        final(acc)@.to_set() == old(acc)@.to_set() + vs@.to_set(),
{
    let ghost a0 = acc@;
    let mut i: usize = 0;
    assert(vs@.take(0).to_set() =~= Set::<u32>::empty());
    assert(a0.to_set() + Set::<u32>::empty() =~= a0.to_set());
    while i < vs.len()
        invariant
            0 <= i <= vs.len(),
            acc@.no_duplicates(),
            acc@.to_set() == a0.to_set() + vs@.take(i as int).to_set(),
        decreases vs.len() - i,
    {
        let x = vs[i];
        let ghost before = acc@;
        assert(vs@.take(i as int + 1) =~= vs@.take(i as int).push(x));
        proof {
            vs@.take(i as int).lemma_push_to_set_commute(x);
        }
        if !var_listed(acc, x) {
            acc.push(x);
            proof {
                before.lemma_push_to_set_commute(x);
                assert forall|p: int, q: int| 0 <= p < q < acc@.len() implies acc@[p] != acc@[q] by {
                    if q == acc@.len() - 1 {
                        assert(before.contains(before[p]));
                    }
                }
            }
        }
        assert(acc@.to_set() =~= a0.to_set() + vs@.take(i as int + 1).to_set());
        i = i + 1;
    }
    assert(vs@.take(vs.len() as int) =~= vs@);
}

/// Checks the cited split nodes in order, returning their contexts.
fn check_splits<'a>(
    nodes: &Vec<DagNode>,
    splits: &'a Vec<(usize, AvatarSplitContext)>,
    si: &Vec<usize>,
) -> (r: Result<Vec<&'a AvatarSplitContext>, KernelVerdict>)
    requires
        forall|j: int| 0 <= j < si@.len() ==> #[trigger] si@[j] < nodes@.len(),
    ensures
        match splits_error(nodes@, splits@, si@) {
            Some(e) => r matches Err(v) && v@ == e,
            None => r matches Ok(cs) && cs@.len() == si@.len()
                && forall|j: int| 0 <= j < si@.len() ==> entry_at(splits@, #[trigger] si@[j]) == Some(*cs@[j]),
        },
{
    let mut out: Vec<&'a AvatarSplitContext> = Vec::new();
    let mut i: usize = 0;
    while i < si.len()
        invariant
            0 <= i <= si@.len(),
            forall|j: int| 0 <= j < si@.len() ==> #[trigger] si@[j] < nodes@.len(),
            forall|j: int| 0 <= j < i ==> #[trigger] split_error(nodes@, splits@, si@[j]) is None,
            out@.len() == i,
            forall|j: int| 0 <= j < i ==> entry_at(splits@, #[trigger] si@[j]) == Some(*out@[j]),
        decreases si.len() - i,
    {
        let k = si[i];
        let bad_rule = !rule_is(&nodes[k], "avatar_split_clause");
        let found = if bad_rule { None } else { find_entry(splits, k) };
        if bad_rule || found.is_none() {
            proof {
                assert(split_error(nodes@, splits@, si@[i as int]) is Some);
                let c = choose|c: int| 0 <= c < si@.len() && split_error(nodes@, splits@, si@[c]) is Some
                    && forall|j: int| 0 <= j < c ==> #[trigger] split_error(nodes@, splits@, si@[j]) is None;
                if c < i {
                    assert(split_error(nodes@, splits@, si@[c]) is None);
                }
                if c > i {
                    assert(split_error(nodes@, splits@, si@[i as int]) is None);
                }
            }
            if bad_rule {
                return Err(rejected("avatar_sat_refutation cites a non-split node"));
            } else {
                return Err(rejected("avatar_sat_refutation cites an unvalidated split"));
            }
        }
        let c = found.unwrap();
        out.push(c);
        i = i + 1;
    }
    Ok(out)
}

/// Checks one assumption of a branch against the recorded splits.
fn check_assumption(splits: &Vec<(usize, AvatarSplitContext)>, a: &BranchAssumption) -> (r: Option<KernelVerdict>)
    ensures
        match assumption_error(splits@, a.split_parent, a.branch_index, a.sat_var) {
            Some(e) => r matches Some(v) && v@ == e,
            None => r is None,
        },
{
    match find_entry(splits, a.split_parent) {
        None => Some(rejected("avatar_sat_refutation branch cites an unknown split context")),
        Some(sp) => {
            let wrong = if a.branch_index >= sp.branch_vars.len() {
                true
            } else {
                match a.sat_var {
                    Some(v) => v != sp.branch_vars[a.branch_index],
                    None => true,
                }
            };
            if wrong {
                Some(rejected("avatar_sat_refutation branch has an invalid SAT assumption"))
            } else {
                None
            }
        },
    }
}

/// Every assumption of the context comes from a cited split.
fn all_cited(si: &Vec<usize>, ctx: &BranchContext) -> (r: bool)
    ensures
        r == !exists|i: int| 0 <= i < ctx.assumptions@.len() && !si@.to_set().contains(#[trigger] ctx.assumptions@[i].split_parent),
{
    let ghost asms = ctx.assumptions@;
    let mut a: usize = 0;
    while a < ctx.assumptions.len()
        invariant
            0 <= a <= asms.len(),
            asms == ctx.assumptions@,
            forall|j: int| 0 <= j < a ==> si@.to_set().contains(#[trigger] asms[j].split_parent),
        decreases ctx.assumptions.len() - a,
    {
        if !index_listed(si, ctx.assumptions[a].split_parent) {
            assert(!si@.to_set().contains(asms[a as int].split_parent));
            return false;
        }
        a = a + 1;
    }
    true
}

/// The refusal of the first refused assumption of the context, if any.
fn check_assumptions(splits: &Vec<(usize, AvatarSplitContext)>, ctx: &BranchContext) -> (r: Option<KernelVerdict>)
    ensures
        match assumptions_error(splits@, *ctx) {
            Some(e) => r matches Some(v) && v@ == e,
            None => r is None,
        },
{
    let ghost asms = ctx.assumptions@;
    let mut a: usize = 0;
    while a < ctx.assumptions.len()
        invariant
            0 <= a <= asms.len(),
            asms == ctx.assumptions@,
            forall|j: int| 0 <= j < a ==> #[trigger] assumption_error(splits@, asms[j].split_parent, asms[j].branch_index, asms[j].sat_var) is None,
        decreases ctx.assumptions.len() - a,
    {
        match check_assumption(splits, &ctx.assumptions[a]) {
            Some(v) => {
                proof {
                    let x = a as int;
                    assert(assumption_error(splits@, asms[x].split_parent, asms[x].branch_index, asms[x].sat_var) is Some);
                    let c = choose|i: int| 0 <= i < asms.len()
                        && assumption_error(splits@, asms[i].split_parent, asms[i].branch_index, asms[i].sat_var) is Some
                        && forall|j: int| 0 <= j < i ==> #[trigger] assumption_error(splits@, asms[j].split_parent, asms[j].branch_index, asms[j].sat_var) is None;
                    if c < x {
                        assert(assumption_error(splits@, asms[c].split_parent, asms[c].branch_index, asms[c].sat_var) is None);
                    }
                    if c > x {
                        assert(assumption_error(splits@, asms[x].split_parent, asms[x].branch_index, asms[x].sat_var) is None);
                    }
                }
                return Some(v);
            },
            None => {},
        }
        a = a + 1;
    }
    None
}

/// Whether an earlier root had the same context set.
fn seen_before(seen: &Vec<Vec<u32>>, nc: &Vec<u32>, Ghost(ss): Ghost<Seq<Set<u32>>>) -> (r: bool)
    requires
        seen@.len() == ss.len(),
        forall|j: int| 0 <= j < ss.len() ==> #[trigger] seen@[j]@.to_set() == ss[j],
    ensures
        r == ss.contains(nc@.to_set()),
{
    let mut j: usize = 0;
    while j < seen.len()
        invariant
            0 <= j <= seen@.len(),
            seen@.len() == ss.len(),
            forall|q: int| 0 <= q < ss.len() ==> #[trigger] seen@[q]@.to_set() == ss[q],
            forall|q: int| 0 <= q < j ==> #[trigger] ss[q] != nc@.to_set(),
        decreases seen.len() - j,
    {
        if same_vars(&seen[j], nc) {
            assert(ss[j as int] == nc@.to_set());
            return true;
        }
        j = j + 1;
    }
    proof {
        if ss.contains(nc@.to_set()) {
            let q = choose|q: int| 0 <= q < ss.len() && ss[q] == nc@.to_set();
            assert(ss[q] != nc@.to_set());
        }
    }
    false
}

/// Checks one branch root against the roots before it, whose context sets
/// `seen` lists; on success gives its context, sorted without repeats.
fn check_root(
    nodes: &Vec<DagNode>,
    contexts: &Vec<(usize, BranchContext)>,
    splits: &Vec<(usize, AvatarSplitContext)>,
    si: &Vec<usize>,
    root: usize,
    seen: &Vec<Vec<u32>>,
    Ghost(ss): Ghost<Seq<Set<u32>>>,
) -> (r: Result<Vec<u32>, KernelVerdict>)
    requires
        root < nodes@.len(),
        seen@.len() == ss.len(),
        forall|j: int| 0 <= j < ss.len() ==> #[trigger] seen@[j]@.to_set() == ss[j],
    ensures
        match root_error(nodes@, contexts@, splits@, si@.to_set(), root, ss) {
            Some(e) => r matches Err(v) && v@ == e,
            None => r matches Ok(nc) && entry_at(contexts@, root) is Some
                && normalized_of(nc@, entry_at(contexts@, root)->Some_0.sat_context@),
        },
{
    let n = &nodes[root];
    let ctx = match find_entry(contexts, root) {
        Some(c) => c,
        None => return Err(reject_branch(n.name.as_str(), "` has no context")),
    };
    if !n.is_false {
        return Err(rejected("avatar_sat_refutation branch root is not `$false`"));
    }
    if !rule_is(n, "avatar_branch_refutation") {
        return Err(rejected("avatar_sat_refutation branch root is not an AVATAR branch refutation"));
    }
    if !all_cited(si, ctx) {
        return Err(rejected("avatar_sat_refutation branch descends from an uncited split"));
    }
    match check_assumptions(splits, ctx) {
        Some(v) => return Err(v),
        None => {},
    }
    let mut nc: Vec<u32> = Vec::new();
    let mut k: usize = 0;
    while k < ctx.sat_context.len()
        invariant
            0 <= k <= ctx.sat_context@.len(),
            nc@ == ctx.sat_context@.take(k as int),
        decreases ctx.sat_context.len() - k,
    {
        nc.push(ctx.sat_context[k]);
        assert(ctx.sat_context@.take(k as int + 1) =~= ctx.sat_context@.take(k as int).push(ctx.sat_context@[k as int]));
        k = k + 1;
    }
    assert(ctx.sat_context@.take(ctx.sat_context@.len() as int) =~= ctx.sat_context@);
    normalize_avatar_vars(&mut nc);
    if seen_before(seen, &nc, Ghost(ss)) {
        return Err(rejected("avatar_sat_refutation contains a duplicate branch context"));
    }
    Ok(nc)
}

/// Checks the branch roots in order, giving their contexts sorted without
/// repeats.
fn check_roots(
    nodes: &Vec<DagNode>,
    contexts: &Vec<(usize, BranchContext)>,
    splits: &Vec<(usize, AvatarSplitContext)>,
    si: &Vec<usize>,
    bi: &Vec<usize>,
) -> (r: Result<Vec<Vec<u32>>, KernelVerdict>)
    requires
        forall|j: int| 0 <= j < bi@.len() ==> #[trigger] bi@[j] < nodes@.len(),
    ensures
        match roots_error(nodes@, contexts@, splits@, si@.to_set(), bi@) {
            Some(e) => r matches Err(v) && v@ == e,
            None => r matches Ok(seen) && seen@.len() == bi@.len()
                && forall|j: int| 0 <= j < bi@.len() ==> #[trigger] entry_at(contexts@, bi@[j]) is Some
                    && normalized_of(seen@[j]@, entry_at(contexts@, bi@[j])->Some_0.sat_context@),
        },
{
    let ghost sset = si@.to_set();
    let mut seen: Vec<Vec<u32>> = Vec::new();
    let mut i: usize = 0;
    while i < bi.len()
        invariant
            0 <= i <= bi@.len(),
            sset == si@.to_set(),
            forall|j: int| 0 <= j < bi@.len() ==> #[trigger] bi@[j] < nodes@.len(),
            seen@.len() == i,
            forall|j: int| 0 <= j < i ==> #[trigger] entry_at(contexts@, bi@[j]) is Some
                && normalized_of(seen@[j]@, entry_at(contexts@, bi@[j])->Some_0.sat_context@),
            forall|j: int| 0 <= j < i ==> #[trigger] root_error(nodes@, contexts@, splits@, sset, bi@[j],
                seen_contexts(contexts@, bi@, j)) is None,
        decreases bi.len() - i,
    {
        let ghost ss = seen_contexts(contexts@, bi@, i as int);
        proof {
            assert forall|j: int| 0 <= j < ss.len() implies #[trigger] seen@[j]@.to_set() == ss[j] by {
                assert(bi@.take(i as int)[j] == bi@[j]);
                assert(entry_at(contexts@, bi@[j]) is Some);
            }
        }
        match check_root(nodes, contexts, splits, si, bi[i], &seen, Ghost(ss)) {
            Ok(nc) => {
                seen.push(nc);
            },
            Err(v) => {
                proof {
                    let x = i as int;
                    assert(root_error(nodes@, contexts@, splits@, sset, bi@[x], seen_contexts(contexts@, bi@, x)) is Some);
                    let c = choose|c: int| 0 <= c < bi@.len()
                        && root_error(nodes@, contexts@, splits@, sset, bi@[c], seen_contexts(contexts@, bi@, c)) is Some
                        && forall|j: int| 0 <= j < c ==> #[trigger] root_error(nodes@, contexts@, splits@, sset, bi@[j], seen_contexts(contexts@, bi@, j)) is None;
                    if c < x {
                        assert(root_error(nodes@, contexts@, splits@, sset, bi@[c], seen_contexts(contexts@, bi@, c)) is None);
                    }
                    if c > x {
                        assert(root_error(nodes@, contexts@, splits@, sset, bi@[x], seen_contexts(contexts@, bi@, x)) is None);
                    }
                }
                return Err(v);
            },
        }
        i = i + 1;
    }
    Ok(seen)
}

/// The number of SAT variables of the instance.
fn count_instance_vars(
    split_ctxs: &Vec<&AvatarSplitContext>,
    seen: &Vec<Vec<u32>>,
    Ghost(sctx): Ghost<Seq<AvatarSplitContext>>,
    Ghost(bctx): Ghost<Seq<BranchContext>>,
) -> (n: usize)
    requires
        split_ctxs@.len() == sctx.len(),
        forall|j: int| 0 <= j < sctx.len() ==> #[trigger] sctx[j] == *split_ctxs@[j],
        seen@.len() == bctx.len(),
        forall|j: int| 0 <= j < bctx.len() ==> normalized_of(#[trigger] seen@[j]@, bctx[j].sat_context@),
    ensures
        instance_vars(sctx, bctx).finite(),
        n == instance_vars(sctx, bctx).len(),
{
    let mut vars: Vec<u32> = Vec::new();
    let mut k: usize = 0;
    assert(vars@.to_set() =~= Set::<u32>::empty());
    while k < split_ctxs.len()
        invariant
            0 <= k <= split_ctxs@.len(),
            split_ctxs@.len() == sctx.len(),
            forall|j: int| 0 <= j < sctx.len() ==> #[trigger] sctx[j] == *split_ctxs@[j],
            vars@.no_duplicates(),
            forall|v: u32| #[trigger] vars@.to_set().contains(v) <==> exists|i: int| 0 <= i < k
                && (#[trigger] sctx[i].branch_vars@.contains(v) || sctx[i].inherited_vars@.contains(v)),
        decreases split_ctxs.len() - k,
    {
        let sc = split_ctxs[k];
        assert(sctx[k as int] == *sc);
        let ghost before = vars@.to_set();
        add_vars(&mut vars, &sc.branch_vars);
        add_vars(&mut vars, &sc.inherited_vars);
        assert forall|v: u32| #[trigger] vars@.to_set().contains(v) <==> exists|i: int| 0 <= i < k + 1
            && (#[trigger] sctx[i].branch_vars@.contains(v) || sctx[i].inherited_vars@.contains(v)) by {
            if vars@.to_set().contains(v) && !before.contains(v) {
                assert(sc.branch_vars@.to_set().contains(v) || sc.inherited_vars@.to_set().contains(v));
                assert(sctx[k as int].branch_vars@.contains(v) || sctx[k as int].inherited_vars@.contains(v));
            }
            if exists|i: int| 0 <= i < k + 1 && (#[trigger] sctx[i].branch_vars@.contains(v) || sctx[i].inherited_vars@.contains(v)) {
                let i = choose|i: int| 0 <= i < k + 1 && (#[trigger] sctx[i].branch_vars@.contains(v) || sctx[i].inherited_vars@.contains(v));
                if i < k {
                    assert(before.contains(v));
                } else {
                    assert(sc.branch_vars@.to_set().contains(v) || sc.inherited_vars@.to_set().contains(v));
                }
            }
        }
        k = k + 1;
    }
    assert forall|v: u32| #[trigger] vars@.to_set().contains(v) <==> (exists|i: int| 0 <= i < sctx.len()
        && (#[trigger] sctx[i].branch_vars@.contains(v) || sctx[i].inherited_vars@.contains(v)))
        || (exists|i: int| 0 <= i < 0 && #[trigger] bctx[i].sat_context@.contains(v)) by {
        assert(k == sctx.len());
    }
    let mut k: usize = 0;
    while k < seen.len()
        invariant
            0 <= k <= seen@.len(),
            seen@.len() == bctx.len(),
            forall|j: int| 0 <= j < bctx.len() ==> normalized_of(#[trigger] seen@[j]@, bctx[j].sat_context@),
            vars@.no_duplicates(),
            forall|v: u32| #[trigger] vars@.to_set().contains(v) <==> (exists|i: int| 0 <= i < sctx.len()
                && (#[trigger] sctx[i].branch_vars@.contains(v) || sctx[i].inherited_vars@.contains(v)))
                || (exists|i: int| 0 <= i < k && #[trigger] bctx[i].sat_context@.contains(v)),
        decreases seen.len() - k,
    {
        let ghost before = vars@.to_set();
        assert(normalized_of(seen@[k as int]@, bctx[k as int].sat_context@));
        add_vars(&mut vars, &seen[k]);
        assert forall|v: u32| #[trigger] vars@.to_set().contains(v) <==> (exists|i: int| 0 <= i < sctx.len()
            && (#[trigger] sctx[i].branch_vars@.contains(v) || sctx[i].inherited_vars@.contains(v)))
            || (exists|i: int| 0 <= i < k + 1 && #[trigger] bctx[i].sat_context@.contains(v)) by {
            if vars@.to_set().contains(v) && !before.contains(v) {
                assert(seen@[k as int]@.to_set().contains(v));
                assert(bctx[k as int].sat_context@.to_set().contains(v));
            }
            if bctx[k as int].sat_context@.contains(v) {
                assert(bctx[k as int].sat_context@.to_set().contains(v));
                assert(seen@[k as int]@.to_set().contains(v));
            }
        }
        k = k + 1;
    }
    proof {
        assert(vars@.to_set() =~= instance_vars(sctx, bctx));
        vars@.unique_seq_to_set();
    }
    vars.len()
}

/// The SAT instance of the cited splits and refuted branches.
fn build_instance(
    split_ctxs: &Vec<&AvatarSplitContext>,
    seen: &Vec<Vec<u32>>,
    Ghost(sctx): Ghost<Seq<AvatarSplitContext>>,
    Ghost(bctx): Ghost<Seq<BranchContext>>,
) -> (cls: Vec<Vec<i32>>)
    requires
        split_ctxs@.len() == sctx.len(),
        forall|j: int| 0 <= j < sctx.len() ==> #[trigger] sctx[j] == *split_ctxs@[j],
        forall|j: int| 0 <= j < sctx.len() ==> negatable(#[trigger] sctx[j].inherited_vars@),
        seen@.len() == bctx.len(),
        forall|j: int| 0 <= j < bctx.len() ==> normalized_of(#[trigger] seen@[j]@, bctx[j].sat_context@),
        forall|j: int| 0 <= j < bctx.len() ==> negatable(#[trigger] bctx[j].sat_context@),
    ensures
        solver_instance(manifest_view(cls@), sctx, bctx),
{
    let mut cls: Vec<Vec<i32>> = Vec::new();
    let mut k: usize = 0;
    while k < split_ctxs.len()
        invariant
            0 <= k <= split_ctxs@.len(),
            split_ctxs@.len() == sctx.len(),
            forall|j: int| 0 <= j < sctx.len() ==> #[trigger] sctx[j] == *split_ctxs@[j],
            forall|j: int| 0 <= j < sctx.len() ==> negatable(#[trigger] sctx[j].inherited_vars@),
            cls@.len() == k,
            forall|j: int| 0 <= j < k ==> #[trigger] cls@[j]@ == split_manifest_clause(sctx[j]),
        decreases split_ctxs.len() - k,
    {
        let sc = split_ctxs[k];
        assert(sctx[k as int] == *sc);
        let mut c: Vec<i32> = Vec::new();
        signed_vars(&sc.branch_vars, false, &mut c);
        signed_vars(&sc.inherited_vars, true, &mut c);
        assert(c@ =~= split_manifest_clause(*sc));
        cls.push(c);
        k = k + 1;
    }
    let mut k: usize = 0;
    while k < seen.len()
        invariant
            0 <= k <= seen@.len(),
            seen@.len() == bctx.len(),
            forall|j: int| 0 <= j < bctx.len() ==> normalized_of(#[trigger] seen@[j]@, bctx[j].sat_context@),
            forall|j: int| 0 <= j < bctx.len() ==> negatable(#[trigger] bctx[j].sat_context@),
            cls@.len() == sctx.len() + k,
            forall|j: int| 0 <= j < sctx.len() ==> #[trigger] cls@[j]@ == split_manifest_clause(sctx[j]),
            forall|j: int| 0 <= j < k ==> context_clause(#[trigger] cls@[sctx.len() + j]@, bctx[j].sat_context@),
        decreases seen.len() - k,
    {
        let ghost sat = bctx[k as int].sat_context@;
        let ghost nk = seen@[k as int]@;
        proof {
            assert(negatable(sat));
            assert(normalized_of(nk, sat));
            assert forall|q: int| 0 <= q < nk.len() implies (#[trigger] nk[q]) as i32 != i32::MIN by {
                let v = nk[q];
                assert(nk.to_set().contains(v));
                assert(sat.to_set().contains(v));
                let p = choose|p: int| 0 <= p < sat.len() && sat[p] == v;
                assert((sat[p]) as i32 != i32::MIN);
            }
        }
        let mut c: Vec<i32> = Vec::new();
        signed_vars(&seen[k], true, &mut c);
        assert(c@ =~= negated(nk));
        let ghost before = cls@;
        cls.push(c);
        proof {
            assert(context_clause(cls@[sctx.len() + k]@, sat));
            assert forall|j: int| 0 <= j < sctx.len() implies #[trigger] cls@[j]@ == split_manifest_clause(sctx[j]) by {
                assert(cls@[j] == before[j]);
            }
            assert forall|j: int| 0 <= j < k + 1 implies context_clause(#[trigger] cls@[sctx.len() + j]@, bctx[j].sat_context@) by {
                if j < k {
                    assert(cls@[sctx.len() + j] == before[sctx.len() + j]);
                }
            }
        }
        k = k + 1;
    }
    proof {
        assert forall|j: int| 0 <= j < sctx.len() implies #[trigger] manifest_view(cls@)[j] == split_manifest_clause(sctx[j]) by {
            assert(manifest_view(cls@)[j] == cls@[j]@);
        }
        assert forall|j: int| 0 <= j < bctx.len() implies context_clause(#[trigger] manifest_view(cls@)[sctx.len() + j], bctx[j].sat_context@) by {
            assert(manifest_view(cls@)[sctx.len() + j] == cls@[sctx.len() + j]@);
        }
    }
    cls
}

/// Checks an `avatar_sat_refutation` step: the cited split nodes and
/// branch roots, found by name, must be exactly the step's parents,
/// validated splits and refuted branches with sound SAT assumptions and
/// distinct contexts. With a SAT trace (`actual_digest` being the digest of
/// its payload) the trace must replay and be bound to them; without one
/// the step ends with the SAT instance they stand for, for a solver.
pub fn verify_avatar_sat_refutation(
    node_is_false: bool,
    nodes: &Vec<DagNode>,
    parent_indices: &Vec<usize>,
    contexts: &Vec<(usize, BranchContext)>,
    splits: &Vec<(usize, AvatarSplitContext)>,
    annotation: &Option<AvatarSatInfo>,
    actual_digest: [u8; 32],
    limits: VerificationLimits,
) -> (r: AvatarSatStep)
    requires
        forall|i: int| 0 <= i < splits@.len() ==> negatable(#[trigger] splits@[i].1.inherited_vars@),
        forall|i: int| 0 <= i < contexts@.len() ==> negatable(#[trigger] contexts@[i].1.sat_context@),
    ensures
        avatar_sat_outcome(node_is_false, nodes@, parent_indices@, contexts@, splits@, *annotation, actual_digest@, limits, r),
{
    if !node_is_false || parent_indices.len() < 2 {
        return AvatarSatStep::Done(rejected("avatar_sat_refutation must conclude `$false` from a split and branches"));
    }
    let info = match annotation {
        Some(a) => a,
        None => return AvatarSatStep::Done(inconclusive("avatar_sat_refutation lacks explicit SAT metadata")),
    };
    let t = &info.trace;
    let traced = t.format.is_some() || t.variables.is_some() || t.digest.is_some() || t.original_ids.len() > 0
        || t.cited_indices.len() > 0 || t.clauses.len() > 0 || t.bytes.is_some();
    if traced {
        match verify_avatar_sat_trace(t, actual_digest, limits) {
            Err(v) => return AvatarSatStep::Done(v),
            Ok(()) => {},
        }
    }
    let si = match find_nodes(nodes, &info.split_nodes) {
        Some(v) => v,
        None => return AvatarSatStep::Done(rejected("avatar_sat_refutation references an unknown split node")),
    };
    let bi = match find_nodes(nodes, &info.branch_roots) {
        Some(v) => v,
        None => return AvatarSatStep::Done(rejected("avatar_sat_refutation references an unknown branch root")),
    };
    if si.len() == 0 || bi.len() == 0 {
        return AvatarSatStep::Done(rejected("avatar_sat_refutation must cite split nodes and branch roots"));
    }
    let meta = distinct_union(&si, &bi);
    proof {
        meta@.unique_seq_to_set();
    }
    if parent_indices.len() != meta.len() || !same_index_sets(parent_indices, &meta) {
        return AvatarSatStep::Done(rejected("avatar_sat_refutation metadata does not match its parent list"));
    }
    let split_ctxs = match check_splits(nodes, splits, &si) {
        Ok(cs) => cs,
        Err(v) => return AvatarSatStep::Done(v),
    };
    let seen = match check_roots(nodes, contexts, splits, &si, &bi) {
        Ok(seen) => seen,
        Err(v) => return AvatarSatStep::Done(v),
    };
    if traced {
        proof {
            assert forall|i: int| 0 <= i < si@.len() implies (#[trigger] entry_at(splits@, si@[i]) matches Some(c)
                ==> negatable(c.inherited_vars@)) by {
                lemma_entry_member(splits@, si@[i]);
            }
            assert forall|i: int| 0 <= i < bi@.len() implies (#[trigger] entry_at(contexts@, bi@[i]) matches Some(c)
                ==> negatable(c.sat_context@)) by {
                lemma_entry_member(contexts@, bi@[i]);
            }
        }
        let bound = verify_avatar_sat_manifest_binding(t, &si, &bi, splits, contexts);
        proof {
            assert(t.clauses@.map_values(|c: Vec<i32>| c@) == manifest_view(t.clauses@));
        }
        match bound {
            Ok(()) => return AvatarSatStep::Done(KernelVerdict::Certified),
            Err(v) => return AvatarSatStep::Done(v),
        }
    }
    let ghost sctx = si@.map_values(|k: usize| entry_at(splits@, k)->Some_0);
    let ghost bctx = bi@.map_values(|k: usize| entry_at(contexts@, k)->Some_0);
    proof {
        assert forall|j: int| 0 <= j < si@.len() implies #[trigger] sctx[j] == *split_ctxs@[j] by {
            assert(entry_at(splits@, si@[j]) == Some(*split_ctxs@[j]));
        }
        assert forall|j: int| 0 <= j < bi@.len() implies normalized_of(#[trigger] seen@[j]@, bctx[j].sat_context@) by {
            assert(entry_at(contexts@, bi@[j]) is Some);
        }
        assert forall|j: int| 0 <= j < si@.len() implies negatable(#[trigger] sctx[j].inherited_vars@) by {
            lemma_entry_member(splits@, si@[j]);
        }
        assert forall|j: int| 0 <= j < bi@.len() implies negatable(#[trigger] bctx[j].sat_context@) by {
            lemma_entry_member(contexts@, bi@[j]);
        }
    }
    let count = count_instance_vars(&split_ctxs, &seen, Ghost(sctx), Ghost(bctx));
    if count > limits.max_avatar_steps {
        return AvatarSatStep::Done(inconclusive("avatar_sat_refutation exceeded strict SAT-variable limit"));
    }
    let cls = build_instance(&split_ctxs, &seen, Ghost(sctx), Ghost(bctx));
    AvatarSatStep::Solve(cls)
}

/// The verdict a SAT solver's answer gives an AVATAR refutation: refuted
/// when the instance is unsatisfiable.
pub fn avatar_sat_solver_verdict(outcome: SolveOutcome) -> (v: KernelVerdict)
    ensures
        v@ == match outcome {
            SolveOutcome::Unsat => VerdictView::Certified,
            SolveOutcome::Unknown => VerdictView::Inconclusive("avatar_sat_refutation SAT verification inconclusive"@),
            SolveOutcome::Sat => VerdictView::Rejected("avatar_sat_refutation leaves a satisfiable SAT assignment unrefuted"@),
        },
{
    match outcome {
        SolveOutcome::Unsat => KernelVerdict::Certified,
        SolveOutcome::Unknown => inconclusive("avatar_sat_refutation SAT verification inconclusive"),
        SolveOutcome::Sat => rejected("avatar_sat_refutation leaves a satisfiable SAT assignment unrefuted"),
    }
}

} // verus!
