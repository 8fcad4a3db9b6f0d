//! Binding an AVATAR SAT trace's manifest to the splits and branches it
//! cites: each cited manifest clause must be the clause that the split or
//! branch stands for in the SAT encoding.
use vstd::prelude::*;
use crate::verdict::{KernelVerdict, VerdictView, rejected};
use crate::branch::BranchContext;
use crate::avatar_rules::{AvatarSplitContext, entry_at, find_entry};
use crate::sat_trace::AvatarSatTrace;

verus! {

/// Each variable can be negated once read as an `i32`.
pub open spec fn negatable(vars: Seq<u32>) -> bool {
    forall|j: int| 0 <= j < vars.len() ==> (#[trigger] vars[j]) as i32 != i32::MIN
}

/// The SAT clause a split stands for: one of its branches holds unless an
/// inherited assumption fails.
pub open spec fn split_manifest_clause(c: AvatarSplitContext) -> Seq<i32> {
    c.branch_vars@.map_values(|v: u32| v as i32) + c.inherited_vars@.map_values(|v: u32| (-(v as i32)) as i32)
}

/// The SAT clause a refuted branch stands for: not all of its context holds.
pub open spec fn branch_manifest_clause(c: BranchContext) -> Seq<i32> {
    c.sat_context@.map_values(|v: u32| (-(v as i32)) as i32)
}

/// The cited splits, then the cited branches, as manifest clauses; `None`
/// when one is not recorded.
pub open spec fn expected_manifest(
    split_indices: Seq<usize>,
    branch_indices: Seq<usize>,
    splits: Seq<(usize, AvatarSplitContext)>,
    contexts: Seq<(usize, BranchContext)>,
) -> Seq<Seq<i32>> {
    split_indices.map_values(|s: usize| split_manifest_clause(entry_at(splits, s)->Some_0))
        + branch_indices.map_values(|b: usize| branch_manifest_clause(entry_at(contexts, b)->Some_0))
}

/// Citation `k` repeats an earlier one.
pub open spec fn cites_again(cited: Seq<usize>, k: int) -> bool {
    cited.take(k).contains(cited[k])
}

/// Citation `k` names a manifest clause other than the expected one.
pub open spec fn cites_wrong(cited: Seq<usize>, clauses: Seq<Seq<i32>>, expected: Seq<Seq<i32>>, k: int) -> bool {
    !(cited[k] < clauses.len() && clauses[cited[k] as int] == expected[k])
}

pub open spec fn bad_citation(cited: Seq<usize>, clauses: Seq<Seq<i32>>, expected: Seq<Seq<i32>>, k: int) -> bool {
    cites_again(cited, k) || cites_wrong(cited, clauses, expected, k)
}

/// Citation `k` is the first bad one.
pub open spec fn first_bad_citation(cited: Seq<usize>, clauses: Seq<Seq<i32>>, expected: Seq<Seq<i32>>, k: int) -> bool {
    &&& 0 <= k < cited.len()
    &&& bad_citation(cited, clauses, expected, k)
    &&& forall|j: int| 0 <= j < k ==> !#[trigger] bad_citation(cited, clauses, expected, j)
}

/// What binding the manifest gives: every cited split and branch must be
/// recorded, there must be one citation for each, and citation `k` must
/// name, for the first time, the manifest clause equal to the `k`-th
/// expected clause; the first bad citation decides the error.
pub open spec fn manifest_binding_outcome(
    cited: Seq<usize>,
    clauses: Seq<Seq<i32>>,
    split_indices: Seq<usize>,
    branch_indices: Seq<usize>,
    splits: Seq<(usize, AvatarSplitContext)>,
    contexts: Seq<(usize, BranchContext)>,
    r: Result<(), KernelVerdict>,
) -> bool {
    if exists|i: int| 0 <= i < split_indices.len() && #[trigger] entry_at(splits, split_indices[i]) is None {
        r matches Err(v) && v@ == VerdictView::Rejected("avatar SAT trace references an unvalidated split"@)
    } else if exists|i: int| 0 <= i < branch_indices.len() && #[trigger] entry_at(contexts, branch_indices[i]) is None {
        r matches Err(v) && v@ == VerdictView::Rejected("avatar SAT trace references an unknown branch"@)
    } else {
        let expected = expected_manifest(split_indices, branch_indices, splits, contexts);
        if expected.len() != cited.len() {
            r matches Err(v) && v@ == VerdictView::Rejected(
                "avatar SAT trace citation indices do not match cited split and branch count"@)
        } else if forall|k: int| 0 <= k < cited.len() ==> !#[trigger] bad_citation(cited, clauses, expected, k) {
            r is Ok
        } else {
            let k = choose|k: int| first_bad_citation(cited, clauses, expected, k);
            if cites_again(cited, k) {
                r matches Err(v) && v@ == VerdictView::Rejected("avatar SAT trace cites one manifest clause more than once"@)
            } else {
                r matches Err(v) && v@ == VerdictView::Rejected(
                    "avatar SAT trace citation does not match its AVATAR certificate"@)
            }
        }
    }
}

pub(crate) fn signed_vars(vars: &Vec<u32>, negate: bool, out: &mut Vec<i32>)
    requires
        negate ==> negatable(vars@),
    ensures
        final(out)@ == old(out)@ + if negate {
            vars@.map_values(|v: u32| (-(v as i32)) as i32)
        } else {
            vars@.map_values(|v: u32| v as i32)
        },
{
    let ghost start = out@;
    let mut i: usize = 0;
    while i < vars.len()
        invariant
            0 <= i <= vars.len(),
            negate ==> negatable(vars@),
            out@ == start + if negate {
                vars@.take(i as int).map_values(|v: u32| (-(v as i32)) as i32)
            } else {
                vars@.take(i as int).map_values(|v: u32| v as i32)
            },
        decreases vars.len() - i,
    {
        let v = vars[i] as i32;
        if negate {
            assert((vars@[i as int] as i32) != i32::MIN);
            out.push(-v);
        } else {
            out.push(v);
        }
        proof {
            assert(vars@.take(i as int + 1) =~= vars@.take(i as int).push(vars@[i as int]));
        }
        i = i + 1;
        proof {
            if negate {
                assert(out@ =~= start + vars@.take(i as int).map_values(|v: u32| (-(v as i32)) as i32));
            } else {
                assert(out@ =~= start + vars@.take(i as int).map_values(|v: u32| v as i32));
            }
        }
    }
    assert(vars@.take(vars@.len() as int) =~= vars@);
}

fn same_clause(a: &Vec<i32>, b: &Vec<i32>) -> (r: bool)
    ensures
        r == (a@ == b@),
{
    if a.len() != b.len() {
        return false;
    }
    let mut i: usize = 0;
    while i < a.len()
        invariant
            0 <= i <= a.len(),
            a@.len() == b@.len(),
            forall|k: int| 0 <= k < i ==> a@[k] == b@[k],
        decreases a.len() - i,
    {
        if a[i] != b[i] {
            return false;
        }
        i = i + 1;
    }
    assert(a@ =~= b@);
    true
}

fn contains_usize(v: &Vec<usize>, x: usize, upto: usize) -> (r: bool)
    requires
        upto <= v@.len(),
    ensures
        r == v@.take(upto as int).contains(x),
{
    let mut i: usize = 0;
    while i < upto
        invariant
            0 <= i <= upto <= v@.len(),
            forall|k: int| 0 <= k < i ==> v@[k] != x,
        decreases upto - i,
    {
        if v[i] == x {
            assert(v@.take(upto as int)[i as int] == x);
            return true;
        }
        i = i + 1;
    }
    false
}

/// Checks that the trace's manifest cites exactly the given splits and
/// branches, each by the clause it stands for in the SAT encoding.
#[verifier::loop_isolation(false)]
pub fn verify_avatar_sat_manifest_binding(
    trace: &AvatarSatTrace,
    split_indices: &Vec<usize>,
    branch_indices: &Vec<usize>,
    splits: &Vec<(usize, AvatarSplitContext)>,
    contexts: &Vec<(usize, BranchContext)>,
) -> (r: Result<(), KernelVerdict>)
    requires
        forall|i: int| 0 <= i < split_indices@.len() ==> (#[trigger] entry_at(splits@, split_indices@[i]) matches Some(c)
            ==> negatable(c.inherited_vars@)),
        forall|i: int| 0 <= i < branch_indices@.len() ==> (#[trigger] entry_at(contexts@, branch_indices@[i]) matches Some(c)
            ==> negatable(c.sat_context@)),
    ensures
        manifest_binding_outcome(
            trace.cited_indices@,
            trace.clauses@.map_values(|c: Vec<i32>| c@),
            split_indices@,
            branch_indices@,
            splits@,
            contexts@,
            r,
        ),
{
    let ghost si = split_indices@;
    let ghost bi = branch_indices@;
    let mut expected: Vec<Vec<i32>> = Vec::new();
    let mut i: usize = 0;
    while i < split_indices.len()
        invariant
            0 <= i <= split_indices.len(),
            forall|k: int| 0 <= k < i ==> #[trigger] entry_at(splits@, si[k]) is Some,
            expected@.map_values(|c: Vec<i32>| c@) == si.take(i as int).map_values(
                |s: usize| split_manifest_clause(entry_at(splits@, s)->Some_0)),
        decreases split_indices.len() - i,
    {
        let split = match find_entry(splits, split_indices[i]) {
            Some(s) => s,
            None => return Err(rejected("avatar SAT trace references an unvalidated split")),
        };
        assert(entry_at(splits@, si[i as int]) matches Some(c) ==> negatable(c.inherited_vars@));
        let mut clause: Vec<i32> = Vec::new();
        signed_vars(&split.branch_vars, false, &mut clause);
        signed_vars(&split.inherited_vars, true, &mut clause);
        assert(clause@ =~= split_manifest_clause(*split));
        let ghost before = expected@;
        expected.push(clause);
        proof {
            assert(si.take(i as int + 1) =~= si.take(i as int).push(si[i as int]));
            assert(expected@.map_values(|c: Vec<i32>| c@) =~= before.map_values(|c: Vec<i32>| c@).push(clause@));
        }
        i = i + 1;
    }
    assert(si.take(si.len() as int) =~= si);
    let mut j: usize = 0;
    while j < branch_indices.len()
        invariant
            0 <= j <= branch_indices.len(),
            forall|k: int| 0 <= k < si.len() ==> #[trigger] entry_at(splits@, si[k]) is Some,
            forall|k: int| 0 <= k < j ==> #[trigger] entry_at(contexts@, bi[k]) is Some,
            expected@.map_values(|c: Vec<i32>| c@) == si.map_values(
                |s: usize| split_manifest_clause(entry_at(splits@, s)->Some_0)) + bi.take(j as int).map_values(
                |b: usize| branch_manifest_clause(entry_at(contexts@, b)->Some_0)),
        decreases branch_indices.len() - j,
    {
        let context = match find_entry(contexts, branch_indices[j]) {
            Some(c) => c,
            None => return Err(rejected("avatar SAT trace references an unknown branch")),
        };
        assert(entry_at(contexts@, bi[j as int]) matches Some(c) ==> negatable(c.sat_context@));
        let mut clause: Vec<i32> = Vec::new();
        signed_vars(&context.sat_context, true, &mut clause);
        assert(clause@ =~= branch_manifest_clause(*context));
        let ghost before = expected@;
        expected.push(clause);
        proof {
            assert(bi.take(j as int + 1) =~= bi.take(j as int).push(bi[j as int]));
            assert(expected@.map_values(|c: Vec<i32>| c@) =~= before.map_values(|c: Vec<i32>| c@).push(clause@));
        }
        j = j + 1;
    }
    assert(bi.take(bi.len() as int) =~= bi);
    let ghost ev = expected@.map_values(|c: Vec<i32>| c@);
    let ghost cited = trace.cited_indices@;
    let ghost clauses = trace.clauses@.map_values(|c: Vec<i32>| c@);
    assert(ev == expected_manifest(si, bi, splits@, contexts@));
    if expected.len() != trace.cited_indices.len() {
        return Err(rejected("avatar SAT trace citation indices do not match cited split and branch count"));
    }
    let mut k: usize = 0;
    while k < expected.len()
        invariant
            0 <= k <= expected.len(),
            expected.len() == cited.len(),
            forall|j: int| 0 <= j < k ==> !#[trigger] bad_citation(cited, clauses, ev, j),
        decreases expected.len() - k,
    {
        let index = trace.cited_indices[k];
        if contains_usize(&trace.cited_indices, index, k) {
            assert(first_bad_citation(cited, clauses, ev, k as int));
            proof {
                let c = choose|c: int| first_bad_citation(cited, clauses, ev, c);
                assert(c == k) by {
                    if c < k {
                        assert(!bad_citation(cited, clauses, ev, c));
                    } else if c > k {
                        assert(!bad_citation(cited, clauses, ev, k as int));
                    }
                }
            }
            return Err(rejected("avatar SAT trace cites one manifest clause more than once"));
        }
        let matches = index < trace.clauses.len() && same_clause(&trace.clauses[index], &expected[k]);
        proof {
            if index < trace.clauses.len() {
                assert(clauses[index as int] == trace.clauses@[index as int]@);
                assert(ev[k as int] == expected@[k as int]@);
            }
        }
        if !matches {
            assert(first_bad_citation(cited, clauses, ev, k as int));
            proof {
                let c = choose|c: int| first_bad_citation(cited, clauses, ev, c);
                assert(c == k) by {
                    if c < k {
                        assert(!bad_citation(cited, clauses, ev, c));
                    } else if c > k {
                        assert(!bad_citation(cited, clauses, ev, k as int));
                    }
                }
            }
            return Err(rejected("avatar SAT trace citation does not match its AVATAR certificate"));
        }
        k = k + 1;
    }
    Ok(())
}

} // verus!
