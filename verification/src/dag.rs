//! The order in which proof steps are checked: parents before children,
//! the smallest ready step first.
use vstd::prelude::*;
use crate::verdict::{KernelVerdict, VerdictView, rejected};

verus! {

/// Every parent of node `i` is among `done`.
pub open spec fn parents_done(parents: Seq<Seq<usize>>, i: int, done: Seq<usize>) -> bool {
    forall|k: int| 0 <= k < parents[i].len() ==> done.contains(#[trigger] parents[i][k])
}

/// Node `i` is not yet ordered and all its parents are.
pub open spec fn is_ready(parents: Seq<Seq<usize>>, done: Seq<usize>, i: int) -> bool {
    &&& 0 <= i < parents.len()
    &&& !done.contains(i as usize)
    &&& parents_done(parents, i, done)
}

/// The smallest ready node from `i` on.
pub open spec fn first_ready(parents: Seq<Seq<usize>>, done: Seq<usize>, i: int) -> Option<usize>
    decreases parents.len() - i,
{
    if i < 0 || i >= parents.len() {
        None
    } else if is_ready(parents, done, i) {
        Some(i as usize)
    } else {
        first_ready(parents, done, i + 1)
    }
}

/// The order after `k` steps of taking the smallest ready node.
pub open spec fn kahn_steps(parents: Seq<Seq<usize>>, k: nat) -> Seq<usize>
    decreases k,
{
    if k == 0 {
        Seq::empty()
    } else {
        let done = kahn_steps(parents, (k - 1) as nat);
        match first_ready(parents, done, 0) {
            Some(i) => done.push(i),
            None => done,
        }
    }
}

/// The checking order: the nodes taken smallest-ready-first, as many steps
/// as there are nodes.
pub open spec fn kahn_order(parents: Seq<Seq<usize>>) -> Seq<usize> {
    kahn_steps(parents, parents.len())
}

/// Every parent index names a node.
pub open spec fn parents_in_range(parents: Seq<Seq<usize>>) -> bool {
    forall|i: int, k: int| 0 <= i < parents.len() && 0 <= k < parents[i].len() ==> #[trigger] parents[i][k] < parents.len()
}

/// How many entries of `ps` are not among `done`.
pub open spec fn count_pending(ps: Seq<usize>, done: Seq<usize>) -> nat
    decreases ps.len(),
{
    if ps.len() == 0 {
        0
    } else {
        count_pending(ps.drop_last(), done) + if done.contains(ps.last()) { 0nat } else { 1nat }
    }
}

/// How often `x` occurs in `s`.
pub open spec fn occurrences(s: Seq<usize>, x: usize) -> nat
    decreases s.len(),
{
    if s.len() == 0 {
        0
    } else {
        occurrences(s.drop_last(), x) + if s.last() == x { 1nat } else { 0nat }
    }
}

proof fn lemma_pending_zero(ps: Seq<usize>, done: Seq<usize>)
    ensures
        (count_pending(ps, done) == 0) <==> (forall|k: int| 0 <= k < ps.len() ==> done.contains(#[trigger] ps[k])),
    decreases ps.len(),
{
    if ps.len() > 0 {
        lemma_pending_zero(ps.drop_last(), done);
        if count_pending(ps, done) == 0 {
            assert forall|k: int| 0 <= k < ps.len() implies done.contains(#[trigger] ps[k]) by {
                if k < ps.len() - 1 {
                    assert(ps[k] == ps.drop_last()[k]);
                }
            }
        }
        if forall|k: int| 0 <= k < ps.len() ==> done.contains(#[trigger] ps[k]) {
            assert forall|k: int| 0 <= k < ps.drop_last().len() implies done.contains(#[trigger] ps.drop_last()[k]) by {
                assert(ps.drop_last()[k] == ps[k]);
            }
            assert(done.contains(ps[ps.len() - 1]));
        }
    }
}

proof fn lemma_pending_push(ps: Seq<usize>, done: Seq<usize>, m: usize)
    requires
        !done.contains(m),
    ensures
        count_pending(ps, done) == count_pending(ps, done.push(m)) + occurrences(ps, m),
    decreases ps.len(),
{
    if ps.len() > 0 {
        lemma_pending_push(ps.drop_last(), done, m);
        let x = ps.last();
        if x == m {
            assert(done.push(m).contains(m)) by {
                assert(done.push(m)[done.len() as int] == m);
            }
        } else {
            if done.push(m).contains(x) {
                let j = choose|j: int| 0 <= j < done.push(m).len() && done.push(m)[j] == x;
                assert(j < done.len());
                assert(done[j] == x);
            }
            if done.contains(x) {
                let j = choose|j: int| 0 <= j < done.len() && done[j] == x;
                assert(done.push(m)[j] == x);
            }
        }
    }
}

proof fn lemma_occurrences_push(s: Seq<usize>, x: usize, y: usize)
    ensures
        occurrences(s.push(y), x) == occurrences(s, x) + if y == x { 1nat } else { 0nat },
{
    assert(s.push(y).drop_last() =~= s);
}

proof fn lemma_occurrences_zero(s: Seq<usize>, x: usize)
    ensures
        (occurrences(s, x) == 0) <==> !s.contains(x),
    decreases s.len(),
{
    if s.len() > 0 {
        lemma_occurrences_zero(s.drop_last(), x);
        if s.drop_last().contains(x) {
            let j = choose|j: int| 0 <= j < s.drop_last().len() && s.drop_last()[j] == x;
            assert(s[j] == x);
        }
        if s.contains(x) && s.last() != x {
            let j = choose|j: int| 0 <= j < s.len() && s[j] == x;
            assert(s.drop_last()[j] == x);
        }
    }
}

/// The first `k` steps are a prefix of the first `k + 1`.
proof fn lemma_steps_prefix(parents: Seq<Seq<usize>>, k: nat)
    ensures
        kahn_steps(parents, k + 1) == kahn_steps(parents, k)
            || kahn_steps(parents, k + 1) == kahn_steps(parents, k).push(first_ready(parents, kahn_steps(parents, k), 0)->Some_0),
{
}

proof fn lemma_first_ready_is_ready(parents: Seq<Seq<usize>>, done: Seq<usize>, i: int)
    requires
        0 <= i,
        parents.len() <= usize::MAX,
    ensures
        first_ready(parents, done, i) matches Some(m) ==> is_ready(parents, done, m as int) && i <= m,
        first_ready(parents, done, i) is None ==> forall|j: int| i <= j < parents.len() ==> !is_ready(parents, done, j),
        first_ready(parents, done, i) matches Some(m) ==> forall|j: int| i <= j < m ==> !is_ready(parents, done, j),
    decreases parents.len() - i,
{
    if 0 <= i < parents.len() && !is_ready(parents, done, i) {
        lemma_first_ready_is_ready(parents, done, i + 1);
    }
}

/// Children lists as the reverse of parent lists, counting multiplicity.
pub open spec fn children_of(parents: Seq<Seq<usize>>, children: Seq<Seq<usize>>) -> bool {
    &&& children.len() == parents.len()
    &&& forall|p: usize, c: usize| p < parents.len() && c < parents.len()
        ==> #[trigger] occurrences(children[p as int], c) == #[trigger] occurrences(parents[c as int], p)
    &&& forall|p: int, k: int| 0 <= p < children.len() && 0 <= k < children[p].len() ==> #[trigger] children[p][k] < parents.len()
}

/// How many flags are set.
spec fn count_true(s: Seq<bool>) -> nat
    decreases s.len(),
{
    if s.len() == 0 {
        0
    } else {
        count_true(s.drop_last()) + if s.last() { 1nat } else { 0nat }
    }
}

proof fn lemma_count_none(n: nat)
    ensures
        count_true(Seq::new(n, |x: int| false)) == 0,
    decreases n,
{
    if n > 0 {
        assert(Seq::new(n, |x: int| false).drop_last() =~= Seq::new((n - 1) as nat, |x: int| false));
        lemma_count_none((n - 1) as nat);
    }
}

proof fn lemma_count_le(s: Seq<bool>)
    ensures
        count_true(s) <= s.len(),
    decreases s.len(),
{
    if s.len() > 0 {
        lemma_count_le(s.drop_last());
    }
}

proof fn lemma_count_set(s: Seq<bool>, i: int)
    requires
        0 <= i < s.len(),
        !s[i],
    ensures
        count_true(s.update(i, true)) == count_true(s) + 1,
    decreases s.len(),
{
    let t = s.update(i, true);
    if i < s.len() - 1 {
        assert(t.drop_last() =~= s.drop_last().update(i, true));
        lemma_count_set(s.drop_last(), i);
    } else {
        assert(t.drop_last() =~= s.drop_last());
    }
}

proof fn lemma_count_lt(s: Seq<bool>, i: int)
    requires
        0 <= i < s.len(),
        !s[i],
    ensures
        count_true(s) < s.len(),
{
    lemma_count_set(s, i);
    lemma_count_le(s.update(i, true));
}

proof fn lemma_occurrences_take(s: Seq<usize>, t: int, x: usize)
    requires
        0 <= t < s.len(),
    ensures
        occurrences(s.take(t + 1), x) == occurrences(s.take(t), x) + if s[t] == x { 1nat } else { 0nat },
        occurrences(s.take(t + 1), x) <= occurrences(s, x),
    decreases s.len() - t,
{
    assert(s.take(t + 1).drop_last() =~= s.take(t));
    if t + 1 < s.len() {
        lemma_occurrences_take(s, t + 1, x);
    } else {
        assert(s.take(t + 1) =~= s);
    }
}

proof fn lemma_pending_empty(ps: Seq<usize>)
    ensures
        count_pending(ps, Seq::empty()) == ps.len(),
    decreases ps.len(),
{
    if ps.len() > 0 {
        lemma_pending_empty(ps.drop_last());
    }
}

spec fn kids_view(cv: Seq<Seq<usize>>, m: usize) -> Seq<usize> {
    cv[m as int]
}

/// The parent lists as values.
pub open spec fn lists_view(v: Seq<Vec<usize>>) -> Seq<Seq<usize>> {
    v.map_values(|x: Vec<usize>| x@)
}

/// The order in which to check a proof's nodes, given each node's parent
/// indices: every node after all its parents, the smallest ready node
/// first; rejected when the parent graph has a cycle.
pub fn topo_sort(parents: &Vec<Vec<usize>>) -> (r: Result<Vec<usize>, KernelVerdict>)
    requires
        parents_in_range(lists_view(parents@)),
    ensures
        match r {
            Ok(order) => order@ == kahn_order(lists_view(parents@)) && order@.len() == parents@.len(),
            Err(v) => v@ == VerdictView::Rejected("cycle in proof parent graph"@)
                && kahn_order(lists_view(parents@)).len() != parents@.len(),
        },
{
    let ghost pv = lists_view(parents@);
    let n = parents.len();
    let mut indegree: Vec<usize> = Vec::new();
    let mut children: Vec<Vec<usize>> = Vec::new();
    let mut i: usize = 0;
    while i < n
        invariant
            0 <= i <= n,
            n == parents@.len(),
            indegree@.len() == i,
            children@.len() == i,
            forall|j: int| 0 <= j < i ==> #[trigger] indegree@[j] == 0,
            forall|j: int| 0 <= j < i ==> (#[trigger] children@[j])@.len() == 0,
        decreases n - i,
    {
        indegree.push(0);
        children.push(Vec::new());
        i = i + 1;
    }
    let mut idx: usize = 0;
    proof {
        assert forall|p: int, c: int| 0 <= p < n && 0 <= c < n implies #[trigger] occurrences(children@[p]@, c as usize) == 0 by {
            assert(children@[p]@.len() == 0);
        }
        assert forall|p: int, k: int| 0 <= p < n && 0 <= k < children@[p]@.len() implies #[trigger] children@[p]@[k] < 0 by {
            assert(children@[p]@.len() == 0);
        }
    }
    while idx < n
        invariant
            0 <= idx <= n,
            n == parents@.len(),
            pv == lists_view(parents@),
            parents_in_range(pv),
            indegree@.len() == n,
            children@.len() == n,
            forall|j: int| 0 <= j < n ==> #[trigger] indegree@[j] == if j < idx { pv[j].len() } else { 0 },
            forall|p: int, c: int| 0 <= p < n && 0 <= c < n ==> #[trigger] occurrences(children@[p]@, c as usize)
                == if c < idx { occurrences(pv[c], p as usize) } else { 0 },
            forall|p: int, k: int| 0 <= p < n && 0 <= k < children@[p]@.len() ==> #[trigger] children@[p]@[k] < idx,
        decreases n - idx,
    {
        assert(pv[idx as int] == parents@[idx as int]@);
        let mut k: usize = 0;
        while k < parents[idx].len()
            invariant
                0 <= idx < n,
                0 <= k <= pv[idx as int].len(),
                n == parents@.len(),
                pv == lists_view(parents@),
                pv[idx as int] == parents@[idx as int]@,
                parents_in_range(pv),
                indegree@.len() == n,
                children@.len() == n,
                forall|j: int| 0 <= j < n ==> #[trigger] indegree@[j] == if j < idx { pv[j].len() } else if j == idx { k as nat } else { 0 },
                forall|p: int, c: int| 0 <= p < n && 0 <= c < n ==> #[trigger] occurrences(children@[p]@, c as usize)
                    == if c < idx { occurrences(pv[c], p as usize) } else if c == idx { occurrences(pv[c].take(k as int), p as usize) } else { 0 },
                forall|p: int, q: int| 0 <= p < n && 0 <= q < children@[p]@.len() ==> #[trigger] children@[p]@[q] <= idx,
            decreases parents@[idx as int]@.len() - k,
        {
            let p = parents[idx][k];
            assert(p < n);
            indegree.set(idx, indegree[idx] + 1);
            let ghost before = children@[p as int]@;
            let mut list = copy_indices(&children[p]);
            list.push(idx);
            children.set(p, list);
            proof {
                lemma_occurrences_take(pv[idx as int], k as int, p);
                assert forall|pp: int, c: int| 0 <= pp < n && 0 <= c < n implies #[trigger] occurrences(children@[pp]@, c as usize)
                    == if c < idx { occurrences(pv[c], pp as usize) } else if c == idx { occurrences(pv[c].take(k as int + 1), pp as usize) } else { 0 } by {
                    lemma_occurrences_take(pv[idx as int], k as int, pp as usize);
                    if pp == p as int {
                        lemma_occurrences_push(before, c as usize, idx);
                    }
                }
            }
            k = k + 1;
        }
        proof {
            assert(pv[idx as int].take(pv[idx as int].len() as int) =~= pv[idx as int]);
        }
        idx = idx + 1;
    }
    proof {
        let cl = lists_view(children@);
        assert forall|p: usize, c: usize| p < pv.len() && c < pv.len()
            implies #[trigger] occurrences(cl[p as int], c) == #[trigger] occurrences(pv[c as int], p) by {
            assert(cl[p as int] == children@[p as int]@);
            assert(occurrences(children@[p as int]@, (c as int) as usize) == occurrences(pv[c as int], (p as int) as usize));
        }
        assert forall|p: int, k: int| 0 <= p < cl.len() && 0 <= k < cl[p].len() implies #[trigger] cl[p][k] < pv.len() by {
            assert(cl[p] == children@[p]@);
        }
    }
    assert(children_of(pv, lists_view(children@)));
    let mut ready: Vec<usize> = Vec::new();
    let mut j: usize = 0;
    proof {
        assert forall|x: int| 0 <= x < n implies #[trigger] indegree@[x] == count_pending(pv[x], Seq::<usize>::empty()) by {
            lemma_pending_empty(pv[x]);
        }
    }
    while j < n
        invariant
            0 <= j <= n,
            n == parents@.len(),
            indegree@.len() == n,
            ready@.no_duplicates(),
            forall|x: usize| ready@.contains(x) <==> x < j && indegree@[x as int] == 0,
        decreases n - j,
    {
        let ghost before = ready@;
        if indegree[j] == 0 {
            proof {
                assert(!before.contains(j));
            }
            ready.push(j);
            proof {
                assert forall|x: usize| ready@.contains(x) <==> before.contains(x) || x == j by {
                    if ready@.contains(x) && x != j {
                        let q = choose|q: int| 0 <= q < ready@.len() && ready@[q] == x;
                        assert(before[q] == x);
                    }
                    if before.contains(x) {
                        let q = choose|q: int| 0 <= q < before.len() && before[q] == x;
                        assert(ready@[q] == x);
                    }
                    if x == j {
                        assert(ready@[before.len() as int] == j);
                    }
                }
                assert forall|x: usize| ready@.contains(x) <==> x < j + 1 && indegree@[x as int] == 0 by {
                    assert(before.contains(x) <==> x < j && indegree@[x as int] == 0);
                }
            }
        } else {
            proof {
                assert forall|x: usize| ready@.contains(x) <==> x < j + 1 && indegree@[x as int] == 0 by {
                    assert(before.contains(x) <==> x < j && indegree@[x as int] == 0);
                    if x == j {
                        assert(!before.contains(j));
                    }
                }
            }
        }
        j = j + 1;
    }
    topo_drain(parents, indegree, children, ready)
}

fn copy_indices(v: &Vec<usize>) -> (r: Vec<usize>)
    ensures
        r@ == v@,
{
    let mut out: Vec<usize> = Vec::new();
    let mut i: usize = 0;
    while i < v.len()
        invariant
            0 <= i <= v.len(),
            out@ == v@.take(i as int),
        decreases v.len() - i,
    {
        out.push(v[i]);
        i = i + 1;
        assert(out@ =~= v@.take(i as int));
    }
    assert(v@.take(v@.len() as int) =~= v@);
    out
}

/// Takes the smallest ready node until none is left, releasing its
/// children.
fn topo_drain(
    parents: &Vec<Vec<usize>>,
    indegree: Vec<usize>,
    children: Vec<Vec<usize>>,
    ready: Vec<usize>,
) -> (r: Result<Vec<usize>, KernelVerdict>)
    requires
        parents_in_range(lists_view(parents@)),
        children_of(lists_view(parents@), lists_view(children@)),
        indegree@.len() == parents@.len(),
        forall|x: int| 0 <= x < parents@.len() ==> #[trigger] indegree@[x] == count_pending(lists_view(parents@)[x], Seq::<usize>::empty()),
        ready@.no_duplicates(),
        forall|x: usize| ready@.contains(x) <==> x < parents@.len() && indegree@[x as int] == 0,
    ensures
        match r {
            Ok(order) => order@ == kahn_order(lists_view(parents@)) && order@.len() == parents@.len(),
            Err(v) => v@ == VerdictView::Rejected("cycle in proof parent graph"@)
                && kahn_order(lists_view(parents@)).len() != parents@.len(),
        },
{
    let ghost pv = lists_view(parents@);
    let ghost cv = lists_view(children@);
    let n = parents.len();
    let mut indegree = indegree;
    let mut ready = ready;
    let mut order: Vec<usize> = Vec::new();
    let ghost mut ordered: Seq<bool> = Seq::new(n as nat, |x: int| false);
    proof {
        lemma_count_none(n as nat);
    }
    while ready.len() > 0
        invariant
            n == parents@.len(),
            pv == lists_view(parents@),
            cv == lists_view(children@),
            parents_in_range(pv),
            children_of(pv, cv),
            indegree@.len() == n,
            ordered.len() == n,
            order@.len() == count_true(ordered),
            forall|x: int| 0 <= x < n ==> (#[trigger] ordered[x] <==> order@.contains(x as usize)),
            forall|k: int| 0 <= k < order@.len() ==> #[trigger] order@[k] < n,
            order@ == kahn_steps(pv, order@.len() as nat),
            forall|x: int| 0 <= x < n ==> #[trigger] indegree@[x] == count_pending(pv[x], order@),
            forall|k: int| 0 <= k < order@.len() ==> #[trigger] parents_done(pv, order@[k] as int, order@),
            ready@.no_duplicates(),
            forall|x: usize| ready@.contains(x) <==> x < n && !order@.contains(x) && indegree@[x as int] == 0,
        decreases n - order@.len(),
    {
        let mut mi: usize = 0;
        let mut t: usize = 1;
        while t < ready.len()
            invariant
                0 <= mi < ready@.len(),
                1 <= t <= ready@.len(),
                forall|q: int| 0 <= q < t ==> ready@[mi as int] <= #[trigger] ready@[q],
            decreases ready.len() - t,
        {
            if ready[t] < ready[mi] {
                mi = t;
            }
            t = t + 1;
        }
        let ghost old_order = order@;
        let ghost old_ready = ready@;
        let m = ready.remove(mi);
        proof {
            assert(old_ready.contains(m));
            assert(is_ready(pv, old_order, m as int)) by {
                lemma_pending_zero(pv[m as int], old_order);
            }
            lemma_first_ready_is_ready(pv, old_order, 0);
            let f = first_ready(pv, old_order, 0)->Some_0;
            assert(is_ready(pv, old_order, f as int));
            assert(f == m) by {
                lemma_pending_zero(pv[f as int], old_order);
                assert(old_ready.contains(f));
                let q = choose|q: int| 0 <= q < old_ready.len() && old_ready[q] == f;
                assert(m <= old_ready[q]);
            }
            assert(!ordered[m as int]);
            lemma_count_lt(ordered, m as int);
            lemma_count_set(ordered, m as int);
            ordered = ordered.update(m as int, true);
            assert forall|x: usize| ready@.contains(x) implies x != m by {
                let q = choose|q: int| 0 <= q < ready@.len() && ready@[q] == x;
                if q < mi {
                    assert(old_ready[q] == x);
                } else {
                    assert(old_ready[q + 1] == x);
                }
            }
        }
        order.push(m);
        proof {
            assert(order@ == kahn_steps(pv, order@.len() as nat));
            assert forall|x: int| 0 <= x < n implies (#[trigger] ordered[x] <==> order@.contains(x as usize)) by {
                if x == m as int {
                    assert(order@[order@.len() - 1] == m);
                } else if order@.contains(x as usize) {
                    let q = choose|q: int| 0 <= q < order@.len() && order@[q] == x as usize;
                    assert(q < old_order.len());
                    assert(old_order[q] == x as usize);
                } else if old_order.contains(x as usize) {
                    let q = choose|q: int| 0 <= q < old_order.len() && old_order[q] == x as usize;
                    assert(order@[q] == x as usize);
                }
            }
            assert forall|k: int| 0 <= k < order@.len() implies #[trigger] parents_done(pv, order@[k] as int, order@) by {
                let x = order@[k] as int;
                if k < old_order.len() {
                    assert(order@[k] == old_order[k]);
                    assert(parents_done(pv, x, old_order));
                }
                assert forall|q: int| 0 <= q < pv[x].len() implies order@.contains(#[trigger] pv[x][q]) by {
                    assert(old_order.contains(pv[x][q]));
                    let w = choose|w: int| 0 <= w < old_order.len() && old_order[w] == pv[x][q];
                    assert(order@[w] == pv[x][q]);
                }
            }
        }
        proof {
            assert forall|x: usize| ready@.contains(x) <==> x < n && !order@.contains(x) && indegree@[x as int] == 0 by {
                if ready@.contains(x) {
                    let q = choose|q: int| 0 <= q < ready@.len() && ready@[q] == x;
                    if q < mi {
                        assert(old_ready[q] == x);
                    } else {
                        assert(old_ready[q + 1] == x);
                    }
                    assert(old_ready.contains(x));
                    assert(x != m);
                    assert(!old_order.contains(x));
                    if order@.contains(x) {
                        let w = choose|w: int| 0 <= w < order@.len() && order@[w] == x;
                        if w < old_order.len() {
                            assert(old_order[w] == x);
                        }
                    }
                }
                if x < n && !order@.contains(x) && indegree@[x as int] == 0 {
                    assert(x != m) by {
                        if x == m {
                            assert(order@[order@.len() - 1] == m);
                        }
                    }
                    assert(!old_order.contains(x)) by {
                        if old_order.contains(x) {
                            let w = choose|w: int| 0 <= w < old_order.len() && old_order[w] == x;
                            assert(order@[w] == x);
                        }
                    }
                    assert(old_ready.contains(x));
                    let q = choose|q: int| 0 <= q < old_ready.len() && old_ready[q] == x;
                    assert(q != mi);
                    if q < mi {
                        assert(ready@[q] == x);
                    } else {
                        assert(ready@[q - 1] == x);
                    }
                }
            }
            assert forall|x: int| 0 <= x < n implies count_pending(pv[x], old_order) == count_pending(pv[x], order@) + #[trigger] occurrences(pv[x], m) by {
                lemma_pending_push(pv[x], old_order, m);
            }
            assert forall|x: int| 0 <= x < n implies #[trigger] indegree@[x] + occurrences(kids_view(cv, m).take(0), x as usize) == count_pending(pv[x], old_order) by {
                assert(kids_view(cv, m).take(0).len() == 0);
            }
        }
        let kids = &children[m];
        assert(cv[m as int] == kids@);
        let mut c: usize = 0;
        while c < kids.len()
            invariant
                n == parents@.len(),
                pv == lists_view(parents@),
                cv == lists_view(children@),
                parents_in_range(pv),
                children_of(pv, cv),
                m < n,
                cv[m as int] == kids@,
                0 <= c <= kids@.len(),
                indegree@.len() == n,
                order@ == old_order.push(m),
                !old_order.contains(m),
                is_ready(pv, old_order, m as int),
                forall|k: int| 0 <= k < order@.len() ==> #[trigger] parents_done(pv, order@[k] as int, order@),
                forall|k: int| 0 <= k < old_order.len() ==> #[trigger] parents_done(pv, old_order[k] as int, old_order),
                forall|x: int| 0 <= x < n ==> #[trigger] indegree@[x] + occurrences(kids@.take(c as int), x as usize) == count_pending(pv[x], old_order),
                forall|x: int| 0 <= x < n ==> count_pending(pv[x], old_order) == count_pending(pv[x], order@) + #[trigger] occurrences(pv[x], m),
                ready@.no_duplicates(),
                forall|x: usize| ready@.contains(x) <==> x < n && !order@.contains(x) && indegree@[x as int] == 0,
            decreases kids.len() - c,
        {
            let child = kids[c];
            let ghost ready_before = ready@;
            proof {
                assert(child < n);
                lemma_occurrences_take(kids@, c as int, child);
                assert(occurrences(cv[m as int], child) == occurrences(pv[child as int], m));
                lemma_pending_push(pv[child as int], old_order, m);
                assert(indegree@[child as int] > 0);
                assert(!ready@.contains(child));
            }
            indegree.set(child, indegree[child] - 1);
            if indegree[child] == 0 {
                proof {
                    assert(occurrences(pv[child as int], m) > 0);
                    lemma_occurrences_zero(pv[child as int], m);
                    assert(pv[child as int].contains(m));
                    let w = choose|w: int| 0 <= w < pv[child as int].len() && pv[child as int][w] == m;
                    if old_order.contains(child) {
                        let k = choose|k: int| 0 <= k < old_order.len() && old_order[k] == child;
                        assert(parents_done(pv, old_order[k] as int, old_order));
                        assert(old_order.contains(pv[child as int][w]));
                    }
                    if child == m {
                        assert(parents_done(pv, m as int, old_order));
                        assert(old_order.contains(pv[m as int][w]));
                    }
                    assert(!order@.contains(child)) by {
                        if order@.contains(child) {
                            let q = choose|q: int| 0 <= q < order@.len() && order@[q] == child;
                            if q < old_order.len() {
                                assert(old_order[q] == child);
                            }
                        }
                    }
                }
                ready.push(child);
                proof {
                    assert forall|x: usize| ready@.contains(x) <==> ready_before.contains(x) || x == child by {
                        if ready@.contains(x) && x != child {
                            let q = choose|q: int| 0 <= q < ready@.len() && ready@[q] == x;
                            assert(ready_before[q] == x);
                        }
                        if ready_before.contains(x) {
                            let q = choose|q: int| 0 <= q < ready_before.len() && ready_before[q] == x;
                            assert(ready@[q] == x);
                        }
                        if x == child {
                            assert(ready@[ready_before.len() as int] == child);
                        }
                    }
                }
            }
            proof {
                assert forall|x: int| 0 <= x < n implies #[trigger] indegree@[x] + occurrences(kids@.take(c as int + 1), x as usize) == count_pending(pv[x], old_order) by {
                    lemma_occurrences_take(kids@, c as int, x as usize);
                }
                assert forall|x: usize| ready@.contains(x) <==> x < n && !order@.contains(x) && indegree@[x as int] == 0 by {
                    if x != child {
                        assert(ready@.contains(x) <==> ready_before.contains(x));
                    } else if indegree@[child as int] != 0 {
                        assert(!ready_before.contains(child));
                        assert(!ready@.contains(child));
                    }
                }
            }
            c = c + 1;
        }
        proof {
            assert(kids@.take(kids@.len() as int) =~= kids@);
            assert forall|x: int| 0 <= x < n implies #[trigger] indegree@[x] == count_pending(pv[x], order@) by {
                assert(occurrences(cv[m as int], x as usize) == occurrences(pv[x], m));
            }
        }
    }
    proof {
        lemma_first_ready_is_ready(pv, order@, 0);
        if first_ready(pv, order@, 0) is Some {
            let f = first_ready(pv, order@, 0)->Some_0;
            lemma_pending_zero(pv[f as int], order@);
            assert(ready@.contains(f));
        }
        lemma_count_le(ordered);
        lemma_steps_fixpoint(pv, order@.len() as nat, n as nat);
    }
    if order.len() != n {
        return Err(rejected("cycle in proof parent graph"));
    }
    Ok(order)
}

/// Once no node is ready, further steps change nothing.
proof fn lemma_steps_fixpoint(parents: Seq<Seq<usize>>, k: nat, total: nat)
    requires
        k <= total,
        first_ready(parents, kahn_steps(parents, k), 0) is None,
    ensures
        kahn_steps(parents, total) == kahn_steps(parents, k),
    decreases total - k,
{
    if k < total {
        assert(kahn_steps(parents, k + 1) == kahn_steps(parents, k));
        lemma_steps_fixpoint(parents, k + 1, total);
    }
}

/// Every node of the order comes after all of its parents, and no node
/// comes twice.
pub open spec fn topological(parents: Seq<Seq<usize>>, order: Seq<usize>) -> bool {
    &&& order.no_duplicates()
    &&& forall|k: int| 0 <= k < order.len() ==> #[trigger] order[k] < parents.len()
    &&& forall|k: int, q: int| 0 <= k < order.len() && 0 <= q < parents[order[k] as int].len()
        ==> #[trigger] order.take(k).contains(parents[order[k] as int][q])
}

/// Law: the checking order lists each node at most once, and each node
/// after all of its parents.
pub proof fn lemma_kahn_order_topological(parents: Seq<Seq<usize>>)
    requires
        parents.len() <= usize::MAX,
    ensures
        topological(parents, kahn_order(parents)),
{
    lemma_steps_topological(parents, parents.len());
}

proof fn lemma_steps_topological(parents: Seq<Seq<usize>>, k: nat)
    requires
        parents.len() <= usize::MAX,
    ensures
        topological(parents, kahn_steps(parents, k)),
    decreases k,
{
    if k > 0 {
        lemma_steps_topological(parents, (k - 1) as nat);
        let done = kahn_steps(parents, (k - 1) as nat);
        lemma_first_ready_is_ready(parents, done, 0);
        match first_ready(parents, done, 0) {
            Some(m) => {
                let o = done.push(m);
                assert(o.take(done.len() as int) =~= done);
                assert forall|i: int, j: int| 0 <= i < o.len() && 0 <= j < o.len() && i != j implies o[i] != o[j] by {
                    if i == done.len() {
                        assert(done.contains(o[j]));
                    } else if j == done.len() {
                        assert(done.contains(o[i]));
                    }
                }
                assert forall|x: int, q: int| 0 <= x < o.len() && 0 <= q < parents[o[x] as int].len()
                    implies #[trigger] o.take(x).contains(parents[o[x] as int][q]) by {
                    if x < done.len() {
                        assert(o.take(x) =~= done.take(x));
                        assert(done.take(x).contains(parents[done[x] as int][q]));
                    } else {
                        assert(parents_done(parents, m as int, done));
                        assert(done.contains(parents[m as int][q]));
                    }
                }
            },
            None => {},
        }
    }
}

/// A closed walk along parent edges: each node is a parent of the next,
/// and the walk ends where it starts.
pub open spec fn parent_cycle(parents: Seq<Seq<usize>>, c: Seq<usize>) -> bool {
    &&& c.len() >= 2
    &&& c[0] == c[c.len() - 1]
    &&& forall|t: int| 0 <= t < c.len() - 1 ==> #[trigger] c[t + 1] < parents.len()
        && parents[c[t + 1] as int].contains(c[t])
}

/// Distinct numbers below `n` are at most `n` many.
proof fn lemma_distinct_below(s: Seq<usize>, n: nat)
    requires
        s.no_duplicates(),
        forall|k: int| 0 <= k < s.len() ==> (#[trigger] s[k] as nat) < n,
    ensures
        s.len() <= n,
    decreases n,
{
    if n == 0 {
        if s.len() > 0 {
            assert((s[0] as nat) < 0);
        }
    } else {
        let top = (n - 1) as usize;
        if s.contains(top) {
            let i = choose|i: int| 0 <= i < s.len() && s[i] == top;
            let t = s.remove(i);
            assert forall|a: int, b: int| 0 <= a < t.len() && 0 <= b < t.len() && a != b implies t[a] != t[b] by {
                let a2 = if a < i { a } else { a + 1 };
                let b2 = if b < i { b } else { b + 1 };
                assert(t[a] == s[a2] && t[b] == s[b2]);
            }
            assert forall|k: int| 0 <= k < t.len() implies (#[trigger] t[k] as nat) < (n - 1) as nat by {
                let k2 = if k < i { k } else { k + 1 };
                assert(t[k] == s[k2]);
                assert(s[k2] != top);
            }
            lemma_distinct_below(t, (n - 1) as nat);
        } else {
            assert forall|k: int| 0 <= k < s.len() implies (#[trigger] s[k] as nat) < (n - 1) as nat by {
                assert(s[k] != top);
            }
            lemma_distinct_below(s, (n - 1) as nat);
        }
    }
}

/// Distinct numbers that include all below `n` are at least `n` many.
proof fn lemma_covering_distinct(s: Seq<usize>, n: nat)
    requires
        s.no_duplicates(),
        forall|x: usize| (x as nat) < n ==> s.contains(x),
        n <= usize::MAX + 1,
    ensures
        s.len() >= n,
    decreases n,
{
    if n > 0 {
        let top = (n - 1) as usize;
        assert(s.contains(top));
        let i = choose|i: int| 0 <= i < s.len() && s[i] == top;
        let t = s.remove(i);
        assert forall|a: int, b: int| 0 <= a < t.len() && 0 <= b < t.len() && a != b implies t[a] != t[b] by {
            let a2 = if a < i { a } else { a + 1 };
            let b2 = if b < i { b } else { b + 1 };
            assert(t[a] == s[a2] && t[b] == s[b2]);
        }
        assert forall|x: usize| (x as nat) < (n - 1) as nat implies t.contains(x) by {
            assert(s.contains(x));
            let j = choose|j: int| 0 <= j < s.len() && s[j] == x;
            assert(j != i);
            if j < i {
                assert(t[j] == x);
            } else {
                assert(t[j - 1] == x);
            }
        }
        lemma_covering_distinct(t, (n - 1) as nat);
    }
}

/// A parent of `u` outside `done`, when there is one.
spec fn open_parent(parents: Seq<Seq<usize>>, done: Seq<usize>, u: usize) -> usize {
    choose|p: usize| parents[u as int].contains(p) && !done.contains(p)
}

/// From `u`, `k` times to an open parent.
spec fn open_walk(parents: Seq<Seq<usize>>, done: Seq<usize>, u: usize, k: nat) -> usize
    decreases k,
{
    if k == 0 {
        u
    } else {
        open_parent(parents, done, open_walk(parents, done, u, (k - 1) as nat))
    }
}

/// Law: when the order leaves a node out, the parent graph has a cycle.
pub proof fn lemma_short_order_has_cycle(parents: Seq<Seq<usize>>)
    requires
        parents_in_range(parents),
        parents.len() <= usize::MAX,
        kahn_order(parents).len() != parents.len(),
    ensures
        exists|c: Seq<usize>| #[trigger] parent_cycle(parents, c),
{
    let n = parents.len();
    let done = kahn_order(parents);
    lemma_kahn_order_topological(parents);
    // The order stopped early: no node is ready.
    assert(first_ready(parents, done, 0) is None) by {
        lemma_steps_len(parents, n);
        if first_ready(parents, done, 0) is Some {
            lemma_distinct_below(done, n);
        }
    }
    lemma_first_ready_is_ready(parents, done, 0);
    // Some node is left out.
    let u0: usize = choose|x: usize| (x as nat) < n && !done.contains(x);
    assert((u0 as nat) < n && !done.contains(u0)) by {
        if !(exists|x: usize| (x as nat) < n && !done.contains(x)) {
            lemma_covering_distinct(done, n);
            lemma_distinct_below(done, n);
        }
    }
    // Every left-out node has a left-out parent.
    assert forall|u: usize| (u as nat) < n && !done.contains(u) implies
        parents[u as int].contains(#[trigger] open_parent(parents, done, u)) && !done.contains(open_parent(parents, done, u))
        && (open_parent(parents, done, u) as nat) < n by {
        assert(!is_ready(parents, done, u as int));
        let q = choose|q: int| 0 <= q < parents[u as int].len() && !done.contains(#[trigger] parents[u as int][q]);
        assert(parents[u as int].contains(parents[u as int][q]));
    }
    // Walking n steps back along parents repeats a node.
    let w = Seq::new(n + 1, |k: int| open_walk(parents, done, u0, k as nat));
    assert forall|k: int| 0 <= k < w.len() implies (#[trigger] w[k] as nat) < n && !done.contains(w[k]) by {
        lemma_walk_open(parents, done, u0, k as nat);
    }
    assert(!w.no_duplicates()) by {
        if w.no_duplicates() {
            lemma_distinct_below(w, n);
        }
    }
    let (i, j) = choose|i: int, j: int| 0 <= i < w.len() && 0 <= j < w.len() && i != j && w[i] == w[j];
    let (a, b) = if i < j { (i, j) } else { (j, i) };
    let c = Seq::new((b - a + 1) as nat, |t: int| w[b - t]);
    assert forall|t: int| 0 <= t < c.len() - 1 implies #[trigger] c[t + 1] < parents.len()
        && parents[c[t + 1] as int].contains(c[t]) by {
        lemma_walk_open(parents, done, u0, (b - t - 1) as nat);
        assert(w[b - t] == open_parent(parents, done, w[b - t - 1]));
    }
    assert(parent_cycle(parents, c));
}

proof fn lemma_walk_open(parents: Seq<Seq<usize>>, done: Seq<usize>, u0: usize, k: nat)
    requires
        (u0 as nat) < parents.len() && !done.contains(u0),
        forall|u: usize| (u as nat) < parents.len() && !done.contains(u) ==>
            parents[u as int].contains(#[trigger] open_parent(parents, done, u)) && !done.contains(open_parent(parents, done, u))
            && (open_parent(parents, done, u) as nat) < parents.len(),
    ensures
        (open_walk(parents, done, u0, k) as nat) < parents.len(),
        !done.contains(open_walk(parents, done, u0, k)),
    decreases k,
{
    if k > 0 {
        lemma_walk_open(parents, done, u0, (k - 1) as nat);
    }
}

/// After `k` steps the order has at most `k` nodes, and `k` when every step
/// found a ready node.
proof fn lemma_steps_len(parents: Seq<Seq<usize>>, k: nat)
    ensures
        kahn_steps(parents, k).len() <= k,
        first_ready(parents, kahn_steps(parents, k), 0) is Some ==> kahn_steps(parents, k).len() == k,
    decreases k,
{
    if k > 0 {
        lemma_steps_len(parents, (k - 1) as nat);
        let prev = kahn_steps(parents, (k - 1) as nat);
        if first_ready(parents, kahn_steps(parents, k), 0) is Some && first_ready(parents, prev, 0) is None {
            assert(kahn_steps(parents, k) == prev);
        }
    }
}

} // verus!
