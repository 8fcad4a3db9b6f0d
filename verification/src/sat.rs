//! Propositional clause semantics, reverse-unit-propagation checks and the
//! replay of LRAT and FRAT-with-LRAT-hints refutation traces.
use vstd::prelude::*;
use std::collections::HashMap;
use std::collections::HashSet;

verus! {

broadcast use vstd::std_specs::hash::group_hash_axioms;

/// A literal is true under an assignment of truth values to variables.
pub open spec fn lit_holds(m: spec_fn(int) -> bool, l: i32) -> bool {
    if l > 0 {
        m(l as int)
    } else {
        !m(-(l as int))
    }
}

/// A clause (a disjunction of literals) is true under an assignment.
pub open spec fn clause_holds(m: spec_fn(int) -> bool, c: Seq<i32>) -> bool {
    exists|i: int| 0 <= i < c.len() && lit_holds(m, #[trigger] c[i])
}

/// Every clause of a clause list is true under an assignment.
pub open spec fn clauses_hold(m: spec_fn(int) -> bool, cs: Seq<Seq<i32>>) -> bool {
    forall|i: int| 0 <= i < cs.len() ==> clause_holds(m, #[trigger] cs[i])
}

/// A clause list has a satisfying assignment.
pub open spec fn satisfiable(cs: Seq<Seq<i32>>) -> bool {
    exists|m: spec_fn(int) -> bool| clauses_hold(m, cs)
}

/// Literals are non-zero and can be negated in 32-bit arithmetic.
pub open spec fn literal_ok(l: i32) -> bool {
    l != 0 && l != i32::MIN
}

pub open spec fn clause_ok(c: Seq<i32>) -> bool {
    forall|i: int| 0 <= i < c.len() ==> literal_ok(#[trigger] c[i])
}

pub open spec fn negatable(c: Seq<i32>) -> bool {
    forall|i: int| 0 <= i < c.len() ==> #[trigger] c[i] != i32::MIN
}

/// The complementary literal.
pub open spec fn neg(l: i32) -> i32 {
    (-l) as i32
}

/// A clause that holds a literal and its complement.
pub open spec fn is_tautology(c: Seq<i32>) -> bool {
    exists|i: int, j: int| 0 <= i < c.len() && 0 <= j < c.len() && #[trigger] c[i] == -#[trigger] c[j]
}

/// Whether a clause contains a complementary pair of literals.
pub fn is_tautology_kernel(clause: &[i32]) -> (r: bool)
    requires
        negatable(clause@),
    ensures
        r == is_tautology(clause@),
{
    let mut i: usize = 0;
    while i < clause.len()
        invariant
            0 <= i <= clause.len(),
            negatable(clause@),
            forall|a: int, b: int| 0 <= a < i && 0 <= b < clause@.len() ==> clause@[a] != -clause@[b],
        decreases clause.len() - i,
    {
        let neg = -clause[i];
        let mut j: usize = 0;
        while j < clause.len()
            invariant
                0 <= j <= clause.len(),
                0 <= i < clause.len(),
                neg == -clause@[i as int],
                forall|b: int| 0 <= b < j ==> clause@[b] != neg,
            decreases clause.len() - j,
        {
            if clause[j] == neg {
                assert(clause@[j as int] == -clause@[i as int]);
                return true;
            }
            j = j + 1;
        }
        i = i + 1;
    }
    false
}

/// A tautology is true under every assignment.
pub proof fn lemma_tautology_holds(m: spec_fn(int) -> bool, c: Seq<i32>)
    requires
        is_tautology(c),
        clause_ok(c),
    ensures
        clause_holds(m, c),
{
    let (i, j) = choose|i: int, j: int|
        0 <= i < c.len() && 0 <= j < c.len() && #[trigger] c[i] == -#[trigger] c[j];
    assert(literal_ok(c[i]) && literal_ok(c[j]));
    if lit_holds(m, c[i]) {
    } else {
        assert(lit_holds(m, c[j]));
    }
}

/// The literals of `c` whose complement is not yet assigned, in order.
pub open spec fn unassigned(a: Set<i32>, c: Seq<i32>) -> Seq<i32>
    decreases c.len(),
{
    if c.len() == 0 {
        Seq::empty()
    } else {
        let p = unassigned(a, c.drop_last());
        if !a.contains(neg(c.last())) {
            p.push(c.last())
        } else {
            p
        }
    }
}

/// State of unit propagation over the antecedent list.
pub enum RupState {
    /// Propagation goes on with these literals assigned true.
    Open(Set<i32>),
    /// An antecedent became falsified: the conclusion is implied.
    Conflict,
    /// An antecedent had two or more unassigned literals.
    Stuck,
}

/// One propagation step over an antecedent clause.
pub open spec fn rup_clause_step(a: Set<i32>, c: Seq<i32>) -> RupState {
    if exists|i: int| 0 <= i < c.len() && a.contains(#[trigger] c[i]) {
        RupState::Open(a)
    } else {
        let u = unassigned(a, c);
        if u.len() == 0 {
            RupState::Conflict
        } else if u.len() == 1 {
            RupState::Open(a.insert(u[0]))
        } else {
            RupState::Stuck
        }
    }
}

/// The complements of the conclusion's literals: the starting assignment.
pub open spec fn negated_literals(c: Seq<i32>) -> Set<i32> {
    Set::new(|x: i32| exists|i: int| 0 <= i < c.len() && x == neg(#[trigger] c[i]))
}

/// Propagation state after the first `k` antecedents.
pub open spec fn rup_prop(db: Map<i64, Seq<i32>>, c: Seq<i32>, ants: Seq<i64>, k: int) -> RupState
    decreases k,
{
    if k <= 0 {
        RupState::Open(negated_literals(c))
    } else {
        match rup_prop(db, c, ants, k - 1) {
            RupState::Open(a) => rup_clause_step(a, db[ants[k - 1]]),
            other => other,
        }
    }
}

/// Once propagation stops, later antecedents do not change its state.
proof fn lemma_rup_prop_settled(db: Map<i64, Seq<i32>>, c: Seq<i32>, ants: Seq<i64>, k: int, n: int)
    requires
        0 <= k <= n,
        !(rup_prop(db, c, ants, k) is Open),
    ensures
        rup_prop(db, c, ants, n) == rup_prop(db, c, ants, k),
    decreases n - k,
{
    if k < n {
        lemma_rup_prop_settled(db, c, ants, k, n - 1);
    }
}

/// Reverse unit propagation: every antecedent is a known clause, and
/// propagating the complement of `c` through them in order hits a conflict.
pub open spec fn rup_accepts(db: Map<i64, Seq<i32>>, c: Seq<i32>, ants: Seq<i64>) -> bool {
    &&& forall|k: int| 0 <= k < ants.len() ==> db.contains_key(#[trigger] ants[k])
    &&& rup_prop(db, c, ants, ants.len() as int) is Conflict
}

proof fn lemma_neg_holds(m: spec_fn(int) -> bool, l: i32)
    requires
        literal_ok(l),
    ensures
        lit_holds(m, neg(l)) == !lit_holds(m, l),
{
}

proof fn lemma_rup_invariant(
    db: Map<i64, Seq<i32>>,
    c: Seq<i32>,
    ants: Seq<i64>,
    m: spec_fn(int) -> bool,
    k: int,
)
    requires
        0 <= k <= ants.len(),
        negatable(c),
        !clause_holds(m, c),
        forall|j: int|
            0 <= j < ants.len() ==> clause_holds(m, #[trigger] db[ants[j]]) && negatable(db[ants[j]]),
    ensures
        match rup_prop(db, c, ants, k) {
            RupState::Open(a) => forall|x: i32| a.contains(x) && x != 0 ==> lit_holds(m, x),
            RupState::Conflict => false,
            RupState::Stuck => true,
        },
    decreases k,
{
    if k == 0 {
        assert forall|x: i32| negated_literals(c).contains(x) && x != 0 implies lit_holds(m, x) by {
            let i = choose|i: int| 0 <= i < c.len() && x == neg(#[trigger] c[i]);
            assert(literal_ok(c[i]));
            lemma_neg_holds(m, c[i]);
        }
    } else {
        lemma_rup_invariant(db, c, ants, m, k - 1);
        match rup_prop(db, c, ants, k - 1) {
            RupState::Open(a) => {
                let cl = db[ants[k - 1]];
                assert(clause_holds(m, cl) && negatable(cl));
                if !(exists|i: int| 0 <= i < cl.len() && a.contains(#[trigger] cl[i])) {
                    let i = choose|i: int| 0 <= i < cl.len() && lit_holds(m, #[trigger] cl[i]);
                    let l = cl[i];
                    assert(!a.contains(l));
                    if l != 0 {
                        assert(literal_ok(l));
                        lemma_neg_holds(m, l);
                        assert(neg(l) != 0);
                    }
                    assert(!a.contains(neg(l)));
                    assert(cl.contains(l));
                    lemma_unassigned_contains(a, cl, l);
                    let u = unassigned(a, cl);
                    assert(u.contains(l));
                    if u.len() == 1 {
                        assert(u[0] == l);
                    }
                }
            },
            _ => {},
        }
    }
}

/// Reverse unit propagation is sound: an assignment that satisfies every
/// antecedent clause satisfies the conclusion.
pub proof fn lemma_rup_sound(db: Map<i64, Seq<i32>>, c: Seq<i32>, ants: Seq<i64>, m: spec_fn(int) -> bool)
    requires
        rup_accepts(db, c, ants),
        negatable(c),
        forall|j: int|
            0 <= j < ants.len() ==> clause_holds(m, #[trigger] db[ants[j]]) && negatable(db[ants[j]]),
    ensures
        clause_holds(m, c),
{
    if !clause_holds(m, c) {
        lemma_rup_invariant(db, c, ants, m, ants.len() as int);
    }
}

pub open spec fn db_view(m: Map<i64, Vec<i32>>) -> Map<i64, Seq<i32>> {
    m.map_values(|v: Vec<i32>| v@)
}

pub open spec fn db_negatable(db: Map<i64, Seq<i32>>) -> bool {
    forall|k: i64| db.contains_key(k) ==> negatable(#[trigger] db[k])
}

proof fn lemma_unassigned_contains(a: Set<i32>, c: Seq<i32>, x: i32)
    ensures
        unassigned(a, c).contains(x) <==> (c.contains(x) && !a.contains(neg(x))),
    decreases c.len(),
{
    if c.len() > 0 {
        lemma_unassigned_contains(a, c.drop_last(), x);
        let p = unassigned(a, c.drop_last());
        if c.contains(x) && !a.contains(neg(x)) {
            let i = choose|i: int| 0 <= i < c.len() && c[i] == x;
            if i < c.len() - 1 {
                assert(c.drop_last()[i] == x);
            }
        }
        if c.drop_last().contains(x) {
            let i = choose|i: int| 0 <= i < c.drop_last().len() && c.drop_last()[i] == x;
            assert(c[i] == x);
        }
        if !a.contains(neg(c.last())) {
            assert(p.push(c.last()).contains(x) <==> (p.contains(x) || x == c.last())) by {
                if p.push(c.last()).contains(x) {
                    let i = choose|i: int| 0 <= i < p.len() + 1 && p.push(c.last())[i] == x;
                    if i < p.len() {
                        assert(p[i] == x);
                    }
                }
                if p.contains(x) {
                    let i = choose|i: int| 0 <= i < p.len() && p[i] == x;
                    assert(p.push(c.last())[i] == x);
                }
                assert(p.push(c.last())[p.len() as int] == c.last());
            }
        }
        assert(c[c.len() - 1] == c.last());
    }
}

/// One clause step of propagation, literal by literal.
fn rup_clause(assignment: &HashSet<i32>, clause: &Vec<i32>) -> (r: (bool, Option<i32>, bool))
    requires
        negatable(clause@),
    ensures
        ({
            let (satisfied, unit, multiple) = r;
            let u = unassigned(assignment@, clause@);
            &&& satisfied == exists|i: int| 0 <= i < clause@.len() && assignment@.contains(#[trigger] clause@[i])
            &&& !satisfied ==> (multiple == (u.len() >= 2))
            &&& !satisfied && !multiple ==> ((unit is Some) == (u.len() == 1))
            &&& !satisfied && !multiple && u.len() == 1 ==> unit == Some(u[0])
        }),
{
    let mut unit: Option<i32> = None;
    let mut multiple = false;
    let mut i: usize = 0;
    while i < clause.len()
        invariant
            0 <= i <= clause.len(),
            negatable(clause@),
            forall|k: int| 0 <= k < i ==> !assignment@.contains(#[trigger] clause@[k]),
            multiple == (unassigned(assignment@, clause@.take(i as int)).len() >= 2),
            !multiple ==> ((unit is Some) == (unassigned(assignment@, clause@.take(i as int)).len() == 1)),
            !multiple && unassigned(assignment@, clause@.take(i as int)).len() == 1 ==> unit == Some(
                unassigned(assignment@, clause@.take(i as int))[0],
            ),
        decreases clause.len() - i,
    {
        let literal = clause[i];
        assert(clause@.take(i as int + 1).drop_last() == clause@.take(i as int));
        if assignment.contains(&literal) {
            return (true, unit, multiple);
        }
        if !assignment.contains(&-literal) {
            if unit.is_some() {
                multiple = true;
            }
            unit = Some(literal);
        }
        i = i + 1;
    }
    assert(clause@.take(clause.len() as int) == clause@);
    (false, unit, multiple)
}

/// Reverse unit propagation of `conclusion` through the listed antecedent
/// clauses, in order.
pub fn rup_check_kernel(
    clauses: &HashMap<i64, Vec<i32>>,
    conclusion: &[i32],
    antecedents: &[i64],
) -> (r: bool)
    requires
        negatable(conclusion@),
        db_negatable(db_view(clauses@)),
    ensures
        r == rup_accepts(db_view(clauses@), conclusion@, antecedents@),
{
    let ghost db = db_view(clauses@);
    let mut k: usize = 0;
    while k < antecedents.len()
        invariant
            0 <= k <= antecedents.len(),
            db == db_view(clauses@),
            forall|j: int| 0 <= j < k ==> db.contains_key(#[trigger] antecedents@[j]),
        decreases antecedents.len() - k,
    {
        if !clauses.contains_key(&antecedents[k]) {
            return false;
        }
        k = k + 1;
    }
    let mut assignment: HashSet<i32> = HashSet::new();
    let mut i: usize = 0;
    while i < conclusion.len()
        invariant
            0 <= i <= conclusion.len(),
            negatable(conclusion@),
            assignment@ == Set::new(|x: i32| exists|j: int| 0 <= j < i && x == neg(#[trigger] conclusion@[j])),
        decreases conclusion.len() - i,
    {
        let ghost before = assignment@;
        assignment.insert(-conclusion[i]);
        assert(assignment@ =~= Set::new(|x: i32| exists|j: int| 0 <= j < i + 1 && x == neg(#[trigger] conclusion@[j]))) by {
            assert forall|x: i32| (exists|j: int| 0 <= j < i + 1 && x == neg(#[trigger] conclusion@[j])) implies assignment@.contains(x) by {
                let j = choose|j: int| 0 <= j < i + 1 && x == neg(#[trigger] conclusion@[j]);
                if j < i {
                    assert(before.contains(x));
                }
            }
        }
        i = i + 1;
    }
    assert(assignment@ =~= negated_literals(conclusion@));
    let mut k: usize = 0;
    while k < antecedents.len()
        invariant
            0 <= k <= antecedents.len(),
            db == db_view(clauses@),
            db_negatable(db),
            forall|j: int| 0 <= j < antecedents@.len() ==> db.contains_key(#[trigger] antecedents@[j]),
            rup_prop(db, conclusion@, antecedents@, k as int) == RupState::Open(assignment@),
        decreases antecedents.len() - k,
    {
        let id = antecedents[k];
        assert(db.contains_key(antecedents@[k as int]));
        let clause = match clauses.get(&id) {
            Some(clause) => clause,
            None => {
                return false;
            },
        };
        assert(clause@ == db[id]);
        let (satisfied, unit, multiple) = rup_clause(&assignment, clause);
        if satisfied {
            k = k + 1;
            continue;
        }
        if clause.len() == 0 {
            proof {
                assert(rup_prop(db, conclusion@, antecedents@, k + 1) is Conflict);
                lemma_rup_prop_settled(db, conclusion@, antecedents@, k + 1, antecedents@.len() as int);
            }
            return true;
        }
        if multiple {
            proof {
                assert(rup_prop(db, conclusion@, antecedents@, k + 1) is Stuck);
                lemma_rup_prop_settled(db, conclusion@, antecedents@, k + 1, antecedents@.len() as int);
            }
            return false;
        }
        match unit {
            Some(u) => {
                assignment.insert(u);
            },
            None => {
                proof {
                    assert(rup_prop(db, conclusion@, antecedents@, k + 1) is Conflict);
                    lemma_rup_prop_settled(db, conclusion@, antecedents@, k + 1, antecedents@.len() as int);
                }
                return true;
            },
        }
        k = k + 1;
    }
    false
}

} // verus!
