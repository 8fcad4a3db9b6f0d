//! Replay of the refutation traces that back AVATAR SAT steps: plain LRAT
//! and FRAT with LRAT hints. Each accepted trace derives the empty clause
//! from its manifest by checked reverse-unit-propagation steps.
use vstd::prelude::*;
use vstd::utf8::*;
use vstd::relations::{antisymmetric, reflexive, sorted_by, strongly_connected, total_ordering, transitive};
use vstd::seq_lib::lemma_sorted_unique;
use std::collections::HashMap;
use crate::verdict::{KernelVerdict, VerdictView, VerificationLimits, inconclusive, rejected};
use crate::text::{
    decimal, decimal_text, parse_i32, parse_i32_token, parse_i64, parse_i64_token, split_lines,
    split_tokens, str_chars, texts_view, token_is, token_lines, utf8_text,
};
use crate::sat::{
    clause_holds, clause_ok, clauses_hold, db_negatable, db_view, is_tautology,
    is_tautology_kernel, lemma_rup_sound, lemma_tautology_holds, literal_ok, negatable,
    rup_accepts, rup_check_kernel, satisfiable,
};

verus! {

broadcast use vstd::std_specs::hash::group_hash_axioms;

/// The reason text of a malformed-trace rejection at a 0-based line index.
pub open spec fn trace_error_text(line_number: nat, reason: Seq<char>) -> Seq<char> {
    "malformed AVATAR SAT trace at line "@ + decimal(line_number + 1) + ": "@ + reason
}

pub open spec fn trace_error_view(line_number: nat, reason: Seq<char>) -> VerdictView {
    VerdictView::Rejected(trace_error_text(line_number, reason))
}

/// The rejection for a malformed trace record at a 0-based line index.
pub fn trace_error(line_number: usize, reason: &str) -> (v: KernelVerdict)
    requires
        line_number < usize::MAX,
    ensures
        v@ == trace_error_view(line_number as nat, reason@),
{
    let mut text = String::from_str("malformed AVATAR SAT trace at line ");
    let number = decimal_text(line_number + 1);
    text.append(number.as_str());
    text.append(": ");
    text.append(reason);
    KernelVerdict::Rejected(text)
}

/// `usize::saturating_mul`.
pub open spec fn sat_mul(a: usize, b: usize) -> usize {
    if a * b > usize::MAX {
        usize::MAX
    } else {
        (a * b) as usize
    }
}

pub fn saturating_mul(a: usize, b: usize) -> (r: usize)
    ensures
        r == sat_mul(a, b),
{
    match a.checked_mul(b) {
        Some(v) => v,
        None => usize::MAX,
    }
}

/// `i64::abs` as optimized code computes it (`i64::MIN` stays `i64::MIN`).
pub open spec fn abs_i64(a: i64) -> i64 {
    if a < 0 && a != i64::MIN {
        (-a) as i64
    } else {
        a
    }
}

/// A record line is skipped when it is blank or a comment.
pub open spec fn skipped_line(toks: Seq<Seq<char>>) -> bool {
    toks.len() == 0 || (toks[0].len() > 0 && toks[0][0] == 'c')
}

/// Some literal's variable exceeds the declared bound.
pub open spec fn exceeds_bound(clause: Seq<i32>, variables: usize) -> bool {
    exists|i: int| 0 <= i < clause.len() && #[trigger] abs_int(clause[i] as int) > variables
}

pub open spec fn abs_int(x: int) -> int {
    if x < 0 {
        -x
    } else {
        x
    }
}

/// The contents of a clause manifest.
pub open spec fn manifest_view(m: Seq<Vec<i32>>) -> Seq<Seq<i32>> {
    m.map_values(|c: Vec<i32>| c@)
}

pub open spec fn manifest_negatable(m: Seq<Seq<i32>>) -> bool {
    forall|i: int| 0 <= i < m.len() ==> negatable(#[trigger] m[i])
}

/// Deletes the clause IDs listed from token `k` up to the terminating `0`.
pub open spec fn deletions(
    db: Map<i64, Seq<i32>>,
    toks: Seq<Seq<char>>,
    k: int,
    ln: nat,
) -> Result<Map<i64, Seq<i32>>, VerdictView>
    decreases toks.len() - k,
{
    if k < 0 || k >= toks.len() || toks[k] == "0"@ {
        Ok(db)
    } else {
        match parse_i64(toks[k]) {
            None => Err(trace_error_view(ln, "invalid deletion ID"@)),
            Some(d) => deletions(db.remove(d), toks, k + 1, ln),
        }
    }
}

/// LRAT clause literals from token `k` up to the terminating `0`, appended
/// to `acc`; with the index after the terminator.
pub open spec fn lrat_literals(
    toks: Seq<Seq<char>>,
    k: int,
    acc: Seq<i32>,
    ln: nat,
    max: usize,
) -> Result<(Seq<i32>, int), VerdictView>
    decreases toks.len() - k,
{
    if k < 0 || k >= toks.len() {
        Ok((acc, toks.len() as int))
    } else if toks[k] == "0"@ {
        Ok((acc, k + 1))
    } else {
        match parse_i32(toks[k]) {
            None => Err(trace_error_view(ln, "invalid clause literal"@)),
            Some(l) => if l == 0 {
                Err(trace_error_view(ln, "zero is not a clause literal"@))
            } else if acc.len() >= max {
                Err(VerdictView::Inconclusive("clause literal limit exceeded"@))
            } else {
                lrat_literals(toks, k + 1, acc.push(l), ln, max)
            },
        }
    }
}

/// The clause of an LRAT addition line, which starts at token 1.
pub open spec fn lrat_clause(toks: Seq<Seq<char>>, ln: nat, max: usize) -> Result<
    (Seq<i32>, int),
    VerdictView,
> {
    if toks[1] == "0"@ {
        Ok((Seq::empty(), 2))
    } else {
        match parse_i32(toks[1]) {
            None => Err(trace_error_view(ln, "invalid clause literal"@)),
            Some(l) => if l == 0 {
                Err(trace_error_view(ln, "zero is not a clause literal"@))
            } else {
                lrat_literals(toks, 2, seq![l], ln, max)
            },
        }
    }
}

/// LRAT antecedent IDs from token `k` up to the terminating `0`; each is
/// taken by its absolute value.
pub open spec fn lrat_antecedents(toks: Seq<Seq<char>>, k: int, acc: Seq<i64>, ln: nat) -> Result<
    Seq<i64>,
    VerdictView,
>
    decreases toks.len() - k,
{
    if k < 0 || k >= toks.len() || toks[k] == "0"@ {
        Ok(acc)
    } else {
        match parse_i64(toks[k]) {
            None => Err(trace_error_view(ln, "invalid antecedent ID"@)),
            Some(a) => lrat_antecedents(toks, k + 1, acc.push(abs_i64(a)), ln),
        }
    }
}

/// The checker's state between LRAT lines.
pub struct LratState {
    pub db: Map<i64, Seq<i32>>,
    pub derived_empty: bool,
    pub events: nat,
    pub total_literals: nat,
}

/// The addition of a clause with ID `id` on an LRAT line.
pub open spec fn lrat_addition(
    st: LratState,
    id: i64,
    toks: Seq<Seq<char>>,
    ln: nat,
    variables: usize,
    limits: VerificationLimits,
) -> Result<LratState, VerdictView> {
    match lrat_clause(toks, ln, limits.max_clause_literals) {
        Err(e) => Err(e),
        Ok((clause, k)) => {
            let total = if st.total_literals + clause.len() > usize::MAX {
                usize::MAX as nat
            } else {
                st.total_literals + clause.len()
            };
            if total > sat_mul(limits.max_clause_literals, limits.max_nodes) {
                Err(VerdictView::Inconclusive("avatar SAT trace exceeds the strict literal limit"@))
            } else if exceeds_bound(clause, variables) {
                Err(
                    trace_error_view(
                        ln,
                        "trace clause uses a literal outside the declared variable bound"@,
                    ),
                )
            } else {
                match lrat_antecedents(toks, k, Seq::empty(), ln) {
                    Err(e) => Err(e),
                    Ok(ants) => if id <= 0 || st.db.contains_key(id) || (ants.len() == 0
                        && !is_tautology(clause)) || (ants.len() > 0 && !rup_accepts(
                        st.db,
                        clause,
                        ants,
                    )) {
                        Err(trace_error_view(ln, "invalid LRAT/RUP clause addition"@))
                    } else {
                        Ok(
                            LratState {
                                db: st.db.insert(id, clause),
                                derived_empty: st.derived_empty || clause.len() == 0,
                                events: st.events,
                                total_literals: total,
                            },
                        )
                    },
                }
            }
        },
    }
}

/// One LRAT line: a deletion list (`d ... 0` or `<id> d ... 0`), or a clause
/// addition `<id> <literals> 0 <antecedents> 0`.
pub open spec fn lrat_line(
    st: LratState,
    toks: Seq<Seq<char>>,
    ln: nat,
    variables: usize,
    limits: VerificationLimits,
) -> Result<LratState, VerdictView> {
    if skipped_line(toks) {
        Ok(st)
    } else if st.events + 1 > sat_mul(limits.max_nodes, 32) {
        Err(VerdictView::Inconclusive("avatar SAT trace exceeds the strict event limit"@))
    } else {
        let st1 = LratState { events: st.events + 1, ..st };
        if toks[0] == "d"@ {
            match deletions(st1.db, toks, 1, ln) {
                Ok(db) => Ok(LratState { db, ..st1 }),
                Err(e) => Err(e),
            }
        } else {
            match parse_i64(toks[0]) {
                None => Err(trace_error_view(ln, "invalid clause ID or step ID"@)),
                Some(id) => if toks.len() < 2 {
                    Err(trace_error_view(ln, "incomplete LRAT line"@))
                } else if toks[1] == "d"@ {
                    match deletions(st1.db, toks, 2, ln) {
                        Ok(db) => Ok(LratState { db, ..st1 }),
                        Err(e) => Err(e),
                    }
                } else {
                    lrat_addition(st1, id, toks, ln, variables, limits)
                },
            }
        }
    }
}

/// The state after the first `n` lines of an LRAT trace.
pub open spec fn lrat_run(
    lines: Seq<Seq<Seq<char>>>,
    n: int,
    init: LratState,
    variables: usize,
    limits: VerificationLimits,
) -> Result<LratState, VerdictView>
    decreases n,
{
    if n <= 0 {
        Ok(init)
    } else {
        match lrat_run(lines, n - 1, init, variables, limits) {
            Ok(st) => lrat_line(st, lines[n - 1], (n - 1) as nat, variables, limits),
            Err(e) => Err(e),
        }
    }
}

/// The clause store seeded from the first `n` manifest clauses: clause `i`
/// has the ID `original_ids[i]`, or `i + 1` where that list ends.
pub open spec fn lrat_seed(manifest: Seq<Seq<i32>>, ids: Seq<i64>, n: int) -> Option<
    Map<i64, Seq<i32>>,
>
    decreases n,
{
    if n <= 0 {
        Some(Map::empty())
    } else {
        match lrat_seed(manifest, ids, n - 1) {
            None => None,
            Some(db) => {
                let id = if n - 1 < ids.len() {
                    ids[n - 1]
                } else {
                    n as i64
                };
                if id <= 0 || db.contains_key(id) {
                    None
                } else {
                    Some(db.insert(id, manifest[n - 1]))
                }
            },
        }
    }
}

/// What replaying an LRAT trace against its manifest gives.
pub open spec fn lrat_outcome(
    manifest: Seq<Seq<i32>>,
    ids: Seq<i64>,
    trace: Seq<u8>,
    variables: usize,
    limits: VerificationLimits,
) -> Result<(), VerdictView> {
    if !valid_utf8(trace) {
        Err(VerdictView::Rejected("avatar SAT trace is not valid UTF-8 LRAT"@))
    } else {
        match lrat_seed(manifest, ids, manifest.len() as int) {
            None => Err(
                VerdictView::Rejected("duplicate or invalid original clause ID in manifest"@),
            ),
            Some(db) => {
                let lines = token_lines(decode_utf8(trace));
                let init = LratState { db, derived_empty: false, events: 0, total_literals: 0 };
                match lrat_run(lines, lines.len() as int, init, variables, limits) {
                    Err(e) => Err(e),
                    Ok(st) => if st.derived_empty {
                        Ok(())
                    } else {
                        Err(
                            VerdictView::Rejected(
                                "LRAT SAT trace does not derive the empty clause"@,
                            ),
                        )
                    },
                }
            },
        }
    }
}

/// Whether any literal's variable exceeds the declared bound.
fn exceeds_bound_exec(clause: &Vec<i32>, variables: usize) -> (r: bool)
    ensures
        r == exceeds_bound(clause@, variables),
{
    let mut i: usize = 0;
    while i < clause.len()
        invariant
            0 <= i <= clause.len(),
            forall|j: int| 0 <= j < i ==> !(#[trigger] abs_int(clause@[j] as int) > variables),
        decreases clause.len() - i,
    {
        let l = clause[i];
        let a: i64 = if l < 0 { -(l as i64) } else { l as i64 };
        assert(a == abs_int(clause@[i as int] as int));
        if a as u64 > variables as u64 {
            return true;
        }
        i = i + 1;
    }
    false
}

proof fn lemma_db_remove(m: Map<i64, Vec<i32>>, k: i64)
    ensures
        db_view(m.remove(k)) == db_view(m).remove(k),
{
    assert(db_view(m.remove(k)) =~= db_view(m).remove(k));
}

proof fn lemma_db_insert(m: Map<i64, Vec<i32>>, k: i64, v: Vec<i32>)
    ensures
        db_view(m.insert(k, v)) == db_view(m).insert(k, v@),
{
    assert(db_view(m.insert(k, v)) =~= db_view(m).insert(k, v@));
}

/// Removes the clauses whose IDs are listed from token `start` on.
fn apply_deletions(
    clauses: &mut HashMap<i64, Vec<i32>>,
    toks: &Vec<Vec<char>>,
    start: usize,
    ln: usize,
) -> (r: Result<(), KernelVerdict>)
    requires
        ln < usize::MAX,
    ensures
        match deletions(db_view(old(clauses)@), texts_view(toks@), start as int, ln as nat) {
            Ok(db) => r is Ok && db_view(final(clauses)@) == db,
            Err(e) => r matches Err(v) && v@ == e,
        },
        forall|k: i64| #[trigger] final(clauses)@.contains_key(k) ==> old(clauses)@.contains_key(k) && final(clauses)@[k] == old(clauses)@[k],
{
    let ghost tv = texts_view(toks@);
    let ghost target = deletions(db_view(clauses@), tv, start as int, ln as nat);
    let ghost orig = clauses@;
    let mut k: usize = start;
    while k < toks.len()
        invariant
            tv == texts_view(toks@),
            target == deletions(db_view(clauses@), tv, k as int, ln as nat),
            target == deletions(db_view(old(clauses)@), tv, start as int, ln as nat),
            orig == old(clauses)@,
            ln < usize::MAX,
            forall|key: i64| #[trigger] clauses@.contains_key(key) ==> orig.contains_key(key) && clauses@[key] == orig[key],
        decreases toks.len() - k,
    {
        if token_is(&toks[k], "0") {
            return Ok(());
        }
        match parse_i64_token(&toks[k]) {
            None => {
                return Err(trace_error(ln, "invalid deletion ID"));
            },
            Some(d) => {
                proof {
                    lemma_db_remove(clauses@, d);
                }
                clauses.remove(&d);
            },
        }
        k = k + 1;
    }
    Ok(())
}

/// Reads LRAT clause literals from token `start` on, after those in `clause`.
fn lrat_literals_exec(
    toks: &Vec<Vec<char>>,
    start: usize,
    init: Vec<i32>,
    ln: usize,
    max: usize,
) -> (r: Result<(Vec<i32>, usize), KernelVerdict>)
    requires
        ln < usize::MAX,
        start <= toks.len(),
    ensures
        match lrat_literals(texts_view(toks@), start as int, init@, ln as nat, max) {
            Ok((c, k)) => r matches Ok((v, j)) && v@ == c && j == k,
            Err(e) => r matches Err(v) && v@ == e,
        },
{
    let ghost tv = texts_view(toks@);
    let ghost target = lrat_literals(tv, start as int, init@, ln as nat, max);
    let mut clause = init;
    let mut k: usize = start;
    while k < toks.len()
        invariant
            tv == texts_view(toks@),
            start <= k <= toks.len(),
            target == lrat_literals(tv, k as int, clause@, ln as nat, max),
            target == lrat_literals(tv, start as int, init@, ln as nat, max),
            ln < usize::MAX,
        decreases toks.len() - k,
    {
        if token_is(&toks[k], "0") {
            return Ok((clause, k + 1));
        }
        match parse_i32_token(&toks[k]) {
            None => {
                return Err(trace_error(ln, "invalid clause literal"));
            },
            Some(l) => {
                if l == 0 {
                    return Err(trace_error(ln, "zero is not a clause literal"));
                }
                if clause.len() >= max {
                    return Err(inconclusive("clause literal limit exceeded"));
                }
                clause.push(l);
            },
        }
        k = k + 1;
    }
    Ok((clause, k))
}

/// Reads LRAT antecedent IDs (by absolute value) from token `start` on.
fn lrat_antecedents_exec(toks: &Vec<Vec<char>>, start: usize, ln: usize) -> (r: Result<
    Vec<i64>,
    KernelVerdict,
>)
    requires
        ln < usize::MAX,
    ensures
        match lrat_antecedents(texts_view(toks@), start as int, Seq::empty(), ln as nat) {
            Ok(a) => r matches Ok(v) && v@ == a,
            Err(e) => r matches Err(v) && v@ == e,
        },
{
    let ghost tv = texts_view(toks@);
    let ghost target = lrat_antecedents(tv, start as int, Seq::empty(), ln as nat);
    let mut ants: Vec<i64> = Vec::new();
    let mut k: usize = start;
    while k < toks.len()
        invariant
            tv == texts_view(toks@),
            target == lrat_antecedents(tv, k as int, ants@, ln as nat),
            target == lrat_antecedents(tv, start as int, Seq::empty(), ln as nat),
            ln < usize::MAX,
        decreases toks.len() - k,
    {
        if token_is(&toks[k], "0") {
            return Ok(ants);
        }
        match parse_i64_token(&toks[k]) {
            None => {
                return Err(trace_error(ln, "invalid antecedent ID"));
            },
            Some(a) => {
                let abs = if a < 0 && a != i64::MIN { -a } else { a };
                ants.push(abs);
            },
        }
        k = k + 1;
    }
    Ok(ants)
}

/// The exec state of an LRAT replay.
struct LratReplay {
    clauses: HashMap<i64, Vec<i32>>,
    derived_empty: bool,
    events: usize,
    total_literals: usize,
}

impl LratReplay {
    closed spec fn state(&self) -> LratState {
        LratState {
            db: db_view(self.clauses@),
            derived_empty: self.derived_empty,
            events: self.events as nat,
            total_literals: self.total_literals as nat,
        }
    }
}

/// Processes one LRAT line.
fn lrat_line_exec(
    st: &mut LratReplay,
    toks: &Vec<Vec<char>>,
    ln: usize,
    variables: usize,
    limits: VerificationLimits,
) -> (r: Result<(), KernelVerdict>)
    requires
        ln < usize::MAX,
        variables <= i32::MAX,
        db_negatable(old(st).state().db),
    ensures
        match lrat_line(old(st).state(), texts_view(toks@), ln as nat, variables, limits) {
            Ok(s) => r is Ok && final(st).state() == s,
            Err(e) => r matches Err(v) && v@ == e,
        },
        db_negatable(final(st).state().db),
{
    let ghost tv = texts_view(toks@);
    assert(tv.len() == toks@.len());
    if toks.len() == 0 || (toks[0].len() > 0 && toks[0][0] == 'c') {
        assert(skipped_line(tv));
        return Ok(());
    }
    assert(!skipped_line(tv));
    let event_limit = saturating_mul(limits.max_nodes, 32);
    if st.events >= event_limit {
        return Err(inconclusive("avatar SAT trace exceeds the strict event limit"));
    }
    st.events = st.events + 1;
    if token_is(&toks[0], "d") {
        let r = apply_deletions(&mut st.clauses, toks, 1, ln);
        proof {
            assert forall|k: i64| #[trigger] st.state().db.contains_key(k) implies negatable(st.state().db[k]) by {
                assert(st.clauses@.contains_key(k));
                assert(st.clauses@[k] == old(st).clauses@[k]);
                assert(old(st).state().db.contains_key(k));
                assert(st.state().db[k] == st.clauses@[k]@);
                assert(old(st).state().db[k] == old(st).clauses@[k]@);
            }
        }
        return r;
    }
    let id = match parse_i64_token(&toks[0]) {
        None => {
            return Err(trace_error(ln, "invalid clause ID or step ID"));
        },
        Some(id) => id,
    };
    if toks.len() < 2 {
        return Err(trace_error(ln, "incomplete LRAT line"));
    }
    if token_is(&toks[1], "d") {
        let r = apply_deletions(&mut st.clauses, toks, 2, ln);
        proof {
            assert forall|k: i64| #[trigger] st.state().db.contains_key(k) implies negatable(st.state().db[k]) by {
                assert(st.clauses@.contains_key(k));
                assert(st.clauses@[k] == old(st).clauses@[k]);
                assert(old(st).state().db.contains_key(k));
                assert(st.state().db[k] == st.clauses@[k]@);
                assert(old(st).state().db[k] == old(st).clauses@[k]@);
            }
        }
        return r;
    }
    let (clause, next) = if token_is(&toks[1], "0") {
        (Vec::new(), 2)
    } else {
        match parse_i32_token(&toks[1]) {
            None => {
                return Err(trace_error(ln, "invalid clause literal"));
            },
            Some(l) => {
                if l == 0 {
                    return Err(trace_error(ln, "zero is not a clause literal"));
                }
                let mut first: Vec<i32> = Vec::new();
                first.push(l);
                assert(first@ == seq![l]);
                match lrat_literals_exec(toks, 2, first, ln, limits.max_clause_literals) {
                    Ok(found) => found,
                    Err(e) => {
                        return Err(e);
                    },
                }
            },
        }
    };
    assert(lrat_clause(tv, ln as nat, limits.max_clause_literals) == Ok::<(Seq<i32>, int), VerdictView>((clause@, next as int)));
    let total = st.total_literals.saturating_add(clause.len());
    let literal_limit = saturating_mul(limits.max_clause_literals, limits.max_nodes);
    if total > literal_limit {
        return Err(inconclusive("avatar SAT trace exceeds the strict literal limit"));
    }
    if exceeds_bound_exec(&clause, variables) {
        return Err(
            trace_error(ln, "trace clause uses a literal outside the declared variable bound"),
        );
    }
    assert(negatable(clause@)) by {
        assert forall|i: int| 0 <= i < clause@.len() implies #[trigger] clause@[i] != i32::MIN by {
            assert(!(abs_int(clause@[i] as int) > variables));
        }
    }
    let antecedents = match lrat_antecedents_exec(toks, next, ln) {
        Ok(a) => a,
        Err(e) => {
            return Err(e);
        },
    };
    let bad = id <= 0 || st.clauses.contains_key(&id) || (antecedents.len() == 0
        && !is_tautology_kernel(clause.as_slice())) || (antecedents.len() > 0
        && !rup_check_kernel(&st.clauses, clause.as_slice(), antecedents.as_slice()));
    if bad {
        return Err(trace_error(ln, "invalid LRAT/RUP clause addition"));
    }
    if clause.len() == 0 {
        st.derived_empty = true;
    }
    proof {
        lemma_db_insert(st.clauses@, id, clause);
    }
    st.clauses.insert(id, clause);
    st.total_literals = total;
    proof {
        assert forall|k: i64| #[trigger] st.state().db.contains_key(k) implies negatable(st.state().db[k]) by {
            if k != id {
                assert(old(st).state().db.contains_key(k));
            }
        }
    }
    Ok(())
}

/// Every stored clause can be negated literal by literal.
pub open spec fn db_ok(db: Map<i64, Seq<i32>>) -> bool {
    forall|k: i64| db.contains_key(k) ==> negatable(#[trigger] db[k])
}

/// Every stored clause holds under the assignment.
pub open spec fn db_holds(m: spec_fn(int) -> bool, db: Map<i64, Seq<i32>>) -> bool {
    forall|k: i64| db.contains_key(k) ==> clause_holds(m, #[trigger] db[k])
}

/// What replay keeps true of its state for an assignment `m`: if `m`
/// satisfies the manifest, it satisfies every stored clause and no empty
/// clause has been derived.
pub open spec fn lrat_sound_state(st: LratState, manifest: Seq<Seq<i32>>, m: spec_fn(int) -> bool) -> bool {
    &&& db_ok(st.db)
    &&& clauses_hold(m, manifest) ==> db_holds(m, st.db) && !st.derived_empty
}

proof fn lemma_deletions_submap(db: Map<i64, Seq<i32>>, toks: Seq<Seq<char>>, k: int, ln: nat)
    ensures
        deletions(db, toks, k, ln) matches Ok(d) ==> forall|key: i64| #[trigger] d.contains_key(key) ==> db.contains_key(key) && d[key] == db[key],
    decreases toks.len() - k,
{
    if !(k < 0 || k >= toks.len() || toks[k] == "0"@) {
        if let Some(x) = parse_i64(toks[k]) {
            lemma_deletions_submap(db.remove(x), toks, k + 1, ln);
        }
    }
}

proof fn lemma_lrat_literals_ok(toks: Seq<Seq<char>>, k: int, acc: Seq<i32>, ln: nat, max: usize)
    requires
        forall|i: int| 0 <= i < acc.len() ==> #[trigger] acc[i] != 0,
    ensures
        lrat_literals(toks, k, acc, ln, max) matches Ok((c, j)) ==> forall|i: int| 0 <= i < c.len() ==> #[trigger] c[i] != 0,
    decreases toks.len() - k,
{
    if !(k < 0 || k >= toks.len()) && toks[k] != "0"@ {
        if let Some(l) = parse_i32(toks[k]) {
            if l != 0 && acc.len() < max {
                let acc2 = acc.push(l);
                assert forall|i: int| 0 <= i < acc2.len() implies #[trigger] acc2[i] != 0 by {
                    if i < acc.len() {
                        assert(acc2[i] == acc[i]);
                    }
                }
                lemma_lrat_literals_ok(toks, k + 1, acc2, ln, max);
            }
        }
    }
}

proof fn lemma_deletion_keeps(
    st: LratState,
    db: Map<i64, Seq<i32>>,
    manifest: Seq<Seq<i32>>,
    m: spec_fn(int) -> bool,
)
    requires
        lrat_sound_state(st, manifest, m),
        forall|key: i64| #[trigger] db.contains_key(key) ==> st.db.contains_key(key) && db[key] == st.db[key],
    ensures
        lrat_sound_state(LratState { db, ..st }, manifest, m),
{
    assert forall|key: i64| db.contains_key(key) implies negatable(#[trigger] db[key]) by {
        assert(st.db.contains_key(key));
    }
    if clauses_hold(m, manifest) {
        assert forall|key: i64| db.contains_key(key) implies clause_holds(m, #[trigger] db[key]) by {
            assert(st.db.contains_key(key));
        }
    }
}

proof fn lemma_lrat_line_sound(
    st: LratState,
    toks: Seq<Seq<char>>,
    ln: nat,
    variables: usize,
    limits: VerificationLimits,
    manifest: Seq<Seq<i32>>,
    m: spec_fn(int) -> bool,
)
    requires
        lrat_sound_state(st, manifest, m),
        variables <= i32::MAX,
    ensures
        lrat_line(st, toks, ln, variables, limits) matches Ok(s2) ==> lrat_sound_state(s2, manifest, m),
{
    if !skipped_line(toks) && !(st.events + 1 > sat_mul(limits.max_nodes, 32)) {
        let st1 = LratState { events: st.events + 1, ..st };
        if toks[0] == "d"@ {
            lemma_deletions_submap(st1.db, toks, 1, ln);
            if let Ok(db) = deletions(st1.db, toks, 1, ln) {
                lemma_deletion_keeps(st1, db, manifest, m);
            }
        } else if let Some(id) = parse_i64(toks[0]) {
            if toks.len() >= 2 {
                if toks[1] == "d"@ {
                    lemma_deletions_submap(st1.db, toks, 2, ln);
                    if let Ok(db) = deletions(st1.db, toks, 2, ln) {
                        lemma_deletion_keeps(st1, db, manifest, m);
                    }
                } else {
                    lemma_lrat_addition_sound(st1, id, toks, ln, variables, limits, manifest, m);
                }
            }
        }
    }
}

proof fn lemma_lrat_addition_sound(
    st: LratState,
    id: i64,
    toks: Seq<Seq<char>>,
    ln: nat,
    variables: usize,
    limits: VerificationLimits,
    manifest: Seq<Seq<i32>>,
    m: spec_fn(int) -> bool,
)
    requires
        lrat_sound_state(st, manifest, m),
        variables <= i32::MAX,
        toks.len() >= 2,
    ensures
        lrat_addition(st, id, toks, ln, variables, limits) matches Ok(s2) ==> lrat_sound_state(s2, manifest, m),
{
    if let Ok(s2) = lrat_addition(st, id, toks, ln, variables, limits) {
        let (clause, k) = lrat_clause(toks, ln, limits.max_clause_literals)->Ok_0;
        if toks[1] != "0"@ {
            let l = parse_i32(toks[1])->Some_0;
            lemma_lrat_literals_ok(toks, 2, seq![l], ln, limits.max_clause_literals);
        }
        assert(clause_ok(clause)) by {
            assert forall|i: int| 0 <= i < clause.len() implies literal_ok(#[trigger] clause[i]) by {
                assert(!(abs_int(clause[i] as int) > variables));
            }
        }
        let ants = lrat_antecedents(toks, k, Seq::empty(), ln)->Ok_0;
        assert(s2.db == st.db.insert(id, clause));
        assert forall|key: i64| s2.db.contains_key(key) implies negatable(#[trigger] s2.db[key]) by {
            if key != id {
                assert(st.db.contains_key(key));
            }
        }
        if clauses_hold(m, manifest) {
            if ants.len() == 0 {
                lemma_tautology_holds(m, clause);
            } else {
                assert forall|j: int| 0 <= j < ants.len() implies clause_holds(m, #[trigger] st.db[ants[j]]) && negatable(st.db[ants[j]]) by {
                    assert(st.db.contains_key(ants[j]));
                }
                lemma_rup_sound(st.db, clause, ants, m);
            }
            assert(clause_holds(m, clause));
            assert forall|key: i64| s2.db.contains_key(key) implies clause_holds(m, #[trigger] s2.db[key]) by {
                if key != id {
                    assert(st.db.contains_key(key));
                }
            }
        }
    }
}

proof fn lemma_lrat_run_sound(
    lines: Seq<Seq<Seq<char>>>,
    n: int,
    init: LratState,
    variables: usize,
    limits: VerificationLimits,
    manifest: Seq<Seq<i32>>,
    m: spec_fn(int) -> bool,
)
    requires
        lrat_sound_state(init, manifest, m),
        variables <= i32::MAX,
    ensures
        lrat_run(lines, n, init, variables, limits) matches Ok(s) ==> lrat_sound_state(s, manifest, m),
    decreases n,
{
    if n > 0 {
        lemma_lrat_run_sound(lines, n - 1, init, variables, limits, manifest, m);
        if let Ok(st) = lrat_run(lines, n - 1, init, variables, limits) {
            lemma_lrat_line_sound(st, lines[n - 1], (n - 1) as nat, variables, limits, manifest, m);
        }
    }
}

proof fn lemma_lrat_seed_sound(manifest: Seq<Seq<i32>>, ids: Seq<i64>, n: int, m: spec_fn(int) -> bool)
    requires
        0 <= n <= manifest.len(),
        manifest_negatable(manifest),
    ensures
        lrat_seed(manifest, ids, n) matches Some(db) ==> db_ok(db) && (clauses_hold(m, manifest) ==> db_holds(m, db)),
    decreases n,
{
    if n > 0 {
        lemma_lrat_seed_sound(manifest, ids, n - 1, m);
        if let Some(db) = lrat_seed(manifest, ids, n) {
            let prev = lrat_seed(manifest, ids, n - 1)->Some_0;
            let id = if n - 1 < ids.len() { ids[n - 1] } else { n as i64 };
            assert(db == prev.insert(id, manifest[n - 1]));
            assert(negatable(manifest[n - 1]));
            assert forall|key: i64| db.contains_key(key) implies negatable(#[trigger] db[key]) by {
                if key != id {
                    assert(prev.contains_key(key));
                }
            }
            if clauses_hold(m, manifest) {
                assert(clause_holds(m, manifest[n - 1]));
                assert forall|key: i64| db.contains_key(key) implies clause_holds(m, #[trigger] db[key]) by {
                    if key != id {
                        assert(prev.contains_key(key));
                    }
                }
            }
        }
    }
}

proof fn lemma_lrat_seed_none(manifest: Seq<Seq<i32>>, ids: Seq<i64>, n: int, total: int)
    requires
        n <= total,
        lrat_seed(manifest, ids, n) is None,
    ensures
        lrat_seed(manifest, ids, total) is None,
    decreases total - n,
{
    if n < total {
        lemma_lrat_seed_none(manifest, ids, n, total - 1);
    }
}

proof fn lemma_lrat_run_err(
    lines: Seq<Seq<Seq<char>>>,
    n: int,
    total: int,
    init: LratState,
    variables: usize,
    limits: VerificationLimits,
)
    requires
        n <= total,
        lrat_run(lines, n, init, variables, limits) is Err,
    ensures
        lrat_run(lines, total, init, variables, limits) == lrat_run(lines, n, init, variables, limits),
    decreases total - n,
{
    if n < total {
        lemma_lrat_run_err(lines, n, total - 1, init, variables, limits);
    }
}

/// An accepted LRAT trace refutes its manifest: when replay succeeds, no
/// assignment satisfies all of its clauses.
pub proof fn lemma_lrat_refutes(
    manifest: Seq<Seq<i32>>,
    ids: Seq<i64>,
    trace: Seq<u8>,
    variables: usize,
    limits: VerificationLimits,
)
    requires
        lrat_outcome(manifest, ids, trace, variables, limits) is Ok,
        manifest_negatable(manifest),
        variables <= i32::MAX,
    ensures
        !satisfiable(manifest),
{
    let db = lrat_seed(manifest, ids, manifest.len() as int)->Some_0;
    let lines = token_lines(decode_utf8(trace));
    let init = LratState { db, derived_empty: false, events: 0, total_literals: 0 };
    if satisfiable(manifest) {
        let m = choose|m: spec_fn(int) -> bool| clauses_hold(m, manifest);
        lemma_lrat_seed_sound(manifest, ids, manifest.len() as int, m);
        lemma_lrat_run_sound(lines, lines.len() as int, init, variables, limits, manifest, m);
    }
}

/// The declared variable bound as replay uses it: no literal of 32 bits
/// lies beyond `i32::MAX`, so a larger bound is read as `i32::MAX`.
pub open spec fn replay_bound(variables: usize) -> usize {
    if variables > i32::MAX {
        i32::MAX as usize
    } else {
        variables
    }
}

/// Replays an LRAT trace: the manifest clauses are stored under their IDs,
/// and every line deletes clauses or adds one justified as a tautology or by
/// reverse unit propagation through its listed antecedents. Succeeds when
/// the empty clause is derived.
pub fn replay_lrat(
    manifest: &[Vec<i32>],
    original_ids: &[i64],
    trace: &[u8],
    declared_variables: usize,
    limits: VerificationLimits,
) -> (r: Result<(), KernelVerdict>)
    requires
        manifest_negatable(manifest_view(manifest@)),
    ensures
        match lrat_outcome(manifest_view(manifest@), original_ids@, trace@, replay_bound(declared_variables), limits) {
            Ok(()) => r is Ok,
            Err(e) => r matches Err(v) && v@ == e,
        },
        r is Ok ==> !satisfiable(manifest_view(manifest@)),
{
    let variables: usize = if declared_variables > 2147483647usize { 2147483647usize } else { declared_variables };
    let ghost mv = manifest_view(manifest@);
    let text = match utf8_text(trace) {
        Some(text) => text,
        None => {
            return Err(rejected("avatar SAT trace is not valid UTF-8 LRAT"));
        },
    };
    let mut clauses: HashMap<i64, Vec<i32>> = HashMap::new();
    let mut i: usize = 0;
    assert(db_view(clauses@) =~= Map::empty());
    while i < manifest.len()
        invariant
            0 <= i <= manifest.len(),
            mv == manifest_view(manifest@),
            manifest_negatable(mv),
            lrat_seed(mv, original_ids@, i as int) == Some(db_view(clauses@)),
            valid_utf8(trace@),
            db_negatable(db_view(clauses@)),
        decreases manifest.len() - i,
    {
        let id: i64 = if i < original_ids.len() {
            original_ids[i]
        } else {
            #[verifier::truncate]
            ((i + 1) as i64)
        };
        if id <= 0 || clauses.contains_key(&id) {
            proof {
                lemma_lrat_seed_none(mv, original_ids@, i + 1, mv.len() as int);
            }
            return Err(rejected("duplicate or invalid original clause ID in manifest"));
        }
        let c = manifest[i].clone();
        assert(c@ =~= manifest@[i as int]@);
        assert(mv[i as int] == c@);
        proof {
            lemma_db_insert(clauses@, id, c);
        }
        clauses.insert(id, c);
        proof {
            assert forall|k: i64| #[trigger] db_view(clauses@).contains_key(k) implies negatable(db_view(clauses@)[k]) by {
                if k == id {
                    assert(negatable(mv[i as int]));
                }
            }
        }
        i = i + 1;
    }
    let ghost db0 = db_view(clauses@);
    let chars = str_chars(text);
    let lines = split_lines(&chars);
    let ghost tl = token_lines(decode_utf8(trace@));
    assert(tl.len() == lines@.len());
    let mut st = LratReplay { clauses, derived_empty: false, events: 0, total_literals: 0 };
    let ghost init = LratState { db: db0, derived_empty: false, events: 0, total_literals: 0 };
    assert(st.state() == init);
    let mut li: usize = 0;
    while li < lines.len()
        invariant
            0 <= li <= lines.len(),
            tl.len() == lines@.len(),
            tl == token_lines(decode_utf8(trace@)),
            texts_view(lines@) == crate::text::line_pieces(chars@),
            chars@ == decode_utf8(trace@),
            variables == replay_bound(declared_variables),
            variables <= i32::MAX,
            valid_utf8(trace@),
            mv == manifest_view(manifest@),
            lrat_seed(mv, original_ids@, mv.len() as int) == Some(db0),
            init == (LratState { db: db0, derived_empty: false, events: 0, total_literals: 0 }),
            db_negatable(st.state().db),
            lrat_run(tl, li as int, init, variables, limits) == Ok::<LratState, VerdictView>(st.state()),
        decreases lines.len() - li,
    {
        let toks = split_tokens(&lines[li]);
        assert(texts_view(toks@) == tl[li as int]) by {
            assert(lines@[li as int]@ == texts_view(lines@)[li as int]);
        }
        match lrat_line_exec(&mut st, &toks, li, variables, limits) {
            Ok(()) => {},
            Err(e) => {
                proof {
                    lemma_lrat_run_err(tl, li + 1, tl.len() as int, init, variables, limits);
                }
                return Err(e);
            },
        }
        li = li + 1;
    }
    proof {
        if st.derived_empty {
            lemma_lrat_refutes(mv, original_ids@, trace@, variables, limits);
        }
    }
    if st.derived_empty {
        Ok(())
    } else {
        Err(rejected("LRAT SAT trace does not derive the empty clause"))
    }
}

/// Clause literals from token `k` up to the terminating `0`, after `acc`;
/// with the index after the terminator.
pub open spec fn frat_clause(
    toks: Seq<Seq<char>>,
    k: int,
    acc: Seq<i32>,
    ln: nat,
    max: usize,
) -> Result<(Seq<i32>, int), VerdictView>
    decreases toks.len() - k,
{
    if k < 0 || k >= toks.len() {
        Err(trace_error_view(ln, "unterminated clause"@))
    } else if toks[k] == "0"@ {
        Ok((acc, k + 1))
    } else {
        match parse_i32(toks[k]) {
            None => Err(trace_error_view(ln, "invalid clause literal"@)),
            Some(l) => if l == 0 {
                Err(trace_error_view(ln, "zero is not a clause literal"@))
            } else if acc.len() >= max {
                Err(
                    VerdictView::Inconclusive(
                        "avatar SAT trace clause exceeds the strict literal limit"@,
                    ),
                )
            } else {
                frat_clause(toks, k + 1, acc.push(l), ln, max)
            },
        }
    }
}

/// Reads one clause, `<literal>* 0`, of a trace record from token `*pos` on.
pub fn parse_trace_clause(
    tokens: &Vec<Vec<char>>,
    pos: &mut usize,
    line_number: usize,
    max_literals: usize,
) -> (r: Result<Vec<i32>, KernelVerdict>)
    requires
        line_number < usize::MAX,
    ensures
        match frat_clause(texts_view(tokens@), *old(pos) as int, Seq::empty(), line_number as nat, max_literals) {
            Ok((c, k)) => r matches Ok(v) && v@ == c && *final(pos) == k,
            Err(e) => r matches Err(v) && v@ == e,
        },
{
    let ghost tv = texts_view(tokens@);
    let ghost target = frat_clause(tv, *pos as int, Seq::empty(), line_number as nat, max_literals);
    let mut clause: Vec<i32> = Vec::new();
    loop
        invariant
            tv == texts_view(tokens@),
            target == frat_clause(tv, *pos as int, clause@, line_number as nat, max_literals),
            target == frat_clause(tv, *old(pos) as int, Seq::empty(), line_number as nat, max_literals),
            line_number < usize::MAX,
        decreases tokens.len() - *pos,
    {
        if *pos >= tokens.len() {
            return Err(trace_error(line_number, "unterminated clause"));
        }
        let k = *pos;
        *pos = k + 1;
        if token_is(&tokens[k], "0") {
            return Ok(clause);
        }
        match parse_i32_token(&tokens[k]) {
            None => {
                return Err(trace_error(line_number, "invalid clause literal"));
            },
            Some(literal) => {
                if literal == 0 {
                    return Err(trace_error(line_number, "zero is not a clause literal"));
                }
                if clause.len() >= max_literals {
                    return Err(
                        inconclusive("avatar SAT trace clause exceeds the strict literal limit"),
                    );
                }
                clause.push(literal);
            },
        }
    }
}

/// LRAT hint IDs after an `l` marker, up to the terminating `0`; with the
/// index after the terminator.
pub open spec fn frat_hints(toks: Seq<Seq<char>>, k: int, acc: Seq<i64>, ln: nat) -> Result<
    (Seq<i64>, int),
    VerdictView,
>
    decreases toks.len() - k,
{
    if k < 0 || k >= toks.len() {
        Err(trace_error_view(ln, "unterminated antecedent list"@))
    } else if toks[k] == "0"@ {
        Ok((acc, k + 1))
    } else {
        match parse_i64(toks[k]) {
            None => Err(trace_error_view(ln, "invalid antecedent clause ID"@)),
            Some(a) => frat_hints(toks, k + 1, acc.push(a), ln),
        }
    }
}

/// The checker's state between FRAT lines.
pub struct FratState {
    pub db: Map<i64, Seq<i32>>,
    pub original_index: nat,
    pub finalized_empty: bool,
    pub events: nat,
    pub total_literals: nat,
}

/// The record of kind `kind` with clause `clause` (followed by token `k`).
pub open spec fn frat_record(
    st: FratState,
    kind: Seq<char>,
    id: i64,
    clause: Seq<i32>,
    toks: Seq<Seq<char>>,
    k: int,
    ln: nat,
    manifest: Seq<Seq<i32>>,
    ids: Seq<i64>,
) -> Result<FratState, VerdictView> {
    if kind == "o"@ {
        if k < toks.len() {
            Err(trace_error_view(ln, "unexpected original record data"@))
        } else if st.original_index >= ids.len() {
            Err(trace_error_view(ln, "trace has more original clauses than its manifest"@))
        } else if st.original_index >= manifest.len() {
            Err(trace_error_view(ln, "trace original clause index exceeds manifest"@))
        } else if id != ids[st.original_index as int] || clause != manifest[st.original_index as int] {
            Err(trace_error_view(ln, "trace original clause does not match its manifest entry"@))
        } else if id <= 0 || st.db.contains_key(id) {
            Err(trace_error_view(ln, "duplicate original clause ID"@))
        } else {
            Ok(FratState { db: st.db.insert(id, clause), original_index: st.original_index + 1, ..st })
        }
    } else if kind == "a"@ {
        let hints = if k < toks.len() {
            if toks[k] != "l"@ {
                Err(trace_error_view(ln, "expected LRAT antecedent marker"@))
            } else {
                frat_hints(toks, k + 1, Seq::empty(), ln)
            }
        } else {
            Ok((Seq::<i64>::empty(), k))
        };
        match hints {
            Err(e) => Err(e),
            Ok((ants, k2)) => if k2 < toks.len() || id <= 0 || st.db.contains_key(id) || (ants.len()
                == 0 && !is_tautology(clause)) || (ants.len() > 0 && !rup_accepts(
                st.db,
                clause,
                ants,
            )) {
                Err(trace_error_view(ln, "invalid LRAT/RUP clause addition"@))
            } else {
                Ok(FratState { db: st.db.insert(id, clause), ..st })
            },
        }
    } else if kind == "d"@ {
        if k < toks.len() {
            Err(trace_error_view(ln, "unexpected deletion record data"@))
        } else if !st.db.contains_key(id) {
            Err(trace_error_view(ln, "deletion references an unknown clause"@))
        } else if st.db[id].to_multiset() != clause.to_multiset() {
            Err(trace_error_view(ln, "deletion clause does not match"@))
        } else {
            Ok(FratState { db: st.db.remove(id), ..st })
        }
    } else if kind == "f"@ {
        if k < toks.len() || !(st.db.contains_key(id) && st.db[id].to_multiset()
            == clause.to_multiset()) {
            Err(trace_error_view(ln, "invalid clause finalization"@))
        } else {
            Ok(FratState { finalized_empty: st.finalized_empty || clause.len() == 0, ..st })
        }
    } else {
        Err(trace_error_view(ln, "unsupported FRAT record"@))
    }
}

/// One FRAT line `<kind> <id> <literal>* 0 ...`.
pub open spec fn frat_line(
    st: FratState,
    toks: Seq<Seq<char>>,
    ln: nat,
    manifest: Seq<Seq<i32>>,
    ids: Seq<i64>,
    variables: usize,
    limits: VerificationLimits,
) -> Result<FratState, VerdictView> {
    if skipped_line(toks) {
        Ok(st)
    } else if st.events + 1 > sat_mul(limits.max_nodes, 32) {
        Err(VerdictView::Inconclusive("avatar SAT trace exceeds the strict event limit"@))
    } else if toks.len() < 2 {
        Err(trace_error_view(ln, "missing clause ID"@))
    } else {
        match parse_i64(toks[1]) {
            None => Err(trace_error_view(ln, "invalid clause ID"@)),
            Some(id) => match frat_clause(toks, 2, Seq::empty(), ln, limits.max_clause_literals) {
                Err(e) => Err(e),
                Ok((clause, k)) => {
                    let total = if st.total_literals + clause.len() > usize::MAX {
                        usize::MAX as nat
                    } else {
                        st.total_literals + clause.len()
                    };
                    if total > sat_mul(limits.max_clause_literals, limits.max_nodes) {
                        Err(
                            VerdictView::Inconclusive(
                                "avatar SAT trace exceeds the strict literal limit"@,
                            ),
                        )
                    } else if exceeds_bound(clause, variables) {
                        Err(
                            trace_error_view(
                                ln,
                                "trace clause uses a literal outside the declared variable bound"@,
                            ),
                        )
                    } else {
                        frat_record(
                            FratState { events: st.events + 1, total_literals: total, ..st },
                            toks[0],
                            id,
                            clause,
                            toks,
                            k,
                            ln,
                            manifest,
                            ids,
                        )
                    }
                },
            },
        }
    }
}

/// The state after the first `n` lines of a FRAT trace.
pub open spec fn frat_run(
    lines: Seq<Seq<Seq<char>>>,
    n: int,
    manifest: Seq<Seq<i32>>,
    ids: Seq<i64>,
    variables: usize,
    limits: VerificationLimits,
) -> Result<FratState, VerdictView>
    decreases n,
{
    if n <= 0 {
        Ok(
            FratState {
                db: Map::empty(),
                original_index: 0,
                finalized_empty: false,
                events: 0,
                total_literals: 0,
            },
        )
    } else {
        match frat_run(lines, n - 1, manifest, ids, variables, limits) {
            Ok(st) => frat_line(st, lines[n - 1], (n - 1) as nat, manifest, ids, variables, limits),
            Err(e) => Err(e),
        }
    }
}

/// What replaying a FRAT trace against its manifest gives.
pub open spec fn frat_outcome(
    manifest: Seq<Seq<i32>>,
    ids: Seq<i64>,
    trace: Seq<u8>,
    variables: usize,
    limits: VerificationLimits,
) -> Result<(), VerdictView> {
    if !valid_utf8(trace) {
        Err(VerdictView::Rejected("avatar SAT trace is not valid UTF-8 FRAT"@))
    } else {
        let lines = token_lines(decode_utf8(trace));
        match frat_run(lines, lines.len() as int, manifest, ids, variables, limits) {
            Err(e) => Err(e),
            Ok(st) => if st.original_index != manifest.len() {
                Err(VerdictView::Rejected("SAT trace does not contain every manifest clause"@))
            } else if st.finalized_empty {
                Ok(())
            } else {
                Err(VerdictView::Rejected("SAT trace does not finalize the empty clause"@))
            },
        }
    }
}

/// Exchanges two adjacent literals, keeping the multiset of literals.
fn swap_adjacent(v: &mut Vec<i32>, j: usize)
    requires
        0 < j < old(v).len(),
    ensures
        final(v)@ == old(v)@.update(j - 1, old(v)@[j as int]).update(j as int, old(v)@[j - 1]),
        final(v)@.to_multiset() == old(v)@.to_multiset(),
{
    let x = v[j - 1];
    let y = v[j];
    let ghost s0 = v@;
    v.set(j - 1, y);
    let ghost s1 = v@;
    v.set(j, x);
    proof {
        broadcast use vstd::seq_lib::group_to_multiset_ensures;
        broadcast use vstd::multiset::group_multiset_properties;
        vstd::seq_lib::to_multiset_update(s0, j - 1, y);
        vstd::seq_lib::to_multiset_update(s1, j as int, x);
        assert(s1[j as int] == y);
        assert(s0.contains(x) && s0.contains(y));
        assert(s0.to_multiset().count(x) > 0);
        assert(s0.to_multiset().count(y) > 0);
        assert(v@.to_multiset() =~= s0.to_multiset());
    }
}

/// Sorts the literals in ascending order by insertion.
fn sort_literals(v: &mut Vec<i32>)
    ensures
        sorted_by(final(v)@, |a: i32, b: i32| a <= b),
        final(v)@.to_multiset() == old(v)@.to_multiset(),
{
    let n = v.len();
    let mut i: usize = 0;
    while i < n
        invariant
            0 <= i <= n,
            v.len() == n,
            v@.to_multiset() == old(v)@.to_multiset(),
            forall|a: int, b: int| 0 <= a < b < i ==> v@[a] <= v@[b],
        decreases n - i,
    {
        let mut j: usize = i;
        while j > 0 && v[j - 1] > v[j]
            invariant
                0 <= j <= i < n,
                v.len() == n,
                v@.to_multiset() == old(v)@.to_multiset(),
                forall|a: int, b: int| 0 <= a < b <= i && b != j ==> v@[a] <= v@[b],
            decreases j,
        {
            let ghost w = v@;
            swap_adjacent(v, j);
            assert forall|a: int, b: int| 0 <= a < b <= i && b != j - 1 implies v@[a] <= v@[b] by {
                if b == j {
                    if a < j - 1 {
                        assert(w[a] <= w[j - 1]);
                    }
                } else if b > j {
                    if a == j - 1 {
                        assert(w[j as int] <= w[b]);
                    } else if a == j {
                        assert(w[j - 1] <= w[b]);
                    } else {
                        assert(w[a] <= w[b]);
                    }
                } else {
                    assert(w[a] <= w[b]);
                }
            }
            j = j - 1;
        }
        assert forall|a: int, b: int| 0 <= a < b < i + 1 implies v@[a] <= v@[b] by {
            if b == j && a < j - 1 {
                assert(v@[a] <= v@[j - 1]);
            }
        }
        i = i + 1;
    }
    assert(sorted_by(v@, |a: i32, b: i32| a <= b));
}

fn same_literals(a: &Vec<i32>, b: &Vec<i32>) -> (r: bool)
    ensures
        r == (a@ == b@),
{
    if a.len() != b.len() {
        return false;
    }
    let mut i: usize = 0;
    while i < a.len()
        invariant
            0 <= i <= a.len(),
            a.len() == b.len(),
            forall|k: int| 0 <= k < i ==> a@[k] == b@[k],
        decreases a.len() - i,
    {
        if a[i] != b[i] {
            return false;
        }
        i = i + 1;
    }
    assert(a@ =~= b@);
    true
}

/// Whether two clauses hold the same literals with the same multiplicities.
pub(crate) fn same_multiset(a: &Vec<i32>, b: &Vec<i32>) -> (r: bool)
    ensures
        r == (a@.to_multiset() == b@.to_multiset()),
{
    let mut x = a.clone();
    let mut y = b.clone();
    assert(x@ =~= a@);
    assert(y@ =~= b@);
    sort_literals(&mut x);
    sort_literals(&mut y);
    let same = same_literals(&x, &y);
    proof {
        let leq = |p: i32, q: i32| p <= q;
        assert(total_ordering(leq)) by {
            assert(reflexive(leq));
            assert(antisymmetric(leq));
            assert(transitive(leq));
            assert(strongly_connected(leq));
        }
        if a@.to_multiset() == b@.to_multiset() {
            lemma_sorted_unique(x@, y@, leq);
        }
    }
    same
}

/// The exec state of a FRAT replay.
struct FratReplay {
    clauses: HashMap<i64, Vec<i32>>,
    original_index: usize,
    finalized_empty: bool,
    events: usize,
    total_literals: usize,
}

impl FratReplay {
    closed spec fn state(&self) -> FratState {
        FratState {
            db: db_view(self.clauses@),
            original_index: self.original_index as nat,
            finalized_empty: self.finalized_empty,
            events: self.events as nat,
            total_literals: self.total_literals as nat,
        }
    }
}

/// Reads the LRAT hints of an addition record from token `start` on.
fn frat_hints_exec(toks: &Vec<Vec<char>>, start: usize, ln: usize) -> (r: Result<
    (Vec<i64>, usize),
    KernelVerdict,
>)
    requires
        ln < usize::MAX,
    ensures
        match frat_hints(texts_view(toks@), start as int, Seq::empty(), ln as nat) {
            Ok((a, k)) => r matches Ok((v, j)) && v@ == a && j == k,
            Err(e) => r matches Err(v) && v@ == e,
        },
{
    let ghost tv = texts_view(toks@);
    let ghost target = frat_hints(tv, start as int, Seq::empty(), ln as nat);
    let mut ants: Vec<i64> = Vec::new();
    let mut k: usize = start;
    loop
        invariant
            tv == texts_view(toks@),
            target == frat_hints(tv, k as int, ants@, ln as nat),
            target == frat_hints(tv, start as int, Seq::empty(), ln as nat),
            ln < usize::MAX,
        decreases toks.len() - k,
    {
        if k >= toks.len() {
            return Err(trace_error(ln, "unterminated antecedent list"));
        }
        if token_is(&toks[k], "0") {
            return Ok((ants, k + 1));
        }
        match parse_i64_token(&toks[k]) {
            None => {
                return Err(trace_error(ln, "invalid antecedent clause ID"));
            },
            Some(a) => {
                ants.push(a);
            },
        }
        k = k + 1;
    }
}

/// Processes one FRAT line.
fn frat_line_exec(
    st: &mut FratReplay,
    toks: &Vec<Vec<char>>,
    ln: usize,
    manifest: &[Vec<i32>],
    original_ids: &[i64],
    variables: usize,
    limits: VerificationLimits,
) -> (r: Result<(), KernelVerdict>)
    requires
        ln < usize::MAX,
        variables <= i32::MAX,
        db_negatable(old(st).state().db),
    ensures
        match frat_line(
            old(st).state(),
            texts_view(toks@),
            ln as nat,
            manifest_view(manifest@),
            original_ids@,
            variables,
            limits,
        ) {
            Ok(s) => r is Ok && final(st).state() == s,
            Err(e) => r matches Err(v) && v@ == e,
        },
        db_negatable(final(st).state().db),
{
    let ghost tv = texts_view(toks@);
    let ghost mv = manifest_view(manifest@);
    assert(tv.len() == toks@.len());
    if toks.len() == 0 || (toks[0].len() > 0 && toks[0][0] == 'c') {
        assert(skipped_line(tv));
        return Ok(());
    }
    assert(!skipped_line(tv));
    let event_limit = saturating_mul(limits.max_nodes, 32);
    if st.events >= event_limit {
        return Err(inconclusive("avatar SAT trace exceeds the strict event limit"));
    }
    if toks.len() < 2 {
        return Err(trace_error(ln, "missing clause ID"));
    }
    let id = match parse_i64_token(&toks[1]) {
        None => {
            return Err(trace_error(ln, "invalid clause ID"));
        },
        Some(id) => id,
    };
    let mut pos: usize = 2;
    let clause = match parse_trace_clause(toks, &mut pos, ln, limits.max_clause_literals) {
        Ok(c) => c,
        Err(e) => {
            return Err(e);
        },
    };
    let total = st.total_literals.saturating_add(clause.len());
    let literal_limit = saturating_mul(limits.max_clause_literals, limits.max_nodes);
    if total > literal_limit {
        return Err(inconclusive("avatar SAT trace exceeds the strict literal limit"));
    }
    if exceeds_bound_exec(&clause, variables) {
        return Err(
            trace_error(ln, "trace clause uses a literal outside the declared variable bound"),
        );
    }
    assert(negatable(clause@)) by {
        assert forall|i: int| 0 <= i < clause@.len() implies #[trigger] clause@[i] != i32::MIN by {
            assert(!(abs_int(clause@[i] as int) > variables));
        }
    }
    st.events = st.events + 1;
    st.total_literals = total;
    let ghost st1 = st.state();
    if token_is(&toks[0], "o") {
        if pos < toks.len() {
            return Err(trace_error(ln, "unexpected original record data"));
        }
        if st.original_index >= original_ids.len() {
            return Err(trace_error(ln, "trace has more original clauses than its manifest"));
        }
        if st.original_index >= manifest.len() {
            return Err(trace_error(ln, "trace original clause index exceeds manifest"));
        }
        let expected = &manifest[st.original_index];
        assert(mv[st.original_index as int] == expected@);
        if id != original_ids[st.original_index] || !same_literals(&clause, expected) {
            return Err(trace_error(ln, "trace original clause does not match its manifest entry"));
        }
        if id <= 0 || st.clauses.contains_key(&id) {
            return Err(trace_error(ln, "duplicate original clause ID"));
        }
        proof {
            lemma_db_insert(st.clauses@, id, clause);
        }
        st.clauses.insert(id, clause);
        st.original_index = st.original_index + 1;
        proof {
            assert forall|k: i64| #[trigger] st.state().db.contains_key(k) implies negatable(st.state().db[k]) by {
                if k != id {
                    assert(st1.db.contains_key(k));
                }
            }
        }
        return Ok(());
    }
    if token_is(&toks[0], "a") {
        let (antecedents, after) = if pos < toks.len() {
            if !token_is(&toks[pos], "l") {
                return Err(trace_error(ln, "expected LRAT antecedent marker"));
            }
            match frat_hints_exec(toks, pos + 1, ln) {
                Ok(found) => found,
                Err(e) => {
                    return Err(e);
                },
            }
        } else {
            (Vec::new(), pos)
        };
        let bad = after < toks.len() || id <= 0 || st.clauses.contains_key(&id) || (
        antecedents.len() == 0 && !is_tautology_kernel(clause.as_slice())) || (antecedents.len()
            > 0 && !rup_check_kernel(&st.clauses, clause.as_slice(), antecedents.as_slice()));
        if bad {
            return Err(trace_error(ln, "invalid LRAT/RUP clause addition"));
        }
        proof {
            lemma_db_insert(st.clauses@, id, clause);
        }
        st.clauses.insert(id, clause);
        proof {
            assert forall|k: i64| #[trigger] st.state().db.contains_key(k) implies negatable(st.state().db[k]) by {
                if k != id {
                    assert(st1.db.contains_key(k));
                }
            }
        }
        return Ok(());
    }
    if token_is(&toks[0], "d") {
        if pos < toks.len() {
            return Err(trace_error(ln, "unexpected deletion record data"));
        }
        let existing = match st.clauses.get(&id) {
            None => {
                return Err(trace_error(ln, "deletion references an unknown clause"));
            },
            Some(existing) => existing,
        };
        assert(existing@ == st1.db[id]);
        if !same_multiset(existing, &clause) {
            return Err(trace_error(ln, "deletion clause does not match"));
        }
        proof {
            lemma_db_remove(st.clauses@, id);
        }
        st.clauses.remove(&id);
        proof {
            assert forall|k: i64| #[trigger] st.state().db.contains_key(k) implies negatable(st.state().db[k]) by {
                assert(st1.db.contains_key(k));
                assert(st.clauses@[k] == old(st).clauses@[k]);
            }
        }
        return Ok(());
    }
    if token_is(&toks[0], "f") {
        let same = match st.clauses.get(&id) {
            None => false,
            Some(held) => {
                assert(held@ == st1.db[id]);
                same_multiset(held, &clause)
            },
        };
        if pos < toks.len() || !same {
            return Err(trace_error(ln, "invalid clause finalization"));
        }
        if clause.len() == 0 {
            st.finalized_empty = true;
        }
        return Ok(());
    }
    Err(trace_error(ln, "unsupported FRAT record"))
}

/// What FRAT replay keeps true of its state for an assignment `m`.
pub open spec fn frat_sound_state(st: FratState, manifest: Seq<Seq<i32>>, m: spec_fn(int) -> bool) -> bool {
    &&& db_ok(st.db)
    &&& clauses_hold(m, manifest) ==> db_holds(m, st.db) && !st.finalized_empty
}

proof fn lemma_frat_clause_nonzero(toks: Seq<Seq<char>>, k: int, acc: Seq<i32>, ln: nat, max: usize)
    requires
        forall|i: int| 0 <= i < acc.len() ==> #[trigger] acc[i] != 0,
    ensures
        frat_clause(toks, k, acc, ln, max) matches Ok((c, j)) ==> forall|i: int| 0 <= i < c.len() ==> #[trigger] c[i] != 0,
    decreases toks.len() - k,
{
    if !(k < 0 || k >= toks.len()) && toks[k] != "0"@ {
        if let Some(l) = parse_i32(toks[k]) {
            if l != 0 && acc.len() < max {
                let acc2 = acc.push(l);
                assert forall|i: int| 0 <= i < acc2.len() implies #[trigger] acc2[i] != 0 by {
                    if i < acc.len() {
                        assert(acc2[i] == acc[i]);
                    }
                }
                lemma_frat_clause_nonzero(toks, k + 1, acc2, ln, max);
            }
        }
    }
}

proof fn lemma_frat_line_sound(
    st: FratState,
    toks: Seq<Seq<char>>,
    ln: nat,
    manifest: Seq<Seq<i32>>,
    ids: Seq<i64>,
    variables: usize,
    limits: VerificationLimits,
    m: spec_fn(int) -> bool,
)
    requires
        frat_sound_state(st, manifest, m),
        variables <= i32::MAX,
    ensures
        frat_line(st, toks, ln, manifest, ids, variables, limits) matches Ok(s2) ==> frat_sound_state(s2, manifest, m),
{
    if let Ok(s2) = frat_line(st, toks, ln, manifest, ids, variables, limits) {
        if !skipped_line(toks) {
            let id = parse_i64(toks[1])->Some_0;
            let (clause, k) = frat_clause(toks, 2, Seq::empty(), ln, limits.max_clause_literals)->Ok_0;
            lemma_frat_clause_nonzero(toks, 2, Seq::empty(), ln, limits.max_clause_literals);
            assert(clause_ok(clause)) by {
                assert forall|i: int| 0 <= i < clause.len() implies literal_ok(#[trigger] clause[i]) by {
                    assert(!(abs_int(clause[i] as int) > variables));
                }
            }
            let total = if st.total_literals + clause.len() > usize::MAX {
                usize::MAX as nat
            } else {
                st.total_literals + clause.len()
            };
            let st1 = FratState { events: st.events + 1, total_literals: total, ..st };
            let kind = toks[0];
            if kind == "o"@ || kind == "a"@ {
                assert(s2.db == st1.db.insert(id, clause));
                assert forall|key: i64| s2.db.contains_key(key) implies negatable(#[trigger] s2.db[key]) by {
                    if key != id {
                        assert(st1.db.contains_key(key));
                    }
                }
                if clauses_hold(m, manifest) {
                    if kind == "o"@ {
                        assert(clause == manifest[st.original_index as int]);
                    } else {
                        let (ants, k2) = if k < toks.len() {
                            frat_hints(toks, k + 1, Seq::empty(), ln)->Ok_0
                        } else {
                            (Seq::<i64>::empty(), k)
                        };
                        if ants.len() == 0 {
                            lemma_tautology_holds(m, clause);
                        } else {
                            assert forall|j: int| 0 <= j < ants.len() implies clause_holds(m, #[trigger] st1.db[ants[j]]) && negatable(st1.db[ants[j]]) by {
                                assert(st1.db.contains_key(ants[j]));
                            }
                            lemma_rup_sound(st1.db, clause, ants, m);
                        }
                    }
                    assert(clause_holds(m, clause));
                    assert forall|key: i64| s2.db.contains_key(key) implies clause_holds(m, #[trigger] s2.db[key]) by {
                        if key != id {
                            assert(st1.db.contains_key(key));
                        }
                    }
                }
            } else if kind == "d"@ {
                assert(s2.db == st1.db.remove(id));
                assert forall|key: i64| s2.db.contains_key(key) implies negatable(#[trigger] s2.db[key]) by {
                    assert(st1.db.contains_key(key));
                }
                if clauses_hold(m, manifest) {
                    assert forall|key: i64| s2.db.contains_key(key) implies clause_holds(m, #[trigger] s2.db[key]) by {
                        assert(st1.db.contains_key(key));
                    }
                }
            } else if kind == "f"@ {
                if clauses_hold(m, manifest) && clause.len() == 0 {
                    let held = st1.db[id];
                    assert(held.to_multiset() == clause.to_multiset());
                    assert(held.to_multiset().len() == held.len()) by {
                        vstd::seq_lib::to_multiset_len(held);
                    }
                    assert(clause.to_multiset().len() == clause.len()) by {
                        vstd::seq_lib::to_multiset_len(clause);
                    }
                    assert(clause_holds(m, held));
                    assert(false);
                }
            }
        }
    }
}

proof fn lemma_frat_run_sound(
    lines: Seq<Seq<Seq<char>>>,
    n: int,
    manifest: Seq<Seq<i32>>,
    ids: Seq<i64>,
    variables: usize,
    limits: VerificationLimits,
    m: spec_fn(int) -> bool,
)
    requires
        variables <= i32::MAX,
    ensures
        frat_run(lines, n, manifest, ids, variables, limits) matches Ok(s) ==> frat_sound_state(s, manifest, m),
    decreases n,
{
    if n > 0 {
        lemma_frat_run_sound(lines, n - 1, manifest, ids, variables, limits, m);
        if let Ok(st) = frat_run(lines, n - 1, manifest, ids, variables, limits) {
            lemma_frat_line_sound(st, lines[n - 1], (n - 1) as nat, manifest, ids, variables, limits, m);
        }
    }
}

/// An accepted FRAT trace refutes its manifest: no assignment satisfies
/// all of the manifest's clauses.
pub proof fn lemma_frat_refutes(
    manifest: Seq<Seq<i32>>,
    ids: Seq<i64>,
    trace: Seq<u8>,
    variables: usize,
    limits: VerificationLimits,
)
    requires
        frat_outcome(manifest, ids, trace, variables, limits) is Ok,
        variables <= i32::MAX,
    ensures
        !satisfiable(manifest),
{
    let lines = token_lines(decode_utf8(trace));
    if satisfiable(manifest) {
        let m = choose|m: spec_fn(int) -> bool| clauses_hold(m, manifest);
        lemma_frat_run_sound(lines, lines.len() as int, manifest, ids, variables, limits, m);
    }
}

proof fn lemma_frat_run_err(
    lines: Seq<Seq<Seq<char>>>,
    n: int,
    total: int,
    manifest: Seq<Seq<i32>>,
    ids: Seq<i64>,
    variables: usize,
    limits: VerificationLimits,
)
    requires
        n <= total,
        frat_run(lines, n, manifest, ids, variables, limits) is Err,
    ensures
        frat_run(lines, total, manifest, ids, variables, limits) == frat_run(lines, n, manifest, ids, variables, limits),
    decreases total - n,
{
    if n < total {
        lemma_frat_run_err(lines, n, total - 1, manifest, ids, variables, limits);
    }
}

/// Replays a FRAT trace with LRAT hints: `o` records must restate the
/// manifest clauses in order, `a` records add clauses justified as
/// tautologies or by reverse unit propagation, `d` records delete and `f`
/// records finalize stored clauses (compared as multisets). Succeeds when
/// every manifest clause was restated and the empty clause is finalized.
pub fn replay_frat_lrat(
    manifest: &[Vec<i32>],
    original_ids: &[i64],
    trace: &[u8],
    declared_variables: usize,
    limits: VerificationLimits,
) -> (r: Result<(), KernelVerdict>)
    ensures
        match frat_outcome(manifest_view(manifest@), original_ids@, trace@, replay_bound(declared_variables), limits) {
            Ok(()) => r is Ok,
            Err(e) => r matches Err(v) && v@ == e,
        },
        r is Ok ==> !satisfiable(manifest_view(manifest@)),
{
    let variables: usize = if declared_variables > 2147483647usize { 2147483647usize } else { declared_variables };
    let ghost mv = manifest_view(manifest@);
    let text = match utf8_text(trace) {
        Some(text) => text,
        None => {
            return Err(rejected("avatar SAT trace is not valid UTF-8 FRAT"));
        },
    };
    let chars = str_chars(text);
    let lines = split_lines(&chars);
    let ghost tl = token_lines(decode_utf8(trace@));
    assert(tl.len() == lines@.len());
    let mut st = FratReplay {
        clauses: HashMap::new(),
        original_index: 0,
        finalized_empty: false,
        events: 0,
        total_literals: 0,
    };
    assert(st.state().db =~= Map::empty());
    let mut li: usize = 0;
    while li < lines.len()
        invariant
            0 <= li <= lines.len(),
            tl.len() == lines@.len(),
            tl == token_lines(decode_utf8(trace@)),
            texts_view(lines@) == crate::text::line_pieces(chars@),
            chars@ == decode_utf8(trace@),
            variables == replay_bound(declared_variables),
            variables <= i32::MAX,
            valid_utf8(trace@),
            mv == manifest_view(manifest@),
            db_negatable(st.state().db),
            frat_run(tl, li as int, mv, original_ids@, variables, limits) == Ok::<FratState, VerdictView>(st.state()),
        decreases lines.len() - li,
    {
        let toks = split_tokens(&lines[li]);
        assert(texts_view(toks@) == tl[li as int]) by {
            assert(lines@[li as int]@ == texts_view(lines@)[li as int]);
        }
        match frat_line_exec(&mut st, &toks, li, manifest, original_ids, variables, limits) {
            Ok(()) => {},
            Err(e) => {
                proof {
                    lemma_frat_run_err(tl, li + 1, tl.len() as int, mv, original_ids@, variables, limits);
                }
                return Err(e);
            },
        }
        li = li + 1;
    }
    if st.original_index != manifest.len() {
        return Err(rejected("SAT trace does not contain every manifest clause"));
    }
    if st.finalized_empty {
        proof {
            lemma_frat_refutes(mv, original_ids@, trace@, variables, limits);
        }
        Ok(())
    } else {
        Err(rejected("SAT trace does not finalize the empty clause"))
    }
}

} // verus!
