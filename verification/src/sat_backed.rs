//! The SAT-backed refutation: ground parent clauses, encoded as
//! propositional clauses over their atoms in a canonical order, must be
//! exactly the manifest of a SAT trace that replays to the empty clause.
use vstd::prelude::*;
use vstd::multiset::Multiset;
use vstd::string::*;
use vstd::utf8::encode_utf8;
use crate::term::{Term, Atom, Literal, Formula, STerm, SAtom, SLiteral, clause_view, terms_view, lemma_terms_view};
use crate::verdict::{KernelVerdict, VerdictView, VerificationLimits, rejected, inconclusive};
use crate::clause::{clause_of, clause_from_formula};
use crate::branch::names_view;
use crate::case_split::DagNode;
use crate::hex::{decode_hex_bytes, decode_hex, decode_hex_digest};
use crate::text::{str_chars, token_is, texts_view};
use crate::trace::{manifest_view, lrat_outcome, frat_outcome, replay_lrat, replay_frat_lrat, same_multiset};
use crate::sat_trace::{replay_bound, same_digest};
use crate::trace::manifest_negatable;
use crate::sat::negatable;

verus! {

/// The SAT metadata of a SAT-backed refutation.
pub struct SatBackedInfo {
    pub trace_format: Option<String>,
    pub inputs: Vec<String>,
    pub trace_variables: Option<usize>,
    pub trace_digest: Option<String>,
    pub trace_original_ids: Vec<i64>,
    pub trace_cited_indices: Vec<usize>,
    pub trace_clauses: Vec<Vec<i32>>,
    pub trace_bytes: Option<String>,
}

/// The largest manifest a SAT-backed refutation may carry.
pub const SAT_BACKED_MAX_MANIFEST: usize = 4000000;

/// The largest number of trace events a SAT-backed replay may take.
pub const SAT_BACKED_MAX_TRACE_EVENTS: usize = 64000000;

/// The largest hexadecimal proof text (twice the byte limit).
pub const SAT_BACKED_MAX_TRACE_HEX: usize = 1073741824;

/// The name of a constant: a symbol applied to nothing.
pub open spec fn constant_name(t: STerm, names: Seq<Seq<char>>) -> Option<Seq<char>> {
    match t {
        STerm::App(c, args) => if args.len() == 0 && c < names.len() {
            Some(names[c as int])
        } else {
            None
        },
        STerm::Var(_) => None,
    }
}

/// The key a ground predicate atom is ordered by: its predicate's name and
/// its arguments' names.
pub open spec fn atom_key(a: SAtom, names: Seq<Seq<char>>) -> Option<(Seq<char>, Seq<Seq<char>>)> {
    match a {
        SAtom::Pred(p, args) => if p < names.len()
            && forall|i: int| 0 <= i < args.len() ==> #[trigger] constant_name(args[i], names) is Some {
            Some((names[p as int], args.map_values(|t: STerm| constant_name(t, names)->Some_0)))
        } else {
            None
        },
        SAtom::Eq(_, _) => None,
    }
}

/// Lexicographic order of texts, character by character.
pub open spec fn chars_lt(a: Seq<char>, b: Seq<char>) -> bool
    decreases a.len(),
{
    if a.len() == 0 {
        b.len() > 0
    } else if b.len() == 0 {
        false
    } else if (a[0] as u32) < (b[0] as u32) {
        true
    } else if a[0] == b[0] {
        chars_lt(a.skip(1), b.skip(1))
    } else {
        false
    }
}

/// Lexicographic order of lists of texts.
pub open spec fn texts_lt(a: Seq<Seq<char>>, b: Seq<Seq<char>>) -> bool
    decreases a.len(),
{
    if a.len() == 0 {
        b.len() > 0
    } else if b.len() == 0 {
        false
    } else if chars_lt(a[0], b[0]) {
        true
    } else if a[0] == b[0] {
        texts_lt(a.skip(1), b.skip(1))
    } else {
        false
    }
}

/// The order of atom keys: by predicate name, then by argument names.
pub open spec fn key_lt(a: (Seq<char>, Seq<Seq<char>>), b: (Seq<char>, Seq<Seq<char>>)) -> bool {
    chars_lt(a.0, b.0) || (a.0 == b.0 && texts_lt(a.1, b.1))
}

/// Why a parent is refused, if it is: it must be a non-empty clause of
/// ground predicate atoms.
pub open spec fn parent_clause_error(f: Formula, names: Seq<Seq<char>>, limits: VerificationLimits) -> Option<VerdictView> {
    match clause_of(f, limits.max_clause_literals) {
        None => Some(VerdictView::Rejected("sat_backed_refutation parent is not a supported clause"@)),
        Some(c) => if c.len() == 0 {
            Some(VerdictView::Rejected("sat_backed_refutation parent is an empty clause"@))
        } else if exists|i: int| 0 <= i < c.len() && #[trigger] atom_key(c[i].atom, names) is None {
            Some(VerdictView::Rejected("sat_backed_refutation supports ground atoms only"@))
        } else {
            None
        },
    }
}

/// The refusal of the first refused parent, if any.
pub open spec fn parents_error(parents: Seq<Formula>, names: Seq<Seq<char>>, limits: VerificationLimits) -> Option<VerdictView> {
    if exists|i: int| 0 <= i < parents.len() && #[trigger] parent_clause_error(parents[i], names, limits) is Some {
        parent_clause_error(parents[choose|i: int| 0 <= i < parents.len() && parent_clause_error(parents[i], names, limits) is Some
            && forall|j: int| 0 <= j < i ==> #[trigger] parent_clause_error(parents[j], names, limits) is None], names, limits)
    } else {
        None
    }
}

/// A proof rule the parents of a SAT-backed refutation may not use: any
/// but none at all and instantiation.
pub open spec fn unsupported_rule(n: DagNode) -> bool {
    n.rule matches Some(r) && r@ != "instantiate"@ && r@ != "instantiation"@
}

/// The first parent, by position, whose rule is not supported, if any.
pub open spec fn first_unsupported(nodes: Seq<DagNode>, pis: Seq<usize>) -> Option<int> {
    if exists|i: int| 0 <= i < pis.len() && #[trigger] unsupported_rule(nodes[pis[i] as int]) {
        Some(choose|i: int| 0 <= i < pis.len() && unsupported_rule(nodes[pis[i] as int])
            && forall|j: int| 0 <= j < i ==> !#[trigger] unsupported_rule(nodes[pis[j] as int]))
    } else {
        None
    }
}

/// The rejection of a parent that uses an unsupported rule.
pub open spec fn unsupported_rule_text(n: DagNode) -> Seq<char> {
    "sat_backed_refutation parent `"@ + n.name@ + "` uses unsupported rule `"@ + n.rule->Some_0@ + "`"@
}

/// The keys of all atoms of the clauses.
pub open spec fn all_keys(cs: Seq<Seq<SLiteral>>, names: Seq<Seq<char>>) -> Set<(Seq<char>, Seq<Seq<char>>)> {
    Set::new(|k: (Seq<char>, Seq<Seq<char>>)| exists|i: int, j: int| 0 <= i < cs.len() && 0 <= j < cs[i].len()
        && #[trigger] atom_key(cs[i][j].atom, names) == Some(k))
}

/// The SAT variable of a key: its position, from one, among all keys in
/// ascending order.
pub open spec fn key_var(k: (Seq<char>, Seq<Seq<char>>), keys: Set<(Seq<char>, Seq<Seq<char>>)>) -> int {
    keys_before(keys, k).len() as int + 1
}

/// A literal as a SAT literal.
pub open spec fn encode_literal(l: SLiteral, names: Seq<Seq<char>>, keys: Set<(Seq<char>, Seq<Seq<char>>)>) -> i32 {
    let v = key_var(atom_key(l.atom, names)->Some_0, keys);
    if l.positive {
        v as i32
    } else {
        (-v) as i32
    }
}

/// The clauses as SAT clauses.
pub open spec fn encode_clauses(cs: Seq<Seq<SLiteral>>, names: Seq<Seq<char>>, keys: Set<(Seq<char>, Seq<Seq<char>>)>) -> Seq<Seq<i32>> {
    cs.map_values(|c: Seq<SLiteral>| c.map_values(|l: SLiteral| encode_literal(l, names, keys)))
}

/// Two lists of SAT clauses hold the same clauses, each as a multiset of
/// literals, ignoring order and repeats of whole clauses.
pub open spec fn same_clause_sets(p: Seq<Seq<i32>>, m: Seq<Seq<i32>>) -> bool {
    p.map_values(|c: Seq<i32>| c.to_multiset()).to_set() == m.map_values(|c: Seq<i32>| c.to_multiset()).to_set()
}

/// The limits a SAT-backed replay runs under.
pub open spec fn tier2_limits(limits: VerificationLimits) -> VerificationLimits {
    VerificationLimits { max_nodes: SAT_BACKED_MAX_MANIFEST, max_avatar_steps: SAT_BACKED_MAX_TRACE_EVENTS, ..limits }
}

/// The verdict on a `sat_backed_refutation` step, `digest` being the digest
/// of its trace payload.
pub open spec fn sat_backed_outcome(
    node_is_false: bool,
    nodes: Seq<DagNode>,
    pis: Seq<usize>,
    parents: Seq<Formula>,
    info: Option<SatBackedInfo>,
    names: Seq<Seq<char>>,
    digest: Seq<u8>,
    limits: VerificationLimits,
) -> VerdictView {
    if !node_is_false {
        VerdictView::Rejected("sat_backed_refutation must conclude `$false`"@)
    } else if info is None {
        VerdictView::Inconclusive("sat_backed_refutation lacks SAT metadata"@)
    } else {
        let a = info->Some_0;
        if a.trace_format is None {
            VerdictView::Inconclusive("sat_backed_refutation lacks a trace format"@)
        } else {
            let fmt = a.trace_format->Some_0@;
            if fmt != "frat-lrat"@ && fmt != "lrat"@ {
                VerdictView::Inconclusive("unsupported sat-backed trace format `"@ + fmt + "`"@)
            } else if pis.len() == 0 {
                VerdictView::Rejected("sat_backed_refutation cites no parents"@)
            } else if first_unsupported(nodes, pis) is Some {
                VerdictView::Rejected(unsupported_rule_text(nodes[pis[first_unsupported(nodes, pis)->Some_0] as int]))
            } else if pis.map_values(|k: usize| nodes[k as int].name@).to_set() != names_view(a.inputs@).to_set() {
                VerdictView::Rejected("sat_backed_refutation inputs do not match its parent list"@)
            } else if parents_error(parents, names, limits) is Some {
                parents_error(parents, names, limits)->Some_0
            } else {
                let cs = parents.map_values(|f: Formula| clause_of(f, limits.max_clause_literals)->Some_0);
                let keys = all_keys(cs, names);
                let m = manifest_view(a.trace_clauses@);
                if keys.len() >= i32::MAX {
                    VerdictView::Inconclusive("sat_backed_refutation variable bound exceeds the supported integer range"@)
                } else if m.len() > SAT_BACKED_MAX_MANIFEST {
                    VerdictView::Inconclusive("sat-backed manifest exceeds the Tier-2 entry limit"@)
                } else if a.trace_cited_indices@ != Seq::new(m.len(), |i: int| i as usize) {
                    VerdictView::Rejected("sat_backed_refutation must cite every manifest entry in order"@)
                } else if !same_clause_sets(encode_clauses(cs, names, keys), m) {
                    VerdictView::Rejected("sat_backed_refutation manifest does not match its parents"@)
                } else if a.trace_variables is None {
                    VerdictView::Inconclusive("sat_backed_refutation omits its variable bound"@)
                } else if a.trace_variables->Some_0 != keys.len() {
                    VerdictView::Rejected("sat_backed_refutation variable bound does not match its atoms"@)
                } else if a.trace_digest is None {
                    VerdictView::Inconclusive("sat_backed_refutation omits its digest"@)
                } else if !(decode_hex_bytes(encode_utf8(a.trace_digest->Some_0@)) matches Some(d) && d.len() == 32) {
                    VerdictView::Rejected("sat_backed_refutation has an invalid SHA-256 digest"@)
                } else if a.trace_bytes is None {
                    VerdictView::Inconclusive("sat_backed_refutation omits its proof bytes"@)
                } else if encode_utf8(a.trace_bytes->Some_0@).len() > SAT_BACKED_MAX_TRACE_HEX {
                    VerdictView::Inconclusive("sat-backed trace exceeds the Tier-2 byte limit"@)
                } else if decode_hex_bytes(encode_utf8(a.trace_bytes->Some_0@)) is None {
                    VerdictView::Rejected("sat_backed_refutation has invalid hexadecimal proof bytes"@)
                } else if a.trace_original_ids@.len() == 0 {
                    VerdictView::Rejected("sat_backed_refutation has no original clause IDs"@)
                } else if digest != decode_hex_bytes(encode_utf8(a.trace_digest->Some_0@))->Some_0 {
                    VerdictView::Rejected("sat_backed_refutation digest does not match its payload"@)
                } else {
                    let trace = decode_hex_bytes(encode_utf8(a.trace_bytes->Some_0@))->Some_0;
                    let vars = replay_bound(a.trace_variables->Some_0);
                    let replay = if fmt == "frat-lrat"@ {
                        frat_outcome(m, a.trace_original_ids@, trace, vars, tier2_limits(limits))
                    } else {
                        lrat_outcome(m, a.trace_original_ids@, trace, vars, tier2_limits(limits))
                    };
                    match replay {
                        Ok(()) => VerdictView::Certified,
                        Err(e) => e,
                    }
                }
            }
        }
    }
}

/// An atom key as a value.
pub open spec fn key_view(k: (Vec<char>, Vec<Vec<char>>)) -> (Seq<char>, Seq<Seq<char>>) {
    (k.0@, texts_view(k.1@))
}

pub open spec fn keys_view(ks: Seq<(Vec<char>, Vec<Vec<char>>)>) -> Seq<(Seq<char>, Seq<Seq<char>>)> {
    ks.map_values(|k: (Vec<char>, Vec<Vec<char>>)| key_view(k))
}

fn copy_chars(a: &Vec<char>) -> (r: Vec<char>)
    ensures
        r@ == a@,
{
    let mut out: Vec<char> = Vec::new();
    let mut i: usize = 0;
    while i < a.len()
        invariant
            0 <= i <= a.len(),
            out@ == a@.take(i as int),
        decreases a.len() - i,
    {
        out.push(a[i]);
        assert(a@.take(i as int + 1) =~= a@.take(i as int).push(a@[i as int]));
        i = i + 1;
    }
    assert(a@.take(a@.len() as int) =~= a@);
    out
}

fn copy_texts(a: &Vec<Vec<char>>) -> (r: Vec<Vec<char>>)
    ensures
        texts_view(r@) == texts_view(a@),
{
    let mut out: Vec<Vec<char>> = Vec::new();
    let mut i: usize = 0;
    while i < a.len()
        invariant
            0 <= i <= a.len(),
            texts_view(out@) == texts_view(a@).take(i as int),
        decreases a.len() - i,
    {
        let c = copy_chars(&a[i]);
        let ghost before = out@;
        out.push(c);
        assert(texts_view(out@) =~= texts_view(before).push(c@));
        assert(texts_view(a@).take(i as int + 1) =~= texts_view(a@).take(i as int).push(a@[i as int]@));
        i = i + 1;
    }
    assert(texts_view(a@).take(a@.len() as int) =~= texts_view(a@));
    out
}

fn copy_key(k: &(Vec<char>, Vec<Vec<char>>)) -> (r: (Vec<char>, Vec<Vec<char>>))
    ensures
        key_view(r) == key_view(*k),
{
    (copy_chars(&k.0), copy_texts(&k.1))
}

fn same_chars(a: &Vec<char>, b: &Vec<char>) -> (r: bool)
    ensures
        r == (a@ == b@),
{
    if a.len() != b.len() {
        return false;
    }
    let mut i: usize = 0;
    while i < a.len()
        invariant
            0 <= i <= a.len(),
            a.len() == b.len(),
            forall|k: int| 0 <= k < i ==> a@[k] == b@[k],
        decreases a.len() - i,
    {
        if a[i] != b[i] {
            return false;
        }
        i = i + 1;
    }
    assert(a@ =~= b@);
    true
}

fn same_texts(a: &Vec<Vec<char>>, b: &Vec<Vec<char>>) -> (r: bool)
    ensures
        r == (texts_view(a@) == texts_view(b@)),
{
    if a.len() != b.len() {
        assert(texts_view(a@).len() != texts_view(b@).len());
        return false;
    }
    let mut i: usize = 0;
    while i < a.len()
        invariant
            0 <= i <= a.len(),
            a.len() == b.len(),
            forall|k: int| 0 <= k < i ==> a@[k]@ == b@[k]@,
        decreases a.len() - i,
    {
        if !same_chars(&a[i], &b[i]) {
            assert(texts_view(a@)[i as int] != texts_view(b@)[i as int]);
            return false;
        }
        i = i + 1;
    }
    assert(texts_view(a@) =~= texts_view(b@));
    true
}

fn chars_before(a: &Vec<char>, b: &Vec<char>) -> (r: bool)
    ensures
        r == chars_lt(a@, b@),
{
    let mut i: usize = 0;
    assert(a@.skip(0) =~= a@);
    assert(b@.skip(0) =~= b@);
    while i < a.len() && i < b.len()
        invariant
            0 <= i <= a.len(),
            0 <= i <= b.len(),
            chars_lt(a@, b@) == chars_lt(a@.skip(i as int), b@.skip(i as int)),
        decreases a.len() - i,
    {
        let x = a[i];
        let y = b[i];
        assert(a@.skip(i as int)[0] == x);
        assert(b@.skip(i as int)[0] == y);
        if (x as u32) < (y as u32) {
            return true;
        }
        if x != y {
            return false;
        }
        assert(a@.skip(i as int).skip(1) =~= a@.skip(i as int + 1));
        assert(b@.skip(i as int).skip(1) =~= b@.skip(i as int + 1));
        i = i + 1;
    }
    i == a.len() && i < b.len()
}

fn texts_before(a: &Vec<Vec<char>>, b: &Vec<Vec<char>>) -> (r: bool)
    ensures
        r == texts_lt(texts_view(a@), texts_view(b@)),
{
    let ghost av = texts_view(a@);
    let ghost bv = texts_view(b@);
    let mut i: usize = 0;
    assert(av.skip(0) =~= av);
    assert(bv.skip(0) =~= bv);
    while i < a.len() && i < b.len()
        invariant
            0 <= i <= a.len(),
            0 <= i <= b.len(),
            av == texts_view(a@),
            bv == texts_view(b@),
            texts_lt(av, bv) == texts_lt(av.skip(i as int), bv.skip(i as int)),
        decreases a.len() - i,
    {
        assert(av.skip(i as int)[0] == a@[i as int]@);
        assert(bv.skip(i as int)[0] == b@[i as int]@);
        if chars_before(&a[i], &b[i]) {
            return true;
        }
        if !same_chars(&a[i], &b[i]) {
            return false;
        }
        assert(av.skip(i as int).skip(1) =~= av.skip(i as int + 1));
        assert(bv.skip(i as int).skip(1) =~= bv.skip(i as int + 1));
        i = i + 1;
    }
    i == a.len() && i < b.len()
}

fn key_before(a: &(Vec<char>, Vec<Vec<char>>), b: &(Vec<char>, Vec<Vec<char>>)) -> (r: bool)
    ensures
        r == key_lt(key_view(*a), key_view(*b)),
{
    chars_before(&a.0, &b.0) || (same_chars(&a.0, &b.0) && texts_before(&a.1, &b.1))
}

fn same_key(a: &(Vec<char>, Vec<Vec<char>>), b: &(Vec<char>, Vec<Vec<char>>)) -> (r: bool)
    ensures
        r == (key_view(*a) == key_view(*b)),
{
    same_chars(&a.0, &b.0) && same_texts(&a.1, &b.1)
}

fn constant_name_of(t: &Term, names: &Vec<String>) -> (r: Option<Vec<char>>)
    ensures
        match constant_name(t@, names_view(names@)) {
            Some(n) => r matches Some(v) && v@ == n,
            None => r is None,
        },
{
    match t {
        Term::App(c, args) => {
            proof {
                lemma_terms_view(args@);
            }
            if args.len() == 0 && (*c as usize) < names.len() {
                Some(str_chars(names[*c as usize].as_str()))
            } else {
                None
            }
        },
        Term::Var(_) => None,
    }
}

/// The ordering key of a ground predicate atom.
fn atom_key_of(a: &Atom, names: &Vec<String>) -> (r: Option<(Vec<char>, Vec<Vec<char>>)>)
    ensures
        match atom_key(a@, names_view(names@)) {
            Some(k) => r matches Some(x) && key_view(x) == k,
            None => r is None,
        },
{
    let ghost nv = names_view(names@);
    match a {
        Atom::Pred(p, args) => {
            let ghost tv = terms_view(args@);
            proof {
                lemma_terms_view(args@);
                assert(a@ == SAtom::Pred(*p, tv));
            }
            let mut arg_names: Vec<Vec<char>> = Vec::new();
            let mut i: usize = 0;
            while i < args.len()
                invariant
                    0 <= i <= args@.len(),
                    a@ == SAtom::Pred(*p, tv),
                    tv == terms_view(args@),
                    tv.len() == args@.len(),
                    forall|k: int| 0 <= k < args@.len() ==> #[trigger] tv[k] == args@[k]@,
                    nv == names_view(names@),
                    texts_view(arg_names@).len() == i,
                    forall|k: int| 0 <= k < i ==> #[trigger] constant_name(tv[k], nv) is Some
                        && texts_view(arg_names@)[k] == constant_name(tv[k], nv)->Some_0,
                decreases args.len() - i,
            {
                match constant_name_of(&args[i], names) {
                    Some(n) => {
                        let ghost before = arg_names@;
                        arg_names.push(n);
                        assert(texts_view(arg_names@) =~= texts_view(before).push(n@));
                    },
                    None => {
                        proof {
                            assert(constant_name(tv[i as int], nv) is None);
                        }
                        return None;
                    },
                }
                i = i + 1;
            }
            if (*p as usize) >= names.len() {
                return None;
            }
            let pname = str_chars(names[*p as usize].as_str());
            proof {
                assert(texts_view(arg_names@) =~= tv.map_values(|t: STerm| constant_name(t, nv)->Some_0));
            }
            Some((pname, arg_names))
        },
        Atom::Eq(_, _) => None,
    }
}

/// The literals of a parsed parent: sign and atom key of each, in order.
pub open spec fn parsed_clause(ls: Seq<(bool, (Vec<char>, Vec<Vec<char>>))>, c: Seq<SLiteral>, names: Seq<Seq<char>>) -> bool {
    &&& ls.len() == c.len()
    &&& forall|j: int| 0 <= j < c.len() ==> #[trigger] atom_key(c[j].atom, names) is Some
        && ls[j].0 == c[j].positive && key_view(ls[j].1) == atom_key(c[j].atom, names)->Some_0
}

/// Reads one parent as a clause of ground predicate literals.
fn parse_parent(f: &Formula, names: &Vec<String>, limits: VerificationLimits) -> (r: Result<Vec<(bool, (Vec<char>, Vec<Vec<char>>))>, KernelVerdict>)
    ensures
        match parent_clause_error(*f, names_view(names@), limits) {
            Some(e) => r matches Err(v) && v@ == e,
            None => r matches Ok(ls) && parsed_clause(ls@, clause_of(*f, limits.max_clause_literals)->Some_0, names_view(names@)),
        },
{
    let ghost nv = names_view(names@);
    let clause = match clause_from_formula(f, limits) {
        Some(c) => c,
        None => return Err(rejected("sat_backed_refutation parent is not a supported clause")),
    };
    let ghost cv = clause_view(clause@);
    if clause.len() == 0 {
        return Err(rejected("sat_backed_refutation parent is an empty clause"));
    }
    let mut out: Vec<(bool, (Vec<char>, Vec<Vec<char>>))> = Vec::new();
    let mut j: usize = 0;
    while j < clause.len()
        invariant
            0 <= j <= clause@.len(),
            cv == clause_view(clause@),
            clause_of(*f, limits.max_clause_literals) == Some(cv),
            cv.len() > 0,
            nv == names_view(names@),
            out@.len() == j,
            forall|k: int| 0 <= k < j ==> #[trigger] atom_key(cv[k].atom, nv) is Some
                && out@[k].0 == cv[k].positive && key_view(out@[k].1) == atom_key(cv[k].atom, nv)->Some_0,
        decreases clause.len() - j,
    {
        assert(cv[j as int] == clause@[j as int]@);
        match atom_key_of(&clause[j].atom, names) {
            Some(k) => {
                out.push((clause[j].positive, k));
            },
            None => {
                assert(atom_key(cv[j as int].atom, nv) is None);
                return Err(rejected("sat_backed_refutation supports ground atoms only"));
            },
        }
        j = j + 1;
    }
    Ok(out)
}

/// The parents, parsed, when every one is a clause of ground predicate
/// literals.
pub open spec fn parsed_parents(
    ls: Seq<Vec<(bool, (Vec<char>, Vec<Vec<char>>))>>,
    parents: Seq<Formula>,
    names: Seq<Seq<char>>,
    limits: VerificationLimits,
) -> bool {
    &&& ls.len() == parents.len()
    &&& forall|i: int| 0 <= i < parents.len() ==> #[trigger] parent_clause_error(parents[i], names, limits) is None
        && parsed_clause(ls[i]@, clause_of(parents[i], limits.max_clause_literals)->Some_0, names)
}

fn parse_parents(parents: &[Formula], names: &Vec<String>, limits: VerificationLimits)
    -> (r: Result<Vec<Vec<(bool, (Vec<char>, Vec<Vec<char>>))>>, KernelVerdict>)
    ensures
        match parents_error(parents@, names_view(names@), limits) {
            Some(e) => r matches Err(v) && v@ == e,
            None => r matches Ok(ls) && parsed_parents(ls@, parents@, names_view(names@), limits),
        },
{
    let ghost nv = names_view(names@);
    let mut out: Vec<Vec<(bool, (Vec<char>, Vec<Vec<char>>))>> = Vec::new();
    let mut i: usize = 0;
    while i < parents.len()
        invariant
            0 <= i <= parents@.len(),
            nv == names_view(names@),
            out@.len() == i,
            forall|k: int| 0 <= k < i ==> #[trigger] parent_clause_error(parents@[k], nv, limits) is None
                && parsed_clause(out@[k]@, clause_of(parents@[k], limits.max_clause_literals)->Some_0, nv),
        decreases parents.len() - i,
    {
        match parse_parent(&parents[i], names, limits) {
            Ok(ls) => {
                out.push(ls);
            },
            Err(v) => {
                proof {
                    let x = i as int;
                    assert(parent_clause_error(parents@[x], nv, limits) is Some);
                    let c = choose|c: int| 0 <= c < parents@.len() && parent_clause_error(parents@[c], nv, limits) is Some
                        && forall|j: int| 0 <= j < c ==> #[trigger] parent_clause_error(parents@[j], nv, limits) is None;
                    if c < x {
                        assert(parent_clause_error(parents@[c], nv, limits) is None);
                    }
                    if c > x {
                        assert(parent_clause_error(parents@[x], nv, limits) is None);
                    }
                }
                return Err(v);
            },
        }
        i = i + 1;
    }
    Ok(out)
}

/// The keys of the parsed literals.
pub open spec fn parsed_keys(ls: Seq<Vec<(bool, (Vec<char>, Vec<Vec<char>>))>>) -> Set<(Seq<char>, Seq<Seq<char>>)> {
    Set::new(|k: (Seq<char>, Seq<Seq<char>>)| exists|i: int, j: int| 0 <= i < ls.len() && 0 <= j < ls[i]@.len()
        && #[trigger] key_view(ls[i]@[j].1) == k)
}

fn key_listed(ks: &Vec<(Vec<char>, Vec<Vec<char>>)>, k: &(Vec<char>, Vec<Vec<char>>)) -> (r: bool)
    ensures
        r == keys_view(ks@).contains(key_view(*k)),
{
    let mut i: usize = 0;
    while i < ks.len()
        invariant
            0 <= i <= ks.len(),
            forall|q: int| 0 <= q < i ==> key_view(#[trigger] ks@[q]) != key_view(*k),
        decreases ks.len() - i,
    {
        if same_key(&ks[i], k) {
            assert(keys_view(ks@)[i as int] == key_view(*k));
            return true;
        }
        i = i + 1;
    }
    proof {
        if keys_view(ks@).contains(key_view(*k)) {
            let q = choose|q: int| 0 <= q < keys_view(ks@).len() && keys_view(ks@)[q] == key_view(*k);
            assert(key_view(ks@[q]) != key_view(*k));
        }
    }
    false
}

/// The distinct keys of the parsed literals.
fn distinct_keys(ls: &Vec<Vec<(bool, (Vec<char>, Vec<Vec<char>>))>>) -> (r: Vec<(Vec<char>, Vec<Vec<char>>)>)
    ensures
        keys_view(r@).no_duplicates(),
        keys_view(r@).to_set() == parsed_keys(ls@),
{
    let mut out: Vec<(Vec<char>, Vec<Vec<char>>)> = Vec::new();
    let mut i: usize = 0;
    while i < ls.len()
        invariant
            0 <= i <= ls@.len(),
            keys_view(out@).no_duplicates(),
            forall|k: (Seq<char>, Seq<Seq<char>>)| #[trigger] keys_view(out@).contains(k) <==> exists|a: int, b: int|
                0 <= a < i && 0 <= b < ls@[a]@.len() && #[trigger] key_view(ls@[a]@[b].1) == k,
        decreases ls.len() - i,
    {
        let mut j: usize = 0;
        while j < ls[i].len()
            invariant
                0 <= i < ls@.len(),
                0 <= j <= ls@[i as int]@.len(),
                keys_view(out@).no_duplicates(),
                forall|k: (Seq<char>, Seq<Seq<char>>)| #[trigger] keys_view(out@).contains(k) <==> (exists|a: int, b: int|
                    0 <= a < i && 0 <= b < ls@[a]@.len() && #[trigger] key_view(ls@[a]@[b].1) == k)
                    || (exists|b: int| 0 <= b < j && #[trigger] key_view(ls@[i as int]@[b].1) == k),
            decreases ls@[i as int]@.len() - j,
        {
            let ghost before = keys_view(out@);
            let ghost kv = key_view(ls@[i as int]@[j as int].1);
            let listed = key_listed(&out, &ls[i][j].1);
            if !listed {
                let c = copy_key(&ls[i][j].1);
                out.push(c);
                proof {
                    assert(keys_view(out@) =~= before.push(kv));
                    assert forall|p: int, q: int| 0 <= p < q < keys_view(out@).len() implies keys_view(out@)[p] != keys_view(out@)[q] by {
                        if q == keys_view(out@).len() - 1 {
                            assert(before.contains(before[p]));
                        }
                    }
                }
            }
            proof {
                assert forall|k: (Seq<char>, Seq<Seq<char>>)| #[trigger] keys_view(out@).contains(k) <==> (exists|a: int, b: int|
                    0 <= a < i && 0 <= b < ls@[a]@.len() && #[trigger] key_view(ls@[a]@[b].1) == k)
                    || (exists|b: int| 0 <= b < j + 1 && #[trigger] key_view(ls@[i as int]@[b].1) == k) by {
                    if keys_view(out@).contains(k) && !before.contains(k) {
                        let q = choose|q: int| 0 <= q < keys_view(out@).len() && keys_view(out@)[q] == k;
                        assert(k == kv);
                    }
                    if k == kv {
                        if listed {
                            assert(keys_view(out@) == before);
                            assert(before.contains(kv));
                        } else {
                            assert(keys_view(out@)[before.len() as int] == kv);
                        }
                        assert(keys_view(out@).contains(kv));
                    }
                    if exists|b: int| 0 <= b < j + 1 && #[trigger] key_view(ls@[i as int]@[b].1) == k {
                        let b = choose|b: int| 0 <= b < j + 1 && #[trigger] key_view(ls@[i as int]@[b].1) == k;
                        if b < j {
                            assert(before.contains(k));
                            if !keys_view(out@).contains(k) {
                                let q = choose|q: int| 0 <= q < before.len() && before[q] == k;
                                assert(keys_view(out@)[q] == k);
                            }
                        }
                    }
                    if before.contains(k) {
                        let q = choose|q: int| 0 <= q < before.len() && before[q] == k;
                        assert(keys_view(out@)[q] == k);
                    }
                }
            }
            j = j + 1;
        }
        i = i + 1;
    }
    proof {
        assert(keys_view(out@).to_set() =~= parsed_keys(ls@));
    }
    out
}

/// The keys of `s` that come before `k`.
pub open spec fn keys_before(s: Set<(Seq<char>, Seq<Seq<char>>)>, k: (Seq<char>, Seq<Seq<char>>)) -> Set<(Seq<char>, Seq<Seq<char>>)> {
    s.filter(|x: (Seq<char>, Seq<Seq<char>>)| key_lt(x, k))
}

/// The number of distinct keys that come before `k`.
fn key_rank(ks: &Vec<(Vec<char>, Vec<Vec<char>>)>, k: &(Vec<char>, Vec<Vec<char>>)) -> (r: usize)
    requires
        keys_view(ks@).no_duplicates(),
    ensures
        r == keys_before(keys_view(ks@).to_set(), key_view(*k)).len(),
{
    let ghost kk = key_view(*k);
    let ghost kv = keys_view(ks@);
    let mut count: usize = 0;
    let mut i: usize = 0;
    proof {
        assert(kv.take(0).to_set() =~= Set::empty());
        assert(keys_before(kv.take(0).to_set(), kk) =~= Set::empty());
    }
    while i < ks.len()
        invariant
            0 <= i <= ks@.len(),
            kv == keys_view(ks@),
            kk == key_view(*k),
            kv.no_duplicates(),
            count <= i,
            count == keys_before(kv.take(i as int).to_set(), kk).len(),
        decreases ks.len() - i,
    {
        let ghost x = kv[i as int];
        let ghost pre = kv.take(i as int);
        assert(x == key_view(ks@[i as int]));
        proof {
            assert(kv.take(i as int + 1) =~= pre.push(x));
            pre.lemma_push_to_set_commute(x);
            assert(!pre.contains(x)) by {
                if pre.contains(x) {
                    let q = choose|q: int| 0 <= q < pre.len() && pre[q] == x;
                    assert(kv[q] == kv[i as int]);
                }
            }
            assert(!pre.to_set().contains(x));
        }
        if key_before(&ks[i], k) {
            proof {
                assert(key_lt(x, kk));
                assert(keys_before(pre.push(x).to_set(), kk) =~= keys_before(pre.to_set(), kk).insert(x));
                assert(!keys_before(pre.to_set(), kk).contains(x));
            }
            count = count + 1;
        } else {
            proof {
                assert(!key_lt(x, kk));
                assert(keys_before(pre.push(x).to_set(), kk) =~= keys_before(pre.to_set(), kk));
            }
        }
        i = i + 1;
    }
    proof {
        assert(kv.take(kv.len() as int) =~= kv);
    }
    count
}

/// The parsed clauses as SAT clauses over the variables of `keys`.
pub open spec fn encode_parsed(
    ls: Seq<Vec<(bool, (Vec<char>, Vec<Vec<char>>))>>,
    keys: Set<(Seq<char>, Seq<Seq<char>>)>,
) -> Seq<Seq<i32>> {
    ls.map_values(|c: Vec<(bool, (Vec<char>, Vec<Vec<char>>))>| c@.map_values(|l: (bool, (Vec<char>, Vec<Vec<char>>))| {
        let v = keys_before(keys, key_view(l.1)).len() as int + 1;
        if l.0 {
            v as i32
        } else {
            (-v) as i32
        }
    }))
}

fn encode_parents(
    ls: &Vec<Vec<(bool, (Vec<char>, Vec<Vec<char>>))>>,
    ks: &Vec<(Vec<char>, Vec<Vec<char>>)>,
) -> (r: Vec<Vec<i32>>)
    requires
        keys_view(ks@).no_duplicates(),
        ks@.len() < i32::MAX,
    ensures
        manifest_view(r@) == encode_parsed(ls@, keys_view(ks@).to_set()),
        forall|i: int, j: int| 0 <= i < r@.len() && 0 <= j < r@[i]@.len() ==> #[trigger] r@[i]@[j] != i32::MIN,
{
    let ghost keys = keys_view(ks@).to_set();
    proof {
        keys_view(ks@).unique_seq_to_set();
    }
    let mut out: Vec<Vec<i32>> = Vec::new();
    let mut i: usize = 0;
    while i < ls.len()
        invariant
            0 <= i <= ls@.len(),
            keys == keys_view(ks@).to_set(),
            keys.len() == ks@.len(),
            keys_view(ks@).no_duplicates(),
            ks@.len() < i32::MAX,
            manifest_view(out@) == encode_parsed(ls@, keys).take(i as int),
            forall|a: int, b: int| 0 <= a < out@.len() && 0 <= b < out@[a]@.len() ==> #[trigger] out@[a]@[b] != i32::MIN,
        decreases ls.len() - i,
    {
        let ghost target = encode_parsed(ls@, keys)[i as int];
        let mut c: Vec<i32> = Vec::new();
        let mut j: usize = 0;
        while j < ls[i].len()
            invariant
                0 <= i < ls@.len(),
                0 <= j <= ls@[i as int]@.len(),
                keys == keys_view(ks@).to_set(),
                keys.len() == ks@.len(),
                keys_view(ks@).no_duplicates(),
                ks@.len() < i32::MAX,
                target == encode_parsed(ls@, keys)[i as int],
                target.len() == ls@[i as int]@.len(),
                c@ == target.take(j as int),
                forall|b: int| 0 <= b < c@.len() ==> #[trigger] c@[b] != i32::MIN,
            decreases ls@[i as int]@.len() - j,
        {
            let lit = &ls[i][j];
            let rank = key_rank(ks, &lit.1);
            proof {
                vstd::set_lib::lemma_len_subset(keys_before(keys, key_view(lit.1)), keys);
            }
            let v: i32 = (rank + 1) as i32;
            let x: i32 = if lit.0 { v } else { -v };
            c.push(x);
            assert(c@ =~= target.take(j as int + 1));
            j = j + 1;
        }
        assert(target.take(target.len() as int) =~= target);
        let ghost before = out@;
        out.push(c);
        assert(manifest_view(out@) =~= encode_parsed(ls@, keys).take(i as int + 1)) by {
            assert(manifest_view(out@) =~= manifest_view(before).push(target));
        }
        i = i + 1;
    }
    assert(encode_parsed(ls@, keys).take(ls@.len() as int) =~= encode_parsed(ls@, keys));
    out
}

/// Whether some clause of the list holds the same literals as `c`, with
/// the same multiplicities.
fn clause_in(c: &Vec<i32>, list: &Vec<Vec<i32>>) -> (r: bool)
    ensures
        r == exists|j: int| 0 <= j < list@.len() && #[trigger] list@[j]@.to_multiset() == c@.to_multiset(),
{
    let mut j: usize = 0;
    while j < list.len()
        invariant
            0 <= j <= list@.len(),
            forall|q: int| 0 <= q < j ==> #[trigger] list@[q]@.to_multiset() != c@.to_multiset(),
        decreases list.len() - j,
    {
        if same_multiset(&list[j], c) {
            return true;
        }
        j = j + 1;
    }
    false
}

/// Whether the two lists hold the same clauses as multisets of literals.
fn same_clause_lists(p: &Vec<Vec<i32>>, m: &Vec<Vec<i32>>) -> (r: bool)
    ensures
        r == same_clause_sets(manifest_view(p@), manifest_view(m@)),
{
    let ghost pv = manifest_view(p@);
    let ghost mv = manifest_view(m@);
    let ghost ps = pv.map_values(|c: Seq<i32>| c.to_multiset());
    let ghost ms = mv.map_values(|c: Seq<i32>| c.to_multiset());
    let mut i: usize = 0;
    while i < p.len()
        invariant
            0 <= i <= p@.len(),
            pv == manifest_view(p@),
            mv == manifest_view(m@),
            ps == pv.map_values(|c: Seq<i32>| c.to_multiset()),
            ms == mv.map_values(|c: Seq<i32>| c.to_multiset()),
            forall|k: int| 0 <= k < i ==> ms.contains(#[trigger] ps[k]),
        decreases p.len() - i,
    {
        if !clause_in(&p[i], m) {
            proof {
                assert(ps.to_set().contains(ps[i as int]));
                if ms.to_set().contains(ps[i as int]) {
                    let q = choose|q: int| 0 <= q < ms.len() && ms[q] == ps[i as int];
                    assert(m@[q]@.to_multiset() == p@[i as int]@.to_multiset());
                }
            }
            return false;
        }
        proof {
            let q = choose|q: int| 0 <= q < m@.len() && #[trigger] m@[q]@.to_multiset() == p@[i as int]@.to_multiset();
            assert(ms[q] == ps[i as int]);
        }
        i = i + 1;
    }
    let mut j: usize = 0;
    while j < m.len()
        invariant
            0 <= j <= m@.len(),
            pv == manifest_view(p@),
            mv == manifest_view(m@),
            ps == pv.map_values(|c: Seq<i32>| c.to_multiset()),
            ms == mv.map_values(|c: Seq<i32>| c.to_multiset()),
            forall|k: int| 0 <= k < ps.len() ==> ms.contains(#[trigger] ps[k]),
            forall|k: int| 0 <= k < j ==> ps.contains(#[trigger] ms[k]),
        decreases m.len() - j,
    {
        if !clause_in(&m[j], p) {
            proof {
                assert(ms.to_set().contains(ms[j as int]));
                if ps.to_set().contains(ms[j as int]) {
                    let q = choose|q: int| 0 <= q < ps.len() && ps[q] == ms[j as int];
                    assert(p@[q]@.to_multiset() == m@[j as int]@.to_multiset());
                }
            }
            return false;
        }
        proof {
            let q = choose|q: int| 0 <= q < p@.len() && #[trigger] p@[q]@.to_multiset() == m@[j as int]@.to_multiset();
            assert(ps[q] == ms[j as int]);
        }
        j = j + 1;
    }
    proof {
        assert forall|x: Multiset<i32>| ps.to_set().contains(x) <==> ms.to_set().contains(x) by {
            if ps.contains(x) {
                let k = choose|k: int| 0 <= k < ps.len() && ps[k] == x;
                assert(ms.contains(ps[k]));
            }
            if ms.contains(x) {
                let k = choose|k: int| 0 <= k < ms.len() && ms[k] == x;
                assert(ps.contains(ms[k]));
            }
        }
        assert(ps.to_set() =~= ms.to_set());
    }
    true
}

proof fn lemma_parsed_links(
    ls: Seq<Vec<(bool, (Vec<char>, Vec<Vec<char>>))>>,
    parents: Seq<Formula>,
    names: Seq<Seq<char>>,
    limits: VerificationLimits,
    keys: Set<(Seq<char>, Seq<Seq<char>>)>,
)
    requires
        parsed_parents(ls, parents, names, limits),
    ensures
        parsed_keys(ls) == all_keys(parents.map_values(|f: Formula| clause_of(f, limits.max_clause_literals)->Some_0), names),
        encode_parsed(ls, keys) == encode_clauses(parents.map_values(|f: Formula| clause_of(f, limits.max_clause_literals)->Some_0), names, keys),
{
    let cs = parents.map_values(|f: Formula| clause_of(f, limits.max_clause_literals)->Some_0);
    assert forall|k: (Seq<char>, Seq<Seq<char>>)| parsed_keys(ls).contains(k) <==> all_keys(cs, names).contains(k) by {
        if parsed_keys(ls).contains(k) {
            let (i, j) = choose|i: int, j: int| 0 <= i < ls.len() && 0 <= j < ls[i]@.len() && #[trigger] key_view(ls[i]@[j].1) == k;
            assert(parent_clause_error(parents[i], names, limits) is None);
            assert(atom_key(cs[i][j].atom, names) == Some(k));
        }
        if all_keys(cs, names).contains(k) {
            let (i, j) = choose|i: int, j: int| 0 <= i < cs.len() && 0 <= j < cs[i].len() && #[trigger] atom_key(cs[i][j].atom, names) == Some(k);
            assert(parent_clause_error(parents[i], names, limits) is None);
            assert(key_view(ls[i]@[j].1) == k);
        }
    }
    assert(parsed_keys(ls) =~= all_keys(cs, names));
    assert forall|i: int| 0 <= i < ls.len() implies #[trigger] encode_parsed(ls, keys)[i] == encode_clauses(cs, names, keys)[i] by {
        assert(parent_clause_error(parents[i], names, limits) is None);
        assert(parsed_clause(ls[i]@, cs[i], names));
        assert(encode_parsed(ls, keys)[i] =~= encode_clauses(cs, names, keys)[i]);
    }
    assert(encode_parsed(ls, keys) =~= encode_clauses(cs, names, keys));
}

fn rule_supported(n: &DagNode) -> (r: bool)
    ensures
        r == !unsupported_rule(*n),
{
    match &n.rule {
        None => true,
        Some(x) => {
            let c = str_chars(x.as_str());
            token_is(&c, "instantiate") || token_is(&c, "instantiation")
        },
    }
}

fn unsupported_text(n: &DagNode) -> (r: String)
    requires
        n.rule is Some,
    ensures
        r@ == unsupported_rule_text(*n),
{
    let mut text = String::from_str("sat_backed_refutation parent `");
    text.append(n.name.as_str());
    text.append("` uses unsupported rule `");
    match &n.rule {
        Some(x) => text.append(x.as_str()),
        None => {},
    }
    text.append("`");
    proof {
        reveal_strlit("sat_backed_refutation parent `");
        reveal_strlit("` uses unsupported rule `");
        reveal_strlit("`");
    }
    text
}

fn name_in(list: &Vec<String>, name: &String) -> (r: bool)
    ensures
        r == names_view(list@).contains(name@),
{
    let mut i: usize = 0;
    while i < list.len()
        invariant
            0 <= i <= list@.len(),
            forall|q: int| 0 <= q < i ==> list@[q]@ != name@,
        decreases list.len() - i,
    {
        if list[i] == *name {
            assert(names_view(list@)[i as int] == name@);
            return true;
        }
        i = i + 1;
    }
    proof {
        if names_view(list@).contains(name@) {
            let q = choose|q: int| 0 <= q < names_view(list@).len() && names_view(list@)[q] == name@;
            assert(list@[q]@ != name@);
        }
    }
    false
}

fn name_of_parent(nodes: &Vec<DagNode>, pis: &Vec<usize>, name: &String) -> (r: bool)
    requires
        forall|j: int| 0 <= j < pis@.len() ==> #[trigger] pis@[j] < nodes@.len(),
    ensures
        r == pis@.map_values(|k: usize| nodes@[k as int].name@).contains(name@),
{
    let ghost pn = pis@.map_values(|k: usize| nodes@[k as int].name@);
    let mut i: usize = 0;
    while i < pis.len()
        invariant
            0 <= i <= pis@.len(),
            pn == pis@.map_values(|k: usize| nodes@[k as int].name@),
            forall|j: int| 0 <= j < pis@.len() ==> #[trigger] pis@[j] < nodes@.len(),
            forall|q: int| 0 <= q < i ==> #[trigger] pn[q] != name@,
        decreases pis.len() - i,
    {
        if nodes[pis[i]].name == *name {
            assert(pn[i as int] == name@);
            return true;
        }
        i = i + 1;
    }
    proof {
        if pn.contains(name@) {
            let q = choose|q: int| 0 <= q < pn.len() && pn[q] == name@;
            assert(pn[q] != name@);
        }
    }
    false
}

/// Whether the parents' names are exactly the annotation's inputs.
fn inputs_match(nodes: &Vec<DagNode>, pis: &Vec<usize>, inputs: &Vec<String>) -> (r: bool)
    requires
        forall|j: int| 0 <= j < pis@.len() ==> #[trigger] pis@[j] < nodes@.len(),
    ensures
        r == (pis@.map_values(|k: usize| nodes@[k as int].name@).to_set() == names_view(inputs@).to_set()),
{
    let ghost pn = pis@.map_values(|k: usize| nodes@[k as int].name@);
    let ghost iv = names_view(inputs@);
    let mut i: usize = 0;
    while i < pis.len()
        invariant
            0 <= i <= pis@.len(),
            pn == pis@.map_values(|k: usize| nodes@[k as int].name@),
            iv == names_view(inputs@),
            forall|j: int| 0 <= j < pis@.len() ==> #[trigger] pis@[j] < nodes@.len(),
            forall|q: int| 0 <= q < i ==> iv.contains(#[trigger] pn[q]),
        decreases pis.len() - i,
    {
        if !name_in(inputs, &nodes[pis[i]].name) {
            assert(pn.to_set().contains(pn[i as int]));
            return false;
        }
        i = i + 1;
    }
    let mut j: usize = 0;
    while j < inputs.len()
        invariant
            0 <= j <= inputs@.len(),
            pn == pis@.map_values(|k: usize| nodes@[k as int].name@),
            iv == names_view(inputs@),
            forall|j: int| 0 <= j < pis@.len() ==> #[trigger] pis@[j] < nodes@.len(),
            forall|q: int| 0 <= q < pn.len() ==> iv.contains(#[trigger] pn[q]),
            forall|q: int| 0 <= q < j ==> pn.contains(#[trigger] iv[q]),
        decreases inputs.len() - j,
    {
        if !name_of_parent(nodes, pis, &inputs[j]) {
            assert(iv[j as int] == inputs@[j as int]@);
            assert(iv.to_set().contains(iv[j as int]));
            return false;
        }
        assert(iv[j as int] == inputs@[j as int]@);
        j = j + 1;
    }
    proof {
        assert forall|x: Seq<char>| pn.to_set().contains(x) <==> iv.to_set().contains(x) by {
            if pn.contains(x) {
                let k = choose|k: int| 0 <= k < pn.len() && pn[k] == x;
                assert(iv.contains(pn[k]));
            }
            if iv.contains(x) {
                let k = choose|k: int| 0 <= k < iv.len() && iv[k] == x;
                assert(pn.contains(iv[k]));
            }
        }
        assert(pn.to_set() =~= iv.to_set());
    }
    true
}

fn cites_all_in_order(cited: &Vec<usize>, n: usize) -> (r: bool)
    ensures
        r == (cited@ == Seq::new(n as nat, |i: int| i as usize)),
{
    if cited.len() != n {
        return false;
    }
    let mut i: usize = 0;
    while i < n
        invariant
            0 <= i <= n,
            cited@.len() == n,
            forall|k: int| 0 <= k < i ==> cited@[k] == k as usize,
        decreases n - i,
    {
        if cited[i] != i {
            assert(cited@[i as int] != Seq::new(n as nat, |i: int| i as usize)[i as int]);
            return false;
        }
        i = i + 1;
    }
    assert(cited@ =~= Seq::new(n as nat, |i: int| i as usize));
    true
}

/// A manifest holding the same clauses as a list without the literal
/// `i32::MIN` has none either.
proof fn lemma_manifest_negatable(pv: Seq<Seq<i32>>, m: Seq<Seq<i32>>)
    requires
        same_clause_sets(pv, m),
        forall|p: int, c: int| 0 <= p < pv.len() && 0 <= c < pv[p].len() ==> #[trigger] pv[p][c] != i32::MIN,
    ensures
        manifest_negatable(m),
{
    let ps = pv.map_values(|c: Seq<i32>| c.to_multiset());
    let ms = m.map_values(|c: Seq<i32>| c.to_multiset());
    assert forall|q: int| 0 <= q < m.len() implies negatable(#[trigger] m[q]) by {
        let mq = m[q].to_multiset();
        assert(ms[q] == mq);
        assert(ms.to_set().contains(mq));
        assert(ps.to_set().contains(mq));
        let p = choose|p: int| 0 <= p < ps.len() && #[trigger] ps[p] == mq;
        assert forall|b: int| 0 <= b < m[q].len() implies #[trigger] m[q][b] != i32::MIN by {
            let x = m[q][b];
            m[q].to_multiset_ensures();
            pv[p].to_multiset_ensures();
            assert(m[q].contains(x));
            assert(m[q].to_multiset().count(x) > 0);
            assert(pv[p].to_multiset() == mq);
            assert(pv[p].to_multiset().count(x) > 0);
            assert(pv[p].contains(x));
            let c = choose|c: int| 0 <= c < pv[p].len() && pv[p][c] == x;
            assert(pv[p][c] != i32::MIN);
        }
    }
}

/// The rejection of the first parent whose rule is not supported, if any.
fn check_parent_rules(nodes: &Vec<DagNode>, pis: &Vec<usize>) -> (r: Option<KernelVerdict>)
    requires
        forall|j: int| 0 <= j < pis@.len() ==> #[trigger] pis@[j] < nodes@.len(),
    ensures
        match first_unsupported(nodes@, pis@) {
            Some(i) => r matches Some(v) && v@ == VerdictView::Rejected(unsupported_rule_text(nodes@[pis@[i] as int])),
            None => r is None,
        },
{
    let mut i: usize = 0;
    while i < pis.len()
        invariant
            0 <= i <= pis@.len(),
            forall|j: int| 0 <= j < pis@.len() ==> #[trigger] pis@[j] < nodes@.len(),
            forall|j: int| 0 <= j < i ==> !#[trigger] unsupported_rule(nodes@[pis@[j] as int]),
        decreases pis.len() - i,
    {
        let n = &nodes[pis[i]];
        if !rule_supported(n) {
            proof {
                let x = i as int;
                let ps = pis@;
                assert(unsupported_rule(nodes@[ps[x] as int]));
                let c = choose|c: int| 0 <= c < ps.len() && unsupported_rule(nodes@[ps[c] as int])
                    && forall|j: int| 0 <= j < c ==> !#[trigger] unsupported_rule(nodes@[ps[j] as int]);
                if c < x {
                    assert(!unsupported_rule(nodes@[ps[c] as int]));
                }
                if c > x {
                    assert(!unsupported_rule(nodes@[ps[x] as int]));
                }
            }
            return Some(KernelVerdict::Rejected(unsupported_text(n)));
        }
        i = i + 1;
    }
    None
}

/// Checks a `sat_backed_refutation` step: its parents, plain inputs or
/// instantiations whose names the annotation lists, must be clauses of
/// ground atoms whose propositional encoding, over the atoms in ascending
/// order of their keys, is exactly the manifest of a SAT trace that
/// replays to the empty clause. `names` gives each symbol's name, and
/// `actual_digest` is the digest of the trace payload.
pub fn verify_sat_backed_refutation(
    node_is_false: bool,
    nodes: &Vec<DagNode>,
    parent_indices: &Vec<usize>,
    parents: &[Formula],
    annotation: &Option<SatBackedInfo>,
    names: &Vec<String>,
    actual_digest: [u8; 32],
    limits: VerificationLimits,
) -> (v: KernelVerdict)
    requires
        forall|j: int| 0 <= j < parent_indices@.len() ==> #[trigger] parent_indices@[j] < nodes@.len(),
    ensures
        v@ == sat_backed_outcome(node_is_false, nodes@, parent_indices@, parents@, *annotation, names_view(names@),
            actual_digest@, limits),
{
    let ghost nv = names_view(names@);
    if !node_is_false {
        return rejected("sat_backed_refutation must conclude `$false`");
    }
    let a = match annotation {
        Some(a) => a,
        None => return inconclusive("sat_backed_refutation lacks SAT metadata"),
    };
    let format = match &a.trace_format {
        Some(f) => f,
        None => return inconclusive("sat_backed_refutation lacks a trace format"),
    };
    let fchars = str_chars(format.as_str());
    let frat = token_is(&fchars, "frat-lrat");
    if !frat && !token_is(&fchars, "lrat") {
        let mut text = String::from_str("unsupported sat-backed trace format `");
        text.append(format.as_str());
        text.append("`");
        proof {
            reveal_strlit("unsupported sat-backed trace format `");
            reveal_strlit("`");
        }
        return KernelVerdict::Inconclusive(text);
    }
    if parent_indices.len() == 0 {
        return rejected("sat_backed_refutation cites no parents");
    }
    match check_parent_rules(nodes, parent_indices) {
        Some(v) => return v,
        None => {},
    }
    if !inputs_match(nodes, parent_indices, &a.inputs) {
        return rejected("sat_backed_refutation inputs do not match its parent list");
    }
    let parsed = match parse_parents(parents, names, limits) {
        Ok(ls) => ls,
        Err(v) => return v,
    };
    let keys = distinct_keys(&parsed);
    let ghost cs = parents@.map_values(|f: Formula| clause_of(f, limits.max_clause_literals)->Some_0);
    let ghost kset = keys_view(keys@).to_set();
    proof {
        lemma_parsed_links(parsed@, parents@, nv, limits, kset);
        keys_view(keys@).unique_seq_to_set();
    }
    if keys.len() >= 2147483647 {
        return inconclusive("sat_backed_refutation variable bound exceeds the supported integer range");
    }
    if a.trace_clauses.len() > SAT_BACKED_MAX_MANIFEST {
        return inconclusive("sat-backed manifest exceeds the Tier-2 entry limit");
    }
    if !cites_all_in_order(&a.trace_cited_indices, a.trace_clauses.len()) {
        return rejected("sat_backed_refutation must cite every manifest entry in order");
    }
    let encoded = encode_parents(&parsed, &keys);
    if !same_clause_lists(&encoded, &a.trace_clauses) {
        return rejected("sat_backed_refutation manifest does not match its parents");
    }
    let variables = match a.trace_variables {
        Some(v) => v,
        None => return inconclusive("sat_backed_refutation omits its variable bound"),
    };
    if variables != keys.len() {
        return rejected("sat_backed_refutation variable bound does not match its atoms");
    }
    let digest_text = match &a.trace_digest {
        Some(d) => d,
        None => return inconclusive("sat_backed_refutation omits its digest"),
    };
    let expected_digest = match decode_hex_digest(digest_text.as_str()) {
        Some(d) => d,
        None => return rejected("sat_backed_refutation has an invalid SHA-256 digest"),
    };
    let trace_hex = match &a.trace_bytes {
        Some(b) => b,
        None => return inconclusive("sat_backed_refutation omits its proof bytes"),
    };
    if trace_hex.as_str().as_bytes().len() > SAT_BACKED_MAX_TRACE_HEX {
        return inconclusive("sat-backed trace exceeds the Tier-2 byte limit");
    }
    let trace = match decode_hex(trace_hex.as_str()) {
        Some(t) => t,
        None => return rejected("sat_backed_refutation has invalid hexadecimal proof bytes"),
    };
    if a.trace_original_ids.len() == 0 {
        return rejected("sat_backed_refutation has no original clause IDs");
    }
    if !same_digest(&actual_digest, &expected_digest) {
        return rejected("sat_backed_refutation digest does not match its payload");
    }
    let tier2 = VerificationLimits {
        max_nodes: SAT_BACKED_MAX_MANIFEST,
        max_avatar_steps: SAT_BACKED_MAX_TRACE_EVENTS,
        ..limits
    };
    let bound: usize = if variables > 2147483647usize { 2147483647usize } else { variables };
    let replayed = if frat {
        replay_frat_lrat(a.trace_clauses.as_slice(), a.trace_original_ids.as_slice(), trace.as_slice(), bound, tier2)
    } else {
        proof {
            lemma_manifest_negatable(manifest_view(encoded@), manifest_view(a.trace_clauses@));
        }
        replay_lrat(a.trace_clauses.as_slice(), a.trace_original_ids.as_slice(), trace.as_slice(), bound, tier2)
    };
    match replayed {
        Ok(()) => KernelVerdict::Certified,
        Err(v) => v,
    }
}

} // verus!
