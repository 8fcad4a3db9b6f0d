//! AVATAR bookkeeping: SAT markers inside clauses, the assumptions a branch
//! rests on, and the contexts that splits and components record.
use vstd::prelude::*;
use crate::term::{Atom, Literal, SAtom, SLiteral, clause_view};
use crate::clause::copy_literal;
use crate::avatar::{has_prefix, avatar_var, normalized_of, normalize_avatar_vars, parse_avatar_var};
use crate::text::str_chars;

verus! {

/// One assumption of a branch: literal `branch_index` of the split clause
/// at node `split_parent`, with the SAT variable naming it, if any.
pub struct BranchAssumption {
    pub split_parent: usize,
    pub branch_index: usize,
    pub literal: Literal,
    pub sat_var: Option<u32>,
}

/// The assumptions a branch rests on and their SAT variables.
pub struct BranchContext {
    pub assumptions: Vec<BranchAssumption>,
    pub sat_context: Vec<u32>,
}

/// An assumption as a value.
pub struct SAssumption {
    pub split_parent: usize,
    pub branch_index: usize,
    pub literal: SLiteral,
    pub sat_var: Option<u32>,
}

impl View for BranchAssumption {
    type V = SAssumption;

    open spec fn view(&self) -> SAssumption {
        SAssumption {
            split_parent: self.split_parent,
            branch_index: self.branch_index,
            literal: self.literal@,
            sat_var: self.sat_var,
        }
    }
}

pub open spec fn assumptions_view(a: Seq<BranchAssumption>) -> Seq<SAssumption> {
    a.map_values(|x: BranchAssumption| x@)
}

pub fn copy_assumption(a: &BranchAssumption) -> (r: BranchAssumption)
    ensures
        r@ == a@,
{
    BranchAssumption {
        split_parent: a.split_parent,
        branch_index: a.branch_index,
        literal: copy_literal(&a.literal),
        sat_var: a.sat_var,
    }
}

pub fn copy_assumptions(a: &Vec<BranchAssumption>) -> (r: Vec<BranchAssumption>)
    ensures
        assumptions_view(r@) == assumptions_view(a@),
{
    let mut out: Vec<BranchAssumption> = Vec::new();
    let mut i: usize = 0;
    while i < a.len()
        invariant
            0 <= i <= a.len(),
            assumptions_view(out@) == assumptions_view(a@.take(i as int)),
        decreases a.len() - i,
    {
        let c = copy_assumption(&a[i]);
        let ghost before = out@;
        out.push(c);
        proof {
            assert(assumptions_view(out@) =~= assumptions_view(before).push(c@));
            assert(a@.take(i as int + 1) =~= a@.take(i as int).push(a@[i as int]));
            assert(assumptions_view(a@.take(i as int + 1)) =~= assumptions_view(a@.take(i as int)).push(a@[i as int]@));
        }
        i = i + 1;
    }
    assert(a@.take(a@.len() as int) =~= a@);
    out
}

fn assumption_eq(a: &BranchAssumption, b: &BranchAssumption) -> (r: bool)
    ensures
        r == (a@ == b@),
{
    a.split_parent == b.split_parent && a.branch_index == b.branch_index
        && crate::clause::literal_eq(&a.literal, &b.literal) && a.sat_var == b.sat_var
}

fn contains_assumption(list: &Vec<BranchAssumption>, a: &BranchAssumption) -> (r: bool)
    ensures
        r == assumptions_view(list@).contains(a@),
{
    let mut i: usize = 0;
    while i < list.len()
        invariant
            0 <= i <= list.len(),
            forall|k: int| 0 <= k < i ==> assumptions_view(list@)[k] != a@,
        decreases list.len() - i,
    {
        if assumption_eq(&list[i], a) {
            assert(assumptions_view(list@)[i as int] == a@);
            return true;
        }
        i = i + 1;
    }
    false
}

/// `acc` followed by the assumptions of `more` not already present, in
/// order.
pub open spec fn union_assumptions(acc: Seq<SAssumption>, more: Seq<SAssumption>) -> Seq<SAssumption>
    decreases more.len(),
{
    if more.len() == 0 {
        acc
    } else {
        let front = union_assumptions(acc, more.drop_last());
        if front.contains(more.last()) {
            front
        } else {
            front.push(more.last())
        }
    }
}

/// The context of a node with two branch parents: the union of their
/// assumptions and of their SAT variables.
pub fn merge_branch_contexts(left: &BranchContext, right: &BranchContext) -> (r: BranchContext)
    ensures
        assumptions_view(r.assumptions@) == union_assumptions(assumptions_view(left.assumptions@), assumptions_view(right.assumptions@)),
        normalized_of(r.sat_context@, left.sat_context@ + right.sat_context@),
{
    let mut assumptions = copy_assumptions(&left.assumptions);
    let ghost lv = assumptions_view(left.assumptions@);
    let ghost rv = assumptions_view(right.assumptions@);
    let mut i: usize = 0;
    while i < right.assumptions.len()
        invariant
            0 <= i <= right.assumptions.len(),
            lv == assumptions_view(left.assumptions@),
            rv == assumptions_view(right.assumptions@),
            assumptions_view(assumptions@) == union_assumptions(lv, rv.take(i as int)),
        decreases right.assumptions.len() - i,
    {
        proof {
            assert(rv.take(i as int + 1).drop_last() =~= rv.take(i as int));
            assert(rv.take(i as int + 1).last() == right.assumptions@[i as int]@);
        }
        if !contains_assumption(&assumptions, &right.assumptions[i]) {
            let c = copy_assumption(&right.assumptions[i]);
            let ghost before = assumptions@;
            assumptions.push(c);
            assert(assumptions_view(assumptions@) =~= assumptions_view(before).push(c@));
        }
        i = i + 1;
    }
    assert(rv.take(rv.len() as int) =~= rv);
    let mut sat_context: Vec<u32> = Vec::new();
    let mut k: usize = 0;
    while k < left.sat_context.len()
        invariant
            0 <= k <= left.sat_context.len(),
            sat_context@ == left.sat_context@.take(k as int),
        decreases left.sat_context.len() - k,
    {
        sat_context.push(left.sat_context[k]);
        k = k + 1;
        assert(sat_context@ =~= left.sat_context@.take(k as int));
    }
    let mut k: usize = 0;
    while k < right.sat_context.len()
        invariant
            0 <= k <= right.sat_context.len(),
            sat_context@ == left.sat_context@ + right.sat_context@.take(k as int),
        decreases right.sat_context.len() - k,
    {
        sat_context.push(right.sat_context[k]);
        k = k + 1;
        assert(sat_context@ =~= left.sat_context@ + right.sat_context@.take(k as int));
    }
    assert(right.sat_context@.take(right.sat_context@.len() as int) =~= right.sat_context@);
    let ghost joined = sat_context@;
    normalize_avatar_vars(&mut sat_context);
    BranchContext { assumptions, sat_context }
}

/// The name of a nullary predicate symbol, by symbol number.
pub open spec fn marker_name(l: SLiteral, names: Seq<Seq<char>>) -> Option<Seq<char>> {
    match l.atom {
        SAtom::Pred(p, args) => if args.len() == 0 && p < names.len() && (has_prefix(names[p as int], "spl0_"@)
            || has_prefix(names[p as int], "spl_"@)) {
            Some(names[p as int])
        } else {
            None
        },
        SAtom::Eq(_, _) => None,
    }
}

pub open spec fn names_view(names: Seq<String>) -> Seq<Seq<char>> {
    names.map_values(|s: String| s@)
}

/// A clause split into its ordinary literals, the variables of its negative
/// markers and those of its positive markers, in order; `None` when a marker
/// names no valid variable.
pub open spec fn split_markers(c: Seq<SLiteral>, names: Seq<Seq<char>>) -> Option<(Seq<SLiteral>, Seq<u32>, Seq<u32>)>
    decreases c.len(),
{
    if c.len() == 0 {
        Some((Seq::empty(), Seq::empty(), Seq::empty()))
    } else {
        match split_markers(c.drop_last(), names) {
            None => None,
            Some((o, n, p)) => {
                let l = c.last();
                match marker_name(l, names) {
                    None => Some((o.push(l), n, p)),
                    Some(name) => match avatar_var(name) {
                        None => None,
                        Some(v) => if l.positive {
                            Some((o, n, p.push(v)))
                        } else {
                            Some((o, n.push(v), p))
                        },
                    },
                }
            },
        }
    }
}

/// The marker name of a literal, if it is a nullary `spl0_`/`spl_`
/// predicate.
fn literal_marker<'a>(l: &Literal, names: &'a Vec<String>) -> (r: Option<&'a String>)
    ensures
        match marker_name(l@, names_view(names@)) {
            Some(n) => r matches Some(s) && s@ == n,
            None => r is None,
        },
{
    match &l.atom {
        Atom::Pred(p, args) => {
            if args.len() == 0 && (*p as usize) < names.len() {
                let name = &names[*p as usize];
                let chars = str_chars(name.as_str());
                let is_marker = crate::avatar::starts_with(&chars, "spl0_") || crate::avatar::starts_with(&chars, "spl_");
                proof {
                    assert(names_view(names@)[*p as int] == name@);
                }
                if is_marker {
                    Some(name)
                } else {
                    None
                }
            } else {
                None
            }
        },
        Atom::Eq(_, _) => None,
    }
}

/// Separates the AVATAR markers of a clause from its ordinary literals:
/// the ordinary literals in order, the variables of the negative markers
/// sorted without repeats, and those of the positive markers in order.
pub fn split_avatar_markers(clause: Vec<Literal>, names: &Vec<String>) -> (r: Result<(Vec<Literal>, Vec<u32>, Vec<u32>), crate::verdict::KernelVerdict>)
    ensures
        match split_markers(clause_view(clause@), names_view(names@)) {
            None => r matches Err(v) && v@ == crate::verdict::VerdictView::Rejected("AVATAR marker has an invalid SAT variable"@),
            Some((o, n, p)) => r matches Ok(x) && clause_view(x.0@) == o && normalized_of(x.1@, n) && x.2@ == p,
        },
{
    let ghost cv = clause_view(clause@);
    let ghost nv = names_view(names@);
    let mut ordinary: Vec<Literal> = Vec::new();
    let mut negative: Vec<u32> = Vec::new();
    let mut positive: Vec<u32> = Vec::new();
    let mut i: usize = 0;
    while i < clause.len()
        invariant
            0 <= i <= clause.len(),
            cv == clause_view(clause@),
            nv == names_view(names@),
            split_markers(cv.take(i as int), nv) == Some((clause_view(ordinary@), negative@, positive@)),
        decreases clause.len() - i,
    {
        proof {
            assert(cv.take(i as int + 1).drop_last() =~= cv.take(i as int));
            assert(cv.take(i as int + 1).last() == clause@[i as int]@);
        }
        match literal_marker(&clause[i], names) {
            None => {
                let ghost before = ordinary@;
                ordinary.push(copy_literal(&clause[i]));
                assert(clause_view(ordinary@) =~= clause_view(before).push(clause@[i as int]@));
            },
            Some(name) => {
                match parse_avatar_var(name.as_str()) {
                    None => {
                        proof {
                            lemma_split_markers_fails(cv, nv, i as int + 1);
                            assert(cv.take(cv.len() as int) =~= cv);
                        }
                        return Err(crate::verdict::rejected("AVATAR marker has an invalid SAT variable"));
                    },
                    Some(v) => {
                        if clause[i].positive {
                            positive.push(v);
                        } else {
                            negative.push(v);
                        }
                    },
                }
            },
        }
        i = i + 1;
    }
    assert(cv.take(clause@.len() as int) =~= cv);
    normalize_avatar_vars(&mut negative);
    Ok((ordinary, negative, positive))
}

proof fn lemma_split_markers_fails(c: Seq<SLiteral>, names: Seq<Seq<char>>, k: int)
    requires
        0 <= k <= c.len(),
        split_markers(c.take(k), names) is None,
    ensures
        split_markers(c.take(c.len() as int), names) is None,
    decreases c.len() - k,
{
    if k < c.len() {
        assert(c.take(k + 1).drop_last() =~= c.take(k));
        lemma_split_markers_fails(c, names, k + 1);
    }
}

/// A positive AVATAR marker literal.
pub open spec fn is_split_literal(l: SLiteral, names: Seq<Seq<char>>) -> bool {
    l.positive && marker_name(l, names) is Some
}

/// Whether a literal is a positive AVATAR marker.
pub fn is_avatar_split_literal(literal: &Literal, names: &Vec<String>) -> (r: bool)
    ensures
        r == is_split_literal(literal@, names_view(names@)),
{
    literal.positive && literal_marker(literal, names).is_some()
}

} // verus!
