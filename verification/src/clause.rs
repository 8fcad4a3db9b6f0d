//! Clauses read off formulas, literal equality, condensation and
//! alpha-equivalence of clauses.
use vstd::prelude::*;
use crate::term::{Term, Atom, Literal, Formula, STerm, SAtom, SLiteral, terms_view, lemma_terms_view, copy_term, clause_view};
use crate::subst::{term_eq, lemma_terms_view_push};
use crate::verdict::VerificationLimits;

verus! {

/// The formula under its leading universal quantifiers.
pub open spec fn strip_foralls(f: Formula) -> Formula
    decreases f,
{
    match f {
        Formula::Forall(_, inner) => strip_foralls(*inner),
        _ => f,
    }
}

/// The literals of a disjunction of literals (`$false` contributes none),
/// or `None` when the formula is not of that shape.
pub open spec fn disjunction_literals(f: Formula) -> Option<Seq<SLiteral>>
    decreases f,
{
    match f {
        Formula::Or(parts) => disjunction_literals_all(parts@),
        Formula::Atom(a) => Some(seq![SLiteral { positive: true, atom: a@ }]),
        Formula::Neg(inner) => match *inner {
            Formula::Atom(a) => Some(seq![SLiteral { positive: false, atom: a@ }]),
            _ => None,
        },
        Formula::False => Some(Seq::empty()),
        _ => None,
    }
}

pub open spec fn disjunction_literals_all(ps: Seq<Formula>) -> Option<Seq<SLiteral>>
    decreases ps,
{
    if ps.len() == 0 {
        Some(Seq::empty())
    } else {
        match disjunction_literals_all(ps.drop_last()) {
            None => None,
            Some(front) => match disjunction_literals(ps.last()) {
                None => None,
                Some(back) => Some(front + back),
            },
        }
    }
}

/// The clause a formula denotes: a universally closed disjunction of
/// literals with at most the permitted number of literals.
pub open spec fn clause_of(f: Formula, max_literals: usize) -> Option<Seq<SLiteral>> {
    match disjunction_literals(strip_foralls(f)) {
        Some(c) => if c.len() <= max_literals {
            Some(c)
        } else {
            None
        },
        None => None,
    }
}

/// A deep copy of an atom.
pub fn copy_atom(a: &Atom) -> (r: Atom)
    ensures
        r@ == a@,
{
    match a {
        Atom::Pred(p, args) => {
            let mut out: Vec<Term> = Vec::new();
            let mut i: usize = 0;
            while i < args.len()
                invariant
                    0 <= i <= args.len(),
                    terms_view(out@) == terms_view(args@.take(i as int)),
                decreases args.len() - i,
            {
                let c = copy_term(&args[i]);
                proof {
                    assert(args@.take(i as int + 1) == args@.take(i as int).push(args@[i as int]));
                    lemma_terms_view_push(args@.take(i as int), args@[i as int]);
                    lemma_terms_view_push(out@, c);
                }
                out.push(c);
                i = i + 1;
            }
            assert(args@.take(args.len() as int) == args@);
            Atom::Pred(*p, out)
        },
        Atom::Eq(l, r) => Atom::Eq(copy_term(l), copy_term(r)),
    }
}

/// A deep copy of a literal.
pub fn copy_literal(l: &Literal) -> (r: Literal)
    ensures
        r@ == l@,
{
    Literal { positive: l.positive, atom: copy_atom(&l.atom) }
}

/// A deep copy of a clause.
pub fn copy_clause(c: &Vec<Literal>) -> (r: Vec<Literal>)
    ensures
        clause_view(r@) == clause_view(c@),
{
    let mut out: Vec<Literal> = Vec::new();
    let mut i: usize = 0;
    while i < c.len()
        invariant
            0 <= i <= c.len(),
            clause_view(out@) == clause_view(c@.take(i as int)),
        decreases c.len() - i,
    {
        let l = copy_literal(&c[i]);
        let ghost prev = out@;
        out.push(l);
        assert(clause_view(out@) =~= clause_view(c@.take(i as int + 1))) by {
            assert(clause_view(out@) =~= clause_view(prev).push(l@));
            assert(c@.take(i as int + 1) =~= c@.take(i as int).push(c@[i as int]));
        }
        i = i + 1;
    }
    assert(c@.take(c.len() as int) =~= c@);
    out
}

/// Structural equality of term lists.
pub fn terms_eq(a: &Vec<Term>, b: &Vec<Term>) -> (r: bool)
    ensures
        r == (terms_view(a@) == terms_view(b@)),
{
    proof {
        lemma_terms_view(a@);
        lemma_terms_view(b@);
    }
    if a.len() != b.len() {
        return false;
    }
    let mut i: usize = 0;
    while i < a.len()
        invariant
            0 <= i <= a.len(),
            a.len() == b.len(),
            terms_view(a@).len() == a@.len(),
            terms_view(b@).len() == b@.len(),
            forall|k: int| 0 <= k < a@.len() ==> #[trigger] terms_view(a@)[k] == a@[k]@,
            forall|k: int| 0 <= k < b@.len() ==> #[trigger] terms_view(b@)[k] == b@[k]@,
            forall|k: int| 0 <= k < i ==> terms_view(a@)[k] == terms_view(b@)[k],
        decreases a.len() - i,
    {
        if !term_eq(&a[i], &b[i]) {
            assert(terms_view(a@)[i as int] != terms_view(b@)[i as int]);
            return false;
        }
        i = i + 1;
    }
    assert(terms_view(a@) =~= terms_view(b@));
    true
}

/// Structural equality of atoms.
pub fn atom_eq(a: &Atom, b: &Atom) -> (r: bool)
    ensures
        r == (a@ == b@),
{
    match (a, b) {
        (Atom::Pred(p, xs), Atom::Pred(q, ys)) => *p == *q && terms_eq(xs, ys),
        (Atom::Eq(l1, r1), Atom::Eq(l2, r2)) => term_eq(l1, l2) && term_eq(r1, r2),
        _ => false,
    }
}

/// Structural equality of literals.
pub fn literal_eq(a: &Literal, b: &Literal) -> (r: bool)
    ensures
        r == (a@ == b@),
{
    a.positive == b.positive && atom_eq(&a.atom, &b.atom)
}

/// Whether a clause contains a literal.
pub fn clause_contains(c: &Vec<Literal>, l: &Literal) -> (r: bool)
    ensures
        r == clause_view(c@).contains(l@),
{
    let mut i: usize = 0;
    while i < c.len()
        invariant
            0 <= i <= c.len(),
            forall|k: int| 0 <= k < i ==> clause_view(c@)[k] != l@,
        decreases c.len() - i,
    {
        if literal_eq(&c[i], l) {
            assert(clause_view(c@)[i as int] == l@);
            return true;
        }
        i = i + 1;
    }
    false
}

fn collect_disjunction(formula: &Formula, out: &mut Vec<Literal>) -> (r: bool)
    ensures
        match disjunction_literals(*formula) {
            Some(c) => r && clause_view(final(out)@) == clause_view(old(out)@) + c,
            None => !r,
        },
    decreases formula,
{
    match formula {
        Formula::Or(parts) => {
            let ghost start = clause_view(out@);
            let mut i: usize = 0;
            while i < parts.len()
                invariant
                    0 <= i <= parts.len(),
                    *formula is Or,
                    (*formula)->Or_0 == *parts,
                    start == clause_view(old(out)@),
                    disjunction_literals_all(parts@.take(i as int)) matches Some(c) && clause_view(out@) == start + c,
                decreases parts.len() - i,
            {
                proof {
                    assert(decreases_to!(*formula => (*formula)->Or_0));
                    assert(decreases_to!((*formula)->Or_0 => (*formula)->Or_0@));
                    assert(decreases_to!(parts@ => parts@[i as int]));
                    assert(parts@.take(i as int + 1).drop_last() == parts@.take(i as int));
                    assert(parts@.take(i as int + 1).last() == parts@[i as int]);
                }
                let ghost before = clause_view(out@);
                let ghost c0 = disjunction_literals_all(parts@.take(i as int))->Some_0;
                if !collect_disjunction(&parts[i], out) {
                    proof {
                        lemma_disjunction_all_fails(parts@, i as int + 1);
                    }
                    return false;
                }
                proof {
                    let c1 = disjunction_literals(parts@[i as int])->Some_0;
                    assert(clause_view(out@) == before + c1);
                    assert(start + (c0 + c1) =~= (start + c0) + c1);
                }
                i = i + 1;
            }
            assert(parts@.take(parts.len() as int) == parts@);
            true
        },
        Formula::Atom(a) => {
            let ghost prev = out@;
            out.push(Literal { positive: true, atom: copy_atom(a) });
            assert(clause_view(out@) =~= clause_view(prev) + seq![SLiteral { positive: true, atom: a@ }]);
            true
        },
        Formula::Neg(inner) => match &**inner {
            Formula::Atom(a) => {
                let ghost prev = out@;
                out.push(Literal { positive: false, atom: copy_atom(a) });
                assert(clause_view(out@) =~= clause_view(prev) + seq![SLiteral { positive: false, atom: a@ }]);
                true
            },
            _ => false,
        },
        Formula::False => {
            assert(clause_view(out@) =~= clause_view(out@) + Seq::<SLiteral>::empty());
            true
        },
        _ => false,
    }
}

proof fn lemma_disjunction_all_fails(ps: Seq<Formula>, k: int)
    requires
        0 <= k <= ps.len(),
        disjunction_literals_all(ps.take(k)) is None,
    ensures
        disjunction_literals_all(ps) is None,
    decreases ps.len() - k,
{
    if k < ps.len() {
        assert(ps.take(k + 1).drop_last() == ps.take(k));
        lemma_disjunction_all_fails(ps, k + 1);
    } else {
        assert(ps.take(k) == ps);
    }
}

/// The formula under its leading universal quantifiers.
pub fn strip_foralls_exec(formula: &Formula) -> (r: &Formula)
    ensures
        *r == strip_foralls(*formula),
    decreases formula,
{
    match formula {
        Formula::Forall(_, inner) => strip_foralls_exec(inner),
        _ => formula,
    }
}

/// The clause of a formula, when it is a universally closed disjunction of
/// literals within the literal limit.
pub fn clause_from_formula(formula: &Formula, limits: VerificationLimits) -> (r: Option<Vec<Literal>>)
    ensures
        match clause_of(*formula, limits.max_clause_literals) {
            Some(c) => r matches Some(v) && clause_view(v@) == c,
            None => r is None,
        },
{
    let body = strip_foralls_exec(formula);
    let mut literals: Vec<Literal> = Vec::new();
    if !collect_disjunction(body, &mut literals) {
        return None;
    }
    assert(clause_view(literals@) =~= Seq::<SLiteral>::empty() + disjunction_literals(*body)->Some_0) by {
        assert(clause_view(Seq::<Literal>::empty()) =~= Seq::<SLiteral>::empty());
    }
    if literals.len() <= limits.max_clause_literals {
        Some(literals)
    } else {
        None
    }
}

/// The clause with syntactically repeated literals removed, keeping the
/// first occurrence of each.
pub open spec fn condensed(c: Seq<SLiteral>) -> Seq<SLiteral>
    decreases c.len(),
{
    if c.len() == 0 {
        c
    } else if c.drop_last().contains(c.last()) {
        condensed(c.drop_last())
    } else {
        condensed(c.drop_last()).push(c.last())
    }
}

proof fn lemma_condensed_contains(c: Seq<SLiteral>, l: SLiteral)
    ensures
        condensed(c).contains(l) == c.contains(l),
    decreases c.len(),
{
    if c.len() > 0 {
        lemma_condensed_contains(c.drop_last(), l);
        assert(c == c.drop_last().push(c.last()));
        if c.drop_last().contains(l) {
            let i = choose|i: int| 0 <= i < c.drop_last().len() && c.drop_last()[i] == l;
            assert(c[i] == l);
        }
        if c.contains(l) && l != c.last() {
            let i = choose|i: int| 0 <= i < c.len() && c[i] == l;
            assert(c.drop_last()[i] == l);
        }
        if !c.drop_last().contains(c.last()) {
            let p = condensed(c.drop_last());
            if p.push(c.last()).contains(l) && l != c.last() {
                let i = choose|i: int| 0 <= i < p.len() + 1 && p.push(c.last())[i] == l;
                assert(p[i] == l);
            }
            if p.contains(l) {
                let i = choose|i: int| 0 <= i < p.len() && p[i] == l;
                assert(p.push(c.last())[i] == l);
            }
            assert(p.push(c.last())[p.len() as int] == c.last());
        }
        assert(c[c.len() - 1] == c.last());
    }
}

/// Removes syntactically repeated literals, keeping the first of each.
pub fn condense_clause(clause: &Vec<Literal>) -> (r: Vec<Literal>)
    ensures
        clause_view(r@) == condensed(clause_view(clause@)),
{
    let mut kept: Vec<Literal> = Vec::new();
    let mut i: usize = 0;
    while i < clause.len()
        invariant
            0 <= i <= clause.len(),
            clause_view(kept@) == condensed(clause_view(clause@.take(i as int))),
        decreases clause.len() - i,
    {
        let ghost pre = clause_view(clause@.take(i as int));
        assert(clause_view(clause@.take(i as int + 1)) =~= pre.push(clause@[i as int]@)) by {
            assert(clause@.take(i as int + 1) =~= clause@.take(i as int).push(clause@[i as int]));
        }
        assert(pre.push(clause@[i as int]@).drop_last() == pre);
        proof {
            lemma_condensed_contains(pre, clause@[i as int]@);
        }
        if !clause_contains(&kept, &clause[i]) {
            let l = copy_literal(&clause[i]);
            let ghost prev = kept@;
            kept.push(l);
            assert(clause_view(kept@) =~= clause_view(prev).push(l@));
        }
        i = i + 1;
    }
    assert(clause@.take(clause.len() as int) =~= clause@);
    kept
}

/// No literal occurs twice.
pub open spec fn no_repeats(c: Seq<SLiteral>) -> bool {
    forall|i: int, j: int| 0 <= i < j < c.len() ==> c[i] != c[j]
}

proof fn lemma_condensed_no_repeats(c: Seq<SLiteral>)
    ensures
        no_repeats(condensed(c)),
        condensed(c).len() <= c.len(),
    decreases c.len(),
{
    if c.len() > 0 {
        lemma_condensed_no_repeats(c.drop_last());
        lemma_condensed_contains(c.drop_last(), c.last());
        let p = condensed(c.drop_last());
        if !c.drop_last().contains(c.last()) {
            assert forall|i: int, j: int| 0 <= i < j < p.push(c.last()).len() implies p.push(c.last())[i] != p.push(c.last())[j] by {
                if j == p.len() {
                    assert(p[i] == p.push(c.last())[i]);
                    assert(p.contains(p[i]));
                }
            }
        }
    }
}

proof fn lemma_condensed_of_distinct(d: Seq<SLiteral>)
    requires
        no_repeats(d),
    ensures
        condensed(d) == d,
    decreases d.len(),
{
    if d.len() > 0 {
        let front = d.drop_last();
        assert(no_repeats(front)) by {
            assert forall|i: int, j: int| 0 <= i < j < front.len() implies front[i] != front[j] by {
                assert(front[i] == d[i] && front[j] == d[j]);
            }
        }
        lemma_condensed_of_distinct(front);
        if front.contains(d.last()) {
            let i = choose|i: int| 0 <= i < front.len() && front[i] == d.last();
            assert(d[i] == d[d.len() - 1]);
        }
        assert(front.push(d.last()) =~= d);
    }
}

/// Condensation keeps exactly the literals of the clause, each once, and
/// condensing again changes nothing.
pub proof fn lemma_condense_laws(c: Seq<SLiteral>)
    ensures
        forall|l: SLiteral| condensed(c).contains(l) == c.contains(l),
        no_repeats(condensed(c)),
        condensed(c).len() <= c.len(),
        condensed(condensed(c)) == condensed(c),
{
    assert forall|l: SLiteral| condensed(c).contains(l) == c.contains(l) by {
        lemma_condensed_contains(c, l);
    }
    lemma_condensed_no_repeats(c);
    lemma_condensed_of_distinct(condensed(c));
}

} // verus!
