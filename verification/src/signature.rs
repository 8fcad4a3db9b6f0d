//! Symbol signatures: every function and predicate symbol is used with one
//! arity throughout a problem and its proof.
use vstd::prelude::*;
use vstd::string::*;
use std::collections::HashMap;
use crate::term::{Term, Atom, Formula, STerm, SAtom, terms_view, lemma_terms_view};
use crate::text::{decimal, decimal_text};

verus! {

broadcast use vstd::std_specs::hash::group_hash_axioms;

/// The symbols of a term with their arities, in pre-order.
pub open spec fn term_symbols(t: STerm) -> Seq<(u32, nat)>
    decreases t,
{
    match t {
        STerm::Var(_) => Seq::empty(),
        STerm::App(f, args) => seq![(f, args.len())] + terms_symbols(args),
    }
}

pub open spec fn terms_symbols(ts: Seq<STerm>) -> Seq<(u32, nat)>
    decreases ts,
{
    if ts.len() == 0 {
        Seq::empty()
    } else {
        terms_symbols(ts.drop_last()) + term_symbols(ts.last())
    }
}

pub open spec fn atom_symbols(a: SAtom) -> Seq<(u32, nat)> {
    match a {
        SAtom::Pred(p, args) => seq![(p, args.len())] + terms_symbols(args),
        SAtom::Eq(l, r) => term_symbols(l) + term_symbols(r),
    }
}

/// The symbols of a formula with their arities, in the order they are met.
pub open spec fn formula_symbols(f: Formula) -> Seq<(u32, nat)>
    decreases f,
{
    match f {
        Formula::Atom(a) => atom_symbols(a@),
        Formula::Neg(inner) => formula_symbols(*inner),
        Formula::Forall(_, inner) => formula_symbols(*inner),
        Formula::Exists(_, inner) => formula_symbols(*inner),
        Formula::And(parts) => formulas_symbols(parts@),
        Formula::Or(parts) => formulas_symbols(parts@),
        Formula::Implies(l, r) => formula_symbols(*l) + formula_symbols(*r),
        Formula::Iff(l, r) => formula_symbols(*l) + formula_symbols(*r),
        Formula::True => Seq::empty(),
        Formula::False => Seq::empty(),
    }
}

pub open spec fn formulas_symbols(fs: Seq<Formula>) -> Seq<(u32, nat)>
    decreases fs,
{
    if fs.len() == 0 {
        Seq::empty()
    } else {
        formulas_symbols(fs.drop_last()) + formula_symbols(fs.last())
    }
}

/// The arity the symbol is first met with.
pub open spec fn first_arity(seen: Seq<(u32, nat)>, f: u32) -> Option<nat>
    decreases seen.len(),
{
    if seen.len() == 0 {
        None
    } else {
        match first_arity(seen.drop_last(), f) {
            Some(a) => Some(a),
            None => if seen.last().0 == f {
                Some(seen.last().1)
            } else {
                None
            },
        }
    }
}

/// The first use of a symbol with another arity than before: the symbol,
/// the earlier arity and the new one.
pub open spec fn arity_clash(seen: Seq<(u32, nat)>) -> Option<(u32, nat, nat)>
    decreases seen.len(),
{
    if seen.len() == 0 {
        None
    } else {
        match arity_clash(seen.drop_last()) {
            Some(c) => Some(c),
            None => match first_arity(seen.drop_last(), seen.last().0) {
                Some(a) => if a != seen.last().1 {
                    Some((seen.last().0, a, seen.last().1))
                } else {
                    None
                },
                None => None,
            },
        }
    }
}

/// How a clash is reported.
pub open spec fn clash_text(c: (u32, nat, nat)) -> Seq<char> {
    "symbol "@ + decimal(c.0 as nat) + " used with arities "@ + decimal(c.1) + " and "@ + decimal(c.2)
}

/// The table holds the first arity of every symbol met.
pub open spec fn table_of(table: Map<u32, usize>, seen: Seq<(u32, nat)>) -> bool {
    &&& forall|f: u32| #[trigger] table.contains_key(f) <==> first_arity(seen, f) is Some
    &&& forall|f: u32| table.contains_key(f) ==> #[trigger] table[f] as nat == first_arity(seen, f)->Some_0
}

/// A clash in a prefix is the clash of the whole.
pub proof fn lemma_clash_prefix(a: Seq<(u32, nat)>, b: Seq<(u32, nat)>)
    requires
        arity_clash(a) is Some,
    ensures
        arity_clash(a + b) == arity_clash(a),
    decreases b.len(),
{
    if b.len() > 0 {
        lemma_clash_prefix(a, b.drop_last());
        assert((a + b).drop_last() =~= a + b.drop_last());
    }
}

/// Meets one more symbol.
fn register(sym: u32, arity: usize, table: &mut HashMap<u32, usize>, Ghost(seen): Ghost<Seq<(u32, nat)>>)
    -> (r: Result<(), (u32, usize, usize)>)
    requires
        table_of(old(table)@, seen),
        arity_clash(seen) is None,
    ensures
        match arity_clash(seen.push((sym, arity as nat))) {
            Some(c) => r matches Err(e) && e.0 == c.0 && e.1 as nat == c.1 && e.2 as nat == c.2,
            None => r is Ok && table_of(final(table)@, seen.push((sym, arity as nat))),
        },
{
    let ghost next = seen.push((sym, arity as nat));
    assert(next.drop_last() == seen);
    match table.get(&sym) {
        Some(prev) => {
            let p = *prev;
            if p != arity {
                return Err((sym, p, arity));
            }
            proof {
                assert forall|f: u32| #[trigger] table@.contains_key(f) <==> first_arity(next, f) is Some by {}
                assert forall|f: u32| table@.contains_key(f) implies #[trigger] table@[f] as nat == first_arity(next, f)->Some_0 by {}
            }
            Ok(())
        },
        None => {
            table.insert(sym, arity);
            proof {
                assert forall|f: u32| #[trigger] table@.contains_key(f) <==> first_arity(next, f) is Some by {}
                assert forall|f: u32| table@.contains_key(f) implies #[trigger] table@[f] as nat == first_arity(next, f)->Some_0 by {}
            }
            Ok(())
        },
    }
}

/// Meets the symbols of the terms `args[..]`.
fn register_terms(
    args: &Vec<Term>,
    table: &mut HashMap<u32, usize>,
    Ghost(seen): Ghost<Seq<(u32, nat)>>,
    Ghost(whole): Ghost<Term>,
) -> (r: Result<(), (u32, usize, usize)>)
    requires
        whole is App,
        whole->App_1 == *args,
        table_of(old(table)@, seen),
        arity_clash(seen) is None,
    ensures
        match arity_clash(seen + terms_symbols(terms_view(args@))) {
            Some(c) => r matches Err(e) && e.0 == c.0 && e.1 as nat == c.1 && e.2 as nat == c.2,
            None => r is Ok && table_of(final(table)@, seen + terms_symbols(terms_view(args@))),
        },
    decreases whole, 0nat,
{
    let mut i: usize = 0;
    assert(seen + terms_symbols(terms_view(args@.take(0))) =~= seen) by {
        assert(args@.take(0) =~= Seq::<Term>::empty());
    }
    while i < args.len()
        invariant
            0 <= i <= args.len(),
            whole is App,
            whole->App_1 == *args,
            table_of(table@, seen + terms_symbols(terms_view(args@.take(i as int)))),
            arity_clash(seen + terms_symbols(terms_view(args@.take(i as int)))) is None,
            arity_clash(seen) is None,
        decreases args.len() - i,
    {
        proof {
            assert(decreases_to!(whole => whole->App_1));
            assert(decreases_to!(whole->App_1 => whole->App_1@));
            assert(decreases_to!(args@ => args@[i as int]));
        }
        let ghost before = seen + terms_symbols(terms_view(args@.take(i as int)));
        let ghost after = seen + terms_symbols(terms_view(args@.take(i as int + 1)));
        proof {
            assert(args@.take(i as int + 1).drop_last() == args@.take(i as int));
            assert(terms_view(args@.take(i as int + 1)) == terms_view(args@.take(i as int)).push(args@[i as int]@));
            assert(terms_view(args@.take(i as int + 1)).drop_last() == terms_view(args@.take(i as int)));
            assert(after =~= before + term_symbols(args@[i as int]@));
        }
        match register_term(&args[i], table, Ghost(before)) {
            Ok(()) => {},
            Err(e) => {
                proof {
                    lemma_terms_symbols_prefix(args@, i as int + 1);
                    let all = terms_symbols(terms_view(args@));
                    let pre = terms_symbols(terms_view(args@.take(i as int + 1)));
                    let rest = all.subrange(pre.len() as int, all.len() as int);
                    lemma_clash_prefix(after, rest);
                    assert(seen + all =~= after + rest);
                }
                return Err(e);
            },
        }
        i = i + 1;
    }
    assert(args@.take(args.len() as int) == args@);
    Ok(())
}

/// The symbols of a prefix of the terms are a prefix of their symbols.
proof fn lemma_terms_symbols_prefix(args: Seq<Term>, k: int)
    requires
        0 <= k <= args.len(),
    ensures
        terms_symbols(terms_view(args.take(k))).len() <= terms_symbols(terms_view(args)).len(),
        terms_symbols(terms_view(args)) == terms_symbols(terms_view(args.take(k))) + terms_symbols(terms_view(args)).subrange(
            terms_symbols(terms_view(args.take(k))).len() as int, terms_symbols(terms_view(args)).len() as int),
    decreases args.len() - k,
{
    if k < args.len() {
        lemma_terms_symbols_prefix(args, k + 1);
        assert(args.take(k + 1).drop_last() == args.take(k));
        assert(terms_view(args.take(k + 1)).drop_last() == terms_view(args.take(k)));
    } else {
        assert(args.take(k) == args);
    }
    let a = terms_symbols(terms_view(args.take(k)));
    let w = terms_symbols(terms_view(args));
    if k < args.len() {
        let b = terms_symbols(terms_view(args.take(k + 1)));
        assert(b == a + term_symbols(args[k]@)) by {
            assert(terms_view(args.take(k + 1)).last() == args[k]@);
        }
    }
    assert(w =~= a + w.subrange(a.len() as int, w.len() as int));
}

/// Meets the symbols of a term.
fn register_term(t: &Term, table: &mut HashMap<u32, usize>, Ghost(seen): Ghost<Seq<(u32, nat)>>)
    -> (r: Result<(), (u32, usize, usize)>)
    requires
        table_of(old(table)@, seen),
        arity_clash(seen) is None,
    ensures
        match arity_clash(seen + term_symbols(t@)) {
            Some(c) => r matches Err(e) && e.0 == c.0 && e.1 as nat == c.1 && e.2 as nat == c.2,
            None => r is Ok && table_of(final(table)@, seen + term_symbols(t@)),
        },
    decreases *t, 1nat,
{
    match t {
        Term::Var(_) => {
            assert(seen + term_symbols(t@) =~= seen);
            Ok(())
        },
        Term::App(f, args) => {
            proof {
                lemma_terms_view(args@);
            }
            let ghost head = seen.push((*f, args@.len() as nat));
            assert(head =~= seen + seq![(*f, args@.len() as nat)]);
            match register(*f, args.len(), table, Ghost(seen)) {
                Ok(()) => {},
                Err(e) => {
                    proof {
                        lemma_clash_prefix(head, terms_symbols(terms_view(args@)));
                        assert(seen + term_symbols(t@) =~= head + terms_symbols(terms_view(args@)));
                    }
                    return Err(e);
                },
            }
            let r = register_terms(args, table, Ghost(head), Ghost(*t));
            assert(seen + term_symbols(t@) =~= head + terms_symbols(terms_view(args@)));
            r
        },
    }
}

/// Meets the symbols of an atom.
fn register_atom(a: &Atom, table: &mut HashMap<u32, usize>, Ghost(seen): Ghost<Seq<(u32, nat)>>)
    -> (r: Result<(), (u32, usize, usize)>)
    requires
        table_of(old(table)@, seen),
        arity_clash(seen) is None,
    ensures
        match arity_clash(seen + atom_symbols(a@)) {
            Some(c) => r matches Err(e) && e.0 == c.0 && e.1 as nat == c.1 && e.2 as nat == c.2,
            None => r is Ok && table_of(final(table)@, seen + atom_symbols(a@)),
        },
{
    match a {
        Atom::Pred(p, args) => {
            proof {
                lemma_terms_view(args@);
            }
            let ghost head = seen.push((*p, args@.len() as nat));
            assert(head =~= seen + seq![(*p, args@.len() as nat)]);
            assert(seen + atom_symbols(a@) =~= head + terms_symbols(terms_view(args@)));
            match register(*p, args.len(), table, Ghost(seen)) {
                Ok(()) => {},
                Err(e) => {
                    proof {
                        lemma_clash_prefix(head, terms_symbols(terms_view(args@)));
                    }
                    return Err(e);
                },
            }
            register_terms(args, table, Ghost(head), Ghost(Term::App(*p, *args)))
        },
        Atom::Eq(l, r) => {
            let ghost mid = seen + term_symbols(l@);
            assert(seen + atom_symbols(a@) =~= mid + term_symbols(r@));
            match register_term(l, table, Ghost(seen)) {
                Ok(()) => {},
                Err(e) => {
                    proof {
                        lemma_clash_prefix(mid, term_symbols(r@));
                    }
                    return Err(e);
                },
            }
            register_term(r, table, Ghost(mid))
        },
    }
}

/// Meets the symbols of a formula.
pub fn register_formula(f: &Formula, table: &mut HashMap<u32, usize>, Ghost(seen): Ghost<Seq<(u32, nat)>>)
    -> (r: Result<(), (u32, usize, usize)>)
    requires
        table_of(old(table)@, seen),
        arity_clash(seen) is None,
    ensures
        match arity_clash(seen + formula_symbols(*f)) {
            Some(c) => r matches Err(e) && e.0 == c.0 && e.1 as nat == c.1 && e.2 as nat == c.2,
            None => r is Ok && table_of(final(table)@, seen + formula_symbols(*f)),
        },
    decreases f,
{
    match f {
        Formula::Atom(a) => register_atom(a, table, Ghost(seen)),
        Formula::Neg(inner) | Formula::Forall(_, inner) | Formula::Exists(_, inner) => {
            register_formula(inner, table, Ghost(seen))
        },
        Formula::Implies(l, r) | Formula::Iff(l, r) => {
            let ghost mid = seen + formula_symbols(**l);
            assert(seen + formula_symbols(*f) =~= mid + formula_symbols(**r));
            match register_formula(l, table, Ghost(seen)) {
                Ok(()) => {},
                Err(e) => {
                    proof {
                        lemma_clash_prefix(mid, formula_symbols(**r));
                    }
                    return Err(e);
                },
            }
            register_formula(r, table, Ghost(mid))
        },
        Formula::And(parts) | Formula::Or(parts) => {
            let mut i: usize = 0;
            assert(parts@.take(0) =~= Seq::<Formula>::empty());
            assert(seen + formulas_symbols(parts@.take(0)) =~= seen);
            while i < parts.len()
                invariant
                    0 <= i <= parts.len(),
                    *f is And || *f is Or,
                    *f is And ==> (*f)->And_0 == *parts,
                    *f is Or ==> (*f)->Or_0 == *parts,
                    formula_symbols(*f) == formulas_symbols(parts@),
                    table_of(table@, seen + formulas_symbols(parts@.take(i as int))),
                    arity_clash(seen + formulas_symbols(parts@.take(i as int))) is None,
                decreases parts.len() - i,
            {
                proof {
                    if *f is And {
                        assert(decreases_to!(*f => (*f)->And_0));
                    } else {
                        assert(decreases_to!(*f => (*f)->Or_0));
                    }
                    assert(decreases_to!(*parts => parts@));
                    assert(decreases_to!(parts@ => parts@[i as int]));
                }
                let ghost before = seen + formulas_symbols(parts@.take(i as int));
                let ghost after = seen + formulas_symbols(parts@.take(i as int + 1));
                proof {
                    assert(parts@.take(i as int + 1).drop_last() == parts@.take(i as int));
                    assert(after =~= before + formula_symbols(parts@[i as int]));
                }
                match register_formula(&parts[i], table, Ghost(before)) {
                    Ok(()) => {},
                    Err(e) => {
                        proof {
                            lemma_formulas_symbols_prefix(parts@, i as int + 1);
                            let all = formulas_symbols(parts@);
                            let pre = formulas_symbols(parts@.take(i as int + 1));
                            let rest = all.subrange(pre.len() as int, all.len() as int);
                            lemma_clash_prefix(after, rest);
                            assert(seen + all =~= after + rest);
                        }
                        return Err(e);
                    },
                }
                i = i + 1;
            }
            assert(parts@.take(parts.len() as int) == parts@);
            Ok(())
        },
        Formula::True | Formula::False => {
            assert(seen + formula_symbols(*f) =~= seen);
            Ok(())
        },
    }
}

/// The symbols of a prefix of the formulas are a prefix of their symbols.
pub proof fn lemma_formulas_symbols_prefix(fs: Seq<Formula>, k: int)
    requires
        0 <= k <= fs.len(),
    ensures
        formulas_symbols(fs.take(k)).len() <= formulas_symbols(fs).len(),
        formulas_symbols(fs) == formulas_symbols(fs.take(k)) + formulas_symbols(fs).subrange(
            formulas_symbols(fs.take(k)).len() as int, formulas_symbols(fs).len() as int),
    decreases fs.len() - k,
{
    if k < fs.len() {
        lemma_formulas_symbols_prefix(fs, k + 1);
        assert(fs.take(k + 1).drop_last() == fs.take(k));
    } else {
        assert(fs.take(k) == fs);
    }
    let a = formulas_symbols(fs.take(k));
    let w = formulas_symbols(fs);
    assert(w =~= a + w.subrange(a.len() as int, w.len() as int));
}

/// The reason a clash is reported with.
pub fn clash_reason(e: (u32, usize, usize)) -> (s: String)
    ensures
        s@ == clash_text((e.0, e.1 as nat, e.2 as nat)),
{
    let mut s = String::from_str("symbol ");
    let a = decimal_text(e.0 as usize);
    s.append(a.as_str());
    s.append(" used with arities ");
    let b = decimal_text(e.1);
    s.append(b.as_str());
    s.append(" and ");
    let c = decimal_text(e.2);
    s.append(c.as_str());
    s
}

/// The function symbols of a term.
pub open spec fn term_funs(t: STerm) -> Set<u32>
    decreases t,
{
    match t {
        STerm::Var(_) => Set::empty(),
        STerm::App(f, args) => set![f] + terms_funs(args),
    }
}

pub open spec fn terms_funs(ts: Seq<STerm>) -> Set<u32>
    decreases ts,
{
    if ts.len() == 0 {
        Set::empty()
    } else {
        terms_funs(ts.drop_last()) + term_funs(ts.last())
    }
}

pub open spec fn atom_funs(a: SAtom) -> Set<u32> {
    match a {
        SAtom::Pred(_, args) => terms_funs(args),
        SAtom::Eq(l, r) => term_funs(l) + term_funs(r),
    }
}

/// The function symbols of a formula (its predicates are not among them).
pub open spec fn formula_funs(f: Formula) -> Set<u32>
    decreases f,
{
    match f {
        Formula::Atom(a) => atom_funs(a@),
        Formula::Neg(inner) => formula_funs(*inner),
        Formula::Forall(_, inner) => formula_funs(*inner),
        Formula::Exists(_, inner) => formula_funs(*inner),
        Formula::And(parts) => formulas_funs(parts@),
        Formula::Or(parts) => formulas_funs(parts@),
        Formula::Implies(l, r) => formula_funs(*l) + formula_funs(*r),
        Formula::Iff(l, r) => formula_funs(*l) + formula_funs(*r),
        Formula::True => Set::empty(),
        Formula::False => Set::empty(),
    }
}

pub open spec fn formulas_funs(fs: Seq<Formula>) -> Set<u32>
    decreases fs,
{
    if fs.len() == 0 {
        Set::empty()
    } else {
        formulas_funs(fs.drop_last()) + formula_funs(fs.last())
    }
}

fn add_symbol(out: &mut Vec<u32>, f: u32)
    ensures
        final(out)@.to_set() == old(out)@.to_set().insert(f),
{
    let ghost before = out@;
    out.push(f);
    proof {
        assert forall|g: u32| out@.to_set().contains(g) <==> before.to_set().insert(f).contains(g) by {
            if out@.contains(g) && g != f {
                let k = choose|k: int| 0 <= k < out@.len() && out@[k] == g;
                assert(before[k] == g);
            }
            if before.contains(g) {
                let k = choose|k: int| 0 <= k < before.len() && before[k] == g;
                assert(out@[k] == g);
            }
            if g == f {
                assert(out@[out@.len() - 1] == f);
            }
        }
        assert(out@.to_set() =~= before.to_set().insert(f));
    }
}

fn collect_term_funs(t: &Term, out: &mut Vec<u32>)
    ensures
        final(out)@.to_set() == old(out)@.to_set() + term_funs(t@),
    decreases *t, 1nat,
{
    match t {
        Term::Var(_) => {
            assert(out@.to_set() =~= out@.to_set() + term_funs(t@));
        },
        Term::App(f, args) => {
            let ghost before = out@.to_set();
            add_symbol(out, *f);
            collect_terms_funs(args, out, Ghost(*t));
            assert(out@.to_set() =~= before + term_funs(t@));
        },
    }
}

fn collect_terms_funs(args: &Vec<Term>, out: &mut Vec<u32>, Ghost(whole): Ghost<Term>)
    requires
        whole is App,
        whole->App_1 == *args,
    ensures
        final(out)@.to_set() == old(out)@.to_set() + terms_funs(terms_view(args@)),
    decreases whole, 0nat,
{
    let ghost start = out@.to_set();
    let mut i: usize = 0;
    assert(terms_view(args@.take(0)) =~= Seq::<STerm>::empty());
    assert(start + terms_funs(terms_view(args@.take(0))) =~= start);
    while i < args.len()
        invariant
            0 <= i <= args.len(),
            whole is App,
            whole->App_1 == *args,
            out@.to_set() == start + terms_funs(terms_view(args@.take(i as int))),
        decreases args.len() - i,
    {
        proof {
            assert(decreases_to!(whole => whole->App_1));
            assert(decreases_to!(whole->App_1 => whole->App_1@));
            assert(decreases_to!(args@ => args@[i as int]));
            assert(args@.take(i as int + 1).drop_last() == args@.take(i as int));
            assert(terms_view(args@.take(i as int + 1)) == terms_view(args@.take(i as int)).push(args@[i as int]@));
            assert(terms_view(args@.take(i as int + 1)).drop_last() == terms_view(args@.take(i as int)));
        }
        collect_term_funs(&args[i], out);
        proof {
            assert(out@.to_set() =~= start + terms_funs(terms_view(args@.take(i as int + 1))));
        }
        i = i + 1;
    }
    assert(args@.take(args.len() as int) == args@);
}

/// Adds the function symbols of a formula to `out`.
pub fn collect_formula_funs(f: &Formula, out: &mut Vec<u32>)
    ensures
        final(out)@.to_set() == old(out)@.to_set() + formula_funs(*f),
    decreases f,
{
    let ghost before = out@.to_set();
    match f {
        Formula::Atom(a) => match a {
            Atom::Pred(p, args) => {
                collect_terms_funs(args, out, Ghost(Term::App(*p, *args)));
            },
            Atom::Eq(l, r) => {
                collect_term_funs(l, out);
                collect_term_funs(r, out);
                assert(out@.to_set() =~= before + formula_funs(*f));
            },
        },
        Formula::Neg(inner) | Formula::Forall(_, inner) | Formula::Exists(_, inner) => {
            collect_formula_funs(inner, out);
        },
        Formula::Implies(l, r) | Formula::Iff(l, r) => {
            collect_formula_funs(l, out);
            collect_formula_funs(r, out);
            assert(out@.to_set() =~= before + formula_funs(*f));
        },
        Formula::True | Formula::False => {
            assert(out@.to_set() =~= before + formula_funs(*f));
        },
        Formula::And(parts) | Formula::Or(parts) => {
            let mut i: usize = 0;
            assert(parts@.take(0) =~= Seq::<Formula>::empty());
            assert(before + formulas_funs(parts@.take(0)) =~= before);
            while i < parts.len()
                invariant
                    0 <= i <= parts.len(),
                    *f is And || *f is Or,
                    *f is And ==> (*f)->And_0 == *parts,
                    *f is Or ==> (*f)->Or_0 == *parts,
                    formula_funs(*f) == formulas_funs(parts@),
                    out@.to_set() == before + formulas_funs(parts@.take(i as int)),
                decreases parts.len() - i,
            {
                proof {
                    if *f is And {
                        assert(decreases_to!(*f => (*f)->And_0));
                    } else {
                        assert(decreases_to!(*f => (*f)->Or_0));
                    }
                    assert(decreases_to!(*parts => parts@));
                    assert(decreases_to!(parts@ => parts@[i as int]));
                    assert(parts@.take(i as int + 1).drop_last() == parts@.take(i as int));
                    assert(parts@.take(i as int + 1).last() == parts@[i as int]);
                }
                collect_formula_funs(&parts[i], out);
                proof {
                    assert(out@.to_set() =~= before + formulas_funs(parts@.take(i as int + 1)));
                }
                i = i + 1;
            }
            assert(parts@.take(parts.len() as int) == parts@);
        },
    }
}

} // verus!
