//! Positions in terms and rewriting with oriented equations.
use vstd::prelude::*;
use crate::term::{Term, Atom, STerm, SAtom, terms_view, lemma_terms_view, copy_term};
use crate::subst::{Subst, subst_term, match_spec, match_pattern, lemma_match_sound, apply_substitution_term};

verus! {

/// The subterm at a path of argument indices.
pub open spec fn subterm_at(t: STerm, path: Seq<usize>) -> Option<STerm>
    decreases path.len(),
{
    if path.len() == 0 {
        Some(t)
    } else {
        match t {
            STerm::App(_, args) => if path[0] < args.len() {
                subterm_at(args[path[0] as int], path.drop_first())
            } else {
                None
            },
            STerm::Var(_) => None,
        }
    }
}

/// The term with the subterm at `path` replaced by `u`; unchanged when the
/// path leaves the term.
pub open spec fn replace_at(t: STerm, path: Seq<usize>, u: STerm) -> STerm
    decreases path.len(),
{
    if path.len() == 0 {
        u
    } else {
        match t {
            STerm::App(f, args) => if path[0] < args.len() {
                STerm::App(f, args.update(path[0] as int, replace_at(args[path[0] as int], path.drop_first(), u)))
            } else {
                t
            },
            STerm::Var(_) => t,
        }
    }
}

/// The subterm at a path of argument indices.
pub fn term_at_position<'a>(term: &'a Term, path: &[usize]) -> (r: Option<&'a Term>)
    ensures
        match subterm_at(term@, path@) {
            Some(u) => r matches Some(x) && x@ == u,
            None => r is None,
        },
{
    let mut cur: &Term = term;
    let mut i: usize = 0;
    assert(path@.skip(0) =~= path@);
    while i < path.len()
        invariant
            0 <= i <= path@.len(),
            subterm_at(term@, path@) == subterm_at(cur@, path@.skip(i as int)),
        decreases path.len() - i,
    {
        assert(path@.skip(i as int).drop_first() =~= path@.skip(i as int + 1));
        match cur {
            Term::App(_, args) => {
                proof {
                    lemma_terms_view(args@);
                }
                if path[i] < args.len() {
                    cur = &args[path[i]];
                } else {
                    return None;
                }
            },
            Term::Var(_) => {
                return None;
            },
        }
        i = i + 1;
    }
    assert(path@.skip(path@.len() as int) =~= Seq::<usize>::empty());
    Some(cur)
}

fn replace_from(term: &Term, path: &[usize], i: usize, replacement: Term) -> (r: Term)
    requires
        i <= path@.len(),
    ensures
        r@ == replace_at(term@, path@.skip(i as int), replacement@),
    decreases path@.len() - i,
{
    let n: usize = path.len();
    if i == n {
        return replacement;
    }
    assert(path@.skip(i as int).drop_first() =~= path@.skip(i as int + 1));
    match term {
        Term::App(f, args) => {
            proof {
                lemma_terms_view(args@);
            }
            let k = path[i];
            let mut out: Vec<Term> = Vec::new();
            let mut j: usize = 0;
            while j < args.len()
                invariant
                    0 <= j <= args.len(),
                    i < n,
                    n == path@.len(),
                    k == path@[i as int],
                    out@.len() == j,
                    terms_view(args@).len() == args@.len(),
                    forall|m: int| 0 <= m < j && m != k ==> #[trigger] out@[m]@ == args@[m]@,
                    k < j ==> out@[k as int]@ == replace_at(args@[k as int]@, path@.skip(i as int + 1), replacement@),
                decreases args.len() - j,
            {
                if j == k {
                    let rep = copy_term(&replacement);
                    let sub = replace_from(&args[j], path, i + 1, rep);
                    out.push(sub);
                } else {
                    out.push(copy_term(&args[j]));
                }
                j = j + 1;
            }
            proof {
                lemma_terms_view(out@);
                if k < args@.len() {
                    assert(terms_view(out@) =~= terms_view(args@).update(k as int, replace_at(terms_view(args@)[k as int], path@.skip(i as int + 1), replacement@)));
                } else {
                    assert(terms_view(out@) =~= terms_view(args@));
                }
            }
            Term::App(*f, out)
        },
        Term::Var(v) => Term::Var(*v),
    }
}

/// The term with the subterm at `path` replaced.
pub fn replace_term_at(term: &Term, path: &[usize], replacement: Term) -> (r: Term)
    ensures
        r@ == replace_at(term@, path@, replacement@),
{
    assert(path@.skip(0) =~= path@);
    replace_from(term, path, 0, replacement)
}

/// The argument of an atom at `side`: a predicate argument, or the left (0)
/// or right (1) side of an equation.
pub open spec fn atom_side(a: SAtom, side: int) -> Option<STerm> {
    match a {
        SAtom::Pred(_, args) => if 0 <= side < args.len() {
            Some(args[side])
        } else {
            None
        },
        SAtom::Eq(l, r) => if side == 0 {
            Some(l)
        } else if side == 1 {
            Some(r)
        } else {
            None
        },
    }
}

/// The atom with its argument at `side` replaced; an equation's right side
/// for any side but 0.
pub open spec fn replace_side(a: SAtom, side: int, u: STerm) -> SAtom {
    match a {
        SAtom::Pred(p, args) => if 0 <= side < args.len() {
            SAtom::Pred(p, args.update(side, u))
        } else {
            a
        },
        SAtom::Eq(l, r) => if side == 0 {
            SAtom::Eq(u, r)
        } else {
            SAtom::Eq(l, u)
        },
    }
}

/// The atom with its argument at `side` replaced.
pub fn replace_atom_side(atom: &Atom, side: usize, replacement: Term) -> (r: Atom)
    ensures
        r@ == replace_side(atom@, side as int, replacement@),
{
    match atom {
        Atom::Pred(p, args) => {
            proof {
                lemma_terms_view(args@);
            }
            let mut out: Vec<Term> = Vec::new();
            let mut j: usize = 0;
            while j < args.len()
                invariant
                    0 <= j <= args.len(),
                    out@.len() == j,
                    forall|m: int| 0 <= m < j && m != side ==> #[trigger] out@[m]@ == args@[m]@,
                    side < j ==> out@[side as int]@ == replacement@,
                decreases args.len() - j,
            {
                if j == side {
                    out.push(copy_term(&replacement));
                } else {
                    out.push(copy_term(&args[j]));
                }
                j = j + 1;
            }
            proof {
                lemma_terms_view(out@);
                if side < args@.len() {
                    assert(terms_view(out@) =~= terms_view(args@).update(side as int, replacement@));
                } else {
                    assert(terms_view(out@) =~= terms_view(args@));
                }
            }
            Atom::Pred(*p, out)
        },
        Atom::Eq(l, r) => {
            if side == 0 {
                Atom::Eq(replacement, copy_term(r))
            } else {
                Atom::Eq(copy_term(l), replacement)
            }
        },
    }
}

/// Rewrite rules as pairs of term values.
pub open spec fn rules_view(rules: Seq<(Term, Term)>) -> Seq<(STerm, STerm)> {
    rules.map_values(|p: (Term, Term)| (p.0@, p.1@))
}

/// Rewriting `t` to `t2` with rule `q` at `path` under matcher `s`.
pub open spec fn rewrite_at(t: STerm, t2: STerm, rules: Seq<(STerm, STerm)>, q: int, path: Seq<usize>, s: Map<u32, STerm>) -> bool {
    &&& 0 <= q < rules.len()
    &&& subterm_at(t, path) == Some(subst_term(rules[q].0, s))
    &&& t2 == replace_at(t, path, subst_term(rules[q].1, s))
}

/// One rewrite step leads from `t` to `t2`.
pub open spec fn rewrites_once(t: STerm, t2: STerm, rules: Seq<(STerm, STerm)>) -> bool {
    exists|q: int, path: Seq<usize>, s: Map<u32, STerm>| #[trigger] rewrite_at(t, t2, rules, q, path, s)
}

/// Rewrites the first redex, trying the rules in order at the root and then
/// the arguments from left to right; each rewrite spends one step, and no
/// rule is tried once `max_steps` steps are spent.
pub fn rewrite_term(term: &Term, rules: &Vec<(Term, Term)>, steps: &mut usize, max_steps: usize) -> (r: Option<Term>)
    requires
        *old(steps) <= max_steps,
    ensures
        *final(steps) <= max_steps,
        r is Some ==> *final(steps) == *old(steps) + 1,
        r is None ==> *final(steps) == *old(steps),
        r matches Some(t2) ==> rewrites_once(term@, t2@, rules_view(rules@)),
    decreases term,
{
    let ghost rv = rules_view(rules@);
    let mut q: usize = 0;
    while q < rules.len()
        invariant
            0 <= q <= rules.len(),
            *steps == *old(steps),
            *old(steps) <= max_steps,
            rv == rules_view(rules@),
        decreases rules.len() - q,
    {
        if *steps >= max_steps {
            return None;
        }
        let mut s = Subst::new();
        if match_pattern(&rules[q].0, term, &mut s) {
            proof {
                lemma_match_sound(rules@[q as int].0@, term@, Map::empty());
                assert(rv[q as int] == (rules@[q as int].0@, rules@[q as int].1@));
            }
            let t2 = apply_substitution_term(&rules[q].1, &s);
            *steps = *steps + 1;
            proof {
                assert(subterm_at(term@, Seq::<usize>::empty()) == Some(term@));
                assert(rewrite_at(term@, t2@, rv, q as int, Seq::<usize>::empty(), s@));
            }
            return Some(t2);
        }
        q = q + 1;
    }
    match term {
        Term::App(f, args) => {
            proof {
                lemma_terms_view(args@);
            }
            let mut i: usize = 0;
            while i < args.len()
                invariant
                    0 <= i <= args.len(),
                    *term is App,
                    (*term)->App_1 == *args,
                    (*term)->App_0 == *f,
                    *steps == *old(steps),
                    *old(steps) <= max_steps,
                    rv == rules_view(rules@),
                decreases args.len() - i,
            {
                proof {
                    assert(decreases_to!(*term => (*term)->App_1));
                    assert(decreases_to!((*term)->App_1 => (*term)->App_1@));
                    assert(decreases_to!(args@ => args@[i as int]));
                }
                match rewrite_term(&args[i], rules, steps, max_steps) {
                    Some(new_arg) => {
                        let ghost nv = new_arg@;
                        let mut out: Vec<Term> = Vec::new();
                        let mut j: usize = 0;
                        while j < args.len()
                            invariant
                                0 <= j <= args.len(),
                                i < args@.len(),
                                out@.len() == j,
                                new_arg@ == nv,
                                forall|m: int| 0 <= m < j && m != i ==> #[trigger] out@[m]@ == args@[m]@,
                                i < j ==> out@[i as int]@ == nv,
                            decreases args.len() - j,
                        {
                            if j == i {
                                out.push(copy_term(&new_arg));
                            } else {
                                out.push(copy_term(&args[j]));
                            }
                            j = j + 1;
                        }
                        proof {
                            lemma_terms_view(args@);
                            lemma_terms_view(out@);
                            let av = terms_view(args@);
                            assert(terms_view(out@) =~= av.update(i as int, nv));
                            let (q, path, s) = choose|q: int, path: Seq<usize>, s: Map<u32, STerm>|
                                #[trigger] rewrite_at(args@[i as int]@, nv, rv, q, path, s);
                            let p2 = seq![i].add(path);
                            assert(p2.drop_first() =~= path);
                            assert(p2[0] == i);
                            assert(av[i as int] == args@[i as int]@);
                            let u = subst_term(rv[q].1, s);
                            assert(term@ == STerm::App(*f, av));
                            assert(subterm_at(term@, p2) == subterm_at(av[i as int], path));
                            assert(replace_at(term@, p2, u) == STerm::App(*f, av.update(i as int, replace_at(av[i as int], path, u))));
                            assert(rewrite_at(term@, STerm::App(*f, terms_view(out@)), rv, q, p2, s));
                        }
                        return Some(Term::App(*f, out));
                    },
                    None => {},
                }
                i = i + 1;
            }
            None
        },
        Term::Var(_) => None,
    }
}

/// One rewrite step inside the argument at `side` of atom `a` gives `a2`.
pub open spec fn atom_rewrites_once(a: SAtom, a2: SAtom, rules: Seq<(STerm, STerm)>) -> bool {
    exists|side: int, t2: STerm| #[trigger] atom_rewrite_at(a, a2, rules, side, t2)
}

pub open spec fn atom_rewrite_at(a: SAtom, a2: SAtom, rules: Seq<(STerm, STerm)>, side: int, t2: STerm) -> bool {
    &&& atom_side(a, side) matches Some(t)
    &&& rewrites_once(t, t2, rules)
    &&& a2 == replace_side(a, side, t2)
}

/// Rewrites the first redex of an atom, in its arguments from left to
/// right.
pub fn rewrite_atom(atom: &Atom, rules: &Vec<(Term, Term)>, steps: &mut usize, max_steps: usize) -> (r: Option<Atom>)
    requires
        *old(steps) <= max_steps,
    ensures
        *final(steps) <= max_steps,
        r is Some ==> *final(steps) == *old(steps) + 1,
        r is None ==> *final(steps) == *old(steps),
        r matches Some(a2) ==> atom_rewrites_once(atom@, a2@, rules_view(rules@)),
{
    match atom {
        Atom::Pred(_, args) => {
            proof {
                lemma_terms_view(args@);
            }
            let mut i: usize = 0;
            while i < args.len()
                invariant
                    0 <= i <= args.len(),
                    *atom is Pred,
                    (*atom)->Pred_1 == *args,
                    *steps == *old(steps),
                    *old(steps) <= max_steps,
                decreases args.len() - i,
            {
                match rewrite_term(&args[i], rules, steps, max_steps) {
                    Some(t2) => {
                        let ghost tv = t2@;
                        let a2 = replace_atom_side(atom, i, t2);
                        proof {
                            lemma_terms_view(args@);
                            assert(atom_side(atom@, i as int) == Some(args@[i as int]@));
                            assert(atom_rewrite_at(atom@, a2@, rules_view(rules@), i as int, tv));
                        }
                        return Some(a2);
                    },
                    None => {},
                }
                i = i + 1;
            }
            None
        },
        Atom::Eq(l, r) => {
            match rewrite_term(l, rules, steps, max_steps) {
                Some(t2) => {
                    let ghost tv = t2@;
                    let a2 = replace_atom_side(atom, 0, t2);
                    assert(atom_rewrite_at(atom@, a2@, rules_view(rules@), 0, tv));
                    return Some(a2);
                },
                None => {},
            }
            match rewrite_term(r, rules, steps, max_steps) {
                Some(t2) => {
                    let ghost tv = t2@;
                    let a2 = replace_atom_side(atom, 1, t2);
                    assert(atom_rewrite_at(atom@, a2@, rules_view(rules@), 1, tv));
                    Some(a2)
                },
                None => None,
            }
        },
    }
}

} // verus!
