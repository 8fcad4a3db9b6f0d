//! First-order terms, atoms, literals and formulas, with their mathematical
//! views, and the structural operations the clause rules are built from.
use vstd::prelude::*;
use vstd::string::*;
use crate::text::{decimal, decimal_text};

verus! {

/// A first-order term: a variable or a function symbol applied to arguments.
#[derive(Debug)]
pub enum Term {
    Var(u32),
    App(u32, Vec<Term>),
}

/// An atom: a predicate applied to arguments, or an equation.
#[derive(Debug)]
pub enum Atom {
    Pred(u32, Vec<Term>),
    Eq(Term, Term),
}

/// A possibly negated atom.
#[derive(Debug)]
pub struct Literal {
    pub positive: bool,
    pub atom: Atom,
}

/// A first-order formula over atoms.
#[derive(Debug)]
pub enum Formula {
    Atom(Atom),
    Neg(Box<Formula>),
    And(Vec<Formula>),
    Or(Vec<Formula>),
    Implies(Box<Formula>, Box<Formula>),
    Iff(Box<Formula>, Box<Formula>),
    Forall(u32, Box<Formula>),
    Exists(u32, Box<Formula>),
    True,
    False,
}

/// A term as a mathematical value.
pub enum STerm {
    Var(u32),
    App(u32, Seq<STerm>),
}

/// An atom as a mathematical value.
pub enum SAtom {
    Pred(u32, Seq<STerm>),
    Eq(STerm, STerm),
}

/// A literal as a mathematical value.
pub struct SLiteral {
    pub positive: bool,
    pub atom: SAtom,
}

pub open spec fn term_view(t: Term) -> STerm
    decreases t,
{
    match t {
        Term::Var(v) => STerm::Var(v),
        Term::App(f, args) => STerm::App(f, terms_view(args@)),
    }
}

pub open spec fn terms_view(s: Seq<Term>) -> Seq<STerm>
    decreases s,
{
    if s.len() == 0 {
        Seq::empty()
    } else {
        terms_view(s.drop_last()).push(term_view(s.last()))
    }
}

impl View for Term {
    type V = STerm;

    open spec fn view(&self) -> STerm {
        term_view(*self)
    }
}

impl View for Atom {
    type V = SAtom;

    open spec fn view(&self) -> SAtom {
        match self {
            Atom::Pred(p, args) => SAtom::Pred(*p, terms_view(args@)),
            Atom::Eq(l, r) => SAtom::Eq(l@, r@),
        }
    }
}

impl View for Literal {
    type V = SLiteral;

    open spec fn view(&self) -> SLiteral {
        SLiteral { positive: self.positive, atom: self.atom@ }
    }
}

/// A clause (list of literals) as a sequence of literal values.
pub open spec fn clause_view(c: Seq<Literal>) -> Seq<SLiteral> {
    c.map_values(|l: Literal| l@)
}

pub proof fn lemma_terms_view(s: Seq<Term>)
    ensures
        terms_view(s).len() == s.len(),
        forall|i: int| 0 <= i < s.len() ==> #[trigger] terms_view(s)[i] == s[i]@,
    decreases s.len(),
{
    if s.len() > 0 {
        lemma_terms_view(s.drop_last());
        assert forall|i: int| 0 <= i < s.len() implies #[trigger] terms_view(s)[i] == s[i]@ by {
            if i < s.len() - 1 {
                assert(s.drop_last()[i] == s[i]);
            }
        }
    }
}

/// Number of symbol and variable occurrences.
pub open spec fn sterm_size(t: STerm) -> nat
    decreases t,
{
    match t {
        STerm::Var(_) => 1,
        STerm::App(_, args) => 1 + sterms_size(args),
    }
}

pub open spec fn sterms_size(s: Seq<STerm>) -> nat
    decreases s,
{
    if s.len() == 0 {
        0
    } else {
        sterms_size(s.drop_last()) + sterm_size(s.last())
    }
}

/// Whether variable `v` occurs in the term.
pub open spec fn occurs_in(v: u32, t: STerm) -> bool
    decreases t,
{
    match t {
        STerm::Var(w) => v == w,
        STerm::App(_, args) => occurs_in_all(v, args),
    }
}

pub open spec fn occurs_in_all(v: u32, s: Seq<STerm>) -> bool
    decreases s,
{
    if s.len() == 0 {
        false
    } else {
        occurs_in_all(v, s.drop_last()) || occurs_in(v, s.last())
    }
}

/// A deep copy of a term.
pub fn copy_term(t: &Term) -> (r: Term)
    ensures
        r@ == t@,
    decreases t,
{
    match t {
        Term::Var(v) => Term::Var(*v),
        Term::App(f, args) => {
            let mut out: Vec<Term> = Vec::new();
            let mut i: usize = 0;
            while i < args.len()
                invariant
                    0 <= i <= args.len(),
                    *t is App,
                    (*t)->App_1 == *args,
                    terms_view(out@) == terms_view(args@.take(i as int)),
                decreases args.len() - i,
            {
                proof {
                    assert(decreases_to!(*t => (*t)->App_1));
                    assert(decreases_to!((*t)->App_1 => (*t)->App_1@));
                    assert(decreases_to!(args@ => args@[i as int]));
                }
                let c = copy_term(&args[i]);
                assert(args@.take(i as int + 1).drop_last() == args@.take(i as int));
                let ghost prev = out@;
                out.push(c);
                assert(out@.drop_last() == prev);
                i = i + 1;
            }
            assert(args@.take(args.len() as int) == args@);
            Term::App(*f, out)
        },
    }
}

/// The text of a term in the notation `Var(0)`, `App(1, [Var(0), Var(1)])`.
pub open spec fn term_text(t: STerm) -> Seq<char>
    decreases t,
{
    match t {
        STerm::Var(v) => "Var("@ + decimal(v as nat) + ")"@,
        STerm::App(f, args) => "App("@ + decimal(f as nat) + ", ["@ + terms_text(args) + "])"@,
    }
}

/// The texts of the terms, separated by `", "`.
pub open spec fn terms_text(s: Seq<STerm>) -> Seq<char>
    decreases s,
{
    if s.len() == 0 {
        Seq::empty()
    } else if s.len() == 1 {
        term_text(s[0])
    } else {
        terms_text(s.drop_last()) + ", "@ + term_text(s.last())
    }
}

/// The text of an atom: `Pred(p, [args])` or `Eq(left, right)`.
pub open spec fn atom_text(a: SAtom) -> Seq<char> {
    match a {
        SAtom::Pred(p, args) => "Pred("@ + decimal(p as nat) + ", ["@ + terms_text(args) + "])"@,
        SAtom::Eq(l, r) => "Eq("@ + term_text(l) + ", "@ + term_text(r) + ")"@,
    }
}

/// Renders the terms `args[..]` separated by `", "`.
fn render_terms(args: &Vec<Term>, Ghost(whole): Ghost<Term>) -> (s: String)
    requires
        whole is App,
        whole->App_1 == *args,
    ensures
        s@ == terms_text(terms_view(args@)),
    decreases whole, 0nat,
{
    let mut s = String::new();
    let mut i: usize = 0;
    proof {
        assert(args@.take(0) =~= Seq::<Term>::empty());
    }
    while i < args.len()
        invariant
            0 <= i <= args.len(),
            whole is App,
            whole->App_1 == *args,
            s@ == terms_text(terms_view(args@.take(i as int))),
        decreases args.len() - i,
    {
        proof {
            assert(decreases_to!(whole => whole->App_1));
            assert(decreases_to!(whole->App_1 => whole->App_1@));
            assert(decreases_to!(args@ => args@[i as int]));
        }
        let t = render_term(&args[i]);
        let ghost prev = terms_view(args@.take(i as int));
        assert(args@.take(i as int + 1).drop_last() == args@.take(i as int));
        let ghost next = terms_view(args@.take(i as int + 1));
        assert(next == prev.push(args@[i as int]@));
        if i > 0 {
            s.append(", ");
            assert(next.drop_last() == prev);
        } else {
            assert(prev.len() == 0);
        }
        s.append(t.as_str());
        i = i + 1;
    }
    assert(args@.take(args.len() as int) == args@);
    s
}

/// Renders a term as `term_text` describes it.
pub fn render_term(t: &Term) -> (s: String)
    ensures
        s@ == term_text(t@),
    decreases *t, 1nat,
{
    match t {
        Term::Var(v) => {
            let mut s = String::from_str("Var(");
            let d = decimal_text(*v as usize);
            s.append(d.as_str());
            s.append(")");
            s
        },
        Term::App(f, args) => {
            let mut s = String::from_str("App(");
            let d = decimal_text(*f as usize);
            s.append(d.as_str());
            s.append(", [");
            let inner = render_terms(args, Ghost(*t));
            s.append(inner.as_str());
            s.append("])");
            s
        },
    }
}

/// Renders an atom as `atom_text` describes it.
pub fn render_atom(a: &Atom) -> (s: String)
    ensures
        s@ == atom_text(a@),
{
    match a {
        Atom::Pred(p, args) => {
            let mut s = String::from_str("Pred(");
            let d = decimal_text(*p as usize);
            s.append(d.as_str());
            s.append(", [");
            let inner = render_terms(args, Ghost(Term::App(0, *args)));
            s.append(inner.as_str());
            s.append("])");
            s
        },
        Atom::Eq(l, r) => {
            let mut s = String::from_str("Eq(");
            let x = render_term(l);
            s.append(x.as_str());
            s.append(", ");
            let y = render_term(r);
            s.append(y.as_str());
            s.append(")");
            s
        },
    }
}

} // verus!
