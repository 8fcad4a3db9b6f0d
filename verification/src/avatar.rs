//! AVATAR split markers: the propositional variables named by `spl0_<n>` /
//! `spl_<n>` symbols, and normalized variable lists.
use vstd::prelude::*;
use crate::text::{parse_u32, parse_u32_token, str_chars};

verus! {

/// `s` begins with `p`.
pub open spec fn has_prefix(s: Seq<char>, p: Seq<char>) -> bool {
    p.len() <= s.len() && s.take(p.len() as int) == p
}

/// The SAT variable named by an AVATAR marker: the decimal number after the
/// `spl0_` (or else `spl_`) prefix, when it lies in `1..=i32::MAX`.
pub open spec fn avatar_var(name: Seq<char>) -> Option<u32> {
    let digits = if has_prefix(name, "spl0_"@) {
        Some(name.skip(5))
    } else if has_prefix(name, "spl_"@) {
        Some(name.skip(4))
    } else {
        None
    };
    match digits {
        None => None,
        Some(d) => match parse_u32(d) {
            Some(v) if 0 < v && v <= i32::MAX => Some(v),
            _ => None,
        },
    }
}

pub fn starts_with(s: &Vec<char>, prefix: &str) -> (r: bool)
    ensures
        r == has_prefix(s@, prefix@),
{
    let p = str_chars(prefix);
    if p.len() > s.len() {
        return false;
    }
    let mut i: usize = 0;
    while i < p.len()
        invariant
            0 <= i <= p.len() <= s.len(),
            p@ == prefix@,
            forall|k: int| 0 <= k < i ==> s@[k] == p@[k],
        decreases p.len() - i,
    {
        if s[i] != p[i] {
            assert(s@.take(p.len() as int)[i as int] != p@[i as int]);
            return false;
        }
        i = i + 1;
    }
    assert(s@.take(p.len() as int) =~= p@);
    true
}

fn suffix_from(s: &Vec<char>, start: usize) -> (r: Vec<char>)
    requires
        start <= s.len(),
    ensures
        r@ == s@.skip(start as int),
{
    let mut r: Vec<char> = Vec::new();
    let mut i: usize = start;
    while i < s.len()
        invariant
            start <= i <= s.len(),
            r@ == s@.subrange(start as int, i as int),
        decreases s.len() - i,
    {
        r.push(s[i]);
        i = i + 1;
    }
    assert(r@ =~= s@.skip(start as int));
    r
}

/// Parses the SAT variable of an AVATAR marker name.
pub fn parse_avatar_var(name: &str) -> (r: Option<u32>)
    ensures
        r == avatar_var(name@),
{
    let chars = str_chars(name);
    let digits = if starts_with(&chars, "spl0_") {
        proof {
            reveal_strlit("spl0_");
        }
        suffix_from(&chars, 5)
    } else if starts_with(&chars, "spl_") {
        proof {
            reveal_strlit("spl_");
        }
        suffix_from(&chars, 4)
    } else {
        return None;
    };
    match parse_u32_token(&digits) {
        Some(v) => if 0 < v && v <= 0x7fff_ffff {
            Some(v)
        } else {
            None
        },
        None => None,
    }
}

/// Strictly ascending.
pub open spec fn strictly_ascending(s: Seq<u32>) -> bool {
    forall|i: int, j: int| 0 <= i < j < s.len() ==> s[i] < s[j]
}

/// `r` lists the distinct values of `v` in ascending order.
pub open spec fn normalized_of(r: Seq<u32>, v: Seq<u32>) -> bool {
    strictly_ascending(r) && r.to_set() == v.to_set()
}

/// Inserts `x` into a strictly ascending list unless it is already there.
fn insert_sorted(r: &mut Vec<u32>, x: u32)
    requires
        strictly_ascending(old(r)@),
    ensures
        strictly_ascending(final(r)@),
        final(r)@.to_set() == old(r)@.to_set().insert(x),
{
    let mut i: usize = 0;
    while i < r.len() && r[i] < x
        invariant
            0 <= i <= r.len(),
            r@ == old(r)@,
            strictly_ascending(r@),
            forall|k: int| 0 <= k < i ==> r@[k] < x,
        decreases r.len() - i,
    {
        i = i + 1;
    }
    if i < r.len() && r[i] == x {
        assert(r@.to_set() =~= r@.to_set().insert(x)) by {
            assert(r@.contains(x) ) by { assert(r@[i as int] == x); }
        }
        return;
    }
    let ghost before = r@;
    r.insert(i, x);
    assert(r@ == before.insert(i as int, x));
    assert forall|a: int, b: int| 0 <= a < b < r@.len() implies r@[a] < r@[b] by {
        if a < i as int && b < i as int {
            assert(r@[a] == before[a] && r@[b] == before[b]);
        } else if a < i as int && b == i as int {
            assert(r@[a] == before[a]);
        } else if a < i as int {
            assert(r@[a] == before[a] && r@[b] == before[b - 1]);
        } else if a == i as int {
            assert(r@[b] == before[b - 1]);
            assert(before[i as int] > x);
            if b - 1 > i as int {
                assert(before[i as int] < before[b - 1]);
            }
        } else {
            assert(r@[a] == before[a - 1] && r@[b] == before[b - 1]);
        }
    }
    assert(r@.to_set() =~= before.to_set().insert(x)) by {
        assert forall|y: u32| r@.contains(y) implies before.to_set().insert(x).contains(y) by {
            let k = choose|k: int| 0 <= k < r@.len() && r@[k] == y;
            if k < i as int {
                assert(before[k] == y);
            } else if k > i as int {
                assert(before[k - 1] == y);
            }
        }
        assert forall|y: u32| before.to_set().insert(x).contains(y) implies r@.contains(y) by {
            if y == x {
                assert(r@[i as int] == x);
            } else {
                let k = choose|k: int| 0 <= k < before.len() && before[k] == y;
                if k < i as int {
                    assert(r@[k] == y);
                } else {
                    assert(r@[k + 1] == y);
                }
            }
        }
    }
}

/// Sorts the variables and removes repeats.
pub fn normalize_avatar_vars(vars: &mut Vec<u32>)
    ensures
        normalized_of(final(vars)@, old(vars)@),
{
    let mut r: Vec<u32> = Vec::new();
    let mut i: usize = 0;
    assert(r@.to_set() =~= old(vars)@.take(0).to_set());
    while i < vars.len()
        invariant
            0 <= i <= vars.len(),
            vars@ == old(vars)@,
            strictly_ascending(r@),
            r@.to_set() == vars@.take(i as int).to_set(),
        decreases vars.len() - i,
    {
        insert_sorted(&mut r, vars[i]);
        assert(vars@.take(i as int + 1).to_set() =~= vars@.take(i as int).to_set().insert(vars@[i as int])) by {
            assert(vars@.take(i as int + 1) == vars@.take(i as int).push(vars@[i as int]));
            vars@.take(i as int).lemma_push_to_set_commute(vars@[i as int]);
        }
        i = i + 1;
    }
    assert(vars@.take(vars.len() as int) == vars@);
    *vars = r;
}

/// The sorted, repeat-free copy of a variable list.
pub fn normalize_avatar_vars_copy(vars: Vec<u32>) -> (r: Vec<u32>)
    ensures
        normalized_of(r@, vars@),
{
    let mut vars = vars;
    normalize_avatar_vars(&mut vars);
    vars
}

/// Two strictly ascending lists with the same elements are equal.
proof fn lemma_ascending_unique(a: Seq<u32>, b: Seq<u32>)
    requires
        strictly_ascending(a),
        strictly_ascending(b),
        a.to_set() == b.to_set(),
    ensures
        a == b,
    decreases a.len(),
{
    if a.len() == 0 {
        if b.len() > 0 {
            assert(b.to_set().contains(b[0]));
            assert(a.to_set().contains(b[0]));
        }
        assert(a =~= b);
    } else {
        assert(a.to_set().contains(a[0]));
        assert(b.to_set().contains(a[0]));
        let kb = choose|k: int| 0 <= k < b.len() && b[k] == a[0];
        assert(b.to_set().contains(b[0]));
        assert(a.to_set().contains(b[0]));
        let ka = choose|k: int| 0 <= k < a.len() && a[k] == b[0];
        if ka > 0 {
            assert(a[0] < a[ka]);
        }
        if kb > 0 {
            assert(b[0] < b[kb]);
        }
        assert(a[0] == b[0]);
        let a2 = a.drop_first();
        let b2 = b.drop_first();
        assert(strictly_ascending(a2)) by {
            assert forall|i: int, j: int| 0 <= i < j < a2.len() implies a2[i] < a2[j] by {
                assert(a2[i] == a[i + 1] && a2[j] == a[j + 1]);
            }
        }
        assert(strictly_ascending(b2)) by {
            assert forall|i: int, j: int| 0 <= i < j < b2.len() implies b2[i] < b2[j] by {
                assert(b2[i] == b[i + 1] && b2[j] == b[j + 1]);
            }
        }
        assert(a2.to_set() =~= b2.to_set()) by {
            assert forall|x: u32| a2.to_set().contains(x) implies b2.to_set().contains(x) by {
                let i = choose|i: int| 0 <= i < a2.len() && a2[i] == x;
                assert(a[i + 1] == x);
                assert(a[0] < a[i + 1]);
                assert(a.to_set().contains(x));
                let j = choose|j: int| 0 <= j < b.len() && b[j] == x;
                assert(j != 0);
                assert(b2[j - 1] == x);
            }
            assert forall|x: u32| b2.to_set().contains(x) implies a2.to_set().contains(x) by {
                let i = choose|i: int| 0 <= i < b2.len() && b2[i] == x;
                assert(b[i + 1] == x);
                assert(b[0] < b[i + 1]);
                assert(b.to_set().contains(x));
                let j = choose|j: int| 0 <= j < a.len() && a[j] == x;
                assert(j != 0);
                assert(a2[j - 1] == x);
            }
        }
        lemma_ascending_unique(a2, b2);
        assert(a =~= seq![a[0]] + a2);
        assert(b =~= seq![b[0]] + b2);
    }
}

/// Normalization is canonical: the normalized list of a variable list is
/// unique, and normalizing it again changes nothing.
pub proof fn lemma_normalized_canonical(v: Seq<u32>, r1: Seq<u32>, r2: Seq<u32>)
    requires
        normalized_of(r1, v),
    ensures
        normalized_of(r2, v) ==> r1 == r2,
        normalized_of(r2, r1) ==> r2 == r1,
{
    if normalized_of(r2, v) {
        lemma_ascending_unique(r1, r2);
    }
    if normalized_of(r2, r1) {
        lemma_ascending_unique(r1, r2);
    }
}

} // verus!
