//! Character-level text handling: UTF-8 decoding, line and whitespace
//! splitting, and decimal integer parsing with the semantics of Rust's
//! `str::lines`, `str::split_whitespace` and `str::parse`.
use vstd::prelude::*;
use vstd::string::*;
use vstd::utf8::*;

verus! {

/// Unicode `White_Space`, the property behind `char::is_whitespace`.
pub open spec fn is_ws(c: char) -> bool {
    ||| ('\u{9}' <= c && c <= '\u{d}')
    ||| c == ' '
    ||| c == '\u{85}'
    ||| c == '\u{a0}'
    ||| c == '\u{1680}'
    ||| ('\u{2000}' <= c && c <= '\u{200a}')
    ||| c == '\u{2028}'
    ||| c == '\u{2029}'
    ||| c == '\u{202f}'
    ||| c == '\u{205f}'
    ||| c == '\u{3000}'
}

pub fn char_is_ws(c: char) -> (r: bool)
    ensures
        r == is_ws(c),
{
    ('\u{9}' <= c && c <= '\u{d}') || c == ' ' || c == '\u{85}' || c == '\u{a0}' || c
        == '\u{1680}' || ('\u{2000}' <= c && c <= '\u{200a}') || c == '\u{2028}' || c
        == '\u{2029}' || c == '\u{202f}' || c == '\u{205f}' || c == '\u{3000}'
}

/// The pieces of `s` between `'\n'` characters (there is always at least one).
pub open spec fn line_pieces(s: Seq<char>) -> Seq<Seq<char>>
    decreases s.len(),
{
    if s.len() == 0 {
        seq![Seq::<char>::empty()]
    } else {
        let p = line_pieces(s.drop_last());
        if s.last() == '\n' {
            p.push(Seq::<char>::empty())
        } else {
            p.update(p.len() - 1, p.last().push(s.last()))
        }
    }
}

/// Left-to-right scan for whitespace splitting: the completed tokens and the
/// token still being read.
pub open spec fn ws_scan(s: Seq<char>) -> (Seq<Seq<char>>, Seq<char>)
    decreases s.len(),
{
    if s.len() == 0 {
        (Seq::empty(), Seq::empty())
    } else {
        let (done, cur) = ws_scan(s.drop_last());
        if is_ws(s.last()) {
            if cur.len() > 0 {
                (done.push(cur), Seq::empty())
            } else {
                (done, Seq::empty())
            }
        } else {
            (done, cur.push(s.last()))
        }
    }
}

/// The maximal non-empty runs of non-whitespace characters of `s`, in order.
pub open spec fn ws_tokens(s: Seq<char>) -> Seq<Seq<char>> {
    let (done, cur) = ws_scan(s);
    if cur.len() > 0 {
        done.push(cur)
    } else {
        done
    }
}

/// The contents of a list of character vectors.
pub open spec fn texts_view(v: Seq<Vec<char>>) -> Seq<Seq<char>> {
    v.map_values(|t: Vec<char>| t@)
}

/// A line of text as whitespace-separated tokens.
pub open spec fn token_lines(s: Seq<char>) -> Seq<Seq<Seq<char>>> {
    line_pieces(s).map_values(|line: Seq<char>| ws_tokens(line))
}

pub open spec fn is_digit(c: char) -> bool {
    '0' <= c && c <= '9'
}

pub open spec fn all_digits(s: Seq<char>) -> bool {
    forall|i: int| 0 <= i < s.len() ==> is_digit(#[trigger] s[i])
}

/// Value of a sequence of decimal digits.
pub open spec fn digits_value(s: Seq<char>) -> nat
    decreases s.len(),
{
    if s.len() == 0 {
        0
    } else {
        digits_value(s.drop_last()) * 10 + ((s.last() as nat) - ('0' as nat)) as nat
    }
}

/// The integer denoted by `s` under `str::parse`: an optional `+` (or, when
/// `signed`, `-`) followed by at least one ASCII digit.
pub open spec fn parse_integer(s: Seq<char>, signed: bool) -> Option<int> {
    if s.len() == 0 {
        None
    } else if s[0] == '+' || (signed && s[0] == '-') {
        let rest = s.skip(1);
        if rest.len() > 0 && all_digits(rest) {
            if s[0] == '-' {
                Some(-(digits_value(rest) as int))
            } else {
                Some(digits_value(rest) as int)
            }
        } else {
            None
        }
    } else if all_digits(s) {
        Some(digits_value(s) as int)
    } else {
        None
    }
}

/// `str::parse::<i64>()`.
pub open spec fn parse_i64(s: Seq<char>) -> Option<i64> {
    match parse_integer(s, true) {
        Some(v) if i64::MIN <= v <= i64::MAX => Some(v as i64),
        _ => None,
    }
}

/// `str::parse::<i32>()`.
pub open spec fn parse_i32(s: Seq<char>) -> Option<i32> {
    match parse_integer(s, true) {
        Some(v) if i32::MIN <= v <= i32::MAX => Some(v as i32),
        _ => None,
    }
}

/// `str::parse::<u32>()`.
pub open spec fn parse_u32(s: Seq<char>) -> Option<u32> {
    match parse_integer(s, false) {
        Some(v) if 0 <= v <= u32::MAX => Some(v as u32),
        _ => None,
    }
}

/// Decimal rendering of a natural number.
pub open spec fn decimal(n: nat) -> Seq<char>
    decreases n,
{
    if n < 10 {
        seq![(('0' as nat) + n) as char]
    } else {
        decimal(n / 10).push((('0' as nat) + n % 10) as char)
    }
}

/// `std::str::from_utf8`: `Some` exactly on well-formed UTF-8, with the
/// decoded characters.
#[verifier::external_body]
pub fn utf8_text(bytes: &[u8]) -> (r: Option<&str>)
    ensures
        r is Some <==> valid_utf8(bytes@),
        r matches Some(s) ==> s@ == decode_utf8(bytes@),
{
    std::str::from_utf8(bytes).ok()
}

/// The decimal digit of a number below ten.
fn digit_text(d: usize) -> (s: &'static str)
    requires
        d < 10,
    ensures
        s@ == seq![(('0' as nat) + d) as char],
{
    if d == 0 {
        proof { reveal_strlit("0"); }
        "0"
    } else if d == 1 {
        proof { reveal_strlit("1"); }
        "1"
    } else if d == 2 {
        proof { reveal_strlit("2"); }
        "2"
    } else if d == 3 {
        proof { reveal_strlit("3"); }
        "3"
    } else if d == 4 {
        proof { reveal_strlit("4"); }
        "4"
    } else if d == 5 {
        proof { reveal_strlit("5"); }
        "5"
    } else if d == 6 {
        proof { reveal_strlit("6"); }
        "6"
    } else if d == 7 {
        proof { reveal_strlit("7"); }
        "7"
    } else if d == 8 {
        proof { reveal_strlit("8"); }
        "8"
    } else {
        proof { reveal_strlit("9"); }
        "9"
    }
}

/// The decimal rendering of a number, most significant digit first.
pub fn decimal_text(n: usize) -> (s: String)
    ensures
        s@ == decimal(n as nat),
    decreases n,
{
    if n < 10 {
        String::from_str(digit_text(n))
    } else {
        let mut s = decimal_text(n / 10);
        let d = digit_text(n % 10);
        s.append(d);
        assert(s@ =~= decimal((n / 10) as nat).push((('0' as nat) + (n % 10) as nat) as char));
        s
    }
}

/// The characters of a string slice.
pub fn str_chars(s: &str) -> (r: Vec<char>)
    ensures
        r@ == s@,
{
    let mut r: Vec<char> = Vec::new();
    for c in it: s.chars()
        invariant
            r@ == it.seq().take(it.index() as int),
            it.seq() == s@,
    {
        r.push(c);
        assert(it.seq().take(it.index() + 1) == r@);
    }
    r
}

/// Splits text into its `'\n'`-separated pieces.
pub fn split_lines(chars: &Vec<char>) -> (r: Vec<Vec<char>>)
    ensures
        texts_view(r@) == line_pieces(chars@),
        r@.len() == line_pieces(chars@).len(),
        forall|i: int| 0 <= i < r@.len() ==> #[trigger] r@[i]@ == line_pieces(chars@)[i],
{
    let mut r: Vec<Vec<char>> = Vec::new();
    let mut cur: Vec<char> = Vec::new();
    let mut i: usize = 0;
    while i < chars.len()
        invariant
            0 <= i <= chars.len(),
            r@.len() + 1 == line_pieces(chars@.take(i as int)).len(),
            forall|k: int| 0 <= k < r@.len() ==> #[trigger] r@[k]@ == line_pieces(chars@.take(i as int))[k],
            cur@ == line_pieces(chars@.take(i as int)).last(),
        decreases chars.len() - i,
    {
        let c = chars[i];
        assert(chars@.take(i as int + 1).drop_last() == chars@.take(i as int));
        if c == '\n' {
            r.push(cur);
            cur = Vec::new();
        } else {
            cur.push(c);
        }
        i = i + 1;
    }
    assert(chars@.take(chars.len() as int) == chars@);
    r.push(cur);
    assert(texts_view(r@) =~= line_pieces(chars@));
    r
}

/// Splits a line into its whitespace-separated tokens.
pub fn split_tokens(line: &Vec<char>) -> (r: Vec<Vec<char>>)
    ensures
        texts_view(r@) == ws_tokens(line@),
        r@.len() == ws_tokens(line@).len(),
        forall|i: int| 0 <= i < r@.len() ==> #[trigger] r@[i]@ == ws_tokens(line@)[i],
{
    let mut done: Vec<Vec<char>> = Vec::new();
    let mut cur: Vec<char> = Vec::new();
    let mut i: usize = 0;
    while i < line.len()
        invariant
            0 <= i <= line.len(),
            done@.len() == ws_scan(line@.take(i as int)).0.len(),
            forall|k: int| 0 <= k < done@.len() ==> #[trigger] done@[k]@ == ws_scan(line@.take(i as int)).0[k],
            cur@ == ws_scan(line@.take(i as int)).1,
        decreases line.len() - i,
    {
        let c = line[i];
        assert(line@.take(i as int + 1).drop_last() == line@.take(i as int));
        if char_is_ws(c) {
            if cur.len() > 0 {
                done.push(cur);
            }
            cur = Vec::new();
        } else {
            cur.push(c);
        }
        i = i + 1;
    }
    assert(line@.take(line.len() as int) == line@);
    if cur.len() > 0 {
        done.push(cur);
    }
    assert(texts_view(done@) =~= ws_tokens(line@));
    done
}

/// Whether a token is exactly the given ASCII text.
pub fn token_is(tok: &Vec<char>, text: &str) -> (r: bool)
    ensures
        r == (tok@ == text@),
{
    let t = str_chars(text);
    if tok.len() != t.len() {
        return false;
    }
    let mut i: usize = 0;
    while i < tok.len()
        invariant
            0 <= i <= tok.len(),
            tok.len() == t.len(),
            t@ == text@,
            forall|k: int| 0 <= k < i ==> tok@[k] == t@[k],
        decreases tok.len() - i,
    {
        if tok[i] != t[i] {
            return false;
        }
        i = i + 1;
    }
    assert(tok@ == t@);
    true
}

proof fn lemma_digits_value_prefix(s: Seq<char>, k: int)
    requires
        0 <= k <= s.len(),
    ensures
        digits_value(s.take(k)) <= digits_value(s),
    decreases s.len() - k,
{
    if k < s.len() {
        lemma_digits_value_prefix(s, k + 1);
        assert(s.take(k + 1).drop_last() == s.take(k));
    } else {
        assert(s.take(k) == s);
    }
}

/// Value of an all-digit token, or `None` once it reaches `2^64`.
fn digits_value_bounded(tok: &Vec<char>, start: usize) -> (r: Option<u128>)
    requires
        start <= tok.len(),
        all_digits(tok@.skip(start as int)),
    ensures
        match r {
            Some(v) => v == digits_value(tok@.skip(start as int)) && v < 0x1_0000_0000_0000_0000,
            None => digits_value(tok@.skip(start as int)) >= 0x1_0000_0000_0000_0000,
        },
{
    let ghost s = tok@.skip(start as int);
    let mut v: u128 = 0;
    let mut i: usize = start;
    while i < tok.len()
        invariant
            start <= i <= tok.len(),
            s == tok@.skip(start as int),
            all_digits(s),
            v == digits_value(s.take(i - start)),
            v < 0x1_0000_0000_0000_0000,
        decreases tok.len() - i,
    {
        let c = tok[i];
        assert(s[i - start] == c);
        assert(s.take(i - start + 1).drop_last() == s.take(i - start));
        let d = (c as u32 - '0' as u32) as u128;
        v = v * 10 + d;
        i = i + 1;
        if v >= 0x1_0000_0000_0000_0000 {
            proof {
                lemma_digits_value_prefix(s, i - start);
            }
            return None;
        }
    }
    assert(s.take(i - start) == s);
    Some(v)
}

/// `str::parse` on a token, for values whose magnitude is below `2^64`.
pub fn parse_token(tok: &Vec<char>, signed: bool) -> (r: Option<i128>)
    ensures
        match parse_integer(tok@, signed) {
            Some(v) => if -0x1_0000_0000_0000_0000 < v < 0x1_0000_0000_0000_0000 {
                r == Some(v as i128)
            } else {
                r is None
            },
            None => r is None,
        },
{
    if tok.len() == 0 {
        return None;
    }
    let first = tok[0];
    let prefixed = first == '+' || (signed && first == '-');
    assert(prefixed == (tok@[0] == '+' || (signed && tok@[0] == '-')));
    let start: usize = if prefixed { 1 } else { 0 };
    if start == 1 && tok.len() == 1 {
        return None;
    }
    let mut i: usize = start;
    while i < tok.len()
        invariant
            start <= i <= tok.len(),
            tok.len() > 0,
            start == 0 || start == 1,
            (start == 1) == (tok@[0] == '+' || (signed && tok@[0] == '-')),
            start == 1 ==> tok.len() > 1,
            forall|k: int| start <= k < i ==> is_digit(#[trigger] tok@[k]),
        decreases tok.len() - i,
    {
        let c = tok[i];
        if !('0' <= c && c <= '9') {
            proof {
                assert(tok@.skip(start as int)[i - start] == c);
                assert(!is_digit(tok@.skip(start as int)[i - start]));
                assert(!all_digits(tok@.skip(start as int)));
                if start == 0 {
                    assert(tok@.skip(0) == tok@);
                    assert(!all_digits(tok@));
                }
            }
            return None;
        }
        i = i + 1;
    }
    assert forall|k: int| 0 <= k < tok@.skip(start as int).len() implies is_digit(
        #[trigger] tok@.skip(start as int)[k],
    ) by {
        assert(tok@.skip(start as int)[k] == tok@[k + start]);
    }
    if start == 0 {
        assert(tok@.skip(0) == tok@);
    }
    match digits_value_bounded(tok, start) {
        None => None,
        Some(v) => {
            if start == 1 && first == '-' {
                Some(-(v as i128))
            } else {
                Some(v as i128)
            }
        },
    }
}

pub fn parse_i64_token(tok: &Vec<char>) -> (r: Option<i64>)
    ensures
        r == parse_i64(tok@),
{
    match parse_token(tok, true) {
        Some(v) => if i64::MIN as i128 <= v && v <= i64::MAX as i128 {
            Some(v as i64)
        } else {
            None
        },
        None => None,
    }
}

pub fn parse_i32_token(tok: &Vec<char>) -> (r: Option<i32>)
    ensures
        r == parse_i32(tok@),
{
    match parse_token(tok, true) {
        Some(v) => if i32::MIN as i128 <= v && v <= i32::MAX as i128 {
            Some(v as i32)
        } else {
            None
        },
        None => None,
    }
}

pub fn parse_u32_token(tok: &Vec<char>) -> (r: Option<u32>)
    ensures
        r == parse_u32(tok@),
{
    match parse_token(tok, false) {
        Some(v) => if 0 <= v && v <= u32::MAX as i128 {
            Some(v as u32)
        } else {
            None
        },
        None => None,
    }
}

} // verus!
