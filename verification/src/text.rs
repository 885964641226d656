//! Small text utilities shared by the parser, the error accumulator and the
//! renderers: conversions between `&str`, `Vec<char>` and `String`, string
//! equality, and decimal rendering of integers.

use vstd::prelude::*;

verus! {

/// Whether the standard library counts a character as whitespace; the
/// parser skips such characters wherever it expects a specific token.
pub uninterp spec fn is_whitespace_char(c: char) -> bool;

/// Relies on `char::is_whitespace`: whether the character has the Unicode
/// White_Space property, a function of the character alone.  The property
/// holds of the space, tab, line feed and carriage return, and of no
/// printable ASCII character other than the space — so digits, letters
/// and the grammar's operator characters are never skipped.
#[verifier::external_body]
pub fn char_is_whitespace(c: char) -> (r: bool)
    ensures
        r == is_whitespace_char(c),
        c == ' ' || c == '\t' || c == '\n' || c == '\r' ==> r,
        '!' <= c <= '~' ==> !r,
{
    c.is_whitespace()
}

/// Builds a `String` out of a vector of characters.
///
/// Relies on `String`'s `FromIterator<&char>` implementation: collecting
/// the characters of a slice yields the string with exactly those
/// characters in order.
#[verifier::external_body]
pub fn chars_to_string(v: &Vec<char>) -> (r: String)
    ensures
        r@ == v@,
{
    v.iter().collect()
}

/// The characters of a string slice, gathered into a vector.
pub fn str_to_chars(s: &str) -> (r: Vec<char>)
    ensures
        r@ == s@,
{
    let n: usize = s.unicode_len();
    let mut r: Vec<char> = Vec::new();
    let mut i: usize = 0;
    while i < n
        invariant
            i <= n,
            n == s@.len(),
            r@ == s@.subrange(0, i as int),
        decreases n - i,
    {
        let c: char = s.get_char(i);
        r.push(c);
        i = i + 1;
        proof {
            assert(r@ =~= s@.subrange(0, i as int));
        }
    }
    proof {
        assert(r@ =~= s@);
    }
    r
}

/// A one-character string.
pub fn char_string(c: char) -> (r: String)
    ensures
        r@ == seq![c],
{
    let v: Vec<char> = vec![c];
    chars_to_string(&v)
}

/// Character-by-character string equality.
pub fn str_eq(a: &str, b: &str) -> (r: bool)
    ensures
        r == (a@ == b@),
{
    let na: usize = a.unicode_len();
    let nb: usize = b.unicode_len();
    if na != nb {
        return false;
    }
    let mut i: usize = 0;
    while i < na
        invariant
            i <= na,
            na == a@.len(),
            na == b@.len(),
            forall|j: int| 0 <= j < i ==> a@[j] == b@[j],
        decreases na - i,
    {
        if a.get_char(i) != b.get_char(i) {
            return false;
        }
        i = i + 1;
    }
    proof {
        assert(a@ =~= b@);
    }
    true
}

/// The decimal digit character for a value below ten.
pub open spec fn digit_char(d: int) -> char
    recommends
        0 <= d < 10,
{
    if d == 0 { '0' }
    else if d == 1 { '1' }
    else if d == 2 { '2' }
    else if d == 3 { '3' }
    else if d == 4 { '4' }
    else if d == 5 { '5' }
    else if d == 6 { '6' }
    else if d == 7 { '7' }
    else if d == 8 { '8' }
    else { '9' }
}

/// The decimal digit sequence of a nonnegative integer, without sign.
pub open spec fn dec_seq(n: int) -> Seq<char>
    recommends
        n >= 0,
    decreases n,
{
    if n <= 0 {
        seq![]
    } else {
        dec_seq(n / 10).push(digit_char(n % 10))
    }
}

/// The decimal rendering of an unsigned integer: `"0"` for zero, otherwise
/// its digits with no leading zero.
pub open spec fn u64_dec(n: u64) -> Seq<char> {
    if n == 0 {
        seq!['0']
    } else {
        dec_seq(n as int)
    }
}

/// The decimal rendering of a signed integer, with a leading `-` when
/// negative.
pub open spec fn i64_dec(n: i64) -> Seq<char> {
    if n >= 0 {
        u64_dec(n as u64)
    } else {
        seq!['-'] + dec_seq(-(n as int))
    }
}

fn digit_to_char(d: u64) -> (c: char)
    requires
        d < 10,
    ensures
        c == digit_char(d as int),
{
    match d {
        0u64 => '0',
        1u64 => '1',
        2u64 => '2',
        3u64 => '3',
        4u64 => '4',
        5u64 => '5',
        6u64 => '6',
        7u64 => '7',
        8u64 => '8',
        _ => '9',
    }
}

/// The decimal digits of `n`, as characters.
pub fn u64_chars(n: u64) -> (r: Vec<char>)
    ensures
        r@ == u64_dec(n),
{
    if n == 0 {
        let r: Vec<char> = vec!['0'];
        proof {
            assert(r@ =~= u64_dec(n));
        }
        return r;
    }
    let mut rev: Vec<char> = Vec::new();
    let mut m: u64 = n;
    while m > 0
        invariant
            dec_seq(n as int) == dec_seq(m as int) + rev@.reverse(),
        decreases m,
    {
        let d: char = digit_to_char(m % 10);
        proof {
            assert(dec_seq(m as int) == dec_seq(m as int / 10).push(digit_char(m as int % 10)));
            assert(dec_seq(m as int / 10).push(digit_char(m as int % 10)) + rev@.reverse()
                =~= dec_seq(m as int / 10) + rev@.push(digit_char(m as int % 10)).reverse());
        }
        rev.push(d);
        m = m / 10;
    }
    let mut r: Vec<char> = Vec::new();
    let mut i: usize = rev.len();
    proof {
        assert(dec_seq(n as int) =~= rev@.reverse());
    }
    while i > 0
        invariant
            i <= rev@.len(),
            r@ == rev@.reverse().subrange(0, (rev@.len() - i) as int),
        decreases i,
    {
        i = i - 1;
        r.push(rev[i]);
        proof {
            assert(rev@.reverse()[(rev@.len() - i - 1) as int] == rev@[i as int]);
            assert(r@ =~= rev@.reverse().subrange(0, (rev@.len() - i) as int));
        }
    }
    proof {
        assert(r@ =~= rev@.reverse());
    }
    r
}

/// The decimal rendering of an unsigned integer as a `String`.
pub fn u64_string(n: u64) -> (r: String)
    ensures
        r@ == u64_dec(n),
{
    let v: Vec<char> = u64_chars(n);
    chars_to_string(&v)
}

/// The decimal rendering of a signed integer as a `String`.
pub fn i64_string(n: i64) -> (r: String)
    ensures
        r@ == i64_dec(n),
{
    if n >= 0 {
        u64_string(n as u64)
    } else {
        let mut v: Vec<char> = vec!['-'];
        let m: u64 = (-(n as i128)) as u64;
        let mut d: Vec<char> = u64_chars(m);
        v.append(&mut d);
        proof {
            assert(v@ =~= i64_dec(n));
        }
        chars_to_string(&v)
    }
}

} // verus!
