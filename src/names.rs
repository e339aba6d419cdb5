//! Names folded for use as user names.

use vstd::prelude::*;
use vstd::string::StrSliceExecFns;

verus! {

/// Whether a char is alphabetic or numeric in the Unicode sense.
pub uninterp spec fn alphanumeric(c: char) -> bool;

/// Relies on char::is_alphanumeric: Unicode Alphabetic or Numeric.
#[verifier::external_body]
fn is_alphanumeric(c: char) -> (r: bool)
    ensures
        r == alphanumeric(c),
{
    c.is_alphanumeric()
}

/// Relies on String::push: appends one char at the end.
#[verifier::external_body]
fn push_char(s: &mut String, c: char)
    ensures
        final(s)@ == old(s)@.push(c),
{
    s.push(c)
}

pub open spec fn ascii_lower(c: char) -> char {
    if 'A' <= c <= 'Z' {
        (((c as u8) + 32) as u8) as char
    } else {
        c
    }
}

fn lower_ascii(c: char) -> (r: char)
    ensures
        r == ascii_lower(c),
{
    if 'A' <= c && c <= 'Z' {
        let b = c as u8;
        assert(b <= 90) by {
            assert(c as u32 <= 90);
        }
        (b + 32) as char
    } else {
        c
    }
}

/// A char with its accent dropped (Spanish vowels and n-tilde), in lower case.
pub open spec fn fold_char(c: char) -> char {
    if c == '\u{e1}' || c == '\u{e0}' || c == '\u{e4}' || c == '\u{e2}' || c == '\u{c1}' || c == '\u{c0}' || c == '\u{c4}' || c == '\u{c2}' {
        'a'
    } else if c == '\u{e9}' || c == '\u{e8}' || c == '\u{eb}' || c == '\u{ea}' || c == '\u{c9}' || c == '\u{c8}' || c == '\u{cb}' || c == '\u{ca}' {
        'e'
    } else if c == '\u{ed}' || c == '\u{ec}' || c == '\u{ef}' || c == '\u{ee}' || c == '\u{cd}' || c == '\u{cc}' || c == '\u{cf}' || c == '\u{ce}' {
        'i'
    } else if c == '\u{f3}' || c == '\u{f2}' || c == '\u{f6}' || c == '\u{f4}' || c == '\u{d3}' || c == '\u{d2}' || c == '\u{d6}' || c == '\u{d4}' {
        'o'
    } else if c == '\u{fa}' || c == '\u{f9}' || c == '\u{fc}' || c == '\u{fb}' || c == '\u{da}' || c == '\u{d9}' || c == '\u{dc}' || c == '\u{db}' {
        'u'
    } else if c == '\u{f1}' || c == '\u{d1}' {
        'n'
    } else {
        ascii_lower(c)
    }
}

fn fold(c: char) -> (r: char)
    ensures
        r == fold_char(c),
{
    if c == '\u{e1}' || c == '\u{e0}' || c == '\u{e4}' || c == '\u{e2}' || c == '\u{c1}' || c == '\u{c0}' || c == '\u{c4}' || c == '\u{c2}' {
        'a'
    } else if c == '\u{e9}' || c == '\u{e8}' || c == '\u{eb}' || c == '\u{ea}' || c == '\u{c9}' || c == '\u{c8}' || c == '\u{cb}' || c == '\u{ca}' {
        'e'
    } else if c == '\u{ed}' || c == '\u{ec}' || c == '\u{ef}' || c == '\u{ee}' || c == '\u{cd}' || c == '\u{cc}' || c == '\u{cf}' || c == '\u{ce}' {
        'i'
    } else if c == '\u{f3}' || c == '\u{f2}' || c == '\u{f6}' || c == '\u{f4}' || c == '\u{d3}' || c == '\u{d2}' || c == '\u{d6}' || c == '\u{d4}' {
        'o'
    } else if c == '\u{fa}' || c == '\u{f9}' || c == '\u{fc}' || c == '\u{fb}' || c == '\u{da}' || c == '\u{d9}' || c == '\u{dc}' || c == '\u{db}' {
        'u'
    } else if c == '\u{f1}' || c == '\u{d1}' {
        'n'
    } else {
        lower_ascii(c)
    }
}

/// The alphanumeric chars of a name, accents dropped, in lower case.
pub open spec fn normalized(s: Seq<char>) -> Seq<char>
    decreases s.len(),
{
    if s.len() == 0 {
        seq![]
    } else if alphanumeric(s.last()) {
        normalized(s.drop_last()).push(fold_char(s.last()))
    } else {
        normalized(s.drop_last())
    }
}

/// Folds a name for a user name: keeps letters and digits, drops accents, lower case.
pub fn normalize_name(name: &str) -> (r: String)
    ensures
        r@ == normalized(name@),
{
    let n = name.unicode_len();
    let mut r = String::new();
    let mut i: usize = 0;
    while i < n
        invariant
            0 <= i <= n,
            n == name@.len(),
            r@ == normalized(name@.subrange(0, i as int)),
        decreases n - i,
    {
        let c = name.get_char(i);
        proof {
            assert(name@.subrange(0, i + 1).drop_last() =~= name@.subrange(0, i as int));
            assert(name@.subrange(0, i + 1).last() == c);
        }
        if is_alphanumeric(c) {
            push_char(&mut r, fold(c));
        }
        i += 1;
    }
    proof {
        assert(name@.subrange(0, n as int) =~= name@);
    }
    r
}

} // verus!
