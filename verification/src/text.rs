//! Text as sequences of characters, and decimal numbers in it.
use vstd::prelude::*;
use vstd::utf8::{decode_utf8, is_scalar, valid_utf8};

verus! {

/// The character of a decimal digit.
pub open spec fn digit(d: nat) -> char {
    (48 + d) as char
}

/// The decimal digits of a number, without leading zeros.
pub open spec fn dec(n: nat) -> Seq<char>
    decreases n,
{
    if n < 10 {
        seq![digit(n)]
    } else {
        dec(n / 10).push(digit(n % 10))
    }
}

/// Numbers in decimal, separated by a comma and a space.
pub open spec fn dec_list(s: Seq<usize>) -> Seq<char>
    decreases s.len(),
{
    if s.len() == 0 {
        Seq::empty()
    } else if s.len() == 1 {
        dec(s[0] as nat)
    } else {
        dec_list(s.drop_last()) + seq![',', ' '] + dec(s.last() as nat)
    }
}

/// `String::push`: the character stands at the end.
#[verifier::external_body]
pub(crate) fn push_char(s: &mut String, c: char)
    ensures
        final(s)@ == old(s)@.push(c),
{
    s.push(c)
}

/// `char::from_u32`: succeeds exactly on Unicode scalar values, with the
/// character of that value.
#[verifier::external_body]
pub(crate) fn char_of(code: u32) -> (r: Option<char>)
    ensures
        r is Some <==> is_scalar(code),
        r is Some ==> r->0 as u32 == code,
{
    char::from_u32(code)
}

/// `String::from_utf8`: succeeds exactly on well-formed bytes, with the
/// characters they encode.
#[verifier::external_body]
pub(crate) fn string_from_utf8(bytes: Vec<u8>) -> (r: Option<String>)
    ensures
        r is Some <==> valid_utf8(bytes@),
        r is Some ==> r->0@ == decode_utf8(bytes@),
{
    String::from_utf8(bytes).ok()
}

/// The characters of a string.
pub fn chars_of(s: &str) -> (v: Vec<char>)
    ensures
        v@ == s@,
{
    let mut v: Vec<char> = Vec::new();
    for c in it: s.chars()
        invariant
            it.seq() == s@,
            v@ == s@.subrange(0, it.index() as int),
    {
        proof {
            assert(s@.subrange(0, it.index() + 1) =~= s@.subrange(0, it.index() as int).push(c));
        }
        v.push(c);
    }
    assert(s@.subrange(0, s@.len() as int) =~= s@);
    v
}

/// The string with the given characters.
pub fn string_of(v: &[char]) -> (s: String)
    ensures
        s@ == v@,
{
    let mut s: String = String::new();
    let mut i: usize = 0;
    while i < v.len()
        invariant
            i <= v.len(),
            s@ == v@.subrange(0, i as int),
        decreases v.len() - i,
    {
        push_char(&mut s, v[i]);
        proof {
            assert(v@.subrange(0, i + 1) =~= v@.subrange(0, i as int).push(v@[i as int]));
        }
        i = i + 1;
    }
    assert(v@.subrange(0, v@.len() as int) =~= v@);
    s
}

/// A letter of the ASCII range in lower case.
pub open spec fn lower_char(c: char) -> char {
    if 65 <= c as int <= 90 {
        (c as int + 32) as char
    } else {
        c
    }
}

/// The text with the letters of the ASCII range in lower case.
pub open spec fn lower(s: Seq<char>) -> Seq<char> {
    s.map_values(|c: char| lower_char(c))
}

/// The text with the letters of the ASCII range in lower case.
pub fn to_lower(s: &str) -> (r: String)
    ensures
        r@ == lower(s@),
{
    let v: Vec<char> = chars_of(s);
    let mut r: String = String::new();
    let mut i: usize = 0;
    while i < v.len()
        invariant
            i <= v@.len(),
            v@ == s@,
            r@ == lower(s@).subrange(0, i as int),
        decreases v@.len() - i,
    {
        let c: char = v[i];
        let d: char = if 'A' <= c && c <= 'Z' {
            (c as u8 + 32) as char
        } else {
            c
        };
        push_char(&mut r, d);
        proof {
            assert(lower(s@).subrange(0, i + 1) =~= lower(s@).subrange(0, i as int).push(
                lower(s@)[i as int],
            ));
        }
        i = i + 1;
    }
    assert(r@ =~= lower(s@));
    r
}

/// Whether two texts are the same.
pub fn same_text(a: &str, b: &str) -> (r: bool)
    ensures
        r == (a@ == b@),
{
    a.to_owned() == b.to_owned()
}

/// Two pieces of text, one behind the other.
pub fn joined(a: &str, b: &str) -> (s: String)
    ensures
        s@ == a@ + b@,
{
    let mut s: String = a.to_owned();
    s.append(b);
    s
}

/// Appends a number in decimal.
pub fn push_dec(s: &mut String, n: u64)
    ensures
        final(s)@ == old(s)@ + dec(n as nat),
    decreases n,
{
    if n >= 10 {
        push_dec(s, n / 10);
    }
    let d: u8 = (n % 10) as u8;
    let c: char = (48u8 + d) as char;
    push_char(s, c);
    proof {
        let before = old(s)@;
        if n >= 10 {
            assert((before + dec((n / 10) as nat)).push(c) =~= before + dec(n as nat));
        } else {
            assert(before.push(c) =~= before + dec(n as nat));
        }
    }
}

/// The text between two pieces with a number in decimal.
pub fn with_number(before: &str, n: usize, after: &str) -> (s: String)
    ensures
        s@ == before@ + dec(n as nat) + after@,
{
    let mut s: String = before.to_owned();
    push_dec(&mut s, n as u64);
    s.append(after);
    s
}

/// Appends numbers in decimal, separated by a comma and a space.
pub fn push_dec_list(s: &mut String, v: &[usize])
    ensures
        final(s)@ == old(s)@ + dec_list(v@),
{
    let ghost before = s@;
    let mut i: usize = 0;
    assert(before + dec_list(v@.subrange(0, 0)) =~= before);
    while i < v.len()
        invariant
            i <= v.len(),
            s@ == before + dec_list(v@.subrange(0, i as int)),
        decreases v.len() - i,
    {
        let ghost start = s@;
        if i > 0 {
            push_char(s, ',');
            push_char(s, ' ');
        }
        push_dec(s, v[i] as u64);
        proof {
            let next = v@.subrange(0, i + 1);
            assert(next.drop_last() =~= v@.subrange(0, i as int));
            if i > 0 {
                assert(s@ =~= before + dec_list(next));
            } else {
                assert(s@ =~= before + dec_list(next));
            }
        }
        i = i + 1;
    }
    assert(v@.subrange(0, v@.len() as int) =~= v@);
}

} // verus!
