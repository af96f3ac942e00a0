//! Character-level helpers for strings: splitting a string into its
//! characters and building a string from characters.

use vstd::prelude::*;
use vstd::std_specs::iter::IteratorSpec;
use vstd::string::*;

verus! {

broadcast use vstd::string::group_string_axioms;

/// `std::string::String::push`: appends one character at the end of the
/// string; the contract says that the characters of the string become the old
/// ones followed by `c`.
#[verifier::external_body]
pub(crate) fn string_push(s: &mut String, c: char)
    ensures
        final(s)@ == old(s)@.push(c),
{
    s.push(c)
}

/// `char::from_u32`: the character whose code point is `cp`, or `None` when
/// `cp` is a surrogate (U+D800 to U+DFFF) or above U+10FFFF; the contract
/// says exactly that.
#[verifier::external_body]
pub(crate) fn char_from_u32(cp: u32) -> (res: Option<char>)
    ensures
        res is Some <==> (cp <= 0x10FFFF && !(0xD800 <= cp <= 0xDFFF)),
        res matches Some(c) ==> c as u32 == cp,
{
    char::from_u32(cp)
}

/// `std::str::from_utf8`: the bytes read as UTF-8 text, or `None` when they
/// are not valid UTF-8; the contract says exactly that.
#[verifier::external_body]
pub(crate) fn str_from_utf8(bytes: &[u8]) -> (res: Option<&str>)
    ensures
        res is Some <==> vstd::utf8::valid_utf8(bytes@),
        res matches Some(s) ==> s@ == vstd::utf8::decode_utf8(bytes@),
{
    std::str::from_utf8(bytes).ok()
}

/// The characters of `s`, in order.
pub fn chars_of(s: &str) -> (res: Vec<char>)
    ensures
        res@ == s@,
{
    let mut out: Vec<char> = Vec::new();
    for c in it: s.chars()
        invariant
            it.seq() == s@,
            out@ == s@.take(it.index() as int),
    {
        out.push(c);
        assert(out@ =~= s@.take(it.index() + 1));
    }
    assert(out@ =~= s@);
    out
}

/// The number of characters of `s`.
pub fn char_count(s: &str) -> (res: usize)
    ensures
        res == s@.len(),
{
    chars_of(s).len()
}

/// The string made of the characters `chars[from..to]`.
pub fn string_of_chars(chars: &[char], from: usize, to: usize) -> (res: String)
    requires
        from <= to <= chars@.len(),
    ensures
        res@ == chars@.subrange(from as int, to as int),
{
    let mut out = String::new();
    let mut i = from;
    while i < to
        invariant
            from <= i <= to <= chars@.len(),
            out@ == chars@.subrange(from as int, i as int),
        decreases to - i,
    {
        string_push(&mut out, chars[i]);
        assert(out@ =~= chars@.subrange(from as int, i + 1));
        i = i + 1;
    }
    out
}

} // verus!
