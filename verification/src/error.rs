//! Errors of dictionary loading and lexicon handling.

use vstd::prelude::*;
use vstd::string::*;

verus! {

/// Errors of the lexicon set.
#[derive(Debug, PartialEq, Eq, Clone, Copy)]
pub enum LexiconSetError {
    /// A word id does not fit in the 28 bits of a word id (word, dictionary).
    TooLargeWordId(u32, usize),
    /// A dictionary id does not fit in the 4 bits of a word id.
    TooLargeDictionaryId(usize),
    /// No more user dictionaries can be added.
    TooManyDictionaries,
}

/// Errors met while reading a dictionary.
#[derive(Debug)]
pub enum SudachiError {
    /// A section of the dictionary is malformed; the string names the section.
    InvalidDictionaryGrammar(String),
    /// A byte range lies outside the dictionary: start and end.
    InvalidRange(usize, usize),
    /// Compressed or encoded data could not be decoded; the string says what.
    InvalidData(String),
    /// An error of the lexicon set.
    LexiconSetError(LexiconSetError),
    /// A dictionary could not be built; the string says what failed.
    DictionaryCompilationError(String),
}

/// The decimal digit for `d` (below 10).
pub open spec fn digit_char(d: nat) -> char {
    if d == 0 { '0' } else if d == 1 { '1' } else if d == 2 { '2' } else if d == 3 { '3' }
    else if d == 4 { '4' } else if d == 5 { '5' } else if d == 6 { '6' } else if d == 7 { '7' }
    else if d == 8 { '8' } else { '9' }
}

/// The decimal text of `n`: its digits, most significant first, without
/// leading zeros (a single `0` for zero).
pub open spec fn decimal(n: nat) -> Seq<char>
    decreases n,
{
    if n < 10 {
        seq![digit_char(n)]
    } else {
        decimal(n / 10).push(digit_char(n % 10))
    }
}

fn digit(d: u64) -> (res: char)
    requires
        d < 10,
    ensures
        res == digit_char(d as nat),
{
    if d == 0 { '0' } else if d == 1 { '1' } else if d == 2 { '2' } else if d == 3 { '3' }
    else if d == 4 { '4' } else if d == 5 { '5' } else if d == 6 { '6' } else if d == 7 { '7' }
    else if d == 8 { '8' } else { '9' }
}

/// Appends the decimal text of `n` to `s`.
fn push_decimal(s: &mut String, n: u64)
    ensures
        final(s)@ == old(s)@ + decimal(n as nat),
    decreases n,
{
    if n >= 10 {
        push_decimal(s, n / 10);
    }
    crate::text::string_push(s, digit(n % 10));
    proof {
        if n < 10 {
            assert(decimal(n as nat) == seq![digit_char(n as nat)]);
        }
    }
    assert(final(s)@ =~= old(s)@ + decimal(n as nat));
}

/// The text of a lexicon set error.
pub open spec fn lexicon_set_text(e: LexiconSetError) -> Seq<char> {
    match e {
        LexiconSetError::TooLargeWordId(w, d) => "too large word_id "@ + decimal(w as nat)
            + " in dict "@ + decimal(d as nat),
        LexiconSetError::TooLargeDictionaryId(d) => "too large dictionary_id "@ + decimal(d as nat),
        LexiconSetError::TooManyDictionaries => "too many user dictionaries"@,
    }
}

impl LexiconSetError {
    /// A human-readable description of the error.
    pub fn message(&self) -> (res: String)
        ensures
            res@ == lexicon_set_text(*self),
    {
        match self {
            LexiconSetError::TooLargeWordId(w, d) => {
                let mut s = String::from_str("too large word_id ");
                push_decimal(&mut s, *w as u64);
                s.append(" in dict ");
                push_decimal(&mut s, *d as u64);
                s
            },
            LexiconSetError::TooLargeDictionaryId(d) => {
                let mut s = String::from_str("too large dictionary_id ");
                push_decimal(&mut s, *d as u64);
                s
            },
            LexiconSetError::TooManyDictionaries => String::from_str("too many user dictionaries"),
        }
    }
}

impl SudachiError {
    /// A human-readable description of the error.
    pub fn message(&self) -> (res: String)
        ensures
            self matches SudachiError::InvalidDictionaryGrammar(ctx) ==> res@ == ctx@
                + ": invalid grammar"@,
            self matches SudachiError::InvalidRange(a, b) ==> res@ == "invalid range: "@ + decimal(
                a as nat,
            ) + ".."@ + decimal(b as nat),
            self matches SudachiError::InvalidData(what) ==> res@ == what@,
            self matches SudachiError::LexiconSetError(e) ==> res@ == lexicon_set_text(*e),
            self matches SudachiError::DictionaryCompilationError(what) ==> res@
                == "dictionary build failed: "@ + what@,
    {
        match self {
            SudachiError::InvalidDictionaryGrammar(ctx) => {
                let mut s = ctx.clone();
                s.append(": invalid grammar");
                s
            },
            SudachiError::InvalidRange(a, b) => {
                let mut s = String::from_str("invalid range: ");
                push_decimal(&mut s, *a as u64);
                s.append("..");
                push_decimal(&mut s, *b as u64);
                s
            },
            SudachiError::InvalidData(what) => what.clone(),
            SudachiError::LexiconSetError(e) => e.message(),
            SudachiError::DictionaryCompilationError(what) => {
                let mut s = String::from_str("dictionary build failed: ");
                s.append(what.as_str());
                s
            },
        }
    }
}

/// A dictionary section error with the given context.
pub fn grammar_error(context: &str) -> (res: SudachiError)
    ensures
        res matches SudachiError::InvalidDictionaryGrammar(ctx) && ctx@ == context@,
{
    SudachiError::InvalidDictionaryGrammar(String::from_str(context))
}

/// A decoding error with the given description.
pub fn data_error(what: &str) -> (res: SudachiError)
    ensures
        res matches SudachiError::InvalidData(w) && w@ == what@,
{
    SudachiError::InvalidData(String::from_str(what))
}

} // verus!
