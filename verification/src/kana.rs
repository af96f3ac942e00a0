//! Kana (hiragana/katakana) conversion utilities.
//!
//! These are primarily intended for IME use, where the user types hiragana
//! but dictionary readings are stored in katakana.

use vstd::prelude::*;

use crate::text::{char_count, char_from_u32, chars_of, string_of_chars, string_push};

verus! {

broadcast use vstd::utf8::char_u32_cast;

/// Hiragana codepoint range: U+3041 – U+3096
pub const HIRAGANA_START: u32 = 0x3041;

pub const HIRAGANA_END: u32 = 0x3096;

/// Katakana codepoint range: U+30A1 – U+30F6
pub const KATAKANA_START: u32 = 0x30A1;

pub const KATAKANA_END: u32 = 0x30F6;

/// Offset between matching hiragana and katakana codepoints
pub const KANA_OFFSET: u32 = 0x60;

/// `c` lies in the hiragana block U+3041 – U+3096.
pub open spec fn is_hiragana_spec(c: char) -> bool {
    HIRAGANA_START <= c as u32 <= HIRAGANA_END
}

/// `c` lies in the katakana block U+30A1 – U+30F6.
pub open spec fn is_katakana_spec(c: char) -> bool {
    KATAKANA_START <= c as u32 <= KATAKANA_END
}

/// The katakana counterpart of a hiragana character; any other character
/// is its own image.
pub open spec fn katakana_of(c: char) -> char {
    if is_hiragana_spec(c) {
        ((c as u32 + KANA_OFFSET) as u32) as char
    } else {
        c
    }
}

/// The hiragana counterpart of a katakana character; any other character
/// is its own image.
pub open spec fn hiragana_of(c: char) -> char {
    if is_katakana_spec(c) {
        ((c as u32 - KANA_OFFSET) as u32) as char
    } else {
        c
    }
}

/// `s` with every hiragana character turned into katakana.
pub open spec fn katakana_str(s: Seq<char>) -> Seq<char> {
    s.map_values(|c: char| katakana_of(c))
}

/// `s` with every katakana character turned into hiragana.
pub open spec fn hiragana_str(s: Seq<char>) -> Seq<char> {
    s.map_values(|c: char| hiragana_of(c))
}

/// Returns `true` if `c` is a hiragana or katakana character.
pub fn is_kana(c: char) -> (res: bool)
    ensures
        res == (is_hiragana_spec(c) || is_katakana_spec(c)),
{
    let cp = c as u32;
    (cp >= HIRAGANA_START && cp <= HIRAGANA_END) || (cp >= KATAKANA_START && cp <= KATAKANA_END)
}

/// Convert a single character to its katakana equivalent.
///
/// If `c` is hiragana it is shifted to the corresponding katakana codepoint.
/// All other characters (kanji, ASCII, already-katakana, etc.) are returned
/// unchanged.
pub fn to_katakana_char(c: char) -> (res: char)
    ensures
        res == katakana_of(c),
{
    let cp = c as u32;
    if cp >= HIRAGANA_START && cp <= HIRAGANA_END {
        match char_from_u32(cp + KANA_OFFSET) {
            Some(k) => {
                proof {
                    vstd::utf8::char_u32_cast(k, (cp + KANA_OFFSET) as u32);
                }
                k
            },
            None => c,
        }
    } else {
        c
    }
}

/// Convert a single katakana character to its hiragana equivalent; all
/// other characters are returned unchanged.
fn to_hiragana_char(c: char) -> (res: char)
    ensures
        res == hiragana_of(c),
{
    let cp = c as u32;
    if cp >= KATAKANA_START && cp <= KATAKANA_END {
        match char_from_u32(cp - KANA_OFFSET) {
            Some(h) => {
                proof {
                    vstd::utf8::char_u32_cast(h, (cp - KANA_OFFSET) as u32);
                }
                h
            },
            None => c,
        }
    } else {
        c
    }
}

/// Convert hiragana characters to their katakana equivalents.
///
/// Non-hiragana characters (including existing katakana, kanji, ASCII, etc.)
/// are passed through unchanged.
pub fn hiragana_to_katakana(s: &str) -> (res: String)
    ensures
        res@ == katakana_str(s@),
{
    let chars = chars_of(s);
    let mut out = String::new();
    let mut i: usize = 0;
    while i < chars.len()
        invariant
            i <= chars@.len(),
            chars@ == s@,
            out@ == katakana_str(s@.take(i as int)),
        decreases chars.len() - i,
    {
        let k = to_katakana_char(chars[i]);
        string_push(&mut out, k);
        assert(out@ =~= katakana_str(s@.take(i + 1)));
        i = i + 1;
    }
    assert(s@.take(i as int) =~= s@);
    out
}

/// Convert katakana characters to their hiragana equivalents.
///
/// Non-katakana characters (including existing hiragana, kanji, ASCII, etc.)
/// are passed through unchanged.
pub fn katakana_to_hiragana(s: &str) -> (res: String)
    ensures
        res@ == hiragana_str(s@),
{
    let chars = chars_of(s);
    let mut out = String::new();
    let mut i: usize = 0;
    while i < chars.len()
        invariant
            i <= chars@.len(),
            chars@ == s@,
            out@ == hiragana_str(s@.take(i as int)),
        decreases chars.len() - i,
    {
        let h = to_hiragana_char(chars[i]);
        string_push(&mut out, h);
        assert(out@ =~= hiragana_str(s@.take(i + 1)));
        i = i + 1;
    }
    assert(s@.take(i as int) =~= s@);
    out
}

/// Character-level kana round trips and the blocks that the conversions
/// land in.
pub proof fn lemma_kana_char_round_trip(c: char)
    ensures
        is_hiragana_spec(c) ==> is_katakana_spec(katakana_of(c)) && hiragana_of(katakana_of(c))
            == c,
        is_katakana_spec(c) ==> is_hiragana_spec(hiragana_of(c)) && katakana_of(hiragana_of(c))
            == c,
        !is_hiragana_spec(katakana_of(c)),
        !is_katakana_spec(hiragana_of(c)),
{
    vstd::utf8::char_u32_cast(c, c as u32);
    if is_hiragana_spec(c) {
        let u = (c as u32 + KANA_OFFSET) as u32;
        assert((u as char) as u32 == u);
    }
    if is_katakana_spec(c) {
        let u = (c as u32 - KANA_OFFSET) as u32;
        assert((u as char) as u32 == u);
    }
}

/// Kana round trip from hiragana: for text without katakana, converting to
/// katakana and back gives the text back.
pub proof fn lemma_hiragana_round_trip(s: Seq<char>)
    requires
        forall|i: int| 0 <= i < s.len() ==> !is_katakana_spec(#[trigger] s[i]),
    ensures
        hiragana_str(katakana_str(s)) == s,
{
    assert forall|i: int| 0 <= i < s.len() implies hiragana_str(katakana_str(s))[i] == s[i] by {
        lemma_kana_char_round_trip(s[i]);
    }
    assert(hiragana_str(katakana_str(s)) =~= s);
}

/// Kana round trip from katakana: for text without hiragana, converting to
/// hiragana and back gives the text back.
pub proof fn lemma_katakana_round_trip(s: Seq<char>)
    requires
        forall|i: int| 0 <= i < s.len() ==> !is_hiragana_spec(#[trigger] s[i]),
    ensures
        katakana_str(hiragana_str(s)) == s,
{
    assert forall|i: int| 0 <= i < s.len() implies katakana_str(hiragana_str(s))[i] == s[i] by {
        lemma_kana_char_round_trip(s[i]);
    }
    assert(katakana_str(hiragana_str(s)) =~= s);
}

/// Converting to katakana twice is the same as converting once, and the
/// result holds no hiragana.
pub proof fn lemma_katakana_idempotent(s: Seq<char>)
    ensures
        katakana_str(katakana_str(s))
            == katakana_str(s),
        forall|i: int|
            0 <= i < s.len() ==> !is_hiragana_spec(
                #[trigger] katakana_str(s)[i],
            ),
{
    assert forall|i: int| 0 <= i < s.len() implies katakana_str(katakana_str(s))[i]
        == katakana_str(s)[i] && !is_hiragana_spec(#[trigger] katakana_str(s)[i]) by {
        lemma_kana_char_round_trip(s[i]);
    }
    assert(katakana_str(katakana_str(s)) =~= katakana_str(s));
}

/// Kana conversion by code point: a hiragana character (U+3041 – U+3096)
/// becomes the katakana 0x60 above it, a katakana character
/// (U+30A1 – U+30F6) the hiragana 0x60 below it, and every other character
/// stays as it is.
pub proof fn lemma_kana_codepoints(c: char)
    ensures
        0x3041 <= c as u32 <= 0x3096 ==> katakana_of(c) as u32 == c as u32 + 0x60,
        !(0x3041 <= c as u32 <= 0x3096) ==> katakana_of(c) == c,
        0x30A1 <= c as u32 <= 0x30F6 ==> hiragana_of(c) as u32 == c as u32 - 0x60,
        !(0x30A1 <= c as u32 <= 0x30F6) ==> hiragana_of(c) == c,
{
    if 0x3041 <= c as u32 <= 0x3096 {
        let u = (c as u32 + 0x60) as u32;
        assert((u as char) as u32 == u);
    }
    if 0x30A1 <= c as u32 <= 0x30F6 {
        let u = (c as u32 - 0x60) as u32;
        assert((u as char) as u32 == u);
    }
}

/// Text conversion by code point: converting to katakana keeps the length
/// and moves each hiragana character 0x60 up and no other; converting to
/// hiragana moves each katakana character 0x60 down and no other.
pub proof fn lemma_kana_str_codepoints(s: Seq<char>)
    ensures
        katakana_str(s).len() == s.len(),
        hiragana_str(s).len() == s.len(),
        forall|i: int|
            0 <= i < s.len() ==> (#[trigger] katakana_str(s)[i]) as u32 == if 0x3041 <= s[i] as u32
                <= 0x3096 {
                s[i] as u32 + 0x60
            } else {
                s[i] as u32 as int
            },
        forall|i: int|
            0 <= i < s.len() ==> (#[trigger] hiragana_str(s)[i]) as u32 == if 0x30A1 <= s[i] as u32
                <= 0x30F6 {
                s[i] as u32 - 0x60
            } else {
                s[i] as u32 as int
            },
{
    assert forall|i: int| 0 <= i < s.len() implies (#[trigger] katakana_str(s)[i]) as u32 == if 0x3041
        <= s[i] as u32 <= 0x3096 {
        s[i] as u32 + 0x60
    } else {
        s[i] as u32 as int
    } by {
        lemma_kana_codepoints(s[i]);
    }
    assert forall|i: int| 0 <= i < s.len() implies (#[trigger] hiragana_str(s)[i]) as u32 == if 0x30A1
        <= s[i] as u32 <= 0x30F6 {
        s[i] as u32 - 0x60
    } else {
        s[i] as u32 as int
    } by {
        lemma_kana_codepoints(s[i]);
    }
}

/// Length of the trailing okurigana of a word: the longest run at the end of
/// `surface` whose characters, turned into katakana, equal one for one the
/// characters at the end of `reading`.
pub open spec fn okurigana_len(surface: Seq<char>, reading: Seq<char>) -> nat
    decreases surface.len(),
{
    if surface.len() == 0 || reading.len() == 0 {
        0
    } else if katakana_of(surface.last()) == reading.last() {
        1 + okurigana_len(surface.drop_last(), reading.drop_last())
    } else {
        0
    }
}

/// The code point that a reading character must have to pair with the
/// surface character `c` as okurigana: that of its katakana form.
pub open spec fn paired_codepoint(c: char) -> int {
    if 0x3041 <= c as u32 <= 0x3096 {
        c as u32 + 0x60
    } else {
        c as u32 as int
    }
}

/// Okurigana grow one character at a time from the end: a surface character
/// pairs with a reading character exactly when the reading character is its
/// katakana form (a hiragana character 0x60 below it, any other character
/// itself), and then the okurigana are one longer than those of the rest;
/// otherwise there are none.
pub proof fn lemma_okurigana_step(s: Seq<char>, r: Seq<char>, c: char, d: char)
    ensures
        okurigana_len(s.push(c), r.push(d)) == if d as u32 == paired_codepoint(c) {
            1 + okurigana_len(s, r)
        } else {
            0
        },
{
    lemma_kana_codepoints(c);
    vstd::utf8::char_u32_cast(d, d as u32);
    vstd::utf8::char_u32_cast(katakana_of(c), katakana_of(c) as u32);
    assert(s.push(c).drop_last() =~= s);
    assert(r.push(d).drop_last() =~= r);
}

/// Trailing kana of the surface whose katakana forms end the reading are
/// all okurigana: appending them to a surface and their katakana forms to a
/// reading adds their number to the okurigana.
pub proof fn lemma_okurigana_suffix(a: Seq<char>, b: Seq<char>, o: Seq<char>, o2: Seq<char>)
    requires
        o2.len() == o.len(),
        forall|i: int| 0 <= i < o.len() ==> (#[trigger] o2[i]) as u32 == paired_codepoint(o[i]),
    ensures
        okurigana_len(a + o, b + o2) == o.len() + okurigana_len(a, b),
    decreases o.len(),
{
    if o.len() == 0 {
        assert(a + o =~= a);
        assert(b + o2 =~= b);
    } else {
        let n = o.len() - 1;
        lemma_okurigana_suffix(a, b, o.take(n), o2.take(n));
        assert(a + o =~= (a + o.take(n)).push(o[n]));
        assert(b + o2 =~= (b + o2.take(n)).push(o2[n]));
        lemma_okurigana_step(a + o.take(n), b + o2.take(n), o[n], o2[n]);
    }
}

/// A word written in hiragana whose reading is its katakana form shows as
/// many characters as the typed prefix holds, up to the whole word.
pub proof fn lemma_surface_prefix_of_kana_word(s: Seq<char>, r: Seq<char>, p: nat)
    requires
        r.len() == s.len(),
        forall|i: int| 0 <= i < s.len() ==> (#[trigger] r[i]) as u32 == paired_codepoint(s[i]),
    ensures
        surface_prefix_len(s, r, p) == if p < s.len() {
            p
        } else {
            s.len()
        },
{
    lemma_okurigana_suffix(Seq::<char>::empty(), Seq::<char>::empty(), s, r);
    assert(Seq::<char>::empty() + s =~= s);
    assert(Seq::<char>::empty() + r =~= r);
    assert(okurigana_len(s, r) == s.len());
}

/// Okurigana alignment: for a word whose surface is a kanji part `a`
/// followed by kana `o`, and whose reading is the kanji reading `b`
/// followed by the katakana forms of `o` (the last characters of `a` and `b`
/// not pairing), a prefix within the kanji reading shows part of the kanji
/// only (at least one character), and a prefix reaching into the okurigana
/// shows all of the kanji and one okurigana character for each typed
/// character beyond the kanji reading.
pub proof fn lemma_surface_prefix_with_okurigana(
    a: Seq<char>,
    b: Seq<char>,
    o: Seq<char>,
    o2: Seq<char>,
    p: nat,
)
    requires
        a.len() > 0,
        b.len() > 0,
        b.last() as u32 != paired_codepoint(a.last()),
        o2.len() == o.len(),
        forall|i: int| 0 <= i < o.len() ==> (#[trigger] o2[i]) as u32 == paired_codepoint(o[i]),
        p > 0,
    ensures
        p <= b.len() ==> 1 <= surface_prefix_len(a + o, b + o2, p) <= a.len(),
        p <= b.len() && p < b.len() + o.len() ==> ({
            let x = surface_prefix_len(a + o, b + o2, p);
            &&& x == 1 || x * b.len() <= p * a.len()
            &&& x == a.len() || (x + 1) * b.len() > p * a.len()
        }),
        b.len() < p < b.len() + o.len() ==> surface_prefix_len(a + o, b + o2, p) == a.len() + (p
            - b.len()),
{
    lemma_okurigana_suffix(a, b, o, o2);
    lemma_okurigana_step(a.drop_last(), b.drop_last(), a.last(), b.last());
    assert(a.drop_last().push(a.last()) =~= a);
    assert(b.drop_last().push(b.last()) =~= b);
    assert(okurigana_len(a + o, b + o2) == o.len());
    let sl = a.len() + o.len();
    let rl = b.len() + o.len();
    if p <= b.len() && p < rl {
        let prop = p * a.len() / b.len();
        assert(prop >= 0) by (nonlinear_arith)
            requires
                p >= 0,
                a.len() >= 0,
                b.len() > 0,
                prop == p * a.len() / b.len(),
        ;
        let ka = a.len() as int;
        let kb = b.len() as int;
        let q = (p * ka) as int;
        vstd::arithmetic::div_mod::lemma_fundamental_div_mod(q, kb);
        assert(prop * kb <= q < (prop + 1) * kb) by (nonlinear_arith)
            requires
                kb > 0,
                q == kb * (q / kb) + q % kb,
                0 <= q % kb < kb,
                prop == q / kb,
        ;
        let x = surface_prefix_len(a + o, b + o2, p);
        if prop == 0 {
            assert(x == 1);
            assert((prop + 1) * kb == kb) by (nonlinear_arith)
                requires
                    prop == 0,
            ;
            assert((x + 1) * kb > q) by (nonlinear_arith)
                requires
                    x == 1,
                    q < kb,
                    kb > 0,
            ;
        } else if prop < ka {
            assert(x == prop);
        } else {
            assert(x == ka);
            assert(ka * kb <= prop * kb) by (nonlinear_arith)
                requires
                    ka <= prop,
                    kb > 0,
            ;
        }
    }
}

/// The number of leading characters of `surface` shown for a typed reading
/// prefix of `p_len` characters: nothing for an empty prefix; the whole
/// surface when the prefix covers the reading; otherwise, with the trailing
/// okurigana aligned one for one, either a share of the kanji part
/// proportional to the prefix (at least one character), or the whole kanji
/// part followed by as many okurigana characters as the prefix reaches into.
pub open spec fn surface_prefix_len(surface: Seq<char>, reading: Seq<char>, p_len: nat) -> nat {
    if p_len == 0 {
        0
    } else if p_len >= reading.len() || surface.len() == 0 {
        surface.len()
    } else {
        let oki = okurigana_len(surface, reading);
        let kanji_s = (surface.len() - oki) as nat;
        let kanji_r = (reading.len() - oki) as nat;
        if p_len <= kanji_r {
            let proportional = p_len * kanji_s / kanji_r;
            let shown = if proportional == 0 && kanji_s > 0 {
                1
            } else {
                proportional
            };
            if shown < kanji_s {
                shown
            } else {
                kanji_s
            }
        } else {
            let extra = (p_len - kanji_r) as nat;
            kanji_s + if extra < oki {
                extra
            } else {
                oki
            }
        }
    }
}

proof fn lemma_okurigana_bound(surface: Seq<char>, reading: Seq<char>)
    ensures
        okurigana_len(surface, reading) <= surface.len(),
        okurigana_len(surface, reading) <= reading.len(),
    decreases surface.len(),
{
    if surface.len() > 0 && reading.len() > 0 {
        lemma_okurigana_bound(surface.drop_last(), reading.drop_last());
    }
}

/// Typing one more reading character never shows fewer surface characters,
/// and never more than the whole surface.
pub proof fn lemma_surface_prefix_monotone(surface: Seq<char>, reading: Seq<char>, p: nat)
    ensures
        surface_prefix_len(surface, reading, p) <= surface_prefix_len(surface, reading, p + 1),
        surface_prefix_len(surface, reading, p + 1) <= surface.len(),
{
    lemma_okurigana_bound(surface, reading);
    let oki = okurigana_len(surface, reading);
    let ks = (surface.len() - oki) as nat;
    let kr = (reading.len() - oki) as nat;
    if p > 0 && p + 1 < reading.len() && surface.len() > 0 && p + 1 <= kr {
        assert(p * ks <= (p + 1) * ks) by (nonlinear_arith);
        vstd::arithmetic::div_mod::lemma_div_is_ordered((p * ks) as int, ((p + 1) * ks) as int, kr as int);
        assert((p + 1) * ks / kr <= ks) by (nonlinear_arith)
            requires
                0 < p + 1 <= kr,
        ;
    }
    if p + 1 < reading.len() && surface.len() > 0 && p + 1 <= kr {
        assert((p + 1) * ks / kr <= ks) by (nonlinear_arith)
            requires
                0 < p + 1 <= kr,
        ;
    }
}

/// Given a word's `surface`, its katakana `reading`, and a katakana `prefix`,
/// return the portion of `surface` whose reading corresponds to `prefix`.
///
/// This is the core surface-alignment function for IME candidate generation.
/// When the user has typed a reading prefix that is shorter than a matched
/// word's full reading, this function computes which part of the surface form
/// should be shown as the candidate.
///
/// The alignment uses an **okurigana heuristic**:
/// - Trailing kana characters in `surface` that correspond 1-to-1 with
///   trailing characters in `reading` are treated as okurigana and aligned
///   directly.
/// - The remaining (kanji) portion of the surface is divided proportionally
///   across the kanji reading segment using floor division.
pub fn surface_prefix_for_reading_prefix(surface: &str, reading: &str, prefix: &str) -> (res:
    String)
    ensures
        res@ == surface@.take(surface_prefix_len(surface@, reading@, prefix@.len()) as int),
        surface_prefix_len(surface@, reading@, prefix@.len()) <= surface@.len(),
{
    let s_chars = chars_of(surface);
    let r_chars = chars_of(reading);
    let p_len = char_count(prefix);
    let r_len = r_chars.len();
    let s_len = s_chars.len();
    let ghost sv = surface@;
    let ghost rv = reading@;
    proof {
        lemma_okurigana_bound(sv, rv);
    }
    if p_len == 0 {
        return String::new();
    }
    if p_len >= r_len || s_len == 0 {
        assert(sv.take(s_len as int) =~= sv);
        return string_of_chars(s_chars.as_slice(), 0, s_len);
    }
    // Identify trailing okurigana: scan from the right, matching surface kana
    // chars against reading kana chars one-to-one.

    let mut oki: usize = 0;
    assert(sv.take(s_len as int) =~= sv);
    assert(rv.take(r_len as int) =~= rv);
    let mut si: usize = s_len;
    let mut ri: usize = r_len;
    while si > 0 && ri > 0 && to_katakana_char(s_chars[si - 1]) == r_chars[ri - 1]
        invariant
            s_chars@ == sv,
            r_chars@ == rv,
            s_len == sv.len(),
            r_len == rv.len(),
            si <= s_len,
            ri <= r_len,
            oki + si == s_len,
            oki + ri == r_len,
            okurigana_len(sv, rv) == oki + okurigana_len(sv.take(si as int), rv.take(ri as int)),
        decreases si,
    {
        assert(sv.take(si as int).drop_last() =~= sv.take(si - 1));
        assert(rv.take(ri as int).drop_last() =~= rv.take(ri - 1));
        oki = oki + 1;
        si = si - 1;
        ri = ri - 1;
    }
    proof {
        if si > 0 && ri > 0 {
            assert(sv.take(si as int).last() == sv[si - 1]);
            assert(rv.take(ri as int).last() == rv[ri - 1]);
        }
        assert(okurigana_len(sv.take(si as int), rv.take(ri as int)) == 0);
    }
    // si = number of non-okurigana (kanji) surface chars
    // ri = length of kanji reading (reading chars before okurigana)

    let kanji_s = si;
    let kanji_r = ri;
    if p_len <= kanji_r {
        // Prefix falls entirely within the kanji reading segment.
        // Distribute proportionally: floor(p_len * kanji_s / kanji_r), min 1.
        assert(p_len as u128 * kanji_s as u128 <= u128::MAX) by (nonlinear_arith)
            requires
                p_len <= u64::MAX,
                kanji_s <= u64::MAX,
        ;
        let proportional = ((p_len as u128 * kanji_s as u128) / kanji_r as u128) as usize;
        proof {
            assert((p_len as int * kanji_s as int) / kanji_r as int <= kanji_s) by (nonlinear_arith)
                requires
                    0 < p_len <= kanji_r,
            ;
            assert(0 <= (p_len as int * kanji_s as int) / kanji_r as int) by (nonlinear_arith)
                requires
                    0 < kanji_r,
                    0 <= kanji_s,
                    0 <= p_len,
            ;
        }
        let shown = if proportional == 0 && kanji_s > 0 {
            1
        } else {
            proportional
        };
        let n = if shown < kanji_s {
            shown
        } else {
            kanji_s
        };
        string_of_chars(s_chars.as_slice(), 0, n)
    } else {
        // Prefix extends into okurigana: shown all kanji chars plus the
        // appropriate number of okurigana chars.
        let extra = p_len - kanji_r;
        let oki_included = if extra < oki {
            extra
        } else {
            oki
        };
        let total = kanji_s + oki_included;
        string_of_chars(s_chars.as_slice(), 0, total)
    }
}

} // verus!
