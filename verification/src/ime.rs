//! IME (Input Method Engine) support: reading-to-surface candidate lookup
//! with 活用形 (conjugated form) awareness and compound segment folding.
//!
//! Sudachi's system dictionary stores every conjugated form as a separate
//! lexicon entry, so a prefix search over readings covers all forms; for a
//! prefix match the aligned surface portion is computed with
//! [`crate::kana::surface_prefix_for_reading_prefix`].
//!
//! Compound folding walks the contiguous spans of a Viterbi path and merges
//! adjacent segments into compound candidates, scored with the connection
//! costs that Viterbi itself uses.

use vstd::prelude::*;

use crate::dic::connect::ConnectionMatrix;
use crate::dic::lexicon::word_infos::{form_or_surface, WordInfo, WordInfoData};
use crate::dic::word_id::WordId;
use crate::order::{chars_lt, lemma_chars_lt_strict, lemma_chars_lt_total, str_lt};
use crate::kana::{hiragana_to_katakana, katakana_str, surface_prefix_for_reading_prefix, surface_prefix_len};
use crate::text::chars_of;
use vstd::slice::slice_subrange;
use vstd::string::*;

verus! {

// ── InputPattern ──────────────────────────────────────────────────────────────

/// Classification of a hiragana input string for IME candidate strategy.
///
/// Used as a hint by the IME layer to decide how to rank candidates.  The
/// underlying [`ime_lookup`] function always performs a full prefix search
/// regardless of the pattern.
#[derive(Debug, Clone, PartialEq, Eq)]
pub enum InputPattern {
    /// Input ends with a character that is a typical terminal mora of a
    /// Japanese word form (e.g. る, く, い, た).
    ///
    /// Examples: `たべる`, `いく`, `たかい`, `たかく`
    Complete(String),
    /// Input ends with a non-terminal kana that looks like a conjugation stem
    /// without its ending.
    ///
    /// Examples: `たべ`, `いそが`, `いか`
    PartialStem(String),
    /// Very short input (one character, no clear terminal ending) where
    /// classification is ambiguous.
    ///
    /// Examples: `き`, `に`
    Prefix(String),
}

/// Hiragana characters that typically form the terminal mora of a complete
/// Japanese word form: verb 終止形 / 連体形 endings (う-row and る), the
/// い-adjective ending い, the past / te-form auxiliaries た、だ、て、で, and
/// the negative / sentence-final ん.
pub open spec fn is_terminal_ending(c: char) -> bool {
    c == 'う' || c == 'く' || c == 'ぐ' || c == 'す' || c == 'ず' || c == 'つ' || c == 'づ'
        || c == 'ぬ' || c == 'ふ' || c == 'ぶ' || c == 'ぷ' || c == 'む' || c == 'ゆ' || c == 'る'
        || c == 'い' || c == 'た' || c == 'だ' || c == 'て' || c == 'で' || c == 'ん'
}

/// The terminal endings, by code point: the う-row verb endings う く ぐ す
/// ず つ づ ぬ ふ ぶ ぷ む ゆ (U+3046, U+304F, U+3050, U+3059, U+305A,
/// U+3064, U+3065, U+306C, U+3075, U+3076, U+3077, U+3080, U+3086) and る
/// (U+308B), the adjective ending い (U+3044), the auxiliaries た だ て で
/// (U+305F, U+3060, U+3066, U+3067) and ん (U+3093); no other character.
/// An input ending in one of them is classified complete.
pub proof fn lemma_terminal_endings(c: char)
    ensures
        is_terminal_ending(c) <==> {
            let u = c as u32;
            ||| u == 0x3046 || u == 0x304F || u == 0x3050 || u == 0x3059 || u == 0x305A
            ||| u == 0x3064 || u == 0x3065 || u == 0x306C || u == 0x3075 || u == 0x3076
            ||| u == 0x3077 || u == 0x3080 || u == 0x3086 || u == 0x308B
            ||| u == 0x3044
            ||| u == 0x305F || u == 0x3060 || u == 0x3066 || u == 0x3067
            ||| u == 0x3093
        },
{
    vstd::utf8::char_u32_cast(c, c as u32);
}

fn terminal_ending(c: char) -> (res: bool)
    ensures
        res == is_terminal_ending(c),
{
    c == 'う' || c == 'く' || c == 'ぐ' || c == 'す' || c == 'ず' || c == 'つ' || c == 'づ'
        || c == 'ぬ' || c == 'ふ' || c == 'ぶ' || c == 'ぷ' || c == 'む' || c == 'ゆ' || c == 'る'
        || c == 'い' || c == 'た' || c == 'だ' || c == 'て' || c == 'で' || c == 'ん'
}

/// Classify a hiragana input string into an [`InputPattern`].
///
/// The classification is heuristic, based solely on the shape of the input
/// string — not on dictionary lookup.  Use it as a ranking hint.
pub fn classify_input(hiragana: &str) -> (res: InputPattern)
    ensures
        hiragana@.len() == 0 ==> (res matches InputPattern::Prefix(s) && s@.len() == 0),
        hiragana@.len() > 0 && is_terminal_ending(hiragana@.last()) ==> (
        res matches InputPattern::Complete(s) && s@ == hiragana@),
        hiragana@.len() == 1 && !is_terminal_ending(hiragana@.last()) ==> (
        res matches InputPattern::Prefix(s) && s@ == hiragana@),
        hiragana@.len() > 1 && !is_terminal_ending(hiragana@.last()) ==> (
        res matches InputPattern::PartialStem(s) && s@ == hiragana@),
{
    let chars = chars_of(hiragana);
    let len = chars.len();
    if len == 0 {
        return InputPattern::Prefix(String::new());
    }
    let last = chars[len - 1];
    if terminal_ending(last) {
        InputPattern::Complete(hiragana.to_owned())
    } else if len == 1 {
        InputPattern::Prefix(hiragana.to_owned())
    } else {
        InputPattern::PartialStem(hiragana.to_owned())
    }
}

// ── ImeCandidate ──────────────────────────────────────────────────────────────

/// A single IME candidate produced by [`ime_lookup`] or [`ime_lookup_compound`].
#[derive(Debug, Clone)]
pub struct ImeCandidate {
    /// The surface string to display to the user.
    ///
    /// For an exact reading match this equals the full dictionary surface.
    /// For a prefix match this is the aligned portion of the surface that
    /// corresponds to the typed reading prefix.
    /// For a compound this is the concatenation of constituent surfaces.
    pub surface: String,
    /// The [`WordId`] of the primary (first) matched dictionary entry.
    pub word_id: WordId,
    /// The full katakana reading of the matched dictionary entry.
    /// For compounds this is the concatenation of constituent readings.
    pub reading: String,
    /// Accumulated word cost (+ connection costs for compounds).
    /// Lower is better — consistent with Viterbi scoring.
    pub cost: i32,
    /// Left connection id of the first segment.
    pub left_id: u16,
    /// Right connection id of the last segment.
    pub right_id: u16,
    /// Number of Viterbi segments folded into this candidate.
    /// 1 = single dictionary word; >1 = compound.
    pub segment_count: usize,
}

impl ImeCandidate {
    /// A copy of the candidate.
    pub fn duplicate(&self) -> (res: ImeCandidate)
        ensures
            res == *self,
    {
        ImeCandidate {
            surface: self.surface.clone(),
            word_id: self.word_id,
            reading: self.reading.clone(),
            cost: self.cost,
            left_id: self.left_id,
            right_id: self.right_id,
            segment_count: self.segment_count,
        }
    }
}

// ── Candidate orders ──────────────────────────────────────────────────────────

/// The two orders candidate lists are sorted by: single-token lookups rank
/// by cost, then shorter reading (in UTF-8 bytes), then surface; compound
/// lists rank by cost, then more segments, then surface.
pub open spec fn ranks_before(by_segments: bool, a: ImeCandidate, b: ImeCandidate) -> bool {
    if a.cost != b.cost {
        a.cost < b.cost
    } else if by_segments && a.segment_count != b.segment_count {
        a.segment_count > b.segment_count
    } else if !by_segments && reading_bytes(a) != reading_bytes(b) {
        reading_bytes(a) < reading_bytes(b)
    } else {
        chars_lt(a.surface@, b.surface@)
    }
}

/// Length of a candidate's reading in UTF-8 bytes.
pub open spec fn reading_bytes(a: ImeCandidate) -> nat {
    vstd::utf8::encode_utf8(a.reading@).len()
}

/// Of two candidates with the same surface, `a` displaces the one kept so
/// far, `kept`: single-token lookups keep the lowest cost, compound lists the
/// candidate that ranks first; on a tie the one met first stays.
pub open spec fn displaces(by_segments: bool, a: ImeCandidate, kept: ImeCandidate) -> bool {
    if by_segments {
        ranks_before(true, a, kept)
    } else {
        a.cost < kept.cost
    }
}

/// `cands[i]` is the candidate kept for its surface among the first `n`:
/// it displaces each earlier one with its surface and no later one
/// displaces it.
pub open spec fn kept_for_surface(by_segments: bool, cands: Seq<ImeCandidate>, n: int, i: int) -> bool {
    &&& 0 <= i < n
    &&& forall|j: int|
        #![trigger cands[j]]
        0 <= j < n && cands[j].surface@ == cands[i].surface@ ==> (j < i ==> displaces(
            by_segments,
            cands[i],
            cands[j],
        )) && (j > i ==> !displaces(by_segments, cands[j], cands[i]))
}

/// `c` is the candidate kept for its surface among all of `cands`.
pub open spec fn is_kept(by_segments: bool, cands: Seq<ImeCandidate>, c: ImeCandidate) -> bool {
    exists|i: int| kept_for_surface(by_segments, cands, cands.len() as int, i) && c == cands[i]
}

/// Some candidate of `s` has the surface `surface`.
pub open spec fn has_surface(s: Seq<ImeCandidate>, surface: Seq<char>) -> bool {
    exists|k: int| 0 <= k < s.len() && s[k].surface@ == surface
}

/// `out` is `cands` deduplicated by surface, each surface represented by its
/// kept candidate, and sorted strictly by `ranks_before`.
pub open spec fn dedup_sorted(by_segments: bool, cands: Seq<ImeCandidate>, out: Seq<ImeCandidate>) -> bool {
    &&& forall|k: int| 0 <= k < out.len() ==> is_kept(by_segments, cands, #[trigger] out[k])
    &&& forall|i: int| 0 <= i < cands.len() ==> has_surface(out, #[trigger] cands[i].surface@)
    &&& forall|k1: int, k2: int|
        0 <= k1 < k2 < out.len() ==> ranks_before(by_segments, #[trigger] out[k1], #[trigger] out[k2])
}

proof fn lemma_ranks_order(by_segments: bool, a: ImeCandidate, b: ImeCandidate, c: ImeCandidate)
    ensures
        !ranks_before(by_segments, a, a),
        ranks_before(by_segments, a, b) ==> !ranks_before(by_segments, b, a),
        ranks_before(by_segments, a, b) && ranks_before(by_segments, b, c) ==> ranks_before(
            by_segments,
            a,
            c,
        ),
        a.surface@ != b.surface@ ==> ranks_before(by_segments, a, b) || ranks_before(
            by_segments,
            b,
            a,
        ),
{
    lemma_chars_lt_strict(a.surface@, b.surface@, c.surface@);
    lemma_chars_lt_strict(c.surface@, a.surface@, b.surface@);
    lemma_chars_lt_strict(b.surface@, a.surface@, c.surface@);
    lemma_chars_lt_strict(c.surface@, b.surface@, a.surface@);
    lemma_chars_lt_total(a.surface@, b.surface@);
    lemma_chars_lt_total(c.surface@, b.surface@);
    lemma_chars_lt_total(a.surface@, c.surface@);
}

/// Displacement among candidates of one surface chains: what displaces a
/// candidate displaces whatever that one displaces, and whatever does not
/// displace it.
proof fn lemma_displaces_chain(by_segments: bool, a: ImeCandidate, b: ImeCandidate, c: ImeCandidate)
    requires
        a.surface@ == b.surface@,
        b.surface@ == c.surface@,
    ensures
        displaces(by_segments, a, b) && displaces(by_segments, b, c) ==> displaces(by_segments, a, c),
        displaces(by_segments, a, b) && !displaces(by_segments, c, b) ==> displaces(
            by_segments,
            a,
            c,
        ),
{
    lemma_chars_lt_strict(a.surface@, a.surface@, a.surface@);
}

fn ranks_before_exec(by_segments: bool, a: &ImeCandidate, b: &ImeCandidate) -> (res: bool)
    ensures
        res == ranks_before(by_segments, *a, *b),
{
    if a.cost != b.cost {
        a.cost < b.cost
    } else if by_segments && a.segment_count != b.segment_count {
        a.segment_count > b.segment_count
    } else if !by_segments && a.reading.as_str().as_bytes().len()
        != b.reading.as_str().as_bytes().len() {
        a.reading.as_str().as_bytes().len() < b.reading.as_str().as_bytes().len()
    } else {
        str_lt(a.surface.as_str(), b.surface.as_str())
    }
}

fn displaces_exec(by_segments: bool, a: &ImeCandidate, kept: &ImeCandidate) -> (res: bool)
    ensures
        res == displaces(by_segments, *a, *kept),
{
    if by_segments {
        ranks_before_exec(true, a, kept)
    } else {
        a.cost < kept.cost
    }
}

/// The position in `kept` of the candidate whose surface is `surface`.
fn find_surface(kept: &Vec<ImeCandidate>, surface: &String) -> (res: Option<usize>)
    ensures
        match res {
            Some(k) => k < kept@.len() && kept@[k as int].surface@ == surface@,
            None => forall|k: int| 0 <= k < kept@.len() ==> #[trigger] kept@[k].surface@ != surface@,
        },
{
    let mut k: usize = 0;
    while k < kept.len()
        invariant
            k <= kept@.len(),
            forall|j: int| 0 <= j < k ==> #[trigger] kept@[j].surface@ != surface@,
        decreases kept.len() - k,
    {
        if kept[k].surface == *surface {
            return Some(k);
        }
        k = k + 1;
    }
    None
}

/// No two candidates of `s` share a surface.
pub open spec fn distinct_surfaces(s: Seq<ImeCandidate>) -> bool {
    forall|k1: int, k2: int|
        0 <= k1 < k2 < s.len() ==> #[trigger] s[k1].surface@ != #[trigger] s[k2].surface@
}

/// `s` is sorted strictly by `ranks_before`.
pub open spec fn sorted_by_rank(by_segments: bool, s: Seq<ImeCandidate>) -> bool {
    forall|k1: int, k2: int|
        0 <= k1 < k2 < s.len() ==> ranks_before(by_segments, #[trigger] s[k1], #[trigger] s[k2])
}

/// A deduplicated candidate list holds each surface at most once.
pub proof fn lemma_dedup_distinct_surfaces(
    by_segments: bool,
    cands: Seq<ImeCandidate>,
    out: Seq<ImeCandidate>,
)
    requires
        dedup_sorted(by_segments, cands, out),
    ensures
        distinct_surfaces(out),
{
    assert forall|k1: int, k2: int| 0 <= k1 < k2 < out.len() implies #[trigger] out[k1].surface@
        != #[trigger] out[k2].surface@ by {
        if out[k1].surface@ == out[k2].surface@ {
            assert(is_kept(by_segments, cands, out[k1]));
            assert(is_kept(by_segments, cands, out[k2]));
            let i1 = choose|i: int|
                kept_for_surface(by_segments, cands, cands.len() as int, i) && out[k1] == cands[i];
            let i2 = choose|i: int|
                kept_for_surface(by_segments, cands, cands.len() as int, i) && out[k2] == cands[i];
            assert(ranks_before(by_segments, out[k1], out[k2]));
            lemma_ranks_order(by_segments, out[k1], out[k1], out[k1]);
            if i1 < i2 {
                assert(cands[i1].surface@ == cands[i2].surface@);
            } else if i2 < i1 {
                assert(cands[i1].surface@ == cands[i2].surface@);
            }
        }
    }
}

/// The compound lookup's ranking: candidates come by cost, lowest first,
/// and at equal cost the one of more segments first; each surface comes
/// once, represented by a candidate of that surface with the lowest cost.
pub proof fn lemma_compound_ranking(cands: Seq<ImeCandidate>, out: Seq<ImeCandidate>)
    requires
        dedup_sorted(true, cands, out),
    ensures
        forall|k1: int, k2: int|
            0 <= k1 < k2 < out.len() ==> (#[trigger] out[k1]).cost <= (#[trigger] out[k2]).cost && (
            out[k1].cost == out[k2].cost ==> out[k1].segment_count >= out[k2].segment_count),
        distinct_surfaces(out),
        forall|k: int, i: int|
            0 <= k < out.len() && 0 <= i < cands.len() && (#[trigger] cands[i]).surface@ == (
            #[trigger] out[k]).surface@ ==> out[k].cost <= cands[i].cost,
        forall|k: int| 0 <= k < out.len() ==> #[trigger] cands.contains(out[k]),
{
    lemma_dedup_distinct_surfaces(true, cands, out);
    assert forall|k: int, i: int|
        0 <= k < out.len() && 0 <= i < cands.len() && (#[trigger] cands[i]).surface@ == (
        #[trigger] out[k]).surface@ implies out[k].cost <= cands[i].cost by {
        assert(is_kept(true, cands, out[k]));
        let i0 = choose|i0: int| kept_for_surface(true, cands, cands.len() as int, i0) && out[k]
            == cands[i0];
        if i < i0 {
            assert(displaces(true, cands[i0], cands[i]));
        } else if i > i0 {
            assert(!displaces(true, cands[i], cands[i0]));
        }
    }
    assert forall|k: int| 0 <= k < out.len() implies #[trigger] cands.contains(out[k]) by {
        assert(is_kept(true, cands, out[k]));
        let i0 = choose|i0: int| kept_for_surface(true, cands, cands.len() as int, i0) && out[k]
            == cands[i0];
        assert(cands[i0] == out[k]);
    }
}

/// What holds after the first `n` candidates of `cs` went through the
/// per-surface selection: `kept[k]` is `cs[idx[k]]`, the candidate kept for
/// its surface so far; the surfaces of `kept` are distinct; and the surface
/// of `cs[i]` is that of `kept[cov[i]]`.
spec fn keep_inv(
    by_segments: bool,
    cs: Seq<ImeCandidate>,
    n: int,
    kept: Seq<ImeCandidate>,
    idx: Seq<int>,
    cov: Seq<int>,
) -> bool {
    &&& 0 <= n <= cs.len()
    &&& kept.len() == idx.len()
    &&& cov.len() == n
    &&& forall|k: int|
        #![trigger idx[k]]
        0 <= k < kept.len() ==> 0 <= idx[k] < n && kept[k] == cs[idx[k]] && kept_for_surface(
            by_segments,
            cs,
            n,
            idx[k],
        )
    &&& distinct_surfaces(kept)
    &&& forall|i: int|
        #![trigger cov[i]]
        0 <= i < n ==> 0 <= cov[i] < kept.len() && kept[cov[i]].surface@ == cs[i].surface@
}

/// A candidate whose surface was not met yet is kept as it is.
proof fn lemma_keep_new(
    by_segments: bool,
    cs: Seq<ImeCandidate>,
    n: int,
    kept: Seq<ImeCandidate>,
    idx: Seq<int>,
    cov: Seq<int>,
)
    requires
        keep_inv(by_segments, cs, n, kept, idx, cov),
        n < cs.len(),
        forall|k: int| 0 <= k < kept.len() ==> #[trigger] kept[k].surface@ != cs[n].surface@,
    ensures
        keep_inv(
            by_segments,
            cs,
            n + 1,
            kept.push(cs[n]),
            idx.push(n),
            cov.push(kept.len() as int),
        ),
{
    let kept2 = kept.push(cs[n]);
    let idx2 = idx.push(n);
    let cov2 = cov.push(kept.len() as int);
    assert forall|k: int|
        #![trigger idx2[k]]
        0 <= k < kept2.len() implies 0 <= idx2[k] < n + 1 && kept2[k] == cs[idx2[k]]
        && kept_for_surface(by_segments, cs, n + 1, idx2[k]) by {
        if k < kept.len() {
            assert(idx2[k] == idx[k]);
            assert(kept[k].surface@ != cs[n].surface@);
        } else {
            assert forall|j: int|
                #![trigger cs[j]]
                0 <= j < n + 1 && cs[j].surface@ == cs[n].surface@ implies (j < n ==> displaces(
                by_segments,
                cs[n],
                cs[j],
            )) && (j > n ==> !displaces(by_segments, cs[j], cs[n])) by {
                if j < n {
                    assert(cov[j] == cov2[j]);
                    assert(kept[cov[j]].surface@ != cs[n].surface@);
                }
            }
        }
    }
    assert forall|k1: int, k2: int|
        0 <= k1 < k2 < kept2.len() implies #[trigger] kept2[k1].surface@
        != #[trigger] kept2[k2].surface@ by {
        if k2 < kept.len() {
            assert(kept[k1].surface@ != kept[k2].surface@);
        } else {
            assert(kept[k1].surface@ != cs[n].surface@);
        }
    }
    assert forall|i: int|
        #![trigger cov2[i]]
        0 <= i < n + 1 implies 0 <= cov2[i] < kept2.len() && kept2[cov2[i]].surface@
        == cs[i].surface@ by {
        if i < n {
            assert(cov2[i] == cov[i]);
        }
    }
}

/// A candidate that displaces the one kept for its surface takes its place.
proof fn lemma_keep_replace(
    by_segments: bool,
    cs: Seq<ImeCandidate>,
    n: int,
    kept: Seq<ImeCandidate>,
    idx: Seq<int>,
    cov: Seq<int>,
    k: int,
)
    requires
        keep_inv(by_segments, cs, n, kept, idx, cov),
        n < cs.len(),
        0 <= k < kept.len(),
        kept[k].surface@ == cs[n].surface@,
        displaces(by_segments, cs[n], kept[k]),
    ensures
        keep_inv(by_segments, cs, n + 1, kept.update(k, cs[n]), idx.update(k, n), cov.push(k)),
{
    let kept2 = kept.update(k, cs[n]);
    let idx2 = idx.update(k, n);
    let cov2 = cov.push(k);
    let i = idx[k];
    assert(kept[k] == cs[i]);
    assert(kept_for_surface(by_segments, cs, n, i));
    assert forall|kk: int|
        #![trigger idx2[kk]]
        0 <= kk < kept2.len() implies 0 <= idx2[kk] < n + 1 && kept2[kk] == cs[idx2[kk]]
        && kept_for_surface(by_segments, cs, n + 1, idx2[kk]) by {
        if kk != k {
            assert(idx2[kk] == idx[kk]);
            assert(kept[kk] == kept2[kk]);
            if kk < k {
                assert(kept[kk].surface@ != kept[k].surface@);
            } else {
                assert(kept[k].surface@ != kept[kk].surface@);
            }
        } else {
            assert forall|j: int|
                #![trigger cs[j]]
                0 <= j < n + 1 && cs[j].surface@ == cs[n].surface@ implies (j < n ==> displaces(
                by_segments,
                cs[n],
                cs[j],
            )) && (j > n ==> !displaces(by_segments, cs[j], cs[n])) by {
                if j < n && j != i {
                    lemma_displaces_chain(by_segments, cs[n], cs[i], cs[j]);
                }
            }
        }
    }
    assert forall|k1: int, k2: int|
        0 <= k1 < k2 < kept2.len() implies #[trigger] kept2[k1].surface@
        != #[trigger] kept2[k2].surface@ by {
        assert(kept[k1].surface@ != kept[k2].surface@);
    }
    assert forall|ii: int|
        #![trigger cov2[ii]]
        0 <= ii < n + 1 implies 0 <= cov2[ii] < kept2.len() && kept2[cov2[ii]].surface@
        == cs[ii].surface@ by {
        if ii < n {
            assert(cov2[ii] == cov[ii]);
        }
    }
}

/// A candidate that does not displace the one kept for its surface is dropped.
proof fn lemma_keep_stay(
    by_segments: bool,
    cs: Seq<ImeCandidate>,
    n: int,
    kept: Seq<ImeCandidate>,
    idx: Seq<int>,
    cov: Seq<int>,
    k: int,
)
    requires
        keep_inv(by_segments, cs, n, kept, idx, cov),
        n < cs.len(),
        0 <= k < kept.len(),
        kept[k].surface@ == cs[n].surface@,
        !displaces(by_segments, cs[n], kept[k]),
    ensures
        keep_inv(by_segments, cs, n + 1, kept, idx, cov.push(k)),
{
    let cov2 = cov.push(k);
    assert forall|kk: int|
        #![trigger idx[kk]]
        0 <= kk < kept.len() implies 0 <= idx[kk] < n + 1 && kept[kk] == cs[idx[kk]]
        && kept_for_surface(by_segments, cs, n + 1, idx[kk]) by {
        assert(kept_for_surface(by_segments, cs, n, idx[kk]));
        if kk < k {
            assert(kept[kk].surface@ != kept[k].surface@);
        } else if kk > k {
            assert(kept[k].surface@ != kept[kk].surface@);
        }
    }
    assert forall|ii: int|
        #![trigger cov2[ii]]
        0 <= ii < n + 1 implies 0 <= cov2[ii] < kept.len() && kept[cov2[ii]].surface@
        == cs[ii].surface@ by {
        if ii < n {
            assert(cov2[ii] == cov[ii]);
        }
    }
}

/// Keep, for each surface of `cands`, the candidate that `displaces` all the
/// others with that surface (the first such one on ties), in the order in
/// which the surfaces first occur.
fn keep_per_surface(cands: &Vec<ImeCandidate>, by_segments: bool) -> (res: (
    Vec<ImeCandidate>,
    Ghost<Seq<int>>,
    Ghost<Seq<int>>,
))
    ensures
        keep_inv(by_segments, cands@, cands@.len() as int, res.0@, res.1@, res.2@),
{
    let ghost cs = cands@;
    let mut kept: Vec<ImeCandidate> = Vec::new();
    let ghost mut idx: Seq<int> = Seq::empty();
    let ghost mut cov: Seq<int> = Seq::empty();
    let mut n: usize = 0;
    while n < cands.len()
        invariant
            cs == cands@,
            keep_inv(by_segments, cs, n as int, kept@, idx, cov),
        decreases cs.len() - n,
    {
        let c = &cands[n];
        match find_surface(&kept, &c.surface) {
            None => {
                proof {
                    lemma_keep_new(by_segments, cs, n as int, kept@, idx, cov);
                    idx = idx.push(n as int);
                    cov = cov.push(kept@.len() as int);
                }
                kept.push(c.duplicate());
            },
            Some(k) => {
                if displaces_exec(by_segments, c, &kept[k]) {
                    proof {
                        lemma_keep_replace(by_segments, cs, n as int, kept@, idx, cov, k as int);
                        idx = idx.update(k as int, n as int);
                        cov = cov.push(k as int);
                    }
                    kept.set(k, c.duplicate());
                } else {
                    proof {
                        lemma_keep_stay(by_segments, cs, n as int, kept@, idx, cov, k as int);
                        cov = cov.push(k as int);
                    }
                }
            },
        }
        n = n + 1;
    }
    (kept, Ghost(idx), Ghost(cov))
}

/// `out` holds the candidates of `kept` rearranged: `out[x]` is
/// `kept[pos[x]]` and `kept[k]` is `out[back[k]]`.
spec fn rearranged(
    kept: Seq<ImeCandidate>,
    out: Seq<ImeCandidate>,
    pos: Seq<int>,
    back: Seq<int>,
) -> bool {
    &&& pos.len() == out.len()
    &&& back.len() == kept.len()
    &&& forall|x: int|
        #![trigger pos[x]]
        0 <= x < out.len() ==> 0 <= pos[x] < kept.len() && out[x] == kept[pos[x]]
    &&& forall|k: int|
        #![trigger back[k]]
        0 <= k < kept.len() ==> 0 <= back[k] < out.len() && out[back[k]] == kept[k]
}

/// Inserting `x` at `p` keeps a rank-sorted sequence sorted when `x` ranks
/// after everything before `p`, before what stands at `p`, and shares no
/// surface with any of it.
proof fn lemma_insert_sorted(by_segments: bool, s: Seq<ImeCandidate>, x: ImeCandidate, p: int)
    requires
        sorted_by_rank(by_segments, s),
        0 <= p <= s.len(),
        forall|q: int| 0 <= q < p ==> !ranks_before(by_segments, x, #[trigger] s[q]),
        p < s.len() ==> ranks_before(by_segments, x, s[p]),
        forall|q: int| 0 <= q < s.len() ==> #[trigger] s[q].surface@ != x.surface@,
    ensures
        sorted_by_rank(by_segments, s.insert(p, x)),
{
    let t = s.insert(p, x);
    assert forall|x1: int, x2: int|
        0 <= x1 < x2 < t.len() implies ranks_before(by_segments, #[trigger] t[x1], #[trigger] t[x2]) by {
        if x2 < p {
            assert(t[x1] == s[x1]);
            assert(t[x2] == s[x2]);
        } else if x1 < p && x2 == p {
            assert(t[x1] == s[x1]);
            assert(t[x2] == x);
            assert(!ranks_before(by_segments, x, s[x1]));
            assert(s[x1].surface@ != x.surface@);
            lemma_ranks_order(by_segments, s[x1], x, x);
        } else if x1 < p && x2 > p {
            assert(t[x1] == s[x1]);
            assert(t[x2] == s[x2 - 1]);
            assert(ranks_before(by_segments, s[x1], s[x2 - 1]));
        } else if x1 == p {
            assert(t[x1] == x);
            assert(t[x2] == s[x2 - 1]);
            lemma_ranks_order(by_segments, x, s[p], s[x2 - 1]);
            if x2 - 1 > p {
                assert(ranks_before(by_segments, s[p], s[x2 - 1]));
            }
        } else {
            assert(t[x1] == s[x1 - 1]);
            assert(t[x2] == s[x2 - 1]);
            assert(ranks_before(by_segments, s[x1 - 1], s[x2 - 1]));
        }
    }
}

/// Inserting `kept[m]` at `p` of an arrangement of `kept[..m]` gives an
/// arrangement of `kept[..m + 1]`.
proof fn lemma_insert_rearranged(
    kept: Seq<ImeCandidate>,
    m: int,
    out: Seq<ImeCandidate>,
    pos: Seq<int>,
    back: Seq<int>,
    p: int,
)
    requires
        0 <= m < kept.len(),
        rearranged(kept.take(m), out, pos, back),
        0 <= p <= out.len(),
    ensures
        rearranged(
            kept.take(m + 1),
            out.insert(p, kept[m]),
            pos.insert(p, m),
            Seq::new(
                (m + 1) as nat,
                |k: int|
                    if k == m {
                        p
                    } else if back[k] >= p {
                        back[k] + 1
                    } else {
                        back[k]
                    },
            ),
        ),
{
    let out2 = out.insert(p, kept[m]);
    let pos2 = pos.insert(p, m);
    let back2 = Seq::new(
        (m + 1) as nat,
        |k: int|
            if k == m {
                p
            } else if back[k] >= p {
                back[k] + 1
            } else {
                back[k]
            },
    );
    let k1 = kept.take(m + 1);
    let k0 = kept.take(m);
    assert forall|x: int|
        #![trigger pos2[x]]
        0 <= x < out2.len() implies 0 <= pos2[x] < k1.len() && out2[x] == k1[pos2[x]] by {
        if x < p {
            assert(pos2[x] == pos[x]);
            assert(out2[x] == out[x]);
            assert(k0[pos[x]] == k1[pos[x]]);
        } else if x > p {
            assert(pos2[x] == pos[x - 1]);
            assert(out2[x] == out[x - 1]);
            assert(k0[pos[x - 1]] == k1[pos[x - 1]]);
        }
    }
    assert forall|k: int|
        #![trigger back2[k]]
        0 <= k < k1.len() implies 0 <= back2[k] < out2.len() && out2[back2[k]] == k1[k] by {
        if k < m {
            assert(back[k] == back[k]);
            assert(k0[k] == k1[k]);
            if back[k] >= p {
                assert(out2[back[k] + 1] == out[back[k]]);
            } else {
                assert(out2[back[k]] == out[back[k]]);
            }
        }
    }
}

/// Sort candidates of distinct surfaces by `ranks_before` (insertion sort).
fn sort_by_rank(kept: &Vec<ImeCandidate>, by_segments: bool) -> (res: (
    Vec<ImeCandidate>,
    Ghost<Seq<int>>,
    Ghost<Seq<int>>,
))
    requires
        distinct_surfaces(kept@),
    ensures
        sorted_by_rank(by_segments, res.0@),
        rearranged(kept@, res.0@, res.1@, res.2@),
{
    let mut out: Vec<ImeCandidate> = Vec::new();
    let ghost mut pos: Seq<int> = Seq::empty();
    let ghost mut back: Seq<int> = Seq::empty();
    let mut m: usize = 0;
    while m < kept.len()
        invariant
            m <= kept@.len(),
            distinct_surfaces(kept@),
            sorted_by_rank(by_segments, out@),
            rearranged(kept@.take(m as int), out@, pos, back),
        decreases kept.len() - m,
    {
        let x = &kept[m];
        let mut p: usize = 0;
        while p < out.len() && !ranks_before_exec(by_segments, x, &out[p])
            invariant
                p <= out@.len(),
                forall|q: int| 0 <= q < p ==> !ranks_before(by_segments, *x, #[trigger] out@[q]),
            decreases out.len() - p,
        {
            p = p + 1;
        }
        proof {
            assert forall|q: int| 0 <= q < out@.len() implies #[trigger] out@[q].surface@
                != x.surface@ by {
                let k = pos[q];
                assert(out@[q] == kept@.take(m as int)[k]);
                assert(kept@[k].surface@ != kept@[m as int].surface@);
            }
            lemma_insert_sorted(by_segments, out@, *x, p as int);
            lemma_insert_rearranged(kept@, m as int, out@, pos, back, p as int);
            back = Seq::new(
                (m + 1) as nat,
                |k: int|
                    if k == m {
                        p as int
                    } else if back[k] >= p {
                        back[k] + 1
                    } else {
                        back[k]
                    },
            );
            pos = pos.insert(p as int, m as int);
        }
        out.insert(p, x.duplicate());
        m = m + 1;
    }
    proof {
        assert(kept@.take(m as int) =~= kept@);
    }
    (out, Ghost(pos), Ghost(back))
}

/// Deduplicate `cands` by surface, keeping for each surface the candidate
/// that `displaces` all others (the first such one on ties), and sort the
/// kept candidates by `ranks_before`.
fn dedup_and_sort(cands: &Vec<ImeCandidate>, by_segments: bool) -> (res: Vec<ImeCandidate>)
    ensures
        dedup_sorted(by_segments, cands@, res@),
{
    let (kept, Ghost(idx), Ghost(cov)) = keep_per_surface(cands, by_segments);
    let (out, Ghost(pos), Ghost(back)) = sort_by_rank(&kept, by_segments);
    proof {
        let cs = cands@;
        assert forall|k: int| 0 <= k < out@.len() implies is_kept(
            by_segments,
            cs,
            #[trigger] out@[k],
        ) by {
            let kk = pos[k];
            assert(idx[kk] == idx[kk]);
            assert(kept_for_surface(by_segments, cs, cs.len() as int, idx[kk]));
        }
        assert forall|i: int| 0 <= i < cs.len() implies has_surface(
            out@,
            #[trigger] cs[i].surface@,
        ) by {
            let kk = cov[i];
            let xx = back[kk];
            assert(out@[xx].surface@ == cs[i].surface@);
        }
    }
    out
}

/// Deduplicate candidates by surface, keeping the lowest-cost entry.
/// Then sort: cost ascending → segment_count descending (prefer richer compounds
/// at equal cost) → surface lexicographic for stability.
pub fn dedup_by_cost(candidates: Vec<ImeCandidate>) -> (res: Vec<ImeCandidate>)
    ensures
        dedup_sorted(true, candidates@, res@),
{
    dedup_and_sort(&candidates, true)
}

// ── ime_lookup ────────────────────────────────────────────────────────────────

/// One word found by a reading-prefix search of the lexicon: its id, the
/// word info the lexicon gave for it (`None` when reading it failed) and its
/// connection parameters.
pub struct ReadingHit {
    pub word_id: WordId,
    pub info: Option<WordInfo>,
    pub left_id: i16,
    pub right_id: i16,
    pub cost: i16,
}

/// The full katakana reading of a word.
pub open spec fn katakana_reading(info: WordInfoData) -> Seq<char> {
    katakana_str(form_or_surface(info.reading_form@, info.surface@))
}

/// The part of a word's surface that the typed katakana prefix `typed`
/// covers.
pub open spec fn covered_surface(typed: Seq<char>, info: WordInfoData) -> Seq<char> {
    info.surface@.take(
        surface_prefix_len(info.surface@, katakana_reading(info), typed.len()) as int,
    )
}

/// The hit gives a candidate: its word info was read and the typed prefix
/// covers some of its surface.
pub open spec fn hit_yields(typed: Seq<char>, hit: ReadingHit) -> bool {
    hit.info matches Some(info) && covered_surface(typed, info@).len() > 0
}

/// `c` is the candidate that the hit gives for the typed katakana prefix.
pub open spec fn is_candidate_of_hit(typed: Seq<char>, hit: ReadingHit, c: ImeCandidate) -> bool {
    &&& hit.info matches Some(info)
    &&& c.surface@ == covered_surface(typed, info@)
    &&& c.reading@ == katakana_reading(info@)
    &&& c.word_id == hit.word_id
    &&& c.cost == hit.cost as i32
    &&& c.left_id == hit.left_id as u16
    &&& c.right_id == hit.right_id as u16
    &&& c.segment_count == 1
}

/// `cands` are, in order, the candidates given by those of `hits` that
/// yield one.
pub open spec fn hit_candidates(typed: Seq<char>, hits: Seq<ReadingHit>, cands: Seq<ImeCandidate>) -> bool
    decreases hits.len(),
{
    if hits.len() == 0 {
        cands.len() == 0
    } else if hit_yields(typed, hits.last()) {
        &&& cands.len() > 0
        &&& is_candidate_of_hit(typed, hits.last(), cands.last())
        &&& hit_candidates(typed, hits.drop_last(), cands.drop_last())
    } else {
        hit_candidates(typed, hits.drop_last(), cands)
    }
}

/// Look up IME candidates for a hiragana input string (single-token).
///
/// `hits` are the words that a prefix search of the reading index finds for
/// the katakana form of `typed_hiragana`, in the order the index yields them.
/// For each the aligned surface prefix is computed with
/// [`surface_prefix_for_reading_prefix`]; words whose info could not be read
/// or whose aligned surface is empty give no candidate.
///
/// Results are deduplicated by surface: when several entries yield the same
/// surface the one with the lower cost is kept (the first on a tie).
/// Candidates are sorted by cost (lowest first), then by reading length,
/// then lexicographically by surface.
pub fn ime_lookup(typed_hiragana: &str, hits: &[ReadingHit]) -> (res: Vec<ImeCandidate>)
    ensures
        exists|cands: Seq<ImeCandidate>|
            hit_candidates(katakana_str(typed_hiragana@), hits@, cands) && dedup_sorted(
                false,
                cands,
                res@,
            ),
{
    let katakana = hiragana_to_katakana(typed_hiragana);
    let mut cands: Vec<ImeCandidate> = Vec::new();
    let mut i: usize = 0;
    while i < hits.len()
        invariant
            i <= hits@.len(),
            katakana@ == katakana_str(typed_hiragana@),
            hit_candidates(katakana@, hits@.take(i as int), cands@),
        decreases hits.len() - i,
    {
        let hit = &hits[i];
        let ghost before = cands@;
        proof {
            assert(hits@.take(i + 1).drop_last() =~= hits@.take(i as int));
            assert(hits@.take(i + 1).last() == hits@[i as int]);
        }
        match &hit.info {
            None => {},
            Some(info) => {
                let full_reading = hiragana_to_katakana(info.reading_form());
                let surface = surface_prefix_for_reading_prefix(
                    info.surface(),
                    full_reading.as_str(),
                    katakana.as_str(),
                );
                if !surface.as_str().is_empty() {
                    cands.push(
                        ImeCandidate {
                            surface,
                            word_id: hit.word_id,
                            reading: full_reading,
                            cost: hit.cost as i32,
                            left_id: hit.left_id as u16,
                            right_id: hit.right_id as u16,
                            segment_count: 1,
                        },
                    );
                    proof {
                        assert(cands@.drop_last() =~= before);
                    }
                }
            },
        }
        i = i + 1;
    }
    assert(hits@.take(i as int) =~= hits@);
    let res = dedup_and_sort(&cands, false);
    res
}

// ── ime_lookup_for_node ───────────────────────────────────────────────────────

/// `out` are the candidates of a single Viterbi node with the given fields:
/// for an out-of-vocabulary node the raw kana as surface and reading; else
/// the dictionary surface and katakana reading of its word info, or nothing
/// when that info could not be read (`info` is `None`).
pub open spec fn node_candidates(
    word_id: WordId,
    accumulated_cost: i32,
    left_id: u16,
    right_id: u16,
    is_oov: bool,
    oov_surface: Seq<char>,
    info: Option<WordInfo>,
    out: Seq<ImeCandidate>,
) -> bool {
    if !is_oov && info is None {
        out.len() == 0
    } else {
        &&& out.len() == 1
        &&& out[0].word_id == word_id
        &&& out[0].cost == accumulated_cost
        &&& out[0].left_id == left_id
        &&& out[0].right_id == right_id
        &&& out[0].segment_count == 1
        &&& is_oov ==> out[0].surface@ == oov_surface && out[0].reading@ == oov_surface
        &&& !is_oov ==> out[0].surface@ == info->0@.surface@ && out[0].reading@ == katakana_reading(
            info->0@,
        )
    }
}

/// Produce IME candidates from the raw fields of a single Viterbi node:
/// its word id, the path cost up to and including it, its connection ids,
/// whether it is out of vocabulary (with its raw kana surface), and the word
/// info the lexicon gave for it (`None` when reading it failed).
pub fn ime_lookup_for_node(
    word_id: WordId,
    accumulated_cost: i32,
    left_id: u16,
    right_id: u16,
    is_oov: bool,
    oov_surface: &str,
    info: &Option<WordInfo>,
) -> (res: Vec<ImeCandidate>)
    ensures
        node_candidates(
            word_id,
            accumulated_cost,
            left_id,
            right_id,
            is_oov,
            oov_surface@,
            *info,
            res@,
        ),
{
    // OOV: no dictionary entry — emit the raw kana as both surface and reading.
    if is_oov {
        return vec![
            ImeCandidate {
                surface: oov_surface.to_owned(),
                reading: oov_surface.to_owned(),
                word_id,
                cost: accumulated_cost,
                left_id,
                right_id,
                segment_count: 1,
            },
        ];
    }
    match info {
        None => Vec::new(),
        Some(info) => {
            let surface = info.surface().to_owned();
            let reading = hiragana_to_katakana(info.reading_form());
            vec![
                ImeCandidate {
                    surface,
                    word_id,
                    reading,
                    cost: accumulated_cost,
                    left_id,
                    right_id,
                    segment_count: 1,
                },
            ]
        },
    }
}

// ── compound folding ──────────────────────────────────────────────────────────

/// Maximum number of adjacent Viterbi segments folded into a single compound.
///
/// Capped to avoid exponential blowup on very long inputs; 4 covers the vast
/// majority of real Japanese compounds (大分県美術館 = 2 segments, etc.).
pub const MAX_COMPOUND_SEGMENTS: usize = 4;

/// Every segment list of the span has a candidate.
pub open spec fn all_nonempty(span: Seq<Vec<ImeCandidate>>) -> bool {
    forall|i: int| 0 <= i < span.len() ==> (#[trigger] span[i])@.len() > 0
}

/// The best (first) candidate of each segment list.
pub open spec fn firsts(span: Seq<Vec<ImeCandidate>>) -> Seq<ImeCandidate> {
    Seq::new(span.len(), |i: int| span[i]@[0])
}

/// The surfaces of `s` joined in order.
pub open spec fn joined_surfaces(s: Seq<ImeCandidate>) -> Seq<char>
    decreases s.len(),
{
    if s.len() == 0 {
        Seq::empty()
    } else {
        joined_surfaces(s.drop_last()) + s.last().surface@
    }
}

/// The readings of `s` joined in order.
pub open spec fn joined_readings(s: Seq<ImeCandidate>) -> Seq<char>
    decreases s.len(),
{
    if s.len() == 0 {
        Seq::empty()
    } else {
        joined_readings(s.drop_last()) + s.last().reading@
    }
}

/// The costs and connection ids (accumulated cost, own word cost, left id,
/// right id) of each candidate, with `w[i]` the word cost of segment `i`.
pub open spec fn cost_links(s: Seq<ImeCandidate>, w: Seq<i16>) -> Seq<(i32, i16, u16, u16)> {
    Seq::new(s.len(), |i: int| (s[i].cost, w[i], s[i].left_id, s[i].right_id))
}

/// The links from the first up to link `k` of the segments `t` all look up
/// rows of the stripe that `conn` holds in memory.
pub open spec fn in_stripe(t: Seq<(i32, i16, u16, u16)>, conn: &ConnectionMatrix, k: int) -> bool {
    forall|m: int| 1 <= m <= k ==> (#[trigger] t[m]).2 as int / 256 == conn.cached_stripe()
}

/// The connection cost that the lookup of link `k` (from segment `k - 1` to
/// segment `k`, segments given by accumulated cost, word cost, left id and
/// right id) answers when the links are looked up in order on `conn`: while
/// every lookup so far, and, unless `fresh`, one made before, stayed in the
/// stripe held in memory, the cell as it stands there (updates made to it
/// included); after, the cost kept by the dictionary.
pub open spec fn link_cost(
    t: Seq<(i32, i16, u16, u16)>,
    conn: &ConnectionMatrix,
    k: int,
    fresh: bool,
) -> int {
    if fresh && in_stripe(t, conn, k) {
        conn.cell(t[k - 1].3 as int, t[k].2 as int) as int
    } else {
        conn.stored(t[k - 1].3 as int, t[k].2 as int) as int
    }
}

/// The cost of the compound of the first `n` segments: the accumulated cost
/// of the first, then for each further one its connection cost and its own
/// word cost (not its accumulated one, which already holds the segments
/// before it on the Viterbi path).
pub open spec fn compound_cost(
    t: Seq<(i32, i16, u16, u16)>,
    conn: &ConnectionMatrix,
    n: int,
    fresh: bool,
) -> int
    decreases n,
{
    if n <= 1 {
        t[0].0 as int
    } else {
        compound_cost(t, conn, n - 1, fresh) + link_cost(t, conn, n - 1, fresh) + t[n - 1].1
    }
}

/// The link into segment `k` can be looked up in `conn` and adds up within
/// `i32`.
pub open spec fn link_fits(
    t: Seq<(i32, i16, u16, u16)>,
    conn: &ConnectionMatrix,
    k: int,
    fresh: bool,
) -> bool {
    &&& (t[k - 1].3 as int) < conn.left_count()
    &&& (t[k].2 as int) < conn.right_count()
    &&& conn.row_loadable(t[k].2 as int)
    &&& i32::MIN <= link_cost(t, conn, k, fresh) + t[k].1 <= i32::MAX
    &&& i32::MIN <= compound_cost(t, conn, k + 1, fresh) <= i32::MAX
}

/// Every link of the compound of the segments `t` fits.
pub open spec fn compound_fits(t: Seq<(i32, i16, u16, u16)>, conn: &ConnectionMatrix, fresh: bool) -> bool {
    forall|k: int| 1 <= k < t.len() ==> #[trigger] link_fits(t, conn, k, fresh)
}

/// `after` holds the stripe that `before` holds, and every lookup of it
/// answers as one of `before` does.
pub open spec fn matrix_kept(before: &ConnectionMatrix, after: &ConnectionMatrix) -> bool {
    &&& after.cached_stripe() == before.cached_stripe()
    &&& forall|l: int, r: int|
        0 <= l < before.left_count() && 0 <= r < before.right_count() ==> #[trigger] after.cell(l, r)
            == before.cell(l, r)
}

/// A compound costs on `c1` what it costs on `c0` when `c1` keeps the
/// lookups of `c0`, or when `c1` answers its kept costs and the lookups on
/// `c0` had already left the stripe held in memory.
proof fn lemma_compound_cost_kept(
    t: Seq<(i32, i16, u16, u16)>,
    c0: &ConnectionMatrix,
    f0: bool,
    c1: &ConnectionMatrix,
    f1: bool,
    n: int,
)
    requires
        lookups_kept(c0, c1),
        (f1 == f0 && matrix_kept(c0, c1)) || (!f0 && c1.consistent()),
        compound_fits(t, c0, f0),
        1 <= n <= t.len(),
    ensures
        compound_cost(t, c1, n, f1) == compound_cost(t, c0, n, f0),
        forall|k: int| 1 <= k < n ==> #[trigger] link_fits(t, c1, k, f1),
    decreases n,
{
    if n > 1 {
        lemma_compound_cost_kept(t, c0, f0, c1, f1, n - 1);
        assert(link_fits(t, c0, n - 1, f0));
        let l = t[n - 2].3 as int;
        let r = t[n - 1].2 as int;
        assert(c1.stored(l, r) == c0.stored(l, r));
        if f1 == f0 && matrix_kept(c0, c1) {
            assert(c1.cell(l, r) == c0.cell(l, r));
            assert(in_stripe(t, c1, n - 1) == in_stripe(t, c0, n - 1));
        } else {
            assert(c1.cell(l, r) == c1.stored(l, r));
        }
        assert(link_cost(t, c1, n - 1, f1) == link_cost(t, c0, n - 1, f0));
        assert forall|k: int| 1 <= k < n implies #[trigger] link_fits(t, c1, k, f1) by {
            assert(link_fits(t, c0, k, f0));
            if k < n - 1 {
                assert(link_fits(t, c1, k, f1));
            }
        }
    }
}

/// `c` is the compound folded from the candidates `f`, one per segment whose
/// own word costs are `w`, with the connection costs of `conn`.
pub open spec fn is_compound_of(
    f: Seq<ImeCandidate>,
    w: Seq<i16>,
    conn: &ConnectionMatrix,
    fresh: bool,
    c: ImeCandidate,
) -> bool {
    &&& f.len() > 0
    &&& c.surface@ == joined_surfaces(f)
    &&& c.reading@ == joined_readings(f)
    &&& c.cost == compound_cost(cost_links(f, w), conn, f.len() as int, fresh)
    &&& c.word_id == f[0].word_id
    &&& c.left_id == f[0].left_id
    &&& c.right_id == f.last().right_id
    &&& c.segment_count == f.len()
}

/// `after` answers lookups as `before` does: same ids, same kept costs, the
/// same rows loadable, and consistent when `before` is.
pub open spec fn lookups_kept(before: &ConnectionMatrix, after: &ConnectionMatrix) -> bool {
    &&& after.left_count() == before.left_count()
    &&& after.right_count() == before.right_count()
    &&& forall|r: int| #[trigger] after.row_loadable(r) == before.row_loadable(r)
    &&& forall|l: int, r: int|
        0 <= l < before.left_count() && 0 <= r < before.right_count() ==> #[trigger] after.stored(
            l,
            r,
        ) == before.stored(l, r)
    &&& before.consistent() ==> after.consistent()
}

/// The lookups of the compound of `span` stay in the stripe that `conn`
/// holds in memory: none is made, or all look up rows of that stripe.
pub open spec fn span_stays(span: Seq<Vec<ImeCandidate>>, w: Seq<i16>, conn: &ConnectionMatrix) -> bool {
    !all_nonempty(span) || in_stripe(cost_links(firsts(span), w), conn, span.len() - 1)
}

/// Fold a contiguous span of per-segment candidate lists into a single
/// compound [`ImeCandidate`], using the best (first) candidate of each
/// segment; `word_costs[i]` is the own word cost of segment `i`. The compound
/// starts from the accumulated cost of the first segment; each further
/// segment adds the connection cost into it, the one Viterbi uses, and its
/// own word cost. Returns `None` if the span or any of its segment lists is
/// empty.
///
/// The connection costs are looked up in order: while they stay in the
/// stripe of a compressed matrix held in memory, they answer its cells as
/// they stand (updates made to them included), and once one leaves it, the
/// costs kept by the dictionary.
pub fn fold_span(span: &[Vec<ImeCandidate>], word_costs: &[i16], conn: &mut ConnectionMatrix) -> (res:
    Option<ImeCandidate>)
    requires
        word_costs@.len() == span@.len(),
        all_nonempty(span@) ==> compound_fits(
            cost_links(firsts(span@), word_costs@),
            &*old(conn),
            true,
        ),
    ensures
        res is None <==> (span@.len() == 0 || !all_nonempty(span@)),
        res matches Some(c) ==> is_compound_of(firsts(span@), word_costs@, &*old(conn), true, c),
        lookups_kept(&*old(conn), &*final(conn)),
        span_stays(span@, word_costs@, &*old(conn)) ==> matrix_kept(&*old(conn), &*final(conn)),
        !span_stays(span@, word_costs@, &*old(conn)) ==> final(conn).consistent(),
{
    let ghost c0 = *conn;
    if span.len() == 0 {
        return None;
    }
    let mut i: usize = 0;
    while i < span.len()
        invariant
            i <= span@.len(),
            forall|j: int| 0 <= j < i ==> (#[trigger] span@[j])@.len() > 0,
        decreases span.len() - i,
    {
        if span[i].len() == 0 {
            return None;
        }
        i = i + 1;
    }
    let ghost f = firsts(span@);
    let ghost t = cost_links(f, word_costs@);
    assert(compound_fits(t, &c0, true));
    let first = &span[0][0];
    let mut surface = first.surface.clone();
    let mut reading = first.reading.clone();
    let mut total_cost: i32 = first.cost;
    proof {
        let t = f.take(1);
        assert(t.drop_last() =~= Seq::<ImeCandidate>::empty());
        assert(t.last() == f[0]);
        assert(f[0] == *first);
        assert(joined_surfaces(t) == joined_surfaces(t.drop_last()) + t.last().surface@);
        assert(joined_surfaces(t.drop_last()) =~= Seq::<char>::empty());
        assert(joined_surfaces(t) =~= first.surface@);
        assert(joined_readings(t) == joined_readings(t.drop_last()) + t.last().reading@);
        assert(joined_readings(t.drop_last()) =~= Seq::<char>::empty());
        assert(joined_readings(t) =~= first.reading@);
    }
    let mut k: usize = 1;
    while k < span.len()
        invariant
            1 <= k <= span@.len(),
            f == firsts(span@),
            all_nonempty(span@),
            word_costs@.len() == span@.len(),
            t == cost_links(f, word_costs@),
            compound_fits(t, &c0, true),
            surface@ == joined_surfaces(f.take(k as int)),
            reading@ == joined_readings(f.take(k as int)),
            total_cost == compound_cost(t, &c0, k as int, true),
            lookups_kept(&c0, &*conn),
            in_stripe(t, &c0, k - 1) ==> matrix_kept(&c0, &*conn),
            !in_stripe(t, &c0, k - 1) ==> conn.consistent(),
        decreases span.len() - k,
    {
        let prev = &span[k - 1][0];
        let curr = &span[k][0];
        let ghost cb = *conn;
        proof {
            assert(link_fits(t, &c0, k as int, true));
            assert(t[k as int].2 == curr.left_id);
            assert(t[k - 1].3 == prev.right_id);
        }
        let connect_cost = conn.cost(prev.right_id, curr.left_id) as i32;
        proof {
            let l = prev.right_id as int;
            let r = curr.left_id as int;
            if in_stripe(t, &c0, k as int) {
                assert(in_stripe(t, &c0, k - 1));
                assert(t[k as int].2 as int / 256 == c0.cached_stripe());
                assert(cb.cell(l, r) == c0.cell(l, r));
                assert forall|l2: int, r2: int|
                    0 <= l2 < c0.left_count() && 0 <= r2 < c0.right_count() implies #[trigger] conn.cell(
                    l2,
                    r2,
                ) == c0.cell(l2, r2) by {
                    assert(conn.cell(l2, r2) == cb.cell_after_lookup(r, l2, r2));
                }
                assert(c0.cached_stripe() >= 0);
                cb.lemma_stripe_compressed();
                assert(conn.cached_stripe() == c0.cached_stripe());
            } else if in_stripe(t, &c0, k - 1) {
                assert(t[k as int].2 as int / 256 != c0.cached_stripe());
                cb.lemma_cell_off_stripe(l, r);
                assert forall|l2: int, r2: int|
                    0 <= l2 < conn.left_count() && 0 <= r2 < conn.right_count() implies #[trigger] conn.cell(
                    l2,
                    r2,
                ) == conn.stored(l2, r2) by {
                    assert(conn.cell(l2, r2) == cb.cell_after_lookup(r, l2, r2));
                    if r2 / 256 != cb.cached_stripe() {
                        cb.lemma_cell_off_stripe(l2, r2);
                    }
                }
            } else {
                assert(cb.cell(l, r) == cb.stored(l, r));
            }
            assert(connect_cost == link_cost(t, &c0, k as int, true));
        }
        total_cost = total_cost + (connect_cost + word_costs[k] as i32);
        surface.append(curr.surface.as_str());
        reading.append(curr.reading.as_str());
        proof {
            assert(f.take(k + 1).drop_last() =~= f.take(k as int));
        }
        k = k + 1;
    }
    assert(f.take(k as int) =~= f);
    let last = &span[span.len() - 1][0];
    Some(
        ImeCandidate {
            surface,
            word_id: first.word_id,
            reading,
            cost: total_cost,
            left_id: first.left_id,
            right_id: last.right_id,
            segment_count: span.len(),
        },
    )
}

// ── ime_lookup_compound ───────────────────────────────────────────────────────

/// The fields of one node of the best Viterbi path, read at the lattice
/// boundary: its word id, the path cost up to and including it, its own word
/// cost, its connection ids, whether it is out of vocabulary with its raw
/// kana surface (empty otherwise), and the word info the lexicon gave for
/// its word (`None` when reading it failed).
pub struct PathNode {
    pub word_id: WordId,
    pub cost: i32,
    pub word_cost: i16,
    pub left_id: u16,
    pub right_id: u16,
    pub is_oov: bool,
    pub oov_surface: String,
    pub info: Option<WordInfo>,
}

/// The nodes of `path` that are words: end-of-sentence markers dropped.
pub open spec fn word_nodes(path: Seq<PathNode>) -> Seq<PathNode>
    decreases path.len(),
{
    if path.len() == 0 {
        Seq::empty()
    } else if path.last().word_id.raw_spec() == 0xffff_ffff {
        word_nodes(path.drop_last())
    } else {
        word_nodes(path.drop_last()).push(path.last())
    }
}

/// `segs[i]` are the candidates of node `i`.
pub open spec fn node_segments(nodes: Seq<PathNode>, segs: Seq<Vec<ImeCandidate>>) -> bool {
    &&& segs.len() == nodes.len()
    &&& forall|i: int|
        0 <= i < nodes.len() ==> node_candidates(
            (#[trigger] nodes[i]).word_id,
            nodes[i].cost,
            nodes[i].left_id,
            nodes[i].right_id,
            nodes[i].is_oov,
            nodes[i].oov_surface@,
            nodes[i].info,
            segs[i]@,
        )
}

/// The node gives a candidate.
pub open spec fn node_gives(n: PathNode) -> bool {
    n.is_oov || n.info is Some
}

/// The own word cost of each node.
pub open spec fn node_word_costs(nodes: Seq<PathNode>) -> Seq<i16> {
    Seq::new(nodes.len(), |i: int| nodes[i].word_cost)
}

/// The accumulated cost, word cost and connection ids of each node.
pub open spec fn node_links(nodes: Seq<PathNode>) -> Seq<(i32, i16, u16, u16)> {
    Seq::new(
        nodes.len(),
        |i: int| (nodes[i].cost, nodes[i].word_cost, nodes[i].left_id, nodes[i].right_id),
    )
}

/// The candidates of all segments, in order.
pub open spec fn flatten(segs: Seq<Vec<ImeCandidate>>) -> Seq<ImeCandidate>
    decreases segs.len(),
{
    if segs.len() == 0 {
        Seq::empty()
    } else {
        flatten(segs.drop_last()) + segs.last()@
    }
}

/// The spans `(i, j)` folded for start `i` of a path of `n` segments: `j`
/// from `i + 1` while `j < n` and `j < i + MAX_COMPOUND_SEGMENTS`.
pub open spec fn spans_from(n: int, i: int) -> Seq<(int, int)> {
    let end = if n < i + MAX_COMPOUND_SEGMENTS {
        n
    } else {
        i + MAX_COMPOUND_SEGMENTS
    };
    Seq::new(if end > i + 1 { (end - i - 1) as nat } else { 0 }, |d: int| (i, i + 1 + d))
}

/// The spans folded for the starts `0..m` of a path of `n` segments, in order.
pub open spec fn compound_spans(n: int, m: int) -> Seq<(int, int)>
    decreases m,
{
    if m <= 0 {
        Seq::empty()
    } else {
        compound_spans(n, m - 1) + spans_from(n, m - 1)
    }
}

/// Every node of `nodes[i..=j]` gives a candidate.
pub open spec fn span_gives(nodes: Seq<PathNode>, i: int, j: int) -> bool {
    forall|t: int| i <= t <= j ==> node_gives(#[trigger] nodes[t])
}

/// The lookups of the compounds folded, in order, for `spans` of the path
/// `nodes` all stay in the stripe that `conn` holds in memory.
pub open spec fn spans_stay(nodes: Seq<PathNode>, conn: &ConnectionMatrix, spans: Seq<(int, int)>) -> bool
    decreases spans.len(),
{
    if spans.len() == 0 {
        true
    } else {
        let (i, j) = spans.last();
        &&& spans_stay(nodes, conn, spans.drop_last())
        &&& span_gives(nodes, i, j) ==> in_stripe(node_links(nodes).subrange(i, j + 1), conn, j - i)
    }
}

/// `comps` are, in order, the compounds folded from those of `spans` whose
/// segments all have a candidate, with the connection costs that the
/// lookups, made in order on `conn`, answer.
pub open spec fn span_compounds(
    segs: Seq<Vec<ImeCandidate>>,
    nodes: Seq<PathNode>,
    conn: &ConnectionMatrix,
    spans: Seq<(int, int)>,
    comps: Seq<ImeCandidate>,
) -> bool
    decreases spans.len(),
{
    if spans.len() == 0 {
        comps.len() == 0
    } else {
        let (i, j) = spans.last();
        let sp = segs.subrange(i, j + 1);
        if all_nonempty(sp) {
            &&& comps.len() > 0
            &&& is_compound_of(
                firsts(sp),
                node_word_costs(nodes).subrange(i, j + 1),
                conn,
                spans_stay(nodes, conn, spans.drop_last()),
                comps.last(),
            )
            &&& span_compounds(segs, nodes, conn, spans.drop_last(), comps.drop_last())
        } else {
            span_compounds(segs, nodes, conn, spans.drop_last(), comps)
        }
    }
}

/// The compound of span `m` of `spans` can be looked up and costed within
/// `i32`, after the lookups of the spans before it.
pub open spec fn span_fits(nodes: Seq<PathNode>, conn: &ConnectionMatrix, spans: Seq<(int, int)>, m: int) -> bool {
    compound_fits(
        node_links(nodes).subrange(spans[m].0, spans[m].1 + 1),
        conn,
        spans_stay(nodes, conn, spans.take(m)),
    )
}

/// Every compound of the path can be looked up and costed within `i32`.
pub open spec fn path_fits(nodes: Seq<PathNode>, conn: &ConnectionMatrix) -> bool {
    let spans = compound_spans(nodes.len() as int, nodes.len() as int);
    forall|m: int|
        0 <= m < spans.len() && span_gives(nodes, spans[m].0, spans[m].1) ==> #[trigger] span_fits(
            nodes,
            conn,
            spans,
            m,
        )
}

/// The spans folded for the first starts come first among those folded for
/// more starts.
proof fn lemma_spans_prefix(n: int, a: int, b: int)
    requires
        0 <= a <= b,
    ensures
        compound_spans(n, a).len() <= compound_spans(n, b).len(),
        compound_spans(n, b).take(compound_spans(n, a).len() as int) == compound_spans(n, a),
    decreases b,
{
    if b > a {
        lemma_spans_prefix(n, a, b - 1);
        let p = compound_spans(n, b - 1);
        assert(compound_spans(n, b) == p + spans_from(n, b - 1));
        assert((p + spans_from(n, b - 1)).take(compound_spans(n, a).len() as int) =~= p.take(
            compound_spans(n, a).len() as int,
        ));
    } else {
        assert(compound_spans(n, b).take(compound_spans(n, a).len() as int) =~= compound_spans(n, a));
    }
}

/// The spans folded so far, for starts before `i` and the first `d` spans of
/// start `i`, are the first ones of all spans folded for the path, and the
/// next is `(i, i + 1 + d)`.
proof fn lemma_span_index(n: int, i: int, d: int)
    requires
        0 <= i < n,
        0 <= d < spans_from(n, i).len(),
    ensures
        ({
            let cur = compound_spans(n, i) + spans_from(n, i).take(d);
            let all = compound_spans(n, n);
            &&& cur.len() < all.len()
            &&& all.take(cur.len() as int) == cur
            &&& all[cur.len() as int] == (i, i + 1 + d)
        }),
{
    let cur = compound_spans(n, i) + spans_from(n, i).take(d);
    let next = compound_spans(n, i + 1);
    assert(next == compound_spans(n, i) + spans_from(n, i));
    lemma_spans_prefix(n, i + 1, n);
    let all = compound_spans(n, n);
    assert(all.take(next.len() as int) == next);
    assert(all.take(cur.len() as int) =~= next.take(cur.len() as int));
    assert(next.take(cur.len() as int) =~= cur);
    assert(all[cur.len() as int] == next[cur.len() as int]);
}

/// The first candidates of a span of node segments carry the costs and ids
/// of its nodes.
proof fn lemma_span_links(nodes: Seq<PathNode>, segs: Seq<Vec<ImeCandidate>>, i: int, j: int)
    requires
        node_segments(nodes, segs),
        0 <= i <= j < nodes.len(),
    ensures
        all_nonempty(segs.subrange(i, j + 1)) <==> (forall|t: int|
            i <= t <= j ==> node_gives(#[trigger] nodes[t])),
        all_nonempty(segs.subrange(i, j + 1)) ==> cost_links(
            firsts(segs.subrange(i, j + 1)),
            node_word_costs(nodes).subrange(i, j + 1),
        ) =~= node_links(nodes).subrange(i, j + 1),
{
    let sp = segs.subrange(i, j + 1);
    if all_nonempty(sp) {
        assert forall|t: int| i <= t <= j implies node_gives(#[trigger] nodes[t]) by {
            assert(sp[t - i] == segs[t]);
            assert(sp[t - i]@.len() > 0);
        }
    }
    if forall|t: int| i <= t <= j ==> node_gives(#[trigger] nodes[t]) {
        assert forall|u: int| 0 <= u < sp.len() implies (#[trigger] sp[u])@.len() > 0 by {
            assert(node_gives(nodes[i + u]));
        }
    }
}

/// The spans folded for the starts `0..m` of a path of `n` segments are the
/// runs `(i, j)` with `i < m` of two to four contiguous segments.
proof fn lemma_compound_spans_upto(n: int, m: int)
    requires
        0 <= m,
    ensures
        forall|i: int, j: int|
            #[trigger] compound_spans(n, m).contains((i, j)) <==> (0 <= i < m && i < j < n && j
                - i + 1 <= 4),
    decreases m,
{
    if m > 0 {
        lemma_compound_spans_upto(n, m - 1);
        let prev = compound_spans(n, m - 1);
        let last = spans_from(n, m - 1);
        assert(compound_spans(n, m) == prev + last);
        assert forall|i: int, j: int|
            #[trigger] compound_spans(n, m).contains((i, j)) <==> (0 <= i < m && i < j < n && j
                - i + 1 <= 4) by {
            let all = prev + last;
            if all.contains((i, j)) {
                let k = choose|k: int| 0 <= k < all.len() && all[k] == (i, j);
                if k >= prev.len() {
                    assert(last[k - prev.len()] == (i, j));
                } else {
                    assert(prev.contains((i, j)));
                }
            }
            if 0 <= i < m && i < j < n && j - i + 1 <= 4 {
                if i < m - 1 {
                    assert(prev.contains((i, j)));
                    let k = choose|k: int| 0 <= k < prev.len() && prev[k] == (i, j);
                    assert(all[k] == (i, j));
                } else {
                    let d = j - i - 1;
                    assert(last[d] == (i, j));
                    assert(all[prev.len() + d] == (i, j));
                }
            }
        }
    }
}

/// Compound spans: for a path of `n` segments, the spans whose compounds
/// are folded are exactly the contiguous runs of two up to four
/// (`MAX_COMPOUND_SEGMENTS`) segments.
pub proof fn lemma_compound_spans(n: int)
    requires
        0 <= n,
    ensures
        MAX_COMPOUND_SEGMENTS == 4,
        forall|i: int, j: int|
            #[trigger] compound_spans(n, n).contains((i, j)) <==> (0 <= i && i < j < n && j - i + 1
                <= 4),
{
    lemma_compound_spans_upto(n, n);
}

/// A span of `spans` all of whose segments have a candidate has its compound
/// among `comps`.
proof fn lemma_span_has_compound(
    segs: Seq<Vec<ImeCandidate>>,
    nodes: Seq<PathNode>,
    conn: &ConnectionMatrix,
    spans: Seq<(int, int)>,
    comps: Seq<ImeCandidate>,
    t: int,
)
    requires
        span_compounds(segs, nodes, conn, spans, comps),
        0 <= t < spans.len(),
        0 <= spans[t].0 <= spans[t].1 < segs.len(),
        all_nonempty(segs.subrange(spans[t].0, spans[t].1 + 1)),
    ensures
        exists|k: int|
            0 <= k < comps.len() && {
                let sp = segs.subrange(spans[t].0, spans[t].1 + 1);
                &&& (#[trigger] comps[k]).surface@ == joined_surfaces(firsts(sp))
                &&& comps[k].reading@ == joined_readings(firsts(sp))
                &&& comps[k].segment_count == spans[t].1 - spans[t].0 + 1
            },
    decreases spans.len(),
{
    let (i, j) = spans.last();
    let sp = segs.subrange(i, j + 1);
    if t == spans.len() - 1 {
        let k = comps.len() - 1;
        assert(comps[k] == comps.last());
        assert(firsts(sp).len() == j - i + 1);
    } else {
        assert(spans.drop_last()[t] == spans[t]);
        if all_nonempty(sp) {
            lemma_span_has_compound(segs, nodes, conn, spans.drop_last(), comps.drop_last(), t);
            let k = choose|k: int|
                0 <= k < comps.drop_last().len() && {
                    let sq = segs.subrange(spans[t].0, spans[t].1 + 1);
                    &&& (#[trigger] comps.drop_last()[k]).surface@ == joined_surfaces(firsts(sq))
                    &&& comps.drop_last()[k].reading@ == joined_readings(firsts(sq))
                    &&& comps.drop_last()[k].segment_count == spans[t].1 - spans[t].0 + 1
                };
            assert(comps[k] == comps.drop_last()[k]);
        } else {
            lemma_span_has_compound(segs, nodes, conn, spans.drop_last(), comps, t);
        }
    }
}

/// Every run of two to four (`MAX_COMPOUND_SEGMENTS`) contiguous path
/// segments that all have a candidate is folded into a compound: among the
/// compounds of a lookup there is one whose surface and reading join those
/// of the segments' best candidates, made of `j - i + 1` segments, and its
/// surface is among the candidates returned.
pub proof fn lemma_every_span_folded(
    segs: Seq<Vec<ImeCandidate>>,
    nodes: Seq<PathNode>,
    conn: &ConnectionMatrix,
    comps: Seq<ImeCandidate>,
    res: Seq<ImeCandidate>,
    i: int,
    j: int,
)
    requires
        span_compounds(
            segs,
            nodes,
            conn,
            compound_spans(segs.len() as int, segs.len() as int),
            comps,
        ),
        dedup_sorted(true, flatten(segs) + comps, res),
        0 <= i < j < segs.len(),
        j - i + 1 <= 4,
        all_nonempty(segs.subrange(i, j + 1)),
    ensures
        exists|k: int|
            0 <= k < comps.len() && {
                let sp = segs.subrange(i, j + 1);
                &&& (#[trigger] comps[k]).surface@ == joined_surfaces(firsts(sp))
                &&& comps[k].reading@ == joined_readings(firsts(sp))
                &&& comps[k].segment_count == j - i + 1
            },
        has_surface(res, joined_surfaces(firsts(segs.subrange(i, j + 1)))),
{
    let n = segs.len() as int;
    let spans = compound_spans(n, n);
    lemma_compound_spans(n);
    assert(spans.contains((i, j)));
    let t = choose|t: int| 0 <= t < spans.len() && spans[t] == (i, j);
    lemma_span_has_compound(segs, nodes, conn, spans, comps, t);
    let sp = segs.subrange(i, j + 1);
    let k = choose|k: int|
        0 <= k < comps.len() && {
            &&& (#[trigger] comps[k]).surface@ == joined_surfaces(firsts(sp))
            &&& comps[k].reading@ == joined_readings(firsts(sp))
            &&& comps[k].segment_count == j - i + 1
        };
    let all = flatten(segs) + comps;
    assert(all[flatten(segs).len() + k] == comps[k]);
    assert(has_surface(res, all[flatten(segs).len() + k].surface@));
}

/// Each candidate of each segment lies in the flattened candidates.
proof fn lemma_flatten_member(segs: Seq<Vec<ImeCandidate>>, i: int, k: int)
    requires
        0 <= i < segs.len(),
        0 <= k < segs[i]@.len(),
    ensures
        exists|m: int| 0 <= m < flatten(segs).len() && #[trigger] flatten(segs)[m] == segs[i]@[k],
    decreases segs.len(),
{
    let d = segs.drop_last();
    if i == segs.len() - 1 {
        let m = flatten(d).len() + k;
        assert(flatten(segs)[m] == segs.last()@[k]);
    } else {
        assert(d[i] == segs[i]);
        lemma_flatten_member(d, i, k);
        let m = choose|m: int| 0 <= m < flatten(d).len() && #[trigger] flatten(d)[m] == d[i]@[k];
        assert(flatten(segs)[m] == flatten(d)[m]);
    }
}

/// No single-segment candidate is lost: the surface of every candidate of
/// every segment is among the candidates returned.
pub proof fn lemma_singles_kept(
    segs: Seq<Vec<ImeCandidate>>,
    comps: Seq<ImeCandidate>,
    res: Seq<ImeCandidate>,
    i: int,
    k: int,
)
    requires
        dedup_sorted(true, flatten(segs) + comps, res),
        0 <= i < segs.len(),
        0 <= k < segs[i]@.len(),
    ensures
        has_surface(res, segs[i]@[k].surface@),
{
    lemma_flatten_member(segs, i, k);
    let m = choose|m: int| 0 <= m < flatten(segs).len() && #[trigger] flatten(segs)[m] == segs[i]@[k];
    let all = flatten(segs) + comps;
    assert(all[m] == segs[i]@[k]);
}

/// A compound's surface and reading are those of its parts in order: one
/// more part appends its surface and reading at the end, and two parts give
/// the first's followed by the second's.
pub proof fn lemma_joined_in_order(f: Seq<ImeCandidate>, x: ImeCandidate, a: ImeCandidate, b: ImeCandidate)
    ensures
        joined_surfaces(Seq::<ImeCandidate>::empty()).len() == 0,
        joined_readings(Seq::<ImeCandidate>::empty()).len() == 0,
        joined_surfaces(f.push(x)) == joined_surfaces(f) + x.surface@,
        joined_readings(f.push(x)) == joined_readings(f) + x.reading@,
        joined_surfaces(seq![a, b]) == a.surface@ + b.surface@,
        joined_readings(seq![a, b]) == a.reading@ + b.reading@,
{
    assert(f.push(x).drop_last() =~= f);
    let two = seq![a, b];
    assert(two.drop_last() =~= seq![a]);
    let one = seq![a];
    assert(one.drop_last() =~= Seq::<ImeCandidate>::empty());
    assert(one.last() == a);
    assert(joined_surfaces(one) == joined_surfaces(one.drop_last()) + a.surface@);
    assert(joined_surfaces(one.drop_last()) =~= Seq::<char>::empty());
    assert(joined_surfaces(one) =~= a.surface@);
    assert(joined_readings(one) == joined_readings(one.drop_last()) + a.reading@);
    assert(joined_readings(one.drop_last()) =~= Seq::<char>::empty());
    assert(joined_readings(one) =~= a.reading@);
    assert(two.last() == b);
}

/// Compound cost: the first segment counts with its accumulated path cost;
/// each further segment adds the connection cost into it and its own word
/// cost, not its accumulated one. On a matrix whose lookups answer the kept
/// costs, a compound of two segments costs the first's accumulated cost,
/// the kept connection cost and the second's word cost.
pub proof fn lemma_compound_cost_parts(
    t: Seq<(i32, i16, u16, u16)>,
    conn: &ConnectionMatrix,
    n: int,
    fresh: bool,
)
    requires
        1 <= n < t.len(),
    ensures
        compound_cost(t, conn, 1, fresh) == t[0].0,
        compound_cost(t, conn, n + 1, fresh) == compound_cost(t, conn, n, fresh) + link_cost(
            t,
            conn,
            n,
            fresh,
        ) + t[n].1,
        conn.consistent() && (t[0].3 as int) < conn.left_count() && (t[1].2 as int)
            < conn.right_count() ==> compound_cost(t, conn, 2, fresh) == t[0].0 + conn.stored(
            t[0].3 as int,
            t[1].2 as int,
        ) + t[1].1,
{
    if conn.consistent() && (t[0].3 as int) < conn.left_count() && (t[1].2 as int) < conn.right_count() {
        assert(conn.cell(t[0].3 as int, t[1].2 as int) == conn.stored(t[0].3 as int, t[1].2 as int));
        assert(compound_cost(t, conn, 2, fresh) == compound_cost(t, conn, 1, fresh) + link_cost(t, conn, 1, fresh) + t[1].1);
    }
}

/// Compound-aware IME lookup using the best Viterbi path.
///
/// 1. Drops the end-of-sentence nodes of `path`; when no node is left, the
///    single-token lookup [`ime_lookup`] over `hits` answers.
/// 2. Collects per-segment candidates via [`ime_lookup_for_node`].
/// 3. Emits the single-segment candidates of every node.
/// 4. Folds all contiguous spans of up to [`MAX_COMPOUND_SEGMENTS`] nodes into
///    compound candidates with [`fold_span`]: the accumulated cost of the
///    first node, then for each further node the connection cost from `conn`
///    and its own word cost. The spans are folded in order, so the lookups
///    of a compressed matrix answer as [`fold_span`] says across all of them.
/// 5. Deduplicates by surface (lowest cost wins) and sorts.
pub fn ime_lookup_compound(
    typed_hiragana: &str,
    path: &[PathNode],
    hits: &[ReadingHit],
    conn: &mut ConnectionMatrix,
) -> (res: Vec<ImeCandidate>)
    requires
        path_fits(word_nodes(path@), &*old(conn)),
    ensures
        word_nodes(path@).len() == 0 ==> exists|cands: Seq<ImeCandidate>|
            hit_candidates(katakana_str(typed_hiragana@), hits@, cands) && dedup_sorted(
                false,
                cands,
                res@,
            ),
        word_nodes(path@).len() > 0 ==> exists|
            segs: Seq<Vec<ImeCandidate>>,
            comps: Seq<ImeCandidate>,
        |
            node_segments(word_nodes(path@), segs) && span_compounds(
                segs,
                word_nodes(path@),
                &*old(conn),
                compound_spans(segs.len() as int, segs.len() as int),
                comps,
            ) && dedup_sorted(true, flatten(segs) + comps, res@),
        lookups_kept(&*old(conn), &*final(conn)),
{
    let ghost c0 = *conn;
    // 1. Per-segment candidates of the word nodes of the path.
    let mut segs: Vec<Vec<ImeCandidate>> = Vec::new();
    let mut wcs: Vec<i16> = Vec::new();
    let mut p: usize = 0;
    while p < path.len()
        invariant
            p <= path@.len(),
            node_segments(word_nodes(path@.take(p as int)), segs@),
            wcs@ == node_word_costs(word_nodes(path@.take(p as int))),
        decreases path.len() - p,
    {
        let node = &path[p];
        proof {
            assert(path@.take(p + 1).drop_last() =~= path@.take(p as int));
            assert(path@.take(p + 1).last() == path@[p as int]);
        }
        if node.word_id.as_raw() != WordId::eos().as_raw() {
            let seg = ime_lookup_for_node(
                node.word_id,
                node.cost,
                node.left_id,
                node.right_id,
                node.is_oov,
                node.oov_surface.as_str(),
                &node.info,
            );
            let ghost before = segs@;
            segs.push(seg);
            wcs.push(node.word_cost);
            proof {
                let nodes = word_nodes(path@.take(p + 1));
                assert(node.word_id.raw_spec() != 0xffff_ffff);
                assert(nodes == word_nodes(path@.take(p as int)).push(path@[p as int]));
                assert(wcs@ =~= node_word_costs(nodes));
                assert forall|i: int|
                    0 <= i < nodes.len() implies node_candidates(
                    (#[trigger] nodes[i]).word_id,
                    nodes[i].cost,
                    nodes[i].left_id,
                    nodes[i].right_id,
                    nodes[i].is_oov,
                    nodes[i].oov_surface@,
                    nodes[i].info,
                    segs@[i]@,
                ) by {
                    if i < nodes.len() - 1 {
                        assert(nodes[i] == word_nodes(path@.take(p as int))[i]);
                        assert(segs@[i] == before[i]);
                    }
                }
            }
        }
        p = p + 1;
    }
    proof {
        assert(path@.take(p as int) =~= path@);
    }
    let ghost nodes = word_nodes(path@);
    let n = segs.len();
    if n == 0 {
        return ime_lookup(typed_hiragana, hits);
    }
    // 2. Single-segment candidates.
    let mut all: Vec<ImeCandidate> = Vec::new();
    let mut s: usize = 0;
    while s < n
        invariant
            n == segs@.len(),
            s <= n,
            all@ == flatten(segs@.take(s as int)),
        decreases n - s,
    {
        let seg = &segs[s];
        let ghost base = all@;
        let mut t: usize = 0;
        while t < seg.len()
            invariant
                t <= seg@.len(),
                all@ == base + seg@.take(t as int),
            decreases seg.len() - t,
        {
            all.push(seg[t].duplicate());
            proof {
                assert(seg@.take(t + 1) =~= seg@.take(t as int).push(seg@[t as int]));
            }
            t = t + 1;
        }
        proof {
            assert(seg@.take(t as int) =~= seg@);
            assert(segs@.take(s + 1).drop_last() =~= segs@.take(s as int));
            assert(segs@.take(s + 1).last() == segs@[s as int]);
        }
        s = s + 1;
    }
    proof {
        assert(segs@.take(n as int) =~= segs@);
    }
    // 3. Compound candidates for all contiguous spans [i..=j].
    let ghost singles = all@;
    let ghost mut comps: Seq<ImeCandidate> = Seq::empty();
    let mut i: usize = 0;
    while i < n
        invariant
            n == segs@.len(),
            n == nodes.len(),
            node_segments(nodes, segs@),
            wcs@ == node_word_costs(nodes),
            path_fits(nodes, &c0),
            lookups_kept(&c0, &*conn),
            spans_stay(nodes, &c0, compound_spans(n as int, i as int)) ==> matrix_kept(&c0, &*conn),
            !spans_stay(nodes, &c0, compound_spans(n as int, i as int)) ==> conn.consistent(),
            i <= n,
            all@ == singles + comps,
            span_compounds(segs@, nodes, &c0, compound_spans(n as int, i as int), comps),
        decreases n - i,
    {
        let end = if n - i < MAX_COMPOUND_SEGMENTS {
            n
        } else {
            i + MAX_COMPOUND_SEGMENTS
        };
        proof {
            assert(compound_spans(n as int, i as int) + spans_from(n as int, i as int).take(0)
                =~= compound_spans(n as int, i as int));
        }
        let mut j: usize = i + 1;
        while j < end
            invariant
                n == segs@.len(),
                n == nodes.len(),
                node_segments(nodes, segs@),
                wcs@ == node_word_costs(nodes),
                path_fits(nodes, &c0),
                lookups_kept(&c0, &*conn),
                i < n,
                end as int == (if n < i + MAX_COMPOUND_SEGMENTS {
                    n as int
                } else {
                    i + MAX_COMPOUND_SEGMENTS
                }),
                i + 1 <= j,
                j <= end || j == i + 1,
                all@ == singles + comps,
                ({
                    let cur = compound_spans(n as int, i as int) + spans_from(n as int, i as int).take(
                        (j - i - 1) as int,
                    );
                    &&& spans_stay(nodes, &c0, cur) ==> matrix_kept(&c0, &*conn)
                    &&& !spans_stay(nodes, &c0, cur) ==> conn.consistent()
                    &&& span_compounds(segs@, nodes, &c0, cur, comps)
                }),
            decreases end - j,
        {
            let ghost sp = segs@.subrange(i as int, j + 1);
            let ghost spans = compound_spans(n as int, i as int) + spans_from(n as int, i as int).take(
                (j - i - 1) as int,
            );
            let ghost spans2 = compound_spans(n as int, i as int) + spans_from(n as int, i as int).take(
                (j - i) as int,
            );
            let ghost t = node_links(nodes).subrange(i as int, j + 1);
            let ghost stay = spans_stay(nodes, &c0, spans);
            proof {
                lemma_span_links(nodes, segs@, i as int, j as int);
                lemma_span_index(n as int, i as int, (j - i - 1) as int);
                assert(spans2.drop_last() =~= spans);
                assert(spans2.last() == (i as int, j as int));
                let all_spans = compound_spans(n as int, n as int);
                assert(all_spans.take(spans.len() as int) == spans);
                assert(all_spans[spans.len() as int] == (i as int, j as int));
                if all_nonempty(sp) {
                    assert(span_gives(nodes, i as int, j as int));
                    assert(span_fits(nodes, &c0, all_spans, spans.len() as int));
                    assert(compound_fits(t, &c0, stay));
                    lemma_compound_cost_kept(t, &c0, stay, &*conn, true, (j + 1 - i) as int);
                }
            }
            let span = slice_subrange(segs.as_slice(), i, j + 1);
            assert(span@ =~= sp);
            let span_costs = slice_subrange(wcs.as_slice(), i, j + 1);
            assert(span_costs@ =~= wcs@.subrange(i as int, j + 1));
            let ghost cb = *conn;
            let folded = fold_span(span, span_costs, conn);
            proof {
                if all_nonempty(sp) {
                    assert(cost_links(firsts(sp), span_costs@) == t);
                    if stay {
                        assert(cb.cached_stripe() == c0.cached_stripe());
                        assert(in_stripe(t, &cb, j - i) == in_stripe(t, &c0, j - i));
                    }
                }
                assert(spans_stay(nodes, &c0, spans2) == (stay && (span_gives(nodes, i as int, j as int)
                    ==> in_stripe(t, &c0, j - i))));
                if spans_stay(nodes, &c0, spans2) {
                    assert(span_stays(sp, span_costs@, &cb));
                    assert(matrix_kept(&cb, &*conn));
                    assert forall|l: int, r: int|
                        0 <= l < c0.left_count() && 0 <= r < c0.right_count() implies #[trigger] conn.cell(
                        l,
                        r,
                    ) == c0.cell(l, r) by {
                        assert(conn.cell(l, r) == cb.cell(l, r));
                    }
                } else if stay {
                    assert(!span_stays(sp, span_costs@, &cb));
                }
            }
            match folded {
                Some(c) => {
                    proof {
                        lemma_compound_cost_kept(t, &c0, stay, &cb, true, (j + 1 - i) as int);
                        assert(is_compound_of(firsts(sp), span_costs@, &c0, stay, c));
                        let old_comps = comps;
                        comps = comps.push(c);
                        assert(comps.drop_last() =~= old_comps);
                        assert(span_compounds(segs@, nodes, &c0, spans2, comps));
                    }
                    all.push(c);
                },
                None => {
                    proof {
                        assert(!all_nonempty(sp));
                        assert(span_compounds(segs@, nodes, &c0, spans2, comps));
                    }
                },
            }
            j = j + 1;
        }
        proof {
            let spans = compound_spans(n as int, i as int) + spans_from(n as int, i as int).take(
                (j - i - 1) as int,
            );
            assert(spans =~= compound_spans(n as int, i + 1));
        }
        i = i + 1;
    }
    dedup_and_sort(&all, true)
}

} // verus!
