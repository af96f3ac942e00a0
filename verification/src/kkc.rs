//! Kana-kanji conversion helpers: split modes, functional parts of speech,
//! and the ranked candidates of a reading.

use vstd::prelude::*;

use crate::dic::lexicon::word_infos::{form_or_surface, WordInfo};
use vstd::string::*;

verus! {

/// Split granularity for tokenization.
#[derive(Clone, Copy, Debug, PartialEq, Eq, Structural)]
pub enum Mode {
    /// Shortest units.
    A,
    /// Middle units.
    B,
    /// Named-entity / longest units.
    C,
}

/// The split mode named by `s`, case-insensitively: `"A"` and `"B"` name
/// their modes, anything else is mode C (the default).
pub fn parse_mode(s: &str) -> (res: Mode)
    ensures
        res == (if s@ == seq!['A'] || s@ == seq!['a'] {
            Mode::A
        } else if s@ == seq!['B'] || s@ == seq!['b'] {
            Mode::B
        } else {
            Mode::C
        }),
{
    let chars = crate::text::chars_of(s);
    if chars.len() == 1 {
        let c = chars[0];
        proof {
            assert(s@ =~= seq![c]);
        }
        if c == 'A' || c == 'a' {
            return Mode::A;
        }
        if c == 'B' || c == 'b' {
            return Mode::B;
        }
    }
    Mode::C
}

/// POS major categories of functional/grammatical words that are never
/// converted to kanji: they are conventionally written in hiragana.
pub open spec fn functional_pos(major_pos: Seq<char>) -> bool {
    ||| major_pos == "助詞"@
    ||| major_pos == "助動詞"@
    ||| major_pos == "補助記号"@
    ||| major_pos == "記号"@
    ||| major_pos == "空白"@
    ||| major_pos == "接続詞"@
    ||| major_pos == "感動詞"@
}

/// Whether `major_pos` is a functional part of speech.
pub fn is_functional_pos(major_pos: &str) -> (res: bool)
    ensures
        res == functional_pos(major_pos@),
{
    let s = String::from_str(major_pos);
    s == String::from_str("助詞") || s == String::from_str("助動詞") || s == String::from_str(
        "補助記号",
    ) || s == String::from_str("記号") || s == String::from_str("空白") || s == String::from_str(
        "接続詞",
    ) || s == String::from_str("感動詞")
}

/// A word found for a reading, with what the dictionary gave for it: its
/// word info (`None` when reading it failed), its word cost, and the
/// part-of-speech components of its POS id.
pub struct KkcHit {
    pub info: Option<WordInfo>,
    pub cost: i16,
    pub part_of_speech: Vec<String>,
}

/// A single KKC candidate: a surface to display as conversion result, with
/// its dictionary form, reading, part of speech and word cost (lower is
/// preferred by the language model).
pub struct KkcCandidate {
    pub surface: String,
    pub dictionary_form: String,
    pub reading_form: String,
    pub part_of_speech: Vec<String>,
    pub cost: i16,
}

/// The texts of a list of strings.
pub open spec fn texts(v: Seq<String>) -> Seq<Seq<char>> {
    v.map_values(|s: String| s@)
}

/// The hit's word info was read and its surface is `surface`.
pub open spec fn hit_has_surface(h: KkcHit, surface: Seq<char>) -> bool {
    h.info matches Some(info) && info@.surface@ == surface
}

/// Hit `i` is the one kept for its surface: its info was read, every earlier
/// hit with its surface costs more, and no later one costs less.
pub open spec fn kept_hit(hits: Seq<KkcHit>, i: int) -> bool {
    &&& 0 <= i < hits.len()
    &&& hits[i].info is Some
    &&& forall|j: int|
        0 <= j < hits.len() && #[trigger] hit_has_surface(hits[j], hits[i].info->0@.surface@) ==> (
        j < i ==> hits[j].cost > hits[i].cost) && (j > i ==> hits[j].cost >= hits[i].cost)
}

/// `c` is the candidate made of hit `h`.
pub open spec fn is_candidate_of(h: KkcHit, c: KkcCandidate) -> bool {
    &&& h.info matches Some(info)
    &&& c.surface@ == info@.surface@
    &&& c.dictionary_form@ == form_or_surface(info@.dictionary_form@, info@.surface@)
    &&& c.reading_form@ == form_or_surface(info@.reading_form@, info@.surface@)
    &&& texts(c.part_of_speech@) == texts(h.part_of_speech@)
    &&& c.cost == h.cost
}

/// `c` is the candidate of a kept hit.
pub open spec fn from_kept_hit(hits: Seq<KkcHit>, c: KkcCandidate) -> bool {
    exists|i: int| kept_hit(hits, i) && is_candidate_of(hits[i], c)
}

/// Some candidate of `out` is made of hit `h`.
pub open spec fn has_candidate_of(out: Seq<KkcCandidate>, h: KkcHit) -> bool {
    exists|k: int| 0 <= k < out.len() && is_candidate_of(h, out[k])
}

/// A copy of a list of strings.
fn copy_strings(v: &Vec<String>) -> (res: Vec<String>)
    ensures
        texts(res@) == texts(v@),
{
    let mut out: Vec<String> = Vec::new();
    let mut i: usize = 0;
    while i < v.len()
        invariant
            i <= v@.len(),
            out@.len() == i,
            forall|k: int| 0 <= k < i ==> (#[trigger] out@[k])@ == v@[k]@,
        decreases v.len() - i,
    {
        out.push(v[i].clone());
        i = i + 1;
    }
    assert(texts(out@) =~= texts(v@));
    out
}

/// Whether hit `i` is the one kept for its surface.
fn is_kept(hits: &[KkcHit], i: usize) -> (res: bool)
    requires
        i < hits@.len(),
    ensures
        res == kept_hit(hits@, i as int),
{
    let info = match &hits[i].info {
        Some(info) => info,
        None => {
            return false;
        },
    };
    let surface = &info.borrow_data().surface;
    let mut j: usize = 0;
    while j < hits.len()
        invariant
            i < hits@.len(),
            j <= hits@.len(),
            hits@[i as int].info == Some(*info),
            surface@ == info@.surface@,
            forall|jj: int|
                0 <= jj < j && #[trigger] hit_has_surface(hits@[jj], surface@) ==> (jj < i
                    ==> hits@[jj].cost > hits@[i as int].cost) && (jj > i ==> hits@[jj].cost
                    >= hits@[i as int].cost),
        decreases hits.len() - j,
    {
        if let Some(other) = &hits[j].info {
            if other.borrow_data().surface == *surface {
                assert(hit_has_surface(hits@[j as int], hits@[i as int].info->0@.surface@));
                if j < i && hits[j].cost <= hits[i].cost {
                    return false;
                }
                if j > i && hits[j].cost < hits[i].cost {
                    return false;
                }
            }
        }
        j = j + 1;
    }
    true
}

/// The KKC candidates of the words found for a reading: for each surface the
/// lowest-cost entry (the first on a tie), sorted by cost ascending (words of
/// equal cost in the order they were found).
pub fn collect_kkc_candidates(hits: &[KkcHit]) -> (res: Vec<KkcCandidate>)
    ensures
        forall|k: int| 0 <= k < res@.len() ==> from_kept_hit(hits@, #[trigger] res@[k]),
        forall|i: int| kept_hit(hits@, i) ==> has_candidate_of(res@, #[trigger] hits@[i]),
        forall|k1: int, k2: int|
            0 <= k1 < k2 < res@.len() ==> (#[trigger] res@[k1]).cost <= (#[trigger] res@[k2]).cost,
        forall|k1: int, k2: int|
            0 <= k1 < k2 < res@.len() ==> (#[trigger] res@[k1]).surface@ != (
            #[trigger] res@[k2]).surface@,
{
    let mut out: Vec<KkcCandidate> = Vec::new();
    let ghost mut src: Seq<int> = Seq::empty();
    let mut i: usize = 0;
    while i < hits.len()
        invariant
            i <= hits@.len(),
            src.len() == out@.len(),
            forall|k: int|
                #![trigger src[k]]
                0 <= k < out@.len() ==> 0 <= src[k] < i && kept_hit(hits@, src[k])
                    && is_candidate_of(hits@[src[k]], out@[k]),
            forall|k1: int, k2: int|
                0 <= k1 < k2 < out@.len() ==> #[trigger] src[k1] != #[trigger] src[k2],
            forall|ii: int|
                0 <= ii < i && kept_hit(hits@, ii) ==> exists|k: int|
                    0 <= k < out@.len() && #[trigger] src[k] == ii,
            forall|k1: int, k2: int|
                0 <= k1 < k2 < out@.len() ==> (#[trigger] out@[k1]).cost <= (
                #[trigger] out@[k2]).cost,
        decreases hits.len() - i,
    {
        let kept = is_kept(hits, i);
        if let (true, Some(info)) = (kept, &hits[i].info) {
            let cost = hits[i].cost;
            let cand = KkcCandidate {
                surface: String::from_str(info.surface()),
                dictionary_form: String::from_str(info.dictionary_form()),
                reading_form: String::from_str(info.reading_form()),
                part_of_speech: copy_strings(&hits[i].part_of_speech),
                cost,
            };
            let mut p: usize = 0;
            while p < out.len() && out[p].cost <= cost
                invariant
                    p <= out@.len(),
                    forall|q: int| 0 <= q < p ==> (#[trigger] out@[q]).cost <= cost,
                decreases out.len() - p,
            {
                p = p + 1;
            }
            let ghost old_out = out@;
            let ghost old_src = src;
            out.insert(p, cand);
            proof {
                src = src.insert(p as int, i as int);
                assert forall|k: int|
                    #![trigger src[k]]
                    0 <= k < out@.len() implies 0 <= src[k] < i + 1 && kept_hit(hits@, src[k])
                    && is_candidate_of(hits@[src[k]], out@[k]) by {
                    if k < p {
                        assert(src[k] == old_src[k]);
                        assert(out@[k] == old_out[k]);
                    } else if k > p {
                        assert(src[k] == old_src[k - 1]);
                        assert(out@[k] == old_out[k - 1]);
                    }
                }
                assert forall|k1: int, k2: int|
                    0 <= k1 < k2 < out@.len() implies #[trigger] src[k1] != #[trigger] src[k2] by {
                    if k1 != p && k2 != p {
                        let a = if k1 < p { k1 } else { k1 - 1 };
                        let b = if k2 < p { k2 } else { k2 - 1 };
                        assert(src[k1] == old_src[a]);
                        assert(src[k2] == old_src[b]);
                    } else if k1 == p {
                        let b = k2 - 1;
                        assert(src[k2] == old_src[b]);
                    } else {
                        assert(src[k1] == old_src[k1]);
                    }
                }
                assert forall|ii: int|
                    0 <= ii < i + 1 && kept_hit(hits@, ii) implies exists|k: int|
                    0 <= k < out@.len() && #[trigger] src[k] == ii by {
                    if ii == i {
                        assert(src[p as int] == ii);
                    } else {
                        let k = choose|k: int| 0 <= k < old_out.len() && #[trigger] old_src[k] == ii;
                        if k < p {
                            assert(src[k] == ii);
                        } else {
                            assert(src[k + 1] == ii);
                        }
                    }
                }
                assert forall|k1: int, k2: int|
                    0 <= k1 < k2 < out@.len() implies (#[trigger] out@[k1]).cost <= (
                    #[trigger] out@[k2]).cost by {
                    if k2 < p {
                        assert(out@[k1] == old_out[k1]);
                        assert(out@[k2] == old_out[k2]);
                    } else if k2 == p {
                        assert(out@[k1] == old_out[k1]);
                    } else if k1 < p {
                        assert(out@[k1] == old_out[k1]);
                        assert(out@[k2] == old_out[k2 - 1]);
                        assert(old_out[p as int].cost > cost);
                        if k2 - 1 > p {
                            assert(old_out[p as int].cost <= old_out[k2 - 1].cost);
                        }
                    } else if k1 == p {
                        assert(out@[k2] == old_out[k2 - 1]);
                        assert(old_out[p as int].cost > cost);
                        if k2 - 1 > p {
                            assert(old_out[p as int].cost <= old_out[k2 - 1].cost);
                        }
                    } else {
                        assert(out@[k1] == old_out[k1 - 1]);
                        assert(out@[k2] == old_out[k2 - 1]);
                    }
                }
            }
        }
        i = i + 1;
    }
    proof {
        assert forall|k: int| 0 <= k < out@.len() implies from_kept_hit(hits@, #[trigger] out@[k]) by {
            assert(kept_hit(hits@, src[k]));
        }
        assert forall|ii: int| kept_hit(hits@, ii) implies has_candidate_of(out@, #[trigger] hits@[ii]) by {
            let k = choose|k: int| 0 <= k < out@.len() && #[trigger] src[k] == ii;
            assert(is_candidate_of(hits@[ii], out@[k]));
        }
        assert forall|k1: int, k2: int|
            0 <= k1 < k2 < out@.len() implies (#[trigger] out@[k1]).surface@ != (
            #[trigger] out@[k2]).surface@ by {
            let a = src[k1];
            let b = src[k2];
            assert(a != b);
            if out@[k1].surface@ == out@[k2].surface@ {
                assert(hit_has_surface(hits@[b], hits@[a].info->0@.surface@));
                assert(hit_has_surface(hits@[a], hits@[b].info->0@.surface@));
            }
        }
    }
    out
}

/// The fields of one morpheme of a tokenization that a conversion result is
/// made of: its surface (the hiragana input), reading, dictionary and
/// normalized forms, part-of-speech components, whether it is out of
/// vocabulary, the surface of its word info (the kanji form chosen by the
/// language model), and its character offsets.
pub struct MorphemeFields {
    pub surface: String,
    pub reading_form: String,
    pub dictionary_form: String,
    pub normalized_form: String,
    pub part_of_speech: Vec<String>,
    pub is_oov: bool,
    pub word_surface: String,
    pub begin: usize,
    pub end: usize,
}

/// A single morpheme of a KKC conversion result: the converted surface, the
/// input one, its forms and part of speech, and the ranked candidates for
/// interactive selection (none for functional parts of speech).
pub struct KkcMorpheme {
    pub kkc_surface: String,
    pub original_surface: String,
    pub reading_form: String,
    pub dictionary_form: String,
    pub normalized_form: String,
    pub part_of_speech: Vec<String>,
    pub is_oov: bool,
    pub candidates: Vec<KkcCandidate>,
    pub begin: usize,
    pub end: usize,
}

/// The major part of speech: the first component, or empty when there is
/// none.
pub open spec fn major_pos(pos: Seq<String>) -> Seq<char> {
    if pos.len() > 0 {
        pos[0]@
    } else {
        Seq::empty()
    }
}

/// `res` is the conversion result of the morpheme `m` whose reading found
/// the words `hits`. The Viterbi-selected surface is that of its word info,
/// or its own surface when it is out of vocabulary; span, part of speech,
/// forms and out-of-vocabulary flag are the morpheme's; the candidates are
/// those of the words found, ranked by cost with one per surface, unless the
/// part of speech is functional, in which case there are none.
pub open spec fn converts(m: MorphemeFields, hits: Seq<KkcHit>, res: KkcMorpheme) -> bool {
    &&& res.kkc_surface@ == (if m.is_oov {
        m.surface@
    } else {
        m.word_surface@
    })
    &&& res.original_surface@ == m.surface@
    &&& res.reading_form@ == m.reading_form@
    &&& res.dictionary_form@ == m.dictionary_form@
    &&& res.normalized_form@ == m.normalized_form@
    &&& texts(res.part_of_speech@) == texts(m.part_of_speech@)
    &&& res.is_oov == m.is_oov
    &&& res.begin == m.begin
    &&& res.end == m.end
    &&& functional_pos(major_pos(m.part_of_speech@)) ==> res.candidates@.len() == 0
    &&& !functional_pos(major_pos(m.part_of_speech@)) ==> {
        &&& forall|k: int|
            0 <= k < res.candidates@.len() ==> from_kept_hit(hits, #[trigger] res.candidates@[k])
        &&& forall|i: int| kept_hit(hits, i) ==> has_candidate_of(res.candidates@, #[trigger] hits[i])
        &&& forall|k1: int, k2: int|
            0 <= k1 < k2 < res.candidates@.len() ==> (#[trigger] res.candidates@[k1]).cost <= (
            #[trigger] res.candidates@[k2]).cost
        &&& forall|k1: int, k2: int|
            0 <= k1 < k2 < res.candidates@.len() ==> (#[trigger] res.candidates@[k1]).surface@ != (
            #[trigger] res.candidates@[k2]).surface@
    }
}

/// The conversion result of one morpheme, `hits` being the words found for
/// its reading.
pub fn kkc_morpheme(m: &MorphemeFields, hits: &[KkcHit]) -> (res: KkcMorpheme)
    ensures
        converts(*m, hits@, res),
{
    let functional = if m.part_of_speech.len() > 0 {
        let first = m.part_of_speech[0].as_str();
        assert(first@ == major_pos(m.part_of_speech@));
        is_functional_pos(first)
    } else {
        let empty = "";
        proof {
            reveal_strlit("");
        }
        assert(empty@ =~= major_pos(m.part_of_speech@));
        is_functional_pos(empty)
    };
    assert(functional == functional_pos(major_pos(m.part_of_speech@)));
    let kkc_surface = if m.is_oov {
        m.surface.clone()
    } else {
        m.word_surface.clone()
    };
    let candidates = if functional {
        Vec::new()
    } else {
        collect_kkc_candidates(hits)
    };
    KkcMorpheme {
        kkc_surface,
        original_surface: m.surface.clone(),
        reading_form: m.reading_form.clone(),
        dictionary_form: m.dictionary_form.clone(),
        normalized_form: m.normalized_form.clone(),
        part_of_speech: copy_strings(&m.part_of_speech),
        is_oov: m.is_oov,
        candidates,
        begin: m.begin,
        end: m.end,
    }
}

/// Kana-kanji conversion of a tokenized text: one result per morpheme, in
/// order, each the conversion of that morpheme; `hits[i]` are the words
/// found for the reading of morpheme `i`.
pub fn kkc_convert(morphemes: &[MorphemeFields], hits: &[Vec<KkcHit>]) -> (res: Vec<KkcMorpheme>)
    requires
        hits@.len() == morphemes@.len(),
    ensures
        res@.len() == morphemes@.len(),
        forall|i: int| 0 <= i < res@.len() ==> converts(morphemes@[i], hits@[i]@, #[trigger] res@[i]),
{
    let mut out: Vec<KkcMorpheme> = Vec::new();
    let mut i: usize = 0;
    while i < morphemes.len()
        invariant
            hits@.len() == morphemes@.len(),
            i <= morphemes@.len(),
            out@.len() == i,
            forall|k: int| 0 <= k < i ==> converts(morphemes@[k], hits@[k]@, #[trigger] out@[k]),
        decreases morphemes.len() - i,
    {
        let r = kkc_morpheme(&morphemes[i], hits[i].as_slice());
        out.push(r);
        i = i + 1;
    }
    out
}

} // verus!
