//! The reverse reading index of the lexicons that have no reading trie:
//! katakana readings, in increasing order, each with the ids of the words
//! that carry it.

use vstd::prelude::*;

use crate::dic::lexicon::word_infos::{form_or_surface, WordInfo};
use crate::dic::word_id::WordId;
use crate::kana::{hiragana_to_katakana, katakana_str};
use crate::order::{chars_lt, lemma_chars_lt_strict, lemma_chars_lt_total};
use crate::text::chars_of;

verus! {

/// A reading does not come before a prefix of it.
pub proof fn lemma_prefix_not_after(p: Seq<char>, x: Seq<char>)
    requires
        p.is_prefix_of(x),
    ensures
        !chars_lt(x, p),
    decreases p.len(),
{
    if p.len() > 0 {
        assert(x[0] == p[0]);
        vstd::utf8::char_u32_cast(x[0], x[0] as u32);
        assert(p.drop_first().is_prefix_of(x.drop_first())) by {
            assert forall|i: int| 0 <= i < p.drop_first().len() implies p.drop_first()[i]
                == x.drop_first()[i] by {
                assert(p[i + 1] == x[i + 1]);
            }
        }
        lemma_prefix_not_after(p.drop_first(), x.drop_first());
    }
}

/// The readings that start with `p` lie together: one that comes between
/// `p` and a reading that starts with `p` starts with `p` too.
pub proof fn lemma_prefix_between(p: Seq<char>, x: Seq<char>, y: Seq<char>)
    requires
        !chars_lt(x, p),
        chars_lt(x, y),
        p.is_prefix_of(y),
    ensures
        p.is_prefix_of(x),
    decreases p.len(),
{
    if p.len() > 0 {
        assert(y[0] == p[0]);
        assert(x.len() > 0);
        vstd::utf8::char_u32_cast(x[0], x[0] as u32);
        vstd::utf8::char_u32_cast(p[0], p[0] as u32);
        assert(x[0] == p[0]);
        let (p1, x1, y1) = (p.drop_first(), x.drop_first(), y.drop_first());
        assert(p1.is_prefix_of(y1)) by {
            assert forall|i: int| 0 <= i < p1.len() implies p1[i] == y1[i] by {
                assert(p[i + 1] == y[i + 1]);
            }
        }
        lemma_prefix_between(p1, x1, y1);
        assert forall|i: int| 0 <= i < p.len() implies p[i] == x[i] by {
            if i > 0 {
                assert(p1[i - 1] == x1[i - 1]);
            }
        }
    }
}

/// Whether `a` comes before `b` among readings.
pub fn chars_before(a: &[char], b: &[char]) -> (res: bool)
    ensures
        res == chars_lt(a@, b@),
{
    let mut i: usize = 0;
    assert(a@.skip(0) =~= a@);
    assert(b@.skip(0) =~= b@);
    while i < a.len() && i < b.len()
        invariant
            i <= a@.len(),
            i <= b@.len(),
            chars_lt(a@, b@) == chars_lt(a@.skip(i as int), b@.skip(i as int)),
        decreases a.len() - i,
    {
        if a[i] != b[i] {
            proof {
                assert(a@.skip(i as int)[0] == a@[i as int]);
                assert(b@.skip(i as int)[0] == b@[i as int]);
            }
            proof {
                vstd::utf8::char_u32_cast(a@[i as int], a@[i as int] as u32);
                vstd::utf8::char_u32_cast(b@[i as int], b@[i as int] as u32);
            }
            return (a[i] as u32) < (b[i] as u32);
        }
        proof {
            assert(a@.skip(i as int).drop_first() =~= a@.skip(i + 1));
            assert(b@.skip(i as int).drop_first() =~= b@.skip(i + 1));
        }
        i = i + 1;
    }
    i < b.len()
}

/// Whether `a` and `b` are the same reading.
pub fn same_reading(a: &[char], b: &[char]) -> (res: bool)
    ensures
        res == (a@ == b@),
{
    proof {
        lemma_chars_lt_total(a@, b@);
        lemma_chars_lt_strict(a@, b@, a@);
    }
    !chars_before(a, b) && !chars_before(b, a)
}

/// Whether `p` is a prefix of `x`.
pub fn starts_with(x: &[char], p: &[char]) -> (res: bool)
    ensures
        res == p@.is_prefix_of(x@),
{
    if p.len() > x.len() {
        return false;
    }
    let mut i: usize = 0;
    while i < p.len()
        invariant
            p@.len() <= x@.len(),
            i <= p@.len(),
            forall|k: int| 0 <= k < i ==> p@[k] == x@[k],
        decreases p.len() - i,
    {
        if p[i] != x[i] {
            return false;
        }
        i = i + 1;
    }
    true
}

// ── the index ────────────────────────────────────────────────────────────────

/// The reading under which a word is indexed: its reading form (its
/// surface when the reading form is empty) in katakana; none when its word
/// info could not be read.
pub open spec fn indexed_reading(info: Option<WordInfo>) -> Option<Seq<char>> {
    match info {
        Some(i) => Some(katakana_str(form_or_surface(i@.reading_form@, i@.surface@))),
        None => None,
    }
}

/// The ids of the words of `words` indexed under the reading `r`, in order.
pub open spec fn ids_with_reading(words: Seq<(WordId, Option<WordInfo>)>, r: Seq<char>) -> Seq<WordId>
    decreases words.len(),
{
    if words.len() == 0 {
        Seq::empty()
    } else if indexed_reading(words.last().1) == Some(r) {
        ids_with_reading(words.drop_last(), r).push(words.last().0)
    } else {
        ids_with_reading(words.drop_last(), r)
    }
}

/// The words of one lexicon, each with its word info when reading it
/// succeeded, and whether the lexicon has a reading trie of its own.
pub struct LexiconWords {
    pub has_reading_trie: bool,
    pub words: Vec<(WordId, Option<WordInfo>)>,
}

/// The words that the index covers: those of the lexicons without a
/// reading trie, lexicon by lexicon.
pub open spec fn indexed_words(lexicons: Seq<LexiconWords>) -> Seq<(WordId, Option<WordInfo>)>
    decreases lexicons.len(),
{
    if lexicons.len() == 0 {
        Seq::empty()
    } else if lexicons.last().has_reading_trie {
        indexed_words(lexicons.drop_last())
    } else {
        indexed_words(lexicons.drop_last()) + lexicons.last().words@
    }
}

/// The ids that the entries `e` keep under the reading `r`: those of the
/// entry for `r`, none when there is no such entry.
pub open spec fn ids_for(e: Seq<(Seq<char>, Seq<WordId>)>, r: Seq<char>) -> Seq<WordId>
    decreases e.len(),
{
    if e.len() == 0 {
        Seq::empty()
    } else if e.last().0 == r {
        e.last().1
    } else {
        ids_for(e.drop_last(), r)
    }
}

/// The ids of the entries of `e` whose reading starts with `p`, entry by
/// entry.
pub open spec fn prefix_ids(e: Seq<(Seq<char>, Seq<WordId>)>, p: Seq<char>) -> Seq<WordId>
    decreases e.len(),
{
    if e.len() == 0 {
        Seq::empty()
    } else if p.is_prefix_of(e.last().0) {
        prefix_ids(e.drop_last(), p) + e.last().1
    } else {
        prefix_ids(e.drop_last(), p)
    }
}

/// The readings of `e` strictly increase, and each has at least one id.
pub open spec fn index_ok(e: Seq<(Seq<char>, Seq<WordId>)>) -> bool {
    &&& forall|i: int, j: int| 0 <= i < j < e.len() ==> chars_lt(#[trigger] e[i].0, #[trigger] e[j].0)
    &&& forall|i: int| 0 <= i < e.len() ==> (#[trigger] e[i]).1.len() > 0
}

/// The entries held by parallel vectors of readings and ids.
pub open spec fn entries_of(rs: Seq<Vec<char>>, is: Seq<Vec<WordId>>) -> Seq<(Seq<char>, Seq<WordId>)> {
    Seq::new(rs.len(), |i: int| (rs[i]@, is[i]@))
}

/// The ids kept for the reading of entry `i` are those of entry `i`.
proof fn lemma_ids_for_at(e: Seq<(Seq<char>, Seq<WordId>)>, i: int)
    requires
        index_ok(e),
        0 <= i < e.len(),
    ensures
        ids_for(e, e[i].0) == e[i].1,
    decreases e.len(),
{
    if i < e.len() - 1 {
        let l = e.len() - 1;
        assert(chars_lt(e[i].0, e[l].0));
        lemma_chars_lt_strict(e[i].0, e[i].0, e[i].0);
        assert(e.last().0 != e[i].0);
        let d = e.drop_last();
        assert(index_ok(d)) by {
            assert forall|a: int, b: int| 0 <= a < b < d.len() implies chars_lt(
                #[trigger] d[a].0,
                #[trigger] d[b].0,
            ) by {
                assert(d[a] == e[a] && d[b] == e[b]);
            }
            assert forall|a: int| 0 <= a < d.len() implies (#[trigger] d[a]).1.len() > 0 by {
                assert(d[a] == e[a]);
            }
        }
        assert(d[i] == e[i]);
        lemma_ids_for_at(d, i);
    }
}

/// No ids are kept for a reading that no entry has.
proof fn lemma_ids_for_none(e: Seq<(Seq<char>, Seq<WordId>)>, r: Seq<char>)
    requires
        forall|i: int| 0 <= i < e.len() ==> (#[trigger] e[i]).0 != r,
    ensures
        ids_for(e, r) == Seq::<WordId>::empty(),
    decreases e.len(),
{
    if e.len() > 0 {
        let d = e.drop_last();
        assert(e.last() == e[e.len() - 1]);
        assert forall|i: int| 0 <= i < d.len() implies (#[trigger] d[i]).0 != r by {
            assert(d[i] == e[i]);
        }
        lemma_ids_for_none(d, r);
    }
}

/// The first position of `rs` whose reading does not come before `key`.
fn lower_bound(rs: &Vec<Vec<char>>, key: &[char]) -> (res: usize)
    requires
        forall|i: int, j: int| 0 <= i < j < rs@.len() ==> chars_lt(#[trigger] rs@[i]@, #[trigger] rs@[j]@),
    ensures
        res <= rs@.len(),
        forall|i: int| 0 <= i < res ==> chars_lt(#[trigger] rs@[i]@, key@),
        forall|i: int| res <= i < rs@.len() ==> !chars_lt(#[trigger] rs@[i]@, key@),
{
    let mut lo: usize = 0;
    let mut hi: usize = rs.len();
    while lo < hi
        invariant
            lo <= hi <= rs@.len(),
            forall|i: int, j: int| 0 <= i < j < rs@.len() ==> chars_lt(#[trigger] rs@[i]@, #[trigger] rs@[j]@),
            forall|i: int| 0 <= i < lo ==> chars_lt(#[trigger] rs@[i]@, key@),
            forall|i: int| hi <= i < rs@.len() ==> !chars_lt(#[trigger] rs@[i]@, key@),
        decreases hi - lo,
    {
        let mid = lo + (hi - lo) / 2;
        if chars_before(rs[mid].as_slice(), key) {
            assert forall|i: int| 0 <= i < mid + 1 implies chars_lt(#[trigger] rs@[i]@, key@) by {
                if i < mid {
                    lemma_chars_lt_strict(rs@[i]@, rs@[mid as int]@, key@);
                }
            }
            lo = mid + 1;
        } else {
            assert forall|i: int| mid <= i < rs@.len() implies !chars_lt(#[trigger] rs@[i]@, key@) by {
                if i > mid {
                    lemma_chars_lt_strict(rs@[mid as int]@, rs@[i]@, key@);
                }
            }
            hi = mid;
        }
    }
    lo
}

/// Index `id` under the reading `key`: appended to the ids of the entry for
/// `key`, or in a new entry placed in reading order.
fn add_word(rs: &mut Vec<Vec<char>>, is: &mut Vec<Vec<WordId>>, key: Vec<char>, id: WordId)
    requires
        old(rs)@.len() == old(is)@.len(),
        index_ok(entries_of(old(rs)@, old(is)@)),
    ensures
        final(rs)@.len() == final(is)@.len(),
        index_ok(entries_of(final(rs)@, final(is)@)),
        forall|r: Seq<char>|
            #[trigger] ids_for(entries_of(final(rs)@, final(is)@), r) == if r == key@ {
                ids_for(entries_of(old(rs)@, old(is)@), r).push(id)
            } else {
                ids_for(entries_of(old(rs)@, old(is)@), r)
            },
{
    let ghost e = entries_of(rs@, is@);
    assert forall|i: int, j: int| 0 <= i < j < rs@.len() implies chars_lt(
        #[trigger] rs@[i]@,
        #[trigger] rs@[j]@,
    ) by {
        assert(e[i].0 == rs@[i]@ && e[j].0 == rs@[j]@);
    }
    let lb = lower_bound(rs, key.as_slice());
    if lb < rs.len() && same_reading(rs[lb].as_slice(), key.as_slice()) {
        let ghost row = is@[lb as int]@;
        is[lb].push(id);
        proof {
            let e2 = entries_of(rs@, is@);
            assert(e2 =~= e.update(lb as int, (key@, row.push(id))));
            assert(index_ok(e2)) by {
                assert forall|i: int, j: int| 0 <= i < j < e2.len() implies chars_lt(
                    #[trigger] e2[i].0,
                    #[trigger] e2[j].0,
                ) by {
                    assert(e2[i].0 == e[i].0 && e2[j].0 == e[j].0);
                }
                assert forall|i: int| 0 <= i < e2.len() implies (#[trigger] e2[i]).1.len() > 0 by {
                    if i != lb {
                        assert(e2[i] == e[i]);
                    }
                }
            }
            assert forall|r: Seq<char>|
                #[trigger] ids_for(e2, r) == if r == key@ {
                    ids_for(e, r).push(id)
                } else {
                    ids_for(e, r)
                } by {
                if r == key@ {
                    lemma_ids_for_at(e2, lb as int);
                    lemma_ids_for_at(e, lb as int);
                } else if exists|i: int| 0 <= i < e.len() && (#[trigger] e[i]).0 == r {
                    let i = choose|i: int| 0 <= i < e.len() && (#[trigger] e[i]).0 == r;
                    assert(i != lb);
                    assert(e2[i] == e[i]);
                    lemma_ids_for_at(e2, i);
                    lemma_ids_for_at(e, i);
                } else {
                    assert forall|i: int| 0 <= i < e2.len() implies (#[trigger] e2[i]).0 != r by {
                        assert(e2[i].0 == e[i].0);
                    }
                    lemma_ids_for_none(e2, r);
                    lemma_ids_for_none(e, r);
                }
            }
        }
    } else {
        let ghost k = key@;
        proof {
            assert forall|i: int| 0 <= i < e.len() implies (#[trigger] e[i]).0 != k by {
                assert(e[i].0 == rs@[i]@);
                if i < lb {
                    lemma_chars_lt_strict(k, k, k);
                } else if i == lb {
                } else {
                    lemma_chars_lt_total(rs@[lb as int]@, k);
                    assert(chars_lt(rs@[lb as int]@, rs@[i]@));
                    lemma_chars_lt_strict(k, rs@[lb as int]@, rs@[i]@);
                    lemma_chars_lt_strict(k, k, k);
                }
            }
            if lb < rs@.len() {
                lemma_chars_lt_total(rs@[lb as int]@, k);
            }
        }
        rs.insert(lb, key);
        is.insert(lb, vec![id]);
        proof {
            let e2 = entries_of(rs@, is@);
            let one: Seq<WordId> = seq![id];
            assert(is@[lb as int]@ =~= one);
            assert(e2 =~= e.insert(lb as int, (k, one)));
            assert(index_ok(e2)) by {
                assert forall|i: int, j: int| 0 <= i < j < e2.len() implies chars_lt(
                    #[trigger] e2[i].0,
                    #[trigger] e2[j].0,
                ) by {
                    if j < lb {
                        assert(e2[i] == e[i] && e2[j] == e[j]);
                    } else if j == lb {
                        assert(e2[i] == e[i]);
                        assert(e[i].0 == rs@[i]@);
                    } else if i > lb {
                        assert(e2[i] == e[i - 1] && e2[j] == e[j - 1]);
                    } else if i == lb {
                        assert(e2[j] == e[j - 1]);
                        assert(chars_lt(k, e[lb as int].0));
                        if j - 1 > lb {
                            lemma_chars_lt_strict(k, e[lb as int].0, e[j - 1].0);
                        }
                    } else {
                        assert(e2[i] == e[i] && e2[j] == e[j - 1]);
                        assert(chars_lt(e[i].0, k));
                        assert(chars_lt(k, e[lb as int].0));
                        lemma_chars_lt_strict(e[i].0, k, e[lb as int].0);
                        if j - 1 > lb {
                            lemma_chars_lt_strict(e[i].0, e[lb as int].0, e[j - 1].0);
                        }
                    }
                }
                assert forall|i: int| 0 <= i < e2.len() implies (#[trigger] e2[i]).1.len() > 0 by {
                    if i < lb {
                        assert(e2[i] == e[i]);
                    } else if i > lb {
                        assert(e2[i] == e[i - 1]);
                    }
                }
            }
            assert forall|r: Seq<char>|
                #[trigger] ids_for(e2, r) == if r == k {
                    ids_for(e, r).push(id)
                } else {
                    ids_for(e, r)
                } by {
                if r == k {
                    lemma_ids_for_at(e2, lb as int);
                    lemma_ids_for_none(e, r);
                    assert(Seq::<WordId>::empty().push(id) =~= one);
                } else if exists|i: int| 0 <= i < e.len() && (#[trigger] e[i]).0 == r {
                    let i = choose|i: int| 0 <= i < e.len() && (#[trigger] e[i]).0 == r;
                    let i2 = if i < lb { i } else { i + 1 };
                    assert(e2[i2] == e[i]);
                    lemma_ids_for_at(e2, i2);
                    lemma_ids_for_at(e, i);
                } else {
                    assert forall|i: int| 0 <= i < e2.len() implies (#[trigger] e2[i]).0 != r by {
                        if i < lb {
                            assert(e2[i] == e[i]);
                        } else if i > lb {
                            assert(e2[i] == e[i - 1]);
                        }
                    }
                    lemma_ids_for_none(e2, r);
                    lemma_ids_for_none(e, r);
                }
            }
        }
    }
}

/// The reverse reading index: katakana readings in increasing order, each
/// with the ids of the words indexed under it, in the order they were met.
pub struct ReadingIndex {
    readings: Vec<Vec<char>>,
    ids: Vec<Vec<WordId>>,
}

impl ReadingIndex {
    /// The entries: each reading with its ids.
    pub closed spec fn entries(&self) -> Seq<(Seq<char>, Seq<WordId>)> {
        entries_of(self.readings@, self.ids@)
    }

    #[verifier::type_invariant]
    closed spec fn inv(&self) -> bool {
        &&& self.readings@.len() == self.ids@.len()
        &&& index_ok(self.entries())
    }

    /// Build the index of the words of the lexicons that have no reading
    /// trie of their own (the words of a lexicon with one are found through
    /// it); words whose word info could not be read are left out. Each word
    /// is indexed under its reading form, its surface when that is empty,
    /// turned to katakana.
    pub fn build(lexicons: &[LexiconWords]) -> (res: ReadingIndex)
        ensures
            index_ok(res.entries()),
            forall|r: Seq<char>|
                #[trigger] ids_for(res.entries(), r) == ids_with_reading(indexed_words(lexicons@), r),
    {
        let mut rs: Vec<Vec<char>> = Vec::new();
        let mut is: Vec<Vec<WordId>> = Vec::new();
        assert forall|r: Seq<char>|
            #[trigger] ids_for(entries_of(rs@, is@), r) == ids_with_reading(
                indexed_words(lexicons@.take(0)),
                r,
            ) by {
            assert(entries_of(rs@, is@).len() == 0);
            assert(indexed_words(lexicons@.take(0)).len() == 0);
        }
        let mut li: usize = 0;
        while li < lexicons.len()
            invariant
                li <= lexicons@.len(),
                rs@.len() == is@.len(),
                index_ok(entries_of(rs@, is@)),
                forall|r: Seq<char>|
                    #[trigger] ids_for(entries_of(rs@, is@), r) == ids_with_reading(
                        indexed_words(lexicons@.take(li as int)),
                        r,
                    ),
            decreases lexicons.len() - li,
        {
            let lex = &lexicons[li];
            let ghost before = indexed_words(lexicons@.take(li as int));
            proof {
                assert(lexicons@.take(li + 1).drop_last() =~= lexicons@.take(li as int));
                assert(lexicons@.take(li + 1).last() == lexicons@[li as int]);
            }
            if !lex.has_reading_trie {
                let mut wi: usize = 0;
                while wi < lex.words.len()
                    invariant
                        wi <= lex.words@.len(),
                        rs@.len() == is@.len(),
                        index_ok(entries_of(rs@, is@)),
                        forall|r: Seq<char>|
                            #[trigger] ids_for(entries_of(rs@, is@), r) == ids_with_reading(
                                before + lex.words@.take(wi as int),
                                r,
                            ),
                    decreases lex.words.len() - wi,
                {
                    let ghost seen = before + lex.words@.take(wi as int);
                    let ghost next = before + lex.words@.take(wi + 1);
                    proof {
                        assert(next.drop_last() =~= seen);
                        assert(next.last() == lex.words@[wi as int]);
                    }
                    let (id, info) = &lex.words[wi];
                    match info {
                        Some(info) => {
                            let katakana = hiragana_to_katakana(info.reading_form());
                            let key = chars_of(katakana.as_str());
                            let ghost e = entries_of(rs@, is@);
                            add_word(&mut rs, &mut is, key, *id);
                            proof {
                                assert forall|r: Seq<char>|
                                    #[trigger] ids_for(entries_of(rs@, is@), r) == ids_with_reading(
                                        next,
                                        r,
                                    ) by {
                                    assert(ids_for(e, r) == ids_with_reading(seen, r));
                                }
                            }
                        },
                        None => {
                            proof {
                                assert forall|r: Seq<char>|
                                    #[trigger] ids_for(entries_of(rs@, is@), r) == ids_with_reading(
                                        next,
                                        r,
                                    ) by {
                                    assert(ids_for(entries_of(rs@, is@), r) == ids_with_reading(seen, r));
                                }
                            }
                        },
                    }
                    wi = wi + 1;
                }
                proof {
                    assert(lex.words@.take(wi as int) =~= lex.words@);
                    assert(indexed_words(lexicons@.take(li + 1)) == before + lex.words@);
                }
            } else {
                proof {
                    assert(indexed_words(lexicons@.take(li + 1)) == before);
                }
            }
            li = li + 1;
        }
        proof {
            assert(lexicons@.take(li as int) =~= lexicons@);
        }
        ReadingIndex { readings: rs, ids: is }
    }

    /// The ids of the words whose reading is exactly `katakana`.
    pub fn lookup_exact(&self, katakana: &str) -> (res: Vec<WordId>)
        ensures
            res@ == ids_for(self.entries(), katakana@),
    {
        proof {
            use_type_invariant(self);
        }
        let ghost e = self.entries();
        let key = chars_of(katakana);
        assert forall|i: int, j: int| 0 <= i < j < self.readings@.len() implies chars_lt(
            #[trigger] self.readings@[i]@,
            #[trigger] self.readings@[j]@,
        ) by {
            assert(e[i].0 == self.readings@[i]@ && e[j].0 == self.readings@[j]@);
        }
        let lb = lower_bound(&self.readings, key.as_slice());
        if lb < self.readings.len() && same_reading(self.readings[lb].as_slice(), key.as_slice()) {
            proof {
                lemma_ids_for_at(e, lb as int);
            }
            return copy_ids(&self.ids[lb]);
        }
        proof {
            assert forall|i: int| 0 <= i < e.len() implies (#[trigger] e[i]).0 != key@ by {
                assert(e[i].0 == self.readings@[i]@);
                if i < lb {
                    lemma_chars_lt_strict(key@, key@, key@);
                } else if i > lb {
                    lemma_chars_lt_total(self.readings@[lb as int]@, key@);
                    lemma_chars_lt_strict(key@, self.readings@[lb as int]@, self.readings@[i]@);
                    lemma_chars_lt_strict(key@, key@, key@);
                }
            }
            lemma_ids_for_none(e, key@);
        }
        Vec::new()
    }
}

/// Entries before `n` none of whose readings starts with `p` give no ids.
proof fn lemma_prefix_ids_none(e: Seq<(Seq<char>, Seq<WordId>)>, p: Seq<char>, from: int, n: int)
    requires
        0 <= from <= n <= e.len(),
        forall|i: int| from <= i < n ==> !p.is_prefix_of(#[trigger] e[i].0),
    ensures
        prefix_ids(e.take(n), p) == prefix_ids(e.take(from), p),
    decreases n,
{
    if n > from {
        assert(e.take(n).drop_last() =~= e.take(n - 1));
        assert(e.take(n).last() == e[n - 1]);
        lemma_prefix_ids_none(e, p, from, n - 1);
    }
}

impl ReadingIndex {
    /// The ids of the words whose reading starts with `katakana_prefix`, in
    /// the order of their readings.
    pub fn lookup_prefix(&self, katakana_prefix: &str) -> (res: Vec<WordId>)
        ensures
            res@ == prefix_ids(self.entries(), katakana_prefix@),
    {
        proof {
            use_type_invariant(self);
        }
        let ghost e = self.entries();
        let prefix = chars_of(katakana_prefix);
        let ghost p = prefix@;
        assert forall|i: int, j: int| 0 <= i < j < self.readings@.len() implies chars_lt(
            #[trigger] self.readings@[i]@,
            #[trigger] self.readings@[j]@,
        ) by {
            assert(e[i].0 == self.readings@[i]@ && e[j].0 == self.readings@[j]@);
        }
        let lb = lower_bound(&self.readings, prefix.as_slice());
        proof {
            assert forall|i: int| 0 <= i < lb implies !p.is_prefix_of(#[trigger] e[i].0) by {
                assert(e[i].0 == self.readings@[i]@);
                if p.is_prefix_of(e[i].0) {
                    lemma_prefix_not_after(p, e[i].0);
                }
            }
            lemma_prefix_ids_none(e, p, 0, lb as int);
            assert(e.take(0).len() == 0);
        }
        let mut out: Vec<WordId> = Vec::new();
        let mut k: usize = lb;
        while k < self.readings.len() && starts_with(self.readings[k].as_slice(), prefix.as_slice())
            invariant
                e == self.entries(),
                p == prefix@,
                self.readings@.len() == self.ids@.len(),
                e.len() == self.readings@.len(),
                lb <= k <= self.readings@.len(),
                out@ == prefix_ids(e.take(k as int), p),
            decreases self.readings.len() - k,
        {
            let ghost before = out@;
            let row = &self.ids[k];
            let mut t: usize = 0;
            while t < row.len()
                invariant
                    t <= row@.len(),
                    out@ == before + row@.take(t as int),
                decreases row.len() - t,
            {
                out.push(row[t]);
                assert(row@.take(t + 1) =~= row@.take(t as int).push(row@[t as int]));
                t = t + 1;
            }
            proof {
                assert(row@.take(t as int) =~= row@);
                assert(e.take(k + 1).drop_last() =~= e.take(k as int));
                assert(e.take(k + 1).last() == e[k as int]);
                assert(e[k as int].0 == self.readings@[k as int]@);
            }
            k = k + 1;
        }
        proof {
            if k < e.len() {
                assert(e[k as int].0 == self.readings@[k as int]@);
                assert(!p.is_prefix_of(e[k as int].0));
                assert forall|i: int| k <= i < e.len() implies !p.is_prefix_of(#[trigger] e[i].0) by {
                    if i > k && p.is_prefix_of(e[i].0) {
                        assert(chars_lt(e[k as int].0, e[i].0));
                        lemma_prefix_between(p, e[k as int].0, e[i].0);
                    }
                }
            }
            lemma_prefix_ids_none(e, p, k as int, e.len() as int);
            assert(e.take(e.len() as int) =~= e);
        }
        out
    }
}

/// A copy of `v`.
fn copy_ids(v: &Vec<WordId>) -> (res: Vec<WordId>)
    ensures
        res@ == v@,
{
    let mut out: Vec<WordId> = Vec::new();
    let mut i: usize = 0;
    while i < v.len()
        invariant
            i <= v@.len(),
            out@ == v@.take(i as int),
        decreases v.len() - i,
    {
        out.push(v[i]);
        assert(v@.take(i + 1) =~= v@.take(i as int).push(v@[i as int]));
        i = i + 1;
    }
    assert(v@.take(i as int) =~= v@);
    out
}

} // verus!
