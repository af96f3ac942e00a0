//! Pre-built reading-keyed MARISA trie for kana-kanji conversion.
//!
//! Instead of building a reverse reading index at runtime by iterating every
//! word in the dictionary, this module loads a reading-keyed trie built at
//! dictionary conversion time. Given katakana input bytes, a common-prefix
//! search yields all readings that are prefixes of the input, with the word
//! ids that have each reading.

use vstd::prelude::*;

use crate::dic::lexicon::marisa_trie::{
    image_end, lemma_prefix_matches_are_keys, marisa_decoded, prefix_matches, section_offsets,
    section_size, MarisaTrie,
};
use crate::dic::lexicon::word_id_table::WordIdTable;
use crate::error::{data_error, SudachiError};
use crate::le::{le_u32, read_u32};

verus! {

/// Magic marker for the reading trie section in the dictionary binary ("RTRI").
pub const READING_TRIE_MAGIC: u32 = 0x5254_5249;

/// A pre-built reading-keyed trie: katakana reading bytes to word ids, via a
/// MARISA trie and a word-id table.
pub struct ReadingTrie<'a> {
    trie: MarisaTrie,
    word_id_table: WordIdTable<'a>,
}

/// A single match from a reading trie common-prefix search.
#[derive(Debug)]
pub struct ReadingMatch {
    /// Byte offset in the input where this reading match ends.
    pub end: usize,
    /// Word IDs that have this reading (raw u32, without dic_id prefix).
    pub word_ids: Vec<u32>,
}

/// Where the word-id table header of a reading trie at `off` lies: after the
/// magic and the serialized MARISA trie.
pub open spec fn table_header(b: Seq<u8>, off: int) -> int {
    off + 4 + section_size(b, off + 4)
}

impl<'a> ReadingTrie<'a> {
    /// The MARISA trie of the readings.
    pub closed spec fn trie(&self) -> MarisaTrie {
        self.trie
    }

    /// The word-id table.
    pub closed spec fn table(&self) -> WordIdTable<'a> {
        self.word_id_table
    }

    /// Every reading's offset has its word-id list in the table.
    pub open spec fn well_formed(&self) -> bool {
        &&& self.trie().ids_covered()
        &&& forall|k: Seq<u8>|
            #[trigger] self.trie().keys().contains_key(k) ==> self.table().readable(
                self.trie().value_of(k) as int,
            )
    }

    /// The word ids of the reading `k`.
    pub open spec fn ids_of(&self, k: Seq<u8>) -> Seq<u32> {
        self.table().list(self.trie().value_of(k) as int)
    }

    /// The offsets and sizes that the reading trie at `off` of `b` declares
    /// add up within `usize` as far as reading it gets, and its MARISA image
    /// is one `rsmarisa` can be given.
    pub open spec fn section_fits(b: Seq<u8>, off: int) -> bool {
        &&& off + 4 <= usize::MAX
        &&& off + 4 <= b.len() && le_u32(b, off) == READING_TRIE_MAGIC ==> {
            &&& MarisaTrie::section_fits(b, off + 4)
            &&& MarisaTrie::image_sound(b, off + 4)
            &&& MarisaTrie::section_ok(b, off + 4) ==> table_header(b, off) + 4 <= usize::MAX
            &&& MarisaTrie::section_ok(b, off + 4) && table_header(b, off) + 4 <= b.len()
                ==> table_header(b, off) + 4 + le_u32(b, table_header(b, off)) <= usize::MAX
        }
    }

    /// Deserialize a reading trie from the dictionary binary at `offset`:
    /// the magic "RTRI", a serialized MARISA trie and a word-id table (its
    /// size, then its bytes). Returns the trie and the number of bytes
    /// consumed.
    pub fn from_bytes(buf: &'a [u8], offset: usize) -> (res: Result<(ReadingTrie<'a>, usize), SudachiError>)
        requires
            ReadingTrie::section_fits(buf@, offset as int),
        ensures
            offset + 4 > buf@.len() ==> res == Err::<(ReadingTrie, usize), SudachiError>(
                SudachiError::InvalidRange(offset, (offset + 4) as usize),
            ),
            offset + 4 <= buf@.len() && le_u32(buf@, offset as int) != READING_TRIE_MAGIC ==> (
            res matches Err(SudachiError::InvalidData(w)) && w@ == "Expected RTRI magic"@),
            offset + 4 <= buf@.len() && le_u32(buf@, offset as int) == READING_TRIE_MAGIC
                && !MarisaTrie::section_ok(buf@, offset + 4) ==> (res matches Err(e)
                && MarisaTrie::section_error(buf@, offset + 4, e)),
            offset + 4 <= buf@.len() && le_u32(buf@, offset as int) == READING_TRIE_MAGIC
                && MarisaTrie::section_ok(buf@, offset + 4) ==> {
                let p = table_header(buf@, offset as int);
                if p + 4 > buf@.len() {
                    res == Err::<(ReadingTrie, usize), SudachiError>(
                        SudachiError::InvalidRange(p as usize, (p + 4) as usize),
                    )
                } else {
                    &&& res matches Ok((rt, consumed))
                    &&& Some(rt.trie().keys()) == marisa_decoded(
                        buf@.subrange(offset + 8, image_end(buf@, offset + 4)),
                    )
                    &&& rt.trie().offsets() == section_offsets(buf@, offset + 4)
                    &&& rt.table().bytes() == buf@
                    &&& rt.table().start() == p + 4
                    &&& rt.table().size() == le_u32(buf@, p)
                    &&& consumed == p + 4 + le_u32(buf@, p) - offset
                }
            },
    {
        let mut pos = offset;
        if pos + 4 > buf.len() {
            return Err(SudachiError::InvalidRange(pos, pos + 4));
        }
        let magic = read_u32(buf, pos);
        if magic != READING_TRIE_MAGIC {
            return Err(data_error("Expected RTRI magic"));
        }
        pos += 4;
        let (trie, trie_consumed) = MarisaTrie::from_bytes(buf, pos)?;
        pos += trie_consumed;
        if pos + 4 > buf.len() {
            return Err(SudachiError::InvalidRange(pos, pos + 4));
        }
        let table_size = read_u32(buf, pos);
        let word_id_table = WordIdTable::new(buf, table_size, pos + 4);
        pos += 4 + table_size as usize;
        let consumed = pos - offset;
        Ok((ReadingTrie { trie, word_id_table }, consumed))
    }

    /// Common-prefix search over katakana reading bytes: every reading that
    /// is a prefix of `input[offset..]`, shortest first, with the byte index
    /// where it ends in `input` and its word ids.
    pub fn common_prefix_search(&self, input: &[u8], offset: usize) -> (res: Vec<ReadingMatch>)
        requires
            offset <= input@.len(),
            self.well_formed(),
        ensures
            ({
                let q = input@.skip(offset as int);
                let pm = prefix_matches(self.trie().keys(), q);
                &&& res@.len() == pm.len()
                &&& forall|i: int|
                    0 <= i < res@.len() ==> (#[trigger] res@[i]).end == offset + pm[i].0
                        && res@[i].word_ids@ == self.ids_of(q.take(pm[i].0))
            }),
    {
        let entries = self.trie.common_prefix_iterator(input, offset);
        let ghost q = input@.skip(offset as int);
        let ghost pm = prefix_matches(self.trie().keys(), q);
        proof {
            lemma_prefix_matches_are_keys(self.trie().keys(), q, q.len() + 1int);
        }
        let mut results: Vec<ReadingMatch> = Vec::new();
        let mut i: usize = 0;
        while i < entries.len()
            invariant
                i <= entries@.len(),
                entries@.len() == pm.len(),
                pm == prefix_matches(self.trie().keys(), q),
                self.well_formed(),
                forall|k: int|
                    0 <= k < entries@.len() ==> (#[trigger] entries@[k]).value
                        == self.trie().offsets()[pm[k].1] && entries@[k].end == offset + pm[k].0,
                forall|k: int|
                    0 <= k < pm.len() ==> {
                        let m = #[trigger] pm[k];
                        &&& self.trie().keys().contains_key(q.take(m.0))
                        &&& m.1 == self.trie().keys()[q.take(m.0)]
                    },
                results@.len() == i,
                forall|k: int|
                    0 <= k < i ==> (#[trigger] results@[k]).end == offset + pm[k].0
                        && results@[k].word_ids@ == self.ids_of(q.take(pm[k].0)),
            decreases entries.len() - i,
        {
            let entry = entries[i];
            proof {
                let m = pm[i as int];
                assert(self.trie().keys().contains_key(q.take(m.0)));
            }
            let word_ids = self.word_id_table.entries(entry.value as usize);
            results.push(ReadingMatch { end: entry.end, word_ids });
            i = i + 1;
        }
        results
    }

    /// The word ids whose reading is exactly `katakana` (none when it is
    /// not a reading of the trie).
    pub fn lookup_exact(&self, katakana: &str) -> (res: Vec<u32>)
        requires
            self.well_formed(),
        ensures
            ({
                let k = vstd::utf8::encode_utf8(katakana@);
                &&& self.trie().keys().contains_key(k) ==> res@ == self.ids_of(k)
                &&& !self.trie().keys().contains_key(k) ==> res@.len() == 0
            }),
    {
        let katakana_bytes = katakana.as_bytes();
        let entries = self.trie.common_prefix_iterator(katakana_bytes, 0);
        let ghost q = katakana_bytes@;
        let ghost pm = prefix_matches(self.trie().keys(), q);
        proof {
            assert(q.skip(0) =~= q);
            lemma_prefix_matches_are_keys(self.trie().keys(), q, q.len() + 1int);
            lemma_full_match(self.trie().keys(), q);
        }
        let mut i: usize = 0;
        while i < entries.len()
            invariant
                i <= entries@.len(),
                entries@.len() == pm.len(),
                pm == prefix_matches(self.trie().keys(), q),
                q == katakana_bytes@,
                q == vstd::utf8::encode_utf8(katakana@),
                self.well_formed(),
                forall|k: int|
                    0 <= k < entries@.len() ==> (#[trigger] entries@[k]).value
                        == self.trie().offsets()[pm[k].1] && entries@[k].end == pm[k].0,
                forall|k: int|
                    0 <= k < pm.len() ==> {
                        let m = #[trigger] pm[k];
                        &&& 0 <= m.0 <= q.len()
                        &&& self.trie().keys().contains_key(q.take(m.0))
                        &&& m.1 == self.trie().keys()[q.take(m.0)]
                    },
                self.trie().keys().contains_key(q) <==> exists|k: int|
                    0 <= k < pm.len() && (#[trigger] pm[k]).0 == q.len(),
                forall|k: int| 0 <= k < i ==> (#[trigger] pm[k]).0 != q.len(),
            decreases entries.len() - i,
        {
            let entry = entries[i];
            if entry.end == katakana_bytes.len() {
                proof {
                    let m = pm[i as int];
                    assert(q.take(m.0) =~= q);
                    assert(self.trie().keys().contains_key(q));
                    assert(entry.value == self.trie().value_of(q));
                }
                return self.word_id_table.entries(entry.value as usize);
            }
            i = i + 1;
        }
        Vec::new()
    }

    /// Every reading that starts with `katakana_prefix`, with its word ids.
    pub fn lookup_prefix(&self, katakana_prefix: &str) -> (res: Vec<(String, Vec<u32>)>)
        requires
            self.well_formed(),
        ensures
            exists|ks: Seq<Seq<u8>>| #[trigger]
                self.trie().predictive_entries(katakana_prefix@, &self.table(), ks, res@),
    {
        let res = self.trie.predictive_search_entries(katakana_prefix, &self.word_id_table);
        proof {
            let ks = choose|ks: Seq<Seq<u8>>|
                self.trie.predictive_entries(katakana_prefix@, &self.word_id_table, ks, res@);
            assert(self.trie().predictive_entries(katakana_prefix@, &self.table(), ks, res@));
        }
        res
    }
}

/// The whole query is among the prefix matches exactly when it is a key.
proof fn lemma_full_match(keys: Map<Seq<u8>, nat>, q: Seq<u8>)
    ensures
        keys.contains_key(q) <==> exists|k: int|
            0 <= k < prefix_matches(keys, q).len() && (#[trigger] prefix_matches(keys, q)[k]).0
                == q.len(),
{
    let pm = prefix_matches(keys, q);
    lemma_prefix_matches_are_keys(keys, q, q.len() + 1int);
    let rest = crate::dic::lexicon::marisa_trie::prefix_matches_upto(keys, q, q.len() as int);
    lemma_prefix_matches_are_keys(keys, q, q.len() as int);
    assert(q.take(q.len() as int) =~= q);
    if keys.contains_key(q) {
        assert(pm == rest.push((q.len() as int, keys[q] as int)));
        assert(pm[pm.len() - 1].0 == q.len());
    } else {
        assert(pm == rest);
        assert forall|k: int| 0 <= k < pm.len() implies (#[trigger] pm[k]).0 != q.len() by {
            assert(pm[k] == rest[k]);
        }
    }
}

} // verus!
