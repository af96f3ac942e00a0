//! The index of a dictionary being built: for each key (a surface or a
//! reading), the word ids that have it, turned into a word-id table and a
//! MARISA trie from the keys to their lists in that table.

use vstd::prelude::*;

use crate::dic::lexicon::marisa_trie::{entry_key, marisa_decoded, serialized, MarisaTrie};
use crate::dic::word_id::WordId;
use crate::error::SudachiError;
use vstd::string::*;

verus! {

// ── the indexmap crate ───────────────────────────────────────────────────────

#[verifier::external_type_specification]
#[verifier::external_body]
#[verifier::reject_recursive_types(K)]
#[verifier::reject_recursive_types(V)]
#[verifier::reject_recursive_types(S)]
pub struct ExIndexMap<K, V, S>(indexmap::IndexMap<K, V, S>);

/// The entries of the index map, in insertion order: each key's text and
/// its entry.
pub uninterp spec fn index_contents(m: indexmap::IndexMap<&str, IndexEntry>) -> Seq<
    (Seq<char>, IndexEntry),
>;

/// `IndexMap::new`: an empty map.
#[verifier::external_body]
fn index_new<'a>() -> (res: indexmap::IndexMap<&'a str, IndexEntry>)
    ensures
        index_contents(res) == Seq::<(Seq<char>, IndexEntry)>::empty(),
{
    indexmap::IndexMap::new()
}

/// `IndexMap::len`: the number of entries.
#[verifier::external_body]
fn index_len(m: &indexmap::IndexMap<&str, IndexEntry>) -> (res: usize)
    ensures
        res == index_contents(*m).len(),
{
    m.len()
}

/// `IndexMap::get_index_of`: the position of the entry of `key`, if any.
#[verifier::external_body]
fn index_position(m: &indexmap::IndexMap<&str, IndexEntry>, key: &str) -> (res: Option<usize>)
    ensures
        match res {
            Some(i) => i < index_contents(*m).len() && index_contents(*m)[i as int].0 == key@,
            None => forall|i: int|
                0 <= i < index_contents(*m).len() ==> (#[trigger] index_contents(*m)[i]).0 != key@,
        },
{
    m.get_index_of(&key)
}

/// `IndexMap::insert` of a key that the map does not hold: the entry goes
/// last.
#[verifier::external_body]
fn index_insert_new<'a>(m: &mut indexmap::IndexMap<&'a str, IndexEntry>, key: &'a str, value: IndexEntry)
    requires
        forall|i: int|
            0 <= i < index_contents(*old(m)).len() ==> (#[trigger] index_contents(*old(m))[i]).0
                != key@,
    ensures
        index_contents(*final(m)) == index_contents(*old(m)).push((key@, value)),
{
    m.insert(key, value);
}

/// `IndexMap::get_index_mut`: the key of entry `i` and its value, to
/// change in place.
#[verifier::external_body]
fn index_value_mut<'a, 'b>(m: &'b mut indexmap::IndexMap<&'a str, IndexEntry>, i: usize) -> (res: (
    &'b str,
    &'b mut IndexEntry,
))
    requires
        i < index_contents(*old(m)).len(),
    ensures
        res.0@ == index_contents(*old(m))[i as int].0,
        *res.1 == index_contents(*old(m))[i as int].1,
        index_contents(*final(m)) == index_contents(*old(m)).update(
            i as int,
            (index_contents(*old(m))[i as int].0, *final(res.1)),
        ),
{
    let (k, v) = m.get_index_mut(i).unwrap();
    (*k, v)
}

/// `IndexMap::drain(..)` collected: all entries in order; the map is left
/// empty.
#[verifier::external_body]
fn index_drain<'a>(m: &mut indexmap::IndexMap<&'a str, IndexEntry>) -> (res: Vec<(&'a str, IndexEntry)>)
    ensures
        res@.len() == index_contents(*old(m)).len(),
        forall|i: int|
            0 <= i < res@.len() ==> (#[trigger] res@[i]).0@ == index_contents(*old(m))[i].0
                && res@[i].1 == index_contents(*old(m))[i].1,
        index_contents(*final(m)) == Seq::<(Seq<char>, IndexEntry)>::empty(),
{
    m.drain(..).collect()
}

/// `IndexMap::shrink_to_fit`: the entries stay.
#[verifier::external_body]
fn index_shrink(m: &mut indexmap::IndexMap<&str, IndexEntry>)
    ensures
        index_contents(*final(m)) == index_contents(*old(m)),
{
    m.shrink_to_fit()
}

// ── the index ────────────────────────────────────────────────────────────────

/// The word ids of one key, and where their list starts in the word-id
/// table once it is built.
pub struct IndexEntry {
    ids: Vec<WordId>,
    offset: usize,
}

impl IndexEntry {
    /// The word ids of the key.
    pub closed spec fn ids(&self) -> Seq<WordId> {
        self.ids@
    }

    /// Where the list of the key starts in the word-id table (`usize::MAX`
    /// before the table is built).
    pub closed spec fn offset(&self) -> usize {
        self.offset
    }
}

impl Default for IndexEntry {
    fn default() -> (res: IndexEntry)
        ensures
            res.ids().len() == 0,
            res.offset() == usize::MAX,
    {
        IndexEntry { ids: Vec::new(), offset: usize::MAX }
    }
}

/// The bytes of a list of word ids in the word-id table: its count in one
/// byte, then each raw id, little-endian.
pub open spec fn id_list_bytes(ids: Seq<WordId>) -> Seq<u8> {
    seq![ids.len() as u8] + crate::dic::lexicon::marisa_trie::u32s_le_bytes(
        ids.map_values(|w: WordId| w.raw_spec()),
    )
}

/// The word-id table of the lists `lists`, one after the other.
pub open spec fn table_bytes(lists: Seq<Seq<WordId>>) -> Seq<u8>
    decreases lists.len(),
{
    if lists.len() == 0 {
        Seq::empty()
    } else {
        table_bytes(lists.drop_last()) + id_list_bytes(lists.last())
    }
}

/// Appends a list of word ids to the table; refuses a list of more than 255
/// ids, whose count does not fit in its byte.
fn write_u32_array(out: &mut Vec<u8>, ids: &Vec<WordId>) -> (res: bool)
    ensures
        res == (ids@.len() <= 255),
        res ==> final(out)@ == old(out)@ + id_list_bytes(ids@),
        !res ==> final(out)@ == old(out)@,
{
    if ids.len() > 255 {
        return false;
    }
    let ghost start = out@;
    out.push(ids.len() as u8);
    let ghost raws = ids@.map_values(|w: WordId| w.raw_spec());
    let mut i: usize = 0;
    while i < ids.len()
        invariant
            i <= ids@.len(),
            ids@.len() <= 255,
            raws == ids@.map_values(|w: WordId| w.raw_spec()),
            out@ == start + seq![ids@.len() as u8] + crate::dic::lexicon::marisa_trie::u32s_le_bytes(
                raws.take(i as int),
            ),
        decreases ids.len() - i,
    {
        let raw = ids[i].as_raw();
        let ghost before = out@;
        out.push((raw & 0xff) as u8);
        out.push(((raw >> 8) & 0xff) as u8);
        out.push(((raw >> 16) & 0xff) as u8);
        out.push((raw >> 24) as u8);
        proof {
            assert((raw & 0xff) as u8 == (raw % 256) as u8 && ((raw >> 8) & 0xff) as u8 == ((raw
                / 256) % 256) as u8 && ((raw >> 16) & 0xff) as u8 == ((raw / 65536) % 256) as u8
                && (raw >> 24) as u8 == (raw / 16777216) as u8) by (bit_vector);
            assert(raws.take(i + 1).drop_last() =~= raws.take(i as int));
            assert(out@ =~= before + crate::dic::lexicon::marisa_trie::u32_le_bytes(raw));
        }
        i = i + 1;
    }
    assert(raws.take(i as int) =~= raws);
    true
}

/// The bytes of a key.
pub open spec fn key_bytes(key: Seq<char>) -> Seq<u8> {
    vstd::utf8::encode_utf8(key)
}

/// Every key of `entries` is short enough for a MARISA trie to take it.
pub open spec fn keys_fit(entries: Seq<(Seq<char>, IndexEntry)>) -> bool {
    forall|i: int| 0 <= i < entries.len() ==> (#[trigger] key_bytes(entries[i].0)).len() <= u32::MAX
}

/// `image` is a MARISA trie of the keys of `entries`, and `offsets` maps the
/// key id of each to the word-id table offset of its entry.
pub open spec fn trie_of_entries(
    entries: Seq<(Seq<char>, IndexEntry)>,
    image: Seq<u8>,
    offsets: Seq<u32>,
) -> bool {
    &&& marisa_decoded(image) is Some
    &&& forall|k: Seq<u8>|
        #[trigger] marisa_decoded(image)->0.contains_key(k) <==> exists|i: int|
            0 <= i < entries.len() && key_bytes(entries[i].0) == k
    &&& forall|i: int|
        0 <= i < entries.len() ==> {
            let id = marisa_decoded(image)->0[key_bytes(#[trigger] entries[i].0)];
            &&& id < offsets.len()
            &&& offsets[id as int] == entries[i].1.offset() as u32
        }
}

/// The word ids of each entry.
pub open spec fn entry_lists(entries: Seq<(Seq<char>, IndexEntry)>) -> Seq<Seq<WordId>> {
    Seq::new(entries.len(), |i: int| entries[i].1.ids())
}

/// The text of a build error about the word-id table of `key`.
pub open spec fn too_many_entries_text(key: Seq<char>) -> Seq<char> {
    "<word id table for `"@ + key + "` has too much entries>"@
}

/// The trie that `MarisaTrie::build` makes of the entries of an index, each
/// key with the offset of its list, is a trie of those entries.
proof fn lemma_trie_of_entries(
    before: Seq<(Seq<char>, IndexEntry)>,
    te: Seq<(&str, u32)>,
    keys: Map<Seq<u8>, nat>,
    offsets: Seq<u32>,
    image: Seq<u8>,
)
    requires
        distinct_keys(before),
        te.len() == before.len(),
        forall|j: int|
            0 <= j < te.len() ==> (#[trigger] te[j]).0@ == before[j].0 && te[j].1
                == before[j].1.offset() as u32,
        forall|k: Seq<u8>| #[trigger] keys.contains_key(k) ==> keys[k] < offsets.len(),
        forall|k: Seq<u8>|
            #[trigger] keys.contains_key(k) <==> exists|i: int|
                0 <= i < te.len() && entry_key(te, i) == k,
        forall|i: int|
            0 <= i < te.len() && (forall|j: int|
                i < j < te.len() ==> entry_key(te, j)
                    != entry_key(te, i)) ==> offsets[keys[#[trigger] entry_key(
                te,
                i,
            )] as int] == te[i].1,
        marisa_decoded(image) == Some(keys),
    ensures
        trie_of_entries(before, image, offsets),
{
    assert forall|x: int| 0 <= x < te.len() implies #[trigger] entry_key(te, x)
        == key_bytes(before[x].0) by {
        assert(te[x].0@ == before[x].0);
    }
    assert forall|x: int, y: int| 0 <= x < y < te.len() implies key_bytes(before[x].0) != key_bytes(
        before[y].0,
    ) by {
        assert(before[x].0 != before[y].0);
        vstd::utf8::encode_utf8_decode_utf8(before[x].0);
        vstd::utf8::encode_utf8_decode_utf8(before[y].0);
    }
    assert forall|k: Seq<u8>| #[trigger] keys.contains_key(k) <==> exists|x: int|
        0 <= x < before.len() && key_bytes(before[x].0) == k by {
        if keys.contains_key(k) {
            let x = choose|x: int| 0 <= x < te.len() && entry_key(te, x) == k;
            assert(entry_key(te, x) == key_bytes(before[x].0));
        }
        if exists|x: int| 0 <= x < before.len() && key_bytes(before[x].0) == k {
            let x = choose|x: int| 0 <= x < before.len() && key_bytes(before[x].0) == k;
            assert(entry_key(te, x) == key_bytes(before[x].0));
        }
    }
    assert forall|x: int| 0 <= x < before.len() implies ({
        let id = keys[key_bytes(#[trigger] before[x].0)];
        &&& id < offsets.len()
        &&& offsets[id as int] == before[x].1.offset() as u32
    }) by {
        let k = entry_key(te, x);
        assert(k == key_bytes(before[x].0));
        assert(keys.contains_key(k));
        assert forall|y: int| x < y < te.len() implies entry_key(te, y)
            != entry_key(te, x) by {
            assert(entry_key(te, y) == key_bytes(before[y].0));
        }
    }
}

/// The index of a dictionary being built: keys in insertion order (which
/// matters for the built dictionary), each with its word ids.
pub struct IndexBuilder<'a> {
    data: indexmap::IndexMap<&'a str, IndexEntry>,
}

/// The keys of `entries` are distinct.
pub open spec fn distinct_keys(entries: Seq<(Seq<char>, IndexEntry)>) -> bool {
    forall|i: int, j: int|
        0 <= i < j < entries.len() ==> (#[trigger] entries[i]).0 != (#[trigger] entries[j]).0
}

impl<'a> IndexBuilder<'a> {
    #[verifier::type_invariant]
    closed spec fn inv(self) -> bool {
        distinct_keys(index_contents(self.data))
    }

    /// The entries of the index, in insertion order.
    pub closed spec fn entries(&self) -> Seq<(Seq<char>, IndexEntry)> {
        index_contents(self.data)
    }

    pub fn new() -> (res: IndexBuilder<'a>)
        ensures
            res.entries().len() == 0,
    {
        IndexBuilder { data: index_new() }
    }

    /// Record that word `id` has the key `key`: its id is appended to the
    /// key's entry, made last in the index if the key is new.
    pub fn add(&mut self, key: &'a str, id: WordId)
        ensures
            ({
                let before = old(self).entries();
                let after = final(self).entries();
                if exists|i: int| 0 <= i < before.len() && (#[trigger] before[i]).0 == key@ {
                    let i = choose|i: int| 0 <= i < before.len() && (#[trigger] before[i]).0 == key@;
                    &&& after.len() == before.len()
                    &&& forall|j: int| 0 <= j < before.len() && j != i ==> #[trigger] after[j] == before[j]
                    &&& after[i].0 == key@
                    &&& after[i].1.ids() == before[i].1.ids().push(id)
                    &&& after[i].1.offset() == before[i].1.offset()
                } else {
                    &&& after.len() == before.len() + 1
                    &&& forall|j: int| 0 <= j < before.len() ==> #[trigger] after[j] == before[j]
                    &&& after.last().0 == key@
                    &&& after.last().1.ids() == seq![id]
                    &&& after.last().1.offset() == usize::MAX
                }
            }),
    {
        proof {
            use_type_invariant(&*self);
        }
        let mut data = index_new();
        std::mem::swap(&mut data, &mut self.data);
        let ghost before = index_contents(data);
        match index_position(&data, key) {
            Some(i) => {
                proof {
                    assert forall|j: int| 0 <= j < before.len() && before[j].0 == key@ implies j
                        == i by {
                        if j != i {
                            if j < i {
                                assert(before[j].0 != before[i as int].0);
                            } else {
                                assert(before[i as int].0 != before[j].0);
                            }
                        }
                    }
                }
                let (_, entry) = index_value_mut(&mut data, i);
                entry.ids.push(id);
                proof {
                    let after = index_contents(data);
                    assert forall|a: int, b: int| 0 <= a < b < after.len() implies (
                    #[trigger] after[a]).0 != (#[trigger] after[b]).0 by {
                        assert(after[a].0 == before[a].0);
                        assert(after[b].0 == before[b].0);
                    }
                }
            },
            None => {
                let mut entry = IndexEntry::default();
                entry.ids.push(id);
                index_insert_new(&mut data, key, entry);
                proof {
                    let after = index_contents(data);
                    assert forall|a: int, b: int| 0 <= a < b < after.len() implies (
                    #[trigger] after[a]).0 != (#[trigger] after[b]).0 by {
                        if b < before.len() {
                            assert(after[a] == before[a]);
                            assert(after[b] == before[b]);
                        }
                    }
                }
            },
        }
        self.data = data;
    }

    /// Write the word-id table: the lists of all entries, in order. Each
    /// entry records where its list starts and gives up its ids. Fails at the
    /// first entry with more than 255 ids.
    pub fn build_word_id_table(&mut self) -> (res: Result<Vec<u8>, SudachiError>)
        ensures
            ({
                let before = old(self).entries();
                let after = final(self).entries();
                let lists = entry_lists(before);
                &&& after.len() == before.len()
                &&& forall|i: int| 0 <= i < before.len() ==> (#[trigger] after[i]).0 == before[i].0
                &&& match res {
                    Ok(b) => {
                        &&& b@ == table_bytes(lists)
                        &&& forall|i: int|
                            0 <= i < before.len() ==> (#[trigger] after[i]).1.ids().len() == 0
                                && after[i].1.offset() == table_bytes(lists.take(i)).len()
                        &&& forall|i: int| 0 <= i < before.len() ==> (#[trigger] lists[i]).len() <= 255
                    },
                    Err(e) => exists|f: int|
                        0 <= f < before.len() && (#[trigger] lists[f]).len() > 255 && (forall|j: int|
                            0 <= j < f ==> (#[trigger] lists[j]).len() <= 255) && (e matches SudachiError::DictionaryCompilationError(
                            w,
                        ) && w@ == too_many_entries_text(before[f].0)),
                }
            }),
    {
        proof {
            use_type_invariant(&*self);
        }
        let mut data = index_new();
        std::mem::swap(&mut data, &mut self.data);
        let ghost before = index_contents(data);
        let ghost lists = entry_lists(before);
        let mut result: Vec<u8> = Vec::new();
        let n = index_len(&data);
        let mut i: usize = 0;
        while i < n
            invariant
                before == old(self).entries(),
                n == before.len(),
                lists == entry_lists(before),
                distinct_keys(before),
                i <= n,
                index_contents(data).len() == n,
                result@ == table_bytes(lists.take(i as int)),
                forall|j: int| 0 <= j < n ==> (#[trigger] index_contents(data)[j]).0 == before[j].0,
                forall|j: int|
                    0 <= j < i ==> (#[trigger] index_contents(data)[j]).1.ids().len() == 0
                        && index_contents(data)[j].1.offset() == table_bytes(lists.take(j)).len(),
                forall|j: int| i <= j < n ==> #[trigger] index_contents(data)[j] == before[j],
                forall|j: int| 0 <= j < i ==> (#[trigger] lists[j]).len() <= 255,
            decreases n - i,
        {
            let ghost cur = index_contents(data);
            let (k, entry) = index_value_mut(&mut data, i);
            entry.offset = result.len();
            let mut ids: Vec<WordId> = Vec::new();
            std::mem::swap(&mut ids, &mut entry.ids);
            let ok = write_u32_array(&mut result, &ids);
            if !ok {
                let mut msg = String::from_str("<word id table for `");
                msg.append(k);
                msg.append("` has too much entries>");
                proof {
                    assert(lists[i as int] == ids@);
                    let after = index_contents(data);
                    assert forall|a: int, b: int| 0 <= a < b < after.len() implies (
                    #[trigger] after[a]).0 != (#[trigger] after[b]).0 by {
                        assert(after[a].0 == before[a].0);
                        assert(after[b].0 == before[b].0);
                    }
                    assert(msg@ == too_many_entries_text(before[i as int].0));
                    assert(lists[i as int].len() > 255);
                    assert(after.len() == before.len());
                    assert forall|j: int| 0 <= j < before.len() implies (#[trigger] after[j]).0
                        == before[j].0 by {}
                }
                let err = SudachiError::DictionaryCompilationError(msg);
                proof {
                    assert(0 <= i < before.len() && lists[i as int].len() > 255 && (forall|j: int|
                        0 <= j < i ==> (#[trigger] lists[j]).len() <= 255) && (err matches SudachiError::DictionaryCompilationError(
                        w,
                    ) && w@ == too_many_entries_text(before[i as int].0)));
                }
                self.data = data;
                return Err(err);
            }
            proof {
                assert(lists[i as int] == ids@);
                assert(lists.take(i + 1).drop_last() =~= lists.take(i as int));
                assert(lists.take(i + 1).last() == lists[i as int]);
            }
            i = i + 1;
        }
        proof {
            assert(lists.take(i as int) =~= lists);
            let after = index_contents(data);
            assert forall|a: int, b: int| 0 <= a < b < after.len() implies (#[trigger] after[a]).0
                != (#[trigger] after[b]).0 by {
                assert(after[a].0 == before[a].0);
                assert(after[b].0 == before[b].0);
            }
        }
        self.data = data;
        Ok(result)
    }

    /// Build a MARISA trie from the keys to the offsets of their lists in
    /// the word-id table, and serialize it. The index is emptied. Fails when
    /// an entry has no offset that fits in `u32` (the table was not built),
    /// when MARISA refuses a key, or when the trie cannot be serialized.
    #[verifier::rlimit(30)]
    pub fn build_trie(&mut self) -> (res: Result<Vec<u8>, SudachiError>)
        ensures
            final(self).entries().len() == 0,
            ({
                let before = old(self).entries();
                let unbuilt = exists|i: int|
                    0 <= i < before.len() && (#[trigger] before[i]).1.offset() > u32::MAX;
                &&& unbuilt ==> exists|f: int|
                    0 <= f < before.len() && (#[trigger] before[f]).1.offset() > u32::MAX && (forall|j: int|
                        0 <= j < f ==> (#[trigger] before[j]).1.offset() <= u32::MAX) && (res matches Err(
                        SudachiError::DictionaryCompilationError(w),
                    ) && w@ == "entry "@ + before[f].0)
                &&& res is Ok <==> !unbuilt && keys_fit(before)
                &&& !unbuilt && !keys_fit(before) ==> (res matches Err(SudachiError::DictionaryCompilationError(w))
                    && w@ == "<marisa-trie>"@)
                &&& res matches Ok(b) ==> exists|image: Seq<u8>, offsets: Seq<u32>|
                    trie_of_entries(before, image, offsets) && b@ == #[trigger] serialized(
                        image,
                        offsets,
                    )
            }),
    {
        proof {
            use_type_invariant(&*self);
        }
        let mut data = index_new();
        std::mem::swap(&mut data, &mut self.data);
        let ghost before = index_contents(data);
        let drained = index_drain(&mut data);
        index_shrink(&mut data);
        self.data = data;
        let mut trie_entries: Vec<(&'a str, u32)> = Vec::new();
        let mut i: usize = 0;
        while i < drained.len()
            invariant
                before == old(self).entries(),
                self.entries().len() == 0,
                i <= drained@.len(),
                drained@.len() == before.len(),
                forall|j: int|
                    0 <= j < drained@.len() ==> (#[trigger] drained@[j]).0@ == before[j].0
                        && drained@[j].1 == before[j].1,
                trie_entries@.len() == i,
                forall|j: int|
                    0 <= j < i ==> (#[trigger] trie_entries@[j]).0@ == before[j].0
                        && trie_entries@[j].1 == before[j].1.offset() as u32
                        && before[j].1.offset() <= u32::MAX,
            decreases drained.len() - i,
        {
            let k = drained[i].0;
            let offset = drained[i].1.offset;
            if offset > u32::MAX as usize {
                let mut msg = String::from_str("entry ");
                msg.append(k);
                let err = SudachiError::DictionaryCompilationError(msg);
                proof {
                    assert(before[i as int].1.offset() > u32::MAX);
                    assert(forall|j: int| 0 <= j < i ==> (#[trigger] before[j]).1.offset() <= u32::MAX
                        ) by {
                        assert forall|j: int| 0 <= j < i implies (#[trigger] before[j]).1.offset()
                            <= u32::MAX by {
                            assert(trie_entries@[j].0@ == before[j].0);
                        }
                    }
                    assert(err matches SudachiError::DictionaryCompilationError(w) && w@ == "entry "@
                        + before[i as int].0);
                }
                return Err(err);
            }
            trie_entries.push((k, offset as u32));
            i = i + 1;
        }
        proof {
            assert forall|j: int| 0 <= j < before.len() implies (#[trigger] before[j]).1.offset()
                <= u32::MAX by {
                assert(trie_entries@[j].0@ == before[j].0);
            }
        }
        proof {
            assert forall|j: int| 0 <= j < before.len() implies #[trigger] entry_key(trie_entries@, j)
                == key_bytes(before[j].0) by {
                assert(trie_entries@[j].0@ == before[j].0);
            }
        }
        let marisa = match MarisaTrie::build(trie_entries.as_slice()) {
            Ok(m) => m,
            Err(_) => {
                proof {
                    let i = choose|i: int|
                        0 <= i < trie_entries@.len() && #[trigger] entry_key(trie_entries@, i).len()
                            > u32::MAX;
                    assert(key_bytes(before[i].0).len() > u32::MAX);
                }
                return Err(SudachiError::DictionaryCompilationError(String::from_str("<marisa-trie>")));
            },
        };
        proof {
            assert forall|i: int| 0 <= i < before.len() implies (#[trigger] key_bytes(before[i].0)).len()
                <= u32::MAX by {
                assert(entry_key(trie_entries@, i) == key_bytes(before[i].0));
            }
        }
        let bytes = match marisa.to_bytes() {
            Ok(b) => b,
            Err(_) => {
                return Err(
                    SudachiError::DictionaryCompilationError(String::from_str("<marisa-trie-serialize>")),
                );
            },
        };
        proof {
            let image = choose|image: Seq<u8>|
                marisa_decoded(image) == Some(marisa.keys()) && bytes@ == #[trigger] serialized(
                    image,
                    marisa.offsets(),
                );
            lemma_trie_of_entries(before, trie_entries@, marisa.keys(), marisa.offsets(), image);
        }
        Ok(bytes)
    }
}

} // verus!
