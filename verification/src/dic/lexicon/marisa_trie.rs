//! MARISA trie backend for the lexicon: a space-efficient LOUDS trie from
//! the `rsmarisa` crate, with a side array from MARISA key ids to offsets in
//! the word-id table.

use vstd::prelude::*;

use crate::dic::lexicon::word_id_table::WordIdTable;
use crate::error::{data_error, SudachiError};
use crate::text::str_from_utf8;
use crate::le::{le_u32, read_u32};
use vstd::slice::slice_subrange;

verus! {

// ── the rsmarisa crate ───────────────────────────────────────────────────────

#[verifier::external_type_specification]
#[verifier::external_body]
pub struct ExMarisaTrie(rsmarisa::Trie);

#[verifier::external_type_specification]
#[verifier::external_body]
pub struct ExMarisaKeyset(rsmarisa::Keyset);

/// The keys an `rsmarisa::Trie` holds, as bytes, each with its key id. A
/// key id is the rank of the key's terminal node among the terminal nodes
/// (`terminal_flags.rank1(node)`, grimoire/trie/louds_trie.rs:246-249 when
/// building, :1318 and :1340 when searching).
pub uninterp spec fn marisa_keys(t: rsmarisa::Trie) -> Map<Seq<u8>, nat>;

/// The trie holds a structure, built or read, that searches can walk.
pub uninterp spec fn marisa_ready(t: rsmarisa::Trie) -> bool;

/// `rsmarisa::Trie::read` can be given `image`: reading it does not panic,
/// and a trie read from it holds a consistent structure that searches can
/// walk. Images that `Trie::write` produced are such images: `write_internal`
/// and `read_internal` (grimoire/trie/louds_trie.rs:990-1078) write and read
/// the same components in the same order, and a built trie has a next level
/// exactly when it has links and no tail (:255-300, :466-516), the condition
/// under which `read_internal` reads one. Arbitrary bytes need not be such
/// images: `Vector::read` reserves what a size field asks for, and nested
/// levels are read recursively as long as the flags ask for them.
pub uninterp spec fn marisa_sound_image(image: Seq<u8>) -> bool;

/// The keys of the trie that `rsmarisa::Trie::read` reads from `image`, or
/// `None` when it refuses the image.
pub uninterp spec fn marisa_decoded(image: Seq<u8>) -> Option<Map<Seq<u8>, nat>>;

/// The display text of the error that `rsmarisa::Trie::read` gives for
/// `image` when it refuses it.
pub uninterp spec fn marisa_read_error(image: Seq<u8>) -> Seq<char>;

/// The keys pushed into an `rsmarisa::Keyset`, in order, as bytes.
pub uninterp spec fn keyset_keys(ks: rsmarisa::Keyset) -> Seq<Seq<u8>>;

/// The key ids that building a trie assigned to the keys of a keyset, in
/// the order of the keys (`set_id` at grimoire/trie/louds_trie.rs:246-249).
pub uninterp spec fn keyset_ids(ks: rsmarisa::Keyset) -> Seq<nat>;

/// A new empty `rsmarisa::Keyset`.
#[verifier::external_body]
fn marisa_keyset_new() -> (res: rsmarisa::Keyset)
    ensures
        keyset_keys(res) == Seq::<Seq<u8>>::empty(),
{
    rsmarisa::Keyset::new()
}

/// `rsmarisa::Keyset::push_back_str`: appends the bytes of `key`; it refuses
/// (and appends nothing) only a key longer than `u32::MAX` bytes.
#[verifier::external_body]
fn marisa_keyset_push(ks: &mut rsmarisa::Keyset, key: &str) -> (res: bool)
    ensures
        res == (vstd::utf8::encode_utf8(key@).len() <= u32::MAX),
        res ==> keyset_keys(*final(ks)) == keyset_keys(*old(ks)).push(vstd::utf8::encode_utf8(key@)),
        !res ==> keyset_keys(*final(ks)) == keyset_keys(*old(ks)),
{
    ks.push_back_str(key).is_ok()
}

/// `rsmarisa::Trie::new` then `build(keyset, 0)`: the trie holds exactly
/// the keys of the keyset; the keyset keeps its keys and gets, for each, the
/// id of that key in the trie. In the source (grimoire/trie/louds_trie.rs:
/// 203-252) each key gets the terminal node where it ends; terminal flags are
/// set at exactly those nodes, and each key's id is the rank of its node
/// among them (`rank1`, :246-249, written back with `set_id` at the key's
/// own index). Distinct keys end at distinct nodes, so they have distinct
/// ids below the number of terminal nodes, which `num_keys` reports (:92,
/// :134-136).
#[verifier::external_body]
fn marisa_build(ks: &mut rsmarisa::Keyset) -> (res: rsmarisa::Trie)
    ensures
        marisa_ready(res),
        marisa_keys(res).dom().finite(),
        keyset_keys(*final(ks)) == keyset_keys(*old(ks)),
        keyset_ids(*final(ks)).len() == keyset_keys(*old(ks)).len(),
        forall|k: Seq<u8>|
            #[trigger] marisa_keys(res).contains_key(k) <==> keyset_keys(*old(ks)).contains(k),
        forall|i: int|
            0 <= i < keyset_keys(*old(ks)).len() ==> #[trigger] keyset_ids(*final(ks))[i]
                == marisa_keys(res)[keyset_keys(*old(ks))[i]],
        forall|k: Seq<u8>|
            #[trigger] marisa_keys(res).contains_key(k) ==> marisa_keys(res)[k] < marisa_keys(
                res,
            ).dom().len(),
        forall|k1: Seq<u8>, k2: Seq<u8>|
            #[trigger] marisa_keys(res).contains_key(k1) && #[trigger] marisa_keys(
                res,
            ).contains_key(k2) && k1 != k2 ==> marisa_keys(res)[k1] != marisa_keys(res)[k2],
{
    let mut trie = rsmarisa::Trie::new();
    trie.build(ks, 0);
    trie
}

/// `rsmarisa::Keyset::get(i).id()`: the id the build gave to key `i`
/// (keyset.rs:151, which asserts `i` below the size, and key.rs:147).
#[verifier::external_body]
fn marisa_keyset_id(ks: &rsmarisa::Keyset, i: usize) -> (res: usize)
    requires
        i < keyset_ids(*ks).len(),
    ensures
        res == keyset_ids(*ks)[i as int],
{
    ks.get(i).id()
}

/// `rsmarisa::Trie::num_keys`: the number of keys, the count of terminal
/// nodes (trie.rs, which expects a built or read trie, then
/// grimoire/trie/louds_trie.rs:92 and :134-136).
#[verifier::external_body]
fn marisa_num_keys(t: &rsmarisa::Trie) -> (res: usize)
    requires
        marisa_ready(*t),
    ensures
        res == marisa_keys(*t).dom().len(),
{
    t.num_keys()
}

/// `rsmarisa::Trie::new` then `read` from a reader over `image` (trie.rs:166,
/// grimoire/trie/louds_trie.rs:948-1013): the trie whose keys
/// `marisa_decoded` names, or the display text of the error when reading
/// fails; on success the trie holds the level read (trie.rs:169). Only sound
/// images are read; on others the crate may panic or yield a trie that
/// searches cannot walk.
#[verifier::external_body]
fn marisa_read(image: &[u8]) -> (res: Result<rsmarisa::Trie, String>)
    requires
        marisa_sound_image(image@),
    ensures
        res is Ok <==> marisa_decoded(image@) is Some,
        res matches Ok(t) ==> marisa_ready(t) && marisa_keys(t).dom().finite() && Some(
            marisa_keys(t),
        ) == marisa_decoded(image@),
        res matches Err(s) ==> s@ == marisa_read_error(image@),
{
    let mut reader = rsmarisa::grimoire::io::Reader::from_bytes(image);
    let mut trie = rsmarisa::Trie::new();
    trie.read(&mut reader).map_err(|e| e.to_string())?;
    Ok(trie)
}

/// `rsmarisa::Trie::write` into a writer over a new vector: writing a trie
/// that holds a structure into a vector does not fail, and the image is a
/// sound one from which `read` reads the same keys back. `Trie::write`
/// fails only without a structure (trie.rs:202-210); every write of a
/// writer made by `from_vec` appends to its buffer and returns `Ok`
/// (grimoire/io/writer.rs:64, `write` :86-92, `write_slice` :119-130, `seek`
/// :154-162), and `into_inner` gives the buffer
/// back (:201-205). The keys read back are the same because `read_internal`
/// reads what `write_internal` wrote, component by component
/// (grimoire/trie/louds_trie.rs:990-1078), and key ids are ranks in the
/// terminal flags that are written and read among them.
#[verifier::external_body]
fn marisa_write(t: &rsmarisa::Trie) -> (res: Option<Vec<u8>>)
    requires
        marisa_ready(*t),
    ensures
        res is Some,
        res matches Some(image) ==> marisa_sound_image(image@) && marisa_decoded(image@) == Some(
            marisa_keys(*t),
        ),
{
    let mut writer = rsmarisa::grimoire::io::Writer::from_vec(Vec::new());
    t.write(&mut writer).ok()?;
    writer.into_inner().ok()
}

/// `rsmarisa::Trie::common_prefix_search` called with an agent whose query
/// is `query` until it reports no more matches: for each match, the length
/// of the matching prefix and its key id. The search (grimoire/trie/
/// louds_trie.rs:1291-1350) walks the query from the root one child at a
/// time and reports each terminal node it reaches, the root first, so the
/// prefixes come shortest first, each with the rank of its node as id.
#[verifier::external_body]
fn marisa_common_prefixes(t: &rsmarisa::Trie, query: &[u8]) -> (res: Vec<(usize, usize)>)
    requires
        marisa_ready(*t),
    ensures
        res@.len() == prefix_matches(marisa_keys(*t), query@).len(),
        forall|i: int|
            0 <= i < res@.len() ==> (#[trigger] res@[i]).0 == prefix_matches(
                marisa_keys(*t),
                query@,
            )[i].0 && res@[i].1 == prefix_matches(marisa_keys(*t), query@)[i].1,
{
    let mut agent = rsmarisa::Agent::new();
    agent.set_query_bytes(query);
    let mut out = Vec::new();
    while t.common_prefix_search(&mut agent) {
        out.push((agent.key().length(), agent.key().id()));
    }
    out
}

/// `rsmarisa::Trie::predictive_search` called with an agent whose query is
/// `prefix` until it reports no more keys: each key found, as bytes, with
/// its id. Every key that starts with the prefix comes once; the order is
/// the trie's. The search (grimoire/trie/louds_trie.rs:1366 onward) walks
/// down to the node of the prefix, then enumerates the subtree below it
/// depth first, reporting every terminal node once with its rank as id.
#[verifier::external_body]
fn marisa_predictive(t: &rsmarisa::Trie, prefix: &str) -> (res: Vec<(Vec<u8>, usize)>)
    requires
        marisa_ready(*t),
    ensures
        forall|i: int|
            0 <= i < res@.len() ==> {
                &&& marisa_keys(*t).contains_key((#[trigger] res@[i]).0@)
                &&& marisa_keys(*t)[res@[i].0@] == res@[i].1
                &&& vstd::utf8::encode_utf8(prefix@).is_prefix_of(res@[i].0@)
            },
        forall|k: Seq<u8>|
            #[trigger] marisa_keys(*t).contains_key(k) && vstd::utf8::encode_utf8(prefix@).is_prefix_of(k)
                ==> exists|i: int| 0 <= i < res@.len() && (#[trigger] res@[i]).0@ == k,
        forall|i: int, j: int|
            0 <= i < j < res@.len() ==> (#[trigger] res@[i]).0@ != (#[trigger] res@[j]).0@,
{
    let mut agent = rsmarisa::Agent::new();
    agent.set_query_str(prefix);
    let mut out = Vec::new();
    while t.predictive_search(&mut agent) {
        out.push((agent.key().as_bytes().to_vec(), agent.key().id()));
    }
    out
}

// ── prefix matches ───────────────────────────────────────────────────────────

/// The prefixes of `q` of length below `n` that are keys, shortest first:
/// their lengths and key ids.
pub open spec fn prefix_matches_upto(keys: Map<Seq<u8>, nat>, q: Seq<u8>, n: int) -> Seq<(int, int)>
    decreases n,
{
    if n <= 0 {
        Seq::empty()
    } else {
        let rest = prefix_matches_upto(keys, q, n - 1);
        if keys.contains_key(q.take(n - 1)) {
            rest.push((n - 1, keys[q.take(n - 1)] as int))
        } else {
            rest
        }
    }
}

/// The prefixes of `q` (the empty one and `q` itself included) that are
/// keys, shortest first: their lengths and key ids.
pub open spec fn prefix_matches(keys: Map<Seq<u8>, nat>, q: Seq<u8>) -> Seq<(int, int)> {
    prefix_matches_upto(keys, q, q.len() + 1int)
}

/// Each prefix match names a prefix of the query that is a key, and its id.
pub proof fn lemma_prefix_matches_are_keys(keys: Map<Seq<u8>, nat>, q: Seq<u8>, n: int)
    requires
        n <= q.len() + 1,
    ensures
        forall|i: int|
            0 <= i < prefix_matches_upto(keys, q, n).len() ==> {
                let m = #[trigger] prefix_matches_upto(keys, q, n)[i];
                &&& 0 <= m.0 < n
                &&& keys.contains_key(q.take(m.0))
                &&& m.1 == keys[q.take(m.0)]
            },
    decreases n,
{
    if n > 0 {
        lemma_prefix_matches_are_keys(keys, q, n - 1);
        let rest = prefix_matches_upto(keys, q, n - 1);
        let pm = prefix_matches_upto(keys, q, n);
        assert forall|i: int| 0 <= i < pm.len() implies ({
            let m = #[trigger] pm[i];
            &&& 0 <= m.0 < n
            &&& keys.contains_key(q.take(m.0))
            &&& m.1 == keys[q.take(m.0)]
        }) by {
            if i < rest.len() {
                assert(pm[i] == rest[i]);
            }
        }
    }
}

// ── MarisaTrie ───────────────────────────────────────────────────────────────

/// A match of a common-prefix search: the word-id table offset of the
/// matched key and the byte index where the match ends.
#[derive(Clone, Copy, Debug, PartialEq, Eq, Structural)]
pub struct TrieEntry {
    pub value: u32,
    pub end: usize,
}

impl TrieEntry {
    pub fn new(value: u32, end: usize) -> (res: TrieEntry)
        ensures
            res.value == value,
            res.end == end,
    {
        TrieEntry { value, end }
    }
}

/// A MARISA-backed trie for lexicon lookup: the `rsmarisa` trie and a side
/// array from MARISA key ids to word-id table offsets.
pub struct MarisaTrie {
    trie: rsmarisa::Trie,
    id_to_offset: Vec<u32>,
}

/// The bytes of the key of `entries[i]`.
pub open spec fn entry_key(entries: Seq<(&str, u32)>, i: int) -> Seq<u8> {
    vstd::utf8::encode_utf8(entries[i].0@)
}

/// The little-endian bytes of `v`.
pub open spec fn u32_le_bytes(v: u32) -> Seq<u8> {
    seq![
        (v % 256) as u8,
        ((v / 256) % 256) as u8,
        ((v / 65536) % 256) as u8,
        (v / 16777216) as u8,
    ]
}

/// The little-endian bytes of each value of `vals`, one after the other.
pub open spec fn u32s_le_bytes(vals: Seq<u32>) -> Seq<u8>
    decreases vals.len(),
{
    if vals.len() == 0 {
        Seq::empty()
    } else {
        u32s_le_bytes(vals.drop_last()) + u32_le_bytes(vals.last())
    }
}

/// The serialized form of a MARISA trie: the length of the trie image, the
/// image, the number of offsets and the offsets, all little-endian u32.
pub open spec fn serialized(image: Seq<u8>, offsets: Seq<u32>) -> Seq<u8> {
    u32_le_bytes(image.len() as u32) + image + u32_le_bytes(offsets.len() as u32) + u32s_le_bytes(
        offsets,
    )
}

/// Where the trie image of a serialized trie at `off` ends.
pub open spec fn image_end(b: Seq<u8>, off: int) -> int {
    off + 4 + le_u32(b, off)
}

/// The offsets of a serialized trie at `off`.
pub open spec fn section_offsets(b: Seq<u8>, off: int) -> Seq<u32> {
    let start = image_end(b, off) + 4;
    Seq::new(le_u32(b, image_end(b, off)) as nat, |i: int| le_u32(b, start + 4 * i) as u32)
}

/// The byte size of a serialized trie at `off`.
pub open spec fn section_size(b: Seq<u8>, off: int) -> int {
    8 + le_u32(b, off) + 4 * le_u32(b, image_end(b, off))
}

/// Appends the little-endian bytes of `v`.
fn push_u32_le(out: &mut Vec<u8>, v: u32)
    ensures
        final(out)@ == old(out)@ + u32_le_bytes(v),
{
    out.push((v & 0xff) as u8);
    out.push(((v >> 8) & 0xff) as u8);
    out.push(((v >> 16) & 0xff) as u8);
    out.push((v >> 24) as u8);
    assert((v & 0xff) as u8 == (v % 256) as u8 && ((v >> 8) & 0xff) as u8 == ((v / 256) % 256) as u8
        && ((v >> 16) & 0xff) as u8 == ((v / 65536) % 256) as u8 && (v >> 24) as u8 == (v
        / 16777216) as u8) by (bit_vector);
    assert(final(out)@ =~= old(out)@ + u32_le_bytes(v));
}

/// The little-endian u32 read from its bytes is the value.
proof fn lemma_u32_le(v: u32, pre: Seq<u8>, post: Seq<u8>)
    ensures
        le_u32(pre + u32_le_bytes(v) + post, pre.len() as int) == v,
{
    let b = pre + u32_le_bytes(v) + post;
    let p = pre.len() as int;
    assert(b[p] == (v % 256) as u8);
    assert(b[p + 1] == ((v / 256) % 256) as u8);
    assert(b[p + 2] == ((v / 65536) % 256) as u8);
    assert(b[p + 3] == (v / 16777216) as u8);
    assert((v % 256) as u8 + 256 * ((v / 256) % 256) as u8 + 65536 * ((v / 65536) % 256) as u8
        + 16777216 * (v / 16777216) as u8 == v) by (bit_vector);
}

/// The `i`-th value of a run of little-endian u32 values.
proof fn lemma_u32s_le(vals: Seq<u32>, pre: Seq<u8>, i: int)
    requires
        0 <= i < vals.len(),
    ensures
        u32s_le_bytes(vals).len() == 4 * vals.len(),
        le_u32(pre + u32s_le_bytes(vals), pre.len() + 4 * i) == vals[i],
    decreases vals.len(),
{
    let init = vals.drop_last();
    if i < vals.len() - 1 {
        lemma_u32s_le(init, pre, i);
        let b = pre + u32s_le_bytes(vals);
        let b0 = pre + u32s_le_bytes(init);
        assert(b =~= b0 + u32_le_bytes(vals.last()));
        let p = pre.len() + 4 * i;
        assert(b[p] == b0[p] && b[p + 1] == b0[p + 1] && b[p + 2] == b0[p + 2] && b[p + 3] == b0[p
            + 3]);
    } else {
        if init.len() > 0 {
            lemma_u32s_le(init, pre, 0);
        }
        assert(u32s_le_bytes(init).len() == 4 * init.len()) by {
            if init.len() > 0 {
                lemma_u32s_le(init, pre, 0);
            }
        }
        assert(pre + u32s_le_bytes(vals) =~= (pre + u32s_le_bytes(init)) + u32_le_bytes(vals[i])
            + Seq::<u8>::empty());
        lemma_u32_le(vals[i], pre + u32s_le_bytes(init), Seq::<u8>::empty());
    }
}

impl MarisaTrie {
    #[verifier::type_invariant]
    closed spec fn inv(self) -> bool {
        &&& marisa_ready(self.trie)
        &&& marisa_keys(self.trie).dom().finite()
    }

    /// The keys of the trie, each with its MARISA key id.
    pub closed spec fn keys(&self) -> Map<Seq<u8>, nat> {
        marisa_keys(self.trie)
    }

    /// The word-id table offset of each key id.
    pub closed spec fn offsets(&self) -> Seq<u32> {
        self.id_to_offset@
    }

    /// Every key id has its offset.
    pub open spec fn ids_covered(&self) -> bool {
        forall|k: Seq<u8>| #[trigger] self.keys().contains_key(k) ==> self.keys()[k] < self.offsets().len()
    }

    /// The word-id table offset of key `k`.
    pub open spec fn value_of(&self, k: Seq<u8>) -> u32 {
        self.offsets()[self.keys()[k] as int]
    }

    /// Build a MARISA trie from (key, word-id table offset) pairs. The offset
    /// of a key given more than once is the last one given. Fails only on a
    /// key longer than `u32::MAX` bytes.
    pub fn build(entries: &[(&str, u32)]) -> (res: Result<MarisaTrie, SudachiError>)
        ensures
            res is Err <==> exists|i: int|
                0 <= i < entries@.len() && #[trigger] entry_key(entries@, i).len() > u32::MAX,
            res matches Err(e) ==> e matches SudachiError::InvalidData(w) && w@ == "Key too long"@,
            res matches Ok(m) ==> {
                &&& m.ids_covered()
                &&& forall|k: Seq<u8>|
                    #[trigger] m.keys().contains_key(k) <==> exists|i: int|
                        0 <= i < entries@.len() && entry_key(entries@, i) == k
                &&& forall|i: int|
                    0 <= i < entries@.len() && (forall|j: int|
                        i < j < entries@.len() ==> entry_key(entries@, j) != entry_key(
                            entries@,
                            i,
                        )) ==> m.value_of(#[trigger] entry_key(entries@, i)) == entries@[i].1
            },
    {
        let mut keyset = marisa_keyset_new();
        let mut i: usize = 0;
        while i < entries.len()
            invariant
                i <= entries@.len(),
                keyset_keys(keyset) == Seq::new(i as nat, |j: int| entry_key(entries@, j)),
                forall|j: int| 0 <= j < i ==> #[trigger] entry_key(entries@, j).len() <= u32::MAX,
            decreases entries.len() - i,
        {
            let (key, _) = entries[i];
            if !marisa_keyset_push(&mut keyset, key) {
                assert(entry_key(entries@, i as int).len() > u32::MAX);
                return Err(data_error("Key too long"));
            }
            assert(keyset_keys(keyset) =~= Seq::new((i + 1) as nat, |j: int| entry_key(entries@, j)));
            i = i + 1;
        }
        let ghost keys_seq = keyset_keys(keyset);
        let trie = marisa_build(&mut keyset);
        let num_keys = marisa_num_keys(&trie);
        let mut id_to_offset: Vec<u32> = Vec::new();
        let mut n: usize = 0;
        while n < num_keys
            invariant
                n <= num_keys,
                id_to_offset@.len() == n,
            decreases num_keys - n,
        {
            id_to_offset.push(0);
            n = n + 1;
        }
        let mut i: usize = 0;
        while i < entries.len()
            invariant
                i <= entries@.len(),
                keys_seq == Seq::new(entries@.len(), |j: int| entry_key(entries@, j)),
                keyset_keys(keyset) == keys_seq,
                keyset_ids(keyset).len() == keys_seq.len(),
                forall|j: int|
                    0 <= j < keys_seq.len() ==> #[trigger] keyset_ids(keyset)[j] == marisa_keys(
                        trie,
                    )[keys_seq[j]],
                forall|k: Seq<u8>|
                    #[trigger] marisa_keys(trie).contains_key(k) <==> keys_seq.contains(k),
                forall|k: Seq<u8>|
                    #[trigger] marisa_keys(trie).contains_key(k) ==> marisa_keys(trie)[k]
                        < num_keys,
                forall|k1: Seq<u8>, k2: Seq<u8>|
                    #[trigger] marisa_keys(trie).contains_key(k1) && #[trigger] marisa_keys(
                        trie,
                    ).contains_key(k2) && k1 != k2 ==> marisa_keys(trie)[k1] != marisa_keys(
                        trie,
                    )[k2],
                id_to_offset@.len() == num_keys,
                forall|j: int|
                    0 <= j < i && (forall|j2: int|
                        j < j2 < i ==> entry_key(entries@, j2) != entry_key(entries@, j))
                        ==> id_to_offset@[marisa_keys(trie)[#[trigger] entry_key(entries@, j)] as int]
                        == entries@[j].1,
            decreases entries.len() - i,
        {
            let key_id = marisa_keyset_id(&keyset, i);
            proof {
                assert(keys_seq[i as int] == entry_key(entries@, i as int));
                assert(keys_seq.contains(keys_seq[i as int]));
                assert(marisa_keys(trie).contains_key(keys_seq[i as int]));
            }
            let ghost before = id_to_offset@;
            id_to_offset.set(key_id, entries[i].1);
            proof {
                assert forall|j: int|
                    0 <= j < i + 1 && (forall|j2: int|
                        j < j2 < i + 1 ==> entry_key(entries@, j2) != entry_key(entries@, j))
                        implies id_to_offset@[marisa_keys(trie)[#[trigger] entry_key(entries@, j)] as int]
                    == entries@[j].1 by {
                    if j < i {
                        assert(entry_key(entries@, i as int) != entry_key(entries@, j));
                        assert(keys_seq[j] == entry_key(entries@, j));
                        assert(keys_seq.contains(keys_seq[j]));
                        assert(marisa_keys(trie).contains_key(keys_seq[j]));
                        assert(marisa_keys(trie).contains_key(keys_seq[i as int]));
                        assert(marisa_keys(trie)[entry_key(entries@, j)] != marisa_keys(trie)[entry_key(
                            entries@,
                            i as int,
                        )]);
                    }
                }
            }
            i = i + 1;
        }
        let m = MarisaTrie { trie, id_to_offset };
        proof {
            assert forall|k: Seq<u8>|
                #[trigger] m.keys().contains_key(k) <==> exists|i: int|
                    0 <= i < entries@.len() && entry_key(entries@, i) == k by {
                if keys_seq.contains(k) {
                    let j = choose|j: int| 0 <= j < keys_seq.len() && keys_seq[j] == k;
                    assert(entry_key(entries@, j) == k);
                }
                if exists|i: int| 0 <= i < entries@.len() && entry_key(entries@, i) == k {
                    let j = choose|j: int| 0 <= j < entries@.len() && entry_key(entries@, j) == k;
                    assert(keys_seq[j] == k);
                }
            }
        }
        Ok(m)
    }

    /// The serialized trie at `off` of `b` reads: every part it declares
    /// lies in the buffer and the trie image is one `rsmarisa` reads.
    pub open spec fn section_ok(b: Seq<u8>, off: int) -> bool {
        &&& off + section_size(b, off) <= b.len()
        &&& marisa_decoded(b.subrange(off + 4, image_end(b, off))) is Some
    }

    /// The offsets and sizes that the serialized trie at `off` of `b`
    /// declares add up within `usize`, as far as reading it gets.
    pub open spec fn section_fits(b: Seq<u8>, off: int) -> bool {
        &&& off + 4 <= usize::MAX
        &&& off + 4 <= b.len() ==> image_end(b, off) + 4 <= usize::MAX
        &&& image_end(b, off) + 4 <= b.len() ==> off + section_size(b, off) <= usize::MAX
    }

    /// The trie image of the serialized trie at `off` of `b`, where it lies
    /// in the buffer, is one `rsmarisa` can be given.
    pub open spec fn image_sound(b: Seq<u8>, off: int) -> bool {
        off + 4 <= b.len() && image_end(b, off) <= b.len() ==> marisa_sound_image(
            b.subrange(off + 4, image_end(b, off)),
        )
    }

    /// The error that reading the serialized trie at `off` of `b` meets:
    /// the first part that does not lie in the buffer, or an image that
    /// `rsmarisa` refuses.
    pub open spec fn section_error(b: Seq<u8>, off: int, e: SudachiError) -> bool {
        let end = image_end(b, off);
        if off + 4 > b.len() {
            e == SudachiError::InvalidRange(off as usize, (off + 4) as usize)
        } else if end > b.len() {
            e == SudachiError::InvalidRange((off + 4) as usize, end as usize)
        } else if marisa_decoded(b.subrange(off + 4, end)) is None {
            e matches SudachiError::InvalidData(w) && w@ == marisa_read_error(b.subrange(off + 4, end))
        } else if end + 4 > b.len() {
            e == SudachiError::InvalidRange(end as usize, (end + 4) as usize)
        } else if off + section_size(b, off) > b.len() {
            e == SudachiError::InvalidRange((end + 4) as usize, (off + section_size(b, off)) as usize)
        } else {
            false
        }
    }

    /// Deserialize a trie from `buf` at `offset`: the length of the trie
    /// image, the image, the number of offsets and the offsets. Returns the
    /// trie and the number of bytes consumed.
    pub fn from_bytes(buf: &[u8], offset: usize) -> (res: Result<(MarisaTrie, usize), SudachiError>)
        requires
            MarisaTrie::section_fits(buf@, offset as int),
            MarisaTrie::image_sound(buf@, offset as int),
        ensures
            MarisaTrie::section_ok(buf@, offset as int) ==> (res matches Ok((m, consumed)) && Some(
                m.keys(),
            ) == marisa_decoded(buf@.subrange(offset + 4, image_end(buf@, offset as int)))
                && m.offsets() == section_offsets(buf@, offset as int) && consumed == section_size(
                buf@,
                offset as int,
            )),
            !MarisaTrie::section_ok(buf@, offset as int) ==> (res matches Err(e)
                && MarisaTrie::section_error(buf@, offset as int, e)),
    {
        let mut pos = offset;
        if pos + 4 > buf.len() {
            return Err(SudachiError::InvalidRange(pos, pos + 4));
        }
        let trie_bytes_len = read_u32(buf, pos) as usize;
        pos += 4;
        if pos + trie_bytes_len > buf.len() {
            return Err(SudachiError::InvalidRange(pos, pos + trie_bytes_len));
        }
        let trie_data = slice_subrange(buf, pos, pos + trie_bytes_len);
        let trie = match marisa_read(trie_data) {
            Ok(t) => t,
            Err(detail) => {
                return Err(SudachiError::InvalidData(detail));
            },
        };
        pos += trie_bytes_len;
        if pos + 4 > buf.len() {
            return Err(SudachiError::InvalidRange(pos, pos + 4));
        }
        let id_map_len = read_u32(buf, pos) as usize;
        pos += 4;
        let id_map_bytes = id_map_len * 4;
        if pos + id_map_bytes > buf.len() {
            return Err(SudachiError::InvalidRange(pos, pos + id_map_bytes));
        }
        let n = buf.len();
        let mut id_to_offset: Vec<u32> = Vec::new();
        let mut i: usize = 0;
        while i < id_map_len
            invariant
                i <= id_map_len,
                n == buf@.len(),
                pos + id_map_len * 4 <= buf@.len(),
                id_to_offset@.len() == i,
                forall|k: int|
                    0 <= k < i ==> #[trigger] id_to_offset@[k] == le_u32(buf@, pos + 4 * k) as u32,
            decreases id_map_len - i,
        {
            assert(i * 4 + 4 <= id_map_len * 4) by (nonlinear_arith)
                requires
                    i < id_map_len,
            ;
            let start = pos + i * 4;
            let val = read_u32(buf, start);
            id_to_offset.push(val);
            i = i + 1;
        }
        proof {
            assert(id_to_offset@ =~= section_offsets(buf@, offset as int));
        }
        pos += id_map_bytes;
        let consumed = pos - offset;
        Ok((MarisaTrie { trie, id_to_offset }, consumed))
    }

    /// Serialize the trie: the length of the `rsmarisa` image, the image,
    /// the number of offsets and the offsets, all little-endian u32.
    pub fn to_bytes(&self) -> (res: Result<Vec<u8>, SudachiError>)
        ensures
            res is Ok,
            res matches Ok(b) ==> exists|image: Seq<u8>|
                marisa_sound_image(image) && marisa_decoded(image) == Some(self.keys()) && b@
                    == #[trigger] serialized(image, self.offsets()),
    {
        proof {
            use_type_invariant(self);
        }
        let trie_bytes = marisa_write(&self.trie).unwrap();
        let mut result: Vec<u8> = Vec::new();
        push_u32_le(&mut result, trie_bytes.len() as u32);
        let mut k: usize = 0;
        while k < trie_bytes.len()
            invariant
                k <= trie_bytes@.len(),
                result@ == u32_le_bytes(trie_bytes@.len() as u32) + trie_bytes@.take(k as int),
            decreases trie_bytes.len() - k,
        {
            result.push(trie_bytes[k]);
            assert(trie_bytes@.take(k + 1) =~= trie_bytes@.take(k as int).push(trie_bytes@[k as int]));
            k = k + 1;
        }
        assert(trie_bytes@.take(k as int) =~= trie_bytes@);
        push_u32_le(&mut result, self.id_to_offset.len() as u32);
        let ghost head = result@;
        let mut j: usize = 0;
        while j < self.id_to_offset.len()
            invariant
                j <= self.id_to_offset@.len(),
                result@ == head + u32s_le_bytes(self.id_to_offset@.take(j as int)),
            decreases self.id_to_offset.len() - j,
        {
            push_u32_le(&mut result, self.id_to_offset[j]);
            assert(self.id_to_offset@.take(j + 1).drop_last() =~= self.id_to_offset@.take(j as int));
            j = j + 1;
        }
        assert(self.id_to_offset@.take(j as int) =~= self.id_to_offset@);
        assert(result@ =~= serialized(trie_bytes@, self.offsets()));
        Ok(result)
    }

    /// The matches of the keys that are prefixes of `input[offset..]`,
    /// shortest first: for each, the offset of its key and where it ends in
    /// `input`.
    pub fn common_prefix_iterator(&self, input: &[u8], offset: usize) -> (res: Vec<TrieEntry>)
        requires
            offset <= input@.len(),
            self.ids_covered(),
        ensures
            ({
                let pm = prefix_matches(self.keys(), input@.skip(offset as int));
                &&& res@.len() == pm.len()
                &&& forall|i: int|
                    0 <= i < res@.len() ==> (#[trigger] res@[i]).value == self.offsets()[pm[i].1]
                        && res@[i].end == offset + pm[i].0
            }),
    {
        proof {
            use_type_invariant(self);
        }
        let query = slice_subrange(input, offset, input.len());
        let matches = marisa_common_prefixes(&self.trie, query);
        let ghost pm = prefix_matches(self.keys(), query@);
        proof {
            assert(query@ =~= input@.skip(offset as int));
            lemma_prefix_matches_are_keys(self.keys(), query@, query@.len() + 1int);
        }
        let mut out: Vec<TrieEntry> = Vec::new();
        let mut i: usize = 0;
        while i < matches.len()
            invariant
                i <= matches@.len(),
                matches@.len() == pm.len(),
                pm == prefix_matches(self.keys(), query@),
                query@.len() == input@.len() - offset,
                offset + query@.len() <= usize::MAX,
                self.ids_covered(),
                forall|k: int|
                    0 <= k < matches@.len() ==> (#[trigger] matches@[k]).0 == pm[k].0
                        && matches@[k].1 == pm[k].1,
                forall|k: int|
                    0 <= k < pm.len() ==> {
                        let m = #[trigger] pm[k];
                        &&& 0 <= m.0 <= query@.len()
                        &&& self.keys().contains_key(query@.take(m.0))
                        &&& m.1 == self.keys()[query@.take(m.0)]
                    },
                out@.len() == i,
                forall|k: int|
                    0 <= k < i ==> (#[trigger] out@[k]).value == self.offsets()[pm[k].1]
                        && out@[k].end == offset + pm[k].0,
            decreases matches.len() - i,
        {
            let (len, key_id) = matches[i];
            proof {
                let m = pm[i as int];
                assert(self.keys().contains_key(query@.take(m.0)));
                assert(len as int == m.0);
            }
            out.push(TrieEntry::new(self.id_to_offset[key_id], offset + len));
            i = i + 1;
        }
        out
    }

    /// The text of a key: its bytes read as UTF-8, or empty when they are
    /// not valid UTF-8.
    pub open spec fn key_text(k: Seq<u8>) -> Seq<char> {
        if vstd::utf8::valid_utf8(k) {
            vstd::utf8::decode_utf8(k)
        } else {
            Seq::empty()
        }
    }

    /// The entries of the table at the offsets of the keys that start with
    /// `prefix` lie in the buffer.
    pub open spec fn prefix_lists_readable(&self, prefix: Seq<char>, table: &WordIdTable) -> bool {
        forall|k: Seq<u8>|
            #[trigger] self.keys().contains_key(k) && vstd::utf8::encode_utf8(prefix).is_prefix_of(k)
                ==> table.readable(self.value_of(k) as int)
    }

    /// `res` lists, for the keys `ks` of the trie that start with `prefix`
    /// (each once), their text and the word ids of their table entry.
    pub open spec fn predictive_entries(
        &self,
        prefix: Seq<char>,
        table: &WordIdTable,
        ks: Seq<Seq<u8>>,
        res: Seq<(String, Vec<u32>)>,
    ) -> bool {
        &&& ks.len() == res.len()
        &&& forall|i: int|
            0 <= i < ks.len() ==> {
                &&& self.keys().contains_key(#[trigger] ks[i])
                &&& vstd::utf8::encode_utf8(prefix).is_prefix_of(ks[i])
                &&& res[i].0@ == MarisaTrie::key_text(ks[i])
                &&& res[i].1@ == table.list(self.value_of(ks[i]) as int)
            }
        &&& forall|k: Seq<u8>|
            #[trigger] self.keys().contains_key(k) && vstd::utf8::encode_utf8(prefix).is_prefix_of(k)
                ==> ks.contains(k)
        &&& forall|i: int, j: int| 0 <= i < j < ks.len() ==> #[trigger] ks[i] != #[trigger] ks[j]
    }

    /// Predictive search: every key that starts with `prefix`, with the word
    /// ids that the table lists at the key's offset. The keys come once each,
    /// in the trie's order.
    pub fn predictive_search_entries(&self, prefix: &str, word_id_table: &WordIdTable) -> (res: Vec<
        (String, Vec<u32>),
    >)
        requires
            self.ids_covered(),
            self.prefix_lists_readable(prefix@, word_id_table),
        ensures
            exists|ks: Seq<Seq<u8>>| #[trigger]
                self.predictive_entries(prefix@, word_id_table, ks, res@),
    {
        proof {
            use_type_invariant(self);
        }
        let found = marisa_predictive(&self.trie, prefix);
        let mut results: Vec<(String, Vec<u32>)> = Vec::new();
        let ghost ks = Seq::new(found@.len(), |i: int| found@[i].0@);
        let mut i: usize = 0;
        while i < found.len()
            invariant
                i <= found@.len(),
                ks == Seq::new(found@.len(), |i: int| found@[i].0@),
                self.ids_covered(),
                self.prefix_lists_readable(prefix@, word_id_table),
                forall|j: int|
                    0 <= j < found@.len() ==> {
                        &&& marisa_keys(self.trie).contains_key((#[trigger] found@[j]).0@)
                        &&& marisa_keys(self.trie)[found@[j].0@] == found@[j].1
                        &&& vstd::utf8::encode_utf8(prefix@).is_prefix_of(found@[j].0@)
                    },
                marisa_keys(self.trie) == self.keys(),
                results@.len() == i,
                forall|j: int|
                    0 <= j < i ==> (#[trigger] results@[j]).0@ == MarisaTrie::key_text(ks[j])
                        && results@[j].1@ == word_id_table.list(self.value_of(ks[j]) as int),
            decreases found.len() - i,
        {
            let key = &found[i].0;
            let key_id = found[i].1;
            let key_str = match str_from_utf8(key.as_slice()) {
                Some(s) => s.to_owned(),
                None => String::new(),
            };
            proof {
                assert(self.keys().contains_key(ks[i as int]));
            }
            let offset = self.id_to_offset[key_id];
            let word_ids = word_id_table.entries(offset as usize);
            results.push((key_str, word_ids));
            i = i + 1;
        }
        proof {
            assert forall|k: Seq<u8>|
                #[trigger] self.keys().contains_key(k) && vstd::utf8::encode_utf8(prefix@).is_prefix_of(
                    k,
                ) implies ks.contains(k) by {
                let j = choose|j: int| 0 <= j < found@.len() && (#[trigger] found@[j]).0@ == k;
                assert(ks[j] == k);
            }
            assert forall|a: int, b: int| 0 <= a < b < ks.len() implies #[trigger] ks[a]
                != #[trigger] ks[b] by {
                assert(found@[a].0@ != found@[b].0@);
            }
            assert(self.predictive_entries(prefix@, word_id_table, ks, results@));
        }
        results
    }

    /// The word-id table offset of key id `key_id`.
    pub fn id_to_offset_val(&self, key_id: usize) -> (res: u32)
        requires
            key_id < self.offsets().len(),
        ensures
            res == self.offsets()[key_id as int],
    {
        self.id_to_offset[key_id]
    }
}

/// The little-endian bytes of `vals` take four bytes each.
proof fn lemma_u32s_len(vals: Seq<u32>)
    ensures
        u32s_le_bytes(vals).len() == 4 * vals.len(),
    decreases vals.len(),
{
    if vals.len() > 0 {
        lemma_u32s_len(vals.drop_last());
    }
}

/// A serialized trie takes two length fields of four bytes, the image, and
/// four bytes per offset.
pub proof fn lemma_serialized_len(image: Seq<u8>, offsets: Seq<u32>)
    ensures
        serialized(image, offsets).len() == 8 + image.len() + 4 * offsets.len(),
{
    lemma_u32s_len(offsets);
}

/// Serializing a trie and reading it back gives its keys and offsets, and
/// consumes exactly the serialized bytes (when the image and the offsets
/// are counted within `u32`).
pub proof fn lemma_serialized_round_trip(image: Seq<u8>, offsets: Seq<u32>)
    requires
        image.len() <= u32::MAX,
        offsets.len() <= u32::MAX,
        marisa_decoded(image) is Some,
        marisa_sound_image(image),
    ensures
        MarisaTrie::section_ok(serialized(image, offsets), 0),
        MarisaTrie::image_sound(serialized(image, offsets), 0),
        serialized(image, offsets).len() <= usize::MAX ==> MarisaTrie::section_fits(
            serialized(image, offsets),
            0,
        ),
        serialized(image, offsets).subrange(4, image_end(serialized(image, offsets), 0)) == image,
        section_offsets(serialized(image, offsets), 0) == offsets,
        section_size(serialized(image, offsets), 0) == serialized(image, offsets).len(),
{
    let b = serialized(image, offsets);
    let tail = image + u32_le_bytes(offsets.len() as u32) + u32s_le_bytes(offsets);
    assert(b =~= Seq::<u8>::empty() + u32_le_bytes(image.len() as u32) + tail);
    lemma_u32_le(image.len() as u32, Seq::<u8>::empty(), tail);
    assert(le_u32(b, 0) == image.len());
    let pre = u32_le_bytes(image.len() as u32) + image;
    let post = u32s_le_bytes(offsets);
    assert(b =~= pre + u32_le_bytes(offsets.len() as u32) + post);
    lemma_u32_le(offsets.len() as u32, pre, post);
    assert(image_end(b, 0) == 4 + image.len());
    assert(le_u32(b, image_end(b, 0)) == offsets.len());
    assert(b.subrange(4, image_end(b, 0)) =~= image);
    let pre2 = pre + u32_le_bytes(offsets.len() as u32);
    assert(b =~= pre2 + u32s_le_bytes(offsets));
    assert forall|i: int| 0 <= i < offsets.len() implies #[trigger] section_offsets(b, 0)[i]
        == offsets[i] by {
        lemma_u32s_le(offsets, pre2, i);
    }
    assert(section_offsets(b, 0) =~= offsets);
    if offsets.len() > 0 {
        lemma_u32s_le(offsets, pre2, 0);
    }
    assert(u32s_le_bytes(offsets).len() == 4 * offsets.len());
}

} // verus!
