//! What the set of lexicons does to the word information of a word of a user
//! dictionary: its split word ids and its part-of-speech id are moved into
//! the numbering of the combined dictionary. And the lookups by reading: the
//! reading trie of the system dictionary first, then the reading index of
//! the lexicons without one.

use vstd::prelude::*;

use crate::dic::lexicon::marisa_trie::prefix_matches;
use crate::dic::lexicon::reading_trie::ReadingTrie;
use crate::dic::lexicon::word_infos::WordInfoData;
use crate::dic::reading_index::{ids_for, prefix_ids, ReadingIndex};
use crate::dic::word_id::WordId;
use crate::error::{LexiconSetError, SudachiError};

verus! {

/// The split id `id` as seen from dictionary `dict_id`: an id that points
/// into a user dictionary (dictionary part above 0) points into `dict_id`;
/// an id of the system dictionary stays.
pub open spec fn moved_id(id: WordId, dict_id: u8, new_id: WordId) -> bool {
    if id.dic_spec() > 0 {
        new_id.dic_spec() == dict_id && new_id.word_spec() == id.word_spec()
    } else {
        new_id == id
    }
}

/// Split renumbering in raw ids: an id from `0x1000_0000` on (one of a
/// user dictionary) moved into dictionary `dict_id` is
/// `dict_id * 0x1000_0000` plus its word number, the low 28 bits; an id
/// below `0x1000_0000` (one of the system dictionary) is kept.
pub proof fn lemma_moved_id_raw(id: WordId, dict_id: u8, new_id: WordId)
    requires
        moved_id(id, dict_id, new_id),
        dict_id <= 15,
    ensures
        id.raw_spec() >= 0x1000_0000 ==> new_id.raw_spec() == dict_id * 0x1000_0000 + id.raw_spec()
            % 0x1000_0000,
        id.raw_spec() < 0x1000_0000 ==> new_id == id,
{
    let r = new_id.raw_spec() as int;
    assert(r == (r / 0x1000_0000) * 0x1000_0000 + r % 0x1000_0000) by (nonlinear_arith);
    assert(0 <= r / 0x1000_0000 <= 15) by (nonlinear_arith)
        requires
            0 <= r <= 0xffff_ffff,
    ;
    let o = id.raw_spec() as int;
    assert(o >= 0x1000_0000 ==> o / 0x1000_0000 >= 1) by (nonlinear_arith);
    assert(o < 0x1000_0000 ==> o / 0x1000_0000 == 0) by (nonlinear_arith)
        requires
            0 <= o,
    ;
}

/// Some id of the split points into a user dictionary.
pub open spec fn has_user_id(split: Seq<WordId>) -> bool {
    exists|i: int| 0 <= i < split.len() && (#[trigger] split[i]).dic_spec() > 0
}

/// Rewrite the ids of a split that point into a user dictionary so that
/// they point into dictionary `dict_id`. Fails, leaving the split as it was,
/// when such an id exists and `dict_id` does not fit in a word id.
pub fn update_dict_id(split: &mut Vec<WordId>, dict_id: u8) -> (res: Result<(), SudachiError>)
    ensures
        res is Err <==> (dict_id > 15 && has_user_id(old(split)@)),
        res is Err ==> res == Err::<(), SudachiError>(
            SudachiError::LexiconSetError(LexiconSetError::TooLargeDictionaryId(dict_id as usize)),
        ) && final(split)@ == old(split)@,
        res is Ok ==> final(split)@.len() == old(split)@.len() && forall|i: int|
            0 <= i < old(split)@.len() ==> moved_id(
                #[trigger] old(split)@[i],
                dict_id,
                final(split)@[i],
            ),
{
    let ghost orig = split@;
    let mut i: usize = 0;
    while i < split.len()
        invariant
            orig == old(split)@,
            split@.len() == orig.len(),
            i <= orig.len(),
            forall|k: int| 0 <= k < i ==> moved_id(#[trigger] orig[k], dict_id, split@[k]),
            forall|k: int| i <= k < orig.len() ==> #[trigger] split@[k] == orig[k],
            dict_id > 15 ==> forall|k: int| 0 <= k < i ==> (#[trigger] orig[k]).dic_spec() == 0,
        decreases orig.len() - i,
    {
        let id = split[i];
        let cur_dict_id = id.dic();
        if cur_dict_id > 0 {
            // update if target word is not in system_dict
            let word = id.word();
            assert(word <= crate::dic::word_id::WORD_MASK);
            match WordId::checked(dict_id, word) {
                Ok(w) => {
                    split.set(i, w);
                },
                Err(e) => {
                    proof {
                        assert(split@ =~= orig);
                        assert(orig[i as int].dic_spec() > 0);
                    }
                    return Err(SudachiError::LexiconSetError(e));
                },
            }
        }
        i = i + 1;
    }
    proof {
        if dict_id > 15 {
            assert(!has_user_id(orig));
        }
    }
    Ok(())
}

/// The part-of-speech id of a word of dictionary `dict_id` in the combined
/// grammar: a user-defined part of speech (an id from `num_system_pos` on,
/// in a user dictionary) is moved to the place `pos_offset` that the user
/// grammar takes; other ids stay. The result is truncated to 16 bits.
pub open spec fn combined_pos_id(pos_id: u16, dict_id: u8, num_system_pos: usize, pos_offset: usize) -> u16 {
    if dict_id > 0 && pos_id >= num_system_pos {
        (pos_id - num_system_pos + pos_offset) as u16
    } else {
        pos_id
    }
}

/// Part-of-speech renumbering: in a user dictionary (`dict_id > 0`) the
/// user-defined parts of speech, the ids from `num_system_pos` on (the first
/// one included), are laid out from `pos_offset` in the same order, id
/// `num_system_pos + k` becoming `pos_offset + k`; ids of system parts of
/// speech, and every id of the system dictionary, are kept.
pub proof fn lemma_user_pos_renumbered(pos_id: u16, dict_id: u8, num_system_pos: usize, pos_offset: usize)
    ensures
        dict_id == 0 ==> combined_pos_id(pos_id, dict_id, num_system_pos, pos_offset) == pos_id,
        pos_id < num_system_pos ==> combined_pos_id(pos_id, dict_id, num_system_pos, pos_offset)
            == pos_id,
        dict_id > 0 && num_system_pos <= pos_id && pos_offset + (pos_id - num_system_pos)
            <= u16::MAX ==> combined_pos_id(pos_id, dict_id, num_system_pos, pos_offset)
            == pos_offset + (pos_id - num_system_pos),
        dict_id > 0 && pos_id == num_system_pos && pos_offset <= u16::MAX ==> combined_pos_id(
            pos_id,
            dict_id,
            num_system_pos,
            pos_offset,
        ) == pos_offset,
{
}

/// Two user-defined parts of speech of a user dictionary keep their order
/// and stay apart once renumbered (within 16 bits).
pub proof fn lemma_user_pos_order_kept(
    a: u16,
    b: u16,
    dict_id: u8,
    num_system_pos: usize,
    pos_offset: usize,
)
    requires
        dict_id > 0,
        num_system_pos <= a < b,
        pos_offset + (b - num_system_pos) <= u16::MAX,
    ensures
        combined_pos_id(a, dict_id, num_system_pos, pos_offset) < combined_pos_id(
            b,
            dict_id,
            num_system_pos,
            pos_offset,
        ),
        combined_pos_id(b, dict_id, num_system_pos, pos_offset) - combined_pos_id(
            a,
            dict_id,
            num_system_pos,
            pos_offset,
        ) == b - a,
{
    lemma_user_pos_renumbered(a, dict_id, num_system_pos, pos_offset);
    lemma_user_pos_renumbered(b, dict_id, num_system_pos, pos_offset);
}

/// The word information of word `dict_id` as the set of lexicons gives it:
/// the part-of-speech id moved into the combined grammar, and the ids of the
/// A-unit, B-unit and word-structure splits moved into dictionary `dict_id`.
/// Fails when a split id points into a user dictionary and `dict_id` does not
/// fit in a word id.
pub fn combined_word_info(
    data: &mut WordInfoData,
    dict_id: u8,
    num_system_pos: usize,
    pos_offset: usize,
) -> (res: Result<(), SudachiError>)
    requires
        pos_offset + 0x1_0000 <= usize::MAX,
    ensures
        final(data).pos_id == combined_pos_id(old(data).pos_id, dict_id, num_system_pos, pos_offset),
        final(data).surface == old(data).surface,
        final(data).reading_form == old(data).reading_form,
        final(data).dictionary_form == old(data).dictionary_form,
        final(data).normalized_form == old(data).normalized_form,
        final(data).dictionary_form_word_id == old(data).dictionary_form_word_id,
        final(data).head_word_length == old(data).head_word_length,
        final(data).synonym_group_ids == old(data).synonym_group_ids,
        res is Err <==> (dict_id > 15 && (has_user_id(old(data).a_unit_split@) || has_user_id(
            old(data).b_unit_split@,
        ) || has_user_id(old(data).word_structure@))),
        res is Err ==> res == Err::<(), SudachiError>(
            SudachiError::LexiconSetError(LexiconSetError::TooLargeDictionaryId(dict_id as usize)),
        ),
        res is Ok ==> {
            &&& final(data).a_unit_split@.len() == old(data).a_unit_split@.len()
            &&& final(data).b_unit_split@.len() == old(data).b_unit_split@.len()
            &&& final(data).word_structure@.len() == old(data).word_structure@.len()
            &&& forall|i: int|
                0 <= i < old(data).a_unit_split@.len() ==> moved_id(
                    #[trigger] old(data).a_unit_split@[i],
                    dict_id,
                    final(data).a_unit_split@[i],
                )
            &&& forall|i: int|
                0 <= i < old(data).b_unit_split@.len() ==> moved_id(
                    #[trigger] old(data).b_unit_split@[i],
                    dict_id,
                    final(data).b_unit_split@[i],
                )
            &&& forall|i: int|
                0 <= i < old(data).word_structure@.len() ==> moved_id(
                    #[trigger] old(data).word_structure@[i],
                    dict_id,
                    final(data).word_structure@[i],
                )
        },
{
    let pos_id = data.pos_id as usize;
    if dict_id > 0 && pos_id >= num_system_pos {
        // user defined part-of-speech
        data.pos_id = (pos_id - num_system_pos + pos_offset) as u16;
    }
    update_dict_id(&mut data.a_unit_split, dict_id)?;
    update_dict_id(&mut data.b_unit_split, dict_id)?;
    update_dict_id(&mut data.word_structure, dict_id)?;
    Ok(())
}

// ── lookups by reading ───────────────────────────────────────────────────────

/// `ids` are the words of the system dictionary (dictionary 0) numbered
/// `raws`: with dictionary part 0, a word id's raw value is its number.
pub open spec fn system_ids(ids: Seq<WordId>, raws: Seq<u32>) -> bool {
    &&& ids.len() == raws.len()
    &&& forall|i: int| 0 <= i < ids.len() ==> (#[trigger] ids[i]).raw_spec() == raws[i]
}

/// The word numbers that the reading trie lists for exactly `katakana`;
/// none without a trie or when the reading is not in it.
pub open spec fn trie_exact(trie: Option<&ReadingTrie>, katakana: Seq<char>) -> Seq<u32> {
    match trie {
        Some(t) => {
            let k = vstd::utf8::encode_utf8(katakana);
            if t.trie().keys().contains_key(k) {
                t.ids_of(k)
            } else {
                Seq::empty()
            }
        },
        None => Seq::empty(),
    }
}

/// `entries` are the readings of the trie that start with `prefix`, each
/// once, with their word numbers; none without a trie.
pub open spec fn trie_prefix_entries(
    trie: Option<&ReadingTrie>,
    prefix: Seq<char>,
    entries: Seq<(String, Vec<u32>)>,
) -> bool {
    match trie {
        Some(t) => exists|ks: Seq<Seq<u8>>| #[trigger]
            t.trie().predictive_entries(prefix, &t.table(), ks, entries),
        None => entries.len() == 0,
    }
}

/// The word numbers of `entries`, entry by entry.
pub open spec fn entry_numbers(entries: Seq<(String, Vec<u32>)>) -> Seq<u32>
    decreases entries.len(),
{
    if entries.len() == 0 {
        Seq::empty()
    } else {
        entry_numbers(entries.drop_last()) + entries.last().1@
    }
}

/// `res` holds the system-dictionary words numbered `raws`, then `rest`.
pub open spec fn system_then(res: Seq<WordId>, raws: Seq<u32>, rest: Seq<WordId>) -> bool {
    &&& res.len() == raws.len() + rest.len()
    &&& system_ids(res.take(raws.len() as int), raws)
    &&& res.skip(raws.len() as int) == rest
}

/// Appends the system-dictionary words numbered `raws` to `out`.
fn push_system_ids(out: &mut Vec<WordId>, raws: &Vec<u32>)
    ensures
        final(out)@.len() == old(out)@.len() + raws@.len(),
        final(out)@.take(old(out)@.len() as int) == old(out)@,
        forall|i: int|
            0 <= i < raws@.len() ==> (#[trigger] final(out)@[old(out)@.len() + i]).raw_spec()
                == raws@[i],
{
    let ghost start = out@;
    let mut i: usize = 0;
    while i < raws.len()
        invariant
            i <= raws@.len(),
            out@.len() == start.len() + i,
            out@.take(start.len() as int) == start,
            forall|k: int| 0 <= k < i ==> (#[trigger] out@[start.len() + k]).raw_spec() == raws@[k],
        decreases raws.len() - i,
    {
        out.push(WordId::from_raw(raws[i]));
        assert(out@.take(start.len() as int) =~= start);
        i = i + 1;
    }
}

/// Appends `ids` to `out`.
fn push_ids(out: &mut Vec<WordId>, ids: &Vec<WordId>)
    ensures
        final(out)@ == old(out)@ + ids@,
{
    let ghost start = out@;
    let mut i: usize = 0;
    while i < ids.len()
        invariant
            i <= ids@.len(),
            out@ == start + ids@.take(i as int),
        decreases ids.len() - i,
    {
        out.push(ids[i]);
        assert(ids@.take(i + 1) =~= ids@.take(i as int).push(ids@[i as int]));
        i = i + 1;
    }
    assert(ids@.take(i as int) =~= ids@);
}

/// Every word whose reading is exactly `katakana`: those the reading trie of
/// the system dictionary lists, then those of the reading index.
pub fn lookup_by_reading(system_trie: Option<&ReadingTrie>, index: &ReadingIndex, katakana: &str) -> (res:
    Vec<WordId>)
    requires
        system_trie matches Some(t) ==> t.well_formed(),
    ensures
        system_then(res@, trie_exact(system_trie, katakana@), ids_for(index.entries(), katakana@)),
{
    let mut out: Vec<WordId> = Vec::new();
    if let Some(t) = system_trie {
        let raws = t.lookup_exact(katakana);
        push_system_ids(&mut out, &raws);
        proof {
            assert forall|k: int| 0 <= k < raws@.len() implies (#[trigger] out@[k]).raw_spec()
                == raws@[k] by {
                assert(out@[0 + k] == out@[k]);
            }
            assert(raws@ == trie_exact(system_trie, katakana@));
        }
    }
    let ghost n = out@.len();
    let ghost head = out@;
    let from_index = index.lookup_exact(katakana);
    push_ids(&mut out, &from_index);
    proof {
        assert(out@.take(n as int) =~= head);
        assert(out@.skip(n as int) =~= from_index@);
    }
    out
}

/// Every word whose reading starts with `katakana_prefix`: those the reading
/// trie of the system dictionary lists, reading by reading in the trie's
/// order, then those of the reading index in the order of their readings.
pub fn lookup_by_reading_prefix(
    system_trie: Option<&ReadingTrie>,
    index: &ReadingIndex,
    katakana_prefix: &str,
) -> (res: Vec<WordId>)
    requires
        system_trie matches Some(t) ==> t.well_formed(),
    ensures
        exists|entries: Seq<(String, Vec<u32>)>|
            trie_prefix_entries(system_trie, katakana_prefix@, entries) && #[trigger] system_then(
                res@,
                entry_numbers(entries),
                prefix_ids(index.entries(), katakana_prefix@),
            ),
{
    let mut out: Vec<WordId> = Vec::new();
    let ghost mut entries: Seq<(String, Vec<u32>)> = Seq::empty();
    if let Some(t) = system_trie {
        let found = t.lookup_prefix(katakana_prefix);
        let mut i: usize = 0;
        while i < found.len()
            invariant
                i <= found@.len(),
                system_ids(out@, entry_numbers(found@.take(i as int))),
            decreases found.len() - i,
        {
            let ghost before = out@;
            push_system_ids(&mut out, &found[i].1);
            proof {
                assert(found@.take(i + 1).drop_last() =~= found@.take(i as int));
                assert(found@.take(i + 1).last() == found@[i as int]);
                let raws = entry_numbers(found@.take(i + 1));
                assert(raws == entry_numbers(found@.take(i as int)) + found@[i as int].1@);
                assert forall|k: int| 0 <= k < out@.len() implies (#[trigger] out@[k]).raw_spec()
                    == raws[k] by {
                    if k < before.len() {
                        assert(out@[k] == out@.take(before.len() as int)[k]);
                    } else {
                        assert(out@[before.len() + (k - before.len())].raw_spec()
                            == found@[i as int].1@[k - before.len()]);
                    }
                }
            }
            i = i + 1;
        }
        proof {
            assert(found@.take(i as int) =~= found@);
            entries = found@;
        }
    }
    let ghost n = out@.len();
    let ghost head = out@;
    let from_index = index.lookup_prefix(katakana_prefix);
    push_ids(&mut out, &from_index);
    proof {
        assert(out@.take(n as int) =~= head);
        assert(out@.skip(n as int) =~= from_index@);
        assert(system_then(out@, entry_numbers(entries), prefix_ids(index.entries(), katakana_prefix@)));
    }
    out
}

/// Common-prefix search of the system reading trie over the katakana bytes
/// from `offset`: for every reading that is a prefix of them, shortest
/// first, the byte index where it ends and its words. `None` without a
/// reading trie.
pub fn common_prefix_by_reading(system_trie: Option<&ReadingTrie>, katakana_bytes: &[u8], offset: usize) -> (res:
    Option<Vec<(usize, Vec<WordId>)>>)
    requires
        offset <= katakana_bytes@.len(),
        system_trie matches Some(t) ==> t.well_formed(),
    ensures
        res is Some <==> system_trie is Some,
        res matches Some(v) ==> ({
            let t = system_trie->0;
            let q = katakana_bytes@.skip(offset as int);
            let pm = prefix_matches(t.trie().keys(), q);
            &&& v@.len() == pm.len()
            &&& forall|i: int|
                0 <= i < v@.len() ==> (#[trigger] v@[i]).0 == offset + pm[i].0 && system_ids(
                    v@[i].1@,
                    t.ids_of(q.take(pm[i].0)),
                )
        }),
{
    let t = match system_trie {
        Some(t) => t,
        None => {
            return None;
        },
    };
    let matches = t.common_prefix_search(katakana_bytes, offset);
    let mut out: Vec<(usize, Vec<WordId>)> = Vec::new();
    let mut i: usize = 0;
    while i < matches.len()
        invariant
            i <= matches@.len(),
            out@.len() == i,
            forall|k: int|
                0 <= k < i ==> (#[trigger] out@[k]).0 == matches@[k].end && system_ids(
                    out@[k].1@,
                    matches@[k].word_ids@,
                ),
        decreases matches.len() - i,
    {
        let mut ids: Vec<WordId> = Vec::new();
        push_system_ids(&mut ids, &matches[i].word_ids);
        proof {
            assert forall|k: int| 0 <= k < ids@.len() implies (#[trigger] ids@[k]).raw_spec()
                == matches@[i as int].word_ids@[k] by {
                assert(ids@[0 + k] == ids@[k]);
            }
        }
        out.push((matches[i].end, ids));
        i = i + 1;
    }
    Some(out)
}

} // verus!
