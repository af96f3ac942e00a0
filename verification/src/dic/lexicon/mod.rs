//! The lexicon: word lookup structures and word information.

pub mod marisa_trie;
pub mod reading_trie;
pub mod word_id_table;
pub mod word_infos;

use vstd::prelude::*;

use crate::dic::lexicon::marisa_trie::{image_end, marisa_decoded, section_offsets, MarisaTrie};
use crate::dic::lexicon::reading_trie::{table_header, ReadingTrie, READING_TRIE_MAGIC};
use crate::dic::lexicon::word_infos::BLOCK_WI_MAGIC;
use crate::dic::word_id::WordId;
use crate::error::SudachiError;
use crate::le::{le_u32, read_u32};
use vstd::slice::slice_subrange;

verus! {

/// The first 4 bits of a word id tell which lexicon the word comes from, so
/// at most 15 lexicons can be held at the same time; the 16th value marks
/// out-of-vocabulary words.
pub const MAX_DICTIONARIES: usize = 15;

/// Result of the Lexicon lookup
#[derive(Debug, PartialEq, Eq, Structural)]
pub struct LexiconEntry {
    /// Id of the returned word
    pub word_id: WordId,
    /// Byte index of the word end
    pub end: usize,
}

impl LexiconEntry {
    pub fn new(word_id: WordId, end: usize) -> (res: LexiconEntry)
        ensures
            res.word_id == word_id,
            res.end == end,
    {
        LexiconEntry { word_id, end }
    }
}

/// The little-endian u32 at `offset` of `input`, with the bytes after it;
/// `None` when the input ends before.
pub fn u32_parser_offset(input: &[u8], offset: usize) -> (res: Option<(&[u8], u32)>)
    ensures
        res is Some <==> offset + 4 <= input@.len(),
        res matches Some(r) ==> r.1 == le_u32(input@, offset as int) && r.0@ == input@.skip(
            offset + 4,
        ),
{
    if offset > input.len() || input.len() - offset < 4 {
        return None;
    }
    let v = read_u32(input, offset);
    let rest = slice_subrange(input, offset + 4, input.len());
    Some((rest, v))
}

/// The trie array of `trie_size` u32 elements at `offset` of `input`.
pub fn trie_array_parser(input: &[u8], offset: usize, trie_size: u32) -> (res: Result<
    &[u8],
    SudachiError,
>)
    requires
        offset + trie_size * 4 <= usize::MAX,
    ensures
        input@.len() < offset + trie_size * 4 ==> res == Err::<&[u8], SudachiError>(
            SudachiError::InvalidRange(offset, (offset + trie_size * 4) as usize),
        ),
        input@.len() >= offset + trie_size * 4 ==> (res matches Ok(s) && s@ == input@.subrange(
            offset as int,
            offset + trie_size * 4,
        )),
{
    let trie_start = offset;
    let trie_end = offset + (trie_size as usize) * 4;
    if input.len() < trie_start {
        return Err(SudachiError::InvalidRange(trie_start, trie_end));
    }
    if input.len() < trie_end {
        return Err(SudachiError::InvalidRange(trie_start, trie_end));
    }
    Ok(slice_subrange(input, trie_start, trie_end))
}

/// The byte size of the block-compressed word-info section at `off` of `b`
/// holding `num_words` records: its header and dictionary, the record
/// offsets, the block index and the compressed blocks, which end where the
/// last block does.
pub open spec fn word_infos_size(b: Seq<u8>, off: int, num_words: u32) -> int {
    let num_blocks = le_u32(b, off + 10);
    let dict_size = le_u32(b, off + 14);
    let block_index_start = off + 18 + dict_size + num_words * 4;
    let total_compressed = if num_blocks > 0 {
        let last = block_index_start + (num_blocks - 1) * 8;
        le_u32(b, last) + le_u32(b, last + 4)
    } else {
        0
    };
    18 + dict_size + num_words * 4 + num_blocks * 8 + total_compressed
}

/// The section at `off` starts with the block-compressed magic.
pub open spec fn is_block_section(b: Seq<u8>, off: int) -> bool {
    off + 4 <= b.len() && le_u32(b, off) == BLOCK_WI_MAGIC
}

/// Compute the total byte size of a block-compressed word-info section;
/// `None` when the section at `offset` is not block-compressed (a plain one
/// extends to the end of the buffer).
pub fn compute_word_infos_size(buf: &[u8], offset: usize, num_words: u32) -> (res: Option<usize>)
    requires
        is_block_section(buf@, offset as int) ==> {
            let num_blocks = le_u32(buf@, offset + 10);
            &&& offset + word_infos_size(buf@, offset as int, num_words) <= usize::MAX
            &&& offset + 18 <= buf@.len()
            &&& num_blocks > 0 ==> offset + 18 + le_u32(buf@, offset + 14) + num_words * 4 + (
            num_blocks - 1) * 8 + 8 <= buf@.len()
        },
    ensures
        res == if is_block_section(buf@, offset as int) {
            Some(word_infos_size(buf@, offset as int, num_words) as usize)
        } else {
            None::<usize>
        },
{
    if offset > buf.len() || buf.len() - offset < 4 {
        return None;
    }
    let magic = read_u32(buf, offset);
    if magic != BLOCK_WI_MAGIC {
        // Uncompressed word_infos — extends to end of buffer (no reading trie)
        return None;
    }
    let mut pos = offset + 4;
    pos += 4;
    pos += 2;
    let num_blocks = read_u32(buf, pos) as usize;
    pos += 4;
    let dict_size = read_u32(buf, pos) as usize;
    pos += 4 + dict_size;
    pos += num_words as usize * 4;
    let block_index_start = pos;
    pos += num_blocks * 8;
    let total_compressed = if num_blocks > 0 {
        let last_bi = block_index_start + (num_blocks - 1) * 8;
        let last_offset = read_u32(buf, last_bi) as usize;
        let last_size = read_u32(buf, last_bi + 4) as usize;
        last_offset + last_size
    } else {
        0
    };
    pos += total_compressed;
    Some(pos - offset)
}

/// Try to load the reading trie that follows a block-compressed word-info
/// section at `word_infos_offset` holding `num_words` records. `None` when
/// the word-info section is not block-compressed, when no reading trie
/// (magic "RTRI") follows it, or when the reading trie does not read.
pub fn try_load_reading_trie(buf: &[u8], word_infos_offset: usize, num_words: u32) -> (res: Option<
    ReadingTrie<'_>,
>)
    requires
        is_block_section(buf@, word_infos_offset as int) ==> {
            let num_blocks = le_u32(buf@, word_infos_offset + 10);
            let p = word_infos_offset + word_infos_size(buf@, word_infos_offset as int, num_words);
            &&& p <= usize::MAX
            &&& ReadingTrie::section_fits(buf@, p)
            &&& word_infos_offset + 18 <= buf@.len()
            &&& num_blocks > 0 ==> word_infos_offset + 18 + le_u32(buf@, word_infos_offset + 14)
                + num_words * 4 + (num_blocks - 1) * 8 + 8 <= buf@.len()
        },
    ensures
        ({
            let p = word_infos_offset + word_infos_size(buf@, word_infos_offset as int, num_words);
            let found = {
                &&& is_block_section(buf@, word_infos_offset as int)
                &&& p + 4 <= buf@.len()
                &&& le_u32(buf@, p) == READING_TRIE_MAGIC
                &&& MarisaTrie::section_ok(buf@, p + 4)
                &&& table_header(buf@, p) + 4 <= buf@.len()
            };
            &&& res is Some <==> found
            &&& res matches Some(rt) ==> {
                &&& Some(rt.trie().keys()) == marisa_decoded(
                    buf@.subrange(p + 8, image_end(buf@, p + 4)),
                )
                &&& rt.trie().offsets() == section_offsets(buf@, p + 4)
                &&& rt.table().bytes() == buf@
                &&& rt.table().start() == table_header(buf@, p) + 4
                &&& rt.table().size() == le_u32(buf@, table_header(buf@, p))
            }
        }),
{
    // Compute word_infos section size by parsing its header.
    let wi_size = match compute_word_infos_size(buf, word_infos_offset, num_words) {
        Some(size) => size,
        None => {
            return None;
        },
    };
    let reading_trie_offset = word_infos_offset + wi_size;
    // Check if there's enough room for the RTRI magic
    if reading_trie_offset > buf.len() || buf.len() - reading_trie_offset < 4 {
        return None;
    }
    let magic = read_u32(buf, reading_trie_offset);
    if magic != READING_TRIE_MAGIC {
        return None;
    }
    match ReadingTrie::from_bytes(buf, reading_trie_offset) {
        Ok((rt, _consumed)) => Some(rt),
        Err(_) => None,
    }
}

} // verus!
