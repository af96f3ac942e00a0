//! Word information records: surface, readings, forms and splits of a word.

use vstd::prelude::*;

use crate::block_codec::{
    decode_frame, frame_content, frame_failure, frame_returns, zstd_dict_accepted, zstd_dict_check,
    zstd_dict_error,
};
use crate::dic::word_id::WordId;
use crate::error::{grammar_error, SudachiError};
use crate::le::{le_u16, le_u32, read_u16, read_u32};
use vstd::slice::slice_subrange;

verus! {

/// Internal storage of the WordInfo.
/// It is not accessible by default, but a WordInfo can be created from it:
/// `let wi: WordInfo = data.into();`
///
/// String fields CAN be empty, in this case the value of the surface field should be used instead
#[derive(Clone, Debug)]
pub struct WordInfoData {
    pub surface: String,
    pub head_word_length: u16,
    pub pos_id: u16,
    pub normalized_form: String,
    pub dictionary_form_word_id: i32,
    pub dictionary_form: String,
    pub reading_form: String,
    pub a_unit_split: Vec<WordId>,
    pub b_unit_split: Vec<WordId>,
    pub word_structure: Vec<WordId>,
    pub synonym_group_ids: Vec<u32>,
}

impl Default for WordInfoData {
    fn default() -> (res: WordInfoData)
        ensures
            res.surface@.len() == 0,
            res.head_word_length == 0,
            res.pos_id == 0,
            res.normalized_form@.len() == 0,
            res.dictionary_form_word_id == 0,
            res.dictionary_form@.len() == 0,
            res.reading_form@.len() == 0,
            res.a_unit_split@.len() == 0,
            res.b_unit_split@.len() == 0,
            res.word_structure@.len() == 0,
            res.synonym_group_ids@.len() == 0,
    {
        WordInfoData {
            surface: String::new(),
            head_word_length: 0,
            pos_id: 0,
            normalized_form: String::new(),
            dictionary_form_word_id: 0,
            dictionary_form: String::new(),
            reading_form: String::new(),
            a_unit_split: Vec::new(),
            b_unit_split: Vec::new(),
            word_structure: Vec::new(),
            synonym_group_ids: Vec::new(),
        }
    }
}

/// A form of a word, or the surface when the form is stored empty.
pub open spec fn form_or_surface(form: Seq<char>, surface: Seq<char>) -> Seq<char> {
    if form.len() == 0 {
        surface
    } else {
        form
    }
}

/// WordInfo API.
///
/// Internal data is not accessible by default, but can be extracted as
/// `let data: WordInfoData = info.into()`.
/// Note: this will consume WordInfo.
#[derive(Clone)]
pub struct WordInfo {
    data: WordInfoData,
}

impl View for WordInfo {
    type V = WordInfoData;

    closed spec fn view(&self) -> WordInfoData {
        self.data
    }
}

impl WordInfo {
    /// The word info holding `data`.
    pub fn from_data(data: WordInfoData) -> (res: WordInfo)
        ensures
            res@ == data,
    {
        WordInfo { data }
    }

    /// The data held.
    pub fn into_data(self) -> (res: WordInfoData)
        ensures
            res == self@,
    {
        self.data
    }

    pub fn surface(&self) -> (res: &str)
        ensures
            res@ == self@.surface@,
    {
        self.data.surface.as_str()
    }

    pub fn head_word_length(&self) -> (res: usize)
        ensures
            res == self@.head_word_length,
    {
        self.data.head_word_length as usize
    }

    pub fn pos_id(&self) -> (res: u16)
        ensures
            res == self@.pos_id,
    {
        self.data.pos_id
    }

    pub fn normalized_form(&self) -> (res: &str)
        ensures
            res@ == form_or_surface(self@.normalized_form@, self@.surface@),
    {
        if self.data.normalized_form.as_str().is_empty() {
            self.surface()
        } else {
            self.data.normalized_form.as_str()
        }
    }

    pub fn dictionary_form_word_id(&self) -> (res: i32)
        ensures
            res == self@.dictionary_form_word_id,
    {
        self.data.dictionary_form_word_id
    }

    pub fn dictionary_form(&self) -> (res: &str)
        ensures
            res@ == form_or_surface(self@.dictionary_form@, self@.surface@),
    {
        if self.data.dictionary_form.as_str().is_empty() {
            self.surface()
        } else {
            self.data.dictionary_form.as_str()
        }
    }

    pub fn reading_form(&self) -> (res: &str)
        ensures
            res@ == form_or_surface(self@.reading_form@, self@.surface@),
    {
        if self.data.reading_form.as_str().is_empty() {
            self.surface()
        } else {
            self.data.reading_form.as_str()
        }
    }

    pub fn a_unit_split(&self) -> (res: &[WordId])
        ensures
            res@ == self@.a_unit_split@,
    {
        self.data.a_unit_split.as_slice()
    }

    pub fn b_unit_split(&self) -> (res: &[WordId])
        ensures
            res@ == self@.b_unit_split@,
    {
        self.data.b_unit_split.as_slice()
    }

    pub fn word_structure(&self) -> (res: &[WordId])
        ensures
            res@ == self@.word_structure@,
    {
        self.data.word_structure.as_slice()
    }

    pub fn synonym_group_ids(&self) -> (res: &[u32])
        ensures
            res@ == self@.synonym_group_ids@,
    {
        self.data.synonym_group_ids.as_slice()
    }

    pub fn borrow_data(&self) -> (res: &WordInfoData)
        ensures
            *res == self@,
    {
        &self.data
    }
}

impl Default for WordInfo {
    fn default() -> (res: WordInfo)
        ensures
            res@.surface@.len() == 0,
            res@.head_word_length == 0,
            res@.pos_id == 0,
            res@.normalized_form@.len() == 0,
            res@.dictionary_form_word_id == 0,
            res@.dictionary_form@.len() == 0,
            res@.reading_form@.len() == 0,
            res@.a_unit_split@.len() == 0,
            res@.b_unit_split@.len() == 0,
            res@.word_structure@.len() == 0,
            res@.synonym_group_ids@.len() == 0,
    {
        WordInfo { data: WordInfoData::default() }
    }
}

impl From<WordInfoData> for WordInfo {
    fn from(data: WordInfoData) -> (res: WordInfo) {
        WordInfo { data }
    }
}

impl vstd::std_specs::convert::FromSpecImpl<WordInfoData> for WordInfo {
    open spec fn obeys_from_spec() -> bool {
        true
    }

    closed spec fn from_spec(v: WordInfoData) -> WordInfo {
        WordInfo { data: v }
    }
}

impl From<WordInfo> for WordInfoData {
    fn from(info: WordInfo) -> (res: WordInfoData) {
        info.data
    }
}

impl vstd::std_specs::convert::FromSpecImpl<WordInfo> for WordInfoData {
    open spec fn obeys_from_spec() -> bool {
        true
    }

    open spec fn from_spec(v: WordInfo) -> WordInfoData {
        v@
    }
}

/// Magic marker of block-compressed word infos ("MWIB").
pub const BLOCK_WI_MAGIC: u32 = 0x4D57_4942;

/// Magic marker of the VByte-encoded word infos ("MWVB"), no longer read.
pub const VBYTE_WI_MAGIC: u32 = 0x4D57_5642;

/// The 32-bit word at `offset` of `bytes` that may hold a magic marker, or 0
/// when fewer than four bytes are left there.
pub open spec fn wi_magic(bytes: Seq<u8>, offset: int) -> int {
    if offset + 4 <= bytes.len() {
        le_u32(bytes, offset)
    } else {
        0
    }
}

/// Layout of a block-compressed word-info section: records are grouped into
/// zstd-compressed blocks with per-record intra-block offsets.
///
/// The section is: magic, number of words (u32), records per block (u16),
/// number of blocks (u32), dictionary size (u32), the zstd dictionary, one
/// u32 record offset per word, one (offset, size) pair of u32 per block, and
/// the compressed blocks.
#[derive(Clone, Copy, Debug, PartialEq, Eq, Structural)]
pub struct BlockLayout {
    pub num_words: usize,
    pub records_per_block: usize,
    pub num_blocks: usize,
    pub dict_start: usize,
    pub dict_size: usize,
    pub record_offsets_start: usize,
    pub block_index_start: usize,
    pub compressed_data_start: usize,
}

/// The layout read from the header of a block-compressed section at `off`.
pub open spec fn block_layout(b: Seq<u8>, off: int) -> BlockLayout {
    let num_words = le_u32(b, off + 4);
    let num_blocks = le_u32(b, off + 10);
    let dict_size = le_u32(b, off + 14);
    let ros = off + 18 + dict_size;
    BlockLayout {
        num_words: num_words as usize,
        records_per_block: le_u16(b, off + 8) as usize,
        num_blocks: num_blocks as usize,
        dict_start: (off + 18) as usize,
        dict_size: dict_size as usize,
        record_offsets_start: ros as usize,
        block_index_start: (ros + num_words * 4) as usize,
        compressed_data_start: (ros + num_words * 4 + num_blocks * 8) as usize,
    }
}

/// The error that reading the header of a block-compressed section at `off`
/// meets, if any: the first field or dictionary that does not fit in the
/// buffer, or a dictionary that zstd rejects.
pub open spec fn block_header_error(b: Seq<u8>, off: int, e: SudachiError) -> bool {
    let dict_size = le_u32(b, off + 14);
    if off + 8 > b.len() {
        e == SudachiError::InvalidRange((off + 4) as usize, (off + 8) as usize)
    } else if off + 10 > b.len() {
        e == SudachiError::InvalidRange((off + 8) as usize, (off + 10) as usize)
    } else if off + 14 > b.len() {
        e == SudachiError::InvalidRange((off + 10) as usize, (off + 14) as usize)
    } else if off + 18 > b.len() {
        e == SudachiError::InvalidRange((off + 14) as usize, (off + 18) as usize)
    } else if off + 18 + dict_size > b.len() {
        e == SudachiError::InvalidRange((off + 18) as usize, (off + 18 + dict_size) as usize)
    } else if dict_size > 0 && !zstd_dict_accepted(b.subrange(off + 18, off + 18 + dict_size)) {
        e matches SudachiError::InvalidData(w) && w@ == "word_infos dict decode failed: "@
            + zstd_dict_error(b.subrange(off + 18, off + 18 + dict_size))
    } else {
        false
    }
}

/// The offsets that the header of a block-compressed section at `off`
/// declares add up within `usize`, as far as reading the header gets.
pub open spec fn block_header_fits(b: Seq<u8>, off: int) -> bool {
    let dict_end = off + 18 + le_u32(b, off + 14);
    wi_magic(b, off) == BLOCK_WI_MAGIC ==> {
        &&& off + 18 <= usize::MAX
        &&& off + 18 <= b.len() ==> dict_end <= usize::MAX
        &&& dict_end <= b.len() ==> dict_end + 4 * le_u32(b, off + 4) + 8 * le_u32(b, off + 10)
            <= usize::MAX
    }
}

/// The header of a block-compressed section at `off` reads without error.
pub open spec fn block_header_ok(b: Seq<u8>, off: int) -> bool {
    let dict_size = le_u32(b, off + 14);
    &&& off + 18 + dict_size <= b.len()
    &&& dict_size > 0 ==> zstd_dict_accepted(b.subrange(off + 18, off + 18 + dict_size))
}

/// The compressed bytes of block `blk`, as its entry in the block index
/// places them.
pub open spec fn block_frame(b: Seq<u8>, l: BlockLayout, blk: int) -> Seq<u8> {
    let bi = l.block_index_start + blk * 8;
    let start = l.compressed_data_start + le_u32(b, bi);
    b.subrange(start, start + le_u32(b, bi + 4))
}

/// The entry of block `blk` in the block index, and the compressed bytes it
/// points to, lie in the buffer.
pub open spec fn block_in_bounds(b: Seq<u8>, l: BlockLayout, blk: int) -> bool {
    let bi = l.block_index_start + blk * 8;
    &&& bi + 8 <= b.len()
    &&& l.compressed_data_start + le_u32(b, bi) + le_u32(b, bi + 4) <= b.len()
}

/// The decompressed content of block `blk`.
pub open spec fn block_content(b: Seq<u8>, l: BlockLayout, blk: int) -> Option<Seq<u8>> {
    frame_content(b.subrange(l.dict_start as int, l.dict_start + l.dict_size), block_frame(b, l, blk))
}

/// Block `blk` is a frame on which the zstd decoder returns rather than
/// panicking.
pub open spec fn block_returns(b: Seq<u8>, l: BlockLayout, blk: int) -> bool {
    frame_returns(b.subrange(l.dict_start as int, l.dict_start + l.dict_size), block_frame(b, l, blk))
}

/// Where decompressing block `blk` fails, and with which error text.
pub open spec fn block_failure(b: Seq<u8>, l: BlockLayout, blk: int) -> (u8, Seq<char>) {
    frame_failure(b.subrange(l.dict_start as int, l.dict_start + l.dict_size), block_frame(b, l, blk))
}

/// The text of a block decompression error that failed at step `f.0` with
/// the decoder's text `f.1`.
pub open spec fn block_error_text(f: (u8, Seq<char>)) -> Seq<char> {
    if f.0 == 0 {
        "word_info block zstd init error: "@ + f.1
    } else if f.0 == 1 {
        "word_info block zstd decode error: "@ + f.1
    } else {
        "word_info block zstd collect error: "@ + f.1
    }
}

/// The decompressed block held in memory.
struct BlockCache {
    block_idx: usize,
    data: Vec<u8>,
}

/// The word-info section of a lexicon.
pub struct WordInfos<'a> {
    bytes: &'a [u8],
    offset: usize,
    word_size: u32,
    has_synonym_group_ids: bool,
    block_compressed: Option<BlockLayout>,
    cache: BlockCache,
}

impl<'a> WordInfos<'a> {
    #[verifier::type_invariant]
    closed spec fn inv(self) -> bool {
        self.block_compressed matches Some(l) ==> {
            &&& l == block_layout(self.bytes@, self.offset as int)
            &&& l.dict_start + l.dict_size <= self.bytes@.len()
            &&& l.record_offsets_start == l.dict_start + l.dict_size
            &&& l.block_index_start == l.record_offsets_start + 4 * l.num_words
            &&& l.compressed_data_start == l.block_index_start + 8 * l.num_blocks
            &&& self.cache.block_idx != usize::MAX ==> block_content(
                self.bytes@,
                l,
                self.cache.block_idx as int,
            ) == Some(self.cache.data@)
        }
    }

    /// The dictionary bytes the section is read from.
    pub closed spec fn bytes(&self) -> Seq<u8> {
        self.bytes@
    }

    /// Where the section starts.
    pub closed spec fn offset(&self) -> int {
        self.offset as int
    }

    /// The number of words, as the section gives it.
    pub closed spec fn word_size(&self) -> u32 {
        self.word_size
    }

    /// Whether the records hold synonym group ids.
    pub closed spec fn has_synonym_group_ids(&self) -> bool {
        self.has_synonym_group_ids
    }

    /// The block layout of a block-compressed section; `None` for a plain one.
    pub closed spec fn layout(&self) -> Option<BlockLayout> {
        self.block_compressed
    }

    /// Read the word-info section that starts at `offset` of `bytes`.
    ///
    /// A block-compressed section (magic "MWIB") has its header read and its
    /// zstd dictionary checked; a VByte-encoded one (magic "MWVB") is refused;
    /// any other is a plain section of `word_size` records.
    pub fn new(bytes: &'a [u8], offset: usize, word_size: u32, has_synonym_group_ids: bool) -> (res:
        Result<WordInfos<'a>, SudachiError>)
        requires
            block_header_fits(bytes@, offset as int),
        ensures
            wi_magic(bytes@, offset as int) == BLOCK_WI_MAGIC ==> match res {
                Ok(w) => {
                    &&& block_header_ok(bytes@, offset as int)
                    &&& w.layout() == Some(block_layout(bytes@, offset as int))
                    &&& w.word_size() == le_u32(bytes@, offset + 4)
                },
                Err(e) => block_header_error(bytes@, offset as int, e),
            },
            wi_magic(bytes@, offset as int) == VBYTE_WI_MAGIC ==> (res matches Err(
                SudachiError::InvalidDictionaryGrammar(ctx),
            ) && ctx@ == "VByte-encoded word infos are no longer supported"@),
            wi_magic(bytes@, offset as int) != BLOCK_WI_MAGIC && wi_magic(bytes@, offset as int)
                != VBYTE_WI_MAGIC ==> (res matches Ok(w) && w.layout() is None && w.word_size()
                == word_size),
            res matches Ok(w) ==> w.bytes() == bytes@ && w.offset() == offset
                && w.has_synonym_group_ids() == has_synonym_group_ids,
    {
        let maybe_magic = if offset <= bytes.len() && bytes.len() - offset >= 4 {
            read_u32(bytes, offset)
        } else {
            0
        };
        if maybe_magic == BLOCK_WI_MAGIC {
            let mut off = offset + 4;
            if off + 4 > bytes.len() {
                return Err(SudachiError::InvalidRange(off, off + 4));
            }
            let num_words = read_u32(bytes, off) as usize;
            off += 4;
            if off + 2 > bytes.len() {
                return Err(SudachiError::InvalidRange(off, off + 2));
            }
            let records_per_block = read_u16(bytes, off) as usize;
            off += 2;
            if off + 4 > bytes.len() {
                return Err(SudachiError::InvalidRange(off, off + 4));
            }
            let num_blocks = read_u32(bytes, off) as usize;
            off += 4;
            if off + 4 > bytes.len() {
                return Err(SudachiError::InvalidRange(off, off + 4));
            }
            let dict_size = read_u32(bytes, off) as usize;
            off += 4;
            let dict_end = off + dict_size;
            if dict_end > bytes.len() {
                return Err(SudachiError::InvalidRange(off, dict_end));
            }
            let dict_start = off;
            if dict_size > 0 {
                let dict_bytes = slice_subrange(bytes, off, dict_end);
                if let Err(detail) = zstd_dict_check(dict_bytes) {
                    let mut w = String::from_str("word_infos dict decode failed: ");
                    w.append(detail.as_str());
                    return Err(SudachiError::InvalidData(w));
                }
            }
            off = dict_end;
            let record_offsets_start = off;
            off += num_words * 4;
            let block_index_start = off;
            off += num_blocks * 8;
            let compressed_data_start = off;
            let layout = BlockLayout {
                num_words,
                records_per_block,
                num_blocks,
                dict_start,
                dict_size,
                record_offsets_start,
                block_index_start,
                compressed_data_start,
            };
            return Ok(
                WordInfos {
                    bytes,
                    offset,
                    word_size: num_words as u32,
                    has_synonym_group_ids,
                    block_compressed: Some(layout),
                    cache: BlockCache { block_idx: usize::MAX, data: Vec::new() },
                },
            );
        }
        if maybe_magic == VBYTE_WI_MAGIC {
            return Err(grammar_error("VByte-encoded word infos are no longer supported"));
        }
        Ok(
            WordInfos {
                bytes,
                offset,
                word_size,
                has_synonym_group_ids,
                block_compressed: None,
                cache: BlockCache { block_idx: usize::MAX, data: Vec::new() },
            },
        )
    }

    /// Where the record of `word_id` starts in a plain section: the u32 at
    /// entry `word_id` of the offset table that opens the section. An error
    /// when the buffer ends inside that entry.
    pub fn word_id_to_offset(&self, word_id: u32) -> (res: Result<usize, SudachiError>)
        requires
            self.offset() + 4 * word_id <= self.bytes().len(),
            self.bytes().len() + 4 <= usize::MAX,
        ensures
            ({
                let at = self.offset() + 4 * word_id;
                &&& at + 4 <= self.bytes().len() ==> res == Ok::<usize, SudachiError>(
                    le_u32(self.bytes(), at) as usize,
                )
                &&& at + 4 > self.bytes().len() ==> res == Err::<usize, SudachiError>(
                    SudachiError::InvalidRange(at as usize, (at + 4) as usize),
                )
            }),
    {
        let n = self.bytes.len();
        let at = self.offset + 4 * (word_id as usize);
        if n - at < 4 {
            return Err(SudachiError::InvalidRange(at, at + 4));
        }
        Ok(read_u32(self.bytes, at) as usize)
    }

    /// The bytes of the record of `word_id` in a block-compressed section:
    /// the block holding it is found and decompressed (unless it is the one
    /// held in memory), and the record starts at its stored intra-block
    /// offset. The record's fields are read from these bytes by the
    /// word-info record parser. The block must be a frame on which the zstd
    /// decoder returns; on others it may panic.
    pub fn block_record(&mut self, word_id: u32) -> (res: Result<Vec<u8>, SudachiError>)
        requires
            old(self).layout() matches Some(l) && l.records_per_block > 0 && (
            (word_id as int) / (l.records_per_block as int) < l.num_blocks ==> block_in_bounds(
                old(self).bytes(),
                l,
                (word_id as int) / (l.records_per_block as int),
            ) && block_returns(old(self).bytes(), l, (word_id as int) / (l.records_per_block as int))),
            old(self).layout() matches Some(l) && l.record_offsets_start + 4 * word_id + 4
                <= usize::MAX,
        ensures
            final(self).layout() == old(self).layout(),
            final(self).bytes() == old(self).bytes(),
            final(self).offset() == old(self).offset(),
            final(self).word_size() == old(self).word_size(),
            final(self).has_synonym_group_ids() == old(self).has_synonym_group_ids(),
            old(self).layout() matches Some(l) && ({
                let b = old(self).bytes();
                let blk = (word_id as int) / (l.records_per_block as int);
                let ro = l.record_offsets_start + word_id * 4;
                if blk >= l.num_blocks {
                    res == Err::<Vec<u8>, SudachiError>(
                        SudachiError::InvalidRange(blk as usize, l.num_blocks),
                    )
                } else if block_content(b, l, blk as int) is None {
                    res matches Err(SudachiError::InvalidData(w)) && w@ == block_error_text(
                        block_failure(b, l, blk as int),
                    )
                } else if ro + 4 > b.len() {
                    res == Err::<Vec<u8>, SudachiError>(
                        SudachiError::InvalidRange(ro as usize, (ro + 4) as usize),
                    )
                } else {
                    let data = block_content(b, l, blk as int)->0;
                    let rec = le_u32(b, ro);
                    if rec > data.len() {
                        res == Err::<Vec<u8>, SudachiError>(
                            SudachiError::InvalidRange(rec as usize, data.len() as usize),
                        )
                    } else {
                        res matches Ok(v) && v@ == data.skip(rec)
                    }
                }
            }),
    {
        proof {
            use_type_invariant(&*self);
        }
        let blen = self.bytes.len();
        assert(blen == self.bytes@.len());
        let l = self.block_compressed.unwrap();
        let block_idx = word_id as usize / l.records_per_block;
        if block_idx >= l.num_blocks {
            return Err(SudachiError::InvalidRange(block_idx, l.num_blocks));
        }
        if self.cache.block_idx != block_idx {
            let bi_off = l.block_index_start + block_idx * 8;
            let block_offset = read_u32(self.bytes, bi_off) as usize;
            let block_size = read_u32(self.bytes, bi_off + 4) as usize;
            let start = l.compressed_data_start + block_offset;
            let compressed = slice_subrange(self.bytes, start, start + block_size);
            let dict = slice_subrange(self.bytes, l.dict_start, l.dict_start + l.dict_size);
            match decode_frame(dict, compressed) {
                Ok(data) => {
                    self.cache = BlockCache { block_idx, data };
                },
                Err((step, detail)) => {
                    let mut w = if step == 0 {
                        String::from_str("word_info block zstd init error: ")
                    } else if step == 1 {
                        String::from_str("word_info block zstd decode error: ")
                    } else {
                        String::from_str("word_info block zstd collect error: ")
                    };
                    w.append(detail.as_str());
                    return Err(SudachiError::InvalidData(w));
                },
            }
        }
        let ro_off = l.record_offsets_start + word_id as usize * 4;
        if ro_off + 4 > self.bytes.len() {
            return Err(SudachiError::InvalidRange(ro_off, ro_off + 4));
        }
        let record_offset = read_u32(self.bytes, ro_off) as usize;
        if record_offset > self.cache.data.len() {
            return Err(SudachiError::InvalidRange(record_offset, self.cache.data.len()));
        }
        let mut out: Vec<u8> = Vec::new();
        let mut i = record_offset;
        while i < self.cache.data.len()
            invariant
                record_offset <= i <= self.cache.data@.len(),
                out@ == self.cache.data@.subrange(record_offset as int, i as int),
            decreases self.cache.data.len() - i,
        {
            out.push(self.cache.data[i]);
            proof {
                assert(out@ =~= self.cache.data@.subrange(record_offset as int, i + 1));
            }
            i = i + 1;
        }
        proof {
            assert(out@ =~= self.cache.data@.skip(record_offset as int));
        }
        Ok(out)
    }
}

} // verus!
