//! The connection (bigram) cost matrix of a dictionary's grammar.
//!
//! Two layouts are read:
//! - flat little-endian `i16` matrices, as written by the dictionary builder;
//! - zstd-compressed block matrices (`MCZB`), cut into blocks of 256×256
//!   cells, of which one stripe of 256 rows is decompressed at a time.

use vstd::prelude::*;

use crate::block_codec::{
    decode_frame, frame_content, frame_returns, zstd_dict_accepted, zstd_dict_check, zstd_dict_error,
};
use crate::error::{grammar_error, SudachiError};
use vstd::string::*;
use vstd::slice::slice_subrange;
use crate::le::{le_i16, le_u16, le_u32, read_i16, read_u16, read_u32};

verus! {

/// Block size for compressed matrices (256×256 cells per block).
pub const BLOCK_SIZE: usize = 256;

/// zstd-compressed connection matrix magic: "MCZB"
pub const COMPRESSED_MAGIC: u32 = 0x4D43_5A42;

/// The stripe of rows `256 * row_block ..` is being decompressed into
/// `data`, a stripe `num_left` cells wide: the cells of the column blocks
/// before `cb`, and those of block `cb` before (`local_r`, `c_cur`) in row
/// order, hold their costs; the others are zero.
spec fn stripe_progress(
    data: Seq<i16>,
    num_left: int,
    buf: Seq<u8>,
    off: int,
    row_block: int,
    actual_rows: int,
    cb: int,
    local_r: int,
    c_cur: int,
) -> bool {
    forall|local: int, c: int|
        #![trigger data[local * num_left + c]]
        0 <= local < actual_rows && 0 <= c < num_left ==> data[local * num_left + c] == if c / 256
            < cb || (c / 256 == cb && (local < local_r || (local == local_r && c < c_cur))) {
            mczb_cell(buf, off, c, row_block * 256 + local)
        } else {
            0
        }
}

/// Two cells of a stripe of rows `num_left` wide have the same position only
/// if they are the same cell.
proof fn lemma_row_index_unique(num_left: int, a: int, x: int, b: int, y: int)
    requires
        0 <= x < num_left,
        0 <= y < num_left,
        0 <= a,
        0 <= b,
        a * num_left + x == b * num_left + y,
    ensures
        a == b,
        x == y,
{
    if a < b {
        assert(a * num_left + x < b * num_left + y) by (nonlinear_arith)
            requires
                a < b,
                0 <= x < num_left,
                0 <= y,
        ;
    } else if a > b {
        assert(a * num_left + x > b * num_left + y) by (nonlinear_arith)
            requires
                a > b,
                0 <= y < num_left,
                0 <= x,
        ;
    }
}

/// A cell of stripe `rb` lies in the block that the decompression loop reads
/// for it.
proof fn lemma_cell_in_block(buf: Seq<u8>, off: int, rb: int, local: int, c: int)
    requires
        0 <= rb,
        0 <= local < 256,
        0 <= c,
    ensures
        (rb * 256 + local) / 256 == rb,
        (rb * 256 + local) % 256 == local,
{
    assert((rb * 256 + local) / 256 == rb && (rb * 256 + local) % 256 == local) by (nonlinear_arith)
        requires
            0 <= rb,
            0 <= local < 256,
    ;
}

/// The furthest end of the compressed data is at least the start of the data.
proof fn lemma_max_end_bounds(buf: Seq<u8>, off: int, n: int)
    ensures
        mczb_max_end(buf, off, n) >= mczb_data_start(buf, off),
    decreases n,
{
    if n > 0 {
        lemma_max_end_bounds(buf, off, n - 1);
    }
}

// ── The MCZB layout, read from the bytes at `off` (just after the magic) ──

/// Number of left ids: u16 at `off`.
pub open spec fn mczb_num_left(buf: Seq<u8>, off: int) -> int {
    le_u16(buf, off)
}

/// Number of right ids: u16 at `off + 2`.
pub open spec fn mczb_num_right(buf: Seq<u8>, off: int) -> int {
    le_u16(buf, off + 2)
}

/// Number of compressed blocks: u32 at `off + 4`.
pub open spec fn mczb_num_blocks(buf: Seq<u8>, off: int) -> int {
    le_u32(buf, off + 4)
}

/// Size of the zstd dictionary: u32 at `off + 8`; the dictionary follows.
pub open spec fn mczb_dict_size(buf: Seq<u8>, off: int) -> int {
    le_u32(buf, off + 8)
}

/// Start of the block index (8 bytes per block: offset and size, u32 each).
pub open spec fn mczb_index_start(buf: Seq<u8>, off: int) -> int {
    off + 12 + mczb_dict_size(buf, off)
}

/// Start of the compressed block data.
pub open spec fn mczb_data_start(buf: Seq<u8>, off: int) -> int {
    mczb_index_start(buf, off) + 8 * mczb_num_blocks(buf, off)
}

/// The raw zstd dictionary.
pub open spec fn mczb_dict(buf: Seq<u8>, off: int) -> Seq<u8> {
    buf.subrange(off + 12, mczb_index_start(buf, off))
}

/// Number of blocks per stripe of 256 rows.
pub open spec fn mczb_col_blocks(buf: Seq<u8>, off: int) -> int {
    (mczb_num_left(buf, off) + 255) / 256
}

/// Position of the index entry of block `blk`.
pub open spec fn mczb_entry(buf: Seq<u8>, off: int, blk: int) -> int {
    mczb_index_start(buf, off) + 8 * blk
}

/// Start of the compressed bytes of block `blk`.
pub open spec fn mczb_block_start(buf: Seq<u8>, off: int, blk: int) -> int {
    mczb_data_start(buf, off) + le_u32(buf, mczb_entry(buf, off, blk))
}

/// Length of the compressed bytes of block `blk`.
pub open spec fn mczb_block_len(buf: Seq<u8>, off: int, blk: int) -> int {
    le_u32(buf, mczb_entry(buf, off, blk) + 4)
}

/// The compressed bytes of block `blk`.
pub open spec fn mczb_block_bytes(buf: Seq<u8>, off: int, blk: int) -> Seq<u8> {
    buf.subrange(
        mczb_block_start(buf, off, blk),
        mczb_block_start(buf, off, blk) + mczb_block_len(buf, off, blk),
    )
}

/// Block `blk` can be read: its index entry and its bytes lie in `buf`, and
/// its zstd frame decodes.
pub open spec fn mczb_block_ok(buf: Seq<u8>, off: int, blk: int) -> bool {
    &&& mczb_entry(buf, off, blk) + 8 <= buf.len()
    &&& mczb_block_start(buf, off, blk) + mczb_block_len(buf, off, blk) <= buf.len()
    &&& frame_returns(mczb_dict(buf, off), mczb_block_bytes(buf, off, blk))
    &&& frame_content(mczb_dict(buf, off), mczb_block_bytes(buf, off, blk)) is Some
}

/// Block `blk`, where its index entry and bytes lie in `buf`, is a frame on
/// which the zstd decoder returns rather than panicking.
pub open spec fn mczb_block_returns(buf: Seq<u8>, off: int, blk: int) -> bool {
    mczb_entry(buf, off, blk) + 8 <= buf.len() && mczb_block_start(buf, off, blk) + mczb_block_len(
        buf,
        off,
        blk,
    ) <= buf.len() ==> frame_returns(mczb_dict(buf, off), mczb_block_bytes(buf, off, blk))
}

/// Every block of stripe `rb` is one on which the zstd decoder returns.
pub open spec fn mczb_stripe_returns(buf: Seq<u8>, off: int, rb: int) -> bool {
    forall|cb: int|
        0 <= cb < mczb_col_blocks(buf, off) ==> #[trigger] mczb_block_returns(
            buf,
            off,
            rb * mczb_col_blocks(buf, off) + cb,
        )
}

/// The decompressed bytes of block `blk`.
pub open spec fn mczb_block_content(buf: Seq<u8>, off: int, blk: int) -> Seq<u8> {
    frame_content(mczb_dict(buf, off), mczb_block_bytes(buf, off, blk))->0
}

/// Every block of stripe `rb` (rows `256 * rb` to `256 * rb + 255`) can be
/// read, and the stripe holds at least one row.
pub open spec fn mczb_stripe_ok(buf: Seq<u8>, off: int, rb: int) -> bool {
    &&& 0 <= rb
    &&& rb * 256 < mczb_num_right(buf, off)
    &&& forall|cb: int|
        0 <= cb < mczb_col_blocks(buf, off) ==> #[trigger] mczb_block_ok(
            buf,
            off,
            rb * mczb_col_blocks(buf, off) + cb,
        )
}

/// Number of columns of the blocks of column block `cb`.
pub open spec fn mczb_block_width(num_left: int, cb: int) -> int {
    if cb * 256 + 256 < num_left {
        256
    } else {
        num_left - cb * 256
    }
}

/// Cost stored for (`left`, `right`) in a compressed matrix: the block of its
/// stripe and column block lists its rows one after the other, each as
/// little-endian `i16` cells; a cell past the end of the block reads as 0.
pub open spec fn mczb_cell(buf: Seq<u8>, off: int, left: int, right: int) -> i16 {
    let rb = right / 256;
    let cb = left / 256;
    let width = mczb_block_width(mczb_num_left(buf, off), cb);
    let src = ((right % 256) * width + (left - cb * 256)) * 2;
    let content = mczb_block_content(buf, off, rb * mczb_col_blocks(buf, off) + cb);
    if src + 2 <= content.len() {
        le_i16(content, src) as i16
    } else {
        0
    }
}

/// The furthest end of the compressed data of the first `n` blocks.
pub open spec fn mczb_max_end(buf: Seq<u8>, off: int, n: int) -> int
    decreases n,
{
    if n <= 0 {
        mczb_data_start(buf, off)
    } else {
        let prev = mczb_max_end(buf, off, n - 1);
        let end = mczb_block_start(buf, off, n - 1) + mczb_block_len(buf, off, n - 1);
        if end > prev {
            end
        } else {
            prev
        }
    }
}

/// Reading the MCZB header at `off` cannot fail on arithmetic or on a missing
/// block count: the block count is present whenever the two dimensions are,
/// and every offset and size the header and index declare adds up without
/// overflowing `usize`.
pub open spec fn mczb_readable(buf: Seq<u8>, off: int) -> bool {
    &&& off + 12 <= usize::MAX
    &&& off + 4 <= buf.len() ==> off + 8 <= buf.len()
    &&& off + 12 <= buf.len() ==> off + 12 + mczb_dict_size(buf, off) <= usize::MAX
    &&& off + 12 + mczb_dict_size(buf, off) <= buf.len() ==> {
        &&& 8 * mczb_num_blocks(buf, off) <= usize::MAX
        &&& mczb_data_start(buf, off) <= usize::MAX
    }
    &&& mczb_data_start(buf, off) <= buf.len() ==> forall|blk: int|
        0 <= blk < mczb_num_blocks(buf, off) ==> #[trigger] mczb_block_start(buf, off, blk)
            + mczb_block_len(buf, off, blk) <= usize::MAX
}

/// The checks of the MCZB header at `off` all pass: the header, the
/// dictionary and the block index lie in `buf`, and the dictionary, if any,
/// is one that `ruzstd` accepts.
pub open spec fn mczb_header_ok(buf: Seq<u8>, off: int) -> bool {
    &&& off + 12 <= buf.len()
    &&& mczb_index_start(buf, off) <= buf.len()
    &&& mczb_data_start(buf, off) <= buf.len()
    &&& mczb_dict_size(buf, off) > 0 ==> zstd_dict_accepted(mczb_dict(buf, off))
}

/// The error that reading an MCZB header at `off` reports: the first check
/// that fails names it.
pub open spec fn mczb_header_error(buf: Seq<u8>, off: int, e: SudachiError) -> bool {
    if off + 4 > buf.len() {
        e matches SudachiError::InvalidDictionaryGrammar(c) && c@ == "compressed conn header"@
    } else if off + 12 > buf.len() {
        e matches SudachiError::InvalidDictionaryGrammar(c) && c@ == "compressed conn dict size"@
    } else if mczb_index_start(buf, off) > buf.len() {
        e matches SudachiError::InvalidDictionaryGrammar(c) && c@
            == "compressed conn dictionary"@
    } else if mczb_data_start(buf, off) > buf.len() {
        e matches SudachiError::InvalidDictionaryGrammar(c) && c@ == "compressed conn index"@
    } else {
        e matches SudachiError::InvalidData(w) && w@ == "connection matrix dict decode failed: "@
            + zstd_dict_error(mczb_dict(buf, off))
    }
}

#[derive(Clone, Copy, Debug, PartialEq, Eq)]
enum CompressionKind {
    Uncompressed,
    Zstd,
}

struct StripeCache {
    row_block: usize,
    data: Vec<i16>,
}

/// Connection matrix: the cost of connecting a word whose right id is `left`
/// to a following word whose left id is `right`.
pub struct ConnectionMatrix<'a> {
    buf: &'a [u8],
    offset: usize,
    num_left: usize,
    num_right: usize,
    num_col_blocks: usize,
    dict_start: usize,
    dict_size: usize,
    index_start: usize,
    data_start: usize,
    kind: CompressionKind,
    cache: StripeCache,
}

impl<'a> ConnectionMatrix<'a> {
    #[verifier::type_invariant]
    closed spec fn inv(self) -> bool {
        &&& self.kind == CompressionKind::Uncompressed ==> self.cache.data@.len() == self.num_left
            * self.num_right
        &&& self.kind == CompressionKind::Zstd ==> {
            &&& self.cache.data@.len() == 256 * self.num_left
            &&& self.num_left == mczb_num_left(self.buf@, self.offset as int)
            &&& self.num_right == mczb_num_right(self.buf@, self.offset as int)
            &&& self.offset + 12 <= self.buf@.len()
            &&& self.num_col_blocks == mczb_col_blocks(self.buf@, self.offset as int)
            &&& self.dict_start == self.offset + 12
            &&& self.dict_size == mczb_dict_size(self.buf@, self.offset as int)
            &&& self.index_start == mczb_index_start(self.buf@, self.offset as int)
            &&& self.data_start == mczb_data_start(self.buf@, self.offset as int)
            &&& self.data_start <= self.buf@.len()
            &&& self.cache.row_block != usize::MAX ==> mczb_stripe_ok(
                self.buf@,
                self.offset as int,
                self.cache.row_block as int,
            )
        }
    }

    /// Number of left ids.
    pub closed spec fn left_count(&self) -> nat {
        self.num_left as nat
    }

    /// Number of right ids.
    pub closed spec fn right_count(&self) -> nat {
        self.num_right as nat
    }

    /// The matrix is a compressed (MCZB) one.
    pub closed spec fn is_compressed(&self) -> bool {
        self.kind == CompressionKind::Zstd
    }

    /// The cost kept for (`left`, `right`) by the dictionary: for a flat
    /// matrix the current cell; for a compressed one the decompressed cell.
    pub closed spec fn stored(&self, left: int, right: int) -> i16 {
        if self.kind == CompressionKind::Uncompressed {
            self.cache.data@[right * self.num_left + left]
        } else {
            mczb_cell(self.buf@, self.offset as int, left, right)
        }
    }

    /// The cost that a lookup of (`left`, `right`) answers now: for a
    /// compressed matrix the decompressed stripe in memory, with the updates
    /// made to it, stands for the cells of its rows.
    pub closed spec fn cell(&self, left: int, right: int) -> i16 {
        if self.kind == CompressionKind::Uncompressed {
            self.cache.data@[right * self.num_left + left]
        } else if self.cache.row_block as int == right / 256 {
            self.cache.data@[(right % 256) * self.num_left + left]
        } else {
            mczb_cell(self.buf@, self.offset as int, left, right)
        }
    }

    /// The stripe of 256 rows held in memory, if any (compressed matrices).
    pub closed spec fn cached_stripe(&self) -> int {
        if self.kind == CompressionKind::Zstd && self.cache.row_block != usize::MAX {
            self.cache.row_block as int
        } else {
            -1
        }
    }

    /// Testing whether row `right` can be looked up decodes only frames on
    /// which the zstd decoder returns: the matrix is flat, the stripe of
    /// `right` lies past the last row, or its blocks are such frames.
    pub closed spec fn row_returns(&self, right: int) -> bool {
        ||| self.kind == CompressionKind::Uncompressed
        ||| (right / 256) * 256 >= self.num_right
        ||| mczb_stripe_returns(self.buf@, self.offset as int, right / 256)
    }

    /// Row `right` can be looked up without a decompression failure.
    pub closed spec fn row_loadable(&self, right: int) -> bool {
        self.kind == CompressionKind::Uncompressed || mczb_stripe_ok(
            self.buf@,
            self.offset as int,
            right / 256,
        )
    }

    /// Every lookup answers the cost kept by the dictionary: no update made
    /// to the stripe in memory is pending.
    pub open spec fn consistent(&self) -> bool {
        forall|l: int, r: int|
            0 <= l < self.left_count() && 0 <= r < self.right_count() ==> #[trigger] self.cell(
                l,
                r,
            ) == self.stored(l, r)
    }

    /// A row outside the stripe held in memory answers its kept cost.
    pub proof fn lemma_cell_off_stripe(&self, l: int, r: int)
        requires
            0 <= l < self.left_count(),
            0 <= r < self.right_count(),
            r / 256 != self.cached_stripe(),
        ensures
            self.cell(l, r) == self.stored(l, r),
    {
    }

    /// Only a compressed matrix holds a stripe in memory.
    pub proof fn lemma_stripe_compressed(&self)
        ensures
            self.cached_stripe() >= 0 ==> self.is_compressed(),
    {
    }

    /// What a lookup of (`l2`, `r2`) answers after a lookup of row `right`
    /// on `self`: loading the stripe of `right` drops the stripe held before,
    /// whose rows read their kept costs again.
    pub open spec fn cell_after_lookup(&self, right: int, l2: int, r2: int) -> i16 {
        if self.cached_stripe() >= 0 && self.cached_stripe() != right / 256
            && self.cached_stripe() == r2 / 256 {
            self.stored(l2, r2)
        } else {
            self.cell(l2, r2)
        }
    }

    /// Read the flat (uncompressed) connection matrix — used when loading
    /// dictionaries that have NOT been converted (e.g., dictionaries built
    /// from source via `DictBuilder`).
    pub fn from_offset_size(buf: &'a [u8], offset: usize, num_left: usize, num_right: usize) -> (res:
        Result<ConnectionMatrix<'a>, SudachiError>)
        requires
            offset + 2 * num_left * num_right <= usize::MAX,
        ensures
            match res {
                Ok(m) => {
                    &&& offset + 2 * num_left * num_right <= buf@.len()
                    &&& !m.is_compressed()
                    &&& m.left_count() == num_left
                    &&& m.right_count() == num_right
                    &&& m.consistent()
                    &&& forall|r: int| #[trigger] m.row_returns(r) && m.row_loadable(r)
                    &&& forall|l: int, r: int|
                        0 <= l < num_left && 0 <= r < num_right ==> #[trigger] m.stored(l, r)
                            == le_i16(buf@, offset + 2 * (r * num_left + l))
                },
                Err(e) => {
                    &&& offset + 2 * num_left * num_right > buf@.len()
                    &&& e matches SudachiError::InvalidDictionaryGrammar(ctx)
                    &&& ctx@ == "connection matrix"@
                },
            },
    {
        assert(num_left * num_right <= usize::MAX) by (nonlinear_arith)
            requires
                offset + 2 * num_left * num_right <= usize::MAX,
        ;
        let size = num_left * num_right;
        assert(size * 2 == 2 * num_left * num_right) by (nonlinear_arith)
            requires
                size == num_left * num_right,
        ;
        let byte_size = size * 2;
        if offset + byte_size > buf.len() {
            return Err(grammar_error("connection matrix"));
        }
        let blen = buf.len();
        let mut data: Vec<i16> = Vec::new();
        let mut i: usize = 0;
        while i < size
            invariant
                i <= size,
                size == num_left * num_right,
                offset + 2 * size <= buf@.len(),
                2 * size == 2 * num_left * num_right,
                blen == buf@.len(),
                data@.len() == i,
                forall|j: int| 0 <= j < i ==> #[trigger] data@[j] == le_i16(buf@, offset + 2 * j),
            decreases size - i,
        {
            assert(offset + i * 2 + 2 <= buf@.len());
            let pos = offset + i * 2;
            data.push(read_i16(buf, pos));
            i = i + 1;
        }
        let m = ConnectionMatrix {
            buf,
            offset,
            num_left,
            num_right,
            num_col_blocks: 0,
            dict_start: 0,
            dict_size: 0,
            index_start: 0,
            data_start: 0,
            kind: CompressionKind::Uncompressed,
            cache: StripeCache { row_block: 0, data },
        };
        assert forall|l: int, r: int|
            0 <= l < num_left && 0 <= r < num_right implies #[trigger] m.stored(l, r) == le_i16(
            buf@,
            offset + 2 * (r * num_left + l),
        ) by {
            assert(0 <= r * num_left + l < num_left * num_right) by (nonlinear_arith)
                requires
                    0 <= l < num_left,
                    0 <= r < num_right,
            ;
        }
        Ok(m)
    }

    /// Read a zstd-compressed connection matrix from the dictionary. `offset`
    /// points just past the magic; the result holds the matrix and the number
    /// of bytes from `offset` to the furthest end of its compressed blocks.
    pub fn from_compressed(buf: &'a [u8], offset: usize) -> (res: Result<
        (ConnectionMatrix<'a>, usize),
        SudachiError,
    >)
        requires
            mczb_readable(buf@, offset as int),
        ensures
            res is Ok <==> mczb_header_ok(buf@, offset as int),
            match res {
                Ok((m, consumed)) => {
                    &&& m.is_compressed()
                    &&& m.left_count() == mczb_num_left(buf@, offset as int)
                    &&& m.right_count() == mczb_num_right(buf@, offset as int)
                    &&& m.consistent()
                    &&& forall|l: int, r: int|
                        0 <= l < m.left_count() && 0 <= r < m.right_count() ==> #[trigger] m.stored(
                            l,
                            r,
                        ) == mczb_cell(buf@, offset as int, l, r)
                    &&& forall|r: int|
                        #![trigger m.row_loadable(r)]
                        0 <= r ==> (m.row_loadable(r) <==> mczb_stripe_ok(
                            buf@,
                            offset as int,
                            r / 256,
                        ))
                    &&& forall|r: int|
                        #![trigger m.row_returns(r)]
                        0 <= r ==> (m.row_returns(r) <==> ((r / 256) * 256 >= m.right_count()
                            || mczb_stripe_returns(buf@, offset as int, r / 256)))
                    &&& consumed == mczb_max_end(
                        buf@,
                        offset as int,
                        mczb_num_blocks(buf@, offset as int),
                    ) - offset
                },
                Err(e) => mczb_header_error(buf@, offset as int, e),
            },
    {
        let ghost b = buf@;
        let ghost off = offset as int;
        let blen = buf.len();
        let mut pos = offset;
        if pos + 4 > blen {
            return Err(grammar_error("compressed conn header"));
        }
        let num_left = read_u16(buf, pos) as usize;
        let num_right = read_u16(buf, pos + 2) as usize;
        pos = pos + 4;
        let num_blocks = read_u32(buf, pos) as usize;
        pos = pos + 4;
        if pos + 4 > blen {
            return Err(grammar_error("compressed conn dict size"));
        }
        let dict_size = read_u32(buf, pos) as usize;
        pos = pos + 4;
        if pos + dict_size > blen {
            return Err(grammar_error("compressed conn dictionary"));
        }
        let dict_start = pos;
        pos = pos + dict_size;
        let index_start = pos;
        let index_size = num_blocks * 8;
        if pos + index_size > blen {
            return Err(grammar_error("compressed conn index"));
        }
        pos = pos + index_size;
        let data_start = pos;
        assert(data_start == mczb_data_start(b, off));
        let mut max_data_end = data_start;
        let mut i: usize = 0;
        while i < num_blocks
            invariant
                b == buf@,
                blen == b.len(),
                off == offset,
                mczb_readable(b, off),
                num_blocks == mczb_num_blocks(b, off),
                index_start == mczb_index_start(b, off),
                data_start == mczb_data_start(b, off),
                data_start <= blen,
                i <= num_blocks,
                max_data_end == mczb_max_end(b, off, i as int),
            decreases num_blocks - i,
        {
            let idx_off = index_start + i * 8;
            let blk_offset = read_u32(buf, idx_off) as usize;
            let blk_size = read_u32(buf, idx_off + 4) as usize;
            assert(mczb_block_start(b, off, i as int) + mczb_block_len(b, off, i as int)
                <= usize::MAX);
            let abs_end = data_start + blk_offset + blk_size;
            if abs_end > max_data_end {
                max_data_end = abs_end;
            }
            i = i + 1;
        }
        let num_col_blocks = (num_left + BLOCK_SIZE - 1) / BLOCK_SIZE;
        if dict_size > 0 {
            let dict_bytes = slice_subrange(buf, dict_start, dict_start + dict_size);
            if let Err(detail) = zstd_dict_check(dict_bytes) {
                let mut w = String::from_str("connection matrix dict decode failed: ");
                w.append(detail.as_str());
                return Err(SudachiError::InvalidData(w));
            }
        }
        let data = vec![0i16; BLOCK_SIZE * num_left];
        let m = ConnectionMatrix {
            buf,
            offset,
            num_left,
            num_right,
            num_col_blocks,
            dict_start,
            dict_size,
            index_start,
            data_start,
            kind: CompressionKind::Zstd,
            cache: StripeCache { row_block: usize::MAX, data },
        };
        let consumed = max_data_end - offset;
        proof {
            lemma_max_end_bounds(b, off, num_blocks as int);
        }
        Ok((m, consumed))
    }

    fn load_row_stripe(&mut self, row_block: usize)
        requires
            old(self).is_compressed(),
            mczb_stripe_ok(old(self).buf@, old(self).offset as int, row_block as int),
        ensures
            final(self).cache.row_block == row_block,
            final(self).buf == old(self).buf,
            final(self).offset == old(self).offset,
            final(self).num_left == old(self).num_left,
            final(self).num_right == old(self).num_right,
            final(self).kind == old(self).kind,
            forall|local: int, c: int|
                0 <= local < 256 && row_block * 256 + local < final(self).num_right && 0 <= c
                    < final(self).num_left ==> #[trigger] final(self).cache.data@[local
                    * final(self).num_left + c] == mczb_cell(
                    final(self).buf@,
                    final(self).offset as int,
                    c,
                    row_block * 256 + local,
                ),
    {
        proof {
            use_type_invariant(&*self);
        }
        let buf = self.buf;
        let ghost b = buf@;
        let ghost off = self.offset as int;
        let nl = self.num_left;
        let ncb = self.num_col_blocks;
        let bs = BLOCK_SIZE;
        let row_start = row_block * bs;
        let row_end = if row_start + bs < self.num_right {
            row_start + bs
        } else {
            self.num_right
        };
        let actual_rows = row_end - row_start;
        assert(actual_rows * nl <= 256 * nl) by (nonlinear_arith)
            requires
                actual_rows <= 256,
        ;
        let mut i: usize = 0;
        while i < actual_rows * nl
            invariant
                self.inv(),
                self.cache.data@.len() == 256 * nl,
                nl == self.num_left,
                actual_rows * nl <= 256 * nl,
                i <= actual_rows * nl,
                forall|j: int| 0 <= j < i ==> #[trigger] self.cache.data@[j] == 0,
                self.buf == buf,
                self.offset == off,
                self.kind == CompressionKind::Zstd,
                self.num_right == old(self).num_right,
                self.cache.row_block == old(self).cache.row_block,
            decreases actual_rows * nl - i,
        {
            self.cache.data[i] = 0;
            i = i + 1;
        }
        assert(stripe_progress(self.cache.data@, nl as int, b, off, row_block as int, actual_rows as int, 0, 0, 0)) by {
            assert forall|local: int, c: int|
                0 <= local < actual_rows && 0 <= c < nl implies #[trigger] self.cache.data@[local
                * nl + c] == 0 by {
                assert(0 <= local * nl + c < actual_rows * nl) by (nonlinear_arith)
                    requires
                        0 <= local < actual_rows,
                        0 <= c < nl,
                ;
            }
        }
        let dict = slice_subrange(buf, self.dict_start, self.dict_start + self.dict_size);
        let blen = buf.len();
        let mut cb: usize = 0;
        while cb < ncb
            invariant
                self.inv(),
                self.cache.data@.len() == 256 * nl,
                nl == self.num_left,
                ncb == self.num_col_blocks,
                self.buf == buf,
                b == buf@,
                self.offset == off,
                self.kind == CompressionKind::Zstd,
                self.num_right == old(self).num_right,
                self.cache.row_block == old(self).cache.row_block,
                dict@ == mczb_dict(b, off),
                ncb == mczb_col_blocks(b, off),
                ncb == (nl + 255) / 256,
                nl <= 65535,
                b.len() <= usize::MAX,
                mczb_stripe_ok(b, off, row_block as int),
                row_start == row_block * 256,
                actual_rows <= 256,
                row_start + actual_rows <= self.num_right,
                actual_rows == if row_start + 256 < self.num_right {
                    256
                } else {
                    self.num_right - row_start
                },
                cb <= ncb,
                stripe_progress(self.cache.data@, nl as int, b, off, row_block as int, actual_rows as int, cb as int, 0, 0),
            decreases ncb - cb,
        {
            let ghost blk = row_block * ncb + cb;
            assert(mczb_block_ok(b, off, (row_block * ncb + cb) as int));
            assert(row_block * ncb + cb <= usize::MAX);
            let blk_idx = row_block * ncb + cb;
            let idx_off = self.index_start + blk_idx * 8;
            let blk_offset = read_u32(buf, idx_off) as usize;
            let blk_size = read_u32(buf, idx_off + 4) as usize;
            let abs_offset = self.data_start + blk_offset;
            let compressed = slice_subrange(buf, abs_offset, abs_offset + blk_size);
            assert(compressed@ == mczb_block_bytes(b, off, blk as int));
            let decompressed = match decode_frame(dict, compressed) {
                Ok(d) => d,
                Err(_) => {
                    assert(false);
                    Vec::new()
                },
            };
            let ghost content = decompressed@;
            assert(content == mczb_block_content(b, off, blk as int));
            assert(cb * 256 < nl) by (nonlinear_arith)
                requires
                    cb < ncb,
                    ncb == (nl + 255) / 256,
            ;
            let col_start = cb * BLOCK_SIZE;
            let col_end = if col_start + BLOCK_SIZE < nl {
                col_start + BLOCK_SIZE
            } else {
                nl
            };
            let ghost width = (col_end - col_start) as int;
            assert(width == mczb_block_width(nl as int, cb as int));
            let mut src: usize = 0;
            let mut local_r: usize = 0;
            while local_r < actual_rows
                invariant
                    self.inv(),
                    self.cache.data@.len() == 256 * nl,
                    nl == self.num_left,
                    self.buf == buf,
                    b == buf@,
                    self.offset == off,
                    self.kind == CompressionKind::Zstd,
                    self.num_right == old(self).num_right,
                    self.cache.row_block == old(self).cache.row_block,
                    actual_rows <= 256,
                    cb < ncb,
                    ncb == mczb_col_blocks(b, off),
                    blk == row_block * ncb + cb,
                    content == decompressed@,
                    content == mczb_block_content(b, off, blk as int),
                    col_start == cb * 256,
                    col_start < nl,
                    col_end == col_start + width,
                    col_end <= nl,
                    width == mczb_block_width(nl as int, cb as int),
                    local_r <= actual_rows,
                    src == local_r * width * 2,
                    stripe_progress(self.cache.data@, nl as int, b, off, row_block as int, actual_rows as int,
                        cb as int,
                        local_r as int,
                        col_start as int,
                    ),
                decreases actual_rows - local_r,
            {
                let mut c = col_start;
                while c < col_end
                    invariant
                        self.inv(),
                        self.cache.data@.len() == 256 * nl,
                        nl == self.num_left,
                        self.buf == buf,
                        b == buf@,
                        self.offset == off,
                        self.kind == CompressionKind::Zstd,
                        self.num_right == old(self).num_right,
                        self.cache.row_block == old(self).cache.row_block,
                        actual_rows <= 256,
                        local_r < actual_rows,
                        ncb == mczb_col_blocks(b, off),
                        blk == row_block * ncb + cb,
                        content == decompressed@,
                        content == mczb_block_content(b, off, blk as int),
                        col_start == cb * 256,
                        col_end == col_start + width,
                        col_end <= nl,
                        width == mczb_block_width(nl as int, cb as int),
                        col_start <= c <= col_end,
                        src == (local_r * width + (c - col_start)) * 2,
                        stripe_progress(self.cache.data@, nl as int, b, off, row_block as int, actual_rows as int,
                            cb as int,
                            local_r as int,
                            c as int,
                        ),
                    decreases col_end - c,
                {
                    assert(local_r * nl + c < 256 * nl) by (nonlinear_arith)
                        requires
                            local_r < 256,
                            c < nl,
                    ;
                    assert(src <= 2 * 256 * 256) by (nonlinear_arith)
                        requires
                            src == (local_r * width + (c - col_start)) * 2,
                            local_r < 256,
                            0 <= c - col_start < width,
                            width <= 256,
                    ;
                    let ghost before = self.cache.data@;
                    assert(stripe_progress(
                        before,
                        nl as int,
                        b,
                        off,
                        row_block as int,
                        actual_rows as int,
                        cb as int,
                        local_r as int,
                        c as int,
                    ));
                    let ghost value = mczb_cell(b, off, c as int, row_block * 256 + local_r);
                    proof {
                        lemma_cell_in_block(b, off, row_block as int, local_r as int, c as int);
                        assert(c / 256 == cb as int);
                    }
                    if src + 2 <= decompressed.len() {
                        let v = read_i16(decompressed.as_slice(), src);
                        self.cache.data[local_r * nl + c] = v;
                    }
                    proof {
                        assert(self.cache.data@ == before.update(local_r * nl + c, value));
                        assert forall|local: int, c2: int|
                            #![trigger self.cache.data@[local * self.num_left + c2]]
                            0 <= local < actual_rows && 0 <= c2 < nl implies self.cache.data@[local
                            * nl + c2] == if c2 / 256 < cb || (c2 / 256 == cb && (local < local_r
                            || (local == local_r && c2 < c + 1))) {
                            mczb_cell(b, off, c2, row_block * 256 + local)
                        } else {
                            0
                        } by {
                            if local * nl + c2 == local_r * nl + c {
                                lemma_row_index_unique(
                                    nl as int,
                                    local,
                                    c2,
                                    local_r as int,
                                    c as int,
                                );
                            } else {
                                assert(0 <= local * nl + c2 < 256 * nl) by (nonlinear_arith)
                                    requires
                                        0 <= local < 256,
                                        0 <= c2 < nl,
                                ;
                                assert(self.cache.data@[local * nl + c2] == before[local * nl + c2]);
                            }
                        }
                    }
                    src = src + 2;
                    c = c + 1;
                }
                assert forall|local: int, c2: int|
                    #![trigger self.cache.data@[local * self.num_left + c2]]
                    0 <= local < actual_rows && 0 <= c2 < nl implies self.cache.data@[local * nl
                    + c2] == if c2 / 256 < cb || (c2 / 256 == cb && (local < local_r + 1 || (local
                    == local_r + 1 && c2 < col_start))) {
                    mczb_cell(b, off, c2, row_block * 256 + local)
                } else {
                    0
                } by {
                    if c2 / 256 == cb as int {
                        assert(col_start <= c2 < col_end);
                    }
                }
                assert(src == (local_r + 1) * width * 2) by (nonlinear_arith)
                    requires
                        src == (local_r * width + (col_end - col_start)) * 2,
                        col_end - col_start == width,
                ;
                local_r = local_r + 1;
            }
            assert forall|local: int, c2: int|
                #![trigger self.cache.data@[local * self.num_left + c2]]
                0 <= local < actual_rows && 0 <= c2 < nl implies self.cache.data@[local * nl + c2]
                == if c2 / 256 < cb + 1 {
                mczb_cell(b, off, c2, row_block * 256 + local)
            } else {
                0
            } by {}
            cb = cb + 1;
        }
        self.cache.row_block = row_block;
        assert forall|local: int, c: int|
            0 <= local < 256 && row_block * 256 + local < self.num_right && 0 <= c
                < self.num_left implies #[trigger] self.cache.data@[local * self.num_left + c]
            == mczb_cell(self.buf@, self.offset as int, c, row_block * 256 + local) by {
            assert(local < actual_rows);
            assert(c / 256 < ncb);
        }
    }

    /// Cell (`l`, `r`) is the one that an update of (`left`, `right`)
    /// writes: the same position of the flat matrix, or of the stripe of
    /// `right` for a compressed one.
    pub closed spec fn update_target(&self, left: int, right: int, l: int, r: int) -> bool {
        if self.kind == CompressionKind::Uncompressed {
            r * self.num_left + l == right * self.num_left + left
        } else {
            r / 256 == right / 256 && (r % 256) * self.num_left + l == (right % 256)
                * self.num_left + left
        }
    }

    /// The connection cost of a word with right id `left` followed by a word
    /// with left id `right`.
    pub fn cost(&mut self, left: u16, right: u16) -> (res: i16)
        requires
            (left as int) < old(self).left_count(),
            (right as int) < old(self).right_count(),
            old(self).row_loadable(right as int),
        ensures
            res == old(self).cell(left as int, right as int),
            final(self).left_count() == old(self).left_count(),
            final(self).right_count() == old(self).right_count(),
            final(self).is_compressed() == old(self).is_compressed(),
            forall|r: int| #[trigger]
                final(self).row_loadable(r) == old(self).row_loadable(r),
            forall|r: int| #[trigger]
                final(self).row_returns(r) == old(self).row_returns(r),
            forall|l: int, r: int|
                0 <= l < old(self).left_count() && 0 <= r < old(self).right_count()
                    ==> #[trigger] final(self).stored(l, r) == old(self).stored(l, r),
            forall|l: int, r: int|
                0 <= l < old(self).left_count() && 0 <= r < old(self).right_count()
                    ==> #[trigger] final(self).cell(l, r) == old(self).cell_after_lookup(
                    right as int,
                    l,
                    r,
                ),
            final(self).cached_stripe() == if old(self).is_compressed() {
                right as int / 256
            } else {
                -1
            },
            old(self).consistent() ==> final(self).consistent(),
    {
        proof {
            use_type_invariant(&*self);
        }
        let uleft = left as usize;
        let uright = right as usize;
        match self.kind {
            CompressionKind::Uncompressed => {
                let len = self.cache.data.len();
                assert(uright * self.num_left + uleft < self.num_left * self.num_right)
                    by (nonlinear_arith)
                    requires
                        uleft < self.num_left,
                        uright < self.num_right,
                ;
                let index = uright * self.num_left + uleft;
                self.cache.data[index]
            },
            CompressionKind::Zstd => {
                let row_block = uright / BLOCK_SIZE;
                let local_row = uright % BLOCK_SIZE;
                let ghost prev = *self;
                if self.cache.row_block != row_block {
                    self.load_row_stripe(row_block);
                }
                proof {
                    use_type_invariant(&*self);
                    assert forall|l: int, r: int|
                        0 <= l < prev.left_count() && 0 <= r < prev.right_count() implies {
                        &&& #[trigger] self.stored(l, r) == prev.stored(l, r)
                        &&& self.cell(l, r) == prev.cell_after_lookup(right as int, l, r)
                    } by {
                        if r / 256 == row_block as int {
                            lemma_cell_in_block(self.buf@, self.offset as int, row_block as int, r % 256, l);
                            assert(r == row_block * 256 + r % 256);
                        }
                    }
                    if prev.consistent() {
                        assert forall|l: int, r: int|
                            0 <= l < self.left_count() && 0 <= r < self.right_count() implies
                            #[trigger] self.cell(l, r) == self.stored(l, r) by {
                            assert(prev.cell(l, r) == prev.stored(l, r));
                        }
                    }
                }
                assert(local_row * self.num_left + uleft < 256 * self.num_left) by (nonlinear_arith)
                    requires
                        local_row < 256,
                        uleft < self.num_left,
                ;
                let index = local_row * self.num_left + uleft;
                proof {
                    lemma_cell_in_block(self.buf@, self.offset as int, row_block as int, local_row as int, uleft as int);
                }
                self.cache.data[index]
            },
        }
    }

    /// The cost for (`left`, `right`), or `None` when either id is out of
    /// range or the stripe of `right` cannot be decompressed.
    pub fn try_cost(&mut self, left: u16, right: u16) -> (res: Option<i16>)
        requires
            (right as int) < old(self).right_count() ==> old(self).row_returns(right as int),
        ensures
            res is Some <==> ((left as int) < old(self).left_count() && (right as int)
                < old(self).right_count() && old(self).row_loadable(right as int)),
            res matches Some(v) ==> v == old(self).cell(left as int, right as int),
            final(self).left_count() == old(self).left_count(),
            final(self).right_count() == old(self).right_count(),
            final(self).is_compressed() == old(self).is_compressed(),
            forall|r: int| #[trigger]
                final(self).row_loadable(r) == old(self).row_loadable(r),
            forall|r: int| #[trigger]
                final(self).row_returns(r) == old(self).row_returns(r),
            forall|l: int, r: int|
                0 <= l < old(self).left_count() && 0 <= r < old(self).right_count()
                    ==> #[trigger] final(self).stored(l, r) == old(self).stored(l, r),
            forall|l: int, r: int|
                0 <= l < old(self).left_count() && 0 <= r < old(self).right_count()
                    ==> #[trigger] final(self).cell(l, r) == if res is Some {
                    old(self).cell_after_lookup(right as int, l, r)
                } else {
                    old(self).cell(l, r)
                },
            old(self).consistent() ==> final(self).consistent(),
    {
        if (left as usize) < self.num_left && (right as usize) < self.num_right {
            if self.row_decodes(right) {
                let v = self.cost(left, right);
                return Some(v);
            }
        }
        None
    }

    /// Whether row `right` can be looked up: for a compressed matrix, every
    /// block of its stripe lies in the buffer and decompresses. The blocks
    /// must be frames on which the zstd decoder returns; on others it may
    /// panic.
    pub fn row_decodes(&self, right: u16) -> (res: bool)
        requires
            self.row_returns(right as int),
        ensures
            res == self.row_loadable(right as int),
    {
        proof {
            use_type_invariant(self);
        }
        if let CompressionKind::Uncompressed = self.kind {
            return true;
        }
        let buf = self.buf;
        let ghost b = buf@;
        let ghost off = self.offset as int;
        let row_block = right as usize / BLOCK_SIZE;
        if row_block * BLOCK_SIZE >= self.num_right {
            return false;
        }
        assert(row_block == right / 256);
        let ncb = self.num_col_blocks;
        let dict = slice_subrange(buf, self.dict_start, self.dict_start + self.dict_size);
        let blen = buf.len();
        assert(ncb <= 256);
        assert(ncb * 256 < 65536 + 256);
        let mut cb: usize = 0;
        while cb < ncb
            invariant
                self.inv(),
                buf == self.buf,
                b == buf@,
                blen == b.len(),
                off == self.offset,
                self.kind == CompressionKind::Zstd,
                ncb == mczb_col_blocks(b, off),
                ncb <= 256,
                row_block <= 255,
                row_block == right as int / 256,
                dict@ == mczb_dict(b, off),
                cb <= ncb,
                mczb_stripe_returns(b, off, row_block as int),
                forall|k: int| 0 <= k < cb ==> #[trigger] mczb_block_ok(b, off, row_block * ncb + k),
            decreases ncb - cb,
        {
            assert(row_block * ncb + cb <= 65536) by (nonlinear_arith)
                requires
                    row_block <= 255,
                    ncb <= 256,
                    cb < ncb,
            ;
            let blk_idx = row_block * ncb + cb;
            let idx_off = match (blk_idx * 8).checked_add(self.index_start) {
                Some(v) => v,
                None => {
                    assert(!mczb_block_ok(
                        b,
                        off,
                        (right as int / 256) * mczb_col_blocks(b, off) + cb,
                    ));
                    return false;
                },
            };
            if idx_off > blen || blen - idx_off < 8 {
                assert(!mczb_block_ok(
                    b,
                    off,
                    (right as int / 256) * mczb_col_blocks(b, off) + cb,
                ));
                return false;
            }
            let blk_offset = read_u32(buf, idx_off) as usize;
            let blk_size = read_u32(buf, idx_off + 4) as usize;
            let abs_offset = match self.data_start.checked_add(blk_offset) {
                Some(v) => v,
                None => {
                    assert(!mczb_block_ok(
                        b,
                        off,
                        (right as int / 256) * mczb_col_blocks(b, off) + cb,
                    ));
                    return false;
                },
            };
            if abs_offset > blen || blen - abs_offset < blk_size {
                assert(!mczb_block_ok(
                    b,
                    off,
                    (right as int / 256) * mczb_col_blocks(b, off) + cb,
                ));
                return false;
            }
            let compressed = slice_subrange(buf, abs_offset, abs_offset + blk_size);
            assert(compressed@ == mczb_block_bytes(b, off, row_block * ncb + cb));
            assert(mczb_block_returns(b, off, row_block * ncb + cb));
            match decode_frame(dict, compressed) {
                Ok(_) => {},
                Err(_) => {
                    assert(!mczb_block_ok(
                        b,
                        off,
                        (right as int / 256) * mczb_col_blocks(b, off) + cb,
                    ));
                    return false;
                },
            }
            cb = cb + 1;
        }
        true
    }

    /// Set the connection cost of (`left`, `right`) to `value`. For a
    /// compressed matrix, the value lives in the stripe held in memory and is
    /// lost when another stripe is loaded.
    pub fn update(&mut self, left: u16, right: u16, value: i16)
        requires
            !old(self).is_compressed() ==> right * old(self).left_count() + left <= usize::MAX,
            old(self).is_compressed() ==> old(self).row_loadable(right as int),
        ensures
            final(self).left_count() == old(self).left_count(),
            final(self).right_count() == old(self).right_count(),
            final(self).is_compressed() == old(self).is_compressed(),
            forall|r: int| #[trigger]
                final(self).row_loadable(r) == old(self).row_loadable(r),
            forall|r: int| #[trigger]
                final(self).row_returns(r) == old(self).row_returns(r),
            forall|l: int, r: int|
                0 <= l < old(self).left_count() && 0 <= r < old(self).right_count() ==> {
                    &&& #[trigger] final(self).cell(l, r) == if old(self).update_target(
                        left as int,
                        right as int,
                        l,
                        r,
                    ) {
                        value
                    } else {
                        old(self).cell_after_lookup(right as int, l, r)
                    }
                    &&& !old(self).is_compressed() ==> final(self).stored(l, r) == final(self).cell(l, r)
                    &&& old(self).is_compressed() ==> final(self).stored(l, r) == old(self).stored(l, r)
                },
            (left as int) < old(self).left_count() && (right as int) < old(self).right_count()
                ==> final(self).cell(left as int, right as int) == value,
    {
        proof {
            use_type_invariant(&*self);
        }
        let ghost prev = *self;
        match self.kind {
            CompressionKind::Uncompressed => {
                let index = right as usize * self.num_left + left as usize;
                if index < self.cache.data.len() {
                    self.cache.data[index] = value;
                }
                proof {
                    assert forall|l: int, r: int|
                        0 <= l < prev.left_count() && 0 <= r < prev.right_count() implies
                        #[trigger] self.cell(l, r) == if prev.update_target(
                        left as int,
                        right as int,
                        l,
                        r,
                    ) {
                        value
                    } else {
                        prev.cell_after_lookup(right as int, l, r)
                    } by {
                        assert(0 <= r * prev.num_left + l < prev.num_left * prev.num_right)
                            by (nonlinear_arith)
                            requires
                                0 <= l < prev.num_left,
                                0 <= r < prev.num_right,
                        ;
                    }
                }
            },
            CompressionKind::Zstd => {
                let uleft = left as usize;
                let uright = right as usize;
                let row_block = uright / BLOCK_SIZE;
                let local_row = uright % BLOCK_SIZE;
                if self.cache.row_block != row_block {
                    self.load_row_stripe(row_block);
                }
                let ghost mid = *self;
                proof {
                    use_type_invariant(&*self);
                    assert forall|l: int, r: int|
                        0 <= l < prev.left_count() && 0 <= r < prev.right_count() implies
                        #[trigger] mid.cell(l, r) == prev.cell_after_lookup(right as int, l, r) by {
                        if r / 256 == row_block as int {
                            lemma_cell_in_block(mid.buf@, mid.offset as int, row_block as int, r % 256, l);
                            assert(r == row_block * 256 + r % 256);
                        }
                    }
                }
                assert(local_row * self.num_left + uleft <= 256 * 65535 + 65535) by (nonlinear_arith)
                    requires
                        local_row < 256,
                        self.num_left <= 65535,
                        uleft <= 65535,
                ;
                let index = local_row * self.num_left + uleft;
                if index < self.cache.data.len() {
                    self.cache.data[index] = value;
                }
                proof {
                    assert forall|l: int, r: int|
                        0 <= l < prev.left_count() && 0 <= r < prev.right_count() implies
                        #[trigger] self.cell(l, r) == if prev.update_target(
                        left as int,
                        right as int,
                        l,
                        r,
                    ) {
                        value
                    } else {
                        prev.cell_after_lookup(right as int, l, r)
                    } by {
                        assert(0 <= (r % 256) * prev.num_left + l < 256 * prev.num_left)
                            by (nonlinear_arith)
                            requires
                                0 <= l < prev.num_left,
                                0 <= r,
                        ;
                        assert(mid.cell(l, r) == prev.cell_after_lookup(right as int, l, r));
                    }
                }
            },
        }
    }

    pub fn num_left(&self) -> (res: usize)
        ensures
            res == self.left_count(),
    {
        self.num_left
    }

    pub fn num_right(&self) -> (res: usize)
        ensures
            res == self.right_count(),
    {
        self.num_right
    }
}

} // verus!
