//! The word-id table: lists of word ids, each a one-byte count followed by
//! that many little-endian u32 ids, found by their byte offset.

use vstd::prelude::*;

use crate::le::{le_u32, read_u32};

verus! {

/// The list of word ids stored at byte `start` of `b`.
pub open spec fn id_list(b: Seq<u8>, start: int) -> Seq<u32> {
    Seq::new(b[start] as nat, |k: int| le_u32(b, start + 1 + 4 * k) as u32)
}

/// The list at byte `start` lies in `b`.
pub open spec fn id_list_in_bounds(b: Seq<u8>, start: int) -> bool {
    0 <= start < b.len() && start + 1 + 4 * b[start] <= b.len()
}

/// The word-id table of `size` bytes that starts at `offset` of `bytes`.
pub struct WordIdTable<'a> {
    bytes: &'a [u8],
    size: u32,
    offset: usize,
}

impl<'a> WordIdTable<'a> {
    /// The bytes the table is read from.
    pub closed spec fn bytes(&self) -> Seq<u8> {
        self.bytes@
    }

    /// Where the table starts.
    pub closed spec fn start(&self) -> int {
        self.offset as int
    }

    /// The size of the table in bytes.
    pub closed spec fn size(&self) -> u32 {
        self.size
    }

    /// The list at `index` of the table lies in the buffer.
    pub open spec fn readable(&self, index: int) -> bool {
        id_list_in_bounds(self.bytes(), self.start() + index)
    }

    /// The word ids of the list at `index` of the table.
    pub open spec fn list(&self, index: int) -> Seq<u32> {
        id_list(self.bytes(), self.start() + index)
    }

    pub fn new(bytes: &'a [u8], size: u32, offset: usize) -> (res: WordIdTable<'a>)
        ensures
            res.bytes() == bytes@,
            res.size() == size,
            res.start() == offset,
    {
        WordIdTable { bytes, size, offset }
    }

    /// The bytes the table takes in a dictionary: its size field and itself.
    pub fn storage_size(&self) -> (res: usize)
        requires
            4 + self.size() <= usize::MAX,
        ensures
            res == 4 + self.size(),
    {
        4 + self.size as usize
    }

    /// The word ids of the list at byte `index` of the table.
    pub fn entries(&self, index: usize) -> (res: Vec<u32>)
        requires
            self.readable(index as int),
        ensures
            res@ == self.list(index as int),
    {
        let n = self.bytes.len();
        let start = self.offset + index;
        let cnt = self.bytes[start] as usize;
        let mut out: Vec<u32> = Vec::new();
        let mut k: usize = 0;
        while k < cnt
            invariant
                start == self.start() + index,
                n == self.bytes@.len(),
                id_list_in_bounds(self.bytes@, start as int),
                cnt == self.bytes@[start as int],
                k <= cnt,
                out@ =~= id_list(self.bytes@, start as int).take(k as int),
            decreases cnt - k,
        {
            out.push(read_u32(self.bytes, start + 1 + 4 * k));
            k = k + 1;
        }
        out
    }
}

} // verus!
