//! Word ids: a dictionary id in the top 4 bits and a word index in the low
//! 28 bits.

use vstd::prelude::*;

use crate::error::LexiconSetError;

verus! {

/// Mask of the word index part of a raw word id.
pub const WORD_MASK: u32 = 0x0fff_ffff;

/// Id of a word: the dictionary it comes from (0 is the system dictionary,
/// 15 marks out-of-vocabulary words) and its index in that dictionary.
#[derive(Clone, Copy, Debug, PartialEq, Eq, Structural)]
pub struct WordId {
    raw: u32,
}

impl WordId {
    /// The raw 32-bit value.
    pub closed spec fn raw_spec(&self) -> u32 {
        self.raw
    }

    /// The id that marks the end of sentence (all bits set).
    pub fn eos() -> (res: WordId)
        ensures
            res.raw_spec() == 0xffff_ffff,
    {
        WordId { raw: 0xffff_ffff }
    }

    /// The word id with raw value `raw`.
    pub fn from_raw(raw: u32) -> (res: WordId)
        ensures
            res.raw_spec() == raw,
    {
        WordId { raw }
    }

    /// The raw 32-bit value.
    pub fn as_raw(&self) -> (res: u32)
        ensures
            res == self.raw_spec(),
    {
        self.raw
    }

    /// The word `word` of dictionary `dic`.
    pub fn new(dic: u8, word: u32) -> (res: WordId)
        requires
            dic <= 15,
            word <= WORD_MASK,
        ensures
            res.raw_spec() == dic as int * 0x1000_0000 + word,
            res.dic_spec() == dic,
            res.word_spec() == word,
    {
        let raw = ((dic as u32) << 28) | word;
        assert(((dic as u32) << 28) | word == dic as u32 * 0x1000_0000 + word) by (bit_vector)
            requires
                dic <= 15,
                word <= 0x0fff_ffff,
        ;
        WordId { raw }
    }

    /// The dictionary part.
    pub open spec fn dic_spec(&self) -> u8 {
        (self.raw_spec() / 0x1000_0000) as u8
    }

    /// The word index part.
    pub open spec fn word_spec(&self) -> u32 {
        (self.raw_spec() % 0x1000_0000) as u32
    }

    /// The word `word` of dictionary `dic`, or the error that says which of
    /// the two does not fit.
    pub fn checked(dic: u8, word: u32) -> (res: Result<WordId, LexiconSetError>)
        ensures
            dic > 15 ==> res == Err::<WordId, LexiconSetError>(
                LexiconSetError::TooLargeDictionaryId(dic as usize),
            ),
            dic <= 15 && word > WORD_MASK ==> res == Err::<WordId, LexiconSetError>(
                LexiconSetError::TooLargeWordId(word, dic as usize),
            ),
            dic <= 15 && word <= WORD_MASK ==> (res matches Ok(w) && w.dic_spec() == dic
                && w.word_spec() == word),
    {
        if dic > 15 {
            return Err(LexiconSetError::TooLargeDictionaryId(dic as usize));
        }
        if word > WORD_MASK {
            return Err(LexiconSetError::TooLargeWordId(word, dic as usize));
        }
        Ok(WordId::new(dic, word))
    }

    /// The dictionary part.
    pub fn dic(&self) -> (res: u8)
        ensures
            res == self.dic_spec(),
    {
        let raw = self.raw;
        assert(raw >> 28 == raw / 0x1000_0000) by (bit_vector);
        (raw >> 28) as u8
    }

    /// The word index part.
    pub fn word(&self) -> (res: u32)
        ensures
            res == self.word_spec(),
    {
        let raw = self.raw;
        assert(raw & 0x0fff_ffff == raw % 0x1000_0000) by (bit_vector);
        raw & WORD_MASK
    }

    /// The word comes from no dictionary (dictionary part 15).
    pub fn is_oov(&self) -> (res: bool)
        ensures
            res == (self.dic_spec() == 15),
    {
        self.dic() == 15
    }
}

} // verus!
