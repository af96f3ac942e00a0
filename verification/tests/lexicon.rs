use sudachi::dic::lexicon::{compute_word_infos_size, trie_array_parser, u32_parser_offset, LexiconEntry, MAX_DICTIONARIES};
use sudachi::dic::lexicon_set::{combined_word_info, update_dict_id};
use sudachi::dic::lexicon::word_infos::WordInfoData;
use sudachi::dic::word_id::WordId;
use sudachi::error::{LexiconSetError, SudachiError};

#[test]
fn lexicon_entry_holds_its_fields() {
    let e = LexiconEntry::new(WordId::new(1, 5), 9);
    assert_eq!(e, LexiconEntry { word_id: WordId::new(1, 5), end: 9 });
    assert_eq!(MAX_DICTIONARIES, 15);
}

#[test]
fn u32_parser_reads_little_endian() {
    let buf = [9u8, 1, 2, 3, 4, 5];
    let (rest, v) = u32_parser_offset(&buf, 1).unwrap();
    assert_eq!(v, 0x0403_0201);
    assert_eq!(rest, &[5u8]);
    assert!(u32_parser_offset(&buf, 3).is_none());
    assert!(u32_parser_offset(&buf, 9).is_none());
}

#[test]
fn trie_array_bounds() {
    let buf = [0u8; 10];
    assert_eq!(trie_array_parser(&buf, 2, 2).ok().unwrap().len(), 8);
    match trie_array_parser(&buf, 4, 2) {
        Err(SudachiError::InvalidRange(a, b)) => assert_eq!((a, b), (4, 12)),
        _ => panic!("expected a range error"),
    }
}

#[test]
fn word_infos_size_of_block_section() {
    let mut buf = vec![0xEEu8; 2];
    buf.extend_from_slice(&0x4D57_4942u32.to_le_bytes());
    buf.extend_from_slice(&0u32.to_le_bytes());
    buf.extend_from_slice(&1u16.to_le_bytes());
    buf.extend_from_slice(&2u32.to_le_bytes()); // blocks
    buf.extend_from_slice(&3u32.to_le_bytes()); // dictionary size
    buf.extend_from_slice(&[0, 0, 0]);
    buf.extend_from_slice(&[0u8; 8]); // two record offsets
    buf.extend_from_slice(&0u32.to_le_bytes());
    buf.extend_from_slice(&5u32.to_le_bytes());
    buf.extend_from_slice(&5u32.to_le_bytes());
    buf.extend_from_slice(&7u32.to_le_bytes());
    // 18 + 3 + 2 * 4 + 2 * 8 + (5 + 7)
    assert_eq!(compute_word_infos_size(&buf, 2, 2), Some(57));
    assert_eq!(compute_word_infos_size(&buf, 0, 2), None);
    assert_eq!(compute_word_infos_size(&buf, buf.len() - 2, 2), None);
}

#[test]
fn update_dict_id_moves_user_ids() {
    let mut split = vec![WordId::new(0, 3), WordId::new(2, 4)];
    assert!(update_dict_id(&mut split, 5).is_ok());
    assert_eq!(split, vec![WordId::new(0, 3), WordId::new(5, 4)]);

    let mut system_only = vec![WordId::new(0, 1)];
    assert!(update_dict_id(&mut system_only, 20).is_ok());

    let mut split = vec![WordId::new(0, 3), WordId::new(2, 4)];
    match update_dict_id(&mut split, 16) {
        Err(SudachiError::LexiconSetError(e)) => {
            assert_eq!(e, LexiconSetError::TooLargeDictionaryId(16))
        }
        _ => panic!("expected a lexicon set error"),
    }
    assert_eq!(split, vec![WordId::new(0, 3), WordId::new(2, 4)]);
}

#[test]
fn combined_word_info_moves_user_pos() {
    let mut data = WordInfoData::default();
    data.pos_id = 12;
    data.a_unit_split = vec![WordId::new(1, 2)];
    assert!(combined_word_info(&mut data, 3, 10, 100).is_ok());
    assert_eq!(data.pos_id, 102);
    assert_eq!(data.a_unit_split, vec![WordId::new(3, 2)]);

    let mut sys = WordInfoData::default();
    sys.pos_id = 12;
    assert!(combined_word_info(&mut sys, 0, 10, 100).is_ok());
    assert_eq!(sys.pos_id, 12);
}

#[test]
fn lexicon_set_error_messages() {
    assert_eq!(LexiconSetError::TooLargeWordId(7, 2).message(), "too large word_id 7 in dict 2");
    assert_eq!(LexiconSetError::TooLargeDictionaryId(16).message(), "too large dictionary_id 16");
    assert_eq!(LexiconSetError::TooManyDictionaries.message(), "too many user dictionaries");
}

#[test]
fn sudachi_error_messages() {
    assert_eq!(SudachiError::InvalidRange(3, 120).message(), "invalid range: 3..120");
    assert_eq!(SudachiError::InvalidRange(0, 0).message(), "invalid range: 0..0");
    assert_eq!(
        SudachiError::LexiconSetError(LexiconSetError::TooManyDictionaries).message(),
        "too many user dictionaries"
    );
    assert_eq!(
        SudachiError::DictionaryCompilationError("<marisa-trie>".into()).message(),
        "dictionary build failed: <marisa-trie>"
    );
}
