use sudachi::dic::lexicon::word_infos::{WordInfo, WordInfoData, WordInfos};
use sudachi::error::SudachiError;

#[test]
fn rejects_vbyte_word_infos() {
    let bytes = 0x4D57_5642u32.to_le_bytes();
    let err = WordInfos::new(&bytes, 0, 0, false).err().unwrap();
    assert!(err
        .message()
        .contains("VByte-encoded word infos are no longer supported"));
}

fn block_section() -> Vec<u8> {
    let block0 = zstd::bulk::compress(b"AAAABBBB", 3).unwrap();
    let block1 = zstd::bulk::compress(b"CC", 3).unwrap();
    let mut buf = Vec::new();
    buf.extend_from_slice(&0x4D57_4942u32.to_le_bytes());
    buf.extend_from_slice(&3u32.to_le_bytes()); // words
    buf.extend_from_slice(&2u16.to_le_bytes()); // records per block
    buf.extend_from_slice(&2u32.to_le_bytes()); // blocks
    buf.extend_from_slice(&0u32.to_le_bytes()); // no dictionary
    for off in [0u32, 4, 0] {
        buf.extend_from_slice(&off.to_le_bytes());
    }
    buf.extend_from_slice(&0u32.to_le_bytes());
    buf.extend_from_slice(&(block0.len() as u32).to_le_bytes());
    buf.extend_from_slice(&(block0.len() as u32).to_le_bytes());
    buf.extend_from_slice(&(block1.len() as u32).to_le_bytes());
    buf.extend_from_slice(&block0);
    buf.extend_from_slice(&block1);
    buf
}

#[test]
fn block_records_are_found_in_their_blocks() {
    let buf = block_section();
    let mut infos = WordInfos::new(&buf, 0, 0, true).ok().unwrap();
    assert_eq!(infos.block_record(1).ok().unwrap(), b"BBBB".to_vec());
    assert_eq!(infos.block_record(2).ok().unwrap(), b"CC".to_vec());
    assert_eq!(infos.block_record(0).ok().unwrap(), b"AAAABBBB".to_vec());
    match infos.block_record(4) {
        Err(SudachiError::InvalidRange(a, b)) => assert_eq!((a, b), (2, 2)),
        _ => panic!("expected a range error"),
    }
}

#[test]
fn truncated_block_header_is_a_range_error() {
    let bytes = 0x4D57_4942u32.to_le_bytes();
    match WordInfos::new(&bytes, 0, 0, false) {
        Err(SudachiError::InvalidRange(a, b)) => assert_eq!((a, b), (4, 8)),
        _ => panic!("expected a range error"),
    }
    let mut buf = block_section();
    buf.truncate(16);
    match WordInfos::new(&buf, 0, 0, false) {
        Err(SudachiError::InvalidRange(a, b)) => assert_eq!((a, b), (14, 18)),
        _ => panic!("expected a dictionary range error"),
    }
}

#[test]
fn bad_block_dictionary_is_refused() {
    let mut buf = Vec::new();
    buf.extend_from_slice(&0x4D57_4942u32.to_le_bytes());
    buf.extend_from_slice(&0u32.to_le_bytes());
    buf.extend_from_slice(&1u16.to_le_bytes());
    buf.extend_from_slice(&0u32.to_le_bytes());
    buf.extend_from_slice(&4u32.to_le_bytes());
    buf.extend_from_slice(&[1, 2, 3, 4]);
    let err = WordInfos::new(&buf, 0, 0, false).err().unwrap();
    assert_eq!(err.message(), "word_infos dict decode failed: NotEnoughBytes");
}

#[test]
fn plain_section_is_accepted() {
    let buf = vec![0u8; 8];
    assert!(WordInfos::new(&buf, 2, 17, false).is_ok());
    assert!(WordInfos::new(&buf, 7, 17, false).is_ok());
}

#[test]
fn word_info_forms_fall_back_to_surface() {
    let mut data = WordInfoData::default();
    data.surface = "東京".into();
    data.pos_id = 3;
    let info = WordInfo::from_data(data);
    assert_eq!(info.surface(), "東京");
    assert_eq!(info.reading_form(), "東京");
    assert_eq!(info.dictionary_form(), "東京");
    assert_eq!(info.normalized_form(), "東京");
    assert_eq!(info.pos_id(), 3);
    let mut data: WordInfoData = info.into();
    data.reading_form = "トウキョウ".into();
    let info: WordInfo = data.into();
    assert_eq!(info.reading_form(), "トウキョウ");
}

#[test]
fn corrupt_block_names_the_failing_step() {
    let mut buf = block_section();
    let n = buf.len();
    let block1_len = zstd::bulk::compress(b"CC", 3).unwrap().len();
    buf[n - block1_len] ^= 0xff;
    let mut infos = WordInfos::new(&buf, 0, 0, true).ok().unwrap();
    let err = infos.block_record(2).err().unwrap();
    let text = err.message();
    assert!(text.starts_with("word_info block zstd init error: "), "{}", text);
    assert!(text.len() > "word_info block zstd init error: ".len());
    assert_eq!(infos.block_record(0).ok().unwrap(), b"AAAABBBB".to_vec());
}

#[test]
fn block_dictionary_error_carries_the_decoder_text() {
    let mut buf = Vec::new();
    buf.extend_from_slice(&0x4D57_4942u32.to_le_bytes());
    buf.extend_from_slice(&0u32.to_le_bytes());
    buf.extend_from_slice(&1u16.to_le_bytes());
    buf.extend_from_slice(&0u32.to_le_bytes());
    buf.extend_from_slice(&8u32.to_le_bytes());
    buf.extend_from_slice(&[1, 2, 3, 4, 5, 6, 7, 8]);
    let err = WordInfos::new(&buf, 0, 0, false).err().unwrap();
    assert_eq!(err.message(), "word_infos dict decode failed: BadMagicNum { got: [1, 2, 3, 4] }");
}
