use sudachi::dic::build::index::IndexBuilder;
use sudachi::dic::lexicon::reading_trie::ReadingTrie;
use sudachi::dic::lexicon::word_infos::{WordInfo, WordInfoData};
use sudachi::dic::lexicon_set::{common_prefix_by_reading, lookup_by_reading, lookup_by_reading_prefix};
use sudachi::dic::reading_index::{LexiconWords, ReadingIndex};
use sudachi::dic::word_id::WordId;

fn info(surface: &str, reading: &str) -> Option<WordInfo> {
    let mut data = WordInfoData::default();
    data.surface = surface.into();
    data.reading_form = reading.into();
    Some(WordInfo::from_data(data))
}

fn user_lexicon() -> LexiconWords {
    LexiconWords {
        has_reading_trie: false,
        words: vec![
            (WordId::new(1, 0), info("雨", "アメ")),
            (WordId::new(1, 1), info("飴", "あめ")),
            (WordId::new(1, 2), None),
            (WordId::new(1, 3), info("あまい", "")),
            (WordId::new(1, 4), info("天", "アマ")),
            (WordId::new(1, 5), info("亜", "ア")),
            (WordId::new(1, 6), info("イ", "イ")),
        ],
    }
}

fn system_lexicon() -> LexiconWords {
    LexiconWords { has_reading_trie: true, words: vec![(WordId::new(0, 9), info("雨", "アメ"))] }
}

fn ids(v: &[WordId]) -> Vec<u32> {
    v.iter().map(|w| w.word()).collect()
}

#[test]
fn reading_index_groups_words_by_katakana_reading() {
    let index = ReadingIndex::build(&[system_lexicon(), user_lexicon()]);
    // Hiragana readings are turned to katakana; an empty reading form falls
    // back to the surface; unreadable words and trie lexicons are left out.
    assert_eq!(ids(&index.lookup_exact("アメ")), vec![0, 1]);
    assert_eq!(ids(&index.lookup_exact("アマイ")), vec![3]);
    assert_eq!(ids(&index.lookup_exact("アマ")), vec![4]);
    assert!(index.lookup_exact("あめ").is_empty());
    assert!(index.lookup_exact("ウ").is_empty());
    assert!(index.lookup_exact("").is_empty());
}

#[test]
fn reading_index_prefix_lookup_follows_reading_order() {
    let index = ReadingIndex::build(&[user_lexicon()]);
    // ア < アマ < アマイ < アメ; イ does not start with ア.
    assert_eq!(ids(&index.lookup_prefix("ア")), vec![5, 4, 3, 0, 1]);
    assert_eq!(ids(&index.lookup_prefix("アマ")), vec![4, 3]);
    assert_eq!(ids(&index.lookup_prefix("")), vec![5, 4, 3, 0, 1, 6]);
    assert!(index.lookup_prefix("ウ").is_empty());
    assert!(ReadingIndex::build(&[]).lookup_prefix("").is_empty());
}

fn reading_trie_bytes() -> Vec<u8> {
    let mut bldr = IndexBuilder::new();
    bldr.add("アメ", WordId::new(0, 7));
    bldr.add("アマ", WordId::new(0, 8));
    let table = bldr.build_word_id_table().ok().unwrap();
    let trie = bldr.build_trie().ok().unwrap();
    let mut buf = Vec::new();
    buf.extend_from_slice(&0x5254_5249u32.to_le_bytes());
    buf.extend_from_slice(&trie);
    buf.extend_from_slice(&(table.len() as u32).to_le_bytes());
    buf.extend_from_slice(&table);
    buf
}

#[test]
fn lookups_by_reading_put_the_system_trie_first() {
    let buf = reading_trie_bytes();
    let (rt, _) = ReadingTrie::from_bytes(&buf, 0).ok().unwrap();
    let index = ReadingIndex::build(&[system_lexicon(), user_lexicon()]);
    let exact = lookup_by_reading(Some(&rt), &index, "アメ");
    assert_eq!(exact, vec![WordId::new(0, 7), WordId::new(1, 0), WordId::new(1, 1)]);
    let no_trie = lookup_by_reading(None, &index, "アメ");
    assert_eq!(no_trie, vec![WordId::new(1, 0), WordId::new(1, 1)]);
    let prefixed = lookup_by_reading_prefix(Some(&rt), &index, "アマ");
    assert_eq!(prefixed, vec![WordId::new(0, 8), WordId::new(1, 4), WordId::new(1, 3)]);
}

#[test]
fn common_prefix_by_reading_needs_the_trie() {
    let buf = reading_trie_bytes();
    let (rt, _) = ReadingTrie::from_bytes(&buf, 0).ok().unwrap();
    assert!(common_prefix_by_reading(None, "アメ".as_bytes(), 0).is_none());
    let found = common_prefix_by_reading(Some(&rt), "アメフラシ".as_bytes(), 0).unwrap();
    assert_eq!(found, vec![(6, vec![WordId::new(0, 7)])]);
    let later = common_prefix_by_reading(Some(&rt), "xアマ".as_bytes(), 1).unwrap();
    assert_eq!(later, vec![(7, vec![WordId::new(0, 8)])]);
}
