use sudachi::dic::build::index::IndexBuilder;
use sudachi::dic::lexicon::marisa_trie::{MarisaTrie, TrieEntry};
use sudachi::dic::lexicon::reading_trie::ReadingTrie;
use sudachi::dic::lexicon::try_load_reading_trie;
use sudachi::dic::lexicon::word_id_table::WordIdTable;
use sudachi::dic::word_id::WordId;
use sudachi::error::SudachiError;

#[test]
fn test_marisa_trie_build_and_lookup() {
    let entries = vec![("abc", 100u32), ("ab", 200), ("a", 300)];
    let trie = MarisaTrie::build(&entries).ok().unwrap();

    let input = b"abcdef";
    let results: Vec<TrieEntry> = trie.common_prefix_iterator(input, 0);
    assert_eq!(results.len(), 3);

    let mut ends: Vec<usize> = results.iter().map(|e| e.end).collect();
    ends.sort();
    assert_eq!(ends, vec![1, 2, 3]);

    for entry in &results {
        match entry.end {
            1 => assert_eq!(entry.value, 300),
            2 => assert_eq!(entry.value, 200),
            3 => assert_eq!(entry.value, 100),
            _ => panic!("unexpected end {}", entry.end),
        }
    }
}

#[test]
fn test_marisa_trie_serialize_roundtrip() {
    let entries = vec![("hello", 10u32), ("help", 20), ("he", 30)];
    let trie = MarisaTrie::build(&entries).ok().unwrap();

    let bytes = trie.to_bytes().ok().unwrap();
    let (trie2, consumed) = MarisaTrie::from_bytes(&bytes, 0).ok().unwrap();
    assert_eq!(consumed, bytes.len());

    let input = b"hello world";
    let r1: Vec<TrieEntry> = trie.common_prefix_iterator(input, 0);
    let r2: Vec<TrieEntry> = trie2.common_prefix_iterator(input, 0);
    assert_eq!(r1, r2);
}

#[test]
fn test_marisa_trie_with_offset() {
    let entries = vec![("abc", 100u32), ("ab", 200)];
    let trie = MarisaTrie::build(&entries).ok().unwrap();

    let input = b"xxxabc";
    let results: Vec<TrieEntry> = trie.common_prefix_iterator(input, 3);
    assert_eq!(results.len(), 2);

    let mut ends: Vec<usize> = results.iter().map(|e| e.end).collect();
    ends.sort();
    assert_eq!(ends, vec![5, 6]);
}

#[test]
fn build_index_marisa_1() {
    let mut bldr = IndexBuilder::new();
    bldr.add("test", WordId::new(0, 0));
    let _ = bldr.build_word_id_table().ok().unwrap();

    let trie_bytes = bldr.build_trie().ok().unwrap();
    let (trie, _) = MarisaTrie::from_bytes(&trie_bytes, 0).ok().unwrap();

    let results: Vec<TrieEntry> = trie.common_prefix_iterator(b"test", 0);
    assert_eq!(results.len(), 1);
    assert_eq!(results[0].value, 0);
    assert_eq!(results[0].end, 4);
}

#[test]
fn build_index_marisa_2() {
    let mut bldr = IndexBuilder::new();
    bldr.add("test", WordId::new(0, 0));
    bldr.add("tes", WordId::new(0, 1));
    let _ = bldr.build_word_id_table().ok().unwrap();

    let trie_bytes = bldr.build_trie().ok().unwrap();
    let (trie, _) = MarisaTrie::from_bytes(&trie_bytes, 0).ok().unwrap();

    let results: Vec<TrieEntry> = trie.common_prefix_iterator(b"test", 0);
    assert_eq!(results.len(), 2);

    let mut entries: Vec<(usize, u32)> = results.iter().map(|e| (e.end, e.value)).collect();
    entries.sort_by_key(|&(end, _)| end);
    assert_eq!(entries[0].0, 3);
    assert_eq!(entries[0].1, 5);
    assert_eq!(entries[1].0, 4);
    assert_eq!(entries[1].1, 0);
}

#[test]
fn common_prefix_matches_come_shortest_first() {
    let trie = MarisaTrie::build(&[("abc", 1u32), ("a", 2), ("ab", 3), ("b", 4)]).ok().unwrap();
    let ends: Vec<usize> = trie.common_prefix_iterator(b"abcd", 0).iter().map(|e| e.end).collect();
    assert_eq!(ends, vec![1, 2, 3]);
    assert!(trie.common_prefix_iterator(b"zz", 0).is_empty());
    assert!(trie.common_prefix_iterator(b"abc", 3).is_empty());
}

#[test]
fn repeated_key_keeps_last_offset() {
    let trie = MarisaTrie::build(&[("k", 1u32), ("k", 9)]).ok().unwrap();
    let r = trie.common_prefix_iterator(b"k", 0);
    assert_eq!(r, vec![TrieEntry::new(9, 1)]);
}

#[test]
fn truncated_serialized_trie_is_a_range_error() {
    let trie = MarisaTrie::build(&[("ab", 1u32)]).ok().unwrap();
    let bytes = trie.to_bytes().ok().unwrap();
    match MarisaTrie::from_bytes(&bytes[..2], 0) {
        Err(SudachiError::InvalidRange(a, b)) => assert_eq!((a, b), (0, 4)),
        _ => panic!("expected a range error"),
    }
    let short = &bytes[..bytes.len() - 1];
    assert!(MarisaTrie::from_bytes(short, 0).is_err());
}

#[test]
fn word_id_table_lists() {
    let bytes = [9u8, 2, 1, 0, 0, 0, 0xff, 0xff, 0xff, 0x7f, 0];
    let table = WordIdTable::new(&bytes, 10, 1);
    assert_eq!(table.storage_size(), 14);
    assert_eq!(table.entries(0), vec![1, 0x7fff_ffff]);
    assert_eq!(table.entries(9), Vec::<u32>::new());
}

#[test]
fn index_word_id_table_layout() {
    let mut bldr = IndexBuilder::new();
    bldr.add("b", WordId::new(0, 7));
    bldr.add("a", WordId::new(1, 2));
    bldr.add("b", WordId::new(0, 8));
    let table = bldr.build_word_id_table().ok().unwrap();
    assert_eq!(
        table,
        vec![2, 7, 0, 0, 0, 8, 0, 0, 0, 1, 2, 0, 0, 0x10]
    );
}

#[test]
fn index_trie_needs_the_table() {
    let mut bldr = IndexBuilder::new();
    bldr.add("key", WordId::new(0, 0));
    match bldr.build_trie() {
        Err(SudachiError::DictionaryCompilationError(w)) => assert_eq!(w, "entry key"),
        _ => panic!("expected a build error"),
    }
}

#[test]
fn index_too_many_ids_is_refused() {
    let mut bldr = IndexBuilder::new();
    for i in 0..256u32 {
        bldr.add("many", WordId::new(0, i));
    }
    match bldr.build_word_id_table() {
        Err(SudachiError::DictionaryCompilationError(w)) => {
            assert_eq!(w, "<word id table for `many` has too much entries>")
        }
        _ => panic!("expected a build error"),
    }
}

fn reading_trie_bytes() -> Vec<u8> {
    let mut bldr = IndexBuilder::new();
    bldr.add("アメ", WordId::new(0, 1));
    bldr.add("アメ", WordId::new(0, 2));
    bldr.add("アマ", WordId::new(0, 3));
    let table = bldr.build_word_id_table().ok().unwrap();
    let trie = bldr.build_trie().ok().unwrap();
    let mut buf = Vec::new();
    buf.extend_from_slice(&0x5254_5249u32.to_le_bytes());
    buf.extend_from_slice(&trie);
    buf.extend_from_slice(&(table.len() as u32).to_le_bytes());
    buf.extend_from_slice(&table);
    buf
}

#[test]
fn reading_trie_lookups() {
    let buf = reading_trie_bytes();
    let (rt, consumed) = ReadingTrie::from_bytes(&buf, 0).ok().unwrap();
    assert_eq!(consumed, buf.len());
    assert_eq!(rt.lookup_exact("アメ"), vec![1, 2]);
    assert_eq!(rt.lookup_exact("アマ"), vec![3]);
    assert!(rt.lookup_exact("ア").is_empty());
    let matches = rt.common_prefix_search("アメフラシ".as_bytes(), 0);
    assert_eq!(matches.len(), 1);
    assert_eq!(matches[0].end, 6);
    assert_eq!(matches[0].word_ids, vec![1, 2]);
    let mut prefixed = rt.lookup_prefix("ア");
    prefixed.sort();
    assert_eq!(
        prefixed,
        vec![("アマ".to_string(), vec![3]), ("アメ".to_string(), vec![1, 2])]
    );
}

#[test]
fn reading_trie_magic_is_checked() {
    let mut buf = reading_trie_bytes();
    buf[0] = 0;
    match ReadingTrie::from_bytes(&buf, 0) {
        Err(e) => assert_eq!(e.message(), "Expected RTRI magic"),
        Ok(_) => panic!("expected an error"),
    }
}

#[test]
fn reading_trie_after_block_word_infos() {
    let mut buf = Vec::new();
    buf.extend_from_slice(&0x4D57_4942u32.to_le_bytes());
    buf.extend_from_slice(&2u32.to_le_bytes());
    buf.extend_from_slice(&1u16.to_le_bytes());
    buf.extend_from_slice(&0u32.to_le_bytes()); // no blocks
    buf.extend_from_slice(&0u32.to_le_bytes()); // no dictionary
    buf.extend_from_slice(&[0u8; 8]); // two record offsets
    buf.extend_from_slice(&reading_trie_bytes());
    let rt = try_load_reading_trie(&buf, 0, 2).unwrap();
    assert_eq!(rt.lookup_exact("アマ"), vec![3]);
    assert!(try_load_reading_trie(&buf, 0, 3).is_none());
    assert!(try_load_reading_trie(&buf[..20], 0, 0).is_none());
}
