# sudachi (verified core)

Dictionary storage primitives, kana utilities and IME / kana-kanji conversion
logic of the Sudachi Japanese morphological analyzer, written in Verus with
their behaviour stated as contracts and proved.

Layout:

- `src/dic/compact.rs` — VByte, ZigZag and bit-packing codecs, with their
  round-trip laws.
- `src/dic/connect.rs` — the connection matrix, flat or zstd-compressed in
  row stripes (`MCZB`), with a cache of the stripe in use.
- `src/dic/lexicon/` — word-info sections (plain and block-compressed), the
  MARISA trie of the lexicon, the word-id table and the reading trie.
- `src/dic/lexicon_set.rs` — how word information of a user dictionary is
  renumbered into the combined dictionary, and the lookups by reading.
- `src/dic/reading_index.rs` — the reverse reading index of the lexicons
  without a reading trie.
- `src/dic/build/index.rs` — the index of a dictionary being built.
- `src/kana.rs` — hiragana/katakana conversion and surface/reading alignment.
- `src/ime.rs` — IME candidates: single-token lookup, compound folding,
  deduplication and ranking.
- `src/kkc.rs` — kana-kanji conversion of tokenized text and its candidates.
- `src/block_codec.rs` — zstd decoding through the `ruzstd` crate.
- `app/` — WebAssembly glue: the panic hook and the records handed to
  JavaScript.

`tests/` exercise the library on concrete values.
