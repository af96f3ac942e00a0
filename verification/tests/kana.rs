use sudachi::kana::{
    hiragana_to_katakana, is_kana, katakana_to_hiragana, surface_prefix_for_reading_prefix,
    to_katakana_char,
};

#[test]
fn hiragana_to_katakana_basic() {
    assert_eq!(hiragana_to_katakana("たべる"), "タベル");
    assert_eq!(hiragana_to_katakana("わたしは"), "ワタシハ");
    assert_eq!(hiragana_to_katakana("がくせい"), "ガクセイ");
}

#[test]
fn hiragana_to_katakana_passthrough() {
    assert_eq!(hiragana_to_katakana("ABC"), "ABC");
    assert_eq!(hiragana_to_katakana("食べる"), "食ベル");
    assert_eq!(hiragana_to_katakana("タベル"), "タベル");
}

#[test]
fn katakana_to_hiragana_basic() {
    assert_eq!(katakana_to_hiragana("タベル"), "たべる");
    assert_eq!(katakana_to_hiragana("ワタシハ"), "わたしは");
    assert_eq!(katakana_to_hiragana("ガクセイ"), "がくせい");
}

#[test]
fn katakana_to_hiragana_passthrough() {
    assert_eq!(katakana_to_hiragana("ABC"), "ABC");
    assert_eq!(katakana_to_hiragana("食べる"), "食べる");
    assert_eq!(katakana_to_hiragana("たべる"), "たべる");
}

#[test]
fn round_trip() {
    let original = "たべる";
    assert_eq!(katakana_to_hiragana(&hiragana_to_katakana(original)), original);

    let kata = "タベル";
    assert_eq!(hiragana_to_katakana(&katakana_to_hiragana(kata)), kata);
}

#[test]
fn boundary_chars() {
    assert_eq!(hiragana_to_katakana("ぁ"), "ァ");
    assert_eq!(hiragana_to_katakana("ゖ"), "ヶ");
}

#[test]
fn is_kana_basic() {
    assert!(is_kana('あ'));
    assert!(is_kana('ア'));
    assert!(is_kana('る'));
    assert!(is_kana('ル'));
    assert!(!is_kana('食'));
    assert!(!is_kana('A'));
    assert!(!is_kana(' '));
}

#[test]
fn to_katakana_char_converts() {
    assert_eq!(to_katakana_char('た'), 'タ');
    assert_eq!(to_katakana_char('べ'), 'ベ');
    assert_eq!(to_katakana_char('る'), 'ル');
    assert_eq!(to_katakana_char('食'), '食');
    assert_eq!(to_katakana_char('ア'), 'ア');
}

#[test]
fn surface_prefix_exact_match() {
    assert_eq!(surface_prefix_for_reading_prefix("食べ", "タベ", "タベ"), "食べ");
    assert_eq!(surface_prefix_for_reading_prefix("行く", "イク", "イク"), "行く");
}

#[test]
fn surface_prefix_longer_prefix_returns_surface() {
    assert_eq!(
        surface_prefix_for_reading_prefix("食べる", "タベル", "タベルナ"),
        "食べる"
    );
}

#[test]
fn surface_prefix_verb_ichidan() {
    assert_eq!(surface_prefix_for_reading_prefix("食べる", "タベル", "タベ"), "食べ");
}

#[test]
fn surface_prefix_verb_godan_ku() {
    assert_eq!(surface_prefix_for_reading_prefix("行く", "イク", "イ"), "行");
}

#[test]
fn surface_prefix_adjective() {
    assert_eq!(surface_prefix_for_reading_prefix("高い", "タカイ", "タカ"), "高");
    assert_eq!(surface_prefix_for_reading_prefix("高い", "タカイ", "タ"), "高");
}

#[test]
fn surface_prefix_compound_kanji() {
    assert_eq!(
        surface_prefix_for_reading_prefix("日本語", "ニホンゴ", "ニホン"),
        "日本"
    );
    assert_eq!(
        surface_prefix_for_reading_prefix("東京都", "トウキョウト", "トウキョウ"),
        "東京"
    );
}

#[test]
fn surface_prefix_empty_prefix() {
    assert_eq!(surface_prefix_for_reading_prefix("食べる", "タベル", ""), "");
}

#[test]
fn surface_prefix_okurigana_partial() {
    assert_eq!(
        surface_prefix_for_reading_prefix("食べない", "タベナイ", "タベナ"),
        "食べな"
    );
}

#[test]
fn kana_block_edges() {
    // Just outside the hiragana block: unchanged.
    assert_eq!(to_katakana_char('\u{3040}'), '\u{3040}');
    assert_eq!(to_katakana_char('\u{3097}'), '\u{3097}');
    assert_eq!(katakana_to_hiragana("ヷ"), "ヷ");
    assert_eq!(katakana_to_hiragana("ヶ"), "ゖ");
    assert!(!is_kana('\u{3040}'));
    assert!(is_kana('\u{30F6}'));
    assert!(!is_kana('\u{30F7}'));
}

#[test]
fn katakana_idempotent_on_mixed_text() {
    let once = hiragana_to_katakana("きょうはAいい天気");
    assert_eq!(once, "キョウハAイイ天気");
    assert_eq!(hiragana_to_katakana(&once), once);
}

#[test]
fn surface_prefix_kana_only_surface() {
    assert_eq!(surface_prefix_for_reading_prefix("たべる", "タベル", "タ"), "た");
    assert_eq!(surface_prefix_for_reading_prefix("", "タベル", "タ"), "");
}
