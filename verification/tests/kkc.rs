use sudachi::dic::lexicon::word_infos::{WordInfo, WordInfoData};
use sudachi::kkc::{
    collect_kkc_candidates, is_functional_pos, kkc_convert, kkc_morpheme, parse_mode, KkcHit,
    Mode, MorphemeFields,
};

fn hit(surface: &str, reading: &str, cost: i16) -> KkcHit {
    let mut data = WordInfoData::default();
    data.surface = surface.into();
    data.reading_form = reading.into();
    KkcHit {
        info: Some(WordInfo::from_data(data)),
        cost,
        part_of_speech: vec!["名詞".to_string(), "普通名詞".to_string()],
    }
}

#[test]
fn parse_mode_is_case_insensitive() {
    assert_eq!(parse_mode("A"), Mode::A);
    assert_eq!(parse_mode("a"), Mode::A);
    assert_eq!(parse_mode("b"), Mode::B);
    assert_eq!(parse_mode("C"), Mode::C);
    assert_eq!(parse_mode(""), Mode::C);
    assert_eq!(parse_mode("AB"), Mode::C);
    assert_eq!(parse_mode("x"), Mode::C);
}

#[test]
fn functional_parts_of_speech() {
    for pos in ["助詞", "助動詞", "補助記号", "記号", "空白", "接続詞", "感動詞"] {
        assert!(is_functional_pos(pos));
    }
    assert!(!is_functional_pos("名詞"));
    assert!(!is_functional_pos(""));
}

#[test]
fn kkc_candidates_keep_cheapest_per_surface() {
    let hits = vec![
        hit("雨", "アメ", 5432),
        hit("飴", "アメ", 6789),
        hit("雨", "アメ", 5000),
        KkcHit { info: None, cost: -1, part_of_speech: vec![] },
        hit("天", "アメ", 5000),
        hit("天", "アマ", 5000),
    ];
    let result = collect_kkc_candidates(&hits);
    let surfaces: Vec<(&str, i16)> = result.iter().map(|c| (c.surface.as_str(), c.cost)).collect();
    assert_eq!(surfaces, vec![("雨", 5000), ("天", 5000), ("飴", 6789)]);
    // The first 天 stays on a tie.
    assert_eq!(result[1].reading_form, "アメ");
    assert_eq!(result[0].dictionary_form, "雨");
    assert_eq!(result[0].part_of_speech, vec!["名詞".to_string(), "普通名詞".to_string()]);
}

#[test]
fn kkc_morpheme_uses_word_surface_and_candidates() {
    let m = MorphemeFields {
        surface: "あめ".into(),
        reading_form: "アメ".into(),
        dictionary_form: "雨".into(),
        normalized_form: "雨".into(),
        part_of_speech: vec!["名詞".to_string()],
        is_oov: false,
        word_surface: "雨".into(),
        begin: 0,
        end: 2,
    };
    let r = kkc_morpheme(&m, &[hit("雨", "アメ", 1), hit("飴", "アメ", 2)]);
    assert_eq!(r.kkc_surface, "雨");
    assert_eq!(r.original_surface, "あめ");
    assert_eq!(r.candidates.len(), 2);
    assert_eq!(r.end, 2);

    let particle = MorphemeFields {
        surface: "は".into(),
        reading_form: "ハ".into(),
        dictionary_form: "は".into(),
        normalized_form: "は".into(),
        part_of_speech: vec!["助詞".to_string()],
        is_oov: true,
        word_surface: "葉".into(),
        begin: 2,
        end: 3,
    };
    let r = kkc_morpheme(&particle, &[hit("葉", "ハ", 1)]);
    assert_eq!(r.kkc_surface, "は");
    assert!(r.candidates.is_empty());
    assert!(r.is_oov);
}

fn morpheme(surface: &str, reading: &str, pos: &str, word: &str, begin: usize, end: usize) -> MorphemeFields {
    MorphemeFields {
        surface: surface.into(),
        reading_form: reading.into(),
        dictionary_form: word.into(),
        normalized_form: word.into(),
        part_of_speech: vec![pos.to_string()],
        is_oov: false,
        word_surface: word.into(),
        begin,
        end,
    }
}

#[test]
fn kkc_convert_keeps_one_result_per_morpheme() {
    let ms = vec![
        morpheme("きょう", "キョウ", "名詞", "今日", 0, 3),
        morpheme("は", "ハ", "助詞", "は", 3, 4),
        morpheme("あめ", "アメ", "名詞", "雨", 4, 6),
    ];
    let hits = vec![
        vec![hit("今日", "キョウ", 10), hit("京", "キョウ", 20)],
        vec![hit("葉", "ハ", 1)],
        vec![hit("飴", "アメ", 9), hit("雨", "アメ", 3)],
    ];
    let r = kkc_convert(&ms, &hits);
    let converted: String = r.iter().map(|m| m.kkc_surface.as_str()).collect();
    assert_eq!(converted, "今日は雨");
    assert_eq!(r.len(), 3);
    assert_eq!(r[1].original_surface, "は");
    assert!(r[1].candidates.is_empty());
    let rain: Vec<&str> = r[2].candidates.iter().map(|c| c.surface.as_str()).collect();
    assert_eq!(rain, vec!["雨", "飴"]);
    assert_eq!((r[2].begin, r[2].end), (4, 6));
    assert!(kkc_convert(&[], &[]).is_empty());
}
