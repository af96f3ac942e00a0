use sudachi::dic::connect::ConnectionMatrix;
use sudachi::dic::lexicon::word_infos::{WordInfo, WordInfoData};
use sudachi::dic::word_id::WordId;
use sudachi::ime::{
    classify_input, dedup_by_cost, fold_span, ime_lookup, ime_lookup_compound,
    ime_lookup_for_node, ImeCandidate, InputPattern, PathNode, ReadingHit,
};

fn cand(surface: &str, reading: &str, cost: i32, left: u16, right: u16) -> ImeCandidate {
    ImeCandidate {
        surface: surface.into(),
        word_id: WordId::from_raw(7),
        reading: reading.into(),
        cost,
        left_id: left,
        right_id: right,
        segment_count: 1,
    }
}

fn info(surface: &str, reading: &str) -> WordInfo {
    let mut data = WordInfoData::default();
    data.surface = surface.into();
    data.reading_form = reading.into();
    WordInfo::from_data(data)
}

/// A 2 x 2 flat matrix: cost(left, right) = 10 * (right * 2 + left) + 1.
fn matrix_bytes() -> Vec<u8> {
    let mut buf = Vec::new();
    for v in [1i16, 11, 21, 31] {
        buf.extend_from_slice(&v.to_le_bytes());
    }
    buf
}

#[test]
fn classify_complete_verb_ichidan() {
    assert_eq!(classify_input("たべる"), InputPattern::Complete("たべる".into()));
}

#[test]
fn classify_complete_verb_godan() {
    assert_eq!(classify_input("いく"), InputPattern::Complete("いく".into()));
}

#[test]
fn classify_complete_adjective() {
    assert_eq!(classify_input("たかい"), InputPattern::Complete("たかい".into()));
    assert_eq!(classify_input("たかく"), InputPattern::Complete("たかく".into()));
}

#[test]
fn classify_partial_stem() {
    assert_eq!(classify_input("たべ"), InputPattern::PartialStem("たべ".into()));
    assert_eq!(classify_input("いそが"), InputPattern::PartialStem("いそが".into()));
}

#[test]
fn classify_prefix_short() {
    assert_eq!(classify_input("き"), InputPattern::Prefix("き".into()));
    assert_eq!(classify_input("にほ"), InputPattern::PartialStem("にほ".into()));
}

#[test]
fn classify_empty() {
    assert_eq!(classify_input(""), InputPattern::Prefix("".into()));
}

#[test]
fn dedup_keeps_lowest_cost() {
    let make = |surface: &str, cost: i32, segs: usize| ImeCandidate {
        surface: surface.into(),
        word_id: WordId::eos(),
        reading: String::new(),
        cost,
        left_id: 0,
        right_id: 0,
        segment_count: segs,
    };

    let candidates = vec![
        make("大分県美術館", 530, 2),
        make("大分県美術館", 800, 1),
        make("大分県", 300, 1),
        make("美術館", 280, 1),
    ];

    let result = dedup_by_cost(candidates);

    assert_eq!(result.len(), 3);
    assert_eq!(result[0].surface, "美術館");
    assert_eq!(result[1].surface, "大分県");
    assert_eq!(result[2].surface, "大分県美術館");

    let museum = result.iter().find(|c| c.surface == "大分県美術館").unwrap();
    assert_eq!(museum.cost, 530);
    assert_eq!(museum.segment_count, 2);
}

#[test]
fn fold_span_empty_returns_none() {
    let segments: Vec<Vec<ImeCandidate>> = vec![];
    assert!(segments.is_empty());
    let buf = matrix_bytes();
    let mut conn = ConnectionMatrix::from_offset_size(&buf, 0, 2, 2).unwrap();
    assert!(fold_span(&segments, &[], &mut conn).is_none());
}

#[test]
fn classify_terminal_n_and_single_non_terminal() {
    assert_eq!(classify_input("ん"), InputPattern::Complete("ん".into()));
    assert_eq!(classify_input("か"), InputPattern::Prefix("か".into()));
}

#[test]
fn dedup_ties_prefer_more_segments_then_surface() {
    let mut a = cand("b", "", 100, 0, 0);
    a.segment_count = 1;
    let mut b = cand("a", "", 100, 0, 0);
    b.segment_count = 1;
    let mut c = cand("c", "", 100, 0, 0);
    c.segment_count = 3;
    let mut d = cand("c", "", 100, 0, 0);
    d.segment_count = 3;
    d.word_id = WordId::from_raw(99);
    let result = dedup_by_cost(vec![a, b, c, d]);
    let surfaces: Vec<&str> = result.iter().map(|c| c.surface.as_str()).collect();
    assert_eq!(surfaces, vec!["c", "a", "b"]);
    // On a full tie the first candidate of the surface stays.
    assert_eq!(result[0].word_id, WordId::from_raw(7));
}

#[test]
fn fold_span_adds_connection_costs() {
    let buf = matrix_bytes();
    let mut conn = ConnectionMatrix::from_offset_size(&buf, 0, 2, 2).unwrap();
    // Candidate costs are accumulated path costs; the word costs are apart.
    let span = vec![
        vec![cand("大分", "オオイタ", 100, 0, 1), cand("x", "x", 1, 0, 0)],
        vec![cand("県", "ケン", 181, 1, 0)],
        vec![cand("美術館", "ビジュツカン", 202, 0, 0)],
    ];
    let c = fold_span(&span, &[100, 50, 20], &mut conn).unwrap();
    assert_eq!(c.surface, "大分県美術館");
    assert_eq!(c.reading, "オオイタケンビジュツカン");
    // 100 (accumulated) + cost(1, 1) + 50 (word) + cost(0, 0) + 20 (word)
    assert_eq!(c.cost, 100 + 31 + 50 + 1 + 20);
    assert_eq!(c.left_id, 0);
    assert_eq!(c.right_id, 0);
    assert_eq!(c.segment_count, 3);
    assert_eq!(c.word_id, WordId::from_raw(7));
}

#[test]
fn fold_span_empty_segment_returns_none() {
    let buf = matrix_bytes();
    let mut conn = ConnectionMatrix::from_offset_size(&buf, 0, 2, 2).unwrap();
    let span = vec![vec![cand("a", "ア", 1, 0, 0)], vec![]];
    assert!(fold_span(&span, &[1, 1], &mut conn).is_none());
}

#[test]
fn ime_lookup_aligns_dedups_and_sorts() {
    let hits = vec![
        ReadingHit { word_id: WordId::from_raw(1), info: Some(info("食べる", "タベル")), left_id: 1, right_id: 2, cost: 500 },
        ReadingHit { word_id: WordId::from_raw(2), info: Some(info("食べ", "タベ")), left_id: 3, right_id: 4, cost: 300 },
        ReadingHit { word_id: WordId::from_raw(3), info: None, left_id: 0, right_id: 0, cost: -100 },
        ReadingHit { word_id: WordId::from_raw(4), info: Some(info("田部", "タベ")), left_id: 5, right_id: 6, cost: 300 },
        ReadingHit { word_id: WordId::from_raw(5), info: Some(info("タベルナ", "")), left_id: 7, right_id: 8, cost: 100 },
    ];
    let result = ime_lookup("たべ", &hits);
    let surfaces: Vec<&str> = result.iter().map(|c| c.surface.as_str()).collect();
    // "食べ" from 食べる (500) is displaced by the exact entry (300);
    // "田部" and "食べ" tie on cost and reading length: surface order.
    assert_eq!(surfaces, vec!["タベ", "田部", "食べ"]);
    assert_eq!(result[0].reading, "タベルナ");
    assert_eq!(result[0].cost, 100);
    assert_eq!(result[2].word_id, WordId::from_raw(2));
    assert_eq!(result[2].left_id, 3);
    assert_eq!(result[2].right_id, 4);
    assert_eq!(result[2].segment_count, 1);
}

#[test]
fn ime_lookup_for_node_variants() {
    let oov = ime_lookup_for_node(WordId::from_raw(9), 42, 1, 2, true, "ぬ", &None);
    assert_eq!(oov.len(), 1);
    assert_eq!(oov[0].surface, "ぬ");
    assert_eq!(oov[0].reading, "ぬ");
    assert_eq!(oov[0].cost, 42);
    let missing = ime_lookup_for_node(WordId::from_raw(9), 42, 1, 2, false, "", &None);
    assert!(missing.is_empty());
    let word = ime_lookup_for_node(WordId::from_raw(9), 42, 1, 2, false, "", &Some(info("県", "けん")));
    assert_eq!(word.len(), 1);
    assert_eq!(word[0].surface, "県");
    assert_eq!(word[0].reading, "ケン");
    assert_eq!(word[0].left_id, 1);
    assert_eq!(word[0].right_id, 2);
}

fn node(
    word: u32,
    surface: &str,
    reading: &str,
    cost: i32,
    word_cost: i16,
    left: u16,
    right: u16,
) -> PathNode {
    PathNode {
        word_id: WordId::from_raw(word),
        cost,
        word_cost,
        left_id: left,
        right_id: right,
        is_oov: false,
        oov_surface: String::new(),
        info: Some(info(surface, reading)),
    }
}

#[test]
fn ime_lookup_compound_folds_path() {
    let buf = matrix_bytes();
    let mut conn = ConnectionMatrix::from_offset_size(&buf, 0, 2, 2).unwrap();
    let mut eos = node(0, "", "", 0, 0, 0, 0);
    eos.word_id = WordId::eos();
    // 美術館: accumulated path cost 650, own word cost 280.
    let path = vec![
        node(1, "大分県", "オオイタケン", 300, 300, 0, 1),
        node(2, "美術館", "ビジュツカン", 650, 280, 1, 0),
        eos,
    ];
    let result = ime_lookup_compound("おおいたけんびじゅつかん", &path, &[], &mut conn);
    let surfaces: Vec<&str> = result.iter().map(|c| c.surface.as_str()).collect();
    assert_eq!(surfaces, vec!["大分県", "大分県美術館", "美術館"]);
    // 300 (accumulated) + cost(1, 1) + 280 (word cost of 美術館)
    assert_eq!(result[1].cost, 300 + 31 + 280);
    assert_eq!(result[1].segment_count, 2);
    assert_eq!(result[2].cost, 650);
}

#[test]
fn ime_lookup_compound_falls_back_to_lookup() {
    let buf = matrix_bytes();
    let mut conn = ConnectionMatrix::from_offset_size(&buf, 0, 2, 2).unwrap();
    let hits = vec![ReadingHit {
        word_id: WordId::from_raw(1),
        info: Some(info("雨", "アメ")),
        left_id: 0,
        right_id: 0,
        cost: 10,
    }];
    let result = ime_lookup_compound("あめ", &[], &hits, &mut conn);
    assert_eq!(result.len(), 1);
    assert_eq!(result[0].surface, "雨");
}
