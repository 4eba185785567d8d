use lbr::api::Meaning;
use lbr::segmenting::{find_word_row, to_api_segments, LbrInterpretation, LbrSegment};

fn interpretation(word_id: Option<i32>, score: i32, word: &str, reading: &str) -> LbrInterpretation {
    LbrInterpretation {
        word_id,
        score,
        word: word.to_string(),
        reading_hiragana: reading.to_string(),
        meanings: vec![Meaning { meaning: format!("meaning of {word}"), meaning_info: None }],
    }
}

fn rows() -> Vec<(i32, String, String)> {
    vec![
        (1, "猫".to_string(), "ねこ".to_string()),
        (2, "好き".to_string(), "すき".to_string()),
        (1, "ネコ".to_string(), "ねこ".to_string()),
    ]
}

#[test]
fn finds_the_first_row_of_a_word() {
    assert_eq!(find_word_row(&rows(), 1), Some(("猫".to_string(), "ねこ".to_string())));
    assert_eq!(find_word_row(&rows(), 3), None);
}

#[test]
fn keeps_the_interpretations_that_are_words() {
    let segments = vec![
        LbrSegment {
            text: "猫".to_string(),
            interpretations: vec![interpretation(None, 5, "猫", "ねこ"), interpretation(Some(1), 10, "猫", "ねこ")],
            range: 0..3,
        },
        LbrSegment { text: "が".to_string(), interpretations: vec![interpretation(None, 1, "が", "が")], range: 3..6 },
        LbrSegment { text: "好き".to_string(), interpretations: vec![interpretation(Some(2), 7, "好き", "すき")], range: 6..12 },
    ];
    let api = to_api_segments(segments, &rows()).unwrap();
    assert_eq!(api.len(), 3);
    assert_eq!(api[0].text, "猫");
    assert_eq!(api[0].range, 0..3);
    assert_eq!(api[0].interpretations.len(), 1);
    let i = &api[0].interpretations[0];
    assert_eq!(i.word_id, Some(1));
    assert_eq!(i.score, 10);
    assert_eq!(i.db_word, "猫");
    assert_eq!(i.db_reading_hiragana, "ねこ");
    assert_eq!(i.meanings[0].meaning, "meaning of 猫");
    assert!(api[1].interpretations.is_empty());
    assert_eq!(api[2].interpretations[0].db_word, "好き");
    assert_eq!(api[2].range, 6..12);
}

#[test]
fn reports_the_first_word_without_a_row() {
    let segments = vec![
        LbrSegment { text: "犬".to_string(), interpretations: vec![interpretation(Some(9), 1, "犬", "いぬ")], range: 0..3 },
        LbrSegment { text: "鳥".to_string(), interpretations: vec![interpretation(Some(8), 1, "鳥", "とり")], range: 3..6 },
    ];
    assert!(matches!(to_api_segments(segments, &rows()), Err(9)));
}
