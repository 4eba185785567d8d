use lbr::analysis::form_words;
use lbr::api::{ApiInterpretation, ApiSegment, Meaning};
use lbr::form::{Form, FormWord, FormWordOr};
use std::collections::HashSet;

fn form_word(field_id: i32, word_id: i32, start: usize, end: usize) -> FormWord {
    FormWord {
        field_id,
        word_id,
        range: start..end,
        text_word: "w".to_string(),
        text_reading: Some("r".to_string()),
        db_word: "w".to_string(),
        db_reading: None,
        score: 1,
        meanings: vec![],
        tail: None,
    }
}

fn copy(fw: &FormWord) -> FormWord {
    FormWord {
        field_id: fw.field_id,
        word_id: fw.word_id,
        range: fw.range.clone(),
        text_word: fw.text_word.clone(),
        text_reading: fw.text_reading.clone(),
        db_word: fw.db_word.clone(),
        db_reading: fw.db_reading.clone(),
        score: fw.score,
        meanings: fw.meanings.clone(),
        tail: fw.tail.clone(),
    }
}

#[test]
fn initially_accepts_the_first_word_of_each_part() {
    let groups = vec![
        vec![
            FormWordOr::FormWord(form_word(1, 10, 0, 6)),
            FormWordOr::FormWord(form_word(2, 11, 0, 3)),
        ],
        vec![FormWordOr::FormWord(form_word(3, 12, 3, 6))],
        vec![FormWordOr::Unknown {
            text_word: "x".to_string(),
            range: 6..9,
        }],
        vec![FormWordOr::FormWord(form_word(4, 13, 6, 9))],
    ];
    let form = Form::init(&groups);
    assert!(form.is_accepted(1));
    assert!(!form.is_accepted(2));
    assert!(!form.is_accepted(3));
    assert!(form.is_accepted(4));
    assert!(form.is_declined(2, 11));
}

#[test]
fn accepting_clears_overlapping_words() {
    let first = form_word(1, 10, 0, 6);
    let second = form_word(2, 11, 0, 3);
    let third = form_word(3, 12, 6, 9);
    let mut form = Form::init(&vec![
        vec![FormWordOr::FormWord(copy(&first))],
        vec![FormWordOr::FormWord(copy(&third))],
    ]);
    assert!(form.is_accepted(1) && form.is_accepted(3));
    form.accept(copy(&second));
    assert!(form.is_accepted(2));
    assert!(!form.is_accepted(1));
    assert!(form.is_accepted(3));
    form.accept_reading(copy(&first));
    assert!(form.is_accepted_reading(1));
    assert!(!form.is_accepted(2));
    form.clear_by_field_id(1);
    assert!(!form.is_accepted_reading(1));
    assert!(form.is_declined(1, 10));
}

#[test]
fn ignoring_and_declining() {
    let word = form_word(1, 10, 0, 3);
    let mut form = Form::init(&vec![vec![FormWordOr::FormWord(copy(&word))]]);
    form.ignore(copy(&word));
    assert!(form.is_ignored(10));
    assert!(!form.is_accepted(1));
    assert!(!form.is_declined(1, 10));
    form.decline(copy(&word));
    assert!(!form.is_ignored(10));
    assert!(form.is_declined(1, 10));
}

#[test]
fn finishes_into_a_request() {
    let mut form = Form::init(&vec![
        vec![FormWordOr::FormWord(form_word(1, 10, 0, 3))],
        vec![FormWordOr::FormWord(form_word(2, 11, 3, 6))],
    ]);
    form.accept_reading(form_word(2, 11, 3, 6));
    form.ignore(form_word(3, 12, 6, 9));
    let req = form.finish("文章だ".to_string());
    assert_eq!(req.sentence, "文章だ");
    assert_eq!(req.words.len(), 2);
    assert_eq!(req.words[0].id, Some(10));
    assert_eq!((req.words[0].idx_start, req.words[0].idx_end), (0, 3));
    assert_eq!(req.words[0].reading, Some("r".to_string()));
    assert_eq!(req.words[1].id, None);
    assert_eq!((req.words[1].idx_start, req.words[1].idx_end), (3, 6));
    assert_eq!(req.ignore_words, [12].into_iter().collect::<HashSet<i32>>());
}

fn interpretation(word_id: Option<i32>, score: i32, db_word: &str, reading: &str) -> ApiInterpretation {
    ApiInterpretation {
        word_id,
        score,
        text_word: db_word.to_string(),
        text_reading_hiragana: reading.to_string(),
        db_word: db_word.to_string(),
        db_reading_hiragana: reading.to_string(),
        meanings: vec![Meaning {
            meaning: "inside".to_string(),
            meaning_info: Some("noun".to_string()),
        }],
    }
}

#[test]
fn groups_interpretations_by_segment() {
    let sentence = "中にいる";
    let segments = vec![
        ApiSegment {
            text: "中".to_string(),
            interpretations: vec![
                interpretation(Some(1), 5, "中", "ちゅう"),
                interpretation(Some(2), 5, "中", "なか"),
                interpretation(None, 0, "中", "なか"),
                interpretation(Some(3), 9, "中", "じゅう"),
            ],
            range: 0..3,
        },
        ApiSegment {
            text: "いる".to_string(),
            interpretations: vec![interpretation(Some(4), 1, "いる", "いる")],
            range: 6..12,
        },
    ];
    let ignored: HashSet<i32> = [4].into_iter().collect();
    let groups = form_words(sentence, &segments, &ignored);
    assert_eq!(groups.len(), 2);
    let first: Vec<Option<i32>> = groups[0]
        .iter()
        .map(|fw| match fw {
            FormWordOr::FormWord(fw) => Some(fw.word_id),
            _ => None,
        })
        .collect();
    // highest score first, 中 read as なか before other readings of the same score
    assert_eq!(first, vec![Some(3), Some(2), Some(1), None]);
    match &groups[0][0] {
        FormWordOr::FormWord(fw) => {
            assert_eq!(fw.tail, Some("に".to_string()));
            assert_eq!(fw.meanings, vec!["inside (noun)".to_string()]);
            assert_eq!(fw.text_reading, Some("じゅう".to_string()));
            assert_eq!(fw.db_reading, Some("じゅう".to_string()));
        }
        _ => panic!("expected a form word"),
    }
    assert!(matches!(&groups[1][0], FormWordOr::Ignored { range, .. } if *range == (6..12)));
}
