use lbr::sentences::{sentence_word_details, SentenceWordRecord};
use lbr::api::{ApiInterpretation, ApiSegment, Word};
use lbr::queries::ignored_words as ignored_word_set;
use lbr::sentences::{
    ignored_word_rows, sentence_word_rows, IgnoredWordRow, NewSentenceWords, SentenceWordsError,
};
use lbr::japanese::{DbFurigana, FuriganaError};
use lbr::words::{get_word_to_meanings, ignored_words, paragraph_ignored_words, SegmentedParagraphSentence};
use std::collections::{HashMap, HashSet};

#[test]
fn collects_meanings_of_each_word() {
    let rows = vec![
        (1, vec![Some("cat".to_string()), None]),
        (2, vec![Some("dog".to_string())]),
        (1, vec![Some("feline".to_string())]),
        (3, vec![None]),
    ];
    let meanings = get_word_to_meanings(&rows);
    assert_eq!(meanings.len(), 3);
    assert_eq!(meanings[&1], vec!["cat".to_string(), "feline".to_string()]);
    assert_eq!(meanings[&2], vec!["dog".to_string()]);
    assert!(meanings[&3].is_empty());
}

#[test]
fn collects_ignored_word_ids() {
    let ignored = ignored_word_set(&vec![4, 2, 4]);
    assert_eq!(ignored, [2, 4].into_iter().collect::<HashSet<i32>>());
    assert!(ignored_word_set(&vec![]).is_empty());
}

#[test]
fn lists_ignored_words_with_written_forms() {
    let translations = vec![
        (5, vec![Some("five".to_string())]),
        (7, vec![Some("seven".to_string()), None]),
        (5, vec![Some("V".to_string())]),
    ];
    let written_forms = vec![(7, "七".to_string()), (5, "五".to_string()), (7, "漆".to_string())];
    let readings = vec![(7, "しち".to_string()), (7, "なな".to_string())];
    let words = ignored_words(&translations, &written_forms, &readings);
    assert_eq!(words.len(), 2);
    assert_eq!(words[0].word_id, 5);
    assert_eq!(words[0].translations, vec!["V".to_string()]);
    assert_eq!(words[0].written_forms.len(), 1);
    assert_eq!(words[0].written_forms[0].written_form, "五");
    assert!(words[0].written_forms[0].readings.is_empty());
    assert_eq!(words[1].word_id, 7);
    assert_eq!(words[1].translations, vec!["seven".to_string()]);
    assert_eq!(words[1].written_forms.len(), 2);
    assert_eq!(words[1].written_forms[0].written_form, "七");
    assert_eq!(words[1].written_forms[0].readings, vec!["なな".to_string()]);
    assert_eq!(words[1].written_forms[1].written_form, "漆");
}

fn interpretation(word_id: Option<i32>) -> ApiInterpretation {
    ApiInterpretation {
        word_id,
        score: 10,
        text_word: "猫".to_string(),
        text_reading_hiragana: "ねこ".to_string(),
        db_word: "猫".to_string(),
        db_reading_hiragana: "ねこ".to_string(),
        meanings: vec![],
    }
}

#[test]
fn finds_ignored_words_of_a_paragraph() {
    let sentences = vec![
        SegmentedParagraphSentence {
            sentence: "猫".to_string(),
            segments: vec![ApiSegment {
                text: "猫".to_string(),
                interpretations: vec![interpretation(Some(1)), interpretation(None)],
                range: 0..3,
            }],
        },
        SegmentedParagraphSentence {
            sentence: "猫".to_string(),
            segments: vec![ApiSegment {
                text: "猫".to_string(),
                interpretations: vec![interpretation(Some(2)), interpretation(Some(3))],
                range: 0..3,
            }],
        },
    ];
    let ignored: HashSet<i32> = [2, 3, 9].into_iter().collect();
    let found = paragraph_ignored_words(&sentences, &ignored);
    assert_eq!(found, [2, 3].into_iter().collect::<HashSet<i32>>());
}

fn kanji_map() -> HashMap<String, Vec<String>> {
    let mut kanji_to_readings = HashMap::new();
    kanji_to_readings.insert("猫".to_string(), vec!["ねこ".to_string()]);
    kanji_to_readings
}

#[test]
fn builds_sentence_word_rows() {
    let new = NewSentenceWords {
        user_id: 1,
        sentence_id: 8,
        sentence: "吾輩は猫である",
        words: vec![
            Word {
                id: Some(3),
                reading: Some("ねこ".to_string()),
                idx_start: 9,
                idx_end: 12,
            },
            Word {
                id: None,
                reading: None,
                idx_start: 6,
                idx_end: 9,
            },
        ],
        ignore_words: HashSet::new(),
    };
    let rows = sentence_word_rows(&kanji_map(), &new).unwrap();
    assert_eq!(rows.len(), 2);
    assert_eq!(rows[0].sentence_id, 8);
    assert_eq!(rows[0].word_id, Some(3));
    assert_eq!(rows[0].reading, Some("ねこ".to_string()));
    assert_eq!(
        rows[0].furigana,
        vec![DbFurigana {
            word_start_idx: 0,
            word_end_idx: 3,
            reading_start_idx: 0,
            reading_end_idx: 6
        }]
    );
    assert_eq!(rows[1].word_id, None);
    assert!(rows[1].furigana.is_empty());
    assert_eq!((rows[1].idx_start, rows[1].idx_end), (6, 9));
}

#[test]
fn refuses_words_outside_the_sentence() {
    let mut new = NewSentenceWords {
        user_id: 1,
        sentence_id: 8,
        sentence: "吾輩は猫である",
        words: vec![Word {
            id: Some(3),
            reading: None,
            idx_start: 10,
            idx_end: 12,
        }],
        ignore_words: HashSet::new(),
    };
    // 10 is in the middle of 猫
    assert_eq!(
        sentence_word_rows(&kanji_map(), &new).err(),
        Some(SentenceWordsError::InvalidIndexes)
    );
    new.words[0].idx_start = -1;
    assert_eq!(
        sentence_word_rows(&kanji_map(), &new).err(),
        Some(SentenceWordsError::InvalidIndexes)
    );
    new.words[0].idx_start = 9;
    new.words[0].idx_end = 100;
    assert_eq!(
        sentence_word_rows(&kanji_map(), &new).err(),
        Some(SentenceWordsError::InvalidIndexes)
    );
}

#[test]
fn refuses_readings_that_do_not_fit() {
    let new = NewSentenceWords {
        user_id: 1,
        sentence_id: 8,
        sentence: "吾輩は猫である",
        words: vec![Word {
            id: Some(3),
            reading: Some("いぬ".to_string()),
            idx_start: 6,
            idx_end: 12,
        }],
        ignore_words: HashSet::new(),
    };
    // は猫 read as いぬ: the kana は is not in the reading
    let err = sentence_word_rows(&kanji_map(), &new).err().unwrap();
    assert_eq!(
        err,
        SentenceWordsError::Furigana {
            word: "は猫".to_string(),
            reading: "いぬ".to_string(),
            error: FuriganaError::NoMapping
        }
    );
    assert_eq!(err.message(), "Failed to map furigana to reading for いぬ");
    assert_eq!(err.cause(), Some("Failed to assign furigana to は猫 with いぬ".to_string()));
}

#[test]
fn names_invalid_indexes() {
    let err = SentenceWordsError::InvalidIndexes;
    assert_eq!(err.message(), "Request had invalid indexes for word");
    assert_eq!(err.cause(), None);
}

#[test]
fn names_furigana_errors() {
    assert_eq!(
        FuriganaError::NoMapping.message("猫", "いぬ"),
        "Failed to assign furigana to 猫 with いぬ"
    );
    assert_eq!(
        FuriganaError::TooLong.message("猫", "ねこ"),
        "out of range integral type conversion attempted"
    );
}

#[test]
fn builds_ignored_word_rows() {
    let ignore: HashSet<i32> = [4, 5].into_iter().collect();
    let mut rows = ignored_word_rows(9, &ignore);
    rows.sort_by_key(|r| r.word_id);
    assert_eq!(
        rows,
        vec![
            IgnoredWordRow { word_id: 4, user_id: 9 },
            IgnoredWordRow { word_id: 5, user_id: 9 }
        ]
    );
}

#[test]
fn shows_saved_sentence_words() {
    let details = sentence_word_details(SentenceWordRecord {
        word: "猫".to_string(),
        reading: "ねこ".to_string(),
        sentence_word_reading: Some("ねこ".to_string()),
        idx_start: 9,
        idx_end: 12,
        furigana: vec![
            None,
            Some(DbFurigana {
                word_start_idx: 0,
                word_end_idx: 3,
                reading_start_idx: 0,
                reading_end_idx: 6,
            }),
        ],
        translations: vec![Some("cat".to_string()), None],
    });
    assert_eq!(details.word, "猫");
    assert_eq!(details.reading, "ねこ");
    assert_eq!(details.sentence_word_reading, Some("ねこ".to_string()));
    assert_eq!((details.idx_start, details.idx_end), (9, 12));
    assert_eq!(details.furigana.len(), 1);
    assert_eq!(details.translations, vec!["cat".to_string()]);
}
