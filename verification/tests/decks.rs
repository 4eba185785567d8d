use lbr::decks::{
    db_furigana_to_anki_furigana, flatten_strings, kanji_card_from_query, kanji_cards,
    kanji_query_word_ids, word_card_from_query, word_cards, AnkiFurigana, KanjiWordQuery,
    SentenceWordQuery, SimilarKanjiQuery,
};
use lbr::japanese::DbFurigana;
use std::collections::HashSet;

#[test]
fn converts_db_furigana_to_anki_furigana() {
    let furigana = vec![
        Some(DbFurigana {
            word_start_idx: 0,
            word_end_idx: 3,
            reading_start_idx: 0,
            reading_end_idx: 3,
        }),
        Some(DbFurigana {
            word_start_idx: 3,
            word_end_idx: 6,
            reading_start_idx: 3,
            reading_end_idx: 6,
        }),
    ];
    let furigana = db_furigana_to_anki_furigana(&furigana, Some("こや"));
    assert_eq!(furigana.len(), 2, "{furigana:#?}");
    assert_eq!(
        furigana[0],
        AnkiFurigana {
            range: 0..3,
            furigana: "こ".to_string()
        },
        "{:#?}",
        furigana[0]
    );
    assert_eq!(
        furigana[1],
        AnkiFurigana {
            range: 3..6,
            furigana: "や".to_string()
        },
        "{:#?}",
        furigana[1]
    );
}

#[test]
fn anki_furigana_needs_a_reading_and_skips_missing_entries() {
    let furigana = vec![
        None,
        Some(DbFurigana {
            word_start_idx: 0,
            word_end_idx: 3,
            reading_start_idx: 0,
            reading_end_idx: 6,
        }),
    ];
    assert!(db_furigana_to_anki_furigana(&furigana, None).is_empty());
    let shown = db_furigana_to_anki_furigana(&furigana, Some("ねこ"));
    assert_eq!(
        shown,
        vec![AnkiFurigana {
            range: 0..3,
            furigana: "ねこ".to_string()
        }]
    );
}

#[test]
fn flattens_present_strings() {
    let ts = vec![Some("a".to_string()), None, Some("b".to_string())];
    assert_eq!(flatten_strings(&ts), vec!["a".to_string(), "b".to_string()]);
}

fn kanji_word(kanji_id: i32, kanji: &str, word: &str) -> KanjiWordQuery {
    KanjiWordQuery {
        kanji_id,
        kanji: kanji.to_string(),
        kanji_name: Some(format!("name of {kanji}")),
        written_form: word.to_string(),
        translations: vec![Some(format!("{word} meaning")), None],
    }
}

fn similar(lower: i32, higher: i32, kanji: &str) -> SimilarKanjiQuery {
    SimilarKanjiQuery {
        lower_kanji_id: lower,
        higher_kanji_id: higher,
        kanji: kanji.to_string(),
        name: None,
    }
}

#[test]
fn makes_kanji_card() {
    let card = kanji_card_from_query(
        KanjiWordQuery {
            kanji_id: 7,
            kanji: "猫".to_string(),
            kanji_name: None,
            written_form: "子猫".to_string(),
            translations: vec![Some("kitten".to_string()), None],
        },
        vec![similar(7, 9, "描")],
        3,
    );
    assert_eq!(card.id, 7);
    assert_eq!(card.kanji, "猫");
    assert_eq!(card.name, "");
    assert_eq!(card.example_source_word.word, "子猫");
    assert_eq!(card.example_source_word.translations, vec!["kitten".to_string()]);
    assert_eq!(card.similar_kanji.len(), 1);
    assert_eq!(card.similar_kanji[0].kanji, "描");
    assert_eq!(card.similar_kanji[0].name, None);
    assert_eq!(card.kanji_words, 3);
}

#[test]
fn makes_one_kanji_card_per_kanji_with_similar_kanji_of_the_deck() {
    let rows = vec![
        kanji_word(1, "日", "日本"),
        kanji_word(2, "本", "日本"),
        kanji_word(1, "日", "毎日"),
    ];
    // rows joined on the lower kanji, holding the lower kanji: pairs (1, 2) and (3, 2)
    let lower = vec![similar(1, 2, "日"), similar(3, 2, "目")];
    // rows joined on the higher kanji, holding the higher kanji: pairs (1, 2) and (1, 4)
    let higher = vec![similar(1, 2, "本"), similar(1, 4, "旧")];
    let cards = kanji_cards(&rows, &lower, &higher);
    assert_eq!(cards.len(), 2);
    assert_eq!(cards[0].id, 1);
    assert_eq!(cards[0].kanji_words, 2);
    assert!(["日本", "毎日"].contains(&cards[0].example_source_word.word.as_str()));
    // 4 is not a kanji of the deck
    let similar0: Vec<&str> = cards[0].similar_kanji.iter().map(|k| k.kanji.as_str()).collect();
    assert_eq!(similar0, vec!["本"]);
    assert_eq!(cards[1].id, 2);
    assert_eq!(cards[1].kanji_words, 1);
    assert_eq!(cards[1].example_source_word.word, "日本");
    // 3 is not a kanji of the deck
    let similar1: Vec<&str> = cards[1].similar_kanji.iter().map(|k| k.kanji.as_str()).collect();
    assert_eq!(similar1, vec!["日"]);
    assert_eq!(cards[1].name, "name of 本");
}

fn sentence_word(word_id: Option<i32>, word: &str, idx_start: i32, idx_end: i32) -> SentenceWordQuery {
    SentenceWordQuery {
        word_id,
        word: word_id.map(|_| word.to_string()),
        reading: word_id.map(|_| "ねこ".to_string()),
        furigana: word_id.map(|_| vec![]),
        translations: word_id.map(|_| vec![Some("Cat".to_string())]),
        sentence_id: 2,
        sentence: "吾輩は猫である".to_string(),
        sentence_word_reading: None,
        sentence_word_furigana: vec![],
        idx_start,
        idx_end,
    }
}

#[test]
fn makes_word_card() {
    let mut word = sentence_word(Some(1), "猫", 9, 12);
    word.furigana = Some(vec![Some(DbFurigana {
        word_start_idx: 0,
        word_end_idx: 3,
        reading_start_idx: 0,
        reading_end_idx: 6,
    })]);
    let mut first = sentence_word(Some(3), "吾輩", 0, 6);
    first.sentence_word_reading = Some("わがはい".to_string());
    first.sentence_word_furigana = vec![
        Some(DbFurigana {
            word_start_idx: 0,
            word_end_idx: 3,
            reading_start_idx: 0,
            reading_end_idx: 6,
        }),
        Some(DbFurigana {
            word_start_idx: 3,
            word_end_idx: 6,
            reading_start_idx: 6,
            reading_end_idx: 12,
        }),
    ];
    let kanji_rows = vec![("猫".to_string(), Some("cat".to_string()))];
    let sentence = vec![&first, &word];
    let card = word_card_from_query(&word, &sentence, &kanji_rows, 1, &vec!["猫".to_string()]);
    assert_eq!(card.id, 1);
    assert_eq!(card.word_id, 1);
    assert_eq!(card.word, "猫");
    assert_eq!(card.word_range, 9..12);
    assert_eq!(
        card.word_furigana,
        vec![AnkiFurigana {
            range: 0..3,
            furigana: "ねこ".to_string()
        }]
    );
    assert_eq!(card.translations, vec!["Cat".to_string()]);
    assert_eq!(card.kanji.len(), 1);
    assert_eq!(card.kanji[0].chara, "猫");
    assert_eq!(card.kanji[0].name, Some("cat".to_string()));
    assert_eq!(card.word_sentences, 1);
    assert_eq!(card.sentence.id, 2);
    assert_eq!(card.sentence.sentence, "吾輩は猫である");
    assert_eq!(card.sentence.words.len(), 2);
    assert_eq!(card.sentence.words[0].furigana[0].furigana, "わが");
    assert_eq!(card.sentence.words[0].furigana[1].furigana, "はい");
    // the second word has no furigana of its own: those of its word are shown
    assert_eq!(
        card.sentence.words[1].furigana,
        vec![AnkiFurigana {
            range: 0..3,
            furigana: "ねこ".to_string()
        }]
    );
}

fn query(
    word: &str,
    sentence_word_reading: Option<&str>,
    idx_start: i32,
    idx_end: i32,
    reading: &str,
    furigana: Vec<Option<DbFurigana>>,
    translations: Vec<Option<String>>,
) -> SentenceWordQuery {
    SentenceWordQuery {
        word_id: Some(1),
        word: Some(word.to_string()),
        sentence: "吾輩は猫である".to_string(),
        sentence_word_reading: sentence_word_reading.map(|r| r.to_string()),
        sentence_word_furigana: vec![],
        idx_start,
        idx_end,
        reading: Some(reading.to_string()),
        furigana: Some(furigana),
        translations: Some(translations),
        sentence_id: 2,
    }
}

#[test]
fn makes_word_card_from_query() {
    let furigana = |word_start_idx, word_end_idx, reading_start_idx, reading_end_idx| {
        Some(DbFurigana { word_start_idx, word_end_idx, reading_start_idx, reading_end_idx })
    };
    let word = query("猫", Some("ねこ"), 9, 12, "ねこ", vec![furigana(0, 3, 0, 6)], vec![Some("Cat".to_string())]);
    let qs = vec![
        query(
            "吾輩",
            Some("わがはい"),
            0,
            6,
            "わがはい",
            vec![furigana(0, 3, 0, 6), furigana(3, 6, 6, 12)],
            vec![Some("I".to_string())],
        ),
        query("は", None, 6, 9, "は", vec![], vec![Some("tldr".to_string())]),
        query("猫", Some("ねこ"), 9, 12, "ねこ", vec![furigana(0, 3, 0, 6)], vec![Some("Cat".to_string())]),
        query("で", None, 12, 15, "で", vec![], vec![Some("something".to_string())]),
        query("ある", None, 15, 18, "ある", vec![], vec![]),
    ];
    let kanji_names_by_kanji = vec![("猫".to_string(), Some("cat".to_string()))];
    let qs = qs.iter().collect::<Vec<_>>();
    let card = word_card_from_query(&word, &qs, &kanji_names_by_kanji, 1, &vec!["猫".to_string()]);
    assert_eq!(card.sentence.words[0].furigana[0].furigana, "わが");
}

#[test]
fn makes_one_word_card_per_word() {
    let rows = vec![
        sentence_word(Some(3), "吾輩", 0, 6),
        sentence_word(None, "は", 6, 9),
        sentence_word(Some(1), "猫", 9, 12),
        sentence_word(Some(3), "吾輩", 0, 6),
    ];
    let row_kanji = vec![
        vec!["吾".to_string(), "輩".to_string()],
        vec![],
        vec!["猫".to_string()],
        vec!["吾".to_string(), "輩".to_string()],
    ];
    let cards = word_cards(&rows, &vec![], &row_kanji);
    assert_eq!(cards.len(), 2);
    assert_eq!(cards[0].word_id, 3);
    assert_eq!(cards[0].word_sentences, 2);
    assert_eq!(cards[0].kanji.len(), 2);
    assert_eq!(cards[0].kanji[0].name, None);
    assert_eq!(cards[1].word_id, 1);
    assert_eq!(cards[1].word_sentences, 1);
    // every row is of the same sentence
    assert_eq!(cards[1].sentence.words.len(), 4);
}

#[test]
fn kanji_query_leaves_out_ignored_words() {
    let rows = vec![
        sentence_word(Some(3), "吾輩", 0, 6),
        sentence_word(None, "は", 6, 9),
        sentence_word(Some(1), "猫", 9, 12),
    ];
    let ignored: HashSet<i32> = [3].into_iter().collect();
    assert_eq!(kanji_query_word_ids(&rows, &ignored), vec![1]);
    assert_eq!(kanji_query_word_ids(&rows, &HashSet::new()), vec![3, 1]);
}
