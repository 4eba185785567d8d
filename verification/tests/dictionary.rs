use lbr::dictionary::{extra_kanji_readings, ExtraKanji};
use lbr::dictionary::{kanji_components, kanji_name, lookup};
use lbr::dictionary::{add_entry_words, WordForm};
use lbr::dictionary::find_existing_word;
use lbr::dictionary::{
    entry_word_forms, join_strings, kanji_meanings, kanji_readings, similar_kanji_pairs,
    split_okurigana, stale_word_ids, translations_from_entry, word_furigana, word_kanji_ids,
    word_sort_key, Character, Entry, Gloss, JmdictWords, KanjiElement, KanjiMeaning,
    KanjiReadingText, ReadingElement, ReadingMeaning, RmGroup, Sense,
};
use lbr::japanese::DbFurigana;
use std::collections::{HashMap, HashSet};

fn strings(s: &[&str]) -> Vec<String> {
    s.iter().map(|s| s.to_string()).collect()
}

fn gloss(text: &str, lang: Option<&str>) -> Gloss {
    Gloss {
        text: text.to_string(),
        lang: lang.map(|l| l.to_string()),
    }
}

fn sense(stagk: &[&str], stagr: &[&str], glosses: Vec<Gloss>, s_inf: &[&str]) -> Sense {
    Sense {
        stagk: strings(stagk),
        stagr: strings(stagr),
        gloss: glosses,
        s_inf: strings(s_inf),
    }
}

fn entry() -> Entry {
    Entry {
        k_ele: vec![
            KanjiElement { keb: "物".to_string() },
            KanjiElement { keb: "者".to_string() },
        ],
        r_ele: vec![
            ReadingElement {
                reb: "もの".to_string(),
                re_restr: vec![],
            },
            ReadingElement {
                reb: "しゃ".to_string(),
                re_restr: strings(&["者"]),
            },
        ],
        sense: vec![
            sense(&[], &[], vec![gloss("thing", None), gloss("Ding", Some("ger")), gloss("object", None)], &[]),
            sense(&["者"], &[], vec![gloss("person", None)], &["archaic", "formal"]),
            sense(&[], &["しゃ"], vec![gloss("-er", None)], &[]),
        ],
    }
}

#[test]
fn joins_strings() {
    assert_eq!(join_strings(&vec!["a", "b", "c"], ", "), "a, b, c");
    assert_eq!(join_strings(&vec!["a"], ", "), "a");
    assert_eq!(join_strings(&vec![], ", "), "");
}

#[test]
fn translates_the_senses_that_apply() {
    let e = entry();
    assert_eq!(translations_from_entry(&e, Some("物"), "もの"), strings(&["thing, object"]));
    assert_eq!(
        translations_from_entry(&e, Some("者"), "もの"),
        strings(&["thing, object", "person [archaic, formal]"])
    );
    assert_eq!(
        translations_from_entry(&e, Some("者"), "しゃ"),
        strings(&["thing, object", "person [archaic, formal]", "-er"])
    );
    assert_eq!(
        translations_from_entry(&e, None, "もの"),
        strings(&["thing, object", "person [archaic, formal]"])
    );
}

#[test]
fn lists_the_words_of_an_entry() {
    let e = entry();
    let forms = entry_word_forms(&e, &HashMap::new());
    let pairs: Vec<(String, String)> = forms.iter().map(|f| (f.word.clone(), f.reading.clone())).collect();
    assert_eq!(
        pairs,
        vec![
            ("物".to_string(), "もの".to_string()),
            ("者".to_string(), "もの".to_string()),
            ("者".to_string(), "しゃ".to_string()),
            ("もの".to_string(), "もの".to_string()),
            ("しゃ".to_string(), "しゃ".to_string()),
        ]
    );
    assert_eq!(forms[0].translations, strings(&["thing, object"]));
    assert_eq!(forms[3].translations, strings(&["thing, object", "person [archaic, formal]"]));
}

#[test]
fn search_only_forms_take_the_readings_that_can_be_mapped() {
    let e = Entry {
        k_ele: vec![KanjiElement { keb: "猫".to_string() }],
        r_ele: vec![
            ReadingElement {
                reb: "ねこ".to_string(),
                re_restr: strings(&["貓"]),
            },
            ReadingElement {
                reb: "にゃんこ".to_string(),
                re_restr: strings(&["貓"]),
            },
        ],
        sense: vec![sense(&[], &[], vec![gloss("cat", None)], &[])],
    };
    let forms = entry_word_forms(&e, &HashMap::new());
    let pairs: Vec<(String, String)> = forms.iter().map(|f| (f.word.clone(), f.reading.clone())).collect();
    // a single kanji maps onto any reading
    assert_eq!(
        pairs,
        vec![
            ("猫".to_string(), "ねこ".to_string()),
            ("猫".to_string(), "にゃんこ".to_string()),
            ("ねこ".to_string(), "ねこ".to_string()),
            ("にゃんこ".to_string(), "にゃんこ".to_string()),
        ]
    );
}

#[test]
fn keeps_one_word_per_key() {
    let mut words = JmdictWords::new();
    words.insert_new(1, "物", "もの", "もの".to_string(), "もの".to_string(), strings(&["a"]));
    words.insert_new(1, "物", "モノ", "もの".to_string(), "もの".to_string(), strings(&["b"]));
    words.insert_new(2, "物", "もの", "もの".to_string(), "もの".to_string(), strings(&["c"]));
    let entries = words.into_entries();
    assert_eq!(entries.len(), 2);
    assert_eq!(entries[0].0.jmdict_id, 1);
    assert_eq!(entries[0].1.reading, "モノ");
    assert_eq!(entries[0].1.translations, strings(&["b"]));
    assert_eq!(entries[1].0.jmdict_id, 2);
    assert_eq!(entries[1].1.translations, strings(&["c"]));
}

#[test]
fn splits_okurigana() {
    assert_eq!(split_okurigana("あたら.しい"), ("あたら".to_string(), Some("しい".to_string())));
    assert_eq!(split_okurigana("にち"), ("にち".to_string(), None));
    assert_eq!(split_okurigana("a.b.c"), ("a".to_string(), Some("b.c".to_string())));
}

fn character() -> Character {
    Character {
        literal: "新".to_string(),
        reading_meaning: Some(ReadingMeaning {
            rmgroup: vec![RmGroup {
                reading: vec![
                    KanjiReadingText {
                        r_type: "pinyin".to_string(),
                        text: "xin1".to_string(),
                    },
                    KanjiReadingText {
                        r_type: "ja_on".to_string(),
                        text: "シン".to_string(),
                    },
                    KanjiReadingText {
                        r_type: "ja_kun".to_string(),
                        text: "あたら.しい".to_string(),
                    },
                ],
                meaning: vec![
                    KanjiMeaning {
                        m_lang: None,
                        text: "new".to_string(),
                    },
                    KanjiMeaning {
                        m_lang: Some("fr".to_string()),
                        text: "nouveau".to_string(),
                    },
                ],
            }],
            nanori: strings(&["にい"]),
        }),
    }
}

#[test]
fn reads_kanji_meanings_and_readings() {
    let c = character();
    assert_eq!(kanji_meanings(&c), strings(&["new"]));
    let readings = kanji_readings(&c);
    let rows: Vec<(String, Option<String>, bool)> = readings
        .into_iter()
        .map(|r| (r.reading, r.okurigana, r.nanori))
        .collect();
    assert_eq!(
        rows,
        vec![
            ("シン".to_string(), None, false),
            ("あたら".to_string(), Some("しい".to_string()), false),
            ("にい".to_string(), None, true),
        ]
    );
    let none = Character {
        literal: "〇".to_string(),
        reading_meaning: None,
    };
    assert!(kanji_meanings(&none).is_empty());
    assert!(kanji_readings(&none).is_empty());
}

#[test]
fn orders_similar_kanji_pairs() {
    let ids = vec![("日".to_string(), 5), ("目".to_string(), 2), ("白".to_string(), 9)];
    let entries = vec![("日".to_string(), strings(&["目", "白"]))];
    assert_eq!(similar_kanji_pairs(&entries, &ids), vec![(2, 5), (5, 9)]);
}

#[test]
fn finds_word_kanji_ids() {
    let ids = vec![("日".to_string(), 5), ("本".to_string(), 2), ("日".to_string(), 6)];
    assert_eq!(word_kanji_ids(&strings(&["日", "本"]), &ids), Ok(vec![6, 2]));
    assert_eq!(word_kanji_ids(&strings(&["日", "月"]), &ids), Err("月".to_string()));
}

#[test]
fn finds_stale_words() {
    let kept: HashSet<i32> = [1, 3].into_iter().collect();
    assert_eq!(stale_word_ids(&vec![1, 2, 3, 4, 2], &kept), vec![2, 4]);
}

#[test]
fn word_furigana_is_empty_when_mapping_fails() {
    assert!(word_furigana("物の怪", "ねこ", &HashMap::new()).is_empty());
    assert_eq!(
        word_furigana("猫", "ねこ", &HashMap::new()),
        vec![DbFurigana {
            word_start_idx: 0,
            word_end_idx: 3,
            reading_start_idx: 0,
            reading_end_idx: 6
        }]
    );
}

#[test]
fn sorts_words_by_kanji_then_length() {
    assert_eq!(word_sort_key("ねこ"), 6);
    assert_eq!(word_sort_key("猫"), 10_003);
    assert_eq!(word_sort_key("子猫"), 20_006);
    assert_eq!(word_sort_key("ヶ"), 3);
}

#[test]
fn splits_the_readings_of_extra_kanji() {
    let extra = ExtraKanji {
        chara: "𠮟".to_string(),
        meanings: vec![],
        components: vec![],
        readings: strings(&["しか.る", "シツ"]),
    };
    assert_eq!(
        extra_kanji_readings(&extra),
        vec![
            ("しか".to_string(), Some("る".to_string())),
            ("シツ".to_string(), None)
        ]
    );
}

#[test]
fn looks_up_kanji_names_and_components() {
    let names = vec![("日".to_string(), "sun".to_string()), ("日".to_string(), "day".to_string())];
    assert_eq!(kanji_name(&names, "日"), Some("day".to_string()));
    assert_eq!(kanji_name(&names, "月"), None);
    let components = vec![("明".to_string(), strings(&["日", "月"]))];
    assert_eq!(kanji_components(&components, "明"), strings(&["日", "月"]));
    assert!(kanji_components(&components, "日").is_empty());
    assert_eq!(lookup(&components, "明").map(|c| c.len()), Some(2));
}

#[test]
fn adds_the_words_of_an_entry() {
    let mut words = JmdictWords::new();
    let forms = vec![
        WordForm {
            word: "物".to_string(),
            reading: "もの".to_string(),
            translations: strings(&["thing"]),
        },
        WordForm {
            word: "物".to_string(),
            reading: "モノ".to_string(),
            translations: strings(&["Thing"]),
        },
    ];
    let standardised = vec![
        ("もの".to_string(), "もの".to_string()),
        ("もの".to_string(), "もの".to_string()),
    ];
    add_entry_words(&mut words, 5, &forms, &standardised);
    let entries = words.into_entries();
    assert_eq!(entries.len(), 1);
    assert_eq!(entries[0].0.jmdict_id, 5);
    assert_eq!(entries[0].0.word, "物");
    assert_eq!(entries[0].0.standardised_reading, "もの");
    assert_eq!(entries[0].1.reading, "モノ");
    assert_eq!(entries[0].1.translations, strings(&["Thing"]));
}

#[test]
fn finds_existing_words() {
    let existing = vec![
        (5, 50, "物".to_string(), "もの".to_string()),
        (6, 60, "物".to_string(), "もの".to_string()),
    ];
    assert_eq!(find_existing_word(&existing, 6, "物", "もの"), Some(60));
    assert_eq!(find_existing_word(&existing, 5, "者", "もの"), None);
}

#[test]
fn finds_words_among_those_of_their_entry() {
    let mut words = JmdictWords::new();
    words.insert_new(1, "物", "もの", "もの".to_string(), "もの".to_string(), strings(&["a"]));
    words.insert_new(2, "物", "もの", "もの".to_string(), "もの".to_string(), strings(&["b"]));
    words.insert_new(1, "者", "もの", "もの".to_string(), "もの".to_string(), strings(&["c"]));
    words.insert_new(2, "物", "ぶつ", "ぶつ".to_string(), "ぶつ".to_string(), strings(&["d"]));
    words.insert_new(1, "物", "モノ", "もの".to_string(), "もの".to_string(), strings(&["e"]));
    words.insert_new(2, "物", "もの", "もの".to_string(), "もの".to_string(), strings(&["f"]));
    let entries = words.into_entries();
    let shown: Vec<(i32, &str, &str, Vec<String>)> = entries
        .iter()
        .map(|(k, v)| (k.jmdict_id, k.word.as_str(), k.standardised_reading.as_str(), v.translations.clone()))
        .collect();
    assert_eq!(
        shown,
        vec![
            (1, "物", "もの", strings(&["e"])),
            (2, "物", "もの", strings(&["f"])),
            (1, "者", "もの", strings(&["c"])),
            (2, "物", "ぶつ", strings(&["d"])),
        ]
    );
}
