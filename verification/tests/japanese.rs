use lbr::japanese::{
    furigana_to_db_furigana, group_kanji_readings, kanji_to_readings, map_to_db_furigana,
    try_map_to_db_furigana, conversion_overflows, DbFurigana, Furigana, FuriganaError,
    FuriganaSegment,
};
use std::collections::HashMap;

fn segment(segment: &str, furigana: Option<&str>) -> FuriganaSegment {
    FuriganaSegment {
        segment: segment.to_string(),
        furigana: furigana.map(|f| f.to_string()),
    }
}

#[test]
fn converts_furigana_to_db_furigana() {
    let furigana = vec![
        segment("物", Some("もの")),
        segment("の", None),
        segment("怪", Some("け")),
    ];
    let furigana = Furigana {
        furigana,
        accuracy: 1,
    };
    let furigana = furigana_to_db_furigana(&furigana).unwrap();
    assert_eq!(furigana.len(), 2, "{furigana:#?}");
    assert_eq!(
        furigana[0],
        DbFurigana {
            word_start_idx: 0,
            word_end_idx: 3,
            reading_start_idx: 0,
            reading_end_idx: 6
        },
        "{:#?}",
        furigana[0]
    );
    assert_eq!(
        furigana[1],
        DbFurigana {
            word_start_idx: 6,
            word_end_idx: 9,
            reading_start_idx: 9,
            reading_end_idx: 12
        },
        "{:#?}",
        furigana[1]
    );

    assert_eq!(
        &"物の怪"[furigana[0].word_start_idx as usize..furigana[0].word_end_idx as usize],
        "物"
    );
    assert_eq!(
        &"もののけ"[furigana[0].reading_start_idx as usize..furigana[0].reading_end_idx as usize],
        "もの"
    );
    assert_eq!(
        &"物の怪"[furigana[1].word_start_idx as usize..furigana[1].word_end_idx as usize],
        "怪"
    );
    assert_eq!(
        &"もののけ"[furigana[1].reading_start_idx as usize..furigana[1].reading_end_idx as usize],
        "け"
    );
}

#[test]
fn converts_furigana_to_db_furigana2() {
    let furigana = vec![segment("近", Some("きん")), segment("所", Some("じょ"))];
    let furigana = Furigana {
        furigana,
        accuracy: 1,
    };
    let furigana = furigana_to_db_furigana(&furigana).unwrap();
    assert_eq!(furigana.len(), 2, "{furigana:#?}");
    assert_eq!(
        furigana[0],
        DbFurigana {
            word_start_idx: 0,
            word_end_idx: 3,
            reading_start_idx: 0,
            reading_end_idx: 6
        },
        "{:#?}",
        furigana[0]
    );
    assert_eq!(
        furigana[1],
        DbFurigana {
            word_start_idx: 3,
            word_end_idx: 6,
            reading_start_idx: 6,
            reading_end_idx: 12
        },
        "{:#?}",
        furigana[1]
    );

    assert_eq!(
        &"近所"[furigana[0].word_start_idx as usize..furigana[0].word_end_idx as usize],
        "近"
    );
    assert_eq!(
        &"きんじょ"[furigana[0].reading_start_idx as usize..furigana[0].reading_end_idx as usize],
        "きん"
    );
    assert_eq!(
        &"近所"[furigana[1].word_start_idx as usize..furigana[1].word_end_idx as usize],
        "所"
    );
    assert_eq!(
        &"きんじょ"[furigana[1].reading_start_idx as usize..furigana[1].reading_end_idx as usize],
        "じょ"
    );
}

#[test]
fn converting_kana_only_furigana_gives_nothing() {
    let furigana = Furigana {
        furigana: vec![segment("ねこ", None)],
        accuracy: 1,
    };
    assert_eq!(furigana_to_db_furigana(&furigana).unwrap(), vec![]);
    assert!(!conversion_overflows(&furigana));
}

#[test]
fn groups_kanji_readings_in_row_order() {
    let rows = vec![
        ("日".to_string(), "ひ".to_string()),
        ("月".to_string(), "つき".to_string()),
        ("日".to_string(), "にち".to_string()),
    ];
    let grouped = group_kanji_readings(&rows);
    assert_eq!(
        grouped,
        vec![
            ("日".to_string(), vec!["ひ".to_string(), "にち".to_string()]),
            ("月".to_string(), vec!["つき".to_string()]),
        ]
    );
    let map = kanji_to_readings(&rows);
    assert_eq!(map.len(), 2);
    assert_eq!(map["日"], vec!["ひ".to_string(), "にち".to_string()]);
    assert_eq!(map["月"], vec!["つき".to_string()]);
    assert!(kanji_to_readings(&vec![]).is_empty());
}

fn kanji_map() -> HashMap<String, Vec<String>> {
    let mut kanji_to_readings = HashMap::new();
    kanji_to_readings.insert("物".to_string(), vec!["もの".to_string()]);
    kanji_to_readings.insert("怪".to_string(), vec!["け".to_string()]);
    kanji_to_readings
}

#[test]
fn maps_reading_onto_word() {
    let furigana = map_to_db_furigana("物の怪", "もののけ", &kanji_map()).unwrap();
    assert_eq!(
        furigana,
        vec![
            DbFurigana {
                word_start_idx: 0,
                word_end_idx: 3,
                reading_start_idx: 0,
                reading_end_idx: 6
            },
            DbFurigana {
                word_start_idx: 6,
                word_end_idx: 9,
                reading_start_idx: 9,
                reading_end_idx: 12
            },
        ]
    );
    let tried = try_map_to_db_furigana("物の怪", "もののけ", &kanji_map());
    assert_eq!(tried, Some(Ok(furigana)));
}

#[test]
fn maps_kana_word_without_furigana() {
    let furigana = map_to_db_furigana("ねこ", "ねこ", &HashMap::new()).unwrap();
    assert_eq!(furigana, vec![]);
}

#[test]
fn maps_single_kanji_word_whole() {
    let furigana = map_to_db_furigana("猫", "ねこ", &HashMap::new()).unwrap();
    assert_eq!(
        furigana,
        vec![DbFurigana {
            word_start_idx: 0,
            word_end_idx: 3,
            reading_start_idx: 0,
            reading_end_idx: 6
        }]
    );
}

#[test]
fn refuses_reading_that_cannot_be_mapped() {
    // the kana of the word are not in the reading, so neither mapping finds anything
    let res = map_to_db_furigana("物の怪", "ねこ", &kanji_map());
    assert_eq!(res, Err(FuriganaError::NoMapping));
    assert_eq!(
        try_map_to_db_furigana("物の怪", "ねこ", &kanji_map()),
        Some(Err(FuriganaError::NoMapping))
    );
}
