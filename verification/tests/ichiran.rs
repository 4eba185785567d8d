use lbr::ichiran::get_ichiran_word_to_word_id;
use std::collections::HashMap;

fn as_map(mapping: Vec<((i32, String, String), i32)>) -> HashMap<(i32, String, String), i32> {
    let n = mapping.len();
    let map: HashMap<_, _> = mapping.into_iter().collect();
    assert_eq!(map.len(), n, "keys occur once");
    map
}

fn key(seq: i32, word: &str, reading: &str) -> (i32, String, String) {
    (seq, word.to_string(), reading.to_string())
}

#[test]
fn maps_conjugated_forms_to_root_words() {
    let entries = vec![(100, true), (200, false), (300, true)];
    let conjugations = vec![(200, None, 100)];
    let words = vec![
        (100, 11, "入れる".to_string(), "いれる".to_string()),
        (100, 12, "容れる".to_string(), "いれる".to_string()),
    ];
    let map = as_map(get_ichiran_word_to_word_id(&entries, &conjugations, &words));
    assert_eq!(map.len(), 4);
    assert_eq!(map[&key(100, "入れる", "いれる")], 11);
    assert_eq!(map[&key(100, "容れる", "いれる")], 12);
    assert_eq!(map[&key(200, "入れる", "いれる")], 11);
    assert_eq!(map[&key(200, "容れる", "いれる")], 12);
}

#[test]
fn prefers_deeper_roots() {
    let entries = vec![(500, true), (600, true)];
    let conjugations = vec![(500, None, 600)];
    let words = vec![
        (500, 21, "見る".to_string(), "みる".to_string()),
        (600, 22, "見る".to_string(), "みる".to_string()),
    ];
    let map = as_map(get_ichiran_word_to_word_id(&entries, &conjugations, &words));
    assert_eq!(map[&key(500, "見る", "みる")], 22);
    assert_eq!(map[&key(600, "見る", "みる")], 22);
}

#[test]
fn follows_via_links_after_direct_ones() {
    let entries = vec![(1, false), (2, true), (3, true)];
    // 1 comes from 2 through the intermediate form 3
    let conjugations = vec![(1, Some(3), 2)];
    let words = vec![
        (2, 31, "書く".to_string(), "かく".to_string()),
        (3, 32, "書く".to_string(), "かく".to_string()),
    ];
    let map = as_map(get_ichiran_word_to_word_id(&entries, &conjugations, &words));
    // the via link lists the source before the intermediate form
    assert_eq!(map[&key(1, "書く", "かく")], 31);
}

#[test]
fn survives_conjugation_cycles() {
    let entries = vec![(400, false), (401, true)];
    let conjugations = vec![(400, None, 401), (401, None, 400)];
    let words = vec![(401, 41, "x".to_string(), "x".to_string())];
    let map = as_map(get_ichiran_word_to_word_id(&entries, &conjugations, &words));
    assert_eq!(map[&key(401, "x", "x")], 41);
    assert_eq!(map[&key(400, "x", "x")], 41);
}

#[test]
fn maps_nothing_without_entries() {
    assert!(get_ichiran_word_to_word_id(&vec![], &vec![], &vec![]).is_empty());
}

#[test]
fn follows_long_acyclic_chains_to_the_root() {
    // 5 comes from 4, which comes from 3, ... down to the root 1: each link is one row
    let entries = vec![(1, true), (2, false), (3, false), (4, false), (5, false)];
    let conjugations = vec![(5, None, 4), (4, None, 3), (3, None, 2), (2, None, 1)];
    let words = vec![(1, 51, "食べる".to_string(), "たべる".to_string())];
    let map = as_map(get_ichiran_word_to_word_id(&entries, &conjugations, &words));
    for seq in 1..=5 {
        assert_eq!(map[&key(seq, "食べる", "たべる")], 51);
    }
    assert_eq!(map.len(), 5);
}
