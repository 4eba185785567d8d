use lbr::dictionary::ExtraKanji;
use lbr::extra_kanji::{missing_kanji, update_kanji_extra};
use lbr::text::str_le;

fn strings(xs: &[&str]) -> Vec<String> {
    xs.iter().map(|x| x.to_string()).collect()
}

fn entry(chara: &str, meanings: &[&str]) -> ExtraKanji {
    ExtraKanji { chara: chara.to_string(), meanings: strings(meanings), components: Vec::new(), readings: Vec::new() }
}

fn charas(entries: &[ExtraKanji]) -> Vec<&str> {
    entries.iter().map(|e| e.chara.as_str()).collect()
}

#[test]
fn compares_strings_by_their_bytes() {
    assert!(str_le("犬", "猫"));
    assert!(!str_le("猫", "犬"));
    assert!(str_le("猫", "猫"));
    assert!(str_le("猫", "猫舌"));
    assert!(!str_le("猫舌", "猫"));
    assert!(str_le("", "a"));
    assert!(str_le("Z", "a"));
    assert!(str_le("z", "一"));
}

#[test]
fn finds_each_missing_kanji_once() {
    let kanjidic = strings(&["猫", "犬"]);
    let word_kanji = strings(&["猫", "鳥", "鳥", "一"]);
    let similar = vec![("犬".to_string(), strings(&["大", "鳥"])), ("未".to_string(), strings(&["末"]))];
    let extra = vec![entry("一", &["one"])];
    let missing = missing_kanji(&kanjidic, &word_kanji, &similar, &extra);
    let mut found: Vec<&str> = missing.iter().map(|m| m.as_str()).collect();
    found.sort();
    assert_eq!(found, vec!["大", "未", "末", "鳥"]);
}

#[test]
fn adds_blank_entries_in_order() {
    let kanjidic = strings(&["猫"]);
    let word_kanji = strings(&["猫", "鳥"]);
    let similar = vec![("犬".to_string(), strings(&["猫"]))];
    let mut extra = vec![entry("鯨", &["whale"]), entry("一", &["one"])];
    let changed = update_kanji_extra(&kanjidic, &word_kanji, &similar, &mut extra);
    assert!(changed);
    assert_eq!(charas(&extra), vec!["一", "犬", "鯨", "鳥"]);
    assert_eq!(extra[0].meanings, strings(&["one"]));
    assert!(extra[1].meanings.is_empty() && extra[1].components.is_empty() && extra[1].readings.is_empty());
    assert_eq!(extra[2].meanings, strings(&["whale"]));
    assert!(extra[3].meanings.is_empty());
}

#[test]
fn leaves_complete_entries_alone() {
    let kanjidic = strings(&["猫"]);
    let word_kanji = strings(&["猫", "鯨"]);
    let similar: Vec<(String, Vec<String>)> = Vec::new();
    let mut extra = vec![entry("鯨", &["whale"]), entry("一", &["one"])];
    let changed = update_kanji_extra(&kanjidic, &word_kanji, &similar, &mut extra);
    assert!(!changed);
    assert_eq!(charas(&extra), vec!["鯨", "一"]);
}

#[test]
fn a_second_update_changes_nothing() {
    let kanjidic = strings(&["猫"]);
    let word_kanji = strings(&["犬", "鳥"]);
    let similar = vec![("猫".to_string(), strings(&["描"]))];
    let mut extra: Vec<ExtraKanji> = Vec::new();
    assert!(update_kanji_extra(&kanjidic, &word_kanji, &similar, &mut extra));
    assert_eq!(charas(&extra), vec!["描", "犬", "鳥"]);
    assert!(!update_kanji_extra(&kanjidic, &word_kanji, &similar, &mut extra));
    assert_eq!(charas(&extra), vec!["描", "犬", "鳥"]);
}
