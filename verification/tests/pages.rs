use lbr::pages::{
    ignored_word_line_of, ignored_word_lines, join_with_commas, sentence_word_lines, sort_by_name,
    sort_by_start, NamedItem, ShownWord,
};
use lbr::words::{IgnoredWord, IgnoredWordWrittenForm};

fn strings(xs: &[&str]) -> Vec<String> {
    xs.iter().map(|x| x.to_string()).collect()
}

fn item(id: i32, name: &str) -> NamedItem {
    NamedItem { id, name: name.to_string() }
}

fn form(written: &str, readings: &[&str]) -> IgnoredWordWrittenForm {
    IgnoredWordWrittenForm { written_form: written.to_string(), readings: strings(readings) }
}

fn shown(start: i32, end: i32, reading: Option<&str>, translations: &[&str]) -> ShownWord {
    ShownWord { idx_start: start, idx_end: end, reading: reading.map(|r| r.to_string()), translations: strings(translations) }
}

#[test]
fn lists_sources_by_name() {
    let sorted = sort_by_name(vec![item(1, "b"), item(2, "B"), item(3, "a"), item(4, "本")]);
    let names: Vec<(i32, &str)> = sorted.iter().map(|i| (i.id, i.name.as_str())).collect();
    assert_eq!(names, vec![(2, "B"), (3, "a"), (1, "b"), (4, "本")]);
}

#[test]
fn joins_with_commas() {
    assert_eq!(join_with_commas(&strings(&["cat", "feline"])), "cat, feline");
    assert_eq!(join_with_commas(&strings(&[])), "");
    assert_eq!(join_with_commas(&strings(&["cat"])), "cat");
}

#[test]
fn shows_an_ignored_word() {
    let word = IgnoredWord {
        word_id: 7,
        translations: strings(&["cat", "feline"]),
        written_forms: vec![form("猫", &["ねこ", "ネコ"]), form("ねこ", &[]), form("貓", &[""])],
    };
    let line = ignored_word_line_of(&word);
    assert_eq!(line.word_id, 7);
    assert_eq!(line.written_forms, "猫 (ねこ, ネコ), ねこ, 貓");
    assert_eq!(line.translations, "cat, feline");
}

#[test]
fn lists_ignored_words_by_id() {
    let words = vec![
        IgnoredWord { word_id: 3, translations: strings(&["dog"]), written_forms: vec![form("犬", &["いぬ"])] },
        IgnoredWord { word_id: 1, translations: strings(&["cat"]), written_forms: vec![form("猫", &[])] },
    ];
    let lines = ignored_word_lines(&words);
    let shown: Vec<(i32, &str, &str)> =
        lines.iter().map(|l| (l.word_id, l.written_forms.as_str(), l.translations.as_str())).collect();
    assert_eq!(shown, vec![(1, "猫", "cat"), (3, "犬 (いぬ)", "dog")]);
}

#[test]
fn sorts_words_by_start_keeping_ties_in_order() {
    let words = vec![shown(6, 12, None, &["a"]), shown(0, 3, None, &["b"]), shown(0, 6, None, &["c"]), shown(3, 6, None, &["d"])];
    let sorted = sort_by_start(words);
    let order: Vec<(i32, i32)> = sorted.iter().map(|w| (w.idx_start, w.idx_end)).collect();
    assert_eq!(order, vec![(0, 3), (0, 6), (3, 6), (6, 12)]);
}

#[test]
fn lists_the_words_of_a_sentence() {
    let sentence = "猫が好き";
    let words = vec![
        shown(6, 12, None, &["like"]),
        shown(0, 3, Some("ねこ"), &["cat", "feline"]),
        shown(0, 6, None, &["the cat"]),
    ];
    let lines = sentence_word_lines(sentence, words);
    assert_eq!(
        lines,
        vec![
            ("猫 (ねこ)".to_string(), "cat, feline".to_string()),
            ("猫が".to_string(), "the cat".to_string()),
            ("好き".to_string(), "like".to_string()),
        ]
    );
}
