use lbr::kanji_names::{
    duplicate_names, kanji_word_entry, missing_names, naming_step, sort_kanji_words, unnamed_kanji,
    NamingAction,
};

#[test]
fn makes_kanji_word_entries() {
    let e = kanji_word_entry(
        &vec![Some("cat".to_string()), None, Some("feline".to_string())],
        "子猫",
        &vec![Some("kitten".to_string())],
    );
    assert_eq!(e, ("cat, feline".to_string(), "子猫".to_string(), "kitten".to_string()));
}

#[test]
fn sorts_words_with_fewer_kanji_first() {
    let words = vec![
        ("m".to_string(), "子猫".to_string(), "kitten".to_string()),
        ("m".to_string(), "ねこ".to_string(), "cat".to_string()),
        ("m".to_string(), "猫".to_string(), "cat".to_string()),
        ("m".to_string(), "猫ちゃん".to_string(), "kitty".to_string()),
    ];
    let sorted = sort_kanji_words(words);
    let order: Vec<&str> = sorted.iter().map(|w| w.1.as_str()).collect();
    assert_eq!(order, vec!["ねこ", "猫", "猫ちゃん", "子猫"]);
}

#[test]
fn leaves_out_named_kanji() {
    let common = vec![("猫".to_string(), 10), ("犬".to_string(), 7), ("鳥".to_string(), 3)];
    let named = vec!["犬".to_string()];
    assert_eq!(
        unnamed_kanji(&common, &named),
        vec![("猫".to_string(), 10), ("鳥".to_string(), 3)]
    );
}

fn strings(xs: &[&str]) -> Vec<String> {
    xs.iter().map(|x| x.to_string()).collect()
}

#[test]
fn reports_each_repeated_name() {
    assert_eq!(duplicate_names(&strings(&["cat", "dog", "cat", "cat", "bird"])), strings(&["cat", "cat"]));
    assert!(duplicate_names(&strings(&["cat", "dog"])).is_empty());
}

#[test]
fn reports_names_missing_from_the_file() {
    let db = vec![
        ("猫".to_string(), Some("cat".to_string())),
        ("犬".to_string(), Some("dog".to_string())),
        ("鳥".to_string(), None),
    ];
    assert_eq!(missing_names(&db, &strings(&["犬"])), vec![("猫".to_string(), "cat".to_string())]);
}

#[test]
fn decides_on_each_typed_line() {
    let existing = strings(&["cat", "dog"]);
    assert!(matches!(naming_step(&existing, "\n"), NamingAction::Stop));
    assert!(matches!(naming_step(&existing, " \u{3000}\t\n"), NamingAction::Stop));
    assert!(matches!(naming_step(&existing, " dog\n"), NamingAction::AskAgain));
    match naming_step(&existing, "  kitten  \n") {
        NamingAction::Record(name) => assert_eq!(name, "kitten"),
        _ => panic!("expected the name to be recorded"),
    }
}
