use lbr::phrase_form::{
    is_interpretation_hidden, is_phrase_hidden, shown_interpretations, place_components, sentence_ignored_words, Interpretation, PhraseForm, PhraseState, Segment,
    SegmentedSentence, Status, WordInfo,
};
use std::collections::HashSet;

fn word(word: &str, word_id: Option<i32>, reading: &str) -> WordInfo {
    WordInfo {
        word: word.to_string(),
        word_id,
        reading_hiragana: reading.to_string(),
        meanings: vec![],
    }
}

fn interpretation(components: Vec<WordInfo>) -> Interpretation {
    Interpretation {
        score: 1,
        reading_hiragana: String::new(),
        components,
    }
}

/// 「猫がいる。」: a phrase with one interpretation, text that is not a phrase, and a phrase with
/// two interpretations.
fn sentence(ignored: &[i32]) -> SegmentedSentence {
    SegmentedSentence {
        sentence: "猫が、いる".to_string(),
        segments: vec![
            Segment::Phrase {
                phrase: "猫が".to_string(),
                interpretations: vec![interpretation(vec![
                    word("猫", Some(1), "ねこ"),
                    word("が", Some(2), "が"),
                ])],
            },
            Segment::Other("、".to_string()),
            Segment::Phrase {
                phrase: "いる".to_string(),
                interpretations: vec![
                    interpretation(vec![word("いる", Some(3), "いる")]),
                    interpretation(vec![word("い", None, "い"), word("る", Some(4), "る")]),
                ],
            },
        ],
        ignored_words: ignored.iter().copied().collect(),
    }
}

#[test]
fn locates_the_words_of_the_sentence() {
    let placed = place_components(&sentence(&[4])).unwrap();
    let found: Vec<(usize, usize, usize, i32, usize, usize, Status)> = placed
        .iter()
        .map(|c| {
            (
                c.phrase_seq,
                c.interpretation_seq,
                c.component_seq,
                c.word_id,
                c.idx_start,
                c.idx_end,
                c.status,
            )
        })
        .collect();
    assert_eq!(
        found,
        vec![
            (0, 0, 0, 1, 0, 3, Status::Accept),
            (0, 0, 1, 2, 3, 6, Status::Accept),
            (2, 0, 0, 3, 9, 15, Status::Undecided),
            (2, 1, 1, 4, 12, 15, Status::Ignore),
        ]
    );
}

#[test]
fn refuses_phrases_that_are_not_in_the_sentence() {
    let mut s = sentence(&[]);
    s.sentence = "猫が".to_string();
    assert!(place_components(&s).is_none());
}

#[test]
fn decides_words() {
    let mut form = PhraseForm::init(&sentence(&[]));
    assert!(!form.ready());
    assert_eq!(form.phrase_state(0), PhraseState::Accepted);
    assert_eq!(form.phrase_state(2), PhraseState::Undecided);
    form.accept(2, 1, 1);
    assert!(form.ready());
    assert_eq!(form.phrase_state(2), PhraseState::Accepted);
    let statuses: Vec<Status> = form.components().iter().map(|c| c.status).collect();
    assert_eq!(statuses, vec![Status::Accept, Status::Accept, Status::Skip, Status::Accept]);
    form.set_reading_override(2, 1, 1, "ル");
    form.ignore(0, 0, 1);
    let (words, ignored) = form.request();
    let words: Vec<(i32, String, i32, i32)> = words
        .into_iter()
        .map(|w| (w.id, w.reading, w.idx_start, w.idx_end))
        .collect();
    assert_eq!(
        words,
        vec![(1, "ねこ".to_string(), 0, 3), (4, "ル".to_string(), 12, 15)]
    );
    assert_eq!(ignored, [2].into_iter().collect::<HashSet<i32>>());
}

#[test]
fn skips_whole_phrases() {
    let mut form = PhraseForm::init(&sentence(&[]));
    assert!(!form.all_skipped(2));
    form.skip_phrase(2);
    assert!(form.all_skipped(2));
    assert_eq!(form.phrase_state(2), PhraseState::Skipped);
    form.skip(0, 0, 0);
    assert_eq!(form.phrase_state(0), PhraseState::Accepted);
    form.skip(0, 0, 1);
    assert_eq!(form.phrase_state(0), PhraseState::Skipped);
    assert!(form.ready());
}

#[test]
fn finds_the_ignored_words_of_a_sentence() {
    let s = sentence(&[]);
    let ignored: HashSet<i32> = [2, 4, 8].into_iter().collect();
    assert_eq!(
        sentence_ignored_words(&s.segments, &ignored),
        [2, 4].into_iter().collect::<HashSet<i32>>()
    );
}

#[test]
fn hides_interpretations_of_unknown_or_ignored_words() {
    let ignored: HashSet<i32> = [2].into_iter().collect();
    let known = interpretation(vec![word("猫", Some(1), "ねこ"), word("が", Some(2), "が")]);
    let ignored_only = interpretation(vec![word("が", Some(2), "が"), word("、", None, "")]);
    let unknown = interpretation(vec![word("x", None, "x")]);
    assert!(!is_interpretation_hidden(&known, &ignored));
    assert!(is_interpretation_hidden(&ignored_only, &ignored));
    assert!(is_interpretation_hidden(&unknown, &ignored));
    let all = vec![ignored_only, known, unknown];
    assert_eq!(shown_interpretations(&all, &ignored), vec![1]);
    assert!(!is_phrase_hidden(&all, &ignored));
    let none_known = vec![interpretation(vec![word("x", None, "x")]), interpretation(vec![])];
    assert!(is_phrase_hidden(&none_known, &ignored));
}
