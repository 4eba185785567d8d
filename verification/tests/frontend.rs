use lbr::error::{LbrError, WebError};
use lbr::frontend::{
    classify_status, included_sources, logged_in, source_state, validate_deck_name,
    validate_login, validate_registration, validate_source_name, DeckSource, DeckSourceKind,
    IncludedSource, ResponseStatus, SourceSelection, request_failed, source_selection,
};

#[test]
fn classifies_response_statuses() {
    assert_eq!(classify_status(100), ResponseStatus::Success);
    assert_eq!(classify_status(200), ResponseStatus::Success);
    assert_eq!(classify_status(399), ResponseStatus::Success);
    assert_eq!(classify_status(401), ResponseStatus::Unauthorized);
    assert_eq!(classify_status(400), ResponseStatus::Failed);
    assert_eq!(classify_status(500), ResponseStatus::Failed);
    assert_eq!(classify_status(99), ResponseStatus::Failed);
}

#[test]
fn tells_whether_the_user_is_logged_in() {
    assert_eq!(logged_in(Some(Some(3))), Some(true));
    assert_eq!(logged_in(Some(None)), Some(false));
    assert_eq!(logged_in(None), None);
}

#[test]
fn validates_forms() {
    assert_eq!(validate_login("", "pw").unwrap_err().message, "Email cannot be empty");
    assert_eq!(validate_login("a@b", "").unwrap_err().message, "Password cannot be empty");
    assert!(validate_login("a@b", "pw").is_ok());
    assert_eq!(
        validate_registration("a@b", "pw", "wp").unwrap_err().message,
        "Passwords don't match"
    );
    assert_eq!(validate_registration("", "pw", "pw").unwrap_err().message, "Email cannot be empty");
    assert!(validate_registration("a@b", "pw", "pw").is_ok());
    assert_eq!(validate_source_name("").unwrap_err().message, "Source name cannot be empty");
    assert!(validate_source_name("book").is_ok());
    assert_eq!(validate_deck_name("").unwrap_err().message, "Deck name cannot be empty!");
    assert!(validate_deck_name("deck").is_ok());
}

fn selection(source_id: i32, words: Option<Result<i32, String>>, kanji: Option<Result<i32, String>>) -> SourceSelection {
    SourceSelection {
        source_id,
        include_words: words.is_some(),
        word_threshold: words.unwrap_or(Ok(1)),
        include_kanji: kanji.is_some(),
        kanji_threshold: kanji.unwrap_or(Ok(1)),
    }
}

#[test]
fn collects_included_sources() {
    let selections = vec![
        selection(1, Some(Ok(2)), Some(Ok(3))),
        selection(2, None, None),
        selection(3, None, Some(Ok(1))),
    ];
    assert_eq!(
        included_sources(&selections).unwrap(),
        vec![
            IncludedSource { source_id: 1, threshold: 2, kind: DeckSourceKind::Word },
            IncludedSource { source_id: 1, threshold: 3, kind: DeckSourceKind::Kanji },
            IncludedSource { source_id: 3, threshold: 1, kind: DeckSourceKind::Kanji },
        ]
    );
}

#[test]
fn refuses_bad_thresholds_in_order() {
    let selections = vec![
        selection(1, Some(Ok(0)), None),
        selection(2, Some(Err("invalid digit found in string".to_string())), None),
    ];
    assert_eq!(
        included_sources(&selections).unwrap_err().message,
        "Threshold cannot be lower than 1"
    );
    let selections = vec![
        selection(1, None, Some(Err("cannot parse integer from empty string".to_string()))),
        selection(2, Some(Ok(0)), None),
    ];
    assert_eq!(
        included_sources(&selections).unwrap_err().message,
        "Failed to parse threshold as number: cannot parse integer from empty string"
    );
}

#[test]
fn shows_the_deck_state_of_a_source() {
    let sources = vec![
        DeckSource { id: 1, threshold: 4, kind: DeckSourceKind::Word },
        DeckSource { id: 1, threshold: 6, kind: DeckSourceKind::Kanji },
        DeckSource { id: 2, threshold: 5, kind: DeckSourceKind::Kanji },
    ];
    assert_eq!(source_state(&sources, 1, DeckSourceKind::Word), (true, 4));
    // only the first entry of a source is looked at
    assert_eq!(source_state(&sources, 1, DeckSourceKind::Kanji), (false, 1));
    assert_eq!(source_state(&sources, 2, DeckSourceKind::Kanji), (true, 5));
    assert_eq!(source_state(&sources, 3, DeckSourceKind::Word), (false, 1));
}

#[test]
fn makes_errors_from_messages() {
    assert_eq!(WebError::new("oops").message, "oops");
    let parse_error = "x".parse::<i32>().unwrap_err();
    assert_eq!(WebError::from(parse_error.clone()).message, parse_error.to_string());
    let err = LbrError::new("no such deck");
    assert_eq!(err.message, "no such deck");
    assert_eq!(err.status(), 500);
}

#[test]
fn names_failed_requests() {
    assert_eq!(request_failed(500, "boom").message, "Request failed: HTTP 500 boom");
    assert_eq!(request_failed(7, "").message, "Request failed: HTTP 7 ");
    assert_eq!(request_failed(65535, "x").message, "Request failed: HTTP 65535 x");
    assert_eq!(request_failed(404, "not found").message, "Request failed: HTTP 404 not found");
}

#[test]
fn parses_thresholds() {
    let s = source_selection(4, true, "12", false, "x1");
    assert_eq!(s.source_id, 4);
    assert!(s.include_words);
    assert_eq!(s.word_threshold, Ok(12));
    assert!(!s.include_kanji);
    assert_eq!(s.kanji_threshold, Err("invalid digit found in string".to_string()));
    let s = source_selection(1, true, "+7", true, "-3");
    assert_eq!(s.word_threshold, Ok(7));
    assert_eq!(s.kanji_threshold, Ok(-3));
    let s = source_selection(1, true, "", true, "99999999999");
    assert_eq!(s.word_threshold, Err("cannot parse integer from empty string".to_string()));
    assert_eq!(s.kanji_threshold, Err("number too large to fit in target type".to_string()));
    let s = source_selection(1, true, " 5", true, "-");
    assert!(s.word_threshold.is_err());
    assert!(s.kanji_threshold.is_err());
}
