//! The decisions of the web frontend: how a response of the server is taken, whether the user
//! is logged in, and what the forms accept.
use crate::error::WebError;
use vstd::prelude::*;
use vstd::string::StringExecFns;

verus! {

// ---------------------------------------------------------------------------------------------
// Responses and sessions
// ---------------------------------------------------------------------------------------------

/// How a response of the server is taken.
#[derive(Debug, Clone, Copy, PartialEq, Eq, Structural)]
pub enum ResponseStatus {
    /// An informational, successful or redirecting status.
    Success,
    /// The server does not consider the user logged in: the session is refreshed.
    Unauthorized,
    /// The request failed; the body holds the reason.
    Failed,
}

/// Takes the status code of a response: 100 to 399 is a success, 401 means that the user is
/// not logged in, and anything else is a failure.
pub fn classify_status(status: u16) -> (taken: ResponseStatus)
    ensures
        taken == (if 100 <= status <= 399 {
            ResponseStatus::Success
        } else if status == 401 {
            ResponseStatus::Unauthorized
        } else {
            ResponseStatus::Failed
        }),
{
    if 100 <= status && status <= 399 {
        ResponseStatus::Success
    } else if status == 401 {
        ResponseStatus::Unauthorized
    } else {
        ResponseStatus::Failed
    }
}

/// Whether the user is logged in, from the outcome of asking the server for the current user:
/// unknown while no answer came, logged in when the answer names a user.
pub fn logged_in(current_user: Option<Option<i32>>) -> (status: Option<bool>)
    ensures
        status == match current_user {
            Some(Some(_)) => Some(true),
            Some(None) => Some(false),
            None => None::<bool>,
        },
{
    match current_user {
        Some(Some(_)) => Some(true),
        Some(None) => Some(false),
        None => None,
    }
}

/// The decimal digits of `n`, most significant first.
pub open spec fn decimal(n: nat) -> Seq<char>
    decreases n,
{
    let digit = seq!['0', '1', '2', '3', '4', '5', '6', '7', '8', '9'][(n % 10) as int];
    if n < 10 {
        seq![digit]
    } else {
        decimal(n / 10).push(digit)
    }
}

/// The text of a decimal digit.
fn digit_text(d: u16) -> (t: &'static str)
    requires
        d < 10,
    ensures
        t@ == seq![seq!['0', '1', '2', '3', '4', '5', '6', '7', '8', '9'][d as int]],
{
    proof {
        reveal_strlit("0");
        reveal_strlit("1");
        reveal_strlit("2");
        reveal_strlit("3");
        reveal_strlit("4");
        reveal_strlit("5");
        reveal_strlit("6");
        reveal_strlit("7");
        reveal_strlit("8");
        reveal_strlit("9");
    }
    let t = if d == 0 {
        "0"
    } else if d == 1 {
        "1"
    } else if d == 2 {
        "2"
    } else if d == 3 {
        "3"
    } else if d == 4 {
        "4"
    } else if d == 5 {
        "5"
    } else if d == 6 {
        "6"
    } else if d == 7 {
        "7"
    } else if d == 8 {
        "8"
    } else {
        "9"
    };
    assert(t@ =~= seq![seq!['0', '1', '2', '3', '4', '5', '6', '7', '8', '9'][d as int]]);
    t
}

/// Appends the decimal digits of `n`.
fn append_decimal(out: &mut String, n: u16)
    ensures
        final(out)@ == old(out)@ + decimal(n as nat),
    decreases n,
{
    if n >= 10 {
        append_decimal(out, n / 10);
    }
    out.append(digit_text(n % 10));
    assert(out@ =~= old(out)@ + decimal(n as nat));
}

/// The error of a request whose response failed: the status and the message of the server (or
/// the body of the response where it holds no error message).
pub fn request_failed(status: u16, body: &str) -> (err: WebError)
    ensures
        err.message@ == "Request failed: HTTP "@ + decimal(status as nat) + " "@ + body@,
{
    let mut message = String::from_str("Request failed: HTTP ");
    append_decimal(&mut message, status);
    message.append(" ");
    message.append(body);
    WebError { message }
}

// ---------------------------------------------------------------------------------------------
// Forms
// ---------------------------------------------------------------------------------------------

fn web_error(message: &str) -> (err: WebError)
    ensures
        err.message@ == message@,
{
    WebError { message: String::from_str(message) }
}

/// Checks the login form: the email, then the password, must not be empty.
pub fn validate_login(email: &str, password: &str) -> (res: Result<(), WebError>)
    ensures
        email@.len() == 0 ==> (res matches Err(e) && e.message@ == "Email cannot be empty"@),
        email@.len() > 0 && password@.len() == 0 ==> (res matches Err(e) && e.message@ == "Password cannot be empty"@),
        email@.len() > 0 && password@.len() > 0 ==> res is Ok,
{
    if email.is_empty() {
        return Err(web_error("Email cannot be empty"));
    }
    if password.is_empty() {
        return Err(web_error("Password cannot be empty"));
    }
    Ok(())
}

/// Checks the registration form: the email and the password must not be empty, and the password
/// must be repeated.
pub fn validate_registration(email: &str, password: &str, repeat_password: &str) -> (res: Result<(), WebError>)
    ensures
        email@.len() == 0 ==> (res matches Err(e) && e.message@ == "Email cannot be empty"@),
        email@.len() > 0 && password@.len() == 0 ==> (res matches Err(e) && e.message@ == "Password cannot be empty"@),
        email@.len() > 0 && password@.len() > 0 && password@ != repeat_password@ ==> (res matches Err(e)
            && e.message@ == "Passwords don't match"@),
        email@.len() > 0 && password@.len() > 0 && password@ == repeat_password@ ==> res is Ok,
{
    validate_login(email, password)?;
    if !crate::text::str_eq(password, repeat_password) {
        return Err(web_error("Passwords don't match"));
    }
    Ok(())
}

/// Checks the name of a new source.
pub fn validate_source_name(name: &str) -> (res: Result<(), WebError>)
    ensures
        name@.len() == 0 ==> (res matches Err(e) && e.message@ == "Source name cannot be empty"@),
        name@.len() > 0 ==> res is Ok,
{
    if name.is_empty() {
        return Err(web_error("Source name cannot be empty"));
    }
    Ok(())
}

/// Checks the name of a new deck.
pub fn validate_deck_name(name: &str) -> (res: Result<(), WebError>)
    ensures
        name@.len() == 0 ==> (res matches Err(e) && e.message@ == "Deck name cannot be empty!"@),
        name@.len() > 0 ==> res is Ok,
{
    if name.is_empty() {
        return Err(web_error("Deck name cannot be empty!"));
    }
    Ok(())
}

// ---------------------------------------------------------------------------------------------
// The sources of a deck
// ---------------------------------------------------------------------------------------------

/// Whether a source gives a deck word cards or kanji cards.
#[derive(Debug, Clone, Copy, PartialEq, Eq, Structural)]
pub enum DeckSourceKind {
    Word,
    Kanji,
}

/// A source included in a deck, with the number of times a word or kanji must occur in it to
/// get a card.
#[derive(Debug, Clone, Copy, PartialEq, Eq, Structural)]
pub struct IncludedSource {
    pub source_id: i32,
    pub threshold: i32,
    pub kind: DeckSourceKind,
}

/// What the deck form says of one source: whether its words and its kanji are included, and the
/// thresholds typed in, parsed as numbers (or the reason they could not be).
pub struct SourceSelection {
    pub source_id: i32,
    pub include_words: bool,
    pub word_threshold: Result<i32, String>,
    pub include_kanji: bool,
    pub kanji_threshold: Result<i32, String>,
}

/// Whether the character is an ASCII digit.
pub open spec fn is_ascii_digit(c: char) -> bool {
    0x30 <= (c as u32) <= 0x39
}

/// The number that the ASCII digits write in decimal.
pub open spec fn digits_value(ds: Seq<char>) -> int
    decreases ds.len(),
{
    if ds.len() == 0 {
        0
    } else {
        digits_value(ds.drop_last()) * 10 + ((ds.last() as u32) - 0x30)
    }
}

/// The number that the text writes in decimal: an optional `+` or `-` followed by one or more
/// ASCII digits and nothing else; `None` for any other text, and for a number that an `i32`
/// cannot hold.
pub open spec fn decimal_i32(text: Seq<char>) -> Option<i32> {
    let signed = text.len() > 0 && (text[0] == '+' || text[0] == '-');
    let ds = if signed {
        text.drop_first()
    } else {
        text
    };
    let v = if text.len() > 0 && text[0] == '-' {
        -digits_value(ds)
    } else {
        digits_value(ds)
    };
    if ds.len() > 0 && (forall|i: int| 0 <= i < ds.len() ==> is_ascii_digit(#[trigger] ds[i])) && i32::MIN <= v
        <= i32::MAX {
        Some(v as i32)
    } else {
        None
    }
}

/// The message of the error that parsing the text as an `i32` meets.
pub uninterp spec fn int_parse_error(text: Seq<char>) -> Seq<char>;

/// Calls `str::parse::<i32>`, which reads an optional sign followed by decimal digits and
/// nothing else, and fails on any other text and on a number out of the range of `i32`; the
/// message of its error is named, not stated.
#[verifier::external_body]
fn parse_i32(text: &str) -> (r: Result<i32, String>)
    ensures
        match decimal_i32(text@) {
            Some(v) => r == Ok::<i32, String>(v),
            None => r matches Err(m) && m@ == int_parse_error(text@),
        },
{
    match text.parse::<i32>() {
        Ok(v) => Ok(v),
        Err(e) => Err(e.to_string()),
    }
}

/// Whether `r` is what parsing `text` as a threshold gives: its number, or the parser's message.
pub open spec fn parsed_threshold(r: Result<i32, String>, text: Seq<char>) -> bool {
    match decimal_i32(text) {
        Some(v) => r == Ok::<i32, String>(v),
        None => r matches Err(m) && m@ == int_parse_error(text),
    }
}

/// What the deck form says of one source, with the thresholds typed in parsed as numbers.
pub fn source_selection(
    source_id: i32,
    include_words: bool,
    word_threshold: &str,
    include_kanji: bool,
    kanji_threshold: &str,
) -> (s: SourceSelection)
    ensures
        s.source_id == source_id,
        s.include_words == include_words,
        parsed_threshold(s.word_threshold, word_threshold@),
        s.include_kanji == include_kanji,
        parsed_threshold(s.kanji_threshold, kanji_threshold@),
{
    SourceSelection {
        source_id,
        include_words,
        word_threshold: parse_i32(word_threshold),
        include_kanji,
        kanji_threshold: parse_i32(kanji_threshold),
    }
}

/// Why the deck form was refused.
pub enum SelectionError {
    /// A threshold is not a number; the reason is given.
    NotANumber(Seq<char>),
    /// A threshold is lower than 1.
    TooLow,
}

/// The included source of one kind of a selection, if that kind is included.
pub open spec fn selection_part(
    source_id: i32,
    included_kind: bool,
    threshold: Result<i32, String>,
    kind: DeckSourceKind,
) -> Option<Result<IncludedSource, SelectionError>> {
    if !included_kind {
        None
    } else {
        match threshold {
            Err(e) => Some(Err(SelectionError::NotANumber(e@))),
            Ok(t) => if t < 1 {
                Some(Err(SelectionError::TooLow))
            } else {
                Some(Ok(IncludedSource { source_id, threshold: t, kind }))
            },
        }
    }
}

/// The parts of the selections, words before kanji for each source.
pub open spec fn selection_parts(selections: Seq<SourceSelection>) -> Seq<Result<IncludedSource, SelectionError>>
    decreases selections.len(),
{
    if selections.len() == 0 {
        seq![]
    } else {
        let s = selections.last();
        let words = selection_part(s.source_id, s.include_words, s.word_threshold, DeckSourceKind::Word);
        let kanji = selection_part(s.source_id, s.include_kanji, s.kanji_threshold, DeckSourceKind::Kanji);
        selection_parts(selections.drop_last()) + match words {
            Some(w) => seq![w],
            None => seq![],
        } + match kanji {
            Some(k) => seq![k],
            None => seq![],
        }
    }
}

/// The sources included by the parts, or the first error among them.
pub open spec fn included_spec(parts: Seq<Result<IncludedSource, SelectionError>>) -> Result<Seq<IncludedSource>, SelectionError>
    decreases parts.len(),
{
    if parts.len() == 0 {
        Ok(seq![])
    } else {
        match included_spec(parts.drop_last()) {
            Err(e) => Err(e),
            Ok(sources) => match parts.last() {
                Err(e) => Err(e),
                Ok(s) => Ok(sources.push(s)),
            },
        }
    }
}

/// The message shown for a refused deck form.
pub open spec fn selection_message(e: SelectionError) -> Seq<char> {
    match e {
        SelectionError::NotANumber(reason) => "Failed to parse threshold as number: "@ + reason,
        SelectionError::TooLow => "Threshold cannot be lower than 1"@,
    }
}

proof fn lemma_included_error_stays(parts: Seq<Result<IncludedSource, SelectionError>>, more: Seq<Result<IncludedSource, SelectionError>>)
    requires
        included_spec(parts) is Err,
    ensures
        included_spec(parts + more) == included_spec(parts),
    decreases more.len(),
{
    if more.len() > 0 {
        lemma_included_error_stays(parts, more.drop_last());
        assert((parts + more).drop_last() =~= parts + more.drop_last());
    } else {
        assert(parts + more =~= parts);
    }
}

/// The first refused part of the first selections is the error of all of them.
proof fn lemma_selection_error_stays(selections: Seq<SourceSelection>, n: int)
    requires
        0 <= n <= selections.len(),
        included_spec(selection_parts(selections.take(n))) is Err,
    ensures
        included_spec(selection_parts(selections)) == included_spec(selection_parts(selections.take(n))),
    decreases selections.len() - n,
{
    if n < selections.len() {
        let next = selections.take(n + 1);
        assert(next.drop_last() =~= selections.take(n));
        let s = next.last();
        let words = selection_part(s.source_id, s.include_words, s.word_threshold, DeckSourceKind::Word);
        let kanji = selection_part(s.source_id, s.include_kanji, s.kanji_threshold, DeckSourceKind::Kanji);
        let wp = match words {
            Some(w) => seq![w],
            None => seq![],
        };
        let kp = match kanji {
            Some(k) => seq![k],
            None => seq![],
        };
        let base = selection_parts(selections.take(n));
        assert(selection_parts(next) == base + wp + kp);
        assert(base + wp + kp =~= base + (wp + kp));
        lemma_included_error_stays(base, wp + kp);
        lemma_selection_error_stays(selections, n + 1);
    } else {
        assert(selections.take(n) =~= selections);
    }
}

/// Checks one part of a selection and adds the source it includes.
fn add_part(
    included: &mut Vec<IncludedSource>,
    source_id: i32,
    included_kind: bool,
    threshold: &Result<i32, String>,
    kind: DeckSourceKind,
) -> (res: Result<(), WebError>)
    ensures
        match selection_part(source_id, included_kind, *threshold, kind) {
            None => res is Ok && final(included)@ == old(included)@,
            Some(Ok(s)) => res is Ok && final(included)@ == old(included)@.push(s),
            Some(Err(e)) => res matches Err(err) && err.message@ == selection_message(e),
        },
{
    if included_kind {
        let t = match threshold {
            Ok(t) => *t,
            Err(reason) => {
                let mut message = String::from_str("Failed to parse threshold as number: ");
                message.append(reason.as_str());
                return Err(WebError { message });
            },
        };
        if t < 1 {
            return Err(web_error("Threshold cannot be lower than 1"));
        }
        included.push(IncludedSource { source_id, threshold: t, kind });
    }
    Ok(())
}

/// The sources that the deck form includes, words before kanji for each source, or the message
/// of the first threshold that is refused.
pub fn included_sources(selections: &Vec<SourceSelection>) -> (res: Result<Vec<IncludedSource>, WebError>)
    ensures
        match included_spec(selection_parts(selections@)) {
            Ok(sources) => res matches Ok(v) && v@ == sources,
            Err(e) => res matches Err(err) && err.message@ == selection_message(e),
        },
{
    let mut included: Vec<IncludedSource> = Vec::new();
    let mut i: usize = 0;
    while i < selections.len()
        invariant
            i <= selections.len(),
            included_spec(selection_parts(selections@.take(i as int))) == Ok::<Seq<IncludedSource>, SelectionError>(included@),
        decreases selections.len() - i,
    {
        let s = &selections[i];
        let ghost prev = selections@.take(i as int);
        let ghost next = selections@.take(i + 1);
        assert(next.drop_last() =~= prev);
        assert(next.last() == *s);
        let ghost words = selection_part(s.source_id, s.include_words, s.word_threshold, DeckSourceKind::Word);
        let ghost kanji = selection_part(s.source_id, s.include_kanji, s.kanji_threshold, DeckSourceKind::Kanji);
        let ghost wp = match words {
            Some(w) => seq![w],
            None => seq![],
        };
        let ghost kp = match kanji {
            Some(k) => seq![k],
            None => seq![],
        };
        let ghost base = selection_parts(prev);
        assert(selection_parts(next) == base + wp + kp);
        let ghost before = included@;
        let r = add_part(&mut included, s.source_id, s.include_words, &s.word_threshold, DeckSourceKind::Word);
        if let Err(e) = r {
            proof {
                assert(wp =~= seq![words->0]);
                assert((base + wp).drop_last() =~= base);
                assert(included_spec(base + wp) is Err);
                lemma_included_error_stays(base + wp, kp);
                lemma_selection_error_stays(selections@, i + 1);
            }
            return Err(e);
        }
        proof {
            if words is Some {
                assert(wp =~= seq![words->0]);
                assert((base + wp).drop_last() =~= base);
            } else {
                assert(base + wp =~= base);
            }
            assert(included_spec(base + wp) == Ok::<Seq<IncludedSource>, SelectionError>(included@));
        }
        let r = add_part(&mut included, s.source_id, s.include_kanji, &s.kanji_threshold, DeckSourceKind::Kanji);
        if let Err(e) = r {
            proof {
                assert(kp =~= seq![kanji->0]);
                assert((base + wp + kp).drop_last() =~= base + wp);
                assert(included_spec(base + wp + kp) is Err);
                lemma_selection_error_stays(selections@, i + 1);
            }
            return Err(e);
        }
        proof {
            if kanji is Some {
                assert(kp =~= seq![kanji->0]);
                assert((base + wp + kp).drop_last() =~= base + wp);
            } else {
                assert(base + wp + kp =~= base + wp);
            }
        }
        i += 1;
    }
    assert(selections@.take(selections.len() as int) =~= selections@);
    Ok(included)
}

// ---------------------------------------------------------------------------------------------
// The state of a deck's form
// ---------------------------------------------------------------------------------------------

/// A source of a deck as the server lists it.
#[derive(Debug, Clone, Copy, PartialEq, Eq, Structural)]
pub struct DeckSource {
    pub id: i32,
    pub threshold: i32,
    pub kind: DeckSourceKind,
}

/// The first of the deck's sources with the id, if any.
pub open spec fn first_source(sources: Seq<DeckSource>, id: i32) -> Option<DeckSource>
    decreases sources.len(),
{
    if sources.len() == 0 {
        None
    } else if sources[0].id == id {
        Some(sources[0])
    } else {
        first_source(sources.drop_first(), id)
    }
}

/// How the deck form shows a source for one kind of cards: checked with the deck's threshold when
/// the deck's first entry for the source is of that kind, else unchecked with a threshold of 1.
pub fn source_state(sources: &Vec<DeckSource>, source_id: i32, kind: DeckSourceKind) -> (state: (bool, i32))
    ensures
        state == match first_source(sources@, source_id) {
            Some(s) => if s.kind == kind {
                (true, s.threshold)
            } else {
                (false, 1i32)
            },
            None => (false, 1i32),
        },
{
    let mut i: usize = 0;
    assert(sources@.skip(0) =~= sources@);
    while i < sources.len()
        invariant
            i <= sources.len(),
            first_source(sources@, source_id) == first_source(sources@.skip(i as int), source_id),
        decreases sources.len() - i,
    {
        let ghost rest = sources@.skip(i as int);
        assert(rest.drop_first() =~= sources@.skip(i + 1));
        assert(rest[0] == sources@[i as int]);
        if sources[i].id == source_id {
            if sources[i].kind == kind {
                return (true, sources[i].threshold);
            } else {
                return (false, 1);
            }
        }
        i += 1;
    }
    (false, 1)
}

} // verus!
