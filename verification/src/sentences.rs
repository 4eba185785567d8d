//! The rows that saving the words of a sentence writes to the database.
use crate::api::{copy_opt, opt_view, Word, WordView};
use crate::japanese::{
    chosen_conversion, furigana_candidates, furigana_error_text, try_map_to_db_furigana,
    Conversion, DbFurigana, FuriganaError,
};
use crate::text::{byte_substring, get_substring, valid_byte_range};
use std::collections::{HashMap, HashSet};
use vstd::prelude::*;
use vstd::string::StringExecFns;

verus! {

broadcast use vstd::std_specs::hash::group_hash_axioms;

/// The words of a sentence that a user saves, and the words that the user chose to ignore.
pub struct NewSentenceWords<'a> {
    pub user_id: i32,
    pub sentence_id: i32,
    pub sentence: &'a str,
    pub words: Vec<Word>,
    pub ignore_words: HashSet<i32>,
}

/// A row of the sentence words table.
pub struct SentenceWordRow {
    pub sentence_id: i32,
    pub word_id: Option<i32>,
    pub reading: Option<String>,
    pub idx_start: i32,
    pub idx_end: i32,
    pub furigana: Vec<DbFurigana>,
}

pub struct SentenceWordRowView {
    pub sentence_id: i32,
    pub word_id: Option<i32>,
    pub reading: Option<Seq<char>>,
    pub idx_start: i32,
    pub idx_end: i32,
    pub furigana: Seq<DbFurigana>,
}

impl View for SentenceWordRow {
    type V = SentenceWordRowView;

    open spec fn view(&self) -> SentenceWordRowView {
        SentenceWordRowView {
            sentence_id: self.sentence_id,
            word_id: self.word_id,
            reading: opt_view(self.reading),
            idx_start: self.idx_start,
            idx_end: self.idx_end,
            furigana: self.furigana@,
        }
    }
}

/// A row of the ignored words table.
#[derive(Debug, Clone, Copy, PartialEq, Eq, Structural)]
pub struct IgnoredWordRow {
    pub word_id: i32,
    pub user_id: i32,
}

/// Why the words of a sentence could not be saved.
#[derive(Debug, PartialEq, Eq)]
pub enum SentenceWordsError {
    /// A word's byte offsets do not delimit a part of the sentence.
    InvalidIndexes,
    /// The reading of a word could not be mapped onto the word's text in the sentence.
    Furigana { word: String, reading: String, error: FuriganaError },
}

pub enum SentenceWordsErrorView {
    InvalidIndexes,
    Furigana { word: Seq<char>, reading: Seq<char>, error: FuriganaError },
}

impl View for SentenceWordsError {
    type V = SentenceWordsErrorView;

    open spec fn view(&self) -> SentenceWordsErrorView {
        match self {
            SentenceWordsError::InvalidIndexes => SentenceWordsErrorView::InvalidIndexes,
            SentenceWordsError::Furigana { word, reading, error } => SentenceWordsErrorView::Furigana {
                word: word@,
                reading: reading@,
                error: *error,
            },
        }
    }
}

/// The message the server answers with for the error.
pub open spec fn sentence_words_error_text(e: SentenceWordsErrorView) -> Seq<char> {
    match e {
        SentenceWordsErrorView::InvalidIndexes => "Request had invalid indexes for word"@,
        SentenceWordsErrorView::Furigana { reading, .. } => "Failed to map furigana to reading for "@ + reading,
    }
}

/// The message of the error beneath it: for a reading that could not be mapped, why not.
pub open spec fn sentence_words_error_cause(e: SentenceWordsErrorView) -> Option<Seq<char>> {
    match e {
        SentenceWordsErrorView::InvalidIndexes => None,
        SentenceWordsErrorView::Furigana { word, reading, error } => Some(furigana_error_text(error, word, reading)),
    }
}

impl SentenceWordsError {
    /// The message the server answers with for the error.
    pub fn message(&self) -> (m: String)
        ensures
            m@ == sentence_words_error_text(self@),
    {
        match self {
            SentenceWordsError::InvalidIndexes => String::from_str("Request had invalid indexes for word"),
            SentenceWordsError::Furigana { reading, .. } => {
                let mut m = String::from_str("Failed to map furigana to reading for ");
                m.append(reading.as_str());
                m
            },
        }
    }

    /// The message of the error beneath it, if any.
    pub fn cause(&self) -> (m: Option<String>)
        ensures
            opt_view(m) == sentence_words_error_cause(self@),
    {
        match self {
            SentenceWordsError::InvalidIndexes => None,
            SentenceWordsError::Furigana { word, reading, error } => Some(error.message(word.as_str(), reading.as_str())),
        }
    }
}

/// Whether the word's byte offsets delimit a part of the sentence.
pub open spec fn indexes_valid(sentence: Seq<char>, w: WordView) -> bool {
    0 <= w.idx_start && 0 <= w.idx_end && valid_byte_range(sentence, w.idx_start as int, w.idx_end as int)
}

/// The row saved for one word, or the error that saving it meets. The furigana is that of the
/// word's reading mapped onto the word's text in the sentence; a word without a reading has none.
pub open spec fn word_row(
    sentence_id: i32,
    sentence: Seq<char>,
    w: WordView,
    kanji_to_readings: Map<Seq<char>, Seq<Seq<char>>>,
) -> Result<SentenceWordRowView, SentenceWordsErrorView> {
    if !indexes_valid(sentence, w) {
        Err(SentenceWordsErrorView::InvalidIndexes)
    } else {
        let row = |furigana: Seq<DbFurigana>|
            SentenceWordRowView {
                sentence_id,
                word_id: w.id,
                reading: w.reading,
                idx_start: w.idx_start,
                idx_end: w.idx_end,
                furigana,
            };
        match w.reading {
            None => Ok(row(seq![])),
            Some(reading) => {
                let text = byte_substring(sentence, w.idx_start as int, w.idx_end as int);
                match chosen_conversion(furigana_candidates(text, reading, kanji_to_readings)) {
                    None => Err(SentenceWordsErrorView::Furigana { word: text, reading, error: FuriganaError::NoMapping }),
                    Some(Conversion::Converted(fs)) => Ok(row(fs)),
                    Some(_) => Err(SentenceWordsErrorView::Furigana { word: text, reading, error: FuriganaError::TooLong }),
                }
            },
        }
    }
}

/// The rows saved for the words, in order, or the error that the first word that fails meets.
pub open spec fn word_rows(
    sentence_id: i32,
    sentence: Seq<char>,
    words: Seq<WordView>,
    kanji_to_readings: Map<Seq<char>, Seq<Seq<char>>>,
) -> Result<Seq<SentenceWordRowView>, SentenceWordsErrorView>
    decreases words.len(),
{
    if words.len() == 0 {
        Ok(seq![])
    } else {
        match word_rows(sentence_id, sentence, words.drop_last(), kanji_to_readings) {
            Err(e) => Err(e),
            Ok(rows) => match word_row(sentence_id, sentence, words.last(), kanji_to_readings) {
                Err(e) => Err(e),
                Ok(row) => Ok(rows.push(row)),
            },
        }
    }
}

/// The first error among the words is the error of every longer list of words.
proof fn lemma_word_rows_error_stays(
    sentence_id: i32,
    sentence: Seq<char>,
    words: Seq<WordView>,
    n: int,
    kanji_to_readings: Map<Seq<char>, Seq<Seq<char>>>,
)
    requires
        0 <= n <= words.len(),
        word_rows(sentence_id, sentence, words.take(n), kanji_to_readings) is Err,
    ensures
        word_rows(sentence_id, sentence, words, kanji_to_readings) == word_rows(sentence_id, sentence, words.take(n), kanji_to_readings),
    decreases words.len() - n,
{
    if n < words.len() {
        assert(words.take(n + 1).drop_last() =~= words.take(n));
        lemma_word_rows_error_stays(sentence_id, sentence, words, n + 1, kanji_to_readings);
    } else {
        assert(words.take(n) =~= words);
    }
}

pub open spec fn words_view(words: Seq<Word>) -> Seq<WordView> {
    words.map_values(|w: Word| w@)
}

pub open spec fn rows_view(rows: Seq<SentenceWordRow>) -> Seq<SentenceWordRowView> {
    rows.map_values(|r: SentenceWordRow| r@)
}

/// Builds the sentence word rows for the words of a sentence, mapping each word's reading onto
/// the word's text in the sentence. A word whose reading would take the furigana's byte offsets
/// past `i32::MAX` is reported as too long.
pub fn sentence_word_rows(
    kanji_to_readings: &HashMap<String, Vec<String>>,
    new_sentence_words: &NewSentenceWords,
) -> (res: Result<Vec<SentenceWordRow>, SentenceWordsError>)
    ensures
        match word_rows(
            new_sentence_words.sentence_id,
            new_sentence_words.sentence@,
            words_view(new_sentence_words.words@),
            kanji_to_readings.deep_view(),
        ) {
            Ok(rows) => res matches Ok(v) && rows_view(v@) == rows,
            Err(e) => res matches Err(x) && x@ == e,
        },
{
    let sentence_id = new_sentence_words.sentence_id;
    let sentence = new_sentence_words.sentence;
    let words = &new_sentence_words.words;
    let ghost kmap = kanji_to_readings.deep_view();
    let ghost ws = words_view(words@);
    let mut rows: Vec<SentenceWordRow> = Vec::new();
    let mut i: usize = 0;
    assert(ws.take(0) =~= Seq::<WordView>::empty());
    assert(rows_view(rows@) =~= Seq::<SentenceWordRowView>::empty());
    while i < words.len()
        invariant
            i <= words.len(),
            ws == words_view(words@),
            ws.len() == words.len(),
            kmap == kanji_to_readings.deep_view(),
            sentence_id == new_sentence_words.sentence_id,
            sentence@ == new_sentence_words.sentence@,
            words@ == new_sentence_words.words@,
            word_rows(sentence_id, sentence@, ws.take(i as int), kmap) == Ok::<Seq<SentenceWordRowView>, SentenceWordsErrorView>(rows_view(rows@)),
        decreases words.len() - i,
    {
        let word = &words[i];
        let ghost prefix = ws.take(i + 1);
        proof {
            assert(prefix.drop_last() =~= ws.take(i as int));
            assert(prefix.last() == word@);
        }
        if word.idx_start < 0 || word.idx_end < 0 {
            proof {
                lemma_word_rows_error_stays(sentence_id, sentence@, ws, i + 1, kmap);
            }
            return Err(SentenceWordsError::InvalidIndexes);
        }
        let text = match get_substring(sentence, word.idx_start as usize, word.idx_end as usize) {
            Some(text) => text,
            None => {
                proof {
                    lemma_word_rows_error_stays(sentence_id, sentence@, ws, i + 1, kmap);
                }
                return Err(SentenceWordsError::InvalidIndexes);
            },
        };
        let furigana = match &word.reading {
            None => Vec::new(),
            Some(reading) => match try_map_to_db_furigana(text.as_str(), reading.as_str(), kanji_to_readings) {
                Some(Ok(furigana)) => furigana,
                Some(Err(e)) => {
                    proof {
                        lemma_word_rows_error_stays(sentence_id, sentence@, ws, i + 1, kmap);
                    }
                    return Err(SentenceWordsError::Furigana { word: text, reading: reading.clone(), error: e });
                },
                None => {
                    proof {
                        lemma_word_rows_error_stays(sentence_id, sentence@, ws, i + 1, kmap);
                    }
                    return Err(SentenceWordsError::Furigana { word: text, reading: reading.clone(), error: FuriganaError::TooLong });
                },
            },
        };
        let row = SentenceWordRow {
            sentence_id,
            word_id: word.id,
            reading: copy_opt(&word.reading),
            idx_start: word.idx_start,
            idx_end: word.idx_end,
            furigana,
        };
        let ghost prev = rows@;
        rows.push(row);
        proof {
            assert(rows_view(rows@) =~= rows_view(prev).push(row@));
            assert(row@.furigana =~= seq![] || word.reading is Some);
        }
        i += 1;
    }
    assert(ws.take(words.len() as int) =~= ws);
    Ok(rows)
}

/// The ignored word rows for the words that the user chose to ignore: one row per word.
pub fn ignored_word_rows(user_id: i32, ignore_words: &HashSet<i32>) -> (rows: Vec<IgnoredWordRow>)
    ensures
        rows@.map_values(|r: IgnoredWordRow| r.word_id).to_set() == ignore_words@,
        rows@.map_values(|r: IgnoredWordRow| r.word_id).no_duplicates(),
        forall|i: int| 0 <= i < rows@.len() ==> (#[trigger] rows@[i]).user_id == user_id,
{
    let mut rows: Vec<IgnoredWordRow> = Vec::new();
    for word_id in it: ignore_words.iter()
        invariant
            rows@.len() == it.index(),
            it.seq().unref().to_set() == ignore_words@,
            it.seq().unref().no_duplicates(),
            forall|k: int| 0 <= k < rows@.len() ==> #[trigger] rows@[k] == (IgnoredWordRow { word_id: *it.seq()[k], user_id }),
        ensures
            rows@.map_values(|r: IgnoredWordRow| r.word_id) =~= it.seq().unref(),
            it.seq().unref().to_set() == ignore_words@,
            it.seq().unref().no_duplicates(),
            forall|k: int| 0 <= k < rows@.len() ==> (#[trigger] rows@[k]).user_id == user_id,
    {
        rows.push(IgnoredWordRow { word_id: *word_id, user_id });
    }
    rows
}

// ---------------------------------------------------------------------------------------------
// The words of a saved sentence
// ---------------------------------------------------------------------------------------------

/// A saved word of a sentence, as the sentence's page shows it.
pub struct SentenceWordDetails {
    pub word: String,
    pub reading: String,
    pub sentence_word_reading: Option<String>,
    pub idx_start: i32,
    pub idx_end: i32,
    pub furigana: Vec<DbFurigana>,
    pub translations: Vec<String>,
}

/// A saved word of a sentence as read from the database: the columns of the database hold
/// optional entries even where none is ever missing.
pub struct SentenceWordRecord {
    pub word: String,
    pub reading: String,
    pub sentence_word_reading: Option<String>,
    pub idx_start: i32,
    pub idx_end: i32,
    pub furigana: Vec<Option<DbFurigana>>,
    pub translations: Vec<Option<String>>,
}

/// The furigana that are present.
pub fn present_furigana(fs: &Vec<Option<DbFurigana>>) -> (present: Vec<DbFurigana>)
    ensures
        present@ == crate::decks::present(fs@),
{
    let mut out: Vec<DbFurigana> = Vec::new();
    let mut i: usize = 0;
    while i < fs.len()
        invariant
            i <= fs.len(),
            out@ == crate::decks::present(fs@.take(i as int)),
        decreases fs.len() - i,
    {
        let ghost t = fs@.take(i + 1);
        assert(t.drop_last() =~= fs@.take(i as int));
        assert(t.last() == fs@[i as int]);
        let ghost prev = out@;
        if let Some(f) = fs[i] {
            out.push(f);
            assert(crate::decks::present(t) =~= prev.push(f));
        } else {
            assert(crate::decks::present(t) =~= prev);
        }
        i += 1;
    }
    assert(fs@.take(fs.len() as int) =~= fs@);
    out
}

/// A saved word of a sentence as the sentence's page shows it: with the furigana and the
/// translations that are present.
pub fn sentence_word_details(record: SentenceWordRecord) -> (details: SentenceWordDetails)
    ensures
        details.word@ == record.word@,
        details.reading@ == record.reading@,
        opt_view(details.sentence_word_reading) == opt_view(record.sentence_word_reading),
        details.idx_start == record.idx_start,
        details.idx_end == record.idx_end,
        details.furigana@ == crate::decks::present(record.furigana@),
        crate::api::strings_view(details.translations@) == crate::decks::present_strings(
            crate::decks::opt_strings_view(record.translations@),
        ),
{
    let furigana = present_furigana(&record.furigana);
    let translations = crate::decks::flatten_strings(&record.translations);
    assert(crate::api::strings_view(translations@) == translations@.map_values(|t: String| t@));
    SentenceWordDetails {
        word: record.word,
        reading: record.reading,
        sentence_word_reading: record.sentence_word_reading,
        idx_start: record.idx_start,
        idx_end: record.idx_end,
        furigana,
        translations,
    }
}

} // verus!
