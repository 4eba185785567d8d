//! Request and response types exchanged between the web frontend and the server.
use std::collections::HashSet;
use std::ops::Range;
use vstd::prelude::*;

verus! {

/// A word of a sentence, located by byte offsets into the sentence.
pub struct Word {
    /// The LBR word, `None` for a reading that is not tied to a known word.
    pub id: Option<i32>,
    pub reading: Option<String>,
    pub idx_start: i32,
    pub idx_end: i32,
}

/// A sentence together with the words the user accepted in it and the words to ignore.
pub struct SegmentedSentence {
    pub sentence: String,
    pub words: Vec<Word>,
    pub ignore_words: HashSet<i32>,
}

/// A meaning of a word.
pub struct Meaning {
    pub meaning: String,
    pub meaning_info: Option<String>,
}

/// One way of reading a segment of a sentence.
pub struct ApiInterpretation {
    pub word_id: Option<i32>,
    pub score: i32,
    pub text_word: String,
    pub text_reading_hiragana: String,
    pub db_word: String,
    pub db_reading_hiragana: String,
    pub meanings: Vec<Meaning>,
}

/// A segment of a sentence with its possible interpretations.
pub struct ApiSegment {
    pub text: String,
    pub interpretations: Vec<ApiInterpretation>,
    /// The byte range of the segment in the sentence.
    pub range: Range<usize>,
}

/// The view of an optional string.
pub open spec fn opt_view(o: Option<String>) -> Option<Seq<char>> {
    match o {
        Some(s) => Some(s@),
        None => None,
    }
}

/// Copies an optional string.
pub fn copy_opt(s: &Option<String>) -> (c: Option<String>)
    ensures
        opt_view(c) == opt_view(*s),
{
    match s {
        Some(s) => Some(s.clone()),
        None => None,
    }
}

/// The view of a list of strings.
pub open spec fn strings_view(v: Seq<String>) -> Seq<Seq<char>> {
    v.map_values(|s: String| s@)
}

pub struct WordView {
    pub id: Option<i32>,
    pub reading: Option<Seq<char>>,
    pub idx_start: i32,
    pub idx_end: i32,
}

impl View for Word {
    type V = WordView;

    open spec fn view(&self) -> WordView {
        WordView {
            id: self.id,
            reading: opt_view(self.reading),
            idx_start: self.idx_start,
            idx_end: self.idx_end,
        }
    }
}

pub struct MeaningView {
    pub meaning: Seq<char>,
    pub meaning_info: Option<Seq<char>>,
}

impl View for Meaning {
    type V = MeaningView;

    open spec fn view(&self) -> MeaningView {
        MeaningView { meaning: self.meaning@, meaning_info: opt_view(self.meaning_info) }
    }
}

pub struct InterpretationView {
    pub word_id: Option<i32>,
    pub score: i32,
    pub text_word: Seq<char>,
    pub text_reading_hiragana: Seq<char>,
    pub db_word: Seq<char>,
    pub db_reading_hiragana: Seq<char>,
    pub meanings: Seq<MeaningView>,
}

impl View for ApiInterpretation {
    type V = InterpretationView;

    open spec fn view(&self) -> InterpretationView {
        InterpretationView {
            word_id: self.word_id,
            score: self.score,
            text_word: self.text_word@,
            text_reading_hiragana: self.text_reading_hiragana@,
            db_word: self.db_word@,
            db_reading_hiragana: self.db_reading_hiragana@,
            meanings: self.meanings@.map_values(|m: Meaning| m@),
        }
    }
}

pub struct SegmentView {
    pub text: Seq<char>,
    pub interpretations: Seq<InterpretationView>,
    pub start: usize,
    pub end: usize,
}

impl View for ApiSegment {
    type V = SegmentView;

    open spec fn view(&self) -> SegmentView {
        SegmentView {
            text: self.text@,
            interpretations: self.interpretations@.map_values(|i: ApiInterpretation| i@),
            start: self.range.start,
            end: self.range.end,
        }
    }
}

} // verus!
