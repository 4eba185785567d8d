//! Core logic of LBR, a tool for studying Japanese from sentences.
use vstd::prelude::*;

pub mod analysis;
pub mod api;
pub mod chunks;
pub mod decks;
pub mod dictionary;
pub mod error;
pub mod extra_kanji;
pub mod form;
pub mod frontend;
pub mod ichiran;
pub mod japanese;
pub mod pages;
pub mod phrase_form;
pub mod kanji_names;
pub mod queries;
pub mod segmenting;
pub mod sentences;
pub mod text;
pub mod words;

verus! {

} // verus!
