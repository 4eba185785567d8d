# lbr

The core logic of LBR, a tool for learning Japanese from sentences: the user adds sentences,
accepts the words the analysis finds in them, and generates Anki decks of word and kanji cards.
The logic is written in Verus, each public function with a contract that states its result, and
proved.

## Layout

- `src/`: the verified library.
  - `text.rs`: byte-indexed views of UTF-8 text, and the byte order in which strings compare.
  - `api.rs`: the request and response types shared by the server and the frontend.
  - `japanese.rs`: kanji readings and the conversion of furigana to byte ranges, on top of the
    `furigana` crate.
  - `ichiran.rs`: mapping the analyser's dictionary entries to LBR words through the
    conjugation table.
  - `dictionary.rs`, `extra_kanji.rs`: building the word and kanji tables from the dictionaries,
    and keeping the file of extra kanji complete.
  - `sentences.rs`, `segmenting.rs`, `words.rs`, `queries.rs`: saving the words of sentences,
    answering analyses, meanings and ignored words.
  - `decks.rs`: the word and kanji cards of a deck.
  - `chunks.rs`: splitting inserts so that each fits PostgreSQL's limit on bind parameters.
  - `form.rs`, `analysis.rs`, `phrase_form.rs`, `frontend.rs`, `pages.rs`: the decisions of the
    web frontend: the word form of an analysed sentence, the forms' checks, the deck form, and
    what the pages list.
  - `kanji_names.rs`: choosing names for the common kanji that have none.
  - `error.rs`: the error types.
- `tests/`: tests of the library on concrete values.
- `app/`: ordinary Rust around the library: the serde and thiserror copies of the error types,
  raw responses, the file of extra kanji and the interactive naming of kanji.
