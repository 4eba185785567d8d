//! Choosing names for the common kanji that have none yet.
use crate::api::strings_view;
use crate::decks::{flatten_strings, keep, opt_strings_view, present_strings};
use crate::dictionary::{contains_str, join, join_strings, word_sort_key, word_sort_key_spec};
use vstd::prelude::*;
use vstd::string::StringExecFns;

verus! {

/// A word that uses a kanji: the kanji's meanings, the word and the word's translations, each
/// joined with commas.
pub type KanjiWordEntry = (String, String, String);

pub open spec fn entry_view(e: KanjiWordEntry) -> (Seq<char>, Seq<char>, Seq<char>) {
    (e.0@, e.1@, e.2@)
}

pub open spec fn entries_view(es: Seq<KanjiWordEntry>) -> Seq<(Seq<char>, Seq<char>, Seq<char>)> {
    es.map_values(|e: KanjiWordEntry| entry_view(e))
}

/// Joins the present strings with commas.
fn join_present(ts: &Vec<Option<String>>) -> (joined: String)
    ensures
        joined@ == join(present_strings(opt_strings_view(ts@)), ", "@),
{
    let present = flatten_strings(ts);
    let mut parts: Vec<&str> = Vec::new();
    let mut i: usize = 0;
    while i < present.len()
        invariant
            i <= present.len(),
            parts@.map_values(|p: &str| p@) == strings_view(present@).take(i as int),
        decreases present.len() - i,
    {
        let ghost prev = parts@;
        parts.push(present[i].as_str());
        assert(parts@.map_values(|p: &str| p@) =~= prev.map_values(|p: &str| p@).push(present@[i as int]@));
        assert(strings_view(present@).take(i + 1) =~= strings_view(present@).take(i as int).push(present@[i as int]@));
        i += 1;
    }
    assert(strings_view(present@).take(present.len() as int) =~= strings_view(present@));
    assert(strings_view(present@) == present@.map_values(|t: String| t@));
    join_strings(&parts, ", ")
}

/// The entry of a word that uses a kanji: the kanji's present meanings, the word and the word's
/// present translations, the meanings and the translations each joined with commas.
pub fn kanji_word_entry(kanji_meanings: &Vec<Option<String>>, word: &str, translations: &Vec<Option<String>>) -> (e: KanjiWordEntry)
    ensures
        entry_view(e) == (
            join(present_strings(opt_strings_view(kanji_meanings@)), ", "@),
            word@,
            join(present_strings(opt_strings_view(translations@)), ", "@),
        ),
{
    (join_present(kanji_meanings), word.to_string(), join_present(translations))
}

/// Whether the entries are listed by their word's key, smallest first.
pub open spec fn sorted_by_word_key(es: Seq<(Seq<char>, Seq<char>, Seq<char>)>) -> bool {
    forall|i: int, j: int| 0 <= i < j < es.len() ==> word_sort_key_spec((#[trigger] es[i]).1) <= word_sort_key_spec((#[trigger] es[j]).1)
}

/// Inserts `x` after every entry whose key is not greater.
fn insert_by_key(sorted: &mut Vec<KanjiWordEntry>, x: KanjiWordEntry)
    requires
        sorted_by_word_key(entries_view(old(sorted)@)),
    ensures
        sorted_by_word_key(entries_view(final(sorted)@)),
        entries_view(final(sorted)@).to_multiset() == entries_view(old(sorted)@).to_multiset().insert(entry_view(x)),
{
    let kx = word_sort_key(x.1.as_str());
    let ghost before = entries_view(sorted@);
    let mut pos: usize = 0;
    while pos < sorted.len() && word_sort_key(sorted[pos].1.as_str()) <= kx
        invariant
            pos <= sorted.len(),
            sorted@ == old(sorted)@,
            before == entries_view(sorted@),
            kx == word_sort_key_spec(x.1@),
            forall|i: int| 0 <= i < pos ==> word_sort_key_spec((#[trigger] before[i]).1) <= kx,
        decreases sorted.len() - pos,
    {
        assert(before[pos as int] == entry_view(sorted@[pos as int]));
        pos += 1;
    }
    proof {
        if pos < sorted.len() {
            assert(before[pos as int] == entry_view(sorted@[pos as int]));
            assert(word_sort_key_spec(before[pos as int].1) > kx);
        }
    }
    let ghost old_sorted = sorted@;
    sorted.insert(pos, x);
    proof {
        let after = entries_view(sorted@);
        assert(sorted@ =~= old_sorted.insert(pos as int, x));
        assert(after =~= before.insert(pos as int, entry_view(x)));
        assert forall|i: int, j: int| 0 <= i < j < after.len() implies word_sort_key_spec((#[trigger] after[i]).1) <= word_sort_key_spec((#[trigger] after[j]).1) by {
            if j < pos {
                assert(after[i] == before[i] && after[j] == before[j]);
            } else if j == pos {
                assert(after[i] == before[i]);
            } else if i < pos {
                assert(after[i] == before[i] && after[j] == before[j - 1]);
                if pos < j - 1 {
                    assert(word_sort_key_spec(before[pos as int].1) <= word_sort_key_spec(before[j - 1].1));
                }
            } else if i == pos {
                assert(after[j] == before[j - 1]);
                if pos < j - 1 {
                    assert(word_sort_key_spec(before[pos as int].1) <= word_sort_key_spec(before[j - 1].1));
                }
            } else {
                assert(after[i] == before[i - 1] && after[j] == before[j - 1]);
            }
        }
        assert(after.remove(pos as int) =~= before);
        after.to_multiset_ensures();
        assert(after[pos as int] == entry_view(x));
        assert(after.to_multiset() =~= before.to_multiset().insert(entry_view(x)));
    }
}

/// Lists the words of a kanji by their key: words with fewer kanji first, and among those,
/// shorter words first.
pub fn sort_kanji_words(words: Vec<KanjiWordEntry>) -> (sorted: Vec<KanjiWordEntry>)
    ensures
        sorted_by_word_key(entries_view(sorted@)),
        entries_view(sorted@).to_multiset() == entries_view(words@).to_multiset(),
{
    let ghost all = entries_view(words@);
    let mut rest = words;
    let mut sorted: Vec<KanjiWordEntry> = Vec::new();
    proof {
        entries_view(sorted@).to_multiset_ensures();
        vstd::multiset::lemma_multiset_empty_len(entries_view(sorted@).to_multiset());
        assert(entries_view(rest@) == all);
        assert(all.to_multiset() =~= entries_view(sorted@).to_multiset().add(entries_view(rest@).to_multiset()));
    }
    while rest.len() > 0
        invariant
            sorted_by_word_key(entries_view(sorted@)),
            all.to_multiset() == entries_view(sorted@).to_multiset().add(entries_view(rest@).to_multiset()),
        decreases rest.len(),
    {
        let ghost before_rest = entries_view(rest@);
        let ghost before_sorted = entries_view(sorted@);
        let x = match rest.pop() {
            Some(x) => x,
            None => {
                return sorted;
            },
        };
        proof {
            assert(before_rest =~= entries_view(rest@).push(entry_view(x)));
            entries_view(rest@).to_multiset_ensures();
            assert(before_rest.to_multiset() =~= entries_view(rest@).to_multiset().insert(entry_view(x)));
        }
        insert_by_key(&mut sorted, x);
        proof {
            assert(all.to_multiset() =~= entries_view(sorted@).to_multiset().add(entries_view(rest@).to_multiset()));
        }
    }
    proof {
        entries_view(rest@).to_multiset_ensures();
        vstd::multiset::lemma_multiset_empty_len(entries_view(rest@).to_multiset());
        assert(all.to_multiset() =~= entries_view(sorted@).to_multiset());
    }
    sorted
}

/// The most common kanji without a name that the names file does not name either, in the order
/// given: `(kanji, number of sentences)`.
pub fn unnamed_kanji(common_unnamed: &Vec<(String, i64)>, named: &Vec<String>) -> (unnamed: Vec<(String, i64)>)
    ensures
        unnamed@.map_values(|c: (String, i64)| (c.0@, c.1)) == keep(
            common_unnamed@.map_values(|c: (String, i64)| (c.0@, c.1)),
            |c: (Seq<char>, i64)| !strings_view(named@).contains(c.0),
        ),
{
    let ghost all = common_unnamed@.map_values(|c: (String, i64)| (c.0@, c.1));
    let ghost p = |c: (Seq<char>, i64)| !strings_view(named@).contains(c.0);
    let mut unnamed: Vec<(String, i64)> = Vec::new();
    let mut i: usize = 0;
    while i < common_unnamed.len()
        invariant
            i <= common_unnamed.len(),
            all == common_unnamed@.map_values(|c: (String, i64)| (c.0@, c.1)),
            p == (|c: (Seq<char>, i64)| !strings_view(named@).contains(c.0)),
            unnamed@.map_values(|c: (String, i64)| (c.0@, c.1)) == keep(all.take(i as int), p),
        decreases common_unnamed.len() - i,
    {
        let ghost t = all.take(i + 1);
        assert(t.drop_last() =~= all.take(i as int));
        assert(t.last() == (common_unnamed@[i as int].0@, common_unnamed@[i as int].1));
        let ghost prev = unnamed@;
        if !contains_str(named, common_unnamed[i].0.as_str()) {
            unnamed.push((common_unnamed[i].0.clone(), common_unnamed[i].1));
            assert(unnamed@.map_values(|c: (String, i64)| (c.0@, c.1)) =~= prev.map_values(|c: (String, i64)| (c.0@, c.1)).push((common_unnamed@[i as int].0@, common_unnamed@[i as int].1)));
        }
        i += 1;
    }
    assert(all.take(common_unnamed.len() as int) =~= all);
    unnamed
}

// ---------------------------------------------------------------------------------------------
// Checking the names file
// ---------------------------------------------------------------------------------------------

/// The names that repeat an earlier name, one for each repetition, in order.
pub open spec fn repeated_names(names: Seq<Seq<char>>) -> Seq<Seq<char>>
    decreases names.len(),
{
    if names.len() == 0 {
        seq![]
    } else {
        repeated_names(names.drop_last()) + if names.drop_last().contains(names.last()) {
            seq![names.last()]
        } else {
            seq![]
        }
    }
}

/// The names that repeat an earlier name, one for each repetition, in order.
pub fn duplicate_names(names: &Vec<String>) -> (dupes: Vec<String>)
    ensures
        strings_view(dupes@) == repeated_names(strings_view(names@)),
{
    let ghost all = strings_view(names@);
    let mut dupes: Vec<String> = Vec::new();
    let mut seen: Vec<String> = Vec::new();
    let mut i: usize = 0;
    while i < names.len()
        invariant
            i <= names.len(),
            all == strings_view(names@),
            strings_view(seen@) == all.take(i as int),
            strings_view(dupes@) == repeated_names(all.take(i as int)),
        decreases names.len() - i,
    {
        let ghost t = all.take(i + 1);
        assert(t.drop_last() =~= all.take(i as int));
        assert(t.last() == names@[i as int]@);
        let ghost prev_dupes = dupes@;
        let ghost prev_seen = seen@;
        if contains_str(&seen, names[i].as_str()) {
            dupes.push(names[i].clone());
            assert(strings_view(dupes@) =~= strings_view(prev_dupes).push(names@[i as int]@));
        } else {
            assert(repeated_names(t) =~= repeated_names(all.take(i as int)));
        }
        seen.push(names[i].clone());
        assert(strings_view(seen@) =~= strings_view(prev_seen).push(names@[i as int]@));
        assert(all.take(i + 1) =~= all.take(i as int).push(names@[i as int]@));
        i += 1;
    }
    assert(all.take(names.len() as int) =~= all);
    dupes
}

/// The kanji that the database names but the names file does not, with their names, in order:
/// `(kanji, name)`.
pub open spec fn unfiled_names(db: Seq<(Seq<char>, Option<Seq<char>>)>, filed: Seq<Seq<char>>) -> Seq<(Seq<char>, Seq<char>)>
    decreases db.len(),
{
    if db.len() == 0 {
        seq![]
    } else {
        unfiled_names(db.drop_last(), filed) + match db.last().1 {
            Some(name) => if filed.contains(db.last().0) {
                seq![]
            } else {
                seq![(db.last().0, name)]
            },
            None => seq![],
        }
    }
}

pub open spec fn db_names_view(db: Seq<(String, Option<String>)>) -> Seq<(Seq<char>, Option<Seq<char>>)> {
    db.map_values(|r: (String, Option<String>)| (r.0@, crate::api::opt_view(r.1)))
}

/// The kanji that the database names but the names file (`filed`, its kanji) does not, with
/// their names, in order.
pub fn missing_names(names_in_db: &Vec<(String, Option<String>)>, filed: &Vec<String>) -> (missing: Vec<(String, String)>)
    ensures
        missing@.map_values(|m: (String, String)| (m.0@, m.1@)) == unfiled_names(db_names_view(names_in_db@), strings_view(filed@)),
{
    let ghost db = db_names_view(names_in_db@);
    let mut missing: Vec<(String, String)> = Vec::new();
    let mut i: usize = 0;
    while i < names_in_db.len()
        invariant
            i <= names_in_db.len(),
            db == db_names_view(names_in_db@),
            missing@.map_values(|m: (String, String)| (m.0@, m.1@)) == unfiled_names(db.take(i as int), strings_view(filed@)),
        decreases names_in_db.len() - i,
    {
        let ghost t = db.take(i + 1);
        assert(t.drop_last() =~= db.take(i as int));
        assert(t.last() == db[i as int]);
        let (kanji, name) = &names_in_db[i];
        match name {
            Some(name) => {
                if !contains_str(filed, kanji.as_str()) {
                    let ghost prev = missing@;
                    missing.push((kanji.clone(), name.clone()));
                    assert(missing@.map_values(|m: (String, String)| (m.0@, m.1@)) =~= prev.map_values(|m: (String, String)| (m.0@, m.1@)).push((kanji@, name@)));
                } else {
                    assert(unfiled_names(t, strings_view(filed@)) =~= unfiled_names(db.take(i as int), strings_view(filed@)));
                }
            },
            None => {
                assert(unfiled_names(t, strings_view(filed@)) =~= unfiled_names(db.take(i as int), strings_view(filed@)));
            },
        }
        i += 1;
    }
    assert(db.take(names_in_db.len() as int) =~= db);
    missing
}

// ---------------------------------------------------------------------------------------------
// Asking for names
// ---------------------------------------------------------------------------------------------

/// Whether the character is whitespace: a character of Unicode's White_Space property.
pub open spec fn is_white_space(c: char) -> bool {
    let n = c as u32;
    ||| 0x9 <= n <= 0xd
    ||| n == 0x20
    ||| n == 0x85
    ||| n == 0xa0
    ||| n == 0x1680
    ||| 0x2000 <= n <= 0x200a
    ||| n == 0x2028
    ||| n == 0x2029
    ||| n == 0x202f
    ||| n == 0x205f
    ||| n == 0x3000
}

/// The text without its leading whitespace.
pub open spec fn trim_start_spec(s: Seq<char>) -> Seq<char>
    decreases s.len(),
{
    if s.len() > 0 && is_white_space(s[0]) {
        trim_start_spec(s.drop_first())
    } else {
        s
    }
}

/// The text without its trailing whitespace.
pub open spec fn trim_end_spec(s: Seq<char>) -> Seq<char>
    decreases s.len(),
{
    if s.len() > 0 && is_white_space(s.last()) {
        trim_end_spec(s.drop_last())
    } else {
        s
    }
}

/// The text without whitespace at either end.
pub open spec fn trim_spec(s: Seq<char>) -> Seq<char> {
    trim_end_spec(trim_start_spec(s))
}

/// Calls `str::trim`, which removes the whitespace at both ends of the text, whitespace being
/// the characters of Unicode's White_Space property.
#[verifier::external_body]
fn trim_line<'a>(line: &'a str) -> (t: &'a str)
    ensures
        t@ == trim_spec(line@),
{
    line.trim()
}

/// What the naming of the kanji does with a line that the user typed.
pub enum NamingAction {
    /// The line is blank: the naming ends.
    Stop,
    /// The name is taken already: the name is asked for again.
    AskAgain,
    /// The name is recorded for the kanji.
    Record(String),
}

pub enum NamingActionView {
    Stop,
    AskAgain,
    Record(Seq<char>),
}

impl View for NamingAction {
    type V = NamingActionView;

    open spec fn view(&self) -> NamingActionView {
        match self {
            NamingAction::Stop => NamingActionView::Stop,
            NamingAction::AskAgain => NamingActionView::AskAgain,
            NamingAction::Record(name) => NamingActionView::Record(name@),
        }
    }
}

/// What a line typed by the user does: a line that is blank once trimmed ends the naming, a
/// name that is among the existing ones is asked for again, and any other is recorded, trimmed.
pub open spec fn naming_action_spec(existing: Seq<Seq<char>>, line: Seq<char>) -> NamingActionView {
    let name = trim_spec(line);
    if name.len() == 0 {
        NamingActionView::Stop
    } else if existing.contains(name) {
        NamingActionView::AskAgain
    } else {
        NamingActionView::Record(name)
    }
}

/// Decides what a line that the user typed does, given the names that exist already.
pub fn naming_step(existing: &Vec<String>, line: &str) -> (a: NamingAction)
    ensures
        a@ == naming_action_spec(strings_view(existing@), line@),
{
    let name = trim_line(line);
    if name.is_empty() {
        NamingAction::Stop
    } else if contains_str(existing, name) {
        NamingAction::AskAgain
    } else {
        NamingAction::Record(String::from_str(name))
    }
}

} // verus!
