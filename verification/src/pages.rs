//! What the pages of the web frontend show: the lists of sources and decks in the order of
//! their names, the ignored words by id, and the words of a sentence in the order in which they
//! occur.
use crate::api::strings_view;
use crate::dictionary::{join, join_strings};
use crate::text::{
    byte_substring, lemma_bytes_le_total, lemma_bytes_le_transitive, str_le, substring, text_le,
    valid_byte_range,
};
use crate::words::{IgnoredWord, IgnoredWordView};
use vstd::prelude::*;
use vstd::string::StringExecFns;
use vstd::utf8::encode_utf8;

verus! {

// ---------------------------------------------------------------------------------------------
// Lists of sources and decks
// ---------------------------------------------------------------------------------------------

/// A source or a deck as the home page lists it: its id and its name.
pub struct NamedItem {
    pub id: i32,
    pub name: String,
}

pub open spec fn named_view(item: NamedItem) -> (i32, Seq<char>) {
    (item.id, item.name@)
}

pub open spec fn named_views(items: Seq<NamedItem>) -> Seq<(i32, Seq<char>)> {
    items.map_values(|item: NamedItem| named_view(item))
}

/// Whether the items are in the order of their names.
pub open spec fn sorted_by_name(items: Seq<(i32, Seq<char>)>) -> bool {
    forall|i: int, j: int| 0 <= i < j < items.len() ==> text_le((#[trigger] items[i]).1, (#[trigger] items[j]).1)
}

/// Inserts `x` after every item whose name does not come after its own.
fn insert_by_name(sorted: &mut Vec<NamedItem>, x: NamedItem)
    requires
        sorted_by_name(named_views(old(sorted)@)),
    ensures
        sorted_by_name(named_views(final(sorted)@)),
        named_views(final(sorted)@).to_multiset() == named_views(old(sorted)@).to_multiset().insert(named_view(x)),
{
    let ghost before = named_views(sorted@);
    let ghost kx = x.name@;
    let mut pos: usize = 0;
    while pos < sorted.len() && str_le(sorted[pos].name.as_str(), x.name.as_str())
        invariant
            pos <= sorted.len(),
            sorted@ == old(sorted)@,
            before == named_views(sorted@),
            kx == x.name@,
            forall|i: int| 0 <= i < pos ==> text_le((#[trigger] before[i]).1, kx),
        decreases sorted.len() - pos,
    {
        assert(before[pos as int] == named_view(sorted@[pos as int]));
        pos += 1;
    }
    proof {
        if pos < sorted.len() {
            assert(before[pos as int] == named_view(sorted@[pos as int]));
            lemma_bytes_le_total(encode_utf8(before[pos as int].1), encode_utf8(kx));
        }
    }
    let ghost old_sorted = sorted@;
    sorted.insert(pos, x);
    proof {
        let after = named_views(sorted@);
        assert(sorted@ =~= old_sorted.insert(pos as int, x));
        assert(after =~= before.insert(pos as int, named_view(x)));
        assert forall|i: int, j: int| 0 <= i < j < after.len() implies text_le((#[trigger] after[i]).1, (#[trigger] after[j]).1) by {
            if j < pos {
                assert(after[i] == before[i] && after[j] == before[j]);
            } else if j == pos {
                assert(after[i] == before[i]);
            } else if i < pos {
                assert(after[i] == before[i] && after[j] == before[j - 1]);
            } else if i == pos {
                assert(after[j] == before[j - 1]);
                if pos < j - 1 {
                    assert(text_le(before[pos as int].1, before[j - 1].1));
                    lemma_bytes_le_transitive(encode_utf8(kx), encode_utf8(before[pos as int].1), encode_utf8(before[j - 1].1));
                }
            } else {
                assert(after[i] == before[i - 1] && after[j] == before[j - 1]);
            }
        }
        assert(after.remove(pos as int) =~= before);
        after.to_multiset_ensures();
        assert(after[pos as int] == named_view(x));
        assert(after.to_multiset() =~= before.to_multiset().insert(named_view(x)));
    }
}

/// The sources or decks in the order of their names; those of the same name in some order.
pub fn sort_by_name(items: Vec<NamedItem>) -> (sorted: Vec<NamedItem>)
    ensures
        sorted_by_name(named_views(sorted@)),
        named_views(sorted@).to_multiset() == named_views(items@).to_multiset(),
{
    let ghost all = named_views(items@);
    let mut rest = items;
    let mut sorted: Vec<NamedItem> = Vec::new();
    proof {
        named_views(sorted@).to_multiset_ensures();
        vstd::multiset::lemma_multiset_empty_len(named_views(sorted@).to_multiset());
        assert(named_views(rest@) == all);
        assert(all.to_multiset() =~= named_views(sorted@).to_multiset().add(named_views(rest@).to_multiset()));
    }
    while rest.len() > 0
        invariant
            sorted_by_name(named_views(sorted@)),
            all.to_multiset() == named_views(sorted@).to_multiset().add(named_views(rest@).to_multiset()),
        decreases rest.len(),
    {
        let ghost before_rest = named_views(rest@);
        let x = match rest.pop() {
            Some(x) => x,
            None => {
                return sorted;
            },
        };
        proof {
            assert(before_rest =~= named_views(rest@).push(named_view(x)));
            named_views(rest@).to_multiset_ensures();
            assert(before_rest.to_multiset() =~= named_views(rest@).to_multiset().insert(named_view(x)));
        }
        insert_by_name(&mut sorted, x);
        proof {
            assert(all.to_multiset() =~= named_views(sorted@).to_multiset().add(named_views(rest@).to_multiset()));
        }
    }
    proof {
        named_views(rest@).to_multiset_ensures();
        vstd::multiset::lemma_multiset_empty_len(named_views(rest@).to_multiset());
        assert(all.to_multiset() =~= named_views(sorted@).to_multiset());
    }
    sorted
}

// ---------------------------------------------------------------------------------------------
// Joining texts
// ---------------------------------------------------------------------------------------------

/// The texts joined with commas.
pub fn join_with_commas(ts: &Vec<String>) -> (joined: String)
    ensures
        joined@ == join(strings_view(ts@), ", "@),
{
    let mut parts: Vec<&str> = Vec::new();
    let mut i: usize = 0;
    while i < ts.len()
        invariant
            i <= ts.len(),
            parts@.map_values(|p: &str| p@) == strings_view(ts@).take(i as int),
        decreases ts.len() - i,
    {
        let ghost prev = parts@;
        parts.push(ts[i].as_str());
        assert(parts@.map_values(|p: &str| p@) =~= prev.map_values(|p: &str| p@).push(ts@[i as int]@));
        assert(strings_view(ts@).take(i + 1) =~= strings_view(ts@).take(i as int).push(ts@[i as int]@));
        i += 1;
    }
    assert(strings_view(ts@).take(ts.len() as int) =~= strings_view(ts@));
    join_strings(&parts, ", ")
}

/// `text (note)`: the text followed by the note in brackets.
pub open spec fn with_note(text: Seq<char>, note: Seq<char>) -> Seq<char> {
    text + " ("@ + note + ")"@
}

fn append_note(text: &mut String, note: &str)
    ensures
        final(text)@ == with_note(old(text)@, note@),
{
    text.append(" (");
    text.append(note);
    text.append(")");
}

// ---------------------------------------------------------------------------------------------
// Ignored words
// ---------------------------------------------------------------------------------------------

/// How an ignored word is shown: its id, its written forms and its translations.
pub struct IgnoredWordLine {
    pub word_id: i32,
    pub written_forms: String,
    pub translations: String,
}

pub open spec fn line_view(l: IgnoredWordLine) -> (i32, Seq<char>, Seq<char>) {
    (l.word_id, l.written_forms@, l.translations@)
}

pub open spec fn line_views(ls: Seq<IgnoredWordLine>) -> Seq<(i32, Seq<char>, Seq<char>)> {
    ls.map_values(|l: IgnoredWordLine| line_view(l))
}

/// A written form with its readings after it in brackets, joined with commas; the written form
/// alone where the joined readings are empty.
pub open spec fn written_form_text(form: (Seq<char>, Seq<Seq<char>>)) -> Seq<char> {
    let readings = join(form.1, ", "@);
    if readings.len() == 0 {
        form.0
    } else {
        with_note(form.0, readings)
    }
}

/// How the ignored word is shown: its id, its written forms joined with commas and its
/// translations joined with commas.
pub open spec fn ignored_word_line(w: IgnoredWordView) -> (i32, Seq<char>, Seq<char>) {
    (
        w.word_id,
        join(w.written_forms.map_values(|f: (Seq<char>, Seq<Seq<char>>)| written_form_text(f)), ", "@),
        join(w.translations, ", "@),
    )
}

/// Whether the lines are in the order of their word ids.
pub open spec fn sorted_by_word_id(ls: Seq<(i32, Seq<char>, Seq<char>)>) -> bool {
    forall|i: int, j: int| 0 <= i < j < ls.len() ==> (#[trigger] ls[i]).0 <= (#[trigger] ls[j]).0
}

/// How the ignored word is shown.
pub fn ignored_word_line_of(w: &IgnoredWord) -> (line: IgnoredWordLine)
    ensures
        line_view(line) == ignored_word_line(w@),
{
    let ghost forms = w@.written_forms;
    let mut texts: Vec<String> = Vec::new();
    let mut i: usize = 0;
    while i < w.written_forms.len()
        invariant
            i <= w.written_forms.len(),
            forms == w@.written_forms,
            strings_view(texts@) == forms.take(i as int).map_values(|f: (Seq<char>, Seq<Seq<char>>)| written_form_text(f)),
        decreases w.written_forms.len() - i,
    {
        let form = &w.written_forms[i];
        assert(forms[i as int] == (form.written_form@, strings_view(form.readings@)));
        let readings = join_with_commas(&form.readings);
        let mut text = form.written_form.clone();
        if !readings.as_str().is_empty() {
            append_note(&mut text, readings.as_str());
        }
        let ghost prev = texts@;
        texts.push(text);
        proof {
            assert(strings_view(texts@) =~= strings_view(prev).push(written_form_text(forms[i as int])));
            assert(forms.take(i + 1) =~= forms.take(i as int).push(forms[i as int]));
            assert(forms.take(i + 1).map_values(|f: (Seq<char>, Seq<Seq<char>>)| written_form_text(f)) =~= forms.take(i as int).map_values(
                |f: (Seq<char>, Seq<Seq<char>>)| written_form_text(f),
            ).push(written_form_text(forms[i as int])));
        }
        i += 1;
    }
    assert(forms.take(w.written_forms.len() as int) =~= forms);
    let written_forms = join_with_commas(&texts);
    let translations = join_with_commas(&w.translations);
    assert(strings_view(w.translations@) == w@.translations);
    IgnoredWordLine { word_id: w.word_id, written_forms, translations }
}

/// Inserts `x` after every line whose word id is not greater.
fn insert_by_word_id(sorted: &mut Vec<IgnoredWordLine>, x: IgnoredWordLine)
    requires
        sorted_by_word_id(line_views(old(sorted)@)),
    ensures
        sorted_by_word_id(line_views(final(sorted)@)),
        line_views(final(sorted)@).to_multiset() == line_views(old(sorted)@).to_multiset().insert(line_view(x)),
{
    let ghost before = line_views(sorted@);
    let mut pos: usize = 0;
    while pos < sorted.len() && sorted[pos].word_id <= x.word_id
        invariant
            pos <= sorted.len(),
            sorted@ == old(sorted)@,
            before == line_views(sorted@),
            forall|i: int| 0 <= i < pos ==> (#[trigger] before[i]).0 <= x.word_id,
        decreases sorted.len() - pos,
    {
        assert(before[pos as int] == line_view(sorted@[pos as int]));
        pos += 1;
    }
    proof {
        if pos < sorted.len() {
            assert(before[pos as int] == line_view(sorted@[pos as int]));
        }
    }
    let ghost old_sorted = sorted@;
    sorted.insert(pos, x);
    proof {
        let after = line_views(sorted@);
        assert(sorted@ =~= old_sorted.insert(pos as int, x));
        assert(after =~= before.insert(pos as int, line_view(x)));
        assert forall|i: int, j: int| 0 <= i < j < after.len() implies (#[trigger] after[i]).0 <= (#[trigger] after[j]).0 by {
            if j < pos {
                assert(after[i] == before[i] && after[j] == before[j]);
            } else if j == pos {
                assert(after[i] == before[i]);
            } else if i < pos {
                assert(after[i] == before[i] && after[j] == before[j - 1]);
            } else if i == pos {
                assert(after[j] == before[j - 1]);
                if pos < j - 1 {
                    assert(before[pos as int].0 <= before[j - 1].0);
                }
            } else {
                assert(after[i] == before[i - 1] && after[j] == before[j - 1]);
            }
        }
        assert(after.remove(pos as int) =~= before);
        after.to_multiset_ensures();
        assert(after[pos as int] == line_view(x));
        assert(after.to_multiset() =~= before.to_multiset().insert(line_view(x)));
    }
}

/// How the ignored words are shown, in the order of their ids; words of the same id in some
/// order.
pub fn ignored_word_lines(words: &Vec<IgnoredWord>) -> (lines: Vec<IgnoredWordLine>)
    ensures
        sorted_by_word_id(line_views(lines@)),
        line_views(lines@).to_multiset() == words@.map_values(|w: IgnoredWord| ignored_word_line(w@)).to_multiset(),
{
    let ghost all = words@.map_values(|w: IgnoredWord| ignored_word_line(w@));
    let mut lines: Vec<IgnoredWordLine> = Vec::new();
    proof {
        line_views(lines@).to_multiset_ensures();
        all.take(0).to_multiset_ensures();
        assert(all.take(0) =~= Seq::<(i32, Seq<char>, Seq<char>)>::empty());
        assert(line_views(lines@) =~= Seq::<(i32, Seq<char>, Seq<char>)>::empty());
    }
    let mut i: usize = 0;
    while i < words.len()
        invariant
            i <= words.len(),
            all == words@.map_values(|w: IgnoredWord| ignored_word_line(w@)),
            sorted_by_word_id(line_views(lines@)),
            line_views(lines@).to_multiset() == all.take(i as int).to_multiset(),
        decreases words.len() - i,
    {
        let line = ignored_word_line_of(&words[i]);
        insert_by_word_id(&mut lines, line);
        proof {
            assert(all.take(i + 1) =~= all.take(i as int).push(all[i as int]));
            all.take(i as int).to_multiset_ensures();
        }
        i += 1;
    }
    assert(all.take(words.len() as int) =~= all);
    lines
}

// ---------------------------------------------------------------------------------------------
// The words of a sentence
// ---------------------------------------------------------------------------------------------

/// A saved word of a sentence as the sentence's page gets it: where it stands in the sentence,
/// in bytes, its reading there, if any, and its translations.
pub struct ShownWord {
    pub idx_start: i32,
    pub idx_end: i32,
    pub reading: Option<String>,
    pub translations: Vec<String>,
}

/// Whether the word starts at the byte `start`.
pub open spec fn starts_at(start: i32) -> spec_fn(ShownWord) -> bool {
    |w: ShownWord| w.idx_start == start
}

/// Whether the words are in the order of where they start.
pub open spec fn sorted_by_start(ws: Seq<ShownWord>) -> bool {
    forall|i: int, j: int| 0 <= i < j < ws.len() ==> (#[trigger] ws[i]).idx_start <= (#[trigger] ws[j]).idx_start
}

/// Whether `sorted` holds the words in the order of where they start, and words that start at
/// the same byte in the order given.
pub open spec fn stably_sorted_by_start(sorted: Seq<ShownWord>, words: Seq<ShownWord>) -> bool {
    &&& sorted_by_start(sorted)
    &&& forall|start: i32| #[trigger] sorted.filter(starts_at(start)) == words.filter(starts_at(start))
}

/// How the page shows a word: the part of the sentence that it covers, followed by its reading
/// in brackets where it has one; and its translations joined with commas.
pub open spec fn word_line(sentence: Seq<char>, w: ShownWord) -> (Seq<char>, Seq<char>) {
    let word = byte_substring(sentence, w.idx_start as int, w.idx_end as int);
    (
        match w.reading {
            Some(r) => with_note(word, r@),
            None => word,
        },
        join(strings_view(w.translations@), ", "@),
    )
}

/// Whether the word covers a part of the sentence that slicing the sentence by its byte offsets
/// gives.
pub open spec fn covers_part(sentence: Seq<char>, w: ShownWord) -> bool {
    valid_byte_range(sentence, w.idx_start as int, w.idx_end as int)
}

proof fn lemma_filter_none<A>(s: Seq<A>, pred: spec_fn(A) -> bool)
    requires
        forall|i: int| 0 <= i < s.len() ==> !pred(#[trigger] s[i]),
    ensures
        s.filter(pred) == Seq::<A>::empty(),
    decreases s.len(),
{
    reveal(Seq::filter);
    if s.len() > 0 {
        assert forall|i: int| 0 <= i < s.drop_last().len() implies !pred(#[trigger] s.drop_last()[i]) by {
            assert(s.drop_last()[i] == s[i]);
        }
        lemma_filter_none(s.drop_last(), pred);
        assert(!pred(s[s.len() - 1]));
    }
    assert(s.filter(pred) =~= Seq::<A>::empty());
}

/// Whatever holds of every element holds of every element that the filter keeps.
proof fn lemma_filter_all<A>(s: Seq<A>, pred: spec_fn(A) -> bool, q: spec_fn(A) -> bool)
    requires
        forall|i: int| 0 <= i < s.len() ==> q(#[trigger] s[i]),
    ensures
        forall|i: int| 0 <= i < s.filter(pred).len() ==> q(#[trigger] s.filter(pred)[i]),
    decreases s.len(),
{
    reveal(Seq::filter);
    if s.len() > 0 {
        let p = s.drop_last();
        assert forall|i: int| 0 <= i < p.len() implies q(#[trigger] p[i]) by {
            assert(p[i] == s[i]);
        }
        lemma_filter_all(p, pred, q);
        assert(q(s[s.len() - 1]));
        let f = s.filter(pred);
        assert forall|i: int| 0 <= i < f.len() implies q(#[trigger] f[i]) by {
            if i < p.filter(pred).len() {
                assert(f[i] == p.filter(pred)[i]);
            } else {
                assert(f[i] == s.last());
            }
        }
    }
}

/// Inserts `x` after every word that does not start after it.
fn insert_by_start(sorted: &mut Vec<ShownWord>, x: ShownWord)
    requires
        sorted_by_start(old(sorted)@),
    ensures
        sorted_by_start(final(sorted)@),
        forall|start: i32| #[trigger] final(sorted)@.filter(starts_at(start)) == if start == x.idx_start {
            old(sorted)@.filter(starts_at(start)).push(x)
        } else {
            old(sorted)@.filter(starts_at(start))
        },
{
    let ghost before = sorted@;
    let mut pos: usize = 0;
    while pos < sorted.len() && sorted[pos].idx_start <= x.idx_start
        invariant
            pos <= sorted.len(),
            sorted@ == before,
            before == old(sorted)@,
            forall|i: int| 0 <= i < pos ==> (#[trigger] before[i]).idx_start <= x.idx_start,
        decreases sorted.len() - pos,
    {
        pos += 1;
    }
    sorted.insert(pos, x);
    proof {
        let after = sorted@;
        assert(after =~= before.insert(pos as int, x));
        assert forall|i: int, j: int| 0 <= i < j < after.len() implies (#[trigger] after[i]).idx_start <= (#[trigger] after[j]).idx_start by {
            if j < pos {
                assert(after[i] == before[i] && after[j] == before[j]);
            } else if j == pos {
                assert(after[i] == before[i]);
            } else if i < pos {
                assert(after[i] == before[i] && after[j] == before[j - 1]);
            } else if i == pos {
                assert(after[j] == before[j - 1]);
                if pos < j - 1 {
                    assert(before[pos as int].idx_start <= before[j - 1].idx_start);
                }
            } else {
                assert(after[i] == before[i - 1] && after[j] == before[j - 1]);
            }
        }
        let head = before.take(pos as int);
        let tail = before.skip(pos as int);
        assert(before =~= head + tail);
        assert(after =~= head + seq![x] + tail);
        assert forall|start: i32| #[trigger] after.filter(starts_at(start)) == if start == x.idx_start {
            before.filter(starts_at(start)).push(x)
        } else {
            before.filter(starts_at(start))
        } by {
            let f = starts_at(start);
            reveal(Seq::filter);
            Seq::filter_distributes_over_add(head, tail, f);
            Seq::filter_distributes_over_add(head + seq![x], tail, f);
            Seq::filter_distributes_over_add(head, seq![x], f);
            assert(seq![x].drop_last() =~= Seq::<ShownWord>::empty());
            assert(Seq::<ShownWord>::empty().filter(f) =~= Seq::<ShownWord>::empty());
            if start == x.idx_start {
                assert forall|i: int| 0 <= i < tail.len() implies !f(#[trigger] tail[i]) by {
                    assert(tail[i] == before[pos + i]);
                    if i > 0 {
                        assert(before[pos as int].idx_start <= before[pos + i].idx_start);
                    }
                }
                lemma_filter_none(tail, f);
                assert(after.filter(f) =~= before.filter(f).push(x));
            } else {
                assert(after.filter(f) =~= before.filter(f));
            }
        }
    }
}

/// The words in the order of where they start; words that start at the same byte in the order
/// given.
pub fn sort_by_start(words: Vec<ShownWord>) -> (sorted: Vec<ShownWord>)
    ensures
        stably_sorted_by_start(sorted@, words@),
{
    let ghost all = words@;
    let mut rest = words;
    let mut sorted: Vec<ShownWord> = Vec::new();
    let ghost mut k: int = 0;
    assert(all.skip(0) =~= all);
    while rest.len() > 0
        invariant
            0 <= k <= all.len(),
            rest@ == all.skip(k),
            sorted_by_start(sorted@),
            forall|start: i32| #[trigger] sorted@.filter(starts_at(start)) == all.take(k).filter(starts_at(start)),
        decreases rest.len(),
    {
        let x = rest.remove(0);
        assert(x == all[k]);
        insert_by_start(&mut sorted, x);
        proof {
            reveal(Seq::filter);
            assert(all.take(k + 1).drop_last() =~= all.take(k));
            assert(all.take(k + 1).last() == x);
            assert(rest@ =~= all.skip(k + 1));
            k = k + 1;
        }
    }
    assert(all.take(k) =~= all);
    sorted
}

/// How the page shows the word.
pub fn word_line_of(sentence: &str, w: &ShownWord) -> (line: (String, String))
    requires
        covers_part(sentence@, *w),
    ensures
        (line.0@, line.1@) == word_line(sentence@, *w),
{
    let mut heading = substring(sentence, w.idx_start as usize, w.idx_end as usize);
    match &w.reading {
        Some(r) => append_note(&mut heading, r.as_str()),
        None => {},
    }
    (heading, join_with_commas(&w.translations))
}

/// How the sentence's page lists its words: in the order of where they start, words that start
/// at the same byte in the order given.
pub fn sentence_word_lines(sentence: &str, words: Vec<ShownWord>) -> (lines: Vec<(String, String)>)
    requires
        forall|i: int| 0 <= i < words@.len() ==> covers_part(sentence@, #[trigger] words@[i]),
    ensures
        exists|sorted: Seq<ShownWord>|
            stably_sorted_by_start(sorted, words@) && lines@.map_values(|l: (String, String)| (l.0@, l.1@))
                == sorted.map_values(|w: ShownWord| word_line(sentence@, w)),
{
    let ghost given = words@;
    let sorted = sort_by_start(words);
    proof {
        let q = |w: ShownWord| covers_part(sentence@, w);
        assert forall|i: int| 0 <= i < sorted@.len() implies covers_part(sentence@, #[trigger] sorted@[i]) by {
            let w = sorted@[i];
            let f = starts_at(w.idx_start);
            sorted@.lemma_filter_contains(f, i);
            assert(given.filter(f).contains(w));
            assert forall|m: int| 0 <= m < given.len() implies q(#[trigger] given[m]) by {}
            lemma_filter_all(given, f, q);
            let j = choose|j: int| 0 <= j < given.filter(f).len() && given.filter(f)[j] == w;
            assert(q(given.filter(f)[j]));
        }
    }
    let mut lines: Vec<(String, String)> = Vec::new();
    let mut i: usize = 0;
    while i < sorted.len()
        invariant
            i <= sorted.len(),
            forall|m: int| 0 <= m < sorted@.len() ==> covers_part(sentence@, #[trigger] sorted@[m]),
            lines@.map_values(|l: (String, String)| (l.0@, l.1@)) == sorted@.take(i as int).map_values(
                |w: ShownWord| word_line(sentence@, w),
            ),
        decreases sorted.len() - i,
    {
        let line = word_line_of(sentence, &sorted[i]);
        let ghost prev = lines@;
        lines.push(line);
        proof {
            assert(lines@.map_values(|l: (String, String)| (l.0@, l.1@)) =~= prev.map_values(|l: (String, String)| (l.0@, l.1@)).push(
                word_line(sentence@, sorted@[i as int]),
            ));
            assert(sorted@.take(i + 1).map_values(|w: ShownWord| word_line(sentence@, w)) =~= sorted@.take(i as int).map_values(
                |w: ShownWord| word_line(sentence@, w),
            ).push(word_line(sentence@, sorted@[i as int])));
        }
        i += 1;
    }
    assert(sorted@.take(sorted.len() as int) =~= sorted@);
    lines
}

} // verus!
