//! The sentence form of the web frontend: the user goes through the interpretations of the
//! words of a sentence and accepts, declines or ignores them.
use crate::api::{copy_opt, opt_view, strings_view, SegmentedSentence, Word, WordView};
use std::collections::HashSet;
use std::ops::Range;
use vstd::prelude::*;

verus! {

broadcast use vstd::std_specs::hash::group_hash_axioms;

/// An interpretation of a part of the sentence as a known word, as shown in the form.
pub struct FormWord {
    /// Identifies the interpretation within the form, counting from 1.
    pub field_id: i32,
    pub word_id: i32,
    /// The byte range of the word in the sentence.
    pub range: Range<usize>,
    pub text_word: String,
    /// The reading in the text, when it differs from the written form.
    pub text_reading: Option<String>,
    pub db_word: String,
    /// The dictionary reading, when it differs from the dictionary form.
    pub db_reading: Option<String>,
    pub score: i32,
    pub meanings: Vec<String>,
    /// The text between this word and the next group of words.
    pub tail: Option<String>,
}

/// An entry of the form: a word that can be decided on, or one that is ignored or unknown.
pub enum FormWordOr {
    FormWord(FormWord),
    Ignored { text_word: String, range: Range<usize> },
    Unknown { text_word: String, range: Range<usize> },
}

pub struct FormWordView {
    pub field_id: i32,
    pub word_id: i32,
    pub start: usize,
    pub end: usize,
    pub text_word: Seq<char>,
    pub text_reading: Option<Seq<char>>,
    pub db_word: Seq<char>,
    pub db_reading: Option<Seq<char>>,
    pub score: i32,
    pub meanings: Seq<Seq<char>>,
    pub tail: Option<Seq<char>>,
}

impl View for FormWord {
    type V = FormWordView;

    open spec fn view(&self) -> FormWordView {
        FormWordView {
            field_id: self.field_id,
            word_id: self.word_id,
            start: self.range.start,
            end: self.range.end,
            text_word: self.text_word@,
            text_reading: opt_view(self.text_reading),
            db_word: self.db_word@,
            db_reading: opt_view(self.db_reading),
            score: self.score,
            meanings: strings_view(self.meanings@),
            tail: opt_view(self.tail),
        }
    }
}

pub enum FormWordOrView {
    FormWord(FormWordView),
    Ignored { text_word: Seq<char>, start: usize, end: usize },
    Unknown { text_word: Seq<char>, start: usize, end: usize },
}

impl View for FormWordOr {
    type V = FormWordOrView;

    open spec fn view(&self) -> FormWordOrView {
        match self {
            FormWordOr::FormWord(fw) => FormWordOrView::FormWord(fw@),
            FormWordOr::Ignored { text_word, range } => FormWordOrView::Ignored {
                text_word: text_word@,
                start: range.start,
                end: range.end,
            },
            FormWordOr::Unknown { text_word, range } => FormWordOrView::Unknown {
                text_word: text_word@,
                start: range.start,
                end: range.end,
            },
        }
    }
}

impl FormWordOrView {
    pub open spec fn start(self) -> usize {
        match self {
            FormWordOrView::FormWord(fw) => fw.start,
            FormWordOrView::Ignored { start, .. } => start,
            FormWordOrView::Unknown { start, .. } => start,
        }
    }

    pub open spec fn end(self) -> usize {
        match self {
            FormWordOrView::FormWord(fw) => fw.end,
            FormWordOrView::Ignored { end, .. } => end,
            FormWordOrView::Unknown { end, .. } => end,
        }
    }
}

impl FormWordOr {
    /// The byte range of the entry in the sentence.
    pub fn range(&self) -> (r: Range<usize>)
        ensures
            r.start == self@.start(),
            r.end == self@.end(),
    {
        match self {
            FormWordOr::FormWord(fw) => fw.range.start..fw.range.end,
            FormWordOr::Ignored { range, .. } => range.start..range.end,
            FormWordOr::Unknown { range, .. } => range.start..range.end,
        }
    }
}

/// A copy of a form word.
pub fn copy_form_word(fw: &FormWord) -> (c: FormWord)
    ensures
        c@ == fw@,
{
    let mut meanings: Vec<String> = Vec::new();
    let mut i: usize = 0;
    while i < fw.meanings.len()
        invariant
            i <= fw.meanings.len(),
            meanings@.len() == i,
            forall|k: int| 0 <= k < i ==> #[trigger] meanings@[k]@ == fw.meanings@[k]@,
        decreases fw.meanings.len() - i,
    {
        meanings.push(fw.meanings[i].clone());
        i += 1;
    }
    assert(strings_view(meanings@) =~= strings_view(fw.meanings@));
    FormWord {
        field_id: fw.field_id,
        word_id: fw.word_id,
        range: fw.range.start..fw.range.end,
        text_word: fw.text_word.clone(),
        text_reading: copy_opt(&fw.text_reading),
        db_word: fw.db_word.clone(),
        db_reading: copy_opt(&fw.db_reading),
        score: fw.score,
        meanings,
        tail: copy_opt(&fw.tail),
    }
}


// ---------------------------------------------------------------------------------------------
// The form
// ---------------------------------------------------------------------------------------------

/// Whether the byte ranges `a` and `b` overlap, so that at most one of them can be accepted.
pub open spec fn conflicts(a_start: int, a_end: int, b_start: int, b_end: int) -> bool {
    !(a_start >= b_end || a_end <= b_start)
}

/// The words of `ws` that satisfy `keep_it`, in order.
pub open spec fn keep(ws: Seq<FormWordView>, keep_it: spec_fn(FormWordView) -> bool) -> Seq<
    FormWordView,
>
    decreases ws.len(),
{
    if ws.len() == 0 {
        seq![]
    } else if keep_it(ws.last()) {
        keep(ws.drop_last(), keep_it).push(ws.last())
    } else {
        keep(ws.drop_last(), keep_it)
    }
}

/// No two words of `ws` overlap.
pub open spec fn pairwise_apart(ws: Seq<FormWordView>) -> bool {
    forall|i: int, j: int|
        0 <= i < j < ws.len() ==> !conflicts(
            #[trigger] ws[i].start as int,
            ws[i].end as int,
            #[trigger] ws[j].start as int,
            ws[j].end as int,
        )
}

/// No word of `a` overlaps a word of `b`.
pub open spec fn apart(a: Seq<FormWordView>, b: Seq<FormWordView>) -> bool {
    forall|i: int, j: int|
        0 <= i < a.len() && 0 <= j < b.len() ==> !conflicts(
            #[trigger] a[i].start as int,
            a[i].end as int,
            #[trigger] b[j].start as int,
            b[j].end as int,
        )
}

pub open spec fn outside_range(start: int, end: int) -> spec_fn(FormWordView) -> bool {
    |fw: FormWordView| !conflicts(fw.start as int, fw.end as int, start, end)
}

pub open spec fn other_field(field_id: i32) -> spec_fn(FormWordView) -> bool {
    |fw: FormWordView| fw.field_id != field_id
}

pub open spec fn other_word(word_id: i32) -> spec_fn(FormWordView) -> bool {
    |fw: FormWordView| fw.word_id != word_id
}

/// The state of the form: the accepted words, the accepted readings (words whose reading is
/// kept without the word) and the ignored word ids.
pub struct FormView {
    pub accepted: Seq<FormWordView>,
    pub accepted_readings: Seq<FormWordView>,
    pub ignore_words: Set<i32>,
}

impl FormView {
    pub open spec fn is_accepted(self, field_id: i32) -> bool {
        exists|i: int| 0 <= i < self.accepted.len() && #[trigger] self.accepted[i].field_id == field_id
    }

    pub open spec fn is_accepted_reading(self, field_id: i32) -> bool {
        exists|i: int|
            0 <= i < self.accepted_readings.len() && #[trigger] self.accepted_readings[i].field_id
                == field_id
    }

    pub open spec fn is_ignored(self, word_id: i32) -> bool {
        self.ignore_words.contains(word_id)
    }

    pub open spec fn is_declined(self, field_id: i32, word_id: i32) -> bool {
        !self.is_accepted(field_id) && !self.is_accepted_reading(field_id) && !self.is_ignored(
            word_id,
        )
    }

    /// No two accepted words, no two accepted readings, and no accepted word and accepted
    /// reading overlap in the sentence.
    pub open spec fn no_conflicts(self) -> bool {
        &&& pairwise_apart(self.accepted)
        &&& pairwise_apart(self.accepted_readings)
        &&& apart(self.accepted, self.accepted_readings)
    }

    pub open spec fn clear_accepted_range(self, start: int, end: int) -> FormView {
        FormView {
            accepted: keep(self.accepted, outside_range(start, end)),
            accepted_readings: keep(self.accepted_readings, outside_range(start, end)),
            ignore_words: self.ignore_words,
        }
    }

    pub open spec fn clear_by_field_id(self, field_id: i32) -> FormView {
        FormView {
            accepted: keep(self.accepted, other_field(field_id)),
            accepted_readings: keep(self.accepted_readings, other_field(field_id)),
            ignore_words: self.ignore_words,
        }
    }

    pub open spec fn clear_by_word_id(self, word_id: i32) -> FormView {
        FormView {
            accepted: keep(self.accepted, other_word(word_id)),
            accepted_readings: keep(self.accepted_readings, other_word(word_id)),
            ignore_words: self.ignore_words,
        }
    }

    /// Accepting a word un-accepts every word and reading it overlaps with.
    pub open spec fn accept(self, fw: FormWordView) -> FormView {
        let cleared = self.clear_accepted_range(fw.start as int, fw.end as int);
        FormView { accepted: cleared.accepted.push(fw), ..cleared }
    }

    /// Accepting a reading un-accepts every word and reading it overlaps with.
    pub open spec fn accept_reading(self, fw: FormWordView) -> FormView {
        let cleared = self.clear_accepted_range(fw.start as int, fw.end as int);
        FormView { accepted_readings: cleared.accepted_readings.push(fw), ..cleared }
    }

    /// Ignoring a word un-accepts it everywhere in the sentence.
    pub open spec fn ignore(self, fw: FormWordView) -> FormView {
        let cleared = self.clear_by_word_id(fw.word_id);
        FormView { ignore_words: cleared.ignore_words.insert(fw.word_id), ..cleared }
    }

    /// Declining an interpretation un-accepts it and stops ignoring its word.
    pub open spec fn decline(self, fw: FormWordView) -> FormView {
        let cleared = self.clear_by_field_id(fw.field_id);
        FormView { ignore_words: cleared.ignore_words.remove(fw.word_id), ..cleared }
    }
}

/// The request word for an accepted word (`with_id`) or reading.
pub open spec fn request_word(fw: FormWordView, with_id: bool) -> WordView {
    WordView {
        id: if with_id {
            Some(fw.word_id)
        } else {
            None
        },
        reading: fw.text_reading,
        idx_start: fw.start as i32,
        idx_end: fw.end as i32,
    }
}

/// The words of the request made from the form: the accepted words, then the accepted readings.
pub open spec fn request_words(form: FormView) -> Seq<WordView> {
    form.accepted.map_values(|fw: FormWordView| request_word(fw, true))
        + form.accepted_readings.map_values(|fw: FormWordView| request_word(fw, false))
}

/// The form words of the groups, in order, without the ignored and unknown entries.
pub open spec fn form_words_of(entries: Seq<FormWordOrView>) -> Seq<FormWordView>
    decreases entries.len(),
{
    if entries.len() == 0 {
        seq![]
    } else {
        match entries.last() {
            FormWordOrView::FormWord(fw) => form_words_of(entries.drop_last()).push(fw),
            _ => form_words_of(entries.drop_last()),
        }
    }
}

/// The words accepted up front, with the end of the last one: going through the words in order,
/// each word that starts at or after the end of the last accepted one is accepted.
pub open spec fn initially_accepted(ws: Seq<FormWordView>) -> (Seq<FormWordView>, int)
    decreases ws.len(),
{
    if ws.len() == 0 {
        (seq![], 0)
    } else {
        let (acc, covered) = initially_accepted(ws.drop_last());
        if ws.last().start >= covered {
            (acc.push(ws.last()), ws.last().end as int)
        } else {
            (acc, covered)
        }
    }
}

/// The view of groups of form entries, flattened.
pub open spec fn flat_view(groups: Seq<Vec<FormWordOr>>) -> Seq<FormWordOrView> {
    groups.map_values(|g: Vec<FormWordOr>| g@.map_values(|e: FormWordOr| e@)).flatten()
}

proof fn lemma_to_set_push(s: Seq<i32>, x: i32)
    ensures
        s.push(x).to_set() == s.to_set().insert(x),
{
    assert forall|y: i32| #[trigger] s.push(x).contains(y) <==> s.contains(y) || y == x by {
        if s.push(x).contains(y) && y != x {
            let k = choose|k: int| 0 <= k < s.push(x).len() && s.push(x)[k] == y;
            assert(s[k] == y);
        }
        if s.contains(y) {
            let k = choose|k: int| 0 <= k < s.len() && s[k] == y;
            assert(s.push(x)[k] == y);
        }
        if y == x {
            assert(s.push(x)[s.len() as int] == y);
        }
    }
    assert(s.push(x).to_set() =~= s.to_set().insert(x));
}

/// The sentence form.
pub struct Form {
    accepted: Vec<FormWord>,
    accepted_readings: Vec<FormWord>,
    ignore_words: Vec<i32>,
}

pub open spec fn words_view(ws: Seq<FormWord>) -> Seq<FormWordView> {
    ws.map_values(|fw: FormWord| fw@)
}

impl View for Form {
    type V = FormView;

    closed spec fn view(&self) -> FormView {
        FormView {
            accepted: words_view(self.accepted@),
            accepted_readings: words_view(self.accepted_readings@),
            ignore_words: self.ignore_words@.to_set(),
        }
    }
}

/// Removes the words that `keep_it` rejects from `ws`.
fn retain_words(
    ws: &mut Vec<FormWord>,
    keep_it: Ghost<spec_fn(FormWordView) -> bool>,
    mode: u8,
    start: usize,
    end: usize,
    id: i32,
)
    requires
        keep_it@ == (if mode == 0 {
            outside_range(start as int, end as int)
        } else if mode == 1 {
            other_field(id)
        } else {
            other_word(id)
        }),
    ensures
        words_view(final(ws)@) == keep(words_view(old(ws)@), keep_it@),
{
    let mut rest: Vec<FormWord> = Vec::new();
    std::mem::swap(ws, &mut rest);
    let ghost all = words_view(rest@);
    let n = rest.len();
    let mut i: usize = 0;
    while i < n
        invariant
            i <= n,
            n == all.len(),
            rest@.len() == n - i,
            words_view(rest@) == all.skip(i as int),
            words_view(ws@) == keep(all.take(i as int), keep_it@),
            keep_it@ == (if mode == 0 {
                outside_range(start as int, end as int)
            } else if mode == 1 {
                other_field(id)
            } else {
                other_word(id)
            }),
        decreases n - i,
    {
        let ghost before = rest@;
        let fw = rest.remove(0);
        proof {
            assert forall|k: int| 0 <= k < rest@.len() implies #[trigger] words_view(rest@)[k] == all.skip(i + 1)[k] by {
                assert(rest@[k] == before[k + 1]);
                assert(words_view(before)[k + 1] == all.skip(i as int)[k + 1]);
            }
            assert(words_view(rest@) =~= all.skip(i + 1));
            assert(fw@ == all[i as int]) by {
                assert(fw == before[0]);
                assert(words_view(before)[0] == all.skip(i as int)[0]);
            }
            assert(all.take(i + 1).drop_last() =~= all.take(i as int));
        }
        let keep_word = if mode == 0 {
            fw.range.start >= end || fw.range.end <= start
        } else if mode == 1 {
            fw.field_id != id
        } else {
            fw.word_id != id
        };
        assert(keep_word == keep_it@(fw@));
        if keep_word {
            let ghost prev = ws@;
            ws.push(fw);
            assert(words_view(ws@) =~= words_view(prev).push(fw@));
        }
        i += 1;
    }
    assert(all.take(n as int) =~= all);
}

impl Form {
    /// The form before the user has made any decisions: going through the groups in order, each
    /// word that does not overlap the last accepted one is accepted, which accepts the most
    /// likely interpretation of each part of the sentence.
    pub fn init(form_words: &Vec<Vec<FormWordOr>>) -> (form: Form)
        ensures
            form@ == (FormView {
                accepted: initially_accepted(form_words_of(flat_view(form_words@))).0,
                accepted_readings: seq![],
                ignore_words: Set::empty(),
            }),
    {
        let mut accepted: Vec<FormWord> = Vec::new();
        let mut covered: usize = 0;
        let ghost mut processed: Seq<FormWordOrView> = seq![];
        let mut g: usize = 0;
        while g < form_words.len()
            invariant
                g <= form_words.len(),
                processed == flat_view(form_words@.take(g as int)),
                (words_view(accepted@), covered as int) == initially_accepted(form_words_of(processed)),
            decreases form_words.len() - g,
        {
            let group = &form_words[g];
            let ghost before_group = processed;
            let mut e: usize = 0;
            while e < group.len()
                invariant
                    e <= group.len(),
                    processed == before_group + group@.take(e as int).map_values(|x: FormWordOr| x@),
                    (words_view(accepted@), covered as int) == initially_accepted(form_words_of(processed)),
                decreases group.len() - e,
            {
                let ghost prev = processed;
                let ghost prev_acc = accepted@;
                proof {
                    processed = processed.push(group@[e as int]@);
                    assert(group@.take(e + 1).map_values(|x: FormWordOr| x@) =~= group@.take(e as int).map_values(|x: FormWordOr| x@).push(group@[e as int]@));
                    assert(processed.drop_last() =~= prev);
                }
                if let FormWordOr::FormWord(form_word) = &group[e] {
                    assert(form_words_of(processed) == form_words_of(prev).push(form_word@));
                    assert(form_words_of(processed).drop_last() =~= form_words_of(prev));
                    if form_word.range.start >= covered {
                        accepted.push(copy_form_word(form_word));
                        covered = form_word.range.end;
                        assert(words_view(accepted@) =~= words_view(prev_acc).push(form_word@));
                    }
                } else {
                    assert(form_words_of(processed) == form_words_of(prev));
                }
                e += 1;
            }
            proof {
                assert(group@.take(group.len() as int) =~= group@);
                let views = form_words@.map_values(|gr: Vec<FormWordOr>| gr@.map_values(|x: FormWordOr| x@));
                assert(form_words@.take(g + 1).map_values(|gr: Vec<FormWordOr>| gr@.map_values(|x: FormWordOr| x@))
                    =~= form_words@.take(g as int).map_values(|gr: Vec<FormWordOr>| gr@.map_values(|x: FormWordOr| x@)).push(group@.map_values(|x: FormWordOr| x@)));
                form_words@.take(g as int).map_values(|gr: Vec<FormWordOr>| gr@.map_values(|x: FormWordOr| x@)).lemma_flatten_push(group@.map_values(|x: FormWordOr| x@));
            }
            g += 1;
        }
        assert(form_words@.take(form_words.len() as int) =~= form_words@);
        let form = Form { accepted, accepted_readings: Vec::new(), ignore_words: Vec::new() };
        assert(form@.accepted_readings =~= Seq::<FormWordView>::empty());
        assert(form@.ignore_words =~= Set::<i32>::empty());
        form
    }

    /// Whether the interpretation with the field id is accepted.
    pub fn is_accepted(&self, field_id: i32) -> (b: bool)
        ensures
            b == self@.is_accepted(field_id),
    {
        let mut i: usize = 0;
        while i < self.accepted.len()
            invariant
                i <= self.accepted.len(),
                forall|k: int| 0 <= k < i ==> #[trigger] self.accepted@[k].field_id != field_id,
            decreases self.accepted.len() - i,
        {
            if self.accepted[i].field_id == field_id {
                assert(self@.accepted[i as int].field_id == field_id);
                return true;
            }
            i += 1;
        }
        assert forall|k: int| 0 <= k < self@.accepted.len() implies #[trigger] self@.accepted[k].field_id != field_id by {
            assert(self@.accepted[k] == self.accepted@[k]@);
        }
        false
    }

    /// Whether the reading of the interpretation with the field id is accepted.
    pub fn is_accepted_reading(&self, field_id: i32) -> (b: bool)
        ensures
            b == self@.is_accepted_reading(field_id),
    {
        let mut i: usize = 0;
        while i < self.accepted_readings.len()
            invariant
                i <= self.accepted_readings.len(),
                forall|k: int|
                    0 <= k < i ==> #[trigger] self.accepted_readings@[k].field_id != field_id,
            decreases self.accepted_readings.len() - i,
        {
            if self.accepted_readings[i].field_id == field_id {
                assert(self@.accepted_readings[i as int].field_id == field_id);
                return true;
            }
            i += 1;
        }
        assert forall|k: int| 0 <= k < self@.accepted_readings.len() implies #[trigger] self@.accepted_readings[k].field_id != field_id by {
            assert(self@.accepted_readings[k] == self.accepted_readings@[k]@);
        }
        false
    }

    /// Whether the word is ignored.
    pub fn is_ignored(&self, word_id: i32) -> (b: bool)
        ensures
            b == self@.is_ignored(word_id),
    {
        let mut i: usize = 0;
        while i < self.ignore_words.len()
            invariant
                i <= self.ignore_words.len(),
                forall|k: int| 0 <= k < i ==> #[trigger] self.ignore_words@[k] != word_id,
            decreases self.ignore_words.len() - i,
        {
            if self.ignore_words[i] == word_id {
                assert(self.ignore_words@.to_set().contains(self.ignore_words@[i as int]));
                return true;
            }
            i += 1;
        }
        false
    }

    /// Whether the interpretation is neither accepted, nor accepted as a reading, nor ignored.
    pub fn is_declined(&self, field_id: i32, word_id: i32) -> (b: bool)
        ensures
            b == self@.is_declined(field_id, word_id),
    {
        !self.is_accepted(field_id) && !self.is_accepted_reading(field_id) && !self.is_ignored(
            word_id,
        )
    }

    /// Un-accepts every word and reading that overlaps the byte range.
    pub fn clear_accepted_range(&mut self, range: Range<usize>)
        ensures
            final(self)@ == old(self)@.clear_accepted_range(range.start as int, range.end as int),
    {
        let ghost k = outside_range(range.start as int, range.end as int);
        retain_words(&mut self.accepted, Ghost(k), 0, range.start, range.end, 0);
        retain_words(&mut self.accepted_readings, Ghost(k), 0, range.start, range.end, 0);
    }

    /// Un-accepts the interpretation with the field id, as a word and as a reading.
    pub fn clear_by_field_id(&mut self, field_id: i32)
        ensures
            final(self)@ == old(self)@.clear_by_field_id(field_id),
    {
        let ghost k = other_field(field_id);
        retain_words(&mut self.accepted, Ghost(k), 1, 0, 0, field_id);
        retain_words(&mut self.accepted_readings, Ghost(k), 1, 0, 0, field_id);
    }

    /// Un-accepts every interpretation of the word, as a word and as a reading.
    pub fn clear_by_word_id(&mut self, word_id: i32)
        ensures
            final(self)@ == old(self)@.clear_by_word_id(word_id),
    {
        let ghost k = other_word(word_id);
        retain_words(&mut self.accepted, Ghost(k), 2, 0, 0, word_id);
        retain_words(&mut self.accepted_readings, Ghost(k), 2, 0, 0, word_id);
    }

    /// Accepts the interpretation, un-accepting everything it overlaps with.
    pub fn accept(&mut self, form_word: FormWord)
        ensures
            final(self)@ == old(self)@.accept(form_word@),
    {
        self.clear_accepted_range(form_word.range.start..form_word.range.end);
        let ghost prev = self.accepted@;
        self.accepted.push(form_word);
        assert(words_view(self.accepted@) =~= words_view(prev).push(form_word@));
    }

    /// Accepts the reading of the interpretation, un-accepting everything it overlaps with.
    pub fn accept_reading(&mut self, form_word: FormWord)
        ensures
            final(self)@ == old(self)@.accept_reading(form_word@),
    {
        self.clear_accepted_range(form_word.range.start..form_word.range.end);
        let ghost prev = self.accepted_readings@;
        self.accepted_readings.push(form_word);
        assert(words_view(self.accepted_readings@) =~= words_view(prev).push(form_word@));
    }

    /// Ignores the word, un-accepting all its interpretations.
    pub fn ignore(&mut self, form_word: FormWord)
        ensures
            final(self)@ == old(self)@.ignore(form_word@),
    {
        self.clear_by_word_id(form_word.word_id);
        if !self.is_ignored(form_word.word_id) {
            let ghost prev = self.ignore_words@;
            self.ignore_words.push(form_word.word_id);
            assert(self.ignore_words@.to_set() =~= prev.to_set().insert(form_word.word_id)) by {
                assert(forall|x: i32| #[trigger] self.ignore_words@.contains(x) <==> prev.contains(x) || x == form_word.word_id) by {
                    assert forall|x: i32| #[trigger] self.ignore_words@.contains(x) implies prev.contains(x) || x == form_word.word_id by {
                        let k = choose|k: int| 0 <= k < self.ignore_words@.len() && self.ignore_words@[k] == x;
                        if k < prev.len() {
                            assert(prev[k] == x);
                        }
                    }
                    assert forall|x: i32| prev.contains(x) implies #[trigger] self.ignore_words@.contains(x) by {
                        let k = choose|k: int| 0 <= k < prev.len() && prev[k] == x;
                        assert(self.ignore_words@[k] == x);
                    }
                    assert(self.ignore_words@[prev.len() as int] == form_word.word_id);
                }
            }
        } else {
            assert(self@.ignore_words.insert(form_word.word_id) =~= self@.ignore_words);
        }
    }

    /// Declines the interpretation: it is neither accepted nor ignored afterwards.
    pub fn decline(&mut self, form_word: FormWord)
        ensures
            final(self)@ == old(self)@.decline(form_word@),
    {
        self.clear_by_field_id(form_word.field_id);
        let ghost prev = self.ignore_words@;
        let mut kept: Vec<i32> = Vec::new();
        let mut i: usize = 0;
        while i < self.ignore_words.len()
            invariant
                i <= self.ignore_words.len(),
                self.ignore_words@ == prev,
                forall|x: i32| #[trigger] kept@.contains(x) <==> (prev.take(i as int).contains(x) && x != form_word.word_id),
            decreases self.ignore_words.len() - i,
        {
            let x = self.ignore_words[i];
            let ghost before = kept@;
            if x != form_word.word_id {
                kept.push(x);
            }
            proof {
                let t0 = prev.take(i as int);
                let t1 = prev.take(i + 1);
                assert(t1 =~= t0.push(x));
                lemma_to_set_push(t0, x);
                assert forall|y: i32| #[trigger] kept@.contains(y) <==> (t1.contains(y) && y != form_word.word_id) by {
                    assert(t1.to_set().contains(y) == t1.contains(y));
                    assert(t0.to_set().contains(y) == t0.contains(y));
                    if kept@.contains(y) && !before.contains(y) {
                        let k = choose|k: int| 0 <= k < kept@.len() && kept@[k] == y;
                        if k < before.len() {
                            assert(before[k] == y);
                        }
                    }
                    if before.contains(y) {
                        let k = choose|k: int| 0 <= k < before.len() && before[k] == y;
                        assert(kept@[k] == y);
                    }
                    if t1.contains(y) && y != form_word.word_id && !t0.contains(y) {
                        assert(kept@[kept@.len() - 1] == y);
                    }
                }
            }
            i += 1;
        }
        self.ignore_words = kept;
        assert(prev.take(prev.len() as int) =~= prev);
        assert(self.ignore_words@.to_set() =~= prev.to_set().remove(form_word.word_id));
    }

    /// The request for the sentence: the accepted words with their ids, then the accepted
    /// readings without, and the ignored words.
    pub fn finish(&self, sentence: String) -> (req: SegmentedSentence)
        ensures
            req.sentence@ == sentence@,
            req.words@.map_values(|w: Word| w@) == request_words(self@),
            req.words@.len() == self@.accepted.len() + self@.accepted_readings.len(),
            forall|k: int|
                0 <= k < self@.accepted.len() ==> (#[trigger] req.words@[k])@.reading == self@.accepted[k].text_reading
                    && req.words@[k].id == Some(self@.accepted[k].word_id),
            forall|k: int|
                0 <= k < self@.accepted_readings.len() ==> (#[trigger] req.words@[self@.accepted.len() + k])@.reading
                    == self@.accepted_readings[k].text_reading && req.words@[self@.accepted.len() + k].id is None,
            req.ignore_words@ == self@.ignore_words,
    {
        let mut words: Vec<Word> = Vec::new();
        let mut i: usize = 0;
        while i < self.accepted.len()
            invariant
                i <= self.accepted.len(),
                words@.map_values(|w: Word| w@) == words_view(self.accepted@).take(i as int).map_values(|fw: FormWordView| request_word(fw, true)),
            decreases self.accepted.len() - i,
        {
            let a = &self.accepted[i];
            let ghost prev = words@;
            words.push(Word {
                id: Some(a.word_id),
                idx_start: a.range.start as i32,
                idx_end: a.range.end as i32,
                reading: copy_opt(&a.text_reading),
            });
            proof {
                assert(words_view(self.accepted@).take(i + 1) =~= words_view(self.accepted@).take(i as int).push(a@));
                assert(words@.map_values(|w: Word| w@) =~= prev.map_values(|w: Word| w@).push(words@[i as int]@));
            }
            i += 1;
        }
        assert(words_view(self.accepted@).take(self.accepted.len() as int) =~= words_view(self.accepted@));
        let ghost first = words@.map_values(|w: Word| w@);
        let mut j: usize = 0;
        while j < self.accepted_readings.len()
            invariant
                j <= self.accepted_readings.len(),
                words@.map_values(|w: Word| w@) == first + words_view(self.accepted_readings@).take(j as int).map_values(|fw: FormWordView| request_word(fw, false)),
            decreases self.accepted_readings.len() - j,
        {
            let a = &self.accepted_readings[j];
            let ghost prev = words@;
            words.push(Word {
                id: None,
                idx_start: a.range.start as i32,
                idx_end: a.range.end as i32,
                reading: copy_opt(&a.text_reading),
            });
            proof {
                assert(words_view(self.accepted_readings@).take(j + 1) =~= words_view(self.accepted_readings@).take(j as int).push(a@));
                assert(words@.map_values(|w: Word| w@) =~= prev.map_values(|w: Word| w@).push(words@[j as int + first.len()]@));
                assert(first + words_view(self.accepted_readings@).take(j + 1).map_values(|fw: FormWordView| request_word(fw, false)) =~= (first + words_view(self.accepted_readings@).take(j as int).map_values(|fw: FormWordView| request_word(fw, false))).push(request_word(a@, false)));
            }
            j += 1;
        }
        assert(words_view(self.accepted_readings@).take(self.accepted_readings.len() as int) =~= words_view(self.accepted_readings@));
        let mut ignore_words: HashSet<i32> = HashSet::new();
        let mut k: usize = 0;
        while k < self.ignore_words.len()
            invariant
                k <= self.ignore_words.len(),
                ignore_words@ == self.ignore_words@.take(k as int).to_set(),
            decreases self.ignore_words.len() - k,
        {
            ignore_words.insert(self.ignore_words[k]);
            assert(self.ignore_words@.take(k + 1) =~= self.ignore_words@.take(k as int).push(self.ignore_words@[k as int]));
            assert(self.ignore_words@.take(k + 1).to_set() =~= self.ignore_words@.take(k as int).to_set().insert(self.ignore_words@[k as int])) by {
                lemma_to_set_push(self.ignore_words@.take(k as int), self.ignore_words@[k as int]);
            }
            k += 1;
        }
        assert(self.ignore_words@.take(self.ignore_words.len() as int) =~= self.ignore_words@);
        proof {
            lemma_request_words_read_as_in_text(self@);
            let ws = words@.map_values(|w: Word| w@);
            assert(ws.len() == words@.len());
            assert forall|k: int| 0 <= k < words@.len() implies (#[trigger] words@[k])@ == request_words(self@)[k] by {
                assert(ws[k] == words@[k]@);
            }
        }
        SegmentedSentence { sentence, words, ignore_words }
    }
}

// ---------------------------------------------------------------------------------------------
// Laws of the form
// ---------------------------------------------------------------------------------------------

proof fn lemma_keep_members(ws: Seq<FormWordView>, p: spec_fn(FormWordView) -> bool)
    ensures
        forall|k: int|
            0 <= k < keep(ws, p).len() ==> p(#[trigger] keep(ws, p)[k]) && ws.contains(
                keep(ws, p)[k],
            ),
        keep(ws, p).len() <= ws.len(),
    decreases ws.len(),
{
    if ws.len() > 0 {
        let rest = ws.drop_last();
        lemma_keep_members(rest, p);
        assert forall|k: int| 0 <= k < keep(ws, p).len() implies p(#[trigger] keep(ws, p)[k])
            && ws.contains(keep(ws, p)[k]) by {
            if k < keep(rest, p).len() {
                assert(keep(ws, p)[k] == keep(rest, p)[k]);
                assert(p(keep(rest, p)[k]) && rest.contains(keep(rest, p)[k]));
                let i = choose|i: int| 0 <= i < rest.len() && rest[i] == keep(rest, p)[k];
                assert(ws[i] == rest[i]);
            } else {
                assert(keep(ws, p)[k] == ws.last());
                assert(ws[ws.len() - 1] == ws.last());
            }
        }
    }
}

proof fn lemma_keep_pairwise(ws: Seq<FormWordView>, p: spec_fn(FormWordView) -> bool)
    requires
        pairwise_apart(ws),
    ensures
        pairwise_apart(keep(ws, p)),
    decreases ws.len(),
{
    if ws.len() > 0 {
        let rest = ws.drop_last();
        assert(pairwise_apart(rest)) by {
            assert forall|i: int, j: int| 0 <= i < j < rest.len() implies !conflicts(
                #[trigger] rest[i].start as int,
                rest[i].end as int,
                #[trigger] rest[j].start as int,
                rest[j].end as int,
            ) by {
                assert(rest[i] == ws[i] && rest[j] == ws[j]);
            }
        }
        lemma_keep_pairwise(rest, p);
        lemma_keep_members(rest, p);
        let kr = keep(rest, p);
        if p(ws.last()) {
            let k = kr.push(ws.last());
            assert forall|i: int, j: int| 0 <= i < j < k.len() implies !conflicts(
                #[trigger] k[i].start as int,
                k[i].end as int,
                #[trigger] k[j].start as int,
                k[j].end as int,
            ) by {
                if j == k.len() - 1 {
                    assert(k[i] == kr[i]);
                    assert(rest.contains(kr[i]));
                    let a = choose|a: int| 0 <= a < rest.len() && rest[a] == kr[i];
                    assert(ws[a] == rest[a]);
                    assert(ws[ws.len() - 1] == ws.last());
                } else {
                    assert(k[i] == kr[i] && k[j] == kr[j]);
                }
            }
        }
    }
}

proof fn lemma_keep_apart(
    a: Seq<FormWordView>,
    b: Seq<FormWordView>,
    p: spec_fn(FormWordView) -> bool,
    q: spec_fn(FormWordView) -> bool,
)
    requires
        apart(a, b),
    ensures
        apart(keep(a, p), keep(b, q)),
{
    lemma_keep_members(a, p);
    lemma_keep_members(b, q);
    assert forall|i: int, j: int| 0 <= i < keep(a, p).len() && 0 <= j < keep(b, q).len() implies !conflicts(
        #[trigger] keep(a, p)[i].start as int,
        keep(a, p)[i].end as int,
        #[trigger] keep(b, q)[j].start as int,
        keep(b, q)[j].end as int,
    ) by {
        assert(a.contains(keep(a, p)[i]));
        assert(b.contains(keep(b, q)[j]));
        let x = choose|x: int| 0 <= x < a.len() && a[x] == keep(a, p)[i];
        let y = choose|y: int| 0 <= y < b.len() && b[y] == keep(b, q)[j];
    }
}

proof fn lemma_clear_keeps_no_conflicts(form: FormView, p: spec_fn(FormWordView) -> bool)
    requires
        form.no_conflicts(),
    ensures
        (FormView {
            accepted: keep(form.accepted, p),
            accepted_readings: keep(form.accepted_readings, p),
            ignore_words: form.ignore_words,
        }).no_conflicts(),
{
    lemma_keep_pairwise(form.accepted, p);
    lemma_keep_pairwise(form.accepted_readings, p);
    lemma_keep_apart(form.accepted, form.accepted_readings, p, p);
}

/// An accepted interpretation is accepted afterwards, and so not declined.
pub proof fn lemma_accept_accepts(form: FormView, fw: FormWordView)
    ensures
        form.accept(fw).is_accepted(fw.field_id),
        !form.accept(fw).is_declined(fw.field_id, fw.word_id),
{
    let after = form.accept(fw);
    assert(after.accepted[after.accepted.len() - 1] == fw);
}

/// An interpretation whose reading was accepted has its reading accepted afterwards, as the last
/// of the accepted readings.
pub proof fn lemma_accept_reading_accepts(form: FormView, fw: FormWordView)
    ensures
        form.accept_reading(fw).accepted_readings.last() == fw,
        form.accept_reading(fw).is_accepted_reading(fw.field_id),
        !form.accept_reading(fw).is_declined(fw.field_id, fw.word_id),
{
    let after = form.accept_reading(fw);
    assert(after.accepted_readings[after.accepted_readings.len() - 1] == fw);
}

/// Accepting a word or a reading never leaves two overlapping words or readings accepted.
pub proof fn lemma_accept_keeps_no_conflicts(form: FormView, fw: FormWordView)
    requires
        form.no_conflicts(),
    ensures
        form.accept(fw).no_conflicts(),
        form.accept_reading(fw).no_conflicts(),
{
    let p = outside_range(fw.start as int, fw.end as int);
    let cleared = form.clear_accepted_range(fw.start as int, fw.end as int);
    lemma_clear_keeps_no_conflicts(form, p);
    lemma_keep_members(form.accepted, p);
    lemma_keep_members(form.accepted_readings, p);
    let a = cleared.accepted.push(fw);
    assert forall|i: int, j: int| 0 <= i < j < a.len() implies !conflicts(
        #[trigger] a[i].start as int,
        a[i].end as int,
        #[trigger] a[j].start as int,
        a[j].end as int,
    ) by {
        assert(a[i] == cleared.accepted[i]);
        if j < a.len() - 1 {
            assert(a[j] == cleared.accepted[j]);
        } else {
            assert(p(cleared.accepted[i]));
        }
    }
    assert forall|i: int, j: int| 0 <= i < a.len() && 0 <= j < cleared.accepted_readings.len() implies !conflicts(
        #[trigger] a[i].start as int,
        a[i].end as int,
        #[trigger] cleared.accepted_readings[j].start as int,
        cleared.accepted_readings[j].end as int,
    ) by {
        assert(p(cleared.accepted_readings[j]));
        if i < a.len() - 1 {
            assert(a[i] == cleared.accepted[i]);
        }
    }
    let r = cleared.accepted_readings.push(fw);
    assert forall|i: int, j: int| 0 <= i < j < r.len() implies !conflicts(
        #[trigger] r[i].start as int,
        r[i].end as int,
        #[trigger] r[j].start as int,
        r[j].end as int,
    ) by {
        assert(r[i] == cleared.accepted_readings[i]);
        if j < r.len() - 1 {
            assert(r[j] == cleared.accepted_readings[j]);
        } else {
            assert(p(cleared.accepted_readings[i]));
        }
    }
    assert forall|i: int, j: int| 0 <= i < cleared.accepted.len() && 0 <= j < r.len() implies !conflicts(
        #[trigger] cleared.accepted[i].start as int,
        cleared.accepted[i].end as int,
        #[trigger] r[j].start as int,
        r[j].end as int,
    ) by {
        assert(p(cleared.accepted[i]));
        if j < r.len() - 1 {
            assert(r[j] == cleared.accepted_readings[j]);
        }
    }
}

/// An ignored word is ignored afterwards and none of its interpretations stays accepted.
pub proof fn lemma_ignore_ignores(form: FormView, fw: FormWordView)
    ensures
        form.ignore(fw).is_ignored(fw.word_id),
        forall|i: int|
            0 <= i < form.ignore(fw).accepted.len() ==> #[trigger] form.ignore(fw).accepted[i].word_id
                != fw.word_id,
        forall|i: int|
            0 <= i < form.ignore(fw).accepted_readings.len() ==> #[trigger] form.ignore(
                fw,
            ).accepted_readings[i].word_id != fw.word_id,
        form.no_conflicts() ==> form.ignore(fw).no_conflicts(),
{
    lemma_keep_members(form.accepted, other_word(fw.word_id));
    lemma_keep_members(form.accepted_readings, other_word(fw.word_id));
    if form.no_conflicts() {
        lemma_clear_keeps_no_conflicts(form, other_word(fw.word_id));
    }
}

/// A declined interpretation is declined afterwards.
pub proof fn lemma_decline_declines(form: FormView, fw: FormWordView)
    ensures
        form.decline(fw).is_declined(fw.field_id, fw.word_id),
        form.no_conflicts() ==> form.decline(fw).no_conflicts(),
{
    let after = form.decline(fw);
    lemma_keep_members(form.accepted, other_field(fw.field_id));
    lemma_keep_members(form.accepted_readings, other_field(fw.field_id));
    assert(!after.is_accepted(fw.field_id)) by {
        if after.is_accepted(fw.field_id) {
            let i = choose|i: int| 0 <= i < after.accepted.len() && #[trigger] after.accepted[i].field_id == fw.field_id;
            assert(other_field(fw.field_id)(after.accepted[i]));
        }
    }
    assert(!after.is_accepted_reading(fw.field_id)) by {
        if after.is_accepted_reading(fw.field_id) {
            let i = choose|i: int| 0 <= i < after.accepted_readings.len() && #[trigger] after.accepted_readings[i].field_id == fw.field_id;
            assert(other_field(fw.field_id)(after.accepted_readings[i]));
        }
    }
    if form.no_conflicts() {
        lemma_clear_keeps_no_conflicts(form, other_field(fw.field_id));
    }
}

/// The words accepted up front never overlap, as long as every word's range is well formed.
pub proof fn lemma_initially_accepted_no_conflicts(ws: Seq<FormWordView>)
    requires
        forall|i: int| 0 <= i < ws.len() ==> #[trigger] ws[i].start <= ws[i].end,
    ensures
        pairwise_apart(initially_accepted(ws).0),
        forall|i: int|
            0 <= i < initially_accepted(ws).0.len() ==> #[trigger] initially_accepted(ws).0[i].end
                <= initially_accepted(ws).1,
        forall|i: int|
            0 <= i < initially_accepted(ws).0.len() ==> #[trigger] initially_accepted(ws).0[i].start
                <= initially_accepted(ws).0[i].end,
    decreases ws.len(),
{
    if ws.len() > 0 {
        let rest = ws.drop_last();
        assert forall|i: int| 0 <= i < rest.len() implies #[trigger] rest[i].start <= rest[i].end by {
            assert(rest[i] == ws[i]);
        }
        lemma_initially_accepted_no_conflicts(rest);
        let (acc, covered) = initially_accepted(rest);
        let x = ws.last();
        assert(x == ws[ws.len() - 1]);
        if x.start >= covered {
            let a = acc.push(x);
            assert forall|i: int, j: int| 0 <= i < j < a.len() implies !conflicts(
                #[trigger] a[i].start as int,
                a[i].end as int,
                #[trigger] a[j].start as int,
                a[j].end as int,
            ) by {
                assert(a[i] == acc[i]);
                if j < a.len() - 1 {
                    assert(a[j] == acc[j]);
                }
            }
            assert forall|i: int| 0 <= i < a.len() implies #[trigger] a[i].end <= x.end by {
                if i < a.len() - 1 {
                    assert(a[i] == acc[i]);
                }
            }
            assert forall|i: int| 0 <= i < a.len() implies #[trigger] a[i].start <= a[i].end by {
                if i < a.len() - 1 {
                    assert(a[i] == acc[i]);
                }
            }
        }
    }
}

/// The form starts out without overlapping accepted words, as long as every word's range is
/// well formed.
pub proof fn lemma_init_no_conflicts(entries: Seq<FormWordOrView>)
    requires
        forall|i: int| 0 <= i < entries.len() ==> #[trigger] entries[i].start() <= entries[i].end(),
    ensures
        (FormView {
            accepted: initially_accepted(form_words_of(entries)).0,
            accepted_readings: seq![],
            ignore_words: Set::empty(),
        }).no_conflicts(),
{
    lemma_form_words_ranges(entries);
    lemma_initially_accepted_no_conflicts(form_words_of(entries));
}

proof fn lemma_form_words_ranges(entries: Seq<FormWordOrView>)
    requires
        forall|i: int| 0 <= i < entries.len() ==> #[trigger] entries[i].start() <= entries[i].end(),
    ensures
        forall|i: int|
            0 <= i < form_words_of(entries).len() ==> #[trigger] form_words_of(entries)[i].start
                <= form_words_of(entries)[i].end,
    decreases entries.len(),
{
    if entries.len() > 0 {
        let rest = entries.drop_last();
        assert forall|i: int| 0 <= i < rest.len() implies #[trigger] rest[i].start() <= rest[i].end() by {
            assert(rest[i] == entries[i]);
        }
        lemma_form_words_ranges(rest);
        assert(entries.last() == entries[entries.len() - 1]);
        let fr = form_words_of(rest);
        let f = form_words_of(entries);
        assert forall|i: int| 0 <= i < f.len() implies #[trigger] f[i].start <= f[i].end by {
            if i < fr.len() {
                assert(f[i] == fr[i]);
            } else {
                match entries.last() {
                    FormWordOrView::FormWord(fw) => {
                        assert(f[i] == fw);
                        assert(entries[entries.len() - 1].start() <= entries[entries.len() - 1].end());
                    },
                    _ => {},
                }
            }
        }
    }
}

/// Clearing a range, an interpretation or a word keeps the accepted words and readings apart.
pub proof fn lemma_clear_keeps_apart(form: FormView, start: int, end: int, field_id: i32, word_id: i32)
    requires
        form.no_conflicts(),
    ensures
        form.clear_accepted_range(start, end).no_conflicts(),
        form.clear_by_field_id(field_id).no_conflicts(),
        form.clear_by_word_id(word_id).no_conflicts(),
{
    lemma_clear_keeps_no_conflicts(form, outside_range(start, end));
    lemma_clear_keeps_no_conflicts(form, other_field(field_id));
    lemma_clear_keeps_no_conflicts(form, other_word(word_id));
}

/// Ignoring a word keeps the accepted words and readings apart.
pub proof fn lemma_ignore_keeps_no_conflicts(form: FormView, fw: FormWordView)
    requires
        form.no_conflicts(),
    ensures
        form.ignore(fw).no_conflicts(),
{
    lemma_clear_keeps_no_conflicts(form, other_word(fw.word_id));
}

/// Declining an interpretation keeps the accepted words and readings apart.
pub proof fn lemma_decline_keeps_no_conflicts(form: FormView, fw: FormWordView)
    requires
        form.no_conflicts(),
    ensures
        form.decline(fw).no_conflicts(),
{
    lemma_clear_keeps_no_conflicts(form, other_field(fw.field_id));
}

/// An operation that the user's choices make on the form.
pub enum FormOp {
    Accept(FormWordView),
    AcceptReading(FormWordView),
    Ignore(FormWordView),
    Decline(FormWordView),
    ClearAcceptedRange(usize, usize),
    ClearByFieldId(i32),
    ClearByWordId(i32),
}

/// The form after the operation.
pub open spec fn apply_op(form: FormView, op: FormOp) -> FormView {
    match op {
        FormOp::Accept(fw) => form.accept(fw),
        FormOp::AcceptReading(fw) => form.accept_reading(fw),
        FormOp::Ignore(fw) => form.ignore(fw),
        FormOp::Decline(fw) => form.decline(fw),
        FormOp::ClearAcceptedRange(start, end) => form.clear_accepted_range(start as int, end as int),
        FormOp::ClearByFieldId(id) => form.clear_by_field_id(id),
        FormOp::ClearByWordId(id) => form.clear_by_word_id(id),
    }
}

/// The form after the operations, one after the other.
pub open spec fn apply_ops(form: FormView, ops: Seq<FormOp>) -> FormView
    decreases ops.len(),
{
    if ops.len() == 0 {
        form
    } else {
        apply_op(apply_ops(form, ops.drop_last()), ops.last())
    }
}

/// The form as `Form::init` makes it from the entries.
pub open spec fn initial_form(entries: Seq<FormWordOrView>) -> FormView {
    FormView {
        accepted: initially_accepted(form_words_of(entries)).0,
        accepted_readings: seq![],
        ignore_words: Set::empty(),
    }
}

/// Every operation of the form keeps the accepted words and readings apart, so any sequence of
/// them does.
pub proof fn lemma_ops_keep_no_conflicts(form: FormView, ops: Seq<FormOp>)
    requires
        form.no_conflicts(),
    ensures
        apply_ops(form, ops).no_conflicts(),
    decreases ops.len(),
{
    if ops.len() > 0 {
        lemma_ops_keep_no_conflicts(form, ops.drop_last());
        let before = apply_ops(form, ops.drop_last());
        match ops.last() {
            FormOp::Accept(fw) => lemma_accept_keeps_no_conflicts(before, fw),
            FormOp::AcceptReading(fw) => lemma_accept_keeps_no_conflicts(before, fw),
            FormOp::Ignore(fw) => lemma_ignore_keeps_no_conflicts(before, fw),
            FormOp::Decline(fw) => lemma_decline_keeps_no_conflicts(before, fw),
            FormOp::ClearAcceptedRange(start, end) => lemma_clear_keeps_apart(before, start as int, end as int, 0, 0),
            FormOp::ClearByFieldId(id) => lemma_clear_keeps_apart(before, 0, 0, id, 0),
            FormOp::ClearByWordId(id) => lemma_clear_keeps_apart(before, 0, 0, 0, id),
        }
    }
}

/// From the form that `Form::init` makes, no sequence of the user's choices leaves two accepted
/// words or readings overlapping, as long as every word's range is well formed.
pub proof fn lemma_form_never_conflicts(entries: Seq<FormWordOrView>, ops: Seq<FormOp>)
    requires
        forall|i: int| 0 <= i < entries.len() ==> #[trigger] entries[i].start() <= entries[i].end(),
    ensures
        apply_ops(initial_form(entries), ops).no_conflicts(),
{
    lemma_init_no_conflicts(entries);
    lemma_ops_keep_no_conflicts(initial_form(entries), ops);
}

/// Every word of the request carries the reading in the text of the form word it was made
/// from and its place: the accepted words first, with their word ids, then the accepted
/// readings, without.
pub proof fn lemma_request_words_read_as_in_text(form: FormView)
    ensures
        request_words(form).len() == form.accepted.len() + form.accepted_readings.len(),
        forall|k: int|
            0 <= k < form.accepted.len() ==> {
                let w = #[trigger] request_words(form)[k];
                let fw = form.accepted[k];
                &&& w.id == Some(fw.word_id)
                &&& w.reading == fw.text_reading
                &&& w.idx_start == fw.start as i32
                &&& w.idx_end == fw.end as i32
            },
        forall|k: int|
            0 <= k < form.accepted_readings.len() ==> {
                let w = #[trigger] request_words(form)[form.accepted.len() + k];
                let fw = form.accepted_readings[k];
                &&& w.id is None
                &&& w.reading == fw.text_reading
                &&& w.idx_start == fw.start as i32
                &&& w.idx_end == fw.end as i32
            },
{
    let a = form.accepted.map_values(|fw: FormWordView| request_word(fw, true));
    let r = form.accepted_readings.map_values(|fw: FormWordView| request_word(fw, false));
    assert forall|k: int| 0 <= k < form.accepted.len() implies #[trigger] request_words(form)[k] == request_word(form.accepted[k], true) by {
        assert(request_words(form)[k] == a[k]);
    }
    assert forall|k: int| 0 <= k < form.accepted_readings.len() implies #[trigger] request_words(form)[form.accepted.len() + k] == request_word(form.accepted_readings[k], false) by {
        assert(request_words(form)[form.accepted.len() + k] == r[k]);
    }
}

} // verus!
