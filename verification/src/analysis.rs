//! Preparing a segmented sentence for the sentence form: every interpretation of every segment
//! becomes an entry of the form, and the entries are grouped by where they start in the sentence.
use crate::api::{ApiInterpretation, ApiSegment, InterpretationView, Meaning, MeaningView, SegmentView};
use crate::form::{form_words_of, FormWord, FormWordOr, FormWordOrView, FormWordView};
use crate::text::{byte_substring, str_eq, substring, utf8_len, valid_byte_range};
use std::collections::HashSet;
use vstd::prelude::*;

verus! {

broadcast use {vstd::std_specs::hash::group_hash_axioms, vstd::utf8::group_utf8_lib};

/// A meaning as shown in the form: `meaning (info)`, or just the meaning.
pub open spec fn format_meaning(m: MeaningView) -> Seq<char> {
    match m.meaning_info {
        Some(info) => m.meaning + " ("@ + info + ")"@,
        None => m.meaning,
    }
}

/// `reading`, unless it is the same as `word`.
pub open spec fn distinct_reading(word: Seq<char>, reading: Seq<char>) -> Option<Seq<char>> {
    if word == reading {
        None
    } else {
        Some(reading)
    }
}

/// Whether the interpretation becomes a word of the form: it is a known word that is not ignored.
pub open spec fn is_form_word(i: InterpretationView, ignored: Set<i32>) -> bool {
    i.word_id matches Some(w) && !ignored.contains(w)
}

/// The form entry for an interpretation of a segment of `sentence`.
pub open spec fn classify(
    sentence: Seq<char>,
    seg: SegmentView,
    i: InterpretationView,
    ignored: Set<i32>,
    field_id: int,
) -> FormWordOrView {
    let text_word = byte_substring(sentence, seg.start as int, seg.end as int);
    match i.word_id {
        None => FormWordOrView::Unknown { text_word, start: seg.start, end: seg.end },
        Some(word_id) => if ignored.contains(word_id) {
            FormWordOrView::Ignored { text_word, start: seg.start, end: seg.end }
        } else {
            FormWordOrView::FormWord(
                FormWordView {
                    field_id: field_id as i32,
                    word_id,
                    start: seg.start,
                    end: seg.end,
                    text_word,
                    text_reading: distinct_reading(i.text_word, i.text_reading_hiragana),
                    db_word: i.db_word,
                    db_reading: distinct_reading(i.db_word, i.db_reading_hiragana),
                    score: i.score,
                    meanings: i.meanings.map_values(|m: MeaningView| format_meaning(m)),
                    tail: None,
                },
            )
        },
    }
}

/// The entries for the interpretations of one segment, numbering the form words after `before`
/// earlier ones.
pub open spec fn segment_entries(
    sentence: Seq<char>,
    seg: SegmentView,
    interps: Seq<InterpretationView>,
    ignored: Set<i32>,
    before: int,
) -> Seq<FormWordOrView>
    decreases interps.len(),
{
    if interps.len() == 0 {
        seq![]
    } else {
        let p = segment_entries(sentence, seg, interps.drop_last(), ignored, before);
        p.push(classify(sentence, seg, interps.last(), ignored, before + form_words_of(p).len() + 1))
    }
}

/// The entries for all interpretations of all segments, in order; form words are numbered
/// from 1.
pub open spec fn sentence_entries(sentence: Seq<char>, segs: Seq<SegmentView>, ignored: Set<i32>) -> Seq<
    FormWordOrView,
>
    decreases segs.len(),
{
    if segs.len() == 0 {
        seq![]
    } else {
        let p = sentence_entries(sentence, segs.drop_last(), ignored);
        p + segment_entries(
            sentence,
            segs.last(),
            segs.last().interpretations,
            ignored,
            form_words_of(p).len() as int,
        )
    }
}

/// The number of interpretations among `interps` that become form words.
pub open spec fn count_form_words(interps: Seq<InterpretationView>, ignored: Set<i32>) -> nat
    decreases interps.len(),
{
    if interps.len() == 0 {
        0
    } else {
        count_form_words(interps.drop_last(), ignored) + if is_form_word(interps.last(), ignored) {
            1nat
        } else {
            0nat
        }
    }
}

/// The number of interpretations of all segments that become form words.
pub open spec fn total_form_words(segs: Seq<SegmentView>, ignored: Set<i32>) -> nat
    decreases segs.len(),
{
    if segs.len() == 0 {
        0
    } else {
        total_form_words(segs.drop_last(), ignored) + count_form_words(
            segs.last().interpretations,
            ignored,
        )
    }
}

/// The entries grouped into maximal runs of consecutive entries with the same start.
pub open spec fn runs(es: Seq<FormWordOrView>) -> Seq<Seq<FormWordOrView>>
    decreases es.len(),
{
    if es.len() == 0 {
        seq![]
    } else {
        let r = runs(es.drop_last());
        if r.len() > 0 && r.last().len() > 0 && r.last().last().start() == es.last().start() {
            r.drop_last().push(r.last().push(es.last()))
        } else {
            r.push(seq![es.last()])
        }
    }
}

// ---------------------------------------------------------------------------------------------
// Lemmas
// ---------------------------------------------------------------------------------------------

proof fn lemma_form_words_of_concat(a: Seq<FormWordOrView>, b: Seq<FormWordOrView>)
    ensures
        form_words_of(a + b) == form_words_of(a) + form_words_of(b),
    decreases b.len(),
{
    if b.len() == 0 {
        assert(a + b =~= a);
        assert(form_words_of(a) + form_words_of(b) =~= form_words_of(a));
    } else {
        assert((a + b).drop_last() =~= a + b.drop_last());
        assert((a + b).last() == b.last());
        lemma_form_words_of_concat(a, b.drop_last());
        match b.last() {
            FormWordOrView::FormWord(fw) => {
                assert(form_words_of(a) + form_words_of(b.drop_last()).push(fw) =~= (form_words_of(
                    a,
                ) + form_words_of(b.drop_last())).push(fw));
            },
            _ => {},
        }
    }
}

proof fn lemma_segment_entries_count(
    sentence: Seq<char>,
    seg: SegmentView,
    interps: Seq<InterpretationView>,
    ignored: Set<i32>,
    before: int,
)
    ensures
        form_words_of(segment_entries(sentence, seg, interps, ignored, before)).len()
            == count_form_words(interps, ignored),
    decreases interps.len(),
{
    if interps.len() > 0 {
        lemma_segment_entries_count(sentence, seg, interps.drop_last(), ignored, before);
        let p = segment_entries(sentence, seg, interps.drop_last(), ignored, before);
        let c = classify(sentence, seg, interps.last(), ignored, before + form_words_of(p).len() + 1);
        assert(p.push(c).drop_last() =~= p);
        assert(p.push(c).last() == c);
        if is_form_word(interps.last(), ignored) {
            assert(c is FormWord);
        } else {
            assert(!(c is FormWord));
        }
    }
}

proof fn lemma_sentence_entries_count(sentence: Seq<char>, segs: Seq<SegmentView>, ignored: Set<i32>)
    ensures
        form_words_of(sentence_entries(sentence, segs, ignored)).len() == total_form_words(
            segs,
            ignored,
        ),
    decreases segs.len(),
{
    if segs.len() > 0 {
        let p = sentence_entries(sentence, segs.drop_last(), ignored);
        lemma_sentence_entries_count(sentence, segs.drop_last(), ignored);
        let q = segment_entries(
            sentence,
            segs.last(),
            segs.last().interpretations,
            ignored,
            form_words_of(p).len() as int,
        );
        lemma_form_words_of_concat(p, q);
        lemma_segment_entries_count(
            sentence,
            segs.last(),
            segs.last().interpretations,
            ignored,
            form_words_of(p).len() as int,
        );
    }
}

proof fn lemma_count_prefix(interps: Seq<InterpretationView>, ignored: Set<i32>, j: int)
    requires
        0 <= j <= interps.len(),
    ensures
        count_form_words(interps.take(j), ignored) <= count_form_words(interps, ignored),
    decreases interps.len(),
{
    if j < interps.len() {
        assert(interps.drop_last().take(j) =~= interps.take(j));
        lemma_count_prefix(interps.drop_last(), ignored, j);
    } else {
        assert(interps.take(j) =~= interps);
    }
}

proof fn lemma_total_prefix(segs: Seq<SegmentView>, ignored: Set<i32>, s: int)
    requires
        0 <= s <= segs.len(),
    ensures
        total_form_words(segs.take(s), ignored) <= total_form_words(segs, ignored),
    decreases segs.len(),
{
    if s < segs.len() {
        assert(segs.drop_last().take(s) =~= segs.take(s));
        lemma_total_prefix(segs.drop_last(), ignored, s);
    } else {
        assert(segs.take(s) =~= segs);
    }
}

// ---------------------------------------------------------------------------------------------
// Building the entries
// ---------------------------------------------------------------------------------------------

/// `meaning (info)`, or just the meaning.
fn format_meaning_exec(m: &Meaning) -> (s: String)
    ensures
        s@ == format_meaning(m@),
{
    let mut s = m.meaning.clone();
    if let Some(info) = &m.meaning_info {
        s.append(" (");
        s.append(info.as_str());
        s.append(")");
    }
    s
}

/// `reading`, unless it is the same as `word`.
fn distinct_reading_exec(word: &String, reading: &String) -> (r: Option<String>)
    ensures
        crate::api::opt_view(r) == distinct_reading(word@, reading@),
{
    if *word == *reading {
        None
    } else {
        Some(reading.clone())
    }
}

/// The form entry for an interpretation of a segment of `sentence`.
fn classify_exec(
    sentence: &str,
    seg: &ApiSegment,
    interp: &ApiInterpretation,
    ignored: &HashSet<i32>,
    field_id: i32,
) -> (e: FormWordOr)
    requires
        valid_byte_range(sentence@, seg.range.start as int, seg.range.end as int),
    ensures
        e@ == classify(sentence@, seg@, interp@, ignored@, field_id as int),
{
    let text_word = substring(sentence, seg.range.start, seg.range.end);
    match interp.word_id {
        None => FormWordOr::Unknown { text_word, range: seg.range.start..seg.range.end },
        Some(word_id) => {
            if ignored.contains(&word_id) {
                FormWordOr::Ignored { text_word, range: seg.range.start..seg.range.end }
            } else {
                let mut meanings: Vec<String> = Vec::new();
                let mut k: usize = 0;
                while k < interp.meanings.len()
                    invariant
                        k <= interp.meanings.len(),
                        meanings@.len() == k,
                        forall|x: int|
                            0 <= x < k ==> #[trigger] meanings@[x]@ == format_meaning(
                                interp.meanings@[x]@,
                            ),
                    decreases interp.meanings.len() - k,
                {
                    meanings.push(format_meaning_exec(&interp.meanings[k]));
                    k += 1;
                }
                let fw = FormWord {
                    field_id,
                    word_id,
                    range: seg.range.start..seg.range.end,
                    text_word,
                    text_reading: distinct_reading_exec(
                        &interp.text_word,
                        &interp.text_reading_hiragana,
                    ),
                    db_word: interp.db_word.clone(),
                    db_reading: distinct_reading_exec(&interp.db_word, &interp.db_reading_hiragana),
                    score: interp.score,
                    meanings,
                    tail: None,
                };
                assert(fw@.meanings =~= interp@.meanings.map_values(
                    |m: MeaningView| format_meaning(m),
                ));
                FormWordOr::FormWord(fw)
            }
        },
    }
}

/// Adds `e` to the groups, joining the last group when it starts at the same place.
fn push_grouped(groups: &mut Vec<Vec<FormWordOr>>, e: FormWordOr, Ghost(es): Ghost<Seq<FormWordOrView>>, Ghost(sentence): Ghost<Seq<char>>)
    requires
        groups_view(old(groups)@) == runs(es),
        groups_ok(sentence, groups_view(old(groups)@)),
        valid_byte_range(sentence, e@.start() as int, e@.end() as int),
    ensures
        groups_view(final(groups)@) == runs(es.push(e@)),
        groups_ok(sentence, groups_view(final(groups)@)),
{
    let ghost all = es.push(e@);
    assert(all.drop_last() =~= es);
    let n = groups.len();
    if n > 0 {
        let last_len = groups[n - 1].len();
        if last_len > 0 {
            let same = groups[n - 1][last_len - 1].range().start == e.range().start;
            if same {
                let ghost old_groups = groups_view(groups@);
                let mut last = groups.pop().unwrap();
                let ghost old_last = last@;
                last.push(e);
                assert(last@.map_values(|x: FormWordOr| x@) =~= old_last.map_values(|x: FormWordOr| x@).push(e@));
                groups.push(last);
                assert(groups_view(groups@) =~= old_groups.drop_last().push(old_groups.last().push(e@)));
                assert forall|k: int| 0 <= k < groups_view(groups@).len() implies (#[trigger] groups_view(groups@)[k]).len() > 0 && forall|i: int| 0 <= i < groups_view(groups@)[k].len() ==> valid_byte_range(sentence, groups_view(groups@)[k][i].start() as int, groups_view(groups@)[k][i].end() as int) by {
                    if k < old_groups.len() - 1 {
                        assert(groups_view(groups@)[k] == old_groups[k]);
                    } else {
                        assert forall|i: int| 0 <= i < groups_view(groups@)[k].len() implies valid_byte_range(sentence, groups_view(groups@)[k][i].start() as int, groups_view(groups@)[k][i].end() as int) by {
                            if i < old_groups[k].len() {
                                assert(groups_view(groups@)[k][i] == old_groups[k][i]);
                            }
                        }
                    }
                }
                return;
            }
        }
    }
    let ghost old_groups = groups_view(groups@);
    let mut g: Vec<FormWordOr> = Vec::new();
    g.push(e);
    assert(g@.map_values(|x: FormWordOr| x@) =~= seq![e@]);
    groups.push(g);
    assert(groups_view(groups@) =~= old_groups.push(seq![e@]));
    assert forall|k: int| 0 <= k < groups_view(groups@).len() implies (#[trigger] groups_view(groups@)[k]).len() > 0 && forall|i: int| 0 <= i < groups_view(groups@)[k].len() ==> valid_byte_range(sentence, groups_view(groups@)[k][i].start() as int, groups_view(groups@)[k][i].end() as int) by {
        if k < old_groups.len() {
            assert(groups_view(groups@)[k] == old_groups[k]);
        }
    }
}

/// Every group is non-empty and every entry covers a valid byte range of the sentence.
pub open spec fn groups_ok(sentence: Seq<char>, groups: Seq<Seq<FormWordOrView>>) -> bool {
    forall|k: int|
        0 <= k < groups.len() ==> (#[trigger] groups[k]).len() > 0 && forall|i: int|
            0 <= i < groups[k].len() ==> valid_byte_range(
                sentence,
                groups[k][i].start() as int,
                groups[k][i].end() as int,
            )
}

/// The view of groups of entries.
pub open spec fn groups_view(groups: Seq<Vec<FormWordOr>>) -> Seq<Seq<FormWordOrView>> {
    groups.map_values(|g: Vec<FormWordOr>| g@.map_values(|x: FormWordOr| x@))
}

/// The entries for all interpretations of the segments, grouped into runs with the same start.
fn grouped_entries(sentence: &str, segments: &Vec<ApiSegment>, ignored: &HashSet<i32>) -> (groups: Vec<Vec<FormWordOr>>)
    requires
        forall|s: int| 0 <= s < segments@.len() ==> valid_byte_range(sentence@, #[trigger] segments@[s].range.start as int, segments@[s].range.end as int),
        total_form_words(segments@.map_values(|s: ApiSegment| s@), ignored@) < i32::MAX,
    ensures
        groups_view(groups@) == runs(sentence_entries(sentence@, segments@.map_values(|s: ApiSegment| s@), ignored@)),
        groups_ok(sentence@, groups_view(groups@)),
{
    let ghost segs = segments@.map_values(|s: ApiSegment| s@);
    let mut groups: Vec<Vec<FormWordOr>> = Vec::new();
    let mut field_id: i32 = 0;
    let ghost mut es: Seq<FormWordOrView> = seq![];
    let mut s: usize = 0;
    assert(groups_view(groups@) =~= runs(es));
    while s < segments.len()
        invariant
            s <= segments.len(),
            segs == segments@.map_values(|s: ApiSegment| s@),
            forall|s: int| 0 <= s < segments@.len() ==> valid_byte_range(sentence@, #[trigger] segments@[s].range.start as int, segments@[s].range.end as int),
            total_form_words(segs, ignored@) < i32::MAX,
            es == sentence_entries(sentence@, segs.take(s as int), ignored@),
            field_id as int == form_words_of(es).len(),
            form_words_of(es).len() == total_form_words(segs.take(s as int), ignored@),
            groups_view(groups@) == runs(es),
            groups_ok(sentence@, groups_view(groups@)),
        decreases segments.len() - s,
    {
        let seg = &segments[s];
        let ghost seg_view = segs[s as int];
        let ghost base = es;
        let ghost before = form_words_of(base).len() as int;
        proof {
            assert(seg_view == seg@);
            assert(segs.take(s + 1).drop_last() =~= segs.take(s as int));
            assert(segs.take(s + 1).last() == seg_view);
            lemma_total_prefix(segs, ignored@, s + 1);
            assert(segment_entries(sentence@, seg_view, seg_view.interpretations.take(0), ignored@, before) =~= seq![]);
            assert(base + seq![] =~= base);
        }
        let mut j: usize = 0;
        while j < seg.interpretations.len()
            invariant
                j <= seg.interpretations.len(),
                seg_view == seg@,
                valid_byte_range(sentence@, seg.range.start as int, seg.range.end as int),
                before == form_words_of(base).len(),
                before + count_form_words(seg_view.interpretations, ignored@) < i32::MAX,
                es == base + segment_entries(sentence@, seg_view, seg_view.interpretations.take(j as int), ignored@, before),
                field_id as int == form_words_of(es).len(),
                form_words_of(es).len() == before + count_form_words(seg_view.interpretations.take(j as int), ignored@),
                groups_view(groups@) == runs(es),
                groups_ok(sentence@, groups_view(groups@)),
            decreases seg.interpretations.len() - j,
        {
            let interp = &seg.interpretations[j];
            let ghost iv = seg_view.interpretations[j as int];
            let ghost prev_interps = seg_view.interpretations.take(j as int);
            let ghost p = segment_entries(sentence@, seg_view, prev_interps, ignored@, before);
            proof {
                assert(iv == interp@);
                assert(seg_view.interpretations.take(j + 1).drop_last() =~= prev_interps);
                assert(seg_view.interpretations.take(j + 1).last() == iv);
                lemma_form_words_of_concat(base, p);
                lemma_segment_entries_count(sentence@, seg_view, prev_interps, ignored@, before);
                lemma_count_prefix(seg_view.interpretations, ignored@, j + 1);
            }
            let becomes_word = match interp.word_id {
                Some(w) => !ignored.contains(&w),
                None => false,
            };
            if becomes_word {
                field_id = field_id + 1;
            }
            let e = classify_exec(sentence, seg, interp, ignored, field_id);
            proof {
                assert(e@ == classify(sentence@, seg_view, iv, ignored@, before + form_words_of(p).len() + 1)) by {
                    if !becomes_word {
                        match iv.word_id {
                            Some(w) => { assert(ignored@.contains(w)); },
                            None => {},
                        }
                    }
                }
            }
            push_grouped(&mut groups, e, Ghost(es), Ghost(sentence@));
            proof {
                let next = base + segment_entries(sentence@, seg_view, seg_view.interpretations.take(j + 1), ignored@, before);
                assert(next =~= es.push(e@));
                es = es.push(e@);
                lemma_form_words_of_concat(base, segment_entries(sentence@, seg_view, seg_view.interpretations.take(j + 1), ignored@, before));
                lemma_segment_entries_count(sentence@, seg_view, seg_view.interpretations.take(j + 1), ignored@, before);
            }
            j += 1;
        }
        proof {
            assert(seg_view.interpretations.take(seg.interpretations.len() as int) =~= seg_view.interpretations);
            assert(es == sentence_entries(sentence@, segs.take(s + 1), ignored@));
        }
        s += 1;
    }
    assert(segs.take(segments.len() as int) =~= segs);
    groups
}

// ---------------------------------------------------------------------------------------------
// Tails and order within a group
// ---------------------------------------------------------------------------------------------

/// Where the text after the group `k` ends: at the start of the next group, or at the end of the
/// sentence for the last group.
pub open spec fn group_end(sentence: Seq<char>, groups: Seq<Seq<FormWordOrView>>, k: int) -> int {
    if k + 1 < groups.len() {
        groups[k + 1][0].start() as int
    } else {
        utf8_len(sentence)
    }
}

/// A form word with the text between its end and `next_start` as its tail, if there is any.
pub open spec fn with_tail(sentence: Seq<char>, x: FormWordOrView, next_start: int) -> FormWordOrView {
    match x {
        FormWordOrView::FormWord(fw) => FormWordOrView::FormWord(
            FormWordView {
                tail: if (fw.end as int) < next_start {
                    Some(byte_substring(sentence, fw.end as int, next_start))
                } else {
                    None
                },
                ..fw
            },
        ),
        _ => x,
    }
}

/// The group `k` with the tails of its form words.
pub open spec fn tailed_group(sentence: Seq<char>, groups: Seq<Seq<FormWordOrView>>, k: int) -> Seq<
    FormWordOrView,
> {
    groups[k].map_values(|x: FormWordOrView| with_tail(sentence, x, group_end(sentence, groups, k)))
}

/// The order of entries within a group: form words before ignored and unknown entries, higher
/// scores first, and among words written 中 the reading なか, by far the most common one, first.
pub open spec fn entry_key(x: FormWordOrView) -> (int, int, int) {
    match x {
        FormWordOrView::FormWord(fw) => (
            0,
            -(fw.score as int),
            if fw.db_word == "中"@ && fw.text_reading != Some("なか"@) {
                1
            } else {
                0
            },
        ),
        _ => (1, 0, 0),
    }
}

pub open spec fn key_le(a: (int, int, int), b: (int, int, int)) -> bool {
    a.0 < b.0 || (a.0 == b.0 && (a.1 < b.1 || (a.1 == b.1 && a.2 <= b.2)))
}

/// The entries are in the order of `entry_key`.
pub open spec fn sorted_entries(g: Seq<FormWordOrView>) -> bool {
    forall|i: int, j: int|
        0 <= i < j < g.len() ==> key_le(entry_key(#[trigger] g[i]), entry_key(#[trigger] g[j]))
}

/// The key of an entry.
fn entry_key_exec(x: &FormWordOr) -> (k: (u8, i64, u8))
    ensures
        entry_key(x@) == (k.0 as int, k.1 as int, k.2 as int),
{
    match x {
        FormWordOr::FormWord(fw) => {
            let is_naka = match &fw.text_reading {
                Some(r) => str_eq(r.as_str(), "なか"),
                None => false,
            };
            let naka: u8 = if str_eq(fw.db_word.as_str(), "中") && !is_naka {
                1
            } else {
                0
            };
            (0, -(fw.score as i64), naka)
        },
        _ => (1, 0, 0),
    }
}

fn key_le_exec(a: (u8, i64, u8), b: (u8, i64, u8)) -> (le: bool)
    ensures
        le == key_le((a.0 as int, a.1 as int, a.2 as int), (b.0 as int, b.1 as int, b.2 as int)),
{
    a.0 < b.0 || (a.0 == b.0 && (a.1 < b.1 || (a.1 == b.1 && a.2 <= b.2)))
}

/// Inserts `x` after every entry that does not sort after it.
fn insert_sorted(sorted: &mut Vec<FormWordOr>, x: FormWordOr)
    requires
        sorted_entries(entries_view(old(sorted)@)),
    ensures
        sorted_entries(entries_view(final(sorted)@)),
        entries_view(final(sorted)@).to_multiset() == entries_view(old(sorted)@).to_multiset().insert(x@),
{
    let kx = entry_key_exec(&x);
    let ghost before = entries_view(sorted@);
    let mut pos: usize = 0;
    while pos < sorted.len() && key_le_exec(entry_key_exec(&sorted[pos]), kx)
        invariant
            pos <= sorted.len(),
            sorted@ == old(sorted)@,
            before == entries_view(sorted@),
            entry_key(x@) == (kx.0 as int, kx.1 as int, kx.2 as int),
            forall|i: int| 0 <= i < pos ==> key_le(entry_key(#[trigger] before[i]), entry_key(x@)),
        decreases sorted.len() - pos,
    {
        assert(before[pos as int] == sorted@[pos as int]@);
        pos += 1;
    }
    assert(pos < sorted.len() ==> before[pos as int] == sorted@[pos as int]@);
    sorted.insert(pos, x);
    proof {
        let after = entries_view(sorted@);
        assert(after =~= before.insert(pos as int, x@));
        assert forall|i: int, j: int| 0 <= i < j < after.len() implies key_le(entry_key(#[trigger] after[i]), entry_key(#[trigger] after[j])) by {
            if j < pos {
                assert(after[i] == before[i] && after[j] == before[j]);
            } else if j == pos {
                assert(after[i] == before[i]);
            } else if i < pos {
                assert(after[i] == before[i] && after[j] == before[j - 1]);
                assert(key_le(entry_key(before[i]), entry_key(x@)));
                assert(!key_le(entry_key(before[pos as int]), entry_key(x@)));
                if pos < j - 1 {
                    assert(key_le(entry_key(before[pos as int]), entry_key(before[j - 1])));
                }
            } else if i == pos {
                assert(after[j] == before[j - 1]);
                assert(!key_le(entry_key(before[pos as int]), entry_key(x@)));
                if pos < j - 1 {
                    assert(key_le(entry_key(before[pos as int]), entry_key(before[j - 1])));
                }
            } else {
                assert(after[i] == before[i - 1] && after[j] == before[j - 1]);
            }
        }
        assert(after.remove(pos as int) =~= before);
        after.to_multiset_ensures();
        assert(after[pos as int] == x@);
        assert(after.to_multiset() =~= before.to_multiset().insert(x@));
    }
}

/// The view of a list of entries.
pub open spec fn entries_view(es: Seq<FormWordOr>) -> Seq<FormWordOrView> {
    es.map_values(|x: FormWordOr| x@)
}

/// Gives a form word the text between its end and `next_start` as its tail.
fn attach_tail(sentence: &str, x: FormWordOr, next_start: usize) -> (y: FormWordOr)
    requires
        valid_byte_range(sentence@, x@.start() as int, x@.end() as int),
        next_start <= utf8_len(sentence@),
        vstd::utf8::is_char_boundary(vstd::utf8::encode_utf8(sentence@), next_start as int),
    ensures
        y@ == with_tail(sentence@, x@, next_start as int),
{
    match x {
        FormWordOr::FormWord(mut fw) => {
            let tail = if fw.range.end < next_start {
                Some(substring(sentence, fw.range.end, next_start))
            } else {
                None
            };
            fw.tail = tail;
            FormWordOr::FormWord(fw)
        },
        other => other,
    }
}

/// The entries of the sentence form for a segmented sentence: one entry per interpretation of
/// each segment, grouped into runs of entries that start at the same place in the sentence.
/// Form words get the text up to the next group as their tail, and each group is ordered by
/// `entry_key`, so that the most likely interpretation comes first.
pub fn form_words(sentence: &str, segments: &Vec<ApiSegment>, ignored_words: &HashSet<i32>) -> (groups: Vec<Vec<FormWordOr>>)
    requires
        forall|s: int| 0 <= s < segments@.len() ==> valid_byte_range(sentence@, #[trigger] segments@[s].range.start as int, segments@[s].range.end as int),
        total_form_words(segments@.map_values(|s: ApiSegment| s@), ignored_words@) < i32::MAX,
    ensures
        ({
            let runs = runs(sentence_entries(sentence@, segments@.map_values(|s: ApiSegment| s@), ignored_words@));
            &&& groups@.len() == runs.len()
            &&& forall|k: int| 0 <= k < groups@.len() ==> {
                &&& sorted_entries(entries_view(#[trigger] groups@[k]@))
                &&& entries_view(groups@[k]@).to_multiset() == tailed_group(sentence@, runs, k).to_multiset()
            }
        }),
        forall|k: int, m: int|
            0 <= k < groups@.len() && 0 <= m < groups@[k]@.len() && (#[trigger] groups@[k]@[m])@ is FormWord ==> exists|
                s: int,
                j: int,
            |
                0 <= s < segments@.len() && 0 <= j < segments@[s]@.interpretations.len() && form_word_made_from(
                    entry_form_word(groups@[k]@[m]@),
                    sentence@,
                    segments@[s]@,
                    #[trigger] segments@[s]@.interpretations[j],
                    ignored_words@,
                ),
{
    let mut grouped = grouped_entries(sentence, segments, ignored_words);
    let ghost all = groups_view(grouped@);
    let n = grouped.len();
    let mut starts: Vec<usize> = Vec::new();
    let mut k: usize = 0;
    while k < n
        invariant
            k <= n,
            n == grouped@.len(),
            all == groups_view(grouped@),
            groups_ok(sentence@, all),
            starts@.len() == k,
            forall|j: int| 0 <= j < k ==> #[trigger] starts@[j] == all[j][0].start(),
        decreases n - k,
    {
        assert(all[k as int].len() > 0);
        assert(all[k as int][0] == grouped@[k as int]@[0]@);
        starts.push(grouped[k][0].range().start);
        k += 1;
    }
    let len = sentence.as_bytes().len();
    let mut result: Vec<Vec<FormWordOr>> = Vec::new();
    let mut k: usize = 0;
    while k < n
        invariant
            k <= n,
            n == all.len(),
            groups_ok(sentence@, all),
            len == utf8_len(sentence@),
            starts@.len() == n,
            forall|j: int| 0 <= j < n ==> #[trigger] starts@[j] == all[j][0].start(),
            groups_view(grouped@) == all.skip(k as int),
            result@.len() == k,
            forall|j: int| 0 <= j < k ==> {
                &&& sorted_entries(entries_view(#[trigger] result@[j]@))
                &&& entries_view(result@[j]@).to_multiset() == tailed_group(sentence@, all, j).to_multiset()
            },
        decreases n - k,
    {
        let ghost rest = grouped@;
        assert(groups_view(grouped@).len() == grouped@.len());
        assert(all.skip(k as int).len() == n - k);
        let mut group = grouped.remove(0);
        proof {
            assert(groups_view(grouped@) =~= all.skip(k + 1)) by {
                assert forall|j: int| 0 <= j < grouped@.len() implies #[trigger] groups_view(grouped@)[j] == all.skip(k + 1)[j] by {
                    assert(grouped@[j] == rest[j + 1]);
                    assert(groups_view(rest)[j + 1] == all.skip(k as int)[j + 1]);
                }
            }
            assert(groups_view(rest)[0] == all[k as int]);
        }
        let next_start = if k + 1 < n {
            starts[k + 1]
        } else {
            len
        };
        proof {
            assert(next_start == group_end(sentence@, all, k as int));
            if k + 1 < n {
                assert(all[k + 1].len() > 0);
                assert(valid_byte_range(sentence@, all[k + 1][0].start() as int, all[k + 1][0].end() as int));
            } else {
                vstd::utf8::is_char_boundary_start_end_of_seq(vstd::utf8::encode_utf8(sentence@));
            }
        }
        let ghost tailed = tailed_group(sentence@, all, k as int);
        let ghost members = all[k as int];
        let m = group.len();
        let mut sorted: Vec<FormWordOr> = Vec::new();
        let mut i: usize = 0;
        assert(tailed.take(0).to_multiset() =~= entries_view(sorted@).to_multiset()) by {
            assert(tailed.take(0) =~= entries_view(sorted@));
        }
        while i < m
            invariant
                i <= m,
                m == members.len(),
                members == all[k as int],
                groups_ok(sentence@, all),
                0 <= k < all.len(),
                tailed == tailed_group(sentence@, all, k as int),
                next_start == group_end(sentence@, all, k as int),
                next_start <= utf8_len(sentence@),
                vstd::utf8::is_char_boundary(vstd::utf8::encode_utf8(sentence@), next_start as int),
                entries_view(group@) == members.skip(i as int),
                sorted_entries(entries_view(sorted@)),
                entries_view(sorted@).to_multiset() == tailed.take(i as int).to_multiset(),
            decreases m - i,
        {
            let ghost rest_group = group@;
            assert(entries_view(group@).len() == group@.len());
            assert(members.skip(i as int).len() == m - i);
            let x = group.remove(0);
            proof {
                assert(entries_view(group@) =~= members.skip(i + 1)) by {
                    assert forall|j: int| 0 <= j < group@.len() implies #[trigger] entries_view(group@)[j] == members.skip(i + 1)[j] by {
                        assert(group@[j] == rest_group[j + 1]);
                        assert(entries_view(rest_group)[j + 1] == members.skip(i as int)[j + 1]);
                    }
                }
                assert(x@ == members[i as int]) by {
                    assert(entries_view(rest_group)[0] == members.skip(i as int)[0]);
                }
                assert(valid_byte_range(sentence@, members[i as int].start() as int, members[i as int].end() as int));
            }
            let y = attach_tail(sentence, x, next_start);
            insert_sorted(&mut sorted, y);
            proof {
                assert(tailed.take(i + 1) =~= tailed.take(i as int).push(y@));
                tailed.take(i as int).to_multiset_ensures();
            }
            i += 1;
        }
        assert(tailed.take(m as int) =~= tailed);
        result.push(sorted);
        proof {
            assert forall|j: int| 0 <= j < k + 1 implies {
                &&& sorted_entries(entries_view(#[trigger] result@[j]@))
                &&& entries_view(result@[j]@).to_multiset() == tailed_group(sentence@, all, j).to_multiset()
            } by {
                if j < k {
                }
            }
        }
        k += 1;
    }
    proof {
        let segs = segments@.map_values(|s: ApiSegment| s@);
        let gv = result@.map_values(|g: Vec<FormWordOr>| entries_view(g@));
        assert forall|k: int| 0 <= k < gv.len() implies (#[trigger] gv[k]).to_multiset() == tailed_group(
            sentence@,
            runs(sentence_entries(sentence@, segs, ignored_words@)),
            k,
        ).to_multiset() by {
            assert(gv[k] == entries_view(result@[k]@));
        }
        lemma_groups_made_from(sentence@, segs, ignored_words@, gv);
        assert forall|k: int, m: int|
            0 <= k < result@.len() && 0 <= m < result@[k]@.len() && (#[trigger] result@[k]@[m])@ is FormWord implies exists|
                s: int,
                j: int,
            |
                0 <= s < segments@.len() && 0 <= j < segments@[s]@.interpretations.len() && form_word_made_from(
                    entry_form_word(result@[k]@[m]@),
                    sentence@,
                    segments@[s]@,
                    #[trigger] segments@[s]@.interpretations[j],
                    ignored_words@,
                ) by {
            assert(gv[k] == entries_view(result@[k]@));
            assert(gv[k][m] == result@[k]@[m]@);
            let (s, j) = choose|s: int, j: int|
                0 <= s < segs.len() && 0 <= j < segs[s].interpretations.len() && form_word_made_from(
                    entry_form_word(gv[k][m]),
                    sentence@,
                    segs[s],
                    #[trigger] segs[s].interpretations[j],
                    ignored_words@,
                );
            assert(segs[s] == segments@[s]@);
        }
    }
    result
}

/// Whether the form word was made from the interpretation `i` of the segment `seg` of the
/// sentence: it is a known word that is not ignored, it covers the segment, it shows the
/// segment's text, the interpretation's dictionary form and score, the dictionary reading
/// unless it is the dictionary form itself, and the reading of the text unless it is the text
/// itself.
pub open spec fn form_word_made_from(
    fw: FormWordView,
    sentence: Seq<char>,
    seg: SegmentView,
    i: InterpretationView,
    ignored: Set<i32>,
) -> bool {
    &&& i.word_id == Some(fw.word_id)
    &&& !ignored.contains(fw.word_id)
    &&& fw.start == seg.start
    &&& fw.end == seg.end
    &&& fw.text_word == byte_substring(sentence, seg.start as int, seg.end as int)
    &&& fw.db_word == i.db_word
    &&& fw.db_reading == (if i.db_word == i.db_reading_hiragana {
        None
    } else {
        Some(i.db_reading_hiragana)
    })
    &&& fw.text_reading == (if i.text_word == i.text_reading_hiragana {
        None
    } else {
        Some(i.text_reading_hiragana)
    })
    &&& fw.score == i.score
}

/// The form word of an entry, where it is one.
pub open spec fn entry_form_word(e: FormWordOrView) -> FormWordView {
    match e {
        FormWordOrView::FormWord(fw) => fw,
        _ => arbitrary(),
    }
}

proof fn lemma_segment_entries_made_from(
    sentence: Seq<char>,
    seg: SegmentView,
    interps: Seq<InterpretationView>,
    ignored: Set<i32>,
    before: int,
)
    ensures
        forall|k: int|
            0 <= k < segment_entries(sentence, seg, interps, ignored, before).len() && (#[trigger] segment_entries(
                sentence,
                seg,
                interps,
                ignored,
                before,
            )[k]) is FormWord ==> exists|j: int|
                0 <= j < interps.len() && form_word_made_from(
                    entry_form_word(segment_entries(sentence, seg, interps, ignored, before)[k]),
                    sentence,
                    seg,
                    #[trigger] interps[j],
                    ignored,
                ),
    decreases interps.len(),
{
    if interps.len() > 0 {
        let p = segment_entries(sentence, seg, interps.drop_last(), ignored, before);
        lemma_segment_entries_made_from(sentence, seg, interps.drop_last(), ignored, before);
        let all = segment_entries(sentence, seg, interps, ignored, before);
        let c = classify(sentence, seg, interps.last(), ignored, before + form_words_of(p).len() + 1);
        assert(all == p.push(c));
        assert forall|k: int| 0 <= k < all.len() && (#[trigger] all[k]) is FormWord implies exists|j: int|
            0 <= j < interps.len() && form_word_made_from(entry_form_word(all[k]), sentence, seg, #[trigger] interps[j], ignored) by {
            if k < p.len() {
                assert(all[k] == p[k]);
                let j = choose|j: int| 0 <= j < interps.drop_last().len() && form_word_made_from(entry_form_word(p[k]), sentence, seg, #[trigger] interps.drop_last()[j], ignored);
                assert(interps[j] == interps.drop_last()[j]);
            } else {
                assert(all[k] == c);
                let j = interps.len() - 1;
                assert(interps[j] == interps.last());
                assert(form_word_made_from(entry_form_word(c), sentence, seg, interps[j], ignored));
            }
        }
    }
}

/// Every form word of the sentence form is made from an interpretation of a segment of the
/// sentence, as `form_word_made_from` says: its dictionary reading is the interpretation's
/// dictionary reading (unless that is the dictionary form itself), and its reading of the text
/// is the interpretation's reading of the text (unless that is the text itself).
pub proof fn lemma_form_words_made_from(sentence: Seq<char>, segs: Seq<SegmentView>, ignored: Set<i32>)
    ensures
        forall|k: int|
            0 <= k < sentence_entries(sentence, segs, ignored).len() && (#[trigger] sentence_entries(
                sentence,
                segs,
                ignored,
            )[k]) is FormWord ==> exists|s: int, j: int|
                0 <= s < segs.len() && 0 <= j < segs[s].interpretations.len() && form_word_made_from(
                    entry_form_word(sentence_entries(sentence, segs, ignored)[k]),
                    sentence,
                    segs[s],
                    #[trigger] segs[s].interpretations[j],
                    ignored,
                ),
    decreases segs.len(),
{
    if segs.len() > 0 {
        let p = sentence_entries(sentence, segs.drop_last(), ignored);
        lemma_form_words_made_from(sentence, segs.drop_last(), ignored);
        let last = segs.last();
        let before = form_words_of(p).len() as int;
        let e = segment_entries(sentence, last, last.interpretations, ignored, before);
        lemma_segment_entries_made_from(sentence, last, last.interpretations, ignored, before);
        let all = sentence_entries(sentence, segs, ignored);
        assert(all == p + e);
        assert forall|k: int| 0 <= k < all.len() && (#[trigger] all[k]) is FormWord implies exists|s: int, j: int|
            0 <= s < segs.len() && 0 <= j < segs[s].interpretations.len() && form_word_made_from(
                entry_form_word(all[k]),
                sentence,
                segs[s],
                #[trigger] segs[s].interpretations[j],
                ignored,
            ) by {
            if k < p.len() {
                assert(all[k] == p[k]);
                let (s, j) = choose|s: int, j: int|
                    0 <= s < segs.drop_last().len() && 0 <= j < segs.drop_last()[s].interpretations.len() && form_word_made_from(
                        entry_form_word(p[k]),
                        sentence,
                        segs.drop_last()[s],
                        #[trigger] segs.drop_last()[s].interpretations[j],
                        ignored,
                    );
                assert(segs[s] == segs.drop_last()[s]);
            } else {
                assert(all[k] == e[k - p.len()]);
                let j = choose|j: int| 0 <= j < last.interpretations.len() && form_word_made_from(
                    entry_form_word(e[k - p.len()]),
                    sentence,
                    last,
                    #[trigger] last.interpretations[j],
                    ignored,
                );
                assert(segs[segs.len() - 1] == last);
                assert(segs[segs.len() - 1].interpretations[j] == last.interpretations[j]);
            }
        }
    }
}

proof fn lemma_runs_members(es: Seq<FormWordOrView>)
    ensures
        forall|k: int, m: int|
            0 <= k < runs(es).len() && 0 <= m < runs(es)[k].len() ==> es.contains(#[trigger] runs(es)[k][m]),
    decreases es.len(),
{
    if es.len() > 0 {
        let p = es.drop_last();
        lemma_runs_members(p);
        let r = runs(p);
        let x = es.last();
        assert(es[es.len() - 1] == x);
        assert forall|k: int, m: int| 0 <= k < runs(es).len() && 0 <= m < runs(es)[k].len() implies es.contains(#[trigger] runs(es)[k][m]) by {
            let y = runs(es)[k][m];
            if r.len() > 0 && r.last().len() > 0 && r.last().last().start() == x.start() {
                if k < r.len() - 1 {
                    assert(y == r[k][m]);
                } else if m < r.last().len() {
                    assert(y == r[r.len() - 1][m]);
                } else {
                    assert(y == x);
                }
            } else {
                if k < r.len() {
                    assert(y == r[k][m]);
                } else {
                    assert(y == x);
                }
            }
            if y != x {
                assert(p.contains(y));
                let i = choose|i: int| 0 <= i < p.len() && p[i] == y;
                assert(es[i] == p[i]);
            }
        }
    }
}

/// Every form word of the groups that `form_words` returns is made from an interpretation of a
/// segment of the sentence, as `form_word_made_from` says.
proof fn lemma_groups_made_from(
    sentence: Seq<char>,
    segs: Seq<SegmentView>,
    ignored: Set<i32>,
    groups: Seq<Seq<FormWordOrView>>,
)
    requires
        groups.len() == runs(sentence_entries(sentence, segs, ignored)).len(),
        forall|k: int|
            0 <= k < groups.len() ==> (#[trigger] groups[k]).to_multiset() == tailed_group(
                sentence,
                runs(sentence_entries(sentence, segs, ignored)),
                k,
            ).to_multiset(),
    ensures
        forall|k: int, m: int|
            0 <= k < groups.len() && 0 <= m < groups[k].len() && (#[trigger] groups[k][m]) is FormWord ==> exists|s: int, j: int|
                0 <= s < segs.len() && 0 <= j < segs[s].interpretations.len() && form_word_made_from(
                    entry_form_word(groups[k][m]),
                    sentence,
                    segs[s],
                    #[trigger] segs[s].interpretations[j],
                    ignored,
                ),
{
    let es = sentence_entries(sentence, segs, ignored);
    let rs = runs(es);
    lemma_runs_members(es);
    lemma_form_words_made_from(sentence, segs, ignored);
    assert forall|k: int, m: int|
        0 <= k < groups.len() && 0 <= m < groups[k].len() && (#[trigger] groups[k][m]) is FormWord implies exists|s: int, j: int|
            0 <= s < segs.len() && 0 <= j < segs[s].interpretations.len() && form_word_made_from(
                entry_form_word(groups[k][m]),
                sentence,
                segs[s],
                #[trigger] segs[s].interpretations[j],
                ignored,
            ) by {
        let y = groups[k][m];
        let t = tailed_group(sentence, rs, k);
        groups[k].to_multiset_ensures();
        t.to_multiset_ensures();
        assert(groups[k][m] == y);
        assert(groups[k].contains(y));
        assert(groups[k].to_multiset().count(y) > 0);
        assert(groups[k].to_multiset() == t.to_multiset());
        assert(t.to_multiset().count(y) > 0);
        assert(t.contains(y));
        let i = choose|i: int| 0 <= i < t.len() && t[i] == y;
        let x = rs[k][i];
        assert(t[i] == with_tail(sentence, x, group_end(sentence, rs, k)));
        assert(es.contains(x));
        let e = choose|e: int| 0 <= e < es.len() && es[e] == x;
        assert(x is FormWord);
        assert(es[e] is FormWord);
        let (s, j) = choose|s: int, j: int|
            0 <= s < segs.len() && 0 <= j < segs[s].interpretations.len() && form_word_made_from(
                entry_form_word(es[e]),
                sentence,
                segs[s],
                #[trigger] segs[s].interpretations[j],
                ignored,
            );
        assert(form_word_made_from(entry_form_word(y), sentence, segs[s], segs[s].interpretations[j], ignored));
    }
}

} // verus!
