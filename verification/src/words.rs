//! Words: their meanings, and the words that a user ignores.
use crate::api::{ApiSegment, InterpretationView, SegmentView};
use crate::decks::{flatten_strings, opt_strings_view, present_strings};
use std::collections::{HashMap, HashSet};
use vstd::prelude::*;

verus! {

broadcast use vstd::std_specs::hash::group_hash_axioms;

/// A row of the words table: a word id with its translations.
pub type WordTranslations = (i32, Vec<Option<String>>);

/// The meanings of the word `id`: the translations of its rows that are present, in row order.
pub open spec fn meanings_of(rows: Seq<WordTranslations>, id: i32) -> Seq<Seq<char>>
    decreases rows.len(),
{
    if rows.len() == 0 {
        seq![]
    } else {
        meanings_of(rows.drop_last(), id) + if rows.last().0 == id {
            present_strings(opt_strings_view(rows.last().1@))
        } else {
            seq![]
        }
    }
}

/// Whether some row is of the word `id`.
pub open spec fn has_row<T>(rows: Seq<(i32, T)>, id: i32) -> bool {
    exists|i: int| 0 <= i < rows.len() && #[trigger] rows[i].0 == id
}

/// Returns a mapping from word ids to their meanings: every word of the rows, with the present
/// translations of its rows in row order.
pub fn get_word_to_meanings(rows: &Vec<WordTranslations>) -> (map: HashMap<i32, Vec<String>>)
    ensures
        forall|id: i32| #[trigger] map@.contains_key(id) <==> has_row(rows@, id),
        forall|id: i32| #[trigger] map@.contains_key(id) ==> map@[id]@.map_values(|t: String| t@) == meanings_of(rows@, id),
{
    let mut map: HashMap<i32, Vec<String>> = HashMap::new();
    let mut i: usize = 0;
    while i < rows.len()
        invariant
            i <= rows.len(),
            forall|id: i32| #[trigger] map@.contains_key(id) <==> has_row(rows@.take(i as int), id),
            forall|id: i32| #[trigger] map@.contains_key(id) ==> map@[id]@.map_values(|t: String| t@) == meanings_of(rows@.take(i as int), id),
        decreases rows.len() - i,
    {
        let ghost prev = rows@.take(i as int);
        let ghost next = rows@.take(i + 1);
        let ghost old_map = map@;
        proof {
            assert(next.drop_last() =~= prev);
            assert(next.last() == rows@[i as int]);
        }
        let id = rows[i].0;
        let mut entry = match map.remove(&id) {
            Some(v) => v,
            None => Vec::new(),
        };
        let ghost before = entry@.map_values(|t: String| t@);
        assert(before == meanings_of(prev, id)) by {
            if !old_map.contains_key(id) {
                assert(!has_row(prev, id));
                assert(meanings_of(prev, id) =~= Seq::<Seq<char>>::empty()) by {
                    lemma_meanings_of_absent(prev, id);
                }
            }
        }
        let more = flatten_strings(&rows[i].1);
        let mut k: usize = 0;
        while k < more.len()
            invariant
                k <= more.len(),
                entry@.map_values(|t: String| t@) == before + more@.map_values(|t: String| t@).take(k as int),
            decreases more.len() - k,
        {
            let ghost e = entry@;
            entry.push(more[k].clone());
            assert(entry@.map_values(|t: String| t@) =~= e.map_values(|t: String| t@).push(more@[k as int]@));
            assert(more@.map_values(|t: String| t@).take(k + 1) =~= more@.map_values(|t: String| t@).take(k as int).push(more@[k as int]@));
            k += 1;
        }
        assert(more@.map_values(|t: String| t@).take(more.len() as int) =~= more@.map_values(|t: String| t@));
        map.insert(id, entry);
        proof {
            assert forall|x: i32| #[trigger] map@.contains_key(x) <==> has_row(next, x) by {
                if has_row(next, x) && x != id {
                    let w = choose|w: int| 0 <= w < next.len() && #[trigger] next[w].0 == x;
                    assert(prev[w] == next[w]);
                }
                if has_row(prev, x) {
                    let w = choose|w: int| 0 <= w < prev.len() && #[trigger] prev[w].0 == x;
                    assert(next[w] == prev[w]);
                }
                assert(next[i as int].0 == id);
            }
            assert forall|x: i32| #[trigger] map@.contains_key(x) implies map@[x]@.map_values(|t: String| t@) == meanings_of(next, x) by {
                if x != id {
                    assert(old_map.contains_key(x));
                }
            }
        }
        i += 1;
    }
    assert(rows@.take(rows.len() as int) =~= rows@);
    map
}

proof fn lemma_meanings_of_absent(rows: Seq<WordTranslations>, id: i32)
    requires
        !has_row(rows, id),
    ensures
        meanings_of(rows, id) == Seq::<Seq<char>>::empty(),
    decreases rows.len(),
{
    if rows.len() > 0 {
        assert(!has_row(rows.drop_last(), id)) by {
            if has_row(rows.drop_last(), id) {
                let w = choose|w: int| 0 <= w < rows.drop_last().len() && #[trigger] rows.drop_last()[w].0 == id;
                assert(rows[w].0 == id);
            }
        }
        lemma_meanings_of_absent(rows.drop_last(), id);
        assert(rows[rows.len() - 1].0 != id);
    }
}

// ---------------------------------------------------------------------------------------------
// Ignored words
// ---------------------------------------------------------------------------------------------

/// A written form of an ignored word, with its reading.
pub struct IgnoredWordWrittenForm {
    pub written_form: String,
    pub readings: Vec<String>,
}

/// A word that the user ignores, with its translations and written forms.
pub struct IgnoredWord {
    pub word_id: i32,
    pub translations: Vec<String>,
    pub written_forms: Vec<IgnoredWordWrittenForm>,
}

pub struct IgnoredWordView {
    pub word_id: i32,
    pub translations: Seq<Seq<char>>,
    pub written_forms: Seq<(Seq<char>, Seq<Seq<char>>)>,
}

impl View for IgnoredWord {
    type V = IgnoredWordView;

    open spec fn view(&self) -> IgnoredWordView {
        IgnoredWordView {
            word_id: self.word_id,
            translations: self.translations@.map_values(|t: String| t@),
            written_forms: self.written_forms@.map_values(
                |w: IgnoredWordWrittenForm| (w.written_form@, w.readings@.map_values(|r: String| r@)),
            ),
        }
    }
}

/// The ids of the rows, each once, in the order of their first row.
pub open spec fn distinct_ids<T>(rows: Seq<(i32, T)>) -> Seq<i32>
    decreases rows.len(),
{
    if rows.len() == 0 {
        seq![]
    } else {
        let ids = distinct_ids(rows.drop_last());
        if ids.contains(rows.last().0) {
            ids
        } else {
            ids.push(rows.last().0)
        }
    }
}

/// The value of the last row of `id`: the one that a map collected from the rows holds.
pub open spec fn last_of<T>(rows: Seq<(i32, T)>, id: i32) -> Option<T>
    decreases rows.len(),
{
    if rows.len() == 0 {
        None
    } else if rows.last().0 == id {
        Some(rows.last().1)
    } else {
        last_of(rows.drop_last(), id)
    }
}

/// The written forms of the word `id`, in row order, each with the word's reading if it has one.
pub open spec fn written_forms_of(
    written_forms: Seq<(i32, String)>,
    readings: Seq<(i32, String)>,
    id: i32,
) -> Seq<(Seq<char>, Seq<Seq<char>>)>
    decreases written_forms.len(),
{
    if written_forms.len() == 0 {
        seq![]
    } else {
        written_forms_of(written_forms.drop_last(), readings, id) + if written_forms.last().0 == id {
            seq![(
                written_forms.last().1@,
                match last_of(readings, id) {
                    Some(r) => seq![r@],
                    None => seq![],
                },
            )]
        } else {
            seq![]
        }
    }
}

/// The ignored word `id` as listed: the translations of its last translation row and its
/// written forms.
pub open spec fn ignored_word_spec(
    translations: Seq<WordTranslations>,
    written_forms: Seq<(i32, String)>,
    readings: Seq<(i32, String)>,
    id: i32,
) -> IgnoredWordView {
    IgnoredWordView {
        word_id: id,
        translations: match last_of(translations, id) {
            Some(t) => present_strings(opt_strings_view(t@)),
            None => seq![],
        },
        written_forms: written_forms_of(written_forms, readings, id),
    }
}

/// Finds the last row of `id`.
fn find_last<T>(rows: &Vec<(i32, T)>, id: i32) -> (found: Option<usize>)
    ensures
        match found {
            None => last_of(rows@, id) is None,
            Some(k) => k < rows@.len() && last_of(rows@, id) == Some(rows@[k as int].1),
        },
{
    let mut i: usize = rows.len();
    assert(rows@.take(i as int) =~= rows@);
    while i > 0
        invariant
            i <= rows.len(),
            last_of(rows@, id) == last_of(rows@.take(i as int), id),
        decreases i,
    {
        let ghost t = rows@.take(i as int);
        assert(t.drop_last() =~= rows@.take(i - 1));
        assert(t.last() == rows@[i - 1]);
        if rows[i - 1].0 == id {
            return Some(i - 1);
        }
        i -= 1;
    }
    None
}

/// Lists the words that the user ignores, from the rows of their translations, written forms and
/// readings: one entry per word of the translation rows, in the order of its first row.
pub fn ignored_words(
    translations: &Vec<WordTranslations>,
    written_forms: &Vec<(i32, String)>,
    readings: &Vec<(i32, String)>,
) -> (words: Vec<IgnoredWord>)
    ensures
        words@.len() == distinct_ids(translations@).len(),
        forall|i: int|
            0 <= i < words@.len() ==> (#[trigger] words@[i])@ == ignored_word_spec(
                translations@,
                written_forms@,
                readings@,
                distinct_ids(translations@)[i],
            ),
{
    // the words, each once, in the order of their first row
    let mut seen: HashSet<i32> = HashSet::new();
    let mut order: Vec<i32> = Vec::new();
    let mut i: usize = 0;
    while i < translations.len()
        invariant
            i <= translations.len(),
            order@ == distinct_ids(translations@.take(i as int)),
            forall|id: i32| seen@.contains(id) <==> order@.contains(id),
        decreases translations.len() - i,
    {
        let ghost t = translations@.take(i + 1);
        assert(t.drop_last() =~= translations@.take(i as int));
        assert(t.last() == translations@[i as int]);
        let id = translations[i].0;
        let ghost prev = order@;
        if !seen.contains(&id) {
            seen.insert(id);
            order.push(id);
            proof {
                assert forall|x: i32| seen@.contains(x) <==> order@.contains(x) by {
                    if order@.contains(x) && x != id {
                        let k = choose|k: int| 0 <= k < order@.len() && order@[k] == x;
                        assert(prev[k] == x);
                    }
                    if prev.contains(x) {
                        let k = choose|k: int| 0 <= k < prev.len() && prev[k] == x;
                        assert(order@[k] == x);
                    }
                    assert(order@[prev.len() as int] == id);
                }
            }
        }
        i += 1;
    }
    assert(translations@.take(translations.len() as int) =~= translations@);
    let mut words: Vec<IgnoredWord> = Vec::new();
    let mut j: usize = 0;
    while j < order.len()
        invariant
            j <= order.len(),
            order@ == distinct_ids(translations@),
            words@.len() == j,
            forall|c: int|
                0 <= c < j ==> (#[trigger] words@[c])@ == ignored_word_spec(
                    translations@,
                    written_forms@,
                    readings@,
                    distinct_ids(translations@)[c],
                ),
        decreases order.len() - j,
    {
        let id = order[j];
        let word_translations = match find_last(translations, id) {
            Some(k) => flatten_strings(&translations[k].1),
            None => Vec::new(),
        };
        assert(word_translations@.map_values(|t: String| t@) =~= match last_of(translations@, id) {
            Some(t) => present_strings(opt_strings_view(t@)),
            None => seq![],
        });
        let reading = find_last(readings, id);
        let mut forms: Vec<IgnoredWordWrittenForm> = Vec::new();
        let mut k: usize = 0;
        while k < written_forms.len()
            invariant
                k <= written_forms.len(),
                match reading {
                    None => last_of(readings@, id) is None,
                    Some(r) => r < readings@.len() && last_of(readings@, id) == Some(readings@[r as int].1),
                },
                forms@.map_values(|w: IgnoredWordWrittenForm| (w.written_form@, w.readings@.map_values(|r: String| r@)))
                    == written_forms_of(written_forms@.take(k as int), readings@, id),
            decreases written_forms.len() - k,
        {
            let ghost t = written_forms@.take(k + 1);
            assert(t.drop_last() =~= written_forms@.take(k as int));
            assert(t.last() == written_forms@[k as int]);
            let ghost prev = forms@;
            if written_forms[k].0 == id {
                let mut rs: Vec<String> = Vec::new();
                if let Some(r) = reading {
                    rs.push(readings[r].1.clone());
                }
                let form = IgnoredWordWrittenForm { written_form: written_forms[k].1.clone(), readings: rs };
                forms.push(form);
                proof {
                    let expected = (
                        written_forms@[k as int].1@,
                        match last_of(readings@, id) {
                            Some(r) => seq![r@],
                            None => seq![],
                        },
                    );
                    assert(form.readings@.map_values(|r: String| r@) =~= expected.1);
                    assert(forms@.map_values(|w: IgnoredWordWrittenForm| (w.written_form@, w.readings@.map_values(|r: String| r@))) =~= prev.map_values(|w: IgnoredWordWrittenForm| (w.written_form@, w.readings@.map_values(|r: String| r@))).push(expected));
                }
            }
            k += 1;
        }
        assert(written_forms@.take(written_forms.len() as int) =~= written_forms@);
        let word = IgnoredWord { word_id: id, translations: word_translations, written_forms: forms };
        words.push(word);
        proof {
            assert(distinct_ids(translations@)[j as int] == id);
            assert(words@[j as int]@ == ignored_word_spec(translations@, written_forms@, readings@, id));
        }
        j += 1;
    }
    words
}

// ---------------------------------------------------------------------------------------------
// Segmented paragraphs
// ---------------------------------------------------------------------------------------------

/// A sentence of a paragraph with its segments.
pub struct SegmentedParagraphSentence {
    pub sentence: String,
    pub segments: Vec<ApiSegment>,
}

/// The words of the interpretations, in order.
pub open spec fn interpretation_word_ids(is: Seq<InterpretationView>) -> Seq<i32>
    decreases is.len(),
{
    if is.len() == 0 {
        seq![]
    } else {
        interpretation_word_ids(is.drop_last()) + match is.last().word_id {
            Some(id) => seq![id],
            None => seq![],
        }
    }
}

/// The words of the interpretations of the segments, in order.
pub open spec fn segment_word_ids(segments: Seq<SegmentView>) -> Seq<i32>
    decreases segments.len(),
{
    if segments.len() == 0 {
        seq![]
    } else {
        segment_word_ids(segments.drop_last()) + interpretation_word_ids(segments.last().interpretations)
    }
}

pub open spec fn segments_view(segments: Seq<ApiSegment>) -> Seq<SegmentView> {
    segments.map_values(|s: ApiSegment| s@)
}

/// The words of the interpretations of the segments of the sentences, in order.
pub open spec fn paragraph_word_ids(sentences: Seq<SegmentedParagraphSentence>) -> Seq<i32>
    decreases sentences.len(),
{
    if sentences.len() == 0 {
        seq![]
    } else {
        paragraph_word_ids(sentences.drop_last()) + segment_word_ids(segments_view(sentences.last().segments@))
    }
}

/// Lists the words of the interpretations of the segments of the sentences.
fn collect_word_ids(sentences: &Vec<SegmentedParagraphSentence>) -> (ids: Vec<i32>)
    ensures
        ids@ == paragraph_word_ids(sentences@),
{
    let mut ids: Vec<i32> = Vec::new();
    let mut s: usize = 0;
    while s < sentences.len()
        invariant
            s <= sentences.len(),
            ids@ == paragraph_word_ids(sentences@.take(s as int)),
        decreases sentences.len() - s,
    {
        let segments = &sentences[s].segments;
        let ghost sv = segments_view(segments@);
        let ghost base = ids@;
        let mut g: usize = 0;
        while g < segments.len()
            invariant
                g <= segments.len(),
                sv == segments_view(segments@),
                ids@ == base + segment_word_ids(sv.take(g as int)),
            decreases segments.len() - g,
        {
            let interpretations = &segments[g].interpretations;
            let ghost iv = segments@[g as int]@.interpretations;
            let ghost mid = ids@;
            let mut k: usize = 0;
            while k < interpretations.len()
                invariant
                    k <= interpretations.len(),
                    iv == interpretations@.map_values(|i: crate::api::ApiInterpretation| i@),
                    ids@ == mid + interpretation_word_ids(iv.take(k as int)),
                decreases interpretations.len() - k,
            {
                let ghost t = iv.take(k + 1);
                assert(t.drop_last() =~= iv.take(k as int));
                assert(t.last() == interpretations@[k as int]@);
                let ghost before = ids@;
                if let Some(id) = interpretations[k].word_id {
                    ids.push(id);
                    assert(ids@ =~= before.push(id));
                    assert(mid + interpretation_word_ids(t) =~= (mid + interpretation_word_ids(iv.take(k as int))).push(id));
                } else {
                    assert(interpretation_word_ids(t) =~= interpretation_word_ids(iv.take(k as int)));
                }
                k += 1;
            }
            proof {
                assert(iv.take(interpretations.len() as int) =~= iv);
                let t = sv.take(g + 1);
                assert(t.drop_last() =~= sv.take(g as int));
                assert(t.last() == segments@[g as int]@);
                assert(base + segment_word_ids(t) =~= base + segment_word_ids(sv.take(g as int)) + interpretation_word_ids(iv));
            }
            g += 1;
        }
        proof {
            assert(sv.take(segments.len() as int) =~= sv);
            let t = sentences@.take(s + 1);
            assert(t.drop_last() =~= sentences@.take(s as int));
            assert(t.last() == sentences@[s as int]);
        }
        s += 1;
    }
    assert(sentences@.take(sentences.len() as int) =~= sentences@);
    ids
}

/// The words of the paragraph that the user ignores: those that an interpretation of a segment
/// of the paragraph's sentences is of and that the user ignores.
pub fn paragraph_ignored_words(sentences: &Vec<SegmentedParagraphSentence>, ignored: &HashSet<i32>) -> (words: HashSet<i32>)
    ensures
        forall|id: i32| #[trigger] words@.contains(id) <==> (paragraph_word_ids(sentences@).contains(id) && ignored@.contains(id)),
{
    let ids = collect_word_ids(sentences);
    let mut words: HashSet<i32> = HashSet::new();
    let mut i: usize = 0;
    while i < ids.len()
        invariant
            i <= ids.len(),
            forall|id: i32| #[trigger] words@.contains(id) <==> (ids@.take(i as int).contains(id) && ignored@.contains(id)),
        decreases ids.len() - i,
    {
        let id = ids[i];
        if ignored.contains(&id) {
            words.insert(id);
        }
        proof {
            let prev = ids@.take(i as int);
            let next = ids@.take(i + 1);
            assert forall|x: i32| next.contains(x) <==> prev.contains(x) || x == id by {
                if next.contains(x) {
                    let k = choose|k: int| 0 <= k < next.len() && next[k] == x;
                    if k < prev.len() {
                        assert(prev[k] == x);
                    }
                }
                if prev.contains(x) {
                    let k = choose|k: int| 0 <= k < prev.len() && prev[k] == x;
                    assert(next[k] == x);
                }
                assert(next[i as int] == id);
            }
        }
        i += 1;
    }
    assert(ids@.take(ids.len() as int) =~= ids@);
    words
}

} // verus!
