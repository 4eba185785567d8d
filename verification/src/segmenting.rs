//! Turning the segments that the analysis of a sentence gives into the segments that the
//! server answers with: only the interpretations that are LBR words are kept, each with the
//! word's written form and reading from the dictionary.
use crate::api::{ApiInterpretation, ApiSegment, InterpretationView, Meaning, MeaningView, SegmentView};
use std::ops::Range;
use vstd::prelude::*;

verus! {

/// One way of reading a segment, as the analysis gives it.
pub struct LbrInterpretation {
    /// The LBR word, if the interpretation is one.
    pub word_id: Option<i32>,
    pub score: i32,
    pub word: String,
    pub reading_hiragana: String,
    pub meanings: Vec<Meaning>,
}

/// A segment of a sentence, as the analysis gives it.
pub struct LbrSegment {
    pub text: String,
    pub interpretations: Vec<LbrInterpretation>,
    /// The byte range of the segment in the sentence.
    pub range: Range<usize>,
}

pub struct LbrInterpretationView {
    pub word_id: Option<i32>,
    pub score: i32,
    pub word: Seq<char>,
    pub reading_hiragana: Seq<char>,
    pub meanings: Seq<MeaningView>,
}

impl View for LbrInterpretation {
    type V = LbrInterpretationView;

    open spec fn view(&self) -> LbrInterpretationView {
        LbrInterpretationView {
            word_id: self.word_id,
            score: self.score,
            word: self.word@,
            reading_hiragana: self.reading_hiragana@,
            meanings: self.meanings@.map_values(|m: Meaning| m@),
        }
    }
}

pub struct LbrSegmentView {
    pub text: Seq<char>,
    pub interpretations: Seq<LbrInterpretationView>,
    pub start: usize,
    pub end: usize,
}

impl View for LbrSegment {
    type V = LbrSegmentView;

    open spec fn view(&self) -> LbrSegmentView {
        LbrSegmentView {
            text: self.text@,
            interpretations: self.interpretations@.map_values(|i: LbrInterpretation| i@),
            start: self.range.start,
            end: self.range.end,
        }
    }
}

/// A row of the words table: `(id, written form, standard reading)`.
pub type WordRow = (i32, String, String);

/// The written form and the standard reading of the first row of the word `id`, if any.
pub open spec fn word_row(rows: Seq<WordRow>, id: i32) -> Option<(Seq<char>, Seq<char>)>
    decreases rows.len(),
{
    if rows.len() == 0 {
        None
    } else if rows[0].0 == id {
        Some((rows[0].1@, rows[0].2@))
    } else {
        word_row(rows.drop_first(), id)
    }
}

/// The answer's interpretation for an interpretation of the word `id`, given the word's row.
pub open spec fn api_interpretation(i: LbrInterpretationView, id: i32, row: (Seq<char>, Seq<char>)) -> InterpretationView {
    InterpretationView {
        word_id: Some(id),
        score: i.score,
        text_word: i.word,
        text_reading_hiragana: i.reading_hiragana,
        db_word: row.0,
        db_reading_hiragana: row.1,
        meanings: i.meanings,
    }
}

/// The answer's interpretations for those that are LBR words, in order, or the first word that
/// has no row.
pub open spec fn api_interpretations(is: Seq<LbrInterpretationView>, rows: Seq<WordRow>) -> Result<Seq<InterpretationView>, i32>
    decreases is.len(),
{
    if is.len() == 0 {
        Ok(seq![])
    } else {
        match api_interpretations(is.drop_last(), rows) {
            Err(id) => Err(id),
            Ok(done) => {
                let i = is.last();
                match i.word_id {
                    None => Ok(done),
                    Some(id) => match word_row(rows, id) {
                        None => Err(id),
                        Some(row) => Ok(done.push(api_interpretation(i, id, row))),
                    },
                }
            },
        }
    }
}

/// The answer's segments, in order, or the first word that has no row.
pub open spec fn api_segments(segs: Seq<LbrSegmentView>, rows: Seq<WordRow>) -> Result<Seq<SegmentView>, i32>
    decreases segs.len(),
{
    if segs.len() == 0 {
        Ok(seq![])
    } else {
        match api_segments(segs.drop_last(), rows) {
            Err(id) => Err(id),
            Ok(done) => {
                let s = segs.last();
                match api_interpretations(s.interpretations, rows) {
                    Err(id) => Err(id),
                    Ok(is) => Ok(done.push(SegmentView { text: s.text, interpretations: is, start: s.start, end: s.end })),
                }
            },
        }
    }
}

/// The written form and the standard reading of the word `id`, from its first row.
pub fn find_word_row(rows: &Vec<WordRow>, id: i32) -> (row: Option<(String, String)>)
    ensures
        match row {
            Some(r) => word_row(rows@, id) == Some((r.0@, r.1@)),
            None => word_row(rows@, id) is None,
        },
{
    let mut i: usize = 0;
    assert(rows@.skip(0) =~= rows@);
    while i < rows.len()
        invariant
            i <= rows.len(),
            word_row(rows@, id) == word_row(rows@.skip(i as int), id),
        decreases rows.len() - i,
    {
        let ghost rest = rows@.skip(i as int);
        assert(rest.drop_first() =~= rows@.skip(i + 1));
        assert(rest[0] == rows@[i as int]);
        if rows[i].0 == id {
            return Some((rows[i].1.clone(), rows[i].2.clone()));
        }
        i += 1;
    }
    None
}

proof fn lemma_interpretations_error_stays(is: Seq<LbrInterpretationView>, rows: Seq<WordRow>, n: int)
    requires
        0 <= n <= is.len(),
        api_interpretations(is.take(n), rows) is Err,
    ensures
        api_interpretations(is, rows) == api_interpretations(is.take(n), rows),
    decreases is.len() - n,
{
    if n < is.len() {
        assert(is.take(n + 1).drop_last() =~= is.take(n));
        lemma_interpretations_error_stays(is, rows, n + 1);
    } else {
        assert(is.take(n) =~= is);
    }
}

proof fn lemma_segments_error_stays(segs: Seq<LbrSegmentView>, rows: Seq<WordRow>, n: int)
    requires
        0 <= n <= segs.len(),
        api_segments(segs.take(n), rows) is Err,
    ensures
        api_segments(segs, rows) == api_segments(segs.take(n), rows),
    decreases segs.len() - n,
{
    if n < segs.len() {
        assert(segs.take(n + 1).drop_last() =~= segs.take(n));
        lemma_segments_error_stays(segs, rows, n + 1);
    } else {
        assert(segs.take(n) =~= segs);
    }
}

/// The answer's interpretations for those that are LBR words, each with its word's written form
/// and reading, or the first word that has no row.
fn to_api_interpretations(interpretations: Vec<LbrInterpretation>, rows: &Vec<WordRow>) -> (res: Result<Vec<ApiInterpretation>, i32>)
    ensures
        match api_interpretations(interpretations@.map_values(|i: LbrInterpretation| i@), rows@) {
            Ok(is) => res matches Ok(v) && v@.map_values(|i: ApiInterpretation| i@) == is,
            Err(id) => res == Err::<Vec<ApiInterpretation>, i32>(id),
        },
{
    let ghost all = interpretations@.map_values(|i: LbrInterpretation| i@);
    let ghost given = interpretations@;
    let mut rest = interpretations;
    let mut out: Vec<ApiInterpretation> = Vec::new();
    let ghost mut k: int = 0;
    assert(given.skip(0) =~= given);
    assert(all.take(0) =~= Seq::<LbrInterpretationView>::empty());
    assert(out@.map_values(|i: ApiInterpretation| i@) =~= Seq::<InterpretationView>::empty());
    while rest.len() > 0
        invariant
            0 <= k <= given.len(),
            all == given.map_values(|i: LbrInterpretation| i@),
            all == interpretations@.map_values(|i: LbrInterpretation| i@),
            rest@ == given.skip(k),
            api_interpretations(all.take(k), rows@) == Ok::<Seq<InterpretationView>, i32>(out@.map_values(|i: ApiInterpretation| i@)),
        decreases rest.len(),
    {
        let i = rest.remove(0);
        assert(i == given[k]);
        let ghost prev = out@;
        proof {
            assert(all.take(k + 1).drop_last() =~= all.take(k));
            assert(all.take(k + 1).last() == i@);
        }
        match i.word_id {
            None => {},
            Some(id) => match find_word_row(rows, id) {
                None => {
                    proof {
                        assert(i@.word_id == Some(id));
                        assert(api_interpretations(all.take(k + 1), rows@) == Err::<Seq<InterpretationView>, i32>(id));
                        lemma_interpretations_error_stays(all, rows@, k + 1);
                    }
                    return Err(id);
                },
                Some((db_word, db_reading_hiragana)) => {
                    out.push(
                        ApiInterpretation {
                            word_id: Some(id),
                            score: i.score,
                            text_word: i.word,
                            text_reading_hiragana: i.reading_hiragana,
                            db_word,
                            db_reading_hiragana,
                            meanings: i.meanings,
                        },
                    );
                    assert(out@.map_values(|i: ApiInterpretation| i@) =~= prev.map_values(|i: ApiInterpretation| i@).push(
                        out@[out@.len() - 1]@,
                    ));
                },
            },
        }
        proof {
            assert(rest@ =~= given.skip(k + 1));
            k = k + 1;
        }
    }
    assert(all.take(k) =~= all);
    Ok(out)
}

/// The segments the server answers with for the analysed segments: in each, only the
/// interpretations that are LBR words, each with its word's written form and standard reading
/// from `rows`; or the first word that has no row.
pub fn to_api_segments(segments: Vec<LbrSegment>, rows: &Vec<WordRow>) -> (res: Result<Vec<ApiSegment>, i32>)
    ensures
        match api_segments(segments@.map_values(|s: LbrSegment| s@), rows@) {
            Ok(segs) => res matches Ok(v) && v@.map_values(|s: ApiSegment| s@) == segs,
            Err(id) => res == Err::<Vec<ApiSegment>, i32>(id),
        },
        res matches Ok(v) ==> v@.len() == segments@.len() && forall|s: int, k: int|
            0 <= s < v@.len() && 0 <= k < v@[s].interpretations@.len() ==> answers(
                (#[trigger] v@[s].interpretations@[k])@,
                segments@[s]@.interpretations,
                rows@,
            ),
{
    let ghost all = segments@.map_values(|s: LbrSegment| s@);
    let ghost given = segments@;
    let mut rest = segments;
    let mut out: Vec<ApiSegment> = Vec::new();
    let ghost mut k: int = 0;
    assert(given.skip(0) =~= given);
    assert(all.take(0) =~= Seq::<LbrSegmentView>::empty());
    assert(out@.map_values(|s: ApiSegment| s@) =~= Seq::<SegmentView>::empty());
    while rest.len() > 0
        invariant
            0 <= k <= given.len(),
            all == given.map_values(|s: LbrSegment| s@),
            all == segments@.map_values(|s: LbrSegment| s@),
            rest@ == given.skip(k),
            api_segments(all.take(k), rows@) == Ok::<Seq<SegmentView>, i32>(out@.map_values(|s: ApiSegment| s@)),
        decreases rest.len(),
    {
        let s = rest.remove(0);
        assert(s == given[k]);
        let ghost prev = out@;
        proof {
            assert(all.take(k + 1).drop_last() =~= all.take(k));
            assert(all.take(k + 1).last() == s@);
        }
        let ghost sv = s@;
        let LbrSegment { text, interpretations, range } = s;
        assert(sv.interpretations == interpretations@.map_values(|i: LbrInterpretation| i@));
        match to_api_interpretations(interpretations, rows) {
            Err(id) => {
                proof {
                    assert(api_segments(all.take(k + 1), rows@) == Err::<Seq<SegmentView>, i32>(id));
                    lemma_segments_error_stays(all, rows@, k + 1);
                }
                return Err(id);
            },
            Ok(interpretations) => {
                out.push(ApiSegment { text, interpretations, range });
                assert(out@.map_values(|s: ApiSegment| s@) =~= prev.map_values(|s: ApiSegment| s@).push(out@[out@.len() - 1]@));
            },
        }
        proof {
            assert(rest@ =~= given.skip(k + 1));
            k = k + 1;
        }
    }
    assert(all.take(k) =~= all);
    proof {
        lemma_segments_answered(all, rows@);
        let ov = out@.map_values(|s: ApiSegment| s@);
        assert forall|s: int, m: int|
            0 <= s < out@.len() && 0 <= m < out@[s].interpretations@.len() implies answers(
                (#[trigger] out@[s].interpretations@[m])@,
                segments@[s]@.interpretations,
                rows@,
            ) by {
            assert(ov[s] == out@[s]@);
            assert(all[s] == segments@[s]@);
            assert(out@[s]@.interpretations[m] == out@[s].interpretations@[m]@);
        }
    }
    Ok(out)
}

/// Whether row `x` is the first row of the word `id`.
pub open spec fn first_row_of(rows: Seq<WordRow>, id: i32, x: int) -> bool {
    &&& 0 <= x < rows.len()
    &&& rows[x].0 == id
    &&& forall|y: int| 0 <= y < x ==> (#[trigger] rows[y]).0 != id
}

/// Whether `a` answers an interpretation among `is` that is a word: it is that interpretation,
/// with the written form and the standard reading of the first row of its word.
pub open spec fn answers(a: InterpretationView, is: Seq<LbrInterpretationView>, rows: Seq<WordRow>) -> bool {
    exists|j: int, x: int|
        #![trigger is[j], rows[x]]
        0 <= j < is.len() && is[j].word_id == a.word_id && a.word_id is Some && first_row_of(rows, a.word_id->0, x)
            && a.db_word == rows[x].1@ && a.db_reading_hiragana == rows[x].2@ && a.text_word == is[j].word
            && a.text_reading_hiragana == is[j].reading_hiragana && a.score == is[j].score && a.meanings
            == is[j].meanings
}

/// The number of interpretations that are words.
pub open spec fn word_count(is: Seq<LbrInterpretationView>) -> nat
    decreases is.len(),
{
    if is.len() == 0 {
        0
    } else {
        word_count(is.drop_last()) + if is.last().word_id is Some {
            1nat
        } else {
            0nat
        }
    }
}

proof fn lemma_word_row_first(rows: Seq<WordRow>, id: i32)
    ensures
        match word_row(rows, id) {
            Some(r) => exists|x: int| first_row_of(rows, id, x) && #[trigger] rows[x].1@ == r.0 && rows[x].2@ == r.1,
            None => forall|x: int| 0 <= x < rows.len() ==> (#[trigger] rows[x]).0 != id,
        },
    decreases rows.len(),
{
    if rows.len() > 0 {
        let rest = rows.drop_first();
        lemma_word_row_first(rest, id);
        if rows[0].0 == id {
            assert(first_row_of(rows, id, 0));
        } else {
            match word_row(rest, id) {
                Some(r) => {
                    let x = choose|x: int| first_row_of(rest, id, x) && #[trigger] rest[x].1@ == r.0 && rest[x].2@ == r.1;
                    assert(rows[x + 1] == rest[x]);
                    assert forall|y: int| 0 <= y < x + 1 implies (#[trigger] rows[y]).0 != id by {
                        if y > 0 {
                            assert(rows[y] == rest[y - 1]);
                        }
                    }
                    assert(first_row_of(rows, id, x + 1));
                },
                None => {
                    assert forall|x: int| 0 <= x < rows.len() implies (#[trigger] rows[x]).0 != id by {
                        if x > 0 {
                            assert(rows[x] == rest[x - 1]);
                        }
                    }
                },
            }
        }
    }
}

proof fn lemma_answers_extend(a: InterpretationView, is: Seq<LbrInterpretationView>, rows: Seq<WordRow>)
    requires
        is.len() > 0,
        answers(a, is.drop_last(), rows),
    ensures
        answers(a, is, rows),
{
    let p = is.drop_last();
    let (j, x) = choose|j: int, x: int|
        #![trigger p[j], rows[x]]
        0 <= j < p.len() && p[j].word_id == a.word_id && a.word_id is Some && first_row_of(rows, a.word_id->0, x)
            && a.db_word == rows[x].1@ && a.db_reading_hiragana == rows[x].2@ && a.text_word == p[j].word
            && a.text_reading_hiragana == p[j].reading_hiragana && a.score == p[j].score && a.meanings == p[j].meanings;
    assert(is[j] == p[j]);
}

/// The interpretations answered for a segment are those of its interpretations that are words,
/// one for each, each with the written form and the standard reading that the words table
/// holds for its word in the word's first row; where a word has no row, that word is the error.
pub proof fn lemma_interpretations_answered(is: Seq<LbrInterpretationView>, rows: Seq<WordRow>)
    ensures
        match api_interpretations(is, rows) {
            Ok(out) => out.len() == word_count(is) && forall|k: int| 0 <= k < out.len() ==> answers(#[trigger] out[k], is, rows),
            Err(id) => exists|j: int|
                0 <= j < is.len() && (#[trigger] is[j]).word_id == Some(id) && forall|x: int|
                    0 <= x < rows.len() ==> (#[trigger] rows[x]).0 != id,
        },
    decreases is.len(),
{
    if is.len() > 0 {
        let p = is.drop_last();
        lemma_interpretations_answered(p, rows);
        let i = is.last();
        assert(is[is.len() - 1] == i);
        match api_interpretations(p, rows) {
            Err(id) => {
                let j = choose|j: int| 0 <= j < p.len() && (#[trigger] p[j]).word_id == Some(id) && forall|x: int|
                    0 <= x < rows.len() ==> (#[trigger] rows[x]).0 != id;
                assert(is[j] == p[j]);
            },
            Ok(done) => {
                assert forall|k: int| 0 <= k < done.len() implies answers(#[trigger] done[k], is, rows) by {
                    lemma_answers_extend(done[k], is, rows);
                }
                match i.word_id {
                    None => {},
                    Some(id) => {
                        lemma_word_row_first(rows, id);
                        match word_row(rows, id) {
                            None => {},
                            Some(row) => {
                                let out = done.push(api_interpretation(i, id, row));
                                let x = choose|x: int| first_row_of(rows, id, x) && #[trigger] rows[x].1@ == row.0 && rows[x].2@ == row.1;
                                assert forall|k: int| 0 <= k < out.len() implies answers(#[trigger] out[k], is, rows) by {
                                    if k < done.len() {
                                        assert(out[k] == done[k]);
                                    } else {
                                        assert(out[k] == api_interpretation(i, id, row));
                                        assert(is[is.len() - 1] == i);
                                        assert(rows[x].1@ == row.0);
                                    }
                                }
                            },
                        }
                    },
                }
            },
        }
    }
}

/// The segments answered are the analysed segments, one for one, each with its text and byte
/// range, and with the interpretations answered for its own interpretations; or the error of
/// the first segment whose interpretations fail.
pub proof fn lemma_segments_answered(segs: Seq<LbrSegmentView>, rows: Seq<WordRow>)
    ensures
        match api_segments(segs, rows) {
            Ok(out) => out.len() == segs.len() && forall|s: int|
                0 <= s < segs.len() ==> {
                    &&& (#[trigger] out[s]).text == segs[s].text
                    &&& out[s].start == segs[s].start
                    &&& out[s].end == segs[s].end
                    &&& out[s].interpretations.len() == word_count(segs[s].interpretations)
                    &&& forall|k: int|
                        0 <= k < out[s].interpretations.len() ==> answers(
                            #[trigger] out[s].interpretations[k],
                            segs[s].interpretations,
                            rows,
                        )
                },
            Err(id) => exists|s: int, j: int|
                #![trigger segs[s].interpretations[j]]
                0 <= s < segs.len() && 0 <= j < segs[s].interpretations.len() && segs[s].interpretations[j].word_id
                    == Some(id) && forall|x: int| 0 <= x < rows.len() ==> (#[trigger] rows[x]).0 != id,
        },
    decreases segs.len(),
{
    if segs.len() > 0 {
        let p = segs.drop_last();
        lemma_segments_answered(p, rows);
        let last = segs.last();
        assert(segs[segs.len() - 1] == last);
        lemma_interpretations_answered(last.interpretations, rows);
        match api_segments(p, rows) {
            Err(id) => {
                let (s, j) = choose|s: int, j: int|
                    #![trigger p[s].interpretations[j]]
                    0 <= s < p.len() && 0 <= j < p[s].interpretations.len() && p[s].interpretations[j].word_id == Some(id)
                        && forall|x: int| 0 <= x < rows.len() ==> (#[trigger] rows[x]).0 != id;
                assert(segs[s] == p[s]);
            },
            Ok(done) => {
                match api_interpretations(last.interpretations, rows) {
                    Err(id) => {
                        let j = choose|j: int| 0 <= j < last.interpretations.len() && (#[trigger] last.interpretations[j]).word_id == Some(id)
                            && forall|x: int| 0 <= x < rows.len() ==> (#[trigger] rows[x]).0 != id;
                        assert(segs[segs.len() - 1].interpretations[j] == last.interpretations[j]);
                    },
                    Ok(is) => {
                        let out = done.push(SegmentView { text: last.text, interpretations: is, start: last.start, end: last.end });
                        assert forall|s: int| 0 <= s < segs.len() implies {
                            &&& (#[trigger] out[s]).text == segs[s].text
                            &&& out[s].start == segs[s].start
                            &&& out[s].end == segs[s].end
                            &&& out[s].interpretations.len() == word_count(segs[s].interpretations)
                            &&& forall|k: int|
                                0 <= k < out[s].interpretations.len() ==> answers(
                                    #[trigger] out[s].interpretations[k],
                                    segs[s].interpretations,
                                    rows,
                                )
                        } by {
                            if s < p.len() {
                                assert(out[s] == done[s]);
                                assert(segs[s] == p[s]);
                            }
                        }
                    },
                }
            },
        }
    }
}

} // verus!
