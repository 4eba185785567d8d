//! Building the cards of an Anki deck from the rows that the deck's sources give.
use crate::api::{copy_opt, opt_view};
use crate::japanese::DbFurigana;
use crate::text::{byte_substring, substring, valid_byte_range};
use rand::seq::IndexedRandom;
use std::collections::HashSet;
use std::ops::Range;
use vstd::prelude::*;

verus! {

broadcast use vstd::std_specs::hash::group_hash_axioms;

// ---------------------------------------------------------------------------------------------
// Card types
// ---------------------------------------------------------------------------------------------

/// Furigana as shown on a card: the byte range of a part of the word and the text above it.
#[derive(Debug, PartialEq, Eq)]
pub struct AnkiFurigana {
    pub range: Range<usize>,
    pub furigana: String,
}

pub struct AnkiFuriganaView {
    pub start: usize,
    pub end: usize,
    pub furigana: Seq<char>,
}

impl View for AnkiFurigana {
    type V = AnkiFuriganaView;

    open spec fn view(&self) -> AnkiFuriganaView {
        AnkiFuriganaView { start: self.range.start, end: self.range.end, furigana: self.furigana@ }
    }
}

/// A kanji similar to the kanji of a card.
pub struct AnkiKanji {
    pub kanji: String,
    pub name: Option<String>,
}

/// A word that uses the kanji of a card, with its translations.
pub struct KanjiWord {
    pub word: String,
    pub translations: Vec<String>,
}

/// A card that teaches a kanji.
pub struct KanjiCard {
    pub id: i32,
    pub kanji: String,
    pub name: String,
    pub example_source_word: KanjiWord,
    pub similar_kanji: Vec<AnkiKanji>,
    /// The number of words of the deck's sources that use the kanji.
    pub kanji_words: usize,
}

pub struct KanjiCardView {
    pub id: i32,
    pub kanji: Seq<char>,
    pub name: Seq<char>,
    pub example_word: Seq<char>,
    pub example_translations: Seq<Seq<char>>,
    pub similar_kanji: Seq<(Seq<char>, Option<Seq<char>>)>,
    pub kanji_words: usize,
}

impl View for KanjiCard {
    type V = KanjiCardView;

    open spec fn view(&self) -> KanjiCardView {
        KanjiCardView {
            id: self.id,
            kanji: self.kanji@,
            name: self.name@,
            example_word: self.example_source_word.word@,
            example_translations: self.example_source_word.translations@.map_values(|t: String| t@),
            similar_kanji: self.similar_kanji@.map_values(|k: AnkiKanji| (k.kanji@, opt_view(k.name))),
            kanji_words: self.kanji_words,
        }
    }
}

// ---------------------------------------------------------------------------------------------
// Query rows
// ---------------------------------------------------------------------------------------------

/// A word of a kanji source of the deck, with one of its kanji.
pub struct KanjiWordQuery {
    pub kanji_id: i32,
    pub kanji: String,
    pub kanji_name: Option<String>,
    pub written_form: String,
    pub translations: Vec<Option<String>>,
}

pub struct KanjiWordQueryView {
    pub kanji_id: i32,
    pub kanji: Seq<char>,
    pub kanji_name: Option<Seq<char>>,
    pub written_form: Seq<char>,
    pub translations: Seq<Option<Seq<char>>>,
}

impl View for KanjiWordQuery {
    type V = KanjiWordQueryView;

    open spec fn view(&self) -> KanjiWordQueryView {
        KanjiWordQueryView {
            kanji_id: self.kanji_id,
            kanji: self.kanji@,
            kanji_name: opt_view(self.kanji_name),
            written_form: self.written_form@,
            translations: self.translations@.map_values(|t: Option<String>| opt_view(t)),
        }
    }
}

/// A pair of similar kanji, with the character and name of one of them.
pub struct SimilarKanjiQuery {
    pub lower_kanji_id: i32,
    pub higher_kanji_id: i32,
    pub kanji: String,
    pub name: Option<String>,
}

pub struct SimilarKanjiQueryView {
    pub lower_kanji_id: i32,
    pub higher_kanji_id: i32,
    pub kanji: Seq<char>,
    pub name: Option<Seq<char>>,
}

impl View for SimilarKanjiQuery {
    type V = SimilarKanjiQueryView;

    open spec fn view(&self) -> SimilarKanjiQueryView {
        SimilarKanjiQueryView {
            lower_kanji_id: self.lower_kanji_id,
            higher_kanji_id: self.higher_kanji_id,
            kanji: self.kanji@,
            name: opt_view(self.name),
        }
    }
}

// ---------------------------------------------------------------------------------------------
// Furigana
// ---------------------------------------------------------------------------------------------

/// The furigana that are present, in order.
pub open spec fn present(fs: Seq<Option<DbFurigana>>) -> Seq<DbFurigana>
    decreases fs.len(),
{
    if fs.len() == 0 {
        seq![]
    } else {
        present(fs.drop_last()) + match fs.last() {
            Some(f) => seq![f],
            None => seq![],
        }
    }
}

/// Whether each present furigana's reading range delimits a part of the reading.
pub open spec fn reading_ranges_valid(fs: Seq<Option<DbFurigana>>, reading: Seq<char>) -> bool {
    forall|i: int|
        0 <= i < fs.len() ==> match #[trigger] fs[i] {
            Some(f) => 0 <= f.reading_start_idx && 0 <= f.reading_end_idx && valid_byte_range(
                reading,
                f.reading_start_idx as int,
                f.reading_end_idx as int,
            ),
            None => true,
        }
}

/// A furigana of the database as shown on a card: its word range and its part of the reading.
pub open spec fn anki_furigana(f: DbFurigana, reading: Seq<char>) -> AnkiFuriganaView {
    AnkiFuriganaView {
        start: f.word_start_idx as usize,
        end: f.word_end_idx as usize,
        furigana: byte_substring(reading, f.reading_start_idx as int, f.reading_end_idx as int),
    }
}

/// Converts furigana of the database to furigana shown on a card. Without a reading there is
/// nothing to show above the word.
pub fn db_furigana_to_anki_furigana(furigana: &Vec<Option<DbFurigana>>, reading: Option<&str>) -> (res: Vec<AnkiFurigana>)
    requires
        reading matches Some(r) ==> reading_ranges_valid(furigana@, r@),
    ensures
        match reading {
            None => res@.len() == 0,
            Some(r) => res@.map_values(|a: AnkiFurigana| a@) == present(furigana@).map_values(
                |f: DbFurigana| anki_furigana(f, r@),
            ),
        },
{
    let mut res: Vec<AnkiFurigana> = Vec::new();
    let reading = match reading {
        Some(r) => r,
        None => {
            return res;
        },
    };
    let mut i: usize = 0;
    while i < furigana.len()
        invariant
            i <= furigana.len(),
            reading_ranges_valid(furigana@, reading@),
            res@.map_values(|a: AnkiFurigana| a@) == present(furigana@.take(i as int)).map_values(
                |f: DbFurigana| anki_furigana(f, reading@),
            ),
        decreases furigana.len() - i,
    {
        proof {
            assert(furigana@.take(i + 1).drop_last() =~= furigana@.take(i as int));
            assert(furigana@.take(i + 1).last() == furigana@[i as int]);
        }
        let ghost prev = res@;
        if let Some(f) = &furigana[i] {
            assert(furigana@[i as int] == Some(*f));
            let text = substring(reading, f.reading_start_idx as usize, f.reading_end_idx as usize);
            res.push(AnkiFurigana {
                range: f.word_start_idx as usize..f.word_end_idx as usize,
                furigana: text,
            });
            proof {
                let fs = present(furigana@.take(i + 1));
                assert(fs =~= present(furigana@.take(i as int)).push(*f));
                assert(res@.map_values(|a: AnkiFurigana| a@) =~= prev.map_values(|a: AnkiFurigana| a@).push(anki_furigana(*f, reading@)));
                assert(fs.map_values(|g: DbFurigana| anki_furigana(g, reading@)) =~= present(furigana@.take(i as int)).map_values(|g: DbFurigana| anki_furigana(g, reading@)).push(anki_furigana(*f, reading@)));
            }
        } else {
            proof {
                assert(present(furigana@.take(i + 1)) =~= present(furigana@.take(i as int)));
            }
        }
        i += 1;
    }
    assert(furigana@.take(furigana.len() as int) =~= furigana@);
    res
}

// ---------------------------------------------------------------------------------------------
// Kanji cards
// ---------------------------------------------------------------------------------------------

/// The strings that are present, in order.
pub open spec fn present_strings(ts: Seq<Option<Seq<char>>>) -> Seq<Seq<char>>
    decreases ts.len(),
{
    if ts.len() == 0 {
        seq![]
    } else {
        present_strings(ts.drop_last()) + match ts.last() {
            Some(t) => seq![t],
            None => seq![],
        }
    }
}

/// The views of optional strings.
pub open spec fn opt_strings_view(ts: Seq<Option<String>>) -> Seq<Option<Seq<char>>> {
    ts.map_values(|t: Option<String>| opt_view(t))
}

/// Collects the strings that are present, in order.
pub fn flatten_strings(ts: &Vec<Option<String>>) -> (res: Vec<String>)
    ensures
        res@.map_values(|t: String| t@) == present_strings(opt_strings_view(ts@)),
{
    let ghost tv = opt_strings_view(ts@);
    let mut res: Vec<String> = Vec::new();
    let mut i: usize = 0;
    while i < ts.len()
        invariant
            i <= ts.len(),
            tv == opt_strings_view(ts@),
            res@.map_values(|t: String| t@) == present_strings(tv.take(i as int)),
        decreases ts.len() - i,
    {
        proof {
            assert(tv.take(i + 1).drop_last() =~= tv.take(i as int));
            assert(tv.take(i + 1).last() == opt_view(ts@[i as int]));
        }
        let ghost prev = res@;
        if let Some(t) = &ts[i] {
            res.push(t.clone());
            assert(res@.map_values(|t: String| t@) =~= prev.map_values(|t: String| t@).push(t@));
        }
        i += 1;
    }
    assert(tv.take(ts.len() as int) =~= tv);
    res
}

/// The card for a kanji, with an example word that uses it, the kanji similar to it and the
/// number of words that use it.
pub open spec fn kanji_card_spec(
    k: KanjiWordQueryView,
    similar: Seq<SimilarKanjiQueryView>,
    word_count: usize,
) -> KanjiCardView {
    KanjiCardView {
        id: k.kanji_id,
        kanji: k.kanji,
        name: match k.kanji_name {
            Some(n) => n,
            None => seq![],
        },
        example_word: k.written_form,
        example_translations: present_strings(k.translations),
        similar_kanji: similar.map_values(|s: SimilarKanjiQueryView| (s.kanji, s.name)),
        kanji_words: word_count,
    }
}

pub open spec fn similar_view(similar: Seq<SimilarKanjiQuery>) -> Seq<SimilarKanjiQueryView> {
    similar.map_values(|s: SimilarKanjiQuery| s@)
}

/// Makes the card for a kanji.
pub fn kanji_card_from_query(kanji: KanjiWordQuery, similar_kanji: Vec<SimilarKanjiQuery>, word_count: usize) -> (card: KanjiCard)
    ensures
        card@ == kanji_card_spec(kanji@, similar_view(similar_kanji@), word_count),
{
    let mut similar: Vec<AnkiKanji> = Vec::new();
    let mut i: usize = 0;
    while i < similar_kanji.len()
        invariant
            i <= similar_kanji.len(),
            similar@.map_values(|k: AnkiKanji| (k.kanji@, opt_view(k.name))) == similar_view(similar_kanji@).take(i as int).map_values(
                |s: SimilarKanjiQueryView| (s.kanji, s.name),
            ),
        decreases similar_kanji.len() - i,
    {
        let ghost prev = similar@;
        let sk = &similar_kanji[i];
        similar.push(AnkiKanji { kanji: sk.kanji.clone(), name: copy_opt(&sk.name) });
        proof {
            let sv = similar_view(similar_kanji@);
            assert(sv.take(i + 1) =~= sv.take(i as int).push(sk@));
            assert(similar@.map_values(|k: AnkiKanji| (k.kanji@, opt_view(k.name))) =~= prev.map_values(|k: AnkiKanji| (k.kanji@, opt_view(k.name))).push((sk.kanji@, opt_view(sk.name))));
            assert(sv.take(i + 1).map_values(|s: SimilarKanjiQueryView| (s.kanji, s.name)) =~= sv.take(i as int).map_values(|s: SimilarKanjiQueryView| (s.kanji, s.name)).push((sk@.kanji, sk@.name)));
        }
        i += 1;
    }
    proof {
        let sv = similar_view(similar_kanji@);
        assert(sv.take(similar_kanji.len() as int) =~= sv);
    }
    let translations = flatten_strings(&kanji.translations);
    let name = match kanji.kanji_name {
        Some(n) => n,
        None => String::new(),
    };
    KanjiCard {
        id: kanji.kanji_id,
        kanji: kanji.kanji,
        name,
        example_source_word: KanjiWord { word: kanji.written_form, translations },
        similar_kanji: similar,
        kanji_words: word_count,
    }
}

// ---------------------------------------------------------------------------------------------
// Choosing among rows
// ---------------------------------------------------------------------------------------------

/// The items of `s` that satisfy `p`, in order.
pub open spec fn keep<A>(s: Seq<A>, p: spec_fn(A) -> bool) -> Seq<A>
    decreases s.len(),
{
    if s.len() == 0 {
        seq![]
    } else {
        keep(s.drop_last(), p) + if p(s.last()) {
            seq![s.last()]
        } else {
            seq![]
        }
    }
}

proof fn lemma_keep_contains<A>(s: Seq<A>, p: spec_fn(A) -> bool, x: A)
    ensures
        keep(s, p).contains(x) <==> (s.contains(x) && p(x)),
    decreases s.len(),
{
    if s.len() > 0 {
        let d = s.drop_last();
        let kd = keep(d, p);
        lemma_keep_contains(d, p, x);
        if keep(s, p).contains(x) {
            let k = choose|k: int| 0 <= k < keep(s, p).len() && keep(s, p)[k] == x;
            if k < kd.len() {
                assert(kd[k] == x);
                let j = choose|j: int| 0 <= j < d.len() && d[j] == x;
                assert(s[j] == x);
            } else {
                assert(s[s.len() - 1] == x);
            }
        }
        if s.contains(x) && p(x) {
            let k = choose|k: int| 0 <= k < s.len() && s[k] == x;
            if k < s.len() - 1 {
                assert(d[k] == x);
                let j = choose|j: int| 0 <= j < kd.len() && kd[j] == x;
                assert(keep(s, p)[j] == x);
            } else {
                assert(keep(s, p)[kd.len() as int] == x);
            }
        }
    }
}

proof fn lemma_keep_map<A, B>(s: Seq<A>, f: spec_fn(A) -> B, p: spec_fn(B) -> bool, q: spec_fn(A) -> bool)
    requires
        forall|a: A| #[trigger] q(a) == p(f(a)),
    ensures
        keep(s.map_values(f), p) == keep(s, q).map_values(f),
    decreases s.len(),
{
    if s.len() > 0 {
        lemma_keep_map(s.drop_last(), f, p, q);
        assert(s.map_values(f).drop_last() =~= s.drop_last().map_values(f));
        assert(q(s.last()) == p(f(s.last())));
        if q(s.last()) {
            assert(keep(s, q).map_values(f) =~= keep(s.drop_last(), q).map_values(f).push(f(s.last())));
        } else {
            assert(keep(s, q).map_values(f) =~= keep(s.drop_last(), q).map_values(f));
        }
    }
}

/// Picks one of the items at random, with `rand`'s `IndexedRandom::choose` and the thread's
/// generator, which returns an item of a slice that is not empty and `None` for an empty one.
/// Which item comes out is left open.
#[verifier::external_body]
fn choose_random<T>(items: &Vec<T>) -> (item: Option<&T>)
    ensures
        item is Some <==> items@.len() > 0,
        item matches Some(x) ==> items@.contains(*x),
{
    items.as_slice().choose(&mut rand::rng())
}

/// The indices of the items of `s`, viewed through `s`.
pub open spec fn at_indices<A>(s: Seq<A>, ix: Seq<usize>) -> Seq<A> {
    ix.map_values(|i: usize| s[i as int])
}

/// The indices of the rows of the kanji, in order.
fn rows_of_kanji(items: &Vec<KanjiWordQuery>, id: i32, Ghost(sp): Ghost<spec_fn(KanjiWordQuery) -> bool>) -> (ix: Vec<usize>)
    requires
        forall|r: KanjiWordQuery| #[trigger] sp(r) == (r.kanji_id == id),
    ensures
        forall|k: int| 0 <= k < ix@.len() ==> #[trigger] ix@[k] < items@.len(),
        at_indices(items@, ix@) == keep(items@, sp),
{
    let mut ix: Vec<usize> = Vec::new();
    let mut i: usize = 0;
    while i < items.len()
        invariant
            i <= items.len(),
            forall|r: KanjiWordQuery| #[trigger] sp(r) == (r.kanji_id == id),
            forall|k: int| 0 <= k < ix@.len() ==> #[trigger] ix@[k] < i,
            at_indices(items@, ix@) == keep(items@.take(i as int), sp),
        decreases items.len() - i,
    {
        proof {
            assert(items@.take(i + 1).drop_last() =~= items@.take(i as int));
            assert(items@.take(i + 1).last() == items@[i as int]);
            assert(sp(items@[i as int]) == (items@[i as int].kanji_id == id));
        }
        let ghost prev = ix@;
        if items[i].kanji_id == id {
            ix.push(i);
            assert(at_indices(items@, ix@) =~= at_indices(items@, prev).push(items@[i as int]));
        }
        i += 1;
    }
    assert(items@.take(items.len() as int) =~= items@);
    ix
}

/// A copy of the strings.
pub fn copy_opt_strings(ts: &Vec<Option<String>>) -> (c: Vec<Option<String>>)
    ensures
        opt_strings_view(c@) == opt_strings_view(ts@),
{
    let mut c: Vec<Option<String>> = Vec::new();
    let mut i: usize = 0;
    while i < ts.len()
        invariant
            i <= ts.len(),
            opt_strings_view(c@) == opt_strings_view(ts@).take(i as int),
        decreases ts.len() - i,
    {
        let ghost prev = c@;
        c.push(copy_opt(&ts[i]));
        assert(opt_strings_view(c@) =~= opt_strings_view(prev).push(opt_view(ts@[i as int])));
        assert(opt_strings_view(ts@).take(i + 1) =~= opt_strings_view(ts@).take(i as int).push(opt_view(ts@[i as int])));
        i += 1;
    }
    assert(opt_strings_view(ts@).take(ts.len() as int) =~= opt_strings_view(ts@));
    c
}

impl KanjiWordQuery {
    /// A copy of the row.
    pub fn copy(&self) -> (c: KanjiWordQuery)
        ensures
            c@ == self@,
    {
        let translations = copy_opt_strings(&self.translations);
        assert(translations@.map_values(|t: Option<String>| opt_view(t)) == opt_strings_view(translations@));
        KanjiWordQuery {
            kanji_id: self.kanji_id,
            kanji: self.kanji.clone(),
            kanji_name: copy_opt(&self.kanji_name),
            written_form: self.written_form.clone(),
            translations,
        }
    }
}

impl SimilarKanjiQuery {
    /// A copy of the row.
    pub fn copy(&self) -> (c: SimilarKanjiQuery)
        ensures
            c@ == self@,
    {
        SimilarKanjiQuery {
            lower_kanji_id: self.lower_kanji_id,
            higher_kanji_id: self.higher_kanji_id,
            kanji: self.kanji.clone(),
            name: copy_opt(&self.name),
        }
    }
}

pub open spec fn kanji_words_view(rows: Seq<KanjiWordQuery>) -> Seq<KanjiWordQueryView> {
    rows.map_values(|r: KanjiWordQuery| r@)
}

/// The kanji of the rows, each once, in the order of their first row.
pub open spec fn kanji_ids_of(rows: Seq<KanjiWordQueryView>) -> Seq<i32>
    decreases rows.len(),
{
    if rows.len() == 0 {
        seq![]
    } else {
        let ids = kanji_ids_of(rows.drop_last());
        if ids.contains(rows.last().kanji_id) {
            ids
        } else {
            ids.push(rows.last().kanji_id)
        }
    }
}

/// Whether some row is of the kanji.
pub open spec fn has_kanji(rows: Seq<KanjiWordQueryView>, id: i32) -> bool {
    exists|i: int| 0 <= i < rows.len() && #[trigger] rows[i].kanji_id == id
}

/// The rows of one kanji.
pub open spec fn is_of_kanji(id: i32) -> spec_fn(KanjiWordQueryView) -> bool {
    |r: KanjiWordQueryView| r.kanji_id == id
}

/// The kanji similar to `id` that occur among the rows: those paired with it as the higher kanji
/// of a pair (from the rows joined on the higher kanji), then those paired with it as the lower
/// kanji (from the rows joined on the lower kanji).
pub open spec fn similar_kanji_of(
    id: i32,
    rows: Seq<KanjiWordQueryView>,
    joined_on_lower: Seq<SimilarKanjiQueryView>,
    joined_on_higher: Seq<SimilarKanjiQueryView>,
) -> Seq<SimilarKanjiQueryView> {
    keep(joined_on_higher, paired_as_lower(id, rows)) + keep(joined_on_lower, paired_as_higher(id, rows))
}

/// The pairs in which `id` is the lower kanji and the higher one occurs among the rows.
pub open spec fn paired_as_lower(id: i32, rows: Seq<KanjiWordQueryView>) -> spec_fn(SimilarKanjiQueryView) -> bool {
    |s: SimilarKanjiQueryView| s.lower_kanji_id == id && has_kanji(rows, s.higher_kanji_id)
}

/// The pairs in which `id` is the higher kanji and the lower one occurs among the rows.
pub open spec fn paired_as_higher(id: i32, rows: Seq<KanjiWordQueryView>) -> spec_fn(SimilarKanjiQueryView) -> bool {
    |s: SimilarKanjiQueryView| s.higher_kanji_id == id && has_kanji(rows, s.lower_kanji_id)
}

/// Copies the pairs of `pairs` that `p` keeps onto the end of `out`.
fn copy_pairs_where(
    out: &mut Vec<SimilarKanjiQuery>,
    pairs: &Vec<SimilarKanjiQuery>,
    id: i32,
    as_lower: bool,
    ids: &HashSet<i32>,
    Ghost(rows): Ghost<Seq<KanjiWordQueryView>>,
)
    requires
        forall|x: i32| ids@.contains(x) <==> has_kanji(rows, x),
    ensures
        similar_view(final(out)@) == similar_view(old(out)@) + keep(
            similar_view(pairs@),
            if as_lower {
                paired_as_lower(id, rows)
            } else {
                paired_as_higher(id, rows)
            },
        ),
{
    let ghost p = if as_lower {
        paired_as_lower(id, rows)
    } else {
        paired_as_higher(id, rows)
    };
    let ghost start = similar_view(out@);
    let ghost pv = similar_view(pairs@);
    let mut k: usize = 0;
    while k < pairs.len()
        invariant
            k <= pairs.len(),
            pv == similar_view(pairs@),
            forall|x: i32| ids@.contains(x) <==> has_kanji(rows, x),
            p == (if as_lower {
                paired_as_lower(id, rows)
            } else {
                paired_as_higher(id, rows)
            }),
            similar_view(out@) == start + keep(pv.take(k as int), p),
        decreases pairs.len() - k,
    {
        proof {
            assert(pv.take(k + 1).drop_last() =~= pv.take(k as int));
            assert(pv.take(k + 1).last() == pairs@[k as int]@);
        }
        let sk = &pairs[k];
        let keeps = if as_lower {
            sk.lower_kanji_id == id && ids.contains(&sk.higher_kanji_id)
        } else {
            sk.higher_kanji_id == id && ids.contains(&sk.lower_kanji_id)
        };
        let ghost prev = out@;
        if keeps {
            out.push(sk.copy());
            assert(similar_view(out@) =~= similar_view(prev).push(sk@));
        }
        proof {
            assert(keeps == p(sk@));
            if keeps {
                assert(start + keep(pv.take(k + 1), p) =~= (start + keep(pv.take(k as int), p)).push(sk@));
            } else {
                assert(keep(pv.take(k + 1), p) =~= keep(pv.take(k as int), p));
            }
        }
        k += 1;
    }
    assert(pv.take(pairs.len() as int) =~= pv);
}

proof fn lemma_kanji_ids_of(rows: Seq<KanjiWordQueryView>)
    ensures
        kanji_ids_of(rows).no_duplicates(),
        forall|id: i32| kanji_ids_of(rows).contains(id) <==> has_kanji(rows, id),
    decreases rows.len(),
{
    if rows.len() > 0 {
        let d = rows.drop_last();
        let last = rows.last().kanji_id;
        lemma_kanji_ids_of(d);
        let ids = kanji_ids_of(d);
        assert forall|id: i32| has_kanji(rows, id) implies kanji_ids_of(rows).contains(id) by {
            let i = choose|i: int| 0 <= i < rows.len() && #[trigger] rows[i].kanji_id == id;
            if i < rows.len() - 1 {
                assert(d[i] == rows[i]);
                assert(has_kanji(d, id));
                assert(ids.contains(id));
                let k = choose|k: int| 0 <= k < ids.len() && ids[k] == id;
                assert(kanji_ids_of(rows)[k] == id);
            } else {
                assert(id == last);
                if ids.contains(last) {
                    assert(kanji_ids_of(rows) == ids);
                } else {
                    assert(kanji_ids_of(rows)[ids.len() as int] == last);
                }
            }
        }
        assert forall|id: i32| kanji_ids_of(rows).contains(id) implies has_kanji(rows, id) by {
            let all = kanji_ids_of(rows);
            let k = choose|k: int| 0 <= k < all.len() && all[k] == id;
            if k < ids.len() {
                assert(all[k] == ids[k]);
                assert(ids.contains(id));
                assert(has_kanji(d, id));
                let i = choose|i: int| 0 <= i < d.len() && #[trigger] d[i].kanji_id == id;
                assert(d[i] == rows[i]);
            } else {
                assert(all == ids.push(last));
                assert(id == last);
                assert(rows[rows.len() - 1].kanji_id == id);
            }
        }
        if !ids.contains(last) {
            let all = kanji_ids_of(rows);
            assert(all =~= ids.push(last));
            assert forall|a: int, b: int| 0 <= a < all.len() && 0 <= b < all.len() && a != b implies all[a] != all[b] by {
                if a < ids.len() && b < ids.len() {
                } else if a < ids.len() {
                    assert(ids.contains(all[a]));
                } else {
                    assert(ids.contains(all[b]));
                }
            }
        }
    }
}

/// Whether `card` is the card of the kanji `id`: its example is one of the kanji's rows, its
/// similar kanji are those of `similar_kanji_of` and its word count is the number of the kanji's
/// rows.
pub open spec fn is_kanji_card(
    card: KanjiCardView,
    id: i32,
    rows: Seq<KanjiWordQueryView>,
    joined_on_lower: Seq<SimilarKanjiQueryView>,
    joined_on_higher: Seq<SimilarKanjiQueryView>,
) -> bool {
    let of_kanji = keep(rows, is_of_kanji(id));
    exists|w: KanjiWordQueryView|
        #[trigger] of_kanji.contains(w) && card == kanji_card_spec(
            w,
            similar_kanji_of(id, rows, joined_on_lower, joined_on_higher),
            of_kanji.len() as usize,
        )
}

/// Builds the cards of the kanji of the deck's kanji sources: one card per kanji, in the order of
/// the kanji's first row, with a word chosen at random among the kanji's rows as its example.
/// The server refuses a deck that holds the kanji of id 983, by stopping.
pub fn kanji_cards(
    kanji_words: &Vec<KanjiWordQuery>,
    similar_kanji_lower: &Vec<SimilarKanjiQuery>,
    similar_kanji_higher: &Vec<SimilarKanjiQuery>,
) -> (cards: Vec<KanjiCard>)
    requires
        forall|i: int| 0 <= i < kanji_words@.len() ==> (#[trigger] kanji_words@[i]).kanji_id != 983,
    ensures
        cards@.len() == kanji_ids_of(kanji_words_view(kanji_words@)).len(),
        forall|i: int|
            0 <= i < cards@.len() ==> is_kanji_card(
                (#[trigger] cards@[i])@,
                kanji_ids_of(kanji_words_view(kanji_words@))[i],
                kanji_words_view(kanji_words@),
                similar_view(similar_kanji_lower@),
                similar_view(similar_kanji_higher@),
            ),
{
    let ghost rows = kanji_words_view(kanji_words@);
    // the kanji, each once, in the order of their first row
    let mut ids: HashSet<i32> = HashSet::new();
    let mut order: Vec<i32> = Vec::new();
    let mut i: usize = 0;
    while i < kanji_words.len()
        invariant
            i <= kanji_words.len(),
            rows == kanji_words_view(kanji_words@),
            order@ == kanji_ids_of(rows.take(i as int)),
            forall|id: i32| ids@.contains(id) <==> order@.contains(id),
        decreases kanji_words.len() - i,
    {
        proof {
            assert(rows.take(i + 1).drop_last() =~= rows.take(i as int));
            assert(rows.take(i + 1).last() == kanji_words@[i as int]@);
        }
        let id = kanji_words[i].kanji_id;
        let ghost prev = order@;
        if !ids.contains(&id) {
            ids.insert(id);
            order.push(id);
            proof {
                assert forall|x: i32| ids@.contains(x) <==> order@.contains(x) by {
                    if order@.contains(x) && x != id {
                        let k = choose|k: int| 0 <= k < order@.len() && order@[k] == x;
                        assert(prev[k] == x);
                    }
                    if prev.contains(x) {
                        let k = choose|k: int| 0 <= k < prev.len() && prev[k] == x;
                        assert(order@[k] == x);
                    }
                    assert(order@[prev.len() as int] == id);
                }
            }
        }
        i += 1;
    }
    proof {
        assert(rows.take(kanji_words.len() as int) =~= rows);
        lemma_kanji_ids_of(rows);
    }
    let ghost lower_v = similar_view(similar_kanji_lower@);
    let ghost higher_v = similar_view(similar_kanji_higher@);
    let mut cards: Vec<KanjiCard> = Vec::new();
    let mut j: usize = 0;
    while j < order.len()
        invariant
            j <= order.len(),
            rows == kanji_words_view(kanji_words@),
            lower_v == similar_view(similar_kanji_lower@),
            higher_v == similar_view(similar_kanji_higher@),
            order@ == kanji_ids_of(rows),
            forall|id: i32| ids@.contains(id) <==> has_kanji(rows, id),
            forall|id: i32| kanji_ids_of(rows).contains(id) <==> has_kanji(rows, id),
            cards@.len() == j,
            forall|c: int|
                0 <= c < j ==> is_kanji_card((#[trigger] cards@[c])@, kanji_ids_of(rows)[c], rows, lower_v, higher_v),
        decreases order.len() - j,
    {
        let id = order[j];
        let ghost sp = |r: KanjiWordQuery| r.kanji_id == id;
        let group = rows_of_kanji(kanji_words, id, Ghost(sp));
        let ghost of_kanji = keep(rows, is_of_kanji(id));
        proof {
            lemma_keep_map(kanji_words@, |r: KanjiWordQuery| r@, is_of_kanji(id), sp);
            assert(of_kanji == keep(kanji_words@, sp).map_values(|r: KanjiWordQuery| r@));
        }
        let ix = match choose_random(&group) {
            Some(ix) => *ix,
            None => {
                proof {
                    assert(kanji_ids_of(rows).contains(id)) by {
                        assert(order@[j as int] == id);
                    }
                    assert(has_kanji(rows, id));
                    let r = choose|r: int| 0 <= r < rows.len() && #[trigger] rows[r].kanji_id == id;
                    assert(rows[r] == kanji_words@[r]@);
                    assert(kanji_words@[r] == kanji_words@[r]);
                    assert(kanji_words@.contains(kanji_words@[r]));
                    lemma_keep_contains(kanji_words@, sp, kanji_words@[r]);
                    assert(at_indices(kanji_words@, group@).len() > 0);
                }
                return cards;
            },
        };
        proof {
            let k = choose|k: int| 0 <= k < group@.len() && group@[k] == ix;
            assert(at_indices(kanji_words@, group@)[k] == kanji_words@[ix as int]);
            let kept = keep(kanji_words@, sp);
            assert(kept[k] == kanji_words@[ix as int]);
            assert(of_kanji[k] == kanji_words@[ix as int]@);
            assert(of_kanji.contains(kanji_words@[ix as int]@));
        }
        let word = kanji_words[ix].copy();
        let mut similar: Vec<SimilarKanjiQuery> = Vec::new();
        copy_pairs_where(&mut similar, similar_kanji_higher, id, true, &ids, Ghost(rows));
        copy_pairs_where(&mut similar, similar_kanji_lower, id, false, &ids, Ghost(rows));
        proof {
            assert(similar_view(similar@) =~= similar_kanji_of(id, rows, lower_v, higher_v));
        }
        let card = kanji_card_from_query(word, similar, group.len());
        cards.push(card);
        proof {
            assert(kanji_ids_of(rows)[j as int] == id);
            assert(of_kanji.len() == group@.len());
            assert(cards@[j as int]@ == kanji_card_spec(kanji_words@[ix as int]@, similar_kanji_of(id, rows, lower_v, higher_v), of_kanji.len() as usize));
            assert(is_kanji_card(cards@[j as int]@, id, rows, lower_v, higher_v));
        }
        j += 1;
    }
    cards
}

// ---------------------------------------------------------------------------------------------
// Word cards
// ---------------------------------------------------------------------------------------------

/// A kanji of the word of a card, with its name if it has one.
pub struct WordKanji {
    pub name: Option<String>,
    pub chara: String,
}

/// A word of the sentence of a card, with its furigana.
pub struct SentenceWord {
    pub furigana: Vec<AnkiFurigana>,
    pub idx_start: i32,
    pub idx_end: i32,
}

/// The example sentence of a card.
pub struct Sentence {
    pub id: i32,
    pub sentence: String,
    pub words: Vec<SentenceWord>,
}

/// A card that teaches a word through a sentence that uses it.
pub struct WordCard {
    pub id: i32,
    pub word_id: i32,
    pub word: String,
    pub word_range: Range<usize>,
    pub word_furigana: Vec<AnkiFurigana>,
    pub translations: Vec<String>,
    pub kanji: Vec<WordKanji>,
    /// The number of sentences of the deck's sources that use the word.
    pub word_sentences: usize,
    pub sentence: Sentence,
}

pub struct SentenceWordView {
    pub furigana: Seq<AnkiFuriganaView>,
    pub idx_start: i32,
    pub idx_end: i32,
}

pub struct WordCardView {
    pub id: i32,
    pub word_id: i32,
    pub word: Seq<char>,
    pub word_start: usize,
    pub word_end: usize,
    pub word_furigana: Seq<AnkiFuriganaView>,
    pub translations: Seq<Seq<char>>,
    pub kanji: Seq<(Option<Seq<char>>, Seq<char>)>,
    pub word_sentences: usize,
    pub sentence_id: i32,
    pub sentence: Seq<char>,
    pub sentence_words: Seq<SentenceWordView>,
}

pub open spec fn anki_view(fs: Seq<AnkiFurigana>) -> Seq<AnkiFuriganaView> {
    fs.map_values(|a: AnkiFurigana| a@)
}

impl View for SentenceWord {
    type V = SentenceWordView;

    open spec fn view(&self) -> SentenceWordView {
        SentenceWordView { furigana: anki_view(self.furigana@), idx_start: self.idx_start, idx_end: self.idx_end }
    }
}

impl View for WordCard {
    type V = WordCardView;

    open spec fn view(&self) -> WordCardView {
        WordCardView {
            id: self.id,
            word_id: self.word_id,
            word: self.word@,
            word_start: self.word_range.start,
            word_end: self.word_range.end,
            word_furigana: anki_view(self.word_furigana@),
            translations: self.translations@.map_values(|t: String| t@),
            kanji: self.kanji@.map_values(|k: WordKanji| (opt_view(k.name), k.chara@)),
            word_sentences: self.word_sentences,
            sentence_id: self.sentence.id,
            sentence: self.sentence.sentence@,
            sentence_words: self.sentence.words@.map_values(|w: SentenceWord| w@),
        }
    }
}

/// A word of a sentence of a word source of the deck. Sentence words that are only a reading
/// have no word.
pub struct SentenceWordQuery {
    pub word_id: Option<i32>,
    pub word: Option<String>,
    pub reading: Option<String>,
    pub furigana: Option<Vec<Option<DbFurigana>>>,
    pub translations: Option<Vec<Option<String>>>,
    pub sentence_id: i32,
    pub sentence: String,
    pub sentence_word_reading: Option<String>,
    pub sentence_word_furigana: Vec<Option<DbFurigana>>,
    pub idx_start: i32,
    pub idx_end: i32,
}

/// The kanji rows of the deck's words, `(kanji, name)`: the name of a kanji is that of its last
/// row.
pub type KanjiQuery = (String, Option<String>);

/// The name of the kanji `k`: that of the last row of `k`, if any row is of `k`.
pub open spec fn kanji_name(rows: Seq<KanjiQuery>, k: Seq<char>) -> Option<Seq<char>>
    decreases rows.len(),
{
    if rows.len() == 0 {
        None
    } else if rows.last().0@ == k {
        opt_view(rows.last().1)
    } else {
        kanji_name(rows.drop_last(), k)
    }
}

/// The furigana that a sentence word has of its own: those saved for it in the sentence, with
/// its reading there; none where it has no reading there.
pub open spec fn own_furigana(r: SentenceWordQuery) -> Seq<AnkiFuriganaView> {
    match r.sentence_word_reading {
        None => seq![],
        Some(rr) => present(r.sentence_word_furigana@).map_values(|f: DbFurigana| anki_furigana(f, rr@)),
    }
}

/// The furigana of the sentence word's word, with the word's reading; none where the word or its
/// reading is missing.
pub open spec fn word_furigana_of(r: SentenceWordQuery) -> Seq<AnkiFuriganaView> {
    match (r.furigana, r.reading) {
        (Some(f), Some(rd)) => present(f@).map_values(|f: DbFurigana| anki_furigana(f, rd@)),
        _ => seq![],
    }
}

/// Whether a sentence word's furigana fit the reading they are read from: its own furigana its
/// reading in the sentence, and, where it has none of its own, its word's furigana the word's
/// reading.
pub open spec fn sentence_word_furigana_valid(r: SentenceWordQuery) -> bool {
    &&& r.sentence_word_reading matches Some(rr) ==> reading_ranges_valid(r.sentence_word_furigana@, rr@)
    &&& own_furigana(r).len() == 0 && r.furigana is Some && r.reading is Some ==> reading_ranges_valid(
        r.furigana->0@,
        r.reading->0@,
    )
}

/// Whether a sentence word of a word can be made into a card: the word's columns are present,
/// its range delimits a part of the sentence and its furigana fit its reading.
pub open spec fn card_ready(r: SentenceWordQuery) -> bool {
    &&& r.word_id is Some
    &&& r.word is Some
    &&& r.reading is Some
    &&& r.furigana is Some
    &&& r.translations is Some
    &&& 0 <= r.idx_start && 0 <= r.idx_end
    &&& valid_byte_range(r.sentence@, r.idx_start as int, r.idx_end as int)
    &&& reading_ranges_valid(r.furigana->0@, r.reading->0@)
}

/// The furigana of a sentence word, as shown on a card: its own furigana; where it has none of
/// its own, those of its word.
pub open spec fn sentence_word_spec(r: SentenceWordQuery) -> SentenceWordView {
    SentenceWordView {
        furigana: if own_furigana(r).len() > 0 {
            own_furigana(r)
        } else {
            word_furigana_of(r)
        },
        idx_start: r.idx_start,
        idx_end: r.idx_end,
    }
}

/// The card of a word, made from the sentence word `w`, the words of its sentence, the kanji rows,
/// the number of sentences that use the word and the kanji of the word's text in the sentence.
pub open spec fn word_card_spec(
    w: SentenceWordQuery,
    sentence_words: Seq<SentenceWordQuery>,
    kanji_rows: Seq<KanjiQuery>,
    word_sentences: usize,
    word_kanji: Seq<Seq<char>>,
) -> WordCardView {
    WordCardView {
        id: w.word_id->0,
        word_id: w.word_id->0,
        word: w.word->0@,
        word_start: w.idx_start as usize,
        word_end: w.idx_end as usize,
        word_furigana: present(w.furigana->0@).map_values(|f: DbFurigana| anki_furigana(f, w.reading->0@)),
        translations: present_strings(opt_strings_view(w.translations->0@)),
        kanji: word_kanji.map_values(|k: Seq<char>| (kanji_name(kanji_rows, k), k)),
        word_sentences,
        sentence_id: w.sentence_id,
        sentence: w.sentence@,
        sentence_words: sentence_words.map_values(|r: SentenceWordQuery| sentence_word_spec(r)),
    }
}

/// The rows behind the references.
pub open spec fn derefs<A>(s: Seq<&A>) -> Seq<A> {
    s.map_values(|r: &A| *r)
}

/// Looks up the name of a kanji among the kanji rows.
fn find_kanji_name(kanji_rows: &Vec<KanjiQuery>, k: &String) -> (name: Option<String>)
    ensures
        opt_view(name) == kanji_name(kanji_rows@, k@),
{
    let mut i: usize = kanji_rows.len();
    assert(kanji_rows@.take(i as int) =~= kanji_rows@);
    while i > 0
        invariant
            i <= kanji_rows.len(),
            kanji_name(kanji_rows@, k@) == kanji_name(kanji_rows@.take(i as int), k@),
        decreases i,
    {
        let ghost t = kanji_rows@.take(i as int);
        assert(t.drop_last() =~= kanji_rows@.take(i - 1));
        assert(t.last() == kanji_rows@[i - 1]);
        if crate::text::str_eq(kanji_rows[i - 1].0.as_str(), k.as_str()) {
            return copy_opt(&kanji_rows[i - 1].1);
        }
        i -= 1;
    }
    None
}

/// Makes the card of a word from one of its sentence words.
pub fn word_card_from_query(
    word: &SentenceWordQuery,
    sentence_words: &Vec<&SentenceWordQuery>,
    kanji_names_by_kanji: &Vec<KanjiQuery>,
    word_sentences: usize,
    word_kanji: &Vec<String>,
) -> (card: WordCard)
    requires
        card_ready(*word),
        forall|i: int| 0 <= i < sentence_words@.len() ==> sentence_word_furigana_valid(*#[trigger] sentence_words@[i]),
    ensures
        card@ == word_card_spec(
            *word,
            derefs(sentence_words@),
            kanji_names_by_kanji@,
            word_sentences,
            word_kanji@.map_values(|k: String| k@),
        ),
{
    let word_id = match word.word_id {
        Some(id) => id,
        None => 0,
    };
    let written = match &word.word {
        Some(w) => w.clone(),
        None => String::new(),
    };
    let word_furigana = match (&word.furigana, &word.reading) {
        (Some(f), Some(r)) => db_furigana_to_anki_furigana(f, Some(r.as_str())),
        _ => Vec::new(),
    };
    let translations = match &word.translations {
        Some(t) => flatten_strings(t),
        None => Vec::new(),
    };
    let mut kanji: Vec<WordKanji> = Vec::new();
    let mut i: usize = 0;
    while i < word_kanji.len()
        invariant
            i <= word_kanji.len(),
            kanji@.map_values(|k: WordKanji| (opt_view(k.name), k.chara@)) == word_kanji@.take(i as int).map_values(
                |k: String| k@,
            ).map_values(|k: Seq<char>| (kanji_name(kanji_names_by_kanji@, k), k)),
        decreases word_kanji.len() - i,
    {
        let ghost prev = kanji@;
        let k = &word_kanji[i];
        let name = find_kanji_name(kanji_names_by_kanji, k);
        kanji.push(WordKanji { name, chara: k.clone() });
        proof {
            assert(kanji@.map_values(|k: WordKanji| (opt_view(k.name), k.chara@)) =~= prev.map_values(|k: WordKanji| (opt_view(k.name), k.chara@)).push((kanji_name(kanji_names_by_kanji@, k@), k@)));
            assert(word_kanji@.take(i + 1).map_values(|k: String| k@).map_values(|k: Seq<char>| (kanji_name(kanji_names_by_kanji@, k), k)) =~= word_kanji@.take(i as int).map_values(|k: String| k@).map_values(|k: Seq<char>| (kanji_name(kanji_names_by_kanji@, k), k)).push((kanji_name(kanji_names_by_kanji@, k@), k@)));
        }
        i += 1;
    }
    assert(word_kanji@.take(word_kanji.len() as int) =~= word_kanji@);
    let mut words: Vec<SentenceWord> = Vec::new();
    let mut j: usize = 0;
    while j < sentence_words.len()
        invariant
            j <= sentence_words.len(),
            forall|i: int| 0 <= i < sentence_words@.len() ==> sentence_word_furigana_valid(*#[trigger] sentence_words@[i]),
            words@.map_values(|w: SentenceWord| w@) == derefs(sentence_words@).take(j as int).map_values(
                |r: SentenceWordQuery| sentence_word_spec(r),
            ),
        decreases sentence_words.len() - j,
    {
        let ghost prev = words@;
        let r: &SentenceWordQuery = sentence_words[j];
        assert(sentence_word_furigana_valid(*sentence_words@[j as int]));
        assert(derefs(sentence_words@)[j as int] == *r);
        let own = match &r.sentence_word_reading {
            Some(rr) => db_furigana_to_anki_furigana(&r.sentence_word_furigana, Some(rr.as_str())),
            None => Vec::new(),
        };
        proof {
            if r.sentence_word_reading is None {
                assert(anki_view(own@) =~= Seq::<AnkiFuriganaView>::empty());
            }
            assert(anki_view(own@) == own_furigana(*r));
        }
        let furigana = if own.len() > 0 {
            own
        } else {
            match (&r.furigana, &r.reading) {
                (Some(f), Some(rd)) => db_furigana_to_anki_furigana(f, Some(rd.as_str())),
                _ => {
                    let none: Vec<AnkiFurigana> = Vec::new();
                    assert(anki_view(none@) =~= Seq::<AnkiFuriganaView>::empty());
                    none
                },
            }
        };
        let sw = SentenceWord { furigana, idx_start: r.idx_start, idx_end: r.idx_end };
        words.push(sw);
        proof {
            assert(sw@ == sentence_word_spec(*r));
            assert(words@.map_values(|w: SentenceWord| w@) =~= prev.map_values(|w: SentenceWord| w@).push(sw@));
            assert(derefs(sentence_words@).take(j + 1).map_values(|r: SentenceWordQuery| sentence_word_spec(r)) =~= derefs(sentence_words@).take(j as int).map_values(|r: SentenceWordQuery| sentence_word_spec(r)).push(sentence_word_spec(*r)));
        }
        j += 1;
    }
    assert(derefs(sentence_words@).take(sentence_words.len() as int) =~= derefs(sentence_words@));
    WordCard {
        id: word_id,
        word_id,
        word: written,
        word_range: word.idx_start as usize..word.idx_end as usize,
        word_furigana,
        translations,
        kanji,
        word_sentences,
        sentence: Sentence { id: word.sentence_id, sentence: word.sentence.clone(), words },
    }
}

/// The word ids of the sentence words that have a word, in order.
pub open spec fn sentence_word_ids(rows: Seq<SentenceWordQuery>) -> Seq<i32>
    decreases rows.len(),
{
    if rows.len() == 0 {
        seq![]
    } else {
        sentence_word_ids(rows.drop_last()) + match rows.last().word_id {
            Some(id) => seq![id],
            None => seq![],
        }
    }
}

/// The words whose kanji the deck's word cards show: the words of the sentence words, without
/// the words that the user ignores.
pub fn kanji_query_word_ids(sentence_words: &Vec<SentenceWordQuery>, ignored_words: &HashSet<i32>) -> (ids: Vec<i32>)
    ensures
        ids@ == keep(sentence_word_ids(sentence_words@), |id: i32| !ignored_words@.contains(id)),
{
    let ghost p = |id: i32| !ignored_words@.contains(id);
    let mut ids: Vec<i32> = Vec::new();
    let mut i: usize = 0;
    while i < sentence_words.len()
        invariant
            i <= sentence_words.len(),
            p == (|id: i32| !ignored_words@.contains(id)),
            ids@ == keep(sentence_word_ids(sentence_words@.take(i as int)), p),
        decreases sentence_words.len() - i,
    {
        let ghost t = sentence_words@.take(i + 1);
        assert(t.drop_last() =~= sentence_words@.take(i as int));
        assert(t.last() == sentence_words@[i as int]);
        if let Some(id) = sentence_words[i].word_id {
            let ghost before = sentence_word_ids(sentence_words@.take(i as int));
            assert(sentence_word_ids(t) =~= before.push(id));
            assert(sentence_word_ids(t).drop_last() =~= before);
            if !ignored_words.contains(&id) {
                ids.push(id);
            }
        } else {
            assert(sentence_word_ids(t) =~= sentence_word_ids(sentence_words@.take(i as int)));
        }
        i += 1;
    }
    assert(sentence_words@.take(sentence_words.len() as int) =~= sentence_words@);
    ids
}

/// The sentence words of one word.
pub open spec fn of_word(id: i32) -> spec_fn(SentenceWordQuery) -> bool {
    |r: SentenceWordQuery| r.word_id == Some(id)
}

/// The sentence words of one sentence.
pub open spec fn of_sentence(id: i32) -> spec_fn(SentenceWordQuery) -> bool {
    |r: SentenceWordQuery| r.sentence_id == id
}

/// The words of the rows, each once, in the order of their first row.
pub open spec fn distinct_word_ids(rows: Seq<SentenceWordQuery>) -> Seq<i32>
    decreases rows.len(),
{
    if rows.len() == 0 {
        seq![]
    } else {
        let ids = distinct_word_ids(rows.drop_last());
        match rows.last().word_id {
            Some(id) => if ids.contains(id) {
                ids
            } else {
                ids.push(id)
            },
            None => ids,
        }
    }
}

proof fn lemma_distinct_word_ids(rows: Seq<SentenceWordQuery>)
    ensures
        forall|id: i32| #[trigger] distinct_word_ids(rows).contains(id) ==> exists|k: int|
            0 <= k < rows.len() && #[trigger] rows[k].word_id == Some(id),
    decreases rows.len(),
{
    if rows.len() > 0 {
        let d = rows.drop_last();
        lemma_distinct_word_ids(d);
        assert forall|id: i32| #[trigger] distinct_word_ids(rows).contains(id) implies exists|k: int|
            0 <= k < rows.len() && #[trigger] rows[k].word_id == Some(id) by {
            let all = distinct_word_ids(rows);
            let ids = distinct_word_ids(d);
            let x = choose|x: int| 0 <= x < all.len() && all[x] == id;
            if x < ids.len() && all[x] == ids[x] {
                assert(ids.contains(id));
                let k = choose|k: int| 0 <= k < d.len() && #[trigger] d[k].word_id == Some(id);
                assert(rows[k] == d[k]);
            } else {
                assert(rows[rows.len() - 1].word_id == Some(id));
            }
        }
    }
}

/// Whether `card` is the card of the word `id`: it is made from one of the word's sentence words,
/// with the words of that sentence word's sentence, and counts the word's sentence words.
pub open spec fn is_word_card(
    card: WordCardView,
    id: i32,
    rows: Seq<SentenceWordQuery>,
    kanji_rows: Seq<KanjiQuery>,
    row_kanji: Seq<Seq<Seq<char>>>,
) -> bool {
    exists|k: int|
        0 <= k < rows.len() && #[trigger] rows[k].word_id == Some(id) && card == word_card_spec(
            rows[k],
            keep(rows, of_sentence(rows[k].sentence_id)),
            kanji_rows,
            keep(rows, of_word(id)).len() as usize,
            row_kanji[k],
        )
}

/// The indices of the rows that `p` keeps.
fn indices_of_rows(
    rows: &Vec<SentenceWordQuery>,
    id: i32,
    by_word: bool,
    Ghost(sp): Ghost<spec_fn(SentenceWordQuery) -> bool>,
) -> (ix: Vec<usize>)
    requires
        sp == (if by_word {
            of_word(id)
        } else {
            of_sentence(id)
        }),
    ensures
        forall|k: int| 0 <= k < ix@.len() ==> #[trigger] ix@[k] < rows@.len(),
        at_indices(rows@, ix@) == keep(rows@, sp),
{
    let mut ix: Vec<usize> = Vec::new();
    let mut i: usize = 0;
    while i < rows.len()
        invariant
            i <= rows.len(),
            sp == (if by_word {
                of_word(id)
            } else {
                of_sentence(id)
            }),
            forall|k: int| 0 <= k < ix@.len() ==> #[trigger] ix@[k] < i,
            at_indices(rows@, ix@) == keep(rows@.take(i as int), sp),
        decreases rows.len() - i,
    {
        proof {
            assert(rows@.take(i + 1).drop_last() =~= rows@.take(i as int));
            assert(rows@.take(i + 1).last() == rows@[i as int]);
        }
        let keeps = if by_word {
            match rows[i].word_id {
                Some(w) => w == id,
                None => false,
            }
        } else {
            rows[i].sentence_id == id
        };
        assert(keeps == sp(rows@[i as int]));
        let ghost prev = ix@;
        if keeps {
            ix.push(i);
            assert(at_indices(rows@, ix@) =~= at_indices(rows@, prev).push(rows@[i as int]));
        }
        i += 1;
    }
    assert(rows@.take(rows.len() as int) =~= rows@);
    ix
}

/// Builds the cards of the words of the deck's word sources: one card per word, in the order of
/// the word's first sentence word, each with a sentence chosen at random among the word's
/// sentence words. `row_kanji` holds, for each sentence word, the kanji of its text in its
/// sentence.
pub fn word_cards(
    sentence_words: &Vec<SentenceWordQuery>,
    kanji_names_by_kanji: &Vec<KanjiQuery>,
    row_kanji: &Vec<Vec<String>>,
) -> (cards: Vec<WordCard>)
    requires
        row_kanji@.len() == sentence_words@.len(),
        forall|i: int| 0 <= i < sentence_words@.len() && (#[trigger] sentence_words@[i]).word_id is Some ==> card_ready(sentence_words@[i]),
        forall|i: int| 0 <= i < sentence_words@.len() ==> sentence_word_furigana_valid(#[trigger] sentence_words@[i]),
    ensures
        cards@.len() == distinct_word_ids(sentence_words@).len(),
        forall|i: int|
            0 <= i < cards@.len() ==> is_word_card(
                (#[trigger] cards@[i])@,
                distinct_word_ids(sentence_words@)[i],
                sentence_words@,
                kanji_names_by_kanji@,
                row_kanji@.map_values(|ks: Vec<String>| ks@.map_values(|k: String| k@)),
            ),
{
    let ghost rows = sentence_words@;
    let ghost rk = row_kanji@.map_values(|ks: Vec<String>| ks@.map_values(|k: String| k@));
    // the words, each once, in the order of their first sentence word
    let mut seen: HashSet<i32> = HashSet::new();
    let mut order: Vec<i32> = Vec::new();
    let mut i: usize = 0;
    while i < sentence_words.len()
        invariant
            i <= sentence_words.len(),
            rows == sentence_words@,
            order@ == distinct_word_ids(rows.take(i as int)),
            forall|id: i32| seen@.contains(id) <==> order@.contains(id),
        decreases sentence_words.len() - i,
    {
        proof {
            assert(rows.take(i + 1).drop_last() =~= rows.take(i as int));
            assert(rows.take(i + 1).last() == rows[i as int]);
        }
        if let Some(id) = sentence_words[i].word_id {
            let ghost prev = order@;
            if !seen.contains(&id) {
                seen.insert(id);
                order.push(id);
                proof {
                    assert forall|x: i32| seen@.contains(x) <==> order@.contains(x) by {
                        if order@.contains(x) && x != id {
                            let k = choose|k: int| 0 <= k < order@.len() && order@[k] == x;
                            assert(prev[k] == x);
                        }
                        if prev.contains(x) {
                            let k = choose|k: int| 0 <= k < prev.len() && prev[k] == x;
                            assert(order@[k] == x);
                        }
                        assert(order@[prev.len() as int] == id);
                    }
                }
            }
        }
        i += 1;
    }
    proof {
        assert(rows.take(sentence_words.len() as int) =~= rows);
        lemma_distinct_word_ids(rows);
    }
    let mut cards: Vec<WordCard> = Vec::new();
    let mut j: usize = 0;
    while j < order.len()
        invariant
            j <= order.len(),
            rows == sentence_words@,
            rk == row_kanji@.map_values(|ks: Vec<String>| ks@.map_values(|k: String| k@)),
            row_kanji@.len() == rows.len(),
            order@ == distinct_word_ids(rows),
            forall|id: i32| #[trigger] distinct_word_ids(rows).contains(id) ==> exists|k: int|
                0 <= k < rows.len() && #[trigger] rows[k].word_id == Some(id),
            forall|i: int| 0 <= i < rows.len() && (#[trigger] rows[i]).word_id is Some ==> card_ready(rows[i]),
            forall|i: int| 0 <= i < rows.len() ==> sentence_word_furigana_valid(#[trigger] rows[i]),
            cards@.len() == j,
            forall|c: int|
                0 <= c < j ==> is_word_card((#[trigger] cards@[c])@, distinct_word_ids(rows)[c], rows, kanji_names_by_kanji@, rk),
        decreases order.len() - j,
    {
        let id = order[j];
        let ghost sp = of_word(id);
        let group = indices_of_rows(sentence_words, id, true, Ghost(sp));
        let ix = match choose_random(&group) {
            Some(ix) => *ix,
            None => {
                proof {
                    assert(distinct_word_ids(rows).contains(id)) by {
                        assert(order@[j as int] == id);
                    }
                    let k = choose|k: int| 0 <= k < rows.len() && #[trigger] rows[k].word_id == Some(id);
                    assert(rows.contains(rows[k]));
                    lemma_keep_contains(rows, sp, rows[k]);
                    assert(at_indices(rows, group@).len() > 0);
                }
                return cards;
            },
        };
        proof {
            let k = choose|k: int| 0 <= k < group@.len() && group@[k] == ix;
            assert(at_indices(rows, group@)[k] == rows[ix as int]);
            assert(keep(rows, sp).contains(rows[ix as int]));
            lemma_keep_contains(rows, sp, rows[ix as int]);
            assert(rows[ix as int].word_id == Some(id));
        }
        let word = &sentence_words[ix];
        let ghost ssp = of_sentence(word.sentence_id);
        let in_sentence = indices_of_rows(sentence_words, word.sentence_id, false, Ghost(ssp));
        let mut sentence: Vec<&SentenceWordQuery> = Vec::new();
        let mut k: usize = 0;
        while k < in_sentence.len()
            invariant
                k <= in_sentence.len(),
                rows == sentence_words@,
                forall|m: int| 0 <= m < in_sentence@.len() ==> #[trigger] in_sentence@[m] < rows.len(),
                derefs(sentence@) == at_indices(rows, in_sentence@).take(k as int),
            decreases in_sentence.len() - k,
        {
            let ghost prev = sentence@;
            let m = in_sentence[k];
            assert(in_sentence@[k as int] < rows.len());
            sentence.push(&sentence_words[m]);
            assert(derefs(sentence@) =~= derefs(prev).push(rows[m as int]));
            assert(at_indices(rows, in_sentence@).take(k + 1) =~= at_indices(rows, in_sentence@).take(k as int).push(rows[m as int]));
            k += 1;
        }
        proof {
            assert(at_indices(rows, in_sentence@).take(in_sentence@.len() as int) =~= at_indices(rows, in_sentence@));
            assert forall|m: int| 0 <= m < sentence@.len() implies sentence_word_furigana_valid(*#[trigger] sentence@[m]) by {
                assert(derefs(sentence@)[m] == *sentence@[m]);
                let q = in_sentence@[m];
                assert(at_indices(rows, in_sentence@)[m] == rows[q as int]);
                assert(sentence_word_furigana_valid(rows[q as int]));
            }
            assert(card_ready(rows[ix as int]));
            assert(at_indices(rows, group@).len() == group@.len());
        }
        let card = word_card_from_query(word, &sentence, kanji_names_by_kanji, group.len(), &row_kanji[ix]);
        cards.push(card);
        proof {
            assert(distinct_word_ids(rows)[j as int] == id);
            assert(rk[ix as int] == row_kanji@[ix as int]@.map_values(|k: String| k@));
            assert(derefs(sentence@) == keep(rows, of_sentence(rows[ix as int].sentence_id)));
            assert(cards@[j as int]@ == word_card_spec(
                rows[ix as int],
                keep(rows, of_sentence(rows[ix as int].sentence_id)),
                kanji_names_by_kanji@,
                keep(rows, of_word(id)).len() as usize,
                rk[ix as int],
            ));
            assert(is_word_card(cards@[j as int]@, id, rows, kanji_names_by_kanji@, rk));
        }
        j += 1;
    }
    cards
}

// ---------------------------------------------------------------------------------------------
// What the cards show
// ---------------------------------------------------------------------------------------------

/// The sentence of a word card shows the word itself among its words: one of the sentence's
/// words has the card's word range.
pub proof fn lemma_word_card_sentence_has_word(
    card: WordCardView,
    id: i32,
    rows: Seq<SentenceWordQuery>,
    kanji_rows: Seq<KanjiQuery>,
    row_kanji: Seq<Seq<Seq<char>>>,
)
    requires
        is_word_card(card, id, rows, kanji_rows, row_kanji),
    ensures
        exists|m: int|
            0 <= m < card.sentence_words.len() && (#[trigger] card.sentence_words[m]).idx_start as usize
                == card.word_start && card.sentence_words[m].idx_end as usize == card.word_end,
{
    let k = choose|k: int|
        0 <= k < rows.len() && #[trigger] rows[k].word_id == Some(id) && card == word_card_spec(
            rows[k],
            keep(rows, of_sentence(rows[k].sentence_id)),
            kanji_rows,
            keep(rows, of_word(id)).len() as usize,
            row_kanji[k],
        );
    let in_sentence = keep(rows, of_sentence(rows[k].sentence_id));
    assert(rows.contains(rows[k]));
    lemma_keep_contains(rows, of_sentence(rows[k].sentence_id), rows[k]);
    let m = choose|m: int| 0 <= m < in_sentence.len() && in_sentence[m] == rows[k];
    assert(card.sentence_words[m] == sentence_word_spec(in_sentence[m]));
}

/// The kanji that a kanji card shows as similar are paired with the card's kanji, and each of
/// them is a kanji of the deck's sources.
pub proof fn lemma_similar_kanji_of_deck(
    id: i32,
    rows: Seq<KanjiWordQueryView>,
    joined_on_lower: Seq<SimilarKanjiQueryView>,
    joined_on_higher: Seq<SimilarKanjiQueryView>,
    s: SimilarKanjiQueryView,
)
    requires
        similar_kanji_of(id, rows, joined_on_lower, joined_on_higher).contains(s),
    ensures
        (s.lower_kanji_id == id && has_kanji(rows, s.higher_kanji_id)) || (s.higher_kanji_id == id
            && has_kanji(rows, s.lower_kanji_id)),
{
    let a = keep(joined_on_higher, paired_as_lower(id, rows));
    let b = keep(joined_on_lower, paired_as_higher(id, rows));
    let all = a + b;
    let k = choose|k: int| 0 <= k < all.len() && all[k] == s;
    if k < a.len() {
        assert(a[k] == s);
        lemma_keep_contains(joined_on_higher, paired_as_lower(id, rows), s);
    } else {
        assert(b[k - a.len()] == s);
        lemma_keep_contains(joined_on_lower, paired_as_higher(id, rows), s);
    }
}

} // verus!
