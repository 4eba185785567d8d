//! Turning the entries of the JMdict dictionary and of the kanji dictionaries into the rows of
//! the database.
use crate::api::strings_view;
use crate::japanese::{
    chosen_conversion, furigana_candidates, furigana_mappings, has_furigana_mapping,
    try_map_to_db_furigana, Conversion, DbFurigana,
};
use std::collections::{HashMap, HashSet};
use vstd::prelude::*;
use vstd::string::StringExecFns;

verus! {

broadcast use {
    vstd::utf8::group_utf8_lib,
    vstd::string::group_string_axioms,
    vstd::std_specs::hash::group_hash_axioms,
};

// ---------------------------------------------------------------------------------------------
// Joining text
// ---------------------------------------------------------------------------------------------

/// The parts with `sep` between each two of them.
pub open spec fn join(parts: Seq<Seq<char>>, sep: Seq<char>) -> Seq<char>
    decreases parts.len(),
{
    if parts.len() == 0 {
        seq![]
    } else if parts.len() == 1 {
        parts[0]
    } else {
        join(parts.drop_last(), sep) + sep + parts.last()
    }
}

/// Joins the parts with `sep` between each two of them.
pub fn join_strings(parts: &Vec<&str>, sep: &str) -> (joined: String)
    ensures
        joined@ == join(parts@.map_values(|p: &str| p@), sep@),
{
    let ghost pv = parts@.map_values(|p: &str| p@);
    let mut joined = String::new();
    let mut i: usize = 0;
    while i < parts.len()
        invariant
            i <= parts.len(),
            pv == parts@.map_values(|p: &str| p@),
            joined@ == join(pv.take(i as int), sep@),
        decreases parts.len() - i,
    {
        let ghost t = pv.take(i + 1);
        assert(t.drop_last() =~= pv.take(i as int));
        assert(t.last() == parts@[i as int]@);
        if i > 0 {
            joined.append(sep);
        }
        joined.append(parts[i]);
        proof {
            if i == 0 {
                assert(pv.take(0) =~= Seq::<Seq<char>>::empty());
                assert(joined@ =~= t[0]);
            }
        }
        i += 1;
    }
    assert(pv.take(parts.len() as int) =~= pv);
    joined
}

// ---------------------------------------------------------------------------------------------
// JMdict entries
// ---------------------------------------------------------------------------------------------

/// A gloss of a sense: a translation in some language (English when none is given).
pub struct Gloss {
    pub text: String,
    pub lang: Option<String>,
}

/// A sense of an entry, with the kanji and reading elements it is restricted to, if any.
pub struct Sense {
    pub stagk: Vec<String>,
    pub stagr: Vec<String>,
    pub gloss: Vec<Gloss>,
    pub s_inf: Vec<String>,
}

/// A kanji element of an entry: a way of writing the word.
pub struct KanjiElement {
    pub keb: String,
}

/// A reading element of an entry, with the kanji elements it is restricted to, if any.
pub struct ReadingElement {
    pub reb: String,
    pub re_restr: Vec<String>,
}

/// A JMdict entry.
pub struct Entry {
    pub k_ele: Vec<KanjiElement>,
    pub r_ele: Vec<ReadingElement>,
    pub sense: Vec<Sense>,
}

/// Whether the sense applies to the word written as `word` (any way of writing it when `None`)
/// and read as `reading`.
pub open spec fn sense_applies(s: Sense, word: Option<Seq<char>>, reading: Seq<char>) -> bool {
    &&& (s.stagk@.len() == 0 || match word {
        Some(w) => strings_view(s.stagk@).contains(w),
        None => true,
    })
    &&& (s.stagr@.len() == 0 || strings_view(s.stagr@).contains(reading))
}

/// The English glosses of a sense.
pub open spec fn english_glosses(gloss: Seq<Gloss>) -> Seq<Seq<char>>
    decreases gloss.len(),
{
    if gloss.len() == 0 {
        seq![]
    } else {
        english_glosses(gloss.drop_last()) + if gloss.last().lang is None {
            seq![gloss.last().text@]
        } else {
            seq![]
        }
    }
}

/// The translation of a sense: its English glosses separated by commas, followed by its
/// information in brackets if it has any.
pub open spec fn sense_translation(s: Sense) -> Seq<char> {
    let meanings = join(english_glosses(s.gloss@), ", "@);
    if s.s_inf@.len() == 0 {
        meanings
    } else {
        meanings + " ["@ + join(strings_view(s.s_inf@), ", "@) + "]"@
    }
}

/// The translations of the senses that apply.
pub open spec fn translations_spec(senses: Seq<Sense>, word: Option<Seq<char>>, reading: Seq<char>) -> Seq<Seq<char>>
    decreases senses.len(),
{
    if senses.len() == 0 {
        seq![]
    } else {
        translations_spec(senses.drop_last(), word, reading) + if sense_applies(senses.last(), word, reading) {
            seq![sense_translation(senses.last())]
        } else {
            seq![]
        }
    }
}

/// Whether one of the strings is `s`.
pub fn contains_str(strings: &Vec<String>, s: &str) -> (found: bool)
    ensures
        found == strings_view(strings@).contains(s@),
{
    let mut i: usize = 0;
    while i < strings.len()
        invariant
            i <= strings.len(),
            forall|k: int| 0 <= k < i ==> strings@[k]@ != s@,
        decreases strings.len() - i,
    {
        if crate::text::str_eq(strings[i].as_str(), s) {
            assert(strings_view(strings@)[i as int] == s@);
            return true;
        }
        i += 1;
    }
    proof {
        if strings_view(strings@).contains(s@) {
            let k = choose|k: int| 0 <= k < strings_view(strings@).len() && strings_view(strings@)[k] == s@;
            assert(strings@[k]@ == s@);
        }
    }
    false
}

/// The translation of one sense.
fn translate_sense(s: &Sense) -> (t: String)
    ensures
        t@ == sense_translation(*s),
{
    let mut glosses: Vec<&str> = Vec::new();
    let mut i: usize = 0;
    while i < s.gloss.len()
        invariant
            i <= s.gloss.len(),
            glosses@.map_values(|p: &str| p@) == english_glosses(s.gloss@.take(i as int)),
        decreases s.gloss.len() - i,
    {
        let ghost t = s.gloss@.take(i + 1);
        assert(t.drop_last() =~= s.gloss@.take(i as int));
        assert(t.last() == s.gloss@[i as int]);
        let ghost prev = glosses@;
        if s.gloss[i].lang.is_none() {
            glosses.push(s.gloss[i].text.as_str());
            assert(glosses@.map_values(|p: &str| p@) =~= prev.map_values(|p: &str| p@).push(s.gloss@[i as int].text@));
        }
        i += 1;
    }
    assert(s.gloss@.take(s.gloss.len() as int) =~= s.gloss@);
    let meanings = join_strings(&glosses, ", ");
    if s.s_inf.len() == 0 {
        meanings
    } else {
        let mut infos: Vec<&str> = Vec::new();
        let mut k: usize = 0;
        while k < s.s_inf.len()
            invariant
                k <= s.s_inf.len(),
                infos@.map_values(|p: &str| p@) == strings_view(s.s_inf@).take(k as int),
            decreases s.s_inf.len() - k,
        {
            let ghost prev = infos@;
            infos.push(s.s_inf[k].as_str());
            assert(infos@.map_values(|p: &str| p@) =~= prev.map_values(|p: &str| p@).push(s.s_inf@[k as int]@));
            assert(strings_view(s.s_inf@).take(k + 1) =~= strings_view(s.s_inf@).take(k as int).push(s.s_inf@[k as int]@));
            k += 1;
        }
        assert(strings_view(s.s_inf@).take(s.s_inf.len() as int) =~= strings_view(s.s_inf@));
        let info = join_strings(&infos, ", ");
        let mut t = meanings;
        t.append(" [");
        t.append(info.as_str());
        t.append("]");
        t
    }
}

/// The translations of the senses of the entry that apply to the word written as `word` (any way
/// of writing it when `None`) and read as `reading`, in order.
pub fn translations_from_entry(entry: &Entry, word: Option<&str>, reading: &str) -> (translations: Vec<String>)
    ensures
        strings_view(translations@) == translations_spec(
            entry.sense@,
            match word {
                Some(w) => Some(w@),
                None => None,
            },
            reading@,
        ),
{
    let ghost w = match word {
        Some(w) => Some(w@),
        None => None::<Seq<char>>,
    };
    let mut translations: Vec<String> = Vec::new();
    let mut i: usize = 0;
    while i < entry.sense.len()
        invariant
            i <= entry.sense.len(),
            w == (match word {
                Some(w) => Some(w@),
                None => None::<Seq<char>>,
            }),
            strings_view(translations@) == translations_spec(entry.sense@.take(i as int), w, reading@),
        decreases entry.sense.len() - i,
    {
        let s = &entry.sense[i];
        let ghost t = entry.sense@.take(i + 1);
        assert(t.drop_last() =~= entry.sense@.take(i as int));
        assert(t.last() == *s);
        let stagk_ok = s.stagk.len() == 0 || match word {
            Some(wd) => contains_str(&s.stagk, wd),
            None => true,
        };
        let stagr_ok = s.stagr.len() == 0 || contains_str(&s.stagr, reading);
        let ghost prev = translations@;
        if stagk_ok && stagr_ok {
            translations.push(translate_sense(s));
            assert(strings_view(translations@) =~= strings_view(prev).push(sense_translation(*s)));
        }
        i += 1;
    }
    assert(entry.sense@.take(entry.sense.len() as int) =~= entry.sense@);
    translations
}

// ---------------------------------------------------------------------------------------------
// The words of an entry
// ---------------------------------------------------------------------------------------------

/// A word of an entry: a written form, a reading and the translations that apply to them.
pub struct WordForm {
    pub word: String,
    pub reading: String,
    pub translations: Vec<String>,
}

pub struct WordFormView {
    pub word: Seq<char>,
    pub reading: Seq<char>,
    pub translations: Seq<Seq<char>>,
}

impl View for WordForm {
    type V = WordFormView;

    open spec fn view(&self) -> WordFormView {
        WordFormView { word: self.word@, reading: self.reading@, translations: strings_view(self.translations@) }
    }
}

pub open spec fn forms_view(forms: Seq<WordForm>) -> Seq<WordFormView> {
    forms.map_values(|f: WordForm| f@)
}

/// Whether the reading element may be read for the written form `keb`.
pub open spec fn reading_applies(r: ReadingElement, keb: Seq<char>) -> bool {
    r.re_restr@.len() == 0 || strings_view(r.re_restr@).contains(keb)
}

/// The word written as `word` and read as `reading`, with the entry's translations for it.
pub open spec fn form_spec(entry: Entry, word: Option<Seq<char>>, written: Seq<char>, reading: Seq<char>) -> WordFormView {
    WordFormView { word: written, reading, translations: translations_spec(entry.sense@, word, reading) }
}

/// The readings among `rs` that apply to `keb`.
pub open spec fn applying_readings(rs: Seq<ReadingElement>, keb: Seq<char>) -> Seq<ReadingElement>
    decreases rs.len(),
{
    if rs.len() == 0 {
        seq![]
    } else {
        applying_readings(rs.drop_last(), keb) + if reading_applies(rs.last(), keb) {
            seq![rs.last()]
        } else {
            seq![]
        }
    }
}

/// The readings among `rs` that `furigana::map` can map onto `keb`.
pub open spec fn mappable_readings(
    rs: Seq<ReadingElement>,
    keb: Seq<char>,
    kanji_to_readings: Map<Seq<char>, Seq<Seq<char>>>,
) -> Seq<ReadingElement>
    decreases rs.len(),
{
    if rs.len() == 0 {
        seq![]
    } else {
        mappable_readings(rs.drop_last(), keb, kanji_to_readings) + if furigana_mappings(keb, rs.last().reb@, kanji_to_readings).len() > 0 {
            seq![rs.last()]
        } else {
            seq![]
        }
    }
}

/// The words of one written form of the entry: one per reading that applies to it; when no
/// reading applies (search-only forms), one per reading that can be mapped onto it.
pub open spec fn kanji_element_forms(
    entry: Entry,
    keb: Seq<char>,
    kanji_to_readings: Map<Seq<char>, Seq<Seq<char>>>,
) -> Seq<WordFormView> {
    let applying = applying_readings(entry.r_ele@, keb);
    let fallback = if applying.len() == 0 {
        mappable_readings(entry.r_ele@, keb, kanji_to_readings)
    } else {
        seq![]
    };
    (fallback + applying).map_values(|r: ReadingElement| form_spec(entry, Some(keb), keb, r.reb@))
}

/// The words of the written forms `kes` of the entry, form by form.
pub open spec fn kanji_forms(
    entry: Entry,
    kes: Seq<KanjiElement>,
    kanji_to_readings: Map<Seq<char>, Seq<Seq<char>>>,
) -> Seq<WordFormView>
    decreases kes.len(),
{
    if kes.len() == 0 {
        seq![]
    } else {
        kanji_forms(entry, kes.drop_last(), kanji_to_readings) + kanji_element_forms(entry, kes.last().keb@, kanji_to_readings)
    }
}

/// The words of an entry in the order they are added: those of each written form, then each
/// reading on its own, written in kana.
pub open spec fn entry_forms_spec(entry: Entry, kanji_to_readings: Map<Seq<char>, Seq<Seq<char>>>) -> Seq<WordFormView> {
    kanji_forms(entry, entry.k_ele@, kanji_to_readings) + entry.r_ele@.map_values(
        |r: ReadingElement| form_spec(entry, None, r.reb@, r.reb@),
    )
}


/// Whether `translations` are the translations of exactly the senses that apply to the word
/// written `word` (any written form when `None`) and read `reading`: every applying sense gives
/// its translation, and every translation is that of an applying sense.
pub open spec fn translates_applying_senses(
    translations: Seq<Seq<char>>,
    senses: Seq<Sense>,
    word: Option<Seq<char>>,
    reading: Seq<char>,
) -> bool {
    &&& forall|i: int|
        0 <= i < senses.len() && sense_applies(senses[i], word, reading) ==> translations.contains(
            sense_translation(#[trigger] senses[i]),
        )
    &&& forall|t: int|
        0 <= t < translations.len() ==> exists|i: int|
            0 <= i < senses.len() && sense_applies(senses[i], word, reading) && #[trigger] translations[t]
                == sense_translation(senses[i])
}

proof fn lemma_translations_of_applying_senses(senses: Seq<Sense>, word: Option<Seq<char>>, reading: Seq<char>)
    ensures
        translates_applying_senses(translations_spec(senses, word, reading), senses, word, reading),
    decreases senses.len(),
{
    if senses.len() > 0 {
        let p = senses.drop_last();
        lemma_translations_of_applying_senses(p, word, reading);
        let tp = translations_spec(p, word, reading);
        let t = translations_spec(senses, word, reading);
        assert forall|i: int| 0 <= i < senses.len() && sense_applies(senses[i], word, reading) implies t.contains(
            sense_translation(#[trigger] senses[i]),
        ) by {
            if i < p.len() {
                assert(p[i] == senses[i]);
                assert(tp.contains(sense_translation(p[i])));
                let x = choose|x: int| 0 <= x < tp.len() && tp[x] == sense_translation(p[i]);
                assert(t[x] == tp[x]);
            } else {
                assert(senses[i] == senses.last());
                assert(t[tp.len() as int] == sense_translation(senses.last()));
            }
        }
        assert forall|x: int| 0 <= x < t.len() implies exists|i: int|
            0 <= i < senses.len() && sense_applies(senses[i], word, reading) && #[trigger] t[x]
                == sense_translation(senses[i]) by {
            if x < tp.len() {
                assert(t[x] == tp[x]);
                let i = choose|i: int| 0 <= i < p.len() && sense_applies(p[i], word, reading) && tp[x] == sense_translation(p[i]);
                assert(p[i] == senses[i]);
            } else {
                assert(t[x] == sense_translation(senses.last()));
                assert(senses[senses.len() - 1] == senses.last());
            }
        }
        assert(translates_applying_senses(t, senses, word, reading));
    } else {
        assert(translations_spec(senses, word, reading) =~= Seq::<Seq<char>>::empty());
    }
}

proof fn lemma_kanji_forms_translated(entry: Entry, kes: Seq<KanjiElement>, kanji_to_readings: Map<Seq<char>, Seq<Seq<char>>>)
    ensures
        forall|k: int|
            0 <= k < kanji_forms(entry, kes, kanji_to_readings).len() ==> (#[trigger] kanji_forms(entry, kes, kanji_to_readings)[k]).translations
                == translations_spec(
                entry.sense@,
                Some(kanji_forms(entry, kes, kanji_to_readings)[k].word),
                kanji_forms(entry, kes, kanji_to_readings)[k].reading,
            ),
    decreases kes.len(),
{
    if kes.len() > 0 {
        lemma_kanji_forms_translated(entry, kes.drop_last(), kanji_to_readings);
        let p = kanji_forms(entry, kes.drop_last(), kanji_to_readings);
        let e = kanji_element_forms(entry, kes.last().keb@, kanji_to_readings);
        let all = kanji_forms(entry, kes, kanji_to_readings);
        assert(all == p + e);
        assert forall|k: int| 0 <= k < all.len() implies (#[trigger] all[k]).translations == translations_spec(
            entry.sense@,
            Some(all[k].word),
            all[k].reading,
        ) by {
            if k < p.len() {
                assert(all[k] == p[k]);
            } else {
                assert(all[k] == e[k - p.len()]);
            }
        }
    }
}

/// Every word of an entry, written `w` and read `r`, has the translations of exactly the senses
/// that apply to `w` and `r`: a sense restricted to other written forms (`stagk`) or to other
/// readings (`stagr`) is left out, and every other sense is kept. The words written in kana,
/// which come after those of the written forms, are each written as they are read, and take
/// the senses that apply to their reading with any written form.
pub proof fn lemma_entry_forms_translated(entry: Entry, kanji_to_readings: Map<Seq<char>, Seq<Seq<char>>>)
    ensures
        ({
            let forms = entry_forms_spec(entry, kanji_to_readings);
            let nk = kanji_forms(entry, entry.k_ele@, kanji_to_readings).len();
            &&& nk + entry.r_ele@.len() == forms.len()
            &&& forall|k: int|
                0 <= k < nk ==> translates_applying_senses(
                    (#[trigger] forms[k]).translations,
                    entry.sense@,
                    Some(forms[k].word),
                    forms[k].reading,
                )
            &&& forall|k: int|
                nk <= k < forms.len() ==> (#[trigger] forms[k]).word == forms[k].reading
                    && forms[k].reading == entry.r_ele@[k - nk].reb@ && translates_applying_senses(
                    forms[k].translations,
                    entry.sense@,
                    None,
                    forms[k].reading,
                )
        }),
{
    let forms = entry_forms_spec(entry, kanji_to_readings);
    let kf = kanji_forms(entry, entry.k_ele@, kanji_to_readings);
    let nk = kf.len();
    lemma_kanji_forms_translated(entry, entry.k_ele@, kanji_to_readings);
    assert forall|k: int| 0 <= k < nk implies translates_applying_senses(
        (#[trigger] forms[k]).translations,
        entry.sense@,
        Some(forms[k].word),
        forms[k].reading,
    ) by {
        assert(forms[k] == kf[k]);
        lemma_translations_of_applying_senses(entry.sense@, Some(kf[k].word), kf[k].reading);
    }
    assert forall|k: int| nk <= k < forms.len() implies (#[trigger] forms[k]).word == forms[k].reading
        && forms[k].reading == entry.r_ele@[k - nk].reb@ && translates_applying_senses(
        forms[k].translations,
        entry.sense@,
        None,
        forms[k].reading,
    ) by {
        let r = entry.r_ele@[k - nk];
        assert(forms[k] == form_spec(entry, None, r.reb@, r.reb@));
        lemma_translations_of_applying_senses(entry.sense@, None, r.reb@);
    }
}

/// The word written as `written` and read as `reading`, with the entry's translations for it.
fn make_form(entry: &Entry, word: Option<&str>, written: &str, reading: &str) -> (f: WordForm)
    ensures
        f@ == form_spec(
            *entry,
            match word {
                Some(w) => Some(w@),
                None => None,
            },
            written@,
            reading@,
        ),
{
    let translations = translations_from_entry(entry, word, reading);
    WordForm { word: written.to_string(), reading: reading.to_string(), translations }
}

/// Adds the words of the readings among the entry's that `keep` lets through, for the written form
/// `keb`, to `forms`.
fn push_reading_forms(
    forms: &mut Vec<WordForm>,
    entry: &Entry,
    keb: &str,
    readings: &Vec<usize>,
    Ghost(chosen): Ghost<Seq<ReadingElement>>,
)
    requires
        forall|k: int| 0 <= k < readings@.len() ==> #[trigger] readings@[k] < entry.r_ele@.len(),
        chosen == readings@.map_values(|k: usize| entry.r_ele@[k as int]),
    ensures
        forms_view(final(forms)@) == forms_view(old(forms)@) + chosen.map_values(
            |r: ReadingElement| form_spec(*entry, Some(keb@), keb@, r.reb@),
        ),
{
    let ghost start = forms_view(forms@);
    let mut i: usize = 0;
    while i < readings.len()
        invariant
            i <= readings.len(),
            forall|k: int| 0 <= k < readings@.len() ==> #[trigger] readings@[k] < entry.r_ele@.len(),
            chosen == readings@.map_values(|k: usize| entry.r_ele@[k as int]),
            forms_view(forms@) == start + chosen.take(i as int).map_values(
                |r: ReadingElement| form_spec(*entry, Some(keb@), keb@, r.reb@),
            ),
        decreases readings.len() - i,
    {
        let r = &entry.r_ele[readings[i]];
        assert(readings@[i as int] < entry.r_ele@.len());
        let ghost prev = forms@;
        let f = make_form(entry, Some(keb), keb, r.reb.as_str());
        forms.push(f);
        proof {
            assert(chosen[i as int] == *r);
            assert(forms_view(forms@) =~= forms_view(prev).push(f@));
            assert(chosen.take(i + 1).map_values(|r: ReadingElement| form_spec(*entry, Some(keb@), keb@, r.reb@)) =~= chosen.take(i as int).map_values(|r: ReadingElement| form_spec(*entry, Some(keb@), keb@, r.reb@)).push(f@));
        }
        i += 1;
    }
    assert(chosen.take(readings.len() as int) =~= chosen);
}

/// The indices of the entry's readings that apply to `keb`, or with `mappable` those that can be
/// mapped onto it.
fn select_readings(entry: &Entry, keb: &str, mappable: bool, kanji_to_readings: &HashMap<String, Vec<String>>) -> (ix: Vec<usize>)
    ensures
        forall|k: int| 0 <= k < ix@.len() ==> #[trigger] ix@[k] < entry.r_ele@.len(),
        ix@.map_values(|k: usize| entry.r_ele@[k as int]) == if mappable {
            mappable_readings(entry.r_ele@, keb@, kanji_to_readings.deep_view())
        } else {
            applying_readings(entry.r_ele@, keb@)
        },
{
    let ghost kmap = kanji_to_readings.deep_view();
    let mut ix: Vec<usize> = Vec::new();
    let mut r: usize = 0;
    while r < entry.r_ele.len()
        invariant
            r <= entry.r_ele.len(),
            kmap == kanji_to_readings.deep_view(),
            forall|k: int| 0 <= k < ix@.len() ==> #[trigger] ix@[k] < entry.r_ele@.len(),
            ix@.map_values(|k: usize| entry.r_ele@[k as int]) == if mappable {
                mappable_readings(entry.r_ele@.take(r as int), keb@, kmap)
            } else {
                applying_readings(entry.r_ele@.take(r as int), keb@)
            },
        decreases entry.r_ele.len() - r,
    {
        let re = &entry.r_ele[r];
        let ghost tr = entry.r_ele@.take(r + 1);
        assert(tr.drop_last() =~= entry.r_ele@.take(r as int));
        assert(tr.last() == *re);
        let ghost prev = ix@;
        let selected = if mappable {
            has_furigana_mapping(keb, re.reb.as_str(), kanji_to_readings)
        } else {
            re.re_restr.len() == 0 || contains_str(&re.re_restr, keb)
        };
        if selected {
            ix.push(r);
            assert(ix@.map_values(|k: usize| entry.r_ele@[k as int]) =~= prev.map_values(|k: usize| entry.r_ele@[k as int]).push(*re));
        }
        r += 1;
    }
    assert(entry.r_ele@.take(entry.r_ele.len() as int) =~= entry.r_ele@);
    ix
}

/// Lists the words of an entry in the order they are added to the dictionary's words: for each
/// written form, one word per reading that applies to it or, when none does, per reading that
/// can be mapped onto it; then each reading on its own, written in kana.
pub fn entry_word_forms(entry: &Entry, kanji_to_readings: &HashMap<String, Vec<String>>) -> (forms: Vec<WordForm>)
    ensures
        forms_view(forms@) == entry_forms_spec(*entry, kanji_to_readings.deep_view()),
        forall|k: int|
            0 <= k < kanji_forms(*entry, entry.k_ele@, kanji_to_readings.deep_view()).len() ==> translates_applying_senses(
                (#[trigger] forms@[k])@.translations,
                entry.sense@,
                Some(forms@[k]@.word),
                forms@[k]@.reading,
            ),
        forall|k: int|
            kanji_forms(*entry, entry.k_ele@, kanji_to_readings.deep_view()).len() <= k < forms@.len() ==> (#[trigger] forms@[k])@.word
                == forms@[k]@.reading && translates_applying_senses(forms@[k]@.translations, entry.sense@, None, forms@[k]@.reading),
{
    let ghost kmap = kanji_to_readings.deep_view();
    let mut forms: Vec<WordForm> = Vec::new();
    let mut e: usize = 0;
    while e < entry.k_ele.len()
        invariant
            e <= entry.k_ele.len(),
            kmap == kanji_to_readings.deep_view(),
            forms_view(forms@) == kanji_forms(*entry, entry.k_ele@.take(e as int), kmap),
        decreases entry.k_ele.len() - e,
    {
        let keb = entry.k_ele[e].keb.as_str();
        let ghost t = entry.k_ele@.take(e + 1);
        assert(t.drop_last() =~= entry.k_ele@.take(e as int));
        assert(t.last().keb@ == keb@);
        // the readings that apply to the written form
        let applying = select_readings(entry, keb, false, kanji_to_readings);
        let mappable = if applying.len() == 0 {
            select_readings(entry, keb, true, kanji_to_readings)
        } else {
            Vec::new()
        };
        let ghost before = forms_view(forms@);
        let ghost app = applying_readings(entry.r_ele@, keb@);
        let ghost fb = if app.len() == 0 {
            mappable_readings(entry.r_ele@, keb@, kmap)
        } else {
            seq![]
        };
        if applying.len() == 0 {
            push_reading_forms(&mut forms, entry, keb, &mappable, Ghost(fb));
        } else {
            assert(applying@.map_values(|k: usize| entry.r_ele@[k as int]).len() > 0);
            assert(fb =~= Seq::<ReadingElement>::empty());
        }
        push_reading_forms(&mut forms, entry, keb, &applying, Ghost(app));
        proof {
            let fspec = |r: ReadingElement| form_spec(*entry, Some(keb@), keb@, r.reb@);
            assert((fb + app).map_values(fspec) =~= fb.map_values(fspec) + app.map_values(fspec));
            assert(forms_view(forms@) =~= before + kanji_element_forms(*entry, keb@, kmap));
        }
        e += 1;
    }
    assert(entry.k_ele@.take(entry.k_ele.len() as int) =~= entry.k_ele@);
    let ghost mid = forms_view(forms@);
    let mut r: usize = 0;
    while r < entry.r_ele.len()
        invariant
            r <= entry.r_ele.len(),
            forms_view(forms@) == mid + entry.r_ele@.take(r as int).map_values(
                |r: ReadingElement| form_spec(*entry, None, r.reb@, r.reb@),
            ),
        decreases entry.r_ele.len() - r,
    {
        let reb = entry.r_ele[r].reb.as_str();
        let ghost prev = forms@;
        let f = make_form(entry, None, reb, reb);
        forms.push(f);
        proof {
            assert(forms_view(forms@) =~= forms_view(prev).push(f@));
            assert(entry.r_ele@.take(r + 1).map_values(|r: ReadingElement| form_spec(*entry, None, r.reb@, r.reb@)) =~= entry.r_ele@.take(r as int).map_values(|r: ReadingElement| form_spec(*entry, None, r.reb@, r.reb@)).push(f@));
        }
        r += 1;
    }
    assert(entry.r_ele@.take(entry.r_ele.len() as int) =~= entry.r_ele@);
    proof {
        lemma_entry_forms_translated(*entry, kmap);
        assert forall|k: int| 0 <= k < forms@.len() implies (#[trigger] forms@[k])@ == entry_forms_spec(*entry, kmap)[k] by {
            assert(forms_view(forms@)[k] == forms@[k]@);
        }
    }
    forms
}

// ---------------------------------------------------------------------------------------------
// The dictionary's words
// ---------------------------------------------------------------------------------------------

/// A word of the dictionary is identified by its entry, its written form and its reading in a
/// standard form.
pub struct JmdictWordKey {
    pub jmdict_id: i32,
    pub word: String,
    pub standardised_reading: String,
}

/// What is kept of a word: its reading, its reading in hiragana and its translations.
pub struct JmdictWordVal {
    pub reading: String,
    pub hiragana_reading: String,
    pub translations: Vec<String>,
}

pub type JmdictWordKeyView = (i32, Seq<char>, Seq<char>);

pub type JmdictWordValView = (Seq<char>, Seq<char>, Seq<Seq<char>>);

pub open spec fn key_view(k: JmdictWordKey) -> JmdictWordKeyView {
    (k.jmdict_id, k.word@, k.standardised_reading@)
}

pub open spec fn val_view(v: JmdictWordVal) -> JmdictWordValView {
    (v.reading@, v.hiragana_reading@, strings_view(v.translations@))
}

/// The entries as a map, each key to its entry's value; with distinct keys every entry is kept.
pub open spec fn words_map(entries: Seq<(JmdictWordKey, JmdictWordVal)>) -> Map<JmdictWordKeyView, JmdictWordValView> {
    Map::new(
        |k: JmdictWordKeyView| exists|i: int| 0 <= i < entries.len() && #[trigger] key_view(entries[i].0) == k,
        |k: JmdictWordKeyView|
            {
                let i = choose|i: int| 0 <= i < entries.len() && #[trigger] key_view(entries[i].0) == k;
                val_view(entries[i].1)
            },
    )
}

/// Whether no two entries have the same key.
pub open spec fn distinct_keys(entries: Seq<(JmdictWordKey, JmdictWordVal)>) -> bool {
    forall|i: int, j: int|
        0 <= i < j < entries.len() ==> key_view(#[trigger] entries[i].0) != key_view(#[trigger] entries[j].0)
}

/// The words of the dictionary, each under its key, with the positions of the words of each
/// entry, so that a word is found among the words of its own entry.
pub struct JmdictWords {
    jmdict_words: Vec<(JmdictWordKey, JmdictWordVal)>,
    by_entry: HashMap<i32, Vec<usize>>,
}

impl View for JmdictWords {
    type V = Map<JmdictWordKeyView, JmdictWordValView>;

    closed spec fn view(&self) -> Map<JmdictWordKeyView, JmdictWordValView> {
        words_map(self.jmdict_words@)
    }
}

/// Whether the index lists position `i` under the entry `id`.
pub open spec fn indexed(index: Map<i32, Vec<usize>>, id: i32, i: int) -> bool {
    index.contains_key(id) && index[id]@.contains(i as usize)
}

/// Whether the index lists every word under its entry, and only positions of words of that
/// entry.
pub open spec fn index_matches(index: Map<i32, Vec<usize>>, entries: Seq<(JmdictWordKey, JmdictWordVal)>) -> bool {
    &&& forall|i: int| 0 <= i < entries.len() ==> #[trigger] indexed(index, entries[i].0.jmdict_id, i)
    &&& forall|id: i32, m: int|
        index.contains_key(id) && 0 <= m < index[id]@.len() ==> (#[trigger] index[id]@[m]) < entries.len()
            && entries[index[id]@[m] as int].0.jmdict_id == id
}

impl JmdictWords {
    /// Whether each key occurs once, and the index lists the words by entry.
    pub closed spec fn wf(&self) -> bool {
        &&& distinct_keys(self.jmdict_words@)
        &&& index_matches(self.by_entry@, self.jmdict_words@)
    }

    /// No words.
    pub fn new() -> (words: JmdictWords)
        ensures
            words.wf(),
            words@ == Map::<JmdictWordKeyView, JmdictWordValView>::empty(),
    {
        let words = JmdictWords { jmdict_words: Vec::new(), by_entry: HashMap::new() };
        assert(words@ =~= Map::<JmdictWordKeyView, JmdictWordValView>::empty());
        words
    }

    /// Adds the word written as `word` and read as `reading`, whose reading in the standard form
    /// is `standardised_reading` and in hiragana `hiragana_reading`; a word already held under
    /// the same key is replaced.
    pub fn insert_new(
        &mut self,
        jmdict_id: i32,
        word: &str,
        reading: &str,
        standardised_reading: String,
        hiragana_reading: String,
        translations: Vec<String>,
    )
        requires
            old(self).wf(),
        ensures
            final(self).wf(),
            final(self)@ == old(self)@.insert(
                (jmdict_id, word@, standardised_reading@),
                (reading@, hiragana_reading@, strings_view(translations@)),
            ),
    {
        let ghost k = (jmdict_id, word@, standardised_reading@);
        let ghost v = (reading@, hiragana_reading@, strings_view(translations@));
        let ghost old_entries = self.jmdict_words@;
        let ghost old_index = self.by_entry@;
        let key = JmdictWordKey { jmdict_id, word: word.to_string(), standardised_reading };
        let val = JmdictWordVal { reading: reading.to_string(), hiragana_reading, translations };
        assert(key_view(key) == k && val_view(val) == v);
        let mut positions = match self.by_entry.remove(&jmdict_id) {
            Some(ps) => ps,
            None => Vec::new(),
        };
        let ghost ps = positions@;
        assert(old_index.contains_key(jmdict_id) ==> ps == old_index[jmdict_id]@);
        assert(!old_index.contains_key(jmdict_id) ==> ps.len() == 0);
        let mut j: usize = 0;
        let mut found: Option<usize> = None;
        while j < positions.len()
            invariant_except_break
                found is None,
            invariant
                j <= positions.len(),
                positions@ == ps,
                self.jmdict_words@ == old_entries,
                key_view(key) == k,
                k.0 == jmdict_id,
                index_matches(old_index, old_entries),
                old_index.contains_key(jmdict_id) ==> ps == old_index[jmdict_id]@,
                !old_index.contains_key(jmdict_id) ==> ps.len() == 0,
                forall|m: int| 0 <= m < j ==> key_view(#[trigger] old_entries[ps[m] as int].0) != k,
            ensures
                self.jmdict_words@ == old_entries,
                match found {
                    Some(p) => p < old_entries.len() && key_view(old_entries[p as int].0) == k,
                    None => forall|m: int| 0 <= m < ps.len() ==> key_view(#[trigger] old_entries[ps[m] as int].0) != k,
                },
            decreases positions.len() - j,
        {
            let p = positions[j];
            assert(p < old_entries.len() && old_entries[p as int].0.jmdict_id == jmdict_id) by {
                assert(old_index[jmdict_id]@[j as int] == p);
            }
            let existing = &self.jmdict_words[p].0;
            if crate::text::str_eq(existing.word.as_str(), key.word.as_str())
                && crate::text::str_eq(existing.standardised_reading.as_str(), key.standardised_reading.as_str()) {
                assert(old_entries[p as int].0 == *existing);
                assert(existing.word@ == key.word@);
                assert(existing.standardised_reading@ == key.standardised_reading@);
                assert(existing.jmdict_id == key.jmdict_id);
                assert(key_view(old_entries[p as int].0) == key_view(key));
                found = Some(p);
                break;
            }
            j += 1;
        }
        let i: usize = match found {
            Some(p) => p,
            None => self.jmdict_words.len(),
        };
        proof {
            if found is None {
                assert forall|a: int| 0 <= a < old_entries.len() implies key_view(#[trigger] old_entries[a].0) != k by {
                    if key_view(old_entries[a].0) == k {
                        assert(indexed(old_index, old_entries[a].0.jmdict_id, a));
                        let m = choose|m: int| 0 <= m < ps.len() && ps[m] == a as usize;
                        assert(key_view(old_entries[ps[m] as int].0) != k);
                    }
                }
            } else {
                assert forall|a: int| 0 <= a < i implies key_view(#[trigger] old_entries[a].0) != k by {
                    assert(key_view(old_entries[a].0) != key_view(old_entries[i as int].0));
                }
            }
        }
        let ghost entries_before = self.jmdict_words@;
        if i < self.jmdict_words.len() {
            assert(key_view(old_entries[i as int].0) == k);
            self.jmdict_words.set(i, (key, val));
            proof {
                let e = self.jmdict_words@;
                assert(e =~= old_entries.update(i as int, (key, val)));
                assert forall|a: int, b: int| 0 <= a < b < e.len() implies key_view(#[trigger] e[a].0) != key_view(#[trigger] e[b].0) by {
                    if a != i && b != i {
                        assert(key_view(old_entries[a].0) != key_view(old_entries[b].0));
                    } else if a == i {
                        assert(key_view(old_entries[a].0) != key_view(old_entries[b].0));
                    } else {
                        assert(key_view(old_entries[a].0) != key_view(old_entries[b].0));
                    }
                }
                assert(words_map(e) =~= words_map(old_entries).insert(k, v)) by {
                    assert forall|x: JmdictWordKeyView| #[trigger] words_map(e).contains_key(x) <==> words_map(old_entries).insert(k, v).contains_key(x) by {
                        if words_map(e).contains_key(x) {
                            let j = choose|j: int| 0 <= j < e.len() && #[trigger] key_view(e[j].0) == x;
                            if j != i {
                                assert(key_view(old_entries[j].0) == x);
                            }
                        }
                        if words_map(old_entries).contains_key(x) {
                            let j = choose|j: int| 0 <= j < old_entries.len() && #[trigger] key_view(old_entries[j].0) == x;
                            if j != i {
                                assert(key_view(e[j].0) == x);
                            } else {
                                assert(key_view(e[i as int].0) == x);
                            }
                        }
                        if x == k {
                            assert(key_view(e[i as int].0) == x);
                        }
                    }
                    assert forall|x: JmdictWordKeyView| #[trigger] words_map(e).contains_key(x) implies words_map(e)[x] == words_map(old_entries).insert(k, v)[x] by {
                        let j = choose|j: int| 0 <= j < e.len() && #[trigger] key_view(e[j].0) == x;
                        if x == k {
                            assert(j == i) by {
                                if j != i {
                                    assert(key_view(e[j].0) == key_view(e[i as int].0));
                                }
                            }
                        } else {
                            assert(j != i);
                            let j2 = choose|j2: int| 0 <= j2 < old_entries.len() && #[trigger] key_view(old_entries[j2].0) == x;
                            assert(j2 == j) by {
                                if j2 != j {
                                    assert(key_view(old_entries[j].0) == x);
                                }
                            }
                        }
                    }
                }
            }
        } else {
            self.jmdict_words.push((key, val));
            proof {
                let e = self.jmdict_words@;
                assert(e =~= old_entries.push((key, val)));
                assert forall|a: int, b: int| 0 <= a < b < e.len() implies key_view(#[trigger] e[a].0) != key_view(#[trigger] e[b].0) by {
                    if b < old_entries.len() {
                        assert(key_view(old_entries[a].0) != key_view(old_entries[b].0));
                    } else {
                        assert(key_view(old_entries[a].0) != k);
                    }
                }
                assert(words_map(e) =~= words_map(old_entries).insert(k, v)) by {
                    let n = old_entries.len() as int;
                    assert forall|x: JmdictWordKeyView| #[trigger] words_map(e).contains_key(x) <==> words_map(old_entries).insert(k, v).contains_key(x) by {
                        if words_map(e).contains_key(x) {
                            let j = choose|j: int| 0 <= j < e.len() && #[trigger] key_view(e[j].0) == x;
                            if j < n {
                                assert(key_view(old_entries[j].0) == x);
                            }
                        }
                        if words_map(old_entries).contains_key(x) {
                            let j = choose|j: int| 0 <= j < old_entries.len() && #[trigger] key_view(old_entries[j].0) == x;
                            assert(key_view(e[j].0) == x);
                        }
                        if x == k {
                            assert(key_view(e[n].0) == x);
                        }
                    }
                    assert forall|x: JmdictWordKeyView| #[trigger] words_map(e).contains_key(x) implies words_map(e)[x] == words_map(old_entries).insert(k, v)[x] by {
                        let j = choose|j: int| 0 <= j < e.len() && #[trigger] key_view(e[j].0) == x;
                        if x == k {
                            assert(j == n) by {
                                if j < n {
                                    assert(key_view(old_entries[j].0) == k);
                                }
                            }
                        } else {
                            assert(j < n);
                            let j2 = choose|j2: int| 0 <= j2 < old_entries.len() && #[trigger] key_view(old_entries[j2].0) == x;
                            assert(j2 == j) by {
                                if j2 != j {
                                    assert(key_view(old_entries[j].0) == x);
                                }
                            }
                        }
                    }
                }
            }
        }
        if found.is_none() {
            positions.push(i);
        }
        let ghost new_ps = positions@;
        self.by_entry.insert(jmdict_id, positions);
        proof {
            let e = self.jmdict_words@;
            let idx = self.by_entry@;
            assert(idx.contains_key(jmdict_id) && idx[jmdict_id]@ == new_ps);
            assert(forall|id: i32| id != jmdict_id ==> (#[trigger] idx.contains_key(id) <==> old_index.contains_key(id)));
            assert(forall|id: i32| id != jmdict_id && idx.contains_key(id) ==> #[trigger] idx[id] == old_index[id]);
            if i == old_entries.len() {
                assert(e.len() == old_entries.len() + 1);
                assert(e[i as int] == (key, val));
                assert(new_ps == ps.push(i));
            } else {
                assert(e.len() == old_entries.len());
                assert(new_ps == ps);
                assert(e[i as int].0.jmdict_id == old_entries[i as int].0.jmdict_id);
                assert(indexed(old_index, jmdict_id, i as int));
            }
            assert forall|a: int| 0 <= a < e.len() implies #[trigger] indexed(idx, e[a].0.jmdict_id, a) by {
                if a == i {
                    if i == old_entries.len() {
                        assert(new_ps[ps.len() as int] == a as usize);
                    } else {
                        assert(indexed(old_index, old_entries[a].0.jmdict_id, a));
                    }
                } else {
                    assert(e[a] == old_entries[a]);
                    assert(indexed(old_index, old_entries[a].0.jmdict_id, a));
                    if old_entries[a].0.jmdict_id == jmdict_id {
                        let m = choose|m: int| 0 <= m < old_index[jmdict_id]@.len() && old_index[jmdict_id]@[m] == a as usize;
                        assert(new_ps[m] == a as usize);
                    }
                }
            }
            assert forall|id: i32, m: int|
                idx.contains_key(id) && 0 <= m < idx[id]@.len() implies (#[trigger] idx[id]@[m]) < e.len()
                    && e[idx[id]@[m] as int].0.jmdict_id == id by {
                if id == jmdict_id {
                    if m < ps.len() {
                        assert(new_ps[m] == ps[m]);
                        assert(old_index[jmdict_id]@[m] == ps[m]);
                        let p = ps[m] as int;
                        if p != i {
                            assert(e[p] == old_entries[p]);
                        }
                    }
                } else {
                    assert(idx[id] == old_index[id]);
                    let p = old_index[id]@[m] as int;
                    assert(p != i) by {
                        if p == i {
                            assert(old_entries[p].0.jmdict_id == id);
                        }
                    }
                    assert(e[p] == old_entries[p]);
                }
            }
        }
    }

    /// The words with their keys, each key once.
    pub fn into_entries(self) -> (entries: Vec<(JmdictWordKey, JmdictWordVal)>)
        requires
            self.wf(),
        ensures
            distinct_keys(entries@),
            words_map(entries@) == self@,
    {
        self.jmdict_words
    }
}

// ---------------------------------------------------------------------------------------------
// Kanji
// ---------------------------------------------------------------------------------------------

/// A reading of a kanji in KANJIDIC, of some type (`ja_on`, `ja_kun`, a reading in another
/// language...). A kun reading may mark where its okurigana begins with a dot.
pub struct KanjiReadingText {
    pub r_type: String,
    pub text: String,
}

/// A meaning of a kanji in some language (English when none is given).
pub struct KanjiMeaning {
    pub m_lang: Option<String>,
    pub text: String,
}

/// A group of readings and meanings of a kanji.
pub struct RmGroup {
    pub reading: Vec<KanjiReadingText>,
    pub meaning: Vec<KanjiMeaning>,
}

/// The readings and meanings of a kanji, with its readings in names.
pub struct ReadingMeaning {
    pub rmgroup: Vec<RmGroup>,
    pub nanori: Vec<String>,
}

/// A kanji of KANJIDIC.
pub struct Character {
    pub literal: String,
    pub reading_meaning: Option<ReadingMeaning>,
}

/// A row of the kanji readings table to create.
pub struct NewKanjiReading {
    pub reading: String,
    pub okurigana: Option<String>,
    pub nanori: bool,
}

pub struct NewKanjiReadingView {
    pub reading: Seq<char>,
    pub okurigana: Option<Seq<char>>,
    pub nanori: bool,
}

impl View for NewKanjiReading {
    type V = NewKanjiReadingView;

    open spec fn view(&self) -> NewKanjiReadingView {
        NewKanjiReadingView { reading: self.reading@, okurigana: crate::api::opt_view(self.okurigana), nanori: self.nanori }
    }
}

/// The index of the first `c` in `s`, if `s` holds one.
pub open spec fn first_index_of(s: Seq<char>, c: char) -> Option<int>
    decreases s.len(),
{
    if s.len() == 0 {
        None
    } else if s[0] == c {
        Some(0)
    } else {
        match first_index_of(s.drop_first(), c) {
            Some(i) => Some(i + 1),
            None => None,
        }
    }
}

/// A reading split where its okurigana begins: the part before the first dot, and the part
/// after it if there is a dot.
pub open spec fn split_okurigana_spec(reading: Seq<char>) -> (Seq<char>, Option<Seq<char>>) {
    match first_index_of(reading, '.') {
        Some(i) => (reading.take(i), Some(reading.skip(i + 1))),
        None => (reading, None),
    }
}

proof fn lemma_first_index_of(s: Seq<char>, c: char)
    ensures
        match first_index_of(s, c) {
            Some(i) => 0 <= i < s.len() && s[i] == c && forall|j: int| 0 <= j < i ==> s[j] != c,
            None => forall|j: int| 0 <= j < s.len() ==> s[j] != c,
        },
    decreases s.len(),
{
    if s.len() > 0 {
        lemma_first_index_of(s.drop_first(), c);
        assert forall|j: int| 0 < j < s.len() implies s[j] == s.drop_first()[j - 1] by {}
    }
}

/// A reading split where its okurigana begins can be joined again: the part before and the
/// part after, with a dot between them, give the reading back, and the part before holds no
/// dot. A reading without a dot is kept whole.
pub proof fn lemma_split_okurigana_rejoins(reading: Seq<char>)
    ensures
        match split_okurigana_spec(reading) {
            (r, Some(o)) => r + seq!['.'] + o == reading && !r.contains('.'),
            (r, None) => r == reading && !reading.contains('.'),
        },
{
    lemma_first_index_of(reading, '.');
    match first_index_of(reading, '.') {
        Some(i) => {
            assert(reading.take(i) + seq!['.'] + reading.skip(i + 1) =~= reading);
            assert(!reading.take(i).contains('.')) by {
                if reading.take(i).contains('.') {
                    let j = choose|j: int| 0 <= j < reading.take(i).len() && reading.take(i)[j] == '.';
                    assert(reading[j] == '.');
                }
            }
        },
        None => {
            assert(!reading.contains('.')) by {
                if reading.contains('.') {
                    let j = choose|j: int| 0 <= j < reading.len() && reading[j] == '.';
                }
            }
        },
    }
}

/// Splits the text at the first dot with `str::split_once` of std, which returns the parts before
/// and after the first occurrence of the delimiter, or `None` when the text holds none.
#[verifier::external_body]
fn split_once_dot(text: &str) -> (parts: Option<(String, String)>)
    ensures
        match first_index_of(text@, '.') {
            Some(i) => parts matches Some((a, b)) && a@ == text@.take(i) && b@ == text@.skip(i + 1),
            None => parts is None,
        },
{
    text.split_once('.').map(|(a, b)| (a.to_string(), b.to_string()))
}

/// Splits a reading where its okurigana begins.
pub fn split_okurigana(reading: &str) -> (split: (String, Option<String>))
    ensures
        (split.0@, crate::api::opt_view(split.1)) == split_okurigana_spec(reading@),
{
    match split_once_dot(reading) {
        Some((r, o)) => (r, Some(o)),
        None => (reading.to_string(), None),
    }
}

/// The rows of a kanji's groups, one group after the other.
pub open spec fn rm_readings(groups: Seq<RmGroup>) -> Seq<KanjiReadingText>
    decreases groups.len(),
{
    if groups.len() == 0 {
        seq![]
    } else {
        rm_readings(groups.drop_last()) + groups.last().reading@
    }
}

pub open spec fn rm_meanings(groups: Seq<RmGroup>) -> Seq<KanjiMeaning>
    decreases groups.len(),
{
    if groups.len() == 0 {
        seq![]
    } else {
        rm_meanings(groups.drop_last()) + groups.last().meaning@
    }
}

/// The English meanings among `ms`.
pub open spec fn english_meanings(ms: Seq<KanjiMeaning>) -> Seq<Seq<char>>
    decreases ms.len(),
{
    if ms.len() == 0 {
        seq![]
    } else {
        english_meanings(ms.drop_last()) + if ms.last().m_lang is None {
            seq![ms.last().text@]
        } else {
            seq![]
        }
    }
}

/// The English meanings of a kanji, group by group.
pub open spec fn kanji_meanings_spec(c: Character) -> Seq<Seq<char>> {
    match c.reading_meaning {
        Some(rm) => english_meanings(rm_meanings(rm.rmgroup@)),
        None => seq![],
    }
}

/// Whether a reading is an on or a kun reading of Japanese.
pub open spec fn is_japanese_reading(r: KanjiReadingText) -> bool {
    r.r_type@ == "ja_on"@ || r.r_type@ == "ja_kun"@
}

/// The rows for the on and kun readings among `rs`, split where their okurigana begins.
pub open spec fn reading_rows(rs: Seq<KanjiReadingText>) -> Seq<NewKanjiReadingView>
    decreases rs.len(),
{
    if rs.len() == 0 {
        seq![]
    } else {
        reading_rows(rs.drop_last()) + if is_japanese_reading(rs.last()) {
            let (r, o) = split_okurigana_spec(rs.last().text@);
            seq![NewKanjiReadingView { reading: r, okurigana: o, nanori: false }]
        } else {
            seq![]
        }
    }
}

/// The rows of the readings of a kanji: its on and kun readings, then its readings in names.
pub open spec fn kanji_readings_spec(c: Character) -> Seq<NewKanjiReadingView> {
    match c.reading_meaning {
        Some(rm) => reading_rows(rm_readings(rm.rmgroup@)) + strings_view(rm.nanori@).map_values(
            |n: Seq<char>| NewKanjiReadingView { reading: n, okurigana: None, nanori: true },
        ),
        None => seq![],
    }
}

/// The English meanings of a kanji.
pub fn kanji_meanings(kanji: &Character) -> (meanings: Vec<String>)
    ensures
        strings_view(meanings@) == kanji_meanings_spec(*kanji),
{
    let mut meanings: Vec<String> = Vec::new();
    if let Some(rm) = &kanji.reading_meaning {
        let mut g: usize = 0;
        while g < rm.rmgroup.len()
            invariant
                g <= rm.rmgroup.len(),
                strings_view(meanings@) == english_meanings(rm_meanings(rm.rmgroup@.take(g as int))),
            decreases rm.rmgroup.len() - g,
        {
            let group = &rm.rmgroup[g];
            let ghost base = rm_meanings(rm.rmgroup@.take(g as int));
            proof {
                let t = rm.rmgroup@.take(g + 1);
                assert(t.drop_last() =~= rm.rmgroup@.take(g as int));
                assert(t.last() == *group);
            }
            let mut k: usize = 0;
            while k < group.meaning.len()
                invariant
                    k <= group.meaning.len(),
                    strings_view(meanings@) == english_meanings(base + group.meaning@.take(k as int)),
                decreases group.meaning.len() - k,
            {
                let ghost prev = meanings@;
                let m = &group.meaning[k];
                proof {
                    let t = base + group.meaning@.take(k + 1);
                    assert(t.drop_last() =~= base + group.meaning@.take(k as int));
                    assert(t.last() == *m);
                }
                if m.m_lang.is_none() {
                    meanings.push(m.text.clone());
                    assert(strings_view(meanings@) =~= strings_view(prev).push(m.text@));
                }
                k += 1;
            }
            assert(base + group.meaning@.take(group.meaning.len() as int) =~= base + group.meaning@);
            g += 1;
        }
        assert(rm.rmgroup@.take(rm.rmgroup.len() as int) =~= rm.rmgroup@);
    }
    meanings
}

/// The rows of the readings of a kanji: its on and kun readings, split where their okurigana
/// begins, then its readings in names.
pub fn kanji_readings(kanji: &Character) -> (rows: Vec<NewKanjiReading>)
    ensures
        rows@.map_values(|r: NewKanjiReading| r@) == kanji_readings_spec(*kanji),
{
    let mut rows: Vec<NewKanjiReading> = Vec::new();
    if let Some(rm) = &kanji.reading_meaning {
        let mut g: usize = 0;
        while g < rm.rmgroup.len()
            invariant
                g <= rm.rmgroup.len(),
                rows@.map_values(|r: NewKanjiReading| r@) == reading_rows(rm_readings(rm.rmgroup@.take(g as int))),
            decreases rm.rmgroup.len() - g,
        {
            let group = &rm.rmgroup[g];
            let ghost base = rm_readings(rm.rmgroup@.take(g as int));
            proof {
                let t = rm.rmgroup@.take(g + 1);
                assert(t.drop_last() =~= rm.rmgroup@.take(g as int));
                assert(t.last() == *group);
            }
            let mut k: usize = 0;
            while k < group.reading.len()
                invariant
                    k <= group.reading.len(),
                    rows@.map_values(|r: NewKanjiReading| r@) == reading_rows(base + group.reading@.take(k as int)),
                decreases group.reading.len() - k,
            {
                let ghost prev = rows@;
                let r = &group.reading[k];
                proof {
                    let t = base + group.reading@.take(k + 1);
                    assert(t.drop_last() =~= base + group.reading@.take(k as int));
                    assert(t.last() == *r);
                }
                if crate::text::str_eq(r.r_type.as_str(), "ja_on") || crate::text::str_eq(r.r_type.as_str(), "ja_kun") {
                    let (reading, okurigana) = split_okurigana(r.text.as_str());
                    let row = NewKanjiReading { reading, okurigana, nanori: false };
                    rows.push(row);
                    assert(rows@.map_values(|r: NewKanjiReading| r@) =~= prev.map_values(|r: NewKanjiReading| r@).push(row@));
                }
                k += 1;
            }
            assert(base + group.reading@.take(group.reading.len() as int) =~= base + group.reading@);
            g += 1;
        }
        assert(rm.rmgroup@.take(rm.rmgroup.len() as int) =~= rm.rmgroup@);
        let ghost base = rows@.map_values(|r: NewKanjiReading| r@);
        let mut n: usize = 0;
        while n < rm.nanori.len()
            invariant
                n <= rm.nanori.len(),
                rows@.map_values(|r: NewKanjiReading| r@) == base + strings_view(rm.nanori@).take(n as int).map_values(
                    |n: Seq<char>| NewKanjiReadingView { reading: n, okurigana: None, nanori: true },
                ),
            decreases rm.nanori.len() - n,
        {
            let ghost prev = rows@;
            let row = NewKanjiReading { reading: rm.nanori[n].clone(), okurigana: None, nanori: true };
            rows.push(row);
            proof {
                assert(rows@.map_values(|r: NewKanjiReading| r@) =~= prev.map_values(|r: NewKanjiReading| r@).push(row@));
                assert(strings_view(rm.nanori@).take(n + 1) =~= strings_view(rm.nanori@).take(n as int).push(rm.nanori@[n as int]@));
            }
            n += 1;
        }
        assert(strings_view(rm.nanori@).take(rm.nanori.len() as int) =~= strings_view(rm.nanori@));
    }
    rows
}

/// The value of the key `k`: that of its last row, as a map collected from the rows holds it.
pub open spec fn value_of<T>(rows: Seq<(String, T)>, k: Seq<char>) -> Option<T>
    decreases rows.len(),
{
    if rows.len() == 0 {
        None
    } else if rows.last().0@ == k {
        Some(rows.last().1)
    } else {
        value_of(rows.drop_last(), k)
    }
}

/// The id of the kanji `k` among the `(kanji, id)` rows.
pub open spec fn kanji_id_of(rows: Seq<(String, i32)>, k: Seq<char>) -> Option<i32> {
    value_of(rows, k)
}

/// Looks up the value of a key among the `(key, value)` rows: that of its last row.
pub fn lookup<'a, T>(rows: &'a Vec<(String, T)>, k: &str) -> (v: Option<&'a T>)
    ensures
        match v {
            Some(v) => value_of(rows@, k@) == Some(*v),
            None => value_of(rows@, k@) is None,
        },
{
    let mut i: usize = rows.len();
    assert(rows@.take(i as int) =~= rows@);
    while i > 0
        invariant
            i <= rows.len(),
            value_of(rows@, k@) == value_of(rows@.take(i as int), k@),
        decreases i,
    {
        let ghost t = rows@.take(i as int);
        assert(t.drop_last() =~= rows@.take(i - 1));
        assert(t.last() == rows@[i - 1]);
        if crate::text::str_eq(rows[i - 1].0.as_str(), k) {
            return Some(&rows[i - 1].1);
        }
        i -= 1;
    }
    None
}

/// Looks up the id of a kanji among the `(kanji, id)` rows.
pub fn find_kanji_id(rows: &Vec<(String, i32)>, k: &str) -> (id: Option<i32>)
    ensures
        id == kanji_id_of(rows@, k@),
{
    match lookup(rows, k) {
        Some(id) => Some(*id),
        None => None,
    }
}

/// The pair of two similar kanji, the lower id first.
pub open spec fn ordered_pair(a: i32, b: i32) -> (i32, i32) {
    if a <= b {
        (a, b)
    } else {
        (b, a)
    }
}

/// The pairs of similar kanji of the entries `(kanji, similar kanji)`, entry by entry.
pub open spec fn similar_pairs_spec(entries: Seq<(String, Vec<String>)>, ids: Seq<(String, i32)>) -> Seq<(i32, i32)>
    decreases entries.len(),
{
    if entries.len() == 0 {
        seq![]
    } else {
        let (k, similar) = entries.last();
        similar_pairs_spec(entries.drop_last(), ids) + strings_view(similar@).map_values(
            |s: Seq<char>| ordered_pair(kanji_id_of(ids, k@)->0, kanji_id_of(ids, s)->0),
        )
    }
}

/// Whether every kanji of the entries has an id.
pub open spec fn all_known(entries: Seq<(String, Vec<String>)>, ids: Seq<(String, i32)>) -> bool {
    forall|i: int|
        0 <= i < entries.len() ==> kanji_id_of(ids, (#[trigger] entries[i]).0@) is Some && forall|j: int|
            0 <= j < entries[i].1@.len() ==> kanji_id_of(ids, (#[trigger] entries[i].1@[j])@) is Some
}

/// The rows of the similar kanji table for the entries `(kanji, similar kanji)`: one pair of ids
/// per similar kanji, the lower id first. Every kanji must have an id; the server stops on one
/// that has none.
pub fn similar_kanji_pairs(entries: &Vec<(String, Vec<String>)>, kanji_to_id: &Vec<(String, i32)>) -> (pairs: Vec<(i32, i32)>)
    requires
        all_known(entries@, kanji_to_id@),
    ensures
        pairs@ == similar_pairs_spec(entries@, kanji_to_id@),
{
    let mut pairs: Vec<(i32, i32)> = Vec::new();
    let mut e: usize = 0;
    while e < entries.len()
        invariant
            e <= entries.len(),
            all_known(entries@, kanji_to_id@),
            pairs@ == similar_pairs_spec(entries@.take(e as int), kanji_to_id@),
        decreases entries.len() - e,
    {
        let (kanji, similar) = (&entries[e].0, &entries[e].1);
        proof {
            let t = entries@.take(e + 1);
            assert(t.drop_last() =~= entries@.take(e as int));
            assert(t.last() == entries@[e as int]);
            assert(kanji_id_of(kanji_to_id@, entries@[e as int].0@) is Some);
        }
        let kanji_id = match find_kanji_id(kanji_to_id, kanji.as_str()) {
            Some(id) => id,
            None => {
                return pairs;
            },
        };
        let ghost base = pairs@;
        let mut k: usize = 0;
        while k < similar.len()
            invariant
                k <= similar.len(),
                e < entries.len(),
                similar == &entries@[e as int].1,
                all_known(entries@, kanji_to_id@),
                Some(kanji_id) == kanji_id_of(kanji_to_id@, entries@[e as int].0@),
                pairs@ == base + strings_view(similar@).take(k as int).map_values(
                    |s: Seq<char>| ordered_pair(kanji_id, kanji_id_of(kanji_to_id@, s)->0),
                ),
            decreases similar.len() - k,
        {
            assert(kanji_id_of(kanji_to_id@, entries@[e as int].1@[k as int]@) is Some);
            let similar_id = match find_kanji_id(kanji_to_id, similar[k].as_str()) {
                Some(id) => id,
                None => {
                    return pairs;
                },
            };
            let pair = if kanji_id <= similar_id {
                (kanji_id, similar_id)
            } else {
                (similar_id, kanji_id)
            };
            let ghost prev = pairs@;
            pairs.push(pair);
            proof {
                assert(pairs@ =~= prev.push(pair));
                assert(strings_view(similar@).take(k + 1) =~= strings_view(similar@).take(k as int).push(similar@[k as int]@));
            }
            k += 1;
        }
        assert(strings_view(similar@).take(similar.len() as int) =~= strings_view(similar@));
        e += 1;
    }
    assert(entries@.take(entries.len() as int) =~= entries@);
    pairs
}

/// The ids of the kanji of a word, or the first of its kanji that has no id.
pub fn word_kanji_ids(kanji: &Vec<String>, kanji_to_id: &Vec<(String, i32)>) -> (ids: Result<Vec<i32>, String>)
    ensures
        match ids {
            Ok(ids) => ids@.len() == kanji@.len() && forall|i: int|
                0 <= i < kanji@.len() ==> Some(#[trigger] ids@[i]) == kanji_id_of(kanji_to_id@, kanji@[i]@),
            Err(k) => exists|i: int|
                0 <= i < kanji@.len() && kanji@[i]@ == k@ && kanji_id_of(kanji_to_id@, k@) is None && forall|j: int|
                    0 <= j < i ==> kanji_id_of(kanji_to_id@, (#[trigger] kanji@[j])@) is Some,
        },
{
    let mut ids: Vec<i32> = Vec::new();
    let mut i: usize = 0;
    while i < kanji.len()
        invariant
            i <= kanji.len(),
            ids@.len() == i,
            forall|j: int| 0 <= j < i ==> Some(#[trigger] ids@[j]) == kanji_id_of(kanji_to_id@, kanji@[j]@),
        decreases kanji.len() - i,
    {
        match find_kanji_id(kanji_to_id, kanji[i].as_str()) {
            Some(id) => {
                ids.push(id);
            },
            None => {
                let missing = kanji[i].clone();
                assert(forall|j: int| 0 <= j < i ==> kanji_id_of(kanji_to_id@, (#[trigger] kanji@[j])@) is Some) by {
                    assert forall|j: int| 0 <= j < i implies kanji_id_of(kanji_to_id@, (#[trigger] kanji@[j])@) is Some by {
                        assert(Some(ids@[j]) == kanji_id_of(kanji_to_id@, kanji@[j]@));
                    }
                }
                return Err(missing);
            },
        }
        i += 1;
    }
    Ok(ids)
}

/// Whether `c` is a kanji, as `wana_kana` counts them: a character of the CJK unified ideographs
/// block from U+4E00 to U+9FAF.
pub open spec fn is_kanji_spec(c: char) -> bool {
    0x4E00 <= (c as u32) <= 0x9FAF
}

/// Calls `wana_kana::utils::is_char_kanji`, which tests whether the character's code point lies
/// between U+4E00 and U+9FAF.
#[verifier::external_body]
fn is_char_kanji(c: char) -> (kanji: bool)
    ensures
        kanji == is_kanji_spec(c),
{
    wana_kana::utils::is_char_kanji(c)
}

/// The number of kanji in `s`.
pub open spec fn kanji_count(s: Seq<char>) -> nat
    decreases s.len(),
{
    if s.len() == 0 {
        0
    } else {
        kanji_count(s.drop_last()) + if is_kanji_spec(s.last()) {
            1nat
        } else {
            0nat
        }
    }
}

proof fn lemma_kanji_count_bound(s: Seq<char>)
    ensures
        kanji_count(s) <= s.len(),
    decreases s.len(),
{
    if s.len() > 0 {
        lemma_kanji_count_bound(s.drop_last());
    }
}

/// The key by which the words of a kanji are listed: words with fewer kanji first, and among
/// those, shorter words first.
pub open spec fn word_sort_key_spec(word: Seq<char>) -> int {
    kanji_count(word) * 10000 + crate::text::utf8_len(word)
}

proof fn lemma_utf8_len_bound(s: Seq<char>)
    ensures
        s.len() <= crate::text::utf8_len(s),
    decreases s.len(),
{
    if s.len() > 0 {
        lemma_utf8_len_bound(s.drop_first());
        assert(vstd::utf8::encode_scalar(s[0] as u32).len() >= 1);
    }
}

/// The key by which the words of a kanji are listed: the number of kanji of the word times ten
/// thousand, plus its length in bytes.
pub fn word_sort_key(word: &str) -> (key: u128)
    ensures
        key == word_sort_key_spec(word@),
{
    let byte_len = word.as_bytes().len();
    proof {
        lemma_utf8_len_bound(word@);
        assert(crate::text::utf8_len(word@) == byte_len);
    }
    let mut n: u64 = 0;
    for c in it: word.chars()
        invariant
            it.seq() == word@,
            word@.len() <= byte_len,
            byte_len <= usize::MAX,
            n == kanji_count(it.seq().take(it.index() as int)),
            n <= it.index(),
    {
        proof {
            let t = it.seq().take(it.index() + 1);
            assert(t.drop_last() =~= it.seq().take(it.index() as int));
        }
        if is_char_kanji(c) {
            n += 1;
        }
    }
    assert(word@.take(word@.len() as int) =~= word@);
    n as u128 * 10000 + byte_len as u128
}

// ---------------------------------------------------------------------------------------------
// Updating the words
// ---------------------------------------------------------------------------------------------

/// The furigana stored with a dictionary word: its reading mapped onto it, or none when the
/// mapping fails (no mapping, or a part too long to index).
pub fn word_furigana(word: &str, reading: &str, kanji_to_readings: &HashMap<String, Vec<String>>) -> (furigana: Vec<DbFurigana>)
    ensures
        furigana@ == match chosen_conversion(furigana_candidates(word@, reading@, kanji_to_readings.deep_view())) {
            Some(Conversion::Converted(fs)) => fs,
            _ => seq![],
        },
{
    match try_map_to_db_furigana(word, reading, kanji_to_readings) {
        Some(Ok(furigana)) => furigana,
        _ => Vec::new(),
    }
}

/// The words of the database that the dictionary no longer holds: the ids among `existing` that
/// were not kept, each once, in the order of their first occurrence.
pub fn stale_word_ids(existing: &Vec<i32>, kept: &HashSet<i32>) -> (stale: Vec<i32>)
    ensures
        stale@.no_duplicates(),
        forall|id: i32| #[trigger] stale@.contains(id) <==> (existing@.contains(id) && !kept@.contains(id)),
{
    let mut stale: Vec<i32> = Vec::new();
    let mut seen: HashSet<i32> = HashSet::new();
    let mut i: usize = 0;
    while i < existing.len()
        invariant
            i <= existing.len(),
            stale@.no_duplicates(),
            forall|id: i32| #[trigger] seen@.contains(id) <==> existing@.take(i as int).contains(id),
            forall|id: i32| #[trigger] stale@.contains(id) <==> (existing@.take(i as int).contains(id) && !kept@.contains(id)),
        decreases existing.len() - i,
    {
        let id = existing[i];
        let ghost prev = stale@;
        let ghost before = existing@.take(i as int);
        let ghost after = existing@.take(i + 1);
        proof {
            assert forall|x: i32| after.contains(x) <==> before.contains(x) || x == id by {
                if after.contains(x) {
                    let k = choose|k: int| 0 <= k < after.len() && after[k] == x;
                    if k < before.len() {
                        assert(before[k] == x);
                    }
                }
                if before.contains(x) {
                    let k = choose|k: int| 0 <= k < before.len() && before[k] == x;
                    assert(after[k] == x);
                }
                assert(after[i as int] == id);
            }
        }
        if !seen.contains(&id) {
            seen.insert(id);
            if !kept.contains(&id) {
                stale.push(id);
                proof {
                    assert forall|a: int, b: int| 0 <= a < b < stale@.len() implies stale@[a] != stale@[b] by {
                        if b == prev.len() {
                            assert(prev.contains(stale@[a]));
                        }
                    }
                    assert forall|x: i32| #[trigger] stale@.contains(x) <==> prev.contains(x) || x == id by {
                        if stale@.contains(x) {
                            let k = choose|k: int| 0 <= k < stale@.len() && stale@[k] == x;
                            if k < prev.len() {
                                assert(prev[k] == x);
                            }
                        }
                        if prev.contains(x) {
                            let k = choose|k: int| 0 <= k < prev.len() && prev[k] == x;
                            assert(stale@[k] == x);
                        }
                        assert(stale@[prev.len() as int] == id);
                    }
                }
            }
        }
        i += 1;
    }
    assert(existing@.take(existing.len() as int) =~= existing@);
    stale
}

// ---------------------------------------------------------------------------------------------
// Updating the kanji and the words
// ---------------------------------------------------------------------------------------------

/// A kanji that KANJIDIC lacks, kept in a file of its own.
pub struct ExtraKanji {
    pub chara: String,
    pub meanings: Vec<String>,
    pub components: Vec<String>,
    pub readings: Vec<String>,
}

/// The readings of an extra kanji, each split where its okurigana begins.
pub fn extra_kanji_readings(kanji: &ExtraKanji) -> (rows: Vec<(String, Option<String>)>)
    ensures
        rows@.map_values(|r: (String, Option<String>)| (r.0@, crate::api::opt_view(r.1))) == strings_view(kanji.readings@).map_values(
            |r: Seq<char>| split_okurigana_spec(r),
        ),
{
    let mut rows: Vec<(String, Option<String>)> = Vec::new();
    let mut i: usize = 0;
    while i < kanji.readings.len()
        invariant
            i <= kanji.readings.len(),
            rows@.map_values(|r: (String, Option<String>)| (r.0@, crate::api::opt_view(r.1))) == strings_view(kanji.readings@).take(i as int).map_values(
                |r: Seq<char>| split_okurigana_spec(r),
            ),
        decreases kanji.readings.len() - i,
    {
        let ghost prev = rows@;
        let row = split_okurigana(kanji.readings[i].as_str());
        rows.push(row);
        proof {
            assert(rows@.map_values(|r: (String, Option<String>)| (r.0@, crate::api::opt_view(r.1))) =~= prev.map_values(|r: (String, Option<String>)| (r.0@, crate::api::opt_view(r.1))).push(split_okurigana_spec(kanji.readings@[i as int]@)));
            assert(strings_view(kanji.readings@).take(i + 1) =~= strings_view(kanji.readings@).take(i as int).push(kanji.readings@[i as int]@));
        }
        i += 1;
    }
    assert(strings_view(kanji.readings@).take(kanji.readings.len() as int) =~= strings_view(kanji.readings@));
    rows
}

/// A copy of the strings.
pub fn copy_strings(ts: &Vec<String>) -> (c: Vec<String>)
    ensures
        strings_view(c@) == strings_view(ts@),
{
    let mut c: Vec<String> = Vec::new();
    let mut i: usize = 0;
    while i < ts.len()
        invariant
            i <= ts.len(),
            strings_view(c@) == strings_view(ts@).take(i as int),
        decreases ts.len() - i,
    {
        let ghost prev = c@;
        c.push(ts[i].clone());
        assert(strings_view(c@) =~= strings_view(prev).push(ts@[i as int]@));
        assert(strings_view(ts@).take(i + 1) =~= strings_view(ts@).take(i as int).push(ts@[i as int]@));
        i += 1;
    }
    assert(strings_view(ts@).take(ts.len() as int) =~= strings_view(ts@));
    c
}

/// The components of a kanji among the `(kanji, components)` rows: those of its last row, none
/// if it has no row.
pub fn kanji_components(rows: &Vec<(String, Vec<String>)>, kanji: &str) -> (components: Vec<String>)
    ensures
        strings_view(components@) == match value_of(rows@, kanji@) {
            Some(cs) => strings_view(cs@),
            None => seq![],
        },
{
    match lookup(rows, kanji) {
        Some(cs) => copy_strings(cs),
        None => Vec::new(),
    }
}

/// The name of a kanji among the `(kanji, name)` rows of the names file.
pub fn kanji_name(names: &Vec<(String, String)>, kanji: &str) -> (name: Option<String>)
    ensures
        crate::api::opt_view(name) == match value_of(names@, kanji@) {
            Some(n) => Some(n@),
            None => None,
        },
{
    match lookup(names, kanji) {
        Some(n) => Some(n.clone()),
        None => None,
    }
}

/// The dictionary's words after adding the words of an entry: each word under its entry, its
/// written form and its reading in the standard form, which `standardised` gives for each word
/// as `(standard form, hiragana)`; a later word under the same key replaces an earlier one.
pub open spec fn insert_forms(
    m: Map<JmdictWordKeyView, JmdictWordValView>,
    jmdict_id: i32,
    forms: Seq<WordFormView>,
    standardised: Seq<(Seq<char>, Seq<char>)>,
) -> Map<JmdictWordKeyView, JmdictWordValView>
    decreases forms.len(),
{
    if forms.len() == 0 {
        m
    } else {
        let f = forms.last();
        let s = standardised[forms.len() - 1];
        insert_forms(m, jmdict_id, forms.drop_last(), standardised).insert(
            (jmdict_id, f.word, s.0),
            (f.reading, s.1, f.translations),
        )
    }
}

/// Adds the words of an entry to the dictionary's words.
pub fn add_entry_words(
    words: &mut JmdictWords,
    jmdict_id: i32,
    forms: &Vec<WordForm>,
    standardised: &Vec<(String, String)>,
)
    requires
        old(words).wf(),
        forms@.len() == standardised@.len(),
    ensures
        final(words).wf(),
        final(words)@ == insert_forms(
            old(words)@,
            jmdict_id,
            forms_view(forms@),
            standardised@.map_values(|s: (String, String)| (s.0@, s.1@)),
        ),
{
    let ghost start = words@;
    let ghost fv = forms_view(forms@);
    let ghost sv = standardised@.map_values(|s: (String, String)| (s.0@, s.1@));
    let mut i: usize = 0;
    while i < forms.len()
        invariant
            i <= forms.len(),
            forms@.len() == standardised@.len(),
            fv == forms_view(forms@),
            sv == standardised@.map_values(|s: (String, String)| (s.0@, s.1@)),
            words.wf(),
            words@ == insert_forms(start, jmdict_id, fv.take(i as int), sv),
        decreases forms.len() - i,
    {
        let f = &forms[i];
        let (standard, hiragana) = (&standardised[i].0, &standardised[i].1);
        proof {
            let t = fv.take(i + 1);
            assert(t.drop_last() =~= fv.take(i as int));
            assert(t.last() == f@);
            assert(sv[t.len() - 1] == (standard@, hiragana@));
        }
        words.insert_new(
            jmdict_id,
            f.word.as_str(),
            f.reading.as_str(),
            standard.clone(),
            hiragana.clone(),
            copy_strings(&f.translations),
        );
        i += 1;
    }
    assert(fv.take(forms.len() as int) =~= fv);
}

/// A row of the words table: `(jmdict_id, id, word, reading_standard)`.
pub type ExistingWord = (i32, i32, String, String);

/// The id of the word of the database under the key, if any: that of its last row.
pub open spec fn existing_word_id(existing: Seq<ExistingWord>, key: JmdictWordKeyView) -> Option<i32>
    decreases existing.len(),
{
    if existing.len() == 0 {
        None
    } else {
        let (jmdict_id, id, word, reading) = existing.last();
        if (jmdict_id, word@, reading@) == key {
            Some(id)
        } else {
            existing_word_id(existing.drop_last(), key)
        }
    }
}

/// Finds the word of the database under the key.
pub fn find_existing_word(existing: &Vec<ExistingWord>, jmdict_id: i32, word: &str, standardised_reading: &str) -> (id: Option<i32>)
    ensures
        id == existing_word_id(existing@, (jmdict_id, word@, standardised_reading@)),
{
    let ghost key = (jmdict_id, word@, standardised_reading@);
    let mut i: usize = existing.len();
    assert(existing@.take(i as int) =~= existing@);
    while i > 0
        invariant
            i <= existing.len(),
            key == (jmdict_id, word@, standardised_reading@),
            existing_word_id(existing@, key) == existing_word_id(existing@.take(i as int), key),
        decreases i,
    {
        let ghost t = existing@.take(i as int);
        assert(t.drop_last() =~= existing@.take(i - 1));
        assert(t.last() == existing@[i - 1]);
        let row = &existing[i - 1];
        if row.0 == jmdict_id && crate::text::str_eq(row.2.as_str(), word) && crate::text::str_eq(row.3.as_str(), standardised_reading) {
            return Some(row.1);
        }
        i -= 1;
    }
    None
}

} // verus!
