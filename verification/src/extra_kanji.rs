//! Keeping the file of extra kanji complete: every kanji that the dictionary's words or the
//! similar-kanji table use, and that KANJIDIC lacks, gets an entry of its own there.
use crate::api::strings_view;
use crate::dictionary::{contains_str, ExtraKanji};
use crate::text::{lemma_bytes_le_total, lemma_bytes_le_transitive, str_le, text_le};
use vstd::prelude::*;
use vstd::utf8::encode_utf8;

verus! {

/// An extra kanji as plain values: `(kanji, meanings, components, readings)`.
pub type ExtraKanjiView = (Seq<char>, Seq<Seq<char>>, Seq<Seq<char>>, Seq<Seq<char>>);

pub open spec fn extra_view(k: ExtraKanji) -> ExtraKanjiView {
    (k.chara@, strings_view(k.meanings@), strings_view(k.components@), strings_view(k.readings@))
}

pub open spec fn extras_view(ks: Seq<ExtraKanji>) -> Seq<ExtraKanjiView> {
    ks.map_values(|k: ExtraKanji| extra_view(k))
}

/// The entry of a kanji of which nothing is known yet.
pub open spec fn blank_entry(k: Seq<char>) -> ExtraKanjiView {
    (k, seq![], seq![], seq![])
}

/// The similar-kanji table as plain values: each kanji with those similar to it.
pub open spec fn similar_view(similar: Seq<(String, Vec<String>)>) -> Seq<(Seq<char>, Seq<Seq<char>>)> {
    similar.map_values(|e: (String, Vec<String>)| (e.0@, strings_view(e.1@)))
}

/// The kanji of the similar-kanji table: each kanji followed by those similar to it.
pub open spec fn similar_table_kanji(similar: Seq<(Seq<char>, Seq<Seq<char>>)>) -> Seq<Seq<char>>
    decreases similar.len(),
{
    if similar.len() == 0 {
        seq![]
    } else {
        similar_table_kanji(similar.drop_last()) + seq![similar.last().0] + similar.last().1
    }
}

/// The kanji that KANJIDIC or the extra entries have.
pub open spec fn known_kanji(kanjidic: Seq<Seq<char>>, extra: Seq<ExtraKanjiView>) -> Set<Seq<char>> {
    kanjidic.to_set().union(extra.map_values(|e: ExtraKanjiView| e.0).to_set())
}

/// The kanji that the dictionary's words or the similar-kanji table use.
pub open spec fn used_kanji(word_kanji: Seq<Seq<char>>, similar: Seq<(Seq<char>, Seq<Seq<char>>)>) -> Set<Seq<char>> {
    (word_kanji + similar_table_kanji(similar)).to_set()
}

/// The kanji that are used but known to neither KANJIDIC nor the extra entries.
pub open spec fn missing_kanji_spec(
    kanjidic: Seq<Seq<char>>,
    word_kanji: Seq<Seq<char>>,
    similar: Seq<(Seq<char>, Seq<Seq<char>>)>,
    extra: Seq<ExtraKanjiView>,
) -> Set<Seq<char>> {
    used_kanji(word_kanji, similar).difference(known_kanji(kanjidic, extra))
}

/// Whether the entries are in the order of their kanji.
pub open spec fn sorted_by_chara(es: Seq<ExtraKanjiView>) -> bool {
    forall|i: int, j: int| 0 <= i < j < es.len() ==> text_le((#[trigger] es[i]).0, (#[trigger] es[j]).0)
}

/// The used kanji, one after the other: those of the words, then those of the similar-kanji
/// table.
fn used_kanji_list(word_kanji: &Vec<String>, similar: &Vec<(String, Vec<String>)>) -> (used: Vec<String>)
    ensures
        strings_view(used@) == strings_view(word_kanji@) + similar_table_kanji(similar_view(similar@)),
{
    let ghost sv = similar_view(similar@);
    let ghost wk = strings_view(word_kanji@);
    let mut used: Vec<String> = Vec::new();
    let mut i: usize = 0;
    while i < word_kanji.len()
        invariant
            i <= word_kanji.len(),
            wk == strings_view(word_kanji@),
            strings_view(used@) == wk.take(i as int),
        decreases word_kanji.len() - i,
    {
        let ghost prev = used@;
        used.push(word_kanji[i].clone());
        assert(strings_view(used@) =~= strings_view(prev).push(word_kanji@[i as int]@));
        assert(wk.take(i + 1) =~= wk.take(i as int).push(word_kanji@[i as int]@));
        i += 1;
    }
    assert(wk.take(word_kanji.len() as int) =~= wk);
    assert(sv.take(0) =~= Seq::<(Seq<char>, Seq<Seq<char>>)>::empty());
    assert(wk + similar_table_kanji(sv.take(0)) =~= wk);
    let mut i: usize = 0;
    while i < similar.len()
        invariant
            i <= similar.len(),
            sv == similar_view(similar@),
            strings_view(used@) == wk + similar_table_kanji(sv.take(i as int)),
        decreases similar.len() - i,
    {
        let ghost prev = used@;
        used.push(similar[i].0.clone());
        let ghost head = strings_view(prev) + seq![similar@[i as int].0@];
        assert(strings_view(used@) =~= head);
        let others = &similar[i].1;
        let mut j: usize = 0;
        while j < others.len()
            invariant
                j <= others.len(),
                strings_view(used@) == head + strings_view(others@).take(j as int),
            decreases others.len() - j,
        {
            let ghost before = used@;
            used.push(others[j].clone());
            assert(strings_view(used@) =~= strings_view(before).push(others@[j as int]@));
            assert(strings_view(others@).take(j + 1) =~= strings_view(others@).take(j as int).push(others@[j as int]@));
            j += 1;
        }
        proof {
            assert(strings_view(others@).take(others.len() as int) =~= strings_view(others@));
            let t = sv.take(i + 1);
            assert(t.drop_last() =~= sv.take(i as int));
            assert(t.last() == (similar@[i as int].0@, strings_view(similar@[i as int].1@)));
            assert(strings_view(used@) =~= wk + similar_table_kanji(t));
        }
        i += 1;
    }
    assert(sv.take(similar.len() as int) =~= sv);
    used
}

/// Whether one of the entries is that of the kanji `k`.
fn has_entry(extra: &Vec<ExtraKanji>, k: &str) -> (found: bool)
    ensures
        found == extras_view(extra@).map_values(|e: ExtraKanjiView| e.0).contains(k@),
{
    let ghost charas = extras_view(extra@).map_values(|e: ExtraKanjiView| e.0);
    let mut i: usize = 0;
    while i < extra.len()
        invariant
            i <= extra.len(),
            charas == extras_view(extra@).map_values(|e: ExtraKanjiView| e.0),
            forall|m: int| 0 <= m < i ==> charas[m] != k@,
        decreases extra.len() - i,
    {
        assert(charas[i as int] == extra@[i as int].chara@);
        if crate::text::str_eq(extra[i].chara.as_str(), k) {
            assert(charas[i as int] == k@);
            return true;
        }
        i += 1;
    }
    false
}

/// The used kanji that neither KANJIDIC nor the extra entries know, each once.
pub fn missing_kanji(
    kanjidic: &Vec<String>,
    word_kanji: &Vec<String>,
    similar: &Vec<(String, Vec<String>)>,
    extra: &Vec<ExtraKanji>,
) -> (missing: Vec<String>)
    ensures
        strings_view(missing@).no_duplicates(),
        strings_view(missing@).to_set() == missing_kanji_spec(
            strings_view(kanjidic@),
            strings_view(word_kanji@),
            similar_view(similar@),
            extras_view(extra@),
        ),
{
    let used = used_kanji_list(word_kanji, similar);
    let ghost uv = strings_view(used@);
    let ghost known = known_kanji(strings_view(kanjidic@), extras_view(extra@));
    let mut missing: Vec<String> = Vec::new();
    let mut i: usize = 0;
    while i < used.len()
        invariant
            i <= used.len(),
            uv == strings_view(used@),
            known == known_kanji(strings_view(kanjidic@), extras_view(extra@)),
            strings_view(missing@).no_duplicates(),
            forall|x: Seq<char>|
                #![trigger strings_view(missing@).contains(x)]
                #![trigger uv.take(i as int).contains(x)]
                strings_view(missing@).contains(x) <==> (uv.take(i as int).contains(x) && !known.contains(x)),
        decreases used.len() - i,
    {
        let k = used[i].as_str();
        let in_kanjidic = contains_str(kanjidic, k);
        let in_extra = has_entry(extra, k);
        let seen = contains_str(&missing, k);
        let ghost prev = strings_view(missing@);
        assert(uv.take(i + 1) =~= uv.take(i as int).push(k@));
        proof {
            let charas = extras_view(extra@).map_values(|e: ExtraKanjiView| e.0);
            assert(strings_view(kanjidic@).to_set().contains(k@) == strings_view(kanjidic@).contains(k@));
            assert(charas.to_set().contains(k@) == charas.contains(k@));
            assert(known.contains(k@) == (in_kanjidic || in_extra));
        }
        if !in_kanjidic && !in_extra && !seen {
            missing.push(used[i].clone());
            proof {
                assert(strings_view(missing@) =~= prev.push(k@));
                assert forall|a: int, b: int| 0 <= a < b < strings_view(missing@).len() implies strings_view(missing@)[a] != strings_view(missing@)[b] by {
                    if b == prev.len() {
                        assert(prev.contains(prev[a]));
                    }
                }
                assert(!known.contains(k@));
            }
        }
        proof {
            assert forall|x: Seq<char>|
                #![trigger strings_view(missing@).contains(x)]
                #![trigger uv.take(i + 1).contains(x)]
                strings_view(missing@).contains(x) <==> (uv.take(i + 1).contains(x) && !known.contains(x)) by {
                let t = uv.take(i + 1);
                let ms = strings_view(missing@);
                assert(prev.contains(x) <==> (uv.take(i as int).contains(x) && !known.contains(x)));
                assert(t[i as int] == k@);
                if ms.len() == prev.len() + 1 {
                    assert(ms[prev.len() as int] == k@);
                    assert(!known.contains(k@));
                } else {
                    assert(ms == prev);
                }
                if t.contains(x) && x != k@ {
                    let w = choose|w: int| 0 <= w < t.len() && t[w] == x;
                    assert(uv.take(i as int)[w] == x);
                }
                if uv.take(i as int).contains(x) {
                    let w = choose|w: int| 0 <= w < i && uv.take(i as int)[w] == x;
                    assert(t[w] == x);
                }
                if ms.contains(x) && x != k@ {
                    let w = choose|w: int| 0 <= w < ms.len() && ms[w] == x;
                    assert(w < prev.len());
                    assert(prev[w] == x);
                }
                if prev.contains(x) {
                    let w = choose|w: int| 0 <= w < prev.len() && prev[w] == x;
                    assert(ms[w] == x);
                }
            }
        }
        let ghost t = uv.take(i + 1);
        i += 1;
        assert(uv.take(i as int) == t);
    }
    proof {
        assert(uv.take(used.len() as int) =~= uv);
        assert(uv == strings_view(word_kanji@) + similar_table_kanji(similar_view(similar@)));
        assert(strings_view(missing@).to_set() =~= missing_kanji_spec(
            strings_view(kanjidic@),
            strings_view(word_kanji@),
            similar_view(similar@),
            extras_view(extra@),
        ));
    }
    missing
}

/// Inserts `x` after every entry whose kanji does not come after its own.
fn insert_by_chara(sorted: &mut Vec<ExtraKanji>, x: ExtraKanji)
    requires
        sorted_by_chara(extras_view(old(sorted)@)),
    ensures
        sorted_by_chara(extras_view(final(sorted)@)),
        extras_view(final(sorted)@).to_multiset() == extras_view(old(sorted)@).to_multiset().insert(extra_view(x)),
{
    let ghost before = extras_view(sorted@);
    let ghost kx = x.chara@;
    let mut pos: usize = 0;
    while pos < sorted.len() && str_le(sorted[pos].chara.as_str(), x.chara.as_str())
        invariant
            pos <= sorted.len(),
            sorted@ == old(sorted)@,
            before == extras_view(sorted@),
            kx == x.chara@,
            forall|i: int| 0 <= i < pos ==> text_le((#[trigger] before[i]).0, kx),
        decreases sorted.len() - pos,
    {
        assert(before[pos as int] == extra_view(sorted@[pos as int]));
        pos += 1;
    }
    proof {
        if pos < sorted.len() {
            assert(before[pos as int] == extra_view(sorted@[pos as int]));
            assert(!text_le(before[pos as int].0, kx));
            lemma_bytes_le_total(encode_utf8(before[pos as int].0), encode_utf8(kx));
        }
    }
    let ghost old_sorted = sorted@;
    sorted.insert(pos, x);
    proof {
        let after = extras_view(sorted@);
        assert(sorted@ =~= old_sorted.insert(pos as int, x));
        assert(after =~= before.insert(pos as int, extra_view(x)));
        assert forall|i: int, j: int| 0 <= i < j < after.len() implies text_le((#[trigger] after[i]).0, (#[trigger] after[j]).0) by {
            if j < pos {
                assert(after[i] == before[i] && after[j] == before[j]);
            } else if j == pos {
                assert(after[i] == before[i]);
            } else if i < pos {
                assert(after[i] == before[i] && after[j] == before[j - 1]);
            } else if i == pos {
                assert(after[j] == before[j - 1]);
                if pos < j - 1 {
                    assert(text_le(before[pos as int].0, before[j - 1].0));
                    lemma_bytes_le_transitive(encode_utf8(kx), encode_utf8(before[pos as int].0), encode_utf8(before[j - 1].0));
                }
            } else {
                assert(after[i] == before[i - 1] && after[j] == before[j - 1]);
            }
        }
        assert(after.remove(pos as int) =~= before);
        after.to_multiset_ensures();
        assert(after[pos as int] == extra_view(x));
        assert(after.to_multiset() =~= before.to_multiset().insert(extra_view(x)));
    }
}

/// The entries in the order of their kanji; entries of the same kanji in some order.
fn sort_by_chara(entries: Vec<ExtraKanji>) -> (sorted: Vec<ExtraKanji>)
    ensures
        sorted_by_chara(extras_view(sorted@)),
        extras_view(sorted@).to_multiset() == extras_view(entries@).to_multiset(),
{
    let ghost all = extras_view(entries@);
    let mut rest = entries;
    let mut sorted: Vec<ExtraKanji> = Vec::new();
    proof {
        extras_view(sorted@).to_multiset_ensures();
        vstd::multiset::lemma_multiset_empty_len(extras_view(sorted@).to_multiset());
        assert(extras_view(rest@) == all);
        assert(all.to_multiset() =~= extras_view(sorted@).to_multiset().add(extras_view(rest@).to_multiset()));
    }
    while rest.len() > 0
        invariant
            sorted_by_chara(extras_view(sorted@)),
            all.to_multiset() == extras_view(sorted@).to_multiset().add(extras_view(rest@).to_multiset()),
        decreases rest.len(),
    {
        let ghost before_rest = extras_view(rest@);
        let x = match rest.pop() {
            Some(x) => x,
            None => {
                return sorted;
            },
        };
        proof {
            assert(before_rest =~= extras_view(rest@).push(extra_view(x)));
            extras_view(rest@).to_multiset_ensures();
            assert(before_rest.to_multiset() =~= extras_view(rest@).to_multiset().insert(extra_view(x)));
        }
        insert_by_chara(&mut sorted, x);
        proof {
            assert(all.to_multiset() =~= extras_view(sorted@).to_multiset().add(extras_view(rest@).to_multiset()));
        }
    }
    proof {
        extras_view(rest@).to_multiset_ensures();
        vstd::multiset::lemma_multiset_empty_len(extras_view(rest@).to_multiset());
        assert(all.to_multiset() =~= extras_view(sorted@).to_multiset());
    }
    sorted
}

/// How many blank entries of the kanji in `added` the entry `v` stands for: one where it is
/// the blank entry of one of them, none otherwise.
pub open spec fn blank_count(v: ExtraKanjiView, added: Set<Seq<char>>) -> int {
    if v == blank_entry(v.0) && added.contains(v.0) {
        1
    } else {
        0
    }
}

/// Gives each used kanji that neither KANJIDIC nor the extra entries know a blank entry, and
/// then puts all the entries in the order of their kanji (entries of the same kanji in some
/// order). Returns whether there was such a kanji; where there was none, the entries stay as
/// they are.
pub fn update_kanji_extra(
    kanjidic: &Vec<String>,
    word_kanji: &Vec<String>,
    similar: &Vec<(String, Vec<String>)>,
    kanji_extra: &mut Vec<ExtraKanji>,
) -> (changed: bool)
    ensures
        changed == exists|k: Seq<char>| missing_kanji_spec(
            strings_view(kanjidic@),
            strings_view(word_kanji@),
            similar_view(similar@),
            extras_view(old(kanji_extra)@),
        ).contains(k),
        !changed ==> final(kanji_extra)@ == old(kanji_extra)@,
        changed ==> sorted_by_chara(extras_view(final(kanji_extra)@)),
        forall|v: ExtraKanjiView| #[trigger] extras_view(final(kanji_extra)@).to_multiset().count(v) == extras_view(old(kanji_extra)@).to_multiset().count(v) + blank_count(
            v,
            missing_kanji_spec(
                strings_view(kanjidic@),
                strings_view(word_kanji@),
                similar_view(similar@),
                extras_view(old(kanji_extra)@),
            ),
        ),
{
    let ghost spec_missing = missing_kanji_spec(
        strings_view(kanjidic@),
        strings_view(word_kanji@),
        similar_view(similar@),
        extras_view(kanji_extra@),
    );
    let missing = missing_kanji(kanjidic, word_kanji, similar, kanji_extra);
    let ghost ms = strings_view(missing@);
    if missing.len() == 0 {
        proof {
            assert forall|k: Seq<char>| !spec_missing.contains(k) by {
                assert(ms.to_set().contains(k) == ms.contains(k));
            }
        }
        return false;
    }
    proof {
        assert(ms.to_set().contains(ms[0]));
    }
    let mut entries: Vec<ExtraKanji> = Vec::new();
    std::mem::swap(&mut entries, kanji_extra);
    let ghost old_entries = extras_view(entries@);
    assert(ms.take(0) =~= Seq::<Seq<char>>::empty());
    let mut i: usize = 0;
    while i < missing.len()
        invariant
            i <= missing.len(),
            ms == strings_view(missing@),
            ms.no_duplicates(),
            forall|v: ExtraKanjiView| #[trigger] extras_view(entries@).to_multiset().count(v) == old_entries.to_multiset().count(v) + blank_count(v, ms.take(i as int).to_set()),
        decreases missing.len() - i,
    {
        let ghost prev = extras_view(entries@);
        let blank = ExtraKanji { chara: missing[i].clone(), meanings: Vec::new(), components: Vec::new(), readings: Vec::new() };
        proof {
            assert(strings_view(blank.meanings@) =~= Seq::<Seq<char>>::empty());
            assert(strings_view(blank.components@) =~= Seq::<Seq<char>>::empty());
            assert(strings_view(blank.readings@) =~= Seq::<Seq<char>>::empty());
            assert(extra_view(blank) == blank_entry(ms[i as int]));
        }
        entries.push(blank);
        proof {
            let b = blank_entry(ms[i as int]);
            assert(extras_view(entries@) =~= prev.push(b));
            prev.to_multiset_ensures();
            let t = ms.take(i + 1);
            assert(t =~= ms.take(i as int).push(ms[i as int]));
            assert(!ms.take(i as int).contains(ms[i as int])) by {
                if ms.take(i as int).contains(ms[i as int]) {
                    let w = choose|w: int| 0 <= w < i && ms.take(i as int)[w] == ms[i as int];
                    assert(ms[w] == ms[i as int]);
                }
            }
            assert forall|v: ExtraKanjiView| #[trigger] extras_view(entries@).to_multiset().count(v) == old_entries.to_multiset().count(v) + blank_count(v, t.to_set()) by {
                assert(extras_view(entries@).to_multiset().count(v) == prev.to_multiset().count(v) + if v == b { 1int } else { 0int });
                let h = ms.take(i as int);
                assert(t[i as int] == ms[i as int]);
                if t.contains(v.0) && v.0 != ms[i as int] {
                    let w = choose|w: int| 0 <= w < t.len() && t[w] == v.0;
                    assert(h[w] == v.0);
                }
                if h.contains(v.0) {
                    let w = choose|w: int| 0 <= w < h.len() && h[w] == v.0;
                    assert(t[w] == v.0);
                }
                assert(t.to_set().contains(v.0) == (h.to_set().contains(v.0) || v.0 == ms[i as int]));
            }
        }
        let ghost t = ms.take(i + 1);
        i += 1;
        assert(ms.take(i as int) == t);
    }
    proof {
        assert(ms.take(missing.len() as int) =~= ms);
    }
    let sorted = sort_by_chara(entries);
    *kanji_extra = sorted;
    true
}

/// Once the entries have gained a blank entry for each missing kanji, as `update_kanji_extra`
/// gives them, no used kanji is missing any more, so that updating them again changes nothing.
pub proof fn lemma_update_leaves_none_missing(
    kanjidic: Seq<Seq<char>>,
    word_kanji: Seq<Seq<char>>,
    similar: Seq<(Seq<char>, Seq<Seq<char>>)>,
    before: Seq<ExtraKanjiView>,
    after: Seq<ExtraKanjiView>,
)
    requires
        forall|v: ExtraKanjiView| #[trigger] after.to_multiset().count(v) == before.to_multiset().count(v) + blank_count(
            v,
            missing_kanji_spec(kanjidic, word_kanji, similar, before),
        ),
    ensures
        forall|k: Seq<char>| !missing_kanji_spec(kanjidic, word_kanji, similar, after).contains(k),
{
    let missing = missing_kanji_spec(kanjidic, word_kanji, similar, before);
    before.to_multiset_ensures();
    after.to_multiset_ensures();
    assert forall|k: Seq<char>| !missing_kanji_spec(kanjidic, word_kanji, similar, after).contains(k) by {
        let after_charas = after.map_values(|e: ExtraKanjiView| e.0);
        let before_charas = before.map_values(|e: ExtraKanjiView| e.0);
        if missing.contains(k) {
            let b = blank_entry(k);
            assert(after.to_multiset().count(b) == before.to_multiset().count(b) + blank_count(b, missing));
            assert(after.contains(b));
            let w = choose|w: int| 0 <= w < after.len() && after[w] == b;
            assert(after_charas[w] == k);
            assert(after_charas.to_set().contains(k));
        } else if used_kanji(word_kanji, similar).contains(k) && !kanjidic.to_set().contains(k) {
            assert(before_charas.to_set().contains(k));
            let w = choose|w: int| 0 <= w < before_charas.len() && before_charas[w] == k;
            let e = before[w];
            assert(before.contains(e));
            assert(after.to_multiset().count(e) == before.to_multiset().count(e) + blank_count(e, missing));
            assert(after.contains(e));
            let x = choose|x: int| 0 <= x < after.len() && after[x] == e;
            assert(after_charas[x] == k);
            assert(after_charas.to_set().contains(k));
        }
    }
}

} // verus!
