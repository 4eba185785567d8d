//! Mapping ichiran's dictionary entries to LBR word ids.
//!
//! Ichiran identifies words by a sequence number (`seq`). Conjugated forms have their own
//! sequence numbers and are linked to the forms they were derived from through the
//! conjugation table. The mapping follows these links down to the root entries, whose
//! sequence numbers coincide with JMdict ids, and maps the starting entry together with
//! the written form and standardised reading of each root word to the LBR word id.
use std::collections::{HashMap, HashSet};
use vstd::prelude::*;

verus! {

broadcast use vstd::std_specs::hash::group_hash_axioms;

/// A row of ichiran's entry table: `(seq, root_p)`.
pub type EntryRow = (i32, bool);

/// A row of ichiran's conjugation table: `(seq, via, from)`.
pub type ConjugationRow = (i32, Option<i32>, i32);

/// A row of LBR's word table: `(jmdict_id, id, word, reading_standard)`.
pub type WordRow = (i32, i32, String, String);

/// A key of the resulting mapping: `(ichiran_seq, word_written_form, standardised_reading)`.
pub type IchiranWordKey = (i32, String, String);

// ---------------------------------------------------------------------------------------------
// Specification
// ---------------------------------------------------------------------------------------------

/// Whether `seq` occurs in the entry table.
pub open spec fn has_entry(entries: Seq<EntryRow>, seq: i32) -> bool {
    exists|i: int| 0 <= i < entries.len() && #[trigger] entries[i].0 == seq
}

/// Whether `seq` is a root entry: the `root_p` of the last row for `seq`, `false` if there is none.
pub open spec fn is_root(entries: Seq<EntryRow>, seq: i32) -> bool
    decreases entries.len(),
{
    if entries.len() == 0 {
        false
    } else if entries.last().0 == seq {
        entries.last().1
    } else {
        is_root(entries.drop_last(), seq)
    }
}

/// The forms that `seq` was conjugated from without an intermediate form, in row order.
pub open spec fn nonvia_children(rows: Seq<ConjugationRow>, seq: i32) -> Seq<i32>
    decreases rows.len(),
{
    if rows.len() == 0 {
        seq![]
    } else {
        let r = rows.last();
        nonvia_children(rows.drop_last(), seq) + if r.0 == seq && r.1 is None {
            seq![r.2]
        } else {
            seq![]
        }
    }
}

/// The forms that `seq` was conjugated from through an intermediate form: for each such row
/// in order, its `from` followed by its `via`.
pub open spec fn via_children(rows: Seq<ConjugationRow>, seq: i32) -> Seq<i32>
    decreases rows.len(),
{
    if rows.len() == 0 {
        seq![]
    } else {
        let r = rows.last();
        via_children(rows.drop_last(), seq) + if r.0 == seq && r.1 is Some {
            seq![r.2, r.1->0]
        } else {
            seq![]
        }
    }
}

/// The entries that are followed from `seq`: the direct ones first, then the indirect ones.
pub open spec fn children(rows: Seq<ConjugationRow>, seq: i32) -> Seq<i32> {
    nonvia_children(rows, seq) + via_children(rows, seq)
}

/// The entries visited by a depth-first search from `seq`, in post-order (children before
/// the entry itself), following at most `depth` links.
pub open spec fn postorder(rows: Seq<ConjugationRow>, seq: i32, depth: nat) -> Seq<i32>
    decreases depth, 0nat,
{
    (if depth == 0 {
        seq![]
    } else {
        postorder_all(rows, children(rows, seq), (depth - 1) as nat)
    }) + seq![seq]
}

/// The post-order visits of each entry of `list` in turn.
pub open spec fn postorder_all(rows: Seq<ConjugationRow>, list: Seq<i32>, depth: nat) -> Seq<i32>
    decreases depth, list.len() + 1,
{
    if list.len() == 0 {
        seq![]
    } else {
        postorder_all(rows, list.drop_last(), depth) + postorder(rows, list.last(), depth)
    }
}

/// The number of links followed from each starting entry. A path that visits no entry twice
/// follows at most one link per conjugation target, and there are at most two targets per
/// conjugation row, so the bound is only ever reached on cyclic conjugation data.
pub open spec fn search_depth(n_rows: nat) -> nat {
    if 2 * n_rows <= u64::MAX {
        2 * n_rows
    } else {
        u64::MAX as nat
    }
}

/// The view of a word as `(id, written form, standardised reading)`.
pub open spec fn word_view(w: (i32, String, String)) -> (i32, Seq<char>, Seq<char>) {
    (w.0, w.1@, w.2@)
}

pub open spec fn word_views(ws: Seq<(i32, String, String)>) -> Seq<(i32, Seq<char>, Seq<char>)> {
    ws.map_values(|w: (i32, String, String)| word_view(w))
}

/// The LBR words with the given JMdict id, in row order.
pub open spec fn words_of(rows: Seq<WordRow>, jmdict_id: i32) -> Seq<(i32, Seq<char>, Seq<char>)>
    decreases rows.len(),
{
    if rows.len() == 0 {
        seq![]
    } else {
        let r = rows.last();
        words_of(rows.drop_last(), jmdict_id) + if r.0 == jmdict_id {
            seq![(r.1, r.2@, r.3@)]
        } else {
            seq![]
        }
    }
}

/// The words of the root entries among `nodes`, in order.
pub open spec fn root_words(entries: Seq<EntryRow>, words: Seq<WordRow>, nodes: Seq<i32>) -> Seq<
    (i32, Seq<char>, Seq<char>),
>
    decreases nodes.len(),
{
    if nodes.len() == 0 {
        seq![]
    } else {
        root_words(entries, words, nodes.drop_last()) + if is_root(entries, nodes.last()) {
            words_of(words, nodes.last())
        } else {
            seq![]
        }
    }
}

/// The id of the first word in `ws` with the written form `w` and reading `r`.
pub open spec fn first_id(ws: Seq<(i32, Seq<char>, Seq<char>)>, w: Seq<char>, r: Seq<char>) -> Option<
    i32,
>
    decreases ws.len(),
{
    if ws.len() == 0 {
        None
    } else {
        match first_id(ws.drop_last(), w, r) {
            Some(id) => Some(id),
            None => if ws.last().1 == w && ws.last().2 == r {
                Some(ws.last().0)
            } else {
                None
            },
        }
    }
}

/// The root words reached from the entry `seq`, in the order of the search.
pub open spec fn reached_words(
    entries: Seq<EntryRow>,
    conjugations: Seq<ConjugationRow>,
    words: Seq<WordRow>,
    seq: i32,
) -> Seq<(i32, Seq<char>, Seq<char>)> {
    root_words(
        entries,
        words,
        postorder(conjugations, seq, search_depth(conjugations.len())),
    )
}

/// The word id that the entry `seq`, written `w` and read `r`, maps to: that of the first
/// root word reached from `seq` with that written form and reading.
pub open spec fn word_id_for(
    entries: Seq<EntryRow>,
    conjugations: Seq<ConjugationRow>,
    words: Seq<WordRow>,
    seq: i32,
    w: Seq<char>,
    r: Seq<char>,
) -> Option<i32> {
    if has_entry(entries, seq) {
        first_id(reached_words(entries, conjugations, words, seq), w, r)
    } else {
        None
    }
}

/// The view of an entry of the resulting mapping.
pub open spec fn mapping_view(e: (IchiranWordKey, i32)) -> ((i32, Seq<char>, Seq<char>), i32) {
    ((e.0.0, e.0.1@, e.0.2@), e.1)
}

/// No two entries of the mapping have the same key.
pub open spec fn distinct_keys(m: Seq<(IchiranWordKey, i32)>) -> bool {
    forall|i: int, j: int|
        0 <= i < j < m.len() ==> #[trigger] mapping_view(m[i]).0 != #[trigger] mapping_view(
            m[j],
        ).0
}

/// No two words in the list have the same written form and reading.
pub open spec fn distinct_words(ws: Seq<(i32, Seq<char>, Seq<char>)>) -> bool {
    forall|i: int, j: int|
        0 <= i < j < ws.len() ==> !(#[trigger] ws[i].1 == #[trigger] ws[j].1 && ws[i].2
            == ws[j].2)
}

/// Two word lists agree on the first id of every written form and reading.
pub open spec fn same_first_ids(
    a: Seq<(i32, Seq<char>, Seq<char>)>,
    b: Seq<(i32, Seq<char>, Seq<char>)>,
) -> bool {
    forall|w: Seq<char>, r: Seq<char>| #[trigger] first_id(a, w, r) == first_id(b, w, r)
}

// ---------------------------------------------------------------------------------------------
// Lemmas
// ---------------------------------------------------------------------------------------------

proof fn lemma_first_id_concat(
    a: Seq<(i32, Seq<char>, Seq<char>)>,
    b: Seq<(i32, Seq<char>, Seq<char>)>,
    w: Seq<char>,
    r: Seq<char>,
)
    ensures
        first_id(a + b, w, r) == (match first_id(a, w, r) {
            Some(id) => Some(id),
            None => first_id(b, w, r),
        }),
    decreases b.len(),
{
    if b.len() == 0 {
        assert(a + b =~= a);
    } else {
        assert((a + b).drop_last() =~= a + b.drop_last());
        assert((a + b).last() == b.last());
        lemma_first_id_concat(a, b.drop_last(), w, r);
    }
}

proof fn lemma_first_id_found(ws: Seq<(i32, Seq<char>, Seq<char>)>, w: Seq<char>, r: Seq<char>)
    ensures
        first_id(ws, w, r) is None <==> forall|i: int|
            0 <= i < ws.len() ==> !(#[trigger] ws[i].1 == w && ws[i].2 == r),
        first_id(ws, w, r) is Some ==> exists|i: int|
            0 <= i < ws.len() && #[trigger] ws[i].1 == w && ws[i].2 == r && ws[i].0 == first_id(
                ws,
                w,
                r,
            )->0,
    decreases ws.len(),
{
    if ws.len() > 0 {
        let p = ws.drop_last();
        lemma_first_id_found(p, w, r);
        if first_id(p, w, r) is Some {
            let i = choose|i: int| 0 <= i < p.len() && #[trigger] p[i].1 == w && p[i].2 == r
                && p[i].0 == first_id(p, w, r)->0;
            assert(ws[i] == p[i]);
        } else {
            assert forall|i: int| 0 <= i < p.len() implies !(#[trigger] ws[i].1 == w && ws[i].2
                == r) by {
                assert(ws[i] == p[i]);
            }
            if !(ws.last().1 == w && ws.last().2 == r) {
                assert forall|i: int| 0 <= i < ws.len() implies !(#[trigger] ws[i].1 == w
                    && ws[i].2 == r) by {
                    if i < p.len() {
                        assert(ws[i] == p[i]);
                    }
                }
            } else {
                assert(ws[ws.len() - 1].1 == w);
            }
        }
    }
}

proof fn lemma_same_first_ids_append(
    a: Seq<(i32, Seq<char>, Seq<char>)>,
    b: Seq<(i32, Seq<char>, Seq<char>)>,
    x: Seq<(i32, Seq<char>, Seq<char>)>,
)
    requires
        same_first_ids(a, b),
    ensures
        same_first_ids(a + x, b + x),
{
    assert forall|w: Seq<char>, r: Seq<char>| #[trigger]
        first_id(a + x, w, r) == first_id(b + x, w, r) by {
        lemma_first_id_concat(a, x, w, r);
        lemma_first_id_concat(b, x, w, r);
        assert(first_id(a, w, r) == first_id(b, w, r));
    }
}

proof fn lemma_root_words_concat(
    entries: Seq<EntryRow>,
    words: Seq<WordRow>,
    a: Seq<i32>,
    b: Seq<i32>,
)
    ensures
        root_words(entries, words, a + b) == root_words(entries, words, a) + root_words(
            entries,
            words,
            b,
        ),
    decreases b.len(),
{
    if b.len() == 0 {
        assert(a + b =~= a);
        assert(root_words(entries, words, a) + root_words(entries, words, b) =~= root_words(
            entries,
            words,
            a,
        ));
    } else {
        assert((a + b).drop_last() =~= a + b.drop_last());
        assert((a + b).last() == b.last());
        lemma_root_words_concat(entries, words, a, b.drop_last());
        let tail = if is_root(entries, b.last()) {
            words_of(words, b.last())
        } else {
            seq![]
        };
        assert(root_words(entries, words, a) + root_words(entries, words, b.drop_last()) + tail
            =~= root_words(entries, words, a) + (root_words(entries, words, b.drop_last())
            + tail));
    }
}

// ---------------------------------------------------------------------------------------------
// Lookup tables
// ---------------------------------------------------------------------------------------------

/// The conjugation links, grouped by the conjugated entry.
struct ConjugationGraph {
    nonvia: HashMap<i32, Vec<i32>>,
    via: HashMap<i32, Vec<i32>>,
}

impl ConjugationGraph {
    spec fn represents(&self, rows: Seq<ConjugationRow>) -> bool {
        &&& forall|k: i32| #[trigger]
            self.nonvia@.contains_key(k) ==> self.nonvia@[k]@ == nonvia_children(rows, k)
        &&& forall|k: i32| #[trigger]
            self.via@.contains_key(k) ==> self.via@[k]@ == via_children(rows, k)
        &&& forall|k: i32|
            !#[trigger] self.nonvia@.contains_key(k) ==> nonvia_children(rows, k).len() == 0
        &&& forall|k: i32| !#[trigger] self.via@.contains_key(k) ==> via_children(rows, k).len()
            == 0
    }
}

fn push_to(map: &mut HashMap<i32, Vec<i32>>, key: i32, extra: &Vec<i32>)
    ensures
        final(map)@ == old(map)@.insert(
            key,
            final(map)@[key],
        ),
        final(map)@[key]@ == (if old(map)@.contains_key(key) {
            old(map)@[key]@
        } else {
            seq![]
        }) + extra@,
{
    let mut list = match map.remove(&key) {
        Some(list) => list,
        None => Vec::new(),
    };
    let ghost before = list@;
    let mut i: usize = 0;
    while i < extra.len()
        invariant
            i <= extra.len(),
            list@ == before + extra@.take(i as int),
        decreases extra.len() - i,
    {
        list.push(extra[i]);
        i += 1;
        assert(before + extra@.take(i as int) =~= (before + extra@.take((i - 1) as int)).push(
            extra@[i - 1],
        ));
    }
    assert(extra@.take(extra.len() as int) =~= extra@);
    map.insert(key, list);
    assert(map@ =~= old(map)@.insert(key, map@[key]));
}

fn build_graph(rows: &Vec<ConjugationRow>) -> (g: ConjugationGraph)
    ensures
        g.represents(rows@),
{
    let mut g = ConjugationGraph { nonvia: HashMap::new(), via: HashMap::new() };
    let mut i: usize = 0;
    while i < rows.len()
        invariant
            i <= rows.len(),
            g.represents(rows@.take(i as int)),
        decreases rows.len() - i,
    {
        let (seq, via, from) = rows[i];
        let ghost prev = rows@.take(i as int);
        let ghost next = rows@.take(i + 1);
        assert(next.drop_last() =~= prev);
        assert(next.last() == rows@[i as int]);
        match via {
            None => {
                let extra = vec![from];
                push_to(&mut g.nonvia, seq, &extra);
            },
            Some(v) => {
                let extra = vec![from, v];
                push_to(&mut g.via, seq, &extra);
            },
        }
        i += 1;
        assert forall|k: i32| #[trigger] g.nonvia@.contains_key(k) implies g.nonvia@[k]@
            == nonvia_children(next, k) by {
            if k != seq || via is Some {
                assert(nonvia_children(next, k) =~= nonvia_children(prev, k));
            }
        }
        assert forall|k: i32| #[trigger] g.via@.contains_key(k) implies g.via@[k]@
            == via_children(next, k) by {
            if k != seq || via is None {
                assert(via_children(next, k) =~= via_children(prev, k));
            }
        }
        assert forall|k: i32| !#[trigger] g.nonvia@.contains_key(k) implies nonvia_children(
            next,
            k,
        ).len() == 0 by {
            assert(nonvia_children(next, k) =~= nonvia_children(prev, k));
        }
        assert forall|k: i32| !#[trigger] g.via@.contains_key(k) implies via_children(
            next,
            k,
        ).len() == 0 by {
            assert(via_children(next, k) =~= via_children(prev, k));
        }
    }
    assert(rows@.take(rows.len() as int) =~= rows@);
    g
}

/// The entries followed from `seq`, as `children` states them.
fn children_of(g: &ConjugationGraph, seq: i32, Ghost(rows): Ghost<Seq<ConjugationRow>>) -> (res:
    Vec<i32>)
    requires
        g.represents(rows),
    ensures
        res@ == children(rows, seq),
{
    let mut res: Vec<i32> = Vec::new();
    if let Some(list) = g.nonvia.get(&seq) {
        res = list.clone();
    }
    assert(res@ == nonvia_children(rows, seq)) by {
        if !g.nonvia@.contains_key(seq) {
            assert(nonvia_children(rows, seq) =~= seq![]);
        }
    }
    let ghost first = res@;
    if let Some(list) = g.via.get(&seq) {
        let mut i: usize = 0;
        while i < list.len()
            invariant
                i <= list.len(),
                res@ == first + list@.take(i as int),
            decreases list.len() - i,
        {
            res.push(list[i]);
            i += 1;
            assert(first + list@.take(i as int) =~= (first + list@.take((i - 1) as int)).push(
                list@[i - 1],
            ));
        }
        assert(list@.take(list.len() as int) =~= list@);
    } else {
        assert(via_children(rows, seq) =~= seq![]);
        assert(res@ =~= first + via_children(rows, seq));
    }
    res
}

fn build_roots(entries: &Vec<EntryRow>) -> (roots: HashMap<i32, bool>)
    ensures
        forall|s: i32| #[trigger] roots@.contains_key(s) <==> has_entry(entries@, s),
        forall|s: i32| #[trigger] roots@.contains_key(s) ==> roots@[s] == is_root(entries@, s),
{
    let mut roots: HashMap<i32, bool> = HashMap::new();
    let mut i: usize = 0;
    while i < entries.len()
        invariant
            i <= entries.len(),
            forall|s: i32| #[trigger]
                roots@.contains_key(s) <==> has_entry(entries@.take(i as int), s),
            forall|s: i32| #[trigger]
                roots@.contains_key(s) ==> roots@[s] == is_root(entries@.take(i as int), s),
        decreases entries.len() - i,
    {
        let (seq, root) = entries[i];
        let ghost prev = entries@.take(i as int);
        let ghost next = entries@.take(i + 1);
        assert(next.drop_last() =~= prev);
        roots.insert(seq, root);
        i += 1;
        assert forall|s: i32| #[trigger] roots@.contains_key(s) <==> has_entry(next, s) by {
            if has_entry(next, s) && s != seq {
                let j = choose|j: int| 0 <= j < next.len() && #[trigger] next[j].0 == s;
                assert(prev[j] == next[j]);
            }
            if has_entry(prev, s) {
                let j = choose|j: int| 0 <= j < prev.len() && #[trigger] prev[j].0 == s;
                assert(prev[j] == next[j]);
            }
            if s == seq {
                assert(next[next.len() - 1].0 == s);
            }
        }
    }
    assert(entries@.take(entries.len() as int) =~= entries@);
    roots
}

fn build_words(rows: &Vec<WordRow>) -> (words: HashMap<i32, Vec<(i32, String, String)>>)
    ensures
        forall|j: i32| #[trigger]
            words@.contains_key(j) ==> word_views(words@[j]@) == words_of(rows@, j),
        forall|j: i32| !#[trigger] words@.contains_key(j) ==> words_of(rows@, j).len() == 0,
{
    let mut words: HashMap<i32, Vec<(i32, String, String)>> = HashMap::new();
    let mut i: usize = 0;
    while i < rows.len()
        invariant
            i <= rows.len(),
            forall|j: i32| #[trigger]
                words@.contains_key(j) ==> word_views(words@[j]@) == words_of(
                    rows@.take(i as int),
                    j,
                ),
            forall|j: i32| !#[trigger]
                words@.contains_key(j) ==> words_of(rows@.take(i as int), j).len() == 0,
        decreases rows.len() - i,
    {
        let ghost prev = rows@.take(i as int);
        let ghost next = rows@.take(i + 1);
        assert(next.drop_last() =~= prev);
        let jmdict_id = rows[i].0;
        let word = (rows[i].1, rows[i].2.clone(), rows[i].3.clone());
        let ghost had = words@;
        let mut list = match words.remove(&jmdict_id) {
            Some(list) => list,
            None => Vec::new(),
        };
        let ghost before = list@;
        list.push(word);
        assert(word_views(list@) =~= word_views(before).push(word_view(word)));
        words.insert(jmdict_id, list);
        i += 1;
        assert forall|j: i32| #[trigger] words@.contains_key(j) implies word_views(words@[j]@)
            == words_of(next, j) by {
            if j != jmdict_id {
                assert(words_of(next, j) =~= words_of(prev, j));
            } else {
                assert(word_views(before) =~= words_of(prev, j)) by {
                    if !had.contains_key(j) {
                        assert(words_of(prev, j).len() == 0);
                    }
                }
            }
        }
        assert forall|j: i32| !#[trigger] words@.contains_key(j) implies words_of(
            next,
            j,
        ).len() == 0 by {
            assert(words_of(next, j) =~= words_of(prev, j));
        }
    }
    assert(rows@.take(rows.len() as int) =~= rows@);
    words
}

// ---------------------------------------------------------------------------------------------
// Search
// ---------------------------------------------------------------------------------------------

/// Adds `word` to `found` unless a word with the same written form and reading is there already.
fn add_word(found: &mut Vec<(i32, String, String)>, word: &(i32, String, String))
    requires
        distinct_words(word_views(old(found)@)),
    ensures
        distinct_words(word_views(final(found)@)),
        same_first_ids(word_views(final(found)@), word_views(old(found)@).push(word_view(*word))),
{
    let ghost before = word_views(found@);
    let mut i: usize = 0;
    while i < found.len()
        invariant
            i <= found.len(),
            found@ == old(found)@,
            before == word_views(found@),
            distinct_words(before),
            forall|k: int|
                0 <= k < i ==> !(#[trigger] before[k].1 == word.1@ && before[k].2 == word.2@),
        decreases found.len() - i,
    {
        if found[i].1 == word.1 && found[i].2 == word.2 {
            // already present: the earlier word keeps its place
            proof {
                assert(before[i as int].1 == word.1@ && before[i as int].2 == word.2@);
                lemma_first_id_found(before, word.1@, word.2@);
                assert forall|w: Seq<char>, r: Seq<char>| #[trigger]
                    first_id(before, w, r) == first_id(before.push(word_view(*word)), w, r) by {
                    lemma_first_id_concat(before, seq![word_view(*word)], w, r);
                    assert(before + seq![word_view(*word)] =~= before.push(word_view(*word)));
                    if w == word.1@ && r == word.2@ {
                        assert(first_id(before, w, r) is Some);
                    } else {
                        reveal_with_fuel(first_id, 2);
                        assert(seq![word_view(*word)].drop_last() =~= Seq::<
                            (i32, Seq<char>, Seq<char>),
                        >::empty());
                    }
                }
            }
            return;
        }
        i += 1;
    }
    found.push((word.0, word.1.clone(), word.2.clone()));
    proof {
        assert(word_views(found@) =~= before.push(word_view(*word)));
        assert forall|a: int, b: int|
            0 <= a < b < word_views(found@).len() implies !(#[trigger] word_views(found@)[a].1
            == #[trigger] word_views(found@)[b].1 && word_views(found@)[a].2 == word_views(
            found@,
        )[b].2) by {
            if b == before.len() {
                assert(word_views(found@)[a] == before[a]);
            } else {
                assert(word_views(found@)[a] == before[a]);
                assert(word_views(found@)[b] == before[b]);
            }
        }
    }
}

/// Follows the conjugation links from `seq` depth first, at most `depth` links deep, and adds
/// the words of every root entry visited to `found`, children before the entry itself. Words
/// whose written form and reading are already in `found` are skipped, so that the mapping
/// prefers the deepest root.
fn get_roots(
    found: &mut Vec<(i32, String, String)>,
    seq: i32,
    depth: u64,
    graph: &ConjugationGraph,
    roots: &HashMap<i32, bool>,
    words: &HashMap<i32, Vec<(i32, String, String)>>,
    Ghost(entries): Ghost<Seq<EntryRow>>,
    Ghost(conjugations): Ghost<Seq<ConjugationRow>>,
    Ghost(word_rows): Ghost<Seq<WordRow>>,
)
    requires
        graph.represents(conjugations),
        forall|s: i32| #[trigger] roots@.contains_key(s) <==> has_entry(entries, s),
        forall|s: i32| #[trigger] roots@.contains_key(s) ==> roots@[s] == is_root(entries, s),
        forall|j: i32| #[trigger]
            words@.contains_key(j) ==> word_views(words@[j]@) == words_of(word_rows, j),
        forall|j: i32| !#[trigger] words@.contains_key(j) ==> words_of(word_rows, j).len() == 0,
        distinct_words(word_views(old(found)@)),
    ensures
        distinct_words(word_views(final(found)@)),
        same_first_ids(
            word_views(final(found)@),
            word_views(old(found)@) + root_words(
                entries,
                word_rows,
                postorder(conjugations, seq, depth as nat),
            ),
        ),
    decreases depth,
{
    let ghost start = word_views(found@);
    let ghost rw = |nodes: Seq<i32>| root_words(entries, word_rows, nodes);
    let ghost below: Seq<i32> = if depth == 0 {
        seq![]
    } else {
        postorder_all(conjugations, children(conjugations, seq), (depth - 1) as nat)
    };
    if depth > 0 {
        let next = children_of(graph, seq, Ghost(conjugations));
        let ghost d = (depth - 1) as nat;
        let mut i: usize = 0;
        while i < next.len()
            invariant
                0 < depth,
                d == depth - 1,
                i <= next.len(),
                next@ == children(conjugations, seq),
                graph.represents(conjugations),
                forall|s: i32| #[trigger] roots@.contains_key(s) <==> has_entry(entries, s),
                forall|s: i32| #[trigger]
                    roots@.contains_key(s) ==> roots@[s] == is_root(entries, s),
                forall|j: i32| #[trigger]
                    words@.contains_key(j) ==> word_views(words@[j]@) == words_of(word_rows, j),
                forall|j: i32| !#[trigger]
                    words@.contains_key(j) ==> words_of(word_rows, j).len() == 0,
                distinct_words(word_views(found@)),
                same_first_ids(
                    word_views(found@),
                    start + root_words(
                        entries,
                        word_rows,
                        postorder_all(conjugations, next@.take(i as int), d),
                    ),
                ),
            decreases next.len() - i,
        {
            let ghost mid = word_views(found@);
            let ghost done = postorder_all(conjugations, next@.take(i as int), d);
            get_roots(
                found,
                next[i],
                depth - 1,
                graph,
                roots,
                words,
                Ghost(entries),
                Ghost(conjugations),
                Ghost(word_rows),
            );
            proof {
                let visit = postorder(conjugations, next@[i as int], d);
                assert(next@.take(i + 1).drop_last() =~= next@.take(i as int));
                assert(postorder_all(conjugations, next@.take(i + 1), d) == done + visit);
                lemma_root_words_concat(entries, word_rows, done, visit);
                lemma_same_first_ids_append(
                    mid,
                    start + root_words(entries, word_rows, done),
                    root_words(entries, word_rows, visit),
                );
                assert(start + root_words(entries, word_rows, done) + root_words(
                    entries,
                    word_rows,
                    visit,
                ) =~= start + root_words(entries, word_rows, done + visit));
                assert forall|w: Seq<char>, r: Seq<char>| #[trigger]
                    first_id(word_views(found@), w, r) == first_id(
                        start + root_words(entries, word_rows, done + visit),
                        w,
                        r,
                    ) by {
                    assert(first_id(word_views(found@), w, r) == first_id(
                        mid + root_words(entries, word_rows, visit),
                        w,
                        r,
                    ));
                }
            }
            i += 1;
        }
        assert(next@.take(next.len() as int) =~= next@);
    }
    // the entry itself comes after everything below it
    let ghost own: Seq<(i32, Seq<char>, Seq<char>)> = if is_root(entries, seq) {
        words_of(word_rows, seq)
    } else {
        seq![]
    };
    proof {
        assert(postorder(conjugations, seq, depth as nat) == below + seq![seq]);
        lemma_root_words_concat(entries, word_rows, below, seq![seq]);
        assert(seq![seq].drop_last() =~= Seq::<i32>::empty());
        assert(root_words(entries, word_rows, seq![seq]) =~= own);
    }
    let ghost mid = word_views(found@);
    let is_root_entry = match roots.get(&seq) {
        Some(root) => *root,
        None => false,
    };
    assert(is_root_entry == is_root(entries, seq)) by {
        if !roots@.contains_key(seq) {
            lemma_no_entry_not_root(entries, seq);
        }
    }
    if is_root_entry {
        if let Some(list) = words.get(&seq) {
            let mut k: usize = 0;
            while k < list.len()
                invariant
                    k <= list.len(),
                    word_views(list@) == own,
                    distinct_words(word_views(found@)),
                    same_first_ids(word_views(found@), mid + own.take(k as int)),
                decreases list.len() - k,
            {
                let ghost pre = word_views(found@);
                add_word(found, &list[k]);
                proof {
                    assert(own.take(k + 1) =~= own.take(k as int).push(word_view(list@[k as int])));
                    assert(word_views(list@)[k as int] == word_view(list@[k as int]));
                    lemma_same_first_ids_append(
                        pre,
                        mid + own.take(k as int),
                        seq![word_view(list@[k as int])],
                    );
                    assert(pre + seq![word_view(list@[k as int])] =~= pre.push(
                        word_view(list@[k as int]),
                    ));
                    assert(mid + own.take(k as int) + seq![word_view(list@[k as int])] =~= mid
                        + own.take(k + 1));
                    assert forall|w: Seq<char>, r: Seq<char>| #[trigger]
                        first_id(word_views(found@), w, r) == first_id(
                            mid + own.take(k + 1),
                            w,
                            r,
                        ) by {
                        assert(first_id(word_views(found@), w, r) == first_id(
                            pre.push(word_view(list@[k as int])),
                            w,
                            r,
                        ));
                    }
                }
                k += 1;
            }
            assert(own.take(list.len() as int) =~= own);
        } else {
            assert(own =~= Seq::<(i32, Seq<char>, Seq<char>)>::empty());
            assert(mid + own =~= mid);
        }
    } else {
        assert(mid + own =~= mid);
    }
    proof {
        // found ~ mid + own, and mid ~ start + root_words(below)
        lemma_same_first_ids_append(mid, start + root_words(entries, word_rows, below), own);
        assert(start + root_words(entries, word_rows, below) + own =~= start + root_words(
            entries,
            word_rows,
            postorder(conjugations, seq, depth as nat),
        ));
        assert forall|w: Seq<char>, r: Seq<char>| #[trigger]
            first_id(word_views(found@), w, r) == first_id(
                start + root_words(entries, word_rows, postorder(conjugations, seq, depth as nat)),
                w,
                r,
            ) by {
            assert(first_id(word_views(found@), w, r) == first_id(mid + own, w, r));
        }
    }
}

proof fn lemma_no_entry_not_root(entries: Seq<EntryRow>, seq: i32)
    requires
        !has_entry(entries, seq),
    ensures
        !is_root(entries, seq),
    decreases entries.len(),
{
    if entries.len() > 0 {
        assert(entries[entries.len() - 1].0 != seq);
        assert forall|i: int| 0 <= i < entries.drop_last().len() implies #[trigger] entries.drop_last()[i].0 != seq by {
            assert(entries.drop_last()[i] == entries[i]);
        }
        lemma_no_entry_not_root(entries.drop_last(), seq);
    }
}

proof fn lemma_distinct_first_id(ws: Seq<(i32, Seq<char>, Seq<char>)>, j: int)
    requires
        distinct_words(ws),
        0 <= j < ws.len(),
    ensures
        first_id(ws, ws[j].1, ws[j].2) == Some(ws[j].0),
{
    lemma_first_id_found(ws, ws[j].1, ws[j].2);
    let i = choose|i: int|
        0 <= i < ws.len() && #[trigger] ws[i].1 == ws[j].1 && ws[i].2 == ws[j].2 && ws[i].0
            == first_id(ws, ws[j].1, ws[j].2)->0;
    if i < j {
        assert(!(ws[i].1 == ws[j].1 && ws[i].2 == ws[j].2));
    } else if j < i {
        assert(!(ws[j].1 == ws[i].1 && ws[j].2 == ws[i].2));
    }
}

/// The depth to which conjugation links are followed, `search_depth` of the row count.
fn depth_for(n_rows: usize) -> (depth: u64)
    ensures
        depth == search_depth(n_rows as nat),
{
    let n = n_rows as u64;
    if n <= u64::MAX / 2 {
        2 * n
    } else {
        u64::MAX
    }
}

/// Builds the mapping from ichiran words to LBR word ids, `(ichiran_seq, word_written_form,
/// standardised_reading) => word_id`, e.g. `(10159116, 入れる, いれる) => 115508`, from the rows
/// of ichiran's entry and conjugation tables and of LBR's word table.
///
/// Every entry is followed along its conjugation links to the root entries it derives from;
/// each word of a root entry is mapped from the starting entry with the word's written form and
/// reading, the word found first in the depth-first post-order search winning.
pub fn get_ichiran_word_to_word_id(
    entries: &Vec<EntryRow>,
    conjugations: &Vec<ConjugationRow>,
    words: &Vec<WordRow>,
) -> (mapping: Vec<(IchiranWordKey, i32)>)
    ensures
        distinct_keys(mapping@),
        forall|i: int|
            0 <= i < mapping@.len() ==> {
                let (k, id) = #[trigger] mapping_view(mapping@[i]);
                word_id_for(entries@, conjugations@, words@, k.0, k.1, k.2) == Some(id)
            },
        forall|s: i32, w: Seq<char>, r: Seq<char>| #[trigger]
            word_id_for(entries@, conjugations@, words@, s, w, r) is Some ==> exists|i: int|
                0 <= i < mapping@.len() && #[trigger] mapping_view(mapping@[i]).0 == (s, w, r),
{
    let roots = build_roots(entries);
    let graph = build_graph(conjugations);
    let word_map = build_words(words);
    let depth = depth_for(conjugations.len());
    let mut done: HashSet<i32> = HashSet::new();
    let mut mapping: Vec<(IchiranWordKey, i32)> = Vec::new();
    let mut i: usize = 0;
    while i < entries.len()
        invariant
            i <= entries.len(),
            depth == search_depth(conjugations@.len()),
            graph.represents(conjugations@),
            forall|s: i32| #[trigger] roots@.contains_key(s) <==> has_entry(entries@, s),
            forall|s: i32| #[trigger] roots@.contains_key(s) ==> roots@[s] == is_root(entries@, s),
            forall|j: i32| #[trigger]
                word_map@.contains_key(j) ==> word_views(word_map@[j]@) == words_of(words@, j),
            forall|j: i32| !#[trigger]
                word_map@.contains_key(j) ==> words_of(words@, j).len() == 0,
            forall|s: i32| #[trigger] done@.contains(s) <==> has_entry(entries@.take(i as int), s),
            distinct_keys(mapping@),
            forall|k: int|
                0 <= k < mapping@.len() ==> {
                    let (key, id) = #[trigger] mapping_view(mapping@[k]);
                    &&& done@.contains(key.0)
                    &&& word_id_for(entries@, conjugations@, words@, key.0, key.1, key.2) == Some(
                        id,
                    )
                },
            forall|s: i32, w: Seq<char>, r: Seq<char>|
                done@.contains(s) && #[trigger] word_id_for(entries@, conjugations@, words@, s, w, r)
                    is Some ==> exists|k: int|
                    0 <= k < mapping@.len() && #[trigger] mapping_view(mapping@[k]).0 == (s, w, r),
        decreases entries.len() - i,
    {
        let seq = entries[i].0;
        let ghost prev = entries@.take(i as int);
        let ghost next = entries@.take(i + 1);
        proof {
            assert(next[i as int] == entries@[i as int]);
            assert(has_entry(entries@, seq)) by {
                assert(entries@[i as int].0 == seq);
            }
        }
        if !done.contains(&seq) {
            let mut found: Vec<(i32, String, String)> = Vec::new();
            get_roots(
                &mut found,
                seq,
                depth,
                &graph,
                &roots,
                &word_map,
                Ghost(entries@),
                Ghost(conjugations@),
                Ghost(words@),
            );
            let ghost fv = word_views(found@);
            let ghost reached = reached_words(entries@, conjugations@, words@, seq);
            proof {
                assert(word_views(Seq::<(i32, String, String)>::empty()) + reached =~= reached);
            }
            let ghost base = mapping@.len();
            let mut j: usize = 0;
            while j < found.len()
                invariant
                    j <= found.len(),
                    fv == word_views(found@),
                    distinct_words(fv),
                    same_first_ids(fv, reached),
                    reached == reached_words(entries@, conjugations@, words@, seq),
                    has_entry(entries@, seq),
                    !done@.contains(seq),
                    mapping@.len() == base + j,
                    distinct_keys(mapping@),
                    forall|k: int|
                        0 <= k < base ==> {
                            let (key, id) = #[trigger] mapping_view(mapping@[k]);
                            &&& done@.contains(key.0)
                            &&& word_id_for(entries@, conjugations@, words@, key.0, key.1, key.2)
                                == Some(id)
                        },
                    forall|k: int|
                        base <= k < mapping@.len() ==> #[trigger] mapping_view(mapping@[k]) == (
                            (seq, fv[k - base].1, fv[k - base].2),
                            fv[k - base].0,
                        ),
                    forall|s: i32, w: Seq<char>, r: Seq<char>|
                        done@.contains(s) && #[trigger] word_id_for(
                            entries@,
                            conjugations@,
                            words@,
                            s,
                            w,
                            r,
                        ) is Some ==> exists|k: int|
                            0 <= k < base && #[trigger] mapping_view(mapping@[k]).0 == (s, w, r),
                decreases found.len() - j,
            {
                let entry = ((seq, found[j].1.clone(), found[j].2.clone()), found[j].0);
                let ghost before = mapping@;
                mapping.push(entry);
                proof {
                    assert(fv[j as int] == word_view(found@[j as int]));
                    assert forall|a: int, b: int|
                        0 <= a < b < mapping@.len() implies #[trigger] mapping_view(mapping@[a]).0
                        != #[trigger] mapping_view(mapping@[b]).0 by {
                        if b == mapping@.len() - 1 {
                            assert(mapping@[a] == before[a]);
                            if a >= base {
                                assert(mapping_view(before[a]) == (
                                    (seq, fv[a - base].1, fv[a - base].2),
                                    fv[a - base].0,
                                ));
                                assert(!(fv[a - base].1 == fv[b - base].1 && fv[a - base].2
                                    == fv[b - base].2));
                            } else {
                                assert(done@.contains(mapping_view(before[a]).0.0));
                            }
                        } else {
                            assert(mapping@[a] == before[a]);
                            assert(mapping@[b] == before[b]);
                        }
                    }
                    assert forall|k: int| 0 <= k < base implies {
                        let (key, id) = #[trigger] mapping_view(mapping@[k]);
                        &&& done@.contains(key.0)
                        &&& word_id_for(entries@, conjugations@, words@, key.0, key.1, key.2)
                            == Some(id)
                    } by {
                        assert(mapping@[k] == before[k]);
                    }
                    assert forall|k: int| base <= k < mapping@.len() implies #[trigger] mapping_view(
                        mapping@[k],
                    ) == ((seq, fv[k - base].1, fv[k - base].2), fv[k - base].0) by {
                        if k < mapping@.len() - 1 {
                            assert(mapping@[k] == before[k]);
                        }
                    }
                    assert forall|s: i32, w: Seq<char>, r: Seq<char>|
                        done@.contains(s) && #[trigger] word_id_for(
                            entries@,
                            conjugations@,
                            words@,
                            s,
                            w,
                            r,
                        ) is Some implies exists|k: int|
                        0 <= k < base && #[trigger] mapping_view(mapping@[k]).0 == (s, w, r) by {
                        let k = choose|k: int|
                            0 <= k < base && #[trigger] mapping_view(before[k]).0 == (s, w, r);
                        assert(mapping@[k] == before[k]);
                    }
                }
                j += 1;
            }
            proof {
                // every pushed entry is correct, and every word reached is there
                assert forall|k: int| 0 <= k < mapping@.len() implies {
                    let (key, id) = #[trigger] mapping_view(mapping@[k]);
                    &&& done@.insert(seq).contains(key.0)
                    &&& word_id_for(entries@, conjugations@, words@, key.0, key.1, key.2) == Some(
                        id,
                    )
                } by {
                    if k >= base {
                        lemma_distinct_first_id(fv, k - base);
                        assert(first_id(fv, fv[k - base].1, fv[k - base].2) == first_id(
                            reached,
                            fv[k - base].1,
                            fv[k - base].2,
                        ));
                    }
                }
                assert forall|w: Seq<char>, r: Seq<char>| #[trigger]
                    word_id_for(entries@, conjugations@, words@, seq, w, r) is Some implies exists|
                    k: int,
                |
                    0 <= k < mapping@.len() && #[trigger] mapping_view(mapping@[k]).0 == (
                        seq,
                        w,
                        r,
                    ) by {
                    assert(first_id(fv, w, r) == first_id(reached, w, r));
                    lemma_first_id_found(fv, w, r);
                    let jj = choose|jj: int|
                        0 <= jj < fv.len() && #[trigger] fv[jj].1 == w && fv[jj].2 == r && fv[jj].0
                            == first_id(fv, w, r)->0;
                    assert(mapping_view(mapping@[base + jj]).0 == (seq, w, r));
                }
            }
            done.insert(seq);
        }
        proof {
            assert(next.drop_last() =~= prev);
            assert forall|s: i32| #[trigger] done@.contains(s) <==> has_entry(next, s) by {
                if has_entry(next, s) && s != seq {
                    let j = choose|j: int| 0 <= j < next.len() && #[trigger] next[j].0 == s;
                    assert(prev[j] == next[j]);
                }
                if has_entry(prev, s) {
                    let j = choose|j: int| 0 <= j < prev.len() && #[trigger] prev[j].0 == s;
                    assert(prev[j] == next[j]);
                }
                if s == seq {
                    assert(next[next.len() - 1].0 == s);
                }
            }
        }
        i += 1;
    }
    proof {
        assert(entries@.take(entries.len() as int) =~= entries@);
        assert forall|s: i32, w: Seq<char>, r: Seq<char>| #[trigger]
            word_id_for(entries@, conjugations@, words@, s, w, r) is Some implies exists|i: int|
            0 <= i < mapping@.len() && #[trigger] mapping_view(mapping@[i]).0 == (s, w, r) by {
            assert(done@.contains(s));
        }
    }
    mapping
}

/// On conjugation data without cycles, witnessed by a rank that every link strictly decreases,
/// the search from an entry visits the same entries in the same order for every depth larger
/// than the entry's rank: the depth bound then never cuts the search short.
pub proof fn lemma_depth_irrelevant_without_cycles(
    rows: Seq<ConjugationRow>,
    rank: spec_fn(i32) -> nat,
    seq: i32,
    d1: nat,
    d2: nat,
)
    requires
        forall|a: i32, i: int|
            0 <= i < children(rows, a).len() ==> rank(#[trigger] children(rows, a)[i]) < rank(a),
        rank(seq) < d1,
        rank(seq) < d2,
    ensures
        postorder(rows, seq, d1) == postorder(rows, seq, d2),
    decreases d1, 0nat,
{
    let ch = children(rows, seq);
    assert forall|i: int| 0 <= i < ch.len() implies rank(#[trigger] ch[i]) < (d1 - 1) as nat
        && rank(ch[i]) < (d2 - 1) as nat by {
        assert(rank(children(rows, seq)[i]) < rank(seq));
    }
    lemma_depth_irrelevant_all(rows, rank, ch, (d1 - 1) as nat, (d2 - 1) as nat);
}

proof fn lemma_depth_irrelevant_all(
    rows: Seq<ConjugationRow>,
    rank: spec_fn(i32) -> nat,
    list: Seq<i32>,
    d1: nat,
    d2: nat,
)
    requires
        forall|a: i32, i: int|
            0 <= i < children(rows, a).len() ==> rank(#[trigger] children(rows, a)[i]) < rank(a),
        forall|i: int| 0 <= i < list.len() ==> rank(#[trigger] list[i]) < d1 && rank(list[i]) < d2,
    ensures
        postorder_all(rows, list, d1) == postorder_all(rows, list, d2),
    decreases d1, list.len() + 1,
{
    if list.len() > 0 {
        let p = list.drop_last();
        assert forall|i: int| 0 <= i < p.len() implies rank(#[trigger] p[i]) < d1 && rank(p[i])
            < d2 by {
            assert(p[i] == list[i]);
        }
        lemma_depth_irrelevant_all(rows, rank, p, d1, d2);
        assert(rank(list[list.len() - 1]) < d1);
        lemma_depth_irrelevant_without_cycles(rows, rank, list.last(), d1, d2);
    }
}

/// The entries that conjugation rows link to: each row's `from`, then its `via` where it has one.
pub open spec fn link_targets(rows: Seq<ConjugationRow>) -> Seq<i32>
    decreases rows.len(),
{
    if rows.len() == 0 {
        seq![]
    } else {
        let r = rows.last();
        link_targets(rows.drop_last()) + match r.1 {
            Some(v) => seq![r.2, v],
            None => seq![r.2],
        }
    }
}

/// Whether `chain` follows conjugation links: each entry after the first is one that the entry
/// before it is followed to.
pub open spec fn is_chain(rows: Seq<ConjugationRow>, chain: Seq<i32>) -> bool {
    forall|i: int| 1 <= i < chain.len() ==> children(rows, chain[i - 1]).contains(#[trigger] chain[i])
}

/// Whether no chain of conjugation links visits an entry twice: the links have no cycle.
pub open spec fn chains_never_repeat(rows: Seq<ConjugationRow>) -> bool {
    forall|chain: Seq<i32>| #[trigger] is_chain(rows, chain) ==> chain.no_duplicates()
}

/// Whether every chain of links that starts at `seq` has at most `m` entries.
pub open spec fn chains_within(rows: Seq<ConjugationRow>, seq: i32, m: nat) -> bool {
    forall|chain: Seq<i32>| #[trigger] is_chain(rows, chain) && chain.len() > 0 && chain[0] == seq ==> chain.len() <= m
}

proof fn lemma_link_targets_len(rows: Seq<ConjugationRow>)
    ensures
        link_targets(rows).len() <= 2 * rows.len(),
    decreases rows.len(),
{
    if rows.len() > 0 {
        lemma_link_targets_len(rows.drop_last());
    }
}

proof fn lemma_nonvia_children_are_targets(rows: Seq<ConjugationRow>, a: i32, i: int)
    requires
        0 <= i < nonvia_children(rows, a).len(),
    ensures
        link_targets(rows).contains(nonvia_children(rows, a)[i]),
    decreases rows.len(),
{
    let p = rows.drop_last();
    let r = rows.last();
    let tail = match r.1 {
        Some(v) => seq![r.2, v],
        None => seq![r.2],
    };
    assert(link_targets(rows) == link_targets(p) + tail);
    if i < nonvia_children(p, a).len() {
        lemma_nonvia_children_are_targets(p, a, i);
        let j = choose|j: int| 0 <= j < link_targets(p).len() && link_targets(p)[j] == nonvia_children(p, a)[i];
        assert(link_targets(rows)[j] == nonvia_children(rows, a)[i]);
    } else {
        assert(nonvia_children(rows, a)[i] == r.2);
        assert(link_targets(rows)[link_targets(p).len() as int] == r.2);
    }
}

proof fn lemma_via_children_are_targets(rows: Seq<ConjugationRow>, a: i32, i: int)
    requires
        0 <= i < via_children(rows, a).len(),
    ensures
        link_targets(rows).contains(via_children(rows, a)[i]),
    decreases rows.len(),
{
    let p = rows.drop_last();
    let r = rows.last();
    let tail = match r.1 {
        Some(v) => seq![r.2, v],
        None => seq![r.2],
    };
    assert(link_targets(rows) == link_targets(p) + tail);
    let base = link_targets(p).len() as int;
    if i < via_children(p, a).len() {
        lemma_via_children_are_targets(p, a, i);
        let j = choose|j: int| 0 <= j < link_targets(p).len() && link_targets(p)[j] == via_children(p, a)[i];
        assert(link_targets(rows)[j] == via_children(rows, a)[i]);
    } else if i == via_children(p, a).len() {
        assert(via_children(rows, a)[i] == r.2);
        assert(link_targets(rows)[base] == r.2);
    } else {
        assert(via_children(rows, a)[i] == r.1->0);
        assert(link_targets(rows)[base + 1] == r.1->0);
    }
}

/// Every entry that a link leads to is among the link targets.
proof fn lemma_children_are_targets(rows: Seq<ConjugationRow>, a: i32, c: i32)
    requires
        children(rows, a).contains(c),
    ensures
        link_targets(rows).contains(c),
{
    let ch = children(rows, a);
    let i = choose|i: int| 0 <= i < ch.len() && ch[i] == c;
    let n = nonvia_children(rows, a);
    if i < n.len() {
        assert(ch[i] == n[i]);
        lemma_nonvia_children_are_targets(rows, a, i);
    } else {
        assert(ch[i] == via_children(rows, a)[i - n.len()]);
        lemma_via_children_are_targets(rows, a, i - n.len());
    }
}

/// Where no chain repeats an entry, a chain has at most one entry more than there are link
/// targets, and so at most twice as many as there are rows, plus one.
proof fn lemma_chain_len(rows: Seq<ConjugationRow>, chain: Seq<i32>)
    requires
        chains_never_repeat(rows),
        is_chain(rows, chain),
        chain.len() > 0,
    ensures
        chain.len() <= 2 * rows.len() + 1,
{
    let q = chain.drop_first();
    let t = link_targets(rows);
    assert(chain.no_duplicates());
    assert(q.no_duplicates()) by {
        assert forall|a: int, b: int| 0 <= a < b < q.len() implies q[a] != q[b] by {
            assert(q[a] == chain[a + 1] && q[b] == chain[b + 1]);
        }
    }
    assert forall|x: i32| q.to_set().contains(x) implies t.to_set().contains(x) by {
        let i = choose|i: int| 0 <= i < q.len() && q[i] == x;
        assert(chain[i + 1] == x);
        assert(children(rows, chain[i + 1 - 1]).contains(chain[i + 1]));
        lemma_children_are_targets(rows, chain[i], x);
    }
    q.unique_seq_to_set();
    vstd::seq_lib::seq_to_set_is_finite(t);
    vstd::set_lib::lemma_len_subset(q.to_set(), t.to_set());
    t.lemma_cardinality_of_set();
    lemma_link_targets_len(rows);
}

/// The chains from a link target of `seq` are those from `seq` without their first entry.
proof fn lemma_chains_within_child(rows: Seq<ConjugationRow>, seq: i32, m: nat, c: i32)
    requires
        chains_within(rows, seq, m),
        children(rows, seq).contains(c),
        m > 0,
    ensures
        chains_within(rows, c, (m - 1) as nat),
{
    assert forall|chain: Seq<i32>| #[trigger] is_chain(rows, chain) && chain.len() > 0 && chain[0] == c implies chain.len() <= (m - 1) as nat by {
        let longer = seq![seq] + chain;
        assert forall|i: int| 1 <= i < longer.len() implies children(rows, longer[i - 1]).contains(#[trigger] longer[i]) by {
            if i == 1 {
                assert(longer[1] == c && longer[0] == seq);
            } else {
                assert(longer[i] == chain[i - 1] && longer[i - 1] == chain[i - 2]);
                assert(children(rows, chain[(i - 1) - 1]).contains(chain[i - 1]));
            }
        }
        assert(is_chain(rows, longer));
        assert(longer[0] == seq);
    }
}

/// Where every chain from `seq` has at most `m` entries, the search from `seq` visits the same
/// entries for every depth of at least `m - 1`.
proof fn lemma_depth_irrelevant_within(rows: Seq<ConjugationRow>, seq: i32, m: nat, d1: nat, d2: nat)
    requires
        chains_within(rows, seq, m),
        m <= d1 + 1,
        m <= d2 + 1,
    ensures
        postorder(rows, seq, d1) == postorder(rows, seq, d2),
    decreases d1, 0nat,
{
    let ch = children(rows, seq);
    if d1 == 0 || d2 == 0 {
        if ch.len() > 0 {
            let pair = seq![seq, ch[0]];
            assert(pair[1] == ch[0] && pair[0] == seq);
            assert(ch.contains(ch[0]));
            assert(is_chain(rows, pair));
        }
        assert(ch =~= Seq::<i32>::empty());
        assert(postorder_all(rows, ch, (d1 - 1) as nat) =~= Seq::<i32>::empty());
        assert(postorder_all(rows, ch, (d2 - 1) as nat) =~= Seq::<i32>::empty());
    } else {
        let chain1 = seq![seq];
        assert(is_chain(rows, chain1));
        assert(chain1[0] == seq);
        assert forall|i: int| 0 <= i < ch.len() implies chains_within(rows, #[trigger] ch[i], (m - 1) as nat) by {
            assert(ch.contains(ch[i]));
            lemma_chains_within_child(rows, seq, m, ch[i]);
        }
        lemma_depth_irrelevant_within_all(rows, ch, (m - 1) as nat, (d1 - 1) as nat, (d2 - 1) as nat);
    }
}

proof fn lemma_depth_irrelevant_within_all(rows: Seq<ConjugationRow>, list: Seq<i32>, m: nat, d1: nat, d2: nat)
    requires
        forall|i: int| 0 <= i < list.len() ==> chains_within(rows, #[trigger] list[i], m),
        m <= d1 + 1,
        m <= d2 + 1,
    ensures
        postorder_all(rows, list, d1) == postorder_all(rows, list, d2),
    decreases d1, list.len() + 1,
{
    if list.len() > 0 {
        let p = list.drop_last();
        assert forall|i: int| 0 <= i < p.len() implies chains_within(rows, #[trigger] p[i], m) by {
            assert(p[i] == list[i]);
        }
        lemma_depth_irrelevant_within_all(rows, p, m, d1, d2);
        assert(chains_within(rows, list[list.len() - 1], m));
        lemma_depth_irrelevant_within(rows, list.last(), m, d1, d2);
    }
}

/// Where no chain of conjugation links visits an entry twice, the bound on the search depth
/// never cuts a search short: searching deeper visits the same entries in the same order.
pub proof fn lemma_search_depth_suffices(rows: Seq<ConjugationRow>, seq: i32, d: nat)
    requires
        chains_never_repeat(rows),
        2 * rows.len() <= u64::MAX,
        search_depth(rows.len()) <= d,
    ensures
        postorder(rows, seq, search_depth(rows.len())) == postorder(rows, seq, d),
{
    let m = 2 * rows.len() + 1;
    assert forall|chain: Seq<i32>| #[trigger] is_chain(rows, chain) && chain.len() > 0 && chain[0] == seq implies chain.len() <= m by {
        lemma_chain_len(rows, chain);
    }
    lemma_depth_irrelevant_within(rows, seq, m as nat, search_depth(rows.len()), d);
}

} // verus!
