//! The sentence form of the first web frontend: the sentence comes as phrases, each with the
//! ways ichiran interprets it, and the user accepts, skips or ignores the words of each
//! interpretation.
use crate::api::Meaning;
use std::collections::HashSet;
use vstd::prelude::*;
use vstd::string::StringSliceAdditionalSpecFns;
use vstd::utf8::*;

verus! {

broadcast use {
    vstd::utf8::group_utf8_lib,
    vstd::string::group_string_axioms,
    vstd::std_specs::hash::group_hash_axioms,
};

// ---------------------------------------------------------------------------------------------
// Segmented sentences
// ---------------------------------------------------------------------------------------------

/// A word of an interpretation of a phrase.
pub struct WordInfo {
    pub word: String,
    /// The LBR word, if ichiran's word is one.
    pub word_id: Option<i32>,
    pub reading_hiragana: String,
    pub meanings: Vec<Meaning>,
}

/// One way of reading a phrase: its words in order.
pub struct Interpretation {
    pub score: i32,
    pub reading_hiragana: String,
    pub components: Vec<WordInfo>,
}

/// A part of a sentence: a phrase with its interpretations, or text that is not Japanese.
pub enum Segment {
    Phrase { phrase: String, interpretations: Vec<Interpretation> },
    Other(String),
}

/// A sentence cut into segments, with the words of it that the user ignores.
pub struct SegmentedSentence {
    pub sentence: String,
    pub segments: Vec<Segment>,
    pub ignored_words: HashSet<i32>,
}

// ---------------------------------------------------------------------------------------------
// Finding text
// ---------------------------------------------------------------------------------------------

/// Whether `p` occurs in `s` at byte `i`.
pub open spec fn match_at(s: Seq<u8>, p: Seq<u8>, i: int) -> bool {
    0 <= i && i + p.len() <= s.len() && s.subrange(i, i + p.len()) == p
}

/// The first byte from `i` on at which `p` occurs in `s`.
pub open spec fn first_match_from(s: Seq<u8>, p: Seq<u8>, i: int) -> Option<int>
    decreases s.len() + 1 - i,
{
    if i < 0 || i > s.len() {
        None
    } else if match_at(s, p, i) {
        Some(i)
    } else {
        first_match_from(s, p, i + 1)
    }
}

/// Finds text with `str::find` of std, which returns the byte index of the first occurrence of
/// the pattern in the text, or `None` when it does not occur.
#[verifier::external_body]
fn find_str(s: &str, pat: &str) -> (found: Option<usize>)
    ensures
        match first_match_from(s.spec_bytes(), pat.spec_bytes(), 0) {
            Some(i) => found == Some(i as usize),
            None => found is None,
        },
{
    s.find(pat)
}

/// Where `p` first occurs in the text of `b` from byte `idx` on, counted from `idx`: `None` when
/// `idx` is not a character boundary (the text cannot be cut there) or `p` does not occur.
pub open spec fn find_from(b: Seq<u8>, idx: int, p: Seq<u8>) -> Option<int> {
    if !is_char_boundary(b, idx) {
        None
    } else {
        first_match_from(b.subrange(idx, b.len() as int), p, 0)
    }
}

/// Finds `pat` in `s` from byte `idx` on.
fn find_from_exec(s: &str, idx: usize, pat: &str) -> (found: Option<usize>)
    ensures
        match find_from(s.spec_bytes(), idx as int, pat.spec_bytes()) {
            Some(i) => found == Some(i as usize),
            None => found is None,
        },
{
    if !s.is_char_boundary(idx) {
        return None;
    }
    let (_, rest) = s.split_at(idx);
    find_str(rest, pat)
}

proof fn lemma_first_match_bounds(s: Seq<u8>, p: Seq<u8>, i: int)
    ensures
        first_match_from(s, p, i) matches Some(j) ==> i <= j && match_at(s, p, j),
    decreases s.len() + 1 - i,
{
    if 0 <= i <= s.len() && !match_at(s, p, i) {
        lemma_first_match_bounds(s, p, i + 1);
    }
}

// ---------------------------------------------------------------------------------------------
// The words of the form
// ---------------------------------------------------------------------------------------------

/// What the user decided of a word of an interpretation.
#[derive(Debug, Clone, Copy, PartialEq, Eq, Structural)]
pub enum Status {
    Accept,
    Skip,
    Ignore,
    Undecided,
}

/// A word of an interpretation of a phrase that is an LBR word, located in the sentence.
pub struct Component {
    /// The index of the segment among the sentence's segments.
    pub phrase_seq: usize,
    /// The index of the interpretation among the phrase's interpretations.
    pub interpretation_seq: usize,
    /// The index of the word among the interpretation's words.
    pub component_seq: usize,
    pub word_id: i32,
    pub idx_start: usize,
    pub idx_end: usize,
    pub status: Status,
    pub reading: String,
    pub reading_override: String,
}

pub struct ComponentView {
    pub phrase_seq: int,
    pub interpretation_seq: int,
    pub component_seq: int,
    pub word_id: i32,
    pub idx_start: int,
    pub idx_end: int,
    pub status: Status,
    pub reading: Seq<char>,
    pub reading_override: Seq<char>,
}

impl View for Component {
    type V = ComponentView;

    open spec fn view(&self) -> ComponentView {
        ComponentView {
            phrase_seq: self.phrase_seq as int,
            interpretation_seq: self.interpretation_seq as int,
            component_seq: self.component_seq as int,
            word_id: self.word_id,
            idx_start: self.idx_start as int,
            idx_end: self.idx_end as int,
            status: self.status,
            reading: self.reading@,
            reading_override: self.reading_override@,
        }
    }
}

pub open spec fn components_view(cs: Seq<Component>) -> Seq<ComponentView> {
    cs.map_values(|c: Component| c@)
}

/// How a word starts out: accepted when its phrase has one interpretation, ignored when the user
/// ignores it, undecided otherwise.
pub open spec fn initial_status(single: bool, ignored: Set<i32>, id: i32) -> Status {
    if single {
        Status::Accept
    } else if ignored.contains(id) {
        Status::Ignore
    } else {
        Status::Undecided
    }
}

/// The words of an interpretation, each searched for in the sentence's bytes `b` from where the
/// previous one was found (the first from `idx`); `None` when one is not found.
pub open spec fn place_words(
    b: Seq<u8>,
    ws: Seq<WordInfo>,
    idx: int,
    pseq: int,
    iseq: int,
    cseq: int,
    single: bool,
    ignored: Set<i32>,
) -> Option<Seq<ComponentView>>
    decreases ws.len(),
{
    if ws.len() == 0 {
        Some(seq![])
    } else {
        match find_from(b, idx, encode_utf8(ws[0].word@)) {
            None => None,
            Some(off) => {
                let start = idx + off;
                match place_words(b, ws.drop_first(), start, pseq, iseq, cseq + 1, single, ignored) {
                    None => None,
                    Some(rest) => Some(
                        match ws[0].word_id {
                            Some(id) => seq![
                                ComponentView {
                                    phrase_seq: pseq,
                                    interpretation_seq: iseq,
                                    component_seq: cseq,
                                    word_id: id,
                                    idx_start: start,
                                    idx_end: start + encode_utf8(ws[0].word@).len(),
                                    status: initial_status(single, ignored, id),
                                    reading: ws[0].reading_hiragana@,
                                    reading_override: seq![],
                                },
                            ],
                            None => seq![],
                        } + rest,
                    ),
                }
            },
        }
    }
}

/// The words of the interpretations of a phrase found at `idx`, interpretation by interpretation.
pub open spec fn place_interpretations(
    b: Seq<u8>,
    is: Seq<Interpretation>,
    idx: int,
    pseq: int,
    iseq: int,
    single: bool,
    ignored: Set<i32>,
) -> Option<Seq<ComponentView>>
    decreases is.len(),
{
    if is.len() == 0 {
        Some(seq![])
    } else {
        match place_words(b, is[0].components@, idx, pseq, iseq, 0, single, ignored) {
            None => None,
            Some(first) => match place_interpretations(b, is.drop_first(), idx, pseq, iseq + 1, single, ignored) {
                None => None,
                Some(rest) => Some(first + rest),
            },
        }
    }
}

/// The words of the segments, each phrase searched for in the sentence from where the previous
/// phrase was found (the first from `idx`), text that is not a phrase skipped by its length;
/// `None` when a phrase or a word is not found.
pub open spec fn place_segments(b: Seq<u8>, segs: Seq<Segment>, idx: int, pseq: int, ignored: Set<i32>) -> Option<Seq<ComponentView>>
    decreases segs.len(),
{
    if segs.len() == 0 {
        Some(seq![])
    } else {
        match segs[0] {
            Segment::Phrase { phrase, interpretations } => match find_from(b, idx, encode_utf8(phrase@)) {
                None => None,
                Some(off) => {
                    let start = idx + off;
                    match place_interpretations(b, interpretations@, start, pseq, 0, interpretations@.len() == 1, ignored) {
                        None => None,
                        Some(first) => match place_segments(b, segs.drop_first(), start, pseq + 1, ignored) {
                            None => None,
                            Some(rest) => Some(first + rest),
                        },
                    }
                },
            },
            Segment::Other(other) => place_segments(b, segs.drop_first(), idx + encode_utf8(other@).len(), pseq + 1, ignored),
        }
    }
}

/// The words of the form of a segmented sentence.
pub open spec fn placement(s: SegmentedSentence) -> Option<Seq<ComponentView>> {
    place_segments(encode_utf8(s.sentence@), s.segments@, 0, 0, s.ignored_words@)
}

fn initial_status_exec(single: bool, ignored: &HashSet<i32>, id: i32) -> (st: Status)
    ensures
        st == initial_status(single, ignored@, id),
{
    if single {
        Status::Accept
    } else if ignored.contains(&id) {
        Status::Ignore
    } else {
        Status::Undecided
    }
}

/// Locates the words of an interpretation, adding them to `out`.
fn place_words_exec(
    out: &mut Vec<Component>,
    sentence: &str,
    ws: &Vec<WordInfo>,
    idx: usize,
    pseq: usize,
    iseq: usize,
    single: bool,
    ignored: &HashSet<i32>,
) -> (ok: bool)
    ensures
        match place_words(sentence.spec_bytes(), ws@, idx as int, pseq as int, iseq as int, 0, single, ignored@) {
            None => !ok,
            Some(cs) => ok && components_view(final(out)@) == components_view(old(out)@) + cs,
        },
{
    let ghost b = sentence.spec_bytes();
    let n = sentence.as_bytes().len();
    let ghost start_out = components_view(out@);
    let mut k: usize = 0;
    let mut at: usize = idx;
    proof {
        assert(ws@.skip(0) =~= ws@);
        assert(components_view(out@).subrange(start_out.len() as int, components_view(out@).len() as int) =~= Seq::<ComponentView>::empty());
        assert(Seq::<ComponentView>::empty() + place_words(b, ws@, idx as int, pseq as int, iseq as int, 0, single, ignored@)->0 =~= place_words(b, ws@, idx as int, pseq as int, iseq as int, 0, single, ignored@)->0);
    }
    while k < ws.len()
        invariant
            k <= ws@.len(),
            b == sentence.spec_bytes(),
            n == b.len(),
            place_words(b, ws@, idx as int, pseq as int, iseq as int, 0, single, ignored@) == match place_words(b, ws@.skip(k as int), at as int, pseq as int, iseq as int, k as int, single, ignored@) {
                None => None,
                Some(rest) => Some(components_view(out@).subrange(start_out.len() as int, components_view(out@).len() as int) + rest),
            },
            components_view(out@).subrange(0, start_out.len() as int) == start_out,
            start_out.len() <= components_view(out@).len(),
        decreases ws.len() - k,
    {
        let w = &ws[k];
        let ghost rest_ws = ws@.skip(k as int);
        proof {
            assert(rest_ws[0] == *w);
            assert(rest_ws.drop_first() =~= ws@.skip(k + 1));
        }
        let off = match find_from_exec(sentence, at, w.word.as_str()) {
            Some(off) => off,
            None => {
                return false;
            },
        };
        proof {
            let suffix = b.subrange(at as int, b.len() as int);
            lemma_first_match_bounds(suffix, encode_utf8(w.word@), 0);
        }
        let start = at + off;
        let ghost prev = components_view(out@);
        if let Some(id) = w.word_id {
            let c = Component {
                phrase_seq: pseq,
                interpretation_seq: iseq,
                component_seq: k,
                word_id: id,
                idx_start: start,
                idx_end: start + w.word.as_str().as_bytes().len(),
                status: initial_status_exec(single, ignored, id),
                reading: w.reading_hiragana.clone(),
                reading_override: String::new(),
            };
            out.push(c);
            proof {
                assert(components_view(out@) =~= prev.push(c@));
                assert(components_view(out@).subrange(0, start_out.len() as int) =~= prev.subrange(0, start_out.len() as int));
                assert(components_view(out@).subrange(start_out.len() as int, components_view(out@).len() as int) =~= prev.subrange(start_out.len() as int, prev.len() as int).push(c@));
                match place_words(b, ws@.skip(k + 1), start as int, pseq as int, iseq as int, k + 1, single, ignored@) {
                    Some(rest) => {
                        assert(prev.subrange(start_out.len() as int, prev.len() as int) + (seq![c@] + rest) =~= prev.subrange(start_out.len() as int, prev.len() as int).push(c@) + rest);
                    },
                    None => {},
                }
            }
        } else {
            proof {
                match place_words(b, ws@.skip(k + 1), start as int, pseq as int, iseq as int, k + 1, single, ignored@) {
                    Some(rest) => {
                        assert(Seq::<ComponentView>::empty() + rest =~= rest);
                    },
                    None => {},
                }
            }
        }
        at = start;
        k += 1;
    }
    proof {
        assert(ws@.skip(k as int) =~= Seq::<WordInfo>::empty());
        let added = components_view(out@).subrange(start_out.len() as int, components_view(out@).len() as int);
        assert(added + Seq::<ComponentView>::empty() =~= added);
        assert(components_view(out@) =~= start_out + added);
    }
    true
}

/// Locates the words of the interpretations of a phrase found at `idx`, adding them to `out`.
fn place_interpretations_exec(
    out: &mut Vec<Component>,
    sentence: &str,
    is: &Vec<Interpretation>,
    idx: usize,
    pseq: usize,
    single: bool,
    ignored: &HashSet<i32>,
) -> (ok: bool)
    ensures
        match place_interpretations(sentence.spec_bytes(), is@, idx as int, pseq as int, 0, single, ignored@) {
            None => !ok,
            Some(cs) => ok && components_view(final(out)@) == components_view(old(out)@) + cs,
        },
{
    let ghost b = sentence.spec_bytes();
    let ghost start_out = components_view(out@);
    let mut k: usize = 0;
    proof {
        assert(is@.skip(0) =~= is@);
        assert(components_view(out@).subrange(start_out.len() as int, components_view(out@).len() as int) =~= Seq::<ComponentView>::empty());
        assert(Seq::<ComponentView>::empty() + place_interpretations(b, is@, idx as int, pseq as int, 0, single, ignored@)->0 =~= place_interpretations(b, is@, idx as int, pseq as int, 0, single, ignored@)->0);
    }
    while k < is.len()
        invariant
            k <= is@.len(),
            b == sentence.spec_bytes(),
            place_interpretations(b, is@, idx as int, pseq as int, 0, single, ignored@) == match place_interpretations(b, is@.skip(k as int), idx as int, pseq as int, k as int, single, ignored@) {
                None => None,
                Some(rest) => Some(components_view(out@).subrange(start_out.len() as int, components_view(out@).len() as int) + rest),
            },
            components_view(out@).subrange(0, start_out.len() as int) == start_out,
            start_out.len() <= components_view(out@).len(),
        decreases is.len() - k,
    {
        let i = &is[k];
        let ghost rest_is = is@.skip(k as int);
        let ghost prev = components_view(out@);
        proof {
            assert(rest_is[0] == *i);
            assert(rest_is.drop_first() =~= is@.skip(k + 1));
        }
        if !place_words_exec(out, sentence, &i.components, idx, pseq, k, single, ignored) {
            return false;
        }
        proof {
            let added = components_view(out@).subrange(prev.len() as int, components_view(out@).len() as int);
            assert(components_view(out@) =~= prev + added);
            assert(components_view(out@).subrange(0, start_out.len() as int) =~= prev.subrange(0, start_out.len() as int));
            assert(components_view(out@).subrange(start_out.len() as int, components_view(out@).len() as int) =~= prev.subrange(start_out.len() as int, prev.len() as int) + added);
            match place_interpretations(b, is@.skip(k + 1), idx as int, pseq as int, k + 1, single, ignored@) {
                Some(rest) => {
                    assert(prev.subrange(start_out.len() as int, prev.len() as int) + (added + rest) =~= (prev.subrange(start_out.len() as int, prev.len() as int) + added) + rest);
                },
                None => {},
            }
        }
        k += 1;
    }
    proof {
        assert(is@.skip(k as int) =~= Seq::<Interpretation>::empty());
        let added = components_view(out@).subrange(start_out.len() as int, components_view(out@).len() as int);
        assert(added + Seq::<ComponentView>::empty() =~= added);
        assert(components_view(out@) =~= start_out + added);
    }
    true
}

/// Locates the words of the form of a segmented sentence: `None` where a phrase or a word is not
/// found in the sentence.
pub fn place_components(s: &SegmentedSentence) -> (placed: Option<Vec<Component>>)
    ensures
        match placement(*s) {
            None => placed is None,
            Some(cs) => placed matches Some(v) && components_view(v@) == cs,
        },
{
    let sentence = s.sentence.as_str();
    let ghost b = sentence.spec_bytes();
    let n = sentence.as_bytes().len();
    let mut out: Vec<Component> = Vec::new();
    // `None` once the position is past the largest index
    let mut idx: Option<usize> = Some(0);
    let ghost mut idx_spec: int = 0;
    let mut k: usize = 0;
    proof {
        assert(s.segments@.skip(0) =~= s.segments@);
        assert(Seq::<ComponentView>::empty() + placement(*s)->0 =~= placement(*s)->0);
    }
    while k < s.segments.len()
        invariant
            k <= s.segments@.len(),
            b == sentence.spec_bytes(),
            b == encode_utf8(s.sentence@),
            n == b.len(),
            match idx {
                Some(i) => i == idx_spec,
                None => idx_spec > usize::MAX,
            },
            placement(*s) == match place_segments(b, s.segments@.skip(k as int), idx_spec, k as int, s.ignored_words@) {
                None => None,
                Some(rest) => Some(components_view(out@) + rest),
            },
        decreases s.segments.len() - k,
    {
        let seg = &s.segments[k];
        let ghost rest_segs = s.segments@.skip(k as int);
        let ghost prev = components_view(out@);
        proof {
            assert(rest_segs[0] == *seg);
            assert(rest_segs.drop_first() =~= s.segments@.skip(k + 1));
        }
        match seg {
            Segment::Phrase { phrase, interpretations } => {
                let at = match idx {
                    Some(i) => i,
                    None => {
                        proof {
                            assert(!is_char_boundary(b, idx_spec));
                        }
                        return None;
                    },
                };
                let off = match find_from_exec(sentence, at, phrase.as_str()) {
                    Some(off) => off,
                    None => {
                        return None;
                    },
                };
                proof {
                    let suffix = b.subrange(at as int, b.len() as int);
                    lemma_first_match_bounds(suffix, encode_utf8(phrase@), 0);
                }
                let start = at + off;
                if !place_interpretations_exec(&mut out, sentence, interpretations, start, k, interpretations.len() == 1, &s.ignored_words) {
                    return None;
                }
                proof {
                    let added = components_view(out@).subrange(prev.len() as int, components_view(out@).len() as int);
                    assert(components_view(out@) =~= prev + added);
                    match place_segments(b, s.segments@.skip(k + 1), start as int, k + 1, s.ignored_words@) {
                        Some(rest) => {
                            assert(prev + (added + rest) =~= (prev + added) + rest);
                        },
                        None => {},
                    }
                    idx_spec = start as int;
                }
                idx = Some(start);
            },
            Segment::Other(other) => {
                let len = other.as_str().as_bytes().len();
                proof {
                    idx_spec = idx_spec + len;
                }
                idx = match idx {
                    Some(i) => i.checked_add(len),
                    None => None,
                };
            },
        }
        k += 1;
    }
    proof {
        assert(s.segments@.skip(k as int) =~= Seq::<Segment>::empty());
        assert(components_view(out@) + Seq::<ComponentView>::empty() =~= components_view(out@));
    }
    Some(out)
}

// ---------------------------------------------------------------------------------------------
// The form
// ---------------------------------------------------------------------------------------------

/// A word's place: its phrase, its interpretation and its index in the interpretation.
pub open spec fn key_of(c: ComponentView) -> (int, int, int) {
    (c.phrase_seq, c.interpretation_seq, c.component_seq)
}

/// Whether some word of the form is at the place.
pub open spec fn has_key(cs: Seq<ComponentView>, key: (int, int, int)) -> bool {
    exists|i: int| 0 <= i < cs.len() && key_of(#[trigger] cs[i]) == key
}

/// Whether some word of the form is of the phrase.
pub open spec fn has_phrase(cs: Seq<ComponentView>, pseq: int) -> bool {
    exists|i: int| 0 <= i < cs.len() && (#[trigger] cs[i]).phrase_seq == pseq
}

pub open spec fn with_status(c: ComponentView, status: Status) -> ComponentView {
    ComponentView { status, ..c }
}

/// Accepting a word: the words of the phrase's other interpretations that are not ignored are
/// skipped, and the word is accepted.
pub open spec fn accept_spec(cs: Seq<ComponentView>, key: (int, int, int)) -> Seq<ComponentView> {
    cs.map_values(
        |c: ComponentView|
            if key_of(c) == key {
                with_status(c, Status::Accept)
            } else if c.phrase_seq == key.0 && c.interpretation_seq != key.1 && c.status != Status::Ignore {
                with_status(c, Status::Skip)
            } else {
                c
            },
    )
}

/// Skipping a word.
pub open spec fn skip_spec(cs: Seq<ComponentView>, key: (int, int, int)) -> Seq<ComponentView> {
    cs.map_values(|c: ComponentView| if key_of(c) == key { with_status(c, Status::Skip) } else { c })
}

/// Ignoring a word: every occurrence of the word in the form is ignored.
pub open spec fn ignore_spec(cs: Seq<ComponentView>, word_id: i32) -> Seq<ComponentView> {
    cs.map_values(|c: ComponentView| if c.word_id == word_id { with_status(c, Status::Ignore) } else { c })
}

/// Skipping a phrase: every word of its interpretations is skipped.
pub open spec fn skip_phrase_spec(cs: Seq<ComponentView>, pseq: int) -> Seq<ComponentView> {
    cs.map_values(|c: ComponentView| if c.phrase_seq == pseq { with_status(c, Status::Skip) } else { c })
}

/// Overriding the reading of a word.
pub open spec fn override_spec(cs: Seq<ComponentView>, key: (int, int, int), reading: Seq<char>) -> Seq<ComponentView> {
    cs.map_values(|c: ComponentView| if key_of(c) == key { ComponentView { reading_override: reading, ..c } } else { c })
}

/// The first word at the place.
pub open spec fn first_with_key(cs: Seq<ComponentView>, key: (int, int, int)) -> int
    decreases cs.len(),
{
    if cs.len() == 0 {
        0
    } else if key_of(cs[0]) == key {
        0
    } else {
        first_with_key(cs.drop_first(), key) + 1
    }
}

proof fn lemma_first_with_key(cs: Seq<ComponentView>, key: (int, int, int), f: int)
    requires
        0 <= f < cs.len(),
        key_of(cs[f]) == key,
        forall|j: int| 0 <= j < f ==> key_of(#[trigger] cs[j]) != key,
    ensures
        first_with_key(cs, key) == f,
    decreases f,
{
    if f > 0 {
        assert forall|j: int| 0 <= j < f - 1 implies key_of(#[trigger] cs.drop_first()[j]) != key by {
            assert(cs.drop_first()[j] == cs[j + 1]);
        }
        lemma_first_with_key(cs.drop_first(), key, f - 1);
    }
}

/// How a phrase is shown: undecided while a word of it is, else accepted when a word of it is,
/// else skipped when a word of it is.
#[derive(Debug, Clone, Copy, PartialEq, Eq, Structural)]
pub enum PhraseState {
    Undecided,
    Accepted,
    Skipped,
    Unknown,
}

pub open spec fn any_status(cs: Seq<ComponentView>, pseq: int, status: Status) -> bool {
    exists|i: int| 0 <= i < cs.len() && (#[trigger] cs[i]).phrase_seq == pseq && cs[i].status == status
}

pub open spec fn phrase_state_spec(cs: Seq<ComponentView>, pseq: int) -> PhraseState {
    if any_status(cs, pseq, Status::Undecided) {
        PhraseState::Undecided
    } else if any_status(cs, pseq, Status::Accept) {
        PhraseState::Accepted
    } else if any_status(cs, pseq, Status::Skip) {
        PhraseState::Skipped
    } else {
        PhraseState::Unknown
    }
}

/// Whether every word of the phrase is skipped.
pub open spec fn all_skipped_spec(cs: Seq<ComponentView>, pseq: int) -> bool {
    forall|i: int| 0 <= i < cs.len() && (#[trigger] cs[i]).phrase_seq == pseq ==> cs[i].status == Status::Skip
}

/// Whether every word is decided.
pub open spec fn ready_spec(cs: Seq<ComponentView>) -> bool {
    forall|i: int| 0 <= i < cs.len() ==> (#[trigger] cs[i]).status != Status::Undecided
}

/// A byte index as sent in a request: the index when it fits in an `i32`, else 0.
pub open spec fn index_or_zero(i: int) -> i32 {
    if 0 <= i <= i32::MAX {
        i as i32
    } else {
        0
    }
}

/// A word accepted by the user, as sent in a request.
pub struct AcceptedWord {
    pub id: i32,
    pub reading: String,
    pub idx_start: i32,
    pub idx_end: i32,
}

/// The accepted words, in order: each with its reading (the override when one was given) and
/// its place in the sentence.
pub open spec fn accepted_words(cs: Seq<ComponentView>) -> Seq<(i32, Seq<char>, i32, i32)>
    decreases cs.len(),
{
    if cs.len() == 0 {
        seq![]
    } else {
        let c = cs.last();
        accepted_words(cs.drop_last()) + if c.status == Status::Accept {
            seq![(
                c.word_id,
                if c.reading_override.len() == 0 {
                    c.reading
                } else {
                    c.reading_override
                },
                index_or_zero(c.idx_start),
                index_or_zero(c.idx_end),
            )]
        } else {
            seq![]
        }
    }
}

/// The words that the user ignores.
pub open spec fn ignored_ids(cs: Seq<ComponentView>) -> Set<i32> {
    Set::new(|id: i32| exists|i: int| 0 <= i < cs.len() && (#[trigger] cs[i]).status == Status::Ignore && cs[i].word_id == id)
}

/// The form of a segmented sentence: its words, with what the user decided of each.
pub struct PhraseForm {
    components: Vec<Component>,
}

impl View for PhraseForm {
    type V = Seq<ComponentView>;

    closed spec fn view(&self) -> Seq<ComponentView> {
        components_view(self.components@)
    }
}

fn copy_component(c: &Component, status: Status, reading_override: Option<&str>) -> (d: Component)
    ensures
        d@ == (ComponentView {
            status,
            reading_override: match reading_override {
                Some(r) => r@,
                None => c@.reading_override,
            },
            ..c@
        }),
{
    Component {
        phrase_seq: c.phrase_seq,
        interpretation_seq: c.interpretation_seq,
        component_seq: c.component_seq,
        word_id: c.word_id,
        idx_start: c.idx_start,
        idx_end: c.idx_end,
        status,
        reading: c.reading.clone(),
        reading_override: match reading_override {
            Some(r) => r.to_string(),
            None => c.reading_override.clone(),
        },
    }
}

impl PhraseForm {
    /// The form of a segmented sentence, each word located in the sentence. A sentence whose
    /// phrases or words cannot be found in it stops the frontend.
    pub fn init(s: &SegmentedSentence) -> (form: PhraseForm)
        requires
            placement(*s) is Some,
        ensures
            form@ == placement(*s)->0,
    {
        match place_components(s) {
            Some(components) => PhraseForm { components },
            None => PhraseForm { components: Vec::new() },
        }
    }

    /// The words of the form.
    pub fn components(&self) -> (cs: &Vec<Component>)
        ensures
            components_view(cs@) == self@,
    {
        &self.components
    }

    /// Whether every word is decided.
    pub fn ready(&self) -> (ready: bool)
        ensures
            ready == ready_spec(self@),
    {
        let mut i: usize = 0;
        while i < self.components.len()
            invariant
                i <= self.components.len(),
                forall|j: int| 0 <= j < i ==> (#[trigger] self@[j]).status != Status::Undecided,
            decreases self.components.len() - i,
        {
            if self.components[i].status == Status::Undecided {
                assert(self@[i as int].status == Status::Undecided);
                return false;
            }
            i += 1;
        }
        true
    }

    /// Whether some word of the phrase has the status.
    fn any_status_exec(&self, pseq: usize, status: Status) -> (any: bool)
        ensures
            any == any_status(self@, pseq as int, status),
    {
        let mut i: usize = 0;
        while i < self.components.len()
            invariant
                i <= self.components.len(),
                forall|j: int| 0 <= j < i ==> !((#[trigger] self@[j]).phrase_seq == pseq && self@[j].status == status),
            decreases self.components.len() - i,
        {
            if self.components[i].phrase_seq == pseq && self.components[i].status == status {
                assert(self@[i as int].phrase_seq == pseq && self@[i as int].status == status);
                return true;
            }
            i += 1;
        }
        false
    }

    /// How the phrase is shown.
    pub fn phrase_state(&self, pseq: usize) -> (state: PhraseState)
        ensures
            state == phrase_state_spec(self@, pseq as int),
    {
        if self.any_status_exec(pseq, Status::Undecided) {
            PhraseState::Undecided
        } else if self.any_status_exec(pseq, Status::Accept) {
            PhraseState::Accepted
        } else if self.any_status_exec(pseq, Status::Skip) {
            PhraseState::Skipped
        } else {
            PhraseState::Unknown
        }
    }

    /// Whether every word of the phrase is skipped.
    pub fn all_skipped(&self, pseq: usize) -> (all: bool)
        ensures
            all == all_skipped_spec(self@, pseq as int),
    {
        let mut i: usize = 0;
        while i < self.components.len()
            invariant
                i <= self.components.len(),
                forall|j: int| 0 <= j < i && (#[trigger] self@[j]).phrase_seq == pseq ==> self@[j].status == Status::Skip,
            decreases self.components.len() - i,
        {
            if self.components[i].phrase_seq == pseq && self.components[i].status != Status::Skip {
                assert(self@[i as int].phrase_seq == pseq);
                return false;
            }
            i += 1;
        }
        true
    }

    /// Accepts the word at the place: the words of the phrase's other interpretations that are
    /// not ignored are skipped. The frontend stops on a place without a word.
    pub fn accept(&mut self, pseq: usize, iseq: usize, cseq: usize)
        requires
            has_key(old(self)@, (pseq as int, iseq as int, cseq as int)),
        ensures
            final(self)@ == accept_spec(old(self)@, (pseq as int, iseq as int, cseq as int)),
            forall|i: int|
                0 <= i < old(self)@.len() && key_of(old(self)@[i]) != (pseq as int, iseq as int, cseq as int) ==> ((
                #[trigger] final(self)@[i]).status == Status::Ignore <==> old(self)@[i].status == Status::Ignore),
    {
        let ghost key = (pseq as int, iseq as int, cseq as int);
        let ghost before = self@;
        let mut i: usize = 0;
        while i < self.components.len()
            invariant
                i <= self.components.len(),
                before.len() == self@.len(),
                key == (pseq as int, iseq as int, cseq as int),
                forall|j: int| 0 <= j < i ==> #[trigger] self@[j] == accept_spec(before, key)[j],
                forall|j: int| i <= j < self@.len() ==> #[trigger] self@[j] == before[j],
            decreases self.components.len() - i,
        {
            let c = &self.components[i];
            let status = if c.phrase_seq == pseq && c.interpretation_seq == iseq && c.component_seq == cseq {
                Status::Accept
            } else if c.phrase_seq == pseq && c.interpretation_seq != iseq && c.status != Status::Ignore {
                Status::Skip
            } else {
                c.status
            };
            let d = copy_component(c, status, None);
            let ghost prev = self@;
            self.components.set(i, d);
            proof {
                assert(self@ =~= prev.update(i as int, d@));
                assert(prev[i as int] == c@);
            }
            i += 1;
        }
        assert(self@ =~= accept_spec(before, key));
        proof {
            lemma_accept_keeps_ignored(before, key);
        }
    }

    /// Skips the word at the place. The frontend stops on a place without a word.
    pub fn skip(&mut self, pseq: usize, iseq: usize, cseq: usize)
        requires
            has_key(old(self)@, (pseq as int, iseq as int, cseq as int)),
        ensures
            final(self)@ == skip_spec(old(self)@, (pseq as int, iseq as int, cseq as int)),
    {
        let ghost key = (pseq as int, iseq as int, cseq as int);
        let ghost before = self@;
        let mut i: usize = 0;
        while i < self.components.len()
            invariant
                i <= self.components.len(),
                before.len() == self@.len(),
                key == (pseq as int, iseq as int, cseq as int),
                forall|j: int| 0 <= j < i ==> #[trigger] self@[j] == skip_spec(before, key)[j],
                forall|j: int| i <= j < self@.len() ==> #[trigger] self@[j] == before[j],
            decreases self.components.len() - i,
        {
            let c = &self.components[i];
            let status = if c.phrase_seq == pseq && c.interpretation_seq == iseq && c.component_seq == cseq {
                Status::Skip
            } else {
                c.status
            };
            let d = copy_component(c, status, None);
            let ghost prev = self@;
            self.components.set(i, d);
            proof {
                assert(self@ =~= prev.update(i as int, d@));
                assert(prev[i as int] == c@);
            }
            i += 1;
        }
        assert(self@ =~= skip_spec(before, key));
    }

    /// Ignores the word at the place, and with it every occurrence of the same word in the form.
    /// The frontend stops on a place without a word.
    pub fn ignore(&mut self, pseq: usize, iseq: usize, cseq: usize)
        requires
            has_key(old(self)@, (pseq as int, iseq as int, cseq as int)),
        ensures
            ({
                let key = (pseq as int, iseq as int, cseq as int);
                final(self)@ == ignore_spec(old(self)@, old(self)@[first_with_key(old(self)@, key)].word_id)
            }),
    {
        let ghost key = (pseq as int, iseq as int, cseq as int);
        let ghost before = self@;
        let mut f: usize = 0;
        while f < self.components.len() && !(self.components[f].phrase_seq == pseq
            && self.components[f].interpretation_seq == iseq && self.components[f].component_seq == cseq)
            invariant
                f <= self.components.len(),
                before == self@,
                key == (pseq as int, iseq as int, cseq as int),
                forall|j: int| 0 <= j < f ==> key_of(#[trigger] before[j]) != key,
            decreases self.components.len() - f,
        {
            assert(before[f as int] == self.components@[f as int]@);
            f += 1;
        }
        proof {
            if f == self.components.len() {
                let j = choose|j: int| 0 <= j < before.len() && key_of(#[trigger] before[j]) == key;
                assert(false);
            }
            lemma_first_with_key(before, key, f as int);
        }
        let word_id = self.components[f].word_id;
        let mut i: usize = 0;
        while i < self.components.len()
            invariant
                i <= self.components.len(),
                before.len() == self@.len(),
                forall|j: int| 0 <= j < i ==> #[trigger] self@[j] == ignore_spec(before, word_id)[j],
                forall|j: int| i <= j < self@.len() ==> #[trigger] self@[j] == before[j],
            decreases self.components.len() - i,
        {
            let c = &self.components[i];
            let status = if c.word_id == word_id {
                Status::Ignore
            } else {
                c.status
            };
            let d = copy_component(c, status, None);
            let ghost prev = self@;
            self.components.set(i, d);
            proof {
                assert(self@ =~= prev.update(i as int, d@));
                assert(prev[i as int] == c@);
            }
            i += 1;
        }
        assert(self@ =~= ignore_spec(before, word_id));
    }

    /// Skips every word of the phrase. The frontend stops on a phrase without words.
    pub fn skip_phrase(&mut self, pseq: usize)
        requires
            has_phrase(old(self)@, pseq as int),
        ensures
            final(self)@ == skip_phrase_spec(old(self)@, pseq as int),
    {
        let ghost before = self@;
        let mut i: usize = 0;
        while i < self.components.len()
            invariant
                i <= self.components.len(),
                before.len() == self@.len(),
                forall|j: int| 0 <= j < i ==> #[trigger] self@[j] == skip_phrase_spec(before, pseq as int)[j],
                forall|j: int| i <= j < self@.len() ==> #[trigger] self@[j] == before[j],
            decreases self.components.len() - i,
        {
            let c = &self.components[i];
            let status = if c.phrase_seq == pseq {
                Status::Skip
            } else {
                c.status
            };
            let d = copy_component(c, status, None);
            let ghost prev = self@;
            self.components.set(i, d);
            proof {
                assert(self@ =~= prev.update(i as int, d@));
                assert(prev[i as int] == c@);
            }
            i += 1;
        }
        assert(self@ =~= skip_phrase_spec(before, pseq as int));
    }

    /// Overrides the reading of the word at the place. The frontend stops on a place without a
    /// word.
    pub fn set_reading_override(&mut self, pseq: usize, iseq: usize, cseq: usize, reading: &str)
        requires
            has_key(old(self)@, (pseq as int, iseq as int, cseq as int)),
        ensures
            final(self)@ == override_spec(old(self)@, (pseq as int, iseq as int, cseq as int), reading@),
    {
        let ghost key = (pseq as int, iseq as int, cseq as int);
        let ghost before = self@;
        let mut i: usize = 0;
        while i < self.components.len()
            invariant
                i <= self.components.len(),
                before.len() == self@.len(),
                key == (pseq as int, iseq as int, cseq as int),
                forall|j: int| 0 <= j < i ==> #[trigger] self@[j] == override_spec(before, key, reading@)[j],
                forall|j: int| i <= j < self@.len() ==> #[trigger] self@[j] == before[j],
            decreases self.components.len() - i,
        {
            let c = &self.components[i];
            let d = if c.phrase_seq == pseq && c.interpretation_seq == iseq && c.component_seq == cseq {
                copy_component(c, c.status, Some(reading))
            } else {
                copy_component(c, c.status, None)
            };
            let ghost prev = self@;
            self.components.set(i, d);
            proof {
                assert(self@ =~= prev.update(i as int, d@));
                assert(prev[i as int] == c@);
            }
            i += 1;
        }
        assert(self@ =~= override_spec(before, key, reading@));
    }

    /// The words that the user accepted, and the words that the user ignores.
    pub fn request(&self) -> (req: (Vec<AcceptedWord>, HashSet<i32>))
        ensures
            req.0@.map_values(|w: AcceptedWord| (w.id, w.reading@, w.idx_start, w.idx_end)) == accepted_words(self@),
            req.1@ == ignored_ids(self@),
    {
        let ghost cs = self@;
        let mut words: Vec<AcceptedWord> = Vec::new();
        let mut ignore_words: HashSet<i32> = HashSet::new();
        let mut i: usize = 0;
        while i < self.components.len()
            invariant
                i <= self.components.len(),
                cs == self@,
                words@.map_values(|w: AcceptedWord| (w.id, w.reading@, w.idx_start, w.idx_end)) == accepted_words(cs.take(i as int)),
                ignore_words@ == ignored_ids(cs.take(i as int)),
            decreases self.components.len() - i,
        {
            let c = &self.components[i];
            let ghost t = cs.take(i + 1);
            proof {
                assert(t.drop_last() =~= cs.take(i as int));
                assert(t.last() == c@);
            }
            let ghost prev_words = words@;
            let ghost prev_ignored = ignore_words@;
            match c.status {
                Status::Accept => {
                    let reading = if c.reading_override.as_str().as_bytes().len() == 0 {
                        c.reading.clone()
                    } else {
                        c.reading_override.clone()
                    };
                    let idx_start: i32 = if c.idx_start <= i32::MAX as usize {
                        c.idx_start as i32
                    } else {
                        0
                    };
                    let idx_end: i32 = if c.idx_end <= i32::MAX as usize {
                        c.idx_end as i32
                    } else {
                        0
                    };
                    let w = AcceptedWord { id: c.word_id, reading, idx_start, idx_end };
                    words.push(w);
                    proof {
                        assert(c.reading_override@.len() == 0 <==> encode_utf8(c.reading_override@).len() == 0) by {
                            if c.reading_override@.len() > 0 {
                                assert(encode_utf8(c.reading_override@).len() > 0) by {
                                    encode_utf8_first_scalar(c.reading_override@);
                                }
                            }
                        }
                        assert(words@.map_values(|w: AcceptedWord| (w.id, w.reading@, w.idx_start, w.idx_end)) =~= prev_words.map_values(|w: AcceptedWord| (w.id, w.reading@, w.idx_start, w.idx_end)).push((w.id, w.reading@, w.idx_start, w.idx_end)));
                    }
                },
                Status::Ignore => {
                    ignore_words.insert(c.word_id);
                },
                _ => {},
            }
            proof {
                assert(ignored_ids(t) =~= if c.status == Status::Ignore {
                    ignored_ids(cs.take(i as int)).insert(c.word_id)
                } else {
                    ignored_ids(cs.take(i as int))
                }) by {
                    assert forall|id: i32| ignored_ids(t).contains(id) <==> (ignored_ids(cs.take(i as int)).contains(id) || (c.status == Status::Ignore && c.word_id == id)) by {
                        if ignored_ids(t).contains(id) {
                            let j = choose|j: int| 0 <= j < t.len() && (#[trigger] t[j]).status == Status::Ignore && t[j].word_id == id;
                            if j < i {
                                assert(cs.take(i as int)[j] == t[j]);
                            }
                        }
                        if ignored_ids(cs.take(i as int)).contains(id) {
                            let j = choose|j: int| 0 <= j < cs.take(i as int).len() && (#[trigger] cs.take(i as int)[j]).status == Status::Ignore && cs.take(i as int)[j].word_id == id;
                            assert(t[j] == cs.take(i as int)[j]);
                        }
                        if c.status == Status::Ignore && c.word_id == id {
                            assert(t[i as int] == c@);
                        }
                    }
                }
            }
            i += 1;
        }
        assert(cs.take(self.components.len() as int) =~= cs);
        (words, ignore_words)
    }
}

// ---------------------------------------------------------------------------------------------
// What the decisions do
// ---------------------------------------------------------------------------------------------

/// Accepting a word decides its phrase: the word is accepted, and every word of the phrase's
/// other interpretations is skipped or ignored; the words of other phrases stay as they were.
pub proof fn lemma_accept_decides_phrase(cs: Seq<ComponentView>, key: (int, int, int))
    ensures
        ({
            let after = accept_spec(cs, key);
            &&& after.len() == cs.len()
            &&& forall|i: int| 0 <= i < cs.len() && key_of(cs[i]) == key ==> (#[trigger] after[i]).status == Status::Accept
            &&& forall|i: int|
                0 <= i < cs.len() && cs[i].phrase_seq == key.0 && cs[i].interpretation_seq != key.1 ==> ((#[trigger] after[i]).status
                    == Status::Skip || after[i].status == Status::Ignore)
            &&& forall|i: int| 0 <= i < cs.len() && cs[i].phrase_seq != key.0 ==> #[trigger] after[i] == cs[i]
        }),
{
}

/// Ignoring a word ignores it everywhere in the form, and the request then lists it among the
/// ignored words.
pub proof fn lemma_ignore_ignores_everywhere(cs: Seq<ComponentView>, word_id: i32)
    ensures
        forall|i: int| 0 <= i < cs.len() && cs[i].word_id == word_id ==> (#[trigger] ignore_spec(cs, word_id)[i]).status == Status::Ignore,
        (exists|i: int| 0 <= i < cs.len() && (#[trigger] cs[i]).word_id == word_id) ==> ignored_ids(ignore_spec(cs, word_id)).contains(word_id),
{
    if exists|i: int| 0 <= i < cs.len() && (#[trigger] cs[i]).word_id == word_id {
        let i = choose|i: int| 0 <= i < cs.len() && (#[trigger] cs[i]).word_id == word_id;
        let after = ignore_spec(cs, word_id);
        assert(after[i].status == Status::Ignore && after[i].word_id == word_id);
    }
}

/// Skipping a phrase skips all of it: no word of it is left undecided, and it is shown as
/// skipped.
pub proof fn lemma_skip_phrase_skips_all(cs: Seq<ComponentView>, pseq: int)
    requires
        has_phrase(cs, pseq),
    ensures
        all_skipped_spec(skip_phrase_spec(cs, pseq), pseq),
        phrase_state_spec(skip_phrase_spec(cs, pseq), pseq) == PhraseState::Skipped,
{
    let after = skip_phrase_spec(cs, pseq);
    let i = choose|i: int| 0 <= i < cs.len() && (#[trigger] cs[i]).phrase_seq == pseq;
    assert(after[i].phrase_seq == pseq && after[i].status == Status::Skip);
    assert(!any_status(after, pseq, Status::Undecided));
    assert(!any_status(after, pseq, Status::Accept));
}

// ---------------------------------------------------------------------------------------------
// The ignored words of a sentence
// ---------------------------------------------------------------------------------------------

/// The words of the words, in order.
pub open spec fn word_info_ids(ws: Seq<WordInfo>) -> Seq<i32>
    decreases ws.len(),
{
    if ws.len() == 0 {
        seq![]
    } else {
        word_info_ids(ws.drop_last()) + match ws.last().word_id {
            Some(id) => seq![id],
            None => seq![],
        }
    }
}

/// The words of the interpretations, in order.
pub open spec fn interpretations_ids(is: Seq<Interpretation>) -> Seq<i32>
    decreases is.len(),
{
    if is.len() == 0 {
        seq![]
    } else {
        interpretations_ids(is.drop_last()) + word_info_ids(is.last().components@)
    }
}

/// The words of the phrases of the segments, in order.
pub open spec fn segments_ids(segs: Seq<Segment>) -> Seq<i32>
    decreases segs.len(),
{
    if segs.len() == 0 {
        seq![]
    } else {
        segments_ids(segs.drop_last()) + match segs.last() {
            Segment::Phrase { interpretations, .. } => interpretations_ids(interpretations@),
            Segment::Other(_) => seq![],
        }
    }
}

/// Adds the words of the words to `ids`.
fn push_word_ids(ids: &mut Vec<i32>, ws: &Vec<WordInfo>)
    ensures
        final(ids)@ == old(ids)@ + word_info_ids(ws@),
{
    let ghost base = ids@;
    let mut k: usize = 0;
    while k < ws.len()
        invariant
            k <= ws.len(),
            ids@ == base + word_info_ids(ws@.take(k as int)),
        decreases ws.len() - k,
    {
        let ghost t = ws@.take(k + 1);
        assert(t.drop_last() =~= ws@.take(k as int));
        assert(t.last() == ws@[k as int]);
        let ghost prev = ids@;
        if let Some(id) = ws[k].word_id {
            ids.push(id);
            assert(base + word_info_ids(t) =~= prev.push(id));
        } else {
            assert(base + word_info_ids(t) =~= prev);
        }
        k += 1;
    }
    assert(ws@.take(ws.len() as int) =~= ws@);
}

/// The words of the sentence's phrases that the user ignores: those that a word of an
/// interpretation of a phrase is of and that the user ignores.
pub fn sentence_ignored_words(segments: &Vec<Segment>, ignored: &HashSet<i32>) -> (words: HashSet<i32>)
    ensures
        forall|id: i32| #[trigger] words@.contains(id) <==> (segments_ids(segments@).contains(id) && ignored@.contains(id)),
{
    let mut ids: Vec<i32> = Vec::new();
    let mut s: usize = 0;
    while s < segments.len()
        invariant
            s <= segments.len(),
            ids@ == segments_ids(segments@.take(s as int)),
        decreases segments.len() - s,
    {
        let ghost t = segments@.take(s + 1);
        assert(t.drop_last() =~= segments@.take(s as int));
        assert(t.last() == segments@[s as int]);
        if let Segment::Phrase { interpretations, .. } = &segments[s] {
            let ghost base = ids@;
            let mut k: usize = 0;
            while k < interpretations.len()
                invariant
                    k <= interpretations.len(),
                    ids@ == base + interpretations_ids(interpretations@.take(k as int)),
                decreases interpretations.len() - k,
            {
                let ghost ti = interpretations@.take(k + 1);
                assert(ti.drop_last() =~= interpretations@.take(k as int));
                assert(ti.last() == interpretations@[k as int]);
                push_word_ids(&mut ids, &interpretations[k].components);
                assert(base + interpretations_ids(ti) =~= base + interpretations_ids(interpretations@.take(k as int)) + word_info_ids(interpretations@[k as int].components@));
                k += 1;
            }
            assert(interpretations@.take(interpretations.len() as int) =~= interpretations@);
        } else {
            assert(segments_ids(t) =~= segments_ids(segments@.take(s as int)));
        }
        s += 1;
    }
    assert(segments@.take(segments.len() as int) =~= segments@);
    let mut words: HashSet<i32> = HashSet::new();
    let mut i: usize = 0;
    while i < ids.len()
        invariant
            i <= ids.len(),
            forall|id: i32| #[trigger] words@.contains(id) <==> (ids@.take(i as int).contains(id) && ignored@.contains(id)),
        decreases ids.len() - i,
    {
        let id = ids[i];
        if ignored.contains(&id) {
            words.insert(id);
        }
        proof {
            let prev = ids@.take(i as int);
            let next = ids@.take(i + 1);
            assert forall|x: i32| next.contains(x) <==> prev.contains(x) || x == id by {
                if next.contains(x) {
                    let k = choose|k: int| 0 <= k < next.len() && next[k] == x;
                    if k < prev.len() {
                        assert(prev[k] == x);
                    }
                }
                if prev.contains(x) {
                    let k = choose|k: int| 0 <= k < prev.len() && prev[k] == x;
                    assert(next[k] == x);
                }
                assert(next[i as int] == id);
            }
        }
        i += 1;
    }
    assert(ids@.take(ids.len() as int) =~= ids@);
    words
}

// ---------------------------------------------------------------------------------------------
// What the sentence form shows
// ---------------------------------------------------------------------------------------------

/// Whether the word is unknown (no LBR word) or one that the user ignores.
pub open spec fn unknown_or_ignored(w: WordInfo, ignored: Set<i32>) -> bool {
    match w.word_id {
        Some(id) => ignored.contains(id),
        None => true,
    }
}

/// Whether every word of the interpretation is unknown or ignored: the form then leaves the
/// interpretation out.
pub open spec fn interpretation_hidden(i: Interpretation, ignored: Set<i32>) -> bool {
    forall|k: int| 0 <= k < i.components@.len() ==> unknown_or_ignored(#[trigger] i.components@[k], ignored)
}

/// Whether every word of every interpretation of a phrase is unknown or ignored: the form then
/// shows the phrase as plain text.
pub open spec fn phrase_hidden(is: Seq<Interpretation>, ignored: Set<i32>) -> bool {
    forall|j: int| 0 <= j < is.len() ==> interpretation_hidden(#[trigger] is[j], ignored)
}

/// The positions of the interpretations that are shown, in order.
pub open spec fn shown_positions(is: Seq<Interpretation>, ignored: Set<i32>) -> Seq<usize>
    decreases is.len(),
{
    if is.len() == 0 {
        seq![]
    } else {
        shown_positions(is.drop_last(), ignored) + if interpretation_hidden(is.last(), ignored) {
            seq![]
        } else {
            seq![(is.len() - 1) as usize]
        }
    }
}

/// Whether the form leaves out the interpretation: every word of it is unknown or ignored.
pub fn is_interpretation_hidden(interpretation: &Interpretation, ignored: &HashSet<i32>) -> (hidden: bool)
    ensures
        hidden == interpretation_hidden(*interpretation, ignored@),
{
    let mut k: usize = 0;
    while k < interpretation.components.len()
        invariant
            k <= interpretation.components.len(),
            forall|m: int| 0 <= m < k ==> unknown_or_ignored(#[trigger] interpretation.components@[m], ignored@),
        decreases interpretation.components.len() - k,
    {
        match interpretation.components[k].word_id {
            Some(id) => {
                if !ignored.contains(&id) {
                    assert(!unknown_or_ignored(interpretation.components@[k as int], ignored@));
                    return false;
                }
            },
            None => {},
        }
        k += 1;
    }
    true
}

/// Whether the form shows the phrase as plain text: every word of every interpretation of it
/// is unknown or ignored.
pub fn is_phrase_hidden(interpretations: &Vec<Interpretation>, ignored: &HashSet<i32>) -> (hidden: bool)
    ensures
        hidden == phrase_hidden(interpretations@, ignored@),
{
    let mut j: usize = 0;
    while j < interpretations.len()
        invariant
            j <= interpretations.len(),
            forall|m: int| 0 <= m < j ==> interpretation_hidden(#[trigger] interpretations@[m], ignored@),
        decreases interpretations.len() - j,
    {
        if !is_interpretation_hidden(&interpretations[j], ignored) {
            return false;
        }
        j += 1;
    }
    true
}

/// The positions of the interpretations of a phrase that the form shows, in order: those with
/// a word that is known and not ignored.
pub fn shown_interpretations(interpretations: &Vec<Interpretation>, ignored: &HashSet<i32>) -> (shown: Vec<usize>)
    ensures
        shown@ == shown_positions(interpretations@, ignored@),
{
    let mut shown: Vec<usize> = Vec::new();
    let mut j: usize = 0;
    while j < interpretations.len()
        invariant
            j <= interpretations.len(),
            shown@ == shown_positions(interpretations@.take(j as int), ignored@),
        decreases interpretations.len() - j,
    {
        let ghost t = interpretations@.take(j + 1);
        assert(t.drop_last() =~= interpretations@.take(j as int));
        assert(t.last() == interpretations@[j as int]);
        if !is_interpretation_hidden(&interpretations[j], ignored) {
            shown.push(j);
        }
        j += 1;
    }
    assert(interpretations@.take(interpretations.len() as int) =~= interpretations@);
    shown
}

/// Accepting a word never un-ignores one: every other word that was ignored stays ignored, and
/// no word becomes ignored. So where the accepted word was not itself ignored, the words that
/// the request lists as ignored stay the same; and the words of the phrase's other
/// interpretations that were not ignored are skipped.
pub proof fn lemma_accept_keeps_ignored(cs: Seq<ComponentView>, key: (int, int, int))
    ensures
        ({
            let after = accept_spec(cs, key);
            &&& after.len() == cs.len()
            &&& forall|i: int|
                0 <= i < cs.len() && key_of(cs[i]) != key ==> ((#[trigger] after[i]).status == Status::Ignore
                    <==> cs[i].status == Status::Ignore)
            &&& forall|i: int|
                0 <= i < cs.len() && cs[i].phrase_seq == key.0 && cs[i].interpretation_seq != key.1 && cs[i].status
                    != Status::Ignore ==> (#[trigger] after[i]).status == Status::Skip
            &&& forall|i: int| 0 <= i < cs.len() ==> (#[trigger] after[i]).word_id == cs[i].word_id
            &&& (forall|i: int| 0 <= i < cs.len() && key_of(cs[i]) == key ==> (#[trigger] cs[i]).status != Status::Ignore)
                ==> ignored_ids(after) == ignored_ids(cs)
        }),
{
    let after = accept_spec(cs, key);
    if forall|i: int| 0 <= i < cs.len() && key_of(cs[i]) == key ==> (#[trigger] cs[i]).status != Status::Ignore {
        assert forall|id: i32| ignored_ids(after).contains(id) <==> ignored_ids(cs).contains(id) by {
            if ignored_ids(after).contains(id) {
                let i = choose|i: int| 0 <= i < after.len() && (#[trigger] after[i]).status == Status::Ignore && after[i].word_id == id;
                assert(cs[i].status == Status::Ignore);
            }
            if ignored_ids(cs).contains(id) {
                let i = choose|i: int| 0 <= i < cs.len() && (#[trigger] cs[i]).status == Status::Ignore && cs[i].word_id == id;
                assert(after[i].status == Status::Ignore);
            }
        }
        assert(ignored_ids(after) =~= ignored_ids(cs));
    }
}

} // verus!
