//! Functionality related to the Japanese language: kanji readings and furigana.
use crate::text::utf8_len;
use std::collections::HashMap;
use vstd::prelude::*;
use vstd::string::StringExecFns;

verus! {

/// A row of the kanji table joined with its readings: `(kanji, reading)`.
pub type KanjiReadingRow = (String, String);

// ---------------------------------------------------------------------------------------------
// Kanji readings
// ---------------------------------------------------------------------------------------------

/// The readings of `kanji` among the rows, in row order.
pub open spec fn readings_of(rows: Seq<KanjiReadingRow>, kanji: Seq<char>) -> Seq<Seq<char>>
    decreases rows.len(),
{
    if rows.len() == 0 {
        seq![]
    } else {
        readings_of(rows.drop_last(), kanji) + if rows.last().0@ == kanji {
            seq![rows.last().1@]
        } else {
            seq![]
        }
    }
}

/// The view of a kanji with its readings.
pub open spec fn kanji_entry_view(e: (String, Vec<String>)) -> (Seq<char>, Seq<Seq<char>>) {
    (e.0@, e.1@.map_values(|s: String| s@))
}

/// Groups the rows of the kanji table joined with the kanji readings table by kanji: each kanji
/// that occurs in the rows appears once, with all of its readings in row order.
pub fn group_kanji_readings(rows: &Vec<KanjiReadingRow>) -> (map: Vec<(String, Vec<String>)>)
    ensures
        forall|i: int, j: int|
            0 <= i < j < map@.len() ==> #[trigger] map@[i].0@ != #[trigger] map@[j].0@,
        forall|i: int|
            0 <= i < map@.len() ==> #[trigger] kanji_entry_view(map@[i]).1 == readings_of(
                rows@,
                map@[i].0@,
            ),
        forall|k: Seq<char>|
            readings_of(rows@, k).len() > 0 ==> exists|i: int|
                0 <= i < map@.len() && #[trigger] map@[i].0@ == k,
        forall|i: int| 0 <= i < map@.len() ==> readings_of(rows@, #[trigger] map@[i].0@).len() > 0,
{
    let mut map: Vec<(String, Vec<String>)> = Vec::new();
    let mut n: usize = 0;
    while n < rows.len()
        invariant
            n <= rows.len(),
            forall|i: int, j: int|
                0 <= i < j < map@.len() ==> #[trigger] map@[i].0@ != #[trigger] map@[j].0@,
            forall|i: int|
                0 <= i < map@.len() ==> #[trigger] kanji_entry_view(map@[i]).1 == readings_of(
                    rows@.take(n as int),
                    map@[i].0@,
                ),
            forall|k: Seq<char>|
                readings_of(rows@.take(n as int), k).len() > 0 ==> exists|i: int|
                    0 <= i < map@.len() && #[trigger] map@[i].0@ == k,
            forall|i: int|
                0 <= i < map@.len() ==> readings_of(rows@.take(n as int), #[trigger] map@[i].0@).len() > 0,
        decreases rows.len() - n,
    {
        let ghost prev = rows@.take(n as int);
        let ghost next = rows@.take(n + 1);
        let ghost old_map = map@;
        assert(next.drop_last() =~= prev);
        assert(next.last() == rows@[n as int]);
        let kanji = &rows[n].0;
        let reading = &rows[n].1;
        let mut i: usize = 0;
        while i < map.len() && !(map[i].0 == *kanji)
            invariant
                i <= map.len(),
                map@ == old_map,
                forall|k: int| 0 <= k < i ==> #[trigger] map@[k].0@ != kanji@,
            decreases map.len() - i,
        {
            i += 1;
        }
        proof {
            assert forall|k: Seq<char>| #[trigger] readings_of(next, k) == readings_of(prev, k) + if k == kanji@ {
                seq![reading@]
            } else {
                seq![]
            } by {}
        }
        if i < map.len() {
            let mut entry = map.remove(i);
            let ghost old_readings = entry.1@;
            assert(entry == old_map[i as int]);
            assert(kanji_entry_view(entry).1 == readings_of(prev, kanji@));
            entry.1.push(reading.clone());
            assert(entry.1@.map_values(|s: String| s@) =~= old_readings.map_values(|s: String| s@).push(reading@));
            map.insert(i, entry);
            proof {
                assert(map@ =~= old_map.update(i as int, entry));
                assert forall|a: int, b: int| 0 <= a < b < map@.len() implies #[trigger] map@[a].0@ != #[trigger] map@[b].0@ by {
                    assert(old_map[a].0@ != old_map[b].0@);
                }
                assert forall|a: int| 0 <= a < map@.len() implies #[trigger] kanji_entry_view(map@[a]).1 == readings_of(next, map@[a].0@) by {
                    if a != i {
                        assert(old_map[a].0@ != kanji@) by {
                            if a < i {
                            } else {
                                assert(old_map[i as int].0@ == kanji@);
                            }
                        }
                    } else {
                        assert(map@[a] == entry);
                        assert(kanji_entry_view(entry).1 =~= readings_of(prev, kanji@).push(reading@));
                        assert(readings_of(next, kanji@) =~= readings_of(prev, kanji@).push(reading@));
                    }
                }
            }
        } else {
            let mut readings: Vec<String> = Vec::new();
            readings.push(reading.clone());
            let entry = (kanji.clone(), readings);
            map.push(entry);
            proof {
                assert forall|a: int, b: int| 0 <= a < b < map@.len() implies #[trigger] map@[a].0@ != #[trigger] map@[b].0@ by {
                    if b < old_map.len() {
                        assert(old_map[a].0@ != old_map[b].0@);
                    } else {
                        assert(old_map[a].0@ != kanji@);
                    }
                }
                assert forall|a: int| 0 <= a < map@.len() implies #[trigger] kanji_entry_view(map@[a]).1 == readings_of(next, map@[a].0@) by {
                    if a < old_map.len() {
                        assert(map@[a] == old_map[a]);
                        assert(old_map[a].0@ != kanji@);
                    } else {
                        assert(readings_of(prev, kanji@).len() == 0) by {
                            if readings_of(prev, kanji@).len() > 0 {
                                let w = choose|w: int| 0 <= w < old_map.len() && #[trigger] old_map[w].0@ == kanji@;
                            }
                        }
                        assert(readings_of(prev, kanji@) =~= Seq::<Seq<char>>::empty());
                        assert(kanji_entry_view(map@[a]).1 =~= seq![reading@]);
                    }
                }
            }
        }
        proof {
            assert forall|a: int| 0 <= a < map@.len() implies readings_of(next, #[trigger] map@[a].0@).len() > 0 by {
                let k = map@[a].0@;
                assert(readings_of(next, k) == readings_of(prev, k) + if k == kanji@ {
                    seq![reading@]
                } else {
                    seq![]
                });
                if k != kanji@ {
                    if i < old_map.len() {
                        assert(map@[a] == old_map[a]);
                    } else {
                        assert(a < old_map.len());
                        assert(map@[a] == old_map[a]);
                    }
                }
            }
            assert forall|k: Seq<char>| readings_of(next, k).len() > 0 implies exists|x: int| 0 <= x < map@.len() && #[trigger] map@[x].0@ == k by {
                if k == kanji@ {
                    if i < old_map.len() {
                        assert(map@[i as int].0@ == kanji@);
                    } else {
                        assert(map@[old_map.len() as int].0@ == kanji@);
                    }
                } else {
                    assert(readings_of(prev, k).len() > 0);
                    let x = choose|x: int| 0 <= x < old_map.len() && #[trigger] old_map[x].0@ == k;
                    assert(map@[x].0@ == old_map[x].0@);
                }
            }
        }
        n += 1;
    }
    assert(rows@.take(rows.len() as int) =~= rows@);
    map
}

/// The mapping from each kanji of the rows to its readings in row order.
pub open spec fn readings_map(rows: Seq<KanjiReadingRow>) -> Map<Seq<char>, Seq<Seq<char>>> {
    Map::new(|k: Seq<char>| readings_of(rows, k).len() > 0, |k: Seq<char>| readings_of(rows, k))
}

/// The map that holds each entry's values under its key, by their text.
pub open spec fn entries_map(entries: Seq<(String, Vec<String>)>) -> Map<Seq<char>, Seq<Seq<char>>> {
    Map::new(
        |k: Seq<char>| exists|i: int| 0 <= i < entries.len() && #[trigger] entries[i].0@ == k,
        |k: Seq<char>|
            {
                let i = choose|i: int| 0 <= i < entries.len() && #[trigger] entries[i].0@ == k;
                entries[i].1.deep_view()
            },
    )
}

/// Collects the entries into a map with `HashMap`'s `FromIterator` impl of std, which inserts the
/// pairs one by one. The keys are distinct, so each entry is kept: the map holds each entry's
/// values under its key.
#[verifier::external_body]
fn collect_entries(entries: Vec<(String, Vec<String>)>) -> (map: HashMap<String, Vec<String>>)
    requires
        forall|i: int, j: int|
            0 <= i < j < entries@.len() ==> #[trigger] entries@[i].0@ != #[trigger] entries@[j].0@,
    ensures
        map.deep_view() == entries_map(entries@),
{
    entries.into_iter().collect()
}

/// Returns a mapping from kanji to its potential readings, built from the rows of the kanji
/// table joined with the kanji readings table.
pub fn kanji_to_readings(rows: &Vec<KanjiReadingRow>) -> (map: HashMap<String, Vec<String>>)
    ensures
        map.deep_view() == readings_map(rows@),
{
    let entries = group_kanji_readings(rows);
    proof {
        let em = entries_map(entries@);
        let rm = readings_map(rows@);
        assert forall|k: Seq<char>| em.contains_key(k) <==> rm.contains_key(k) by {
            if em.contains_key(k) {
                let i = choose|i: int| 0 <= i < entries@.len() && #[trigger] entries@[i].0@ == k;
                assert(readings_of(rows@, entries@[i].0@).len() > 0);
            }
        }
        assert forall|k: Seq<char>| #[trigger] em.contains_key(k) implies em[k] == rm[k] by {
            let i = choose|i: int| 0 <= i < entries@.len() && #[trigger] entries@[i].0@ == k;
            assert(entries@[i].1.deep_view() =~= entries@[i].1@.map_values(|s: String| s@));
            assert(kanji_entry_view(entries@[i]).1 == readings_of(rows@, entries@[i].0@));
        }
        assert(em =~= rm);
    }
    collect_entries(entries)
}

// ---------------------------------------------------------------------------------------------
// Furigana
// ---------------------------------------------------------------------------------------------

/// A part of a word with the furigana written above it, if it needs any.
pub struct FuriganaSegment {
    pub segment: String,
    pub furigana: Option<String>,
}

/// A way of mapping a reading onto a word, part by part. The accuracy is only meaningful in
/// comparison with other mappings of the same word and reading; higher is more accurate.
pub struct Furigana {
    pub furigana: Vec<FuriganaSegment>,
    pub accuracy: i32,
}

pub struct FuriganaView {
    pub segments: Seq<(Seq<char>, Option<Seq<char>>)>,
    pub accuracy: i32,
}

impl View for Furigana {
    type V = FuriganaView;

    open spec fn view(&self) -> FuriganaView {
        FuriganaView {
            segments: self.furigana@.map_values(
                |s: FuriganaSegment| (s.segment@, crate::api::opt_view(s.furigana)),
            ),
            accuracy: self.accuracy,
        }
    }
}

pub open spec fn furiganas_view(fs: Seq<Furigana>) -> Seq<FuriganaView> {
    fs.map_values(|f: Furigana| f@)
}

/// Furigana as stored in the database: the byte range of a part of the word and the byte range
/// of the part of the reading written above it.
#[derive(Debug, Clone, Copy, PartialEq, Eq, Structural)]
pub struct DbFurigana {
    pub word_start_idx: i32,
    pub word_end_idx: i32,
    pub reading_start_idx: i32,
    pub reading_end_idx: i32,
}

/// Why furigana could not be stored.
#[derive(Debug, Clone, Copy, PartialEq, Eq, Structural)]
pub enum FuriganaError {
    /// A part of the word or of its reading is longer than the database can index.
    TooLong,
    /// No way was found to map the reading onto the word.
    NoMapping,
}

/// What the server answers with for an error that mapping `reading` onto `word` met: an offset
/// that does not fit the database's integers fails the integer conversion, and where no mapping
/// is found, the word and the reading are named.
pub open spec fn furigana_error_text(e: FuriganaError, word: Seq<char>, reading: Seq<char>) -> Seq<char> {
    match e {
        FuriganaError::TooLong => "out of range integral type conversion attempted"@,
        FuriganaError::NoMapping => "Failed to assign furigana to "@ + word + " with "@ + reading,
    }
}

impl FuriganaError {
    /// The message of the error that mapping `reading` onto `word` met.
    pub fn message(&self, word: &str, reading: &str) -> (m: String)
        ensures
            m@ == furigana_error_text(*self, word@, reading@),
    {
        match self {
            FuriganaError::TooLong => String::from_str("out of range integral type conversion attempted"),
            FuriganaError::NoMapping => {
                let mut m = String::from_str("Failed to assign furigana to ");
                m.append(word);
                m.append(" with ");
                m.append(reading);
                m
            },
        }
    }
}

/// The outcome of converting furigana to the database form.
pub enum Conversion {
    Converted(Seq<DbFurigana>),
    /// A part is longer than `i32::MAX` bytes.
    TooLong,
    /// A byte offset past `i32::MAX` would have to be computed.
    Overflows,
}

pub open spec fn prepend(f: DbFurigana, c: Conversion) -> Conversion {
    match c {
        Conversion::Converted(fs) => Conversion::Converted(seq![f] + fs),
        other => other,
    }
}

/// Converts the segments to the database form, the word offset starting at `w` and the reading
/// offset at `r`: a segment with furigana covers its furigana in the reading, and a segment
/// without covers itself in the reading too (it is written as it is read).
pub open spec fn convert_segments(segs: Seq<(Seq<char>, Option<Seq<char>>)>, w: int, r: int) -> Conversion
    decreases segs.len(),
{
    if segs.len() == 0 {
        Conversion::Converted(seq![])
    } else {
        let seg_len = utf8_len(segs[0].0);
        if seg_len > i32::MAX {
            Conversion::TooLong
        } else if w + seg_len > i32::MAX {
            Conversion::Overflows
        } else {
            match segs[0].1 {
                Some(f) => {
                    let f_len = utf8_len(f);
                    if f_len > i32::MAX {
                        Conversion::TooLong
                    } else if r + f_len > i32::MAX {
                        Conversion::Overflows
                    } else {
                        prepend(
                            DbFurigana {
                                word_start_idx: w as i32,
                                word_end_idx: (w + seg_len) as i32,
                                reading_start_idx: r as i32,
                                reading_end_idx: (r + f_len) as i32,
                            },
                            convert_segments(segs.drop_first(), w + seg_len, r + f_len),
                        )
                    }
                },
                None => if r + seg_len > i32::MAX {
                    Conversion::Overflows
                } else {
                    convert_segments(segs.drop_first(), w + seg_len, r + seg_len)
                },
            }
        }
    }
}

/// `convert_segments` from the start of the word and of the reading.
pub open spec fn conversion_of(f: FuriganaView) -> Conversion {
    convert_segments(f.segments, 0, 0)
}

/// Prepends converted furigana to an outcome.
pub open spec fn prepend_all(fs: Seq<DbFurigana>, c: Conversion) -> Conversion {
    match c {
        Conversion::Converted(rest) => Conversion::Converted(fs + rest),
        other => other,
    }
}

/// The number of bytes `s` takes up.
fn byte_len(s: &String) -> (n: usize)
    ensures
        n == utf8_len(s@),
{
    s.as_str().as_bytes().len()
}

/// Converts furigana to the form stored in the database.
pub fn furigana_to_db_furigana(furigana: &Furigana) -> (res: Result<Vec<DbFurigana>, FuriganaError>)
    requires
        !(conversion_of(furigana@) is Overflows),
    ensures
        match conversion_of(furigana@) {
            Conversion::Converted(fs) => res matches Ok(v) && v@ == fs,
            _ => res == Err::<Vec<DbFurigana>, FuriganaError>(FuriganaError::TooLong),
        },
{
    let ghost segs = furigana@.segments;
    let mut f: Vec<DbFurigana> = Vec::new();
    let mut word_idx: i32 = 0;
    let mut reading_idx: i32 = 0;
    let mut i: usize = 0;
    assert(segs.skip(0) =~= segs);
    while i < furigana.furigana.len()
        invariant
            i <= furigana.furigana.len(),
            segs == furigana@.segments,
            segs.len() == furigana.furigana.len(),
            0 <= word_idx,
            0 <= reading_idx,
            conversion_of(furigana@) == prepend_all(f@, convert_segments(segs.skip(i as int), word_idx as int, reading_idx as int)),
            !(conversion_of(furigana@) is Overflows),
        decreases furigana.furigana.len() - i,
    {
        let segment = &furigana.furigana[i];
        let ghost rest = segs.skip(i as int);
        proof {
            assert(rest[0] == (segment.segment@, crate::api::opt_view(segment.furigana)));
            assert(rest.drop_first() =~= segs.skip(i + 1));
        }
        let segment_len = byte_len(&segment.segment);
        if segment_len > i32::MAX as usize {
            return Err(FuriganaError::TooLong);
        }
        let segment_len = segment_len as i32;
        let word_end_idx = word_idx + segment_len;
        if let Some(segment_furigana) = &segment.furigana {
            let furigana_len = byte_len(segment_furigana);
            if furigana_len > i32::MAX as usize {
                return Err(FuriganaError::TooLong);
            }
            let reading_end_idx = reading_idx + furigana_len as i32;
            let entry = DbFurigana {
                word_start_idx: word_idx,
                word_end_idx,
                reading_start_idx: reading_idx,
                reading_end_idx,
            };
            let ghost prev = f@;
            f.push(entry);
            proof {
                assert(prev + (seq![entry] + Seq::<DbFurigana>::empty()) =~= f@);
                match convert_segments(segs.skip(i + 1), word_end_idx as int, reading_end_idx as int) {
                    Conversion::Converted(tail) => {
                        assert(prev + (seq![entry] + tail) =~= f@ + tail);
                    },
                    _ => {},
                }
            }
            reading_idx = reading_end_idx;
        } else {
            reading_idx += segment_len;
        }
        word_idx = word_end_idx;
        i += 1;
    }
    proof {
        assert(segs.skip(i as int) =~= Seq::<(Seq<char>, Option<Seq<char>>)>::empty());
        assert(f@ + Seq::<DbFurigana>::empty() =~= f@);
    }
    Ok(f)
}


// ---------------------------------------------------------------------------------------------
// What the database form locates
// ---------------------------------------------------------------------------------------------

/// The word that the segments spell.
pub open spec fn word_of(segs: Seq<(Seq<char>, Option<Seq<char>>)>) -> Seq<char>
    decreases segs.len(),
{
    if segs.len() == 0 {
        seq![]
    } else {
        segs[0].0 + word_of(segs.drop_first())
    }
}

/// The reading of the segments: each segment's furigana, or the segment itself when it needs
/// none.
pub open spec fn reading_of(segs: Seq<(Seq<char>, Option<Seq<char>>)>) -> Seq<char>
    decreases segs.len(),
{
    if segs.len() == 0 {
        seq![]
    } else {
        (match segs[0].1 {
            Some(f) => f,
            None => segs[0].0,
        }) + reading_of(segs.drop_first())
    }
}

/// The segments that have furigana, each with its furigana, in order.
pub open spec fn furigana_parts(segs: Seq<(Seq<char>, Option<Seq<char>>)>) -> Seq<(Seq<char>, Seq<char>)>
    decreases segs.len(),
{
    if segs.len() == 0 {
        seq![]
    } else {
        (match segs[0].1 {
            Some(f) => seq![(segs[0].0, f)],
            None => seq![],
        }) + furigana_parts(segs.drop_first())
    }
}

/// Whether the database furigana locates the parts: the word range of each slices the segment
/// out of `word`, and its reading range slices the segment's furigana out of `reading`.
pub open spec fn locates_parts(fs: Seq<DbFurigana>, parts: Seq<(Seq<char>, Seq<char>)>, word: Seq<char>, reading: Seq<char>) -> bool {
    &&& fs.len() == parts.len()
    &&& forall|k: int|
        0 <= k < fs.len() ==> {
            let f = #[trigger] fs[k];
            &&& crate::text::valid_byte_range(word, f.word_start_idx as int, f.word_end_idx as int)
            &&& crate::text::byte_substring(word, f.word_start_idx as int, f.word_end_idx as int) == parts[k].0
            &&& crate::text::valid_byte_range(reading, f.reading_start_idx as int, f.reading_end_idx as int)
            &&& crate::text::byte_substring(reading, f.reading_start_idx as int, f.reading_end_idx as int) == parts[k].1
        }
}

proof fn lemma_converted_locates(
    segs: Seq<(Seq<char>, Option<Seq<char>>)>,
    word_prefix: Seq<char>,
    reading_prefix: Seq<char>,
)
    requires
        convert_segments(segs, utf8_len(word_prefix), utf8_len(reading_prefix)) is Converted,
    ensures
        locates_parts(
            convert_segments(segs, utf8_len(word_prefix), utf8_len(reading_prefix))->Converted_0,
            furigana_parts(segs),
            word_prefix + word_of(segs),
            reading_prefix + reading_of(segs),
        ),
    decreases segs.len(),
{
    let w = utf8_len(word_prefix);
    let r = utf8_len(reading_prefix);
    if segs.len() > 0 {
        let (t, fu) = segs[0];
        let rest = segs.drop_first();
        let tr = match fu {
            Some(f) => f,
            None => t,
        };
        let word = word_prefix + word_of(segs);
        let reading = reading_prefix + reading_of(segs);
        assert(word =~= (word_prefix + t) + word_of(rest));
        assert(reading =~= (reading_prefix + tr) + reading_of(rest));
        crate::text::lemma_encode_concat(word_prefix, t);
        crate::text::lemma_encode_concat(reading_prefix, tr);
        assert(utf8_len(word_prefix + t) == w + utf8_len(t));
        assert(utf8_len(reading_prefix + tr) == r + utf8_len(tr));
        lemma_converted_locates(rest, word_prefix + t, reading_prefix + tr);
        let tail = convert_segments(rest, w + utf8_len(t), r + utf8_len(tr))->Converted_0;
        match fu {
            Some(f) => {
                crate::text::lemma_byte_substring_middle(word_prefix, t, word_of(rest));
                crate::text::lemma_byte_substring_middle(reading_prefix, f, reading_of(rest));
                assert(word_prefix + t + word_of(rest) =~= word);
                assert(reading_prefix + f + reading_of(rest) =~= reading);
                let head = DbFurigana {
                    word_start_idx: w as i32,
                    word_end_idx: (w + utf8_len(t)) as i32,
                    reading_start_idx: r as i32,
                    reading_end_idx: (r + utf8_len(f)) as i32,
                };
                let fs = convert_segments(segs, w, r)->Converted_0;
                assert(fs =~= seq![head] + tail);
                let parts = furigana_parts(segs);
                assert(parts =~= seq![(t, f)] + furigana_parts(rest));
                assert forall|k: int| 0 <= k < fs.len() implies {
                    let g = #[trigger] fs[k];
                    &&& crate::text::valid_byte_range(word, g.word_start_idx as int, g.word_end_idx as int)
                    &&& crate::text::byte_substring(word, g.word_start_idx as int, g.word_end_idx as int) == parts[k].0
                    &&& crate::text::valid_byte_range(reading, g.reading_start_idx as int, g.reading_end_idx as int)
                    &&& crate::text::byte_substring(reading, g.reading_start_idx as int, g.reading_end_idx as int) == parts[k].1
                } by {
                    if k > 0 {
                        assert(fs[k] == tail[k - 1]);
                        assert(parts[k] == furigana_parts(rest)[k - 1]);
                    }
                }
            },
            None => {
                assert(furigana_parts(segs) =~= furigana_parts(rest));
            },
        }
    }
}

/// The database form of furigana locates each part of the word that has furigana, and its
/// furigana, by byte offsets: slicing the word that the segments spell by a part's word range
/// gives the part, and slicing the reading of the segments by its reading range gives its
/// furigana.
pub proof fn lemma_db_furigana_locates_parts(f: FuriganaView)
    requires
        conversion_of(f) is Converted,
    ensures
        locates_parts(conversion_of(f)->Converted_0, furigana_parts(f.segments), word_of(f.segments), reading_of(f.segments)),
{
    assert(utf8_len(seq![]) == 0) by {
        assert(vstd::utf8::encode_utf8(Seq::<char>::empty()) =~= Seq::<u8>::empty());
    }
    lemma_converted_locates(f.segments, seq![], seq![]);
    assert(Seq::<char>::empty() + word_of(f.segments) =~= word_of(f.segments));
    assert(Seq::<char>::empty() + reading_of(f.segments) =~= reading_of(f.segments));
}

// ---------------------------------------------------------------------------------------------
// Mapping readings onto words
// ---------------------------------------------------------------------------------------------

/// The ways `furigana::map` finds to map `reading` onto `word`, using the known readings of each
/// kanji to rate them.
pub uninterp spec fn furigana_mappings(
    word: Seq<char>,
    reading: Seq<char>,
    kanji_to_readings: Map<Seq<char>, Seq<Seq<char>>>,
) -> Seq<FuriganaView>;

/// The ways `furigana::map_naive` finds to map `reading` onto `word` without kanji readings.
pub uninterp spec fn naive_furigana_mappings(word: Seq<char>, reading: Seq<char>) -> Seq<FuriganaView>;

/// Calls `furigana::map`, which lists every way of matching the kana of the reading to those of
/// the word and rates each by the known readings of its kanji. Its result depends on the word,
/// the reading and the contents of the map alone (the map is only looked up by key), and is named
/// here by `furigana_mappings`; the segments are copied out into owned strings.
#[verifier::external_body]
fn map_furigana(word: &str, reading: &str, kanji_to_readings: &HashMap<String, Vec<String>>) -> (mappings: Vec<Furigana>)
    ensures
        furiganas_view(mappings@) == furigana_mappings(word@, reading@, kanji_to_readings.deep_view()),
{
    furigana::map(word, reading, kanji_to_readings).into_iter().map(|f| Furigana {
        furigana: f.furigana.into_iter().map(|s| FuriganaSegment {
            segment: s.segment.to_string(),
            furigana: s.furigana.map(|r| r.to_string()),
        }).collect(),
        accuracy: f.accuracy,
    }).collect()
}

/// Calls `furigana::map_naive`, which lists every way of matching the kana of the reading to
/// those of the word without rating kanji readings. Its result depends on the word and the
/// reading alone and is named here by `naive_furigana_mappings`.
#[verifier::external_body]
fn map_furigana_naive(word: &str, reading: &str) -> (mappings: Vec<Furigana>)
    ensures
        furiganas_view(mappings@) == naive_furigana_mappings(word@, reading@),
{
    furigana::map_naive(word, reading).into_iter().map(|f| Furigana {
        furigana: f.furigana.into_iter().map(|s| FuriganaSegment {
            segment: s.segment.to_string(),
            furigana: s.furigana.map(|r| r.to_string()),
        }).collect(),
        accuracy: f.accuracy,
    }).collect()
}

/// The mappings to choose from: the rated ones, or the naive ones when no rated one was found.
pub open spec fn furigana_candidates(
    word: Seq<char>,
    reading: Seq<char>,
    kanji_to_readings: Map<Seq<char>, Seq<Seq<char>>>,
) -> Seq<FuriganaView> {
    let rated = furigana_mappings(word, reading, kanji_to_readings);
    if rated.len() == 0 {
        naive_furigana_mappings(word, reading)
    } else {
        rated
    }
}

/// Whether `reading` can be mapped onto `word` at all by the rated mapping.
pub fn has_furigana_mapping(word: &str, reading: &str, kanji_to_readings: &HashMap<String, Vec<String>>) -> (found: bool)
    ensures
        found == (furigana_mappings(word@, reading@, kanji_to_readings.deep_view()).len() > 0),
{
    let mappings = map_furigana(word, reading, kanji_to_readings);
    mappings.len() > 0
}

/// Lists the mappings to choose from for the word and reading.
pub fn candidate_mappings(word: &str, reading: &str, kanji_to_readings: &HashMap<String, Vec<String>>) -> (mappings: Vec<Furigana>)
    ensures
        furiganas_view(mappings@) == furigana_candidates(word@, reading@, kanji_to_readings.deep_view()),
{
    let rated = map_furigana(word, reading, kanji_to_readings);
    if rated.len() == 0 {
        map_furigana_naive(word, reading)
    } else {
        rated
    }
}

/// The index of the mapping that is chosen among `fs`: the last one of the highest accuracy, as
/// `Iterator::max_by_key` picks it; `-1` when there is none.
pub open spec fn best_index(fs: Seq<FuriganaView>) -> int
    decreases fs.len(),
{
    if fs.len() == 0 {
        -1
    } else {
        let i = best_index(fs.drop_last());
        if i < 0 || fs[i].accuracy <= fs.last().accuracy {
            fs.len() - 1
        } else {
            i
        }
    }
}

proof fn lemma_best_index(fs: Seq<FuriganaView>)
    ensures
        fs.len() == 0 <==> best_index(fs) == -1,
        fs.len() > 0 ==> 0 <= best_index(fs) < fs.len(),
        forall|j: int| 0 <= j < fs.len() ==> #[trigger] fs[j].accuracy <= fs[best_index(fs)].accuracy,
        forall|j: int| best_index(fs) < j < fs.len() ==> #[trigger] fs[j].accuracy < fs[best_index(fs)].accuracy,
    decreases fs.len(),
{
    if fs.len() > 0 {
        lemma_best_index(fs.drop_last());
        let i = best_index(fs.drop_last());
        assert forall|j: int| 0 <= j < fs.len() - 1 implies #[trigger] fs[j].accuracy == fs.drop_last()[j].accuracy by {}
    }
}

/// Picks the mapping of the highest accuracy, the last of them on a tie.
pub fn best_mapping(mappings: &Vec<Furigana>) -> (best: Option<usize>)
    ensures
        match best {
            None => best_index(furiganas_view(mappings@)) == -1,
            Some(i) => i == best_index(furiganas_view(mappings@)),
        },
{
    let ghost fs = furiganas_view(mappings@);
    let mut best: Option<usize> = None;
    let mut i: usize = 0;
    while i < mappings.len()
        invariant
            i <= mappings.len(),
            fs == furiganas_view(mappings@),
            fs.len() == mappings.len(),
            match best {
                None => best_index(fs.take(i as int)) == -1,
                Some(b) => b == best_index(fs.take(i as int)),
            },
        decreases mappings.len() - i,
    {
        proof {
            lemma_best_index(fs.take(i as int));
            assert(fs.take(i + 1).drop_last() =~= fs.take(i as int));
        }
        match best {
            None => {
                best = Some(i);
            },
            Some(b) => {
                if mappings[b].accuracy <= mappings[i].accuracy {
                    best = Some(i);
                }
            },
        }
        i += 1;
    }
    assert(fs.take(mappings.len() as int) =~= fs);
    best
}

/// What becomes of the chosen mapping: `None` when there is no mapping to choose.
pub open spec fn chosen_conversion(fs: Seq<FuriganaView>) -> Option<Conversion> {
    if fs.len() == 0 {
        None
    } else {
        Some(conversion_of(fs[best_index(fs)]))
    }
}

/// Whether converting furigana to the database form would compute a byte offset past `i32::MAX`.
pub fn conversion_overflows(furigana: &Furigana) -> (overflows: bool)
    ensures
        overflows == (conversion_of(furigana@) is Overflows),
{
    let ghost segs = furigana@.segments;
    let mut word_idx: u64 = 0;
    let mut reading_idx: u64 = 0;
    let mut i: usize = 0;
    assert(segs.skip(0) =~= segs);
    while i < furigana.furigana.len()
        invariant
            i <= furigana.furigana.len(),
            segs == furigana@.segments,
            segs.len() == furigana.furigana.len(),
            word_idx <= i32::MAX,
            reading_idx <= i32::MAX,
            (conversion_of(furigana@) is Overflows) == (convert_segments(segs.skip(i as int), word_idx as int, reading_idx as int) is Overflows),
        decreases furigana.furigana.len() - i,
    {
        let segment = &furigana.furigana[i];
        proof {
            let rest = segs.skip(i as int);
            assert(rest[0] == (segment.segment@, crate::api::opt_view(segment.furigana)));
            assert(rest.drop_first() =~= segs.skip(i + 1));
        }
        let segment_len = byte_len(&segment.segment);
        if segment_len > i32::MAX as usize {
            return false;
        }
        let segment_len = segment_len as u64;
        if word_idx + segment_len > i32::MAX as u64 {
            return true;
        }
        match &segment.furigana {
            Some(segment_furigana) => {
                let furigana_len = byte_len(segment_furigana);
                if furigana_len > i32::MAX as usize {
                    return false;
                }
                if reading_idx + furigana_len as u64 > i32::MAX as u64 {
                    return true;
                }
                proof {
                    let f = DbFurigana {
                        word_start_idx: word_idx as i32,
                        word_end_idx: (word_idx + segment_len) as i32,
                        reading_start_idx: reading_idx as i32,
                        reading_end_idx: (reading_idx + furigana_len) as i32,
                    };
                    let tail = convert_segments(segs.skip(i + 1), (word_idx + segment_len) as int, (reading_idx + furigana_len) as int);
                    assert((prepend(f, tail) is Overflows) == (tail is Overflows));
                }
                reading_idx = reading_idx + furigana_len as u64;
            },
            None => {
                if reading_idx + segment_len > i32::MAX as u64 {
                    return true;
                }
                reading_idx = reading_idx + segment_len;
            },
        }
        word_idx = word_idx + segment_len;
        i += 1;
    }
    false
}

/// Converts the chosen mapping among `mappings` to the database form.
pub fn db_furigana_from_mappings(mappings: &Vec<Furigana>) -> (res: Result<Vec<DbFurigana>, FuriganaError>)
    requires
        !(chosen_conversion(furiganas_view(mappings@)) matches Some(Conversion::Overflows)),
    ensures
        match chosen_conversion(furiganas_view(mappings@)) {
            None => res == Err::<Vec<DbFurigana>, FuriganaError>(FuriganaError::NoMapping),
            Some(Conversion::Converted(fs)) => res matches Ok(v) && v@ == fs,
            Some(_) => res == Err::<Vec<DbFurigana>, FuriganaError>(FuriganaError::TooLong),
        },
{
    proof {
        lemma_best_index(furiganas_view(mappings@));
    }
    match best_mapping(mappings) {
        None => Err(FuriganaError::NoMapping),
        Some(i) => {
            assert(furiganas_view(mappings@)[i as int] == mappings@[i as int]@);
            furigana_to_db_furigana(&mappings[i])
        },
    }
}

/// Maps a reading onto a word in the database form: of the ways that `furigana::map` finds (or,
/// failing that, `furigana::map_naive`), the one of the highest accuracy is converted.
pub fn map_to_db_furigana(word: &str, reading: &str, kanji_to_readings: &HashMap<String, Vec<String>>) -> (res: Result<Vec<DbFurigana>, FuriganaError>)
    requires
        !(chosen_conversion(furigana_candidates(word@, reading@, kanji_to_readings.deep_view())) matches Some(Conversion::Overflows)),
    ensures
        match chosen_conversion(furigana_candidates(word@, reading@, kanji_to_readings.deep_view())) {
            None => res == Err::<Vec<DbFurigana>, FuriganaError>(FuriganaError::NoMapping),
            Some(Conversion::Converted(fs)) => res matches Ok(v) && v@ == fs,
            Some(_) => res == Err::<Vec<DbFurigana>, FuriganaError>(FuriganaError::TooLong),
        },
{
    let mappings = candidate_mappings(word, reading, kanji_to_readings);
    db_furigana_from_mappings(&mappings)
}

/// `map_to_db_furigana`, or `None` where the chosen mapping would take a byte offset past
/// `i32::MAX`.
pub fn try_map_to_db_furigana(word: &str, reading: &str, kanji_to_readings: &HashMap<String, Vec<String>>) -> (res: Option<Result<Vec<DbFurigana>, FuriganaError>>)
    ensures
        match chosen_conversion(furigana_candidates(word@, reading@, kanji_to_readings.deep_view())) {
            None => res == Some(Err::<Vec<DbFurigana>, FuriganaError>(FuriganaError::NoMapping)),
            Some(Conversion::Converted(fs)) => res matches Some(Ok(v)) && v@ == fs,
            Some(Conversion::TooLong) => res == Some(Err::<Vec<DbFurigana>, FuriganaError>(FuriganaError::TooLong)),
            Some(Conversion::Overflows) => res is None,
        },
{
    let mappings = candidate_mappings(word, reading, kanji_to_readings);
    proof {
        lemma_best_index(furiganas_view(mappings@));
    }
    match best_mapping(&mappings) {
        None => Some(Err(FuriganaError::NoMapping)),
        Some(i) => {
            assert(furiganas_view(mappings@)[i as int] == mappings@[i as int]@);
            if conversion_overflows(&mappings[i]) {
                None
            } else {
                Some(map_to_db_furigana(word, reading, kanji_to_readings))
            }
        },
    }
}

} // verus!
