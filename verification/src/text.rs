//! Byte-indexed views of UTF-8 text.
//!
//! The database and the frontend locate words in sentences by byte offsets into the UTF-8
//! encoding of the sentence, as Rust's string slicing does.
use vstd::prelude::*;
use vstd::string::StringSliceAdditionalSpecFns;
use vstd::utf8::*;

verus! {

broadcast use {vstd::utf8::group_utf8_lib, vstd::string::group_string_axioms};

/// The number of bytes in the UTF-8 encoding of `s`.
pub open spec fn utf8_len(s: Seq<char>) -> int {
    encode_utf8(s).len() as int
}

/// Whether `start..end` is a range of byte offsets into `s` that begins and ends on character
/// boundaries, so that slicing `s` by it succeeds.
pub open spec fn valid_byte_range(s: Seq<char>, start: int, end: int) -> bool {
    &&& 0 <= start <= end <= utf8_len(s)
    &&& is_char_boundary(encode_utf8(s), start)
    &&& is_char_boundary(encode_utf8(s), end)
}

/// The text between the byte offsets `start` and `end` of `s`.
pub open spec fn byte_substring(s: Seq<char>, start: int, end: int) -> Seq<char> {
    decode_utf8(encode_utf8(s).subrange(start, end))
}

proof fn lemma_prefix_boundary(bytes: Seq<u8>, start: int, end: int)
    requires
        valid_utf8(bytes),
        0 <= start <= end <= bytes.len(),
        is_char_boundary(bytes, start),
        is_char_boundary(bytes, end),
    ensures
        valid_utf8(bytes.subrange(0, end)),
        is_char_boundary(bytes.subrange(0, end), start),
{
    let head = bytes.subrange(0, end);
    valid_utf8_split(bytes, end);
    if start < end {
        is_char_boundary_iff_not_is_continuation_byte(bytes, start);
        is_char_boundary_iff_not_is_continuation_byte(head, start);
        assert(head[start] == bytes[start]);
    } else {
        is_char_boundary_start_end_of_seq(head);
    }
}

/// `s[start..end]` as an owned string.
pub fn substring(s: &str, start: usize, end: usize) -> (res: String)
    requires
        valid_byte_range(s@, start as int, end as int),
    ensures
        res@ == byte_substring(s@, start as int, end as int),
{
    proof {
        lemma_prefix_boundary(s.spec_bytes(), start as int, end as int);
    }
    let (head, _) = s.split_at(end);
    assert(head.spec_bytes() =~= s.spec_bytes().subrange(0, end as int));
    let (_, mid) = head.split_at(start);
    assert(mid.spec_bytes() =~= s.spec_bytes().subrange(start as int, end as int));
    proof {
        encode_utf8_decode_utf8(mid@);
    }
    mid.to_string()
}

/// `s.get(start..end)` as an owned string: the text between the two byte offsets, or `None`
/// when they do not delimit a slice of `s`.
pub fn get_substring(s: &str, start: usize, end: usize) -> (res: Option<String>)
    ensures
        res is Some <==> valid_byte_range(s@, start as int, end as int),
        res matches Some(t) ==> t@ == byte_substring(s@, start as int, end as int),
{
    let n = s.as_bytes().len();
    if start <= end && end <= n && s.is_char_boundary(start) && s.is_char_boundary(end) {
        Some(substring(s, start, end))
    } else {
        None
    }
}

/// Whether two strings are equal.
pub fn str_eq(a: &str, b: &str) -> (eq: bool)
    ensures
        eq == (a@ == b@),
{
    let x = a.as_bytes();
    let y = b.as_bytes();
    proof {
        encode_utf8_decode_utf8(a@);
        encode_utf8_decode_utf8(b@);
    }
    if x.len() != y.len() {
        return false;
    }
    let mut i: usize = 0;
    while i < x.len()
        invariant
            i <= x.len(),
            x.len() == y.len(),
            x@ == a.spec_bytes(),
            y@ == b.spec_bytes(),
            forall|k: int| 0 <= k < i ==> x@[k] == y@[k],
        decreases x.len() - i,
    {
        if x[i] != y[i] {
            assert(x@ != y@);
            assert(a.spec_bytes() != b.spec_bytes());
            return false;
        }
        i += 1;
    }
    assert(x@ =~= y@);
    true
}

/// The encoding of two texts one after the other is their encodings one after the other.
pub proof fn lemma_encode_concat(a: Seq<char>, b: Seq<char>)
    ensures
        encode_utf8(a + b) == encode_utf8(a) + encode_utf8(b),
    decreases a.len(),
{
    if a.len() == 0 {
        assert(a + b =~= b);
        assert(encode_utf8(a) + encode_utf8(b) =~= encode_utf8(b));
    } else {
        assert((a + b).drop_first() =~= a.drop_first() + b);
        assert((a + b)[0] == a[0]);
        lemma_encode_concat(a.drop_first(), b);
        assert(encode_utf8(a + b) =~= encode_utf8(a) + encode_utf8(b));
    }
}

/// The end of the encoding of a text is a character boundary of the encoding of anything that
/// follows it.
proof fn lemma_boundary_after(a: Seq<char>, b: Seq<char>)
    ensures
        is_char_boundary(encode_utf8(a + b), utf8_len(a)),
    decreases a.len(),
{
    let s = a + b;
    encode_utf8_valid_utf8(s);
    if a.len() > 0 {
        let bytes = encode_utf8(s);
        encode_utf8_first_scalar(s);
        assert(s[0] == a[0]);
        assert(s.drop_first() =~= a.drop_first() + b);
        assert(pop_first_scalar(bytes) =~= encode_utf8(s.drop_first()));
        lemma_encode_concat(a, b);
        assert(utf8_len(a) == encode_scalar(a[0] as u32).len() + utf8_len(a.drop_first()));
        lemma_boundary_after(a.drop_first(), b);
        assert(utf8_len(a) <= bytes.len());
    }
}

/// In the text `a + b + c`, the bytes of `b` delimit a slice that is `b`.
pub proof fn lemma_byte_substring_middle(a: Seq<char>, b: Seq<char>, c: Seq<char>)
    ensures
        valid_byte_range(a + b + c, utf8_len(a), utf8_len(a) + utf8_len(b)),
        byte_substring(a + b + c, utf8_len(a), utf8_len(a) + utf8_len(b)) == b,
{
    let s = a + b + c;
    lemma_encode_concat(a, b);
    lemma_encode_concat(a + b, c);
    assert(a + (b + c) =~= s);
    lemma_boundary_after(a, b + c);
    lemma_boundary_after(a + b, c);
    let bytes = encode_utf8(s);
    assert(bytes == encode_utf8(a) + encode_utf8(b) + encode_utf8(c));
    assert(bytes.subrange(utf8_len(a), utf8_len(a) + utf8_len(b)) =~= encode_utf8(b));
    encode_utf8_decode_utf8(b);
}

/// Whether the bytes `a` come before `b`, or equal them, in lexicographic order: the order in
/// which Rust compares strings.
pub open spec fn bytes_le(a: Seq<u8>, b: Seq<u8>) -> bool
    decreases a.len(),
{
    if a.len() == 0 {
        true
    } else if b.len() == 0 {
        false
    } else if a[0] != b[0] {
        a[0] < b[0]
    } else {
        bytes_le(a.drop_first(), b.drop_first())
    }
}

/// Whether the text `a` comes before `b`, or equals it, when compared by their UTF-8 encodings.
pub open spec fn text_le(a: Seq<char>, b: Seq<char>) -> bool {
    bytes_le(encode_utf8(a), encode_utf8(b))
}

/// Any two byte strings are ordered one way or the other.
pub proof fn lemma_bytes_le_total(a: Seq<u8>, b: Seq<u8>)
    ensures
        bytes_le(a, b) || bytes_le(b, a),
    decreases a.len(),
{
    if a.len() > 0 && b.len() > 0 && a[0] == b[0] {
        lemma_bytes_le_total(a.drop_first(), b.drop_first());
    }
}

/// The byte order is transitive.
pub proof fn lemma_bytes_le_transitive(a: Seq<u8>, b: Seq<u8>, c: Seq<u8>)
    requires
        bytes_le(a, b),
        bytes_le(b, c),
    ensures
        bytes_le(a, c),
    decreases a.len(),
{
    if a.len() > 0 && b.len() > 0 && c.len() > 0 && a[0] == b[0] && b[0] == c[0] {
        lemma_bytes_le_transitive(a.drop_first(), b.drop_first(), c.drop_first());
    }
}

/// Whether `a` comes before `b`, or equals it, in the order of `str`'s comparison.
pub fn str_le(a: &str, b: &str) -> (le: bool)
    ensures
        le == text_le(a@, b@),
{
    let x = a.as_bytes();
    let y = b.as_bytes();
    let mut i: usize = 0;
    assert(x@.skip(0) =~= x@ && y@.skip(0) =~= y@);
    while i < x.len() && i < y.len() && x[i] == y[i]
        invariant
            i <= x.len(),
            i <= y.len(),
            x@ == encode_utf8(a@),
            y@ == encode_utf8(b@),
            bytes_le(x@, y@) == bytes_le(x@.skip(i as int), y@.skip(i as int)),
        decreases x.len() - i,
    {
        proof {
            let xs = x@.skip(i as int);
            let ys = y@.skip(i as int);
            assert(xs.drop_first() =~= x@.skip(i + 1));
            assert(ys.drop_first() =~= y@.skip(i + 1));
        }
        i += 1;
    }
    if i == x.len() {
        true
    } else if i == y.len() {
        false
    } else {
        x[i] < y[i]
    }
}

} // verus!
