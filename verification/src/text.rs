//! Text as UTF-8: where a string may be cut, how a chunk of bytes is
//! decoded, and what the bytes of a string say about its characters.
//!
//! The grammar is stated over the UTF-8 encoding of the text. All of its
//! markers are ASCII, and in UTF-8 an ASCII byte never occurs inside the
//! encoding of another character, so cutting next to a marker always cuts
//! between characters.

use vstd::prelude::*;
use vstd::string::*;
use vstd::utf8::*;

verus! {

/// The UTF-8 encoding of an owned string.
pub open spec fn bytes_of(s: &String) -> Seq<u8> {
    encode_utf8(s@)
}

/// An ASCII byte of valid UTF-8 text encodes a character by itself: the
/// positions before and after it are both character boundaries.
pub proof fn lemma_ascii_byte_boundaries(bytes: Seq<u8>, i: int)
    requires
        valid_utf8(bytes),
        0 <= i < bytes.len(),
        bytes[i] < 0x80,
    ensures
        is_char_boundary(bytes, i),
        is_char_boundary(bytes, i + 1),
{
    is_char_boundary_iff_is_leading_byte(bytes, i);
    assert(is_leading_byte_width_1(bytes[i]));
    assert(is_char_boundary(bytes, i));
    valid_utf8_split(bytes, i);
    let tail = bytes.subrange(i, bytes.len() as int);
    assert(tail[0] == bytes[i]);
    assert(length_of_first_scalar(tail) == 1);
    let after = pop_first_scalar(tail);
    assert(after =~= bytes.subrange(i + 1, bytes.len() as int));
    assert(valid_utf8(after));
    if i + 1 < bytes.len() {
        assert(after[0] == bytes[i + 1]);
        assert(valid_first_scalar(after));
        assert(!is_continuation_byte(bytes[i + 1]));
        is_char_boundary_iff_not_is_continuation_byte(bytes, i + 1);
    } else {
        is_char_boundary_start_end_of_seq(bytes);
    }
}

/// Where valid UTF-8 follows position `i`, a character starts at `i`.
pub proof fn lemma_valid_suffix_boundary(bytes: Seq<u8>, i: int)
    requires
        valid_utf8(bytes),
        0 <= i <= bytes.len(),
        valid_utf8(bytes.subrange(i, bytes.len() as int)),
    ensures
        is_char_boundary(bytes, i),
{
    if i < bytes.len() {
        let tail = bytes.subrange(i, bytes.len() as int);
        assert(tail[0] == bytes[i]);
        assert(valid_first_scalar(tail));
        assert(!is_continuation_byte(bytes[i]));
        is_char_boundary_iff_not_is_continuation_byte(bytes, i);
    } else {
        is_char_boundary_start_end_of_seq(bytes);
    }
}

/// Encoding a concatenation is concatenating the encodings.
pub proof fn lemma_encode_concat(a: Seq<char>, b: Seq<char>)
    ensures
        encode_utf8(a + b) == encode_utf8(a) + encode_utf8(b),
    decreases a.len(),
{
    if a.len() == 0 {
        assert(a + b =~= b);
        assert(encode_utf8(a) + encode_utf8(b) =~= encode_utf8(b));
    } else {
        lemma_encode_concat(a.drop_first(), b);
        assert((a + b).drop_first() =~= a.drop_first() + b);
        assert(encode_utf8(a + b) =~= encode_utf8(a) + encode_utf8(b));
    }
}

/// An ASCII character is encoded as the one byte of its own value.
pub proof fn lemma_ascii_char_encoding(c: char)
    requires
        (c as u32) < 0x80,
    ensures
        encode_scalar(c as u32) == seq![c as u8],
{
    let v = c as u32;
    assert(v as u8 == leading_byte_width_1(v)) by (bit_vector)
        requires
            v < 0x80,
    ;
    assert(c as u8 == v as u8);
}

/// An ASCII character of a text is a byte of its encoding.
pub proof fn lemma_ascii_char_is_byte(chars: Seq<char>, k: int)
    requires
        0 <= k < chars.len(),
        (chars[k] as u32) < 0x80,
    ensures
        exists|j: int|
            0 <= j < encode_utf8(chars).len() && #[trigger] encode_utf8(chars)[j] == chars[k] as u8,
    decreases k,
{
    let bytes = encode_utf8(chars);
    let head = encode_scalar(chars[0] as u32);
    let tail = encode_utf8(chars.drop_first());
    if k == 0 {
        lemma_ascii_char_encoding(chars[0]);
        assert(bytes[0] == head[0]);
    } else {
        assert(chars.drop_first()[k - 1] == chars[k]);
        lemma_ascii_char_is_byte(chars.drop_first(), k - 1);
        let j = choose|j: int| 0 <= j < tail.len() && #[trigger] tail[j] == chars[k] as u8;
        assert(bytes[head.len() + j] == tail[j]);
    }
}

/// `core::str::Utf8Error`, the error of `core::str::from_utf8`, made known
/// to the verifier as a type of which nothing is read.
#[verifier::external_type_specification]
#[verifier::external_body]
pub struct ExUtf8Error(core::str::Utf8Error);

/// Taken on trust of `core::str::from_utf8`: it succeeds on the byte slices
/// that are valid UTF-8 and on no others, and the string slice that it
/// returns has the bytes that it was given.
pub assume_specification[ core::str::from_utf8 ](v: &[u8]) -> (r: Result<
    &str,
    core::str::Utf8Error,
>)
    ensures
        r is Ok <==> valid_utf8(v@),
        r matches Ok(s) ==> s.spec_bytes() == v@,
;

/// Taken on trust of `String::with_capacity`: the string that it returns is
/// empty. It panics where the capacity is over `isize::MAX` bytes, which
/// `requires` leaves out.
pub assume_specification[ String::with_capacity ](capacity: usize) -> (s: String)
    requires
        capacity <= isize::MAX,
    ensures
        s@ == Seq::<char>::empty(),
;

/// Position `at` of `bytes` is an end of the text or lies next to an ASCII
/// byte.
pub open spec fn cut_point(bytes: Seq<u8>, at: int) -> bool {
    &&& 0 <= at <= bytes.len()
    &&& (at == 0 || at == bytes.len() || bytes[at] < 0x80 || bytes[at - 1] < 0x80)
}

/// A cut point of valid UTF-8 is a character boundary.
pub proof fn lemma_cut_point_boundary(bytes: Seq<u8>, at: int)
    requires
        valid_utf8(bytes),
        cut_point(bytes, at),
    ensures
        is_char_boundary(bytes, at),
{
    if at == 0 || at == bytes.len() {
        is_char_boundary_start_end_of_seq(bytes);
    } else if bytes[at] < 0x80 {
        lemma_ascii_byte_boundaries(bytes, at);
    } else {
        lemma_ascii_byte_boundaries(bytes, at - 1);
    }
}

/// Cuts `text` in two at byte `at`.
pub(crate) fn cut(text: &str, at: usize) -> (parts: (&str, &str))
    requires
        cut_point(text.spec_bytes(), at as int),
    ensures
        parts.0.spec_bytes() == text.spec_bytes().subrange(0, at as int),
        parts.1.spec_bytes() == text.spec_bytes().subrange(
            at as int,
            text.spec_bytes().len() as int,
        ),
{
    proof {
        encode_utf8_valid_utf8(text@);
        lemma_cut_point_boundary(text.spec_bytes(), at as int);
    }
    text.split_at(at)
}

} // verus!
