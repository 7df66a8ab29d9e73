//! Byte classification and the bounds-checked view of a stream's bytes that
//! the cluster resolver works on.
//!
//! Positions past the end of the content read as zero padding when a byte is
//! classified, but padding is never part of a window, a count or a text.
use vstd::prelude::*;
use vstd::utf8::*;

use crate::heuristics::resolve;
use crate::stream::Utf8Stream;

verus! {

/// Printable ASCII in the sense of the resolver: tab through form feed, and
/// space through `}`.
pub open spec fn printable_byte(byte: u8) -> bool {
    (9 <= byte && byte < 13) || (32 <= byte && byte < 126)
}

/// A byte that can belong to a multi-byte cluster.
pub open spec fn not_ascii_byte(byte: u8) -> bool {
    !printable_byte(byte) || byte > 127
}

/// The byte at position `i`, with zero padding past the end of the content.
pub open spec fn byte_at(b: Seq<u8>, i: int) -> u8 {
    if 0 <= i < b.len() {
        b[i]
    } else {
        0
    }
}

/// `x`, or `n` where `x` is past it.
pub open spec fn clamp(x: int, n: int) -> int {
    if x < n {
        x
    } else {
        n
    }
}

/// The content bytes of the range of `len` bytes that begins at `start`;
/// whatever of the range lies past the end is left out.
pub open spec fn window(b: Seq<u8>, start: int, len: int) -> Seq<u8> {
    b.subrange(clamp(start, b.len() as int), clamp(start + len, b.len() as int))
}

/// The text that bytes encode, or no text where they are not valid UTF-8.
pub open spec fn text_of(bytes: Seq<u8>) -> Seq<char> {
    if valid_utf8(bytes) {
        decode_utf8(bytes)
    } else {
        Seq::empty()
    }
}

pub fn is_ascii_printable_byte(byte: u8) -> (r: bool)
    ensures
        r == printable_byte(byte),
{
    (9 <= byte && byte < 13) || (32 <= byte && byte < 126)
}

pub fn is_not_ascii_byte(byte: u8) -> (r: bool)
    ensures
        r == not_ascii_byte(byte),
{
    !is_ascii_printable_byte(byte) || byte > 127
}

/// Relies on std::str::from_utf8: it succeeds exactly on valid UTF-8, and
/// the string it returns holds those bytes.
#[verifier::external_body]
pub(crate) fn utf8_str(bytes: &[u8]) -> (r: Option<&str>)
    ensures
        r is Some <==> valid_utf8(bytes@),
        r matches Some(s) ==> encode_utf8(s@) == bytes@,
{
    std::str::from_utf8(bytes).ok()
}

/// The byte at `index`, zero past the end.
pub fn get_byte_at_index(bytes: &[u8], index: usize) -> (r: u8)
    ensures
        r == byte_at(bytes@, index as int),
{
    if index < bytes.len() {
        bytes[index]
    } else {
        0
    }
}

/// The content bytes of the `count` bytes from `index` on.
pub fn get_byte_slice_of(bytes: &[u8], index: usize, count: usize) -> (r: &[u8])
    ensures
        r@ == window(bytes@, index as int, count as int),
{
    let n = bytes.len();
    let lo = if index < n {
        index
    } else {
        n
    };
    let hi = if count < n - lo {
        lo + count
    } else {
        n
    };
    vstd::slice::slice_subrange(bytes, lo, hi)
}

/// Whether the content bytes of the `count` bytes from `index` on are valid
/// UTF-8.
pub fn is_valid_utf8_window(bytes: &[u8], index: usize, count: usize) -> (r: bool)
    ensures
        r == valid_utf8(window(bytes@, index as int, count as int)),
{
    utf8_str(get_byte_slice_of(bytes, index, count)).is_some()
}

/// The text of the `count` bytes from `index` on, or the empty string where
/// they are not valid UTF-8.
pub fn get_str_slice_of(bytes: &[u8], index: usize, count: usize) -> (r: String)
    ensures
        r@ == text_of(window(bytes@, index as int, count as int)),
{
    let w = get_byte_slice_of(bytes, index, count);
    match utf8_str(w) {
        Some(s) => {
            proof {
                encode_utf8_decode_utf8(s@);
            }
            s.to_owned()
        },
        None => String::new(),
    }
}

/// Resolves the cluster that byte `index` of `stream` belongs to; the same
/// resolver as [`crate::heuristics::get_utf8_at_index`], reachable from the
/// crate root.
pub fn get_utf8_at_index(stream: &Utf8Stream, index: usize) -> (r: (String, usize, usize, usize))
    ensures
        (r.0@, r.1 as int, r.2 as int, r.3 as int) == resolve(stream.content(), index as int),
        r.3 <= stream.content().len(),
{
    crate::heuristics::get_utf8_at_index(stream, index)
}

} // verus!
