//! The cluster resolver: given a stream's bytes and a byte offset, find the
//! text unit that the offset belongs to.
//!
//! This is a heuristic, not Unicode grapheme segmentation. Outside the ASCII
//! fast path it takes the run of bytes at or above 0x80 around the offset,
//! walks the start left while the window does not decode, then walks the end
//! right while the next byte is non-ASCII and the window still decodes. The
//! phases below are stated one spec function each, in the order in which the
//! resolver applies them.
use vstd::prelude::*;
use vstd::utf8::*;

use crate::internal::{
    byte_at, get_byte_at_index, get_str_slice_of, is_not_ascii_byte, is_valid_utf8_window,
    not_ascii_byte, text_of, window,
};
use crate::stream::Utf8Stream;

verus! {

/// The first position of the run of bytes at or above 0x80 that reaches
/// back from `s`.
pub open spec fn run_start(b: Seq<u8>, s: int) -> int
    decreases s,
{
    if 0 < s <= b.len() && b[s - 1] >= 128 {
        run_start(b, s - 1)
    } else {
        s
    }
}

/// The last position of the run of bytes at or above 0x80 that continues
/// from `e`.
pub open spec fn run_end(b: Seq<u8>, e: int) -> int
    decreases b.len() - e,
{
    if 0 <= e + 1 < b.len() && b[e + 1] >= 128 {
        run_end(b, e + 1)
    } else {
        e
    }
}

/// Moves the start left over non-ASCII bytes while the window from the start
/// through `e` does not decode.
pub open spec fn extend_start(b: Seq<u8>, s: int, e: int) -> int
    decreases s,
{
    if s > 0 && not_ascii_byte(byte_at(b, s - 1)) && !valid_utf8(window(b, s, e + 1 - s)) {
        extend_start(b, s - 1, e)
    } else {
        s
    }
}

/// Moves the end right while the next byte is non-ASCII and the window from
/// `s` through it still decodes. Past the end of the content the next byte
/// reads as zero padding, which is non-ASCII but adds nothing to a window,
/// so a run that ends the content may close one past its last byte.
pub open spec fn extend_end(b: Seq<u8>, s: int, e: int) -> int
    decreases b.len() - e,
{
    if e < b.len() && not_ascii_byte(byte_at(b, e + 1)) && valid_utf8(window(b, s, e + 2 - s)) {
        extend_end(b, s, e + 1)
    } else {
        e
    }
}

/// The number of content bytes in `[lo, hi)` that are not printable ASCII.
pub open spec fn count_not_ascii(b: Seq<u8>, lo: int, hi: int) -> int
    decreases hi - lo,
{
    if hi <= lo {
        0
    } else {
        count_not_ascii(b, lo, hi - 1) + if 0 <= hi - 1 < b.len() && not_ascii_byte(b[hi - 1]) {
            1int
        } else {
            0int
        }
    }
}

/// The inclusive bounds `(start, end)` of the cluster that the non-ASCII
/// path finds for `index`.
pub open spec fn cluster_bounds(b: Seq<u8>, index: int) -> (int, int) {
    let run = run_end(b, index);
    let start = extend_start(b, run_start(b, index), run);
    (start, extend_end(b, start, run))
}

/// What the resolver returns for `index`: the text, the start, the end and
/// the byte count of the cluster.
///
/// An empty buffer, or an index past the end, has nothing there. A byte
/// below 0x7F is a cluster of its own. Otherwise the cluster is the window
/// that [`cluster_bounds`] finds around `index`; its count is that of the
/// non-ASCII content bytes in the window, and its text is what the count's
/// bytes from the start decode to, or empty where they do not decode.
pub open spec fn resolve(b: Seq<u8>, index: int) -> (Seq<char>, int, int, int) {
    let n = b.len() as int;
    if n == 0 || index >= n {
        (Seq::empty(), index, 0, 0)
    } else if b[index] < 127 {
        (text_of(window(b, index, 1)), index, index + 1, 1)
    } else {
        let (start, end) = cluster_bounds(b, index);
        let count = count_not_ascii(b, start, end + 1);
        (text_of(window(b, start, count)), start, end, count)
    }
}

/// Positions past the end of the content add nothing to a count.
pub proof fn lemma_count_past_end(b: Seq<u8>, lo: int, hi: int)
    requires
        0 <= lo <= b.len() <= hi,
    ensures
        count_not_ascii(b, lo, hi) == count_not_ascii(b, lo, b.len() as int),
    decreases hi,
{
    if hi > b.len() {
        lemma_count_past_end(b, lo, hi - 1);
    }
}

/// Whether the content bytes from `start` through `last` decode.
fn decodes_through(bytes: &[u8], start: usize, last: usize) -> (r: bool)
    requires
        start <= last + 1,
        start <= bytes@.len(),
        last <= bytes@.len(),
    ensures
        r == valid_utf8(window(bytes@, start as int, last + 1 - start)),
{
    let count = if last < bytes.len() {
        last + 1 - start
    } else {
        bytes.len() - start
    };
    is_valid_utf8_window(bytes, start, count)
}

/// Resolves the cluster that byte `index` of `stream` belongs to, and returns
/// its text, its start, its end and its byte count.
pub fn get_utf8_at_index(stream: &Utf8Stream, index: usize) -> (r: (String, usize, usize, usize))
    ensures
        (r.0@, r.1 as int, r.2 as int, r.3 as int) == resolve(stream.content(), index as int),
        r.3 <= stream.content().len(),
{
    let bytes = stream.as_bytes();
    let length = bytes.len();
    let ghost b = bytes@;
    if length == 0 || index >= length {
        return (String::new(), index, 0, 0);
    }
    if bytes[index] < 127 {
        return (get_str_slice_of(bytes, index, 1), index, index + 1, 1);
    }
    let mut end: usize = index;
    while end + 1 < length && bytes[end + 1] >= 128
        invariant
            b == bytes@,
            length == b.len(),
            index <= end < length,
            run_end(b, end as int) == run_end(b, index as int),
        decreases length - end,
    {
        end += 1;
    }
    let mut start: usize = index;
    while start > 0 && bytes[start - 1] >= 128
        invariant
            b == bytes@,
            length == b.len(),
            start <= index < length,
            run_start(b, start as int) == run_start(b, index as int),
        decreases start,
    {
        start -= 1;
    }
    let ghost first = start as int;
    while start > 0 && is_not_ascii_byte(bytes[start - 1]) && !decodes_through(bytes, start, end)
        invariant
            b == bytes@,
            length == b.len(),
            start <= index <= end < length,
            extend_start(b, start as int, end as int) == extend_start(b, first, end as int),
        decreases start,
    {
        start -= 1;
    }
    assert(start == extend_start(b, run_start(b, index as int), run_end(b, index as int)));
    let ghost run = end as int;
    while end < length && is_not_ascii_byte(get_byte_at_index(bytes, end + 1)) && decodes_through(
        bytes,
        start,
        end + 1,
    )
        invariant
            b == bytes@,
            length == b.len(),
            start <= end <= length,
            extend_end(b, start as int, end as int) == extend_end(b, start as int, run),
        decreases length - end,
    {
        end += 1;
    }
    assert((start as int, end as int) == cluster_bounds(b, index as int));
    let mut count: usize = 0;
    let mut k: usize = start;
    while k <= end && k < length
        invariant
            b == bytes@,
            length == b.len(),
            start <= k <= length,
            k == start || k <= end + 1,
            count <= k - start,
            count == count_not_ascii(b, start as int, k as int),
        decreases length - k,
    {
        if is_not_ascii_byte(bytes[k]) {
            count += 1;
        }
        k += 1;
    }
    proof {
        if k <= end {
            lemma_count_past_end(b, start as int, end + 1);
        }
    }
    (get_str_slice_of(bytes, start, count), start, end, count)
}

} // verus!
