//! The stream: an owned byte buffer with a cursor, read as text units.
use vstd::prelude::*;
use vstd::utf8::*;

use crate::heuristics::{get_utf8_at_index, resolve};
use crate::internal::utf8_str;

verus! {

/// The text of an optional string.
pub open spec fn opt_text(o: Option<String>) -> Option<Seq<char>> {
    match o {
        Some(s) => Some(s@),
        None => None,
    }
}

/// Whether a text is the single NUL character, a placeholder rather than
/// a printable unit.
pub open spec fn is_nul_text(t: Seq<char>) -> bool {
    encode_utf8(t) == seq![0u8]
}

/// The unit that `get` finds at `index`: the resolved text, unless the
/// resolved count is zero or the text is a single NUL with a count of one.
pub open spec fn unit_at(b: Seq<u8>, index: int) -> Option<Seq<char>> {
    let (text, _, _, count) = resolve(b, index);
    if count == 0 || (count == 1 && is_nul_text(text)) {
        None
    } else {
        Some(text)
    }
}

/// The last unit found by `get` at `index` or below that is not a single
/// NUL.
pub open spec fn last_printable_from(b: Seq<u8>, index: int) -> Option<Seq<char>>
    decreases index,
{
    match unit_at(b, index) {
        Some(t) if !is_nul_text(t) => Some(t),
        _ => if index <= 0 {
            None
        } else {
            last_printable_from(b, index - 1)
        },
    }
}

/// The length of the longest prefix of `b` no longer than `k` that is
/// valid UTF-8.
pub open spec fn valid_prefix_len(b: Seq<u8>, k: int) -> int
    decreases k,
{
    if k <= 0 {
        0
    } else if valid_utf8(b.subrange(0, k)) {
        k
    } else {
        valid_prefix_len(b, k - 1)
    }
}

/// The longest valid UTF-8 prefix of `b`.
pub open spec fn valid_prefix(b: Seq<u8>) -> Seq<u8> {
    b.subrange(0, valid_prefix_len(b, b.len() as int))
}

/// Whether `needle` occurs in `hay` as a contiguous run.
pub open spec fn occurs_in(needle: Seq<u8>, hay: Seq<u8>) -> bool {
    exists|i: int| 0 <= i <= hay.len() - needle.len() && #[trigger] hay.subrange(i, i + needle.len()) == needle
}

/// The unit that a forward step from `cursor` yields.
pub open spec fn next_unit(b: Seq<u8>, cursor: int) -> Option<Seq<char>> {
    let (text, _, _, count) = resolve(b, cursor);
    if cursor == b.len() || count == 0 {
        None
    } else {
        Some(text)
    }
}

/// The cursor after a forward step from `cursor`.
pub open spec fn next_cursor(b: Seq<u8>, cursor: int) -> int {
    let count = resolve(b, cursor).3;
    if cursor == b.len() || count == 0 {
        cursor
    } else if cursor + count <= b.len() {
        cursor + count
    } else {
        b.len() as int
    }
}

/// The unit that a backward step from `cursor` yields.
pub open spec fn next_back_unit(b: Seq<u8>, cursor: int) -> Option<Seq<char>> {
    let (text, _, _, count) = resolve(b, cursor - 1);
    if cursor == 0 || count == 0 {
        None
    } else {
        Some(text)
    }
}

/// The cursor after a backward step from `cursor`.
pub open spec fn next_back_cursor(b: Seq<u8>, cursor: int) -> int {
    let count = resolve(b, cursor - 1).3;
    if cursor == 0 || count == 0 {
        cursor
    } else if cursor >= count {
        cursor - count
    } else {
        0
    }
}

/// The number of bytes that `pop` removes: the count of the cluster
/// resolved at the last byte.
pub open spec fn pop_count(b: Seq<u8>) -> int {
    if b.len() == 0 {
        0
    } else {
        resolve(b, b.len() - 1).3
    }
}

/// The unit that `pop` returns.
pub open spec fn pop_unit(b: Seq<u8>) -> Option<Seq<char>> {
    if pop_count(b) == 0 {
        None
    } else {
        Some(resolve(b, b.len() - 1).0)
    }
}

/// The bytes that are left after `pop`.
pub open spec fn after_pop(b: Seq<u8>) -> Seq<u8> {
    b.subrange(0, b.len() - pop_count(b))
}

/// The units that repeated forward steps yield from `cursor` on, until a
/// step yields nothing.
pub open spec fn forward_units(b: Seq<u8>, cursor: int) -> Seq<Seq<char>>
    decreases b.len() - cursor,
{
    if 0 <= cursor < next_cursor(b, cursor) <= b.len() && next_unit(b, cursor) is Some {
        seq![next_unit(b, cursor)->0] + forward_units(b, next_cursor(b, cursor))
    } else {
        Seq::empty()
    }
}

/// The units that repeated calls of `pop` return, until one returns nothing.
pub open spec fn pop_units(b: Seq<u8>) -> Seq<Seq<char>>
    decreases b.len(),
{
    if 0 < pop_count(b) <= b.len() {
        seq![pop_unit(b)->0] + pop_units(after_pop(b))
    } else {
        Seq::empty()
    }
}

/// Byte sequences in lexicographic order, a proper prefix first.
pub open spec fn lex_order(a: Seq<u8>, b: Seq<u8>) -> core::cmp::Ordering
    decreases a.len(),
{
    if a.len() == 0 {
        if b.len() == 0 {
            core::cmp::Ordering::Equal
        } else {
            core::cmp::Ordering::Less
        }
    } else if b.len() == 0 {
        core::cmp::Ordering::Greater
    } else if a[0] < b[0] {
        core::cmp::Ordering::Less
    } else if a[0] > b[0] {
        core::cmp::Ordering::Greater
    } else {
        lex_order(a.drop_first(), b.drop_first())
    }
}

/// A growable byte buffer read as a sequence of text units, with a cursor
/// for forward and backward iteration.
#[derive(Clone, Debug)]
pub struct Utf8Stream {
    bytes: Vec<u8>,
    index: usize,
}

impl Utf8Stream {
    /// The bytes of the stream.
    pub closed spec fn content(&self) -> Seq<u8> {
        self.bytes@
    }

    /// The cursor of forward and backward iteration, a byte offset.
    pub closed spec fn cursor(&self) -> int {
        self.index as int
    }

    /// The cursor lies within the content.
    pub open spec fn wf(&self) -> bool {
        0 <= self.cursor() <= self.content().len()
    }

    /// A stream that holds the bytes of `input`, with its cursor at the start.
    pub fn new(input: &str) -> (r: Utf8Stream)
        ensures
            r.content() == encode_utf8(input@),
            r.cursor() == 0,
    {
        Utf8Stream { bytes: vstd::slice::slice_to_vec(input.as_bytes()), index: 0 }
    }

    /// Appends the bytes of `input`; the cursor stays where it is.
    pub fn push(&mut self, input: &str)
        ensures
            final(self).content() == old(self).content() + encode_utf8(input@),
            final(self).cursor() == old(self).cursor(),
    {
        let more = input.as_bytes();
        let ghost start = self.bytes@;
        let mut i: usize = 0;
        while i < more.len()
            invariant
                self.bytes@ == start + more@.subrange(0, i as int),
                self.index == old(self).index,
                start == old(self).bytes@,
                i <= more.len(),
            decreases more.len() - i,
        {
            self.bytes.push(more[i]);
            i += 1;
            assert(more@.subrange(0, i as int) == more@.subrange(0, i - 1) + seq![more@[i - 1]]);
        }
        assert(more@.subrange(0, i as int) == more@);
    }

    /// The number of bytes in the stream.
    pub fn len(&self) -> (r: usize)
        ensures
            r == self.content().len(),
    {
        self.bytes.len()
    }

    /// Whether the stream holds no bytes.
    pub fn is_empty(&self) -> (r: bool)
        ensures
            r == (self.content().len() == 0),
    {
        self.bytes.len() == 0
    }

    /// The raw bytes of the stream.
    pub fn as_bytes(&self) -> (r: &[u8])
        ensures
            r@ == self.content(),
    {
        self.bytes.as_slice()
    }

    /// The longest prefix of the stream that is valid UTF-8, as a string.
    pub fn as_str(&self) -> (r: &str)
        ensures
            encode_utf8(r@) == valid_prefix(self.content()),
            r@ == decode_utf8(valid_prefix(self.content())),
    {
        let bytes = self.bytes.as_slice();
        let mut offset: usize = bytes.len();
        loop
            invariant
                bytes@ == self.bytes@,
                offset <= bytes@.len(),
                valid_prefix_len(bytes@, offset as int) == valid_prefix_len(
                    bytes@,
                    bytes@.len() as int,
                ),
            decreases offset,
        {
            match utf8_str(vstd::slice::slice_subrange(bytes, 0, offset)) {
                Some(s) => {
                    proof {
                        encode_utf8_decode_utf8(s@);
                    }
                    return s;
                },
                None => {
                    assert(bytes@.subrange(0, offset as int).len() == offset);
                    offset -= 1;
                },
            }
        }
    }

    /// Whether `input` occurs in the text that `as_str` returns: a plain
    /// substring test, not aware of clusters.
    pub fn contains(&mut self, input: &str) -> (r: bool)
        ensures
            *final(self) == *old(self),
            r == occurs_in(encode_utf8(input@), valid_prefix(old(self).content())),
    {
        let hay = self.as_str().as_bytes();
        let needle = input.as_bytes();
        if needle.len() > hay.len() {
            return false;
        }
        let last = hay.len() - needle.len();
        let mut i: usize = 0;
        loop
            invariant
                i <= last,
                last == hay@.len() - needle@.len(),
                needle@.len() <= hay@.len(),
                hay@ == valid_prefix(old(self).content()),
                needle@ == encode_utf8(input@),
                forall|j: int| 0 <= j < i ==> #[trigger] hay@.subrange(j, j + needle@.len()) != needle@,
            decreases last - i,
        {
            if matches_at(hay, needle, i) {
                return true;
            }
            if i == last {
                return false;
            }
            i += 1;
        }
    }

    /// Drops all content and puts the cursor back at the start.
    pub fn clear(&mut self)
        ensures
            final(self).content() == Seq::<u8>::empty(),
            final(self).cursor() == 0,
    {
        self.bytes = Vec::new();
        self.index = 0;
    }

    /// Puts the cursor back at the start; the content is kept.
    pub fn rewind(&mut self)
        ensures
            final(self).content() == old(self).content(),
            final(self).cursor() == 0,
    {
        self.index = 0;
    }

    /// The unit at byte `index`, or `None` where nothing printable is there.
    pub fn get(&self, index: usize) -> (r: Option<String>)
        ensures
            opt_text(r) == unit_at(self.content(), index as int),
    {
        let (slice, _, _, count) = get_utf8_at_index(self, index);
        if count == 0 || count == 1 && is_nul(&slice) {
            None
        } else {
            Some(slice)
        }
    }

    /// The last printable unit, searching down from the end.
    pub fn last_printable(&self) -> (r: Option<String>)
        ensures
            opt_text(r) == if self.content().len() == 0 {
                None
            } else {
                last_printable_from(self.content(), self.content().len() as int)
            },
    {
        let n = self.bytes.len();
        if n == 0 {
            return None;
        }
        let mut index: usize = n;
        loop
            invariant
                n == self.content().len(),
                index <= n,
                last_printable_from(self.content(), index as int) == last_printable_from(
                    self.content(),
                    n as int,
                ),
            decreases index,
        {
            match self.get(index) {
                Some(slice) => {
                    if !is_nul(&slice) {
                        return Some(slice);
                    }
                },
                None => {},
            }
            if index == 0 {
                return None;
            }
            index -= 1;
        }
    }

    /// Removes the cluster that ends the stream and returns its text.
    pub fn pop(&mut self) -> (r: Option<String>)
        requires
            old(self).wf(),
        ensures
            final(self).wf(),
            opt_text(r) == pop_unit(old(self).content()),
            final(self).content() == after_pop(old(self).content()),
            final(self).cursor() == if old(self).cursor() <= final(self).content().len() {
                old(self).cursor()
            } else {
                final(self).content().len() as int
            },
    {
        let n = self.bytes.len();
        if n == 0 {
            assert(self.bytes@.subrange(0, 0) == self.bytes@);
            return None;
        }
        let (slice, _, _, count) = get_utf8_at_index(self, n - 1);
        if count > 0 {
            let rest = n - count;
            if self.index > rest {
                self.index = rest;
            }
            self.bytes.truncate(rest);
            Some(slice)
        } else {
            assert(self.bytes@.subrange(0, n as int) == self.bytes@);
            None
        }
    }

    /// Yields the unit at the cursor and moves the cursor past it.
    pub fn next(&mut self) -> (r: Option<String>)
        requires
            old(self).wf(),
        ensures
            final(self).wf(),
            final(self).content() == old(self).content(),
            opt_text(r) == next_unit(old(self).content(), old(self).cursor()),
            final(self).cursor() == next_cursor(old(self).content(), old(self).cursor()),
    {
        let n = self.bytes.len();
        if self.index == n {
            return None;
        }
        let (slice, _, _, count) = get_utf8_at_index(self, self.index);
        if count > 0 {
            if count <= n - self.index {
                self.index = self.index + count;
            } else {
                self.index = n;
            }
            Some(slice)
        } else {
            None
        }
    }

    /// Yields the unit that ends before the cursor and moves the cursor back
    /// over it.
    pub fn next_back(&mut self) -> (r: Option<String>)
        requires
            old(self).wf(),
        ensures
            final(self).wf(),
            final(self).content() == old(self).content(),
            opt_text(r) == next_back_unit(old(self).content(), old(self).cursor()),
            final(self).cursor() == next_back_cursor(old(self).content(), old(self).cursor()),
    {
        if self.index == 0 {
            return None;
        }
        let (slice, _, _, count) = get_utf8_at_index(self, self.index - 1);
        if count > 0 {
            if self.index >= count {
                self.index = self.index - count;
            } else {
                self.index = 0;
            }
            Some(slice)
        } else {
            None
        }
    }
}

impl Default for Utf8Stream {
    /// An empty stream.
    fn default() -> (r: Utf8Stream)
        ensures
            r.content() == Seq::<u8>::empty(),
            r.cursor() == 0,
    {
        Utf8Stream { bytes: Vec::new(), index: 0 }
    }
}

/// Streams compare by their bytes; the cursor plays no part.
impl PartialEq for Utf8Stream {
    fn eq(&self, other: &Utf8Stream) -> (r: bool) {
        same_bytes(self.bytes.as_slice(), other.bytes.as_slice())
    }
}

impl vstd::std_specs::cmp::PartialEqSpecImpl for Utf8Stream {
    open spec fn obeys_eq_spec() -> bool {
        true
    }

    open spec fn eq_spec(&self, other: &Utf8Stream) -> bool {
        self.content() == other.content()
    }
}

/// Streams order by their bytes, lexicographically; the cursor plays no
/// part.
impl PartialOrd for Utf8Stream {
    fn partial_cmp(&self, other: &Utf8Stream) -> (r: Option<core::cmp::Ordering>) {
        Some(compare_bytes(self.bytes.as_slice(), other.bytes.as_slice()))
    }
}

impl vstd::std_specs::cmp::PartialOrdSpecImpl for Utf8Stream {
    open spec fn obeys_partial_cmp_spec() -> bool {
        true
    }

    open spec fn partial_cmp_spec(&self, other: &Utf8Stream) -> Option<core::cmp::Ordering> {
        Some(lex_order(self.content(), other.content()))
    }
}

impl Eq for Utf8Stream {

}

/// Builds a stream from the text; nothing is claimed of the result through
/// the trait, see [`Utf8Stream::new`].
impl vstd::std_specs::convert::FromSpecImpl<&str> for Utf8Stream {
    open spec fn obeys_from_spec() -> bool {
        false
    }

    open spec fn from_spec(s: &str) -> Utf8Stream {
        arbitrary()
    }
}

impl From<&str> for Utf8Stream {
    fn from(s: &str) -> Utf8Stream {
        Utf8Stream::new(s)
    }
}

/// Builds a stream from the text; nothing is claimed of the result through
/// the trait, see [`Utf8Stream::new`].
impl vstd::std_specs::convert::FromSpecImpl<String> for Utf8Stream {
    open spec fn obeys_from_spec() -> bool {
        false
    }

    open spec fn from_spec(s: String) -> Utf8Stream {
        arbitrary()
    }
}

impl From<String> for Utf8Stream {
    fn from(s: String) -> Utf8Stream {
        Utf8Stream::new(s.as_str())
    }
}

/// Builds a stream from the text; nothing is claimed of the result through
/// the trait, see [`Utf8Stream::new`].
impl vstd::std_specs::convert::FromSpecImpl<&String> for Utf8Stream {
    open spec fn obeys_from_spec() -> bool {
        false
    }

    open spec fn from_spec(s: &String) -> Utf8Stream {
        arbitrary()
    }
}

impl From<&String> for Utf8Stream {
    fn from(s: &String) -> Utf8Stream {
        Utf8Stream::new(s.as_str())
    }
}

/// A stream reads as the longest valid UTF-8 prefix of its bytes.
impl core::ops::Deref for Utf8Stream {
    type Target = str;

    fn deref(&self) -> &str {
        self.as_str()
    }
}

/// The lexicographic order of two byte slices.
fn compare_bytes(a: &[u8], b: &[u8]) -> (r: core::cmp::Ordering)
    ensures
        r == lex_order(a@, b@),
{
    let mut k: usize = 0;
    assert(a@.subrange(0, a@.len() as int) =~= a@);
    assert(b@.subrange(0, b@.len() as int) =~= b@);
    while k < a.len() && k < b.len() && a[k] == b[k]
        invariant
            k <= a@.len(),
            k <= b@.len(),
            lex_order(a@, b@) == lex_order(
                a@.subrange(k as int, a@.len() as int),
                b@.subrange(k as int, b@.len() as int),
            ),
        decreases a.len() - k,
    {
        assert(a@.subrange(k as int, a@.len() as int).drop_first() =~= a@.subrange(
            k + 1,
            a@.len() as int,
        ));
        assert(b@.subrange(k as int, b@.len() as int).drop_first() =~= b@.subrange(
            k + 1,
            b@.len() as int,
        ));
        k += 1;
    }
    if k == a.len() {
        if k == b.len() {
            core::cmp::Ordering::Equal
        } else {
            core::cmp::Ordering::Less
        }
    } else if k == b.len() {
        core::cmp::Ordering::Greater
    } else if a[k] < b[k] {
        core::cmp::Ordering::Less
    } else {
        core::cmp::Ordering::Greater
    }
}

/// Whether two byte slices are equal.
fn same_bytes(a: &[u8], b: &[u8]) -> (r: bool)
    ensures
        r == (a@ == b@),
{
    if a.len() != b.len() {
        return false;
    }
    let mut k: usize = 0;
    while k < a.len()
        invariant
            a@.len() == b@.len(),
            k <= a@.len(),
            a@.subrange(0, k as int) == b@.subrange(0, k as int),
        decreases a.len() - k,
    {
        if a[k] != b[k] {
            return false;
        }
        assert(a@.subrange(0, k + 1) == a@.subrange(0, k as int) + seq![a@[k as int]]);
        assert(b@.subrange(0, k + 1) == b@.subrange(0, k as int) + seq![b@[k as int]]);
        k += 1;
    }
    assert(a@.subrange(0, k as int) == a@);
    assert(b@.subrange(0, k as int) == b@);
    true
}

/// Whether `needle` occurs in `hay` at position `i`.
fn matches_at(hay: &[u8], needle: &[u8], i: usize) -> (r: bool)
    requires
        i + needle@.len() <= hay@.len(),
    ensures
        r == (hay@.subrange(i as int, i + needle@.len()) == needle@),
{
    let hay_len = hay.len();
    let mut k: usize = 0;
    while k < needle.len()
        invariant
            hay_len == hay@.len(),
            i + needle@.len() <= hay@.len(),
            k <= needle@.len(),
            hay@.subrange(i as int, i + k) == needle@.subrange(0, k as int),
        decreases needle.len() - k,
    {
        if hay[i + k] != needle[k] {
            assert(hay@.subrange(i as int, i + needle@.len())[k as int] != needle@[k as int]);
            return false;
        }
        assert(hay@.subrange(i as int, i + k + 1) == hay@.subrange(i as int, i + k) + seq![hay@[i + k]]);
        assert(needle@.subrange(0, k + 1) == needle@.subrange(0, k as int) + seq![needle@[k as int]]);
        k += 1;
    }
    assert(needle@.subrange(0, k as int) == needle@);
    true
}

/// Whether a string is the single NUL character.
fn is_nul(s: &String) -> (r: bool)
    ensures
        r == is_nul_text(s@),
{
    let b = s.as_str().as_bytes();
    if b.len() == 1 && b[0] == 0 {
        assert(b@ == seq![0u8]);
        true
    } else {
        false
    }
}

} // verus!
