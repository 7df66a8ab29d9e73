//! Laws that relate several operations of the stream, stated over the same
//! spec functions that the operations' contracts use.
use vstd::prelude::*;
use vstd::utf8::*;

use crate::heuristics::{
    count_not_ascii, extend_end, extend_start, lemma_count_past_end, resolve, run_end, run_start,
};
use crate::internal::{byte_at, not_ascii_byte, text_of, window};
use crate::stream::{
    after_pop, forward_units, is_nul_text, next_cursor, next_unit, pop_count, pop_unit, pop_units,
    unit_at, valid_prefix, Utf8Stream,
};

verus! {

/// Every byte lies below 0x7F, the range that the resolver's ASCII fast
/// path takes one byte at a time.
pub open spec fn all_below_del(b: Seq<u8>) -> bool {
    forall|i: int| 0 <= i < b.len() ==> b[i] < 127
}

proof fn lemma_encode_concat(a: Seq<char>, b: Seq<char>)
    ensures
        encode_utf8(a + b) == encode_utf8(a) + encode_utf8(b),
    decreases a.len(),
{
    if a.len() == 0 {
        assert(a + b =~= b);
        assert(encode_utf8(a) + encode_utf8(b) =~= encode_utf8(b));
    } else {
        assert((a + b).drop_first() =~= a.drop_first() + b);
        assert((a + b)[0] == a[0]);
        lemma_encode_concat(a.drop_first(), b);
        assert(encode_utf8(a + b) =~= encode_utf8(a) + encode_utf8(b));
    }
}

proof fn lemma_valid_prefix_whole(b: Seq<u8>)
    requires
        valid_utf8(b),
    ensures
        valid_prefix(b) == b,
{
    if b.len() > 0 {
        assert(b.subrange(0, b.len() as int) =~= b);
    }
    assert(valid_prefix(b) =~= b);
}

proof fn lemma_single_byte(x: u8)
    requires
        x < 128,
    ensures
        valid_utf8(seq![x]),
        encode_utf8(text_of(seq![x])) == seq![x],
{
    let s = seq![x];
    assert(((x & 0x7Fu8) as u32) <= 0x7Fu32) by (bit_vector);
    assert(pop_first_scalar(s) =~= Seq::<u8>::empty());
    assert(valid_utf8(pop_first_scalar(s)));
    assert(valid_first_scalar(s));
    decode_utf8_encode_utf8(s);
}

proof fn lemma_forward_below_del(b: Seq<u8>, c: int)
    requires
        forall|i: int| c <= i < b.len() ==> b[i] < 127,
        0 <= c <= b.len(),
    ensures
        forward_units(b, c) == Seq::new((b.len() - c) as nat, |i: int| text_of(seq![b[c + i]])),
    decreases b.len() - c,
{
    if c < b.len() {
        assert(window(b, c, 1) =~= seq![b[c]]);
        lemma_forward_below_del(b, c + 1);
        assert(forward_units(b, c) =~= Seq::new(
            (b.len() - c) as nat,
            |i: int| text_of(seq![b[c + i]]),
        ));
    } else {
        assert(forward_units(b, c) =~= Seq::new(
            (b.len() - c) as nat,
            |i: int| text_of(seq![b[c + i]]),
        ));
    }
}

proof fn lemma_pop_below_del(b: Seq<u8>)
    requires
        all_below_del(b),
    ensures
        pop_units(b) == Seq::new(b.len(), |i: int| text_of(seq![b[b.len() - 1 - i]])),
    decreases b.len(),
{
    let n = b.len() as int;
    if n > 0 {
        assert(window(b, n - 1, 1) =~= seq![b[n - 1]]);
        let rest = after_pop(b);
        assert(rest =~= b.subrange(0, n - 1));
        lemma_pop_below_del(rest);
        assert(pop_units(b) =~= Seq::new(b.len(), |i: int| text_of(seq![b[b.len() - 1 - i]])));
    } else {
        assert(pop_units(b) =~= Seq::new(b.len(), |i: int| text_of(seq![b[b.len() - 1 - i]])));
    }
}

/// For content whose bytes all lie below 0x7F, forward iteration from the
/// start yields exactly one unit per byte, in order, each unit the text of
/// that one byte; repeated `pop` yields the same units in reverse order.
pub proof fn law_units_below_del(b: Seq<u8>)
    requires
        all_below_del(b),
    ensures
        forward_units(b, 0).len() == b.len(),
        forall|i: int|
            0 <= i < b.len() ==> encode_utf8(#[trigger] forward_units(b, 0)[i]) == seq![b[i]],
        pop_units(b).len() == b.len(),
        forall|i: int|
            0 <= i < b.len() ==> #[trigger] pop_units(b)[i] == forward_units(b, 0)[b.len() - 1
                - i],
{
    lemma_forward_below_del(b, 0);
    lemma_pop_below_del(b);
    assert forall|i: int| 0 <= i < b.len() implies encode_utf8(
        #[trigger] forward_units(b, 0)[i],
    ) == seq![b[i]] by {
        lemma_single_byte(b[i]);
    }
}

/// The forward step at an ASCII byte yields that byte's text and moves on
/// by one.
proof fn lemma_forward_ascii_step(b: Seq<u8>, c: int)
    requires
        0 <= c < b.len(),
        b[c] < 127,
    ensures
        forward_units(b, c) == seq![text_of(seq![b[c]])] + forward_units(b, c + 1),
{
    assert(window(b, c, 1) =~= seq![b[c]]);
}

proof fn lemma_flatten_ascii_step(b: Seq<u8>, c: int)
    requires
        0 <= c < b.len(),
        b[c] < 127,
        encode_utf8(forward_units(b, c + 1).flatten()) == b.subrange(c + 1, b.len() as int),
    ensures
        encode_utf8(forward_units(b, c).flatten()) == b.subrange(c, b.len() as int),
{
    lemma_forward_ascii_step(b, c);
    let units = forward_units(b, c);
    assert(units.drop_first() =~= forward_units(b, c + 1));
    lemma_single_byte(b[c]);
    lemma_encode_concat(units.first(), units.drop_first().flatten());
    assert(b.subrange(c, b.len() as int) =~= seq![b[c]] + b.subrange(c + 1, b.len() as int));
}

proof fn lemma_high_byte_not_ascii(x: u8)
    requires
        x >= 127,
    ensures
        not_ascii_byte(x),
{
}

/// Where a valid text has a valid prefix, the rest is valid too.
proof fn lemma_valid_rest(t: Seq<u8>, j: int)
    requires
        valid_utf8(t),
        0 <= j <= t.len(),
        valid_utf8(t.subrange(0, j)),
    ensures
        valid_utf8(t.subrange(j, t.len() as int)),
    decreases t.len(),
{
    if j == 0 {
        assert(t.subrange(0, t.len() as int) =~= t);
    } else {
        let head = t.subrange(0, j);
        let w = length_of_first_scalar(t);
        assert(head[0] == t[0]);
        assert(length_of_first_scalar(head) == w);
        assert(w <= j);
        let rest = pop_first_scalar(t);
        assert(pop_first_scalar(head) =~= rest.subrange(0, j - w));
        lemma_valid_rest(rest, j - w);
        assert(rest.subrange(j - w, rest.len() as int) =~= t.subrange(j, t.len() as int));
    }
}

proof fn lemma_high_byte_invalid(x: u8)
    requires
        x >= 128,
    ensures
        !valid_utf8(seq![x]),
{
}

proof fn lemma_run_end(b: Seq<u8>, e: int)
    requires
        0 <= e < b.len(),
    ensures
        e <= run_end(b, e) < b.len(),
        forall|k: int| e < k <= run_end(b, e) ==> b[k] >= 128,
        run_end(b, e) + 1 == b.len() || b[run_end(b, e) + 1] < 128,
    decreases b.len() - e,
{
    if e + 1 < b.len() && b[e + 1] >= 128 {
        lemma_run_end(b, e + 1);
    }
}

proof fn lemma_extend_end(b: Seq<u8>, s: int, e: int)
    requires
        0 <= s <= e <= b.len(),
        valid_utf8(window(b, s, e + 1 - s)),
    ensures
        e <= extend_end(b, s, e) <= b.len(),
        valid_utf8(window(b, s, extend_end(b, s, e) + 1 - s)),
        e < extend_end(b, s, e) ==> valid_utf8(window(b, s, extend_end(b, s, e) - s)),
        forall|k: int| e < k <= extend_end(b, s, e) && k < b.len() ==> not_ascii_byte(b[k]),
    decreases b.len() - e,
{
    if e < b.len() && not_ascii_byte(byte_at(b, e + 1)) && valid_utf8(window(b, s, e + 2 - s)) {
        lemma_extend_end(b, s, e + 1);
    }
}

proof fn lemma_count_all(b: Seq<u8>, lo: int, hi: int)
    requires
        0 <= lo <= hi <= b.len(),
        forall|k: int| lo <= k < hi ==> not_ascii_byte(b[k]),
    ensures
        count_not_ascii(b, lo, hi) == hi - lo,
    decreases hi - lo,
{
    if hi > lo {
        lemma_count_all(b, lo, hi - 1);
    }
}

/// From a position where valid text continues with a run of bytes at or
/// above 0x7F that ends at `e0`, the non-ASCII path finds a cluster that
/// starts there, reaches past `e0`, decodes, and leaves valid text behind it.
proof fn lemma_cluster_from(b: Seq<u8>, c: int, e0: int)
    requires
        0 <= c <= e0 < b.len(),
        forall|k: int| c <= k <= e0 ==> b[k] >= 127,
        e0 + 1 == b.len() || b[e0 + 1] < 128,
        c == 0 || b[c - 1] < 128,
        valid_utf8(b.subrange(c, b.len() as int)),
    ensures
        extend_start(b, c, e0) == c,
        ({
            let e = extend_end(b, c, e0);
            let k = count_not_ascii(b, c, e + 1);
            &&& e0 < c + k <= b.len()
            &&& valid_utf8(b.subrange(c, c + k))
            &&& text_of(window(b, c, k)) == decode_utf8(b.subrange(c, c + k))
            &&& valid_utf8(b.subrange(c + k, b.len() as int))
            &&& (c + k == b.len() || b[c + k] < 127 || b[c + k - 1] < 128)
        }),
{
    let n = b.len() as int;
    let t = b.subrange(c, n);
    let m = e0 + 1 - c;
    if e0 + 1 == n {
        assert(t.subrange(0, m) =~= t);
    } else {
        assert(t[m] == b[e0 + 1]);
        is_char_boundary_iff_not_is_continuation_byte(t, m);
        valid_utf8_split(t, m);
    }
    assert(window(b, c, e0 + 1 - c) =~= t.subrange(0, m));
    assert(extend_start(b, c, e0) == c);
    let e = extend_end(b, c, e0);
    lemma_extend_end(b, c, e0);
    if e0 < e && e < n {
        let w = window(b, c, e + 1 - c);
        assert(w.subrange(0, e - c) =~= window(b, c, e - c));
        lemma_valid_rest(w, e - c);
        assert(w.subrange(e - c, w.len() as int) =~= seq![b[e]]);
        if b[e] >= 128 {
            lemma_high_byte_invalid(b[e]);
        }
    }
    if e == e0 && e0 + 1 < n && b[e0 + 1] >= 127 {
        lemma_single_byte(b[e0 + 1]);
        assert(window(b, c, e0 + 2 - c) =~= window(b, c, e0 + 1 - c) + seq![b[e0 + 1]]);
        valid_utf8_concat(window(b, c, e0 + 1 - c), seq![b[e0 + 1]]);
        lemma_high_byte_not_ascii(b[e0 + 1]);
        assert(byte_at(b, e0 + 1) == b[e0 + 1]);
        lemma_extend_end(b, c, e0 + 1);
        assert(extend_end(b, c, e0) == extend_end(b, c, e0 + 1));
        assert(false);
    }
    let hi = if e + 1 <= n {
        e + 1
    } else {
        n
    };
    assert forall|k: int| c <= k < hi implies not_ascii_byte(b[k]) by {
        if k <= e0 {
            lemma_high_byte_not_ascii(b[k]);
        }
    }
    lemma_count_all(b, c, hi);
    if e + 1 > n {
        lemma_count_past_end(b, c, e + 1);
    }
    let k = hi - c;
    assert(count_not_ascii(b, c, e + 1) == k);
    assert(window(b, c, k) =~= b.subrange(c, c + k));
    assert(window(b, c, e + 1 - c) =~= b.subrange(c, c + k));
    assert(t.subrange(0, k) =~= b.subrange(c, c + k));
    lemma_valid_rest(t, k);
    assert(t.subrange(k, t.len() as int) =~= b.subrange(c + k, n));
}

/// At a position where valid text starts a run of bytes at or above 0x7F,
/// the resolver finds a cluster that starts there, decodes, and leaves valid
/// text behind it.
proof fn lemma_resolve_at_char(b: Seq<u8>, c: int)
    requires
        0 <= c < b.len(),
        b[c] >= 127,
        c == 0 || b[c - 1] < 128,
        valid_utf8(b.subrange(c, b.len() as int)),
    ensures
        resolve(b, c).1 == c,
        1 <= resolve(b, c).3 <= b.len() - c,
        valid_utf8(b.subrange(c, c + resolve(b, c).3)),
        resolve(b, c).0 == decode_utf8(b.subrange(c, c + resolve(b, c).3)),
        valid_utf8(b.subrange(c + resolve(b, c).3, b.len() as int)),
        c + resolve(b, c).3 == b.len() || b[c + resolve(b, c).3] < 127 || b[c + resolve(b, c).3
            - 1] < 128,
{
    lemma_run_end(b, c);
    assert(run_start(b, c) == c);
    lemma_cluster_from(b, c, run_end(b, c));
}

proof fn lemma_flatten_valid(b: Seq<u8>, c: int)
    requires
        0 <= c <= b.len(),
        c == 0 || c == b.len() || b[c] < 127 || b[c - 1] < 128,
        valid_utf8(b.subrange(c, b.len() as int)),
    ensures
        encode_utf8(forward_units(b, c).flatten()) == b.subrange(c, b.len() as int),
    decreases b.len() - c,
{
    let n = b.len() as int;
    let t = b.subrange(c, n);
    if c == n {
        assert(forward_units(b, c).flatten() =~= Seq::<char>::empty());
        assert(t =~= Seq::<u8>::empty());
    } else if b[c] < 127 {
        lemma_single_byte(b[c]);
        assert(t.subrange(0, 1) =~= seq![b[c]]);
        lemma_valid_rest(t, 1);
        assert(t.subrange(1, t.len() as int) =~= b.subrange(c + 1, n));
        lemma_flatten_valid(b, c + 1);
        lemma_flatten_ascii_step(b, c);
    } else {
        lemma_resolve_at_char(b, c);
        let k = resolve(b, c).3;
        let unit = resolve(b, c).0;
        lemma_flatten_valid(b, c + k);
        let units = forward_units(b, c);
        assert(units == seq![unit] + forward_units(b, c + k));
        assert(units.drop_first() =~= forward_units(b, c + k));
        lemma_encode_concat(units.first(), units.drop_first().flatten());
        decode_utf8_encode_utf8(b.subrange(c, c + k));
        assert(t =~= b.subrange(c, c + k) + b.subrange(c + k, n));
    }
}

/// A byte below 0x80 at a character boundary is a whole character, so the
/// next position is a boundary too.
proof fn lemma_boundary_after_ascii(t: Seq<u8>, i: int)
    requires
        valid_utf8(t),
        0 <= i < t.len(),
        t[i] < 128,
        is_char_boundary(t, i),
    ensures
        is_char_boundary(t, i + 1),
    decreases t.len(),
{
    reveal_with_fuel(is_char_boundary, 2);
    let w = length_of_first_scalar(t);
    let rest = pop_first_scalar(t);
    assert(valid_first_scalar(t));
    assert(valid_utf8(rest));
    assert(1 <= w <= t.len());
    assert(rest.len() == t.len() - w);
    if i > 0 {
        assert(is_char_boundary(rest, i - w));
        assert(0 <= i - w < rest.len());
        assert(rest[i - w] == t[i]);
        lemma_boundary_after_ascii(rest, i - w);
    } else {
        assert(w == 1);
    }
}

proof fn lemma_run_start(b: Seq<u8>, s: int)
    requires
        0 <= s < b.len(),
    ensures
        0 <= run_start(b, s) <= s,
        run_start(b, s) == 0 || b[run_start(b, s) - 1] < 128,
        forall|k: int| run_start(b, s) <= k < s ==> b[k] >= 128,
    decreases s,
{
    if s > 0 && b[s - 1] >= 128 {
        lemma_run_start(b, s - 1);
    }
}

/// In valid text, the cluster resolved at any position of the content starts
/// at or before it, covers it and lies within the content; its text is not
/// empty and is exactly the bytes that its count covers.
pub proof fn law_cluster_covers_index(b: Seq<u8>, index: int)
    requires
        valid_utf8(b),
        0 <= index < b.len(),
    ensures
        0 <= resolve(b, index).1 <= index < resolve(b, index).1 + resolve(b, index).3 <= b.len(),
        encode_utf8(resolve(b, index).0) == b.subrange(
            resolve(b, index).1,
            resolve(b, index).1 + resolve(b, index).3,
        ),
        resolve(b, index).0.len() > 0,
{
    let n = b.len() as int;
    if b[index] < 127 {
        lemma_single_byte(b[index]);
        assert(window(b, index, 1) =~= seq![b[index]]);
        decode_utf8_encode_utf8(seq![b[index]]);
        assert(b.subrange(index, index + 1) =~= seq![b[index]]);
    } else {
        let s0 = run_start(b, index);
        lemma_run_start(b, index);
        if s0 > 0 {
            is_char_boundary_iff_not_is_continuation_byte(b, s0 - 1);
            lemma_boundary_after_ascii(b, s0 - 1);
        } else {
            is_char_boundary_start_end_of_seq(b);
        }
        valid_utf8_split(b, s0);
        lemma_run_end(b, index);
        let e1 = run_end(b, index);
        lemma_cluster_from(b, s0, e1);
        let k = resolve(b, index).3;
        assert(resolve(b, index).1 == s0);
        decode_utf8_encode_utf8(b.subrange(s0, s0 + k));
        assert(b.subrange(s0, s0 + k).len() > 0);
    }
}

/// In valid, non-empty text, `pop` returns a non-empty unit whose bytes are
/// exactly the ones it removes from the end.
pub proof fn law_pop_removes_its_unit(b: Seq<u8>)
    requires
        valid_utf8(b),
        b.len() > 0,
    ensures
        pop_unit(b) is Some,
        pop_unit(b)->0.len() > 0,
        b == after_pop(b) + encode_utf8(pop_unit(b)->0),
{
    let n = b.len() as int;
    law_cluster_covers_index(b, n - 1);
    let (t, s, _, k) = resolve(b, n - 1);
    assert(s + k == n);
    assert(pop_count(b) == k);
    assert(pop_unit(b) == Some(t));
    assert(after_pop(b) =~= b.subrange(0, s));
    assert(b =~= b.subrange(0, s) + b.subrange(s, n));
}

/// In valid text, `get` at a position of the content that does not hold a
/// NUL byte returns the cluster resolved there.
pub proof fn law_get_returns_cluster(b: Seq<u8>, index: int)
    requires
        valid_utf8(b),
        0 <= index < b.len(),
        b[index] != 0,
    ensures
        unit_at(b, index) == Some(resolve(b, index).0),
{
    law_cluster_covers_index(b, index);
    let (t, s, _, k) = resolve(b, index);
    if k == 1 && is_nul_text(t) {
        assert(b.subrange(s, s + 1)[0] == b[index]);
    }
}

/// For any content that is valid UTF-8, the units of forward iteration from
/// the start, concatenated, are the text that `as_str` returns.
pub proof fn law_round_trip(b: Seq<u8>)
    requires
        valid_utf8(b),
    ensures
        forward_units(b, 0).flatten() == decode_utf8(valid_prefix(b)),
{
    let joined = forward_units(b, 0).flatten();
    assert(b.subrange(0, b.len() as int) =~= b);
    lemma_flatten_valid(b, 0);
    encode_utf8_valid_utf8(joined);
    lemma_valid_prefix_whole(b);
    encode_utf8_decode_utf8(joined);
}

/// Pushing `b` onto a stream built from `a` gives the bytes of a stream
/// built from `a` followed by `b`, and its text is `a` followed by `b`.
pub proof fn law_push_appends(a: Seq<char>, b: Seq<char>)
    ensures
        encode_utf8(a) + encode_utf8(b) == encode_utf8(a + b),
        decode_utf8(valid_prefix(encode_utf8(a) + encode_utf8(b))) == a + b,
{
    lemma_encode_concat(a, b);
    encode_utf8_valid_utf8(a + b);
    lemma_valid_prefix_whole(encode_utf8(a + b));
    encode_utf8_decode_utf8(a + b);
}

/// A stream that was cleared and then given `x` by `push` holds the bytes and
/// the cursor of a stream built fresh from `x`, and so answers every `get`,
/// forward step and `pop` as that stream does.
pub proof fn law_clear_then_push(x: Seq<char>, pushed: Utf8Stream, fresh: Utf8Stream)
    requires
        pushed.content() == Seq::<u8>::empty() + encode_utf8(x),
        pushed.cursor() == 0,
        fresh.content() == encode_utf8(x),
        fresh.cursor() == 0,
    ensures
        pushed.content() == fresh.content(),
        pushed.cursor() == fresh.cursor(),
        forward_units(pushed.content(), pushed.cursor()) == forward_units(
            fresh.content(),
            fresh.cursor(),
        ),
        pop_units(pushed.content()) == pop_units(fresh.content()),
        forall|i: int| #[trigger] unit_at(pushed.content(), i) == unit_at(fresh.content(), i),
{
    assert(Seq::<u8>::empty() + encode_utf8(x) =~= encode_utf8(x));
}

/// After `rewind`, forward iteration yields the same units as it does on a
/// stream built fresh with the same bytes.
pub proof fn law_rewind_restarts(rewound: Utf8Stream, fresh: Utf8Stream)
    requires
        rewound.cursor() == 0,
        fresh.cursor() == 0,
        rewound.content() == fresh.content(),
    ensures
        forward_units(rewound.content(), rewound.cursor()) == forward_units(
            fresh.content(),
            fresh.cursor(),
        ),
{
}

} // verus!
