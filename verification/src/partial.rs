//! A frame that has only begun to arrive: bytes that end within the writing
//! of a frame are never taken for a frame, nor for a malformed one.

use crate::decimal::{decimal_digits, lemma_digits_round_trip, signed_digits};
use crate::frame::{
    crlf, encode, encode_items, encode_pairs, line_end, parse_array, parse_binary, parse_count,
    parse_frame, parse_integer, parse_items, parse_map, parse_pairs, terminator_at, FrameView,
};
use crate::roundtrip::{
    encode_body, holds_at, lemma_count_line, lemma_digits_one_line, lemma_encode_items_first, lemma_encode_nonempty,
    lemma_encode_pairs_first, lemma_encode_parts, lemma_parse_written, no_line_break, tag_of,
    writable,
};
use vstd::prelude::*;
use vstd::utf8::*;

verus! {

/// The buffer `s` ends within the bytes that begin at `pos`: it holds a
/// beginning of them, and not all.
pub open spec fn ends_within(s: Seq<u8>, pos: int, bytes: Seq<u8>) -> bool {
    0 <= pos <= s.len() && s.len() - pos < bytes.len() && forall|j: int|
        0 <= j < s.len() - pos ==> s[pos + j] == #[trigger] bytes[j]
}

/// Where a buffer ends within some bytes, it ends within the part of them
/// that it has reached.
pub proof fn lemma_part_ends(s: Seq<u8>, pos: int, whole: Seq<u8>, off: int, part: Seq<u8>)
    requires
        ends_within(s, pos, whole),
        0 <= off <= s.len() - pos,
        off + part.len() <= whole.len(),
        whole.subrange(off, off + part.len()) == part,
        s.len() - pos - off < part.len(),
    ensures
        ends_within(s, pos + off, part),
{
    assert forall|j: int| 0 <= j < s.len() - pos - off implies s[pos + off + j]
        == #[trigger] part[j] by {
        assert(whole.subrange(off, off + part.len())[j] == whole[off + j]);
    }
}

/// Where a buffer ends within some bytes, the parts of them before its end
/// stand in it whole.
pub proof fn lemma_part_arrived(s: Seq<u8>, pos: int, whole: Seq<u8>, off: int, part: Seq<u8>)
    requires
        ends_within(s, pos, whole),
        0 <= off,
        off + part.len() <= s.len() - pos,
        whole.subrange(off, off + part.len()) == part,
    ensures
        holds_at(s, pos + off, part),
{
    assert forall|j: int| 0 <= j < part.len() implies s[pos + off + j] == #[trigger] part[j] by {
        assert(whole.subrange(off, off + part.len())[j] == whole[off + j]);
    }
}

/// Without a terminator from `from` on, no line ends.
pub proof fn lemma_no_line_end(s: Seq<u8>, from: int)
    requires
        0 <= from,
        forall|i: int| from <= i ==> !terminator_at(s, i),
    ensures
        line_end(s, from) is None,
    decreases s.len() - from,
{
    if from + 1 < s.len() {
        lemma_no_line_end(s, from + 1);
    }
}

/// A buffer that ends within a line, or within its terminator, holds no
/// end of that line.
pub proof fn lemma_line_cut(s: Seq<u8>, from: int, line: Seq<u8>)
    requires
        no_line_break(line),
        ends_within(s, from, line + crlf()),
    ensures
        line_end(s, from) is None,
{
    let whole = line + crlf();
    assert forall|i: int| from <= i implies !terminator_at(s, i) by {
        if i + 1 < s.len() {
            let j = i - from;
            assert(s[from + j] == whole[j]);
            assert(s[from + (j + 1)] == whole[j + 1]);
            if j + 1 < line.len() {
                assert(whole[j] == line[j] && whole[j + 1] == line[j + 1]);
            } else {
                assert(j + 1 == line.len());
                assert(whole[j + 1] == 13);
            }
        }
    }
    lemma_no_line_end(s, from);
}

/// A buffer that ends within a count line holds no count yet.
pub proof fn lemma_count_cut(s: Seq<u8>, pos: int, n: nat)
    requires
        ends_within(s, pos, decimal_digits(n) + crlf()),
    ensures
        parse_count(s, pos) is Incomplete,
{
    lemma_digits_round_trip(n);
    lemma_digits_one_line(decimal_digits(n));
    lemma_line_cut(s, pos, decimal_digits(n));
}

/// A buffer that ends within an integer line holds no integer yet.
pub proof fn lemma_integer_cut(s: Seq<u8>, pos: int, i: int)
    requires
        ends_within(s, pos, signed_digits(i) + crlf()),
    ensures
        parse_integer(s, pos) is Incomplete,
{
    if i < 0 {
        lemma_digits_round_trip((-i) as nat);
        lemma_digits_one_line(decimal_digits((-i) as nat));
    } else {
        lemma_digits_round_trip(i as nat);
        lemma_digits_one_line(decimal_digits(i as nat));
    }
    lemma_line_cut(s, pos, signed_digits(i));
}

/// A buffer that ends within a length-prefixed payload holds no payload yet.
pub proof fn lemma_binary_cut(s: Seq<u8>, pos: int, b: Seq<u8>)
    requires
        b.len() <= usize::MAX,
        ends_within(s, pos, decimal_digits(b.len()) + crlf() + b + crlf()),
    ensures
        parse_binary(s, pos) is Incomplete,
{
    let d = decimal_digits(b.len());
    let e = d + crlf() + b + crlf();
    let dl = d.len() as int;
    assert(e.subrange(0, dl + 2) =~= d + crlf());
    if s.len() - pos < dl + 2 {
        lemma_part_ends(s, pos, e, 0, d + crlf());
        lemma_count_cut(s, pos, b.len());
    } else {
        lemma_part_arrived(s, pos, e, 0, d + crlf());
        lemma_count_line(s, pos, b.len());
    }
}

/// A buffer that ends within an array holds no array yet.
pub proof fn lemma_array_cut(s: Seq<u8>, pos: int, items: Seq<FrameView>)
    requires
        items.len() <= usize::MAX,
        forall|i: int| 0 <= i < items.len() ==> writable(#[trigger] items[i]),
        ends_within(s, pos, decimal_digits(items.len()) + crlf() + encode_items(items)),
    ensures
        parse_array(s, pos) is Incomplete,
    decreases items, 1nat,
{
    let d = decimal_digits(items.len());
    let body = encode_items(items);
    let e = d + crlf() + body;
    let dl = d.len() as int;
    assert(e.subrange(0, dl + 2) =~= d + crlf());
    if s.len() - pos < dl + 2 {
        lemma_part_ends(s, pos, e, 0, d + crlf());
        lemma_count_cut(s, pos, items.len());
    } else {
        lemma_part_arrived(s, pos, e, 0, d + crlf());
        lemma_count_line(s, pos, items.len());
        assert(e.subrange(dl + 2, dl + 2 + body.len()) =~= body);
        lemma_part_ends(s, pos, e, dl + 2, body);
        lemma_items_cut(s, pos + dl + 2, items, Seq::empty());
    }
}

/// A buffer that ends within a map holds no map yet.
pub proof fn lemma_map_cut(s: Seq<u8>, pos: int, pairs: Seq<(FrameView, FrameView)>)
    requires
        pairs.len() <= usize::MAX,
        forall|i: int|
            0 <= i < pairs.len() ==> writable((#[trigger] pairs[i]).0) && writable(pairs[i].1),
        ends_within(s, pos, decimal_digits(pairs.len()) + crlf() + encode_pairs(pairs)),
    ensures
        parse_map(s, pos) is Incomplete,
    decreases pairs, 1nat,
{
    let d = decimal_digits(pairs.len());
    let body = encode_pairs(pairs);
    let e = d + crlf() + body;
    let dl = d.len() as int;
    assert(e.subrange(0, dl + 2) =~= d + crlf());
    if s.len() - pos < dl + 2 {
        lemma_part_ends(s, pos, e, 0, d + crlf());
        lemma_count_cut(s, pos, pairs.len());
    } else {
        lemma_part_arrived(s, pos, e, 0, d + crlf());
        lemma_count_line(s, pos, pairs.len());
        assert(e.subrange(dl + 2, dl + 2 + body.len()) =~= body);
        lemma_part_ends(s, pos, e, dl + 2, body);
        lemma_pairs_cut(s, pos + dl + 2, pairs, Seq::empty());
    }
}

/// A buffer that ends within a run of frames holds not all of them yet.
pub proof fn lemma_items_cut(s: Seq<u8>, pos: int, items: Seq<FrameView>, done: Seq<FrameView>)
    requires
        forall|i: int| 0 <= i < items.len() ==> writable(#[trigger] items[i]),
        ends_within(s, pos, encode_items(items)),
    ensures
        parse_items(s, pos, items.len(), done) is Incomplete,
    decreases items, 0nat,
{
    assert(items.len() > 0);
    let first = items[0];
    let rest = items.drop_first();
    let whole = encode_items(items);
    let fl = encode(first).len() as int;
    lemma_encode_items_first(items);
    lemma_encode_nonempty(first);
    assert(whole.subrange(0, fl) =~= encode(first));
    if s.len() - pos < fl {
        lemma_part_ends(s, pos, whole, 0, encode(first));
        lemma_frame_cut(s, pos, first);
    } else {
        lemma_part_arrived(s, pos, whole, 0, encode(first));
        lemma_parse_written(s, pos, first);
        assert(whole.subrange(fl, fl + encode_items(rest).len()) =~= encode_items(rest));
        lemma_part_ends(s, pos, whole, fl, encode_items(rest));
        assert forall|i: int| 0 <= i < rest.len() implies writable(#[trigger] rest[i]) by {
            assert(rest[i] == items[i + 1]);
        }
        lemma_items_cut(s, pos + fl, rest, done.push(first));
    }
}

/// A buffer that ends within a run of pairs holds not all of them yet.
pub proof fn lemma_pairs_cut(
    s: Seq<u8>,
    pos: int,
    pairs: Seq<(FrameView, FrameView)>,
    done: Seq<(FrameView, FrameView)>,
)
    requires
        forall|i: int|
            0 <= i < pairs.len() ==> writable((#[trigger] pairs[i]).0) && writable(pairs[i].1),
        ends_within(s, pos, encode_pairs(pairs)),
    ensures
        parse_pairs(s, pos, pairs.len(), done) is Incomplete,
    decreases pairs, 0nat,
{
    assert(pairs.len() > 0);
    let first = pairs[0];
    let rest = pairs.drop_first();
    let whole = encode_pairs(pairs);
    let kl = encode(first.0).len() as int;
    let vl = encode(first.1).len() as int;
    lemma_encode_pairs_first(pairs);
    lemma_encode_nonempty(first.0);
    lemma_encode_nonempty(first.1);
    assert(writable(pairs[0].0) && writable(pairs[0].1));
    assert(whole.subrange(0, kl) =~= encode(first.0));
    assert(whole.subrange(kl, kl + vl) =~= encode(first.1));
    if s.len() - pos < kl {
        lemma_part_ends(s, pos, whole, 0, encode(first.0));
        lemma_frame_cut(s, pos, first.0);
    } else {
        lemma_part_arrived(s, pos, whole, 0, encode(first.0));
        lemma_parse_written(s, pos, first.0);
        if s.len() - pos < kl + vl {
            lemma_part_ends(s, pos, whole, kl, encode(first.1));
            lemma_frame_cut(s, pos + kl, first.1);
        } else {
            lemma_part_arrived(s, pos, whole, kl, encode(first.1));
            lemma_parse_written(s, pos + kl, first.1);
            assert(whole.subrange(kl + vl, kl + vl + encode_pairs(rest).len()) =~= encode_pairs(
                rest,
            ));
            lemma_part_ends(s, pos, whole, kl + vl, encode_pairs(rest));
            assert forall|i: int| 0 <= i < rest.len() implies writable((#[trigger] rest[i]).0)
                && writable(rest[i].1) by {
                assert(rest[i] == pairs[i + 1]);
            }
            lemma_pairs_cut(s, pos + kl + vl, rest, done.push(first));
        }
    }
}

/// A buffer that ends within the writing of a writable frame holds no frame
/// yet: the parse is incomplete, never malformed.
pub proof fn lemma_frame_cut(s: Seq<u8>, pos: int, f: FrameView)
    requires
        writable(f),
        ends_within(s, pos, encode(f)),
    ensures
        parse_frame(s, pos) is Incomplete,
    decreases f, 0nat,
{
    if pos < s.len() {
        let e = encode(f);
        let body = encode_body(f);
        lemma_encode_parts(f);
        assert(e[0] == tag_of(f));
        assert(s[pos + 0] == e[0]);
        assert(e.subrange(1, 1 + body.len() as int) =~= body);
        lemma_part_ends(s, pos, e, 1, body);
        match f {
            FrameView::SimpleString(t) => {
                lemma_line_cut(s, pos + 1, encode_utf8(t));
            },
            FrameView::SimpleError(t) => {
                lemma_line_cut(s, pos + 1, encode_utf8(t));
            },
            FrameView::Integer(i) => {
                lemma_integer_cut(s, pos + 1, i);
            },
            FrameView::BulkString(b) => {
                lemma_binary_cut(s, pos + 1, b);
            },
            FrameView::Array(items) => {
                lemma_array_cut(s, pos + 1, items);
            },
            FrameView::Mapping(pairs) => {
                lemma_map_cut(s, pos + 1, pairs);
            },
        }
    }
}

/// Partial feed: every proper prefix of the bytes of a writable frame
/// parses as incomplete.
pub proof fn lemma_prefix_incomplete(f: FrameView, k: int)
    requires
        writable(f),
        0 <= k < encode(f).len(),
    ensures
        parse_frame(encode(f).subrange(0, k), 0) is Incomplete,
{
    lemma_frame_cut(encode(f).subrange(0, k), 0, f);
}

} // verus!
