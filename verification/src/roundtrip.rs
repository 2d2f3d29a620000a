//! What is written can be read: the bytes of a frame, wherever they stand in
//! a buffer, parse back to that frame and to nothing else.

use crate::decimal::{
    all_digits, decimal_digits, is_digit, lemma_decimal_round_trip, lemma_digits_round_trip,
    signed_digits,
};
use crate::frame::{
    crlf, encode, encode_items, encode_pairs, line_end, parse_array, parse_binary, parse_count,
    parse_frame, parse_integer, parse_items, parse_map, parse_pairs, parse_text, terminator_at,
    FrameView, Parsed,
};
use vstd::prelude::*;
use vstd::utf8::*;

verus! {

/// No line terminator stands within the bytes.
pub open spec fn no_line_break(line: Seq<u8>) -> bool {
    forall|i: int| 0 <= i && i + 1 < line.len() ==> !(#[trigger] line[i] == 13 && line[i + 1] == 10)
}

/// A frame that the wire can carry: its texts hold no line terminator, its
/// integer fits 64 bits, and its lengths and counts fit the machine.
pub open spec fn writable(f: FrameView) -> bool
    decreases f,
{
    match f {
        FrameView::SimpleString(t) => no_line_break(encode_utf8(t)),
        FrameView::SimpleError(t) => no_line_break(encode_utf8(t)),
        FrameView::Integer(i) => i64::MIN <= i <= i64::MAX,
        FrameView::BulkString(b) => b.len() <= usize::MAX,
        FrameView::Array(items) => items.len() <= usize::MAX && forall|i: int|
            0 <= i < items.len() ==> writable(#[trigger] items[i]),
        FrameView::Mapping(pairs) => pairs.len() <= usize::MAX && forall|i: int|
            0 <= i < pairs.len() ==> writable((#[trigger] pairs[i]).0) && writable(pairs[i].1),
    }
}

/// The bytes stand in `s` from position `pos` on.
pub open spec fn holds_at(s: Seq<u8>, pos: int, bytes: Seq<u8>) -> bool {
    0 <= pos && pos + bytes.len() <= s.len() && forall|j: int|
        0 <= j < bytes.len() ==> s[pos + j] == #[trigger] bytes[j]
}

/// Where bytes stand in a buffer, each part of them stands at its offset.
pub proof fn lemma_part_holds(s: Seq<u8>, pos: int, whole: Seq<u8>, off: int, part: Seq<u8>)
    requires
        holds_at(s, pos, whole),
        0 <= off,
        off + part.len() <= whole.len(),
        whole.subrange(off, off + part.len()) == part,
    ensures
        holds_at(s, pos + off, part),
{
    assert forall|j: int| 0 <= j < part.len() implies s[pos + off + j] == #[trigger] part[j] by {
        assert(whole.subrange(off, off + part.len())[j] == whole[off + j]);
    }
}

/// A line without a terminator inside it ends where its own terminator stands.
pub proof fn lemma_line_end(s: Seq<u8>, from: int, line: Seq<u8>)
    requires
        holds_at(s, from, line + crlf()),
        no_line_break(line),
    ensures
        line_end(s, from) == Some(from + line.len()),
        s.subrange(from, from + line.len()) == line,
    decreases line.len(),
{
    let whole = line + crlf();
    assert(s.subrange(from, from + line.len()) =~= line) by {
        assert forall|j: int| 0 <= j < line.len() implies s[from + j] == line[j] by {
            assert(whole[j] == line[j]);
        }
    }
    if line.len() == 0 {
        assert(whole[0] == 13 && whole[1] == 10);
        assert(terminator_at(s, from));
    } else {
        assert(whole[0] == line[0]);
        assert(whole[1] == if line.len() > 1 {
            line[1]
        } else {
            13u8
        });
        assert(!terminator_at(s, from));
        let rest = line.subrange(1, line.len() as int);
        assert(whole.subrange(1, 1 + (rest.len() as int) + 2) =~= rest + crlf());
        lemma_part_holds(s, from, whole, 1, rest + crlf());
        assert forall|i: int| 0 <= i && i + 1 < rest.len() implies !(#[trigger] rest[i] == 13
            && rest[i + 1] == 10) by {
            assert(rest[i] == line[i + 1]);
            assert(!(line[i + 1] == 13 && line[i + 2] == 10));
        }
        lemma_line_end(s, from + 1, rest);
    }
}

/// Digits hold no line terminator.
pub proof fn lemma_digits_one_line(d: Seq<u8>)
    requires
        all_digits(d),
    ensures
        no_line_break(d),
        no_line_break(seq![45u8] + d),
{
    assert forall|i: int| 0 <= i && i + 1 < d.len() implies !(#[trigger] d[i] == 13 && d[i + 1]
        == 10) by {
        assert(is_digit(d[i]));
    }
    let m = seq![45u8] + d;
    assert forall|i: int| 0 <= i && i + 1 < m.len() implies !(#[trigger] m[i] == 13 && m[i + 1]
        == 10) by {
        if i > 0 {
            assert(is_digit(d[i - 1]));
        }
    }
}

/// A count line that stands in a buffer reads as the count it writes.
pub proof fn lemma_count_line(s: Seq<u8>, pos: int, n: nat)
    requires
        n <= usize::MAX,
        holds_at(s, pos, decimal_digits(n) + crlf()),
    ensures
        parse_count(s, pos) == (Parsed::Done { value: n, next: pos + decimal_digits(n).len() + 2 }),
{
    let d = decimal_digits(n);
    lemma_digits_round_trip(n);
    lemma_decimal_round_trip(n as int);
    lemma_digits_one_line(d);
    lemma_line_end(s, pos, d);
}

/// The writing of a run of frames is that of the first, then that of the rest.
pub proof fn lemma_encode_items_first(items: Seq<FrameView>)
    requires
        items.len() > 0,
    ensures
        encode_items(items) == encode(items[0]) + encode_items(items.drop_first()),
    decreases items.len(),
{
    if items.len() == 1 {
        assert(items.drop_last() =~= Seq::<FrameView>::empty());
        assert(items.drop_first() =~= Seq::<FrameView>::empty());
        assert(encode_items(items) =~= encode(items[0]) + encode_items(items.drop_first()));
    } else {
        lemma_encode_items_first(items.drop_last());
        assert(items.drop_last().drop_first() =~= items.drop_first().drop_last());
        assert(items.drop_first().last() == items.last());
        assert(items.drop_last()[0] == items[0]);
        assert(encode_items(items) =~= encode(items[0]) + encode_items(items.drop_first()));
    }
}

/// The writing of a run of pairs is that of the first key and value, then
/// that of the rest.
pub proof fn lemma_encode_pairs_first(pairs: Seq<(FrameView, FrameView)>)
    requires
        pairs.len() > 0,
    ensures
        encode_pairs(pairs) == encode(pairs[0].0) + encode(pairs[0].1) + encode_pairs(
            pairs.drop_first(),
        ),
    decreases pairs.len(),
{
    if pairs.len() == 1 {
        assert(pairs.drop_last() =~= Seq::<(FrameView, FrameView)>::empty());
        assert(pairs.drop_first() =~= Seq::<(FrameView, FrameView)>::empty());
        assert(encode_pairs(pairs) =~= encode(pairs[0].0) + encode(pairs[0].1) + encode_pairs(
            pairs.drop_first(),
        ));
    } else {
        lemma_encode_pairs_first(pairs.drop_last());
        assert(pairs.drop_last().drop_first() =~= pairs.drop_first().drop_last());
        assert(pairs.drop_first().last() == pairs.last());
        assert(pairs.drop_last()[0] == pairs[0]);
        assert(encode_pairs(pairs) =~= encode(pairs[0].0) + encode(pairs[0].1) + encode_pairs(
            pairs.drop_first(),
        ));
    }
}

/// Every frame is written with at least its tag.
pub proof fn lemma_encode_nonempty(f: FrameView)
    ensures
        encode(f).len() > 0,
{
    lemma_encode_parts(f);
}

/// A text line that stands in a buffer reads as the text it writes.
pub proof fn lemma_text_written(s: Seq<u8>, pos: int, t: Seq<char>)
    requires
        no_line_break(encode_utf8(t)),
        holds_at(s, pos, encode_utf8(t) + crlf()),
    ensures
        parse_text(s, pos) == (Parsed::Done { value: t, next: pos + encode_utf8(t).len() + 2 }),
{
    lemma_line_end(s, pos, encode_utf8(t));
    encode_utf8_valid_utf8(t);
    encode_utf8_decode_utf8(t);
}

/// An integer line that stands in a buffer reads as the integer it writes.
pub proof fn lemma_integer_written(s: Seq<u8>, pos: int, i: int)
    requires
        i64::MIN <= i <= i64::MAX,
        holds_at(s, pos, signed_digits(i) + crlf()),
    ensures
        parse_integer(s, pos) == (Parsed::Done { value: i, next: pos + signed_digits(i).len() + 2 }),
{
    if i < 0 {
        lemma_digits_round_trip((-i) as nat);
        lemma_digits_one_line(decimal_digits((-i) as nat));
    } else {
        lemma_digits_round_trip(i as nat);
        lemma_digits_one_line(decimal_digits(i as nat));
    }
    lemma_line_end(s, pos, signed_digits(i));
    lemma_decimal_round_trip(i);
}

/// A payload that stands in a buffer behind its length reads as itself.
pub proof fn lemma_binary_written(s: Seq<u8>, pos: int, b: Seq<u8>)
    requires
        b.len() <= usize::MAX,
        holds_at(s, pos, decimal_digits(b.len()) + crlf() + b + crlf()),
    ensures
        parse_binary(s, pos) == (Parsed::Done {
            value: b,
            next: pos + decimal_digits(b.len()).len() + 2 + b.len() + 2,
        }),
{
    let d = decimal_digits(b.len());
    let e = d + crlf() + b + crlf();
    let dl = d.len() as int;
    let bl = b.len() as int;
    assert(e.subrange(0, dl + 2) =~= d + crlf());
    lemma_part_holds(s, pos, e, 0, d + crlf());
    lemma_count_line(s, pos, b.len());
    let start = pos + dl + 2;
    assert(s.subrange(start, start + bl) =~= b) by {
        assert forall|j: int| 0 <= j < bl implies s[start + j] == b[j] by {
            assert(e[dl + 2 + j] == b[j]);
        }
    }
    assert(terminator_at(s, start + bl)) by {
        assert(e[dl + 2 + bl] == 13);
        assert(e[dl + 2 + bl + 1] == 10);
    }
}

/// An array that stands in a buffer behind its count reads as itself.
pub proof fn lemma_array_written(s: Seq<u8>, pos: int, items: Seq<FrameView>)
    requires
        items.len() <= usize::MAX,
        forall|i: int| 0 <= i < items.len() ==> writable(#[trigger] items[i]),
        holds_at(s, pos, decimal_digits(items.len()) + crlf() + encode_items(items)),
    ensures
        parse_array(s, pos) == (Parsed::Done {
            value: items,
            next: pos + decimal_digits(items.len()).len() + 2 + encode_items(items).len(),
        }),
    decreases items, 1nat,
{
    let d = decimal_digits(items.len());
    let body = encode_items(items);
    let e = d + crlf() + body;
    let dl = d.len() as int;
    assert(e.subrange(0, dl + 2) =~= d + crlf());
    lemma_part_holds(s, pos, e, 0, d + crlf());
    lemma_count_line(s, pos, items.len());
    assert(e.subrange(dl + 2, dl + 2 + body.len()) =~= body);
    lemma_part_holds(s, pos, e, dl + 2, body);
    lemma_parse_written_items(s, pos + dl + 2, items, Seq::empty());
    assert(Seq::<FrameView>::empty() + items =~= items);
}

/// A map that stands in a buffer behind its count reads as itself.
pub proof fn lemma_map_written(s: Seq<u8>, pos: int, pairs: Seq<(FrameView, FrameView)>)
    requires
        pairs.len() <= usize::MAX,
        forall|i: int|
            0 <= i < pairs.len() ==> writable((#[trigger] pairs[i]).0) && writable(pairs[i].1),
        holds_at(s, pos, decimal_digits(pairs.len()) + crlf() + encode_pairs(pairs)),
    ensures
        parse_map(s, pos) == (Parsed::Done {
            value: pairs,
            next: pos + decimal_digits(pairs.len()).len() + 2 + encode_pairs(pairs).len(),
        }),
    decreases pairs, 1nat,
{
    let d = decimal_digits(pairs.len());
    let body = encode_pairs(pairs);
    let e = d + crlf() + body;
    let dl = d.len() as int;
    assert(e.subrange(0, dl + 2) =~= d + crlf());
    lemma_part_holds(s, pos, e, 0, d + crlf());
    lemma_count_line(s, pos, pairs.len());
    assert(e.subrange(dl + 2, dl + 2 + body.len()) =~= body);
    lemma_part_holds(s, pos, e, dl + 2, body);
    lemma_parse_written_pairs(s, pos + dl + 2, pairs, Seq::empty());
    assert(Seq::<(FrameView, FrameView)>::empty() + pairs =~= pairs);
}

/// What is written behind a frame's tag.
pub open spec fn encode_body(f: FrameView) -> Seq<u8> {
    match f {
        FrameView::SimpleString(t) => encode_utf8(t) + crlf(),
        FrameView::SimpleError(t) => encode_utf8(t) + crlf(),
        FrameView::Integer(i) => signed_digits(i) + crlf(),
        FrameView::BulkString(b) => decimal_digits(b.len()) + crlf() + b + crlf(),
        FrameView::Array(items) => decimal_digits(items.len()) + crlf() + encode_items(items),
        FrameView::Mapping(pairs) => decimal_digits(pairs.len()) + crlf() + encode_pairs(pairs),
    }
}

/// The tag by which a frame's writing begins.
pub open spec fn tag_of(f: FrameView) -> u8 {
    match f {
        FrameView::SimpleString(_) => 43,
        FrameView::SimpleError(_) => 45,
        FrameView::Integer(_) => 58,
        FrameView::BulkString(_) => 36,
        FrameView::Array(_) => 42,
        FrameView::Mapping(_) => 37,
    }
}

/// A frame is written as its tag and what stands behind it.
pub proof fn lemma_encode_parts(f: FrameView)
    ensures
        encode(f) == seq![tag_of(f)] + encode_body(f),
{
    assert(encode(f) =~= seq![tag_of(f)] + encode_body(f));
}

/// The bytes of a writable frame, wherever they stand in a buffer, parse
/// to that frame, and the parse ends just behind them.
pub proof fn lemma_parse_written(s: Seq<u8>, pos: int, f: FrameView)
    requires
        writable(f),
        holds_at(s, pos, encode(f)),
    ensures
        parse_frame(s, pos) == (Parsed::Done { value: f, next: pos + encode(f).len() }),
    decreases f, 0nat,
{
    let e = encode(f);
    let body = encode_body(f);
    lemma_encode_parts(f);
    assert(e[0] == tag_of(f));
    assert(s[pos] == tag_of(f));
    assert(e.subrange(1, 1 + body.len() as int) =~= body);
    lemma_part_holds(s, pos, e, 1, body);
    match f {
        FrameView::SimpleString(t) => {
            lemma_text_written(s, pos + 1, t);
        },
        FrameView::SimpleError(t) => {
            lemma_text_written(s, pos + 1, t);
        },
        FrameView::Integer(i) => {
            lemma_integer_written(s, pos + 1, i);
        },
        FrameView::BulkString(b) => {
            lemma_binary_written(s, pos + 1, b);
        },
        FrameView::Array(items) => {
            lemma_array_written(s, pos + 1, items);
        },
        FrameView::Mapping(pairs) => {
            lemma_map_written(s, pos + 1, pairs);
        },
    }
}

/// The bytes of a run of writable frames parse to those frames, in order,
/// behind whatever was read before.
pub proof fn lemma_parse_written_items(
    s: Seq<u8>,
    pos: int,
    items: Seq<FrameView>,
    done: Seq<FrameView>,
)
    requires
        forall|i: int| 0 <= i < items.len() ==> writable(#[trigger] items[i]),
        holds_at(s, pos, encode_items(items)),
    ensures
        parse_items(s, pos, items.len(), done) == (Parsed::Done {
            value: done + items,
            next: pos + encode_items(items).len(),
        }),
    decreases items, 0nat,
{
    if items.len() == 0 {
        assert(done + items =~= done);
    } else {
        let first = items[0];
        let rest = items.drop_first();
        let whole = encode_items(items);
        lemma_encode_items_first(items);
        lemma_encode_nonempty(first);
        assert(whole.subrange(0, encode(first).len() as int) =~= encode(first));
        lemma_part_holds(s, pos, whole, 0, encode(first));
        lemma_parse_written(s, pos, first);
        let next = pos + encode(first).len();
        assert(whole.subrange(encode(first).len() as int, whole.len() as int) =~= encode_items(
            rest,
        ));
        lemma_part_holds(s, pos, whole, encode(first).len() as int, encode_items(rest));
        assert forall|i: int| 0 <= i < rest.len() implies writable(#[trigger] rest[i]) by {
            assert(rest[i] == items[i + 1]);
        }
        lemma_parse_written_items(s, next, rest, done.push(first));
        assert(done.push(first) + rest =~= done + items);
    }
}

/// The bytes of a run of writable pairs parse to those pairs, in order,
/// behind whatever was read before.
pub proof fn lemma_parse_written_pairs(
    s: Seq<u8>,
    pos: int,
    pairs: Seq<(FrameView, FrameView)>,
    done: Seq<(FrameView, FrameView)>,
)
    requires
        forall|i: int|
            0 <= i < pairs.len() ==> writable((#[trigger] pairs[i]).0) && writable(pairs[i].1),
        holds_at(s, pos, encode_pairs(pairs)),
    ensures
        parse_pairs(s, pos, pairs.len(), done) == (Parsed::Done {
            value: done + pairs,
            next: pos + encode_pairs(pairs).len(),
        }),
    decreases pairs, 0nat,
{
    if pairs.len() == 0 {
        assert(done + pairs =~= done);
    } else {
        let first = pairs[0];
        let rest = pairs.drop_first();
        let whole = encode_pairs(pairs);
        let k = encode(first.0);
        let v = encode(first.1);
        lemma_encode_pairs_first(pairs);
        lemma_encode_nonempty(first.0);
        lemma_encode_nonempty(first.1);
        assert(writable(pairs[0].0) && writable(pairs[0].1));
        assert(whole.subrange(0, k.len() as int) =~= k);
        lemma_part_holds(s, pos, whole, 0, k);
        lemma_parse_written(s, pos, first.0);
        let mid = pos + k.len();
        assert(whole.subrange(k.len() as int, (k.len() as int) + (v.len() as int)) =~= v);
        lemma_part_holds(s, pos, whole, k.len() as int, v);
        lemma_parse_written(s, mid, first.1);
        let next = mid + v.len();
        assert(whole.subrange((k.len() as int) + (v.len() as int), whole.len() as int) =~= encode_pairs(rest));
        lemma_part_holds(s, pos, whole, (k.len() as int) + (v.len() as int), encode_pairs(rest));
        assert forall|i: int| 0 <= i < rest.len() implies writable((#[trigger] rest[i]).0)
            && writable(rest[i].1) by {
            assert(rest[i] == pairs[i + 1]);
        }
        lemma_parse_written_pairs(s, next, rest, done.push(first));
        assert(done.push(first) + rest =~= done + pairs);
    }
}

/// Round trip: the bytes of a writable frame parse to that frame, and the
/// parse takes all of them.
pub proof fn lemma_round_trip(f: FrameView)
    requires
        writable(f),
    ensures
        parse_frame(encode(f), 0) == (Parsed::Done { value: f, next: encode(f).len() as int }),
{
    lemma_parse_written(encode(f), 0, f);
}

/// Where a line ends, its terminator stands, and none stands before it.
pub proof fn lemma_line_end_is_first(s: Seq<u8>, from: int)
    ensures
        line_end(s, from) matches Some(e) ==> from <= e && e + 2 <= s.len() && terminator_at(s, e)
            && no_line_break(s.subrange(from, e)),
    decreases s.len() - from,
{
    if from < 0 || from + 1 >= s.len() {
    } else if terminator_at(s, from) {
    } else {
        lemma_line_end_is_first(s, from + 1);
        if let Some(e) = line_end(s, from + 1) {
            let line = s.subrange(from, e);
            let tail = s.subrange(from + 1, e);
            assert forall|i: int| 0 <= i && i + 1 < line.len() implies !(#[trigger] line[i] == 13
                && line[i + 1] == 10) by {
                if i > 0 {
                    assert(tail[i - 1] == line[i]);
                    assert(tail[i] == line[i + 1]);
                }
            }
        }
    }
}

/// Whatever parses is writable, and the parse moves forward within the buffer.
pub proof fn lemma_parsed_is_writable(s: Seq<u8>, pos: int)
    ensures
        parse_frame(s, pos) matches Parsed::Done { value, next } ==> writable(value) && pos < next
            <= s.len(),
    decreases s.len() - pos, 0nat,
{
    if 0 <= pos < s.len() {
        lemma_line_end_is_first(s, pos + 1);
        if let Some(e) = line_end(s, pos + 1) {
            let line = s.subrange(pos + 1, e);
            if valid_utf8(line) {
                decode_utf8_encode_utf8(line);
            }
        }
        if s[pos] == 42 {
            if let Parsed::Done { value: n, next } = parse_count(s, pos + 1) {
                lemma_parsed_items_writable(s, next, n, Seq::empty());
            }
        } else if s[pos] == 37 {
            if let Parsed::Done { value: n, next } = parse_count(s, pos + 1) {
                lemma_parsed_pairs_writable(s, next, n, Seq::empty());
            }
        }
    }
}

/// Whatever run of frames parses is writable, one by one.
pub proof fn lemma_parsed_items_writable(s: Seq<u8>, pos: int, n: nat, done: Seq<FrameView>)
    requires
        forall|i: int| 0 <= i < done.len() ==> writable(#[trigger] done[i]),
    ensures
        parse_items(s, pos, n, done) matches Parsed::Done { value, next } ==> value.len()
            == done.len() + n && pos <= next && (n == 0 || next <= s.len()) && forall|i: int|
            0 <= i < value.len() ==> writable(#[trigger] value[i]),
    decreases s.len() - pos, n + 1,
{
    if n > 0 {
        lemma_parsed_is_writable(s, pos);
        if let Parsed::Done { value, next } = parse_frame(s, pos) {
            if pos < next <= s.len() {
                lemma_parsed_items_writable(s, next, (n - 1) as nat, done.push(value));
            }
        }
    }
}

/// Whatever run of pairs parses is writable, one by one.
pub proof fn lemma_parsed_pairs_writable(
    s: Seq<u8>,
    pos: int,
    n: nat,
    done: Seq<(FrameView, FrameView)>,
)
    requires
        forall|i: int|
            0 <= i < done.len() ==> writable((#[trigger] done[i]).0) && writable(done[i].1),
    ensures
        parse_pairs(s, pos, n, done) matches Parsed::Done { value, next } ==> value.len()
            == done.len() + n && pos <= next && (n == 0 || next <= s.len()) && forall|i: int|
            0 <= i < value.len() ==> writable((#[trigger] value[i]).0) && writable(value[i].1),
    decreases s.len() - pos, n + 1,
{
    if n > 0 {
        lemma_parsed_is_writable(s, pos);
        if let Parsed::Done { value: key, next: mid } = parse_frame(s, pos) {
            if pos < mid <= s.len() {
                lemma_parsed_is_writable(s, mid);
                if let Parsed::Done { value, next } = parse_frame(s, mid) {
                    if mid < next <= s.len() {
                        lemma_parsed_pairs_writable(
                            s,
                            next,
                            (n - 1) as nat,
                            done.push((key, value)),
                        );
                    }
                }
            }
        }
    }
}

/// A frame parsed from bytes and then written gives bytes that parse to
/// the same frame.
pub proof fn lemma_reparse(s: Seq<u8>, pos: int)
    ensures
        parse_frame(s, pos) matches Parsed::Done { value, next } ==> parse_frame(encode(value), 0)
            == (Parsed::Done { value, next: encode(value).len() as int }),
{
    lemma_parsed_is_writable(s, pos);
    if let Parsed::Done { value, next } = parse_frame(s, pos) {
        lemma_round_trip(value);
    }
}

} // verus!
