//! The wire framing codec: the frame grammar as a function on bytes, the
//! streaming parser that follows it, and the serializer.

use crate::decimal::{
    decimal_digits, magnitude, push_decimal, push_signed, signed_decimal, signed_digits,
    unsigned_decimal,
};
use vstd::prelude::*;
use vstd::string::*;
use vstd::utf8::*;

verus! {

/// Why no frame came out of the bytes.
#[derive(Clone, Copy, Debug, PartialEq, Eq)]
pub enum FrameError {
    /// The bytes so far are the beginning of a frame; more are needed.
    Incomplete,
    /// The bytes cannot begin any frame.
    Malformed,
}

/// One unit of the wire protocol.
#[derive(Debug, PartialEq, Eq)]
pub enum Frame {
    SimpleString(String),
    SimpleError(String),
    Integer(i64),
    BulkString(Vec<u8>),
    Array(Vec<Frame>),
    Mapping(Vec<(Frame, Frame)>),
}

/// A frame as a mathematical value.
pub ghost enum FrameView {
    SimpleString(Seq<char>),
    SimpleError(Seq<char>),
    Integer(int),
    BulkString(Seq<u8>),
    Array(Seq<FrameView>),
    Mapping(Seq<(FrameView, FrameView)>),
}

/// The values of a run of frames, in order.
pub open spec fn frames_view(v: Seq<Frame>) -> Seq<FrameView>
    decreases v,
{
    Seq::new(
        v.len(),
        |i: int|
            if 0 <= i < v.len() {
                v[i].view()
            } else {
                FrameView::Integer(0)
            },
    )
}

/// The values of a run of key and value frames, in order.
pub open spec fn pairs_view(v: Seq<(Frame, Frame)>) -> Seq<(FrameView, FrameView)>
    decreases v,
{
    Seq::new(
        v.len(),
        |i: int|
            if 0 <= i < v.len() {
                (v[i].0.view(), v[i].1.view())
            } else {
                (FrameView::Integer(0), FrameView::Integer(0))
            },
    )
}

impl View for Frame {
    type V = FrameView;

    open spec fn view(&self) -> FrameView
        decreases self,
    {
        match self {
            Frame::SimpleString(s) => FrameView::SimpleString(s@),
            Frame::SimpleError(s) => FrameView::SimpleError(s@),
            Frame::Integer(i) => FrameView::Integer(*i as int),
            Frame::BulkString(b) => FrameView::BulkString(b@),
            Frame::Array(v) => FrameView::Array(frames_view(v@)),
            Frame::Mapping(v) => FrameView::Mapping(pairs_view(v@)),
        }
    }
}

/// What the grammar makes of the bytes from some position on.
pub ghost enum Parsed<T> {
    /// A complete value, and the position just behind it.
    Done { value: T, next: int },
    /// Not enough bytes yet.
    Incomplete,
    /// No continuation of the bytes can be read.
    Malformed,
}

/// The two bytes that end a line.
pub open spec fn crlf() -> Seq<u8> {
    seq![13u8, 10u8]
}

/// A line terminator stands at position `i`.
pub open spec fn terminator_at(s: Seq<u8>, i: int) -> bool {
    0 <= i && i + 1 < s.len() && s[i] == 13 && s[i + 1] == 10
}

/// The position of the first line terminator at or behind `from`.
pub open spec fn line_end(s: Seq<u8>, from: int) -> Option<int>
    decreases s.len() - from,
{
    if from < 0 || from + 1 >= s.len() {
        None
    } else if terminator_at(s, from) {
        Some(from)
    } else {
        line_end(s, from + 1)
    }
}

/// A text line from `pos`: valid UTF-8 up to the terminator.
pub open spec fn parse_text(s: Seq<u8>, pos: int) -> Parsed<Seq<char>> {
    match line_end(s, pos) {
        None => Parsed::Incomplete,
        Some(e) => if valid_utf8(s.subrange(pos, e)) {
            Parsed::Done { value: decode_utf8(s.subrange(pos, e)), next: e + 2 }
        } else {
            Parsed::Malformed
        },
    }
}

/// A signed 64-bit decimal line from `pos`.
pub open spec fn parse_integer(s: Seq<u8>, pos: int) -> Parsed<int> {
    match line_end(s, pos) {
        None => Parsed::Incomplete,
        Some(e) => match signed_decimal(s.subrange(pos, e)) {
            Some(v) => if i64::MIN <= v <= i64::MAX {
                Parsed::Done { value: v, next: e + 2 }
            } else {
                Parsed::Malformed
            },
            None => Parsed::Malformed,
        },
    }
}

/// An unsigned decimal line from `pos`, a length or a count that fits the machine.
pub open spec fn parse_count(s: Seq<u8>, pos: int) -> Parsed<nat> {
    match line_end(s, pos) {
        None => Parsed::Incomplete,
        Some(e) => match unsigned_decimal(s.subrange(pos, e)) {
            Some(v) => if v <= usize::MAX {
                Parsed::Done { value: v, next: e + 2 }
            } else {
                Parsed::Malformed
            },
            None => Parsed::Malformed,
        },
    }
}

/// A length-prefixed payload from `pos`: the length line, that many bytes, a terminator.
pub open spec fn parse_binary(s: Seq<u8>, pos: int) -> Parsed<Seq<u8>> {
    match parse_count(s, pos) {
        Parsed::Done { value: n, next } => if s.len() - next < n + 2 {
            Parsed::Incomplete
        } else if terminator_at(s, next + n) {
            Parsed::Done { value: s.subrange(next, next + n), next: next + n + 2 }
        } else {
            Parsed::Malformed
        },
        Parsed::Incomplete => Parsed::Incomplete,
        Parsed::Malformed => Parsed::Malformed,
    }
}

/// The grammar: the frame that starts at `pos`, if the bytes hold one.
pub open spec fn parse_frame(s: Seq<u8>, pos: int) -> Parsed<FrameView>
    decreases s.len() - pos, 0nat,
{
    if pos < 0 || pos >= s.len() {
        Parsed::Incomplete
    } else if s[pos] == 43 {
        match parse_text(s, pos + 1) {
            Parsed::Done { value, next } => Parsed::Done {
                value: FrameView::SimpleString(value),
                next,
            },
            Parsed::Incomplete => Parsed::Incomplete,
            Parsed::Malformed => Parsed::Malformed,
        }
    } else if s[pos] == 45 {
        match parse_text(s, pos + 1) {
            Parsed::Done { value, next } => Parsed::Done {
                value: FrameView::SimpleError(value),
                next,
            },
            Parsed::Incomplete => Parsed::Incomplete,
            Parsed::Malformed => Parsed::Malformed,
        }
    } else if s[pos] == 58 {
        match parse_integer(s, pos + 1) {
            Parsed::Done { value, next } => Parsed::Done { value: FrameView::Integer(value), next },
            Parsed::Incomplete => Parsed::Incomplete,
            Parsed::Malformed => Parsed::Malformed,
        }
    } else if s[pos] == 36 {
        match parse_binary(s, pos + 1) {
            Parsed::Done { value, next } => Parsed::Done {
                value: FrameView::BulkString(value),
                next,
            },
            Parsed::Incomplete => Parsed::Incomplete,
            Parsed::Malformed => Parsed::Malformed,
        }
    } else if s[pos] == 42 {
        match parse_array(s, pos + 1) {
            Parsed::Done { value, next } => Parsed::Done { value: FrameView::Array(value), next },
            Parsed::Incomplete => Parsed::Incomplete,
            Parsed::Malformed => Parsed::Malformed,
        }
    } else if s[pos] == 37 {
        match parse_map(s, pos + 1) {
            Parsed::Done { value, next } => Parsed::Done { value: FrameView::Mapping(value), next },
            Parsed::Incomplete => Parsed::Incomplete,
            Parsed::Malformed => Parsed::Malformed,
        }
    } else {
        Parsed::Malformed
    }
}

/// A count line from `pos`, then that many frames.
pub open spec fn parse_array(s: Seq<u8>, pos: int) -> Parsed<Seq<FrameView>>
    decreases s.len() - pos, 0nat,
{
    match parse_count(s, pos) {
        Parsed::Done { value: n, next } => if pos < next <= s.len() {
            parse_items(s, next, n, Seq::empty())
        } else {
            Parsed::Malformed
        },
        Parsed::Incomplete => Parsed::Incomplete,
        Parsed::Malformed => Parsed::Malformed,
    }
}

/// A count line from `pos`, then that many pairs of frames.
pub open spec fn parse_map(s: Seq<u8>, pos: int) -> Parsed<Seq<(FrameView, FrameView)>>
    decreases s.len() - pos, 0nat,
{
    match parse_count(s, pos) {
        Parsed::Done { value: n, next } => if pos < next <= s.len() {
            parse_pairs(s, next, n, Seq::empty())
        } else {
            Parsed::Malformed
        },
        Parsed::Incomplete => Parsed::Incomplete,
        Parsed::Malformed => Parsed::Malformed,
    }
}

/// `n` more frames from `pos`, behind the frames `done` that were read before.
pub open spec fn parse_items(s: Seq<u8>, pos: int, n: nat, done: Seq<FrameView>) -> Parsed<
    Seq<FrameView>,
>
    decreases s.len() - pos, n + 1,
{
    if n == 0 {
        Parsed::Done { value: done, next: pos }
    } else {
        match parse_frame(s, pos) {
            Parsed::Done { value, next } => if pos < next <= s.len() {
                parse_items(s, next, (n - 1) as nat, done.push(value))
            } else {
                Parsed::Malformed
            },
            Parsed::Incomplete => Parsed::Incomplete,
            Parsed::Malformed => Parsed::Malformed,
        }
    }
}

/// `n` more pairs from `pos`, behind the pairs `done` that were read before.
pub open spec fn parse_pairs(
    s: Seq<u8>,
    pos: int,
    n: nat,
    done: Seq<(FrameView, FrameView)>,
) -> Parsed<Seq<(FrameView, FrameView)>>
    decreases s.len() - pos, n + 1,
{
    if n == 0 {
        Parsed::Done { value: done, next: pos }
    } else {
        match parse_frame(s, pos) {
            Parsed::Done { value: key, next: mid } => if pos < mid <= s.len() {
                match parse_frame(s, mid) {
                    Parsed::Done { value, next } => if mid < next <= s.len() {
                        parse_pairs(s, next, (n - 1) as nat, done.push((key, value)))
                    } else {
                        Parsed::Malformed
                    },
                    Parsed::Incomplete => Parsed::Incomplete,
                    Parsed::Malformed => Parsed::Malformed,
                }
            } else {
                Parsed::Malformed
            },
            Parsed::Incomplete => Parsed::Incomplete,
            Parsed::Malformed => Parsed::Malformed,
        }
    }
}

/// The bytes by which a frame is written.
pub open spec fn encode(f: FrameView) -> Seq<u8>
    decreases f,
{
    match f {
        FrameView::SimpleString(t) => seq![43u8] + encode_utf8(t) + crlf(),
        FrameView::SimpleError(t) => seq![45u8] + encode_utf8(t) + crlf(),
        FrameView::Integer(i) => seq![58u8] + signed_digits(i) + crlf(),
        FrameView::BulkString(b) => seq![36u8] + decimal_digits(b.len()) + crlf() + b + crlf(),
        FrameView::Array(items) => seq![42u8] + decimal_digits(items.len()) + crlf()
            + encode_items(items),
        FrameView::Mapping(pairs) => seq![37u8] + decimal_digits(pairs.len()) + crlf() + encode_pairs(
            pairs,
        ),
    }
}

/// The writings of a run of frames, one behind the other.
pub open spec fn encode_items(items: Seq<FrameView>) -> Seq<u8>
    decreases items,
{
    if items.len() == 0 {
        Seq::empty()
    } else {
        encode_items(items.drop_last()) + encode(items.last())
    }
}

/// The writings of a run of pairs: each key, then its value.
pub open spec fn encode_pairs(pairs: Seq<(FrameView, FrameView)>) -> Seq<u8>
    decreases pairs,
{
    if pairs.len() == 0 {
        Seq::empty()
    } else {
        encode_pairs(pairs.drop_last()) + encode(pairs.last().0) + encode(pairs.last().1)
    }
}


/// A read position in a byte buffer.
pub struct Cursor<'a> {
    pub buf: &'a [u8],
    pub pos: usize,
}

impl<'a> Cursor<'a> {
    /// A cursor at the start of `buf`.
    pub fn new(buf: &'a [u8]) -> (c: Cursor<'a>)
        ensures
            c.buf@ == buf@,
            c.pos == 0,
    {
        Cursor { buf, pos: 0 }
    }

    /// The position of the next byte to read.
    pub fn position(&self) -> (p: usize)
        ensures
            p == self.pos,
    {
        self.pos
    }

    /// How many bytes lie at and behind the position.
    pub fn remaining(&self) -> (n: usize)
        ensures
            n == if self.pos <= self.buf@.len() {
                self.buf@.len() - self.pos
            } else {
                0
            },
    {
        if self.pos <= self.buf.len() {
            self.buf.len() - self.pos
        } else {
            0
        }
    }

    /// Whether any byte is left to read.
    pub fn has_remaining(&self) -> (b: bool)
        ensures
            b == (self.pos < self.buf@.len()),
    {
        self.pos < self.buf.len()
    }
}

/// `std::str::from_utf8`, with an owned copy of the text it accepts: a text
/// comes back exactly for well-formed UTF-8, and it is the text that those
/// bytes encode.
#[verifier::external_body]
fn utf8_text(v: &[u8]) -> (r: Option<String>)
    ensures
        r is Some <==> valid_utf8(v@),
        r matches Some(s) ==> encode_utf8(s@) == v@,
{
    match std::str::from_utf8(v) {
        Ok(s) => Some(String::from(s)),
        Err(_) => None,
    }
}

/// Appends `bytes` to `out`.
pub fn append(out: &mut Vec<u8>, bytes: &[u8])
    ensures
        final(out)@ == old(out)@ + bytes@,
{
    let mut i: usize = 0;
    while i < bytes.len()
        invariant
            i <= bytes@.len(),
            out@ == old(out)@ + bytes@.subrange(0, i as int),
        decreases bytes@.len() - i,
    {
        out.push(bytes[i]);
        i = i + 1;
        assert(out@ =~= old(out)@ + bytes@.subrange(0, i as int));
    }
    assert(bytes@.subrange(0, i as int) =~= bytes@);
}

/// The text that the bytes encode; malformed where they are not UTF-8.
pub fn string_from_binary(v: &[u8]) -> (r: Result<String, FrameError>)
    ensures
        match r {
            Ok(s) => valid_utf8(v@) && s@ == decode_utf8(v@) && encode_utf8(s@) == v@,
            Err(e) => !valid_utf8(v@) && e == FrameError::Malformed,
        },
{
    match utf8_text(v) {
        Some(s) => {
            proof {
                encode_utf8_decode_utf8(s@);
            }
            Ok(s)
        },
        None => Err(FrameError::Malformed),
    }
}

/// The value of an unsigned decimal literal, where it is at most `limit`.
pub fn unsigned_from_binary(v: &[u8], limit: u64) -> (r: Option<u64>)
    ensures
        match r {
            Some(n) => unsigned_decimal(v@) == Some(n as nat) && n <= limit,
            None => match unsigned_decimal(v@) {
                Some(n) => n > limit,
                None => true,
            },
        },
{
    let start: usize = if v.len() > 0 && v[0] == 43 {
        1
    } else {
        0
    };
    proof {
        if start == 0 {
            assert(v@.subrange(0, v@.len() as int) =~= v@);
        }
    }
    magnitude(v, start, limit)
}

/// The value of a signed decimal literal that fits 64 bits; malformed otherwise.
pub fn number_from_binary(v: &[u8]) -> (r: Result<i64, FrameError>)
    ensures
        match r {
            Ok(n) => signed_decimal(v@) == Some(n as int),
            Err(e) => e == FrameError::Malformed && match signed_decimal(v@) {
                Some(n) => n < i64::MIN || n > i64::MAX,
                None => true,
            },
        },
{
    if v.len() > 0 && v[0] == 45 {
        match magnitude(v, 1, 9223372036854775808u64) {
            Some(m) => if m == 9223372036854775808u64 {
                Ok(i64::MIN)
            } else {
                Ok(-(m as i64))
            },
            None => Err(FrameError::Malformed),
        }
    } else {
        match unsigned_from_binary(v, 9223372036854775807u64) {
            Some(m) => Ok(m as i64),
            None => Err(FrameError::Malformed),
        }
    }
}

/// The value of an unsigned decimal literal that fits a length; malformed otherwise.
pub fn count_from_binary(v: &[u8]) -> (r: Result<usize, FrameError>)
    ensures
        match r {
            Ok(n) => unsigned_decimal(v@) == Some(n as nat),
            Err(e) => e == FrameError::Malformed && match unsigned_decimal(v@) {
                Some(n) => n > usize::MAX,
                None => true,
            },
        },
{
    match unsigned_from_binary(v, usize::MAX as u64) {
        Some(m) => Ok(m as usize),
        None => Err(FrameError::Malformed),
    }
}

/// The value of an unsigned decimal literal that fits eight bits; malformed otherwise.
pub fn byte_from_binary(v: &[u8]) -> (r: Result<u8, FrameError>)
    ensures
        match r {
            Ok(n) => unsigned_decimal(v@) == Some(n as nat),
            Err(e) => e == FrameError::Malformed && match unsigned_decimal(v@) {
                Some(n) => n > 255,
                None => true,
            },
        },
{
    match unsigned_from_binary(v, 255) {
        Some(m) => Ok(m as u8),
        None => Err(FrameError::Malformed),
    }
}

/// Finds the first line terminator at or behind `pos`.
pub fn find_terminator(buf: &[u8], pos: usize) -> (r: Option<usize>)
    ensures
        match r {
            Some(e) => line_end(buf@, pos as int) == Some(e as int) && pos <= e && e + 2
                <= buf@.len() && e + 2 <= usize::MAX,
            None => line_end(buf@, pos as int) is None,
        },
{
    let mut i: usize = pos;
    while i < buf.len() && i + 1 < buf.len()
        invariant
            pos <= i,
            line_end(buf@, pos as int) == line_end(buf@, i as int),
        decreases buf@.len() - i,
    {
        if buf[i] == 13 && buf[i + 1] == 10 {
            return Some(i);
        }
        i = i + 1;
    }
    None
}

/// Reads a text line from `pos`.
pub fn read_string(buf: &[u8], pos: usize) -> (r: Result<(String, usize), FrameError>)
    ensures
        match r {
            Ok((s, next)) => parse_text(buf@, pos as int) == (Parsed::Done {
                value: s@,
                next: next as int,
            }) && pos < next <= buf@.len(),
            Err(FrameError::Incomplete) => parse_text(buf@, pos as int) is Incomplete,
            Err(FrameError::Malformed) => parse_text(buf@, pos as int) is Malformed,
        },
{
    match find_terminator(buf, pos) {
        None => Err(FrameError::Incomplete),
        Some(e) => match string_from_binary(vstd::slice::slice_subrange(buf, pos, e)) {
            Ok(s) => Ok((s, e + 2)),
            Err(_) => Err(FrameError::Malformed),
        },
    }
}

/// Reads a signed decimal line from `pos`.
pub fn read_number(buf: &[u8], pos: usize) -> (r: Result<(i64, usize), FrameError>)
    ensures
        match r {
            Ok((n, next)) => parse_integer(buf@, pos as int) == (Parsed::Done {
                value: n as int,
                next: next as int,
            }) && pos < next <= buf@.len(),
            Err(FrameError::Incomplete) => parse_integer(buf@, pos as int) is Incomplete,
            Err(FrameError::Malformed) => parse_integer(buf@, pos as int) is Malformed,
        },
{
    match find_terminator(buf, pos) {
        None => Err(FrameError::Incomplete),
        Some(e) => match number_from_binary(vstd::slice::slice_subrange(buf, pos, e)) {
            Ok(n) => Ok((n, e + 2)),
            Err(_) => Err(FrameError::Malformed),
        },
    }
}

/// Reads a length or count line from `pos`.
pub fn read_count(buf: &[u8], pos: usize) -> (r: Result<(usize, usize), FrameError>)
    ensures
        match r {
            Ok((n, next)) => parse_count(buf@, pos as int) == (Parsed::Done {
                value: n as nat,
                next: next as int,
            }) && pos < next <= buf@.len(),
            Err(FrameError::Incomplete) => parse_count(buf@, pos as int) is Incomplete,
            Err(FrameError::Malformed) => parse_count(buf@, pos as int) is Malformed,
        },
{
    match find_terminator(buf, pos) {
        None => Err(FrameError::Incomplete),
        Some(e) => match count_from_binary(vstd::slice::slice_subrange(buf, pos, e)) {
            Ok(n) => Ok((n, e + 2)),
            Err(_) => Err(FrameError::Malformed),
        },
    }
}

/// Reads a length-prefixed payload from `pos`.
pub fn read_binary(buf: &[u8], pos: usize) -> (r: Result<(Vec<u8>, usize), FrameError>)
    ensures
        match r {
            Ok((b, next)) => parse_binary(buf@, pos as int) == (Parsed::Done {
                value: b@,
                next: next as int,
            }) && pos < next <= buf@.len(),
            Err(FrameError::Incomplete) => parse_binary(buf@, pos as int) is Incomplete,
            Err(FrameError::Malformed) => parse_binary(buf@, pos as int) is Malformed,
        },
{
    match read_count(buf, pos) {
        Err(e) => Err(e),
        Ok((n, start)) => {
            let left: usize = buf.len() - start;
            if left < 2 || left - 2 < n {
                Err(FrameError::Incomplete)
            } else if buf[start + n] != 13 || buf[start + n + 1] != 10 {
                Err(FrameError::Malformed)
            } else {
                let payload = vstd::slice::slice_to_vec(
                    vstd::slice::slice_subrange(buf, start, start + n),
                );
                Ok((payload, start + n + 2))
            }
        },
    }
}

/// Reads a count line from `pos` and that many frames.
pub fn read_array(buf: &[u8], pos: usize) -> (r: Result<(Vec<Frame>, usize), FrameError>)
    ensures
        match r {
            Ok((v, next)) => parse_array(buf@, pos as int) == (Parsed::Done {
                value: frames_view(v@),
                next: next as int,
            }) && pos < next <= buf@.len(),
            Err(FrameError::Incomplete) => parse_array(buf@, pos as int) is Incomplete,
            Err(FrameError::Malformed) => parse_array(buf@, pos as int) is Malformed,
        },
    decreases buf@.len() - pos,
{
    match read_count(buf, pos) {
        Err(e) => Err(e),
        Ok((n, start)) => {
            let mut items: Vec<Frame> = Vec::new();
            let mut at: usize = start;
            let mut left: usize = n;
            assert(frames_view(items@) =~= Seq::<FrameView>::empty());
            while left > 0
                invariant
                    pos < at <= buf@.len(),
                    parse_array(buf@, pos as int) == parse_items(
                        buf@,
                        at as int,
                        left as nat,
                        frames_view(items@),
                    ),
                decreases left,
            {
                let ghost before = frames_view(items@);
                match Frame::parse_at(buf, at) {
                    Ok((f, next)) => {
                        items.push(f);
                        at = next;
                        left = left - 1;
                        assert(frames_view(items@) =~= before.push(f@));
                    },
                    Err(e) => {
                        return Err(e);
                    },
                }
            }
            Ok((items, at))
        },
    }
}

/// Reads a count line from `pos` and that many pairs of frames.
pub fn read_map(buf: &[u8], pos: usize) -> (r: Result<(Vec<(Frame, Frame)>, usize), FrameError>)
    ensures
        match r {
            Ok((v, next)) => parse_map(buf@, pos as int) == (Parsed::Done {
                value: pairs_view(v@),
                next: next as int,
            }) && pos < next <= buf@.len(),
            Err(FrameError::Incomplete) => parse_map(buf@, pos as int) is Incomplete,
            Err(FrameError::Malformed) => parse_map(buf@, pos as int) is Malformed,
        },
    decreases buf@.len() - pos,
{
    match read_count(buf, pos) {
        Err(e) => Err(e),
        Ok((n, start)) => {
            let mut pairs: Vec<(Frame, Frame)> = Vec::new();
            let mut at: usize = start;
            let mut left: usize = n;
            assert(pairs_view(pairs@) =~= Seq::<(FrameView, FrameView)>::empty());
            while left > 0
                invariant
                    pos < at <= buf@.len(),
                    parse_map(buf@, pos as int) == parse_pairs(
                        buf@,
                        at as int,
                        left as nat,
                        pairs_view(pairs@),
                    ),
                decreases left,
            {
                let ghost before = pairs_view(pairs@);
                match Frame::parse_at(buf, at) {
                    Ok((key, mid)) => match Frame::parse_at(buf, mid) {
                        Ok((value, next)) => {
                            let ghost pair = (key@, value@);
                            pairs.push((key, value));
                            at = next;
                            left = left - 1;
                            assert(pairs_view(pairs@) =~= before.push(pair));
                        },
                        Err(e) => {
                            return Err(e);
                        },
                    },
                    Err(e) => {
                        return Err(e);
                    },
                }
            }
            Ok((pairs, at))
        },
    }
}

impl Frame {
    /// Reads the frame that starts at `pos`.
    pub fn parse_at(buf: &[u8], pos: usize) -> (r: Result<(Frame, usize), FrameError>)
        ensures
            match r {
                Ok((f, next)) => parse_frame(buf@, pos as int) == (Parsed::Done {
                    value: f@,
                    next: next as int,
                }) && pos < next <= buf@.len(),
                Err(FrameError::Incomplete) => parse_frame(buf@, pos as int) is Incomplete,
                Err(FrameError::Malformed) => parse_frame(buf@, pos as int) is Malformed,
            },
        decreases buf@.len() - pos,
    {
        if pos >= buf.len() {
            return Err(FrameError::Incomplete);
        }
        let tag: u8 = buf[pos];
        if tag == 43 {
            match read_string(buf, pos + 1) {
                Ok((s, next)) => Ok((Frame::SimpleString(s), next)),
                Err(e) => Err(e),
            }
        } else if tag == 45 {
            match read_string(buf, pos + 1) {
                Ok((s, next)) => Ok((Frame::SimpleError(s), next)),
                Err(e) => Err(e),
            }
        } else if tag == 58 {
            match read_number(buf, pos + 1) {
                Ok((n, next)) => Ok((Frame::Integer(n), next)),
                Err(e) => Err(e),
            }
        } else if tag == 36 {
            match read_binary(buf, pos + 1) {
                Ok((b, next)) => Ok((Frame::BulkString(b), next)),
                Err(e) => Err(e),
            }
        } else if tag == 42 {
            match read_array(buf, pos + 1) {
                Ok((v, next)) => {
                    Ok((Frame::Array(v), next))
                },
                Err(e) => Err(e),
            }
        } else if tag == 37 {
            match read_map(buf, pos + 1) {
                Ok((v, next)) => {
                    Ok((Frame::Mapping(v), next))
                },
                Err(e) => Err(e),
            }
        } else {
            Err(FrameError::Malformed)
        }
    }

    /// Reads one frame at the cursor. A complete frame moves the cursor just
    /// behind it; otherwise the cursor stays where it was.
    pub fn parse(cursor: &mut Cursor) -> (r: Result<Frame, FrameError>)
        ensures
            final(cursor).buf@ == old(cursor).buf@,
            match r {
                Ok(f) => parse_frame(old(cursor).buf@, old(cursor).pos as int) == (Parsed::Done {
                    value: f@,
                    next: final(cursor).pos as int,
                }) && old(cursor).pos < final(cursor).pos <= old(cursor).buf@.len(),
                Err(FrameError::Incomplete) => parse_frame(
                    old(cursor).buf@,
                    old(cursor).pos as int,
                ) is Incomplete && final(cursor).pos == old(cursor).pos,
                Err(FrameError::Malformed) => parse_frame(
                    old(cursor).buf@,
                    old(cursor).pos as int,
                ) is Malformed && final(cursor).pos == old(cursor).pos,
            },
    {
        match Frame::parse_at(cursor.buf, cursor.pos) {
            Ok((f, next)) => {
                cursor.pos = next;
                Ok(f)
            },
            Err(e) => Err(e),
        }
    }

    /// Appends the frame's bytes to `out`.
    pub fn write_to(&self, out: &mut Vec<u8>)
        ensures
            final(out)@ == old(out)@ + encode(self@),
        decreases self,
    {
        match self {
            Frame::SimpleString(s) => {
                out.push(43);
                append(out, s.as_str().as_bytes());
                out.push(13);
                out.push(10);
            },
            Frame::SimpleError(s) => {
                out.push(45);
                append(out, s.as_str().as_bytes());
                out.push(13);
                out.push(10);
            },
            Frame::Integer(i) => {
                out.push(58);
                push_signed(out, *i);
                out.push(13);
                out.push(10);
            },
            Frame::BulkString(b) => {
                out.push(36);
                push_decimal(out, b.len() as u64);
                out.push(13);
                out.push(10);
                append(out, b.as_slice());
                out.push(13);
                out.push(10);
            },
            Frame::Array(vals) => {
                out.push(42);
                push_decimal(out, vals.len() as u64);
                out.push(13);
                out.push(10);
                write_items(vals, out);
            },
            Frame::Mapping(vals) => {
                out.push(37);
                push_decimal(out, vals.len() as u64);
                out.push(13);
                out.push(10);
                write_pairs(vals, out);
            },
        }
        assert(out@ =~= old(out)@ + encode(self@));
    }

    /// The frame's bytes on the wire.
    pub fn as_bytes(&self) -> (out: Vec<u8>)
        ensures
            out@ == encode(self@),
    {
        let mut out: Vec<u8> = Vec::new();
        self.write_to(&mut out);
        assert(out@ =~= encode(self@));
        out
    }
}

/// Appends the bytes of each frame, in order.
pub fn write_items(vals: &Vec<Frame>, out: &mut Vec<u8>)
    ensures
        final(out)@ == old(out)@ + encode_items(frames_view(vals@)),
    decreases vals,
{
    let ghost items = frames_view(vals@);
    let mut i: usize = 0;
    assert(items.subrange(0, 0) =~= Seq::<FrameView>::empty());
    assert(out@ =~= old(out)@ + encode_items(items.subrange(0, 0)));
    while i < vals.len()
        invariant
            i <= vals@.len(),
            items == frames_view(vals@),
            out@ == old(out)@ + encode_items(items.subrange(0, i as int)),
        decreases vals@.len() - i,
    {
        vals[i].write_to(out);
        proof {
            let upto = items.subrange(0, i + 1);
            assert(upto.drop_last() =~= items.subrange(0, i as int));
            assert(upto.last() == vals@[i as int]@);
            assert(out@ =~= old(out)@ + encode_items(upto));
        }
        i = i + 1;
    }
    assert(items.subrange(0, i as int) =~= items);
}

/// Appends the bytes of each key and its value, in order.
pub fn write_pairs(vals: &Vec<(Frame, Frame)>, out: &mut Vec<u8>)
    ensures
        final(out)@ == old(out)@ + encode_pairs(pairs_view(vals@)),
    decreases vals,
{
    let ghost pairs = pairs_view(vals@);
    let mut i: usize = 0;
    assert(pairs.subrange(0, 0) =~= Seq::<(FrameView, FrameView)>::empty());
    assert(out@ =~= old(out)@ + encode_pairs(pairs.subrange(0, 0)));
    while i < vals.len()
        invariant
            i <= vals@.len(),
            pairs == pairs_view(vals@),
            out@ == old(out)@ + encode_pairs(pairs.subrange(0, i as int)),
        decreases vals@.len() - i,
    {
        vals[i].0.write_to(out);
        vals[i].1.write_to(out);
        proof {
            let upto = pairs.subrange(0, i + 1);
            assert(upto.drop_last() =~= pairs.subrange(0, i as int));
            assert(upto.last() == (vals@[i as int].0@, vals@[i as int].1@));
            assert(out@ =~= old(out)@ + encode_pairs(upto));
        }
        i = i + 1;
    }
    assert(pairs.subrange(0, i as int) =~= pairs);
}

} // verus!
