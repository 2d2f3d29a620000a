//! Values in words: the text by which a frame or an identifier is shown to
//! a reader.

use crate::decimal::{
    decimal_digits, is_digit, lemma_digits_round_trip, push_decimal, push_signed, signed_digits,
};
use crate::frame::{frames_view, pairs_view, string_from_binary, Frame, FrameView};
use crate::snowflake::{packed, SnowflakeId, EPOCH};
use chrono::{DateTime, SecondsFormat};
use vstd::prelude::*;
use vstd::string::*;
use vstd::utf8::*;

verus! {

/// The text whose characters are the given ASCII bytes.
pub open spec fn ascii_text(b: Seq<u8>) -> Seq<char> {
    Seq::new(b.len(), |i: int| b[i] as char)
}

/// Bytes below 128 are a text as they stand: one character each.
pub proof fn lemma_ascii_is_text(b: Seq<u8>)
    requires
        forall|i: int| 0 <= i < b.len() ==> #[trigger] b[i] < 128,
    ensures
        valid_utf8(b),
        decode_utf8(b) == ascii_text(b),
{
    let chars = ascii_text(b);
    assert(is_ascii_chars(chars)) by {
        assert forall|i: int| 0 <= i < chars.len() implies (#[trigger] chars[i] as nat) < 128 by {
            assert(b[i] < 128);
        }
    }
    is_ascii_chars_encode_utf8(chars);
    assert(encode_utf8(chars) =~= b) by {
        assert forall|i: int| 0 <= i < b.len() implies encode_utf8(chars)[i] == b[i] by {
            assert(b[i] < 128);
            assert(chars[i] as u8 == b[i]);
        }
    }
    encode_utf8_valid_utf8(chars);
    encode_utf8_decode_utf8(chars);
}

/// The decimal writing of a number, as text.
pub fn decimal_text(n: u64) -> (t: String)
    ensures
        t@ == ascii_text(decimal_digits(n as nat)),
{
    let mut bytes: Vec<u8> = Vec::new();
    push_decimal(&mut bytes, n);
    proof {
        lemma_digits_round_trip(n as nat);
        assert(bytes@ =~= decimal_digits(n as nat));
        assert forall|i: int| 0 <= i < bytes@.len() implies #[trigger] bytes@[i] < 128 by {
            assert(is_digit(decimal_digits(n as nat)[i]));
        }
        lemma_ascii_is_text(bytes@);
    }
    match string_from_binary(bytes.as_slice()) {
        Ok(t) => t,
        // Digits and a sign are text, so this arm is never taken.
        Err(_) => String::new(),
    }
}

/// The decimal writing of a signed number, as text.
pub fn signed_text(i: i64) -> (t: String)
    ensures
        t@ == ascii_text(signed_digits(i as int)),
{
    let mut bytes: Vec<u8> = Vec::new();
    push_signed(&mut bytes, i);
    proof {
        let d = signed_digits(i as int);
        assert(bytes@ =~= d);
        if i < 0 {
            lemma_digits_round_trip((-i) as nat);
        } else {
            lemma_digits_round_trip(i as nat);
        }
        assert forall|j: int| 0 <= j < d.len() implies #[trigger] d[j] < 128 by {
            if i < 0 {
                if j > 0 {
                    assert(is_digit(decimal_digits((-i) as nat)[j - 1]));
                }
            } else {
                assert(is_digit(decimal_digits(i as nat)[j]));
            }
        }
        lemma_ascii_is_text(bytes@);
    }
    match string_from_binary(bytes.as_slice()) {
        Ok(t) => t,
        // Digits and a sign are text, so this arm is never taken.
        Err(_) => String::new(),
    }
}

/// The RFC 3339 writing, with milliseconds and a numeric offset, of the UTC
/// time that lies `ms` milliseconds behind the UNIX epoch; nothing where
/// the calendar does not reach that far.
pub uninterp spec fn rfc3339_millis(ms: i64) -> Option<Seq<char>>;

/// `DateTime::from_timestamp_millis`, then `to_rfc3339_opts` with
/// milliseconds and without `Z`: the text depends on the number alone.
#[verifier::external_body]
fn utc_time_text(ms: i64) -> (r: Option<String>)
    ensures
        rfc3339_millis(ms) == match r {
            Some(t) => Some(t@),
            None => None,
        },
{
    match DateTime::from_timestamp_millis(ms) {
        Some(t) => Some(t.to_rfc3339_opts(SecondsFormat::Millis, false)),
        None => None,
    }
}

/// How an identifier with the given parts, issued at the given time of
/// day, is shown.
pub open spec fn description(id: SnowflakeId, time: Seq<char>) -> Seq<char> {
    "Snowflake(Time: "@ + time + ", Machine: "@ + ascii_text(decimal_digits(id.machine as nat))
        + ", Sequence: "@ + ascii_text(decimal_digits(id.sequence as nat)) + ") -> ID("@
        + ascii_text(
        signed_digits(packed(id.timestamp as int, id.machine as int, id.sequence as int)),
    ) + ")"@
}

impl SnowflakeId {
    /// Milliseconds from the UNIX epoch to the identifier's timestamp.
    pub open spec fn unix_millis(&self) -> int {
        self.timestamp + EPOCH
    }

    /// Shows the identifier beside the given writing of its time: the
    /// time, its machine, its sequence number and the packed value.
    pub fn text_at(&self, time: &str) -> (t: String)
        requires
            self.wf(),
        ensures
            t@ == description(*self, time@),
    {
        let mut t = String::from_str("Snowflake(Time: ");
        t.append(time);
        t.append(", Machine: ");
        t.append(decimal_text(self.machine as u64).as_str());
        t.append(", Sequence: ");
        t.append(decimal_text(self.sequence as u64).as_str());
        t.append(") -> ID(");
        t.append(signed_text(self.to_i64()).as_str());
        t.append(")");
        t
    }

    /// Shows the identifier: its time in UTC, its machine, its sequence
    /// number and the packed value. There is nothing to show where the
    /// time lies beyond the calendar.
    pub fn to_text(&self) -> (r: Option<String>)
        requires
            self.wf(),
        ensures
            match r {
                Some(t) => self.unix_millis() <= i64::MAX && (match rfc3339_millis(
                    self.unix_millis() as i64,
                ) {
                    Some(time) => t@ == description(*self, time),
                    None => false,
                }),
                None => self.unix_millis() > i64::MAX || rfc3339_millis(self.unix_millis() as i64)
                    is None,
            },
    {
        if self.timestamp > 0x7fff_ffff_ffff_ffffu64 - EPOCH {
            return None;
        }
        let ms: i64 = (self.timestamp + EPOCH) as i64;
        match utc_time_text(ms) {
            None => None,
            Some(time) => Some(self.text_at(time.as_str())),
        }
    }
}

/// The text in double quotes, with the characters escaped that `Debug`
/// escapes in a string.
pub uninterp spec fn quoted(s: Seq<char>) -> Seq<char>;

/// `Debug` of `str`, through `format!`: the quoted and escaped text, which
/// depends on the text alone.
#[verifier::external_body]
fn quote(s: &str) -> (r: String)
    ensures
        r@ == quoted(s@),
{
    format!("{:?}", s)
}

/// The bytes as decimal numbers, separated by a comma and a space.
pub open spec fn listed(b: Seq<u8>) -> Seq<char>
    decreases b.len(),
{
    if b.len() == 0 {
        Seq::empty()
    } else if b.len() == 1 {
        ascii_text(decimal_digits(b[0] as nat))
    } else {
        listed(b.drop_last()) + ", "@ + ascii_text(decimal_digits(b.last() as nat))
    }
}

/// How a frame is shown: the name of its shape, and in brackets what it holds.
pub open spec fn shown(f: FrameView) -> Seq<char>
    decreases f,
{
    match f {
        FrameView::SimpleString(t) => "SimpleString("@ + quoted(t) + ")"@,
        FrameView::SimpleError(t) => "SimpleError("@ + quoted(t) + ")"@,
        FrameView::Integer(i) => "Integer("@ + ascii_text(signed_digits(i)) + ")"@,
        FrameView::BulkString(b) => "BulkString("@ + (if valid_utf8(b) {
            quoted(decode_utf8(b))
        } else {
            "["@ + listed(b) + "]"@
        }) + ")"@,
        FrameView::Array(items) => "Array(["@ + shown_items(items) + "])"@,
        FrameView::Mapping(pairs) => "Map(["@ + shown_pairs(pairs) + "])"@,
    }
}

/// How a run of frames is shown: each frame, separated by a comma and a space.
pub open spec fn shown_items(items: Seq<FrameView>) -> Seq<char>
    decreases items,
{
    if items.len() == 0 {
        Seq::empty()
    } else if items.len() == 1 {
        shown(items[0])
    } else {
        shown_items(items.drop_last()) + ", "@ + shown(items.last())
    }
}

/// How one key and its value are shown.
pub open spec fn shown_pair(key: Seq<char>, value: Seq<char>) -> Seq<char> {
    "("@ + key + ": "@ + value + ")"@
}

/// How a run of pairs is shown: each pair, separated by a comma and a space.
pub open spec fn shown_pairs(pairs: Seq<(FrameView, FrameView)>) -> Seq<char>
    decreases pairs,
{
    if pairs.len() == 0 {
        Seq::empty()
    } else if pairs.len() == 1 {
        shown_pair(shown(pairs[0].0), shown(pairs[0].1))
    } else {
        shown_pairs(pairs.drop_last()) + ", "@ + shown_pair(
            shown(pairs.last().0),
            shown(pairs.last().1),
        )
    }
}

/// Shows bytes as decimal numbers, separated by a comma and a space.
pub fn list_text(b: &[u8]) -> (t: String)
    ensures
        t@ == listed(b@),
{
    let mut t = String::new();
    let mut i: usize = 0;
    assert(b@.subrange(0, 0) =~= Seq::<u8>::empty());
    while i < b.len()
        invariant
            i <= b@.len(),
            t@ == listed(b@.subrange(0, i as int)),
        decreases b@.len() - i,
    {
        if i > 0 {
            t.append(", ");
        }
        t.append(decimal_text(b[i] as u64).as_str());
        proof {
            let upto = b@.subrange(0, i + 1);
            assert(upto.drop_last() =~= b@.subrange(0, i as int));
            assert(upto.last() == b@[i as int]);
            assert(upto[0] == b@[0]);
            assert(t@ =~= listed(upto));
        }
        i = i + 1;
    }
    assert(b@.subrange(0, i as int) =~= b@);
    t
}

/// Shows each frame of a run, separated by a comma and a space.
pub fn items_text(vals: &Vec<Frame>) -> (t: String)
    ensures
        t@ == shown_items(frames_view(vals@)),
    decreases vals,
{
    let ghost items = frames_view(vals@);
    let mut t = String::new();
    let mut i: usize = 0;
    assert(items.subrange(0, 0) =~= Seq::<FrameView>::empty());
    while i < vals.len()
        invariant
            i <= vals@.len(),
            items == frames_view(vals@),
            t@ == shown_items(items.subrange(0, i as int)),
        decreases vals@.len() - i,
    {
        if i > 0 {
            t.append(", ");
        }
        t.append(vals[i].to_text().as_str());
        proof {
            let upto = items.subrange(0, i + 1);
            assert(upto.drop_last() =~= items.subrange(0, i as int));
            assert(upto.last() == vals@[i as int]@);
            assert(upto[0] == items[0]);
            assert(t@ =~= shown_items(upto));
        }
        i = i + 1;
    }
    assert(items.subrange(0, i as int) =~= items);
    t
}

/// Shows each pair of a run, separated by a comma and a space.
pub fn pairs_text(vals: &Vec<(Frame, Frame)>) -> (t: String)
    ensures
        t@ == shown_pairs(pairs_view(vals@)),
    decreases vals,
{
    let ghost pairs = pairs_view(vals@);
    let mut t = String::new();
    let mut i: usize = 0;
    assert(pairs.subrange(0, 0) =~= Seq::<(FrameView, FrameView)>::empty());
    while i < vals.len()
        invariant
            i <= vals@.len(),
            pairs == pairs_view(vals@),
            t@ == shown_pairs(pairs.subrange(0, i as int)),
        decreases vals@.len() - i,
    {
        if i > 0 {
            t.append(", ");
        }
        t.append("(");
        t.append(vals[i].0.to_text().as_str());
        t.append(": ");
        t.append(vals[i].1.to_text().as_str());
        t.append(")");
        proof {
            let upto = pairs.subrange(0, i + 1);
            assert(upto.drop_last() =~= pairs.subrange(0, i as int));
            assert(upto.last() == (vals@[i as int].0@, vals@[i as int].1@));
            assert(upto[0] == pairs[0]);
            assert(t@ =~= shown_pairs(upto));
        }
        i = i + 1;
    }
    assert(pairs.subrange(0, i as int) =~= pairs);
    t
}

impl Frame {
    /// Shows the frame: the name of its shape, and in brackets what it holds.
    pub fn to_text(&self) -> (t: String)
        ensures
            t@ == shown(self@),
        decreases self,
    {
        match self {
            Frame::SimpleString(s) => {
                let mut t = String::from_str("SimpleString(");
                t.append(quote(s.as_str()).as_str());
                t.append(")");
                t
            },
            Frame::SimpleError(s) => {
                let mut t = String::from_str("SimpleError(");
                t.append(quote(s.as_str()).as_str());
                t.append(")");
                t
            },
            Frame::Integer(i) => {
                let mut t = String::from_str("Integer(");
                t.append(signed_text(*i).as_str());
                t.append(")");
                t
            },
            Frame::BulkString(b) => {
                let mut t = String::from_str("BulkString(");
                match string_from_binary(b.as_slice()) {
                    Ok(s) => {
                        t.append(quote(s.as_str()).as_str());
                    },
                    Err(_) => {
                        t.append("[");
                        t.append(list_text(b.as_slice()).as_str());
                        t.append("]");
                    },
                }
                t.append(")");
                t
            },
            Frame::Array(vals) => {
                let mut t = String::from_str("Array([");
                t.append(items_text(vals).as_str());
                t.append("])");
                t
            },
            Frame::Mapping(vals) => {
                let mut t = String::from_str("Map([");
                t.append(pairs_text(vals).as_str());
                t.append("])");
                t
            },
        }
    }
}

} // verus!
