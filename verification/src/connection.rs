//! Per-session state: the negotiated protocol and the read buffer, with the
//! rule by which frames are taken from the buffer's front.

use crate::frame::{parse_frame, Frame, FrameError, Parsed};
use bytes::BytesMut;
use vstd::prelude::*;

verus! {

/// The size at which unparsed bytes are given up as no frame.
pub const BUFFER_SIZE: usize = 128;

/// The protocol version that a session speaks.
#[derive(Clone, Copy, Debug, PartialEq, Eq)]
pub enum Protocol {
    RESP2,
    RESP3,
}

/// The reason given for a version that is neither 2 nor 3.
pub open spec fn unsupported_text() -> Seq<char> {
    "Unsupported protocol version"@
}

impl Protocol {
    /// The protocol of the given version number: 2 or 3, nothing else.
    pub fn try_from(value: u8) -> (r: Result<Protocol, String>)
        ensures
            match r {
                Ok(p) => (value == 2 && p == Protocol::RESP2) || (value == 3 && p
                    == Protocol::RESP3),
                Err(e) => value != 2 && value != 3 && e@ == unsupported_text(),
            },
    {
        if value == 2 {
            Ok(Protocol::RESP2)
        } else if value == 3 {
            Ok(Protocol::RESP3)
        } else {
            Err("Unsupported protocol version".to_owned())
        }
    }
}

/// The growable byte buffer of the `bytes` crate, taken as it is.
#[verifier::external_type_specification]
#[verifier::external_body]
pub struct ExBytesMut(bytes::BytesMut);

/// The bytes that a buffer holds, in order.
pub uninterp spec fn buffer_bytes(b: BytesMut) -> Seq<u8>;

/// `BytesMut::with_capacity`: a buffer that holds no bytes.
#[verifier::external_body]
fn buffer_with_capacity(capacity: usize) -> (b: BytesMut)
    requires
        capacity <= BUFFER_SIZE,
    ensures
        buffer_bytes(b) == Seq::<u8>::empty(),
{
    BytesMut::with_capacity(capacity)
}

/// `Deref` of `BytesMut`: the buffer's bytes as a slice.
#[verifier::external_body]
fn buffer_slice(b: &BytesMut) -> (s: &[u8])
    ensures
        s@ == buffer_bytes(*b),
{
    &b[..]
}

/// `BytesMut::extend_from_slice`: the given bytes are appended. It is not
/// called where the lengths add up to more than an allocation can hold.
#[verifier::external_body]
fn buffer_extend(b: &mut BytesMut, bytes: &[u8])
    requires
        buffer_bytes(*old(b)).len() + bytes@.len() <= usize::MAX / 2,
    ensures
        buffer_bytes(*final(b)) == buffer_bytes(*old(b)) + bytes@,
{
    b.extend_from_slice(bytes)
}

/// The slice method `copy_within`, reached through `DerefMut` of `BytesMut`:
/// the bytes from `from` up to `to` are copied to the front, the length and
/// the bytes behind the copy stay.
#[verifier::external_body]
fn buffer_copy_to_front(b: &mut BytesMut, from: usize, to: usize)
    requires
        from <= to <= buffer_bytes(*old(b)).len(),
    ensures
        buffer_bytes(*final(b)).len() == buffer_bytes(*old(b)).len(),
        forall|i: int|
            0 <= i < to - from ==> buffer_bytes(*final(b))[i] == buffer_bytes(*old(b))[from + i],
        forall|i: int|
            to - from <= i < buffer_bytes(*old(b)).len() ==> buffer_bytes(*final(b))[i]
                == buffer_bytes(*old(b))[i],
{
    b.copy_within(from..to, 0)
}

/// `BytesMut::truncate`: the first `len` bytes stay; a `len` beyond the
/// buffer's length changes nothing.
#[verifier::external_body]
fn buffer_truncate(b: &mut BytesMut, len: usize)
    ensures
        buffer_bytes(*final(b)) == if len <= buffer_bytes(*old(b)).len() {
            buffer_bytes(*old(b)).subrange(0, len as int)
        } else {
            buffer_bytes(*old(b))
        },
{
    b.truncate(len)
}

/// `BytesMut::clear`: no byte stays.
#[verifier::external_body]
fn buffer_clear(b: &mut BytesMut)
    ensures
        buffer_bytes(*final(b)) == Seq::<u8>::empty(),
{
    b.clear()
}

/// What a session keeps between requests.
pub struct Connection {
    pub buffer: BytesMut,
    pub protocol: Protocol,
}

impl Connection {
    /// The bytes received and not yet taken as frames.
    pub open spec fn bytes(&self) -> Seq<u8> {
        buffer_bytes(self.buffer)
    }

    /// A fresh session: nothing received, protocol version 2.
    pub fn new() -> (c: Connection)
        ensures
            c.bytes() == Seq::<u8>::empty(),
            c.protocol == Protocol::RESP2,
    {
        Connection { buffer: buffer_with_capacity(BUFFER_SIZE), protocol: Protocol::RESP2 }
    }

    /// Takes in bytes that arrived from the peer, and says whether it did:
    /// bytes that would make the buffer longer than an allocation can be
    /// are left out.
    pub fn feed(&mut self, bytes: &[u8]) -> (taken: bool)
        ensures
            taken == (old(self).bytes().len() + bytes@.len() <= usize::MAX / 2),
            final(self).bytes() == if taken {
                old(self).bytes() + bytes@
            } else {
                old(self).bytes()
            },
            final(self).protocol == old(self).protocol,
    {
        let limit: usize = usize::MAX / 2;
        let held: usize = self.pending();
        if held <= limit && bytes.len() <= limit - held {
            buffer_extend(&mut self.buffer, bytes);
            true
        } else {
            false
        }
    }

    /// How many bytes wait in the buffer.
    pub fn pending(&self) -> (n: usize)
        ensures
            n == self.bytes().len(),
    {
        buffer_slice(&self.buffer).len()
    }

    /// What the end of the peer's stream means: a clean end where nothing
    /// waits in the buffer, a frame cut short where something does.
    pub fn end_of_stream(&self) -> (r: Result<(), FrameError>)
        ensures
            r == if self.bytes().len() == 0 {
                Ok::<(), FrameError>(())
            } else {
                Err::<(), FrameError>(FrameError::Incomplete)
            },
    {
        if self.pending() == 0 {
            Ok(())
        } else {
            Err(FrameError::Incomplete)
        }
    }

    /// Takes one frame from the front of the buffer, if a whole one is
    /// there. Bytes that can begin no frame, and bytes that fill the buffer
    /// without forming one, empty the buffer and are malformed.
    pub fn parse_frame(&mut self) -> (r: Result<Option<Frame>, FrameError>)
        ensures
            final(self).protocol == old(self).protocol,
            match parse_frame(old(self).bytes(), 0) {
                Parsed::Done { value, next } => final(self).bytes() == old(self).bytes().subrange(
                    next,
                    old(self).bytes().len() as int,
                ) && (match r {
                    Ok(Some(f)) => f@ == value,
                    _ => false,
                }),
                Parsed::Malformed => final(self).bytes() == Seq::<u8>::empty() && r == Err::<
                    Option<Frame>,
                    FrameError,
                >(FrameError::Malformed),
                Parsed::Incomplete => if old(self).bytes().len() >= BUFFER_SIZE {
                    final(self).bytes() == Seq::<u8>::empty() && r == Err::<
                        Option<Frame>,
                        FrameError,
                    >(FrameError::Malformed)
                } else {
                    final(self).bytes() == old(self).bytes() && r == Ok::<
                        Option<Frame>,
                        FrameError,
                    >(None)
                },
            },
    {
        let buf = buffer_slice(&self.buffer);
        let len: usize = buf.len();
        match Frame::parse_at(buf, 0) {
            Ok((frame, next)) => {
                if next < len {
                    buffer_copy_to_front(&mut self.buffer, next, len);
                    buffer_truncate(&mut self.buffer, len - next);
                } else {
                    buffer_clear(&mut self.buffer);
                }
                assert(final(self).bytes() =~= old(self).bytes().subrange(
                    next as int,
                    len as int,
                ));
                Ok(Some(frame))
            },
            Err(FrameError::Malformed) => {
                buffer_clear(&mut self.buffer);
                Err(FrameError::Malformed)
            },
            Err(FrameError::Incomplete) => {
                if len >= BUFFER_SIZE {
                    buffer_clear(&mut self.buffer);
                    Err(FrameError::Malformed)
                } else {
                    Ok(None)
                }
            },
        }
    }
}

} // verus!
