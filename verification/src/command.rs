//! The command vocabulary: which command a frame asks for, and the frame
//! that answers it.

use crate::connection::{unsupported_text, Connection, Protocol, BUFFER_SIZE};
use crate::decimal::unsigned_decimal;
use crate::frame::{
    byte_from_binary, encode, frames_view, pairs_view, parse_frame, string_from_binary, Frame,
    FrameError, FrameView, Parsed,
};
use crate::snowflake::{
    clock_backwards_text, exhausted_text, issued_for, machine_of, next_id, sequence_of, Generator,
    MAX_SEQ,
};
use vstd::prelude::*;
use vstd::string::*;
use vstd::utf8::*;

verus! {

/// What a client can ask for.
#[derive(Debug, PartialEq, Eq)]
pub enum Command {
    AUTH,
    CLIENT,
    /// With the protocol version that the client named, if it named one.
    HELLO(Option<u8>),
    NEXT,
    SELECT,
    /// A request that cannot be served, with the reason why.
    UNKNOWN(String),
    /// A `HELLO` whose protocol version cannot be read, with the message
    /// that answers it as it stands.
    REFUSED(String),
}

/// A command as a mathematical value.
pub ghost enum CommandView {
    Auth,
    Client,
    Hello(Option<u8>),
    Next,
    Select,
    Unknown(Seq<char>),
    Refused(Seq<char>),
}

impl View for Command {
    type V = CommandView;

    open spec fn view(&self) -> CommandView {
        match self {
            Command::AUTH => CommandView::Auth,
            Command::CLIENT => CommandView::Client,
            Command::HELLO(v) => CommandView::Hello(*v),
            Command::NEXT => CommandView::Next,
            Command::SELECT => CommandView::Select,
            Command::UNKNOWN(t) => CommandView::Unknown(t@),
            Command::REFUSED(t) => CommandView::Refused(t@),
        }
    }
}

/// The lower-case form of an ASCII letter; any other byte is itself.
pub open spec fn lower(b: u8) -> u8 {
    if 65 <= b && b <= 90 {
        (b + 32) as u8
    } else {
        b
    }
}

/// The bytes spell the lower-case word, whatever the case of their letters.
pub open spec fn spells(b: Seq<u8>, word: Seq<u8>) -> bool {
    b.len() == word.len() && forall|i: int| 0 <= i < b.len() ==> lower(#[trigger] b[i]) == word[i]
}

pub open spec fn word_auth() -> Seq<u8> {
    seq![97u8, 117u8, 116u8, 104u8]
}

pub open spec fn word_client() -> Seq<u8> {
    seq![99u8, 108u8, 105u8, 101u8, 110u8, 116u8]
}

pub open spec fn word_hello() -> Seq<u8> {
    seq![104u8, 101u8, 108u8, 108u8, 111u8]
}

pub open spec fn word_next() -> Seq<u8> {
    seq![110u8, 101u8, 120u8, 116u8]
}

pub open spec fn word_select() -> Seq<u8> {
    seq![115u8, 101u8, 108u8, 101u8, 99u8, 116u8]
}

/// The reason given for a verb that is not in the vocabulary.
pub open spec fn unknown_command_text() -> Seq<char> {
    "Unknown command"@
}

/// The text of an error reply: the prefix `ERR ` and the reason.
pub open spec fn error_text(reason: Seq<char>) -> Seq<char> {
    "ERR "@ + reason
}

/// The answer to a protocol version that is no 8-bit number.
pub open spec fn bad_version_text() -> Seq<char> {
    "Protocol version is not an integer or out of range"@
}

/// The reason given for a frame that has not the shape of a command.
pub open spec fn bad_shape_text() -> Seq<char> {
    "Protocol error"@
}

/// The name by which the server presents itself.
pub open spec fn product_name() -> Seq<char> {
    "redflake"@
}

/// The version by which the server presents itself.
pub open spec fn product_version() -> Seq<char> {
    "0.1.0"@
}

/// The `HELLO` command that the frames behind the verb ask for.
pub open spec fn hello_of(items: Seq<FrameView>) -> CommandView {
    if items.len() > 1 {
        match items[1] {
            FrameView::BulkString(p) => match unsigned_decimal(p) {
                Some(v) => if v <= 255 {
                    CommandView::Hello(Some(v as u8))
                } else {
                    CommandView::Refused(bad_version_text())
                },
                None => CommandView::Refused(bad_version_text()),
            },
            _ => CommandView::Refused(bad_version_text()),
        }
    } else {
        CommandView::Hello(None)
    }
}

/// The command that a frame asks for. Only an array with a first element
/// asks for one, and not where that element is a bulk string that is no text.
pub open spec fn command_of(frame: FrameView) -> Option<CommandView> {
    match frame {
        FrameView::Array(items) => if items.len() == 0 {
            None
        } else {
            match items[0] {
                FrameView::BulkString(b) => if !valid_utf8(b) {
                    None
                } else if spells(b, word_auth()) {
                    Some(CommandView::Auth)
                } else if spells(b, word_client()) {
                    Some(CommandView::Client)
                } else if spells(b, word_hello()) {
                    Some(hello_of(items))
                } else if spells(b, word_next()) {
                    Some(CommandView::Next)
                } else if spells(b, word_select()) {
                    Some(CommandView::Select)
                } else {
                    Some(CommandView::Unknown(unknown_command_text()))
                },
                _ => Some(CommandView::Unknown(unknown_command_text())),
            }
        },
        _ => None,
    }
}

/// The protocol that a session speaks once the command is applied.
pub open spec fn protocol_after(cmd: CommandView, p: Protocol) -> Protocol {
    match cmd {
        CommandView::Hello(Some(v)) => if v == 2 {
            Protocol::RESP2
        } else if v == 3 {
            Protocol::RESP3
        } else {
            p
        },
        _ => p,
    }
}

/// The server's description of itself, in the shape of the given protocol.
pub open spec fn server_info(p: Protocol) -> FrameView {
    match p {
        Protocol::RESP2 => FrameView::Array(
            seq![
                FrameView::SimpleString("server"@),
                FrameView::SimpleString(product_name()),
                FrameView::SimpleString("version"@),
                FrameView::SimpleString(product_version()),
                FrameView::SimpleString("proto"@),
                FrameView::Integer(2),
            ],
        ),
        Protocol::RESP3 => FrameView::Mapping(
            seq![
                (FrameView::SimpleString("server"@), FrameView::SimpleString(product_name())),
                (FrameView::SimpleString("version"@), FrameView::SimpleString(product_version())),
                (FrameView::SimpleString("proto"@), FrameView::Integer(3)),
            ],
        ),
    }
}

/// The answer to what the identifier generator gave.
pub open spec fn issued_reply(issued: Result<i64, Seq<char>>) -> FrameView {
    match issued {
        Ok(id) => FrameView::Integer(id as int),
        Err(reason) => FrameView::SimpleError(error_text(reason)),
    }
}

/// The answer to a command of a session that speaks protocol `p`, where
/// the generator gave `issued` (which only `NEXT` looks at).
pub open spec fn reply_of(cmd: CommandView, p: Protocol, issued: Result<i64, Seq<char>>)
    -> FrameView {
    match cmd {
        CommandView::Auth => FrameView::SimpleString("OK"@),
        CommandView::Client => FrameView::SimpleString("OK"@),
        CommandView::Select => FrameView::SimpleString("OK"@),
        CommandView::Hello(Some(v)) => if v == 2 || v == 3 {
            server_info(protocol_after(cmd, p))
        } else {
            FrameView::SimpleError(unsupported_text())
        },
        CommandView::Hello(None) => server_info(p),
        CommandView::Next => issued_reply(issued),
        CommandView::Unknown(reason) => FrameView::SimpleError(error_text(reason)),
        CommandView::Refused(text) => FrameView::SimpleError(text),
    }
}

/// What every answer to `NEXT` looks like on the given machine: an
/// identifier that the rule issued for some reading of the cell and the
/// clock, with the machine and a sequence number in range, or an error
/// reply for one of the generator's reasons.
pub open spec fn answers_next(f: FrameView, machine: u8) -> bool {
    match f {
        FrameView::Integer(id) => i64::MIN <= id <= i64::MAX && machine_of(id as i64) == machine
            && sequence_of(id as i64) <= MAX_SEQ && (exists|last_id: i64, wall_ms: u64|
            #[trigger] issued_for(id as i64, last_id, wall_ms, machine)),
        FrameView::SimpleError(text) => text == error_text(clock_backwards_text()) || text
            == error_text(exhausted_text()),
        _ => false,
    }
}

/// What every answer to a frame looks like in a session that speaks `p`:
/// the reply to the command it asks for, or the shape error.
pub open spec fn answers(frame: FrameView, p: Protocol, machine: u8, f: FrameView) -> bool {
    match command_of(frame) {
        None => f == FrameView::SimpleError(error_text(bad_shape_text())),
        Some(cmd) => if cmd is Next {
            answers_next(f, machine)
        } else {
            forall|issued: Result<i64, Seq<char>>| f == #[trigger] reply_of(cmd, p, issued)
        },
    }
}

/// The protocol that a session speaks once the frame is answered.
pub open spec fn protocol_behind(frame: FrameView, p: Protocol) -> Protocol {
    match command_of(frame) {
        None => p,
        Some(cmd) => protocol_after(cmd, p),
    }
}

/// Whether the bytes spell the lower-case word, whatever their case.
pub fn is_word(b: &[u8], word: &[u8]) -> (r: bool)
    ensures
        r == spells(b@, word@),
{
    if b.len() != word.len() {
        return false;
    }
    let mut i: usize = 0;
    while i < b.len()
        invariant
            i <= b@.len(),
            b@.len() == word@.len(),
            forall|j: int| 0 <= j < i ==> lower(#[trigger] b@[j]) == word@[j],
        decreases b@.len() - i,
    {
        let c: u8 = b[i];
        let low: u8 = if 65 <= c && c <= 90 {
            c + 32
        } else {
            c
        };
        if low != word[i] {
            assert(lower(b@[i as int]) != word@[i as int]);
            return false;
        }
        i = i + 1;
    }
    true
}

/// The server's description of itself, in the shape of the given protocol.
pub fn server_info_frame(p: Protocol) -> (f: Frame)
    ensures
        f@ == server_info(p),
{
    match p {
        Protocol::RESP2 => {
            let mut items: Vec<Frame> = Vec::new();
            items.push(Frame::SimpleString("server".to_owned()));
            items.push(Frame::SimpleString("redflake".to_owned()));
            items.push(Frame::SimpleString("version".to_owned()));
            items.push(Frame::SimpleString("0.1.0".to_owned()));
            items.push(Frame::SimpleString("proto".to_owned()));
            items.push(Frame::Integer(2));
            assert(frames_view(items@) =~= server_info(p)->Array_0);
            Frame::Array(items)
        },
        Protocol::RESP3 => {
            let mut pairs: Vec<(Frame, Frame)> = Vec::new();
            pairs.push(
                (Frame::SimpleString("server".to_owned()), Frame::SimpleString("redflake".to_owned())),
            );
            pairs.push(
                (Frame::SimpleString("version".to_owned()), Frame::SimpleString("0.1.0".to_owned())),
            );
            pairs.push((Frame::SimpleString("proto".to_owned()), Frame::Integer(3)));
            assert(pairs_view(pairs@) =~= server_info(p)->Mapping_0);
            Frame::Mapping(pairs)
        },
    }
}

/// The error reply for a reason: the prefix `ERR `, then the reason.
pub fn error_frame(reason: String) -> (f: Frame)
    ensures
        f@ == FrameView::SimpleError(error_text(reason@)),
{
    let mut text = String::from_str("ERR ");
    text.append(reason.as_str());
    Frame::SimpleError(text)
}

/// The answer to what the identifier generator gave: the identifier as an
/// integer, or an error reply for the reason.
pub fn next_reply(issued: Result<i64, String>) -> (f: Frame)
    ensures
        f@ == issued_reply(
            match issued {
                Ok(id) => Ok(id),
                Err(reason) => Err(reason@),
            },
        ),
{
    match issued {
        Ok(id) => Frame::Integer(id),
        Err(reason) => error_frame(reason),
    }
}

impl Command {
    /// The `HELLO` command that the frames behind the verb ask for.
    fn hello_from(frames: &Vec<Frame>) -> (c: Command)
        requires
            frames@.len() > 0,
        ensures
            c@ == hello_of(frames_view(frames@)),
    {
        if frames.len() > 1 {
            match &frames[1] {
                Frame::BulkString(p) => match byte_from_binary(p.as_slice()) {
                    Ok(version) => Command::HELLO(Some(version)),
                    Err(_) => Command::REFUSED(
                        "Protocol version is not an integer or out of range".to_owned(),
                    ),
                },
                _ => Command::REFUSED(
                    "Protocol version is not an integer or out of range".to_owned(),
                ),
            }
        } else {
            Command::HELLO(None)
        }
    }

    /// Reads the command that a frame asks for.
    pub fn from_frame(frame: Frame) -> (r: Result<Command, FrameError>)
        ensures
            match r {
                Ok(c) => command_of(frame@) == Some(c@),
                Err(e) => command_of(frame@) is None && e == FrameError::Malformed,
            },
    {
        match frame {
            Frame::Array(frames) => {
                if frames.len() == 0 {
                    return Err(FrameError::Malformed);
                }
                proof {
                    let items = frames_view(frames@);
                    assert(frame@ == FrameView::Array(items));
                    assert(items[0] == frames@[0]@);
                }
                match &frames[0] {
                    Frame::BulkString(b) => {
                        let verb = b.as_slice();
                        match string_from_binary(verb) {
                            Err(_) => Err(FrameError::Malformed),
                            Ok(_) => {
                                let auth: [u8; 4] = [97, 117, 116, 104];
                                let client: [u8; 6] = [99, 108, 105, 101, 110, 116];
                                let hello: [u8; 5] = [104, 101, 108, 108, 111];
                                let next: [u8; 4] = [110, 101, 120, 116];
                                let select: [u8; 6] = [115, 101, 108, 101, 99, 116];
                                assert(auth@ =~= word_auth());
                                assert(client@ =~= word_client());
                                assert(hello@ =~= word_hello());
                                assert(next@ =~= word_next());
                                assert(select@ =~= word_select());
                                if is_word(verb, auth.as_slice()) {
                                    Ok(Command::AUTH)
                                } else if is_word(verb, client.as_slice()) {
                                    Ok(Command::CLIENT)
                                } else if is_word(verb, hello.as_slice()) {
                                    Ok(Command::hello_from(&frames))
                                } else if is_word(verb, next.as_slice()) {
                                    Ok(Command::NEXT)
                                } else if is_word(verb, select.as_slice()) {
                                    Ok(Command::SELECT)
                                } else {
                                    Ok(Command::UNKNOWN("Unknown command".to_owned()))
                                }
                            },
                        }
                    },
                    _ => Ok(Command::UNKNOWN("Unknown command".to_owned())),
                }
            },
            _ => Err(FrameError::Malformed),
        }
    }

    /// Answers `HELLO`: a version of 2 or 3 switches the session to it, any
    /// other is refused, and the reply describes the server in the shape of
    /// the protocol that the session then speaks.
    pub fn hello(version: Option<u8>, conn: &mut Connection) -> (f: Frame)
        ensures
            final(conn).protocol == protocol_after(
                CommandView::Hello(version),
                old(conn).protocol,
            ),
            final(conn).bytes() == old(conn).bytes(),
            forall|issued: Result<i64, Seq<char>>|
                f@ == #[trigger] reply_of(CommandView::Hello(version), old(conn).protocol, issued),
    {
        match version {
            Some(v) => match Protocol::try_from(v) {
                Ok(p) => {
                    conn.protocol = p;
                },
                Err(reason) => {
                    return Frame::SimpleError(reason);
                },
            },
            None => {},
        }
        server_info_frame(conn.protocol)
    }

    /// Answers a command within its session, with an identifier from the
    /// generator where the command asks for one.
    pub fn apply(self, conn: &mut Connection, generator: &Generator) -> (f: Frame)
        ensures
            final(conn).protocol == protocol_after(self@, old(conn).protocol),
            final(conn).bytes() == old(conn).bytes(),
            !(self@ is Next) ==> forall|issued: Result<i64, Seq<char>>|
                f@ == #[trigger] reply_of(self@, old(conn).protocol, issued),
            self@ is Next ==> answers_next(f@, generator.machine),
    {
        match self {
            Command::AUTH => Frame::SimpleString("OK".to_owned()),
            Command::CLIENT => Frame::SimpleString("OK".to_owned()),
            Command::SELECT => Frame::SimpleString("OK".to_owned()),
            Command::HELLO(version) => Command::hello(version, conn),
            Command::NEXT => next_reply(next_id(generator)),
            Command::UNKNOWN(reason) => error_frame(reason),
            Command::REFUSED(text) => Frame::SimpleError(text),
        }
    }

    /// Answers a frame within its session: the reply to the command it asks
    /// for, or an error reply where it has not the shape of a command.
    pub fn respond(frame: Frame, conn: &mut Connection, generator: &Generator) -> (f: Frame)
        ensures
            final(conn).bytes() == old(conn).bytes(),
            final(conn).protocol == protocol_behind(frame@, old(conn).protocol),
            answers(frame@, old(conn).protocol, generator.machine, f@),
    {
        match Command::from_frame(frame) {
            Ok(cmd) => cmd.apply(conn, generator),
            Err(_) => error_frame("Protocol error".to_owned()),
        }
    }
}

/// One step of a session: takes the next frame from the buffer, if a whole
/// one is there, answers it, and gives the bytes of the reply. Without a
/// whole frame nothing is answered; bytes that form no frame end the session.
pub fn serve(conn: &mut Connection, generator: &Generator) -> (r: Result<Option<Vec<u8>>, FrameError>)
    ensures
        match parse_frame(old(conn).bytes(), 0) {
            Parsed::Done { value, next } => final(conn).bytes() == old(conn).bytes().subrange(
                next,
                old(conn).bytes().len() as int,
            ) && final(conn).protocol == protocol_behind(value, old(conn).protocol) && (match r {
                Ok(Some(out)) => exists|reply: FrameView|
                    out@ == encode(reply) && #[trigger] answers(
                        value,
                        old(conn).protocol,
                        generator.machine,
                        reply,
                    ),
                _ => false,
            }),
            Parsed::Malformed => final(conn).bytes() == Seq::<u8>::empty() && final(conn).protocol
                == old(conn).protocol && r == Err::<Option<Vec<u8>>, FrameError>(
                FrameError::Malformed,
            ),
            Parsed::Incomplete => final(conn).protocol == old(conn).protocol && if old(
                conn,
            ).bytes().len() >= BUFFER_SIZE {
                final(conn).bytes() == Seq::<u8>::empty() && r == Err::<
                    Option<Vec<u8>>,
                    FrameError,
                >(FrameError::Malformed)
            } else {
                final(conn).bytes() == old(conn).bytes() && r == Ok::<
                    Option<Vec<u8>>,
                    FrameError,
                >(None)
            },
        },
{
    match conn.parse_frame() {
        Ok(Some(frame)) => {
            let ghost asked = frame@;
            let ghost before = conn.protocol;
            let reply = Command::respond(frame, conn, generator);
            let out = reply.as_bytes();
            assert(out@ == encode(reply@) && answers(asked, before, generator.machine, reply@));
            Ok(Some(out))
        },
        Ok(None) => Ok(None),
        Err(e) => Err(e),
    }
}

} // verus!
