use redflake::command::{
    error_frame, is_word, next_reply, serve as step, server_info_frame, Command,
};
use redflake::connection::{Connection, Protocol, BUFFER_SIZE};
use redflake::frame::{Frame, FrameError};
use redflake::snowflake::Generator;

fn bulk(b: &[u8]) -> Frame {
    Frame::BulkString(b.to_vec())
}

fn request(words: &[&[u8]]) -> Frame {
    Frame::Array(words.iter().map(|w| bulk(w)).collect())
}

fn serve(conn: &mut Connection, generator: &Generator, bytes: &[u8]) -> Vec<u8> {
    assert!(conn.feed(bytes));
    let frame = conn
        .parse_frame()
        .expect("the request is well formed")
        .expect("the request is complete");
    Command::respond(frame, conn, generator).as_bytes()
}

#[test]
fn ping_is_an_unknown_command() {
    let mut conn = Connection::new();
    let generator = Generator::new(0);
    assert_eq!(
        serve(&mut conn, &generator, b"*1\r\n$4\r\nPING\r\n"),
        b"-ERR Unknown command\r\n".to_vec()
    );
}

#[test]
fn next_gives_a_positive_identifier_of_this_machine() {
    let mut conn = Connection::new();
    let generator = Generator::new(173);
    let reply = serve(&mut conn, &generator, b"*1\r\n$4\r\nNEXT\r\n");
    assert_eq!(reply[0], b':');
    assert_eq!(&reply[reply.len() - 2..], b"\r\n");
    let digits = String::from_utf8(reply[1..reply.len() - 2].to_vec()).expect("digits");
    let id: i64 = digits.parse().expect("a decimal number");
    assert!(id > 0);
    assert_eq!((id >> 12) & 0xff, 173);
    let again = serve(&mut conn, &generator, b"*1\r\n$4\r\nnext\r\n");
    let second: i64 = String::from_utf8(again[1..again.len() - 2].to_vec())
        .expect("digits")
        .parse()
        .expect("a decimal number");
    assert!(second > id);
}

#[test]
fn hello_on_a_fresh_connection_is_an_array() {
    let mut conn = Connection::new();
    let generator = Generator::new(0);
    assert!(conn.feed(b"*1\r\n$5\r\nHELLO\r\n"));
    let frame = conn.parse_frame().expect("well formed").expect("complete");
    match Command::respond(frame, &mut conn, &generator) {
        Frame::Array(items) => {
            assert_eq!(items.len(), 6);
            assert_eq!(items[0], Frame::SimpleString("server".to_string()));
            assert_eq!(items[2], Frame::SimpleString("version".to_string()));
            assert_eq!(items[4], Frame::SimpleString("proto".to_string()));
            assert_eq!(items[5].as_bytes(), b":2\r\n".to_vec());
        }
        other => panic!("not an array: {:?}", other),
    }
    assert_eq!(conn.protocol, Protocol::RESP2);
}

#[test]
fn hello_3_switches_to_maps_and_stays() {
    let mut conn = Connection::new();
    let generator = Generator::new(0);
    assert!(conn.feed(b"*2\r\n$5\r\nHELLO\r\n$1\r\n3\r\n"));
    let frame = conn.parse_frame().expect("well formed").expect("complete");
    match Command::respond(frame, &mut conn, &generator) {
        Frame::Mapping(pairs) => {
            assert_eq!(pairs.len(), 3);
            assert!(pairs.contains(&(
                Frame::SimpleString("proto".to_string()),
                Frame::Integer(3)
            )));
        }
        other => panic!("not a map: {:?}", other),
    }
    assert_eq!(conn.protocol, Protocol::RESP3);
    let again = serve(&mut conn, &generator, b"*1\r\n$5\r\nHELLO\r\n");
    assert_eq!(
        again,
        b"%3\r\n+server\r\n+redflake\r\n+version\r\n+0.1.0\r\n+proto\r\n:3\r\n".to_vec()
    );
    let back = serve(&mut conn, &generator, b"*2\r\n$5\r\nhello\r\n$1\r\n2\r\n");
    assert_eq!(
        back,
        b"*6\r\n+server\r\n+redflake\r\n+version\r\n+0.1.0\r\n+proto\r\n:2\r\n".to_vec()
    );
    assert_eq!(conn.protocol, Protocol::RESP2);
}

#[test]
fn hello_9_is_refused_and_changes_nothing() {
    let mut conn = Connection::new();
    let generator = Generator::new(0);
    assert_eq!(
        serve(&mut conn, &generator, b"*2\r\n$5\r\nHELLO\r\n$1\r\n9\r\n"),
        b"-Unsupported protocol version\r\n".to_vec()
    );
    assert_eq!(conn.protocol, Protocol::RESP2);
    let reply = serve(&mut conn, &generator, b"*1\r\n$5\r\nHELLO\r\n");
    assert_eq!(&reply[..4], b"*6\r\n");
    assert_eq!(&reply[reply.len() - 4..], b":2\r\n");
}

#[test]
fn auth_is_accepted() {
    let mut conn = Connection::new();
    let generator = Generator::new(0);
    assert_eq!(
        serve(&mut conn, &generator, b"*1\r\n$4\r\nAUTH\r\n"),
        b"+OK\r\n".to_vec()
    );
    assert_eq!(
        serve(&mut conn, &generator, b"*3\r\n$4\r\nauth\r\n$1\r\nu\r\n$1\r\np\r\n"),
        b"+OK\r\n".to_vec()
    );
    assert_eq!(
        serve(&mut conn, &generator, b"*2\r\n$6\r\nSeLeCt\r\n$2\r\n99\r\n"),
        b"+OK\r\n".to_vec()
    );
    assert_eq!(
        serve(&mut conn, &generator, b"*2\r\n$6\r\nCLIENT\r\n$7\r\nSETNAME\r\n"),
        b"+OK\r\n".to_vec()
    );
}

#[test]
fn commands_from_frames() {
    assert_eq!(Command::from_frame(request(&[b"AUTH"])), Ok(Command::AUTH));
    assert_eq!(Command::from_frame(request(&[b"Client"])), Ok(Command::CLIENT));
    assert_eq!(Command::from_frame(request(&[b"next", b"x"])), Ok(Command::NEXT));
    assert_eq!(Command::from_frame(request(&[b"select"])), Ok(Command::SELECT));
    assert_eq!(Command::from_frame(request(&[b"hello"])), Ok(Command::HELLO(None)));
    assert_eq!(
        Command::from_frame(request(&[b"HELLO", b"3"])),
        Ok(Command::HELLO(Some(3)))
    );
    assert_eq!(
        Command::from_frame(request(&[b"HELLO", b"200"])),
        Ok(Command::HELLO(Some(200)))
    );
    assert_eq!(
        Command::from_frame(request(&[b"HELLO", b"foo"])),
        Ok(Command::REFUSED(
            "Protocol version is not an integer or out of range".to_string()
        ))
    );
    assert_eq!(
        Command::from_frame(request(&[b"HELLO", b"256"])),
        Ok(Command::REFUSED(
            "Protocol version is not an integer or out of range".to_string()
        ))
    );
    assert_eq!(
        Command::from_frame(Frame::Array(vec![bulk(b"HELLO"), Frame::Integer(3)])),
        Ok(Command::REFUSED(
            "Protocol version is not an integer or out of range".to_string()
        ))
    );
    assert_eq!(
        Command::from_frame(request(&[b"FOO"])),
        Ok(Command::UNKNOWN("Unknown command".to_string()))
    );
    assert_eq!(
        Command::from_frame(request(&[b"NEXTT"])),
        Ok(Command::UNKNOWN("Unknown command".to_string()))
    );
    assert_eq!(
        Command::from_frame(Frame::Array(vec![Frame::Integer(1)])),
        Ok(Command::UNKNOWN("Unknown command".to_string()))
    );
}

#[test]
fn frames_that_are_no_commands() {
    assert_eq!(
        Command::from_frame(Frame::Array(vec![])),
        Err(FrameError::Malformed)
    );
    assert_eq!(
        Command::from_frame(Frame::Integer(1)),
        Err(FrameError::Malformed)
    );
    assert_eq!(
        Command::from_frame(bulk(b"NEXT")),
        Err(FrameError::Malformed)
    );
    assert_eq!(
        Command::from_frame(Frame::Array(vec![bulk(&[0xff, 0xfe])])),
        Err(FrameError::Malformed)
    );
    let mut conn = Connection::new();
    let generator = Generator::new(0);
    assert_eq!(
        serve(&mut conn, &generator, b"+NEXT\r\n"),
        b"-ERR Protocol error\r\n".to_vec()
    );
    assert_eq!(
        serve(&mut conn, &generator, b"*0\r\n"),
        b"-ERR Protocol error\r\n".to_vec()
    );
    assert_eq!(
        serve(&mut conn, &generator, b"*1\r\n$4\r\nAUTH\r\n"),
        b"+OK\r\n".to_vec()
    );
}

#[test]
fn bad_hello_argument_is_an_error_reply() {
    let mut conn = Connection::new();
    let generator = Generator::new(0);
    assert_eq!(
        serve(&mut conn, &generator, b"*2\r\n$5\r\nHELLO\r\n$3\r\nfoo\r\n"),
        b"-Protocol version is not an integer or out of range\r\n".to_vec()
    );
    assert_eq!(conn.protocol, Protocol::RESP2);
}

#[test]
fn replies_to_generator_outcomes() {
    assert_eq!(next_reply(Ok(1234)), Frame::Integer(1234));
    assert_eq!(
        next_reply(Err("Clock moved backwards".to_string())),
        Frame::SimpleError("ERR Clock moved backwards".to_string())
    );
    assert_eq!(
        next_reply(Err("Sequence exhausted".to_string())),
        Frame::SimpleError("ERR Sequence exhausted".to_string())
    );
    assert_eq!(
        next_reply(Err(String::new())).as_bytes(),
        b"-ERR \r\n".to_vec()
    );
    assert_eq!(
        error_frame("Unknown command".to_string()),
        Frame::SimpleError("ERR Unknown command".to_string())
    );
    assert_eq!(
        server_info_frame(Protocol::RESP3).as_bytes(),
        b"%3\r\n+server\r\n+redflake\r\n+version\r\n+0.1.0\r\n+proto\r\n:3\r\n".to_vec()
    );
}

#[test]
fn protocol_versions() {
    assert_eq!(Protocol::try_from(2), Ok(Protocol::RESP2));
    assert_eq!(Protocol::try_from(3), Ok(Protocol::RESP3));
    for v in [0u8, 1, 4, 9, 255] {
        assert_eq!(
            Protocol::try_from(v),
            Err("Unsupported protocol version".to_string())
        );
    }
}

#[test]
fn frames_leave_the_buffer_from_the_front() {
    let mut conn = Connection::new();
    assert_eq!(conn.pending(), 0);
    assert_eq!(conn.parse_frame(), Ok(None));
    assert!(conn.feed(b"+one\r\n:2\r\n$3\r\nab"));
    assert_eq!(conn.pending(), 16);
    assert_eq!(
        conn.parse_frame(),
        Ok(Some(Frame::SimpleString("one".to_string())))
    );
    assert_eq!(conn.pending(), 10);
    assert_eq!(&conn.buffer[..], b":2\r\n$3\r\nab");
    assert_eq!(conn.parse_frame(), Ok(Some(Frame::Integer(2))));
    assert_eq!(&conn.buffer[..], b"$3\r\nab");
    assert_eq!(conn.parse_frame(), Ok(None));
    assert_eq!(&conn.buffer[..], b"$3\r\nab");
    assert!(conn.feed(b"c\r\n"));
    assert_eq!(conn.parse_frame(), Ok(Some(bulk(b"abc"))));
    assert_eq!(conn.pending(), 0);
}

#[test]
fn malformed_bytes_empty_the_buffer() {
    let mut conn = Connection::new();
    assert!(conn.feed(b"?3\r\n+ok\r\n"));
    assert_eq!(conn.parse_frame(), Err(FrameError::Malformed));
    assert_eq!(conn.pending(), 0);
}

#[test]
fn a_full_buffer_without_a_frame_is_malformed() {
    let mut conn = Connection::new();
    assert!(conn.feed(b"+"));
    assert!(conn.feed(&[b'a'; BUFFER_SIZE - 2]));
    assert_eq!(conn.pending(), BUFFER_SIZE - 1);
    assert_eq!(conn.parse_frame(), Ok(None));
    assert_eq!(conn.pending(), BUFFER_SIZE - 1);
    assert!(conn.feed(b"a"));
    assert_eq!(conn.pending(), BUFFER_SIZE);
    assert_eq!(conn.parse_frame(), Err(FrameError::Malformed));
    assert_eq!(conn.pending(), 0);
    let mut whole = Connection::new();
    assert!(whole.feed(b"$200\r\n"));
    assert!(whole.feed(&[b'z'; 200]));
    assert!(whole.feed(b"\r\n"));
    assert_eq!(whole.parse_frame(), Ok(Some(bulk(&[b'z'; 200]))));
}

#[test]
fn a_step_answers_one_frame_at_a_time() {
    let mut conn = Connection::new();
    let generator = Generator::new(7);
    assert_eq!(step(&mut conn, &generator), Ok(None));
    assert!(conn.feed(b"*1\r\n$4\r\nPING\r\n*1\r\n$4\r\nAUTH\r\n*2\r\n$5\r\nHEL"));
    assert_eq!(
        step(&mut conn, &generator),
        Ok(Some(b"-ERR Unknown command\r\n".to_vec()))
    );
    assert_eq!(step(&mut conn, &generator), Ok(Some(b"+OK\r\n".to_vec())));
    assert_eq!(step(&mut conn, &generator), Ok(None));
    assert_eq!(conn.end_of_stream(), Err(FrameError::Incomplete));
    assert!(conn.feed(b"LO\r\n$1\r\n3\r\n"));
    let reply = step(&mut conn, &generator).expect("well formed").expect("complete");
    assert_eq!(&reply[..4], b"%3\r\n");
    assert_eq!(conn.protocol, Protocol::RESP3);
    assert_eq!(conn.end_of_stream(), Ok(()));
    assert!(conn.feed(b"!boom\r\n"));
    assert_eq!(step(&mut conn, &generator), Err(FrameError::Malformed));
    assert_eq!(conn.pending(), 0);
}

#[test]
fn verbs_are_matched_without_regard_to_case() {
    assert!(is_word(b"NEXT", b"next"));
    assert!(is_word(b"nExT", b"next"));
    assert!(is_word(b"", b""));
    assert!(!is_word(b"NEX", b"next"));
    assert!(!is_word(b"NEXTS", b"next"));
    assert!(!is_word(b"N\xc5XT", b"next"));
    assert!(!is_word(b"next", b"NEXT"));
    assert!(!is_word(b"@UTH", b"`uth"));
}

#[test]
fn an_unknown_verb_is_a_command_with_its_reason() {
    assert_eq!(
        Command::from_frame(Frame::Array(vec![Frame::BulkString(b"PING".to_vec())])),
        Ok(Command::UNKNOWN("Unknown command".to_string()))
    );
}

#[test]
fn an_unknown_command_is_answered_with_the_prefix() {
    let mut conn = Connection::new();
    let generator = Generator::new(0);
    let reply = Command::UNKNOWN("Unknown command".to_string()).apply(&mut conn, &generator);
    assert_eq!(reply, Frame::SimpleError("ERR Unknown command".to_string()));
    assert_eq!(reply.as_bytes(), b"-ERR Unknown command\r\n".to_vec());
    assert_eq!(conn.protocol, Protocol::RESP2);
    let other = Command::UNKNOWN("no such thing".to_string()).apply(&mut conn, &generator);
    assert_eq!(other.as_bytes(), b"-ERR no such thing\r\n".to_vec());
}

#[test]
fn a_refused_hello_is_answered_as_it_stands() {
    let mut conn = Connection::new();
    let generator = Generator::new(0);
    let reply = Command::REFUSED("Protocol version is not an integer or out of range".to_string())
        .apply(&mut conn, &generator);
    assert_eq!(
        reply.as_bytes(),
        b"-Protocol version is not an integer or out of range\r\n".to_vec()
    );
    assert_eq!(conn.protocol, Protocol::RESP2);
    let unsupported = Command::HELLO(Some(9)).apply(&mut conn, &generator);
    assert_eq!(
        unsupported.as_bytes(),
        b"-Unsupported protocol version\r\n".to_vec()
    );
    assert_eq!(conn.protocol, Protocol::RESP2);
}

#[test]
fn next_with_a_backward_clock_is_an_error_reply() {
    let mut conn = Connection::new();
    let generator = Generator::new(3);
    generator
        .last
        .store(i64::MAX, std::sync::atomic::Ordering::SeqCst);
    let reply = Command::NEXT.apply(&mut conn, &generator);
    assert_eq!(
        reply,
        Frame::SimpleError("ERR Clock moved backwards".to_string())
    );
    assert_eq!(conn.protocol, Protocol::RESP2);
    assert_eq!(
        serve(&mut conn, &generator, b"*1\r\n$4\r\nNEXT\r\n"),
        b"-ERR Clock moved backwards\r\n".to_vec()
    );
    assert_eq!(
        serve(&mut conn, &generator, b"*1\r\n$4\r\nAUTH\r\n"),
        b"+OK\r\n".to_vec()
    );
}
