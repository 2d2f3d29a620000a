use redflake::frame::{
    byte_from_binary, count_from_binary, find_terminator, number_from_binary, string_from_binary,
    Cursor, Frame, FrameError,
};

fn text(s: &str) -> Frame {
    Frame::SimpleString(s.to_string())
}

fn bulk(b: &[u8]) -> Frame {
    Frame::BulkString(b.to_vec())
}

fn samples() -> Vec<Frame> {
    vec![
        text("OK"),
        text(""),
        text("héllo wörld"),
        Frame::SimpleError("ERR nope".to_string()),
        Frame::SimpleError(String::new()),
        Frame::Integer(0),
        Frame::Integer(42),
        Frame::Integer(-1),
        Frame::Integer(i64::MAX),
        Frame::Integer(i64::MIN),
        bulk(b""),
        bulk(b"hello"),
        bulk(b"line\r\nbreak\r\n"),
        bulk(&[0, 255, 13, 10, 128]),
        Frame::Array(vec![]),
        Frame::Array(vec![bulk(b"NEXT")]),
        Frame::Array(vec![
            Frame::Integer(-7),
            Frame::Array(vec![text("a"), Frame::Array(vec![])]),
            Frame::Mapping(vec![(text("k"), bulk(b"v\r\n"))]),
        ]),
        Frame::Mapping(vec![]),
        Frame::Mapping(vec![
            (text("proto"), Frame::Integer(3)),
            (bulk(b"list"), Frame::Array(vec![Frame::Integer(1), Frame::Integer(2)])),
            (text("proto"), Frame::Integer(2)),
        ]),
    ]
}

fn parse_all(bytes: &[u8]) -> Result<(Frame, usize), FrameError> {
    let mut cursor = Cursor::new(bytes);
    let frame = Frame::parse(&mut cursor)?;
    Ok((frame, cursor.position()))
}

#[test]
fn serialized_frames_parse_back() {
    for frame in samples() {
        let bytes = frame.as_bytes();
        let (back, used) = parse_all(&bytes).expect("a written frame parses");
        assert_eq!(back, frame);
        assert_eq!(used, bytes.len());
        assert_eq!(back.as_bytes(), bytes);
    }
}

#[test]
fn every_proper_prefix_is_incomplete() {
    for frame in samples() {
        let bytes = frame.as_bytes();
        for cut in 0..bytes.len() {
            let mut cursor = Cursor::new(&bytes[..cut]);
            assert_eq!(Frame::parse(&mut cursor), Err(FrameError::Incomplete));
            assert_eq!(cursor.position(), 0);
        }
        let (back, _) = parse_all(&bytes).expect("the whole frame parses");
        assert_eq!(back, frame);
    }
}

#[test]
fn exact_bytes_of_each_shape() {
    assert_eq!(text("OK").as_bytes(), b"+OK\r\n".to_vec());
    assert_eq!(Frame::SimpleError("ERR x".to_string()).as_bytes(), b"-ERR x\r\n".to_vec());
    assert_eq!(Frame::Integer(-120).as_bytes(), b":-120\r\n".to_vec());
    assert_eq!(Frame::Integer(0).as_bytes(), b":0\r\n".to_vec());
    assert_eq!(
        Frame::Integer(i64::MIN).as_bytes(),
        b":-9223372036854775808\r\n".to_vec()
    );
    assert_eq!(bulk(b"hello").as_bytes(), b"$5\r\nhello\r\n".to_vec());
    assert_eq!(bulk(b"").as_bytes(), b"$0\r\n\r\n".to_vec());
    assert_eq!(
        Frame::Array(vec![bulk(b"a"), Frame::Integer(1)]).as_bytes(),
        b"*2\r\n$1\r\na\r\n:1\r\n".to_vec()
    );
    assert_eq!(
        Frame::Mapping(vec![(text("k"), Frame::Integer(3))]).as_bytes(),
        b"%1\r\n+k\r\n:3\r\n".to_vec()
    );
    let long = bulk(&[b'x'; 1234]).as_bytes();
    assert_eq!(&long[..7], b"$1234\r\n");
    assert_eq!(long.len(), 7 + 1234 + 2);
}

#[test]
fn parse_stops_behind_the_first_frame() {
    let bytes = b"+one\r\n:2\r\n";
    let mut cursor = Cursor::new(bytes);
    assert_eq!(Frame::parse(&mut cursor), Ok(text("one")));
    assert_eq!(cursor.position(), 6);
    assert_eq!(cursor.remaining(), 4);
    assert!(cursor.has_remaining());
    assert_eq!(Frame::parse(&mut cursor), Ok(Frame::Integer(2)));
    assert_eq!(cursor.position(), 10);
    assert!(!cursor.has_remaining());
    assert_eq!(Frame::parse(&mut cursor), Err(FrameError::Incomplete));
}

#[test]
fn unknown_tag_is_malformed() {
    assert_eq!(parse_all(b"?3\r\n"), Err(FrameError::Malformed));
    assert_eq!(parse_all(b"?"), Err(FrameError::Malformed));
}

#[test]
fn non_numeric_integer_is_malformed() {
    assert_eq!(parse_all(b":abc\r\n"), Err(FrameError::Malformed));
    assert_eq!(parse_all(b":\r\n"), Err(FrameError::Malformed));
    assert_eq!(parse_all(b":9223372036854775808\r\n"), Err(FrameError::Malformed));
    assert_eq!(parse_all(b":12"), Err(FrameError::Incomplete));
}

#[test]
fn bulk_length_and_payload() {
    assert_eq!(parse_all(b"$5\r\nhi\r\n"), Err(FrameError::Incomplete));
    assert_eq!(parse_all(b"$2\r\nhiXX"), Err(FrameError::Malformed));
    assert_eq!(parse_all(b"$2\r\nhi\rX"), Err(FrameError::Malformed));
    assert_eq!(parse_all(b"$2\r\nhi\r"), Err(FrameError::Incomplete));
    assert_eq!(parse_all(b"$-1\r\n"), Err(FrameError::Malformed));
    assert_eq!(parse_all(b"$x\r\n"), Err(FrameError::Malformed));
    assert_eq!(parse_all(b"$2\r\nhi\r\n"), Ok((bulk(b"hi"), 8)));
    assert_eq!(parse_all(b"$4\r\n\r\n\r\n\r\n"), Ok((bulk(b"\r\n\r\n"), 10)));
}

#[test]
fn text_must_be_utf8() {
    assert_eq!(parse_all(&[b'+', 0xff, b'\r', b'\n']), Err(FrameError::Malformed));
    assert_eq!(parse_all(&[b'-', 0xc3, b'\r', b'\n']), Err(FrameError::Malformed));
    assert_eq!(
        parse_all(&[b'+', 0xc3, 0xa9, b'\r', b'\n']),
        Ok((text("é"), 5))
    );
}

#[test]
fn counts_of_aggregates() {
    assert_eq!(parse_all(b"*0\r\n"), Ok((Frame::Array(vec![]), 4)));
    assert_eq!(parse_all(b"%0\r\n"), Ok((Frame::Mapping(vec![]), 4)));
    assert_eq!(parse_all(b"*2\r\n:1\r\n"), Err(FrameError::Incomplete));
    assert_eq!(parse_all(b"%1\r\n:1\r\n"), Err(FrameError::Incomplete));
    assert_eq!(parse_all(b"*2\r\n:1\r\n?"), Err(FrameError::Malformed));
    assert_eq!(parse_all(b"*x\r\n"), Err(FrameError::Malformed));
    assert_eq!(
        parse_all(b"*99999999999999999999999999\r\n"),
        Err(FrameError::Malformed)
    );
    assert_eq!(
        parse_all(b"%1\r\n+k\r\n*1\r\n$1\r\nv\r\n"),
        Ok((
            Frame::Mapping(vec![(text("k"), Frame::Array(vec![bulk(b"v")]))]),
            19
        ))
    );
}

#[test]
fn signed_numbers_from_bytes() {
    assert_eq!(number_from_binary(b"0"), Ok(0));
    assert_eq!(number_from_binary(b"-0"), Ok(0));
    assert_eq!(number_from_binary(b"+17"), Ok(17));
    assert_eq!(number_from_binary(b"-17"), Ok(-17));
    assert_eq!(number_from_binary(b"0017"), Ok(17));
    assert_eq!(number_from_binary(b"9223372036854775807"), Ok(i64::MAX));
    assert_eq!(number_from_binary(b"-9223372036854775808"), Ok(i64::MIN));
    assert_eq!(
        number_from_binary(b"000000000000000000000000000000000000000001"),
        Ok(1)
    );
    for bad in [
        &b""[..],
        b"-",
        b"+",
        b"+-1",
        b"1 ",
        b" 1",
        b"1a",
        b"9223372036854775808",
        b"-9223372036854775809",
        b"99999999999999999999999999999999999999",
        &[0xff],
    ] {
        assert_eq!(number_from_binary(bad), Err(FrameError::Malformed));
    }
}

#[test]
fn unsigned_numbers_from_bytes() {
    assert_eq!(count_from_binary(b"0"), Ok(0));
    assert_eq!(count_from_binary(b"+12"), Ok(12));
    assert_eq!(count_from_binary(b"128"), Ok(128));
    assert_eq!(count_from_binary(b"-0"), Err(FrameError::Malformed));
    assert_eq!(count_from_binary(b"-1"), Err(FrameError::Malformed));
    assert_eq!(count_from_binary(b""), Err(FrameError::Malformed));
    assert_eq!(
        count_from_binary(b"340282366920938463463374607431768211456"),
        Err(FrameError::Malformed)
    );
    assert_eq!(byte_from_binary(b"3"), Ok(3));
    assert_eq!(byte_from_binary(b"255"), Ok(255));
    assert_eq!(byte_from_binary(b"0255"), Ok(255));
    assert_eq!(byte_from_binary(b"256"), Err(FrameError::Malformed));
    assert_eq!(byte_from_binary(b"three"), Err(FrameError::Malformed));
}

#[test]
fn text_from_bytes() {
    assert_eq!(string_from_binary(b"PING"), Ok("PING".to_string()));
    assert_eq!(string_from_binary(b""), Ok(String::new()));
    assert_eq!(
        string_from_binary(&[0xe2, 0x82, 0xac]),
        Ok("\u{20ac}".to_string())
    );
    assert_eq!(string_from_binary(&[0xe2, 0x82]), Err(FrameError::Malformed));
    assert_eq!(string_from_binary(&[0xed, 0xa0, 0x80]), Err(FrameError::Malformed));
}

#[test]
fn first_terminator_is_found() {
    assert_eq!(find_terminator(b"ab\r\ncd\r\n", 0), Some(2));
    assert_eq!(find_terminator(b"ab\r\ncd\r\n", 2), Some(2));
    assert_eq!(find_terminator(b"ab\r\ncd\r\n", 3), Some(6));
    assert_eq!(find_terminator(b"ab\r\ncd\r\n", 7), None);
    assert_eq!(find_terminator(b"ab\rcd\n", 0), None);
    assert_eq!(find_terminator(b"", 0), None);
    assert_eq!(find_terminator(b"\r\n", 5), None);
}
