use bytes::BytesMut;
use cubicle::resp::{read_line, Cursor, Frame, RespError};

fn bulk(s: &str) -> Frame {
    Frame::BulkString(Some(s.as_bytes().to_vec()))
}

fn parse_all(bytes: &[u8]) -> (Result<Option<Frame>, RespError>, Vec<u8>) {
    let mut buf = BytesMut::from(bytes);
    let r = Frame::parser(&mut buf);
    (r, buf.to_vec())
}

#[test]
fn encodes_each_kind_of_frame() {
    assert_eq!(Frame::SimpleString("OK".to_string()).to_bytes(), b"+OK\r\n".to_vec());
    assert_eq!(Frame::Error("ERR x".to_string()).to_bytes(), b"-ERR x\r\n".to_vec());
    assert_eq!(Frame::Integer(-42).to_bytes(), b":-42\r\n".to_vec());
    assert_eq!(Frame::Integer(0).to_bytes(), b":0\r\n".to_vec());
    assert_eq!(
        Frame::Integer(i64::MIN).to_bytes(),
        b":-9223372036854775808\r\n".to_vec()
    );
    assert_eq!(bulk("Alice").to_bytes(), b"$5\r\nAlice\r\n".to_vec());
    assert_eq!(Frame::BulkString(None).to_bytes(), b"$-1\r\n".to_vec());
    assert_eq!(Frame::Array(None).to_bytes(), b"*-1\r\n".to_vec());
    assert_eq!(Frame::Null.to_bytes(), b"_\r\n".to_vec());
    assert_eq!(
        Frame::Array(Some(vec![bulk("GET"), bulk("k")])).to_bytes(),
        b"*2\r\n$3\r\nGET\r\n$1\r\nk\r\n".to_vec()
    );
}

#[test]
fn serialize_appends_to_the_buffer() {
    let mut buf = b"xy".to_vec();
    Frame::Integer(7).serialize(&mut buf);
    assert_eq!(buf, b"xy:7\r\n".to_vec());
}

#[test]
fn encoded_frames_read_back_with_their_length() {
    let frame = Frame::Array(Some(vec![
        bulk("SET"),
        Frame::SimpleString("é k".to_string()),
        Frame::Integer(i64::MAX),
        Frame::Array(Some(vec![Frame::Null, Frame::BulkString(None), Frame::Array(None)])),
        Frame::Error("bad".to_string()),
        Frame::BulkString(Some(vec![0, 13, 10, 255])),
    ]));
    let mut bytes = frame.to_bytes();
    let len = bytes.len();
    bytes.extend_from_slice(b"+rest\r\n");
    let (r, left) = parse_all(&bytes);
    assert_eq!(r.unwrap(), Some(frame));
    assert_eq!(left, b"+rest\r\n".to_vec());
    assert_eq!(bytes.len() - left.len(), len);
}

#[test]
fn incomplete_input_leaves_the_buffer_alone() {
    for input in [
        &b""[..],
        b"+OK",
        b"+OK\r",
        b"$5\r\nAli",
        b"$5\r\nAlice\r",
        b"*2\r\n$3\r\nGET\r\n",
        b"_\r",
        b":12",
    ] {
        let (r, left) = parse_all(input);
        assert_eq!(r.unwrap(), None);
        assert_eq!(left, input.to_vec());
    }
}

#[test]
fn each_error_of_the_reader() {
    let cases: Vec<(&[u8], RespError, &str)> = vec![
        (b"_ab", RespError::InvalidNull, "Invalid Null frame"),
        (b"?x\r\n", RespError::InvalidType, "Invalid RESP type"),
        (b"+\xff\r\n", RespError::InvalidUtf8, "Invalid UTF-8"),
        (b"-\xc3\r\n", RespError::InvalidUtf8, "Invalid UTF-8"),
        (b":\xff\r\n", RespError::InvalidUtf8, "Invalid UTF-8"),
        (b":abc\r\n", RespError::InvalidInteger, "Invalid integer"),
        (b":9223372036854775808\r\n", RespError::InvalidInteger, "Invalid integer"),
        (b"$\xff\r\n", RespError::InvalidLengthUtf8, "Invalid UTF-8 length"),
        (b"$x\r\n", RespError::InvalidLengthInteger, "Invalid integer length"),
        (b"*\r\n", RespError::InvalidLengthInteger, "Invalid integer length"),
        (b"$-2\r\n", RespError::NegativeLength, "Length can't be < 0"),
        (b"*-5\r\n", RespError::NegativeLength, "Length can't be < 0"),
        (b"$3\r\nabcXY", RespError::MissingCrlf, "Bulk string payload does not end with CRLF"),
        (b"*2\r\n:1\r\n?\r\n", RespError::InvalidType, "Invalid RESP type"),
    ];
    for (input, err, msg) in cases {
        let (r, left) = parse_all(input);
        assert_eq!(r, Err(err));
        assert_eq!(err.message(), msg);
        assert_eq!(left, input.to_vec());
    }
    assert_eq!(RespError::InvalidBulkString.message(), "Invalid Bulk string");
    assert_eq!(RespError::InvalidArray.message(), "Invalid Array");
}

#[test]
fn integers_read_as_rust_reads_them() {
    let (r, _) = parse_all(b":+5\r\n");
    assert_eq!(r.unwrap(), Some(Frame::Integer(5)));
    let (r, _) = parse_all(b":-0007\r\n");
    assert_eq!(r.unwrap(), Some(Frame::Integer(-7)));
    let (r, _) = parse_all(b":-9223372036854775808\r\n");
    assert_eq!(r.unwrap(), Some(Frame::Integer(i64::MIN)));
    let (r, _) = parse_all(b":-\r\n");
    assert_eq!(r, Err(RespError::InvalidInteger));
    let (r, _) = parse_all(b"$03\r\nabc\r\n");
    assert_eq!(r.unwrap(), Some(bulk("abc")));
}

#[test]
fn null_and_absent_frames() {
    let (r, left) = parse_all(b"$-1\r\n*-1\r\n");
    assert_eq!(r.unwrap(), Some(Frame::BulkString(None)));
    assert_eq!(left, b"*-1\r\n".to_vec());
    let (r, _) = parse_all(&left);
    assert_eq!(r.unwrap(), Some(Frame::Array(None)));
    let (r, _) = parse_all(b"_\r\n");
    assert_eq!(r.unwrap(), Some(Frame::Null));
    let (r, _) = parse_all(b"*0\r\n");
    assert_eq!(r.unwrap(), Some(Frame::Array(Some(vec![]))));
}

#[test]
fn a_simple_string_ends_at_the_first_crlf() {
    let (r, left) = parse_all(b"+a\r\r\nb\r\n");
    assert_eq!(r.unwrap(), Some(Frame::SimpleString("a\r".to_string())));
    assert_eq!(left, b"b\r\n".to_vec());
}

#[test]
fn cursor_reads_lines_and_frames() {
    let data = b"+hello\r\n:12\r\n";
    let mut c = Cursor::new(&data[..]);
    assert_eq!(read_line(&mut c), Some(&b"hello"[..]));
    assert_eq!(c.position(), 8);
    assert_eq!(c.remaining(), 5);
    assert!(c.has_remaining());
    assert_eq!(Frame::parse_cursor(&mut c), Ok(Some(Frame::Integer(12))));
    assert_eq!(c.position(), 13);
    assert!(!c.has_remaining());
    assert_eq!(Frame::parse_cursor(&mut c), Ok(None));

    let mut c = Cursor::new(&b"+no end"[..]);
    assert_eq!(read_line(&mut c), None);
    assert_eq!(c.position(), 0);

    let mut c = Cursor::new(&b"xx:5\r\n"[..]);
    c.advance(2);
    assert_eq!(c.position(), 2);
    assert_eq!(Frame::parse_cursor(&mut c), Ok(Some(Frame::Integer(5))));
    c.set_position(0);
    assert_eq!(c.get_ref(), &b"xx:5\r\n"[..]);
    assert_eq!(Frame::parse_cursor(&mut c), Err(RespError::InvalidType));
    assert_eq!(c.position(), 0);
}

#[test]
fn a_failed_read_leaves_the_cursor_after_what_was_read() {
    let data = b"*2\r\n:1\r\n";
    let mut c = Cursor::new(&data[..]);
    assert_eq!(Frame::parse_cursor(&mut c), Ok(None));
    assert_eq!(c.position(), 8);

    let cases: Vec<(&[u8], Result<Option<Frame>, RespError>, usize)> = vec![
        (b"+\xff\r\nx", Err(RespError::InvalidUtf8), 4),
        (b":abc\r\n", Err(RespError::InvalidInteger), 6),
        (b"$5\r\nAli", Ok(None), 4),
        (b"$3\r\nabcXY", Err(RespError::MissingCrlf), 4),
        (b"$-2\r\n", Err(RespError::NegativeLength), 5),
        (b"*x\r\n", Err(RespError::InvalidLengthInteger), 4),
        (b"*3\r\n:1\r\n+a\r\n?", Err(RespError::InvalidType), 12),
        (b"*2\r\n*2\r\n:1\r\n", Ok(None), 12),
        (b"+no end", Ok(None), 0),
        (b"_ab", Err(RespError::InvalidNull), 0),
        (b"_\r", Ok(None), 0),
    ];
    for (input, expected, pos) in cases {
        let mut c = Cursor::new(input);
        assert_eq!(Frame::parse_cursor(&mut c), expected);
        assert_eq!(c.position(), pos);
    }
}

#[test]
fn copies_of_frames_are_equal() {
    let frame = Frame::Array(Some(vec![
        bulk("a"),
        Frame::Array(Some(vec![Frame::Integer(3), Frame::Null])),
        Frame::Error("e".to_string()),
    ]));
    assert_eq!(frame.clone(), frame);
    assert_eq!(frame.duplicate(), frame);
}

#[test]
fn every_proper_prefix_of_an_encoding_is_incomplete() {
    let frame = Frame::Array(Some(vec![
        bulk("SET"),
        Frame::Integer(-12),
        Frame::SimpleString("ok".to_string()),
        Frame::Array(Some(vec![Frame::Null, Frame::BulkString(None)])),
    ]));
    let bytes = frame.to_bytes();
    for k in 0..bytes.len() {
        let (r, left) = parse_all(&bytes[..k]);
        assert_eq!(r.unwrap(), None);
        assert_eq!(left, bytes[..k].to_vec());
    }
    let (r, left) = parse_all(&bytes);
    assert_eq!(r.unwrap(), Some(frame));
    assert!(left.is_empty());
}

#[test]
fn integers_read_back_as_written() {
    for i in [0i64, 1, -1, 9, 10, 99, 100, -100, 1234567890, i64::MAX, i64::MIN] {
        let (r, _) = parse_all(&Frame::Integer(i).to_bytes());
        assert_eq!(r.unwrap(), Some(Frame::Integer(i)));
    }
}

fn drain(buf: &mut BytesMut, out: &mut Vec<Frame>) {
    while let Ok(Some(frame)) = Frame::parser(buf) {
        out.push(frame);
    }
}

#[test]
fn a_stream_read_in_two_pieces_gives_the_same_frames() {
    let frames = vec![
        Frame::Array(Some(vec![bulk("SET"), bulk("k"), bulk("v")])),
        Frame::Integer(42),
        Frame::SimpleString("OK".to_string()),
        Frame::Null,
        Frame::Array(Some(vec![bulk("GET"), bulk("k")])),
    ];
    let mut stream = Vec::new();
    for f in &frames {
        stream.extend_from_slice(&f.to_bytes());
    }
    for k in 0..=stream.len() {
        let mut buf = BytesMut::from(&stream[..k]);
        let mut got = Vec::new();
        drain(&mut buf, &mut got);
        buf.extend_from_slice(&stream[k..]);
        drain(&mut buf, &mut got);
        assert_eq!(got, frames);
        assert!(buf.is_empty());
    }
}
