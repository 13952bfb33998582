use amiko::resp::read_byte;
use amiko::resp::read_byte_and_expect;
use amiko::resp::read_number;
use amiko::resp::read_number_unsigned;
use amiko::resp::resp_expect_bulk_string;
use amiko::resp::resp_read_array_header;
use amiko::resp::resp_write_bulk_string;
use amiko::resp::skip_line;
use amiko::resp::write_array_header;
use amiko::resp::write_integer;
use amiko::resp::write_nil_bulk_string;
use amiko::resp::write_simple_error;
use amiko::resp::write_simple_status;
use amiko::resp::MockTcpStream;
use amiko::resp::RespError;

#[test]
fn mock_stream_read_exact_and_eof() {
    let mut stream = MockTcpStream::new(vec![65, 66, 67]);
    let mut buf = vec![0u8; 2];
    assert!(stream.read_exact(&mut buf).is_ok());
    assert_eq!(buf, vec![65, 66]);

    let mut rest = vec![0u8; 2];
    assert_eq!(stream.read_exact(&mut rest), Err(RespError::EndOfInput));
    assert_eq!(rest, vec![0, 0]);

    let mut last = vec![0u8; 1];
    assert!(stream.read_exact(&mut last).is_ok());
    assert_eq!(last, vec![67]);
}

#[test]
fn mock_stream_write_all_appends() {
    let mut stream = MockTcpStream::new(vec![1]);
    assert!(stream.write_all(&[2, 3]).is_ok());
    assert_eq!(stream.into_bytes(), vec![1, 2, 3]);
}

#[test]
fn read_byte_sequence_then_eof() {
    let mut stream = MockTcpStream::new(vec![65, 66]);
    assert_eq!(read_byte(&mut stream), Ok(65));
    assert_eq!(read_byte(&mut stream), Ok(66));
    assert_eq!(read_byte(&mut stream), Err(RespError::EndOfInput));
}

#[test]
fn read_byte_and_expect_mismatch() {
    let mut stream = MockTcpStream::new(vec![36]);
    assert_eq!(read_byte_and_expect(&mut stream, 42), Err(RespError::Protocol));
    assert_eq!(read_byte_and_expect(&mut stream, 36), Ok(()));
    assert_eq!(read_byte_and_expect(&mut stream, 36), Err(RespError::EndOfInput));
}

#[test]
fn skip_line_consumes_through_crlf() {
    let mut stream = MockTcpStream::new(b"junk\r\nX".to_vec());
    assert_eq!(skip_line(&mut stream), Ok(()));
    assert_eq!(read_byte(&mut stream), Ok(88));
}

#[test]
fn skip_line_needs_full_terminator() {
    let mut stream = MockTcpStream::new(b"junk\r".to_vec());
    assert_eq!(skip_line(&mut stream), Err(RespError::EndOfInput));

    let mut stream = MockTcpStream::new(b"junk\rX\r\n".to_vec());
    assert_eq!(skip_line(&mut stream), Err(RespError::Protocol));
}

#[test]
fn read_number_parses_signed_decimals() {
    let mut stream = MockTcpStream::new(b"123\r\n".to_vec());
    assert_eq!(read_number(&mut stream), Ok(123));

    let mut stream = MockTcpStream::new(b"-5\r\n".to_vec());
    assert_eq!(read_number(&mut stream), Ok(-5));

    let mut stream = MockTcpStream::new(b"0\r\n".to_vec());
    assert_eq!(read_number(&mut stream), Ok(0));

    let mut stream = MockTcpStream::new(b"9223372036854775807\r\n".to_vec());
    assert_eq!(read_number(&mut stream), Ok(i64::MAX));
}

#[test]
fn read_number_rejects_bad_input() {
    let mut stream = MockTcpStream::new(b"12x\r\n".to_vec());
    assert_eq!(read_number(&mut stream), Err(RespError::Protocol));

    let mut stream = MockTcpStream::new(b"12".to_vec());
    assert_eq!(read_number(&mut stream), Err(RespError::EndOfInput));

    // One past the largest signed 64-bit value.
    let mut stream = MockTcpStream::new(b"9223372036854775808\r\n".to_vec());
    assert_eq!(read_number(&mut stream), Err(RespError::Protocol));

    // A CR must be followed by LF.
    let mut stream = MockTcpStream::new(b"12\rx".to_vec());
    assert_eq!(read_number(&mut stream), Err(RespError::Protocol));
}

#[test]
fn read_number_unsigned_rejects_negative() {
    let mut stream = MockTcpStream::new(b"7\r\n".to_vec());
    assert_eq!(read_number_unsigned(&mut stream), Ok(7));

    let mut stream = MockTcpStream::new(b"-7\r\n".to_vec());
    assert_eq!(read_number_unsigned(&mut stream), Err(RespError::Protocol));
}

#[test]
fn array_header_round_trip() {
    let mut stream = MockTcpStream::new(b"*3\r\n".to_vec());
    assert_eq!(resp_read_array_header(&mut stream), Ok(3));

    let mut stream = MockTcpStream::new(b"$3\r\n".to_vec());
    assert_eq!(resp_read_array_header(&mut stream), Err(RespError::Protocol));

    let mut out = MockTcpStream::new(vec![]);
    write_array_header(&mut out, 12);
    assert_eq!(out.into_bytes(), b"*12\r\n".to_vec());
}

#[test]
fn bulk_string_read() {
    let mut stream = MockTcpStream::new(b"$5\r\nhello\r\n".to_vec());
    assert_eq!(resp_expect_bulk_string(&mut stream), Ok(b"hello".to_vec()));

    let mut stream = MockTcpStream::new(b"$0\r\n\r\n".to_vec());
    assert_eq!(resp_expect_bulk_string(&mut stream), Ok(vec![]));

    // Truncated payload: more input is needed.
    let mut stream = MockTcpStream::new(b"$5\r\nhel".to_vec());
    assert_eq!(resp_expect_bulk_string(&mut stream), Err(RespError::EndOfInput));

    // Wrong trailing terminator.
    let mut stream = MockTcpStream::new(b"$2\r\nhixx".to_vec());
    assert_eq!(resp_expect_bulk_string(&mut stream), Err(RespError::Protocol));

    // A length over any possible buffer size.
    let mut stream = MockTcpStream::new(b"$99999999999999999999\r\nx\r\n".to_vec());
    assert_eq!(resp_expect_bulk_string(&mut stream), Err(RespError::Protocol));

    // Not a bulk string tag.
    let mut stream = MockTcpStream::new(b"*5\r\n".to_vec());
    assert_eq!(resp_expect_bulk_string(&mut stream), Err(RespError::Protocol));
}

#[test]
fn bulk_string_write() {
    let mut out = MockTcpStream::new(vec![]);
    assert!(resp_write_bulk_string(&mut out, b"value").is_ok());
    assert_eq!(out.into_bytes(), b"$5\r\nvalue\r\n".to_vec());

    let mut out = MockTcpStream::new(vec![]);
    assert!(resp_write_bulk_string(&mut out, &[]).is_ok());
    assert_eq!(out.into_bytes(), b"$0\r\n\r\n".to_vec());
}

#[test]
fn status_error_and_integer_writes() {
    let mut out = MockTcpStream::new(vec![]);
    write_simple_status(&mut out, b"OK");
    assert_eq!(out.into_bytes(), b"+OK\r\n".to_vec());

    let mut out = MockTcpStream::new(vec![]);
    write_simple_error(&mut out, b"ERR boom");
    assert_eq!(out.into_bytes(), b"-ERR boom\r\n".to_vec());

    let mut out = MockTcpStream::new(vec![]);
    write_integer(&mut out, 1);
    write_integer(&mut out, 0);
    write_integer(&mut out, -7);
    assert_eq!(out.into_bytes(), b":1\r\n:0\r\n:-7\r\n".to_vec());

    let mut out = MockTcpStream::new(vec![]);
    write_integer(&mut out, i64::MIN);
    assert_eq!(out.into_bytes(), b":-9223372036854775808\r\n".to_vec());

    let mut out = MockTcpStream::new(vec![]);
    write_nil_bulk_string(&mut out);
    assert_eq!(out.into_bytes(), b"$-1\r\n".to_vec());
}
