use texttv::extract::ParseError;
use texttv::reader::{ResponseReader, CHUNK_SIZE};

#[test]
fn chunks_are_asked_1024_bytes_at_a_time() {
    assert_eq!(CHUNK_SIZE, 1024);
}

#[test]
fn a_short_chunk_ends_the_response() {
    let mut reader = ResponseReader::new();
    assert!(!reader.is_complete());
    assert!(!reader.accept(b"HTTP/1.1 200 OK\r\n\r\nhello"));
    assert!(reader.is_complete());
    assert_eq!(reader.len(), 24);
    assert_eq!(reader.into_text(), Ok("HTTP/1.1 200 OK\r\n\r\nhello".to_string()));
}

#[test]
fn full_chunks_ask_for_more() {
    let mut reader = ResponseReader::new();
    let full = vec![b'a'; CHUNK_SIZE];
    assert!(reader.accept(&full));
    assert!(!reader.is_complete());
    assert!(reader.accept(&full));
    assert!(!reader.is_complete());
    assert!(!reader.accept(&full[..CHUNK_SIZE - 1]));
    assert!(reader.is_complete());
    assert_eq!(reader.len(), 3 * CHUNK_SIZE - 1);
    assert_eq!(reader.into_text(), Ok("a".repeat(3 * CHUNK_SIZE - 1)));
}

#[test]
fn a_response_of_a_multiple_of_the_chunk_size_never_looks_complete() {
    let payload = vec![b'x'; 2 * CHUNK_SIZE];
    let mut reader = ResponseReader::new();
    let mut wants_more = true;
    for chunk in payload.chunks(CHUNK_SIZE) {
        wants_more = reader.accept(chunk);
    }
    // every byte has come in, and the reader still asks for a further read,
    // which would not return before the server closes the connection
    assert_eq!(reader.len(), payload.len());
    assert!(wants_more);
    assert!(!reader.is_complete());
    // the read that returns nothing, as it does once the server has closed
    assert!(!reader.accept(&[]));
    assert!(reader.is_complete());
    assert_eq!(reader.len(), payload.len());
}

#[test]
fn an_empty_read_ends_an_empty_response() {
    let mut reader = ResponseReader::new();
    assert!(!reader.accept(&[]));
    assert!(reader.is_complete());
    assert_eq!(reader.into_text(), Ok(String::new()));
}

#[test]
fn bytes_are_decoded_as_utf8() {
    let mut reader = ResponseReader::new();
    reader.accept("R\u{e4}ksm\u{f6}rg".as_bytes());
    reader.accept("\u{e5}s \u{20ac}".as_bytes());
    assert_eq!(reader.into_text(), Ok("R\u{e4}ksm\u{f6}rg\u{e5}s \u{20ac}".to_string()));
}

#[test]
fn a_character_may_be_split_over_two_chunks() {
    let bytes = "\u{e5}".as_bytes();
    let mut reader = ResponseReader::new();
    reader.accept(&bytes[..1]);
    reader.accept(&bytes[1..]);
    assert_eq!(reader.into_text(), Ok("\u{e5}".to_string()));
}

#[test]
fn bytes_that_are_no_utf8_are_refused() {
    let mut reader = ResponseReader::new();
    reader.accept(&[b'a', 0xff, b'b']);
    assert_eq!(reader.into_text(), Err(ParseError::InvalidText));
    let mut reader = ResponseReader::new();
    reader.accept(&[0xc3]);
    assert_eq!(reader.into_text(), Err(ParseError::InvalidText));
}
