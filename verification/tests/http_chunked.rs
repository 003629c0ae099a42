use std::io::{self, Read};
use whatsapp_esp32::http_chunked::{ChunkError, ChunkRead, ChunkedReader, MAX_METADATA_BYTES};

/// A stream read through the decoder, a small buffer at a time.
struct Body<R> {
    inner: R,
    place: ChunkedReader,
    held: Vec<u8>,
    ended: bool,
}

impl<R: Read> Body<R> {
    fn new(inner: R) -> Self {
        Body {
            inner,
            place: ChunkedReader::new(),
            held: Vec::new(),
            ended: false,
        }
    }
}

impl<R: Read> Read for Body<R> {
    fn read(&mut self, buf: &mut [u8]) -> io::Result<usize> {
        loop {
            match self.place.read(&self.held, self.ended, buf.len()) {
                ChunkRead::NeedInput => {
                    let mut chunk = [0u8; 512];
                    let n = self.inner.read(&mut chunk)?;
                    if n == 0 {
                        self.ended = true;
                    }
                    self.held.extend_from_slice(&chunk[..n]);
                }
                ChunkRead::Data { skip, take } => {
                    buf[..take].copy_from_slice(&self.held[skip..skip + take]);
                    self.held.drain(..skip + take);
                    return Ok(take);
                }
                ChunkRead::End { skip } => {
                    self.held.drain(..skip);
                    return Ok(0);
                }
                ChunkRead::Failed { skip, error: e } => {
                    self.held.drain(..skip);
                    let kind = if e.is_unexpected_eof() {
                        io::ErrorKind::UnexpectedEof
                    } else {
                        io::ErrorKind::InvalidData
                    };
                    return Err(io::Error::new(kind, e.message()));
                }
            }
        }
    }
}

fn failure(input: &[u8]) -> io::Error {
    Body::new(input).read_to_end(&mut Vec::new()).unwrap_err()
}

#[test]
fn chunks_extensions_trailers_and_short_reads() {
    let input = b"4;foo=bar\r\nWiki\r\n5\r\npedia\r\n0\r\nX-Checksum: ignored\r\n\r\n";
    let mut reader = Body::new(&input[..]);
    assert_eq!(reader.read(&mut []).unwrap(), 0);
    let mut result = Vec::new();
    let mut buf = [0; 2];
    loop {
        let n = reader.read(&mut buf).unwrap();
        if n == 0 {
            break;
        }
        result.extend_from_slice(&buf[..n]);
    }
    assert_eq!(result, b"Wikipedia");
    assert_eq!(reader.read(&mut buf).unwrap(), 0);
}

#[test]
fn every_truncation_is_an_error() {
    let input = b"3\r\nabc\r\n0\r\nX-Trailer: yes\r\n\r\n";
    for end in 0..input.len() {
        assert!(
            Body::new(&input[..end])
                .read_to_end(&mut Vec::new())
                .is_err(),
            "end={end}"
        );
    }
}

#[test]
fn rejects_invalid_sizes_and_framing() {
    for input in [
        &b"+1\r\na\r\n0\r\n\r\n"[..],
        b" 1\r\na\r\n0\r\n\r\n",
        b"g\r\n",
        b"10000000000000000\r\n",
        b"1\r\naXX0\r\n\r\n",
        b"0\r\ninvalid\r\n\r\n",
    ] {
        assert!(Body::new(input).read_to_end(&mut Vec::new()).is_err());
    }
}

#[test]
fn bounds_metadata_not_chunk_payload() {
    let oversized = vec![b'a'; MAX_METADATA_BYTES + 1];
    assert!(Body::new(oversized.as_slice())
        .read_to_end(&mut Vec::new())
        .is_err());
    let mut input = b"0\r\n".to_vec();
    for _ in 0..2048 {
        input.extend_from_slice(b"X: y\r\n");
    }
    assert!(Body::new(input.as_slice())
        .read_to_end(&mut Vec::new())
        .is_err());
    let mut input = b"3000\r\n".to_vec();
    input.extend_from_slice(&vec![b'x'; 0x3000]);
    input.extend_from_slice(b"\r\n0\r\n\r\n");
    let mut body = Vec::new();
    Body::new(input.as_slice()).read_to_end(&mut body).unwrap();
    assert_eq!(body.len(), 0x3000);
}

#[test]
fn terminal_chunk_does_not_wait_for_socket_close() {
    struct OpenSocket(io::Cursor<Vec<u8>>);
    impl Read for OpenSocket {
        fn read(&mut self, buf: &mut [u8]) -> io::Result<usize> {
            if self.0.position() == self.0.get_ref().len() as u64 {
                panic!("read beyond complete response");
            }
            self.0.read(buf)
        }
    }
    let mut body = Vec::new();
    Body::new(OpenSocket(io::Cursor::new(b"0\r\n\r\n".to_vec())))
        .read_to_end(&mut body)
        .unwrap();
    assert!(body.is_empty());
}

#[test]
fn each_chunk_failure_has_its_words() {
    assert_eq!(
        failure(b"3").to_string(),
        "Truncated or oversized HTTP chunk metadata"
    );
    assert_eq!(
        failure(b"3\nabc").to_string(),
        "Truncated or oversized HTTP chunk metadata"
    );
    assert_eq!(
        failure(b"1\r\naXX0\r\n\r\n").to_string(),
        "Invalid chunk terminator"
    );
    assert_eq!(failure(b"\r\n").to_string(), "Invalid HTTP chunk size");
    assert_eq!(
        failure(b"10000000000000000\r\n").to_string(),
        "number too large to fit in target type"
    );
    assert_eq!(
        failure(b"0\r\ninvalid\r\n\r\n").to_string(),
        "Invalid HTTP trailer"
    );
    let cut = failure(b"1\r\na\r");
    assert_eq!(cut.kind(), io::ErrorKind::UnexpectedEof);
    assert_eq!(cut.to_string(), "failed to fill whole buffer");
    let short = failure(b"5\r\nab");
    assert_eq!(short.kind(), io::ErrorKind::UnexpectedEof);
    assert_eq!(short.to_string(), "Truncated HTTP chunk");
}

#[test]
fn a_waiting_read_leaves_the_reader_where_it_was() {
    let mut reader = ChunkedReader::new();
    assert_eq!(reader.read(b"4;x", false, 8), ChunkRead::NeedInput);
    assert_eq!(reader, ChunkedReader::new());
    assert_eq!(
        reader.read(b"4\r\nab", false, 8),
        ChunkRead::Data { skip: 3, take: 2 }
    );
    assert_eq!(reader.remaining, 2);
    assert!(reader.needs_crlf);
}

#[test]
fn a_read_after_a_failure_goes_on_behind_it() {
    let read_on = |input: &[u8]| {
        let mut body = Body::new(input);
        let mut buf = [0; 8];
        let mut said = Vec::new();
        for _ in 0..4 {
            said.push(match body.read(&mut buf) {
                Ok(n) => String::from_utf8(buf[..n].to_vec()).unwrap(),
                Err(e) => e.to_string(),
            });
        }
        said
    };
    let size = "Invalid HTTP chunk size";
    let metadata = "Truncated or oversized HTTP chunk metadata";
    let terminator = "Invalid chunk terminator";
    let cut = "failed to fill whole buffer";
    assert_eq!(read_on(b"z\r\n1\r\na\r\n0\r\n\r\n"), [size, "a", "", ""]);
    assert_eq!(read_on(b"x\n1\r\na\r\n0\r\n\r\n"), [metadata, "a", "", ""]);
    assert_eq!(
        read_on(b"10000000000000000\r\n1\r\na\r\n0\r\n\r\n"),
        ["number too large to fit in target type", "a", "", ""]
    );
    // Two wrong bytes are passed over, and a line end is still due.
    assert_eq!(read_on(b"1\r\naXX\r\n1\r\nb"), ["a", terminator, "b", cut]);
    assert_eq!(
        read_on(b"1\r\na\r\nz\r\n\r\n1\r\nb"),
        ["a", size, "b", cut]
    );
    // After a trailer that is refused a size line is read again.
    assert_eq!(
        read_on(b"0\r\nA: b\r\nbad\r\n1\r\na"),
        ["Invalid HTTP trailer", "a", cut, cut]
    );
    assert_eq!(
        read_on(b"5\r\n"),
        ["Truncated HTTP chunk"; 4]
    );
    assert_eq!(read_on(b"5"), [metadata; 4]);
    let mut reader = ChunkedReader::new();
    assert_eq!(
        reader.read(b"5\r\n", true, 8),
        ChunkRead::Failed {
            skip: 3,
            error: ChunkError::Payload
        }
    );
    assert_eq!(reader.remaining, 5);
    assert!(reader.needs_crlf);
}

#[test]
fn sizes_are_hexadecimal_in_either_case() {
    let mut reader = ChunkedReader::new();
    assert_eq!(
        reader.read(b"000aF;ext\r\n0123456789", false, 100),
        ChunkRead::Data { skip: 11, take: 10 }
    );
    assert_eq!(reader.remaining, 0xaf - 10);
}

#[test]
fn the_size_line_may_fill_its_limit() {
    // Eight kilobytes of size line and line end are accepted, one byte more is not.
    let mut line = b"1;".to_vec();
    line.resize(MAX_METADATA_BYTES - 2, b'x');
    line.extend_from_slice(b"\r\na");
    let mut reader = ChunkedReader::new();
    assert_eq!(
        reader.read(&line, false, 1),
        ChunkRead::Data {
            skip: MAX_METADATA_BYTES,
            take: 1
        }
    );
    line.insert(2, b'x');
    assert_eq!(
        ChunkedReader::new().read(&line, false, 1),
        ChunkRead::Failed {
            skip: MAX_METADATA_BYTES,
            error: ChunkError::Metadata
        }
    );
}

#[test]
fn pieces_of_any_size_give_the_same_body() {
    let input = b"4\r\nWiki\r\n5\r\npedia\r\n0\r\n\r\nnext";
    for size in 1..input.len() {
        let mut place = ChunkedReader::new();
        let mut held: Vec<u8> = Vec::new();
        let mut body: Vec<u8> = Vec::new();
        let mut rest = &input[..];
        loop {
            match place.read(&held, false, 3) {
                ChunkRead::NeedInput => {
                    let n = size.min(rest.len());
                    held.extend_from_slice(&rest[..n]);
                    rest = &rest[n..];
                }
                ChunkRead::Data { skip, take } => {
                    body.extend_from_slice(&held[skip..skip + take]);
                    held.drain(..skip + take);
                }
                ChunkRead::End { skip } => {
                    held.drain(..skip);
                    break;
                }
                ChunkRead::Failed { error, .. } => panic!("{error:?}"),
            }
        }
        assert_eq!(body, b"Wikipedia");
        held.extend_from_slice(rest);
        assert_eq!(held, b"next", "what follows the body is left");
    }
}
