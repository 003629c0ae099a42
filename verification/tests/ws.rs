use base64::engine::general_purpose::STANDARD as BASE64;
use base64::Engine;
use std::collections::VecDeque;
use std::io::{self, Read, Write};
use whatsapp_esp32::ws::{
    parse_close, Frame, Limits, OutboundFrame, WsClient, WsError, OP_BINARY, OP_CLOSE,
    OP_CONTINUATION, OP_PING, OP_PONG, OP_TEXT,
};
use whatsapp_esp32::ws_handshake::{
    expected_accept, verify_upgrade, Handshake, HandshakeError, HandshakeEvent,
    HANDSHAKE_TIMEOUT_US,
};

/// A scripted peer: reads come from `inbound` in the exact chunks given
/// (so partial reads and would-blocks are reproducible), writes land in
/// `outbound`.
struct Script {
    inbound: VecDeque<io::Result<Vec<u8>>>,
    outbound: Vec<u8>,
}

impl Script {
    fn new() -> Self {
        Self {
            inbound: VecDeque::new(),
            outbound: Vec::new(),
        }
    }
    fn chunk(mut self, bytes: &[u8]) -> Self {
        self.inbound.push_back(Ok(bytes.to_vec()));
        self
    }
    fn would_block(mut self) -> Self {
        self.inbound
            .push_back(Err(io::Error::from(io::ErrorKind::WouldBlock)));
        self
    }
}

impl Read for Script {
    fn read(&mut self, buf: &mut [u8]) -> io::Result<usize> {
        match self.inbound.pop_front() {
            Some(Ok(chunk)) => {
                let n = chunk.len().min(buf.len());
                buf[..n].copy_from_slice(&chunk[..n]);
                if n < chunk.len() {
                    self.inbound.push_front(Ok(chunk[n..].to_vec()));
                }
                Ok(n)
            }
            Some(Err(e)) => Err(e),
            None => Ok(0),
        }
    }
}

impl Write for Script {
    fn write(&mut self, buf: &[u8]) -> io::Result<usize> {
        self.outbound.extend_from_slice(buf);
        Ok(buf.len())
    }
    fn flush(&mut self) -> io::Result<()> {
        Ok(())
    }
}

fn is_would_block(e: &io::Error) -> bool {
    matches!(
        e.kind(),
        io::ErrorKind::WouldBlock | io::ErrorKind::TimedOut | io::ErrorKind::Interrupted
    )
}

fn invalid(text: &str) -> io::Error {
    io::Error::new(io::ErrorKind::InvalidData, text)
}

/// The client with its stream driven as a connection would be.
struct Socket {
    ws: WsClient<Script>,
    fill_random: fn(&mut [u8]),
}

impl Socket {
    fn connect(
        mut stream: Script,
        host: &str,
        path: &str,
        origin: &str,
        limits: Limits,
        fill_random: fn(&mut [u8]),
    ) -> io::Result<Socket> {
        let mut nonce = [0u8; 16];
        fill_random(&mut nonce);
        let (mut handshake, request) = Handshake::start(host, path, origin, nonce, 0);
        stream.write_all(request.as_bytes())?;
        let mut now = 0u64;
        loop {
            let mut chunk = [0u8; 256];
            let outcome = match stream.read(&mut chunk) {
                Ok(0) => handshake.advance(HandshakeEvent::Closed),
                Ok(n) => handshake.advance(HandshakeEvent::Data(&chunk[..n])),
                Err(e) if is_would_block(&e) => {
                    now += 1_000_000;
                    handshake.advance(HandshakeEvent::WouldBlock { now })
                }
                Err(e) => return Err(e),
            };
            if outcome.map_err(|e| invalid(&e.message()))? {
                break;
            }
        }
        let ws = WsClient::connect(stream, handshake, limits).map_err(|e| invalid(&e.message()))?;
        Ok(Socket { ws, fill_random })
    }

    fn read_frame(&mut self) -> io::Result<Option<Frame>> {
        loop {
            let mut chunk = [0u8; 1024];
            let want = self.ws.wanted().min(chunk.len());
            let mut n = 0;
            if want > 0 {
                n = match self.ws.get_mut().read(&mut chunk[..want]) {
                    Ok(0) => {
                        return Err(io::Error::new(
                            io::ErrorKind::UnexpectedEof,
                            "websocket: connection closed",
                        ))
                    }
                    Ok(n) => n,
                    Err(e) if is_would_block(&e) => return Ok(None),
                    Err(e) => return Err(e),
                };
            }
            let (taken, outcome) = self.ws.read_frame(&chunk[..n]);
            assert_eq!(taken, n, "what is wanted is taken");
            if let Some(frame) = outcome.map_err(|e| invalid(e.message()))? {
                return Ok(Some(frame));
            }
        }
    }

    fn mask(&self) -> [u8; 4] {
        let mut mask = [0u8; 4];
        (self.fill_random)(&mut mask);
        mask
    }

    fn send_binary(&mut self, payload: &[u8]) -> Result<(), WsError> {
        let mut frame = self.ws.send_binary(payload, self.mask())?;
        write_out(&mut frame, self.ws.get_mut());
        Ok(())
    }

    fn send_pong(&mut self, payload: &[u8]) -> Result<(), WsError> {
        let mut frame = self.ws.send_pong(payload, self.mask())?;
        write_out(&mut frame, self.ws.get_mut());
        Ok(())
    }

    fn send_close(&mut self, code: u16) {
        let frame = self.ws.send_close(code, self.mask());
        self.ws.get_mut().outbound.extend_from_slice(&frame);
    }

    fn sent(&mut self) -> Vec<u8> {
        std::mem::take(&mut self.ws.get_mut().outbound)
    }
}

fn write_out(frame: &mut OutboundFrame<'_>, stream: &mut Script) {
    let mut block = [0u8; 256];
    loop {
        let n = frame.next_block(&mut block);
        if n == 0 {
            break;
        }
        stream.write_all(&block[..n]).unwrap();
    }
}

fn zero_random(buf: &mut [u8]) {
    buf.fill(0);
}

fn limits() -> Limits {
    Limits {
        max_frame_size: 32 * 1024,
        max_message_size: 32 * 1024,
    }
}

/// The key a zeroed nonce produces, and the accept that answers it.
const ZERO_KEY: &str = "AAAAAAAAAAAAAAAAAAAAAA==";

fn upgrade_response(extra: &[u8]) -> Vec<u8> {
    let mut v = format!(
        "HTTP/1.1 101 Switching Protocols\r\n\
         Upgrade: websocket\r\n\
         Connection: Upgrade\r\n\
         Sec-WebSocket-Accept: {}\r\n\
         \r\n",
        expected_accept(ZERO_KEY)
    )
    .into_bytes();
    v.extend_from_slice(extra);
    v
}

/// An unmasked server frame, as the server would send it.
fn server_frame(fin: bool, opcode: u8, payload: &[u8]) -> Vec<u8> {
    let mut v = vec![(if fin { 0x80 } else { 0 }) | opcode];
    let len = payload.len();
    if len <= 125 {
        v.push(len as u8);
    } else if len <= 0xFFFF {
        v.push(126);
        v.extend_from_slice(&(len as u16).to_be_bytes());
    } else {
        v.push(127);
        v.extend_from_slice(&(len as u64).to_be_bytes());
    }
    v.extend_from_slice(payload);
    v
}

fn connect(script: Script) -> Socket {
    Socket::connect(
        script,
        "example.test",
        "/ws",
        "https://example.test",
        limits(),
        zero_random,
    )
    .expect("handshake")
}

#[test]
fn accept_value_matches_rfc_example() {
    // RFC 6455 §1.3 worked example.
    assert_eq!(
        expected_accept("dGhlIHNhbXBsZSBub25jZQ=="),
        "s3pPLMBiTxaQ9kYGzzhZRbK+xOo="
    );
}

#[test]
fn handshake_sends_a_well_formed_request_and_accepts_101() {
    let mut ws = connect(Script::new().chunk(&upgrade_response(b"")));
    let req = String::from_utf8(ws.sent()).unwrap();
    assert!(req.starts_with("GET /ws HTTP/1.1\r\n"));
    assert!(req.contains("Host: example.test\r\n"));
    assert!(req.contains("Upgrade: websocket\r\n"));
    assert!(req.contains(&format!("Sec-WebSocket-Key: {ZERO_KEY}\r\n")));
    assert!(req.contains("Sec-WebSocket-Version: 13\r\n"));
    assert!(req.ends_with("\r\n\r\n"));
}

#[test]
fn handshake_rejects_a_wrong_accept() {
    let bad = upgrade_response(b"").replace_accept("nope");
    let err = Socket::connect(
        Script::new().chunk(&bad),
        "h",
        "/",
        "o",
        limits(),
        zero_random,
    )
    .err()
    .expect("must fail");
    assert!(err.to_string().contains("Sec-WebSocket-Accept"));
}

#[test]
fn handshake_rejects_a_non_101() {
    let resp = b"HTTP/1.1 403 Forbidden\r\nContent-Length: 0\r\n\r\n";
    let err = Socket::connect(
        Script::new().chunk(resp),
        "h",
        "/",
        "o",
        limits(),
        zero_random,
    )
    .err()
    .expect("must fail");
    assert!(err.to_string().contains("403"));
}

#[test]
fn bytes_after_the_upgrade_are_the_first_frame() {
    let frame = server_frame(true, OP_BINARY, b"hello");
    let mut ws = connect(Script::new().chunk(&upgrade_response(&frame)));
    match ws.read_frame().unwrap() {
        Some(Frame::Binary(b)) => assert_eq!(&b[..], b"hello"),
        other => panic!("unexpected {other:?}"),
    }
}

#[test]
fn a_frame_split_across_reads_and_would_blocks_is_reassembled() {
    let payload: Vec<u8> = (0..300u32).map(|i| i as u8).collect();
    let frame = server_frame(true, OP_BINARY, &payload);
    // Split inside the header, then inside the payload, with a would-block
    // between every piece.
    let script = Script::new()
        .chunk(&upgrade_response(b""))
        .chunk(&frame[..1])
        .would_block()
        .chunk(&frame[1..3])
        .would_block()
        .chunk(&frame[3..100])
        .would_block()
        .chunk(&frame[100..]);
    let mut ws = connect(script);
    assert!(ws.read_frame().unwrap().is_none());
    assert!(ws.read_frame().unwrap().is_none());
    assert!(ws.read_frame().unwrap().is_none());
    match ws.read_frame().unwrap() {
        Some(Frame::Binary(b)) => assert_eq!(&b[..], &payload[..]),
        other => panic!("unexpected {other:?}"),
    }
}

#[test]
fn a_binary_payload_is_handed_over_with_exactly_one_owner() {
    let payload = vec![7u8; 28_204];
    let frame = server_frame(true, OP_BINARY, &payload);
    let mut ws = connect(Script::new().chunk(&upgrade_response(b"")).chunk(&frame));
    let Some(Frame::Binary(bytes)) = ws.read_frame().unwrap() else {
        panic!("expected binary");
    };
    // Unique ownership is what lets a decoder decrypt in place.
    let owned = bytes.try_into_mut().expect("no other reference exists");
    assert_eq!(owned.len(), 28_204);
    assert_eq!(
        owned.capacity(),
        28_204,
        "allocated at exactly the declared size"
    );
}

#[test]
fn fragments_are_reassembled_and_control_frames_may_interleave() {
    let script = Script::new()
        .chunk(&upgrade_response(b""))
        .chunk(&server_frame(false, OP_BINARY, b"ab"))
        .chunk(&server_frame(true, OP_PING, b"p"))
        .chunk(&server_frame(false, OP_CONTINUATION, b"cd"))
        .chunk(&server_frame(true, OP_CONTINUATION, b"e"));
    let mut ws = connect(script);
    match ws.read_frame().unwrap() {
        Some(Frame::Ping(p)) => assert_eq!(&p[..], b"p"),
        other => panic!("unexpected {other:?}"),
    }
    match ws.read_frame().unwrap() {
        Some(Frame::Binary(b)) => assert_eq!(&b[..], b"abcde"),
        other => panic!("unexpected {other:?}"),
    }
}

#[test]
fn close_frame_is_parsed() {
    let mut body = 1001u16.to_be_bytes().to_vec();
    body.extend_from_slice(b"going away");
    let mut ws = connect(
        Script::new()
            .chunk(&upgrade_response(b""))
            .chunk(&server_frame(true, OP_CLOSE, &body)),
    );
    match ws.read_frame().unwrap() {
        Some(Frame::Close(Some((1001, r)))) => assert_eq!(r, "going away"),
        other => panic!("unexpected {other:?}"),
    }
}

#[test]
fn masked_server_frames_and_oversize_frames_are_protocol_errors() {
    let mut masked = server_frame(true, OP_BINARY, b"x");
    masked[1] |= 0x80;
    let mut ws = connect(Script::new().chunk(&upgrade_response(b"")).chunk(&masked));
    assert!(ws.read_frame().unwrap_err().to_string().contains("masked"));

    let big = server_frame(true, OP_BINARY, &vec![0u8; 32 * 1024 + 1]);
    let mut ws = connect(
        Script::new()
            .chunk(&upgrade_response(b""))
            .chunk(&big[..12]),
    );
    // The header alone is enough to refuse it: nothing is allocated.
    assert!(ws
        .read_frame()
        .unwrap_err()
        .to_string()
        .contains("size limit"));
}

#[test]
fn fragmented_message_over_the_limit_is_refused_before_the_last_fragment() {
    let half = vec![0u8; 20 * 1024];
    let script = Script::new()
        .chunk(&upgrade_response(b""))
        .chunk(&server_frame(false, OP_BINARY, &half))
        .chunk(&server_frame(true, OP_CONTINUATION, &half)[..12]);
    let mut ws = connect(script);
    // The first fragment produces no frame, so the same call goes on to
    // the next header and refuses it there: one call, one error, and the
    // second 20 KB is never allocated.
    assert!(ws
        .read_frame()
        .unwrap_err()
        .to_string()
        .contains("size limit"));
}

#[test]
fn outbound_frames_are_masked_with_a_final_bit_and_the_right_length_form() {
    let mut ws = connect(Script::new().chunk(&upgrade_response(b"")));
    ws.sent();
    ws.send_binary(&[1, 2, 3]).unwrap();
    // Mask is all zeros under `zero_random`, so payload bytes pass through.
    assert_eq!(&ws.sent()[..], &[0x82, 0x83, 0, 0, 0, 0, 1, 2, 3]);

    ws.send_binary(&[9u8; 300]).unwrap();
    let out = ws.sent();
    assert_eq!(&out[..4], &[0x82, 0x80 | 126, 0x01, 0x2C]);
    assert_eq!(out.len(), 2 + 2 + 4 + 300);

    ws.send_close(1000);
    assert_eq!(&ws.sent()[..], &[0x88, 0x82, 0, 0, 0, 0, 0x03, 0xE8]);
}

fn fixed_random(buf: &mut [u8]) {
    for (i, b) in buf.iter_mut().enumerate() {
        *b = [0x11, 0x22, 0x33, 0x44][i & 3];
    }
}

fn connect_fixed() -> Socket {
    Socket::connect(
        Script::new().chunk(&{
            let mut v = format!(
                "HTTP/1.1 101 x\r\nUpgrade: websocket\r\nConnection: Upgrade\r\nSec-WebSocket-Accept: {}\r\n\r\n",
                expected_accept(&BASE64.encode({
                    let mut n = [0u8; 16];
                    fixed_random(&mut n);
                    n
                }))
            )
            .into_bytes();
            v.truncate(v.len());
            v
        }),
        "h",
        "/",
        "o",
        limits(),
        fixed_random,
    )
    .expect("handshake")
}

#[test]
fn masking_applies_the_key_cyclically_across_chunks() {
    let mut ws = connect_fixed();
    ws.sent();
    let payload: Vec<u8> = (0..600u32).map(|i| (i * 7) as u8).collect();
    ws.send_binary(&payload).unwrap();
    let out = ws.sent();
    let mask = &out[4..8];
    assert_eq!(mask, &[0x11, 0x22, 0x33, 0x44]);
    for (i, b) in out[8..].iter().enumerate() {
        assert_eq!(*b, payload[i] ^ mask[i & 3], "byte {i}");
    }
}

trait ReplaceAccept {
    fn replace_accept(self, with: &str) -> Vec<u8>;
}
impl ReplaceAccept for Vec<u8> {
    fn replace_accept(self, with: &str) -> Vec<u8> {
        let s = String::from_utf8(self).unwrap();
        let good = expected_accept(ZERO_KEY);
        s.replace(&good, with).into_bytes()
    }
}

#[test]
fn the_whole_upgrade_request_is_as_expected() {
    let (_, request) = Handshake::start("h.example", "/ws/chat", "https://h.example", [0; 16], 0);
    assert_eq!(
        request,
        "GET /ws/chat HTTP/1.1\r\nHost: h.example\r\nUpgrade: websocket\r\n\
         Connection: Upgrade\r\nSec-WebSocket-Key: AAAAAAAAAAAAAAAAAAAAAA==\r\n\
         Sec-WebSocket-Version: 13\r\nOrigin: https://h.example\r\n\r\n"
    );
}

fn head(lines: &[&str]) -> String {
    lines.join("\r\n")
}

#[test]
fn upgrade_headers_are_each_required() {
    let accept = format!("Sec-WebSocket-Accept:  {} ", expected_accept(ZERO_KEY));
    let status = "HTTP/1.1 101 ok";
    let good = head(&[
        status,
        "UPGRADE: WebSocket",
        "connection: keep-alive , Upgrade",
        &accept,
    ]);
    assert!(verify_upgrade(&good, ZERO_KEY).is_ok());
    let refused = |lines: &[&str]| verify_upgrade(&head(lines), ZERO_KEY).unwrap_err().message();
    assert_eq!(
        refused(&["HTTP/1.0 101 ok"]),
        "websocket: malformed status line"
    );
    assert_eq!(refused(&["HTTP/1.1 10"]), "websocket: malformed status line");
    assert_eq!(
        refused(&["HTTP/1.1 a\u{20ac}"]),
        "websocket: malformed status line",
        "three bytes end within a character"
    );
    assert_eq!(
        refused(&["HTTP/1.1 403 Forbidden"]),
        "websocket: upgrade refused: HTTP/1.1 403 Forbidden"
    );
    assert_eq!(
        refused(&[status, "Connection: Upgrade", &accept]),
        "websocket: missing `Upgrade: websocket`"
    );
    assert_eq!(
        refused(&[status, "Upgrade: websocket", "Connection: close", &accept]),
        "websocket: missing `Connection: Upgrade`"
    );
    assert_eq!(
        refused(&[status, "Upgrade: websocket", "Connection: Upgrade"]),
        "websocket: missing Sec-WebSocket-Accept"
    );
    assert_eq!(
        refused(&[
            status,
            "Upgrade: websocket",
            "Connection: Upgrade",
            &accept,
            "Sec-WebSocket-Accept: nope"
        ]),
        "websocket: Sec-WebSocket-Accept does not match",
        "the last of two counts"
    );
    assert_eq!(
        refused(&[
            status,
            "Upgrade: websocket",
            "Upgrade: h2c",
            "Connection: Upgrade",
            &accept
        ]),
        "websocket: missing `Upgrade: websocket`"
    );
}

#[test]
fn a_handshake_ends_when_it_is_closed_late_or_too_large() {
    let (mut handshake, _) = Handshake::start("h", "/", "o", [0; 16], 5);
    assert!(matches!(
        handshake.advance(HandshakeEvent::WouldBlock {
            now: 4 + HANDSHAKE_TIMEOUT_US
        }),
        Ok(false)
    ));
    assert!(matches!(
        handshake.advance(HandshakeEvent::WouldBlock {
            now: 5 + HANDSHAKE_TIMEOUT_US
        }),
        Err(HandshakeError::TimedOut)
    ));
    assert!(matches!(
        handshake.advance(HandshakeEvent::Closed),
        Err(HandshakeError::Closed)
    ));
    assert!(matches!(
        handshake.advance(HandshakeEvent::Data(&[b'x'; 4095])),
        Ok(false)
    ));
    assert!(matches!(
        handshake.advance(HandshakeEvent::Data(b"y")),
        Err(HandshakeError::ResponseTooLarge)
    ));
    assert!(matches!(
        handshake.advance(HandshakeEvent::Data(b"\r\n\r\n")),
        Ok(true)
    ));
}

#[test]
fn a_response_that_is_no_text_is_refused() {
    let (mut handshake, _) = Handshake::start("h", "/", "o", [0; 16], 0);
    assert!(matches!(
        handshake.advance(HandshakeEvent::Data(b"HTTP/1.1 101 \xff\r\n\r\n")),
        Ok(true)
    ));
    let err = WsClient::connect((), handshake, limits()).err().unwrap();
    assert_eq!(err.message(), "websocket: handshake response is not ASCII");
}

fn refusal(frames: &[u8]) -> String {
    let mut ws = connect(
        Script::new()
            .chunk(&upgrade_response(b""))
            .chunk(frames),
    );
    ws.read_frame().unwrap_err().to_string()
}

#[test]
fn each_frame_refusal_has_its_words() {
    assert_eq!(refusal(&[0xC2, 0]), "websocket: reserved bits set");
    assert_eq!(refusal(&[0x82, 0x80]), "websocket: server frame is masked");
    assert_eq!(refusal(&[0x83, 0]), "websocket: reserved opcode");
    assert_eq!(
        refusal(&[0x09, 0]),
        "websocket: fragmented control frame"
    );
    assert_eq!(
        refusal(&[0x89, 126, 0, 126]),
        "websocket: control frame payload over 125 bytes"
    );
    assert_eq!(
        refusal(&[0x80, 0]),
        "websocket: continuation frame without a message"
    );
    assert_eq!(
        refusal(&[0x02, 1, 7, 0x82, 0]),
        "websocket: new data frame inside a fragmented message"
    );
    assert_eq!(
        refusal(&[0x82, 127, 0xff, 0xff, 0xff, 0xff, 0xff, 0xff, 0xff, 0xff]),
        "websocket: frame over the size limit"
    );
    assert_eq!(
        refusal(&[0x88, 1, 3]),
        "websocket: close frame with a 1-byte payload"
    );
    assert_eq!(
        refusal(&[0x88, 3, 3, 0xe8, 0xff]),
        "websocket: close reason is not UTF-8"
    );
    let mut small = limits();
    small.max_message_size = 4;
    let mut ws = Socket::connect(
        Script::new()
            .chunk(&upgrade_response(b""))
            .chunk(&server_frame(false, OP_TEXT, b"abcde")),
        "h",
        "/",
        "o",
        small,
        zero_random,
    )
    .unwrap();
    assert_eq!(
        ws.read_frame().unwrap_err().to_string(),
        "websocket: fragmented message over the size limit"
    );
    assert_eq!(
        WsError::LengthOverflow.message(),
        "websocket: frame length overflows usize"
    );
}

#[test]
fn frames_at_the_limits_are_accepted() {
    let payload = vec![3u8; 32 * 1024];
    let mut ws = connect(
        Script::new()
            .chunk(&upgrade_response(b""))
            .chunk(&server_frame(true, OP_TEXT, &payload))
            .chunk(&server_frame(true, OP_PONG, &[4u8; 125]))
            .chunk(&server_frame(true, OP_CLOSE, b"")),
    );
    assert!(matches!(ws.read_frame().unwrap(), Some(Frame::Text(b)) if b[..] == payload[..]));
    assert!(matches!(ws.read_frame().unwrap(), Some(Frame::Pong(b)) if b.len() == 125));
    assert!(matches!(ws.read_frame().unwrap(), Some(Frame::Close(None))));
}

#[test]
fn pieces_of_a_stream_do_not_matter() {
    let mut stream = server_frame(false, OP_BINARY, b"first ");
    stream.extend(server_frame(true, OP_PING, b"?"));
    stream.extend(server_frame(true, OP_CONTINUATION, &[b'x'; 200]));
    for size in 1..stream.len() {
        let mut ws = connect(Script::new().chunk(&upgrade_response(b""))).ws;
        let mut frames = Vec::new();
        for piece in stream.chunks(size) {
            let mut rest = piece;
            loop {
                let (n, outcome) = ws.read_frame(rest);
                rest = &rest[n..];
                match outcome.unwrap() {
                    Some(frame) => frames.push(frame),
                    None => break,
                }
            }
            assert!(rest.is_empty());
        }
        assert_eq!(frames.len(), 2);
        assert!(matches!(&frames[0], Frame::Ping(p) if p[..] == b"?"[..]));
        assert!(matches!(&frames[1], Frame::Binary(b) if b.len() == 206 && b[..6] == b"first "[..]));
    }
}

#[test]
fn masked_frames_unmask_to_what_was_sent() {
    let mut ws = connect_fixed();
    ws.sent();
    let payload: Vec<u8> = (0..70_000u32).map(|i| i as u8).collect();
    ws.send_binary(&payload).unwrap();
    let out = ws.sent();
    assert_eq!(&out[..10], &[0x82, 0xff, 0, 0, 0, 0, 0, 1, 0x11, 0x70]);
    let back: Vec<u8> = out[14..]
        .iter()
        .enumerate()
        .map(|(i, b)| b ^ out[10 + (i & 3)])
        .collect();
    assert_eq!(back, payload);
}

#[test]
fn pongs_are_bounded_like_any_control_frame() {
    let mut ws = connect(Script::new().chunk(&upgrade_response(b"")));
    ws.sent();
    ws.send_pong(b"hi").unwrap();
    assert_eq!(&ws.sent()[..], &[0x8A, 0x82, 0, 0, 0, 0, b'h', b'i']);
    assert_eq!(ws.send_pong(&[0; 126]).unwrap_err(), WsError::ControlTooLong);
}

#[test]
fn a_close_without_a_body_has_no_code() {
    assert_eq!(parse_close(b"").unwrap(), None);
    assert_eq!(
        parse_close(&[0x03, 0xE9, b'o', b'k']).unwrap(),
        Some((1001, "ok".to_string()))
    );
}

#[test]
fn a_refused_header_stays_refused() {
    let mut ws = connect(
        Script::new()
            .chunk(&upgrade_response(b""))
            .chunk(&[0xC2, 0, 1, 2]),
    );
    assert!(ws.read_frame().is_err());
    assert!(ws.read_frame().is_err());
}

#[test]
fn every_message_comes_once_and_in_order() {
    let mut stream = Vec::new();
    for i in 0..200u8 {
        stream.extend(server_frame(true, OP_BINARY, &vec![i; i as usize]));
    }
    let mut ws = connect(Script::new().chunk(&upgrade_response(&stream)));
    for i in 0..200u8 {
        match ws.read_frame().unwrap() {
            Some(Frame::Binary(b)) => assert_eq!(&b[..], &vec![i; i as usize][..]),
            other => panic!("unexpected {other:?}"),
        }
    }
    assert_eq!(
        ws.read_frame().unwrap_err().kind(),
        io::ErrorKind::UnexpectedEof
    );
}

#[test]
fn the_key_of_a_handshake_is_its_nonce_in_base64() {
    let (_, request) = Handshake::start("h", "/", "o", *b"the sample nonce", 0);
    assert!(request.contains("Sec-WebSocket-Key: dGhlIHNhbXBsZSBub25jZQ==\r\n"));
}
