//! The HTTP upgrade that turns a connected stream into a WebSocket.

use crate::digest::{base64, base64_text, sha1, sha1_hash};
use crate::scan::{blank_line_from, find_header_end, header_blocks_stay, to_vec};
use crate::text::{
    begins_with, chars_in_bytes, chars_of, eq_ignore_case, field_name, field_value,
    filling_characters_fill, front_bytes, has_colon, pieces, same_ignoring_case, same_text,
    split_at_char, split_at_crlf, split_char, split_crlf, split_field, string_of,
    texts_are_split_at_the_separator, trim, trimmed, utf8_len, utf8_text,
};
use crate::ws::{Limits, WsClient};
use vstd::prelude::*;
use vstd::utf8::{decode_utf8, encode_utf8, valid_utf8};

verus! {

/// A response header block larger than this is not a WebSocket server answering.
pub const MAX_HANDSHAKE_BYTES: usize = 4096;

/// Bound, in microseconds, on waiting for the `101` after the request was sent.
pub const HANDSHAKE_TIMEOUT_US: u64 = 15_000_000;

/// What the server appends to the client key before it hashes it.
pub const ACCEPT_GUID: &'static str = "258EAFA5-E914-47DA-95CA-C5AB0DC85B11";

/// Why an upgrade failed.
#[derive(Debug)]
pub enum HandshakeError {
    ResponseTooLarge,
    Closed,
    TimedOut,
    NotText,
    MalformedStatusLine,
    /// The status line of a response other than `101`.
    Refused(String),
    MissingUpgrade,
    MissingConnection,
    WrongAccept,
    MissingAccept,
}

/// Why an upgrade failed.
pub enum HandshakeFault {
    ResponseTooLarge,
    Closed,
    TimedOut,
    NotText,
    MalformedStatusLine,
    Refused(Seq<char>),
    MissingUpgrade,
    MissingConnection,
    WrongAccept,
    MissingAccept,
}

impl View for HandshakeError {
    type V = HandshakeFault;

    open spec fn view(&self) -> HandshakeFault {
        match *self {
            HandshakeError::ResponseTooLarge => HandshakeFault::ResponseTooLarge,
            HandshakeError::Closed => HandshakeFault::Closed,
            HandshakeError::TimedOut => HandshakeFault::TimedOut,
            HandshakeError::NotText => HandshakeFault::NotText,
            HandshakeError::MalformedStatusLine => HandshakeFault::MalformedStatusLine,
            HandshakeError::Refused(status) => HandshakeFault::Refused(status@),
            HandshakeError::MissingUpgrade => HandshakeFault::MissingUpgrade,
            HandshakeError::MissingConnection => HandshakeFault::MissingConnection,
            HandshakeError::WrongAccept => HandshakeFault::WrongAccept,
            HandshakeError::MissingAccept => HandshakeFault::MissingAccept,
        }
    }
}

impl HandshakeFault {
    /// The sentence for `HandshakeError::message`.
    pub open spec fn message(self) -> Seq<char> {
        match self {
            HandshakeFault::ResponseTooLarge => "websocket: handshake response too large"@,
            HandshakeFault::Closed => "websocket: connection closed during handshake"@,
            HandshakeFault::TimedOut => "websocket: handshake timed out"@,
            HandshakeFault::NotText => "websocket: handshake response is not ASCII"@,
            HandshakeFault::MalformedStatusLine => "websocket: malformed status line"@,
            HandshakeFault::Refused(status) => "websocket: upgrade refused: "@ + status,
            HandshakeFault::MissingUpgrade => "websocket: missing `Upgrade: websocket`"@,
            HandshakeFault::MissingConnection => "websocket: missing `Connection: Upgrade`"@,
            HandshakeFault::WrongAccept => "websocket: Sec-WebSocket-Accept does not match"@,
            HandshakeFault::MissingAccept => "websocket: missing Sec-WebSocket-Accept"@,
        }
    }
}

impl HandshakeError {
    /// A sentence for a log.
    pub fn message(&self) -> (r: String)
        ensures
            r@ == self@.message(),
    {
        match self {
            HandshakeError::ResponseTooLarge => "websocket: handshake response too large".to_owned(),
            HandshakeError::Closed => "websocket: connection closed during handshake".to_owned(),
            HandshakeError::TimedOut => "websocket: handshake timed out".to_owned(),
            HandshakeError::NotText => "websocket: handshake response is not ASCII".to_owned(),
            HandshakeError::MalformedStatusLine => "websocket: malformed status line".to_owned(),
            HandshakeError::Refused(status) => {
                let mut text = "websocket: upgrade refused: ".to_owned();
                text.append(status.as_str());
                text
            },
            HandshakeError::MissingUpgrade => "websocket: missing `Upgrade: websocket`".to_owned(),
            HandshakeError::MissingConnection => {
                "websocket: missing `Connection: Upgrade`".to_owned()
            },
            HandshakeError::WrongAccept => {
                "websocket: Sec-WebSocket-Accept does not match".to_owned()
            },
            HandshakeError::MissingAccept => "websocket: missing Sec-WebSocket-Accept".to_owned(),
        }
    }
}

/// The value that the server has to echo back for `key`.
pub open spec fn accept_for(key: Seq<char>) -> Seq<char> {
    base64_text(sha1_hash(encode_utf8(key) + encode_utf8(ACCEPT_GUID@)))
}

/// The value that the server has to echo back for `key`.
pub fn expected_accept(key: &str) -> (r: String)
    ensures
        r@ == accept_for(key@),
{
    let mut data: Vec<u8> = Vec::new();
    data.extend_from_slice(key.as_bytes());
    data.extend_from_slice(ACCEPT_GUID.as_bytes());
    proof {
        assert(data@ =~= encode_utf8(key@) + encode_utf8(ACCEPT_GUID@));
    }
    base64(sha1(data.as_slice()).as_slice())
}

/// The value of the last line with this name, case aside.
pub open spec fn last_field(lines: Seq<Seq<char>>, name: Seq<char>) -> Option<Seq<char>>
    decreases lines.len(),
{
    if lines.len() == 0 {
        None
    } else if has_colon(lines.last()) && same_ignoring_case(field_name(lines.last()), name) {
        Some(field_value(lines.last()))
    } else {
        last_field(lines.drop_last(), name)
    }
}

fn find_last_field<'a>(lines: &Vec<&'a [char]>, name: &str) -> (r: Option<&'a [char]>)
    requires
        lines@.len() > 0,
    ensures
        match r {
            Some(value) => last_field(pieces(lines@).skip(1), name@) == Some(value@),
            None => last_field(pieces(lines@).skip(1), name@) is None,
        },
{
    let ghost fields = pieces(lines@).skip(1);
    let mut n: usize = lines.len();
    assert(fields.take(n - 1) =~= fields);
    while n > 1
        invariant
            1 <= n <= lines@.len(),
            fields == pieces(lines@).skip(1),
            last_field(fields, name@) == last_field(fields.take(n - 1), name@),
        decreases n,
    {
        let line = lines[n - 1];
        proof {
            assert(fields.take(n - 1).last() == line@);
            assert(fields.take(n - 1).drop_last() =~= fields.take(n - 2));
        }
        if let Some((field, value)) = split_field(line) {
            if eq_ignore_case(field, name) {
                return Some(value);
            }
        }
        n -= 1;
    }
    None
}

/// Whether a comma separated list holds this token, case aside.
pub open spec fn lists_token(value: Seq<char>, token: Seq<char>) -> bool {
    let items = split_at_char(value, ',');
    exists|i: int|
        0 <= i < items.len() && same_ignoring_case(trimmed(#[trigger] items[i]), token)
}

fn has_token(value: &[char], token: &str) -> (r: bool)
    ensures
        r == lists_token(value@, token@),
{
    let items = split_char(value, ',');
    let ghost all = split_at_char(value@, ',');
    let mut i: usize = 0;
    while i < items.len()
        invariant
            i <= items@.len(),
            all == split_at_char(value@, ','),
            pieces(items@) == all,
            forall|j: int| 0 <= j < i ==> !same_ignoring_case(trimmed(#[trigger] all[j]), token@),
        decreases items@.len() - i,
    {
        assert(all[i as int] == items@[i as int]@);
        if eq_ignore_case(trim(items[i]), token) {
            return true;
        }
        i += 1;
    }
    false
}

/// What is wrong with a response to an upgrade request, if anything: the status
/// line has to say `101`, and the three headers the upgrade depends on have to
/// be there. Of a header that is repeated the last one counts.
pub open spec fn upgrade_fault(head: Seq<char>, key: Seq<char>) -> Option<HandshakeFault> {
    let lines = split_at_crlf(head);
    let status = lines[0];
    let version = "HTTP/1.1 "@;
    let after = status.skip(version.len() as int);
    let fields = lines.skip(1);
    if !version.is_prefix_of(status) || chars_in_bytes(after, 3) is None {
        Some(HandshakeFault::MalformedStatusLine)
    } else if after.take(chars_in_bytes(after, 3)->0 as int) != "101"@ {
        Some(HandshakeFault::Refused(status))
    } else if !(last_field(fields, "upgrade"@) matches Some(v) && same_ignoring_case(
        v,
        "websocket"@,
    )) {
        Some(HandshakeFault::MissingUpgrade)
    } else if !(last_field(fields, "connection"@) matches Some(v) && lists_token(v, "upgrade"@)) {
        Some(HandshakeFault::MissingConnection)
    } else {
        match last_field(fields, "sec-websocket-accept"@) {
            Some(v) => if v == accept_for(key) {
                None
            } else {
                Some(HandshakeFault::WrongAccept)
            },
            None => Some(HandshakeFault::MissingAccept),
        }
    }
}

/// Checks the status line and the three headers that the upgrade depends on.
pub fn verify_upgrade(head: &str, key: &str) -> (r: Result<(), HandshakeError>)
    ensures
        r is Ok == upgrade_fault(head@, key@) is None,
        r matches Err(e) ==> upgrade_fault(head@, key@) == Some(e@),
{
    let chars = chars_of(head);
    let lines = split_crlf(chars.as_slice());
    let ghost all = split_at_crlf(head@);
    let status = lines[0];
    assert(all[0] == status@);
    if !begins_with(status, "HTTP/1.1 ") {
        return Err(HandshakeError::MalformedStatusLine);
    }
    proof {
        reveal_strlit("HTTP/1.1 ");
    }
    let after = &status[9..status.len()];
    assert(after@ =~= status@.skip("HTTP/1.1 "@.len() as int));
    match front_bytes(after, 3) {
        None => {
            return Err(HandshakeError::MalformedStatusLine);
        },
        Some(code) => {
            if !same_text(code, "101") {
                return Err(HandshakeError::Refused(string_of(status)));
            }
        },
    }
    let upgrade_ok = match find_last_field(&lines, "upgrade") {
        Some(value) => eq_ignore_case(value, "websocket"),
        None => false,
    };
    if !upgrade_ok {
        return Err(HandshakeError::MissingUpgrade);
    }
    let connection_ok = match find_last_field(&lines, "connection") {
        Some(value) => has_token(value, "upgrade"),
        None => false,
    };
    if !connection_ok {
        return Err(HandshakeError::MissingConnection);
    }
    match find_last_field(&lines, "sec-websocket-accept") {
        Some(got) => if same_text(got, expected_accept(key).as_str()) {
            Ok(())
        } else {
            Err(HandshakeError::WrongAccept)
        },
        None => Err(HandshakeError::MissingAccept),
    }
}

/// The upgrade request for `key`.
pub open spec fn upgrade_request(
    host: Seq<char>,
    path: Seq<char>,
    origin: Seq<char>,
    key: Seq<char>,
) -> Seq<char> {
    "GET "@ + path + " HTTP/1.1\r\nHost: "@ + host
        + "\r\nUpgrade: websocket\r\nConnection: Upgrade\r\nSec-WebSocket-Key: "@ + key
        + "\r\nSec-WebSocket-Version: 13\r\nOrigin: "@ + origin + "\r\n\r\n"@
}

/// What happened while the response was awaited.
pub enum HandshakeEvent<'a> {
    /// The stream gave these bytes.
    Data(&'a [u8]),
    /// The stream ended.
    Closed,
    /// The stream gave nothing; the time is now this, in microseconds.
    WouldBlock { now: u64 },
}

/// An upgrade under way: the key that was sent, what has come of the response,
/// and the time in microseconds by which it has to be there.
pub struct Handshake {
    key: String,
    response: Vec<u8>,
    deadline: u64,
}

impl Handshake {
    /// The key that was sent.
    pub closed spec fn key(&self) -> Seq<char> {
        self.key@
    }

    /// What has come of the response.
    pub closed spec fn response(&self) -> Seq<u8> {
        self.response@
    }

    /// The time by which the response has to be there.
    pub closed spec fn deadline(&self) -> u64 {
        self.deadline
    }

    /// Whether the header block of the response is complete.
    pub open spec fn is_complete(&self) -> bool {
        blank_line_from(self.response(), 0) is Some
    }

    /// Begins an upgrade at time `now`: the handshake, and the request to send.
    ///
    /// The nonce has to come from a real entropy source.
    pub fn start(host: &str, path: &str, origin: &str, nonce: [u8; 16], now: u64) -> (r: (
        Handshake,
        String,
    ))
        requires
            now + HANDSHAKE_TIMEOUT_US <= u64::MAX,
        ensures
            r.0.key() == base64_text(nonce@),
            r.0.response() == Seq::<u8>::empty(),
            r.0.deadline() == now + 15_000_000,
            r.1@ == upgrade_request(host@, path@, origin@, base64_text(nonce@)),
            r.1@ == "GET "@ + path@ + " HTTP/1.1\r\nHost: "@ + host@
                + "\r\nUpgrade: websocket\r\nConnection: Upgrade\r\nSec-WebSocket-Key: "@
                + base64_text(nonce@) + "\r\nSec-WebSocket-Version: 13\r\nOrigin: "@ + origin@
                + "\r\n\r\n"@,
    {
        let key = base64(nonce.as_slice());
        let mut request = "GET ".to_owned();
        request.append(path);
        request.append(" HTTP/1.1\r\nHost: ");
        request.append(host);
        request.append("\r\nUpgrade: websocket\r\nConnection: Upgrade\r\nSec-WebSocket-Key: ");
        request.append(key.as_str());
        request.append("\r\nSec-WebSocket-Version: 13\r\nOrigin: ");
        request.append(origin);
        request.append("\r\n\r\n");
        (
            Handshake { key, response: Vec::new(), deadline: now + HANDSHAKE_TIMEOUT_US },
            request,
        )
    }

    /// Takes in what happened: `Ok(true)` once the header block of the response
    /// is complete, `Ok(false)` while more of it is awaited.
    pub fn advance(&mut self, event: HandshakeEvent<'_>) -> (r: Result<bool, HandshakeError>)
        ensures
            final(self).key() == old(self).key(),
            final(self).deadline() == old(self).deadline(),
            match event {
                HandshakeEvent::Data(chunk) => {
                    &&& final(self).response() == old(self).response() + chunk@
                    &&& final(self).is_complete() ==> r == Ok::<bool, HandshakeError>(true)
                    &&& !final(self).is_complete() && final(self).response().len()
                        >= 4096 ==> r == Err::<bool, HandshakeError>(
                        HandshakeError::ResponseTooLarge,
                    )
                    &&& !final(self).is_complete() && final(self).response().len()
                        < 4096 ==> r == Ok::<bool, HandshakeError>(false)
                },
                HandshakeEvent::Closed => *final(self) == *old(self) && r == Err::<
                    bool,
                    HandshakeError,
                >(HandshakeError::Closed),
                HandshakeEvent::WouldBlock { now } => *final(self) == *old(self) && r == if now
                    >= old(self).deadline() {
                    Err::<bool, HandshakeError>(HandshakeError::TimedOut)
                } else {
                    Ok::<bool, HandshakeError>(false)
                },
            },
    {
        match event {
            HandshakeEvent::Data(chunk) => {
                self.response.extend_from_slice(chunk);
                if find_header_end(self.response.as_slice()).is_some() {
                    Ok(true)
                } else if self.response.len() >= MAX_HANDSHAKE_BYTES {
                    Err(HandshakeError::ResponseTooLarge)
                } else {
                    Ok(false)
                }
            },
            HandshakeEvent::Closed => Err(HandshakeError::Closed),
            HandshakeEvent::WouldBlock { now } => if now >= self.deadline {
                Err(HandshakeError::TimedOut)
            } else {
                Ok(false)
            },
        }
    }
}

/// What is wrong with the bytes of a complete response, if anything.
pub open spec fn response_fault(response: Seq<u8>, key: Seq<char>) -> Option<HandshakeFault> {
    let head = response.take(blank_line_from(response, 0)->0);
    if !valid_utf8(head) {
        Some(HandshakeFault::NotText)
    } else {
        upgrade_fault(decode_utf8(head), key)
    }
}

impl<S> WsClient<S> {
    /// Completes the upgrade of `stream` with the response that `handshake` has
    /// gathered. Whatever followed the blank line is the start of the first
    /// frame.
    pub fn connect(stream: S, handshake: Handshake, limits: Limits) -> (r: Result<
        WsClient<S>,
        HandshakeError,
    >)
        requires
            handshake.is_complete(),
            limits.wf(),
        ensures
            match response_fault(handshake.response(), handshake.key()) {
                Some(fault) => r matches Err(e) && e@ == fault,
                None => {
                    let end = blank_line_from(handshake.response(), 0)->0;
                    r matches Ok(ws) && ws.wf() && ws.stream() == stream && ws.reader().limits()
                        == limits && ws.reader().partial() is None && ws.reader().raw() == Seq::<
                        u8,
                    >::empty() && ws.pending() == handshake.response().skip(end + 4)
                },
            },
    {
        let response = handshake.response.as_slice();
        match find_header_end(response) {
            Some(end) => {
                let head = &response[0..end];
                assert(head@ =~= response@.take(end as int));
                match utf8_text(head) {
                    Some(text) => {
                        proof {
                            vstd::utf8::encode_utf8_decode_utf8(text@);
                        }
                        match verify_upgrade(text, handshake.key.as_str()) {
                            Ok(_) => {
                                let rest = &response[end + 4..response.len()];
                                assert(rest@ =~= response@.skip(end + 4));
                                Ok(WsClient::upgraded(stream, limits, to_vec(rest)))
                            },
                            Err(e) => Err(e),
                        }
                    },
                    None => Err(HandshakeError::NotText),
                }
            },
            None => Err(HandshakeError::NotText),
        }
    }
}

/// What a server has to answer a key with: the hash of the key and the protocol's fixed
/// text, in base64.
pub proof fn answers_are_derived_from_the_key(key: Seq<char>)
    ensures
        accept_for(key) == base64_text(
            sha1_hash(encode_utf8(key) + encode_utf8("258EAFA5-E914-47DA-95CA-C5AB0DC85B11"@)),
        ),
{
}

/// Of lines with one name the last counts.
pub proof fn the_last_line_of_a_name_counts(
    lines: Seq<Seq<char>>,
    line: Seq<char>,
    name: Seq<char>,
)
    ensures
        has_colon(line) && same_ignoring_case(field_name(line), name) ==> last_field(
            lines.push(line),
            name,
        ) == Some(field_value(line)),
        !(has_colon(line) && same_ignoring_case(field_name(line), name)) ==> last_field(
            lines.push(line),
            name,
        ) == last_field(lines, name),
        last_field(Seq::empty(), name) is None,
{
    assert(lines.push(line).drop_last() =~= lines);
}

/// A list holds a token where one of its items, between commas, is that token, white
/// space and case aside.
pub proof fn tokens_stand_between_commas(item: Seq<char>, rest: Seq<char>, token: Seq<char>)
    requires
        forall|i: int| 0 <= i < item.len() ==> #[trigger] item[i] != ',',
    ensures
        lists_token(item, token) <==> same_ignoring_case(trimmed(item), token),
        lists_token(item + seq![','] + rest, token) <==> same_ignoring_case(trimmed(item), token)
            || lists_token(rest, token),
{
    texts_are_split_at_the_separator(item, rest, ',');
    let all = split_at_char(item + seq![','] + rest, ',');
    let tail = split_at_char(rest, ',');
    assert(split_at_char(item, ',')[0] == item);
    assert(all[0] == item);
    if lists_token(rest, token) {
        let i = choose|i: int|
            0 <= i < tail.len() && same_ignoring_case(trimmed(#[trigger] tail[i]), token);
        assert(all[i + 1] == tail[i]);
    }
    if lists_token(item + seq![','] + rest, token) {
        let i = choose|i: int|
            0 <= i < all.len() && same_ignoring_case(trimmed(#[trigger] all[i]), token);
        if i > 0 {
            assert(tail[i - 1] == all[i]);
        }
    }
}

/// An upgrade is accepted exactly where the response says 101, upgrades to a WebSocket,
/// upgrades the connection, and answers the key that was sent; it is refused for the first
/// of these that is missing.
pub proof fn upgrades_are_checked(
    head: Seq<char>,
    key: Seq<char>,
    status: Seq<char>,
    fields: Seq<Seq<char>>,
)
    requires
        split_at_crlf(head) == seq![status] + fields,
        status.len() >= 12,
        forall|i: int| 9 <= i < 12 ==> (#[trigger] status[i] as u32) < 128,
    ensures
        ({
            let upgrade = last_field(fields, "upgrade"@);
            let connection = last_field(fields, "connection"@);
            let accept = last_field(fields, "sec-websocket-accept"@);
            let is_http = status.take(9) == "HTTP/1.1 "@;
            let switches = status.subrange(9, 12) == "101"@;
            let to_websocket = upgrade is Some && same_ignoring_case(upgrade->0, "websocket"@);
            let of_connection = connection is Some && lists_token(connection->0, "upgrade"@);
            upgrade_fault(head, key) == if !is_http {
                Some(HandshakeFault::MalformedStatusLine)
            } else if !switches {
                Some(HandshakeFault::Refused(status))
            } else if !to_websocket {
                Some(HandshakeFault::MissingUpgrade)
            } else if !of_connection {
                Some(HandshakeFault::MissingConnection)
            } else if accept is None {
                Some(HandshakeFault::MissingAccept)
            } else if accept->0 != base64_text(
                sha1_hash(encode_utf8(key) + encode_utf8("258EAFA5-E914-47DA-95CA-C5AB0DC85B11"@)),
            ) {
                Some(HandshakeFault::WrongAccept)
            } else {
                None
            }
        }),
{
    let lines = seq![status] + fields;
    assert(lines[0] == status);
    assert(lines.skip(1) =~= fields);
    reveal_strlit("HTTP/1.1 ");
    reveal_strlit("101");
    assert("HTTP/1.1 "@.len() == 9);
    assert(status.take(9) =~= status.subrange(0, 9));
    let after = status.skip(9);
    assert(after[0] == status[9] && after[1] == status[10] && after[2] == status[11]);
    assert(utf8_len(status[9]) == 1 && utf8_len(status[10]) == 1 && utf8_len(status[11]) == 1);
    let second = after.skip(1);
    let third = second.skip(1);
    assert(second[0] == status[10] && third[0] == status[11]);
    reveal_with_fuel(chars_in_bytes, 4);
    assert(chars_in_bytes(after, 3) == Some(3nat));
    assert(after.take(3) =~= status.subrange(9, 12));
}

/// A response whose header block is no text is refused; of any other the block alone is
/// checked, whatever came along behind it.
pub proof fn only_the_header_block_is_checked(head: Seq<u8>, more: Seq<u8>, key: Seq<char>)
    requires
        blank_line_from(head + seq![0x0du8, 0x0a, 0x0d, 0x0a], 0) == Some(head.len() as int),
    ensures
        response_fault(head + seq![0x0du8, 0x0a, 0x0d, 0x0a] + more, key) == if valid_utf8(head) {
            upgrade_fault(decode_utf8(head), key)
        } else {
            Some(HandshakeFault::NotText)
        },
{
    let block = head + seq![0x0du8, 0x0a, 0x0d, 0x0a];
    header_blocks_stay(block, more, 0);
    assert((block + more).take(head.len() as int) =~= head);
}

/// Why an upgrade failed is told in these words.
pub proof fn failures_are_told_in_words(fault: HandshakeFault, error: HandshakeError)
    ensures
        fault.message() == match fault {
            HandshakeFault::ResponseTooLarge => "websocket: handshake response too large"@,
            HandshakeFault::Closed => "websocket: connection closed during handshake"@,
            HandshakeFault::TimedOut => "websocket: handshake timed out"@,
            HandshakeFault::NotText => "websocket: handshake response is not ASCII"@,
            HandshakeFault::MalformedStatusLine => "websocket: malformed status line"@,
            HandshakeFault::Refused(status) => "websocket: upgrade refused: "@ + status,
            HandshakeFault::MissingUpgrade => "websocket: missing `Upgrade: websocket`"@,
            HandshakeFault::MissingConnection => "websocket: missing `Connection: Upgrade`"@,
            HandshakeFault::WrongAccept => "websocket: Sec-WebSocket-Accept does not match"@,
            HandshakeFault::MissingAccept => "websocket: missing Sec-WebSocket-Accept"@,
        }
    ,
        error@ == match error {
            HandshakeError::ResponseTooLarge => HandshakeFault::ResponseTooLarge,
            HandshakeError::Closed => HandshakeFault::Closed,
            HandshakeError::TimedOut => HandshakeFault::TimedOut,
            HandshakeError::NotText => HandshakeFault::NotText,
            HandshakeError::MalformedStatusLine => HandshakeFault::MalformedStatusLine,
            HandshakeError::Refused(status) => HandshakeFault::Refused(status@),
            HandshakeError::MissingUpgrade => HandshakeFault::MissingUpgrade,
            HandshakeError::MissingConnection => HandshakeFault::MissingConnection,
            HandshakeError::WrongAccept => HandshakeFault::WrongAccept,
            HandshakeError::MissingAccept => HandshakeFault::MissingAccept,
        }
    ,
{
}

/// A response is complete once its header block has ended.
pub proof fn responses_are_complete_with_their_block(handshake: Handshake)
    ensures
        handshake.is_complete() <==> blank_line_from(handshake.response(), 0) is Some,
        HANDSHAKE_TIMEOUT_US == 15000000,
{
}

/// Nothing but a 101 of HTTP/1.1 upgrades, with all three headers, whatever else the
/// response says.
pub proof fn only_a_full_101_upgrades(head: Seq<char>, key: Seq<char>)
    requires
        upgrade_fault(head, key) is None,
    ensures
        ({
            let lines = split_at_crlf(head);
            let fields = lines.skip(1);
            &&& lines[0].len() >= 12
            &&& lines[0].take(9) == "HTTP/1.1 "@
            &&& lines[0].subrange(9, 12) == "101"@
            &&& last_field(fields, "upgrade"@) is Some
            &&& same_ignoring_case(last_field(fields, "upgrade"@)->0, "websocket"@)
            &&& last_field(fields, "connection"@) is Some
            &&& lists_token(last_field(fields, "connection"@)->0, "upgrade"@)
            &&& last_field(fields, "sec-websocket-accept"@) == Some(accept_for(key))
        }),
{
    reveal_strlit("HTTP/1.1 ");
    reveal_strlit("101");
    let status = split_at_crlf(head)[0];
    assert("HTTP/1.1 "@.len() == 9);
    assert("101"@.len() == 3);
    let after = status.skip(9);
    filling_characters_fill(after, 3);
    let k = chars_in_bytes(after, 3)->0 as int;
    assert(after.take(k).len() == k);
    assert(status.take(9) =~= status.subrange(0, 9));
    assert(after.take(3) =~= status.subrange(9, 12));
}

} // verus!
