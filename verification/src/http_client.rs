//! A small HTTP/1.1 client: URLs, requests and responses.
//!
//! Connections carry one request each and are closed after it. Reading from
//! them is left to the caller, who hands in what arrived.

use crate::scan::{
    blank_line_from, find_char, find_from, find_header_end, header_blocks_end_at_the_blank_line,
    header_blocks_stay, lemma_find_is, to_vec,
};
use crate::text::{
    after_first_word, begins_with, chars_of, decimal, decimal_text, eq_ignore_case, field_name,
    field_value, first_word, has_colon, is_blank, is_white_space, is_word, joined,
    joined_lines_are_read_back, joined_lines_split_again, lines, lines_end_at_line_feeds, lines_of,
    lossy_text, one_line, parse_number, parsed_number, pieces, same_ignoring_case, same_text,
    split_at_crlf, split_field, string_of, take_word, trim, trimmed, utf8_lossy, utf8_text,
    words_stand_between_white_space,
};
use vstd::prelude::*;
use vstd::utf8::{decode_utf8, valid_utf8};

verus! {

/// Socket-level bound, in milliseconds, on every media and version request.
/// Without one a peer that accepts the connection and then goes quiet holds the
/// calling thread forever.
pub const HTTP_IO_TIMEOUT_MS: u32 = 30_000;

/// A response header block past this is not a WhatsApp CDN answering.
pub const MAX_RESPONSE_HEADER_BYTES: usize = 8192;

/// Maximum response size for non-streaming buffered HTTP requests.
pub const MAX_RESPONSE_BODY_BYTES: usize = 1_048_576;

/// Why a URL cannot be used.
#[derive(Clone, Copy, Debug, PartialEq, Eq, Structural)]
pub enum UrlError {
    /// None of `https`, `wss`, `http` and `ws`.
    Scheme,
    /// What stands after the colon is no port number.
    Port,
}

impl UrlError {
    /// The sentence for `message`.
    pub open spec fn spec_message(self, url: Seq<char>) -> Seq<char> {
        match self {
            UrlError::Scheme => "Invalid URL scheme: "@ + url,
            UrlError::Port => "Invalid URL port: "@ + url,
        }
    }

    /// A sentence for a log about this URL.
    pub fn message(&self, url: &str) -> (r: String)
        ensures
            r@ == self.spec_message(url@),
    {
        let mut text = match *self {
            UrlError::Scheme => "Invalid URL scheme: ",
            UrlError::Port => "Invalid URL port: ",
        }.to_owned();
        text.append(url);
        text
    }
}

/// The parts of a URL.
pub struct UrlParts {
    pub host: Seq<char>,
    pub port: nat,
    pub path: Seq<char>,
    pub use_tls: bool,
}

/// The parts of what follows a URL's scheme.
pub open spec fn authority_and_path(rest: Seq<char>, use_tls: bool) -> Result<UrlParts, UrlError> {
    let slash = find_from(rest, '/', 0);
    let host_port = rest.take(slash);
    let path = if slash < rest.len() { rest.skip(slash) } else { "/"@ };
    let colon = find_from(host_port, ':', 0);
    if colon == host_port.len() {
        Ok(UrlParts { host: host_port, port: if use_tls { 443 } else { 80 }, path, use_tls })
    } else {
        match parsed_number(host_port.skip(colon + 1), 0xffff) {
            Some(port) => Ok(UrlParts { host: host_port.take(colon), port, path, use_tls }),
            None => Err(UrlError::Port),
        }
    }
}

/// The parts of a URL: everything up to the first slash after the scheme is the
/// host, with a port after the first colon, and the rest is the path.
pub open spec fn url_parts(url: Seq<char>) -> Result<UrlParts, UrlError> {
    if "https://"@.is_prefix_of(url) {
        authority_and_path(url.skip("https://"@.len() as int), true)
    } else if "wss://"@.is_prefix_of(url) {
        authority_and_path(url.skip("wss://"@.len() as int), true)
    } else if "http://"@.is_prefix_of(url) {
        authority_and_path(url.skip("http://"@.len() as int), false)
    } else if "ws://"@.is_prefix_of(url) {
        authority_and_path(url.skip("ws://"@.len() as int), false)
    } else {
        Err(UrlError::Scheme)
    }
}

/// Whether `r` holds these parts.
pub open spec fn holds_parts(r: (String, u16, String, bool), parts: UrlParts) -> bool {
    r.0@ == parts.host && r.1 == parts.port && r.2@ == parts.path && r.3 == parts.use_tls
}

fn parse_authority(rest: &[char], use_tls: bool) -> (r: Result<
    (String, u16, String, bool),
    UrlError,
>)
    ensures
        match authority_and_path(rest@, use_tls) {
            Ok(parts) => r matches Ok(t) && holds_parts(t, parts),
            Err(e) => r matches Err(got) && got == e,
        },
{
    let slash = find_char(rest, '/');
    let host_port = &rest[0..slash];
    assert(host_port@ =~= rest@.take(slash as int));
    let path = if slash < rest.len() {
        let tail = &rest[slash..rest.len()];
        assert(tail@ =~= rest@.skip(slash as int));
        string_of(tail)
    } else {
        "/".to_owned()
    };
    let colon = find_char(host_port, ':');
    if colon == host_port.len() {
        let port: u16 = if use_tls { 443 } else { 80 };
        return Ok((string_of(host_port), port, path, use_tls));
    }
    let host = &host_port[0..colon];
    let digits = &host_port[colon + 1..host_port.len()];
    assert(host@ =~= host_port@.take(colon as int));
    assert(digits@ =~= host_port@.skip(colon + 1));
    match parse_number(digits, 0xffff) {
        Some(port) => Ok((string_of(host), port as u16, path, use_tls)),
        None => Err(UrlError::Port),
    }
}

fn after_scheme<'a>(url: &'a [char], scheme: &str) -> (r: Option<&'a [char]>)
    ensures
        r is Some == scheme@.is_prefix_of(url@),
        r matches Some(rest) ==> rest@ == url@.skip(scheme@.len() as int),
{
    if begins_with(url, scheme) {
        let n = chars_of(scheme).len();
        let rest = &url[n..url.len()];
        assert(rest@ =~= url@.skip(n as int));
        Some(rest)
    } else {
        None
    }
}

/// Parses a URL into host, port, path, and whether it asks for TLS. The schemes
/// are `https`, `wss`, `http` and `ws`.
pub fn parse_url(url: &str) -> (r: Result<(String, u16, String, bool), UrlError>)
    ensures
        match url_parts(url@) {
            Ok(parts) => r matches Ok(t) && holds_parts(t, parts) && t.0@ == parts.host && t.1
                == parts.port && t.2@ == parts.path && t.3 == parts.use_tls,
            Err(e) => r matches Err(got) && got == e,
        },
{
    let chars = chars_of(url);
    let all = chars.as_slice();
    if let Some(rest) = after_scheme(all, "https://") {
        return parse_authority(rest, true);
    }
    if let Some(rest) = after_scheme(all, "wss://") {
        return parse_authority(rest, true);
    }
    if let Some(rest) = after_scheme(all, "http://") {
        return parse_authority(rest, false);
    }
    if let Some(rest) = after_scheme(all, "ws://") {
        return parse_authority(rest, false);
    }
    Err(UrlError::Scheme)
}

/// The address to dial for a host. Under an emulator with user-mode networking
/// the loopback names mean the guest, and the host is its gateway.
pub open spec fn dialed_host(host: Seq<char>, emulated: bool) -> Seq<char> {
    if emulated && (host == "127.0.0.1"@ || host == "localhost"@) {
        "10.0.2.2"@
    } else {
        host
    }
}

/// The address to dial for a host. Under an emulator with user-mode networking
/// the loopback names mean the guest, and the host is its gateway.
pub fn qemu_host(host: String, emulated: bool) -> (r: String)
    ensures
        r@ == dialed_host(host@, emulated),
{
    let chars = chars_of(host.as_str());
    if emulated && (same_text(chars.as_slice(), "127.0.0.1") || same_text(
        chars.as_slice(),
        "localhost",
    )) {
        "10.0.2.2".to_owned()
    } else {
        host
    }
}

/// A character that may stand in an HTTP token, such as a method or a header
/// name.
pub open spec fn is_token_char(c: char) -> bool {
    ('a' <= c <= 'z') || ('A' <= c <= 'Z') || ('0' <= c <= '9') || c == '!' || c == '#' || c == '$'
        || c == '%' || c == '&' || c == '\'' || c == '*' || c == '+' || c == '-' || c == '.' || c
        == '^' || c == '_' || c == '`' || c == '|' || c == '~'
}

/// Whether `c` may stand in an HTTP token.
pub fn is_http_token_char(c: char) -> (r: bool)
    ensures
        r == is_token_char(c),
{
    ('a' <= c && c <= 'z') || ('A' <= c && c <= 'Z') || ('0' <= c && c <= '9') || c == '!' || c
        == '#' || c == '$' || c == '%' || c == '&' || c == '\'' || c == '*' || c == '+' || c == '-'
        || c == '.' || c == '^' || c == '_' || c == '`' || c == '|' || c == '~'
}

/// A token: at least one character, and nothing but token characters.
pub open spec fn is_token(s: Seq<char>) -> bool {
    s.len() > 0 && forall|i: int| 0 <= i < s.len() ==> is_token_char(#[trigger] s[i])
}

/// An ASCII control character or a space.
pub open spec fn is_control_or_space(c: char) -> bool {
    c as u32 <= 0x20 || c as u32 == 0x7f
}

/// Text without control characters and spaces.
pub open spec fn is_plain(s: Seq<char>) -> bool {
    forall|i: int| 0 <= i < s.len() ==> !is_control_or_space(#[trigger] s[i])
}

/// A header value may hold anything but CR, LF and NUL.
pub open spec fn is_header_value(s: Seq<char>) -> bool {
    forall|i: int| 0 <= i < s.len() ==> #[trigger] s[i] != '\r' && s[i] != '\n' && s[i] != '\0'
}

fn check_token(s: &str) -> (r: bool)
    ensures
        r == is_token(s@),
{
    let chars = chars_of(s);
    let mut i: usize = 0;
    while i < chars.len()
        invariant
            i <= chars@.len(),
            chars@ == s@,
            forall|j: int| 0 <= j < i ==> is_token_char(#[trigger] chars@[j]),
        decreases chars@.len() - i,
    {
        if !is_http_token_char(chars[i]) {
            return false;
        }
        i += 1;
    }
    chars.len() > 0
}

fn check_plain(s: &str) -> (r: bool)
    ensures
        r == is_plain(s@),
{
    let chars = chars_of(s);
    let mut i: usize = 0;
    while i < chars.len()
        invariant
            i <= chars@.len(),
            chars@ == s@,
            forall|j: int| 0 <= j < i ==> !is_control_or_space(#[trigger] chars@[j]),
        decreases chars@.len() - i,
    {
        if chars[i] as u32 <= 0x20 || chars[i] as u32 == 0x7f {
            return false;
        }
        i += 1;
    }
    true
}

fn check_value(s: &str) -> (r: bool)
    ensures
        r == is_header_value(s@),
{
    let chars = chars_of(s);
    let mut i: usize = 0;
    while i < chars.len()
        invariant
            i <= chars@.len(),
            chars@ == s@,
            forall|j: int|
                0 <= j < i ==> #[trigger] chars@[j] != '\r' && chars@[j] != '\n' && chars@[j] != '\0',
        decreases chars@.len() - i,
    {
        if chars[i] == '\r' || chars[i] == '\n' || chars[i] == '\0' {
            return false;
        }
        i += 1;
    }
    true
}

/// Why a request cannot be sent.
#[derive(Clone, Copy, Debug, PartialEq, Eq, Structural)]
pub enum RequestError {
    Method,
    Target,
    Host,
    Header,
}

impl RequestError {
    /// The sentence for `message`.
    pub open spec fn spec_message(self) -> Seq<char> {
        match self {
            RequestError::Method => "Invalid HTTP method"@,
            RequestError::Target => "Invalid HTTP request target"@,
            RequestError::Host => "Invalid HTTP host"@,
            RequestError::Header => "Invalid HTTP header"@,
        }
    }

    /// A sentence for a log.
    pub fn message(&self) -> (r: &'static str)
        ensures
            r@ == self.spec_message(),
    {
        match *self {
            RequestError::Method => "Invalid HTTP method",
            RequestError::Target => "Invalid HTTP request target",
            RequestError::Host => "Invalid HTTP host",
            RequestError::Header => "Invalid HTTP header",
        }
    }
}

/// Whether a header can be sent.
pub open spec fn is_header(name: Seq<char>, value: Seq<char>) -> bool {
    is_token(name) && is_header_value(value)
}

/// The names and values of headers.
pub open spec fn header_views(headers: Seq<(String, String)>) -> Seq<(Seq<char>, Seq<char>)> {
    headers.map_values(|h: (String, String)| (h.0@, h.1@))
}

/// What is wrong with the parts of a request, if anything.
pub open spec fn request_fault(
    method: Seq<char>,
    path: Seq<char>,
    host: Seq<char>,
    headers: Seq<(Seq<char>, Seq<char>)>,
) -> Option<RequestError> {
    if !is_token(method) {
        Some(RequestError::Method)
    } else if !("/"@.is_prefix_of(path) && is_plain(path)) {
        Some(RequestError::Target)
    } else if host.len() == 0 || !is_plain(host) {
        Some(RequestError::Host)
    } else if !forall|i: int|
        0 <= i < headers.len() ==> is_header((#[trigger] headers[i]).0, headers[i].1) {
        Some(RequestError::Header)
    } else {
        None
    }
}

/// The lines of the given headers. Where there is a body its real length is
/// written, and a header that gives another is left out.
pub open spec fn header_lines(headers: Seq<(Seq<char>, Seq<char>)>, has_body: bool) -> Seq<Seq<char>>
    decreases headers.len(),
{
    if headers.len() == 0 {
        Seq::empty()
    } else {
        let (name, value) = headers.last();
        let before = header_lines(headers.drop_last(), has_body);
        if has_body && same_ignoring_case(name, "content-length"@) {
            before
        } else {
            before.push(name + ": "@ + value)
        }
    }
}

/// The lines of a request, before the empty one.
pub open spec fn request_lines(
    method: Seq<char>,
    path: Seq<char>,
    host: Seq<char>,
    headers: Seq<(Seq<char>, Seq<char>)>,
    body_len: Option<nat>,
) -> Seq<Seq<char>> {
    let front = seq![
        method + " "@ + path + " HTTP/1.1"@,
        "Host: "@ + host,
        "Connection: close"@,
    ] + header_lines(headers, body_len is Some);
    match body_len {
        Some(n) => front.push("Content-Length: "@ + decimal(n)),
        None => front,
    }
}

/// The length of a body, if there is one.
pub open spec fn len_of(body: Option<&[u8]>) -> Option<nat> {
    match body {
        Some(b) => Some(b@.len()),
        None => None,
    }
}

fn push_line(raw: &mut String, Ghost(lines): Ghost<Seq<Seq<char>>>, name: &str, value: &str)
    requires
        old(raw)@ == joined(lines),
    ensures
        final(raw)@ == joined(lines.push(name@ + value@)),
{
    raw.append(name);
    raw.append(value);
    raw.append("\r\n");
    proof {
        let next = lines.push(name@ + value@);
        assert(next.drop_last() =~= lines);
        assert(raw@ =~= joined(lines) + (name@ + value@) + "\r\n"@);
    }
}

/// The request line and headers, assembled by hand. Anything with a CR or LF in
/// it would become a second header, or a second request, so it is refused.
pub fn build_raw_request(
    method: &str,
    path: &str,
    host: &str,
    headers: &Vec<(String, String)>,
    body: Option<&[u8]>,
) -> (r: Result<String, RequestError>)
    ensures
        match request_fault(method@, path@, host@, header_views(headers@)) {
            Some(e) => r matches Err(got) && got == e,
            None => r matches Ok(raw) && raw@ == joined(
                request_lines(method@, path@, host@, header_views(headers@), len_of(body)),
            ) + "\r\n"@,
        },
{
    if !check_token(method) {
        return Err(RequestError::Method);
    }
    let target = chars_of(path);
    if !begins_with(target.as_slice(), "/") || !check_plain(path) {
        return Err(RequestError::Target);
    }
    if chars_of(host).len() == 0 || !check_plain(host) {
        return Err(RequestError::Host);
    }
    let ghost views = header_views(headers@);
    let mut raw = String::new();
    let mut request_line = method.to_owned();
    request_line.append(" ");
    request_line.append(path);
    let ghost mut lines: Seq<Seq<char>> = Seq::empty();
    push_line(&mut raw, Ghost(lines), request_line.as_str(), " HTTP/1.1");
    proof {
        lines = lines.push(request_line@ + " HTTP/1.1"@);
    }
    push_line(&mut raw, Ghost(lines), "Host: ", host);
    proof {
        lines = lines.push("Host: "@ + host@);
    }
    push_line(&mut raw, Ghost(lines), "Connection: close", "");
    proof {
        reveal_strlit("");
        assert("Connection: close"@ + ""@ =~= "Connection: close"@);
        lines = lines.push("Connection: close"@);
        assert(views.take(0) =~= Seq::empty());
    }
    let ghost front = lines;
    assert(front =~= seq![
        method@ + " "@ + path@ + " HTTP/1.1"@,
        "Host: "@ + host@,
        "Connection: close"@,
    ]);
    assert(lines =~= front + header_lines(views.take(0), body is Some));
    let mut i: usize = 0;
    while i < headers.len()
        invariant
            i <= headers@.len(),
            views == header_views(headers@),
            forall|j: int| 0 <= j < i ==> is_header((#[trigger] views[j]).0, views[j].1),
            lines == front + header_lines(views.take(i as int), body is Some),
            raw@ == joined(lines),
            request_fault(method@, path@, host@, Seq::empty()) is None,
        decreases headers@.len() - i,
    {
        let key = headers[i].0.as_str();
        let value = headers[i].1.as_str();
        proof {
            assert(views[i as int] == (key@, value@));
            assert(views.take(i + 1).drop_last() =~= views.take(i as int));
            assert(views.take(i + 1).last() == (key@, value@));
        }
        if !check_token(key) || !check_value(value) {
            assert(!is_header(views[i as int].0, views[i as int].1));
            return Err(RequestError::Header);
        }
        let name = chars_of(key);
        if body.is_some() && eq_ignore_case(name.as_slice(), "content-length") {
            i += 1;
            continue;
        }
        let mut label = key.to_owned();
        label.append(": ");
        push_line(&mut raw, Ghost(lines), label.as_str(), value);
        proof {
            lines = lines.push(key@ + ": "@ + value@);
            assert(lines =~= front + header_lines(views.take(i + 1), body is Some));
        }
        i += 1;
    }
    assert(views.take(i as int) =~= views);
    if let Some(bytes) = body {
        let length = decimal_text(bytes.len() as u64);
        push_line(&mut raw, Ghost(lines), "Content-Length: ", length.as_str());
        proof {
            lines = lines.push("Content-Length: "@ + decimal(bytes@.len()));
        }
    }
    assert(lines =~= request_lines(method@, path@, host@, views, len_of(body)));
    raw.append("\r\n");
    Ok(raw)
}

proof fn lemma_header_lines(headers: Seq<(Seq<char>, Seq<char>)>, has_body: bool)
    requires
        forall|i: int| 0 <= i < headers.len() ==> is_header((#[trigger] headers[i]).0, headers[i].1),
    ensures
        forall|i: int|
            0 <= i < header_lines(headers, has_body).len() ==> one_line(
                #[trigger] header_lines(headers, has_body)[i],
            ),
    decreases headers.len(),
{
    if headers.len() > 0 {
        let front = headers.drop_last();
        assert forall|i: int| 0 <= i < front.len() implies is_header(
            (#[trigger] front[i]).0,
            front[i].1,
        ) by {
            assert(front[i] == headers[i]);
        }
        lemma_header_lines(front, has_body);
        reveal_strlit(": ");
        let (name, value) = headers.last();
        assert(is_header(headers[headers.len() - 1].0, headers[headers.len() - 1].1));
        let line = name + ": "@ + value;
        assert forall|i: int| 0 <= i < line.len() implies #[trigger] line[i] != '\r' && line[i]
            != '\n' by {
            if i < name.len() {
                assert(line[i] == name[i]);
            } else if i >= name.len() + 2 {
                assert(line[i] == value[i - name.len() - 2]);
            }
        }
        let before = header_lines(front, has_body);
        let all = header_lines(headers, has_body);
        assert forall|i: int| 0 <= i < all.len() implies one_line(#[trigger] all[i]) by {
            if i < before.len() {
                assert(all[i] == before[i]);
            } else {
                assert(all[i] == line);
            }
        }
    }
}

proof fn lemma_decimal_one_line(n: nat)
    ensures
        one_line(decimal(n)),
    decreases n,
{
    if n >= 10 {
        lemma_decimal_one_line(n / 10);
    }
}

/// Every part of a request that is not refused stays in its own line: read back
/// line by line, the request is its own lines and then the end of the header
/// block, and no header or second request has come in between.
pub proof fn request_parts_stay_in_their_lines(
    method: Seq<char>,
    path: Seq<char>,
    host: Seq<char>,
    headers: Seq<(Seq<char>, Seq<char>)>,
    body_len: Option<nat>,
)
    requires
        request_fault(method, path, host, headers) is None,
    ensures
        split_at_crlf(joined(request_lines(method, path, host, headers, body_len)) + "\r\n"@)
            == request_lines(method, path, host, headers, body_len) + seq![
            Seq::<char>::empty(),
            Seq::<char>::empty(),
        ],
{
    let lines = request_lines(method, path, host, headers, body_len);
    reveal_strlit(" ");
    reveal_strlit(" HTTP/1.1");
    reveal_strlit("Host: ");
    reveal_strlit("Connection: close");
    reveal_strlit("Content-Length: ");
    reveal_strlit("\r\n");
    lemma_header_lines(headers, body_len is Some);
    let first = method + " "@ + path + " HTTP/1.1"@;
    assert forall|i: int| 0 <= i < first.len() implies #[trigger] first[i] != '\r' && first[i]
        != '\n' by {
        if i < method.len() {
            assert(first[i] == method[i]);
        } else if method.len() < i <= method.len() + path.len() {
            assert(first[i] == path[i - method.len() - 1]);
        }
    }
    let second = "Host: "@ + host;
    assert forall|i: int| 0 <= i < second.len() implies #[trigger] second[i] != '\r' && second[i]
        != '\n' by {
        if i >= 6 {
            assert(second[i] == host[i - 6]);
        }
    }
    if let Some(n) = body_len {
        lemma_decimal_one_line(n);
        let last = "Content-Length: "@ + decimal(n);
        assert forall|i: int| 0 <= i < last.len() implies #[trigger] last[i] != '\r' && last[i]
            != '\n' by {
            if i >= 16 {
                assert(last[i] == decimal(n)[i - 16]);
            }
        }
    }
    joined_lines_split_again(lines, "\r\n"@);
    lemma_empty_rest();
}

/// CR LF alone splits into two empty lines.
proof fn lemma_empty_rest()
    ensures
        split_at_crlf("\r\n"@) == seq![Seq::<char>::empty(), Seq::<char>::empty()],
{
    reveal_strlit("\r\n");
    let none = Seq::<Seq<char>>::empty().push(Seq::<char>::empty());
    let blank = Seq::<char>::empty();
    assert forall|i: int| 0 <= i < none.len() implies one_line(#[trigger] none[i]) by {}
    joined_lines_split_again(none, blank);
    assert(none.drop_last() =~= Seq::<Seq<char>>::empty());
    assert(joined(Seq::<Seq<char>>::empty()) =~= blank);
    assert(none.last() =~= blank);
    assert(joined(none) =~= blank + blank + "\r\n"@);
    assert(joined(none) + blank =~= "\r\n"@);
    assert(split_at_crlf(blank) =~= seq![blank]);
    assert(none + seq![blank] =~= seq![Seq::<char>::empty(), Seq::<char>::empty()]);
}

/// Why a response cannot be used.
#[derive(Debug)]
pub enum ResponseError {
    /// The connection closed before the header block was complete.
    ClosedBeforeHeaders,
    HeadersTooLarge,
    TooLarge,
    TimedOut,
    /// No header block in what came.
    Malformed,
    NoStatusLine,
    /// The status line without a status.
    MalformedStatusLine(String),
    NotUtf8,
    /// A transfer encoding that is not understood.
    TransferEncoding(String),
    /// A content length that is no number.
    ContentLength,
    DuplicateContentLength,
    /// A content length beyond the address space.
    AddressSpace(u64),
    /// The connection closed before the declared length had come.
    Truncated { expected: usize, got: usize },
}

/// Why a response cannot be used.
pub enum ResponseFault {
    ClosedBeforeHeaders,
    HeadersTooLarge,
    TooLarge,
    TimedOut,
    Malformed,
    NoStatusLine,
    MalformedStatusLine(Seq<char>),
    NotUtf8,
    TransferEncoding(Seq<char>),
    ContentLength,
    DuplicateContentLength,
    AddressSpace(u64),
    Truncated { expected: nat, got: nat },
}

impl View for ResponseError {
    type V = ResponseFault;

    open spec fn view(&self) -> ResponseFault {
        match *self {
            ResponseError::ClosedBeforeHeaders => ResponseFault::ClosedBeforeHeaders,
            ResponseError::HeadersTooLarge => ResponseFault::HeadersTooLarge,
            ResponseError::TooLarge => ResponseFault::TooLarge,
            ResponseError::TimedOut => ResponseFault::TimedOut,
            ResponseError::Malformed => ResponseFault::Malformed,
            ResponseError::NoStatusLine => ResponseFault::NoStatusLine,
            ResponseError::MalformedStatusLine(s) => ResponseFault::MalformedStatusLine(s@),
            ResponseError::NotUtf8 => ResponseFault::NotUtf8,
            ResponseError::TransferEncoding(s) => ResponseFault::TransferEncoding(s@),
            ResponseError::ContentLength => ResponseFault::ContentLength,
            ResponseError::DuplicateContentLength => ResponseFault::DuplicateContentLength,
            ResponseError::AddressSpace(n) => ResponseFault::AddressSpace(n),
            ResponseError::Truncated { expected, got } => ResponseFault::Truncated {
                expected: expected as nat,
                got: got as nat,
            },
        }
    }
}

impl ResponseFault {
    /// The sentence for `ResponseError::message`.
    pub open spec fn message(self) -> Seq<char> {
        match self {
            ResponseFault::ClosedBeforeHeaders => "Connection closed before headers complete"@,
            ResponseFault::HeadersTooLarge => "HTTP response headers exceed size limit"@,
            ResponseFault::TooLarge => {
                "HTTP response body exceeds size limit of 1048576 bytes"@
            },
            ResponseFault::TimedOut => "HTTP response timed out after 30s"@,
            ResponseFault::Malformed => "Malformed HTTP response"@,
            ResponseFault::NoStatusLine => "No status line"@,
            ResponseFault::MalformedStatusLine(line) => "Malformed status line: "@ + line,
            ResponseFault::NotUtf8 => "HTTP response headers are not UTF-8"@,
            ResponseFault::TransferEncoding(value) => {
                "Unsupported HTTP transfer encoding: "@ + value
            },
            ResponseFault::ContentLength => "Invalid HTTP Content-Length header"@,
            ResponseFault::DuplicateContentLength => "Duplicate HTTP Content-Length header"@,
            ResponseFault::AddressSpace(n) => "Content-Length "@ + decimal(n as nat)
                + " exceeds address space"@,
            ResponseFault::Truncated { expected, got } => {
                "HTTP response truncated: expected "@ + decimal(expected) + " bytes, got "@
                    + decimal(got)
            },
        }
    }
}

impl ResponseError {
    /// A sentence for a log.
    pub fn message(&self) -> (r: String)
        ensures
            r@ == self@.message(),
    {
        match self {
            ResponseError::ClosedBeforeHeaders => {
                "Connection closed before headers complete".to_owned()
            },
            ResponseError::HeadersTooLarge => "HTTP response headers exceed size limit".to_owned(),
            ResponseError::TooLarge => {
                "HTTP response body exceeds size limit of 1048576 bytes".to_owned()
            },
            ResponseError::TimedOut => "HTTP response timed out after 30s".to_owned(),
            ResponseError::Malformed => "Malformed HTTP response".to_owned(),
            ResponseError::NoStatusLine => "No status line".to_owned(),
            ResponseError::MalformedStatusLine(line) => {
                let mut text = "Malformed status line: ".to_owned();
                text.append(line.as_str());
                text
            },
            ResponseError::NotUtf8 => "HTTP response headers are not UTF-8".to_owned(),
            ResponseError::TransferEncoding(value) => {
                let mut text = "Unsupported HTTP transfer encoding: ".to_owned();
                text.append(value.as_str());
                text
            },
            ResponseError::ContentLength => "Invalid HTTP Content-Length header".to_owned(),
            ResponseError::DuplicateContentLength => {
                "Duplicate HTTP Content-Length header".to_owned()
            },
            ResponseError::AddressSpace(n) => {
                let mut text = "Content-Length ".to_owned();
                text.append(decimal_text(*n).as_str());
                text.append(" exceeds address space");
                text
            },
            ResponseError::Truncated { expected, got } => {
                let mut text = "HTTP response truncated: expected ".to_owned();
                text.append(decimal_text(*expected as u64).as_str());
                text.append(" bytes, got ");
                text.append(decimal_text(*got as u64).as_str());
                text
            },
        }
    }
}

/// The status code in the first line of a header block: its second word.
pub open spec fn status_code_of(header: Seq<char>) -> Result<u16, ResponseFault> {
    let all = lines_of(header);
    if all.len() == 0 {
        Err(ResponseFault::NoStatusLine)
    } else {
        match parsed_number(first_word(after_first_word(all[0])), 0xffff) {
            Some(code) => Ok(code as u16),
            None => Err(ResponseFault::MalformedStatusLine(all[0])),
        }
    }
}

/// The status code in the first line of a header block.
pub fn parse_status_code(header_bytes: &[u8]) -> (r: Result<u16, ResponseError>)
    ensures
        match status_code_of(utf8_lossy(header_bytes@)) {
            Ok(code) => r matches Ok(got) && got == code,
            Err(fault) => r matches Err(e) && e@ == fault,
        },
{
    let text = lossy_text(header_bytes);
    status_code_in(text.as_str())
}

/// The status code in the first line of a header block.
pub fn status_code_in(header: &str) -> (r: Result<u16, ResponseError>)
    ensures
        match status_code_of(header@) {
            Ok(code) => r matches Ok(got) && got == code,
            Err(fault) => r matches Err(e) && e@ == fault,
        },
{
    let chars = chars_of(header);
    let all = lines(chars.as_slice());
    assert(pieces(all@).len() == all@.len());
    if all.len() == 0 {
        return Err(ResponseError::NoStatusLine);
    }
    let line = all[0];
    assert(pieces(all@)[0] == line@);
    let (_, after) = take_word(line);
    let (word, _) = take_word(after);
    match parse_number(word, 0xffff) {
        Some(code) => Ok(code as u16),
        None => Err(ResponseError::MalformedStatusLine(string_of(line))),
    }
}

/// The declared body length that header lines give, `seen` being what earlier
/// lines gave. A transfer encoding that cannot be decoded is a fault.
pub open spec fn declared_length(fields: Seq<Seq<char>>, seen: Option<u64>) -> Result<
    Option<u64>,
    ResponseFault,
>
    decreases fields.len(),
{
    if fields.len() == 0 {
        Ok(seen)
    } else {
        let line = fields[0];
        let rest = fields.skip(1);
        let name = trimmed(field_name(line));
        let value = field_value(line);
        if !has_colon(line) {
            declared_length(rest, seen)
        } else if same_ignoring_case(name, "transfer-encoding"@) && !same_ignoring_case(
            value,
            "identity"@,
        ) {
            Err(ResponseFault::TransferEncoding(value))
        } else if same_ignoring_case(name, "content-length"@) {
            match parsed_number(value, u64::MAX as nat) {
                None => Err(ResponseFault::ContentLength),
                Some(n) => if seen is Some {
                    Err(ResponseFault::DuplicateContentLength)
                } else {
                    declared_length(rest, Some(n as u64))
                },
            }
        } else {
            declared_length(rest, seen)
        }
    }
}

/// `all` without its first line, if it has one.
pub open spec fn after_status_line(all: Seq<Seq<char>>) -> Seq<Seq<char>> {
    if all.len() == 0 {
        all
    } else {
        all.skip(1)
    }
}

/// The declared body length of a header block, `None` when the body is delimited
/// by the connection closing.
pub open spec fn body_length_of(header: Seq<u8>) -> Result<Option<u64>, ResponseFault> {
    if !valid_utf8(header) {
        Err(ResponseFault::NotUtf8)
    } else {
        declared_length(after_status_line(lines_of(decode_utf8(header))), None)
    }
}

/// The declared body length, or `None` when the response is delimited by the
/// connection closing. A transfer encoding that cannot be decoded is an error
/// rather than a `None`: handing the framed bytes back as the body would corrupt
/// the download and report it as a success.
pub fn parse_streaming_body_length(header_bytes: &[u8]) -> (r: Result<Option<u64>, ResponseError>)
    ensures
        match body_length_of(header_bytes@) {
            Ok(length) => r matches Ok(got) && got == length,
            Err(fault) => r matches Err(e) && e@ == fault,
        },
{
    let text = match utf8_text(header_bytes) {
        Some(text) => text,
        None => {
            return Err(ResponseError::NotUtf8);
        },
    };
    proof {
        vstd::utf8::encode_utf8_decode_utf8(text@);
    }
    let chars = chars_of(text);
    let all = lines(chars.as_slice());
    let ghost views = lines_of(text@);
    let ghost fields = after_status_line(views);
    assert(views.len() == all@.len());
    if all.len() == 0 {
        return Ok(None);
    }
    let mut seen: Option<u64> = None;
    let mut i: usize = 1;
    assert(fields.skip(0) =~= fields);
    while i < all.len()
        invariant
            1 <= i <= all@.len(),
            views == pieces(all@),
            fields == views.skip(1),
            body_length_of(header_bytes@) == declared_length(fields.skip(i - 1), seen),
        decreases all@.len() - i,
    {
        let ghost rest = fields.skip(i - 1);
        let line = all[i];
        proof {
            assert(views[i as int] == line@);
            assert(rest[0] == line@);
            assert(rest.skip(1) =~= fields.skip(i as int));
        }
        if let Some((name, value)) = split_field(line) {
            let name = trim(name);
            if eq_ignore_case(name, "transfer-encoding") && !eq_ignore_case(value, "identity") {
                return Err(ResponseError::TransferEncoding(string_of(value)));
            }
            if eq_ignore_case(name, "content-length") {
                match parse_number(value, u64::MAX) {
                    None => {
                        return Err(ResponseError::ContentLength);
                    },
                    Some(n) => {
                        if seen.is_some() {
                            return Err(ResponseError::DuplicateContentLength);
                        }
                        seen = Some(n);
                    },
                }
            }
        }
        i += 1;
    }
    Ok(seen)
}

/// A response that was read whole.
#[derive(Debug)]
pub struct HttpResponse {
    pub status_code: u16,
    pub body: Vec<u8>,
}

/// What a response that was read to its end comes to: its status and its body,
/// cut to the declared length.
pub open spec fn response_of(buf: Seq<u8>) -> Result<(u16, Seq<u8>), ResponseFault> {
    match blank_line_from(buf, 0) {
        None => Err(ResponseFault::Malformed),
        Some(end) => {
            let header = buf.take(end);
            let body = buf.skip(end + 4);
            match status_code_of(utf8_lossy(header)) {
                Err(fault) => Err(fault),
                Ok(status) => match body_length_of(header) {
                    Err(fault) => Err(fault),
                    Ok(None) => Ok((status, body)),
                    Ok(Some(n)) => if n > usize::MAX {
                        Err(ResponseFault::AddressSpace(n))
                    } else if body.len() < n {
                        Err(ResponseFault::Truncated { expected: n as nat, got: body.len() })
                    } else {
                        Ok((status, body.take(n as int)))
                    },
                },
            }
        },
    }
}

/// Parses a response that was read to its end.
pub fn parse_http_response(response_buf: &[u8]) -> (r: Result<HttpResponse, ResponseError>)
    ensures
        match response_of(response_buf@) {
            Ok((status, body)) => r matches Ok(got) && got.status_code == status && got.body@ == body,
            Err(fault) => r matches Err(e) && e@ == fault,
        },
{
    let end = match find_header_end(response_buf) {
        Some(end) => end,
        None => {
            return Err(ResponseError::Malformed);
        },
    };
    let header = &response_buf[0..end];
    let rest = &response_buf[end + 4..response_buf.len()];
    assert(header@ =~= response_buf@.take(end as int));
    assert(rest@ =~= response_buf@.skip(end + 4));
    let status_code = match parse_status_code(header) {
        Ok(code) => code,
        Err(e) => {
            return Err(e);
        },
    };
    let length = match parse_streaming_body_length(header) {
        Ok(length) => length,
        Err(e) => {
            return Err(e);
        },
    };
    let body = match length {
        None => to_vec(rest),
        Some(n) => {
            if n > usize::MAX as u64 {
                return Err(ResponseError::AddressSpace(n));
            }
            let expected: usize = n as usize;
            if rest.len() < expected {
                return Err(ResponseError::Truncated { expected, got: rest.len() });
            }
            let declared = &rest[0..expected];
            assert(declared@ =~= rest@.take(expected as int));
            to_vec(declared)
        },
    };
    Ok(HttpResponse { status_code, body })
}

/// What came of a read from the connection.
pub enum ReadEvent<'a> {
    Data(&'a [u8]),
    /// The peer closed the connection.
    Closed,
    /// The socket's timeout fired.
    TimedOut,
}

/// A response that is read to its end before it is parsed.
pub struct BufferedResponse {
    pub bytes: Vec<u8>,
}

impl BufferedResponse {
    /// No response yet.
    pub fn new() -> (r: BufferedResponse)
        ensures
            r.bytes@ == Seq::<u8>::empty(),
    {
        BufferedResponse { bytes: Vec::new() }
    }

    /// Takes in what came of a read: the response once the connection is closed,
    /// `None` while more is awaited. A timeout is never a finished body: it would
    /// hand back a truncated response as a success.
    pub fn advance(&mut self, event: ReadEvent<'_>) -> (r: Result<
        Option<HttpResponse>,
        ResponseError,
    >)
        ensures
            old(self).bytes@.len() <= 1048576 ==> final(self).bytes@.len() <= 1048576,
            match event {
                ReadEvent::Data(chunk) => if old(self).bytes@.len() + chunk@.len()
                    > 1048576 {
                    &&& final(self).bytes@ == old(self).bytes@
                    &&& r matches Err(e) && e@ == ResponseFault::TooLarge
                } else {
                    &&& final(self).bytes@ == old(self).bytes@ + chunk@
                    &&& r matches Ok(None)
                },
                ReadEvent::Closed => {
                    &&& final(self).bytes@ == old(self).bytes@
                    &&& match response_of(old(self).bytes@) {
                        Ok((status, body)) => r matches Ok(Some(got)) && got.status_code == status
                            && got.body@ == body,
                        Err(fault) => r matches Err(e) && e@ == fault,
                    }
                },
                ReadEvent::TimedOut => {
                    &&& final(self).bytes@ == old(self).bytes@
                    &&& r matches Err(e) && e@ == ResponseFault::TimedOut
                },
            },
    {
        match event {
            ReadEvent::Data(chunk) => {
                let held = self.bytes.len();
                if held > MAX_RESPONSE_BODY_BYTES || chunk.len() > MAX_RESPONSE_BODY_BYTES - held {
                    return Err(ResponseError::TooLarge);
                }
                self.bytes.extend_from_slice(chunk);
                Ok(None)
            },
            ReadEvent::Closed => match parse_http_response(self.bytes.as_slice()) {
                Ok(response) => Ok(Some(response)),
                Err(e) => Err(e),
            },
            ReadEvent::TimedOut => Err(ResponseError::TimedOut),
        }
    }
}

/// A counter that enforces an exact byte count: a stream that ends before
/// `remaining` bytes were read is an error rather than a shorter body.
#[derive(Clone, Copy, Debug, PartialEq, Eq, Structural)]
pub struct ExactLengthReader {
    pub remaining: u64,
}

impl ExactLengthReader {
    /// How many bytes to read from the stream, when `want` are asked for; zero
    /// where nothing is to be read.
    pub fn allowance(&self, want: usize) -> (n: usize)
        ensures
            n == if self.remaining < want { self.remaining as int } else { want as int },
    {
        if self.remaining < want as u64 {
            self.remaining as usize
        } else {
            want
        }
    }

    /// Counts a read of `n` bytes, where `asked` were read for. Without any the
    /// stream has ended too early: the bytes that are missing.
    pub fn took(&mut self, asked: usize, n: usize) -> (r: Result<usize, u64>)
        requires
            n <= asked <= old(self).remaining,
        ensures
            asked > 0 && n == 0 ==> *final(self) == *old(self) && r == Err::<usize, u64>(
                old(self).remaining,
            ),
            !(asked > 0 && n == 0) ==> final(self).remaining == old(self).remaining - n && r == Ok::<
                usize,
                u64,
            >(n),
    {
        if asked > 0 && n == 0 {
            return Err(self.remaining);
        }
        self.remaining = self.remaining - n as u64;
        Ok(n)
    }

    /// What to say of a connection that closed with `remaining` bytes missing.
    pub fn shortfall_message(remaining: u64) -> (r: String)
        ensures
            r@ == "Connection closed prematurely: "@ + decimal(remaining as nat)
                + " bytes remaining"@,
    {
        let mut text = "Connection closed prematurely: ".to_owned();
        text.append(decimal_text(remaining).as_str());
        text.append(" bytes remaining");
        text
    }
}

/// The head of a streamed response: its status, the body bytes that came along
/// with the header block, and how many body bytes there are in all, where the
/// response says so.
#[derive(Debug)]
pub struct StreamingHead {
    pub status_code: u16,
    pub overflow: Vec<u8>,
    pub length: Option<u64>,
}

/// What the bytes of a streamed response come to once its header block is in.
pub open spec fn streaming_head_of(buf: Seq<u8>) -> Result<
    (u16, Seq<u8>, Option<u64>),
    ResponseFault,
> {
    let end = blank_line_from(buf, 0)->0 + 4;
    let header = buf.take(end);
    match status_code_of(utf8_lossy(header)) {
        Err(fault) => Err(fault),
        Ok(status) => match body_length_of(header) {
            Err(fault) => Err(fault),
            Ok(length) => Ok((status, buf.skip(end), length)),
        },
    }
}

/// The header block of a streamed response as it arrives.
pub struct StreamingResponse {
    pub bytes: Vec<u8>,
}

impl StreamingResponse {
    /// No response yet.
    pub fn new() -> (r: StreamingResponse)
        ensures
            r.bytes@ == Seq::<u8>::empty(),
    {
        StreamingResponse { bytes: Vec::new() }
    }

    /// Takes in bytes that arrived, or the end of the stream where there are
    /// none: the head of the response once its header block is complete, `None`
    /// while more is awaited.
    pub fn advance(&mut self, chunk: &[u8]) -> (r: Result<Option<StreamingHead>, ResponseError>)
        ensures
            final(self).bytes@ == old(self).bytes@ + chunk@,
            chunk@.len() == 0 ==> (r matches Err(e) && e@ == ResponseFault::ClosedBeforeHeaders),
            chunk@.len() > 0 ==> {
                let buf = final(self).bytes@;
                if blank_line_from(buf, 0) is Some {
                    match streaming_head_of(buf) {
                        Ok((status, overflow, length)) => r matches Ok(Some(head))
                            && head.status_code == status && head.overflow@ == overflow
                            && head.length == length,
                        Err(fault) => r matches Err(e) && e@ == fault,
                    }
                } else if buf.len() > 8192 {
                    r matches Err(e) && e@ == ResponseFault::HeadersTooLarge
                } else {
                    r matches Ok(None)
                }
            },
    {
        if chunk.len() == 0 {
            assert(old(self).bytes@ + chunk@ =~= old(self).bytes@);
            return Err(ResponseError::ClosedBeforeHeaders);
        }
        self.bytes.extend_from_slice(chunk);
        let buf = self.bytes.as_slice();
        match find_header_end(buf) {
            None => {
                if buf.len() > MAX_RESPONSE_HEADER_BYTES {
                    Err(ResponseError::HeadersTooLarge)
                } else {
                    Ok(None)
                }
            },
            Some(at) => {
                let end = at + 4;
                let header = &buf[0..end];
                let rest = &buf[end..buf.len()];
                assert(header@ =~= buf@.take(end as int));
                assert(rest@ =~= buf@.skip(end as int));
                let status_code = match parse_status_code(header) {
                    Ok(code) => code,
                    Err(e) => {
                        return Err(e);
                    },
                };
                let length = match parse_streaming_body_length(header) {
                    Ok(length) => length,
                    Err(e) => {
                        return Err(e);
                    },
                };
                Ok(Some(StreamingHead { status_code, overflow: to_vec(rest), length }))
            },
        }
    }
}

/// A client for requests over TLS or plain TCP.
#[derive(Clone, Copy, Debug)]
pub struct EspHttpClient {
    skip_tls_verify: bool,
}

/// What to dial and what to send for one request.
#[derive(Debug)]
pub struct RequestPlan {
    pub host: String,
    pub port: u16,
    pub use_tls: bool,
    pub skip_tls_verify: bool,
    pub raw_request: String,
}

/// Why no connection is made for a request.
#[derive(Clone, Copy, Debug, PartialEq, Eq, Structural)]
pub enum PlanError {
    Url(UrlError),
    Request(RequestError),
}

impl EspHttpClient {
    /// Whether server certificates go unchecked.
    pub closed spec fn skips_tls_verify(&self) -> bool {
        self.skip_tls_verify
    }

    /// A client; `skip_tls_verify` leaves server certificates unchecked.
    pub fn new(skip_tls_verify: bool) -> (r: EspHttpClient)
        ensures
            r.skips_tls_verify() == skip_tls_verify,
    {
        EspHttpClient { skip_tls_verify }
    }

    /// Media goes straight into its decryptor rather than into a buffer.
    pub fn supports_streaming(&self) -> (r: bool)
        ensures
            r,
    {
        true
    }

    /// What to dial and what to send for a request. The `Host` header keeps the
    /// URL's own authority; only the address that is dialed is mapped under an
    /// emulator.
    pub fn plan(
        &self,
        method: &str,
        url: &str,
        headers: &Vec<(String, String)>,
        body: Option<&[u8]>,
        emulated: bool,
    ) -> (r: Result<RequestPlan, PlanError>)
        ensures
            match url_parts(url@) {
                Err(e) => r matches Err(got) && got == PlanError::Url(e),
                Ok(parts) => match request_fault(
                    method@,
                    parts.path,
                    parts.host,
                    header_views(headers@),
                ) {
                    Some(e) => r matches Err(got) && got == PlanError::Request(e),
                    None => r matches Ok(plan) && plan.host@ == dialed_host(parts.host, emulated)
                        && plan.port == parts.port && plan.use_tls == parts.use_tls
                        && plan.skip_tls_verify == self.skips_tls_verify() && plan.raw_request@
                        == joined(
                        request_lines(
                            method@,
                            parts.path,
                            parts.host,
                            header_views(headers@),
                            len_of(body),
                        ),
                    ) + "\r\n"@,
                },
            },
    {
        match parse_url(url) {
            Err(e) => Err(PlanError::Url(e)),
            Ok((host, port, path, use_tls)) => match build_raw_request(
                method,
                path.as_str(),
                host.as_str(),
                headers,
                body,
            ) {
                Err(e) => Err(PlanError::Request(e)),
                Ok(raw_request) => Ok(
                    RequestPlan {
                        host: qemu_host(host, emulated),
                        port,
                        use_tls,
                        skip_tls_verify: self.skip_tls_verify,
                        raw_request,
                    },
                ),
            },
        }
    }
}

/// Neither a slash nor a colon in it.
pub open spec fn is_host(s: Seq<char>) -> bool {
    forall|i: int| 0 <= i < s.len() ==> #[trigger] s[i] != '/' && s[i] != ':'
}

proof fn lemma_authority(host: Seq<char>, port: Seq<char>, path: Seq<char>, use_tls: bool)
    requires
        is_host(host),
        forall|i: int| 0 <= i < port.len() ==> #[trigger] port[i] != '/',
        path.len() > 0 ==> path[0] == '/',
    ensures
        ({
            let shown = if path.len() > 0 { path } else { seq!['/'] };
            &&& authority_and_path(host + path, use_tls) == Ok::<UrlParts, UrlError>(
                UrlParts { host, port: if use_tls { 443 } else { 80 }, path: shown, use_tls },
            )
            &&& authority_and_path(host + seq![':'] + port + path, use_tls) == match parsed_number(
                port,
                65535,
            ) {
                Some(n) => Ok::<UrlParts, UrlError>(
                    UrlParts { host, port: n, path: shown, use_tls },
                ),
                None => Err::<UrlParts, UrlError>(UrlError::Port),
            }
        }),
{
    reveal_strlit("/");
    assert("/"@ =~= seq!['/']);
    let plain = host + path;
    let n = host.len() as int;
    assert forall|i: int| 0 <= i < n implies plain[i] != '/' by {
        assert(plain[i] == host[i]);
    }
    lemma_find_is(plain, '/', 0, n);
    assert(plain.take(n) =~= host);
    assert(plain.skip(n) =~= path);
    lemma_find_is(host, ':', 0, n);
    let full = host + seq![':'] + port + path;
    let m = n + 1 + port.len();
    assert forall|i: int| 0 <= i < m implies full[i] != '/' by {
        if i < n {
            assert(full[i] == host[i]);
        } else if i > n {
            assert(full[i] == port[i - n - 1]);
        }
    }
    lemma_find_is(full, '/', 0, m);
    let host_port = full.take(m);
    assert(full.skip(m) =~= path);
    assert forall|i: int| 0 <= i < n implies host_port[i] != ':' by {
        assert(host_port[i] == host[i]);
    }
    lemma_find_is(host_port, ':', 0, n);
    assert(host_port.take(n) =~= host);
    assert(host_port.skip(n + 1) =~= port);
}

/// The scheme that a URL can begin with, and whether it asks for TLS.
pub open spec fn is_scheme(scheme: Seq<char>, use_tls: bool) -> bool {
    if use_tls {
        scheme == "https://"@ || scheme == "wss://"@
    } else {
        scheme == "http://"@ || scheme == "ws://"@
    }
}

proof fn lemma_schemes(scheme: Seq<char>, use_tls: bool, rest: Seq<char>)
    requires
        is_scheme(scheme, use_tls),
    ensures
        url_parts(scheme + rest) == authority_and_path(rest, use_tls),
{
    reveal_strlit("https://");
    reveal_strlit("wss://");
    reveal_strlit("http://");
    reveal_strlit("ws://");
    let url = scheme + rest;
    assert(url.skip(scheme.len() as int) =~= rest);
    assert(scheme =~= url.subrange(0, scheme.len() as int));
    assert(url[0] == scheme[0] && url[1] == scheme[1] && url[2] == scheme[2] && url[3]
        == scheme[3] && url[4] == scheme[4]);
    assert("https://"@[4] == 's' && "http://"@[4] == ':' && "wss://"@[0] == 'w' && "ws://"@[0]
        == 'w' && "https://"@[0] == 'h' && "http://"@[0] == 'h' && "wss://"@[2] == 's'
        && "ws://"@[2] == ':');
    if "https://"@.is_prefix_of(url) {
        assert(url.subrange(0, 8)[4] == 's' && url.subrange(0, 8)[0] == 'h');
    }
    if "wss://"@.is_prefix_of(url) {
        assert(url.subrange(0, 6)[2] == 's' && url.subrange(0, 6)[0] == 'w');
    }
    if "http://"@.is_prefix_of(url) {
        assert(url.subrange(0, 7)[4] == ':' && url.subrange(0, 7)[0] == 'h');
    }
    if "ws://"@.is_prefix_of(url) {
        assert(url.subrange(0, 5)[2] == ':' && url.subrange(0, 5)[0] == 'w');
    }
}

/// A URL put together from its parts is taken apart into them: the scheme says whether
/// TLS is used and which port is meant where none is given, 443 or 80; a port stands
/// behind a colon; and without a path the path is a slash.
pub proof fn urls_are_their_parts(
    scheme: Seq<char>,
    use_tls: bool,
    host: Seq<char>,
    port: Seq<char>,
    path: Seq<char>,
)
    requires
        is_scheme(scheme, use_tls),
        is_host(host),
        forall|i: int| 0 <= i < port.len() ==> #[trigger] port[i] != '/',
        path.len() > 0 ==> path[0] == '/',
    ensures
        ({
            let shown = if path.len() > 0 { path } else { seq!['/'] };
            &&& url_parts(scheme + (host + path)) == Ok::<UrlParts, UrlError>(
                UrlParts { host, port: if use_tls { 443 } else { 80 }, path: shown, use_tls },
            )
            &&& url_parts(scheme + (host + seq![':'] + port + path)) == match parsed_number(
                port,
                65535,
            ) {
                Some(n) => Ok::<UrlParts, UrlError>(
                    UrlParts { host, port: n, path: shown, use_tls },
                ),
                None => Err::<UrlParts, UrlError>(UrlError::Port),
            }
        }),
{
    lemma_schemes(scheme, use_tls, host + path);
    lemma_schemes(scheme, use_tls, host + seq![':'] + port + path);
    lemma_authority(host, port, path, use_tls);
}

/// A URL of any other scheme is refused.
pub proof fn other_schemes_are_refused(url: Seq<char>)
    ensures
        url_parts(url) == Err::<UrlParts, UrlError>(UrlError::Scheme) <==> !("https://"@.is_prefix_of(
            url,
        ) || "wss://"@.is_prefix_of(url) || "http://"@.is_prefix_of(url) || "ws://"@.is_prefix_of(
            url,
        )),
{
}

/// Only the loopback names are dialed elsewhere, and only under an emulator.
pub proof fn only_loopback_is_mapped(host: Seq<char>)
    ensures
        dialed_host(host, false) == host,
        dialed_host("127.0.0.1"@, true) == "10.0.2.2"@,
        dialed_host("localhost"@, true) == "10.0.2.2"@,
        host != "127.0.0.1"@ && host != "localhost"@ ==> dialed_host(host, true) == host,
{
}

/// What may stand in a method or a header name, in a path or a host, and in a header
/// value.
pub proof fn request_characters_are_those_of_http(c: char)
    ensures
        is_token_char(c) <==> ('a' <= c <= 'z') || ('A' <= c <= 'Z') || ('0' <= c <= '9')
            || "!#$%&'*+-.^_`|~"@.contains(c),
        is_control_or_space(c) <==> c <= ' ' || c == '\u{7f}',
{
    reveal_strlit("!#$%&'*+-.^_`|~");
    let marks = "!#$%&'*+-.^_`|~"@;
    assert(marks[0] == '!' && marks[1] == '#' && marks[2] == '$' && marks[3] == '%' && marks[4]
        == '&' && marks[5] == '\'' && marks[6] == '*' && marks[7] == '+' && marks[8] == '-'
        && marks[9] == '.' && marks[10] == '^' && marks[11] == '_' && marks[12] == '`' && marks[13]
        == '|' && marks[14] == '~');
    assert(marks.len() == 15);
    if marks.contains(c) {
        let i = choose|i: int| 0 <= i < marks.len() && marks[i] == c;
        assert(marks[i] == c);
    }
}

/// A request is refused for the first of its parts that could break out of its place,
/// and sent where there is none.
pub proof fn requests_are_refused_part_by_part(
    method: Seq<char>,
    path: Seq<char>,
    host: Seq<char>,
    headers: Seq<(Seq<char>, Seq<char>)>,
)
    ensures
        ({
            let method_ok = method.len() > 0 && forall|i: int|
                0 <= i < method.len() ==> is_token_char(#[trigger] method[i]);
            let path_ok = path.len() > 0 && path[0] == '/' && forall|i: int|
                0 <= i < path.len() ==> !(#[trigger] path[i] <= ' ' || path[i] == '\u{7f}');
            let host_ok = host.len() > 0 && forall|i: int|
                0 <= i < host.len() ==> !(#[trigger] host[i] <= ' ' || host[i] == '\u{7f}');
            let headers_ok = forall|k: int|
                0 <= k < headers.len() ==> is_token((#[trigger] headers[k]).0)
                    && !headers[k].1.contains('\r') && !headers[k].1.contains('\n')
                    && !headers[k].1.contains('\0');
            request_fault(method, path, host, headers) == if !method_ok {
                Some(RequestError::Method)
            } else if !path_ok {
                Some(RequestError::Target)
            } else if !host_ok {
                Some(RequestError::Host)
            } else if !headers_ok {
                Some(RequestError::Header)
            } else {
                None
            }
        }),
        is_token(method) <==> method.len() > 0 && forall|i: int|
            0 <= i < method.len() ==> is_token_char(#[trigger] method[i]),
{
    reveal_strlit("/");
    if path.len() > 0 {
        assert("/"@.is_prefix_of(path) <==> path[0] == '/') by {
            assert(path.subrange(0, 1)[0] == path[0]);
            if path[0] == '/' {
                assert("/"@ =~= path.subrange(0, 1));
            }
        }
    }
    lemma_plain(path);
    lemma_plain(host);
    assert forall|k: int| 0 <= k < headers.len() implies (is_header_value((
    #[trigger] headers[k]).1) <==> !headers[k].1.contains('\r') && !headers[k].1.contains('\n')
        && !headers[k].1.contains('\0')) by {
        let value = headers[k].1;
        if is_header_value(value) {
            assert forall|i: int| 0 <= i < value.len() implies value[i] != '\r' && value[i] != '\n'
                && value[i] != '\0' by {}
        } else {
            let i = choose|i: int|
                0 <= i < value.len() && !(#[trigger] value[i] != '\r' && value[i] != '\n'
                    && value[i] != '\0');
            assert(value.contains(value[i]));
        }
    }
    let headers_ok = forall|k: int|
        0 <= k < headers.len() ==> is_token((#[trigger] headers[k]).0)
            && !headers[k].1.contains('\r') && !headers[k].1.contains('\n')
            && !headers[k].1.contains('\0');
    let all = forall|i: int|
        0 <= i < headers.len() ==> is_header((#[trigger] headers[i]).0, headers[i].1);
    assert(headers_ok <==> all) by {
        if all {
            assert forall|k: int| 0 <= k < headers.len() implies is_token((
            #[trigger] headers[k]).0) && !headers[k].1.contains('\r') && !headers[k].1.contains(
                '\n',
            ) && !headers[k].1.contains('\0') by {
                assert(is_header(headers[k].0, headers[k].1));
            }
        }
    }
}

proof fn lemma_plain(s: Seq<char>)
    ensures
        is_plain(s) <==> forall|i: int|
            0 <= i < s.len() ==> !(#[trigger] s[i] <= ' ' || s[i] == '\u{7f}'),
{
    assert forall|i: int| 0 <= i < s.len() implies (is_control_or_space(#[trigger] s[i]) <==> s[i]
        <= ' ' || s[i] == '\u{7f}') by {
        request_characters_are_those_of_http(s[i]);
    }
    if is_plain(s) {
        assert forall|i: int| 0 <= i < s.len() implies !(#[trigger] s[i] <= ' ' || s[i]
            == '\u{7f}') by {
            assert(!is_control_or_space(s[i]));
        }
    }
    if forall|i: int| 0 <= i < s.len() ==> !(#[trigger] s[i] <= ' ' || s[i] == '\u{7f}') {
        assert forall|i: int| 0 <= i < s.len() implies !is_control_or_space(#[trigger] s[i]) by {}
    }
}

/// Headers are sent in the order they were given, each as its name, a colon and its
/// value; only where there is a body is a given length left out, as the real one is sent.
pub proof fn headers_are_sent_in_order(
    headers: Seq<(Seq<char>, Seq<char>)>,
    name: Seq<char>,
    value: Seq<char>,
    has_body: bool,
)
    ensures
        header_lines(Seq::empty(), has_body) == Seq::<Seq<char>>::empty(),
        header_lines(headers.push((name, value)), has_body) == if has_body && same_ignoring_case(
            name,
            "content-length"@,
        ) {
            header_lines(headers, has_body)
        } else {
            header_lines(headers, has_body).push(name + seq![':', ' '] + value)
        },
        header_lines(headers, false).len() == headers.len(),
        forall|i: int|
            0 <= i < headers.len() ==> #[trigger] header_lines(headers, false)[i] == headers[i].0
                + seq![':', ' '] + headers[i].1,
    decreases headers.len(),
{
    reveal_strlit(": ");
    assert(": "@ =~= seq![':', ' ']);
    assert(headers.push((name, value)).drop_last() =~= headers);
    if headers.len() > 0 {
        headers_are_sent_in_order(headers.drop_last(), name, value, has_body);
        let before = header_lines(headers.drop_last(), false);
        assert forall|i: int| 0 <= i < headers.len() implies #[trigger] header_lines(
            headers,
            false,
        )[i] == headers[i].0 + seq![':', ' '] + headers[i].1 by {
            if i < before.len() {
                assert(before[i] == headers.drop_last()[i].0 + seq![':', ' ']
                    + headers.drop_last()[i].1);
            }
        }
    }
}

/// A request begins with its method, its path and its host, asks for the connection to
/// be closed, and ends with the length of its body where it has one.
pub proof fn requests_say_what_is_asked(
    method: Seq<char>,
    path: Seq<char>,
    host: Seq<char>,
    headers: Seq<(Seq<char>, Seq<char>)>,
    body_len: Option<nat>,
)
    ensures
        ({
            let lines = request_lines(method, path, host, headers, body_len);
            let given = header_lines(headers, body_len is Some);
            &&& lines.len() == 3 + given.len() + if body_len is Some { 1nat } else { 0nat }
            &&& lines[0] == method + " "@ + path + " HTTP/1.1"@
            &&& lines[1] == "Host: "@ + host
            &&& lines[2] == "Connection: close"@
            &&& forall|i: int| 0 <= i < given.len() ==> lines[3 + i] == #[trigger] given[i]
            &&& body_len is Some ==> lines.last() == "Content-Length: "@ + decimal(body_len->0)
        }),
        header_views(Seq::empty()).len() == 0,
        forall|body: &[u8]| #[trigger] len_of(Some(body)) == Some(body@.len()),
        len_of(None) is None,
{
}

/// The status of a response is the second word of its first line.
pub proof fn status_is_the_second_word(
    version: Seq<char>,
    gap: Seq<char>,
    code: Seq<char>,
    reason: Seq<char>,
    rest: Seq<char>,
)
    requires
        is_word(version),
        is_word(code),
        gap.len() > 0,
        is_blank(gap),
        reason.len() > 0 ==> is_white_space(reason[0]),
        reason.len() > 0 ==> reason.last() != '\r',
        forall|i: int|
            0 <= i < (version + gap + code + reason).len() ==> #[trigger] (version + gap + code
                + reason)[i] != '\n',
    ensures
        ({
            let line = version + gap + code + reason;
            status_code_of(line + seq!['\r', '\n'] + rest) == match parsed_number(code, 65535) {
                Some(n) => Ok::<u16, ResponseFault>(n as u16),
                None => Err::<u16, ResponseFault>(ResponseFault::MalformedStatusLine(line)),
            }
        }),
        status_code_of(Seq::empty()) == Err::<u16, ResponseFault>(ResponseFault::NoStatusLine),
{
    let line = version + gap + code + reason;
    let none = Seq::<char>::empty();
    if reason.len() == 0 {
        assert(line.last() == code.last());
        assert(!is_white_space(code[code.len() - 1]));
    } else {
        assert(line.last() == reason.last());
    }
    lines_end_at_line_feeds(line, rest);
    let after = gap + code + reason;
    assert(line =~= none + version + after);
    assert(after[0] == gap[0]);
    words_stand_between_white_space(none, version, after);
    words_stand_between_white_space(gap, code, reason);
}

/// A header line of this name, case aside.
pub open spec fn is_named(line: Seq<char>, name: Seq<char>) -> bool {
    has_colon(line) && same_ignoring_case(trimmed(field_name(line)), name)
}

/// A header line that says something about how long the body is.
pub open spec fn is_about_length(line: Seq<char>) -> bool {
    is_named(line, "content-length"@) || is_named(line, "transfer-encoding"@)
}

proof fn lemma_no_length(fields: Seq<Seq<char>>, more: Seq<Seq<char>>, seen: Option<u64>)
    requires
        forall|i: int| 0 <= i < fields.len() ==> !is_about_length(#[trigger] fields[i]),
    ensures
        declared_length(fields + more, seen) == declared_length(more, seen),
    decreases fields.len(),
{
    if fields.len() == 0 {
        assert(fields + more =~= more);
    } else {
        assert(!is_about_length(fields[0]));
        let rest = fields.skip(1);
        assert((fields + more)[0] == fields[0]);
        assert((fields + more).skip(1) =~= rest + more);
        assert forall|i: int| 0 <= i < rest.len() implies !is_about_length(#[trigger] rest[i]) by {
            assert(rest[i] == fields[i + 1]);
        }
        lemma_no_length(rest, more, seen);
    }
}

proof fn lemma_length_names_differ(name: Seq<char>)
    ensures
        !(same_ignoring_case(name, "content-length"@) && same_ignoring_case(
            name,
            "transfer-encoding"@,
        )),
{
    reveal_strlit("content-length");
    reveal_strlit("transfer-encoding");
    assert("content-length"@.len() == 14 && "transfer-encoding"@.len() == 17);
}

/// The body of a response is as long as its one `Content-Length` line says, whatever
/// else its lines say; without such a line the end of the connection ends it. A length
/// that is no number, a second length, and a transfer encoding other than the identity
/// are refused.
pub proof fn bodies_are_as_long_as_declared(
    before: Seq<Seq<char>>,
    line: Seq<char>,
    after: Seq<Seq<char>>,
    again: Seq<char>,
)
    requires
        forall|i: int| 0 <= i < before.len() ==> !is_about_length(#[trigger] before[i]),
        forall|i: int| 0 <= i < after.len() ==> !is_about_length(#[trigger] after[i]),
    ensures
        declared_length(before, None) == Ok::<Option<u64>, ResponseFault>(None),
        is_named(line, "content-length"@) ==> declared_length(before + (seq![line] + after), None)
            == match parsed_number(field_value(line), 0xffff_ffff_ffff_ffff) {
            Some(n) => Ok::<Option<u64>, ResponseFault>(Some(n as u64)),
            None => Err::<Option<u64>, ResponseFault>(ResponseFault::ContentLength),
        },
        is_named(line, "content-length"@) && is_named(again, "content-length"@) && parsed_number(
            field_value(line),
            0xffff_ffff_ffff_ffff,
        ) is Some && parsed_number(field_value(again), 0xffff_ffff_ffff_ffff) is Some
            ==> declared_length(before + (seq![line] + (after + seq![again])), None) == Err::<
            Option<u64>,
            ResponseFault,
        >(ResponseFault::DuplicateContentLength),
        is_named(line, "transfer-encoding"@) && !same_ignoring_case(field_value(line), "identity"@)
            ==> declared_length(before + (seq![line] + after), None) == Err::<
            Option<u64>,
            ResponseFault,
        >(ResponseFault::TransferEncoding(field_value(line))),
        is_named(line, "transfer-encoding"@) && same_ignoring_case(field_value(line), "identity"@)
            ==> declared_length(before + (seq![line] + after), None) == Ok::<
            Option<u64>,
            ResponseFault,
        >(None),
{
    let none = Seq::<Seq<char>>::empty();
    assert(before + none =~= before);
    assert(after + none =~= after);
    lemma_no_length(before, none, None);
    assert(declared_length(none, None) == Ok::<Option<u64>, ResponseFault>(None));
    let rest = seq![line] + after;
    lemma_no_length(before, rest, None);
    assert(rest[0] == line);
    assert(rest.skip(1) =~= after);
    lemma_length_names_differ(trimmed(field_name(line)));
    lemma_no_length(after, none, None);
    let twice = seq![line] + (after + seq![again]);
    lemma_no_length(before, twice, None);
    assert(twice[0] == line);
    assert(twice.skip(1) =~= after + seq![again]);
    lemma_length_names_differ(trimmed(field_name(again)));
    if let Some(n) = parsed_number(field_value(line), 0xffff_ffff_ffff_ffff) {
        lemma_no_length(after, none, Some(n as u64));
        assert(declared_length(none, Some(n as u64)) == Ok::<Option<u64>, ResponseFault>(
            Some(n as u64),
        ));
        lemma_no_length(after, seq![again], Some(n as u64));
        assert(seq![again][0] == again);
        assert(seq![again].skip(1) =~= none);
    }
}

/// The lines of a header block after its first are the ones that say how long the body
/// is; a block that is no UTF-8 is refused.
pub proof fn lengths_stand_behind_the_status_line(
    header: Seq<u8>,
    status: Seq<char>,
    fields: Seq<Seq<char>>,
)
    requires
        one_line(status),
        forall|i: int| 0 <= i < fields.len() ==> one_line(#[trigger] fields[i]),
        valid_utf8(header),
        decode_utf8(header) == joined(seq![status] + fields) || decode_utf8(header) == joined(
            seq![status] + fields,
        ) + seq!['\r', '\n'],
    ensures
        (forall|i: int| 0 <= i < fields.len() ==> !is_about_length(#[trigger] fields[i]))
            ==> body_length_of(header) == Ok::<Option<u64>, ResponseFault>(None),
        decode_utf8(header) == joined(seq![status] + fields) ==> body_length_of(header)
            == declared_length(fields, None),
        decode_utf8(header) == joined(seq![status] + fields) + seq!['\r', '\n'] ==> body_length_of(
            header,
        ) == declared_length(fields + seq![Seq::<char>::empty()], None),
{
    let lines = seq![status] + fields;
    let none = Seq::<char>::empty();
    assert forall|i: int| 0 <= i < lines.len() implies one_line(#[trigger] lines[i]) by {
        if i > 0 {
            assert(lines[i] == fields[i - 1]);
        }
    }
    assert(joined(lines) + none =~= joined(lines));
    joined_lines_are_read_back(lines, none);
    assert(lines + lines_of(none) =~= lines);
    let blank = seq!['\r', '\n'];
    joined_lines_are_read_back(lines, blank);
    lines_end_at_line_feeds(none, none);
    assert(none + blank + none =~= blank);
    assert(lines_of(blank) =~= seq![none]);
    assert(lines.skip(1) =~= fields);
    assert((lines + seq![none]).skip(1) =~= fields + seq![none]);
    assert(!has_colon(none));
    assert(seq![none].skip(1) =~= Seq::<Seq<char>>::empty());
    if forall|i: int| 0 <= i < fields.len() ==> !is_about_length(#[trigger] fields[i]) {
        lemma_no_length(fields, Seq::empty(), None);
        lemma_no_length(fields, seq![none], None);
        assert(fields + Seq::<Seq<char>>::empty() =~= fields);
        assert(seq![none][0] == none);
        assert(declared_length(Seq::empty(), None) == Ok::<Option<u64>, ResponseFault>(None));
    }
}

/// The head of a streamed response is that of its header block alone: its length is the
/// one the block declares, if it declares one, and all that follows the block is body,
/// however much of it came along.
pub proof fn streamed_heads_are_their_block(block: Seq<u8>, body: Seq<u8>)
    requires
        blank_line_from(block, 0) == Some(block.len() - 4),
    ensures
        streaming_head_of(block + body) == match status_code_of(utf8_lossy(block)) {
            Err(fault) => Err::<(u16, Seq<u8>, Option<u64>), ResponseFault>(fault),
            Ok(status) => match body_length_of(block) {
                Err(fault) => Err::<(u16, Seq<u8>, Option<u64>), ResponseFault>(fault),
                Ok(length) => Ok::<(u16, Seq<u8>, Option<u64>), ResponseFault>(
                    (status, body, length),
                ),
            },
        },
        blank_line_from(block + body, 0) == Some(block.len() - 4),
{
    header_blocks_stay(block, body, 0);
    let end = block.len() as int;
    header_blocks_end_at_the_blank_line(block, 0);
    assert((block + body).take(end) =~= block);
    assert((block + body).skip(end) =~= body);
}

/// A streamed response without a length is ended by the connection, whatever bytes came
/// along with its head; one with a length has that length.
pub proof fn streamed_lengths_are_declared(
    block: Seq<u8>,
    status: Seq<char>,
    fields: Seq<Seq<char>>,
    body: Seq<u8>,
)
    requires
        blank_line_from(block, 0) == Some(block.len() - 4),
        one_line(status),
        forall|i: int| 0 <= i < fields.len() ==> one_line(#[trigger] fields[i]),
        valid_utf8(block),
        decode_utf8(block) == joined(seq![status] + fields) + seq!['\r', '\n'],
        streaming_head_of(block + body) is Ok,
    ensures
        ({
            let (_, overflow, length) = streaming_head_of(block + body)->Ok_0;
            &&& overflow == body
            &&& (forall|i: int| 0 <= i < fields.len() ==> !is_about_length(#[trigger] fields[i]))
                ==> length is None
            &&& forall|k: int|
                0 <= k < fields.len() && is_named(#[trigger] fields[k], "content-length"@) && (
                forall|i: int|
                    0 <= i < fields.len() && i != k ==> !is_about_length(#[trigger] fields[i]))
                    ==> parsed_number(field_value(fields[k]), 0xffff_ffff_ffff_ffff) == Some(
                    length->0 as nat,
                ) && length is Some
        }),
{
    streamed_heads_are_their_block(block, body);
    lengths_stand_behind_the_status_line(block, status, fields);
    let none = Seq::<char>::empty();
    let (_, overflow, length) = streaming_head_of(block + body)->Ok_0;
    if forall|i: int| 0 <= i < fields.len() ==> !is_about_length(#[trigger] fields[i]) {
        assert(length is None);
    }
    assert forall|k: int|
        0 <= k < fields.len() && is_named(#[trigger] fields[k], "content-length"@) && (forall|i: int|
            0 <= i < fields.len() && i != k ==> !is_about_length(
                #[trigger] fields[i],
            )) implies parsed_number(field_value(fields[k]), 0xffff_ffff_ffff_ffff) == Some(
        length->0 as nat,
    ) && length is Some by {
        let before = fields.take(k);
        let after = fields.skip(k + 1) + seq![none];
        assert(fields + seq![none] =~= before + (seq![fields[k]] + after));
        assert forall|i: int| 0 <= i < before.len() implies !is_about_length(
            #[trigger] before[i],
        ) by {
            assert(before[i] == fields[i]);
        }
        assert forall|i: int| 0 <= i < after.len() implies !is_about_length(
            #[trigger] after[i],
        ) by {
            if i < fields.len() - k - 1 {
                assert(after[i] == fields[k + 1 + i]);
            } else {
                assert(after[i] == none);
                assert(!has_colon(none));
            }
        }
        bodies_are_as_long_as_declared(before, fields[k], after, none);
    }
}

/// A response that was read whole gives the body its header block declares, and not a
/// byte more; one with fewer bytes than that is refused, and without a declared length
/// everything after the block is the body.
pub proof fn whole_responses_are_cut_to_their_length(header: Seq<u8>, body: Seq<u8>, n: u64)
    requires
        blank_line_from(header + seq![0x0du8, 0x0a, 0x0d, 0x0a], 0) == Some(header.len() as int),
        status_code_of(utf8_lossy(header)) is Ok,
    ensures
        ({
            let buf = header + seq![0x0du8, 0x0a, 0x0d, 0x0a] + body;
            let status = status_code_of(utf8_lossy(header))->Ok_0;
            &&& body_length_of(header) == Ok::<Option<u64>, ResponseFault>(None) ==> response_of(
                buf,
            ) == Ok::<(u16, Seq<u8>), ResponseFault>((status, body))
            &&& body_length_of(header) == Ok::<Option<u64>, ResponseFault>(Some(n)) && n
                <= usize::MAX && n <= body.len() ==> response_of(buf) == Ok::<
                (u16, Seq<u8>),
                ResponseFault,
            >((status, body.take(n as int)))
            &&& body_length_of(header) == Ok::<Option<u64>, ResponseFault>(Some(n)) && n
                <= usize::MAX && n > body.len() ==> response_of(buf) == Err::<
                (u16, Seq<u8>),
                ResponseFault,
            >(ResponseFault::Truncated { expected: n as nat, got: body.len() })
            &&& body_length_of(header) is Err ==> response_of(buf) is Err
        }),
        forall|buf: Seq<u8>|
            blank_line_from(buf, 0) is None ==> #[trigger] response_of(buf) == Err::<
                (u16, Seq<u8>),
                ResponseFault,
            >(ResponseFault::Malformed),
{
    let block = header + seq![0x0du8, 0x0a, 0x0d, 0x0a];
    let buf = block + body;
    header_blocks_stay(block, body, 0);
    assert(buf.take(header.len() as int) =~= header);
    assert(buf.skip(header.len() + 4int) =~= body);
}

impl Default for EspHttpClient {
    /// A client that checks server certificates.
    fn default() -> (r: EspHttpClient)
        ensures
            !r.skips_tls_verify(),
    {
        EspHttpClient::new(false)
    }
}

/// Why a request or a response was refused is told in these words.
pub proof fn refusals_are_told_in_words(
    fault: ResponseFault,
    refusal: RequestError,
    url: Seq<char>,
)
    ensures
        fault.message() == match fault {
            ResponseFault::ClosedBeforeHeaders => "Connection closed before headers complete"@,
            ResponseFault::HeadersTooLarge => "HTTP response headers exceed size limit"@,
            ResponseFault::TooLarge => {
                "HTTP response body exceeds size limit of 1048576 bytes"@
            },
            ResponseFault::TimedOut => "HTTP response timed out after 30s"@,
            ResponseFault::Malformed => "Malformed HTTP response"@,
            ResponseFault::NoStatusLine => "No status line"@,
            ResponseFault::MalformedStatusLine(line) => "Malformed status line: "@ + line,
            ResponseFault::NotUtf8 => "HTTP response headers are not UTF-8"@,
            ResponseFault::TransferEncoding(value) => {
                "Unsupported HTTP transfer encoding: "@ + value
            },
            ResponseFault::ContentLength => "Invalid HTTP Content-Length header"@,
            ResponseFault::DuplicateContentLength => "Duplicate HTTP Content-Length header"@,
            ResponseFault::AddressSpace(n) => "Content-Length "@ + decimal(n as nat)
                + " exceeds address space"@,
            ResponseFault::Truncated { expected, got } => {
                "HTTP response truncated: expected "@ + decimal(expected) + " bytes, got "@
                    + decimal(got)
            },
        }
    ,
        refusal.spec_message() == match refusal {
            RequestError::Method => "Invalid HTTP method"@,
            RequestError::Target => "Invalid HTTP request target"@,
            RequestError::Host => "Invalid HTTP host"@,
            RequestError::Header => "Invalid HTTP header"@,
        }
    ,
        UrlError::Scheme.spec_message(url) == "Invalid URL scheme: "@ + url,
        UrlError::Port.spec_message(url) == "Invalid URL port: "@ + url,
{
}

/// An error is the fault that it stands for, and headers are their names and values.
pub proof fn errors_are_viewed_as_they_are(error: ResponseError, headers: Seq<(String, String)>)
    ensures
        error@ == match error {
            ResponseError::ClosedBeforeHeaders => ResponseFault::ClosedBeforeHeaders,
            ResponseError::HeadersTooLarge => ResponseFault::HeadersTooLarge,
            ResponseError::TooLarge => ResponseFault::TooLarge,
            ResponseError::TimedOut => ResponseFault::TimedOut,
            ResponseError::Malformed => ResponseFault::Malformed,
            ResponseError::NoStatusLine => ResponseFault::NoStatusLine,
            ResponseError::MalformedStatusLine(s) => ResponseFault::MalformedStatusLine(s@),
            ResponseError::NotUtf8 => ResponseFault::NotUtf8,
            ResponseError::TransferEncoding(s) => ResponseFault::TransferEncoding(s@),
            ResponseError::ContentLength => ResponseFault::ContentLength,
            ResponseError::DuplicateContentLength => ResponseFault::DuplicateContentLength,
            ResponseError::AddressSpace(n) => ResponseFault::AddressSpace(n),
            ResponseError::Truncated { expected, got } => ResponseFault::Truncated {
                expected: expected as nat,
                got: got as nat,
            },
        }
    ,
        header_views(headers).len() == headers.len(),
        forall|i: int|
            0 <= i < headers.len() ==> header_views(headers)[i] == ((#[trigger] headers[i]).0@, headers[i].1@),
{
}

/// No request waits longer than half a minute for its peer.
pub proof fn waits_are_bounded()
    ensures
        HTTP_IO_TIMEOUT_MS == 30000,
        MAX_RESPONSE_HEADER_BYTES == 8192,
        MAX_RESPONSE_BODY_BYTES == 1048576,
{
}

/// Whether a line keeps a length from being declared: an encoding that cannot be decoded,
/// or a length that is no number.
pub open spec fn spoils_length(line: Seq<char>) -> bool {
    ||| is_named(line, "transfer-encoding"@) && !same_ignoring_case(
        field_value(line),
        "identity"@,
    )
    ||| is_named(line, "content-length"@) && parsed_number(
        field_value(line),
        0xffff_ffff_ffff_ffff,
    ) is None
}

/// A length is declared only by lines that all agree to it: none that spoils it, and one
/// length at the most, which is the one declared.
pub proof fn declared_lengths_stand_alone(fields: Seq<Seq<char>>, seen: Option<u64>)
    ensures
        declared_length(fields, seen) matches Ok(length) ==> {
            &&& forall|i: int| 0 <= i < fields.len() ==> !spoils_length(#[trigger] fields[i])
            &&& forall|i: int|
                0 <= i < fields.len() && is_named(#[trigger] fields[i], "content-length"@)
                    ==> seen is None && length is Some && parsed_number(
                    field_value(fields[i]),
                    0xffff_ffff_ffff_ffff,
                ) == Some(length->0 as nat)
            &&& forall|i: int, j: int|
                0 <= i < j < fields.len() && is_named(#[trigger] fields[i], "content-length"@)
                    ==> !is_named(#[trigger] fields[j], "content-length"@)
            &&& (forall|i: int|
                0 <= i < fields.len() ==> !is_named(#[trigger] fields[i], "content-length"@))
                ==> length == seen
        },
        declared_length(fields, seen) is Err ==> exists|i: int|
            {
                &&& 0 <= i < fields.len()
                &&& spoils_length(#[trigger] fields[i]) || (is_named(fields[i], "content-length"@)
                    && (seen is Some || exists|j: int|
                    0 <= j < i && is_named(#[trigger] fields[j], "content-length"@)))
            },
    decreases fields.len(),
{
    if fields.len() > 0 {
        let rest = fields.skip(1);
        let line = fields[0];
        lemma_length_names_differ(trimmed(field_name(line)));
        let then_seen = if is_named(line, "content-length"@) {
            match parsed_number(field_value(line), 0xffff_ffff_ffff_ffff) {
                Some(n) => Some(n as u64),
                None => seen,
            }
        } else {
            seen
        };
        declared_lengths_stand_alone(rest, then_seen);
        assert forall|i: int| 1 <= i < fields.len() implies fields[i] == #[trigger] rest[i - 1] by {}
        if declared_length(fields, seen) is Ok {
            let length = declared_length(fields, seen)->Ok_0;
            assert(declared_length(rest, then_seen) == declared_length(fields, seen));
            assert forall|i: int| 0 <= i < fields.len() implies !spoils_length(
                #[trigger] fields[i],
            ) by {
                if i > 0 {
                    assert(fields[i] == rest[i - 1]);
                }
            }
            assert forall|i: int|
                0 <= i < fields.len() && is_named(
                    #[trigger] fields[i],
                    "content-length"@,
                ) implies seen is None && length is Some && parsed_number(
                field_value(fields[i]),
                0xffff_ffff_ffff_ffff,
            ) == Some(length->0 as nat) by {
                if i > 0 {
                    assert(fields[i] == rest[i - 1]);
                    assert(is_named(rest[i - 1], "content-length"@));
                } else {
                    assert forall|k: int| 0 <= k < rest.len() implies !is_named(
                        #[trigger] rest[k],
                        "content-length"@,
                    ) by {}
                }
            }
            assert forall|i: int, j: int|
                0 <= i < j < fields.len() && is_named(
                    #[trigger] fields[i],
                    "content-length"@,
                ) implies !is_named(#[trigger] fields[j], "content-length"@) by {
                assert(fields[j] == rest[j - 1]);
                if i > 0 {
                    assert(fields[i] == rest[i - 1]);
                    assert(is_named(rest[i - 1], "content-length"@));
                } else if is_named(fields[j], "content-length"@) {
                    assert(is_named(rest[j - 1], "content-length"@));
                }
            }
            if forall|i: int|
                0 <= i < fields.len() ==> !is_named(#[trigger] fields[i], "content-length"@) {
                assert forall|k: int| 0 <= k < rest.len() implies !is_named(
                    #[trigger] rest[k],
                    "content-length"@,
                ) by {
                    assert(rest[k] == fields[k + 1]);
                }
            }
        } else if spoils_length(line) || (is_named(line, "content-length"@) && seen is Some) {
            assert(fields[0] == line);
        } else {
            let k = choose|k: int|
                {
                    &&& 0 <= k < rest.len()
                    &&& spoils_length(#[trigger] rest[k]) || (is_named(rest[k], "content-length"@)
                        && (then_seen is Some || exists|j: int|
                        0 <= j < k && is_named(#[trigger] rest[j], "content-length"@)))
                };
            assert(fields[k + 1] == rest[k]);
            if !spoils_length(rest[k]) {
                if is_named(line, "content-length"@) {
                    assert(is_named(fields[0], "content-length"@));
                } else if seen is None {
                    let j = choose|j: int|
                        0 <= j < k && is_named(#[trigger] rest[j], "content-length"@);
                    assert(fields[j + 1] == rest[j]);
                }
            }
        }
    }
}

} // verus!
