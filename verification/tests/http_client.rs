use whatsapp_esp32::http_client::{
    build_raw_request, parse_http_response, parse_status_code, parse_streaming_body_length,
    parse_url, qemu_host, BufferedResponse, EspHttpClient, ExactLengthReader, PlanError, ReadEvent,
    RequestError, ResponseError, StreamingResponse, UrlError, MAX_RESPONSE_BODY_BYTES,
    MAX_RESPONSE_HEADER_BYTES,
};

fn url(text: &str) -> Result<(String, u16, String, bool), UrlError> {
    parse_url(text)
}

fn parts(host: &str, port: u16, path: &str, tls: bool) -> (String, u16, String, bool) {
    (host.to_string(), port, path.to_string(), tls)
}

#[test]
fn urls_have_a_host_a_port_and_a_path() {
    assert_eq!(url("https://a.example"), Ok(parts("a.example", 443, "/", true)));
    assert_eq!(
        url("wss://web.whatsapp.com/ws/chat"),
        Ok(parts("web.whatsapp.com", 443, "/ws/chat", true))
    );
    assert_eq!(url("http://a:8080/x?y=1"), Ok(parts("a", 8080, "/x?y=1", false)));
    assert_eq!(url("ws://a"), Ok(parts("a", 80, "/", false)));
    assert_eq!(url("https://a:+443/"), Ok(parts("a", 443, "/", true)));
    assert_eq!(url("https://"), Ok(parts("", 443, "/", true)));
    assert_eq!(url("https://é:1/ü"), Ok(parts("é", 1, "/ü", true)));
}

#[test]
fn urls_that_cannot_be_used_say_why() {
    assert_eq!(url("ftp://a"), Err(UrlError::Scheme));
    assert_eq!(url("HTTPS://a"), Err(UrlError::Scheme));
    assert_eq!(url("https://a:65536/"), Err(UrlError::Port));
    assert_eq!(url("https://a:/"), Err(UrlError::Port));
    assert_eq!(url("https://a:80:80/"), Err(UrlError::Port));
    assert_eq!(url("https://a:-1/"), Err(UrlError::Port));
}

#[test]
fn loopback_is_the_gateway_under_emulation_only() {
    assert_eq!(qemu_host("127.0.0.1".to_string(), true), "10.0.2.2");
    assert_eq!(qemu_host("localhost".to_string(), true), "10.0.2.2");
    assert_eq!(qemu_host("localhost".to_string(), false), "localhost");
    assert_eq!(qemu_host("a.example".to_string(), true), "a.example");
}

fn headers(list: &[(&str, &str)]) -> Vec<(String, String)> {
    list.iter()
        .map(|(k, v)| (k.to_string(), v.to_string()))
        .collect()
}

#[test]
fn requests_are_written_out_line_by_line() {
    let raw = build_raw_request(
        "POST",
        "/up",
        "h:81",
        &headers(&[("X-A", "b: c"), ("content-LENGTH", "7")]),
        Some(b"abc"),
    )
    .unwrap();
    assert_eq!(
        raw,
        "POST /up HTTP/1.1\r\nHost: h:81\r\nConnection: close\r\nX-A: b: c\r\nContent-Length: 3\r\n\r\n"
    );
    let raw = build_raw_request("GET", "/", "h", &headers(&[("Content-Length", "7")]), None);
    assert_eq!(
        raw.unwrap(),
        "GET / HTTP/1.1\r\nHost: h\r\nConnection: close\r\nContent-Length: 7\r\n\r\n"
    );
}

#[test]
fn request_parts_that_could_leave_their_line_are_refused() {
    let none = headers(&[]);
    let refused = |method: &str, path: &str, host: &str, list: &[(&str, &str)]| {
        build_raw_request(method, path, host, &headers(list), None).unwrap_err()
    };
    assert_eq!(refused("", "/", "h", &[]), RequestError::Method);
    assert_eq!(refused("GE T", "/", "h", &[]), RequestError::Method);
    assert_eq!(refused("GÉT", "/", "h", &[]), RequestError::Method);
    assert_eq!(refused("GET", "x", "h", &[]), RequestError::Target);
    assert_eq!(refused("GET", "/a b", "h", &[]), RequestError::Target);
    assert_eq!(refused("GET", "/a\r\nX: y", "h", &[]), RequestError::Target);
    assert_eq!(refused("GET", "/\u{7f}", "h", &[]), RequestError::Target);
    assert_eq!(refused("GET", "/", "", &[]), RequestError::Host);
    assert_eq!(refused("GET", "/", "h\tx", &[]), RequestError::Host);
    assert_eq!(
        refused("GET", "/", "h", &[("A", "1"), ("", "x")]),
        RequestError::Header
    );
    assert_eq!(
        refused("GET", "/", "h", &[("A", "x\nB: y")]),
        RequestError::Header
    );
    assert_eq!(
        refused("GET", "/", "h", &[("A", "x\0")]),
        RequestError::Header
    );
    // What is not ASCII may stand in targets and values.
    assert!(build_raw_request("GET", "/ü", "h", &none, None).is_ok());
    assert!(build_raw_request("GET", "/", "h", &headers(&[("A", "ü\t")]), None).is_ok());
    assert_eq!(RequestError::Header.message(), "Invalid HTTP header");
}

#[test]
fn every_token_byte_is_accepted_in_a_method() {
    let token = "azAZ09!#$%&'*+-.^_`|~";
    assert!(build_raw_request(token, "/", "h", &headers(&[]), None).is_ok());
    for c in "\"(),/:;<=>?@[\\]{}".chars() {
        assert_eq!(
            build_raw_request(&c.to_string(), "/", "h", &headers(&[]), None).unwrap_err(),
            RequestError::Method,
            "{c}"
        );
    }
}

#[test]
fn the_status_is_the_second_word_of_the_first_line() {
    assert_eq!(parse_status_code(b"HTTP/1.1 204 No Content\r\n").unwrap(), 204);
    assert_eq!(parse_status_code(b"  x \t 65535").unwrap(), 65535);
    assert_eq!(
        parse_status_code(b"HTTP/1.1 200 \xff").unwrap(),
        200,
        "what is not UTF-8 is replaced"
    );
    assert_eq!(
        parse_status_code(b"HTTP/1.1\r\n200").unwrap_err().message(),
        "Malformed status line: HTTP/1.1"
    );
    assert_eq!(
        parse_status_code(b"HTTP/1.1 70000\n").unwrap_err().message(),
        "Malformed status line: HTTP/1.1 70000"
    );
    assert_eq!(
        parse_status_code(b"\xff 2x").unwrap_err().message(),
        "Malformed status line: \u{fffd} 2x"
    );
    assert_eq!(parse_status_code(b"").unwrap_err().message(), "No status line");
}

#[test]
fn the_body_length_is_declared_once_and_plainly() {
    let length = |text: &str| parse_streaming_body_length(text.as_bytes());
    let failure = |text: &str| length(text).unwrap_err().message();
    assert_eq!(length("S\r\nContent-Length: 12\r\n").unwrap(), Some(12));
    assert_eq!(length("S\r\n content-length : 5\r\n").unwrap(), Some(5));
    assert_eq!(length("Content-Length: 5\r\nX: y").unwrap(), None);
    assert_eq!(length("S\r\nno colon\r\nTransfer-Encoding: Identity").unwrap(), None);
    assert_eq!(length("").unwrap(), None);
    assert_eq!(
        length("S\nContent-Length: 18446744073709551615").unwrap(),
        Some(u64::MAX)
    );
    assert_eq!(
        failure("S\r\nTransfer-Encoding:  chunked \r\nContent-Length: x"),
        "Unsupported HTTP transfer encoding: chunked"
    );
    assert_eq!(
        failure("S\r\nContent-Length: 18446744073709551616"),
        "Invalid HTTP Content-Length header"
    );
    assert_eq!(
        failure("S\r\nContent-Length: 1\r\nContent-Length: 1"),
        "Duplicate HTTP Content-Length header"
    );
    assert!(matches!(
        parse_streaming_body_length(b"S\r\nX: \xff"),
        Err(ResponseError::NotUtf8)
    ));
}

#[test]
fn responses_are_cut_to_their_declared_length() {
    let response = parse_http_response(b"HTTP/1.1 200 OK\r\nContent-Length: 3\r\n\r\nabcdef").unwrap();
    assert_eq!(response.status_code, 200);
    assert_eq!(response.body, b"abc");
    let response = parse_http_response(b"HTTP/1.1 404 x\r\n\r\nrest").unwrap();
    assert_eq!(response.status_code, 404);
    assert_eq!(response.body, b"rest");
    assert_eq!(
        parse_http_response(b"HTTP/1.1 200 OK\r\nContent-Length: 9\r\n\r\nabc")
            .unwrap_err()
            .message(),
        "HTTP response truncated: expected 9 bytes, got 3"
    );
    assert_eq!(
        parse_http_response(b"HTTP/1.1 200 OK\r\n").unwrap_err().message(),
        "Malformed HTTP response"
    );
    assert_eq!(
        ResponseError::AddressSpace(77).message(),
        "Content-Length 77 exceeds address space"
    );
}

#[test]
fn a_buffered_response_ends_with_the_connection() {
    let mut response = BufferedResponse::new();
    assert!(matches!(
        response.advance(ReadEvent::Data(b"HTTP/1.1 200 OK\r\n\r\nab")),
        Ok(None)
    ));
    assert!(matches!(
        response.advance(ReadEvent::TimedOut),
        Err(ResponseError::TimedOut)
    ));
    assert!(matches!(response.advance(ReadEvent::Data(b"c")), Ok(None)));
    let done = response.advance(ReadEvent::Closed).unwrap().unwrap();
    assert_eq!(done.body, b"abc");
}

#[test]
fn a_buffered_response_is_bounded() {
    let mut response = BufferedResponse::new();
    let most = vec![b'x'; MAX_RESPONSE_BODY_BYTES];
    assert!(matches!(response.advance(ReadEvent::Data(&most)), Ok(None)));
    let error = response.advance(ReadEvent::Data(b"y")).unwrap_err();
    assert_eq!(
        error.message(),
        "HTTP response body exceeds size limit of 1048576 bytes"
    );
    assert_eq!(response.bytes.len(), MAX_RESPONSE_BODY_BYTES);
}

#[test]
fn a_streamed_response_starts_after_its_header_block() {
    let mut response = StreamingResponse::new();
    assert!(matches!(
        response.advance(b"HTTP/1.1 206 OK\r\nContent-Length: 10\r\n\r"),
        Ok(None)
    ));
    let head = response.advance(b"\nabc").unwrap().unwrap();
    assert_eq!(head.status_code, 206);
    assert_eq!(head.length, Some(10));
    assert_eq!(head.overflow, b"abc");
}

#[test]
fn a_streamed_response_needs_its_header_block() {
    let mut response = StreamingResponse::new();
    assert_eq!(
        response.advance(b"").unwrap_err().message(),
        "Connection closed before headers complete"
    );
    let fill = vec![b'x'; MAX_RESPONSE_HEADER_BYTES];
    assert!(matches!(response.advance(&fill), Ok(None)));
    assert_eq!(
        response.advance(b"y").unwrap_err().message(),
        "HTTP response headers exceed size limit"
    );
    assert!(response.advance(b"\r\n\r\n").is_err());
}

#[test]
fn a_body_of_declared_length_is_read_to_its_end() {
    let mut reader = ExactLengthReader { remaining: 5 };
    assert_eq!(reader.allowance(0), 0);
    assert_eq!(reader.allowance(3), 3);
    assert_eq!(reader.took(3, 2), Ok(2));
    assert_eq!(reader.allowance(100), 3);
    assert_eq!(reader.took(3, 0), Err(3));
    assert_eq!(reader.took(3, 3), Ok(3));
    assert_eq!(reader.allowance(100), 0);
    assert_eq!(
        ExactLengthReader::shortfall_message(3),
        "Connection closed prematurely: 3 bytes remaining"
    );
}

#[test]
fn a_plan_keeps_the_host_header_and_maps_the_address() {
    let client = EspHttpClient::new(true);
    assert!(client.supports_streaming());
    let plan = client
        .plan("GET", "https://127.0.0.1:8080/m", &headers(&[]), None, true)
        .unwrap();
    assert_eq!(plan.host, "10.0.2.2");
    assert_eq!(plan.port, 8080);
    assert!(plan.use_tls && plan.skip_tls_verify);
    assert!(plan.raw_request.contains("Host: 127.0.0.1\r\n"));
    assert_eq!(
        client
            .plan("GET", "gopher://x", &headers(&[]), None, true)
            .unwrap_err(),
        PlanError::Url(UrlError::Scheme)
    );
    assert_eq!(
        EspHttpClient::new(false)
            .plan("GET", "http:///x", &headers(&[]), None, false)
            .unwrap_err(),
        PlanError::Request(RequestError::Host)
    );
}

#[test]
fn the_default_client_checks_certificates() {
    let plan = EspHttpClient::default()
        .plan("GET", "https://mmg.whatsapp.net/m", &headers(&[]), None, false)
        .unwrap();
    assert!(plan.use_tls && !plan.skip_tls_verify);
}

#[test]
fn a_request_reads_back_as_its_own_lines() {
    let raw = build_raw_request(
        "PUT",
        "/p",
        "h",
        &headers(&[("A", "1"), ("B", "two words")]),
        Some(b""),
    )
    .unwrap();
    let lines: Vec<&str> = raw.split("\r\n").collect();
    assert_eq!(
        lines,
        [
            "PUT /p HTTP/1.1",
            "Host: h",
            "Connection: close",
            "A: 1",
            "B: two words",
            "Content-Length: 0",
            "",
            ""
        ]
    );
}
