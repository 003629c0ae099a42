use whatsapp_esp32::http_client::UrlError;
use whatsapp_esp32::psram_alloc::{Pool, PsramAllocator, Resize};
use whatsapp_esp32::runtime::{
    blocking_thread, by_ram, executor_thread, flash_thread, is_slow, job_step, poll_abortable,
    JobStep, ThreadConfig, Turn, YieldNow,
};
use whatsapp_esp32::transport::{
    failed_at, frame_limits, on_bytes, on_turn, socket_timeval, tls_read, tls_timeout_ms,
    DisconnectCause, Esp32TransportFactory, Link, QueueError, SocketRead, SocketStep, Stage,
    TlsRead,
};
use whatsapp_esp32::ws::{Limits, WsClient};
use whatsapp_esp32::ws_handshake::{expected_accept, Handshake, HandshakeEvent};

fn connected(limits: Limits) -> WsClient<()> {
    let (mut handshake, _) = Handshake::start("h", "/", "o", [0; 16], 0);
    let response = format!(
        "HTTP/1.1 101 x\r\nUpgrade: websocket\r\nConnection: Upgrade\r\nSec-WebSocket-Accept: {}\r\n\r\n",
        expected_accept("AAAAAAAAAAAAAAAAAAAAAA==")
    );
    assert!(handshake
        .advance(HandshakeEvent::Data(response.as_bytes()))
        .unwrap());
    WsClient::connect((), handshake, limits).ok().unwrap()
}

#[test]
fn timeouts_fit_where_they_go() {
    assert_eq!(tls_timeout_ms(30_000), 30_000);
    assert_eq!(tls_timeout_ms(u64::MAX), i32::MAX);
    assert_eq!(socket_timeval(100), (0, 100_000));
    assert_eq!(socket_timeval(30_001), (30, 1_000));
    assert_eq!(socket_timeval(u32::MAX), (4_294_967, 295_000));
}

#[test]
fn two_codes_of_a_tls_read_mean_not_yet() {
    assert_eq!(tls_read(12), TlsRead::Data(12));
    assert_eq!(tls_read(0), TlsRead::Data(0));
    assert_eq!(tls_read(-11), TlsRead::WouldBlock);
    assert_eq!(tls_read(-0x6900), TlsRead::WouldBlock);
    assert_eq!(tls_read(-0x7100), TlsRead::Failed(0x7100));
}

#[test]
fn limits_depend_on_external_memory() {
    let small = frame_limits(false);
    assert_eq!((small.max_frame_size, small.max_message_size), (32768, 32768));
    let large = frame_limits(true);
    assert_eq!(
        (large.max_frame_size, large.max_message_size),
        (16 << 20, 64 << 20)
    );
}

#[test]
fn a_gateway_is_planned_from_its_url() {
    let factory =
        Esp32TransportFactory::new("wss://web.whatsapp.com/ws/chat".to_string(), false, true);
    let plan = factory.plan().unwrap();
    assert_eq!(plan.host, "web.whatsapp.com");
    assert_eq!(plan.port, 443);
    assert_eq!(plan.path, "/ws/chat");
    assert_eq!(plan.origin, "https://web.whatsapp.com");
    assert!(!plan.skip_tls_verify);
    assert_eq!(factory.thread_config().stack_size, 16384);
    let custom = ThreadConfig {
        stack_size: 1,
        priority: 2,
        core: None,
        stack_in_psram: false,
    };
    assert_eq!(factory.with_thread_config(custom).thread_config(), custom);
    let gateway = Esp32TransportFactory::verified("wss://h/".to_string(), false);
    assert!(!gateway.plan().unwrap().skip_tls_verify);
    assert_eq!(gateway.thread_config().stack_size, 6144);
    assert!(Esp32TransportFactory::new("wss://h/".to_string(), true, false)
        .plan()
        .unwrap()
        .skip_tls_verify);
    let broken = Esp32TransportFactory::new("nowhere".to_string(), true, false);
    let error = broken.plan().unwrap_err();
    assert_eq!(error, UrlError::Scheme);
    assert_eq!(error.message(broken.ws_url()), "Invalid URL scheme: nowhere");
    assert_eq!(UrlError::Port.message("ws://h:x"), "Invalid URL port: ws://h:x");
    assert_eq!(broken.thread_config().stack_size, 6144);
}

#[test]
fn frames_call_for_steps() {
    let mut ws = connected(frame_limits(false));
    let (n, step) = on_bytes(&mut ws, &[0x82, 2, b'h']);
    assert_eq!(n, 3);
    assert!(matches!(step, SocketStep::ReadOn));
    let (n, step) = on_bytes(&mut ws, &[b'i', 0x89]);
    assert_eq!(n, 1);
    assert!(matches!(step, SocketStep::Deliver(data) if data[..] == b"hi"[..]));
    assert!(matches!(
        on_bytes(&mut ws, &[0x89, 1, b'p']).1,
        SocketStep::Answer(data) if data[..] == b"p"[..]
    ));
    assert!(matches!(on_bytes(&mut ws, &[0x8a, 0]).1, SocketStep::Continue));
    assert!(matches!(on_bytes(&mut ws, &[0x81, 1, b't']).1, SocketStep::Continue));
    assert!(matches!(
        on_bytes(&mut ws, &[0x88, 4, 3, 0xe9, b'o', b'k']).1,
        SocketStep::End {
            close: true,
            cause: DisconnectCause::ServerClose { code: Some(1001), reason },
        } if reason == "ok"
    ));
    assert!(matches!(
        on_bytes(&mut ws, &[0x88, 0]).1,
        SocketStep::End {
            close: true,
            cause: DisconnectCause::ServerClose { code: None, reason },
        } if reason.is_empty()
    ));
    assert!(matches!(
        on_bytes(&mut ws, &[0x83, 0]).1,
        SocketStep::End {
            close: false,
            cause: DisconnectCause::Failed(text),
        } if text == "WS read error: websocket: reserved opcode"
    ));
}

/// The steps of a connection, in short.
fn told(step: SocketStep) -> String {
    match step {
        SocketStep::Continue => "-".to_string(),
        SocketStep::ReadOn => "more".to_string(),
        SocketStep::Announce => "connected".to_string(),
        SocketStep::Deliver(data) => format!("data {data:?}"),
        SocketStep::Answer(data) => format!("pong {data:?}"),
        SocketStep::End { close, cause } => format!("end {close} {cause:?}"),
    }
}

#[test]
fn a_connection_is_told_of_in_order() {
    let mut ws = connected(frame_limits(false));
    let mut link = Link::new();
    // Nothing is told before the upgrade.
    assert_eq!(told(link.turn(true)), "-");
    assert_eq!(told(link.read(&mut ws, SocketRead::Data(&[0x82, 0])).1), "-");
    assert_eq!(told(link.upgraded(&ws)), "connected");
    assert_eq!(told(link.upgraded(&ws)), "-");
    assert_eq!(told(link.turn(false)), "-");
    assert_eq!(told(link.read(&mut ws, SocketRead::Data(&[0x82, 2, b'h'])).1), "more");
    assert_eq!(told(link.read(&mut ws, SocketRead::WouldBlock).1), "-");
    let (taken, step) = link.read(&mut ws, SocketRead::Data(&[b'i', 0x82, 1, b'!']));
    assert_eq!(taken, 1);
    assert_eq!(told(step), "data b\"hi\"");
    assert_eq!(told(link.read(&mut ws, SocketRead::Data(&[0x82, 1, b'!'])).1), "data b\"!\"");
    assert_eq!(told(link.read(&mut ws, SocketRead::Data(&[0x89, 1, b'p'])).1), "pong b\"p\"");
    assert_eq!(told(link.read(&mut ws, SocketRead::Data(&[0x8a, 0])).1), "-");
    assert!(!link.is_over());
    assert_eq!(
        told(link.read(&mut ws, SocketRead::Closed).1),
        "end false Failed(\"WS read error: websocket: connection closed\")"
    );
    // And nothing after its end.
    assert!(link.is_over());
    assert_eq!(told(link.read(&mut ws, SocketRead::Data(&[0x82, 0])).1), "-");
    assert_eq!(told(link.turn(true)), "-");
    assert_eq!(told(link.fail(Stage::Send, "late")), "-");
}

#[test]
fn a_connection_ends_once_for_each_reason() {
    for (stage, words) in [
        (Stage::Url, "invalid WS URL: x"),
        (Stage::Connect, "TLS connect failed: x"),
        (Stage::Handshake, "WebSocket handshake failed: x"),
    ] {
        let mut link = Link::new();
        assert_eq!(told(link.fail(stage, "x")), format!("end false Failed({words:?})"));
        assert_eq!(told(link.upgraded(&connected(frame_limits(false)))), "-");
        assert!(link.is_over());
    }
    let open = || {
        let ws = connected(frame_limits(false));
        let mut link = Link::new();
        let _ = link.upgraded(&ws);
        (link, ws)
    };
    let (mut link, _) = open();
    assert_eq!(told(link.fail(Stage::Send, "x")), "end false Failed(\"WS send error: x\")");
    assert!(link.is_over());
    let (mut link, _) = open();
    assert_eq!(told(link.turn(true)), "end true Requested");
    assert!(link.is_over());
    let (mut link, mut ws) = open();
    assert_eq!(
        told(link.read(&mut ws, SocketRead::Data(&[0x88, 2, 3, 0xe8])).1),
        "end true ServerClose { code: Some(1000), reason: \"\" }"
    );
    assert!(link.is_over());
    let (mut link, mut ws) = open();
    assert_eq!(
        told(link.read(&mut ws, SocketRead::Data(&[0xf2, 0])).1),
        "end false Failed(\"WS read error: websocket: reserved bits set\")"
    );
    assert!(link.is_over());
}

#[test]
fn a_connection_that_is_asked_to_end_is_closed() {
    assert!(matches!(on_turn(false), SocketStep::Continue));
    assert!(matches!(
        on_turn(true),
        SocketStep::End {
            close: true,
            cause: DisconnectCause::Requested,
        }
    ));
    assert!(matches!(
        failed_at("TLS connect failed", "no route"),
        DisconnectCause::Failed(text) if text == "TLS connect failed: no route"
    ));
    assert_eq!(
        QueueError::Full.message(),
        "Transport send queue full (64): socket stalled"
    );
    assert_eq!(QueueError::Closed.message(), "Transport channel closed");
}

#[test]
fn stacks_depend_on_external_memory() {
    assert_eq!(by_ram(true, 1, 2), 1);
    assert_eq!(by_ram(false, 1, 2), 2);
    assert_eq!(executor_thread(true).stack_size, 256 * 1024);
    assert_eq!(executor_thread(false).stack_size, 32 * 1024);
    assert_eq!(blocking_thread(false).stack_size, 10 * 1024);
    assert_eq!(blocking_thread(true).priority, 1);
    assert_eq!(flash_thread(false).stack_size, 6 * 1024);
    assert!(!flash_thread(true).stack_in_psram);
    assert!(executor_thread(true).stack_in_psram);
}

#[test]
fn a_task_yields_once() {
    let mut task = YieldNow::new();
    assert_eq!(task.poll(), Turn::PendingAwake);
    assert_eq!(task.poll(), Turn::Ready);
    assert_eq!(poll_abortable(true), Turn::Ready);
    assert_eq!(poll_abortable(false), Turn::PollInner);
    assert_eq!(job_step(true), JobStep::Drop);
    assert_eq!(job_step(false), JobStep::Run);
    assert!(is_slow(100_000) && !is_slow(99_999));
}

#[test]
fn blocks_are_asked_for_in_external_memory_first() {
    let allocator = PsramAllocator;
    assert_eq!(allocator.alignment(1), 4);
    assert_eq!(allocator.alignment(16), 16);
    assert_eq!(allocator.pool(0), Some(Pool::Psram));
    assert_eq!(allocator.pool(1), Some(Pool::Fallback));
    assert_eq!(allocator.pool(2), None);
    assert_eq!(allocator.resize(4, 10, 20), Resize::InPlace);
    assert_eq!(allocator.resize(8, 10, 20), Resize::Copy { len: 10 });
    assert_eq!(allocator.resize(8, 20, 10), Resize::Copy { len: 10 });
}
