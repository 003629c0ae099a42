use whatsapp_esp32::admin::{
    accept_pair_code, accept_send, admit_json_body, check_send, device_reply, error_body,
    maintenance_accepted, maintenance_not_started, messages_reply, open_json_request,
    open_maintenance, pair_attempt, pair_reply, parse_phone_number, send_reply, sessions_json,
    sessions_reply, stats_json, AdminAuth, Method, Reply, Route, SendOutcome,
};
use whatsapp_esp32::device_status::{DeviceStatus, MessageLogEntry};
use whatsapp_esp32::storage::StoreStats;
use whatsapp_esp32::supervisor::{MaintenanceAction, MaintenanceCoordinator};

const UNAUTHORIZED: &str = r#"{"error":"A valid X-Admin-Token header is required"}"#;

fn reply<T>(r: Result<T, Reply>) -> (u16, String) {
    match r {
        Ok(_) => panic!("accepted"),
        Err(reply) => (reply.status, reply.body),
    }
}

fn said(status: u16, body: &str) -> (u16, String) {
    (status, body.to_string())
}

fn secured() -> AdminAuth {
    AdminAuth::new(Some("kitchen-secret".to_string()))
}

#[test]
fn the_token_is_compared_whole() {
    let auth = secured();
    assert!(auth.is_required());
    assert!(auth.check(Some("kitchen-secret")).is_ok());
    for wrong in [None, Some(""), Some("kitchen-secre"), Some("kitchen-secreT")] {
        assert_eq!(reply(auth.check(wrong)), said(401, UNAUTHORIZED));
    }
    let open = AdminAuth::new(None);
    assert!(!open.is_required());
    assert!(open.check(None).is_ok());
    assert!(open.check(Some("anything")).is_ok());
}

#[test]
fn sensitive_routes_answer_401_without_a_token() {
    let auth = secured();
    for route in [
        Route::Send,
        Route::Messages,
        Route::PairCode,
        Route::Reset,
        Route::Reboot,
        Route::ListSessions,
        Route::ClearSessions,
    ] {
        assert!(route.is_sensitive());
        assert_eq!(reply(auth.gate(route, None)), said(401, UNAUTHORIZED));
        assert!(auth.gate(route, Some("kitchen-secret")).is_ok());
        assert!(AdminAuth::new(None).gate(route, None).is_ok());
    }
    for route in [
        Route::Dashboard,
        Route::QrRenderer,
        Route::Stats,
        Route::Device,
        Route::Health,
        Route::Metrics,
        Route::TestPanic,
    ] {
        assert!(!route.is_sensitive());
        assert!(auth.gate(route, None).is_ok());
    }
}

#[test]
fn routes_have_their_paths_and_methods() {
    assert_eq!((Route::Stats.path(), Route::Stats.method()), ("/", Method::Get));
    assert_eq!(
        (Route::ListSessions.path(), Route::ListSessions.method()),
        ("/sessions", Method::Get)
    );
    assert_eq!(
        (Route::ClearSessions.path(), Route::ClearSessions.method()),
        ("/sessions", Method::Delete)
    );
    assert_eq!(
        (Route::PairCode.path(), Route::PairCode.method()),
        ("/pair-code", Method::Post)
    );
}

#[test]
fn json_bodies_are_admitted_by_their_head() {
    let json = Some("application/json; charset=utf-8");
    assert_eq!(admit_json_body(json, Some(10), 10).unwrap(), 10);
    assert_eq!(
        reply(admit_json_body(Some("text/plain"), Some(1), 10)),
        said(415, r#"{"error":"Content-Type must be application/json"}"#)
    );
    assert_eq!(reply(admit_json_body(None, Some(1), 10)).0, 415);
    assert_eq!(
        reply(admit_json_body(json, None, 10)),
        said(411, r#"{"error":"Content-Length required"}"#)
    );
    assert_eq!(
        reply(admit_json_body(json, Some(11), 10)),
        said(413, r#"{"error":"Invalid request size"}"#)
    );
    assert_eq!(reply(admit_json_body(json, Some(0), 10)).0, 413);
    assert_eq!(
        reply(open_json_request(&secured(), Route::Send, None, None, None)),
        said(401, UNAUTHORIZED)
    );
    let open = AdminAuth::new(None);
    assert_eq!(
        open_json_request(&open, Route::Send, None, json, Some(2048)).unwrap(),
        2048
    );
    assert_eq!(
        reply(open_json_request(&open, Route::PairCode, None, json, Some(129))).0,
        413
    );
}

fn send(body: &str) -> (u16, String) {
    reply(accept_send(Some(body.as_bytes()), Some(true)))
}

#[test]
fn a_request_to_send_says_to_whom_and_what() {
    let body = br#"{"to":"15551234567@s.whatsapp.net","text":"hi"}"#;
    let request = accept_send(Some(body), Some(true)).unwrap();
    assert_eq!(request.to, "15551234567@s.whatsapp.net");
    assert_eq!(request.text, "hi");
    assert_eq!(
        reply(accept_send(Some(body), None)),
        said(503, r#"{"error":"WhatsApp client is starting"}"#)
    );
    assert_eq!(
        reply(accept_send(Some(body), Some(false))),
        said(503, r#"{"error":"Not connected"}"#)
    );
    assert_eq!(
        reply(accept_send(None, Some(true))),
        said(400, r#"{"error":"Could not read the request body"}"#)
    );
    assert_eq!(send("{"), said(400, r#"{"error":"Invalid JSON"}"#));
    assert_eq!(send("[]"), said(400, r#"{"error":"to is required"}"#));
    assert_eq!(
        send(r#"{"to":1,"text":"x"}"#),
        said(400, r#"{"error":"to is required"}"#)
    );
    assert_eq!(
        send(r#"{"to":"1@s.whatsapp.net"}"#),
        said(400, r#"{"error":"text is required"}"#)
    );
    assert_eq!(
        send(r#"{"to":"1@s.whatsapp.net","text":""}"#),
        said(400, r#"{"error":"text is empty"}"#)
    );
    assert_eq!(
        send(r#"{"to":"no such server","text":"x"}"#),
        said(400, r#"{"error":"to is not a JID"}"#)
    );
    assert_eq!(check_send(Some("a"), Some("b"), true).unwrap().text, "b");
    assert_eq!(reply(check_send(Some("a"), Some("b"), false)).0, 400);
}

#[test]
fn the_outcome_of_a_send_is_answered() {
    let answer = |outcome: SendOutcome| {
        let r = send_reply(&outcome, "you");
        (r.status, r.body)
    };
    assert_eq!(
        answer(SendOutcome::Sent("3EB0".to_string())),
        said(200, r#"{"message_id":"3EB0","result":"sent","to":"you"}"#)
    );
    assert_eq!(
        answer(SendOutcome::Failed("a \"quoted\" reason".to_string())),
        said(502, r#"{"error":"a \"quoted\" reason"}"#)
    );
    assert_eq!(
        answer(SendOutcome::Late),
        said(504, r#"{"error":"Send did not complete in time"}"#)
    );
    assert_eq!(
        answer(SendOutcome::NotQueued),
        said(503, r#"{"error":"WhatsApp executor is unavailable"}"#)
    );
    assert_eq!(error_body("x"), r#"{"error":"x"}"#);
}

#[test]
fn phone_numbers_are_international_digits() {
    assert_eq!(parse_phone_number("+1 (555) 123-4567").unwrap(), "15551234567");
    assert_eq!(parse_phone_number("1234567").unwrap(), "1234567");
    assert_eq!(parse_phone_number("123456789012345").unwrap(), "123456789012345");
    let unusual = r#"{"error":"Use 7-15 international digits without a leading zero"}"#;
    for wrong in ["123456", "1234567890123456", "0123456789", "", "+"] {
        assert_eq!(reply(parse_phone_number(wrong)), said(400, unusual), "{wrong}");
    }
    assert_eq!(
        reply(parse_phone_number("+1555x1234567")),
        said(400, r#"{"error":"Invalid phone number"}"#)
    );
}

#[test]
fn a_linking_code_is_asked_for_once() {
    let mut status = DeviceStatus::new();
    status.set_qr_code("qr".to_string());
    let body = Some(&br#"{"phone_number":"+15551234567"}"#[..]);
    let mut ask = |idle, logged_in, exists, now| {
        accept_pair_code(body, idle, logged_in, exists, &mut status, now)
    };
    assert_eq!(
        reply(ask(false, Some(false), false, 0)),
        said(409, r#"{"error":"Device maintenance is in progress"}"#)
    );
    assert_eq!(
        reply(ask(true, None, false, 0)),
        said(503, r#"{"error":"WhatsApp client is starting"}"#)
    );
    assert_eq!(
        reply(ask(true, Some(false), true, 0)),
        said(409, r#"{"error":"Device is already paired"}"#)
    );
    assert_eq!(reply(ask(true, Some(true), false, 0)).0, 409);
    assert_eq!(
        ask(true, Some(false), false, 0).unwrap(),
        ("15551234567".to_string(), 1)
    );
    assert_eq!(
        reply(ask(true, Some(false), false, 0)),
        said(409, r#"{"error":"A linking code is being generated"}"#)
    );
    assert_eq!(status.qr_code().as_deref(), Some("qr"));
    status.complete_pair_code(1, "ABCD-EFGH".to_string(), 100, 0);
    assert_eq!(
        reply(accept_pair_code(body, true, Some(false), false, &mut status, 99)),
        said(409, r#"{"error":"A linking code is already active"}"#)
    );
    assert_eq!(
        accept_pair_code(body, true, Some(false), false, &mut status, 100).unwrap().1,
        2
    );
    assert_eq!(
        reply(accept_pair_code(Some(b"{}"), true, None, true, &mut status, 0)),
        said(400, r#"{"error":"phone_number is required"}"#)
    );
}

#[test]
fn an_attempt_at_linking_looks_again_before_it_asks() {
    assert_eq!(
        pair_attempt(false, true, false, false, true),
        Err("WhatsApp connection is not ready")
    );
    assert_eq!(
        pair_attempt(true, false, false, false, true),
        Err("WhatsApp client restarted; try again")
    );
    assert_eq!(
        pair_attempt(true, true, false, true, true),
        Err("Device is already paired")
    );
    assert_eq!(
        pair_attempt(true, true, false, false, false),
        Err("Device maintenance is in progress")
    );
    assert_eq!(pair_attempt(true, true, false, false, true), Ok(()));
    assert_eq!(pair_reply(true).status, 202);
    assert_eq!(pair_reply(true).body, r#"{"result":"pending"}"#);
    assert_eq!(pair_reply(false).status, 503);
}

#[test]
fn maintenance_is_requested_with_the_token_only() {
    let mut coordinator = MaintenanceCoordinator::new();
    assert_eq!(
        reply(open_maintenance(&secured(), Route::Reset, None, &mut coordinator)),
        said(401, UNAUTHORIZED)
    );
    assert!(coordinator.is_idle());
    let token = Some("kitchen-secret");
    assert_eq!(
        open_maintenance(&secured(), Route::Reboot, token, &mut coordinator).unwrap(),
        (MaintenanceAction::Reboot, true)
    );
    assert_eq!(
        open_maintenance(&secured(), Route::ClearSessions, token, &mut coordinator).unwrap(),
        (MaintenanceAction::ClearSessions, false)
    );
    assert!(coordinator.begin_reboot(MaintenanceAction::Reset));
    assert_eq!(
        reply(open_maintenance(&secured(), Route::Reset, token, &mut coordinator)),
        said(409, r#"{"error":"Device is already rebooting"}"#)
    );
    let mut coordinator = MaintenanceCoordinator::new();
    let open = AdminAuth::new(None);
    open_maintenance(&open, Route::Reset, None, &mut coordinator).unwrap();
    assert_eq!(maintenance_not_started(&mut coordinator).status, 503);
    assert!(coordinator.is_idle());
    let accepted = maintenance_accepted(MaintenanceAction::Reset);
    assert_eq!(accepted.status, 202);
    assert_eq!(
        accepted.body,
        r#"{"result":"resetting","message":"Logging out, clearing persistent data, and rebooting."}"#
    );
    assert_eq!(
        maintenance_accepted(MaintenanceAction::ClearSessions).body,
        r#"{"result":"clearing","message":"Disconnecting, clearing sessions, and rebooting."}"#
    );
    assert_eq!(
        maintenance_accepted(MaintenanceAction::Reboot).body,
        r#"{"result":"rebooting"}"#
    );
}

#[test]
fn counts_and_addresses_are_documents() {
    let stats = StoreStats {
        sessions: 1,
        identities: 2,
        prekeys: 3,
        sender_keys: 4,
        device_exists: true,
    };
    assert_eq!(
        stats_json(10, 20, &stats),
        r#"{"device_paired":true,"heap_free":10,"heap_internal":20,"identities":2,"prekeys":3,"sender_keys":4,"sessions":1,"status":"running"}"#
    );
    let addresses = vec!["a@b".to_string(), "c".to_string()];
    assert_eq!(
        sessions_json(&addresses),
        r#"{"addresses":["a@b","c"],"count":2}"#
    );
    assert_eq!(sessions_reply(&secured(), None, &addresses).status, 401);
    assert_eq!(
        sessions_reply(&secured(), Some("kitchen-secret"), &addresses).status,
        200
    );
}

#[test]
fn pairing_is_shown_with_the_token_only() {
    let mut status = DeviceStatus::new();
    status.set_qr_code("2@qr".to_string());
    let id = status.begin_pair_code(0).unwrap();
    status.complete_pair_code(id, "ABCD".to_string(), 10_500_000, 0);
    let redacted =
        r#"{"connected":false,"lid":null,"pair_code":{"state":"redacted"},"pn":null,"qr_code":null}"#;
    let shown = r#"{"connected":false,"lid":null,"pair_code":{"code":"ABCD","expires_in_seconds":9,"state":"ready"},"pn":null,"qr_code":"2@qr"}"#;
    let auth = secured();
    assert_eq!(device_reply(&auth, None, &status, 1_000_000).body, redacted);
    assert_eq!(device_reply(&auth, None, &DeviceStatus::new(), 0).body, redacted);
    assert_eq!(
        device_reply(&auth, Some("kitchen-secret"), &status, 1_000_000).body,
        shown
    );
    assert_eq!(
        device_reply(&AdminAuth::new(None), None, &status, 1_000_000).body,
        shown
    );
    assert_eq!(device_reply(&auth, None, &status, 0).status, 200);
}

#[test]
fn messages_are_shown_with_the_token_only() {
    let mut status = DeviceStatus::new();
    status.record_message(MessageLogEntry {
        id: "1".to_string(),
        chat: "c".to_string(),
        sender: "s".to_string(),
        text: None,
        timestamp: -3,
        from_me: true,
    });
    let shown = messages_reply(&AdminAuth::new(None), None, &status);
    assert_eq!(shown.status, 200);
    assert_eq!(
        shown.body,
        r#"{"count":1,"messages":[{"chat":"c","from_me":true,"id":"1","sender":"s","text":null,"timestamp":-3}]}"#
    );
    assert_eq!(messages_reply(&secured(), None, &status).status, 401);
}
