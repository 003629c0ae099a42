use whatsapp_esp32::device_status::{
    preview_text, DeviceStatus, MessageLogEntry, MAX_LOGGED_TEXT_BYTES, MESSAGE_LOG_CAPACITY,
};

fn message(id: usize, text: Option<&str>) -> MessageLogEntry {
    MessageLogEntry {
        id: id.to_string(),
        chat: "c".to_string(),
        sender: "s".to_string(),
        text: text.map(str::to_string),
        timestamp: 1,
        from_me: false,
    }
}

fn pairing(status: &DeviceStatus, now: u64) -> String {
    let json = status.to_json(now);
    let at = json.find("\"pair_code\":").unwrap() + 12;
    json[at..at + json[at..].find('}').unwrap() + 1].to_string()
}

#[test]
fn long_texts_are_cut_at_a_character() {
    let fits = "x".repeat(MAX_LOGGED_TEXT_BYTES);
    assert_eq!(preview_text(fits.clone()), fits);
    let long = "x".repeat(MAX_LOGGED_TEXT_BYTES + 1);
    assert_eq!(preview_text(long), format!("{}…", "x".repeat(253)));
    // Two bytes a character: 252 of them fit in 253.
    let wide = "é".repeat(200);
    let cut = preview_text(wide);
    assert_eq!(cut, format!("{}…", "é".repeat(126)));
    assert!(cut.len() <= MAX_LOGGED_TEXT_BYTES);
    // Four bytes a character.
    let cut = preview_text("🦀".repeat(100));
    assert_eq!(cut, format!("{}…", "🦀".repeat(63)));
    assert!(cut.len() <= MAX_LOGGED_TEXT_BYTES);
}

#[test]
fn the_log_keeps_the_last_messages() {
    let mut status = DeviceStatus::default();
    for i in 0..MESSAGE_LOG_CAPACITY + 2 {
        status.record_message(message(i, Some("t")));
    }
    let json = status.messages_json();
    assert!(json.starts_with(r#"{"count":16,"#));
    assert!(!json.contains(r#""id":"1""#));
    assert!(json.contains(r#""id":"2""#));
    assert!(json.contains(r#""id":"17""#));
    status.set_logged_out();
    assert_eq!(status.messages_json(), r#"{"count":0,"messages":[]}"#);
}

#[test]
fn a_dropped_socket_keeps_the_account() {
    let mut status = DeviceStatus::new();
    status.set_connected(Some("pn".to_string()), Some("lid".to_string()));
    status.set_disconnected();
    let json = status.to_json(0);
    assert!(json.contains(r#""pn":"pn""#) && json.contains(r#""lid":"lid""#));
    status.set_logged_out();
    let json = status.to_json(0);
    assert!(json.contains(r#""pn":null"#) && json.contains(r#""lid":null"#));
}

#[test]
fn a_linking_code_goes_through_its_states() {
    let mut status = DeviceStatus::new();
    assert_eq!(pairing(&status, 0), r#"{"state":"idle"}"#);
    let first = status.begin_pair_code(0).unwrap();
    assert_eq!(pairing(&status, 0), r#"{"state":"pending"}"#);
    assert_eq!(
        status.begin_pair_code(0),
        Err("A linking code is being generated")
    );
    status.fail_pair_code(first + 1, "not this one");
    assert_eq!(pairing(&status, 0), r#"{"state":"pending"}"#);
    status.fail_pair_code(first, "no");
    assert_eq!(pairing(&status, 0), r#"{"message":"no","state":"error"}"#);
    status.complete_pair_code(first, "late".to_string(), 1, 0);
    assert_eq!(pairing(&status, 0), r#"{"message":"no","state":"error"}"#);
    let second = status.begin_pair_code(0).unwrap();
    assert_eq!(second, first + 1);
    status.complete_pair_code(second, "CODE".to_string(), 180_000_000, 1_000_000);
    assert_eq!(
        pairing(&status, 1_000_001),
        r#"{"code":"CODE","expires_in_seconds":179,"state":"ready"}"#
    );
    assert_eq!(
        status.begin_pair_code(180_999_999),
        Err("A linking code is already active")
    );
    assert_eq!(pairing(&status, 181_000_000), r#"{"state":"expired"}"#);
    assert!(status.begin_pair_code(181_000_000).is_ok());
    status.set_connected(None, None);
    assert_eq!(pairing(&status, 0), r#"{"state":"idle"}"#);
}

#[test]
fn qr_codes_come_and_go() {
    let mut status = DeviceStatus::new();
    status.set_connected(None, None);
    status.set_qr_code("q".to_string());
    assert!(!status.is_connected());
    status.clear_qr_code();
    assert!(status.qr_code().is_none());
}
