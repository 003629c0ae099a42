use whatsapp_esp32::device_status::{DeviceStatus, MessageLogEntry};
use whatsapp_esp32::firmware::{
    choose_admin_token, choose_push_name, delay_left, follow_up, is_success, on_event,
    pong_with_duration, scan_qr_url, BatchStep, ClientEvent, ClientExit, ClientExitObserver,
    EventStep, FeedStep, FollowUp, LifecycleEvent, Provisioned, WatchdogFeeder,
    MAX_FEED_FAILURES, PING_TRIGGER,
};
use whatsapp_esp32::http_client::UrlError;
use whatsapp_esp32::supervisor::{MaintenanceAction, MaintenanceCoordinator};

fn observed(events: &[LifecycleEvent]) -> ClientExitObserver {
    let mut observer = ClientExitObserver::new();
    for event in events {
        observer.handle_event(*event);
    }
    observer
}

fn logged_out(by_server: bool, code: i32) -> LifecycleEvent {
    LifecycleEvent::LoggedOut { by_server, code }
}

#[test]
fn events_decide_how_a_client_ends() {
    let outcome = |event: LifecycleEvent| observed(&[event]).outcome;
    assert_eq!(observed(&[]).outcome, ClientExit::Restart);
    assert_eq!(outcome(logged_out(true, 401)), ClientExit::ResetCredentials);
    assert_eq!(outcome(logged_out(true, 403)), ClientExit::PreserveCredentials);
    assert_eq!(outcome(logged_out(false, 401)), ClientExit::Restart);
    assert_eq!(
        outcome(LifecycleEvent::ClientOutdated),
        ClientExit::PreserveCredentials
    );
    assert_eq!(
        outcome(LifecycleEvent::StreamReplaced),
        ClientExit::PreserveCredentials
    );
    for (code, exit) in [
        (500, ClientExit::Restart),
        (503, ClientExit::Restart),
        (400, ClientExit::PreserveCredentials),
        (501, ClientExit::PreserveCredentials),
        (77, ClientExit::PreserveCredentials),
    ] {
        assert_eq!(outcome(LifecycleEvent::ConnectFailure { code }), exit, "{code}");
    }
}

#[test]
fn the_most_severe_outcome_stays() {
    let ban = LifecycleEvent::TemporaryBan { seconds: 30 };
    let observer = observed(&[logged_out(true, 401), ban, LifecycleEvent::StreamReplaced]);
    assert_eq!(observer.outcome, ClientExit::ResetCredentials);
    assert_eq!(observer.temporary_ban_seconds, 30);
    for value in 0..=255u8 {
        let exit = ClientExit::from_u8(value);
        assert_eq!(exit.severity(), if value <= 3 { value } else { 0 });
    }
}

#[test]
fn bans_are_waited_for_with_a_margin() {
    for (seconds, kept, wait) in [
        (-1, 0, 5),
        (0, 0, 5),
        (60, 60, 65),
        (i64::MAX, u32::MAX, u32::MAX),
        (u32::MAX as i64 - 2, u32::MAX - 2, u32::MAX),
    ] {
        let observer = observed(&[LifecycleEvent::TemporaryBan { seconds }]);
        assert_eq!(observer.temporary_ban_seconds, kept);
        let mut status = DeviceStatus::new();
        status.set_connected(Some("pn".to_string()), None);
        assert_eq!(
            observer.finish(&mut status),
            (ClientExit::TemporaryBan, wait)
        );
        assert!(!status.is_connected());
        assert!(status.to_json(0).contains("\"pn\":\"pn\""));
    }
}

#[test]
fn an_unlinked_device_shows_no_account() {
    let mut status = DeviceStatus::new();
    status.set_connected(Some("pn".to_string()), None);
    observed(&[logged_out(true, 401)]).finish(&mut status);
    assert!(status.to_json(0).contains("\"pn\":null"));
}

#[test]
fn a_client_that_stopped_is_followed_up() {
    let mut coordinator = MaintenanceCoordinator::new();
    let mut after = |exit, wait| follow_up(exit, wait, &mut coordinator);
    assert_eq!(after(None, 9), FollowUp::RestartAfter(5));
    assert_eq!(after(Some(ClientExit::Restart), 9), FollowUp::RestartAfter(5));
    assert_eq!(after(Some(ClientExit::TemporaryBan), 9), FollowUp::RestartAfter(9));
    assert_eq!(after(Some(ClientExit::TemporaryBan), 0), FollowUp::RestartAfter(1));
    assert_eq!(after(Some(ClientExit::PreserveCredentials), 9), FollowUp::Stop);
    assert!(coordinator.is_idle());
    let reset = Some(ClientExit::ResetCredentials);
    assert_eq!(follow_up(reset, 0, &mut coordinator), FollowUp::RunMaintenance);
    assert_eq!(coordinator.requested(), MaintenanceAction::Reset);
    assert_eq!(follow_up(reset, 0, &mut coordinator), FollowUp::AwaitReboot);
    coordinator.begin_reboot(MaintenanceAction::Reset);
    assert_eq!(follow_up(reset, 0, &mut coordinator), FollowUp::AwaitReboot);
}

#[test]
fn the_clock_decides_when_a_delay_is_over() {
    assert_eq!(delay_left(5_000_000, 0), 5_000_000);
    assert_eq!(delay_left(5_000_000, 4_999_999), 1);
    assert_eq!(delay_left(5_000_000, 5_000_000), 0);
    assert_eq!(delay_left(5, u64::MAX), 0);
}

#[test]
fn the_watchdog_is_given_up_after_a_run_of_failures() {
    let mut feeder = WatchdogFeeder::new();
    for _ in 0..MAX_FEED_FAILURES - 1 {
        assert_eq!(feeder.round(true, false), FeedStep::Retry);
    }
    assert_eq!(feeder.round(true, true), FeedStep::Feed);
    assert_eq!(feeder.failures, 0);
    for _ in 0..MAX_FEED_FAILURES - 1 {
        assert_eq!(feeder.round(false, true), FeedStep::Retry);
    }
    assert_eq!(feeder.round(false, true), FeedStep::GiveUp);
    // Both parts of a round may fail.
    let mut feeder = WatchdogFeeder::new();
    for _ in 0..5 {
        assert_eq!(feeder.round(false, false), FeedStep::Retry);
    }
    assert_eq!(feeder.round(false, false), FeedStep::GiveUp);
}

fn message(text: Option<&str>) -> MessageLogEntry {
    MessageLogEntry {
        id: "id".to_string(),
        chat: "c".to_string(),
        sender: "s".to_string(),
        text: text.map(str::to_string),
        timestamp: 0,
        from_me: false,
    }
}

#[test]
fn events_of_a_superseded_client_change_nothing() {
    let mut status = DeviceStatus::new();
    let mut scanned = false;
    let step = on_event(
        false,
        ClientEvent::PairingQrCode("q".to_string()),
        true,
        &mut scanned,
        &mut status,
    );
    assert!(matches!(step, EventStep::Nothing));
    assert!(!scanned);
    assert!(status.qr_code().is_none());
}

#[test]
fn a_qr_code_is_scanned_once() {
    let mut status = DeviceStatus::new();
    let mut scanned = false;
    let mut shown = |scan: bool, scanned: &mut bool| {
        on_event(
            true,
            ClientEvent::PairingQrCode("q".to_string()),
            scan,
            scanned,
            &mut status,
        )
    };
    assert!(matches!(shown(false, &mut scanned), EventStep::Nothing));
    assert!(matches!(shown(true, &mut scanned), EventStep::ScanQr(q) if q == "q"));
    assert!(matches!(shown(true, &mut scanned), EventStep::Nothing));
    assert_eq!(status.qr_code().as_deref(), Some("q"));
}

#[test]
fn events_follow_the_connection() {
    let mut status = DeviceStatus::new();
    let mut scanned = false;
    let connected = ClientEvent::Connected {
        pn: Some("p".to_string()),
        lid: None,
    };
    on_event(true, connected, true, &mut scanned, &mut status);
    assert!(status.is_connected());
    on_event(true, ClientEvent::Other, true, &mut scanned, &mut status);
    assert!(status.is_connected());
    on_event(true, ClientEvent::Disconnected, true, &mut scanned, &mut status);
    assert!(!status.is_connected());
    assert!(status.to_json(0).contains("\"pn\":\"p\""));
    on_event(true, ClientEvent::LoggedOut, true, &mut scanned, &mut status);
    assert!(status.to_json(0).contains("\"pn\":null"));
    status.set_qr_code("q".to_string());
    on_event(
        true,
        ClientEvent::PairingQrCodesExhausted,
        true,
        &mut scanned,
        &mut status,
    );
    assert!(status.qr_code().is_none());
}

#[test]
fn pings_are_answered_and_everything_is_logged() {
    let mut status = DeviceStatus::new();
    let mut scanned = false;
    let batch = vec![
        message(Some("hello")),
        message(Some(PING_TRIGGER)),
        message(None),
        message(Some("🦀ping ")),
        message(Some("🦀ping")),
    ];
    let step = on_event(
        true,
        ClientEvent::Messages(batch),
        true,
        &mut scanned,
        &mut status,
    );
    let EventStep::Take(mut messages) = step else {
        panic!("messages are taken");
    };
    assert!(status.messages_json().starts_with(r#"{"count":0,"#));
    // A message after a ping is not logged before the next look.
    let mut looks = Vec::new();
    for logged in [1, 2, 3, 4, 5, 5] {
        looks.push(messages.next(&mut status));
        assert!(status
            .messages_json()
            .starts_with(&format!(r#"{{"count":{logged},"#)));
    }
    assert_eq!(
        looks,
        [
            BatchStep::Logged,
            BatchStep::Answer(1),
            BatchStep::Logged,
            BatchStep::Logged,
            BatchStep::Answer(4),
            BatchStep::Done
        ]
    );
    let stale = on_event(
        false,
        ClientEvent::Messages(vec![message(None)]),
        true,
        &mut scanned,
        &mut status,
    );
    assert!(matches!(stale, EventStep::Nothing));
    assert_eq!(pong_with_duration("1.25s"), "🏓 Pong!\n`1.25s`");
}

#[test]
fn the_scan_endpoint_is_next_to_the_socket() {
    assert_eq!(
        scan_qr_url("wss://10.0.2.2:8080/ws/chat").unwrap(),
        "https://10.0.2.2:8080/admin/mock-phone/scan-qr"
    );
    assert_eq!(
        scan_qr_url("ws://host/x").unwrap(),
        "http://host:80/admin/mock-phone/scan-qr"
    );
    assert_eq!(scan_qr_url("host").unwrap_err(), UrlError::Scheme);
    assert!(is_success(200) && is_success(299));
    assert!(!is_success(199) && !is_success(300));
}

#[test]
fn what_was_provisioned_comes_before_the_defaults() {
    let value = |text: &str| Provisioned::Value(text.to_string());
    assert_eq!(choose_push_name(value("kitchen"), "esp32-test"), "kitchen");
    assert_eq!(choose_push_name(value(""), "esp32-test"), "esp32-test");
    assert_eq!(choose_push_name(Provisioned::Absent, "d"), "d");
    assert_eq!(choose_push_name(Provisioned::Unreadable, "d"), "d");
    assert_eq!(
        choose_admin_token(value("secret"), "d").unwrap().as_deref(),
        Some("secret")
    );
    assert_eq!(
        choose_admin_token(value(""), "d").unwrap().as_deref(),
        Some("d")
    );
    assert_eq!(
        choose_admin_token(Provisioned::Absent, "d").unwrap().as_deref(),
        Some("d")
    );
    assert_eq!(choose_admin_token(Provisioned::Absent, "").unwrap(), None);
    assert!(choose_admin_token(Provisioned::Unreadable, "d").is_err());
}
