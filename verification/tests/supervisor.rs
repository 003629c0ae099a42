use whatsapp_esp32::device_status::DeviceStatus;
use whatsapp_esp32::supervisor::{
    ActiveClient, ClientStop, MaintenanceAction, MaintenanceCoordinator, MaintenanceRequest,
    MaintenanceRun, MaintenanceStep, RETRY_DELAY_S,
};

#[test]
fn test_maintenance_action_ordering() {
    assert!(MaintenanceAction::Reset > MaintenanceAction::ClearSessions);
    assert!(MaintenanceAction::ClearSessions > MaintenanceAction::Reboot);
    assert!(MaintenanceAction::Reset > MaintenanceAction::Reboot);
}

#[test]
fn test_maintenance_coordinator_lifecycle() {
    let mut coord = MaintenanceCoordinator::new();
    assert!(coord.is_idle());

    // First request is Start
    assert_eq!(
        coord.request(MaintenanceAction::Reboot),
        MaintenanceRequest::Start
    );
    assert!(!coord.is_idle());

    // Upgraded request is Queued
    assert_eq!(
        coord.request(MaintenanceAction::Reset),
        MaintenanceRequest::Queued
    );
    assert_eq!(coord.requested(), MaintenanceAction::Reset);

    // Begin reboot locks in the action
    assert!(coord.begin_reboot(MaintenanceAction::Reset));

    // After commit, new requests are rejected
    assert_eq!(
        coord.request(MaintenanceAction::Reboot),
        MaintenanceRequest::Rejected
    );
}

#[test]
fn test_device_status_state() {
    let mut status = DeviceStatus::new();
    assert!(!status.is_connected());
    assert!(status.qr_code().is_none());

    status.set_qr_code("test_qr_code_123".to_string());
    assert_eq!(status.qr_code().as_deref(), Some("test_qr_code_123"));

    status.set_connected(
        Some("15551234567".to_string()),
        Some("lid_user".to_string()),
    );
    assert!(status.is_connected());
    assert!(status.qr_code().is_none()); // Connected clears QR code

    status.set_disconnected();
    assert!(!status.is_connected());
}

#[test]
fn the_rank_follows_the_order() {
    let all = [
        MaintenanceAction::Reboot,
        MaintenanceAction::ClearSessions,
        MaintenanceAction::Reset,
    ];
    for a in all {
        for b in all {
            assert_eq!(a < b, a.rank() < b.rank());
        }
    }
}

#[test]
fn requests_merge_into_the_more_destructive_one() {
    for (a, b) in [
        (MaintenanceAction::ClearSessions, MaintenanceAction::Reset),
        (MaintenanceAction::Reset, MaintenanceAction::ClearSessions),
    ] {
        let mut coord = MaintenanceCoordinator::default();
        assert_eq!(coord.requested(), MaintenanceAction::Reboot);
        coord.request(a);
        coord.request(b);
        assert_eq!(coord.requested(), MaintenanceAction::Reset);
        assert!(!coord.begin_reboot(MaintenanceAction::ClearSessions));
        assert!(coord.accepting);
    }
    let mut coord = MaintenanceCoordinator::new();
    coord.request(MaintenanceAction::Reset);
    coord.cancel_start();
    assert!(coord.is_idle());
    assert_eq!(coord.requested(), MaintenanceAction::Reboot);
}

#[test]
fn only_the_live_client_is_cleared() {
    let mut active: ActiveClient<&str> = ActiveClient::new();
    assert!(active.current().is_none());
    active.set(1, "first");
    active.set(2, "second");
    assert!(!active.is_current(1));
    active.clear_if(1);
    assert_eq!(active.current(), Some(&(2, "second")));
    assert!(active.is_current(2));
    active.clear_if(2);
    assert!(active.current().is_none());
    assert!(!active.is_current(2));
}

#[test]
fn a_reset_logs_out_and_is_applied_before_the_restart() {
    let mut coord = MaintenanceCoordinator::new();
    coord.request(MaintenanceAction::Reset);
    let (mut run, stop) = MaintenanceRun::start(coord.requested(), true);
    assert_eq!(stop, Some(ClientStop::Logout));
    assert_eq!(
        run.next(&mut coord),
        MaintenanceStep::Apply(MaintenanceAction::Reset)
    );
    assert_eq!(run.applied(MaintenanceAction::Reset, false), RETRY_DELAY_S);
    assert_eq!(
        run.next(&mut coord),
        MaintenanceStep::Apply(MaintenanceAction::Reset)
    );
    assert_eq!(run.applied(MaintenanceAction::Reset, true), 0);
    assert_eq!(run.next(&mut coord), MaintenanceStep::Restart);
    assert_eq!(
        coord.request(MaintenanceAction::Reset),
        MaintenanceRequest::Rejected
    );
}

#[test]
fn a_reset_that_upgrades_a_reboot_still_logs_out() {
    let mut coord = MaintenanceCoordinator::new();
    coord.request(MaintenanceAction::ClearSessions);
    let (mut run, stop) = MaintenanceRun::start(coord.requested(), true);
    assert_eq!(stop, Some(ClientStop::Disconnect));
    assert_eq!(
        run.next(&mut coord),
        MaintenanceStep::Apply(MaintenanceAction::ClearSessions)
    );
    run.applied(MaintenanceAction::ClearSessions, true);
    coord.request(MaintenanceAction::Reset);
    assert_eq!(run.next(&mut coord), MaintenanceStep::Logout);
    assert_eq!(
        run.next(&mut coord),
        MaintenanceStep::Apply(MaintenanceAction::Reset)
    );
    run.applied(MaintenanceAction::Reset, true);
    assert_eq!(run.next(&mut coord), MaintenanceStep::Restart);
}

#[test]
fn a_plain_reboot_without_a_client_restarts_at_once() {
    let mut coord = MaintenanceCoordinator::new();
    coord.request(MaintenanceAction::Reboot);
    let (mut run, stop) = MaintenanceRun::start(coord.requested(), false);
    assert_eq!(stop, None);
    assert_eq!(run.next(&mut coord), MaintenanceStep::Restart);
}

#[test]
fn only_the_first_request_starts_a_task() {
    let mut coord = MaintenanceCoordinator::new();
    assert_eq!(
        coord.request(MaintenanceAction::ClearSessions),
        MaintenanceRequest::Start
    );
    for _ in 0..5 {
        assert_eq!(
            coord.request(MaintenanceAction::Reboot),
            MaintenanceRequest::Queued
        );
        assert_eq!(coord.requested(), MaintenanceAction::ClearSessions);
    }
}
