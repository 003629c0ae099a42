//! The decisions of the firmware around the client: how a client that stopped is
//! followed up, what its events change, how the watchdog is fed, and what was
//! provisioned.

use crate::device_status::{
    logged, DeviceStatus, DeviceStatusView, MessageLogEntry, MessageView, MESSAGE_LOG_CAPACITY,
};
use crate::http_client::{parse_url, url_parts, UrlError};
use crate::supervisor::{MaintenanceAction, MaintenanceCoordinator, MaintenanceRequest};
use crate::text::{chars_of, decimal, decimal_text, same_text};
use std::collections::VecDeque;
use vstd::prelude::*;

verus! {

/// What a message has to say to be answered.
pub const PING_TRIGGER: &'static str = "🦀ping";

/// What it is answered with.
pub const PONG_TEXT: &'static str = "🏓 Pong!";

/// What it is reacted to with.
pub const REACTION_EMOJI: &'static str = "🏓";

/// What Linked Devices shows as the device's OS.
pub const DEVICE_OS: &'static str = "whatsapp-esp32";

/// The name a device pairs under where none was given.
pub const FALLBACK_PUSH_NAME: &'static str = "esp32-test";

/// How many prekeys are wanted. Many more would exhaust internal memory at login.
pub const WANTED_PRE_KEY_COUNT: usize = 20;

/// Why the last client stopped, and what is done about it, by severity.
#[derive(Clone, Copy, Debug, PartialEq, Eq, Structural)]
pub enum ClientExit {
    /// Rebuild the client after a short delay.
    Restart,
    /// The server said when to come back; wait that long first.
    TemporaryBan,
    /// The server rejected the client in a way a retry cannot fix, but the
    /// credentials are still valid. A reboot retries.
    PreserveCredentials,
    /// The server unlinked this device. The credentials are dead and have to be
    /// erased, so that the next boot pairs afresh.
    ResetCredentials,
}

impl ClientExit {
    /// How severe it is.
    pub open spec fn spec_severity(self) -> int {
        match self {
            ClientExit::Restart => 0,
            ClientExit::TemporaryBan => 1,
            ClientExit::PreserveCredentials => 2,
            ClientExit::ResetCredentials => 3,
        }
    }

    /// How severe it is.
    pub fn severity(&self) -> (r: u8)
        ensures
            r == self.spec_severity(),
    {
        match *self {
            ClientExit::Restart => 0,
            ClientExit::TemporaryBan => 1,
            ClientExit::PreserveCredentials => 2,
            ClientExit::ResetCredentials => 3,
        }
    }

    /// The exit of a severity, a restart for any other number.
    pub fn from_u8(value: u8) -> (r: ClientExit)
        ensures
            value <= 3 ==> r.spec_severity() == value,
            value > 3 ==> r == ClientExit::Restart,
    {
        match value {
            3 => ClientExit::ResetCredentials,
            2 => ClientExit::PreserveCredentials,
            1 => ClientExit::TemporaryBan,
            _ => ClientExit::Restart,
        }
    }
}

/// An event that may decide how a client ends.
#[derive(Clone, Copy, Debug, PartialEq, Eq, Structural)]
pub enum LifecycleEvent {
    /// Logged out: by the server, or from this side; with the code of the reason.
    LoggedOut { by_server: bool, code: i32 },
    /// Banned for this many seconds.
    TemporaryBan { seconds: i64 },
    ClientOutdated,
    StreamReplaced,
    /// The connection was refused, with the code of the reason.
    ConnectFailure { code: i32 },
}

/// The code of a device that was removed from the account.
pub const REMOVED_CODE: i32 = 401;

/// Whether a refusal with this code is one of the server's own troubles, after which
/// trying again makes sense.
pub open spec fn is_retriable(code: i32) -> bool {
    code == 500 || code == 503
}

/// Trusted: `ConnectFailureReason::should_reconnect`, of the reason with this code,
/// holds for an internal server error (500) and for an unavailable service (503), and
/// for no other.
#[verifier::external_body]
fn should_reconnect(code: i32) -> (r: bool)
    ensures
        r == is_retriable(code),
{
    whatsapp_rust::wacore::types::events::ConnectFailureReason::from(code).should_reconnect()
}

/// The exit that an event calls for, if it calls for one. Logging out from this side
/// is handled by whoever did it.
pub open spec fn exit_for(event: LifecycleEvent) -> Option<ClientExit> {
    match event {
        LifecycleEvent::LoggedOut { by_server, code } => if !by_server {
            None
        } else if code == REMOVED_CODE {
            Some(ClientExit::ResetCredentials)
        } else {
            Some(ClientExit::PreserveCredentials)
        },
        LifecycleEvent::TemporaryBan { .. } => Some(ClientExit::TemporaryBan),
        LifecycleEvent::ClientOutdated | LifecycleEvent::StreamReplaced => Some(
            ClientExit::PreserveCredentials,
        ),
        LifecycleEvent::ConnectFailure { code } => if is_retriable(code) {
            None
        } else {
            Some(ClientExit::PreserveCredentials)
        },
    }
}

/// The seconds of a ban, none where they are negative and the most there are where
/// they do not fit.
pub open spec fn ban_seconds(seconds: i64) -> u32 {
    if seconds < 0 {
        0
    } else if seconds > u32::MAX {
        u32::MAX
    } else {
        seconds as u32
    }
}

/// Watches the events that decide how a client ends. Of several the most severe
/// outcome stays.
#[derive(Clone, Copy, Debug, PartialEq, Eq, Structural)]
pub struct ClientExitObserver {
    pub outcome: ClientExit,
    pub temporary_ban_seconds: u32,
}

impl ClientExitObserver {
    /// Nothing was observed: a client that stops is restarted.
    pub fn new() -> (r: ClientExitObserver)
        ensures
            r == (ClientExitObserver { outcome: ClientExit::Restart, temporary_ban_seconds: 0 }),
    {
        ClientExitObserver { outcome: ClientExit::Restart, temporary_ban_seconds: 0 }
    }

    /// Takes in an event.
    pub fn handle_event(&mut self, event: LifecycleEvent)
        ensures
            final(self).outcome == match exit_for(event) {
                Some(exit) if exit.spec_severity() > old(self).outcome.spec_severity() => exit,
                _ => old(self).outcome,
            },
            final(self).temporary_ban_seconds == match event {
                LifecycleEvent::TemporaryBan { seconds } => ban_seconds(seconds),
                _ => old(self).temporary_ban_seconds,
            },
            final(self).outcome.spec_severity() >= old(self).outcome.spec_severity(),
    {
        let exit = match event {
            LifecycleEvent::LoggedOut { by_server, code } => {
                if !by_server {
                    return;
                }
                if code == REMOVED_CODE {
                    ClientExit::ResetCredentials
                } else {
                    ClientExit::PreserveCredentials
                }
            },
            LifecycleEvent::TemporaryBan { seconds } => {
                self.temporary_ban_seconds = if seconds < 0 {
                    0
                } else if seconds > 0xffff_ffff {
                    u32::MAX
                } else {
                    seconds as u32
                };
                ClientExit::TemporaryBan
            },
            LifecycleEvent::ClientOutdated | LifecycleEvent::StreamReplaced => {
                ClientExit::PreserveCredentials
            },
            LifecycleEvent::ConnectFailure { code } => {
                if should_reconnect(code) {
                    return;
                }
                ClientExit::PreserveCredentials
            },
        };
        if exit.severity() > self.outcome.severity() {
            self.outcome = exit;
        }
    }

    /// Ends a run: the status shows the client as gone, or as unlinked. How it
    /// ended, and how many seconds a ban asks to wait, with a margin.
    pub fn finish(&self, status: &mut DeviceStatus) -> (r: (ClientExit, u32))
        requires
            old(status).wf(),
        ensures
            final(status).wf(),
            r.0 == self.outcome,
            r.1 == if self.temporary_ban_seconds > u32::MAX - 5 {
                u32::MAX as int
            } else {
                self.temporary_ban_seconds + 5
            },
            final(status)@ == if self.outcome == ClientExit::ResetCredentials {
                old(status)@.logged_out()
            } else {
                DeviceStatusView { connected: false, ..old(status)@ }
            },
    {
        match self.outcome {
            ClientExit::ResetCredentials => status.set_logged_out(),
            _ => status.set_disconnected(),
        }
        (self.outcome, self.temporary_ban_seconds.saturating_add(5))
    }
}

/// What follows a client that stopped.
#[derive(Clone, Copy, Debug, PartialEq, Eq, Structural)]
pub enum FollowUp {
    /// Build a new client after this many seconds.
    RestartAfter(u64),
    /// Keep the credentials and retry no more.
    Stop,
    /// Run the maintenance that was requested, which resets and reboots.
    RunMaintenance,
    /// Maintenance is under way already, and will reboot.
    AwaitReboot,
}

/// What follows a client that stopped. `exit` is `None` where it could not be run at
/// all; `ban_wait` is how many seconds a ban asks to wait. Dead credentials are
/// erased through the arbiter of maintenance, which decides who does the work.
pub fn follow_up(
    exit: Option<ClientExit>,
    ban_wait: u32,
    coordinator: &mut MaintenanceCoordinator,
) -> (r: FollowUp)
    ensures
        exit != Some(ClientExit::ResetCredentials) ==> *final(coordinator) == *old(coordinator),
        match exit {
            None | Some(ClientExit::Restart) => r == FollowUp::RestartAfter(5),
            Some(ClientExit::TemporaryBan) => r == FollowUp::RestartAfter(
                if ban_wait == 0 {
                    1
                } else {
                    ban_wait as u64
                },
            ),
            Some(ClientExit::PreserveCredentials) => r == FollowUp::Stop,
            Some(ClientExit::ResetCredentials) => if old(coordinator).accepting {
                &&& r == if old(coordinator).running {
                    FollowUp::AwaitReboot
                } else {
                    FollowUp::RunMaintenance
                }
                &&& *final(coordinator) == (MaintenanceCoordinator {
                    highest: Some(MaintenanceAction::Reset),
                    running: true,
                    accepting: true,
                })
            } else {
                r == FollowUp::AwaitReboot && *final(coordinator) == *old(coordinator)
            },
        },
{
    match exit {
        None | Some(ClientExit::Restart) => FollowUp::RestartAfter(5),
        Some(ClientExit::TemporaryBan) => FollowUp::RestartAfter(
            if ban_wait == 0 {
                1
            } else {
                ban_wait as u64
            },
        ),
        Some(ClientExit::PreserveCredentials) => FollowUp::Stop,
        Some(ClientExit::ResetCredentials) => match coordinator.request(MaintenanceAction::Reset) {
            MaintenanceRequest::Start => FollowUp::RunMaintenance,
            MaintenanceRequest::Queued | MaintenanceRequest::Rejected => FollowUp::AwaitReboot,
        },
    }
}

/// How much of a delay is left, in microseconds. A sleep may end early, where no
/// timer could be armed, so the clock decides when a delay is over.
pub fn delay_left(delay_us: u64, elapsed_us: u64) -> (r: u64)
    ensures
        r == if elapsed_us < delay_us {
            delay_us - elapsed_us
        } else {
            0
        },
{
    if elapsed_us < delay_us {
        delay_us - elapsed_us
    } else {
        0
    }
}

/// How often the watchdog is fed, in milliseconds.
pub const FEED_INTERVAL_MS: u64 = 5_000;

/// The delay before a failed round is repeated, in milliseconds.
pub const FEED_RETRY_MS: u64 = 250;

/// How many failures in a row end the feeding.
pub const MAX_FEED_FAILURES: u32 = 12;

/// What follows a round of feeding the watchdog.
#[derive(Clone, Copy, Debug, PartialEq, Eq, Structural)]
pub enum FeedStep {
    /// The next round, at once: the timer has been waited for.
    Feed,
    /// The next round, after a short delay.
    Retry,
    /// Unregister from the watchdog and stop: one that nobody feeds reboots a
    /// device that is working.
    GiveUp,
}

/// Feeds the task watchdog. Failures are transient by nature, and only a run of them
/// that is long enough to be a real fault ends the feeding.
#[derive(Clone, Copy, Debug, PartialEq, Eq, Structural)]
pub struct WatchdogFeeder {
    /// Failures since the last round without one.
    pub failures: u32,
}

impl WatchdogFeeder {
    /// Fewer failures than end the feeding.
    pub open spec fn wf(self) -> bool {
        self.failures < MAX_FEED_FAILURES
    }

    /// No failures yet.
    pub fn new() -> (r: WatchdogFeeder)
        ensures
            r.wf(),
            r.failures == 0,
    {
        WatchdogFeeder { failures: 0 }
    }

    /// Ends a round: whether the watchdog took the feed, and whether the timer for
    /// the next one was armed and waited for.
    pub fn round(&mut self, fed: bool, waited: bool) -> (r: FeedStep)
        requires
            old(self).wf(),
        ensures
            ({
                let failures = old(self).failures + if fed { 0int } else { 1 } + if waited {
                    0int
                } else {
                    1
                };
                if fed && waited {
                    r == FeedStep::Feed && final(self).failures == 0
                } else if failures >= 12 {
                    r == FeedStep::GiveUp && final(self).failures == failures
                } else {
                    r == FeedStep::Retry && final(self).failures == failures
                }
            }),
            r != FeedStep::GiveUp ==> final(self).wf(),
    {
        if !fed {
            self.failures = self.failures + 1;
        }
        if !waited {
            self.failures = self.failures + 1;
        }
        if fed && waited {
            self.failures = 0;
            return FeedStep::Feed;
        }
        if self.failures >= MAX_FEED_FAILURES {
            FeedStep::GiveUp
        } else {
            FeedStep::Retry
        }
    }
}

/// An event of a client that the status follows.
#[derive(Debug)]
pub enum ClientEvent {
    PairingQrCode(String),
    PairingQrCodesExhausted,
    Connected { pn: Option<String>, lid: Option<String> },
    Disconnected,
    LoggedOut,
    /// Messages, with what is logged of each.
    Messages(Vec<MessageLogEntry>),
    Other,
}

/// What an event calls for beside what it changes in the status.
#[derive(Debug)]
pub enum EventStep {
    Nothing,
    /// Have the QR code scanned by the server's own phone.
    ScanQr(String),
    /// Take these messages, one at a time.
    Take(MessageBatch),
}

/// Whether a message is a ping.
pub open spec fn is_ping(m: MessageView) -> bool {
    m.text == Some(PING_TRIGGER@)
}

/// The messages that a log holds after one more. Of a full log the oldest goes.
pub open spec fn log_after(log: Seq<MessageView>, message: MessageView) -> Seq<MessageView> {
    if log.len() == MESSAGE_LOG_CAPACITY {
        log.skip(1).push(logged(message))
    } else {
        log.push(logged(message))
    }
}

/// The messages that a log holds after these.
pub open spec fn log_with(log: Seq<MessageView>, messages: Seq<MessageView>) -> Seq<MessageView>
    decreases messages.len(),
{
    if messages.len() == 0 {
        log
    } else {
        log_after(log_with(log, messages.drop_last()), messages.last())
    }
}

/// The places of the pings among messages.
pub open spec fn pings_in(messages: Seq<MessageView>) -> Seq<int>
    decreases messages.len(),
{
    if messages.len() == 0 {
        Seq::empty()
    } else if is_ping(messages.last()) {
        pings_in(messages.drop_last()).push(messages.len() - 1)
    } else {
        pings_in(messages.drop_last())
    }
}

/// Messages as values.
pub open spec fn message_views(messages: Seq<MessageLogEntry>) -> Seq<MessageView> {
    messages.map_values(|m: MessageLogEntry| m@)
}

/// What the status shows after an event. Messages are shown as they are taken.
pub open spec fn status_after(status: DeviceStatusView, event: ClientEvent) -> DeviceStatusView {
    match event {
        ClientEvent::PairingQrCode(code) => DeviceStatusView {
            qr_code: Some(code@),
            connected: false,
            ..status
        },
        ClientEvent::PairingQrCodesExhausted => DeviceStatusView { qr_code: None, ..status },
        ClientEvent::Connected { pn, lid } => DeviceStatusView {
            qr_code: None,
            connected: true,
            pn: crate::device_status::text_view(pn),
            lid: crate::device_status::text_view(lid),
            pair_code: crate::device_status::PairCodeView::Idle,
            ..status
        },
        ClientEvent::Disconnected => DeviceStatusView { connected: false, ..status },
        ClientEvent::LoggedOut => status.logged_out(),
        ClientEvent::Messages(_) | ClientEvent::Other => status,
    }
}

/// Takes in an event of a client. One of a client that was superseded changes
/// nothing. `scan` says that QR codes are scanned without a phone, which is done once
/// per client: `scanned` keeps whether it was.
pub fn on_event(
    is_current: bool,
    event: ClientEvent,
    scan: bool,
    scanned: &mut bool,
    status: &mut DeviceStatus,
) -> (r: EventStep)
    requires
        old(status).wf(),
    ensures
        final(status).wf(),
        final(status)@ == if is_current {
            status_after(old(status)@, event)
        } else {
            old(status)@
        },
        *final(scanned) == (*old(scanned) || (is_current && event is PairingQrCode && scan)),
        match event {
            ClientEvent::PairingQrCode(code) => if is_current && scan && !*old(scanned) {
                r matches EventStep::ScanQr(got) && got@ == code@
            } else {
                r is Nothing
            },
            ClientEvent::Messages(batch) => if is_current {
                r matches EventStep::Take(messages) && messages.wf() && messages.left()
                    == message_views(batch@) && messages.place() == 0
            } else {
                r is Nothing
            },
            _ => r is Nothing,
        },
{
    if !is_current {
        return EventStep::Nothing;
    }
    match event {
        ClientEvent::PairingQrCode(code) => {
            let copy = code.clone();
            status.set_qr_code(code);
            if scan && !*scanned {
                *scanned = true;
                EventStep::ScanQr(copy)
            } else {
                EventStep::Nothing
            }
        },
        ClientEvent::PairingQrCodesExhausted => {
            status.clear_qr_code();
            EventStep::Nothing
        },
        ClientEvent::Connected { pn, lid } => {
            status.set_connected(pn, lid);
            EventStep::Nothing
        },
        ClientEvent::Disconnected => {
            status.set_disconnected();
            EventStep::Nothing
        },
        ClientEvent::LoggedOut => {
            status.set_logged_out();
            EventStep::Nothing
        },
        ClientEvent::Messages(batch) => EventStep::Take(MessageBatch::new(batch)),
        ClientEvent::Other => EventStep::Nothing,
    }
}

/// What to do after a look at a batch of messages.
#[derive(Clone, Copy, Debug, PartialEq, Eq, Structural)]
pub enum BatchStep {
    /// Look again: a message was logged that needs no answer.
    Logged,
    /// Answer the message at this place of the batch, which was logged, and look again
    /// once that is done.
    Answer(usize),
    /// Nothing is left of the batch.
    Done,
}

/// A batch of messages that are taken one at a time: a message after a ping is not
/// logged before the ping was answered.
#[derive(Debug)]
pub struct MessageBatch {
    left: VecDeque<MessageLogEntry>,
    place: usize,
}

impl MessageBatch {
    /// The messages that are left.
    pub closed spec fn left(&self) -> Seq<MessageView> {
        message_views(self.left@)
    }

    /// The place of the next message in the batch.
    pub closed spec fn place(&self) -> usize {
        self.place
    }

    /// The places of the batch can be counted.
    pub closed spec fn wf(&self) -> bool {
        self.place + self.left@.len() <= usize::MAX
    }

    /// A batch of which nothing was taken.
    pub fn new(messages: Vec<MessageLogEntry>) -> (r: MessageBatch)
        ensures
            r.wf(),
            r.left() == message_views(messages@),
            r.place() == 0,
    {
        let ghost all = messages@;
        let held = messages.len();
        let mut left: VecDeque<MessageLogEntry> = VecDeque::new();
        assert(all.take(0) =~= Seq::empty());
        for entry in it: messages
            invariant
                it.seq() == all,
                left@ == all.take(it.index() as int),
        {
            left.push_back(entry);
            assert(left@ =~= all.take(it.index() + 1));
        }
        assert(left@ =~= all);
        assert(held == all.len());
        MessageBatch { left, place: 0 }
    }

    /// Takes the next message of the batch, if one is left: it is logged, and where it
    /// is a ping it is to be answered before the next look.
    pub fn next(&mut self, status: &mut DeviceStatus) -> (r: BatchStep)
        requires
            old(self).wf(),
            old(status).wf(),
        ensures
            final(self).wf(),
            final(status).wf(),
            old(self).left().len() == 0 ==> {
                &&& r == BatchStep::Done
                &&& final(self).left() == old(self).left()
                &&& final(self).place() == old(self).place()
                &&& final(status)@ == old(status)@
            },
            old(self).left().len() > 0 ==> {
                let message = old(self).left()[0];
                &&& r == if is_ping(message) {
                    BatchStep::Answer(old(self).place())
                } else {
                    BatchStep::Logged
                }
                &&& final(self).left() == old(self).left().skip(1)
                &&& final(self).place() == old(self).place() + 1
                &&& final(status)@ == (DeviceStatusView {
                    messages: log_after(old(status)@.messages, message),
                    ..old(status)@
                })
            },
    {
        match self.left.pop_front() {
            None => BatchStep::Done,
            Some(entry) => {
                assert(self.left() =~= old(self).left().skip(1));
                assert(entry@ == old(self).left()[0]);
                let ping = match &entry.text {
                    Some(text) => {
                        let chars = chars_of(text.as_str());
                        same_text(chars.as_slice(), PING_TRIGGER)
                    },
                    None => false,
                };
                let at = self.place;
                self.place = at + 1;
                status.record_message(entry);
                if ping {
                    BatchStep::Answer(at)
                } else {
                    BatchStep::Logged
                }
            },
        }
    }
}

/// The looks at a batch add up: after `n` of them, and nothing else, the log holds the
/// first `n` messages and the pings among them were answered, each at its place; the
/// next look logs the next message and answers it if it is a ping.
pub proof fn looks_add_up_to_the_batch(log: Seq<MessageView>, messages: Seq<MessageView>, n: int)
    requires
        0 <= n < messages.len(),
    ensures
        log_with(log, messages.take(n + 1)) == log_after(
            log_with(log, messages.take(n)),
            messages[n],
        ),
        pings_in(messages.take(n + 1)) == if is_ping(messages[n]) {
            pings_in(messages.take(n)).push(n)
        } else {
            pings_in(messages.take(n))
        },
        messages.take(messages.len() as int) == messages,
{
    assert(messages.take(n + 1).drop_last() =~= messages.take(n));
    assert(messages.take(messages.len() as int) =~= messages);
}

/// The text a pong is edited to, once it is known how long sending it took.
pub fn pong_with_duration(duration: &str) -> (r: String)
    ensures
        r@ == PONG_TEXT@ + "\n`"@ + duration@ + "`"@,
{
    let mut text = PONG_TEXT.to_owned();
    text.append("\n`");
    text.append(duration);
    text.append("`");
    text
}

/// Where a local server has QR codes scanned.
pub open spec fn scan_url(host: Seq<char>, port: nat, use_tls: bool) -> Seq<char> {
    (if use_tls {
        "https"@
    } else {
        "http"@
    }) + "://"@ + host + ":"@ + decimal(port) + "/admin/mock-phone/scan-qr"@
}

/// Where the server behind `ws_url` has QR codes scanned.
pub fn scan_qr_url(ws_url: &str) -> (r: Result<String, UrlError>)
    ensures
        match url_parts(ws_url@) {
            Ok(parts) => r matches Ok(url) && url@ == scan_url(
                parts.host,
                parts.port,
                parts.use_tls,
            ),
            Err(e) => r matches Err(got) && got == e,
        },
{
    match parse_url(ws_url) {
        Err(e) => Err(e),
        Ok((host, port, _, use_tls)) => {
            let mut url = if use_tls { "https".to_owned() } else { "http".to_owned() };
            url.append("://");
            url.append(host.as_str());
            url.append(":");
            url.append(decimal_text(port as u64).as_str());
            url.append("/admin/mock-phone/scan-qr");
            Ok(url)
        },
    }
}

/// Whether a response says that a request was taken.
pub fn is_success(status_code: u16) -> (r: bool)
    ensures
        r == (200 <= status_code < 300),
{
    200 <= status_code && status_code < 300
}

/// What was provisioned under a key.
#[derive(Debug)]
pub enum Provisioned {
    /// Nothing was written there.
    Absent,
    Value(String),
    /// It could not be read.
    Unreadable,
}

/// The name to pair under: what was provisioned and is not empty, else the default. A
/// name that cannot be read counts as none.
pub fn choose_push_name(provisioned: Provisioned, default_name: &str) -> (r: String)
    ensures
        r@ == match provisioned {
            Provisioned::Value(name) => if name@.len() > 0 {
                name@
            } else {
                default_name@
            },
            _ => default_name@,
        },
{
    match provisioned {
        Provisioned::Value(name) => if name.as_str().is_empty() {
            default_name.to_owned()
        } else {
            name
        },
        _ => default_name.to_owned(),
    }
}

/// The admin token: what was provisioned and is not empty, else the default where that
/// is not empty, else none. A token that cannot be read is an error: startup fails
/// rather than leave the interface open.
pub fn choose_admin_token(provisioned: Provisioned, default_token: &str) -> (r: Result<
    Option<String>,
    (),
>)
    ensures
        r is Err == provisioned is Unreadable,
        r matches Ok(token) ==> {
            let given = match provisioned {
                Provisioned::Value(value) => value@,
                _ => Seq::empty(),
            };
            let wanted = if given.len() > 0 {
                given
            } else {
                default_token@
            };
            if wanted.len() > 0 {
                token matches Some(t) && t@ == wanted
            } else {
                token is None
            }
        },
{
    match provisioned {
        Provisioned::Unreadable => Err(()),
        Provisioned::Value(value) => if value.as_str().is_empty() {
            Ok(non_empty(default_token))
        } else {
            Ok(Some(value))
        },
        Provisioned::Absent => Ok(non_empty(default_token)),
    }
}

fn non_empty(text: &str) -> (r: Option<String>)
    ensures
        text@.len() > 0 ==> (r matches Some(t) && t@ == text@),
        text@.len() == 0 ==> r is None,
{
    if text.is_empty() {
        None
    } else {
        Some(text.to_owned())
    }
}

/// Only a removal by the server itself costs the credentials. A ban is waited out; a
/// client that is outdated, replaced or refused keeps its credentials and stops; trouble
/// of the server's own, and a logout from this side, decide nothing.
pub proof fn exits_follow_their_reason(by_server: bool, code: i32, seconds: i64)
    ensures
        exit_for(LifecycleEvent::LoggedOut { by_server: false, code }) is None,
        exit_for(LifecycleEvent::LoggedOut { by_server: true, code }) == Some(
            if code == 401 {
                ClientExit::ResetCredentials
            } else {
                ClientExit::PreserveCredentials
            },
        ),
        exit_for(LifecycleEvent::TemporaryBan { seconds }) == Some(ClientExit::TemporaryBan),
        exit_for(LifecycleEvent::ClientOutdated) == Some(ClientExit::PreserveCredentials),
        exit_for(LifecycleEvent::StreamReplaced) == Some(ClientExit::PreserveCredentials),
        code == 500 || code == 503 ==> exit_for(LifecycleEvent::ConnectFailure { code }) is None,
        code != 500 && code != 503 ==> exit_for(LifecycleEvent::ConnectFailure { code }) == Some(
            ClientExit::PreserveCredentials,
        ),
        ClientExit::Restart.spec_severity() == 0,
        ClientExit::TemporaryBan.spec_severity() == 1,
        ClientExit::PreserveCredentials.spec_severity() == 2,
        ClientExit::ResetCredentials.spec_severity() == 3,
{
}

/// A ban lasts as long as the server says, as far as that can be told.
pub proof fn bans_last_as_long_as_said(seconds: i64)
    ensures
        0 <= seconds <= 4294967295 ==> ban_seconds(seconds) == seconds,
        seconds < 0 ==> ban_seconds(seconds) == 0,
        seconds > 4294967295 ==> ban_seconds(seconds) == 4294967295,
{
}

/// A ping is a message of exactly these characters.
pub proof fn pings_are_exact(m: MessageView)
    ensures
        is_ping(m) <==> m.text is Some && m.text->0 == "🦀ping"@,
        PONG_TEXT@ == "🏓 Pong!"@,
        REACTION_EMOJI@ == "🏓"@,
{
}

/// The log holds the last sixteen messages, in order, each as it is logged.
pub proof fn the_log_holds_the_last_sixteen(messages: Seq<MessageView>)
    ensures
        ({
            let log = log_with(Seq::empty(), messages);
            let gone: int = if messages.len() <= 16 { 0 } else { messages.len() - 16 };
            &&& log.len() == messages.len() - gone
            &&& forall|i: int| 0 <= i < log.len() ==> #[trigger] log[i] == logged(messages[gone + i])
        }),
    decreases messages.len(),
{
    if messages.len() > 0 {
        the_log_holds_the_last_sixteen(messages.drop_last());
        let log = log_with(Seq::empty(), messages);
        let before = log_with(Seq::empty(), messages.drop_last());
        let gone: int = if messages.len() <= 16 { 0 } else { messages.len() - 16 };
        assert forall|i: int| 0 <= i < log.len() implies #[trigger] log[i] == logged(
            messages[gone + i],
        ) by {
            if messages.len() > 16 {
                if i < 15 {
                    assert(log[i] == before[i + 1]);
                }
            } else if i < before.len() {
                assert(log[i] == before[i]);
            }
        }
    }
}

/// What is answered is each message that is a ping, at its place, in order.
pub proof fn every_ping_is_answered(messages: Seq<MessageView>)
    ensures
        forall|i: int|
            0 <= i < messages.len() ==> (pings_in(messages).contains(i) <==> is_ping(
                #[trigger] messages[i],
            )),
        forall|k: int|
            0 <= k < pings_in(messages).len() ==> 0 <= #[trigger] pings_in(messages)[k]
                < messages.len(),
        forall|k: int, m: int|
            0 <= k < m < pings_in(messages).len() ==> pings_in(messages)[k] < pings_in(messages)[m],
    decreases messages.len(),
{
    if messages.len() > 0 {
        let front = messages.drop_last();
        every_ping_is_answered(front);
        let before = pings_in(front);
        let all = pings_in(messages);
        let last = messages.len() - 1;
        assert forall|k: int| 0 <= k < all.len() implies 0 <= #[trigger] all[k] < messages.len() by {
            if k < before.len() {
                assert(all[k] == before[k]);
            }
        }
        assert forall|k: int, m: int| 0 <= k < m < all.len() implies all[k] < all[m] by {
            assert(all[k] == before[k]);
            if m < before.len() {
                assert(all[m] == before[m]);
            }
        }
        assert forall|i: int| 0 <= i < messages.len() implies (all.contains(i) <==> is_ping(
            #[trigger] messages[i],
        )) by {
            if i < last {
                assert(front[i] == messages[i]);
                if before.contains(i) {
                    let k = before.index_of(i);
                    assert(all[k] == i);
                }
                if all.contains(i) {
                    let k = all.index_of(i);
                    assert(k < before.len());
                    assert(before[k] == i);
                }
            } else {
                if is_ping(messages[i]) {
                    assert(all[all.len() - 1] == i);
                }
                if all.contains(i) && !is_ping(messages[i]) {
                    let k = all.index_of(i);
                    assert(before[k] == i);
                }
            }
        }
    }
}

/// What each event of a client shows: a QR code to scan, the account it is connected as,
/// that it dropped, that it is unlinked; nothing else of the status changes.
pub proof fn events_show_what_happened(
    status: DeviceStatusView,
    code: String,
    pn: Option<String>,
    lid: Option<String>,
    batch: Vec<MessageLogEntry>,
)
    ensures
        status_after(status, ClientEvent::PairingQrCode(code)) == (DeviceStatusView {
            qr_code: Some(code@),
            connected: false,
            ..status
        }),
        status_after(status, ClientEvent::PairingQrCodesExhausted) == (DeviceStatusView {
            qr_code: None,
            ..status
        }),
        ({
            let shown = status_after(status, ClientEvent::Connected { pn, lid });
            &&& shown.qr_code is None
            &&& shown.connected
            &&& shown.pair_code is Idle
            &&& shown.pn is Some <==> pn is Some
            &&& pn is Some ==> shown.pn->0 == (pn->0)@
            &&& shown.lid is Some <==> lid is Some
            &&& lid is Some ==> shown.lid->0 == (lid->0)@
            &&& shown.messages == status.messages
            &&& shown.next_pair_code_request == status.next_pair_code_request
        }),
        status_after(status, ClientEvent::Disconnected) == (DeviceStatusView {
            connected: false,
            ..status
        }),
        status_after(status, ClientEvent::LoggedOut) == (DeviceStatusView {
            connected: false,
            pn: None,
            lid: None,
            messages: Seq::empty(),
            ..status
        }),
        status_after(status, ClientEvent::Messages(batch)) == status,
        status_after(status, ClientEvent::Other) == status,
{
}

/// A server has QR codes scanned on its own host and port, by the scheme that goes with
/// its socket's.
pub proof fn scans_go_to_the_same_server(host: Seq<char>, port: nat)
    ensures
        scan_url(host, port, true) == "https"@ + "://"@ + host + ":"@ + decimal(port)
            + "/admin/mock-phone/scan-qr"@,
        scan_url(host, port, false) == "http"@ + "://"@ + host + ":"@ + decimal(port)
            + "/admin/mock-phone/scan-qr"@,
{
}

/// The watchdog is fed every five seconds, tried again after a quarter of one, and given
/// up at the twelfth failure in a row.
pub proof fn the_watchdog_is_fed_in_time(feeder: WatchdogFeeder)
    ensures
        FEED_INTERVAL_MS == 5000,
        FEED_RETRY_MS == 250,
        feeder.wf() <==> feeder.failures < 12,
        WANTED_PRE_KEY_COUNT == 20,
{
}

/// Messages are viewed one by one, as they are.
pub proof fn messages_are_viewed_in_order(messages: Seq<MessageLogEntry>)
    ensures
        message_views(messages).len() == messages.len(),
        forall|i: int| 0 <= i < messages.len() ==> message_views(messages)[i] == (#[trigger] messages[i])@,
{
}

/// The device presents itself by these names.
pub proof fn devices_have_their_names()
    ensures
        DEVICE_OS@ == "whatsapp-esp32"@,
        FALLBACK_PUSH_NAME@ == "esp32-test"@,
{
}

} // verus!
