//! The connection to the gateway: how it is made, and what each frame on it comes
//! to.

use crate::buffers::content;
use crate::http_client::{parse_url, url_parts, UrlError};
use crate::runtime::{by_ram, ThreadConfig};
use crate::ws::{
    error_in, look, look_keeps_what_is_unread, messages_in, read_takes_the_front, step_from, Frame,
    FrameView, Limits, Outcome, Reading, WsClient, WsError,
};
use bytes::Bytes;
use vstd::prelude::*;

verus! {

/// Default bound on establishing a connection, in milliseconds: TCP connect plus
/// TLS handshake.
pub const CONNECT_TIMEOUT_MS: u64 = 30_000;

/// How long a read may wait, in milliseconds, once the connection is up.
pub const READ_TIMEOUT_MS: u32 = 100;

/// Outbound frames waiting for the socket. A stalled socket has to surface as a
/// send error, not as an ever-growing queue.
pub const SEND_QUEUE_CAP: usize = 64;

/// The status code of an orderly close.
pub const CLOSE_NORMAL: u16 = 1000;

/// A timeout as the TLS layer takes it: in milliseconds, the longest there is
/// where it does not fit.
pub fn tls_timeout_ms(millis: u64) -> (r: i32)
    ensures
        r == if millis <= i32::MAX {
            millis as int
        } else {
            i32::MAX as int
        },
{
    if millis <= 0x7fff_ffff {
        millis as i32
    } else {
        i32::MAX
    }
}

/// A timeout as the socket takes it: seconds and microseconds.
pub fn socket_timeval(ms: u32) -> (r: (u32, u32))
    ensures
        r.0 * 1_000_000 + r.1 == ms * 1000,
        r.1 < 1_000_000,
{
    (ms / 1000, (ms % 1000) * 1000)
}

/// What a TLS read came to.
#[derive(Clone, Copy, Debug, PartialEq, Eq, Structural)]
pub enum TlsRead {
    /// This many bytes; none at the end of the stream.
    Data(usize),
    WouldBlock,
    /// The error code.
    Failed(i64),
}

/// What the return value of a TLS read says. Two codes mean that there is nothing
/// to read yet: a socket that would block, and a TLS layer that wants to read.
pub fn tls_read(ret: i64) -> (r: TlsRead)
    requires
        i64::MIN < ret <= usize::MAX,
    ensures
        r == if ret >= 0 {
            TlsRead::Data(ret as usize)
        } else if ret == -11 || ret == -0x6900 {
            TlsRead::WouldBlock
        } else {
            TlsRead::Failed((-ret) as i64)
        },
{
    if ret >= 0 {
        TlsRead::Data(ret as usize)
    } else if ret == -11 || ret == -0x6900 {
        TlsRead::WouldBlock
    } else {
        TlsRead::Failed(-ret)
    }
}

/// How large frames and messages may be. The limits matter without external memory,
/// where they lie just above the largest legitimate message.
pub fn frame_limits(has_psram: bool) -> (r: Limits)
    ensures
        r.wf(),
        r.max_frame_size == if has_psram {
            16_777_216int
        } else {
            32_768
        },
        r.max_message_size == if has_psram {
            67_108_864int
        } else {
            32_768
        },
{
    Limits {
        max_frame_size: by_ram(has_psram, 16_777_216, 32_768),
        max_message_size: by_ram(has_psram, 67_108_864, 32_768),
    }
}

/// Makes connections to a gateway.
pub struct Esp32TransportFactory {
    ws_url: String,
    skip_tls_verify: bool,
    thread: ThreadConfig,
}

/// How to connect to the gateway.
#[derive(Debug)]
pub struct ConnectPlan {
    pub host: String,
    pub port: u16,
    pub path: String,
    pub origin: String,
    pub skip_tls_verify: bool,
}

impl Esp32TransportFactory {
    pub closed spec fn url(&self) -> Seq<char> {
        self.ws_url@
    }

    pub closed spec fn skips_tls_verify(&self) -> bool {
        self.skip_tls_verify
    }

    pub closed spec fn thread(&self) -> ThreadConfig {
        self.thread
    }

    /// Connects to `ws_url`; `skip_tls_verify` accepts any server certificate, which
    /// is for a local server only.
    pub fn new(ws_url: String, skip_tls_verify: bool, has_psram: bool) -> (r:
        Esp32TransportFactory)
        ensures
            r.url() == ws_url@,
            r.skips_tls_verify() == skip_tls_verify,
            r.thread() == socket_thread(has_psram),
    {
        Esp32TransportFactory {
            ws_url,
            skip_tls_verify,
            thread: Self::default_thread_config(has_psram),
        }
    }

    /// Connects to `ws_url`, whose certificate is checked: what the gateway is connected
    /// to with where nothing else is asked for.
    pub fn verified(ws_url: String, has_psram: bool) -> (r: Esp32TransportFactory)
        ensures
            r.url() == ws_url@,
            !r.skips_tls_verify(),
            r.thread() == socket_thread(has_psram),
    {
        Self::new(ws_url, false, has_psram)
    }

    /// The thread each connection's socket is driven on.
    pub fn default_thread_config(has_psram: bool) -> (r: ThreadConfig)
        ensures
            r == socket_thread(has_psram),
    {
        ThreadConfig {
            stack_size: by_ram(has_psram, 16384, 6144),
            priority: 5,
            core: Some(0),
            stack_in_psram: has_psram,
        }
    }

    /// Drives the socket on a thread of the caller's choosing.
    pub fn with_thread_config(self, thread: ThreadConfig) -> (r: Esp32TransportFactory)
        ensures
            r.url() == self.url(),
            r.skips_tls_verify() == self.skips_tls_verify(),
            r.thread() == thread,
    {
        Esp32TransportFactory {
            ws_url: self.ws_url,
            skip_tls_verify: self.skip_tls_verify,
            thread,
        }
    }

    /// The thread to drive a connection on.
    pub fn thread_config(&self) -> (r: ThreadConfig)
        ensures
            r == self.thread(),
    {
        self.thread
    }

    /// The address of the gateway.
    pub fn ws_url(&self) -> (r: &str)
        ensures
            r@ == self.url(),
    {
        self.ws_url.as_str()
    }

    /// How to connect.
    pub fn plan(&self) -> (r: Result<ConnectPlan, UrlError>)
        ensures
            match url_parts(self.url()) {
                Ok(parts) => r matches Ok(plan) && plan.host@ == parts.host && plan.port
                    == parts.port && plan.path@ == parts.path && plan.origin@ == "https://"@
                    + parts.host && plan.skip_tls_verify == self.skips_tls_verify(),
                Err(e) => r matches Err(got) && got == e,
            },
    {
        match parse_url(self.ws_url.as_str()) {
            Err(e) => Err(e),
            Ok((host, port, path, _)) => {
                let mut origin = "https://".to_owned();
                origin.append(host.as_str());
                Ok(ConnectPlan { host, port, path, origin, skip_tls_verify: self.skip_tls_verify })
            },
        }
    }
}

/// The thread each connection's socket is driven on.
pub open spec fn socket_thread(has_psram: bool) -> ThreadConfig {
    ThreadConfig {
        stack_size: if has_psram {
            16384
        } else {
            6144
        },
        priority: 5,
        core: Some(0),
        stack_in_psram: has_psram,
    }
}

/// Why a connection ended.
#[derive(Debug)]
pub enum DisconnectCause {
    /// The server closed it, with a status code and a reason if it gave them.
    ServerClose { code: Option<u16>, reason: String },
    /// It failed, in these words.
    Failed(String),
    /// It was closed from this side.
    Requested,
}

/// Why a connection ended.
pub enum CauseView {
    ServerClose { code: Option<u16>, reason: Seq<char> },
    Failed(Seq<char>),
    Requested,
}

impl View for DisconnectCause {
    type V = CauseView;

    open spec fn view(&self) -> CauseView {
        match *self {
            DisconnectCause::ServerClose { code, reason } => CauseView::ServerClose {
                code,
                reason: reason@,
            },
            DisconnectCause::Failed(text) => CauseView::Failed(text@),
            DisconnectCause::Requested => CauseView::Requested,
        }
    }
}

/// A connection that failed at some point, in words.
pub fn failed_at(what: &str, error: &str) -> (r: DisconnectCause)
    ensures
        r@ == CauseView::Failed(what@ + ": "@ + error@),
{
    let mut text = what.to_owned();
    text.append(": ");
    text.append(error);
    DisconnectCause::Failed(text)
}

/// What to do after a look at the socket.
#[derive(Debug)]
pub enum SocketStep {
    /// Nothing: the turn is over.
    Continue,
    /// Read on: the bytes end within a frame.
    ReadOn,
    /// Tell that the connection is made.
    Announce,
    /// Hand a message over.
    Deliver(Bytes),
    /// Answer a ping.
    Answer(Bytes),
    /// End the connection; first send a close frame where `close` says so.
    End { close: bool, cause: DisconnectCause },
}

/// What to do after a look at the socket.
pub enum StepView {
    Continue,
    ReadOn,
    Announce,
    Deliver(Seq<u8>),
    Answer(Seq<u8>),
    End { close: bool, cause: CauseView },
}

impl View for SocketStep {
    type V = StepView;

    open spec fn view(&self) -> StepView {
        match *self {
            SocketStep::Continue => StepView::Continue,
            SocketStep::ReadOn => StepView::ReadOn,
            SocketStep::Announce => StepView::Announce,
            SocketStep::Deliver(data) => StepView::Deliver(content(data)),
            SocketStep::Answer(data) => StepView::Answer(content(data)),
            SocketStep::End { close, cause } => StepView::End { close, cause: cause@ },
        }
    }
}

/// What to do with a frame. Binary messages are handed over, pings are answered, a
/// close is echoed and ends the connection, and the rest is ignored.
pub open spec fn step_for(frame: FrameView) -> StepView {
    match frame {
        FrameView::Binary(data) => StepView::Deliver(data),
        FrameView::Ping(data) => StepView::Answer(data),
        FrameView::Pong(_) | FrameView::Text(_) => StepView::Continue,
        FrameView::Close(Some((code, reason))) => StepView::End {
            close: true,
            cause: CauseView::ServerClose { code: Some(code), reason },
        },
        FrameView::Close(None) => StepView::End {
            close: true,
            cause: CauseView::ServerClose { code: None, reason: ""@ },
        },
    }
}

/// What to do with what the frame reader made of the bytes at hand.
pub fn on_read(outcome: Result<Option<Frame>, WsError>) -> (r: SocketStep)
    ensures
        r@ == match outcome {
            Ok(None) => StepView::ReadOn,
            Ok(Some(frame)) => step_for(frame@),
            Err(e) => StepView::End {
                close: false,
                cause: CauseView::Failed("WS read error"@ + ": "@ + e.spec_message()),
            },
        },
{
    match outcome {
        Ok(None) => SocketStep::ReadOn,
        Ok(Some(Frame::Binary(data))) => SocketStep::Deliver(data),
        Ok(Some(Frame::Ping(data))) => SocketStep::Answer(data),
        Ok(Some(Frame::Pong(_))) | Ok(Some(Frame::Text(_))) => SocketStep::Continue,
        Ok(Some(Frame::Close(Some((code, reason))))) => SocketStep::End {
            close: true,
            cause: DisconnectCause::ServerClose { code: Some(code), reason },
        },
        Ok(Some(Frame::Close(None))) => SocketStep::End {
            close: true,
            cause: DisconnectCause::ServerClose { code: None, reason: "".to_owned() },
        },
        Err(e) => SocketStep::End {
            close: false,
            cause: failed_at("WS read error", e.message()),
        },
    }
}

/// What an outcome of the frame reader calls for.
pub open spec fn step_after(outcome: Outcome) -> StepView {
    match outcome {
        Outcome::NeedInput | Outcome::Folded => StepView::ReadOn,
        Outcome::Message(frame) => step_for(frame),
        Outcome::Refused(e) => StepView::End {
            close: false,
            cause: CauseView::Failed("WS read error"@ + ": "@ + e.spec_message()),
        },
    }
}

/// Looks at what arrived on a connection: how many bytes of it were taken, and what
/// to do. A frame that the protocol or the limits forbid ends the connection.
pub fn on_bytes<S>(ws: &mut WsClient<S>, input: &[u8]) -> (r: (usize, SocketStep))
    requires
        old(ws).wf(),
    ensures
        final(ws).wf(),
        final(ws).stream() == old(ws).stream(),
        final(ws).reader().limits() == old(ws).reader().limits(),
        r.0 <= input@.len(),
        ({
            let reader = old(ws).reader();
            let raw = reader.raw() + old(ws).pending() + input@;
            let step = step_from(reader.limits(), reader.partial(), raw);
            let taken = step.used + step.held - reader.raw().len();
            let left = old(ws).pending().len();
            &&& final(ws).reader().partial() == step.partial
            &&& final(ws).reader().raw() == raw.subrange(step.used, step.used + step.held)
            &&& final(ws).pending() == old(ws).pending().skip(
                if taken < left { taken } else { left as int },
            )
            &&& r.0 == if taken < left { 0 } else { taken - left }
            &&& r.1@ == step_after(step.outcome)
            &&& taken >= 0
            &&& final(ws).reader().raw() + final(ws).pending() + input@.skip(r.0 as int)
                == raw.skip(step.used)
            &&& final(ws).reading() == look(old(ws).reading(), input@).then_at
        }),
{
    let (taken, outcome) = ws.read_frame(input);
    (taken, on_read(outcome))
}

/// What to do at the top of a turn: a connection that is asked to end is closed in
/// order.
pub fn on_turn(shutdown: bool) -> (r: SocketStep)
    ensures
        r@ == if shutdown {
            StepView::End { close: true, cause: CauseView::Requested }
        } else {
            StepView::Continue
        },
{
    if shutdown {
        SocketStep::End { close: true, cause: DisconnectCause::Requested }
    } else {
        SocketStep::Continue
    }
}

/// How far a connection has come.
#[derive(Clone, Copy, Debug, PartialEq, Eq, Structural)]
pub enum Phase {
    /// It is being made.
    Opening,
    /// The upgrade is done.
    Open,
    /// It has ended.
    Over,
}

/// What a connection failed at.
#[derive(Clone, Copy, Debug, PartialEq, Eq, Structural)]
pub enum Stage {
    Url,
    Connect,
    Handshake,
    Send,
    Read,
}

impl Stage {
    /// The words for it.
    pub open spec fn spec_words(self) -> Seq<char> {
        match self {
            Stage::Url => "invalid WS URL"@,
            Stage::Connect => "TLS connect failed"@,
            Stage::Handshake => "WebSocket handshake failed"@,
            Stage::Send => "WS send error"@,
            Stage::Read => "WS read error"@,
        }
    }

    /// The words for it.
    pub fn words(&self) -> (r: &'static str)
        ensures
            r@ == self.spec_words(),
    {
        match *self {
            Stage::Url => "invalid WS URL",
            Stage::Connect => "TLS connect failed",
            Stage::Handshake => "WebSocket handshake failed",
            Stage::Send => "WS send error",
            Stage::Read => "WS read error",
        }
    }
}

/// What a read of the socket gave.
pub enum SocketRead<'a> {
    /// These bytes.
    Data(&'a [u8]),
    /// Nothing for now.
    WouldBlock,
    /// The end of the stream.
    Closed,
}

/// Where a connection stands, with its reader.
pub enum LinkView {
    Opening,
    Open(Reading),
    Over,
}

/// What happens to a connection.
pub enum Happening {
    /// Something failed, in these words.
    Failed(Stage, Seq<char>),
    /// The upgrade is done; the reader starts from here.
    Upgraded(Reading),
    /// A turn begins; the connection is asked to end, or not.
    Turn(bool),
    /// The socket gave these bytes.
    Arrived(Seq<u8>),
    /// The socket has nothing for now.
    Quiet,
    /// The stream ended.
    Closed,
}

/// What follows from something that happens: where the connection stands then, what
/// to do, and how many of the bytes that arrived were taken.
pub struct LinkStep {
    pub then_link: LinkView,
    pub step: StepView,
    pub taken: int,
}

/// What follows from something that happens. What does not fit the phase changes
/// nothing; a connection that is over stays so.
pub open spec fn linked(link: LinkView, what: Happening) -> LinkStep {
    match (link, what) {
        (LinkView::Opening, Happening::Failed(stage, error)) => LinkStep {
            then_link: LinkView::Over,
            step: failure(stage, error),
            taken: 0,
        },
        (LinkView::Opening, Happening::Upgraded(reading)) => LinkStep {
            then_link: LinkView::Open(reading),
            step: StepView::Announce,
            taken: 0,
        },
        (LinkView::Open(_), Happening::Failed(stage, error)) => LinkStep {
            then_link: LinkView::Over,
            step: failure(stage, error),
            taken: 0,
        },
        (LinkView::Open(_), Happening::Turn(true)) => LinkStep {
            then_link: LinkView::Over,
            step: StepView::End { close: true, cause: CauseView::Requested },
            taken: 0,
        },
        (LinkView::Open(reading), Happening::Arrived(input)) => {
            let seen = look(reading, input);
            let step = step_after(seen.outcome);
            LinkStep {
                then_link: if step is End {
                    LinkView::Over
                } else {
                    LinkView::Open(seen.then_at)
                },
                step,
                taken: seen.taken,
            }
        },
        (LinkView::Open(_), Happening::Closed) => LinkStep {
            then_link: LinkView::Over,
            step: failure(Stage::Read, "websocket: connection closed"@),
            taken: 0,
        },
        _ => LinkStep { then_link: link, step: StepView::Continue, taken: 0 },
    }
}

/// The end of a connection that failed.
pub open spec fn failure(stage: Stage, error: Seq<char>) -> StepView {
    StepView::End { close: false, cause: CauseView::Failed(stage.spec_words() + ": "@ + error) }
}

/// A connection, from the moment it is asked for to its end.
#[derive(Clone, Copy, Debug)]
pub struct Link {
    phase: Phase,
}

impl Link {
    /// How far the connection has come.
    pub closed spec fn phase(&self) -> Phase {
        self.phase
    }

    /// Where the connection stands, with a reader that stands at `reading`.
    pub open spec fn with(&self, reading: Reading) -> LinkView {
        match self.phase() {
            Phase::Opening => LinkView::Opening,
            Phase::Open => LinkView::Open(reading),
            Phase::Over => LinkView::Over,
        }
    }

    /// A connection that is asked for.
    pub fn new() -> (r: Link)
        ensures
            r.phase() == Phase::Opening,
    {
        Link { phase: Phase::Opening }
    }

    /// Whether the connection has ended.
    pub fn is_over(&self) -> (r: bool)
        ensures
            r == (self.phase() == Phase::Over),
    {
        self.phase == Phase::Over
    }

    /// Something failed.
    pub fn fail(&mut self, stage: Stage, error: &str) -> (r: SocketStep)
        ensures
            final(self).phase() == Phase::Over,
            r@ == if old(self).phase() == Phase::Over {
                StepView::Continue
            } else {
                failure(stage, error@)
            },
            forall|reading: Reading|
                {
                    let follows = linked(
                        #[trigger] old(self).with(reading),
                        Happening::Failed(stage, error@),
                    );
                    final(self).with(reading) == follows.then_link && r@ == follows.step
                },
    {
        if self.phase == Phase::Over {
            return SocketStep::Continue;
        }
        self.phase = Phase::Over;
        SocketStep::End { close: false, cause: failed_at(stage.words(), error) }
    }

    /// The upgrade is done: from here on `ws` is read.
    pub fn upgraded<S>(&mut self, ws: &WsClient<S>) -> (r: SocketStep)
        ensures
            final(self).phase() == if old(self).phase() == Phase::Opening {
                Phase::Open
            } else {
                old(self).phase()
            },
            r@ == if old(self).phase() == Phase::Opening {
                StepView::Announce
            } else {
                StepView::Continue
            },
            ({
                let follows = linked(
                    old(self).with(ws.reading()),
                    Happening::Upgraded(ws.reading()),
                );
                final(self).with(ws.reading()) == follows.then_link && r@ == follows.step
            }),
    {
        if self.phase == Phase::Opening {
            self.phase = Phase::Open;
            SocketStep::Announce
        } else {
            SocketStep::Continue
        }
    }

    /// A turn begins: a connection that is asked to end is closed in order.
    pub fn turn(&mut self, shutdown: bool) -> (r: SocketStep)
        ensures
            old(self).phase() == Phase::Open && shutdown ==> final(self).phase() == Phase::Over
                && r@ == (StepView::End { close: true, cause: CauseView::Requested }),
            !(old(self).phase() == Phase::Open && shutdown) ==> final(self).phase() == old(
                self,
            ).phase() && r@ == StepView::Continue,
            forall|reading: Reading|
                {
                    let follows = linked(
                        #[trigger] old(self).with(reading),
                        Happening::Turn(shutdown),
                    );
                    final(self).with(reading) == follows.then_link && r@ == follows.step
                },
    {
        if self.phase == Phase::Open {
            let step = on_turn(shutdown);
            if shutdown {
                self.phase = Phase::Over;
            }
            step
        } else {
            SocketStep::Continue
        }
    }

    /// Takes in what a read of the socket gave: how many bytes of it were taken, and
    /// what to do.
    pub fn read<S>(&mut self, ws: &mut WsClient<S>, got: SocketRead<'_>) -> (r: (
        usize,
        SocketStep,
    ))
        requires
            old(ws).wf(),
        ensures
            final(self).phase() == if r.1@ is End {
                Phase::Over
            } else {
                old(self).phase()
            },
            final(ws).wf(),
            final(ws).stream() == old(ws).stream(),
            ({
                let follows = linked(old(self).with(old(ws).reading()), happening(got));
                &&& final(self).with(final(ws).reading()) == follows.then_link
                &&& r.0 == follows.taken
                &&& r.1@ == follows.step
                &&& final(ws).reading() == match (old(self).phase(), got) {
                    (Phase::Open, SocketRead::Data(input)) => look(
                        old(ws).reading(),
                        input@,
                    ).then_at,
                    _ => old(ws).reading(),
                }
            }),
            got matches SocketRead::Data(input) ==> r.0 <= input@.len(),
    {
        if self.phase != Phase::Open {
            return (0, SocketStep::Continue);
        }
        match got {
            SocketRead::Data(input) => {
                let (taken, step) = on_bytes(ws, input);
                if let SocketStep::End { .. } = step {
                    self.phase = Phase::Over;
                }
                (taken, step)
            },
            SocketRead::WouldBlock => (0, SocketStep::Continue),
            SocketRead::Closed => (0, self.fail(Stage::Read, "websocket: connection closed")),
        }
    }
}

/// What happens with a read of the socket.
pub open spec fn happening(got: SocketRead<'_>) -> Happening {
    match got {
        SocketRead::Data(input) => Happening::Arrived(input@),
        SocketRead::WouldBlock => Happening::Quiet,
        SocketRead::Closed => Happening::Closed,
    }
}

/// What is told of a connection.
pub enum LinkEvent {
    Connected,
    DataReceived(Seq<u8>),
    Disconnected(CauseView),
}

/// What a step tells of the connection, if anything.
pub open spec fn told(step: StepView) -> Seq<LinkEvent> {
    match step {
        StepView::Announce => seq![LinkEvent::Connected],
        StepView::Deliver(data) => seq![LinkEvent::DataReceived(data)],
        StepView::End { close, cause } => seq![LinkEvent::Disconnected(cause)],
        _ => Seq::empty(),
    }
}

/// A connection after all that happened to it: where it stands, what was told of it,
/// the frames that were read, where its reader started, and the bytes that were
/// taken, those that came with the handshake first.
pub struct LinkRun {
    pub link: LinkView,
    pub events: Seq<LinkEvent>,
    pub frames: Seq<FrameView>,
    pub start: Option<Reading>,
    pub stream: Seq<u8>,
}

/// A new connection after all that happened to it.
pub open spec fn link_run(happened: Seq<Happening>) -> LinkRun
    decreases happened.len(),
{
    if happened.len() == 0 {
        LinkRun {
            link: LinkView::Opening,
            events: Seq::empty(),
            frames: Seq::empty(),
            start: None,
            stream: Seq::empty(),
        }
    } else {
        let before = link_run(happened.drop_last());
        let follows = linked(before.link, happened.last());
        let run = LinkRun {
            link: follows.then_link,
            events: before.events + told(follows.step),
            ..before
        };
        match (before.link, happened.last()) {
            (LinkView::Opening, Happening::Upgraded(reading)) => LinkRun {
                start: Some(reading),
                stream: reading.unread(),
                ..run
            },
            (LinkView::Open(reading), Happening::Arrived(input)) => LinkRun {
                frames: match look(reading, input).outcome {
                    Outcome::Message(frame) => before.frames.push(frame),
                    _ => before.frames,
                },
                stream: before.stream + input.take(follows.taken),
                ..run
            },
            _ => run,
        }
    }
}

/// The binary messages among some frames, as they are told of.
pub open spec fn deliveries(frames: Seq<FrameView>) -> Seq<LinkEvent>
    decreases frames.len(),
{
    if frames.len() == 0 {
        Seq::empty()
    } else {
        deliveries(frames.drop_last()) + match frames.last() {
            FrameView::Binary(data) => seq![LinkEvent::DataReceived(data)],
            _ => Seq::empty(),
        }
    }
}

/// Whether this is all that is told of a connection that has ended: that it ended,
/// or that it was made, then the binary messages in order, then that it ended.
pub open spec fn is_account(
    events: Seq<LinkEvent>,
    start: Option<Reading>,
    frames: Seq<FrameView>,
) -> bool {
    &&& events.len() > 0
    &&& events.last() is Disconnected
    &&& events.drop_last() == match start {
        None => Seq::empty(),
        Some(_) => seq![LinkEvent::Connected] + deliveries(frames),
    }
}

/// A connection is told of in order, whatever happens to it: `Connected` only once
/// the upgrade is done, then each binary message of the server, in order and once,
/// and `Disconnected` once, as the last event. The frames that were read are those
/// of the bytes that arrived, and while the connection is open the reader holds what
/// the frames to come are read from, whatever `more` follows.
pub proof fn events_are_told_in_order(happened: Seq<Happening>, more: Seq<u8>)
    requires
        forall|i: int|
            0 <= i < happened.len() ==> (#[trigger] happened[i] matches Happening::Upgraded(reading)
                ==> reading.ready()),
    ensures
        ({
            let run = link_run(happened);
            &&& match run.link {
                LinkView::Opening => run.events.len() == 0 && run.start is None,
                LinkView::Open(_) => run.start is Some && run.events == seq![LinkEvent::Connected]
                    + deliveries(run.frames),
                LinkView::Over => is_account(run.events, run.start, run.frames),
            }
            &&& match run.start {
                None => run.frames.len() == 0,
                Some(start) => {
                    &&& happened.contains(Happening::Upgraded(start))
                    &&& run.frames.is_prefix_of(
                        messages_in(start.limits, start.partial, run.stream + more),
                    )
                },
            }
            &&& run.link matches LinkView::Open(reading) ==> {
                let start = run.start->0;
                let unread = reading.unread() + more;
                &&& reading.ready()
                &&& reading.limits == start.limits
                &&& messages_in(start.limits, start.partial, run.stream + more) == run.frames
                    + messages_in(reading.limits, reading.partial, unread)
                &&& error_in(start.limits, start.partial, run.stream + more) == error_in(
                    reading.limits,
                    reading.partial,
                    unread,
                )
            }
        }),
    decreases happened.len(),
{
    if happened.len() > 0 {
        let earlier = happened.drop_last();
        let what = happened.last();
        let before = link_run(earlier);
        let follows = linked(before.link, what);
        let run = link_run(happened);
        assert forall|i: int| 0 <= i < earlier.len() implies (
        #[trigger] earlier[i] matches Happening::Upgraded(reading) ==> reading.ready()) by {
            assert(earlier[i] == happened[i]);
        }
        events_are_told_in_order(earlier, more);
        if let Some(start) = before.start {
            let i = earlier.index_of(Happening::Upgraded(start));
            assert(happened[i] == Happening::Upgraded(start));
        }
        assert(happened[happened.len() - 1] == what);
        match (before.link, what) {
            (LinkView::Opening, Happening::Upgraded(reading)) => {
                let messages = messages_in(reading.limits, reading.partial, run.stream + more);
                assert(Seq::<FrameView>::empty() + messages =~= messages);
                assert(run.events =~= seq![LinkEvent::Connected] + deliveries(run.frames));
            },
            (LinkView::Open(reading), Happening::Arrived(input)) => {
                let taken = input.take(follows.taken);
                events_are_told_in_order(earlier, taken + more);
                lemma_arrival(before, reading, input, more);
            },
            _ => {
                assert(before.events + told(StepView::Continue) =~= before.events);
                assert(run.link is Over && !(before.link is Over) ==> run.events.drop_last()
                    =~= before.events);
            },
        }
    }
}

proof fn lemma_arrival(before: LinkRun, reading: Reading, input: Seq<u8>, more: Seq<u8>)
    requires
        before.link == LinkView::Open(reading),
        reading.ready(),
        before.start matches Some(start) && start.limits == reading.limits,
        before.events == seq![LinkEvent::Connected] + deliveries(before.frames),
        ({
            let start = before.start->0;
            let taken = input.take(look(reading, input).taken);
            &&& messages_in(start.limits, start.partial, before.stream + (taken + more))
                == before.frames + messages_in(
                reading.limits,
                reading.partial,
                reading.unread() + (taken + more),
            )
            &&& error_in(start.limits, start.partial, before.stream + (taken + more)) == error_in(
                reading.limits,
                reading.partial,
                reading.unread() + (taken + more),
            )
        }),
    ensures
        ({
            let seen = look(reading, input);
            let start = before.start->0;
            let stream = before.stream + input.take(seen.taken);
            let events = before.events + told(step_after(seen.outcome));
            let frames = match seen.outcome {
                Outcome::Message(frame) => before.frames.push(frame),
                _ => before.frames,
            };
            let messages = messages_in(start.limits, start.partial, stream + more);
            &&& frames.is_prefix_of(messages)
            &&& if step_after(seen.outcome) is End {
                is_account(events, before.start, frames)
            } else {
                let unread = seen.then_at.unread() + more;
                &&& seen.then_at.ready()
                &&& events == seq![LinkEvent::Connected] + deliveries(frames)
                &&& messages == frames + messages_in(
                    reading.limits,
                    seen.then_at.partial,
                    unread,
                )
                &&& error_in(start.limits, start.partial, stream + more) == error_in(
                    reading.limits,
                    seen.then_at.partial,
                    unread,
                )
            }
        }),
{
    let seen = look(reading, input);
    let taken = input.take(seen.taken);
    let raw = reading.unread() + taken;
    let step = step_from(reading.limits, reading.partial, raw);
    let events = before.events + told(step_after(seen.outcome));
    look_keeps_what_is_unread(reading, input);
    read_takes_the_front(reading.limits, reading.partial, raw, more);
    assert(before.stream + (taken + more) =~= before.stream + taken + more);
    assert(reading.unread() + (taken + more) =~= raw + more);
    let rest = messages_in(reading.limits, step.partial, raw.skip(step.used) + more);
    match seen.outcome {
        Outcome::Message(frame) => {
            let frames = before.frames.push(frame);
            assert(frames.drop_last() =~= before.frames);
            assert(before.frames + (seq![frame] + rest) =~= frames + rest);
            if step_after(seen.outcome) is End {
                assert(events.drop_last() =~= before.events);
                assert(deliveries(frames) =~= deliveries(before.frames));
            } else {
                assert(events =~= seq![LinkEvent::Connected] + deliveries(frames));
            }
        },
        Outcome::Refused(_) => {
            assert(events.drop_last() =~= before.events);
            assert(before.frames + Seq::<FrameView>::empty() =~= before.frames);
        },
        _ => {
            assert(events =~= before.events);
        },
    }
}

/// Once the bytes have run out within a frame, every message of theirs was read; and
/// a connection that ends for a frame that is refused has read every message before
/// it and ends with the error of the stream.
pub proof fn nothing_is_left_behind(happened: Seq<Happening>)
    requires
        forall|i: int|
            0 <= i < happened.len() ==> (#[trigger] happened[i] matches Happening::Upgraded(reading)
                ==> reading.ready()),
        happened.len() > 0,
        link_run(happened.drop_last()).link is Open,
        happened.last() is Arrived,
    ensures
        ({
            let before = link_run(happened.drop_last());
            let run = link_run(happened);
            let start = run.start->0;
            let outcome = look(before.link->Open_0, happened.last()->Arrived_0).outcome;
            &&& outcome is NeedInput ==> run.frames == messages_in(
                start.limits,
                start.partial,
                run.stream,
            ) && error_in(start.limits, start.partial, run.stream) is None
            &&& outcome matches Outcome::Refused(e) ==> run.frames == messages_in(
                start.limits,
                start.partial,
                run.stream,
            ) && error_in(start.limits, start.partial, run.stream) == Some(e)
        }),
{
    let earlier = happened.drop_last();
    let before = link_run(earlier);
    let run = link_run(happened);
    let reading = before.link->Open_0;
    let input = happened.last()->Arrived_0;
    let taken = input.take(look(reading, input).taken);
    let raw = reading.unread() + taken;
    assert forall|i: int| 0 <= i < earlier.len() implies (
    #[trigger] earlier[i] matches Happening::Upgraded(reading) ==> reading.ready()) by {
        assert(earlier[i] == happened[i]);
    }
    events_are_told_in_order(earlier, taken);
    look_keeps_what_is_unread(reading, input);
    assert(before.frames + Seq::<FrameView>::empty() =~= before.frames);
}

/// Reads that find nothing for now, wherever they fall, change nothing of what is
/// told or read, and each is one turn that does nothing.
pub proof fn quiet_reads_do_not_matter(before: Seq<Happening>, later: Seq<Happening>)
    ensures
        link_run(before.push(Happening::Quiet) + later) == link_run(before + later),
        linked(link_run(before).link, Happening::Quiet).step is Continue,
    decreases later.len(),
{
    let with_quiet = before.push(Happening::Quiet) + later;
    if later.len() == 0 {
        assert(with_quiet =~= before.push(Happening::Quiet));
        assert(before + later =~= before);
        assert(with_quiet.drop_last() =~= before);
        let run = link_run(before);
        assert(run.events + told(StepView::Continue) =~= run.events);
    } else {
        quiet_reads_do_not_matter(before, later.drop_last());
        assert(with_quiet.drop_last() =~= before.push(Happening::Quiet) + later.drop_last());
        assert((before + later).drop_last() =~= before + later.drop_last());
    }
}

/// A connection that cannot be made is told of by its end alone, whatever happens
/// after.
pub proof fn failed_opening_is_told_once(happened: Seq<Happening>, stage: Stage, error: Seq<char>)
    requires
        happened.len() > 0,
        happened[0] == Happening::Failed(stage, error),
    ensures
        link_run(happened).link is Over,
        link_run(happened).events == seq![
            LinkEvent::Disconnected(CauseView::Failed(stage.spec_words() + ": "@ + error)),
        ],
    decreases happened.len(),
{
    let earlier = happened.drop_last();
    let before = link_run(earlier);
    if happened.len() == 1 {
        assert(before.link is Opening);
    } else {
        failed_opening_is_told_once(earlier, stage, error);
    }
    let follows = linked(before.link, happened.last());
    assert(before.events + told(follows.step) =~= link_run(happened).events);
    assert(link_run(happened).events =~= seq![
        LinkEvent::Disconnected(CauseView::Failed(stage.spec_words() + ": "@ + error)),
    ]);
}

/// Why a message could not be queued.
#[derive(Clone, Copy, Debug, PartialEq, Eq, Structural)]
pub enum QueueError {
    Full,
    Closed,
}

impl QueueError {
    /// A sentence for a log.
    pub fn message(&self) -> (r: &'static str)
        ensures
            r@ == match *self {
                QueueError::Full => "Transport send queue full (64): socket stalled"@,
                QueueError::Closed => "Transport channel closed"@,
            },
    {
        match *self {
            QueueError::Full => "Transport send queue full (64): socket stalled",
            QueueError::Closed => "Transport channel closed",
        }
    }
}

/// What each frame calls for: a binary message is handed over, a ping is answered with its
/// own payload, a close is echoed and ends the connection for the reason it gives, and
/// texts and pongs are ignored.
pub proof fn frames_call_for_their_steps(data: Seq<u8>, code: u16, reason: Seq<char>)
    ensures
        step_for(FrameView::Binary(data)) == StepView::Deliver(data),
        step_for(FrameView::Ping(data)) == StepView::Answer(data),
        step_for(FrameView::Pong(data)) == StepView::Continue,
        step_for(FrameView::Text(data)) == StepView::Continue,
        step_for(FrameView::Close(Some((code, reason)))) == (StepView::End {
            close: true,
            cause: CauseView::ServerClose { code: Some(code), reason },
        }),
        step_for(FrameView::Close(None)) == (StepView::End {
            close: true,
            cause: CauseView::ServerClose { code: None, reason: Seq::empty() },
        }),
{
    reveal_strlit("");
    assert(""@ =~= Seq::<char>::empty());
}

/// What the reader came to calls for reading on, for what the frame calls for, or for the
/// end of the connection, in the words of the error.
pub proof fn readings_call_for_their_steps(frame: FrameView, error: WsError)
    ensures
        step_after(Outcome::NeedInput) == StepView::ReadOn,
        step_after(Outcome::Message(frame)) == step_for(frame),
        step_after(Outcome::Refused(error)) == (StepView::End {
            close: false,
            cause: CauseView::Failed("WS read error"@ + ": "@ + error.spec_message()),
        }),
{
}

/// What follows from each thing that can happen to a connection: it fails at any stage
/// before its end, in that stage's words; it is made once, by its upgrade; it is closed
/// where that is asked for, and where the stream ends; and nothing happens to it after.
pub proof fn connections_follow_what_happens(
    reading: Reading,
    stage: Stage,
    error: Seq<char>,
    input: Seq<u8>,
    what: Happening,
)
    ensures
        ({
            let open = LinkView::Open(reading);
            let failed = StepView::End {
                close: false,
                cause: CauseView::Failed(stage.spec_words() + ": "@ + error),
            };
            &&& linked(LinkView::Opening, Happening::Failed(stage, error)).step == failed
            &&& linked(LinkView::Opening, Happening::Failed(stage, error)).then_link
                == LinkView::Over
            &&& linked(open, Happening::Failed(stage, error)).step == failed
            &&& linked(open, Happening::Failed(stage, error)).then_link == LinkView::Over
            &&& linked(LinkView::Opening, Happening::Upgraded(reading)).step == StepView::Announce
            &&& linked(LinkView::Opening, Happening::Upgraded(reading)).then_link == open
            &&& linked(open, Happening::Turn(true)).step == (StepView::End {
                close: true,
                cause: CauseView::Requested,
            })
            &&& linked(open, Happening::Turn(true)).then_link == LinkView::Over
            &&& linked(open, Happening::Turn(false)).step == StepView::Continue
            &&& linked(open, Happening::Turn(false)).then_link == open
            &&& linked(open, Happening::Quiet).step == StepView::Continue
            &&& linked(open, Happening::Quiet).then_link == open
            &&& linked(open, Happening::Closed).step == (StepView::End {
                close: false,
                cause: CauseView::Failed(
                    "WS read error"@ + ": "@ + "websocket: connection closed"@,
                ),
            })
            &&& linked(open, Happening::Closed).then_link == LinkView::Over
            &&& linked(open, Happening::Arrived(input)).step == step_after(
                look(reading, input).outcome,
            )
            &&& linked(LinkView::Over, what).then_link == LinkView::Over
            &&& linked(LinkView::Over, what).step == StepView::Continue
            &&& !(what is Failed || what is Upgraded) ==> linked(LinkView::Opening, what).then_link
                == LinkView::Opening && linked(LinkView::Opening, what).step == StepView::Continue
            &&& what is Upgraded ==> linked(open, what).then_link == open && linked(open, what).step
                == StepView::Continue
        }),
        Stage::Url.spec_words() == "invalid WS URL"@,
        Stage::Connect.spec_words() == "TLS connect failed"@,
        Stage::Handshake.spec_words() == "WebSocket handshake failed"@,
        Stage::Send.spec_words() == "WS send error"@,
        Stage::Read.spec_words() == "WS read error"@,
{
}

/// Steps and causes are viewed as they are.
pub proof fn steps_are_viewed_as_they_are(step: SocketStep, cause: DisconnectCause)
    ensures
        step is Continue <==> step@ is Continue,
        step is ReadOn <==> step@ is ReadOn,
        step is Announce <==> step@ is Announce,
        step matches SocketStep::Deliver(data) ==> step@ == StepView::Deliver(content(data)),
        step matches SocketStep::Answer(data) ==> step@ == StepView::Answer(content(data)),
        step matches SocketStep::End { close, cause } ==> step@ == (StepView::End {
            close,
            cause: cause@,
        }),
        cause matches DisconnectCause::ServerClose { code, reason } ==> cause@ == (
        CauseView::ServerClose { code, reason: reason@ }),
        cause matches DisconnectCause::Failed(text) ==> cause@ == CauseView::Failed(text@),
        cause is Requested <==> cause@ is Requested,
{
}

/// The socket's thread has a small stack on core 0 where memory is scarce, and one in
/// external memory where there is some; and its waits and queue are bounded.
pub proof fn sockets_are_bounded(has_psram: bool)
    ensures
        socket_thread(has_psram).stack_size == if has_psram {
            16384int
        } else {
            6144
        },
        socket_thread(has_psram).priority == 5,
        socket_thread(has_psram).core == Some(0u8),
        socket_thread(has_psram).stack_in_psram == has_psram,
        CONNECT_TIMEOUT_MS == 30000,
        READ_TIMEOUT_MS == 100,
        SEND_QUEUE_CAP == 64,
        CLOSE_NORMAL == 1000,
{
}

/// What a read of the socket gave is what happens, and a connection stands where its phase
/// and its reader say.
pub proof fn links_stand_where_they_are(link: Link, reading: Reading, input: &[u8])
    ensures
        happening(SocketRead::Data(input)) == Happening::Arrived(input@),
        happening(SocketRead::WouldBlock) is Quiet,
        happening(SocketRead::Closed) is Closed,
        link.phase() == Phase::Opening ==> link.with(reading) == LinkView::Opening,
        link.phase() == Phase::Open ==> link.with(reading) == LinkView::Open(reading),
        link.phase() == Phase::Over ==> link.with(reading) == LinkView::Over,
{
}

} // verus!
