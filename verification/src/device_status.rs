//! What the dashboard shows: the connection, the account, pairing, and the last
//! inbound messages.

use crate::json::{json_text, to_text, JsonFields, JsonList, JsonNode, JsonTree};
use crate::text::{
    chars_fitting, chars_of, count_fitting, fitting_characters_fit, size_is_encoded_length,
    string_of, utf8_size,
};
use std::collections::VecDeque;
use vstd::prelude::*;
use vstd::utf8::encode_utf8;

verus! {

/// Longest message text kept per entry, in bytes. The log is a preview of what a
/// remote sender chose to send, so it is truncated rather than kept whole.
pub const MAX_LOGGED_TEXT_BYTES: usize = 256;

/// How many inbound messages are kept.
pub const MESSAGE_LOG_CAPACITY: usize = 16;

/// One inbound message as the dashboard shows it.
#[derive(Debug)]
pub struct MessageLogEntry {
    pub id: String,
    pub chat: String,
    pub sender: String,
    pub text: Option<String>,
    pub timestamp: i64,
    pub from_me: bool,
}

/// Text as it is kept: whole where it fits in 256 bytes, else as much of it as
/// leaves room for an ellipsis.
pub open spec fn preview(text: Seq<char>) -> Seq<char> {
    if encode_utf8(text).len() <= MAX_LOGGED_TEXT_BYTES {
        text
    } else {
        text.take(chars_fitting(text, 253) as int) + "…"@
    }
}

/// No text is kept that takes more than 256 bytes.
pub proof fn preview_is_bounded(text: Seq<char>)
    ensures
        encode_utf8(preview(text)).len() <= MAX_LOGGED_TEXT_BYTES,
{
    if encode_utf8(text).len() > MAX_LOGGED_TEXT_BYTES {
        let front = text.take(chars_fitting(text, 253) as int);
        fitting_characters_fit(text, 253);
        reveal_strlit("…");
        size_is_encoded_length(preview(text));
        lemma_size_of_sum(front, "…"@);
        assert("…"@.skip(1) =~= Seq::<char>::empty());
        reveal_with_fuel(utf8_size, 2);
    }
}

proof fn lemma_size_of_sum(a: Seq<char>, b: Seq<char>)
    ensures
        utf8_size(a + b) == utf8_size(a) + utf8_size(b),
    decreases a.len(),
{
    if a.len() == 0 {
        assert(a + b =~= b);
    } else {
        lemma_size_of_sum(a.skip(1), b);
        assert((a + b).skip(1) =~= a.skip(1) + b);
    }
}

/// Text as it is kept.
pub fn preview_text(text: String) -> (r: String)
    ensures
        r@ == preview(text@),
{
    if text.as_str().as_bytes().len() <= MAX_LOGGED_TEXT_BYTES {
        return text;
    }
    let chars = chars_of(text.as_str());
    let n = count_fitting(chars.as_slice(), 253);
    let front = &chars.as_slice()[0..n];
    assert(front@ =~= text@.take(n as int));
    let mut out = string_of(front);
    out.append("…");
    out
}

/// Where linking by phone number stands. Times are in microseconds.
#[derive(Debug)]
pub enum PairCodeState {
    Idle,
    Pending { request_id: u32 },
    Ready { code: String, expires_at: u64 },
    Failed { message: String },
}

/// Where linking by phone number stands.
pub enum PairCodeView {
    Idle,
    Pending { request_id: u32 },
    Ready { code: Seq<char>, expires_at: u64 },
    Failed { message: Seq<char> },
}

impl View for PairCodeState {
    type V = PairCodeView;

    open spec fn view(&self) -> PairCodeView {
        match *self {
            PairCodeState::Idle => PairCodeView::Idle,
            PairCodeState::Pending { request_id } => PairCodeView::Pending { request_id },
            PairCodeState::Ready { code, expires_at } => PairCodeView::Ready {
                code: code@,
                expires_at,
            },
            PairCodeState::Failed { message } => PairCodeView::Failed { message: message@ },
        }
    }
}

/// A text, if there is one.
pub open spec fn text_view(text: Option<String>) -> Option<Seq<char>> {
    match text {
        Some(s) => Some(s@),
        None => None,
    }
}

/// An inbound message as a value.
pub struct MessageView {
    pub id: Seq<char>,
    pub chat: Seq<char>,
    pub sender: Seq<char>,
    pub text: Option<Seq<char>>,
    pub timestamp: i64,
    pub from_me: bool,
}

impl View for MessageLogEntry {
    type V = MessageView;

    open spec fn view(&self) -> MessageView {
        MessageView {
            id: self.id@,
            chat: self.chat@,
            sender: self.sender@,
            text: text_view(self.text),
            timestamp: self.timestamp,
            from_me: self.from_me,
        }
    }
}

/// A message as it is kept.
pub open spec fn logged(message: MessageView) -> MessageView {
    MessageView {
        text: match message.text {
            Some(text) => Some(preview(text)),
            None => None,
        },
        ..message
    }
}

/// The status as a value.
pub struct DeviceStatusView {
    pub qr_code: Option<Seq<char>>,
    pub connected: bool,
    pub pn: Option<Seq<char>>,
    pub lid: Option<Seq<char>>,
    pub pair_code: PairCodeView,
    pub next_pair_code_request: u32,
    pub messages: Seq<MessageView>,
}

impl DeviceStatusView {
    /// The status before anything is known.
    pub open spec fn initial() -> DeviceStatusView {
        DeviceStatusView {
            qr_code: None,
            connected: false,
            pn: None,
            lid: None,
            pair_code: PairCodeView::Idle,
            next_pair_code_request: 1,
            messages: Seq::empty(),
        }
    }

    /// The status once the device is unlinked: nothing is left of the account.
    pub open spec fn logged_out(self) -> DeviceStatusView {
        DeviceStatusView {
            connected: false,
            pn: None,
            lid: None,
            messages: Seq::empty(),
            ..self
        }
    }

    /// Whether a linking code is asked for, or is there and has not expired.
    pub open spec fn pairing(self, now: u64) -> bool {
        match self.pair_code {
            PairCodeView::Pending { .. } => true,
            PairCodeView::Ready { expires_at, .. } => expires_at > now,
            _ => false,
        }
    }
}

/// What the dashboard shows of the device.
pub struct DeviceStatus {
    qr_code: Option<String>,
    connected: bool,
    pn: Option<String>,
    lid: Option<String>,
    pair_code: PairCodeState,
    next_pair_code_request: u32,
    messages: VecDeque<MessageLogEntry>,
}

impl View for DeviceStatus {
    type V = DeviceStatusView;

    closed spec fn view(&self) -> DeviceStatusView {
        DeviceStatusView {
            qr_code: text_view(self.qr_code),
            connected: self.connected,
            pn: text_view(self.pn),
            lid: text_view(self.lid),
            pair_code: self.pair_code@,
            next_pair_code_request: self.next_pair_code_request,
            messages: self.messages@.map_values(|m: MessageLogEntry| m@),
        }
    }
}

impl DeviceStatus {
    /// The log holds no more messages than it is meant to.
    pub closed spec fn wf(&self) -> bool {
        self.messages@.len() <= MESSAGE_LOG_CAPACITY
    }

    /// Nothing is known yet.
    pub fn new() -> (r: DeviceStatus)
        ensures
            r.wf(),
            r@ == DeviceStatusView::initial(),
    {
        let r = DeviceStatus {
            qr_code: None,
            connected: false,
            pn: None,
            lid: None,
            pair_code: PairCodeState::Idle,
            next_pair_code_request: 1,
            messages: VecDeque::with_capacity(MESSAGE_LOG_CAPACITY),
        };
        assert(r@.messages =~= Seq::empty());
        r
    }

    /// Whether the device is connected.
    pub fn is_connected(&self) -> (r: bool)
        ensures
            r == self@.connected,
    {
        self.connected
    }

    /// The QR code to scan.
    pub fn qr_code(&self) -> (r: Option<String>)
        ensures
            text_view(r) == self@.qr_code,
    {
        match &self.qr_code {
            Some(code) => Some(code.clone()),
            None => None,
        }
    }

    /// Shows a QR code: the device waits for it to be scanned.
    pub fn set_qr_code(&mut self, code: String)
        requires
            old(self).wf(),
        ensures
            final(self).wf(),
            final(self)@ == (DeviceStatusView {
                qr_code: Some(code@),
                connected: false,
                ..old(self)@
            }),
    {
        self.qr_code = Some(code);
        self.connected = false;
    }

    /// Shows no QR code.
    pub fn clear_qr_code(&mut self)
        requires
            old(self).wf(),
        ensures
            final(self).wf(),
            final(self)@ == (DeviceStatusView { qr_code: None, ..old(self)@ }),
    {
        self.qr_code = None;
    }

    /// The device is connected as this account; pairing is over.
    pub fn set_connected(&mut self, pn: Option<String>, lid: Option<String>)
        requires
            old(self).wf(),
        ensures
            final(self).wf(),
            final(self)@ == (DeviceStatusView {
                qr_code: None,
                connected: true,
                pn: text_view(pn),
                lid: text_view(lid),
                pair_code: PairCodeView::Idle,
                ..old(self)@
            }),
    {
        self.qr_code = None;
        self.connected = true;
        self.pn = pn;
        self.lid = lid;
        self.pair_code = PairCodeState::Idle;
    }

    /// The socket dropped. The device is still paired, just offline, so the
    /// account is still shown.
    pub fn set_disconnected(&mut self)
        requires
            old(self).wf(),
        ensures
            final(self).wf(),
            final(self)@ == (DeviceStatusView { connected: false, ..old(self)@ }),
    {
        self.connected = false;
    }

    /// Unpaired by the server, or locally. The account is gone, so it is no longer
    /// shown next to a new QR code.
    pub fn set_logged_out(&mut self)
        requires
            old(self).wf(),
        ensures
            final(self).wf(),
            final(self)@ == old(self)@.logged_out(),
    {
        self.connected = false;
        self.pn = None;
        self.lid = None;
        self.messages.clear();
        assert(self@.messages =~= Seq::empty());
    }

    /// Reserves an attempt at linking by phone number. Only one can be pending or
    /// unexpired at a time: a second code would make the server reject the first.
    pub fn begin_pair_code(&mut self, now: u64) -> (r: Result<u32, &'static str>)
        requires
            old(self).wf(),
        ensures
            final(self).wf(),
            old(self)@.pairing(now) ==> final(self)@ == old(self)@ && (r matches Err(why) && why@
                == if old(self)@.pair_code is Pending {
                "A linking code is being generated"@
            } else {
                "A linking code is already active"@
            }),
            !old(self)@.pairing(now) ==> {
                let id = old(self)@.next_pair_code_request;
                &&& r matches Ok(got) && got == id
                &&& final(self)@ == (DeviceStatusView {
                    pair_code: PairCodeView::Pending { request_id: id },
                    next_pair_code_request: if id == u32::MAX { 0 } else { (id + 1) as u32 },
                    ..old(self)@
                })
            },
    {
        match &self.pair_code {
            PairCodeState::Pending { .. } => {
                return Err("A linking code is being generated");
            },
            PairCodeState::Ready { expires_at, .. } => {
                if *expires_at > now {
                    return Err("A linking code is already active");
                }
            },
            _ => {},
        }
        let request_id = self.next_pair_code_request;
        self.next_pair_code_request = self.next_pair_code_request.wrapping_add(1);
        self.pair_code = PairCodeState::Pending { request_id };
        Ok(request_id)
    }

    fn pair_code_request_is(&self, wanted: u32) -> (r: bool)
        ensures
            r == (self@.pair_code == (PairCodeView::Pending { request_id: wanted })),
    {
        match &self.pair_code {
            PairCodeState::Pending { request_id } => *request_id == wanted,
            _ => false,
        }
    }

    /// The code that an attempt came to, valid for this long. An attempt that is
    /// no longer the pending one changes nothing.
    pub fn complete_pair_code(&mut self, request_id: u32, code: String, valid_for: u64, now: u64)
        requires
            old(self).wf(),
            now + valid_for <= u64::MAX,
        ensures
            final(self).wf(),
            final(self)@ == if old(self)@.pair_code == (PairCodeView::Pending { request_id }) {
                DeviceStatusView {
                    pair_code: PairCodeView::Ready {
                        code: code@,
                        expires_at: (now + valid_for) as u64,
                    },
                    ..old(self)@
                }
            } else {
                old(self)@
            },
    {
        if self.pair_code_request_is(request_id) {
            self.pair_code = PairCodeState::Ready { code, expires_at: now + valid_for };
        }
    }

    /// Why an attempt failed. An attempt that is no longer the pending one changes
    /// nothing.
    pub fn fail_pair_code(&mut self, request_id: u32, message: &str)
        requires
            old(self).wf(),
        ensures
            final(self).wf(),
            final(self)@ == if old(self)@.pair_code == (PairCodeView::Pending { request_id }) {
                DeviceStatusView {
                    pair_code: PairCodeView::Failed { message: message@ },
                    ..old(self)@
                }
            } else {
                old(self)@
            },
    {
        if self.pair_code_request_is(request_id) {
            self.pair_code = PairCodeState::Failed { message: message.to_owned() };
        }
    }

    /// Keeps an inbound message. Of a full log the oldest goes.
    pub fn record_message(&mut self, entry: MessageLogEntry)
        requires
            old(self).wf(),
        ensures
            final(self).wf(),
            final(self)@ == (DeviceStatusView {
                messages: if old(self)@.messages.len() == 16 {
                    old(self)@.messages.skip(1).push(logged(entry@))
                } else {
                    old(self)@.messages.push(logged(entry@))
                },
                ..old(self)@
            }),
            final(self)@.messages.len() <= MESSAGE_LOG_CAPACITY,
            final(self)@.messages.len() <= 16,
    {
        let text = match entry.text {
            Some(text) => Some(preview_text(text)),
            None => None,
        };
        let kept = MessageLogEntry {
            id: entry.id,
            chat: entry.chat,
            sender: entry.sender,
            text,
            timestamp: entry.timestamp,
            from_me: entry.from_me,
        };
        let ghost before = self@.messages;
        let full = self.messages.len() == MESSAGE_LOG_CAPACITY;
        if full {
            let oldest = self.messages.pop_front();
            assert(self@.messages =~= before.skip(1));
        }
        let ghost mid = self@.messages;
        self.messages.push_back(kept);
        assert(self@.messages =~= mid.push(logged(entry@)));
    }

    /// The status as a document; `authenticated` says whether pairing is shown.
    pub fn to_json_authenticated(&self, authenticated: bool, now: u64) -> (r: String)
        ensures
            r@ == json_text(device_document(self@, authenticated, now)),
    {
        let mut pairing = JsonFields::new();
        if !authenticated {
            pairing.put_text("state", "redacted");
        } else {
            match &self.pair_code {
                PairCodeState::Idle => pairing.put_text("state", "idle"),
                PairCodeState::Pending { .. } => pairing.put_text("state", "pending"),
                PairCodeState::Ready { code, expires_at } => {
                    if *expires_at <= now {
                        pairing.put_text("state", "expired");
                    } else {
                        pairing.put_text("state", "ready");
                        pairing.put_text("code", code.as_str());
                        pairing.put_nat("expires_in_seconds", (*expires_at - now) / 1_000_000);
                    }
                },
                PairCodeState::Failed { message } => {
                    pairing.put_text("state", "error");
                    pairing.put_text("message", message.as_str());
                },
            }
        }
        let mut fields = JsonFields::new();
        if authenticated {
            fields.put_optional("qr_code", &self.qr_code);
        } else {
            fields.put("qr_code", JsonNode::Null);
        }
        fields.put_bool("connected", self.connected);
        fields.put_optional("pn", &self.pn);
        fields.put_optional("lid", &self.lid);
        fields.put("pair_code", pairing.finish());
        to_text(&fields.finish())
    }

    /// The status as a document, with all that is known.
    pub fn to_json(&self, now: u64) -> (r: String)
        ensures
            r@ == json_text(device_document(self@, true, now)),
    {
        self.to_json_authenticated(true, now)
    }

    /// The messages that are kept, oldest first, as a document.
    pub fn messages_json(&self) -> (r: String)
        ensures
            r@ == json_text(messages_document(self@.messages)),
    {
        let ghost views = self@.messages;
        let mut list = JsonList::new();
        let mut i: usize = 0;
        assert(messages_list(views.take(0)) =~= Seq::empty());
        while i < self.messages.len()
            invariant
                i <= self.messages@.len(),
                views == self@.messages,
                list@ == messages_list(views.take(i as int)),
            decreases self.messages@.len() - i,
        {
            let m = &self.messages[i];
            assert(views[i as int] == m@);
            list.push(message_node(m));
            i += 1;
            assert(list@ =~= messages_list(views.take(i as int)));
        }
        assert(views.take(i as int) =~= views);
        let mut fields = JsonFields::new();
        fields.put_nat("count", self.messages.len() as u64);
        fields.put("messages", list.finish());
        to_text(&fields.finish())
    }
}

fn message_node(m: &MessageLogEntry) -> (r: JsonNode)
    ensures
        r.tree() == message_document(m@),
{
    let mut fields = JsonFields::new();
    fields.put_text("id", m.id.as_str());
    fields.put_text("chat", m.chat.as_str());
    fields.put_text("sender", m.sender.as_str());
    fields.put_optional("text", &m.text);
    fields.put_int("timestamp", m.timestamp);
    fields.put_bool("from_me", m.from_me);
    fields.finish()
}

/// A text, or null where there is none.
pub open spec fn text_or_null(text: Option<Seq<char>>) -> JsonTree {
    match text {
        Some(s) => JsonTree::Text(s),
        None => JsonTree::Null,
    }
}

/// A document about where linking by phone number stands.
pub open spec fn pairing_document(pair_code: PairCodeView, authenticated: bool, now: u64) -> JsonTree {
    if !authenticated {
        JsonTree::Dict(map!["state"@ => JsonTree::Text("redacted"@)])
    } else {
        match pair_code {
            PairCodeView::Idle => JsonTree::Dict(map!["state"@ => JsonTree::Text("idle"@)]),
            PairCodeView::Pending { .. } => JsonTree::Dict(
                map!["state"@ => JsonTree::Text("pending"@)],
            ),
            PairCodeView::Ready { code, expires_at } => if expires_at <= now {
                JsonTree::Dict(map!["state"@ => JsonTree::Text("expired"@)])
            } else {
                JsonTree::Dict(
                    map![
                        "state"@ => JsonTree::Text("ready"@),
                        "code"@ => JsonTree::Text(code),
                        "expires_in_seconds"@ => JsonTree::Number((expires_at - now) / 1_000_000),
                    ],
                )
            },
            PairCodeView::Failed { message } => JsonTree::Dict(
                map![
                    "state"@ => JsonTree::Text("error"@),
                    "message"@ => JsonTree::Text(message),
                ],
            ),
        }
    }
}

/// The status as a document. Without authentication the QR code and the state of
/// pairing are left out.
pub open spec fn device_document(
    status: DeviceStatusView,
    authenticated: bool,
    now: u64,
) -> JsonTree {
    JsonTree::Dict(
        map![
            "qr_code"@ => if authenticated {
                text_or_null(status.qr_code)
            } else {
                JsonTree::Null
            },
            "connected"@ => JsonTree::Bool(status.connected),
            "pn"@ => text_or_null(status.pn),
            "lid"@ => text_or_null(status.lid),
            "pair_code"@ => pairing_document(status.pair_code, authenticated, now),
        ],
    )
}

/// What is shown without authentication says nothing of pairing: it is the same
/// whatever the QR code and the linking code are, and at any time.
pub proof fn pairing_is_redacted(a: DeviceStatusView, b: DeviceStatusView, at_a: u64, at_b: u64)
    requires
        a.connected == b.connected,
        a.pn == b.pn,
        a.lid == b.lid,
    ensures
        device_document(a, false, at_a) == device_document(b, false, at_b),
{
}

/// A message as a document.
pub open spec fn message_document(m: MessageView) -> JsonTree {
    JsonTree::Dict(
        map![
            "id"@ => JsonTree::Text(m.id),
            "chat"@ => JsonTree::Text(m.chat),
            "sender"@ => JsonTree::Text(m.sender),
            "text"@ => text_or_null(m.text),
            "timestamp"@ => JsonTree::Number(m.timestamp as int),
            "from_me"@ => JsonTree::Bool(m.from_me),
        ],
    )
}

/// Messages as documents.
pub open spec fn messages_list(messages: Seq<MessageView>) -> Seq<JsonTree> {
    messages.map_values(|m: MessageView| message_document(m))
}

/// Messages as one document.
pub open spec fn messages_document(messages: Seq<MessageView>) -> JsonTree {
    JsonTree::Dict(
        map![
            "count"@ => JsonTree::Number(messages.len() as int),
            "messages"@ => JsonTree::List(messages_list(messages)),
        ],
    )
}

/// The document of a message shows all of it, each part under its name, and the text
/// as it was logged: two messages with the same document are the same.
pub proof fn messages_are_shown_whole(m: MessageView, other: MessageView)
    ensures
        message_document(m) matches JsonTree::Dict(fields) && fields.dom() == set![
            "id"@,
            "chat"@,
            "sender"@,
            "text"@,
            "timestamp"@,
            "from_me"@,
        ] && fields["id"@] == JsonTree::Text(m.id) && fields["chat"@] == JsonTree::Text(m.chat)
            && fields["sender"@] == JsonTree::Text(m.sender) && (m.text is Some
            ==> fields["text"@] == JsonTree::Text(m.text->0)) && (m.text is None
            ==> fields["text"@] == JsonTree::Null) && fields["timestamp"@] == JsonTree::Number(
            m.timestamp as int,
        ) && fields["from_me"@] == JsonTree::Bool(m.from_me),
        message_document(m) == message_document(other) ==> m == other,
{
    lemma_message_members(m);
    lemma_message_members(other);
    reveal_strlit("id");
    reveal_strlit("chat");
    reveal_strlit("sender");
    reveal_strlit("text");
    reveal_strlit("timestamp");
    reveal_strlit("from_me");
    assert("id"@.len() == 2 && "chat"@.len() == 4 && "sender"@.len() == 6 && "text"@.len() == 4);
    assert("timestamp"@.len() == 9 && "from_me"@.len() == 7);
    assert("chat"@[0] == 'c' && "text"@[0] == 't');
    assert(message_document(m)->Dict_0.dom() =~= set![
        "id"@,
        "chat"@,
        "sender"@,
        "text"@,
        "timestamp"@,
        "from_me"@,
    ]);
}

proof fn lemma_message_members(m: MessageView)
    ensures
        message_document(m) matches JsonTree::Dict(fields) && fields["id"@] == JsonTree::Text(m.id)
            && fields["chat"@] == JsonTree::Text(m.chat) && fields["sender"@] == JsonTree::Text(
            m.sender,
        ) && fields["text"@] == text_or_null(m.text) && fields["timestamp"@] == JsonTree::Number(
            m.timestamp as int,
        ) && fields["from_me"@] == JsonTree::Bool(m.from_me),
{
    reveal_strlit("id");
    reveal_strlit("chat");
    reveal_strlit("sender");
    reveal_strlit("text");
    reveal_strlit("timestamp");
    reveal_strlit("from_me");
    assert("id"@.len() == 2 && "chat"@.len() == 4 && "sender"@.len() == 6 && "text"@.len() == 4);
    assert("timestamp"@.len() == 9 && "from_me"@.len() == 7);
    assert("chat"@[0] == 'c' && "text"@[0] == 't');
}

/// The document of the log counts its messages and shows each of them, in order.
pub proof fn log_is_shown_in_order(messages: Seq<MessageView>)
    ensures
        messages_document(messages) matches JsonTree::Dict(fields) && fields.dom() == set![
            "count"@,
            "messages"@,
        ] && fields["count"@] == JsonTree::Number(messages.len() as int) && (
        fields["messages"@] matches JsonTree::List(items) && items.len() == messages.len()
            && forall|i: int|
            0 <= i < messages.len() ==> items[i] == message_document(#[trigger] messages[i])),
{
    reveal_strlit("count");
    reveal_strlit("messages");
    assert("count"@.len() == 5 && "messages"@.len() == 8);
    assert(messages_document(messages)->Dict_0.dom() =~= set!["count"@, "messages"@]);
}

proof fn lemma_device_keys()
    ensures
        "qr_code"@.len() == 7,
        "connected"@.len() == 9,
        "pn"@.len() == 2,
        "lid"@.len() == 3,
        "pair_code"@.len() == 9,
        "connected"@[0] == 'c',
        "pair_code"@[0] == 'p',
        "state"@.len() == 5,
        "code"@.len() == 4,
        "message"@.len() == 7,
        "expires_in_seconds"@.len() == 18,
{
    reveal_strlit("qr_code");
    reveal_strlit("connected");
    reveal_strlit("pn");
    reveal_strlit("lid");
    reveal_strlit("pair_code");
    reveal_strlit("state");
    reveal_strlit("code");
    reveal_strlit("message");
    reveal_strlit("expires_in_seconds");
}

/// The document of the status shows the connection and the account to everyone, the
/// QR code and pairing only to those who may see them, each under its name.
pub proof fn status_is_shown_by_name(status: DeviceStatusView, authenticated: bool, now: u64)
    ensures
        device_document(status, authenticated, now) matches JsonTree::Dict(fields) && fields.dom()
            == set!["qr_code"@, "connected"@, "pn"@, "lid"@, "pair_code"@] && fields["connected"@]
            == JsonTree::Bool(status.connected) && (status.pn is Some ==> fields["pn"@]
            == JsonTree::Text(status.pn->0)) && (status.pn is None ==> fields["pn"@]
            == JsonTree::Null) && (status.lid is Some ==> fields["lid"@] == JsonTree::Text(
            status.lid->0,
        )) && (status.lid is None ==> fields["lid"@] == JsonTree::Null) && (authenticated
            && status.qr_code is Some ==> fields["qr_code"@] == JsonTree::Text(status.qr_code->0))
            && (!authenticated || status.qr_code is None ==> fields["qr_code"@] == JsonTree::Null)
            && fields["pair_code"@] == pairing_document(status.pair_code, authenticated, now),
{
    lemma_device_keys();
    assert(device_document(status, authenticated, now)->Dict_0.dom() =~= set![
        "qr_code"@,
        "connected"@,
        "pn"@,
        "lid"@,
        "pair_code"@,
    ]);
}

/// Pairing is shown by its state, with the code and the seconds it is still good for
/// while there is one, and with the reason where it failed; to others it is redacted.
pub proof fn pairing_is_shown_by_its_state(pair_code: PairCodeView, authenticated: bool, now: u64)
    ensures
        pairing_document(pair_code, authenticated, now) matches JsonTree::Dict(fields)
            && fields.contains_key("state"@) && fields["state"@] == JsonTree::Text(
            if !authenticated {
                "redacted"@
            } else if pair_code is Idle {
                "idle"@
            } else if pair_code is Pending {
                "pending"@
            } else if pair_code is Failed {
                "error"@
            } else if now < pair_code->expires_at {
                "ready"@
            } else {
                "expired"@
            },
        ) && (fields.contains_key("code"@) <==> authenticated && pair_code is Ready && now
            < pair_code->expires_at) && (fields.contains_key("code"@) ==> fields["code"@]
            == JsonTree::Text(pair_code->code) && fields.contains_key("expires_in_seconds"@)
            && fields["expires_in_seconds"@] == JsonTree::Number(
            (pair_code->expires_at - now) / 1000000,
        )) && (fields.contains_key("message"@) <==> authenticated && pair_code is Failed) && (
        fields.contains_key("message"@) ==> fields["message"@] == JsonTree::Text(
            pair_code->message,
        )),
{
    lemma_device_keys();
}

/// What is kept of a text: all of it where it takes 256 bytes at most, else its longest
/// front that leaves three bytes for the ellipsis, and the ellipsis.
pub proof fn previews_keep_the_front(text: Seq<char>)
    ensures
        encode_utf8(text).len() <= 256 ==> preview(text) == text,
        encode_utf8(text).len() > 256 ==> {
            let n = preview(text).len() - 1;
            &&& 0 <= n < text.len()
            &&& preview(text) == text.take(n).push('…')
            &&& encode_utf8(text.take(n)).len() <= 253
            &&& encode_utf8(text.take(n + 1)).len() > 253
        },
{
    if encode_utf8(text).len() > 256 {
        let n = chars_fitting(text, 253) as int;
        fitting_characters_fit(text, 253);
        reveal_strlit("…");
        size_is_encoded_length(text);
        size_is_encoded_length(text.take(n));
        if n < text.len() {
            size_is_encoded_length(text.take(n + 1));
        } else {
            assert(text.take(n) =~= text);
        }
        assert(preview(text) =~= text.take(n).push('…'));
    }
}

/// What is logged of a message is the message, with the preview of its text.
pub proof fn logging_keeps_the_message(m: MessageView)
    ensures
        logged(m).id == m.id,
        logged(m).chat == m.chat,
        logged(m).sender == m.sender,
        logged(m).timestamp == m.timestamp,
        logged(m).from_me == m.from_me,
        logged(m).text is Some <==> m.text is Some,
        m.text is Some ==> logged(m).text->0 == preview(m.text->0),
{
}

/// Unlinking forgets the account and its messages, and nothing of pairing. A code that
/// is asked for, or is there and not expired, is the only thing that counts as pairing.
pub proof fn unlinking_forgets_the_account(status: DeviceStatusView, now: u64)
    ensures
        !status.logged_out().connected,
        status.logged_out().pn is None,
        status.logged_out().lid is None,
        status.logged_out().messages.len() == 0,
        status.logged_out().qr_code == status.qr_code,
        status.logged_out().pair_code == status.pair_code,
        status.logged_out().next_pair_code_request == status.next_pair_code_request,
        status.pairing(now) <==> status.pair_code is Pending || (status.pair_code is Ready && now
            < status.pair_code->expires_at),
        DeviceStatusView::initial().qr_code is None,
        !DeviceStatusView::initial().connected,
        DeviceStatusView::initial().pn is None,
        DeviceStatusView::initial().lid is None,
        DeviceStatusView::initial().pair_code is Idle,
        DeviceStatusView::initial().next_pair_code_request == 1,
        DeviceStatusView::initial().messages.len() == 0,
{
}

/// A message, and where pairing stands, are viewed as they are.
pub proof fn views_show_everything(entry: MessageLogEntry, state: PairCodeState)
    ensures
        entry@.id == entry.id@,
        entry@.chat == entry.chat@,
        entry@.sender == entry.sender@,
        entry@.timestamp == entry.timestamp,
        entry@.from_me == entry.from_me,
        entry@.text is Some <==> entry.text is Some,
        entry.text is Some ==> entry@.text->0 == (entry.text->0)@,
        text_view(Some(entry.id)) == Some(entry.id@),
        text_view(None) is None,
        state is Idle <==> state@ is Idle,
        state is Pending ==> state@ is Pending && state@->request_id == state->request_id,
        state is Ready ==> state@ is Ready && state@->code == (state->code)@ && state@->expires_at
            == state->expires_at,
        state is Failed ==> state@ is Failed && state@->message == (state->message)@,
{
}

impl Default for DeviceStatus {
    fn default() -> (r: DeviceStatus)
        ensures
            r.wf(),
            r@ == DeviceStatusView::initial(),
    {
        DeviceStatus::new()
    }
}

} // verus!
