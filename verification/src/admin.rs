//! The admin interface: who may call what, what requests say, and what is
//! answered.

use crate::device_status::{
    device_document, messages_document, DeviceStatus, DeviceStatusView, PairCodeView,
};
use crate::json::{
    json_parsed, json_text, parse_json, text_member, text_of_member, to_text, value_tree,
    JsonFields, JsonList, JsonNode, JsonTree,
};
use crate::storage::StoreStats;
use crate::supervisor::{upgraded, MaintenanceAction, MaintenanceCoordinator, MaintenanceRequest};
use crate::text::{begins_with, chars_of, string_of};
use vstd::prelude::*;

verus! {

/// The port of the admin interface.
pub const ADMIN_PORT: u16 = 8081;

/// Header carrying the admin token, when one is configured.
pub const TOKEN_HEADER: &'static str = "x-admin-token";

/// How long a send may take, in milliseconds, before it is answered as late.
pub const SEND_TIMEOUT_MS: u64 = 30_000;

/// The most bytes a request to send may have.
pub const MAX_SEND_BODY: usize = 2048;

/// The most bytes a request for a linking code may have.
pub const MAX_PAIR_BODY: usize = 128;

/// How long a linking code is valid, in microseconds.
pub const PAIR_CODE_VALID_US: u64 = 180_000_000;

/// How long to wait for the socket before a linking code is asked for, in
/// milliseconds.
pub const PAIR_SOCKET_WAIT_MS: u64 = 30_000;

/// An answer: its status and its JSON body.
#[derive(Debug)]
pub struct Reply {
    pub status: u16,
    pub body: String,
}

impl Reply {
    /// Whether the answer is this.
    pub open spec fn is(self, status: u16, body: Seq<char>) -> bool {
        self.status == status && self.body@ == body
    }

    fn new(status: u16, body: &str) -> (r: Reply)
        ensures
            r.is(status, body@),
    {
        Reply { status, body: body.to_owned() }
    }
}

/// A document that says what went wrong.
pub open spec fn error_document(message: Seq<char>) -> JsonTree {
    JsonTree::Dict(map!["error"@ => JsonTree::Text(message)])
}

/// The text of a document that says what went wrong.
pub fn error_body(message: &str) -> (r: String)
    ensures
        r@ == json_text(error_document(message@)),
{
    let mut fields = JsonFields::new();
    fields.put_text("error", message);
    to_text(&fields.finish())
}

/// The token that the sensitive routes require, or none where the device was set
/// up without one.
pub struct AdminAuth {
    token: Option<String>,
}

/// Whether two texts differ in no byte. The time this takes depends on the length
/// alone, not on where the texts differ.
fn same_secret(a: &[u8], b: &[u8]) -> (r: bool)
    ensures
        r == (a@ == b@),
{
    if a.len() != b.len() {
        return false;
    }
    let mut differing: u8 = 0;
    let mut i: usize = 0;
    assert(a@.take(0) =~= b@.take(0));
    while i < a.len()
        invariant
            i <= a@.len(),
            a@.len() == b@.len(),
            differing == 0 <==> a@.take(i as int) == b@.take(i as int),
        decreases a@.len() - i,
    {
        let x = a[i];
        let y = b[i];
        proof {
            let before = differing;
            assert(before | (x ^ y) == 0 <==> (before == 0 && x == y)) by (bit_vector);
            let n = i as int;
            assert(a@.take(n + 1) =~= a@.take(n).push(x));
            assert(b@.take(n + 1) =~= b@.take(n).push(y));
            assert(a@.take(n + 1).drop_last() =~= a@.take(n));
            assert(b@.take(n + 1).drop_last() =~= b@.take(n));
            assert(a@.take(n + 1).last() == x);
            assert(b@.take(n + 1).last() == y);
        }
        differing = differing | (x ^ y);
        i += 1;
    }
    assert(a@.take(i as int) =~= a@);
    assert(b@.take(i as int) =~= b@);
    differing == 0
}

/// The answer to a request without a valid token.
pub open spec fn unauthorized() -> Seq<char> {
    "{\"error\":\"A valid X-Admin-Token header is required\"}"@
}

impl AdminAuth {
    /// The token that is required.
    pub closed spec fn token(&self) -> Option<Seq<char>> {
        match self.token {
            Some(token) => Some(token@),
            None => None,
        }
    }

    /// Requires this token, or none.
    pub fn new(token: Option<String>) -> (r: AdminAuth)
        ensures
            r.token() == (match token {
                Some(t) => Some(t@),
                None => None,
            }),
    {
        AdminAuth { token }
    }

    /// Whether a token is required at all.
    pub fn is_required(&self) -> (r: bool)
        ensures
            r == self.token() is Some,
    {
        self.token.is_some()
    }

    /// Whether a request that carries this token may proceed.
    pub open spec fn admits(&self, provided: Option<&str>) -> bool {
        match self.token() {
            None => true,
            Some(expected) => expected == match provided {
                Some(text) => text@,
                None => ""@,
            },
        }
    }

    /// Whether a request that carries this token may proceed, or what to answer.
    pub fn check(&self, provided: Option<&str>) -> (r: Result<(), Reply>)
        ensures
            r is Ok == self.admits(provided),
            self.token() is None ==> r is Ok,
            self.token() is Some && provided is Some ==> (r is Ok <==> self.token() == Some(
                (provided->0)@,
            )),
            self.token() is Some && provided is None ==> (r is Ok <==> (self.token()->0).len()
                == 0),
            r matches Err(reply) ==> reply.is(401, unauthorized()) && reply.is(
                401,
                "{\"error\":\"A valid X-Admin-Token header is required\"}"@,
            ),
    {
        proof {
            if let Some(token) = self.token() {
                only_the_token_admits(*self, token, provided);
            }
        }
        let given = match provided {
            Some(text) => text,
            None => "",
        };
        match &self.token {
            None => Ok(()),
            Some(expected) => {
                proof {
                    vstd::utf8::encode_utf8_decode_utf8(given@);
                    vstd::utf8::encode_utf8_decode_utf8(expected@);
                }
                if same_secret(given.as_bytes(), expected.as_str().as_bytes()) {
                    Ok(())
                } else {
                    Err(
                        Reply::new(
                            401,
                            "{\"error\":\"A valid X-Admin-Token header is required\"}",
                        ),
                    )
                }
            },
        }
    }

    /// Whether a request for this route may proceed, or what to answer: the
    /// sensitive routes need the token, the others stay open.
    pub fn gate(&self, route: Route, provided: Option<&str>) -> (r: Result<(), Reply>)
        ensures
            r is Ok == (!route.needs_token() || self.admits(provided)),
            r matches Err(reply) ==> reply.is(401, unauthorized()) && reply.is(
                401,
                "{\"error\":\"A valid X-Admin-Token header is required\"}"@,
            ),
            route == Route::Messages || route == Route::Send || route == Route::PairCode || route
                == Route::Reset || route == Route::Reboot || route == Route::ListSessions || route
                == Route::ClearSessions ==> r is Ok == self.admits(provided),
    {
        if route.is_sensitive() {
            self.check(provided)
        } else {
            Ok(())
        }
    }
}

/// A method of a request.
#[derive(Clone, Copy, Debug, PartialEq, Eq, Structural)]
pub enum Method {
    Get,
    Post,
    Delete,
}

/// What can be asked of the device.
#[derive(Clone, Copy, Debug, PartialEq, Eq, Structural)]
pub enum Route {
    Dashboard,
    QrRenderer,
    Stats,
    Device,
    Messages,
    Send,
    PairCode,
    Health,
    TestPanic,
    Metrics,
    Reset,
    Reboot,
    ListSessions,
    ClearSessions,
}

impl Route {
    /// Whether the route reads messages or sessions, sends, links, erases or
    /// reboots.
    pub open spec fn needs_token(self) -> bool {
        match self {
            Route::Messages | Route::Send | Route::PairCode | Route::Reset | Route::Reboot
            | Route::ListSessions | Route::ClearSessions => true,
            _ => false,
        }
    }

    /// Whether the route needs the token.
    pub fn is_sensitive(&self) -> (r: bool)
        ensures
            r == self.needs_token(),
            !r <==> *self == Route::Dashboard || *self == Route::QrRenderer || *self == Route::Stats
                || *self == Route::Device || *self == Route::Health || *self == Route::TestPanic
                || *self == Route::Metrics,
    {
        matches!(
            *self,
            Route::Messages | Route::Send | Route::PairCode | Route::Reset | Route::Reboot
                | Route::ListSessions | Route::ClearSessions
        )
    }

    /// The path for `path`.
    pub open spec fn spec_path(self) -> Seq<char> {
        match self {
            Route::Dashboard => "/dashboard"@,
            Route::QrRenderer => "/qrcode.min.js"@,
            Route::Stats => "/"@,
            Route::Device => "/device"@,
            Route::Messages => "/messages"@,
            Route::Send => "/send"@,
            Route::PairCode => "/pair-code"@,
            Route::Health => "/health"@,
            Route::TestPanic => "/test-panic"@,
            Route::Metrics => "/metrics"@,
            Route::Reset => "/reset"@,
            Route::Reboot => "/reboot"@,
            Route::ListSessions | Route::ClearSessions => "/sessions"@,
        }
    }

    /// The path that the route is served at.
    pub fn path(&self) -> (r: &'static str)
        ensures
            r@ == self.spec_path(),
            r@ == match *self {
                Route::Dashboard => "/dashboard"@,
                Route::QrRenderer => "/qrcode.min.js"@,
                Route::Stats => "/"@,
                Route::Device => "/device"@,
                Route::Messages => "/messages"@,
                Route::Send => "/send"@,
                Route::PairCode => "/pair-code"@,
                Route::Health => "/health"@,
                Route::TestPanic => "/test-panic"@,
                Route::Metrics => "/metrics"@,
                Route::Reset => "/reset"@,
                Route::Reboot => "/reboot"@,
                Route::ListSessions | Route::ClearSessions => "/sessions"@,
            },
    {
        match *self {
            Route::Dashboard => "/dashboard",
            Route::QrRenderer => "/qrcode.min.js",
            Route::Stats => "/",
            Route::Device => "/device",
            Route::Messages => "/messages",
            Route::Send => "/send",
            Route::PairCode => "/pair-code",
            Route::Health => "/health",
            Route::TestPanic => "/test-panic",
            Route::Metrics => "/metrics",
            Route::Reset => "/reset",
            Route::Reboot => "/reboot",
            Route::ListSessions | Route::ClearSessions => "/sessions",
        }
    }

    /// The method for `method`.
    pub open spec fn spec_method(self) -> Method {
        match self {
            Route::Send | Route::PairCode | Route::TestPanic | Route::Reset | Route::Reboot => {
                Method::Post
            },
            Route::ClearSessions => Method::Delete,
            _ => Method::Get,
        }
    }

    /// The method that the route is served for.
    pub fn method(&self) -> (r: Method)
        ensures
            r == self.spec_method(),
            r == Method::Delete <==> *self == Route::ClearSessions,
            r == Method::Post <==> *self == Route::Send || *self == Route::PairCode || *self
                == Route::TestPanic || *self == Route::Reset || *self == Route::Reboot,
    {
        match *self {
            Route::Send | Route::PairCode | Route::TestPanic | Route::Reset | Route::Reboot => {
                Method::Post
            },
            Route::ClearSessions => Method::Delete,
            _ => Method::Get,
        }
    }
}

/// Why the head of a request with a JSON body is refused, if it is.
pub open spec fn head_refusal(
    content_type: Option<&str>,
    content_len: Option<u64>,
    max_len: usize,
) -> Option<(u16, Seq<char>)> {
    if !(content_type matches Some(value) && "application/json"@.is_prefix_of(value@)) {
        Some((415, "{\"error\":\"Content-Type must be application/json\"}"@))
    } else if !(content_len matches Some(len) && len <= usize::MAX) {
        Some((411, "{\"error\":\"Content-Length required\"}"@))
    } else if content_len->0 == 0 || content_len->0 > max_len {
        Some((413, "{\"error\":\"Invalid request size\"}"@))
    } else {
        None
    }
}

/// Checks the head of a request with a JSON body: how many bytes of body to read,
/// or what to answer.
pub fn admit_json_body(
    content_type: Option<&str>,
    content_len: Option<u64>,
    max_len: usize,
) -> (r: Result<usize, Reply>)
    ensures
        match head_refusal(content_type, content_len, max_len) {
            Some((status, body)) => r matches Err(reply) && reply.is(status, body),
            None => r matches Ok(n) && Some(n as u64) == content_len && 0 < n <= max_len,
        },
{
    let is_json = match content_type {
        Some(value) => {
            let chars = chars_of(value);
            begins_with(chars.as_slice(), "application/json")
        },
        None => false,
    };
    if !is_json {
        return Err(Reply::new(415, "{\"error\":\"Content-Type must be application/json\"}"));
    }
    // A length beyond the address space would wrap into the accepted range.
    let n: usize = match content_len {
        Some(len) => if len <= usize::MAX as u64 {
            len as usize
        } else {
            return Err(Reply::new(411, "{\"error\":\"Content-Length required\"}"));
        },
        None => {
            return Err(Reply::new(411, "{\"error\":\"Content-Length required\"}"));
        },
    };
    if n == 0 || n > max_len {
        return Err(Reply::new(413, "{\"error\":\"Invalid request size\"}"));
    }
    Ok(n)
}

/// A JSON body: what it holds, or what to answer. `None` is a body that could not
/// be read.
pub open spec fn body_tree(body: Option<Seq<u8>>) -> Result<JsonTree, (u16, Seq<char>)> {
    match body {
        None => Err((400, "{\"error\":\"Could not read the request body\"}"@)),
        Some(bytes) => match json_parsed(bytes) {
            None => Err((400, "{\"error\":\"Invalid JSON\"}"@)),
            Some(tree) => Ok(tree),
        },
    }
}

/// A body, if it could be read.
pub open spec fn bytes_view(body: Option<&[u8]>) -> Option<Seq<u8>> {
    match body {
        Some(bytes) => Some(bytes@),
        None => None,
    }
}

fn read_json_body(body: Option<&[u8]>) -> (r: Result<serde_json::Value, Reply>)
    ensures
        match body_tree(bytes_view(body)) {
            Ok(tree) => r matches Ok(value) && value_tree(value) == tree,
            Err((status, text)) => r matches Err(reply) && reply.is(status, text),
        },
{
    match body {
        None => Err(Reply::new(400, "{\"error\":\"Could not read the request body\"}")),
        Some(bytes) => match parse_json(bytes) {
            None => Err(Reply::new(400, "{\"error\":\"Invalid JSON\"}")),
            Some(value) => Ok(value),
        },
    }
}

/// Whether text is a JID, as `whatsapp_rust` reads it.
pub uninterp spec fn is_jid(text: Seq<char>) -> bool;

/// Trusted: `Jid::from_str` succeeds or fails by the text alone.
#[verifier::external_body]
fn parses_as_jid(text: &str) -> (r: bool)
    ensures
        r == is_jid(text@),
{
    text.parse::<whatsapp_rust::Jid>().is_ok()
}

/// What a request to send asks for: to whom, and what.
#[derive(Debug)]
pub struct SendRequest {
    pub to: String,
    pub text: String,
}

/// What a body that asks to send says, given which texts are JIDs, or what to
/// answer.
pub open spec fn send_request_in(tree: JsonTree, valid: spec_fn(Seq<char>) -> bool) -> Result<
    (Seq<char>, Seq<char>),
    (u16, Seq<char>),
> {
    match text_member(tree, "to"@) {
        None => Err((400, "{\"error\":\"to is required\"}"@)),
        Some(to) => match text_member(tree, "text"@) {
            None => Err((400, "{\"error\":\"text is required\"}"@)),
            Some(text) => if text.len() == 0 {
                Err((400, "{\"error\":\"text is empty\"}"@))
            } else if !valid(to) {
                Err((400, "{\"error\":\"to is not a JID\"}"@))
            } else {
                Ok((to, text))
            },
        },
    }
}

/// Reads the body of a request to send: what it asks for, or what to answer.
pub fn parse_send(body: Option<&[u8]>) -> (r: Result<SendRequest, Reply>)
    ensures
        match body_tree(bytes_view(body)) {
            Err((status, text)) => r matches Err(reply) && reply.is(status, text),
            Ok(tree) => match send_request_in(tree, |text: Seq<char>| is_jid(text)) {
                Ok((to, text)) => r matches Ok(request) && request.to@ == to && request.text@
                    == text,
                Err((status, text)) => r matches Err(reply) && reply.is(status, text),
            },
        },
{
    match read_json_body(body) {
        Err(reply) => Err(reply),
        Ok(value) => {
            let to = text_of_member(&value, "to");
            let text = text_of_member(&value, "text");
            let valid = match to {
                Some(to) => parses_as_jid(to),
                None => false,
            };
            check_send(to, text, valid)
        },
    }
}

/// Checks what a request to send says, given whether the recipient is a JID.
pub fn check_send(to: Option<&str>, text: Option<&str>, valid: bool) -> (r: Result<
    SendRequest,
    Reply,
>)
    ensures
        match to {
            None => r matches Err(reply) && reply.is(400, "{\"error\":\"to is required\"}"@),
            Some(to) => match text {
                None => r matches Err(reply) && reply.is(
                    400,
                    "{\"error\":\"text is required\"}"@,
                ),
                Some(text) => if text@.len() == 0 {
                    r matches Err(reply) && reply.is(400, "{\"error\":\"text is empty\"}"@)
                } else if !valid {
                    r matches Err(reply) && reply.is(400, "{\"error\":\"to is not a JID\"}"@)
                } else {
                    r matches Ok(request) && request.to@ == to@ && request.text@ == text@
                },
            },
        },
{
    match to {
        None => Err(Reply::new(400, "{\"error\":\"to is required\"}")),
        Some(to) => match text {
            None => Err(Reply::new(400, "{\"error\":\"text is required\"}")),
            Some(text) => if text.is_empty() {
                Err(Reply::new(400, "{\"error\":\"text is empty\"}"))
            } else if !valid {
                Err(Reply::new(400, "{\"error\":\"to is not a JID\"}"))
            } else {
                Ok(SendRequest { to: to.to_owned(), text: text.to_owned() })
            },
        },
    }
}

/// Whether a message can be sent: `logged_in` is of the live client, where there
/// is one.
pub fn send_readiness(logged_in: Option<bool>) -> (r: Result<(), Reply>)
    ensures
        match logged_in {
            None => r matches Err(reply) && reply.is(
                503,
                "{\"error\":\"WhatsApp client is starting\"}"@,
            ),
            Some(false) => r matches Err(reply) && reply.is(503, "{\"error\":\"Not connected\"}"@),
            Some(true) => r is Ok,
        },
{
    match logged_in {
        None => Err(Reply::new(503, "{\"error\":\"WhatsApp client is starting\"}")),
        Some(false) => Err(Reply::new(503, "{\"error\":\"Not connected\"}")),
        Some(true) => Ok(()),
    }
}

/// What is said where the client was replaced before the message was sent.
pub const RECONNECTED: &'static str = "WhatsApp client reconnected; try again";

/// What came of a message that was handed over to be sent.
#[derive(Debug)]
pub enum SendOutcome {
    /// It could not be handed over.
    NotQueued,
    /// It was sent under this id.
    Sent(String),
    /// It could not be sent, for this reason.
    Failed(String),
    /// Nothing was heard of it in time.
    Late,
}

/// A document about a message that was sent.
pub open spec fn sent_document(message_id: Seq<char>, to: Seq<char>) -> JsonTree {
    JsonTree::Dict(
        map![
            "result"@ => JsonTree::Text("sent"@),
            "message_id"@ => JsonTree::Text(message_id),
            "to"@ => JsonTree::Text(to),
        ],
    )
}

/// What to answer to a request to send.
pub fn send_reply(outcome: &SendOutcome, to: &str) -> (r: Reply)
    ensures
        match *outcome {
            SendOutcome::NotQueued => r.is(
                503,
                "{\"error\":\"WhatsApp executor is unavailable\"}"@,
            ),
            SendOutcome::Sent(id) => r.is(200, json_text(sent_document(id@, to@))),
            SendOutcome::Failed(why) => r.is(502, json_text(error_document(why@))),
            SendOutcome::Late => r.is(504, "{\"error\":\"Send did not complete in time\"}"@),
        },
{
    match outcome {
        SendOutcome::NotQueued => {
            Reply::new(503, "{\"error\":\"WhatsApp executor is unavailable\"}")
        },
        SendOutcome::Sent(id) => {
            let mut fields = JsonFields::new();
            fields.put_text("result", "sent");
            fields.put_text("message_id", id.as_str());
            fields.put_text("to", to);
            Reply { status: 200, body: to_text(&fields.finish()) }
        },
        SendOutcome::Failed(why) => Reply { status: 502, body: error_body(why.as_str()) },
        SendOutcome::Late => Reply::new(504, "{\"error\":\"Send did not complete in time\"}"),
    }
}

/// A character that a phone number may be written with.
pub open spec fn is_phone_char(c: char) -> bool {
    ('0' <= c <= '9') || c == '+' || c == ' ' || c == '-' || c == '(' || c == ')'
}

/// The digits of some text.
pub open spec fn digits_of(text: Seq<char>) -> Seq<char>
    decreases text.len(),
{
    if text.len() == 0 {
        text
    } else if '0' <= text.last() <= '9' {
        digits_of(text.drop_last()).push(text.last())
    } else {
        digits_of(text.drop_last())
    }
}

/// The phone number that text writes, or what to answer.
pub open spec fn phone_number_in(text: Seq<char>) -> Result<Seq<char>, (u16, Seq<char>)> {
    let digits = digits_of(text);
    if !forall|i: int| 0 <= i < text.len() ==> is_phone_char(#[trigger] text[i]) {
        Err((400, "{\"error\":\"Invalid phone number\"}"@))
    } else if digits.len() < 7 || digits.len() > 15 || digits[0] == '0' {
        Err(
            (
                400,
                "{\"error\":\"Use 7-15 international digits without a leading zero\"}"@,
            ),
        )
    } else {
        Ok(digits)
    }
}

/// The phone number that text writes, or what to answer.
pub fn parse_phone_number(text: &str) -> (r: Result<String, Reply>)
    ensures
        match phone_number_in(text@) {
            Ok(digits) => r matches Ok(number) && number@ == digits,
            Err((status, body)) => r matches Err(reply) && reply.is(status, body),
        },
{
    let chars = chars_of(text);
    let mut digits: Vec<char> = Vec::new();
    let mut i: usize = 0;
    assert(text@.take(0) =~= Seq::empty());
    while i < chars.len()
        invariant
            i <= chars@.len(),
            chars@ == text@,
            digits@ == digits_of(text@.take(i as int)),
            forall|j: int| 0 <= j < i ==> is_phone_char(#[trigger] text@[j]),
        decreases chars@.len() - i,
    {
        let c = chars[i];
        proof {
            assert(text@.take(i + 1).drop_last() =~= text@.take(i as int));
            assert(text@.take(i + 1).last() == c);
        }
        let is_digit = '0' <= c && c <= '9';
        if !(is_digit || c == '+' || c == ' ' || c == '-' || c == '(' || c == ')') {
            assert(!is_phone_char(text@[i as int]));
            return Err(Reply::new(400, "{\"error\":\"Invalid phone number\"}"));
        }
        if is_digit {
            digits.push(c);
        }
        i += 1;
    }
    assert(text@.take(i as int) =~= text@);
    if digits.len() < 7 || digits.len() > 15 || digits[0] == '0' {
        return Err(
            Reply::new(
                400,
                "{\"error\":\"Use 7-15 international digits without a leading zero\"}",
            ),
        );
    }
    Ok(string_of(digits.as_slice()))
}

/// What a body that asks for a linking code says: the phone number, or what to
/// answer.
pub open spec fn pair_request_in(tree: JsonTree) -> Result<Seq<char>, (u16, Seq<char>)> {
    match text_member(tree, "phone_number"@) {
        None => Err((400, "{\"error\":\"phone_number is required\"}"@)),
        Some(text) => phone_number_in(text),
    }
}

/// Reads the body of a request for a linking code: the phone number, or what to
/// answer.
pub fn parse_pair_code(body: Option<&[u8]>) -> (r: Result<String, Reply>)
    ensures
        match body_tree(bytes_view(body)) {
            Err((status, text)) => r matches Err(reply) && reply.is(status, text),
            Ok(tree) => match pair_request_in(tree) {
                Ok(digits) => r matches Ok(number) && number@ == digits,
                Err((status, text)) => r matches Err(reply) && reply.is(status, text),
            },
        },
{
    match read_json_body(body) {
        Err(reply) => Err(reply),
        Ok(value) => match text_of_member(&value, "phone_number") {
            None => Err(Reply::new(400, "{\"error\":\"phone_number is required\"}")),
            Some(text) => parse_phone_number(text),
        },
    }
}

/// Whether a linking code can be asked for: `idle` says that no maintenance is
/// under way, `logged_in` is of the live client, where there is one.
pub fn pair_readiness(idle: bool, logged_in: Option<bool>, device_exists: bool) -> (r: Result<
    (),
    Reply,
>)
    ensures
        if !idle {
            r matches Err(reply) && reply.is(
                409,
                "{\"error\":\"Device maintenance is in progress\"}"@,
            )
        } else if logged_in is None {
            r matches Err(reply) && reply.is(503, "{\"error\":\"WhatsApp client is starting\"}"@)
        } else if device_exists || logged_in == Some(true) {
            r matches Err(reply) && reply.is(409, "{\"error\":\"Device is already paired\"}"@)
        } else {
            r is Ok
        },
{
    if !idle {
        return Err(Reply::new(409, "{\"error\":\"Device maintenance is in progress\"}"));
    }
    match logged_in {
        None => Err(Reply::new(503, "{\"error\":\"WhatsApp client is starting\"}")),
        Some(logged_in) => if device_exists || logged_in {
            Err(Reply::new(409, "{\"error\":\"Device is already paired\"}"))
        } else {
            Ok(())
        },
    }
}

/// What to answer where an attempt at linking could not be reserved.
pub fn pair_refused(why: &str) -> (r: Reply)
    ensures
        r.is(409, json_text(error_document(why@))),
{
    Reply { status: 409, body: error_body(why) }
}

/// Whether a linking code is still to be asked for once its turn has come, or why
/// the attempt fails. A reset may have been requested meanwhile, and a code for a
/// store that is about to be erased could not be used.
pub fn pair_attempt(
    socket_ready: bool,
    is_current: bool,
    device_exists: bool,
    logged_in: bool,
    idle: bool,
) -> (r: Result<(), &'static str>)
    ensures
        if !socket_ready {
            r matches Err(why) && why@ == "WhatsApp connection is not ready"@
        } else if !is_current {
            r matches Err(why) && why@ == "WhatsApp client restarted; try again"@
        } else if device_exists || logged_in {
            r matches Err(why) && why@ == "Device is already paired"@
        } else if !idle {
            r matches Err(why) && why@ == "Device maintenance is in progress"@
        } else {
            r is Ok
        },
{
    if !socket_ready {
        Err("WhatsApp connection is not ready")
    } else if !is_current {
        Err("WhatsApp client restarted; try again")
    } else if device_exists || logged_in {
        Err("Device is already paired")
    } else if !idle {
        Err("Device maintenance is in progress")
    } else {
        Ok(())
    }
}

/// What an attempt fails with where no code could be had.
pub const PAIR_CODE_FAILED: &'static str = "Could not generate a pairing code; try again later";

/// What an attempt fails with where it could not be handed over.
pub const EXECUTOR_UNAVAILABLE: &'static str = "WhatsApp executor is unavailable";

/// What to answer once an attempt was handed over, or could not be.
pub fn pair_reply(queued: bool) -> (r: Reply)
    ensures
        queued ==> r.is(202, "{\"result\":\"pending\"}"@),
        !queued ==> r.is(503, "{\"error\":\"WhatsApp executor is unavailable\"}"@),
{
    if queued {
        Reply::new(202, "{\"result\":\"pending\"}")
    } else {
        Reply::new(503, "{\"error\":\"WhatsApp executor is unavailable\"}")
    }
}

/// Asks for maintenance: whether its task has to be started, or what to answer.
pub fn begin_maintenance(
    coordinator: &mut MaintenanceCoordinator,
    action: MaintenanceAction,
) -> (r: Result<bool, Reply>)
    ensures
        !old(coordinator).accepting ==> *final(coordinator) == *old(coordinator) && (r matches Err(
            reply,
        ) && reply.is(409, "{\"error\":\"Device is already rebooting\"}"@)),
        old(coordinator).accepting ==> *final(coordinator) == (MaintenanceCoordinator {
            highest: Some(upgraded(old(coordinator).highest, action)),
            running: true,
            accepting: true,
        }) && (r matches Ok(start) && start == !old(coordinator).running),
{
    match coordinator.request(action) {
        MaintenanceRequest::Rejected => Err(
            Reply::new(409, "{\"error\":\"Device is already rebooting\"}"),
        ),
        MaintenanceRequest::Queued => Ok(false),
        MaintenanceRequest::Start => Ok(true),
    }
}

/// What to answer where the task of maintenance could not be started; requests are
/// taken again.
pub fn maintenance_not_started(coordinator: &mut MaintenanceCoordinator) -> (r: Reply)
    ensures
        *final(coordinator) == (MaintenanceCoordinator {
            highest: None,
            running: false,
            ..*old(coordinator)
        }),
        r.is(503, "{\"error\":\"WhatsApp executor is unavailable\"}"@),
{
    coordinator.cancel_start();
    Reply::new(503, "{\"error\":\"WhatsApp executor is unavailable\"}")
}

/// What to answer once maintenance is under way.
pub fn maintenance_accepted(action: MaintenanceAction) -> (r: Reply)
    ensures
        r.is(
            202,
            match action {
                MaintenanceAction::Reset => {
                    "{\"result\":\"resetting\",\"message\":\"Logging out, clearing persistent data, and rebooting.\"}"@
                },
                MaintenanceAction::ClearSessions => {
                    "{\"result\":\"clearing\",\"message\":\"Disconnecting, clearing sessions, and rebooting.\"}"@
                },
                MaintenanceAction::Reboot => "{\"result\":\"rebooting\"}"@,
            },
        ),
{
    match action {
        MaintenanceAction::Reset => Reply::new(
            202,
            "{\"result\":\"resetting\",\"message\":\"Logging out, clearing persistent data, and rebooting.\"}",
        ),
        MaintenanceAction::ClearSessions => Reply::new(
            202,
            "{\"result\":\"clearing\",\"message\":\"Disconnecting, clearing sessions, and rebooting.\"}",
        ),
        MaintenanceAction::Reboot => Reply::new(202, "{\"result\":\"rebooting\"}"),
    }
}

/// The store's counts as a document.
pub open spec fn stats_document(heap_free: u32, heap_internal: u32, stats: StoreStats) -> JsonTree {
    JsonTree::Dict(
        map![
            "status"@ => JsonTree::Text("running"@),
            "heap_free"@ => JsonTree::Number(heap_free as int),
            "heap_internal"@ => JsonTree::Number(heap_internal as int),
            "sessions"@ => JsonTree::Number(stats.sessions as int),
            "identities"@ => JsonTree::Number(stats.identities as int),
            "prekeys"@ => JsonTree::Number(stats.prekeys as int),
            "sender_keys"@ => JsonTree::Number(stats.sender_keys as int),
            "device_paired"@ => JsonTree::Bool(stats.device_exists),
        ],
    )
}

/// The store's counts as a document.
pub fn stats_json(heap_free: u32, heap_internal: u32, stats: &StoreStats) -> (r: String)
    ensures
        r@ == json_text(stats_document(heap_free, heap_internal, *stats)),
{
    let mut fields = JsonFields::new();
    fields.put_text("status", "running");
    fields.put_nat("heap_free", heap_free as u64);
    fields.put_nat("heap_internal", heap_internal as u64);
    fields.put_nat("sessions", stats.sessions as u64);
    fields.put_nat("identities", stats.identities as u64);
    fields.put_nat("prekeys", stats.prekeys as u64);
    fields.put_nat("sender_keys", stats.sender_keys as u64);
    fields.put_bool("device_paired", stats.device_exists);
    to_text(&fields.finish())
}

/// Texts as documents.
pub open spec fn texts_list(texts: Seq<String>) -> Seq<JsonTree> {
    texts.map_values(|s: String| JsonTree::Text(s@))
}

/// Addresses as a document.
pub open spec fn sessions_document(addresses: Seq<String>) -> JsonTree {
    JsonTree::Dict(
        map![
            "count"@ => JsonTree::Number(addresses.len() as int),
            "addresses"@ => JsonTree::List(texts_list(addresses)),
        ],
    )
}

/// Addresses as a document.
pub fn sessions_json(addresses: &Vec<String>) -> (r: String)
    ensures
        r@ == json_text(sessions_document(addresses@)),
{
    let mut list = JsonList::new();
    let mut i: usize = 0;
    assert(texts_list(addresses@.take(0)) =~= Seq::empty());
    while i < addresses.len()
        invariant
            i <= addresses@.len(),
            list@ == texts_list(addresses@.take(i as int)),
        decreases addresses@.len() - i,
    {
        list.push(JsonNode::Text(addresses[i].clone()));
        i += 1;
        assert(list@ =~= texts_list(addresses@.take(i as int)));
    }
    assert(addresses@.take(i as int) =~= addresses@);
    let mut fields = JsonFields::new();
    fields.put_nat("count", addresses.len() as u64);
    fields.put("addresses", list.finish());
    to_text(&fields.finish())
}

/// The most bytes a body for this route may have.
pub open spec fn body_limit(route: Route) -> usize {
    if route == Route::Send {
        MAX_SEND_BODY
    } else {
        MAX_PAIR_BODY
    }
}

/// Begins a request with a JSON body: how many bytes of body to read, or what to
/// answer. Without a valid token nothing else of the request is looked at.
pub fn open_json_request(
    auth: &AdminAuth,
    route: Route,
    token: Option<&str>,
    content_type: Option<&str>,
    content_len: Option<u64>,
) -> (r: Result<usize, Reply>)
    requires
        route == Route::Send || route == Route::PairCode,
    ensures
        !auth.admits(token) ==> (r matches Err(reply) && reply.is(401, unauthorized())),
        auth.admits(token) ==> match head_refusal(content_type, content_len, body_limit(route)) {
            Some((status, body)) => r matches Err(reply) && reply.is(status, body),
            None => r matches Ok(n) && Some(n as u64) == content_len && 0 < n <= body_limit(route),
        },
        route == Route::Send ==> (r matches Ok(n) ==> n <= 2048),
        route == Route::PairCode ==> (r matches Ok(n) ==> n <= 128),
        route == Route::Send && auth.admits(token) && head_refusal(
            content_type,
            content_len,
            2048,
        ) is None ==> r is Ok,
        route == Route::PairCode && auth.admits(token) && head_refusal(
            content_type,
            content_len,
            128,
        ) is None ==> r is Ok,
{
    match auth.gate(route, token) {
        Err(reply) => Err(reply),
        Ok(_) => {
            let limit: usize = if route == Route::Send { MAX_SEND_BODY } else { MAX_PAIR_BODY };
            admit_json_body(content_type, content_len, limit)
        },
    }
}

/// Takes the body of a request to send: what to send, or what to answer. What the
/// request says is checked before whether anything can be sent.
pub fn accept_send(body: Option<&[u8]>, logged_in: Option<bool>) -> (r: Result<SendRequest, Reply>)
    ensures
        match body_tree(bytes_view(body)) {
            Err((status, text)) => r matches Err(reply) && reply.is(status, text),
            Ok(tree) => match send_request_in(tree, |text: Seq<char>| is_jid(text)) {
                Err((status, text)) => r matches Err(reply) && reply.is(status, text),
                Ok((to, text)) => match logged_in {
                    None => r matches Err(reply) && reply.is(
                        503,
                        "{\"error\":\"WhatsApp client is starting\"}"@,
                    ),
                    Some(false) => r matches Err(reply) && reply.is(
                        503,
                        "{\"error\":\"Not connected\"}"@,
                    ),
                    Some(true) => r matches Ok(request) && request.to@ == to && request.text@
                        == text,
                },
            },
        },
{
    match parse_send(body) {
        Err(reply) => Err(reply),
        Ok(request) => match send_readiness(logged_in) {
            Err(reply) => Err(reply),
            Ok(_) => Ok(request),
        },
    }
}

/// Takes the body of a request for a linking code: the phone number and the
/// attempt that was reserved for it, or what to answer. Nothing is reserved for a
/// request that is refused.
pub fn accept_pair_code(
    body: Option<&[u8]>,
    idle: bool,
    logged_in: Option<bool>,
    device_exists: bool,
    status: &mut DeviceStatus,
    now: u64,
) -> (r: Result<(String, u32), Reply>)
    requires
        old(status).wf(),
    ensures
        final(status).wf(),
        r is Err ==> final(status)@ == old(status)@,
        match body_tree(bytes_view(body)) {
            Err((code, text)) => r matches Err(reply) && reply.is(code, text),
            Ok(tree) => match pair_request_in(tree) {
                Err((code, text)) => r matches Err(reply) && reply.is(code, text),
                Ok(digits) => if !idle {
                    r matches Err(reply) && reply.is(
                        409,
                        "{\"error\":\"Device maintenance is in progress\"}"@,
                    )
                } else if logged_in is None {
                    r matches Err(reply) && reply.is(
                        503,
                        "{\"error\":\"WhatsApp client is starting\"}"@,
                    )
                } else if device_exists || logged_in == Some(true) {
                    r matches Err(reply) && reply.is(
                        409,
                        "{\"error\":\"Device is already paired\"}"@,
                    )
                } else if old(status)@.pairing(now) {
                    r matches Err(reply) && reply.is(
                        409,
                        json_text(
                            error_document(
                                if old(status)@.pair_code is Pending {
                                    "A linking code is being generated"@
                                } else {
                                    "A linking code is already active"@
                                },
                            ),
                        ),
                    )
                } else {
                    let id = old(status)@.next_pair_code_request;
                    &&& r matches Ok((number, got)) && number@ == digits && got == id
                    &&& final(status)@ == (DeviceStatusView {
                        pair_code: PairCodeView::Pending { request_id: id },
                        next_pair_code_request: if id == u32::MAX { 0 } else { (id + 1) as u32 },
                        ..old(status)@
                    })
                },
            },
        },
{
    match parse_pair_code(body) {
        Err(reply) => Err(reply),
        Ok(number) => match pair_readiness(idle, logged_in, device_exists) {
            Err(reply) => Err(reply),
            Ok(_) => match status.begin_pair_code(now) {
                Err(why) => Err(pair_refused(why)),
                Ok(id) => Ok((number, id)),
            },
        },
    }
}

/// The action that a route asks for.
pub open spec fn action_of(route: Route) -> MaintenanceAction {
    match route {
        Route::Reset => MaintenanceAction::Reset,
        Route::ClearSessions => MaintenanceAction::ClearSessions,
        _ => MaintenanceAction::Reboot,
    }
}

/// Begins a request for maintenance: the action, and whether its task has to be
/// started, or what to answer. Without a valid token nothing is requested.
pub fn open_maintenance(
    auth: &AdminAuth,
    route: Route,
    token: Option<&str>,
    coordinator: &mut MaintenanceCoordinator,
) -> (r: Result<(MaintenanceAction, bool), Reply>)
    requires
        route == Route::Reset || route == Route::ClearSessions || route == Route::Reboot,
    ensures
        !auth.admits(token) ==> *final(coordinator) == *old(coordinator) && (r matches Err(reply)
            && reply.is(401, unauthorized())),
        auth.admits(token) && !old(coordinator).accepting ==> *final(coordinator) == *old(
            coordinator,
        ) && (r matches Err(reply) && reply.is(
            409,
            "{\"error\":\"Device is already rebooting\"}"@,
        )),
        auth.admits(token) && old(coordinator).accepting ==> *final(coordinator) == (
        MaintenanceCoordinator {
            highest: Some(upgraded(old(coordinator).highest, action_of(route))),
            running: true,
            accepting: true,
        }) && (r matches Ok((action, start)) && action == action_of(route) && start == !old(
            coordinator,
        ).running),
        r matches Ok((action, _)) ==> (route == Route::Reset <==> action
            == MaintenanceAction::Reset) && (route == Route::ClearSessions <==> action
            == MaintenanceAction::ClearSessions) && (route == Route::Reboot <==> action
            == MaintenanceAction::Reboot),
{
    match auth.gate(route, token) {
        Err(reply) => Err(reply),
        Ok(_) => {
            let action = match route {
                Route::Reset => MaintenanceAction::Reset,
                Route::ClearSessions => MaintenanceAction::ClearSessions,
                _ => MaintenanceAction::Reboot,
            };
            match begin_maintenance(coordinator, action) {
                Err(reply) => Err(reply),
                Ok(start) => Ok((action, start)),
            }
        },
    }
}

/// The answer to a request for the status of the device. It is open to all, but
/// pairing is shown only with a valid token.
pub fn device_reply(auth: &AdminAuth, token: Option<&str>, status: &DeviceStatus, now: u64) -> (r:
    Reply)
    ensures
        r.is(200, json_text(device_document(status@, auth.admits(token), now))),
{
    let authenticated = auth.check(token).is_ok();
    Reply { status: 200, body: status.to_json_authenticated(authenticated, now) }
}

/// The answer to a request for the messages that are kept.
pub fn messages_reply(auth: &AdminAuth, token: Option<&str>, status: &DeviceStatus) -> (r: Reply)
    ensures
        auth.admits(token) ==> r.is(200, json_text(messages_document(status@.messages))),
        !auth.admits(token) ==> r.is(401, unauthorized()),
{
    match auth.gate(Route::Messages, token) {
        Err(reply) => reply,
        Ok(_) => Reply { status: 200, body: status.messages_json() },
    }
}

/// The answer to a request for the addresses of all sessions.
pub fn sessions_reply(auth: &AdminAuth, token: Option<&str>, addresses: &Vec<String>) -> (r: Reply)
    ensures
        auth.admits(token) ==> r.is(200, json_text(sessions_document(addresses@))),
        !auth.admits(token) ==> r.is(401, unauthorized()),
{
    match auth.gate(Route::ListSessions, token) {
        Err(reply) => reply,
        Ok(_) => Reply { status: 200, body: sessions_json(addresses) },
    }
}

/// What a request asks for: its method and its path.
pub open spec fn request_for(route: Route, method: Method, path: Seq<char>) -> bool {
    route.spec_method() == method && route.spec_path() == path
}

proof fn lemma_paths_differ()
    ensures
        "/reset"@ != "/reboot"@,
        "/reset"@ != "/sessions"@,
        "/reset"@ != "/send"@,
        "/reset"@ != "/pair-code"@,
        "/reset"@ != "/test-panic"@,
        "/reboot"@ != "/sessions"@,
        "/reboot"@ != "/send"@,
        "/reboot"@ != "/pair-code"@,
        "/reboot"@ != "/test-panic"@,
        "/send"@ != "/pair-code"@,
        "/send"@ != "/test-panic"@,
        "/pair-code"@ != "/test-panic"@,
        "/dashboard"@ != "/qrcode.min.js"@,
        "/dashboard"@ != "/"@,
        "/dashboard"@ != "/device"@,
        "/dashboard"@ != "/messages"@,
        "/dashboard"@ != "/health"@,
        "/dashboard"@ != "/metrics"@,
        "/dashboard"@ != "/sessions"@,
        "/qrcode.min.js"@ != "/"@,
        "/qrcode.min.js"@ != "/device"@,
        "/qrcode.min.js"@ != "/messages"@,
        "/qrcode.min.js"@ != "/health"@,
        "/qrcode.min.js"@ != "/metrics"@,
        "/qrcode.min.js"@ != "/sessions"@,
        "/"@ != "/device"@,
        "/"@ != "/messages"@,
        "/"@ != "/health"@,
        "/"@ != "/metrics"@,
        "/"@ != "/sessions"@,
        "/device"@ != "/messages"@,
        "/device"@ != "/health"@,
        "/device"@ != "/metrics"@,
        "/device"@ != "/sessions"@,
        "/messages"@ != "/health"@,
        "/messages"@ != "/metrics"@,
        "/messages"@ != "/sessions"@,
        "/health"@ != "/metrics"@,
        "/health"@ != "/sessions"@,
        "/metrics"@ != "/sessions"@,
{
    reveal_strlit("/dashboard");
    reveal_strlit("/qrcode.min.js");
    reveal_strlit("/");
    reveal_strlit("/device");
    reveal_strlit("/messages");
    reveal_strlit("/send");
    reveal_strlit("/pair-code");
    reveal_strlit("/health");
    reveal_strlit("/test-panic");
    reveal_strlit("/metrics");
    reveal_strlit("/reset");
    reveal_strlit("/reboot");
    reveal_strlit("/sessions");
    assert("/reset"@.len() == 6 && "/send"@.len() == 5 && "/reboot"@.len() == 7);
    assert("/sessions"@.len() == 9 && "/pair-code"@.len() == 10 && "/test-panic"@.len() == 11);
    assert("/dashboard"@.len() == 10 && "/qrcode.min.js"@.len() == 14 && "/"@.len() == 1);
    assert("/device"@.len() == 7 && "/messages"@.len() == 9 && "/health"@.len() == 7);
    assert("/metrics"@.len() == 8);
    assert("/device"@[1] == 'd' && "/health"@[1] == 'h' && "/reboot"@[1] == 'r');
    assert("/messages"@[1] == 'm' && "/sessions"@[1] == 's');
    assert("/dashboard"@[1] == 'd' && "/pair-code"@[1] == 'p');
}

/// The method and the path of a request determine what is asked for, and no two
/// routes are asked for alike: only `POST /reset` resets, only `POST /reboot` reboots,
/// only `DELETE /sessions` clears the sessions, and so on for every route.
pub proof fn requests_name_their_route(route: Route, method: Method, path: Seq<char>)
    ensures
        request_for(route, method, path) <==> match route {
            Route::Dashboard => method == Method::Get && path == "/dashboard"@,
            Route::QrRenderer => method == Method::Get && path == "/qrcode.min.js"@,
            Route::Stats => method == Method::Get && path == "/"@,
            Route::Device => method == Method::Get && path == "/device"@,
            Route::Messages => method == Method::Get && path == "/messages"@,
            Route::Send => method == Method::Post && path == "/send"@,
            Route::PairCode => method == Method::Post && path == "/pair-code"@,
            Route::Health => method == Method::Get && path == "/health"@,
            Route::TestPanic => method == Method::Post && path == "/test-panic"@,
            Route::Metrics => method == Method::Get && path == "/metrics"@,
            Route::Reset => method == Method::Post && path == "/reset"@,
            Route::Reboot => method == Method::Post && path == "/reboot"@,
            Route::ListSessions => method == Method::Get && path == "/sessions"@,
            Route::ClearSessions => method == Method::Delete && path == "/sessions"@,
        },
        forall|other: Route|
            request_for(route, method, path) && #[trigger] request_for(other, method, path)
                ==> other == route,
{
    lemma_paths_differ();
}

/// What a request for maintenance does follows from its method and path alone.
pub proof fn maintenance_follows_the_request(route: Route)
    ensures
        request_for(route, Method::Post, "/reset"@) ==> action_of(route)
            == MaintenanceAction::Reset,
        request_for(route, Method::Post, "/reboot"@) ==> action_of(route)
            == MaintenanceAction::Reboot,
        request_for(route, Method::Delete, "/sessions"@) ==> action_of(route)
            == MaintenanceAction::ClearSessions,
{
    requests_name_their_route(route, Method::Post, "/reset"@);
    requests_name_their_route(route, Method::Post, "/reboot"@);
    requests_name_their_route(route, Method::Delete, "/sessions"@);
    lemma_paths_differ();
}

/// The routes that read messages or sessions, send, link, erase or reboot are the ones
/// behind the token; whoever has no valid token gets to the others only.
pub proof fn sensitive_requests_need_the_token(route: Route)
    ensures
        route.needs_token() <==> request_for(route, Method::Get, "/messages"@) || request_for(
            route,
            Method::Post,
            "/send"@,
        ) || request_for(route, Method::Post, "/pair-code"@) || request_for(
            route,
            Method::Post,
            "/reset"@,
        ) || request_for(route, Method::Post, "/reboot"@) || request_for(
            route,
            Method::Get,
            "/sessions"@,
        ) || request_for(route, Method::Delete, "/sessions"@),
{
    lemma_paths_differ();
}

/// Without a token that is required everyone is admitted; with one, exactly those who
/// bring that very text. A request without the header counts as one with an empty text.
pub proof fn only_the_token_admits(auth: AdminAuth, token: Seq<char>, provided: Option<&str>)
    ensures
        auth.token() is None ==> auth.admits(provided),
        auth.token() == Some(token) && provided is Some ==> (auth.admits(provided) <==> (
        provided->0)@ == token),
        auth.token() == Some(token) && provided is None ==> (auth.admits(provided) <==> token.len()
            == 0),
{
    reveal_strlit("");
    if token.len() == 0 {
        assert(token =~= ""@);
    }
}

/// The head of a request with a JSON body passes exactly where it names JSON and a
/// length from one to the limit; else it is answered by the first thing that is wrong.
pub proof fn json_heads_are_checked(
    content_type: Option<&str>,
    content_len: Option<u64>,
    max_len: usize,
)
    ensures
        ({
            let is_json = content_type is Some && (content_type->0)@.len() >= 16 && (
            content_type->0)@.take(16) == "application/json"@;
            let has_len = content_len is Some && content_len->0 <= usize::MAX;
            let refusal = head_refusal(content_type, content_len, max_len);
            &&& refusal is None <==> is_json && has_len && 1 <= content_len->0 <= max_len
            &&& !is_json <==> refusal == Some(
                (415u16, "{\"error\":\"Content-Type must be application/json\"}"@),
            )
            &&& is_json && !has_len <==> refusal == Some(
                (411u16, "{\"error\":\"Content-Length required\"}"@),
            )
            &&& is_json && has_len && (content_len->0 == 0 || content_len->0 > max_len)
                <==> refusal == Some((413u16, "{\"error\":\"Invalid request size\"}"@))
        }),
{
    reveal_strlit("application/json");
    if let Some(value) = content_type {
        if value@.len() >= 16 {
            assert(value@.take(16) == value@.subrange(0, 16));
        }
    }
}

/// A body that cannot be read, and one that is no JSON, are answered; any other is
/// taken for what it holds.
pub proof fn json_bodies_are_read(body: Option<Seq<u8>>)
    ensures
        body is None ==> body_tree(body) == Err::<JsonTree, (u16, Seq<char>)>(
            (400u16, "{\"error\":\"Could not read the request body\"}"@),
        ),
        body is Some && json_parsed(body->0) is None ==> body_tree(body) == Err::<
            JsonTree,
            (u16, Seq<char>),
        >((400u16, "{\"error\":\"Invalid JSON\"}"@)),
        body is Some && json_parsed(body->0) is Some ==> body_tree(body) == Ok::<
            JsonTree,
            (u16, Seq<char>),
        >(json_parsed(body->0)->0),
{
}

/// A request to send is taken exactly where it is an object with the texts `to` and
/// `text`, the one a JID and the other not empty; what is sent is that text, to that
/// recipient, unchanged.
pub proof fn sends_say_what_is_sent(
    fields: Map<Seq<char>, JsonTree>,
    valid: spec_fn(Seq<char>) -> bool,
    to: Seq<char>,
    text: Seq<char>,
)
    ensures
        send_request_in(JsonTree::Dict(fields), valid) == Ok::<
            (Seq<char>, Seq<char>),
            (u16, Seq<char>),
        >((to, text)) <==> fields.contains_key("to"@) && fields["to"@] == JsonTree::Text(to)
            && fields.contains_key("text"@) && fields["text"@] == JsonTree::Text(text) && text.len()
            > 0 && valid(to),
        forall|tree: JsonTree|
            !(tree is Dict) ==> #[trigger] send_request_in(tree, valid) == Err::<
                (Seq<char>, Seq<char>),
                (u16, Seq<char>),
            >((400u16, "{\"error\":\"to is required\"}"@)),
        send_request_in(JsonTree::Dict(fields), valid) matches Err((status, body)) ==> status == 400
            && body == if !(fields.contains_key("to"@) && fields["to"@] is Text) {
            "{\"error\":\"to is required\"}"@
        } else if !(fields.contains_key("text"@) && fields["text"@] is Text) {
            "{\"error\":\"text is required\"}"@
        } else if fields["text"@]->Text_0.len() == 0 {
            "{\"error\":\"text is empty\"}"@
        } else {
            "{\"error\":\"to is not a JID\"}"@
        },
{
}

/// A request for a linking code is about the number under `phone_number`.
pub proof fn pairing_is_for_the_number(fields: Map<Seq<char>, JsonTree>, text: Seq<char>)
    ensures
        fields.contains_key("phone_number"@) && fields["phone_number"@] == JsonTree::Text(text)
            ==> pair_request_in(JsonTree::Dict(fields)) == phone_number_in(text),
        !(fields.contains_key("phone_number"@) && fields["phone_number"@] is Text)
            ==> pair_request_in(JsonTree::Dict(fields)) == Err::<Seq<char>, (u16, Seq<char>)>(
            (400u16, "{\"error\":\"phone_number is required\"}"@),
        ),
        forall|tree: JsonTree|
            !(tree is Dict) ==> #[trigger] pair_request_in(tree) == Err::<
                Seq<char>,
                (u16, Seq<char>),
            >((400u16, "{\"error\":\"phone_number is required\"}"@)),
{
}

/// Whether `part` is `text` with some characters left out, in the order of `places`.
pub open spec fn picked(text: Seq<char>, part: Seq<char>, places: Seq<int>) -> bool {
    &&& places.len() == part.len()
    &&& forall|k: int| 0 <= k < places.len() ==> 0 <= #[trigger] places[k] < text.len() && text[places[k]]
        == part[k]
    &&& forall|k: int, m: int| 0 <= k < m < places.len() ==> places[k] < places[m]
}

/// The places of the digits of some text.
pub open spec fn digit_places(text: Seq<char>) -> Seq<int>
    decreases text.len(),
{
    if text.len() == 0 {
        Seq::empty()
    } else if '0' <= text.last() <= '9' {
        digit_places(text.drop_last()).push(text.len() - 1)
    } else {
        digit_places(text.drop_last())
    }
}

proof fn lemma_digits(text: Seq<char>)
    ensures
        picked(text, digits_of(text), digit_places(text)),
        forall|i: int|
            0 <= i < text.len() && '0' <= #[trigger] text[i] <= '9' ==> digit_places(
                text,
            ).contains(i),
        forall|k: int| 0 <= k < digits_of(text).len() ==> '0' <= #[trigger] digits_of(text)[k] <= '9',
    decreases text.len(),
{
    if text.len() > 0 {
        let front = text.drop_last();
        lemma_digits(front);
        let places = digit_places(text);
        let before = digit_places(front);
        assert forall|k: int| 0 <= k < places.len() implies 0 <= #[trigger] places[k] < text.len()
            && text[places[k]] == digits_of(text)[k] by {
            if k < before.len() {
                assert(places[k] == before[k]);
                assert(front[before[k]] == digits_of(front)[k]);
            }
        }
        assert forall|k: int, m: int| 0 <= k < m < places.len() implies places[k] < places[m] by {
            assert(places[k] == before[k]);
            if m < before.len() {
                assert(places[m] == before[m]);
            }
        }
        assert forall|i: int|
            0 <= i < text.len() && '0' <= #[trigger] text[i] <= '9' implies places.contains(i) by {
            if i < front.len() {
                assert(front[i] == text[i]);
                let k = before.index_of(i);
                assert(places[k] == i);
            } else {
                assert(places[places.len() - 1] == i);
            }
        }
    }
}

/// A phone number is the digits of what was typed, all of them, in order: seven to
/// fifteen, the first of them no zero. Besides digits only plus signs, spaces, hyphens
/// and parentheses may be typed.
pub proof fn phone_numbers_keep_their_digits(text: Seq<char>)
    ensures
        match phone_number_in(text) {
            Ok(number) => {
                &&& 7 <= number.len() <= 15
                &&& number[0] != '0'
                &&& forall|k: int| 0 <= k < number.len() ==> '0' <= #[trigger] number[k] <= '9'
                &&& picked(text, number, digit_places(text))
                &&& forall|i: int|
                    0 <= i < text.len() ==> digit_places(text).contains(i) || #[trigger] text[i]
                        == '+' || text[i] == ' ' || text[i] == '-' || text[i] == '(' || text[i]
                        == ')'
            },
            Err((status, body)) => {
                let typed = forall|i: int|
                    0 <= i < text.len() ==> '0' <= #[trigger] text[i] <= '9' || text[i] == '+'
                        || text[i] == ' ' || text[i] == '-' || text[i] == '(' || text[i] == ')';
                let places = digit_places(text);
                &&& status == 400
                &&& typed ==> (places.len() < 7 || places.len() > 15 || text[places[0]] == '0') && body
                    == "{\"error\":\"Use 7-15 international digits without a leading zero\"}"@
                &&& !typed ==> body == "{\"error\":\"Invalid phone number\"}"@
            },
        },
{
    lemma_digits(text);
    let typed = forall|i: int|
        0 <= i < text.len() ==> '0' <= #[trigger] text[i] <= '9' || text[i] == '+' || text[i] == ' '
            || text[i] == '-' || text[i] == '(' || text[i] == ')';
    let all = forall|i: int| 0 <= i < text.len() ==> is_phone_char(#[trigger] text[i]);
    assert(typed <==> all) by {
        if typed {
            assert forall|i: int| 0 <= i < text.len() implies is_phone_char(#[trigger] text[i]) by {}
        }
        if all {
            assert forall|i: int| 0 <= i < text.len() implies '0' <= #[trigger] text[i] <= '9'
                || text[i] == '+' || text[i] == ' ' || text[i] == '-' || text[i] == '(' || text[i]
                == ')' by {
                assert(is_phone_char(text[i]));
            }
        }
    }
    if phone_number_in(text) is Ok {
        assert forall|i: int| 0 <= i < text.len() implies digit_places(text).contains(i)
            || #[trigger] text[i] == '+' || text[i] == ' ' || text[i] == '-' || text[i] == '('
            || text[i] == ')' by {
            assert(is_phone_char(text[i]));
        }
    }
}

/// The answers that are documents hold what they are about, each under its name.
pub proof fn answers_hold_what_they_are_about(
    message: Seq<char>,
    id: Seq<char>,
    to: Seq<char>,
    addresses: Seq<String>,
)
    ensures
        error_document(message) matches JsonTree::Dict(fields) && fields.dom() == set!["error"@]
            && fields["error"@] == JsonTree::Text(message),
        sent_document(id, to) matches JsonTree::Dict(fields) && fields.dom() == set![
            "result"@,
            "message_id"@,
            "to"@,
        ] && fields["result"@] == JsonTree::Text("sent"@) && fields["message_id"@]
            == JsonTree::Text(id) && fields["to"@] == JsonTree::Text(to),
        sessions_document(addresses) matches JsonTree::Dict(fields) && fields.dom() == set![
            "count"@,
            "addresses"@,
        ] && fields["count"@] == JsonTree::Number(addresses.len() as int) && (
        fields["addresses"@] matches JsonTree::List(items) && items.len() == addresses.len()
            && forall|i: int|
            0 <= i < addresses.len() ==> items[i] == JsonTree::Text((#[trigger] addresses[i])@)),
{
    reveal_strlit("error");
    reveal_strlit("result");
    reveal_strlit("message_id");
    reveal_strlit("to");
    reveal_strlit("count");
    reveal_strlit("addresses");
    assert("result"@.len() == 6 && "message_id"@.len() == 10 && "to"@.len() == 2);
    assert("count"@.len() == 5 && "addresses"@.len() == 9);
    assert(error_document(message)->Dict_0.dom() =~= set!["error"@]);
    assert(sent_document(id, to)->Dict_0.dom() =~= set!["result"@, "message_id"@, "to"@]);
    assert(sessions_document(addresses)->Dict_0.dom() =~= set!["count"@, "addresses"@]);
}

/// The counts are shown each under its own name.
pub proof fn stats_are_shown_by_name(heap_free: u32, heap_internal: u32, stats: StoreStats)
    ensures
        stats_document(heap_free, heap_internal, stats) matches JsonTree::Dict(fields)
            && fields.dom() == set![
            "status"@,
            "heap_free"@,
            "heap_internal"@,
            "sessions"@,
            "identities"@,
            "prekeys"@,
            "sender_keys"@,
            "device_paired"@,
        ] && fields["status"@] == JsonTree::Text("running"@) && fields["heap_free"@]
            == JsonTree::Number(heap_free as int) && fields["heap_internal"@] == JsonTree::Number(
            heap_internal as int,
        ) && fields["sessions"@] == JsonTree::Number(stats.sessions as int)
            && fields["identities"@] == JsonTree::Number(stats.identities as int)
            && fields["prekeys"@] == JsonTree::Number(stats.prekeys as int)
            && fields["sender_keys"@] == JsonTree::Number(stats.sender_keys as int)
            && fields["device_paired"@] == JsonTree::Bool(stats.device_exists),
{
    reveal_strlit("status");
    reveal_strlit("heap_free");
    reveal_strlit("heap_internal");
    reveal_strlit("sessions");
    reveal_strlit("identities");
    reveal_strlit("prekeys");
    reveal_strlit("sender_keys");
    reveal_strlit("device_paired");
    assert("heap_internal"@[0] == 'h' && "device_paired"@[0] == 'd');
    assert("status"@.len() == 6 && "heap_free"@.len() == 9 && "heap_internal"@.len() == 13);
    assert("sessions"@.len() == 8 && "identities"@.len() == 10 && "prekeys"@.len() == 7);
    assert("sender_keys"@.len() == 11 && "device_paired"@.len() == 13);
    assert(stats_document(heap_free, heap_internal, stats)->Dict_0.dom() =~= set![
        "status"@,
        "heap_free"@,
        "heap_internal"@,
        "sessions"@,
        "identities"@,
        "prekeys"@,
        "sender_keys"@,
        "device_paired"@,
    ]);
}

/// The interface listens on port 8081, a code is good for three minutes, and nothing is
/// waited for longer than half a minute.
pub proof fn waits_are_bounded()
    ensures
        ADMIN_PORT == 8081,
        TOKEN_HEADER@ == "x-admin-token"@,
        SEND_TIMEOUT_MS == 30000,
        PAIR_SOCKET_WAIT_MS == 30000,
        PAIR_CODE_VALID_US == 180000000,
        MAX_SEND_BODY == 2048,
        MAX_PAIR_BODY == 128,
        RECONNECTED@ == "WhatsApp client reconnected; try again"@,
        PAIR_CODE_FAILED@ == "Could not generate a pairing code; try again later"@,
        EXECUTOR_UNAVAILABLE@ == "WhatsApp executor is unavailable"@,
{
}

/// An answer is its status and its body, and a request's body is its bytes.
pub proof fn answers_are_status_and_body(
    reply: Reply,
    status: u16,
    body: Seq<char>,
    request: &[u8],
)
    ensures
        reply.is(status, body) <==> reply.status == status && reply.body@ == body,
        unauthorized() == "{\"error\":\"A valid X-Admin-Token header is required\"}"@,
        bytes_view(Some(request)) == Some(request@),
        bytes_view(None) is None,
{
}

} // verus!
