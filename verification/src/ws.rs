//! The client half of the WebSocket protocol (RFC 6455), as far as WhatsApp
//! uses it: unfragmented and fragmented data frames, ping, pong and close.
//!
//! The reader is fed the bytes of the stream as they arrive and keeps its place
//! between calls. Each payload is allocated once, at its declared size, and is
//! handed over with one owner. The HTTP upgrade before the first frame is in
//! `ws_handshake`.

use crate::buffers::{buffered, buffered_bytes, content};
use crate::text::utf8_text;
use bytes::{Bytes, BytesMut};
use vstd::prelude::*;
use vstd::utf8::{decode_utf8, valid_utf8};

verus! {

/// Control frame payloads are capped by the protocol.
pub const MAX_CONTROL_PAYLOAD: usize = 125;

pub const OP_CONTINUATION: u8 = 0x0;

pub const OP_TEXT: u8 = 0x1;

pub const OP_BINARY: u8 = 0x2;

pub const OP_CLOSE: u8 = 0x8;

pub const OP_PING: u8 = 0x9;

pub const OP_PONG: u8 = 0xA;

/// Upper bounds a peer can make this side allocate towards.
#[derive(Clone, Copy, Debug)]
pub struct Limits {
    /// Largest single data frame accepted; the payload is allocated at this
    /// size at most, before any of it has arrived.
    pub max_frame_size: usize,
    /// Largest reassembled fragmented message accepted.
    pub max_message_size: usize,
}

impl Limits {
    /// Limits that one allocation can hold.
    pub open spec fn wf(self) -> bool {
        self.max_frame_size <= usize::MAX / 4 && self.max_message_size <= usize::MAX / 4
    }
}

/// What is wrong with the frames of a stream.
#[derive(Clone, Copy, Debug, PartialEq, Eq, Structural)]
pub enum WsError {
    ReservedBits,
    Masked,
    LengthOverflow,
    FragmentedControl,
    ControlTooLong,
    ContinuationAlone,
    MessageTooLong,
    FrameTooLong,
    DataInsideMessage,
    ReservedOpcode,
    OneByteClose,
    CloseReasonNotUtf8,
}

impl WsError {
    /// The sentence for `message`.
    pub open spec fn spec_message(self) -> Seq<char> {
        match self {
            WsError::ReservedBits => "websocket: reserved bits set"@,
            WsError::Masked => "websocket: server frame is masked"@,
            WsError::LengthOverflow => "websocket: frame length overflows usize"@,
            WsError::FragmentedControl => "websocket: fragmented control frame"@,
            WsError::ControlTooLong => "websocket: control frame payload over 125 bytes"@,
            WsError::ContinuationAlone => "websocket: continuation frame without a message"@,
            WsError::MessageTooLong => "websocket: fragmented message over the size limit"@,
            WsError::FrameTooLong => "websocket: frame over the size limit"@,
            WsError::DataInsideMessage => "websocket: new data frame inside a fragmented message"@,
            WsError::ReservedOpcode => "websocket: reserved opcode"@,
            WsError::OneByteClose => "websocket: close frame with a 1-byte payload"@,
            WsError::CloseReasonNotUtf8 => "websocket: close reason is not UTF-8"@,
        }
    }

    /// A sentence for a log.
    pub fn message(&self) -> (r: &'static str)
        ensures
            r@ == self.spec_message(),
    {
        match *self {
            WsError::ReservedBits => "websocket: reserved bits set",
            WsError::Masked => "websocket: server frame is masked",
            WsError::LengthOverflow => "websocket: frame length overflows usize",
            WsError::FragmentedControl => "websocket: fragmented control frame",
            WsError::ControlTooLong => "websocket: control frame payload over 125 bytes",
            WsError::ContinuationAlone => "websocket: continuation frame without a message",
            WsError::MessageTooLong => "websocket: fragmented message over the size limit",
            WsError::FrameTooLong => "websocket: frame over the size limit",
            WsError::DataInsideMessage => "websocket: new data frame inside a fragmented message",
            WsError::ReservedOpcode => "websocket: reserved opcode",
            WsError::OneByteClose => "websocket: close frame with a 1-byte payload",
            WsError::CloseReasonNotUtf8 => "websocket: close reason is not UTF-8",
        }
    }
}

/// One complete frame, or one reassembled message, from the server.
#[derive(Debug)]
pub enum Frame {
    /// A binary message. The `Bytes` has exactly one owner: the caller.
    Binary(Bytes),
    /// A text message; WhatsApp never sends one, but the protocol allows it.
    Text(Bytes),
    /// The server asked for a pong carrying this payload.
    Ping(Bytes),
    /// A pong; unsolicited ones are legal and ignored.
    Pong(Bytes),
    /// The server is closing, with the status code and reason if it sent them.
    Close(Option<(u16, String)>),
}

/// What a frame says.
pub enum FrameView {
    Binary(Seq<u8>),
    Text(Seq<u8>),
    Ping(Seq<u8>),
    Pong(Seq<u8>),
    Close(Option<(u16, Seq<char>)>),
}

impl View for Frame {
    type V = FrameView;

    open spec fn view(&self) -> FrameView {
        match *self {
            Frame::Binary(b) => FrameView::Binary(content(b)),
            Frame::Text(b) => FrameView::Text(content(b)),
            Frame::Ping(b) => FrameView::Ping(content(b)),
            Frame::Pong(b) => FrameView::Pong(content(b)),
            Frame::Close(None) => FrameView::Close(None),
            Frame::Close(Some((code, reason))) => FrameView::Close(Some((code, reason@))),
        }
    }
}

/// The number that bytes write, the most significant first.
pub open spec fn be_value(bytes: Seq<u8>) -> nat
    decreases bytes.len(),
{
    if bytes.len() == 0 {
        0
    } else {
        be_value(bytes.drop_last()) * 256 + bytes.last() as nat
    }
}

/// A frame header at the front of some bytes.
pub enum Head {
    /// The bytes end within it.
    Short,
    /// Its first two bytes are not those of a server frame.
    Refused(WsError),
    /// A header of `len` bytes, before a payload of `size`.
    Whole { fin: bool, opcode: u8, len: int, size: nat },
}

/// How long a header is whose second byte gives this length.
pub open spec fn head_len(len7: u8) -> int {
    if len7 == 126 {
        4
    } else if len7 == 127 {
        10
    } else {
        2
    }
}

/// The header at the front of `raw`.
pub open spec fn head_at(raw: Seq<u8>) -> Head {
    if raw.len() < 2 {
        Head::Short
    } else if raw[0] & 0x70 != 0 {
        Head::Refused(WsError::ReservedBits)
    } else if raw[1] & 0x80 != 0 {
        Head::Refused(WsError::Masked)
    } else {
        let len7 = raw[1] & 0x7f;
        let len = head_len(len7);
        if raw.len() < len {
            Head::Short
        } else {
            Head::Whole {
                fin: raw[0] & 0x80 != 0,
                opcode: raw[0] & 0x0f,
                len,
                size: if len == 2 { len7 as nat } else { be_value(raw.subrange(2, len)) },
            }
        }
    }
}

/// A fragmented message so far: the opcode of its first fragment, its bytes.
pub type PartialView = Option<(u8, Seq<u8>)>;

/// Why a frame is refused on its header alone, before anything is allocated
/// for it.
pub open spec fn refusal(
    limits: Limits,
    partial: PartialView,
    fin: bool,
    opcode: u8,
    size: nat,
) -> Option<WsError> {
    if size > usize::MAX {
        Some(WsError::LengthOverflow)
    } else if opcode == OP_CLOSE || opcode == OP_PING || opcode == OP_PONG {
        if !fin {
            Some(WsError::FragmentedControl)
        } else if size > MAX_CONTROL_PAYLOAD {
            Some(WsError::ControlTooLong)
        } else {
            None
        }
    } else if opcode == OP_CONTINUATION {
        match partial {
            None => Some(WsError::ContinuationAlone),
            Some((_, so_far)) => if so_far.len() + size > limits.max_message_size {
                Some(WsError::MessageTooLong)
            } else if size > limits.max_frame_size {
                Some(WsError::FrameTooLong)
            } else {
                None
            },
        }
    } else if opcode == OP_TEXT || opcode == OP_BINARY {
        if partial is Some {
            Some(WsError::DataInsideMessage)
        } else if size > limits.max_frame_size {
            Some(WsError::FrameTooLong)
        } else if !fin && size > limits.max_message_size {
            Some(WsError::MessageTooLong)
        } else {
            None
        }
    } else {
        Some(WsError::ReservedOpcode)
    }
}

/// What the payload of a close frame says: nothing, or a code and a reason.
pub open spec fn close_of(payload: Seq<u8>) -> Result<Option<(u16, Seq<char>)>, WsError> {
    if payload.len() == 0 {
        Ok(None)
    } else if payload.len() == 1 {
        Err(WsError::OneByteClose)
    } else if !valid_utf8(payload.skip(2)) {
        Err(WsError::CloseReasonNotUtf8)
    } else {
        Ok(Some(((payload[0] * 256 + payload[1]) as u16, decode_utf8(payload.skip(2)))))
    }
}

/// What a complete frame amounts to.
pub enum Delivery {
    /// The caller sees this.
    Message(FrameView),
    /// It is a fragment: the message goes on.
    Folded,
    Refused(WsError),
}

/// A message of the kind that `opcode` begins.
pub open spec fn message_of(opcode: u8, data: Seq<u8>) -> FrameView {
    if opcode == OP_TEXT {
        FrameView::Text(data)
    } else {
        FrameView::Binary(data)
    }
}

/// What a complete frame amounts to, and the message in progress after it.
pub open spec fn delivery(partial: PartialView, fin: bool, opcode: u8, payload: Seq<u8>) -> (
    PartialView,
    Delivery,
) {
    if opcode == OP_PING {
        (partial, Delivery::Message(FrameView::Ping(payload)))
    } else if opcode == OP_PONG {
        (partial, Delivery::Message(FrameView::Pong(payload)))
    } else if opcode == OP_CLOSE {
        match close_of(payload) {
            Ok(close) => (partial, Delivery::Message(FrameView::Close(close))),
            Err(e) => (partial, Delivery::Refused(e)),
        }
    } else if opcode == OP_CONTINUATION {
        let (first, so_far) = partial->0;
        if fin {
            (None, Delivery::Message(message_of(first, so_far + payload)))
        } else {
            (Some((first, so_far + payload)), Delivery::Folded)
        }
    } else if fin {
        (partial, Delivery::Message(message_of(opcode, payload)))
    } else {
        (Some((opcode, payload)), Delivery::Folded)
    }
}

/// Where reading on comes to.
pub enum Outcome {
    /// The bytes end within a frame.
    NeedInput,
    Refused(WsError),
    /// A fragment was folded into its message; reading goes on after it.
    Folded,
    Message(FrameView),
}

/// What reading on does: of the bytes from the current frame's start on, `used`
/// are done with and the `held` after them are kept.
pub struct Step {
    pub partial: PartialView,
    pub used: int,
    pub held: int,
    pub outcome: Outcome,
}

/// What reading does with the frame at the front of `raw`.
#[verifier::opaque]
pub open spec fn frame_from(limits: Limits, partial: PartialView, raw: Seq<u8>) -> Step {
    match head_at(raw) {
        Head::Short => Step { partial, used: 0, held: raw.len() as int, outcome: Outcome::NeedInput },
        Head::Refused(e) => Step { partial, used: 0, held: 2, outcome: Outcome::Refused(e) },
        Head::Whole { fin, opcode, len, size } => {
            let n = len + size;
            match refusal(limits, partial, fin, opcode, size) {
                Some(e) => Step { partial, used: len, held: 0, outcome: Outcome::Refused(e) },
                None => if raw.len() < n {
                    Step { partial, used: 0, held: raw.len() as int, outcome: Outcome::NeedInput }
                } else {
                    let (then_partial, delivered) = delivery(
                        partial,
                        fin,
                        opcode,
                        raw.subrange(len, n),
                    );
                    Step {
                        partial: then_partial,
                        used: n,
                        held: 0,
                        outcome: match delivered {
                            Delivery::Message(m) => Outcome::Message(m),
                            Delivery::Refused(e) => Outcome::Refused(e),
                            Delivery::Folded => Outcome::Folded,
                        },
                    }
                },
            }
        },
    }
}

/// The same step, taken `n` bytes further on.
pub open spec fn later(n: int, step: Step) -> Step {
    Step { used: n + step.used, ..step }
}

/// What reading does with the bytes `raw`, which begin at a frame's start: it
/// goes on through fragments until a message is whole or a frame is refused.
#[verifier::opaque]
pub open spec fn step_from(limits: Limits, partial: PartialView, raw: Seq<u8>) -> Step
    decreases raw.len(),
    via step_shrinks
{
    let step = frame_from(limits, partial, raw);
    if step.outcome is Folded {
        later(step.used, step_from(limits, step.partial, raw.skip(step.used)))
    } else {
        step
    }
}

#[via_fn]
proof fn step_shrinks(limits: Limits, partial: PartialView, raw: Seq<u8>) {
    reveal(frame_from);
}

/// The number that bytes write, the most significant first.
fn be_number(bytes: &[u8]) -> (r: u64)
    requires
        bytes@.len() <= 8,
    ensures
        r == be_value(bytes@),
{
    let mut value: u64 = 0;
    let mut i: usize = 0;
    while i < bytes.len()
        invariant
            i <= bytes@.len() <= 8,
            value == be_value(bytes@.take(i as int)),
            value < pow256(i as nat),
        decreases bytes@.len() - i,
    {
        proof {
            let next = bytes@.take(i + 1);
            assert(next.drop_last() =~= bytes@.take(i as int));
            reveal_with_fuel(pow256, 9);
        }
        value = value * 256 + bytes[i] as u64;
        i += 1;
    }
    assert(bytes@.take(i as int) =~= bytes@);
    value
}

/// 256 to the power of `n`.
pub open spec fn pow256(n: nat) -> nat
    decreases n,
{
    if n == 0 {
        1
    } else {
        256 * pow256((n - 1) as nat)
    }
}

/// A frame whose header has been parsed and whose payload is still arriving.
struct Incoming {
    fin: bool,
    opcode: u8,
    size: usize,
    payload: BytesMut,
}

/// A fragmented message being reassembled across continuation frames.
struct Partial {
    opcode: u8,
    buf: BytesMut,
}

/// The frame reader: its place in the current frame, and the fragmented message
/// in progress.
pub struct FrameReader {
    limits: Limits,
    /// The largest header is two bytes and an eight byte length: server frames
    /// carry no mask key.
    header: [u8; 10],
    header_len: usize,
    incoming: Option<Incoming>,
    partial: Option<Partial>,
}

impl FrameReader {
    /// The bounds that the reader keeps.
    pub closed spec fn limits(&self) -> Limits {
        self.limits
    }

    /// The fragmented message in progress.
    pub closed spec fn partial(&self) -> PartialView {
        match self.partial {
            Some(p) => Some((p.opcode, buffered(p.buf))),
            None => None,
        }
    }

    /// The bytes of the current frame that have arrived.
    pub closed spec fn raw(&self) -> Seq<u8> {
        self.header@.take(self.header_len as int) + match self.incoming {
            Some(inc) => buffered(inc.payload),
            None => Seq::empty(),
        }
    }

    spec fn has_incoming(&self, inc: Incoming) -> bool {
        let header = self.header@.take(self.header_len as int);
        &&& head_at(header) == (Head::Whole {
            fin: inc.fin,
            opcode: inc.opcode,
            len: self.header_len as int,
            size: inc.size as nat,
        })
        &&& refusal(self.limits, self.partial(), inc.fin, inc.opcode, inc.size as nat) is None
        &&& buffered(inc.payload).len() <= inc.size
    }

    spec fn sound(&self) -> bool {
        &&& self.limits.wf()
        &&& self.header_len <= 10
        &&& self.partial matches Some(p) ==> (p.opcode == OP_TEXT || p.opcode == OP_BINARY)
            && buffered(p.buf).len() <= self.limits.max_message_size
        &&& self.incoming matches Some(inc) ==> self.has_incoming(inc)
    }

    /// The reader stands within a frame, or at a frame that it refused for its
    /// first two bytes.
    pub closed spec fn wf(&self) -> bool {
        &&& self.sound()
        &&& match self.incoming {
            Some(inc) => buffered(inc.payload).len() < inc.size,
            None => {
                let head = head_at(self.header@.take(self.header_len as int));
                head is Short || (head is Refused && self.header_len == 2)
            },
        }
    }

    /// A reader at the start of a stream.
    pub fn new(limits: Limits) -> (r: FrameReader)
        requires
            limits.wf(),
        ensures
            r.wf(),
            r.limits() == limits,
            r.partial() is None,
            r.raw() == Seq::<u8>::empty(),
    {
        let r = FrameReader {
            limits,
            header: [0; 10],
            header_len: 0,
            incoming: None,
            partial: None,
        };
        assert(r.raw() =~= Seq::<u8>::empty());
        r
    }

    /// How many more bytes belong to the header, or to the payload, that the
    /// reader stands in.
    pub fn wanted(&self) -> (n: usize)
        requires
            self.wf(),
        ensures
            n == wanted_after(self.raw()),
    {
        let ghost header = self.header@.take(self.header_len as int);
        match &self.incoming {
            Some(inc) => {
                proof {
                    lemma_head_stays(header, buffered(inc.payload));
                }
                inc.size - buffered_bytes(&inc.payload).len()
            },
            None => {
                assert(self.raw() =~= header);
                if self.header_len < 2 {
                    return 2 - self.header_len;
                }
                let b0 = self.header[0];
                let b1 = self.header[1];
                assert(b0 == header[0] && b1 == header[1]);
                if b0 & 0x70 != 0 || b1 & 0x80 != 0 {
                    return 0;
                }
                let len7: u8 = b1 & 0x7f;
                let total: usize = if len7 == 126 {
                    4
                } else {
                    10
                };
                total - self.header_len
            },
        }
    }

    /// Takes bytes of `input` into the header until it has `total`.
    fn fill_header(&mut self, input: &[u8], total: usize) -> (used: usize)
        requires
            old(self).sound(),
            old(self).incoming is None,
            old(self).header_len <= total <= 10,
        ensures
            final(self).limits == old(self).limits,
            final(self).partial == old(self).partial,
            final(self).incoming is None,
            used <= input@.len(),
            final(self).header_len == old(self).header_len + used,
            final(self).header_len <= total,
            final(self).header_len < total ==> used == input@.len(),
            final(self).raw() == (old(self).raw() + input@).take(final(self).header_len as int),
            final(self).raw() == final(self).header@.take(final(self).header_len as int),
            final(self).sound(),
    {
        let mut used: usize = 0;
        assert(self.raw() =~= (old(self).raw() + input@).take(self.header_len as int));
        while self.header_len < total && used < input.len()
            invariant
                self.limits == old(self).limits,
                self.partial == old(self).partial,
                self.incoming is None,
                self.sound(),
                total <= 10,
                used <= input@.len(),
                self.header_len <= total,
                self.header_len == old(self).header_len + used,
                old(self).raw().len() == old(self).header_len,
                self.raw() == (old(self).raw() + input@).take(self.header_len as int),
            decreases input@.len() - used,
        {
            let ghost before = self.raw();
            let ghost n = self.header_len;
            assert(before.len() == n);
            assert(self.header@.take(n as int) =~= before);
            self.header[self.header_len] = input[used];
            self.header_len += 1;
            used += 1;
            assert(self.header@.take(n as int) =~= before);
            assert(self.raw() =~= before.push(input@[used - 1]));
            assert(self.raw() =~= (old(self).raw() + input@).take(self.header_len as int));
        }
        assert(self.raw() =~= self.header@.take(self.header_len as int));
        used
    }

    /// Why a frame with this header is refused, if it is.
    fn check_frame(&self, fin: bool, opcode: u8, size: usize) -> (r: Option<WsError>)
        requires
            self.sound(),
        ensures
            r == refusal(self.limits, self.partial(), fin, opcode, size as nat),
    {
        if opcode == OP_CLOSE || opcode == OP_PING || opcode == OP_PONG {
            if !fin {
                Some(WsError::FragmentedControl)
            } else if size > MAX_CONTROL_PAYLOAD {
                Some(WsError::ControlTooLong)
            } else {
                None
            }
        } else if opcode == OP_CONTINUATION {
            match &self.partial {
                None => Some(WsError::ContinuationAlone),
                Some(partial) => {
                    let so_far = buffered_bytes(&partial.buf).len();
                    if size > self.limits.max_message_size - so_far {
                        Some(WsError::MessageTooLong)
                    } else if size > self.limits.max_frame_size {
                        Some(WsError::FrameTooLong)
                    } else {
                        None
                    }
                },
            }
        } else if opcode == OP_TEXT || opcode == OP_BINARY {
            if self.partial.is_some() {
                Some(WsError::DataInsideMessage)
            } else if size > self.limits.max_frame_size {
                Some(WsError::FrameTooLong)
            } else if !fin && size > self.limits.max_message_size {
                Some(WsError::MessageTooLong)
            } else {
                None
            }
        } else {
            Some(WsError::ReservedOpcode)
        }
    }

    /// Accumulates and parses a frame header: how many bytes it took, and
    /// whether the header is complete.
    fn read_header(&mut self, input: &[u8]) -> (r: (usize, Result<bool, WsError>))
        requires
            old(self).wf(),
            old(self).incoming is None,
        ensures
            final(self).sound(),
            final(self).limits == old(self).limits,
            final(self).partial == old(self).partial,
            r.0 <= input@.len(),
            ({
                let raw = old(self).raw() + input@;
                match head_at(raw) {
                    Head::Short => {
                        &&& r.1 == Ok::<bool, WsError>(false)
                        &&& final(self).incoming is None
                        &&& final(self).wf()
                        &&& final(self).raw() == raw
                        &&& r.0 == input@.len()
                    },
                    Head::Refused(e) => {
                        &&& r.1 == Err::<bool, WsError>(e)
                        &&& final(self).incoming is None
                        &&& final(self).wf()
                        &&& final(self).raw() == raw.take(2)
                        &&& r.0 == 2 - old(self).raw().len()
                    },
                    Head::Whole { fin, opcode, len, size } => {
                        &&& r.0 == len - old(self).raw().len()
                        &&& match refusal(old(self).limits, old(self).partial(), fin, opcode, size) {
                            Some(e) => {
                                &&& r.1 == Err::<bool, WsError>(e)
                                &&& final(self).incoming is None
                                &&& final(self).wf()
                                &&& final(self).raw() == Seq::<u8>::empty()
                            },
                            None => {
                                &&& r.1 == Ok::<bool, WsError>(true)
                                &&& final(self).incoming is Some
                                &&& (final(self).incoming->0).fin == fin
                                &&& (final(self).incoming->0).opcode == opcode
                                &&& (final(self).incoming->0).size == size
                                &&& buffered((final(self).incoming->0).payload).len() == 0
                                &&& final(self).raw() == raw.take(len)
                            },
                        }
                    },
                }
            }),
    {
        let ghost raw = self.raw() + input@;
        assert(old(self).raw() =~= old(self).header@.take(old(self).header_len as int));
        // The first two bytes say how long the rest of the header is.
        let mut used: usize = 0;
        if self.header_len < 2 {
            used = self.fill_header(input, 2);
            if self.header_len < 2 {
                assert(self.raw() =~= raw);
                return (used, Ok(false));
            }
        }
        assert(self.raw() =~= raw.take(self.header_len as int));
        let b0 = self.header[0];
        let b1 = self.header[1];
        assert(b0 == raw[0] && b1 == raw[1]) by {
            assert(self.raw()[0] == self.header@.take(self.header_len as int)[0]);
            assert(self.raw()[1] == self.header@.take(self.header_len as int)[1]);
        }
        if b0 & 0x70 != 0 {
            return (used, Err(WsError::ReservedBits));
        }
        if b1 & 0x80 != 0 {
            // A client has to refuse a masked server frame.
            return (used, Err(WsError::Masked));
        }
        let len7: u8 = b1 & 0x7f;
        let total: usize = if len7 == 126 {
            4
        } else if len7 == 127 {
            10
        } else {
            2
        };
        assert(total == head_len(len7));
        let ghost mid = *self;
        let rest = &input[used..input.len()];
        let more = self.fill_header(rest, total);
        used += more;
        assert(mid.raw() + rest@ =~= raw);
        assert(self.raw() =~= raw.take(self.header_len as int));
        if self.header_len < total {
            assert(self.raw() =~= raw);
            return (used, Ok(false));
        }
        assert(head_at(raw.take(total as int)) == head_at(raw)) by {
            assert(raw.take(total as int).subrange(2, total as int) =~= raw.subrange(
                2,
                total as int,
            ));
        }
        let size = self.declared_size(len7, total);
        assert(self.raw() =~= self.header@.take(total as int));
        (used, self.begin_payload(b0 & 0x80 != 0, b0 & 0x0f, size))
    }

    /// The size that a complete header declares, `None` beyond the address space.
    fn declared_size(&self, len7: u8, total: usize) -> (r: Option<usize>)
        requires
            self.header_len == total,
            total == head_len(len7),
        ensures
            ({
                let header = self.header@.take(total as int);
                let size = if total == 2 {
                    len7 as nat
                } else {
                    be_value(header.subrange(2, total as int))
                };
                r == if size > usize::MAX {
                    None
                } else {
                    Some(size as usize)
                }
            }),
    {
        if total == 2 {
            return Some(len7 as usize);
        }
        let field = &self.header[2..total];
        assert(field@ =~= self.header@.take(total as int).subrange(2, total as int));
        let value: u64 = be_number(field);
        if value > usize::MAX as u64 {
            None
        } else {
            Some(value as usize)
        }
    }

    /// Begins the payload of a frame whose header is complete, or drops the header
    /// where the frame is refused.
    fn begin_payload(&mut self, fin: bool, opcode: u8, size: Option<usize>) -> (r: Result<
        bool,
        WsError,
    >)
        requires
            old(self).sound(),
            old(self).incoming is None,
            old(self).header_len <= 10,
            ({
                let header = old(self).header@.take(old(self).header_len as int);
                head_at(header) matches Head::Whole { fin: f, opcode: o, len, size: n } && f == fin
                    && o == opcode && len == old(self).header_len && size == if n > usize::MAX {
                    None
                } else {
                    Some(n as usize)
                }
            }),
        ensures
            final(self).sound(),
            final(self).limits == old(self).limits,
            final(self).partial == old(self).partial,
            ({
                let header = old(self).header@.take(old(self).header_len as int);
                let size = head_at(header)->size;
                match refusal(old(self).limits, old(self).partial(), fin, opcode, size) {
                    Some(e) => {
                        &&& r == Err::<bool, WsError>(e)
                        &&& final(self).incoming is None
                        &&& final(self).wf()
                        &&& final(self).raw() == Seq::<u8>::empty()
                    },
                    None => {
                        &&& r == Ok::<bool, WsError>(true)
                        &&& final(self).incoming is Some
                        &&& (final(self).incoming->0).fin == fin
                        &&& (final(self).incoming->0).opcode == opcode
                        &&& (final(self).incoming->0).size == size
                        &&& buffered((final(self).incoming->0).payload).len() == 0
                        &&& final(self).raw() == header
                    },
                }
            }),
    {
        let refused = match size {
            None => Some(WsError::LengthOverflow),
            Some(size) => self.check_frame(fin, opcode, size),
        };
        match (refused, size) {
            (None, Some(size)) => {
                // One allocation, exactly the declared size.
                let payload = BytesMut::with_capacity(size);
                self.incoming = Some(Incoming { fin, opcode, size, payload });
                assert(self.raw() =~= self.header@.take(self.header_len as int));
                Ok(true)
            },
            (Some(e), _) => {
                self.header_len = 0;
                assert(self.raw() =~= Seq::<u8>::empty());
                Err(e)
            },
            (None, None) => {
                assert(false);
                Ok(false)
            },
        }
    }

    /// Turns a complete frame into what the caller sees, or folds it into the
    /// fragmented message in progress.
    fn dispatch(&mut self, inc: Incoming) -> (r: Result<Option<Frame>, WsError>)
        requires
            old(self).sound(),
            old(self).incoming is None,
            old(self).header_len == 0,
            refusal(old(self).limits, old(self).partial(), inc.fin, inc.opcode, inc.size as nat) is None,
            buffered(inc.payload).len() == inc.size,
        ensures
            final(self).wf(),
            final(self).limits == old(self).limits,
            final(self).raw() == Seq::<u8>::empty(),
            ({
                let (partial, delivered) = delivery(
                    old(self).partial(),
                    inc.fin,
                    inc.opcode,
                    buffered(inc.payload),
                );
                &&& final(self).partial() == partial
                &&& match delivered {
                    Delivery::Message(m) => r matches Ok(Some(frame)) && frame@ == m,
                    Delivery::Folded => r matches Ok(None),
                    Delivery::Refused(e) => r == Err::<Option<Frame>, WsError>(e),
                }
            }),
    {
        assert(self.raw() =~= Seq::<u8>::empty());
        let Incoming { fin, opcode, size, payload } = inc;
        if opcode == OP_PING {
            Ok(Some(Frame::Ping(payload.freeze())))
        } else if opcode == OP_PONG {
            Ok(Some(Frame::Pong(payload.freeze())))
        } else if opcode == OP_CLOSE {
            match parse_close(buffered_bytes(&payload)) {
                Ok(close) => Ok(Some(Frame::Close(close))),
                Err(e) => Err(e),
            }
        } else if opcode == OP_CONTINUATION {
            match self.partial.take() {
                Some(mut partial) => {
                    partial.buf.extend_from_slice(buffered_bytes(&payload));
                    if fin {
                        let data = partial.buf.freeze();
                        assert(self.raw() =~= Seq::<u8>::empty());
                        if partial.opcode == OP_TEXT {
                            Ok(Some(Frame::Text(data)))
                        } else {
                            Ok(Some(Frame::Binary(data)))
                        }
                    } else {
                        self.partial = Some(partial);
                        assert(self.raw() =~= Seq::<u8>::empty());
                        Ok(None)
                    }
                },
                None => {
                    assert(false);
                    Ok(None)
                },
            }
        } else if fin {
            let data = payload.freeze();
            if opcode == OP_TEXT {
                Ok(Some(Frame::Text(data)))
            } else {
                Ok(Some(Frame::Binary(data)))
            }
        } else {
            // First fragment: its buffer becomes the accumulator.
            self.partial = Some(Partial { opcode, buf: payload });
            assert(self.raw() =~= Seq::<u8>::empty());
            Ok(None)
        }
    }

    /// Makes progress on the frame that the reader stands in, and no further:
    /// `Ok(None)` with all of `input` taken, or with a fragment folded in.
    fn read_one(&mut self, input: &[u8]) -> (r: (usize, Result<Option<Frame>, WsError>, bool))
        requires
            old(self).wf(),
        ensures
            final(self).wf(),
            final(self).limits() == old(self).limits(),
            r.0 <= input@.len(),
            ({
                let raw = old(self).raw() + input@;
                let step = frame_from(old(self).limits(), old(self).partial(), raw);
                &&& 0 <= step.used
                &&& 0 <= step.held
                &&& step.used + step.held <= raw.len()
                &&& step.outcome is Folded ==> step.used > 0
                &&& final(self).partial() == step.partial
                &&& final(self).raw() == raw.subrange(step.used, step.used + step.held)
                &&& r.0 == step.used + step.held - old(self).raw().len()
                &&& r.2 == (step.outcome is Folded)
                &&& step_result(step.outcome, r.1)
            }),
    {
        reveal(frame_from);
        let ghost raw = self.raw() + input@;
        let mut used: usize = 0;
        if self.incoming.is_none() {
            let (n, outcome) = self.read_header(input);
            used = n;
            match outcome {
                Ok(true) => {
                    assert(raw =~= self.raw() + input@.skip(used as int));
                },
                Ok(false) => {
                    assert(self.raw() =~= raw.subrange(0, raw.len() as int));
                    return (used, Ok(None), false);
                },
                Err(e) => {
                    let ghost step = frame_from(old(self).limits(), old(self).partial(), raw);
                    assert(self.raw() =~= raw.subrange(step.used, step.used + step.held));
                    return (used, Err(e), false);
                },
            }
        } else {
            assert(input@.skip(0) =~= input@);
        }
        self.read_payload(Ghost(raw), input, used)
    }

    fn read_payload(&mut self, Ghost(raw): Ghost<Seq<u8>>, input: &[u8], start: usize) -> (r: (
        usize,
        Result<Option<Frame>, WsError>,
        bool,
    ))
        requires
            old(self).sound(),
            old(self).incoming is Some,
            start <= input@.len(),
            raw == old(self).raw() + input@.skip(start as int),
        ensures
            final(self).wf(),
            final(self).limits == old(self).limits,
            r.0 <= input@.len(),
            ({
                let step = frame_from(old(self).limits, old(self).partial(), raw);
                &&& 0 <= step.used
                &&& 0 <= step.held
                &&& step.used + step.held <= raw.len()
                &&& final(self).partial() == step.partial
                &&& final(self).raw() == raw.subrange(step.used, step.used + step.held)
                &&& r.0 == start + step.used + step.held - old(self).raw().len()
                &&& r.2 == (step.outcome is Folded)
                &&& step_result(step.outcome, r.1)
            }),
    {
        reveal(frame_from);
        let mut used: usize = start;
        match self.incoming.take() {
            Some(mut inc) => {
                let ghost header = self.header@.take(self.header_len as int);
                let ghost arrived = buffered(inc.payload);
                let ghost head_size = self.header_len as int;
                proof {
                    lemma_head_stays(header, arrived + input@.skip(start as int));
                    assert(header + (arrived + input@.skip(start as int)) =~= raw);
                }
                let missing = inc.size - buffered_bytes(&inc.payload).len();
                let held = input.len() - used;
                let n: usize = if held < missing { held } else { missing };
                inc.payload.extend_from_slice(&input[used..used + n]);
                used += n;
                assert(buffered(inc.payload) =~= raw.subrange(
                    head_size,
                    head_size + arrived.len() + n,
                ));
                if n < missing {
                    self.incoming = Some(inc);
                    assert(self.raw() =~= raw.subrange(0, raw.len() as int));
                    return (used, Ok(None), false);
                }
                let ghost total = head_size + inc.size;
                self.header_len = 0;
                let outcome = self.dispatch(inc);
                assert(self.raw() =~= raw.subrange(total, total));
                let folded = matches!(outcome, Ok(None));
                (used, outcome, folded)
            },
            None => {
                assert(false);
                (used, Ok(None), false)
            },
        }
    }

    /// Makes progress on the next frame with bytes that have arrived.
    ///
    /// Returns how many of them were taken, and the frame if one is complete.
    /// Without a frame all of them are taken, and the partial header or payload
    /// is kept. A completed data frame is returned as its own message, or folded
    /// into the fragmented message it continues.
    pub fn read(&mut self, input: &[u8]) -> (r: (usize, Result<Option<Frame>, WsError>))
        requires
            old(self).wf(),
        ensures
            final(self).wf(),
            final(self).limits() == old(self).limits(),
            r.0 <= input@.len(),
            ({
                let raw = old(self).raw() + input@;
                let step = step_from(old(self).limits(), old(self).partial(), raw);
                &&& final(self).partial() == step.partial
                &&& final(self).raw() == raw.subrange(step.used, step.used + step.held)
                &&& r.0 == step.used + step.held - old(self).raw().len()
                &&& step_result(step.outcome, r.1)
            }),
    {
        let ghost raw = self.raw() + input@;
        let ghost limits = self.limits();
        let ghost first = self.partial();
        let ghost mut done: int = 0;
        let mut used: usize = 0;
        reveal(step_from);
        assert(raw.skip(0) =~= raw);
        assert(input@.skip(0) =~= input@);
        loop
            invariant
                self.wf(),
                self.limits() == limits,
                limits == old(self).limits(),
                first == old(self).partial(),
                raw == old(self).raw() + input@,
                used <= input@.len(),
                0 <= done <= raw.len(),
                done + self.raw().len() == old(self).raw().len() + used,
                raw.skip(done) == self.raw() + input@.skip(used as int),
                step_from(limits, first, raw) == later(
                    done,
                    step_from(limits, self.partial(), raw.skip(done)),
                ),
            decreases raw.len() - done,
        {
            reveal(step_from);
            let rest = &input[used..input.len()];
            assert(rest@ =~= input@.skip(used as int));
            let ghost at = raw.skip(done);
            let ghost step = frame_from(limits, self.partial(), at);
            let (n, outcome, folded) = self.read_one(rest);
            used += n;
            if !folded {
                assert(self.raw() =~= raw.subrange(
                    done + step.used,
                    done + step.used + step.held,
                ));
                return (used, outcome);
            }
            proof {
                assert(at.skip(step.used) =~= raw.skip(done + step.used));
                assert(raw.skip(done + step.used) =~= self.raw() + input@.skip(used as int));
                done = done + step.used;
            }
        }
    }
}

/// What a call returns for an outcome.
pub open spec fn step_result(outcome: Outcome, r: Result<Option<Frame>, WsError>) -> bool {
    match outcome {
        Outcome::NeedInput | Outcome::Folded => r matches Ok(None),
        Outcome::Refused(e) => r == Err::<Option<Frame>, WsError>(e),
        Outcome::Message(m) => r matches Ok(Some(frame)) && frame@ == m,
    }
}

/// A complete header is the same header whatever follows it.
proof fn lemma_head_stays(raw: Seq<u8>, more: Seq<u8>)
    requires
        !(head_at(raw) is Short),
    ensures
        head_at(raw + more) == head_at(raw),
{
    let all = raw + more;
    assert(all[0] == raw[0] && all[1] == raw[1]);
    if let Head::Whole { fin, opcode, len, size } = head_at(raw) {
        assert(all.subrange(2, len) =~= raw.subrange(2, len));
    }
}

/// What the frame at the front comes to does not change with the bytes after it.
proof fn lemma_frame_settled(limits: Limits, partial: PartialView, raw: Seq<u8>, more: Seq<u8>)
    ensures
        ({
            let step = frame_from(limits, partial, raw);
            &&& 0 <= step.used
            &&& 0 <= step.held
            &&& step.used + step.held <= raw.len()
            &&& step.outcome is Folded ==> step.held == 0 && step.used > 0
            &&& step.outcome is NeedInput ==> step == (Step {
                partial,
                used: 0,
                held: raw.len() as int,
                outcome: Outcome::NeedInput,
            })
            &&& !(step.outcome is NeedInput) ==> frame_from(limits, partial, raw + more) == step
        }),
{
    reveal(frame_from);
    if !(head_at(raw) is Short) {
        lemma_head_stays(raw, more);
        if let Head::Whole { fin, opcode, len, size } = head_at(raw) {
            if raw.len() >= len + size {
                assert((raw + more).subrange(len, len + size) =~= raw.subrange(len, len + size));
            }
        }
    }
}

/// A frame or an error, once reached, is the same whatever bytes follow. Where
/// none was reached, reading on after it, with all that it kept, comes to what
/// reading everything at once comes to: how a stream is cut into pieces does not
/// matter.
pub proof fn pieces_do_not_matter(
    limits: Limits,
    partial: PartialView,
    raw: Seq<u8>,
    more: Seq<u8>,
)
    ensures
        ({
            let step = step_from(limits, partial, raw);
            &&& 0 <= step.used
            &&& 0 <= step.held
            &&& step.used + step.held <= raw.len()
            &&& !(step.outcome is Folded)
            &&& step.outcome is NeedInput ==> step.used + step.held == raw.len() && step_from(
                limits,
                partial,
                raw + more,
            ) == later(
                step.used,
                step_from(limits, step.partial, raw.skip(step.used) + more),
            )
            &&& !(step.outcome is NeedInput) ==> step_from(limits, partial, raw + more) == step
        }),
    decreases raw.len(),
{
    reveal(step_from);
    lemma_frame_settled(limits, partial, raw, more);
    let first = frame_from(limits, partial, raw);
    if first.outcome is Folded {
        let rest = raw.skip(first.used);
        pieces_do_not_matter(limits, first.partial, rest, more);
        assert((raw + more).skip(first.used) =~= rest + more);
        let tail = step_from(limits, first.partial, rest);
        assert(rest.skip(tail.used) =~= raw.skip(first.used + tail.used));
    } else if first.outcome is NeedInput {
        assert(raw.skip(0) =~= raw);
    }
}

/// No message is longer than the limits allow: a data message is at most the
/// larger of the two, a control payload at most 125 bytes. And nothing is kept
/// of a fragmented message beyond its limit.
pub proof fn messages_keep_the_limits(limits: Limits, partial: PartialView, raw: Seq<u8>)
    requires
        partial matches Some((_, so_far)) ==> so_far.len() <= limits.max_message_size,
    ensures
        ({
            let step = step_from(limits, partial, raw);
            &&& step.partial matches Some((_, so_far)) ==> so_far.len() <= limits.max_message_size
            &&& match step.outcome {
                Outcome::Message(FrameView::Binary(data)) => data.len() <= limits.max_frame_size
                    || data.len() <= limits.max_message_size,
                Outcome::Message(FrameView::Text(data)) => data.len() <= limits.max_frame_size
                    || data.len() <= limits.max_message_size,
                Outcome::Message(FrameView::Ping(data)) => data.len() <= MAX_CONTROL_PAYLOAD,
                Outcome::Message(FrameView::Pong(data)) => data.len() <= MAX_CONTROL_PAYLOAD,
                _ => true,
            }
        }),
    decreases raw.len(),
{
    reveal(step_from);
    reveal(frame_from);
    lemma_frame_settled(limits, partial, raw, Seq::empty());
    let first = frame_from(limits, partial, raw);
    if first.outcome is Folded {
        messages_keep_the_limits(limits, first.partial, raw.skip(first.used));
    }
}

/// How many more bytes belong to the header, or to the payload, that `raw` ends
/// in; zero at a frame that was refused for its first two bytes.
pub open spec fn wanted_after(raw: Seq<u8>) -> int {
    match head_at(raw) {
        Head::Short => if raw.len() < 2 {
            2 - raw.len()
        } else {
            head_len(raw[1] & 0x7f) - raw.len()
        },
        Head::Refused(_) => 0,
        Head::Whole { fin, opcode, len, size } => len + size - raw.len(),
    }
}

/// Bytes that are wanted are all taken: reading no more than `wanted_after` at a
/// time never reads into the frame after the next one to complete.
pub proof fn wanted_bytes_are_taken(
    limits: Limits,
    partial: PartialView,
    raw: Seq<u8>,
    input: Seq<u8>,
)
    requires
        frame_from(limits, partial, raw).outcome is NeedInput,
        input.len() <= wanted_after(raw),
    ensures
        ({
            let step = step_from(limits, partial, raw + input);
            step.used + step.held == raw.len() + input.len()
        }),
{
    reveal(frame_from);
    reveal(step_from);
    let all = raw + input;
    lemma_frame_settled(limits, partial, raw, input);
    lemma_frame_settled(limits, partial, all, Seq::empty());
    if raw.len() >= 2 {
        assert(all[0] == raw[0] && all[1] == raw[1]);
    }
    if !(head_at(raw) is Short) {
        lemma_head_stays(raw, input);
    }
    let first = frame_from(limits, partial, all);
    if first.outcome is Folded {
        assert(first.used == all.len());
        let none = all.skip(first.used);
        assert(none.len() == 0);
        assert(frame_from(limits, first.partial, none).outcome is NeedInput);
        assert(step_from(limits, first.partial, none) == frame_from(limits, first.partial, none));
    }
}

/// An empty body, or a code of two bytes followed by a reason in UTF-8.
pub fn parse_close(payload: &[u8]) -> (r: Result<Option<(u16, String)>, WsError>)
    ensures
        match close_of(payload@) {
            Ok(None) => r matches Ok(None),
            Ok(Some((code, reason))) => r matches Ok(Some((c, s))) && c == code && s@ == reason,
            Err(e) => r == Err::<Option<(u16, String)>, WsError>(e),
        },
{
    if payload.len() == 0 {
        return Ok(None);
    }
    if payload.len() == 1 {
        return Err(WsError::OneByteClose);
    }
    let code: u16 = payload[0] as u16 * 256 + payload[1] as u16;
    let reason = &payload[2..payload.len()];
    assert(reason@ =~= payload@.skip(2));
    match utf8_text(reason) {
        Some(s) => {
            proof {
                vstd::utf8::encode_utf8_decode_utf8(s@);
            }
            Ok(Some((code, s.to_owned())))
        },
        None => Err(WsError::CloseReasonNotUtf8),
    }
}

/// The lowest `n` bytes of a number, the most significant first.
pub open spec fn be_bytes(value: nat, n: nat) -> Seq<u8>
    decreases n,
{
    if n == 0 {
        Seq::empty()
    } else {
        be_bytes(value / 256, (n - 1) as nat).push((value % 256) as u8)
    }
}

/// The length of a payload as a header gives it, in the shortest of the three
/// forms; `mask_bit` is set in the first byte.
pub open spec fn length_field(mask_bit: u8, len: nat) -> Seq<u8> {
    if len <= 125 {
        seq![mask_bit | (len as u8)]
    } else if len <= 0xffff {
        seq![mask_bit | 126] + be_bytes(len, 2)
    } else {
        seq![mask_bit | 127] + be_bytes(len, 8)
    }
}

/// A payload under a mask, which is applied cyclically.
pub open spec fn masked(payload: Seq<u8>, mask: Seq<u8>) -> Seq<u8> {
    Seq::new(payload.len(), |i: int| payload[i] ^ mask[i % 4])
}

/// A complete frame as a client sends it: the final bit set, a mask key, and
/// the payload under it.
pub open spec fn client_frame(opcode: u8, payload: Seq<u8>, mask: Seq<u8>) -> Seq<u8> {
    seq![0x80 | opcode] + length_field(0x80, payload.len()) + mask + masked(payload, mask)
}

/// Puts the lowest `n` bytes of `value` at `at`, the most significant first.
fn put_be(out: &mut [u8; 14], at: usize, n: usize, value: u64)
    requires
        at + n <= 14,
        n <= 8,
    ensures
        final(out)@.len() == 14,
        final(out)@.subrange(at as int, at + n) == be_bytes(value as nat, n as nat),
        forall|i: int| 0 <= i < 14 && !(at <= i < at + n) ==> final(out)@[i] == old(out)@[i],
    decreases n,
{
    if n > 0 {
        put_be(out, at, n - 1, value / 256);
        let ghost before = out@;
        let low: u8 = (value % 256) as u8;
        out[at + n - 1] = low;
        proof {
            assert(out@.subrange(at as int, at + n) =~= before.subrange(
                at as int,
                at + n - 1,
            ).push(low));
        }
    } else {
        assert(out@.subrange(at as int, at + n) =~= Seq::<u8>::empty());
    }
}

/// A frame on its way out, handed over in blocks of bounded size.
pub struct OutboundFrame<'a> {
    header: [u8; 14],
    header_len: usize,
    header_sent: bool,
    mask: [u8; 4],
    payload: &'a [u8],
    pos: usize,
}

/// Outbound payloads are masked through a buffer this large, so sending never
/// allocates.
pub const MASK_CHUNK: usize = 256;

impl<'a> OutboundFrame<'a> {
    /// The bytes that are still to be sent.
    pub closed spec fn rest(&self) -> Seq<u8> {
        let body = masked(self.payload@, self.mask@).skip(self.pos as int);
        if self.header_sent {
            body
        } else {
            self.header@.take(self.header_len as int) + body
        }
    }

    /// The place lies within the frame.
    pub closed spec fn wf(&self) -> bool {
        &&& 1 <= self.header_len <= 14
        &&& self.pos <= self.payload@.len()
    }

    /// The frame of `opcode` around `payload`, under `mask`.
    pub fn new(opcode: u8, payload: &'a [u8], mask: [u8; 4]) -> (r: Result<
        OutboundFrame<'a>,
        WsError,
    >)
        ensures
            opcode >= OP_CLOSE && payload@.len() > MAX_CONTROL_PAYLOAD ==> r == Err::<
                OutboundFrame<'a>,
                WsError,
            >(WsError::ControlTooLong),
            !(opcode >= OP_CLOSE && payload@.len() > MAX_CONTROL_PAYLOAD) ==> (r matches Ok(frame)
                && frame.wf() && frame.rest() == client_frame(opcode, payload@, mask@)),
    {
        if opcode >= OP_CLOSE && payload.len() > MAX_CONTROL_PAYLOAD {
            return Err(WsError::ControlTooLong);
        }
        let mut header: [u8; 14] = [0; 14];
        header[0] = 0x80 | opcode;
        let len = payload.len();
        let mut n: usize = 2;
        if len <= 125 {
            header[1] = 0x80 | (len as u8);
        } else if len <= 0xffff {
            header[1] = 0x80 | 126;
            put_be(&mut header, 2, 2, len as u64);
            n = 4;
        } else {
            header[1] = 0x80 | 127;
            put_be(&mut header, 2, 8, len as u64);
            n = 10;
        }
        assert(header@.take(n as int) =~= seq![0x80 | opcode] + length_field(
            0x80,
            payload@.len(),
        )) by {
            assert(header@.take(n as int) =~= seq![header@[0]] + (seq![header@[1]]
                + header@.subrange(2, n as int)));
            assert(len <= 125 ==> header@.subrange(2, n as int) =~= Seq::<u8>::empty());
        }
        let ghost front = header@.take(n as int);
        header[n] = mask[0];
        header[n + 1] = mask[1];
        header[n + 2] = mask[2];
        header[n + 3] = mask[3];
        let frame = OutboundFrame {
            header,
            header_len: n + 4,
            header_sent: false,
            mask,
            payload,
            pos: 0,
        };
        proof {
            assert(header@.take(n as int) =~= front);
            assert(header@.subrange(n as int, n + 4) =~= mask@);
            assert(header@.take(n + 4) =~= front + mask@);
            assert(masked(payload@, mask@).skip(0) =~= masked(payload@, mask@));
        }
        Ok(frame)
    }

    /// Puts the next block of the frame into `out`: how many bytes it is, zero
    /// once the frame is sent.
    pub fn next_block(&mut self, out: &mut [u8; 256]) -> (n: usize)
        requires
            old(self).wf(),
        ensures
            final(self).wf(),
            n <= 256,
            n <= old(self).rest().len(),
            n == 0 <==> old(self).rest().len() == 0,
            final(out)@.take(n as int) == old(self).rest().take(n as int),
            final(self).rest() == old(self).rest().skip(n as int),
    {
        let ghost body = masked(self.payload@, self.mask@);
        let ghost rest = self.rest();
        if !self.header_sent {
            let mut i: usize = 0;
            while i < self.header_len
                invariant
                    i <= self.header_len,
                    self.wf(),
                    *self == *old(self),
                    out@.take(i as int) == self.header@.take(i as int),
                decreases self.header_len - i,
            {
                let ghost before = out@;
                out[i] = self.header[i];
                i += 1;
                assert(out@.take(i as int) =~= before.take(i - 1).push(out@[i - 1]));
                assert(self.header@.take(i as int) =~= self.header@.take(i - 1).push(
                    self.header@[i - 1],
                ));
            }
            self.header_sent = true;
            assert(rest.take(i as int) =~= self.header@.take(i as int));
            assert(rest.skip(i as int) =~= body.skip(self.pos as int));
            return i;
        }
        let left = self.payload.len() - self.pos;
        let n: usize = if left < MASK_CHUNK { left } else { MASK_CHUNK };
        let mut j: usize = 0;
        while j < n
            invariant
                j <= n <= MASK_CHUNK,
                self.wf(),
                *self == *old(self),
                self.pos + n <= self.payload@.len() <= usize::MAX,
                body == masked(self.payload@, self.mask@),
                forall|k: int| 0 <= k < j ==> out@[k] == body[self.pos + k],
            decreases n - j,
        {
            let at = self.pos + j;
            out[j] = self.payload[at] ^ self.mask[at % 4];
            j += 1;
        }
        assert(rest =~= body.skip(self.pos as int));
        assert(out@.take(n as int) =~= rest.take(n as int));
        self.pos = self.pos + n;
        assert(rest.skip(n as int) =~= body.skip(self.pos as int));
        n
    }
}

/// A WebSocket connection after its upgrade. The stream is carried along for
/// whoever reads and writes it.
pub struct WsClient<S> {
    stream: S,
    reader: FrameReader,
    /// Bytes the server sent after its `101` that were read along with it.
    /// They are the head of the first frame and are consumed before anything
    /// else.
    pending: Vec<u8>,
    pending_pos: usize,
}

impl<S> WsClient<S> {
    /// The underlying stream.
    pub closed spec fn stream(&self) -> S {
        self.stream
    }

    /// The frame reader.
    pub closed spec fn reader(&self) -> FrameReader {
        self.reader
    }

    /// The bytes from the handshake that no frame has used yet.
    pub closed spec fn pending(&self) -> Seq<u8> {
        self.pending@.skip(self.pending_pos as int)
    }

    /// Where the reader stands.
    pub open spec fn reading(&self) -> Reading {
        Reading {
            limits: self.reader().limits(),
            partial: self.reader().partial(),
            raw: self.reader().raw(),
            pending: self.pending(),
        }
    }

    /// The reader is well formed, and the pending bytes are a part of what came.
    pub closed spec fn wf(&self) -> bool {
        self.reader.wf() && self.pending_pos <= self.pending@.len()
    }

    /// A connection whose upgrade is done; `pending` came along with it.
    pub(crate) fn upgraded(stream: S, limits: Limits, pending: Vec<u8>) -> (r: WsClient<S>)
        requires
            limits.wf(),
        ensures
            r.wf(),
            r.stream() == stream,
            r.reader().limits() == limits,
            r.reader().partial() is None,
            r.reader().raw() == Seq::<u8>::empty(),
            r.pending() == pending@,
    {
        let r = WsClient { stream, reader: FrameReader::new(limits), pending, pending_pos: 0 };
        assert(r.pending() =~= pending@);
        r
    }

    /// The underlying stream, for socket options.
    pub fn get_mut(&mut self) -> (r: &mut S)
        requires
            old(self).wf(),
        ensures
            *r == old(self).stream(),
            final(self).stream() == *final(r),
            final(self).reader() == old(self).reader(),
            final(self).pending() == old(self).pending(),
            final(self).wf(),
    {
        &mut self.stream
    }

    /// How many bytes to read from the stream at most before the next call of
    /// `read_frame`, so that none of the frame after is read.
    pub fn wanted(&self) -> (n: usize)
        requires
            self.wf(),
        ensures
            self.pending().len() > 0 ==> n == 0,
            self.pending().len() == 0 ==> n == wanted_after(self.reader().raw()),
    {
        if self.pending_pos < self.pending.len() {
            0
        } else {
            self.reader.wanted()
        }
    }

    /// Makes progress on the next frame: the handshake leftover first, then the
    /// bytes in `input`, which were read from the stream.
    ///
    /// Returns how many bytes of `input` were taken, and the frame if one is
    /// complete. Of what has arrived, only what the frame used is gone.
    #[verifier::rlimit(60)]
    pub fn read_frame(&mut self, input: &[u8]) -> (r: (usize, Result<Option<Frame>, WsError>))
        requires
            old(self).wf(),
        ensures
            final(self).wf(),
            final(self).stream() == old(self).stream(),
            final(self).reader().limits() == old(self).reader().limits(),
            r.0 <= input@.len(),
            ({
                let reader = old(self).reader();
                let raw = reader.raw() + old(self).pending() + input@;
                let step = step_from(reader.limits(), reader.partial(), raw);
                let taken = step.used + step.held - reader.raw().len();
                let left = old(self).pending().len();
                &&& final(self).reader().partial() == step.partial
                &&& final(self).reader().raw() == raw.subrange(step.used, step.used + step.held)
                &&& final(self).pending() == old(self).pending().skip(
                    if taken < left { taken } else { left as int },
                )
                &&& r.0 == if taken < left { 0 } else { taken - left }
                &&& step_result(step.outcome, r.1)
                &&& taken >= 0
                &&& final(self).reader().raw() + final(self).pending() + input@.skip(r.0 as int)
                    == raw.skip(step.used)
                &&& final(self).reading() == look(old(self).reading(), input@).then_at
            }),
    {
        let ghost reader = self.reader;
        let ghost kept = self.pending();
        let ghost raw = reader.raw() + kept + input@;
        if self.pending_pos < self.pending.len() {
            let left = &self.pending.as_slice()[self.pending_pos..self.pending.len()];
            assert(left@ =~= kept);
            let ghost early = step_from(reader.limits(), reader.partial(), reader.raw() + kept);
            let (n, outcome) = self.reader.read(left);
            self.pending_pos = self.pending_pos + n;
            proof {
                pieces_do_not_matter(
                    reader.limits(),
                    reader.partial(),
                    reader.raw() + kept,
                    input@,
                );
                assert(self.pending() =~= kept.skip(n as int));
                assert((reader.raw() + kept).subrange(early.used, early.used + early.held)
                    =~= raw.subrange(early.used, early.used + early.held));
            }
            if !matches!(outcome, Ok(None)) {
                assert(self.reader.raw() + self.pending() + input@.skip(0) =~= raw.skip(
                    early.used,
                ));
                return (0, outcome);
            }
            let ghost mid = self.reader;
            let (taken, outcome) = self.reader.read(input);
            proof {
                assert((reader.raw() + kept).skip(early.used) =~= mid.raw());
                let step = step_from(reader.limits(), mid.partial(), mid.raw() + input@);
                pieces_do_not_matter(
                    reader.limits(),
                    mid.partial(),
                    mid.raw() + input@,
                    Seq::empty(),
                );
                assert(mid.raw() + input@ =~= raw.skip(early.used));
                assert(self.reader.raw() =~= raw.subrange(
                    early.used + step.used,
                    early.used + step.used + step.held,
                ));
                assert(self.pending() =~= kept.skip(kept.len() as int));
                assert(self.reader.raw() + self.pending() + input@.skip(taken as int)
                    =~= raw.skip(early.used + step.used));
            }
            (taken, outcome)
        } else {
            assert(reader.raw() + kept =~= reader.raw());
            assert(kept.skip(0) =~= kept);
            let (taken, outcome) = self.reader.read(input);
            proof {
                let step = step_from(reader.limits(), reader.partial(), raw);
                pieces_do_not_matter(reader.limits(), reader.partial(), raw, Seq::empty());
                assert(self.reader.raw() + self.pending() + input@.skip(taken as int)
                    =~= raw.skip(step.used));
            }
            (taken, outcome)
        }
    }

    /// A binary message for the server.
    pub fn send_binary<'a>(&self, payload: &'a [u8], mask: [u8; 4]) -> (r: Result<
        OutboundFrame<'a>,
        WsError,
    >)
        ensures
            r matches Ok(frame) && frame.wf() && frame.rest() == client_frame(
                OP_BINARY,
                payload@,
                mask@,
            ) && server_reads(frame.rest()) == Some(
                ClientFrame { fin: true, opcode: 2, key: mask@, payload: payload@ },
            ),
    {
        let size = payload.len();
        proof {
            assert(payload@.len() == size);
            server_has_what_was_sent(2, payload@, mask@);
        }
        OutboundFrame::new(OP_BINARY, payload, mask)
    }

    /// The answer to a ping.
    pub fn send_pong<'a>(&self, payload: &'a [u8], mask: [u8; 4]) -> (r: Result<
        OutboundFrame<'a>,
        WsError,
    >)
        ensures
            payload@.len() > 125 ==> r == Err::<OutboundFrame<'a>, WsError>(
                WsError::ControlTooLong,
            ),
            payload@.len() <= 125 ==> (r matches Ok(frame) && frame.wf()
                && frame.rest() == client_frame(OP_PONG, payload@, mask@) && server_reads(
                frame.rest(),
            ) == Some(ClientFrame { fin: true, opcode: 10, key: mask@, payload: payload@ })),
    {
        let size = payload.len();
        proof {
            assert(payload@.len() == size);
            server_has_what_was_sent(10, payload@, mask@);
        }
        OutboundFrame::new(OP_PONG, payload, mask)
    }

    /// A close frame with `code` and no reason.
    pub fn send_close(&self, code: u16, mask: [u8; 4]) -> (r: [u8; 8])
        ensures
            r@ == client_frame(OP_CLOSE, be_bytes(code as nat, 2), mask@),
            server_reads(r@) == Some(
                ClientFrame {
                    fin: true,
                    opcode: 8,
                    key: mask@,
                    payload: seq![(code / 256) as u8, (code % 256) as u8],
                },
            ),
    {
        proof {
            close_codes_are_two_bytes(code);
            server_has_what_was_sent(8, be_bytes(code as nat, 2), mask@);
        }
        let high: u8 = (code / 256) as u8;
        let low: u8 = (code % 256) as u8;
        let r: [u8; 8] = [
            0x80 | OP_CLOSE,
            0x80 | 2,
            mask[0],
            mask[1],
            mask[2],
            mask[3],
            high ^ mask[0],
            low ^ mask[1],
        ];
        proof {
            reveal_with_fuel(be_bytes, 3);
            let payload = be_bytes(code as nat, 2);
            assert(payload =~= seq![high, low]);
            assert(r@ =~= client_frame(OP_CLOSE, payload, mask@));
        }
        r
    }
}

/// A frame as a server sends it: no mask, and the payload as it is.
pub open spec fn server_frame(fin: bool, opcode: u8, payload: Seq<u8>) -> Seq<u8> {
    seq![if fin { 0x80 | opcode } else { opcode }] + length_field(0, payload.len()) + payload
}

proof fn lemma_be_bytes(value: nat, n: nat)
    requires
        value < pow256(n),
    ensures
        be_bytes(value, n).len() == n,
        be_value(be_bytes(value, n)) == value,
    decreases n,
{
    if n > 0 {
        assert(value / 256 < pow256((n - 1) as nat)) by (nonlinear_arith)
            requires
                value < 256 * pow256((n - 1) as nat),
        ;
        lemma_be_bytes(value / 256, (n - 1) as nat);
        let high = be_bytes(value / 256, (n - 1) as nat);
        assert(be_bytes(value, n).drop_last() =~= high);
    }
}

proof fn lemma_server_head(fin: bool, opcode: u8, payload: Seq<u8>, more: Seq<u8>)
    requires
        opcode < 16,
        payload.len() <= usize::MAX,
    ensures
        head_at(server_frame(fin, opcode, payload) + more) == (Head::Whole {
            fin,
            opcode,
            len: server_frame(fin, opcode, payload).len() - payload.len(),
            size: payload.len(),
        }),
{
    let raw = server_frame(fin, opcode, payload) + more;
    let field = length_field(0, payload.len());
    let first = if fin { 0x80 | opcode } else { opcode };
    assert((0x80u8 | opcode) & 0x70 == 0 && (0x80u8 | opcode) & 0x80 != 0 && (0x80u8 | opcode) & 0x0f
        == opcode && opcode & 0x70 == 0 && opcode & 0x80 == 0 && opcode & 0x0f == opcode)
        by (bit_vector)
        requires
            opcode < 16,
    ;
    assert(raw[0] == first);
    assert(raw[1] == field[0]);
    if payload.len() <= 125 {
        let len7 = payload.len() as u8;
        assert((0u8 | len7) & 0x80 == 0 && (0u8 | len7) & 0x7f == len7) by (bit_vector)
            requires
                len7 <= 125,
        ;
    } else {
        assert((0u8 | 126u8) & 0x80 == 0 && (0u8 | 126u8) & 0x7f == 126 && (0u8 | 127u8) & 0x80 == 0
            && (0u8 | 127u8) & 0x7f == 127) by (bit_vector);
        let n: nat = if payload.len() <= 0xffff { 2 } else { 8 };
        reveal_with_fuel(pow256, 9);
        lemma_be_bytes(payload.len(), n);
        assert(raw.subrange(2, 2 + n as int) =~= be_bytes(payload.len(), n));
    }
}

/// What a server sends in one data frame, within the limits, is handed over as
/// it was sent, whatever follows it.
pub proof fn whole_message_is_read_back(
    limits: Limits,
    opcode: u8,
    payload: Seq<u8>,
    more: Seq<u8>,
)
    requires
        limits.wf(),
        opcode == OP_TEXT || opcode == OP_BINARY,
        payload.len() <= limits.max_frame_size,
    ensures
        step_from(limits, None, server_frame(true, opcode, payload) + more) == (Step {
            partial: None,
            used: server_frame(true, opcode, payload).len() as int,
            held: 0,
            outcome: Outcome::Message(message_of(opcode, payload)),
        }),
{
    reveal(frame_from);
    reveal(step_from);
    let sent = server_frame(true, opcode, payload);
    lemma_server_head(true, opcode, payload, more);
    assert((sent + more).subrange(sent.len() - payload.len(), sent.len() as int) =~= payload);
}

/// The messages that a stream holds, from a frame's start on, up to a frame that is not
/// complete or is refused.
pub open spec fn messages_in(limits: Limits, partial: PartialView, raw: Seq<u8>) -> Seq<FrameView>
    decreases raw.len(),
    via messages_shrink
{
    let step = step_from(limits, partial, raw);
    match step.outcome {
        Outcome::Message(m) => seq![m] + messages_in(limits, step.partial, raw.skip(step.used)),
        _ => Seq::empty(),
    }
}

#[via_fn]
proof fn messages_shrink(limits: Limits, partial: PartialView, raw: Seq<u8>) {
    lemma_message_used(limits, partial, raw);
}

proof fn lemma_message_used(limits: Limits, partial: PartialView, raw: Seq<u8>)
    ensures
        ({
            let step = step_from(limits, partial, raw);
            step.outcome is Message ==> 0 < step.used <= raw.len()
        }),
    decreases raw.len(),
{
    reveal(frame_from);
    reveal(step_from);
    let first = frame_from(limits, partial, raw);
    if first.outcome is Folded {
        lemma_message_used(limits, first.partial, raw.skip(first.used));
    }
}

/// Why a stream is refused, from a frame's start on, if it is.
pub open spec fn error_in(limits: Limits, partial: PartialView, raw: Seq<u8>) -> Option<WsError>
    decreases raw.len(),
    via error_shrinks
{
    let step = step_from(limits, partial, raw);
    match step.outcome {
        Outcome::Message(_) => error_in(limits, step.partial, raw.skip(step.used)),
        Outcome::Refused(e) => Some(e),
        _ => None,
    }
}

#[via_fn]
proof fn error_shrinks(limits: Limits, partial: PartialView, raw: Seq<u8>) {
    lemma_message_used(limits, partial, raw);
}

/// What a sequence of reads comes to: the messages, the error where one was met,
/// and what is kept after the last read. `unread` are the bytes that no message
/// has used.
pub struct Reads {
    pub frames: Seq<FrameView>,
    pub error: Option<WsError>,
    pub partial: PartialView,
    pub unread: Seq<u8>,
}

/// Successive reads, each with the next piece of a stream behind what the ones
/// before did not take, up to the first error.
pub open spec fn reads(
    limits: Limits,
    partial: PartialView,
    unread: Seq<u8>,
    pieces: Seq<Seq<u8>>,
) -> Reads
    decreases pieces.len(),
{
    if pieces.len() == 0 {
        Reads { frames: Seq::empty(), error: None, partial, unread }
    } else {
        let raw = unread + pieces[0];
        let step = step_from(limits, partial, raw);
        let then_unread = raw.skip(step.used);
        match step.outcome {
            Outcome::Refused(e) => Reads {
                frames: Seq::empty(),
                error: Some(e),
                partial: step.partial,
                unread: then_unread,
            },
            Outcome::Message(m) => {
                let later = reads(limits, step.partial, then_unread, pieces.skip(1));
                Reads { frames: seq![m] + later.frames, ..later }
            },
            _ => reads(limits, step.partial, then_unread, pieces.skip(1)),
        }
    }
}

/// Pieces one after the other.
pub open spec fn joined_pieces(pieces: Seq<Seq<u8>>) -> Seq<u8>
    decreases pieces.len(),
{
    if pieces.len() == 0 {
        Seq::empty()
    } else {
        pieces[0] + joined_pieces(pieces.skip(1))
    }
}

/// One read takes its message, or its error, off the front of the stream, and leaves
/// the rest of the stream as it is.
pub proof fn read_takes_the_front(limits: Limits, partial: PartialView, raw: Seq<u8>, more: Seq<u8>)
    ensures
        ({
            let step = step_from(limits, partial, raw);
            let rest = raw.skip(step.used) + more;
            let messages = messages_in(limits, partial, raw + more);
            let error = error_in(limits, partial, raw + more);
            match step.outcome {
                Outcome::Message(m) => {
                    &&& messages == seq![m] + messages_in(limits, step.partial, rest)
                    &&& error == error_in(limits, step.partial, rest)
                },
                Outcome::Refused(e) => messages == Seq::<FrameView>::empty() && error == Some(e),
                _ => {
                    &&& messages == messages_in(limits, step.partial, rest)
                    &&& error == error_in(limits, step.partial, rest)
                },
            }
        }),
{
    pieces_do_not_matter(limits, partial, raw, more);
    let step = step_from(limits, partial, raw);
    let rest = raw.skip(step.used) + more;
    if step.outcome is Message {
        assert((raw + more).skip(step.used) =~= rest);
    } else if step.outcome is NeedInput {
        let next = step_from(limits, step.partial, rest);
        lemma_message_used(limits, step.partial, rest);
        assert(next.outcome is Message ==> (raw + more).skip(step.used + next.used) =~= rest.skip(
            next.used,
        ));
    }
}

/// In whatever pieces a stream arrives, successive reads give the messages of the
/// stream as a whole, in order, and its error. Reads that met no error leave what
/// holds the messages still to come: nothing is lost and nothing is read twice.
pub proof fn reads_give_the_messages(
    limits: Limits,
    partial: PartialView,
    unread: Seq<u8>,
    pieces: Seq<Seq<u8>>,
)
    ensures
        ({
            let got = reads(limits, partial, unread, pieces);
            let stream = unread + joined_pieces(pieces);
            match got.error {
                Some(e) => {
                    &&& got.frames == messages_in(limits, partial, stream)
                    &&& error_in(limits, partial, stream) == Some(e)
                },
                None => {
                    &&& got.frames + messages_in(limits, got.partial, got.unread) == messages_in(
                        limits,
                        partial,
                        stream,
                    )
                    &&& error_in(limits, got.partial, got.unread) == error_in(
                        limits,
                        partial,
                        stream,
                    )
                },
            }
        }),
    decreases pieces.len(),
{
    let stream = unread + joined_pieces(pieces);
    if pieces.len() == 0 {
        assert(stream =~= unread);
        assert(Seq::<FrameView>::empty() + messages_in(limits, partial, unread) =~= messages_in(
            limits,
            partial,
            unread,
        ));
    } else {
        let raw = unread + pieces[0];
        let more = joined_pieces(pieces.skip(1));
        let step = step_from(limits, partial, raw);
        assert(stream =~= raw + more);
        read_takes_the_front(limits, partial, raw, more);
        if !(step.outcome is Refused) {
            reads_give_the_messages(limits, step.partial, raw.skip(step.used), pieces.skip(1));
            if let Outcome::Message(m) = step.outcome {
                let later = reads(limits, step.partial, raw.skip(step.used), pieces.skip(1));
                let tail = messages_in(limits, later.partial, later.unread);
                assert(seq![m] + later.frames + tail =~= seq![m] + (later.frames + tail));
            }
        }
    }
}

/// Reading on without new bytes, as long as there can be a message left, gives all
/// the messages of what arrived, and its error.
pub proof fn reading_on_gives_everything(
    limits: Limits,
    partial: PartialView,
    unread: Seq<u8>,
    pieces: Seq<Seq<u8>>,
    calls: nat,
)
    requires
        calls > unread.len() + joined_pieces(pieces).len(),
    ensures
        ({
            let got = reads(
                limits,
                partial,
                unread,
                pieces + Seq::new(calls, |i: int| Seq::<u8>::empty()),
            );
            let stream = unread + joined_pieces(pieces);
            &&& got.frames == messages_in(limits, partial, stream)
            &&& got.error == error_in(limits, partial, stream)
        }),
    decreases pieces.len(), calls,
{
    let idle = Seq::new(calls, |i: int| Seq::<u8>::empty());
    let all = pieces + idle;
    let stream = unread + joined_pieces(pieces);
    let raw = unread + all[0];
    let step = step_from(limits, partial, raw);
    pieces_do_not_matter(limits, partial, raw, Seq::empty());
    lemma_message_used(limits, partial, raw);
    if pieces.len() == 0 {
        let fewer = (calls - 1) as nat;
        assert(raw =~= unread);
        assert(stream =~= unread);
        read_takes_the_front(limits, partial, raw, Seq::empty());
        assert(raw + Seq::<u8>::empty() =~= raw);
        assert(raw.skip(step.used) + Seq::<u8>::empty() =~= raw.skip(step.used));
        assert(all.skip(1) =~= pieces + Seq::new(fewer, |i: int| Seq::<u8>::empty()));
        if step.outcome is Message {
            reading_on_gives_everything(limits, step.partial, raw.skip(step.used), pieces, fewer);
            assert(raw.skip(step.used) + joined_pieces(pieces) =~= raw.skip(step.used));
        } else if step.outcome is NeedInput {
            lemma_idle_reads(limits, partial, unread, calls);
        }
    } else {
        let rest = pieces.skip(1);
        let more = joined_pieces(rest);
        assert(stream =~= raw + more);
        read_takes_the_front(limits, partial, raw, more);
        assert(all.skip(1) =~= rest + idle);
        if !(step.outcome is Refused) {
            reading_on_gives_everything(limits, step.partial, raw.skip(step.used), rest, calls);
        }
    }
}

/// Where a read needs more bytes, reads without any give nothing.
proof fn lemma_idle_reads(limits: Limits, partial: PartialView, unread: Seq<u8>, calls: nat)
    requires
        step_from(limits, partial, unread).outcome is NeedInput,
    ensures
        ({
            let got = reads(
                limits,
                partial,
                unread,
                Seq::new(calls, |i: int| Seq::<u8>::empty()),
            );
            got.frames.len() == 0 && got.error is None
        }),
    decreases calls,
{
    if calls > 0 {
        let fewer = (calls - 1) as nat;
        let idle = Seq::new(calls, |i: int| Seq::<u8>::empty());
        let step = step_from(limits, partial, unread);
        let rest = unread.skip(step.used);
        assert(unread + idle[0] =~= unread);
        assert(idle.skip(1) =~= Seq::new(fewer, |i: int| Seq::<u8>::empty()));
        pieces_do_not_matter(limits, partial, unread, Seq::empty());
        assert(unread + Seq::<u8>::empty() =~= unread);
        assert(rest + Seq::<u8>::empty() =~= rest);
        lemma_idle_reads(limits, step.partial, rest, fewer);
    }
}

/// A message or an error needs no bytes beyond those that were taken for it.
proof fn lemma_taken_is_enough(limits: Limits, partial: PartialView, raw: Seq<u8>, n: int)
    requires
        ({
            let step = step_from(limits, partial, raw);
            step.used + step.held <= n <= raw.len() && !(step.outcome is NeedInput)
        }),
    ensures
        step_from(limits, partial, raw.take(n)) == step_from(limits, partial, raw),
    decreases raw.len(),
{
    reveal(step_from);
    lemma_frame_settled(limits, partial, raw, Seq::empty());
    pieces_do_not_matter(limits, partial, raw, Seq::empty());
    let first = frame_from(limits, partial, raw);
    if first.outcome is Folded {
        pieces_do_not_matter(limits, first.partial, raw.skip(first.used), Seq::empty());
    }
    lemma_frame_taken(limits, partial, raw, n);
    if first.outcome is Folded {
        lemma_taken_is_enough(limits, first.partial, raw.skip(first.used), n - first.used);
        assert(raw.take(n).skip(first.used) =~= raw.skip(first.used).take(n - first.used));
    }
}

proof fn lemma_frame_taken(limits: Limits, partial: PartialView, raw: Seq<u8>, n: int)
    requires
        ({
            let step = frame_from(limits, partial, raw);
            step.used + step.held <= n <= raw.len() && !(step.outcome is NeedInput)
        }),
    ensures
        frame_from(limits, partial, raw.take(n)) == frame_from(limits, partial, raw),
{
    reveal(frame_from);
    let front = raw.take(n);
    if let Head::Whole { fin, opcode, len, size } = head_at(raw) {
        assert(len > 2 ==> front.subrange(2, len) =~= raw.subrange(2, len));
        if refusal(limits, partial, fin, opcode, size) is None {
            assert(front.subrange(len, len + size) =~= raw.subrange(len, len + size));
        }
    }
}

/// Where a connection's reader stands: its limits, the fragmented message in
/// progress, the bytes of the current frame that have arrived, and what is left of
/// the bytes that came with the handshake.
pub struct Reading {
    pub limits: Limits,
    pub partial: PartialView,
    pub raw: Seq<u8>,
    pub pending: Seq<u8>,
}

impl Reading {
    /// The reader stands within a frame: it has met no error.
    pub open spec fn ready(self) -> bool {
        frame_from(self.limits, self.partial, self.raw).outcome is NeedInput
    }

    /// All that has arrived and that no message has used.
    pub open spec fn unread(self) -> Seq<u8> {
        self.raw + self.pending
    }
}

/// What one read comes to: where the reader stands then, and how many bytes of the
/// input were taken.
pub struct Look {
    pub then_at: Reading,
    pub taken: int,
    pub outcome: Outcome,
}

/// What reading on from `at` with `input` comes to.
pub open spec fn look(at: Reading, input: Seq<u8>) -> Look {
    let raw = at.raw + at.pending + input;
    let step = step_from(at.limits, at.partial, raw);
    let taken = step.used + step.held - at.raw.len();
    let left = at.pending.len();
    Look {
        then_at: Reading {
            limits: at.limits,
            partial: step.partial,
            raw: raw.subrange(step.used, step.used + step.held),
            pending: at.pending.skip(if taken < left { taken } else { left as int }),
        },
        taken: if taken < left { 0 } else { taken - left },
        outcome: step.outcome,
    }
}

proof fn lemma_frame_goes_on(limits: Limits, partial: PartialView, raw: Seq<u8>, more: Seq<u8>)
    requires
        frame_from(limits, partial, raw).outcome is NeedInput,
    ensures
        ({
            let step = frame_from(limits, partial, raw + more);
            step.used + step.held >= raw.len()
        }),
{
    reveal(frame_from);
    let all = raw + more;
    if raw.len() >= 2 {
        assert(all[0] == raw[0] && all[1] == raw[1]);
    }
    if !(head_at(raw) is Short) {
        lemma_head_stays(raw, more);
    }
}

/// A reader that waits for more stands within a frame.
proof fn lemma_waits_within_a_frame(limits: Limits, partial: PartialView, raw: Seq<u8>)
    ensures
        ({
            let step = step_from(limits, partial, raw);
            let after = raw.subrange(step.used, step.used + step.held);
            !(step.outcome is Refused) ==> frame_from(limits, step.partial, after).outcome
                is NeedInput
        }),
    decreases raw.len(),
{
    reveal(step_from);
    lemma_frame_settled(limits, partial, raw, Seq::empty());
    let first = frame_from(limits, partial, raw);
    if first.outcome is Folded {
        let rest = raw.skip(first.used);
        lemma_waits_within_a_frame(limits, first.partial, rest);
        pieces_do_not_matter(limits, first.partial, rest, Seq::empty());
        let step = step_from(limits, partial, raw);
        let tail = step_from(limits, first.partial, rest);
        assert(raw.subrange(step.used, step.used + step.held) =~= rest.subrange(
            tail.used,
            tail.used + tail.held,
        ));
    } else {
        reveal(frame_from);
        assert(first.outcome is NeedInput ==> raw.subrange(0, raw.len() as int) =~= raw);
    }
}

/// A reader that has begun no frame stands ready, as after the upgrade.
pub proof fn new_reader_is_ready(at: Reading)
    requires
        at.raw.len() == 0,
    ensures
        at.ready(),
{
    reveal(frame_from);
}

/// A read looks no further than the bytes it takes, keeps those that no message has
/// used, and stands within a frame again unless it met an error.
pub proof fn look_keeps_what_is_unread(at: Reading, input: Seq<u8>)
    requires
        at.ready(),
    ensures
        ({
            let seen = look(at, input);
            let taken = at.unread() + input.take(seen.taken);
            let step = step_from(at.limits, at.partial, taken);
            &&& 0 <= seen.taken <= input.len()
            &&& step.outcome == seen.outcome
            &&& step.partial == seen.then_at.partial
            &&& 0 <= step.used <= taken.len()
            &&& seen.then_at.unread() == taken.skip(step.used)
            &&& !(seen.outcome is Folded)
            &&& !(seen.outcome is Refused) ==> seen.then_at.ready()
        }),
{
    let raw = at.raw + at.pending + input;
    let step = step_from(at.limits, at.partial, raw);
    let seen = look(at, input);
    let left = at.pending.len();
    let rest = at.pending + input;
    assert(at.raw + rest =~= raw);
    lemma_frame_goes_on(at.limits, at.partial, at.raw, rest);
    pieces_do_not_matter(at.limits, at.partial, raw, Seq::empty());
    assert(step.used + step.held >= at.raw.len()) by {
        reveal(step_from);
        lemma_frame_settled(at.limits, at.partial, raw, Seq::empty());
        let first = frame_from(at.limits, at.partial, raw);
        if first.outcome is Folded {
            pieces_do_not_matter(
                at.limits,
                first.partial,
                raw.skip(first.used),
                Seq::empty(),
            );
        }
    }
    let taken = at.unread() + input.take(seen.taken);
    assert(taken =~= raw.take(taken.len() as int));
    if step.outcome is NeedInput {
        assert(taken =~= raw);
    } else {
        lemma_taken_is_enough(at.limits, at.partial, raw, taken.len() as int);
    }
    assert(seen.then_at.unread() =~= taken.skip(step.used));
    lemma_waits_within_a_frame(at.limits, at.partial, raw);
}

/// What a server sends in binary frames, one after the other.
pub open spec fn binary_stream(payloads: Seq<Seq<u8>>) -> Seq<u8>
    decreases payloads.len(),
{
    if payloads.len() == 0 {
        Seq::empty()
    } else {
        server_frame(true, OP_BINARY, payloads[0]) + binary_stream(payloads.skip(1))
    }
}

/// Everything a server sends is handed over, in order and exactly once.
pub proof fn every_message_is_handed_over_once(limits: Limits, payloads: Seq<Seq<u8>>)
    requires
        limits.wf(),
        forall|i: int| 0 <= i < payloads.len() ==> (#[trigger] payloads[i]).len()
            <= limits.max_frame_size,
    ensures
        messages_in(limits, None, binary_stream(payloads)) == payloads.map_values(
            |p: Seq<u8>| FrameView::Binary(p),
        ),
    decreases payloads.len(),
{
    let sent = binary_stream(payloads);
    let want = payloads.map_values(|p: Seq<u8>| FrameView::Binary(p));
    if payloads.len() == 0 {
        reveal(frame_from);
        reveal(step_from);
        assert(head_at(sent) is Short);
        assert(want =~= Seq::empty());
    } else {
        let rest = payloads.skip(1);
        assert forall|i: int| 0 <= i < rest.len() implies (#[trigger] rest[i]).len()
            <= limits.max_frame_size by {
            assert(rest[i] == payloads[i + 1]);
        }
        every_message_is_handed_over_once(limits, rest);
        whole_message_is_read_back(limits, OP_BINARY, payloads[0], binary_stream(rest));
        let n = server_frame(true, OP_BINARY, payloads[0]).len() as int;
        assert(sent.skip(n) =~= binary_stream(rest));
        assert(want =~= seq![FrameView::Binary(payloads[0])] + rest.map_values(
            |p: Seq<u8>| FrameView::Binary(p),
        ));
    }
}

/// A message that a server sends in fragments is put together in order: its
/// first fragment begins it, and each one after adds its payload.
pub proof fn fragment_is_folded(
    limits: Limits,
    partial: PartialView,
    opcode: u8,
    payload: Seq<u8>,
    more: Seq<u8>,
)
    requires
        limits.wf(),
        payload.len() <= limits.max_frame_size,
        match partial {
            None => (opcode == OP_TEXT || opcode == OP_BINARY) && payload.len()
                <= limits.max_message_size,
            Some((_, so_far)) => opcode == OP_CONTINUATION && so_far.len() + payload.len()
                <= limits.max_message_size,
        },
    ensures
        ({
            let sent = server_frame(false, opcode, payload);
            let first = match partial {
                None => (opcode, payload),
                Some((begun, so_far)) => (begun, so_far + payload),
            };
            step_from(limits, partial, sent + more) == later(
                sent.len() as int,
                step_from(limits, Some(first), more),
            )
        }),
{
    reveal(frame_from);
    reveal(step_from);
    let sent = server_frame(false, opcode, payload);
    lemma_server_head(false, opcode, payload, more);
    assert((sent + more).subrange(sent.len() - payload.len(), sent.len() as int) =~= payload);
    assert((sent + more).skip(sent.len() as int) =~= more);
}

/// The last fragment of a message hands over all of it.
pub proof fn last_fragment_completes_the_message(
    limits: Limits,
    begun: u8,
    so_far: Seq<u8>,
    payload: Seq<u8>,
    more: Seq<u8>,
)
    requires
        limits.wf(),
        payload.len() <= limits.max_frame_size,
        so_far.len() + payload.len() <= limits.max_message_size,
    ensures
        ({
            let sent = server_frame(true, OP_CONTINUATION, payload);
            step_from(limits, Some((begun, so_far)), sent + more) == (Step {
                partial: None,
                used: sent.len() as int,
                held: 0,
                outcome: Outcome::Message(message_of(begun, so_far + payload)),
            })
        }),
{
    reveal(frame_from);
    reveal(step_from);
    let sent = server_frame(true, OP_CONTINUATION, payload);
    lemma_server_head(true, OP_CONTINUATION, payload, more);
    assert((sent + more).subrange(sent.len() - payload.len(), sent.len() as int) =~= payload);
}

/// A ping between the fragments of a message is handed over at once and leaves
/// the message as it was.
pub proof fn ping_leaves_the_message_alone(
    limits: Limits,
    partial: PartialView,
    payload: Seq<u8>,
    more: Seq<u8>,
)
    requires
        limits.wf(),
        payload.len() <= MAX_CONTROL_PAYLOAD,
    ensures
        ({
            let sent = server_frame(true, OP_PING, payload);
            step_from(limits, partial, sent + more) == (Step {
                partial,
                used: sent.len() as int,
                held: 0,
                outcome: Outcome::Message(FrameView::Ping(payload)),
            })
        }),
{
    reveal(frame_from);
    reveal(step_from);
    let sent = server_frame(true, OP_PING, payload);
    lemma_server_head(true, OP_PING, payload, more);
    assert((sent + more).subrange(sent.len() - payload.len(), sent.len() as int) =~= payload);
}

/// Unmasking is masking again: a server that applies the key to what was sent
/// has the payload.
pub proof fn masking_twice_is_nothing(payload: Seq<u8>, mask: Seq<u8>)
    requires
        mask.len() == 4,
    ensures
        masked(masked(payload, mask), mask) == payload,
{
    assert forall|i: int| 0 <= i < payload.len() implies #[trigger] masked(
        masked(payload, mask),
        mask,
    )[i] == payload[i] by {
        let b = payload[i];
        let m = mask[i % 4];
        assert((b ^ m) ^ m == b) by (bit_vector);
    }
    assert(masked(masked(payload, mask), mask) =~= payload);
}

/// A client's frame as a server makes it out.
pub struct ClientFrame {
    pub fin: bool,
    pub opcode: u8,
    pub key: Seq<u8>,
    pub payload: Seq<u8>,
}

/// The number of two bytes, or of eight, the most significant first.
pub open spec fn big_endian(bytes: Seq<u8>) -> int {
    if bytes.len() == 2 {
        bytes[0] * 0x100 + bytes[1]
    } else {
        bytes[0] * 0x100_0000_0000_0000 + bytes[1] * 0x1_0000_0000_0000 + bytes[2]
            * 0x100_0000_0000 + bytes[3] * 0x1_0000_0000 + bytes[4] * 0x100_0000 + bytes[5]
            * 0x1_0000 + bytes[6] * 0x100 + bytes[7]
    }
}

/// What a server makes of bytes from a client, which are one frame: the final bit and
/// the opcode in the first byte, the mask bit and the length in the second and in two or
/// eight more, then the key, then the payload under that key.
pub open spec fn server_reads(bytes: Seq<u8>) -> Option<ClientFrame> {
    if bytes.len() < 2 || bytes[1] < 0x80 {
        None
    } else {
        let short = bytes[1] - 0x80;
        let at: int = if short == 126 {
            4
        } else if short == 127 {
            10
        } else {
            2
        };
        let size = if at == 2 { short as int } else { big_endian(bytes.subrange(2, at)) };
        if bytes.len() != at + 4 + size {
            None
        } else {
            Some(
                ClientFrame {
                    fin: bytes[0] >= 0x80,
                    opcode: if bytes[0] >= 0x80 { (bytes[0] - 0x80) as u8 } else { bytes[0] },
                    key: bytes.subrange(at, at + 4),
                    payload: Seq::new(
                        size as nat,
                        |i: int| bytes[at + 4 + i] ^ bytes[at + i % 4],
                    ),
                },
            )
        }
    }
}

proof fn lemma_big_endian(value: nat, n: nat)
    requires
        n == 2 && value < 0x1_0000 || n == 8 && value <= u64::MAX,
    ensures
        be_bytes(value, n).len() == n,
        big_endian(be_bytes(value, n)) == value,
{
    reveal_with_fuel(be_bytes, 9);
    let bytes = be_bytes(value, n);
    if n == 8 {
        let a = value / 256;
        let b = a / 256;
        let c = b / 256;
        let d = c / 256;
        let e = d / 256;
        let f = e / 256;
        let g = f / 256;
        assert(g < 256);
        assert(bytes =~= seq![
            (g % 256) as u8,
            (f % 256) as u8,
            (e % 256) as u8,
            (d % 256) as u8,
            (c % 256) as u8,
            (b % 256) as u8,
            (a % 256) as u8,
            (value % 256) as u8,
        ]);
    } else {
        assert(bytes =~= seq![(value / 256 % 256) as u8, (value % 256) as u8]);
    }
}

/// What is sent is what was given: whatever the payload and the mask, a server that
/// takes the key from the frame and applies it to the bytes after it has the payload,
/// with the opcode, in one final frame that is no longer than it has to be.
pub proof fn server_has_what_was_sent(opcode: u8, payload: Seq<u8>, mask: Seq<u8>)
    requires
        opcode < 16,
        mask.len() == 4,
        payload.len() <= u64::MAX,
    ensures
        server_reads(client_frame(opcode, payload, mask)) == Some(
            ClientFrame { fin: true, opcode, key: mask, payload },
        ),
        client_frame(opcode, payload, mask).len() == payload.len() + if payload.len() <= 125 {
            6int
        } else if payload.len() <= 65535 {
            8
        } else {
            14
        },
        client_frame(opcode, payload, mask)[0] == 0x80 + opcode,
{
    let n = payload.len();
    let bytes = client_frame(opcode, payload, mask);
    let field = length_field(0x80, n);
    assert((0x80u8 | opcode) == 0x80 + opcode) by (bit_vector)
        requires
            opcode < 16,
    ;
    assert(bytes[0] == 0x80u8 | opcode);
    assert(bytes[1] == field[0]);
    if n <= 125 {
        let short = n as u8;
        assert((0x80u8 | short) == 0x80 + short) by (bit_vector)
            requires
                short <= 125,
        ;
    } else {
        assert(0x80u8 | 126u8 == 254 && 0x80u8 | 127u8 == 255) by (bit_vector);
        let size: nat = if n <= 65535 { 2 } else { 8 };
        lemma_big_endian(n, size);
        assert(bytes.subrange(2, 2 + size as int) =~= be_bytes(n, size));
    }
    let at = 1int + field.len();
    let got = server_reads(bytes)->0;
    assert(bytes.subrange(at, at + 4) =~= mask);
    assert forall|i: int| 0 <= i < n implies #[trigger] got.payload[i] == payload[i] by {
        let b = payload[i];
        let m = mask[i % 4];
        assert(bytes[at + 4 + i] == masked(payload, mask)[i]);
        assert(bytes[at + i % 4] == m);
        assert((b ^ m) ^ m == b) by (bit_vector);
    }
    assert(got.payload =~= payload);
    assert(got.key =~= mask);
}

/// The payload of a close frame is its code in two bytes, the high one first.
pub proof fn close_codes_are_two_bytes(code: u16)
    ensures
        be_bytes(code as nat, 2) == seq![(code / 256) as u8, (code % 256) as u8],
{
    reveal_with_fuel(be_bytes, 3);
    assert(be_bytes(code as nat, 2) =~= seq![(code / 256) as u8, (code % 256) as u8]);
}

/// A frame of a server, byte for byte: its first byte, its length in one, three or nine
/// bytes, and its payload.
pub open spec fn wire_frame(first: u8, wide: int, payload: Seq<u8>) -> Seq<u8> {
    let n = payload.len();
    seq![first] + (if wide == 2 {
        seq![126u8, (n / 256) as u8, (n % 256) as u8]
    } else if wide == 8 {
        seq![
            127u8,
            (n / 0x100_0000_0000_0000 % 256) as u8,
            (n / 0x1_0000_0000_0000 % 256) as u8,
            (n / 0x100_0000_0000 % 256) as u8,
            (n / 0x1_0000_0000 % 256) as u8,
            (n / 0x100_0000 % 256) as u8,
            (n / 0x1_0000 % 256) as u8,
            (n / 0x100 % 256) as u8,
            (n % 256) as u8,
        ]
    } else {
        seq![n as u8]
    }) + payload
}

/// Whether a payload's length can be given in this form.
pub open spec fn is_form(wide: int, n: nat) -> bool {
    (wide == 0 && n <= 125) || (wide == 2 && n <= 65535) || (wide == 8 && n <= usize::MAX)
}

proof fn lemma_wire_size(n: nat, wide: int)
    requires
        wide == 2 && n <= 65535 || wide == 8 && n <= usize::MAX,
    ensures
        ({
            let empty = wire_frame(0, wide, Seq::new(n, |i: int| 0u8));
            be_value(empty.subrange(2, 2 + wide)) == n
        }),
{
    let zeros = Seq::new(n, |i: int| 0u8);
    let empty = wire_frame(0, wide, zeros);
    let field = empty.subrange(2, 2 + wide);
    reveal_with_fuel(be_bytes, 9);
    reveal_with_fuel(pow256, 9);
    let bytes = be_bytes(n, wide as nat);
    lemma_be_bytes(n, wide as nat);
    if wide == 8 {
        lemma_divisions(n);
        assert(bytes =~= field);
    } else {
        assert(bytes =~= field);
    }
}

proof fn lemma_divisions(n: nat)
    ensures
        n / 256 / 256 == n / 0x1_0000,
        n / 256 / 256 / 256 == n / 0x100_0000,
        n / 256 / 256 / 256 / 256 == n / 0x1_0000_0000,
        n / 256 / 256 / 256 / 256 / 256 == n / 0x100_0000_0000,
        n / 256 / 256 / 256 / 256 / 256 / 256 == n / 0x1_0000_0000_0000,
        n / 256 / 256 / 256 / 256 / 256 / 256 / 256 == n / 0x100_0000_0000_0000,
{
}

proof fn lemma_wire_head(first: u8, wide: int, payload: Seq<u8>, more: Seq<u8>)
    requires
        is_form(wide, payload.len()),
        first & 0x70 == 0,
    ensures
        ({
            let sent = wire_frame(first, wide, payload);
            &&& head_at(sent + more) == (Head::Whole {
                fin: first & 0x80 != 0,
                opcode: first & 0x0f,
                len: 2 + wide,
                size: payload.len(),
            })
            &&& sent.len() == 2 + wide + payload.len()
            &&& (sent + more).subrange(2 + wide, sent.len() as int) == payload
            &&& (sent + more).skip(sent.len() as int) == more
        }),
{
    let n = payload.len();
    let sent = wire_frame(first, wide, payload);
    let raw = sent + more;
    assert(raw[0] == first);
    if wide == 0 {
        let len7 = n as u8;
        assert(len7 & 0x80 == 0 && len7 & 0x7f == len7) by (bit_vector)
            requires
                len7 <= 125,
        ;
        assert(raw[1] == len7);
    } else {
        assert(126u8 & 0x80 == 0 && 126u8 & 0x7f == 126 && 127u8 & 0x80 == 0 && 127u8 & 0x7f == 127)
            by (bit_vector);
        assert(raw[1] == if wide == 2 { 126u8 } else { 127u8 });
        lemma_wire_size(n, wide);
        let empty = wire_frame(0, wide, Seq::new(n, |i: int| 0u8));
        assert(raw.subrange(2, 2 + wide) =~= empty.subrange(2, 2 + wide));
    }
    assert(raw.subrange(2 + wide, sent.len() as int) =~= payload);
    assert(raw.skip(sent.len() as int) =~= more);
}

/// What each frame of a server means, by its first byte, whichever way its length is
/// given: 0x82 a binary message, 0x81 a text, 0x89 a ping, 0x8a a pong, 0x02 and 0x01 the
/// first fragment of one, 0x00 and 0x80 the next and the last.
pub proof fn frames_mean_what_the_protocol_says(
    limits: Limits,
    partial: PartialView,
    wide: int,
    payload: Seq<u8>,
    more: Seq<u8>,
)
    requires
        is_form(wide, payload.len()),
    ensures
        ({
            let n = payload.len();
            let used = 2 + wide + n;
            let data_fits = partial is None && n <= limits.max_frame_size;
            let part_fits = partial matches Some((_, so_far)) && so_far.len() + n
                <= limits.max_message_size && n <= limits.max_frame_size;
            let after = |first: u8| step_from(limits, partial, wire_frame(first, wide, payload) + more);
            let seen = |frame: FrameView|
                (Step { partial, used, held: 0, outcome: Outcome::Message(frame) });
            &&& data_fits ==> after(0x82) == seen(FrameView::Binary(payload))
            &&& data_fits ==> after(0x81) == seen(FrameView::Text(payload))
            &&& n <= 125 ==> after(0x89) == seen(FrameView::Ping(payload))
            &&& n <= 125 ==> after(0x8a) == seen(FrameView::Pong(payload))
            &&& data_fits && n <= limits.max_message_size ==> after(0x02) == later(
                used,
                step_from(limits, Some((2u8, payload)), more),
            )
            &&& data_fits && n <= limits.max_message_size ==> after(0x01) == later(
                used,
                step_from(limits, Some((1u8, payload)), more),
            )
            &&& part_fits ==> after(0x00) == later(
                used,
                step_from(limits, Some(((partial->0).0, (partial->0).1 + payload)), more),
            )
            &&& part_fits && (partial->0).0 == 2 ==> after(0x80) == (Step {
                partial: None,
                used,
                held: 0,
                outcome: Outcome::Message(FrameView::Binary((partial->0).1 + payload)),
            })
            &&& part_fits && (partial->0).0 == 1 ==> after(0x80) == (Step {
                partial: None,
                used,
                held: 0,
                outcome: Outcome::Message(FrameView::Text((partial->0).1 + payload)),
            })
        }),
{
    reveal(frame_from);
    reveal(step_from);
    assert(0x82u8 & 0x70 == 0 && 0x82u8 & 0x80 != 0 && 0x82u8 & 0x0f == 2 && 0x81u8 & 0x70 == 0
        && 0x81u8 & 0x80 != 0 && 0x81u8 & 0x0f == 1 && 0x89u8 & 0x70 == 0 && 0x89u8 & 0x80 != 0
        && 0x89u8 & 0x0f == 9 && 0x8au8 & 0x70 == 0 && 0x8au8 & 0x80 != 0 && 0x8au8 & 0x0f == 10
        && 0x02u8 & 0x70 == 0 && 0x02u8 & 0x80 == 0 && 0x02u8 & 0x0f == 2 && 0x01u8 & 0x70 == 0
        && 0x01u8 & 0x80 == 0 && 0x01u8 & 0x0f == 1 && 0x00u8 & 0x70 == 0 && 0x00u8 & 0x80 == 0
        && 0x00u8 & 0x0f == 0 && 0x80u8 & 0x70 == 0 && 0x80u8 & 0x80 != 0 && 0x80u8 & 0x0f == 0)
        by (bit_vector);
    lemma_wire_head(0x82, wide, payload, more);
    lemma_wire_head(0x81, wide, payload, more);
    lemma_wire_head(0x89, wide, payload, more);
    lemma_wire_head(0x8a, wide, payload, more);
    lemma_wire_head(0x02, wide, payload, more);
    lemma_wire_head(0x01, wide, payload, more);
    lemma_wire_head(0x00, wide, payload, more);
    lemma_wire_head(0x80, wide, payload, more);
}

/// A close frame, 0x88, is empty, or is a code in two bytes, the high one first, and a
/// reason in UTF-8; anything else is refused.
pub proof fn closes_say_why(limits: Limits, partial: PartialView, payload: Seq<u8>, more: Seq<u8>)
    requires
        payload.len() <= 125,
    ensures
        ({
            let step = step_from(limits, partial, wire_frame(0x88, 0, payload) + more);
            let seen = |close: Option<(u16, Seq<char>)>| Outcome::Message(FrameView::Close(close));
            &&& step.partial == partial
            &&& step.used == 2 + payload.len()
            &&& payload.len() == 0 ==> step.outcome == seen(None)
            &&& payload.len() == 1 ==> step.outcome == Outcome::Refused(WsError::OneByteClose)
            &&& payload.len() >= 2 && valid_utf8(payload.skip(2)) ==> step.outcome == seen(
                Some(((payload[0] * 256 + payload[1]) as u16, decode_utf8(payload.skip(2)))),
            )
            &&& payload.len() >= 2 && !valid_utf8(payload.skip(2)) ==> step.outcome
                == Outcome::Refused(WsError::CloseReasonNotUtf8)
        }),
{
    reveal(frame_from);
    reveal(step_from);
    assert(0x88u8 & 0x70 == 0 && 0x88u8 & 0x80 != 0 && 0x88u8 & 0x0f == 8) by (bit_vector);
    lemma_wire_head(0x88, 0, payload, more);
}

/// A server's frame is refused by its header alone: reserved bits, a mask, an opcode that
/// is not one, a control frame in fragments or beyond 125 bytes, a continuation of
/// nothing, a message inside a message, and anything beyond the limits.
pub proof fn frames_are_refused_by_their_header(
    limits: Limits,
    partial: PartialView,
    first: u8,
    wide: int,
    payload: Seq<u8>,
    raw: Seq<u8>,
)
    requires
        is_form(wide, payload.len()),
    ensures
        ({
            let n = payload.len();
            let got = step_from(limits, partial, wire_frame(first, wide, payload)).outcome;
            let so_far = match partial {
                Some((_, data)) => data.len() as int,
                None => 0,
            };
            let opcode = first % 16;
            &&& raw.len() >= 2 && raw[0] & 0x70 != 0 ==> step_from(limits, partial, raw).outcome
                == Outcome::Refused(WsError::ReservedBits)
            &&& raw.len() >= 2 && raw[0] & 0x70 == 0 && raw[1] >= 0x80 ==> step_from(
                limits,
                partial,
                raw,
            ).outcome == Outcome::Refused(WsError::Masked)
            &&& first & 0x70 == 0 ==> {
                &&& 3 <= opcode <= 7 || opcode >= 11 ==> got == Outcome::Refused(
                    WsError::ReservedOpcode,
                )
                &&& 8 <= opcode <= 10 && first < 0x80 ==> got == Outcome::Refused(
                    WsError::FragmentedControl,
                )
                &&& 8 <= opcode <= 10 && first >= 0x80 && n > 125 ==> got == Outcome::Refused(
                    WsError::ControlTooLong,
                )
                &&& opcode == 0 && partial is None ==> got == Outcome::Refused(
                    WsError::ContinuationAlone,
                )
                &&& opcode == 0 && partial is Some && so_far + n > limits.max_message_size ==> got
                    == Outcome::Refused(WsError::MessageTooLong)
                &&& opcode == 0 && partial is Some && so_far + n <= limits.max_message_size && n
                    > limits.max_frame_size ==> got == Outcome::Refused(WsError::FrameTooLong)
                &&& 1 <= opcode <= 2 && partial is Some ==> got == Outcome::Refused(
                    WsError::DataInsideMessage,
                )
                &&& 1 <= opcode <= 2 && partial is None && n > limits.max_frame_size ==> got
                    == Outcome::Refused(WsError::FrameTooLong)
                &&& 1 <= opcode <= 2 && partial is None && n <= limits.max_frame_size && first
                    < 0x80 && n > limits.max_message_size ==> got == Outcome::Refused(
                    WsError::MessageTooLong,
                )
            }
        }),
{
    reveal(frame_from);
    reveal(step_from);
    assert(first & 0x0f == first % 16 && (first & 0x80 != 0 <==> first >= 0x80)) by (bit_vector);
    if raw.len() >= 2 {
        let second = raw[1];
        assert(second & 0x80 != 0 <==> second >= 0x80) by (bit_vector);
    }
    if first & 0x70 == 0 {
        let none = Seq::<u8>::empty();
        lemma_wire_head(first, wide, payload, none);
        assert(wire_frame(first, wide, payload) + none =~= wire_frame(first, wide, payload));
    }
}

/// A frame is viewed as what it is.
pub proof fn frames_are_viewed_as_they_are(frame: Frame)
    ensures
        frame matches Frame::Binary(data) ==> frame@ == FrameView::Binary(content(data)),
        frame matches Frame::Text(data) ==> frame@ == FrameView::Text(content(data)),
        frame matches Frame::Ping(data) ==> frame@ == FrameView::Ping(content(data)),
        frame matches Frame::Pong(data) ==> frame@ == FrameView::Pong(content(data)),
        frame matches Frame::Close(None) ==> frame@ == FrameView::Close(None),
        frame matches Frame::Close(Some((code, reason))) ==> frame@ == FrameView::Close(
            Some((code, reason@)),
        ),
{
}

/// What is wrong with a frame is told in these words.
pub proof fn errors_are_told_in_words(error: WsError)
    ensures
        error.spec_message() == match error {
            WsError::ReservedBits => "websocket: reserved bits set"@,
            WsError::Masked => "websocket: server frame is masked"@,
            WsError::LengthOverflow => "websocket: frame length overflows usize"@,
            WsError::FragmentedControl => "websocket: fragmented control frame"@,
            WsError::ControlTooLong => "websocket: control frame payload over 125 bytes"@,
            WsError::ContinuationAlone => "websocket: continuation frame without a message"@,
            WsError::MessageTooLong => "websocket: fragmented message over the size limit"@,
            WsError::FrameTooLong => "websocket: frame over the size limit"@,
            WsError::DataInsideMessage => "websocket: new data frame inside a fragmented message"@,
            WsError::ReservedOpcode => "websocket: reserved opcode"@,
            WsError::OneByteClose => "websocket: close frame with a 1-byte payload"@,
            WsError::CloseReasonNotUtf8 => "websocket: close reason is not UTF-8"@,
        }
    ,
{
}

/// A read returns the message that became whole, or the error that was met, and nothing
/// while bytes are missing.
pub proof fn reads_return_what_was_read(
    message: FrameView,
    error: WsError,
    r: Result<Option<Frame>, WsError>,
)
    ensures
        step_result(Outcome::Message(message), r) <==> r is Ok && r->Ok_0 is Some && (r->Ok_0->0)@
            == message,
        step_result(Outcome::Refused(error), r) <==> r is Err && r->Err_0 == error,
        step_result(Outcome::NeedInput, r) <==> r is Ok && r->Ok_0 is None,
{
}

/// A reader that stands within a frame always wants more: the rest of the two bytes that
/// every header has, then the rest of the header, then the rest of the payload.
pub proof fn readers_want_the_rest_of_their_frame(
    first: u8,
    wide: int,
    payload: Seq<u8>,
    at: int,
)
    requires
        is_form(wide, payload.len()),
        first & 0x70 == 0,
        0 <= at <= 2 + wide + payload.len(),
    ensures
        wanted_after(wire_frame(first, wide, payload).take(at)) == if at < 2 {
            2 - at
        } else if at < 2 + wide {
            2 + wide - at
        } else {
            2 + wide + payload.len() - at
        },
{
    let sent = wire_frame(first, wide, payload);
    let raw = sent.take(at);
    let none = Seq::<u8>::empty();
    lemma_wire_head(first, wide, payload, none);
    assert(sent + none =~= sent);
    if at >= 2 {
        assert(raw[0] == sent[0] && raw[1] == sent[1]);
        if at >= 2 + wide {
            assert(raw.subrange(2, 2 + wide) =~= sent.subrange(2, 2 + wide));
        }
    }
}

} // verus!
