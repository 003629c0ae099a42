//! Decoding of the HTTP/1.1 chunked transfer coding.

use crate::scan::{find_byte, find_from, lemma_find_from, lemma_find_is};
use vstd::prelude::*;

verus! {

/// The most bytes one size line, or all trailers of a body together, may take.
pub const MAX_METADATA_BYTES: usize = 8192;

/// Why a chunked body was refused.
#[derive(Clone, Copy, Debug, PartialEq, Eq, Structural)]
pub enum ChunkError {
    /// A line did not end in CR LF within its limit or before the stream ended.
    Metadata,
    /// Two bytes other than CR LF follow a chunk's payload.
    Terminator,
    /// The stream ended within the two bytes that follow a chunk's payload.
    TerminatorCut,
    /// The size is missing or is not hexadecimal.
    Size,
    /// The size does not fit in 64 bits.
    SizeRange,
    /// A trailer line has no colon.
    Trailer,
    /// The stream ended within a chunk's payload.
    Payload,
}

impl ChunkError {
    /// Whether the stream ended too early, as opposed to holding wrong bytes.
    pub open spec fn spec_is_unexpected_eof(self) -> bool {
        self == ChunkError::TerminatorCut || self == ChunkError::Payload
    }

    /// Whether the stream ended too early, as opposed to holding wrong bytes.
    pub fn is_unexpected_eof(&self) -> (r: bool)
        ensures
            r == self.spec_is_unexpected_eof(),
    {
        matches!(*self, ChunkError::TerminatorCut | ChunkError::Payload)
    }

    /// The sentence for `message`.
    pub open spec fn spec_message(self) -> Seq<char> {
        match self {
            ChunkError::Metadata => "Truncated or oversized HTTP chunk metadata"@,
            ChunkError::Terminator => "Invalid chunk terminator"@,
            ChunkError::TerminatorCut => "failed to fill whole buffer"@,
            ChunkError::Size => "Invalid HTTP chunk size"@,
            ChunkError::SizeRange => "number too large to fit in target type"@,
            ChunkError::Trailer => "Invalid HTTP trailer"@,
            ChunkError::Payload => "Truncated HTTP chunk"@,
        }
    }

    /// A sentence for a log.
    pub fn message(&self) -> (r: &'static str)
        ensures
            r@ == self.spec_message(),
    {
        match *self {
            ChunkError::Metadata => "Truncated or oversized HTTP chunk metadata",
            ChunkError::Terminator => "Invalid chunk terminator",
            ChunkError::TerminatorCut => "failed to fill whole buffer",
            ChunkError::Size => "Invalid HTTP chunk size",
            ChunkError::SizeRange => "number too large to fit in target type",
            ChunkError::Trailer => "Invalid HTTP trailer",
            ChunkError::Payload => "Truncated HTTP chunk",
        }
    }
}

/// What one line at the front of some bytes turns out to be.
#[derive(Clone, Copy, Debug, PartialEq, Eq, Structural)]
pub enum Line {
    /// No line end yet, and the limit is not reached.
    Short,
    /// No CR LF within the limit, or a bare LF; this many bytes were looked at.
    Bad(usize),
    /// A line of this many bytes, CR LF counted.
    Whole(usize),
}

/// The line at the front of `bytes`, of at most `limit` bytes.
pub open spec fn line_at(bytes: Seq<u8>, limit: usize) -> Line {
    let window = if bytes.len() < limit { bytes } else { bytes.take(limit as int) };
    let lf = find_from(window, 10u8, 0);
    if lf < window.len() {
        if lf >= 1 && window[lf - 1] == 13u8 {
            Line::Whole((lf + 1) as usize)
        } else {
            Line::Bad((lf + 1) as usize)
        }
    } else if bytes.len() < limit {
        Line::Short
    } else {
        Line::Bad(limit)
    }
}

fn line(bytes: &[u8], limit: usize) -> (r: Line)
    ensures
        r == line_at(bytes@, limit),
        r matches Line::Whole(n) ==> 2 <= n <= bytes@.len() && n <= limit,
        r matches Line::Bad(n) ==> n <= bytes@.len() && n <= limit,
{
    let window = if bytes.len() < limit { bytes } else { &bytes[0..limit] };
    let lf = find_byte(window, 10);
    if lf < window.len() {
        if lf >= 1 && window[lf - 1] == 13 {
            Line::Whole(lf + 1)
        } else {
            Line::Bad(lf + 1)
        }
    } else if bytes.len() < limit {
        Line::Short
    } else {
        Line::Bad(limit)
    }
}

/// The value of a hexadecimal digit, in either case.
pub open spec fn hex_digit_value(b: u8) -> Option<nat> {
    if 48 <= b <= 57 {
        Some((b - 48) as nat)
    } else if 97 <= b <= 102 {
        Some((b - 87) as nat)
    } else if 65 <= b <= 70 {
        Some((b - 55) as nat)
    } else {
        None
    }
}

/// Whether `digits` is a hexadecimal number: at least one digit and nothing else.
pub open spec fn is_hex(digits: Seq<u8>) -> bool {
    digits.len() > 0 && forall|i: int|
        0 <= i < digits.len() ==> hex_digit_value(#[trigger] digits[i]) is Some
}

/// The number that hexadecimal digits write.
pub open spec fn hex_value(digits: Seq<u8>) -> nat
    decreases digits.len(),
{
    if digits.len() == 0 {
        0
    } else {
        hex_value(digits.drop_last()) * 16 + hex_digit_value(digits.last())->0
    }
}

proof fn lemma_hex_value_grows(digits: Seq<u8>, n: int)
    requires
        0 <= n <= digits.len(),
    ensures
        hex_value(digits.take(n)) <= hex_value(digits),
    decreases digits.len() - n,
{
    if n < digits.len() {
        lemma_hex_value_grows(digits.drop_last(), n);
        assert(digits.drop_last().take(n) =~= digits.take(n));
    } else {
        assert(digits.take(n) =~= digits);
    }
}

fn hex_digit(b: u8) -> (r: Option<u8>)
    ensures
        r is Some == hex_digit_value(b) is Some,
        r matches Some(v) ==> v < 16 && v == hex_digit_value(b)->0,
{
    if 48 <= b && b <= 57 {
        Some(b - 48)
    } else if 97 <= b && b <= 102 {
        Some(b - 87)
    } else if 65 <= b && b <= 70 {
        Some(b - 55)
    } else {
        None
    }
}

fn chunk_size(digits: &[u8]) -> (r: Result<u64, ChunkError>)
    ensures
        r == size_of_digits(digits@),
{
    let mut i: usize = 0;
    while i < digits.len()
        invariant
            i <= digits@.len(),
            forall|j: int| 0 <= j < i ==> hex_digit_value(#[trigger] digits@[j]) is Some,
        decreases digits@.len() - i,
    {
        if hex_digit(digits[i]).is_none() {
            return Err(ChunkError::Size);
        }
        i += 1;
    }
    if digits.len() == 0 {
        return Err(ChunkError::Size);
    }
    let mut value: u64 = 0;
    let mut k: usize = 0;
    while k < digits.len()
        invariant
            k <= digits@.len(),
            is_hex(digits@),
            value == hex_value(digits@.take(k as int)),
        decreases digits@.len() - k,
    {
        proof {
            let next = digits@.take(k + 1);
            assert(next.drop_last() =~= digits@.take(k as int));
            assert(next.last() == digits@[k as int]);
            assert(hex_value(next) == hex_value(next.drop_last()) * 16 + hex_digit_value(
                next.last(),
            )->0);
            lemma_hex_value_grows(digits@, k + 1);
        }
        let digit: u64 = match hex_digit(digits[k]) {
            Some(v) => v as u64,
            None => 0,
        };
        if value > 0x0fff_ffff_ffff_ffff {
            return Err(ChunkError::SizeRange);
        }
        value = value * 16 + digit;
        k += 1;
    }
    assert(digits@.take(k as int) =~= digits@);
    Ok(value)
}

/// The size that the digits of a size line give.
pub open spec fn size_of_digits(digits: Seq<u8>) -> Result<u64, ChunkError> {
    if !is_hex(digits) {
        Err(ChunkError::Size)
    } else if hex_value(digits) > u64::MAX {
        Err(ChunkError::SizeRange)
    } else {
        Ok(hex_value(digits) as u64)
    }
}

/// What stands between two payloads, or after the last one.
#[derive(Clone, Copy, Debug, PartialEq, Eq, Structural)]
pub enum Metadata {
    /// The bytes at hand end within it.
    Short,
    /// It is not well formed, which shows after this many bytes.
    Bad { len: usize, error: ChunkError },
    /// After this many bytes a payload of `size` bytes begins.
    Chunk { len: usize, size: u64 },
    /// After this many bytes the body is over.
    Last { len: usize },
}

/// The trailers that follow the last size line, with `budget` bytes left for
/// them: how many bytes they take, the empty line at their end counted.
pub open spec fn trailers_at(bytes: Seq<u8>, budget: usize) -> Metadata
    decreases bytes.len(),
    via trailers_shrink
{
    match line_at(bytes, budget) {
        Line::Short => Metadata::Short,
        Line::Bad(n) => Metadata::Bad { len: n, error: ChunkError::Metadata },
        Line::Whole(n) => if n == 2 {
            Metadata::Last { len: n }
        } else if !bytes.take(n - 2).contains(58u8) {
            Metadata::Bad { len: n, error: ChunkError::Trailer }
        } else {
            after(n as int, trailers_at(bytes.skip(n as int), (budget - n) as usize))
        },
    }
}

#[via_fn]
proof fn trailers_shrink(bytes: Seq<u8>, budget: usize) {
    lemma_line(bytes, budget);
}

/// A whole line holds its CR LF, and lies within the bytes and the limit.
proof fn lemma_line(bytes: Seq<u8>, limit: usize)
    ensures
        line_at(bytes, limit) matches Line::Whole(n) ==> 2 <= n <= bytes.len() && n <= limit,
        line_at(bytes, limit) matches Line::Bad(n) ==> n <= bytes.len() && n <= limit,
{
    let window = if bytes.len() < limit { bytes } else { bytes.take(limit as int) };
    lemma_find_from(window, 10u8, 0);
}

/// The same metadata, with `n` more bytes in front of it.
pub open spec fn after(n: int, rest: Metadata) -> Metadata {
    match rest {
        Metadata::Chunk { len, size } => Metadata::Chunk { len: (n + len) as usize, size },
        Metadata::Last { len } => Metadata::Last { len: (n + len) as usize },
        Metadata::Bad { len, error } => Metadata::Bad { len: (n + len) as usize, error },
        Metadata::Short => Metadata::Short,
    }
}

/// A size line, with the trailers where the size is zero.
#[verifier::opaque]
pub open spec fn size_line_at(bytes: Seq<u8>) -> Metadata {
    match line_at(bytes, MAX_METADATA_BYTES) {
        Line::Short => Metadata::Short,
        Line::Bad(n) => Metadata::Bad { len: n, error: ChunkError::Metadata },
        Line::Whole(n) => {
            let text = bytes.take(n - 2);
            match size_of_digits(text.take(find_from(text, 59u8, 0))) {
                Err(error) => Metadata::Bad { len: n, error },
                Ok(0) => after(
                    n as int,
                    trailers_at(bytes.skip(n as int), MAX_METADATA_BYTES),
                ),
                Ok(size) => Metadata::Chunk { len: n, size },
            }
        },
    }
}

/// All that stands before the next payload: the CR LF that ends the one before,
/// where there was one, and the size line.
#[verifier::opaque]
pub open spec fn metadata_at(needs_crlf: bool, bytes: Seq<u8>) -> Metadata {
    if !needs_crlf {
        size_line_at(bytes)
    } else if bytes.len() < 2 {
        Metadata::Short
    } else if bytes[0] != 13u8 || bytes[1] != 10u8 {
        Metadata::Bad { len: 2, error: ChunkError::Terminator }
    } else {
        after(2, size_line_at(bytes.skip(2)))
    }
}

/// Trailers lie within the bytes and the budget.
proof fn lemma_trailers(bytes: Seq<u8>, budget: usize)
    ensures
        trailers_at(bytes, budget) matches Metadata::Last { len } ==> 2 <= len <= bytes.len()
            && len <= budget,
        trailers_at(bytes, budget) matches Metadata::Bad { len, .. } ==> len <= bytes.len() && len
            <= budget,
        !(trailers_at(bytes, budget) is Chunk),
    decreases bytes.len(),
{
    lemma_line(bytes, budget);
    if let Line::Whole(n) = line_at(bytes, budget) {
        if n != 2 {
            lemma_trailers(bytes.skip(n as int), (budget - n) as usize);
        }
    }
}

fn trailers(bytes: &[u8]) -> (r: Metadata)
    ensures
        r == trailers_at(bytes@, MAX_METADATA_BYTES),
        r matches Metadata::Last { len } ==> len <= MAX_METADATA_BYTES && len <= bytes@.len(),
        r matches Metadata::Bad { len, .. } ==> len <= MAX_METADATA_BYTES && len <= bytes@.len(),
        !(r is Chunk),
{
    let mut pos: usize = 0;
    proof {
        assert(bytes@.skip(0) =~= bytes@);
        lemma_trailers(bytes@, MAX_METADATA_BYTES);
    }
    loop
        invariant
            pos <= bytes@.len(),
            pos <= MAX_METADATA_BYTES,
            trailers_at(bytes@, MAX_METADATA_BYTES) == after(
                pos as int,
                trailers_at(bytes@.skip(pos as int), (MAX_METADATA_BYTES - pos) as usize),
            ),
        decreases bytes@.len() - pos,
    {
        let rest = &bytes[pos..bytes.len()];
        assert(rest@ =~= bytes@.skip(pos as int));
        match line(rest, MAX_METADATA_BYTES - pos) {
            Line::Short => {
                return Metadata::Short;
            },
            Line::Bad(n) => {
                return Metadata::Bad { len: pos + n, error: ChunkError::Metadata };
            },
            Line::Whole(n) => {
                if n == 2 {
                    return Metadata::Last { len: pos + 2 };
                }
                let text = &rest[0..n - 2];
                assert(text@ =~= rest@.take(n - 2));
                let colon = find_byte(text, 58);
                proof {
                    lemma_find_from(text@, 58u8, 0);
                    assert(text@.contains(58u8) <==> colon < text@.len());
                    assert(rest@.skip(n as int) =~= bytes@.skip(pos + n));
                    lemma_trailers(bytes@.skip(pos + n), (MAX_METADATA_BYTES - pos - n) as usize);
                }
                if colon == text.len() {
                    return Metadata::Bad { len: pos + n, error: ChunkError::Trailer };
                }
                pos += n;
            },
        }
    }
}

fn size_line(bytes: &[u8]) -> (r: Metadata)
    ensures
        r == size_line_at(bytes@),
        r matches Metadata::Last { len } ==> len <= 2 * MAX_METADATA_BYTES && len <= bytes@.len(),
        r matches Metadata::Bad { len, .. } ==> len <= 2 * MAX_METADATA_BYTES && len
            <= bytes@.len(),
        r matches Metadata::Chunk { len, size } ==> len <= MAX_METADATA_BYTES && len <= bytes@.len()
            && size > 0,
{
    reveal(size_line_at);
    match line(bytes, MAX_METADATA_BYTES) {
        Line::Short => Metadata::Short,
        Line::Bad(n) => Metadata::Bad { len: n, error: ChunkError::Metadata },
        Line::Whole(n) => {
            let text = &bytes[0..n - 2];
            assert(text@ =~= bytes@.take(n - 2));
            let digits = &text[0..find_byte(text, 59)];
            assert(digits@ =~= text@.take(find_from(text@, 59u8, 0)));
            match chunk_size(digits) {
                Err(error) => Metadata::Bad { len: n, error },
                Ok(size) => if size == 0 {
                    let rest = &bytes[n..bytes.len()];
                    assert(rest@ =~= bytes@.skip(n as int));
                    match trailers(rest) {
                        Metadata::Last { len } => Metadata::Last { len: n + len },
                        Metadata::Bad { len, error } => Metadata::Bad { len: n + len, error },
                        other => other,
                    }
                } else {
                    Metadata::Chunk { len: n, size }
                },
            }
        },
    }
}

fn metadata(needs_crlf: bool, bytes: &[u8]) -> (r: Metadata)
    ensures
        r == metadata_at(needs_crlf, bytes@),
        r matches Metadata::Last { len } ==> len <= bytes@.len(),
        r matches Metadata::Bad { len, .. } ==> len <= bytes@.len(),
        r matches Metadata::Chunk { len, size } ==> len <= bytes@.len() && size > 0,
{
    reveal(metadata_at);
    if !needs_crlf {
        size_line(bytes)
    } else if bytes.len() < 2 {
        Metadata::Short
    } else if bytes[0] != 13 || bytes[1] != 10 {
        Metadata::Bad { len: 2, error: ChunkError::Terminator }
    } else {
        let rest = &bytes[2..bytes.len()];
        assert(rest@ =~= bytes@.skip(2));
        match size_line(rest) {
            Metadata::Chunk { len, size } => Metadata::Chunk { len: 2 + len, size },
            Metadata::Last { len } => Metadata::Last { len: 2 + len },
            Metadata::Bad { len, error } => Metadata::Bad { len: 2 + len, error },
            Metadata::Short => Metadata::Short,
        }
    }
}

/// The place of a reader in a chunked body.
#[derive(Clone, Copy, Debug, PartialEq, Eq, Structural)]
pub struct ChunkedReader {
    /// Bytes of the current chunk's payload that are still to come.
    pub remaining: u64,
    /// A payload was begun, so CR LF stands before the next size line.
    pub needs_crlf: bool,
    /// The end of the body was read.
    pub finished: bool,
}

/// What one read of a chunked body comes to.
#[derive(Clone, Copy, Debug, PartialEq, Eq, Structural)]
pub enum ChunkRead {
    /// More bytes of the stream are needed; none was used.
    NeedInput,
    /// Of the bytes at hand `skip` are framing, and the `take` after them payload.
    Data { skip: usize, take: usize },
    /// The body is over; `skip` bytes of framing ended it.
    End { skip: usize },
    /// The body is refused for the `skip` bytes at hand.
    Failed { skip: usize, error: ChunkError },
}

/// What a reader at `at` makes of `input`, when it is asked for at most `want`
/// bytes and `at_end` says whether the stream ends with `input`.
pub open spec fn chunk_read(at: ChunkedReader, input: Seq<u8>, at_end: bool, want: int) -> (
    ChunkedReader,
    ChunkRead,
) {
    if want == 0 || at.finished {
        (at, ChunkRead::End { skip: 0 })
    } else if at.remaining > 0 {
        payload_read(at, 0, input, at_end, want)
    } else {
        match metadata_at(at.needs_crlf, input) {
            Metadata::Short => if !at_end {
                (at, ChunkRead::NeedInput)
            } else {
                (
                    at,
                    ChunkRead::Failed {
                        skip: input.len() as usize,
                        error: if at.needs_crlf && input.len() < 2 {
                            ChunkError::TerminatorCut
                        } else {
                            ChunkError::Metadata
                        },
                    },
                )
            },
            Metadata::Bad { len, error } => (at, ChunkRead::Failed { skip: len, error }),
            Metadata::Last { len } => (
                ChunkedReader { finished: true, ..at },
                ChunkRead::End { skip: len },
            ),
            Metadata::Chunk { len, size } => {
                let (then_at, step) = payload_read(
                    ChunkedReader { remaining: size, needs_crlf: true, finished: false },
                    len as int,
                    input,
                    at_end,
                    want,
                );
                if step is NeedInput {
                    (at, step)
                } else {
                    (then_at, step)
                }
            },
        }
    }
}

/// A read within a payload that begins, or goes on, `skip` bytes into `input`.
pub open spec fn payload_read(
    at: ChunkedReader,
    skip: int,
    input: Seq<u8>,
    at_end: bool,
    want: int,
) -> (ChunkedReader, ChunkRead) {
    let held = input.len() - skip;
    if held > 0 {
        let count = if at.remaining < want { at.remaining as int } else { want };
        let take = if held < count { held } else { count };
        (
            ChunkedReader { remaining: (at.remaining - take) as u64, ..at },
            ChunkRead::Data { skip: skip as usize, take: take as usize },
        )
    } else if at_end {
        (at, ChunkRead::Failed { skip: skip as usize, error: ChunkError::Payload })
    } else {
        (at, ChunkRead::NeedInput)
    }
}

impl ChunkedReader {
    /// A reader before the first byte of a body.
    pub fn new() -> (r: ChunkedReader)
        ensures
            r == (ChunkedReader { remaining: 0, needs_crlf: false, finished: false }),
    {
        ChunkedReader { remaining: 0, needs_crlf: false, finished: false }
    }

    fn read_payload(
        &mut self,
        skip: usize,
        input: &[u8],
        at_end: bool,
        want: usize,
    ) -> (r: ChunkRead)
        requires
            skip <= input@.len(),
        ensures
            (*final(self), r) == payload_read(*old(self), skip as int, input@, at_end, want as int),
    {
        let held = input.len() - skip;
        if held > 0 {
            let count: usize = if self.remaining < want as u64 {
                self.remaining as usize
            } else {
                want
            };
            let take: usize = if held < count { held } else { count };
            self.remaining = self.remaining - take as u64;
            ChunkRead::Data { skip, take }
        } else if at_end {
            ChunkRead::Failed { skip, error: ChunkError::Payload }
        } else {
            ChunkRead::NeedInput
        }
    }

    /// Reads at most `want` bytes of payload. `input` holds the bytes of the
    /// stream that no earlier read used, and `at_end` says that no more follow.
    /// The caller drops `skip` bytes of `input` and then takes `take` of them.
    /// A read that needs more input leaves the reader where it was. One that fails
    /// has done with the `skip` bytes it looked at, and a read after it goes on behind
    /// them.
    pub fn read(&mut self, input: &[u8], at_end: bool, want: usize) -> (r: ChunkRead)
        ensures
            (*final(self), r) == chunk_read(*old(self), input@, at_end, want as int),
            r matches ChunkRead::Data { skip, take } ==> skip + take <= input@.len() && 0 < take
                <= want,
            r matches ChunkRead::End { skip } ==> skip <= input@.len(),
            r matches ChunkRead::Failed { skip, .. } ==> skip <= input@.len(),
    {
        if want == 0 || self.finished {
            return ChunkRead::End { skip: 0 };
        }
        if self.remaining > 0 {
            return self.read_payload(0, input, at_end, want);
        }
        match metadata(self.needs_crlf, input) {
            Metadata::Short => if !at_end {
                ChunkRead::NeedInput
            } else if self.needs_crlf && input.len() < 2 {
                ChunkRead::Failed { skip: input.len(), error: ChunkError::TerminatorCut }
            } else {
                ChunkRead::Failed { skip: input.len(), error: ChunkError::Metadata }
            },
            Metadata::Bad { len, error } => ChunkRead::Failed { skip: len, error },
            Metadata::Last { len } => {
                self.finished = true;
                ChunkRead::End { skip: len }
            },
            Metadata::Chunk { len, size } => {
                let mut within = ChunkedReader {
                    remaining: size,
                    needs_crlf: true,
                    finished: false,
                };
                let step = within.read_payload(len, input, at_end, want);
                if step != ChunkRead::NeedInput {
                    *self = within;
                }
                step
            },
        }
    }
}

/// What a whole body comes to, read from `at` on: its payload, and how many
/// bytes of `bytes` it takes. `None` where it is refused or is cut short.
pub open spec fn body(at: ChunkedReader, bytes: Seq<u8>) -> Option<(Seq<u8>, int)>
    decreases bytes.len(), at.remaining,
    via body_shrinks
{
    if at.finished {
        Some((Seq::empty(), 0))
    } else if at.remaining > 0 {
        if bytes.len() < at.remaining {
            None
        } else {
            following(
                bytes.take(at.remaining as int),
                at.remaining as int,
                body(
                    ChunkedReader { remaining: 0, ..at },
                    bytes.skip(at.remaining as int),
                ),
            )
        }
    } else {
        match metadata_at(at.needs_crlf, bytes) {
            Metadata::Chunk { len, size } => following(
                Seq::empty(),
                len as int,
                body(
                    ChunkedReader { remaining: size, needs_crlf: true, finished: false },
                    bytes.skip(len as int),
                ),
            ),
            Metadata::Last { len } => Some((Seq::empty(), len as int)),
            _ => None,
        }
    }
}

/// A body whose first `n` bytes give `payload`, with the rest of it after that.
pub open spec fn following(payload: Seq<u8>, n: int, rest: Option<(Seq<u8>, int)>) -> Option<
    (Seq<u8>, int),
> {
    match rest {
        Some((more, len)) => Some((payload + more, n + len)),
        None => None,
    }
}

#[via_fn]
proof fn body_shrinks(at: ChunkedReader, bytes: Seq<u8>) {
    lemma_metadata(at.needs_crlf, bytes);
}

/// Metadata lies within the bytes, and takes at least a size line.
proof fn lemma_metadata(needs_crlf: bool, bytes: Seq<u8>)
    ensures
        metadata_at(needs_crlf, bytes) matches Metadata::Chunk { len, size } ==> 0 < len
            <= bytes.len() && size > 0,
        metadata_at(needs_crlf, bytes) matches Metadata::Last { len } ==> 0 < len <= bytes.len(),
{
    reveal(metadata_at);
    reveal(size_line_at);
    let text = if needs_crlf { bytes.skip(2) } else { bytes };
    lemma_line(text, MAX_METADATA_BYTES);
    if let Line::Whole(n) = line_at(text, MAX_METADATA_BYTES) {
        lemma_trailers(text.skip(n as int), MAX_METADATA_BYTES);
    }
}

/// A line that is whole or bad stays so, whatever follows.
proof fn lemma_line_settled(bytes: Seq<u8>, more: Seq<u8>, limit: usize)
    requires
        line_at(bytes, limit) != Line::Short,
    ensures
        line_at(bytes + more, limit) == line_at(bytes, limit),
{
    let all = bytes + more;
    let window = if bytes.len() < limit { bytes } else { bytes.take(limit as int) };
    let wider = if all.len() < limit { all } else { all.take(limit as int) };
    lemma_find_from(window, 10u8, 0);
    let lf = find_from(window, 10u8, 0);
    if lf < window.len() {
        assert forall|i: int| 0 <= i < lf implies wider[i] != 10u8 by {
            assert(wider[i] == window[i]);
        }
        lemma_find_is(wider, 10u8, 0, lf);
        assert(wider[lf] == window[lf]);
        if lf >= 1 {
            assert(wider[lf - 1] == window[lf - 1]);
        }
    } else {
        assert(wider =~= window);
    }
}

proof fn lemma_trailers_settled(bytes: Seq<u8>, more: Seq<u8>, budget: usize)
    requires
        trailers_at(bytes, budget) != Metadata::Short,
    ensures
        trailers_at(bytes + more, budget) == trailers_at(bytes, budget),
    decreases bytes.len(),
{
    lemma_line(bytes, budget);
    lemma_line_settled(bytes, more, budget);
    if let Line::Whole(n) = line_at(bytes, budget) {
        assert((bytes + more).take(n - 2) =~= bytes.take(n - 2));
        if n != 2 && bytes.take(n - 2).contains(58u8) {
            assert((bytes + more).skip(n as int) =~= bytes.skip(n as int) + more);
            lemma_trailers_settled(bytes.skip(n as int), more, (budget - n) as usize);
        }
    }
}

proof fn lemma_size_line_settled(text: Seq<u8>, more: Seq<u8>)
    requires
        size_line_at(text) != Metadata::Short,
    ensures
        size_line_at(text + more) == size_line_at(text),
{
    reveal(size_line_at);
    lemma_line(text, MAX_METADATA_BYTES);
    lemma_line_settled(text, more, MAX_METADATA_BYTES);
    if let Line::Whole(n) = line_at(text, MAX_METADATA_BYTES) {
        assert((text + more).take(n - 2) =~= text.take(n - 2));
        let words = text.take(n - 2);
        if size_of_digits(words.take(find_from(words, 59u8, 0))) == Ok::<u64, ChunkError>(0) {
            assert((text + more).skip(n as int) =~= text.skip(n as int) + more);
            lemma_trailers_settled(text.skip(n as int), more, MAX_METADATA_BYTES);
        }
    }
}

/// What metadata was found to be does not change with the bytes after it.
proof fn lemma_metadata_settled(needs_crlf: bool, bytes: Seq<u8>, more: Seq<u8>)
    requires
        metadata_at(needs_crlf, bytes) != Metadata::Short,
    ensures
        metadata_at(needs_crlf, bytes + more) == metadata_at(needs_crlf, bytes),
{
    reveal(metadata_at);
    let text = if needs_crlf { bytes.skip(2) } else { bytes };
    if !needs_crlf || (bytes[0] == 13u8 && bytes[1] == 10u8) {
        if needs_crlf {
            assert((bytes + more).skip(2) =~= text + more);
        }
        lemma_size_line_settled(text, more);
    }
}

/// A complete body is complete without the bytes after it: reading it to its end
/// never waits for the stream to go on or to close.
pub proof fn body_ends_by_itself(at: ChunkedReader, bytes: Seq<u8>, more: Seq<u8>)
    requires
        body(at, bytes) is Some,
    ensures
        body(at, bytes + more) == body(at, bytes),
        0 <= (body(at, bytes)->0).1 <= bytes.len(),
    decreases bytes.len(), at.remaining,
{
    if at.finished {
    } else if at.remaining > 0 {
        let n = at.remaining as int;
        assert((bytes + more).take(n) =~= bytes.take(n));
        assert((bytes + more).skip(n) =~= bytes.skip(n) + more);
        body_ends_by_itself(ChunkedReader { remaining: 0, ..at }, bytes.skip(n), more);
    } else {
        lemma_metadata(at.needs_crlf, bytes);
        lemma_metadata_settled(at.needs_crlf, bytes, more);
        if let Metadata::Chunk { len, size } = metadata_at(at.needs_crlf, bytes) {
            assert((bytes + more).skip(len as int) =~= bytes.skip(len as int) + more);
            body_ends_by_itself(
                ChunkedReader { remaining: size, needs_crlf: true, finished: false },
                bytes.skip(len as int),
                more,
            );
        }
    }
}

/// A body that is cut anywhere before its end is refused.
pub proof fn truncated_body_is_refused(at: ChunkedReader, bytes: Seq<u8>, cut: int)
    requires
        body(at, bytes) is Some,
        0 <= cut < (body(at, bytes)->0).1,
    ensures
        body(at, bytes.take(cut)) is None,
{
    body_ends_by_itself(at, bytes, Seq::empty());
    if body(at, bytes.take(cut)) is Some {
        body_ends_by_itself(at, bytes.take(cut), bytes.skip(cut));
        assert(bytes.take(cut) + bytes.skip(cut) =~= bytes);
    }
}

/// Every read hands out the next piece of the body's payload and leaves the rest
/// of the body for the reads that follow, whatever part of the bytes is at hand,
/// whatever `more` comes later and however few bytes are asked for.
pub proof fn reads_add_up_to_the_body(
    at: ChunkedReader,
    input: Seq<u8>,
    more: Seq<u8>,
    at_end: bool,
    want: int,
)
    requires
        0 < want <= usize::MAX,
        at_end ==> more.len() == 0,
    ensures
        ({
            let (then_at, step) = chunk_read(at, input, at_end, want);
            let whole = body(at, input + more);
            match step {
                ChunkRead::NeedInput => then_at == at && !at_end && body(at, input) is None,
                ChunkRead::Failed { .. } => whole is None,
                ChunkRead::End { skip } => then_at.finished && whole == Some(
                    (Seq::<u8>::empty(), skip as int),
                ),
                ChunkRead::Data { skip, take } => 0 < take <= want && skip + take <= input.len()
                    && whole == following(
                    input.subrange(skip as int, skip + take),
                    skip + take,
                    body(then_at, input.skip(skip + take) + more),
                ),
            }
        }),
{
    lemma_metadata(at.needs_crlf, input);
    let all = input + more;
    assert(more.len() == 0 ==> all =~= input);
    let (then_at, step) = chunk_read(at, input, at_end, want);
    if at.finished {
    } else if at.remaining > 0 {
        if input.len() > 0 {
            let take = at.remaining - then_at.remaining;
            lemma_payload_piece(at, all, take);
            assert(all.take(take) =~= input.subrange(0, take));
            assert(all.skip(take) =~= input.skip(take) + more);
        }
    } else if metadata_at(at.needs_crlf, input) != Metadata::Short {
        lemma_metadata_settled(at.needs_crlf, input, more);
        if let Metadata::Chunk { len, size } = metadata_at(at.needs_crlf, input) {
            let within = ChunkedReader { remaining: size, needs_crlf: true, finished: false };
            let rest = all.skip(len as int);
            if input.len() == len {
                assert(body(within, input.skip(len as int)) is None);
            } else {
                let take = size - then_at.remaining;
                lemma_payload_piece(within, rest, take);
                assert(rest.take(take) =~= input.subrange(len as int, len + take));
                assert(rest.skip(take) =~= input.skip(len + take) + more);
                if let Some((later, n)) = body(then_at, input.skip(len + take) + more) {
                    assert(Seq::<u8>::empty() + (rest.take(take) + later) =~= rest.take(take)
                        + later);
                }
            }
        }
    }
}

proof fn lemma_payload_piece(at: ChunkedReader, bytes: Seq<u8>, take: int)
    requires
        !at.finished,
        0 < take <= at.remaining,
        take <= bytes.len(),
    ensures
        body(at, bytes) == following(
            bytes.take(take),
            take,
            body(
                ChunkedReader { remaining: (at.remaining - take) as u64, ..at },
                bytes.skip(take),
            ),
        ),
{
    let rest = bytes.skip(take);
    let later = ChunkedReader { remaining: (at.remaining - take) as u64, ..at };
    let n = at.remaining as int;
    if later.remaining == 0 {
        assert(later == ChunkedReader { remaining: 0, ..at });
    } else if bytes.len() >= n {
        assert(bytes.take(n) =~= bytes.take(take) + rest.take(n - take));
        assert(bytes.skip(n) =~= rest.skip(n - take));
        if let Some((more, len)) = body(ChunkedReader { remaining: 0, ..at }, bytes.skip(n)) {
            assert(bytes.take(n) + more =~= bytes.take(take) + (rest.take(n - take) + more));
        }
    }
}

/// What happens while a body is read.
pub enum BodyEvent {
    /// These bytes of the stream arrive.
    Arrives(Seq<u8>),
    /// The stream ends.
    Closes,
    /// A read asks for at most this many bytes.
    Asked(int),
}

/// How far the reads of a body came.
pub enum BodyEnd {
    /// Not to its end.
    Open,
    /// A read found the end of the body.
    Ended,
    /// A read was refused.
    Failed(ChunkError),
}

/// What the reads of a body come to: the bytes that they hand out, one after the
/// other, up to the first read that ends or fails.
pub struct BodyRun {
    pub data: Seq<u8>,
    pub end: BodyEnd,
}

/// All that arrives.
pub open spec fn arriving(events: Seq<BodyEvent>) -> Seq<u8>
    decreases events.len(),
{
    if events.len() == 0 {
        Seq::empty()
    } else {
        match events[0] {
            BodyEvent::Arrives(piece) => piece + arriving(events.skip(1)),
            _ => arriving(events.skip(1)),
        }
    }
}

/// Every read asks for something, and nothing arrives after the stream has ended.
pub open spec fn orderly(closed: bool, events: Seq<BodyEvent>) -> bool
    decreases events.len(),
{
    events.len() == 0 || match events[0] {
        BodyEvent::Arrives(_) => !closed && orderly(closed, events.skip(1)),
        BodyEvent::Closes => orderly(true, events.skip(1)),
        BodyEvent::Asked(want) => 0 < want <= usize::MAX && orderly(closed, events.skip(1)),
    }
}

/// What the reads come to, from a reader at `at` on, with `held` at hand.
pub open spec fn body_run(
    at: ChunkedReader,
    held: Seq<u8>,
    closed: bool,
    events: Seq<BodyEvent>,
) -> BodyRun
    decreases events.len(),
{
    if events.len() == 0 {
        BodyRun { data: Seq::empty(), end: BodyEnd::Open }
    } else {
        let rest = events.skip(1);
        match events[0] {
            BodyEvent::Arrives(piece) => body_run(at, held + piece, closed, rest),
            BodyEvent::Closes => body_run(at, held, true, rest),
            BodyEvent::Asked(want) => {
                let (then_at, step) = chunk_read(at, held, closed, want);
                match step {
                    ChunkRead::NeedInput => body_run(then_at, held, closed, rest),
                    ChunkRead::Data { skip, take } => {
                        let run = body_run(then_at, held.skip(skip + take), closed, rest);
                        BodyRun {
                            data: held.subrange(skip as int, skip + take) + run.data,
                            end: run.end,
                        }
                    },
                    ChunkRead::End { .. } => BodyRun { data: Seq::empty(), end: BodyEnd::Ended },
                    ChunkRead::Failed { error, .. } => BodyRun {
                        data: Seq::empty(),
                        end: BodyEnd::Failed(error),
                    },
                }
            },
        }
    }
}

proof fn lemma_nothing_arrives(events: Seq<BodyEvent>)
    requires
        orderly(true, events),
    ensures
        arriving(events).len() == 0,
    decreases events.len(),
{
    if events.len() > 0 {
        lemma_nothing_arrives(events.skip(1));
    }
}

/// In whatever pieces a body arrives, and however much each read asks for: no read
/// of a well formed body fails, the reads hand out its payload from the front, and
/// all of it has been handed out once a read finds the end. A body that is not well
/// formed, or is cut short, is never read to its end.
pub proof fn pieces_give_the_same_body(
    at: ChunkedReader,
    held: Seq<u8>,
    closed: bool,
    events: Seq<BodyEvent>,
)
    requires
        orderly(closed, events),
    ensures
        ({
            let run = body_run(at, held, closed, events);
            match body(at, held + arriving(events)) {
                Some((payload, _)) => {
                    &&& !(run.end is Failed)
                    &&& run.data.is_prefix_of(payload)
                    &&& run.end is Ended ==> run.data == payload
                },
                None => !(run.end is Ended),
            }
        }),
    decreases events.len(),
{
    if events.len() > 0 {
        let rest = events.skip(1);
        match events[0] {
            BodyEvent::Arrives(piece) => {
                pieces_give_the_same_body(at, held + piece, closed, rest);
                assert(held + piece + arriving(rest) =~= held + arriving(events));
            },
            BodyEvent::Closes => {
                pieces_give_the_same_body(at, held, true, rest);
            },
            BodyEvent::Asked(want) => {
                if closed {
                    lemma_nothing_arrives(rest);
                }
                reads_add_up_to_the_body(at, held, arriving(rest), closed, want);
                let (then_at, step) = chunk_read(at, held, closed, want);
                match step {
                    ChunkRead::NeedInput => {
                        pieces_give_the_same_body(then_at, held, closed, rest);
                    },
                    ChunkRead::Data { skip, take } => {
                        pieces_give_the_same_body(then_at, held.skip(skip + take), closed, rest);
                    },
                    _ => {},
                }
            },
        }
    }
}

/// Once all of a body has arrived, reads come to its end: at the latest by the read
/// after as many as there are bytes of payload left.
pub proof fn arrived_body_is_read_to_its_end(
    at: ChunkedReader,
    held: Seq<u8>,
    closed: bool,
    before: Seq<BodyEvent>,
    asks: Seq<BodyEvent>,
)
    requires
        orderly(closed, before + asks),
        forall|i: int| 0 <= i < asks.len() ==> #[trigger] asks[i] is Asked,
        body(at, held + arriving(before)) matches Some((payload, _)) && asks.len() > payload.len(),
    ensures
        body_run(at, held, closed, before + asks) == (BodyRun {
            data: (body(at, held + arriving(before))->0).0,
            end: BodyEnd::Ended,
        }),
    decreases before.len() + asks.len(),
{
    let events = before + asks;
    let rest = events.skip(1);
    let all = held + arriving(before);
    let payload = (body(at, all)->0).0;
    let (later, fewer) = if before.len() > 0 {
        (before.skip(1), asks)
    } else {
        (before, asks.skip(1))
    };
    assert(later + fewer =~= rest);
    assert(events[0] == if before.len() > 0 { before[0] } else { asks[0] });
    match events[0] {
        BodyEvent::Arrives(piece) => {
            assert(held + piece + arriving(later) =~= all);
            arrived_body_is_read_to_its_end(at, held + piece, closed, later, fewer);
        },
        BodyEvent::Closes => {
            arrived_body_is_read_to_its_end(at, held, true, later, fewer);
        },
        BodyEvent::Asked(want) => {
            if closed {
                lemma_nothing_arrives(events);
                lemma_arriving_concat(before, asks);
            }
            reads_add_up_to_the_body(at, held, arriving(later), closed, want);
            let (then_at, step) = chunk_read(at, held, closed, want);
            match step {
                ChunkRead::NeedInput => {
                    if before.len() == 0 {
                        assert(all =~= held);
                    }
                    arrived_body_is_read_to_its_end(then_at, held, closed, later, fewer);
                },
                ChunkRead::Data { skip, take } => {
                    arrived_body_is_read_to_its_end(
                        then_at,
                        held.skip(skip + take),
                        closed,
                        later,
                        fewer,
                    );
                },
                _ => {},
            }
        },
    }
}

proof fn lemma_arriving_concat(a: Seq<BodyEvent>, b: Seq<BodyEvent>)
    ensures
        arriving(a + b) == arriving(a) + arriving(b),
    decreases a.len(),
{
    if a.len() == 0 {
        assert(a + b =~= b);
        assert(arriving(a) + arriving(b) =~= arriving(b));
    } else {
        lemma_arriving_concat(a.skip(1), b);
        assert((a + b).skip(1) =~= a.skip(1) + b);
        if let BodyEvent::Arrives(piece) = a[0] {
            assert(piece + (arriving(a.skip(1)) + arriving(b)) =~= piece + arriving(a.skip(1))
                + arriving(b));
        }
    }
}

/// A chunk as a server sends it: its size in hexadecimal, what follows the size on
/// that line, and its payload.
pub struct SentChunk {
    pub digits: Seq<u8>,
    pub extension: Seq<u8>,
    pub data: Seq<u8>,
}

impl SentChunk {
    /// The size line is that of a chunk of this size, and is short enough.
    pub open spec fn wf(self) -> bool {
        &&& is_hex(self.digits)
        &&& hex_value(self.digits) == self.data.len()
        &&& self.data.len() <= u64::MAX
        &&& self.extension.len() > 0 ==> self.extension[0] == 59u8
        &&& !self.extension.contains(10u8)
        &&& self.digits.len() + self.extension.len() + 2 <= 8192
    }

    /// The size line without its end.
    pub open spec fn size_text(self) -> Seq<u8> {
        self.digits + self.extension
    }
}

/// A line with its end.
pub open spec fn ended(text: Seq<u8>) -> Seq<u8> {
    text + seq![13u8, 10u8]
}

/// Trailers, and the empty line after them.
pub open spec fn trailers_sent(trailers: Seq<Seq<u8>>) -> Seq<u8>
    decreases trailers.len(),
{
    if trailers.len() == 0 {
        ended(Seq::empty())
    } else {
        ended(trailers[0]) + trailers_sent(trailers.skip(1))
    }
}

/// A body as a server sends it: its chunks, the last one, which has no payload, and
/// the trailers.
pub open spec fn body_sent(
    chunks: Seq<SentChunk>,
    last: SentChunk,
    trailers: Seq<Seq<u8>>,
) -> Seq<u8>
    decreases chunks.len(),
{
    if chunks.len() == 0 {
        ended(last.size_text()) + trailers_sent(trailers)
    } else {
        ended(chunks[0].size_text()) + (ended(chunks[0].data) + body_sent(
            chunks.skip(1),
            last,
            trailers,
        ))
    }
}

/// The payloads of some chunks, one after the other.
pub open spec fn payloads(chunks: Seq<SentChunk>) -> Seq<u8>
    decreases chunks.len(),
{
    if chunks.len() == 0 {
        Seq::empty()
    } else {
        chunks[0].data + payloads(chunks.skip(1))
    }
}

proof fn lemma_ended_line(text: Seq<u8>, more: Seq<u8>, limit: usize)
    requires
        !text.contains(10u8),
        text.len() + 2 <= limit,
    ensures
        line_at(ended(text) + more, limit) == Line::Whole((text.len() + 2) as usize),
        (ended(text) + more).take(text.len() as int) == text,
        (ended(text) + more).skip(text.len() + 2int) == more,
{
    let bytes = ended(text) + more;
    let window = if bytes.len() < limit { bytes } else { bytes.take(limit as int) };
    let lf = text.len() + 1int;
    assert forall|i: int| 0 <= i < lf implies window[i] != 10u8 by {
        if i < text.len() {
            assert(window[i] == text[i]);
        }
    }
    lemma_find_is(window, 10u8, 0, lf);
    assert(bytes.take(text.len() as int) =~= text);
    assert(bytes.skip(text.len() + 2int) =~= more);
}

proof fn lemma_trailers_sent(trailers: Seq<Seq<u8>>, more: Seq<u8>, budget: usize)
    requires
        forall|i: int| 0 <= i < trailers.len() ==> (#[trigger] trailers[i]).contains(58u8)
            && !trailers[i].contains(10u8),
        trailers_sent(trailers).len() <= budget <= MAX_METADATA_BYTES,
    ensures
        trailers_at(trailers_sent(trailers) + more, budget) == (Metadata::Last {
            len: trailers_sent(trailers).len() as usize,
        }),
    decreases trailers.len(),
{
    if trailers.len() == 0 {
        lemma_ended_line(Seq::empty(), more, budget);
    } else {
        let rest = trailers.skip(1);
        let tail = trailers_sent(rest) + more;
        let n = trailers[0].len() + 2;
        assert(trailers_sent(trailers) + more =~= ended(trailers[0]) + tail);
        lemma_ended_line(trailers[0], tail, budget);
        assert(trailers[0].len() > 0);
        assert forall|i: int| 0 <= i < rest.len() implies (#[trigger] rest[i]).contains(58u8)
            && !rest[i].contains(10u8) by {
            assert(rest[i] == trailers[i + 1]);
        }
        lemma_trailers_sent(rest, more, (budget - n) as usize);
    }
}

proof fn lemma_size_line_sent(chunk: SentChunk, more: Seq<u8>)
    requires
        chunk.wf(),
    ensures
        size_line_at(ended(chunk.size_text()) + more) == if chunk.data.len() > 0 {
            Metadata::Chunk {
                len: (chunk.size_text().len() + 2) as usize,
                size: chunk.data.len() as u64,
            }
        } else {
            after(chunk.size_text().len() + 2int, trailers_at(more, MAX_METADATA_BYTES))
        },
{
    reveal(size_line_at);
    let text = chunk.size_text();
    assert forall|i: int| 0 <= i < text.len() implies text[i] != 10u8 by {
        if i < chunk.digits.len() {
            assert(hex_digit_value(chunk.digits[i]) is Some);
        } else {
            assert(chunk.extension.contains(chunk.extension[i - chunk.digits.len()]));
        }
    }
    lemma_ended_line(text, more, MAX_METADATA_BYTES);
    assert forall|i: int| 0 <= i < chunk.digits.len() implies text[i] != 59u8 by {
        assert(hex_digit_value(chunk.digits[i]) is Some);
    }
    lemma_find_is(text, 59u8, 0, chunk.digits.len() as int);
    assert(text.take(chunk.digits.len() as int) =~= chunk.digits);
}

/// What a server sends as chunks is read back as their payloads, one after the
/// other, whatever the extensions and the trailers say and whatever follows the body.
pub proof fn sent_body_is_read_back(
    chunks: Seq<SentChunk>,
    last: SentChunk,
    trailers: Seq<Seq<u8>>,
    more: Seq<u8>,
)
    requires
        forall|i: int| 0 <= i < chunks.len() ==> (#[trigger] chunks[i]).wf() && chunks[i].data.len()
            > 0,
        last.wf(),
        last.data.len() == 0,
        forall|i: int| 0 <= i < trailers.len() ==> (#[trigger] trailers[i]).contains(58u8)
            && !trailers[i].contains(10u8),
        trailers_sent(trailers).len() <= 8192,
    ensures
        body(
            ChunkedReader { remaining: 0, needs_crlf: false, finished: false },
            body_sent(chunks, last, trailers) + more,
        ) == Some((payloads(chunks), body_sent(chunks, last, trailers).len() as int)),
{
    lemma_body_sent(false, chunks, last, trailers, more);
    assert(line_break(false) + body_sent(chunks, last, trailers) =~= body_sent(
        chunks,
        last,
        trailers,
    ));
}

/// What a server sends as chunks is read back in whatever pieces it arrives and
/// however much each read asks for: the reads hand out the payloads, one after the
/// other, and then find the end.
pub proof fn sent_body_is_read_in_any_pieces(
    chunks: Seq<SentChunk>,
    last: SentChunk,
    trailers: Seq<Seq<u8>>,
    more: Seq<u8>,
    before: Seq<BodyEvent>,
    asks: Seq<BodyEvent>,
)
    requires
        forall|i: int| 0 <= i < chunks.len() ==> (#[trigger] chunks[i]).wf() && chunks[i].data.len()
            > 0,
        last.wf(),
        last.data.len() == 0,
        forall|i: int| 0 <= i < trailers.len() ==> (#[trigger] trailers[i]).contains(58u8)
            && !trailers[i].contains(10u8),
        trailers_sent(trailers).len() <= 8192,
        orderly(false, before + asks),
        arriving(before) == body_sent(chunks, last, trailers) + more,
        forall|i: int| 0 <= i < asks.len() ==> #[trigger] asks[i] is Asked,
        asks.len() > payloads(chunks).len(),
    ensures
        body_run(
            ChunkedReader { remaining: 0, needs_crlf: false, finished: false },
            Seq::empty(),
            false,
            before + asks,
        ) == (BodyRun { data: payloads(chunks), end: BodyEnd::Ended }),
{
    let start = ChunkedReader { remaining: 0, needs_crlf: false, finished: false };
    sent_body_is_read_back(chunks, last, trailers, more);
    assert(Seq::<u8>::empty() + arriving(before) =~= arriving(before));
    arrived_body_is_read_to_its_end(start, Seq::empty(), false, before, asks);
}

/// The end of the line that a payload stands on, where there was one.
pub open spec fn line_break(needed: bool) -> Seq<u8> {
    if needed {
        seq![13u8, 10u8]
    } else {
        Seq::empty()
    }
}

proof fn lemma_metadata_sent(needs_crlf: bool, text: Seq<u8>)
    ensures
        metadata_at(needs_crlf, line_break(needs_crlf) + text) == if needs_crlf {
            after(2, size_line_at(text))
        } else {
            size_line_at(text)
        },
{
    reveal(metadata_at);
    let bytes = line_break(needs_crlf) + text;
    if needs_crlf {
        assert(bytes.skip(2) =~= text);
    } else {
        assert(bytes =~= text);
    }
}

proof fn lemma_last_sent(needs_crlf: bool, last: SentChunk, trailers: Seq<Seq<u8>>, more: Seq<u8>)
    requires
        last.wf(),
        last.data.len() == 0,
        forall|i: int| 0 <= i < trailers.len() ==> (#[trigger] trailers[i]).contains(58u8)
            && !trailers[i].contains(10u8),
        trailers_sent(trailers).len() <= 8192,
    ensures
        ({
            let sent = line_break(needs_crlf) + (ended(last.size_text()) + trailers_sent(trailers));
            metadata_at(needs_crlf, sent + more) == Metadata::Last { len: sent.len() as usize }
        }),
{
    let tail = trailers_sent(trailers) + more;
    let text = ended(last.size_text()) + tail;
    let sent = line_break(needs_crlf) + (ended(last.size_text()) + trailers_sent(trailers));
    assert(sent + more =~= line_break(needs_crlf) + text);
    lemma_metadata_sent(needs_crlf, text);
    lemma_size_line_sent(last, tail);
    lemma_trailers_sent(trailers, more, MAX_METADATA_BYTES);
}

proof fn lemma_chunk_sent(needs_crlf: bool, chunk: SentChunk, next: Seq<u8>)
    requires
        chunk.wf(),
        chunk.data.len() > 0,
    ensures
        ({
            let front = line_break(needs_crlf) + ended(chunk.size_text()) + chunk.data;
            body(ChunkedReader { remaining: 0, needs_crlf, finished: false }, front + next)
                == following(
                chunk.data,
                front.len() as int,
                body(ChunkedReader { remaining: 0, needs_crlf: true, finished: false }, next),
            )
        }),
{
    let crlf = line_break(needs_crlf);
    let line = ended(chunk.size_text());
    let bytes = crlf + line + chunk.data + next;
    let rest = chunk.data + next;
    let size = chunk.data.len() as int;
    let within = ChunkedReader { remaining: size as u64, needs_crlf: true, finished: false };
    assert(bytes =~= crlf + (line + rest));
    lemma_metadata_sent(needs_crlf, line + rest);
    lemma_size_line_sent(chunk, rest);
    assert(bytes.skip((crlf.len() + line.len()) as int) =~= rest);
    assert(rest.take(size) =~= chunk.data);
    assert(rest.skip(size) =~= next);
    let later = body(ChunkedReader { remaining: 0, ..within }, next);
    assert(body(within, rest) == following(chunk.data, size, later));
    if let Some((more, n)) = later {
        assert(Seq::<u8>::empty() + (chunk.data + more) =~= chunk.data + more);
    }
}

proof fn lemma_body_sent(
    needs_crlf: bool,
    chunks: Seq<SentChunk>,
    last: SentChunk,
    trailers: Seq<Seq<u8>>,
    more: Seq<u8>,
)
    requires
        forall|i: int| 0 <= i < chunks.len() ==> (#[trigger] chunks[i]).wf() && chunks[i].data.len()
            > 0,
        last.wf(),
        last.data.len() == 0,
        forall|i: int| 0 <= i < trailers.len() ==> (#[trigger] trailers[i]).contains(58u8)
            && !trailers[i].contains(10u8),
        trailers_sent(trailers).len() <= 8192,
    ensures
        ({
            let sent = line_break(needs_crlf) + body_sent(chunks, last, trailers);
            body(ChunkedReader { remaining: 0, needs_crlf, finished: false }, sent + more) == Some(
                (payloads(chunks), sent.len() as int),
            )
        }),
    decreases chunks.len(),
{
    let crlf = line_break(needs_crlf);
    let bytes = crlf + body_sent(chunks, last, trailers) + more;
    if chunks.len() == 0 {
        lemma_last_sent(needs_crlf, last, trailers, more);
    } else {
        let chunk = chunks[0];
        let rest = chunks.skip(1);
        assert forall|i: int| 0 <= i < rest.len() implies (#[trigger] rest[i]).wf()
            && rest[i].data.len() > 0 by {
            assert(rest[i] == chunks[i + 1]);
        }
        lemma_body_sent(true, rest, last, trailers, more);
        let next = line_break(true) + body_sent(rest, last, trailers) + more;
        lemma_chunk_sent(needs_crlf, chunk, next);
        assert(bytes =~= crlf + ended(chunk.size_text()) + chunk.data + next);
    }
}

/// Hexadecimal digits are the sixteen, in either case, and nothing else; each counts
/// sixteen times what the same digit after it does.
pub proof fn hexadecimal_is_base_sixteen(d: int, b: u8, digits: Seq<u8>)
    requires
        0 <= d < 16,
    ensures
        d < 10 ==> hex_digit_value((0x30 + d) as u8) == Some(d as nat),
        d >= 10 ==> hex_digit_value((0x61 + d - 10) as u8) == Some(d as nat),
        d >= 10 ==> hex_digit_value((0x41 + d - 10) as u8) == Some(d as nat),
        hex_digit_value(b) is Some <==> (0x30 <= b <= 0x39) || (0x61 <= b <= 0x66) || (0x41 <= b
            <= 0x46),
        d < 10 ==> hex_value(digits.push((0x30 + d) as u8)) == 16 * hex_value(digits) + d,
        d >= 10 ==> hex_value(digits.push((0x61 + d - 10) as u8)) == 16 * hex_value(digits) + d,
        d >= 10 ==> hex_value(digits.push((0x41 + d - 10) as u8)) == 16 * hex_value(digits) + d,
        hex_value(Seq::empty()) == 0,
        is_hex(digits) <==> digits.len() > 0 && forall|i: int|
            0 <= i < digits.len() ==> hex_digit_value(#[trigger] digits[i]) is Some,
        size_of_digits(digits) == if !is_hex(digits) {
            Err::<u64, ChunkError>(ChunkError::Size)
        } else if hex_value(digits) > 0xffff_ffff_ffff_ffff {
            Err::<u64, ChunkError>(ChunkError::SizeRange)
        } else {
            Ok::<u64, ChunkError>(hex_value(digits) as u64)
        },
{
    let a = (0x30 + d) as u8;
    let b = (0x61 + d - 10) as u8;
    let c = (0x41 + d - 10) as u8;
    assert(digits.push(a).drop_last() =~= digits);
    assert(digits.push(b).drop_last() =~= digits);
    assert(digits.push(c).drop_last() =~= digits);
}

/// A line of at most 8192 bytes ends at its CR LF. A bare LF, or more bytes than that
/// without one, is refused.
pub proof fn lines_are_bounded(text: Seq<u8>, more: Seq<u8>)
    requires
        !text.contains(10u8),
    ensures
        text.len() <= 8190 ==> line_at(text + seq![13u8, 10] + more, MAX_METADATA_BYTES)
            == Line::Whole((text.len() + 2) as usize),
        text.len() <= 8191 && (text.len() == 0 || text.last() != 13) ==> line_at(
            text + seq![10u8] + more,
            MAX_METADATA_BYTES,
        ) == Line::Bad((text.len() + 1) as usize),
        text.len() >= 8192 ==> line_at(text + more, MAX_METADATA_BYTES) == Line::Bad(8192),
        text.len() < 8192 ==> line_at(text, MAX_METADATA_BYTES) == Line::Short,
{
    let n = text.len() as int;
    assert forall|i: int| 0 <= i < n implies text[i] != 10u8 by {
        assert(text.contains(text[i]));
    }
    if n <= 8190 {
        lemma_ended_line(text, more, MAX_METADATA_BYTES);
        assert(ended(text) + more =~= text + seq![13u8, 10] + more);
    }
    if n <= 8191 {
        let bytes = text + seq![10u8] + more;
        let window = if bytes.len() < 8192 { bytes } else { bytes.take(8192) };
        assert forall|i: int| 0 <= i < n implies window[i] != 10u8 by {
            assert(window[i] == text[i]);
        }
        lemma_find_is(window, 10u8, 0, n);
        if n > 0 {
            assert(window[n - 1] == text[n - 1]);
        }
        lemma_find_is(text, 10u8, 0, n);
    } else {
        let bytes = text + more;
        let window = bytes.take(8192);
        assert forall|i: int| 0 <= i < 8192 implies window[i] != 10u8 by {
            assert(window[i] == text[i]);
        }
        lemma_find_is(window, 10u8, 0, 8192);
    }
}

/// What stands before a payload: CR LF where one went before, then the size in
/// hexadecimal up to a semicolon or the end of its line. Anything else is refused for
/// what is wrong with it, and what is after it does not count.
pub proof fn sizes_stand_before_their_payload(
    bytes: Seq<u8>,
    digits: Seq<u8>,
    extension: Seq<u8>,
    more: Seq<u8>,
)
    requires
        !digits.contains(10u8),
        !digits.contains(59u8),
        !extension.contains(10u8),
        extension.len() > 0 ==> extension[0] == 59u8,
        digits.len() + extension.len() <= 8190,
    ensures
        ({
            let n = digits.len() + extension.len() + 2;
            let text = digits + extension + seq![13u8, 10] + more;
            let sized = |len: int|
                if !is_hex(digits) {
                    Metadata::Bad { len: len as usize, error: ChunkError::Size }
                } else if hex_value(digits) > 0xffff_ffff_ffff_ffff {
                    Metadata::Bad { len: len as usize, error: ChunkError::SizeRange }
                } else {
                    Metadata::Chunk { len: len as usize, size: hex_value(digits) as u64 }
                };
            &&& !(is_hex(digits) && hex_value(digits) == 0) ==> metadata_at(false, text) == sized(
                n as int,
            )
            &&& !(is_hex(digits) && hex_value(digits) == 0) ==> metadata_at(
                true,
                seq![13u8, 10] + text,
            ) == sized(n + 2int)
            &&& bytes.len() < 2 ==> metadata_at(true, bytes) == Metadata::Short
            &&& bytes.len() >= 2 && !(bytes[0] == 13 && bytes[1] == 10) ==> metadata_at(true, bytes)
                == (Metadata::Bad { len: 2, error: ChunkError::Terminator })
        }),
{
    reveal(metadata_at);
    reveal(size_line_at);
    let line = digits + extension;
    let text = line + seq![13u8, 10] + more;
    assert forall|i: int| 0 <= i < line.len() implies line[i] != 10u8 by {
        if i < digits.len() {
            assert(digits.contains(line[i]));
        } else {
            assert(extension.contains(extension[i - digits.len()]));
        }
    }
    assert(!line.contains(10u8));
    lemma_ended_line(line, more, MAX_METADATA_BYTES);
    assert(ended(line) + more =~= text);
    assert forall|i: int| 0 <= i < digits.len() implies line[i] != 59u8 by {
        assert(digits.contains(line[i]));
    }
    lemma_find_is(line, 59u8, 0, digits.len() as int);
    assert(line.take(digits.len() as int) =~= digits);
    let broken = seq![13u8, 10] + text;
    assert(broken.skip(2) =~= text);
    assert(broken[0] == 13 && broken[1] == 10);
}

/// A trailer without a colon is refused; the empty line ends the body.
pub proof fn trailers_have_colons(text: Seq<u8>, more: Seq<u8>)
    requires
        !text.contains(10u8),
        text.len() <= 8190,
    ensures
        text.len() > 0 && !text.contains(58u8) ==> trailers_at(
            text + seq![13u8, 10] + more,
            MAX_METADATA_BYTES,
        ) == (Metadata::Bad { len: (text.len() + 2) as usize, error: ChunkError::Trailer }),
        trailers_at(seq![13u8, 10] + more, MAX_METADATA_BYTES) == (Metadata::Last { len: 2 }),
{
    lemma_ended_line(text, more, MAX_METADATA_BYTES);
    assert(ended(text) + more =~= text + seq![13u8, 10] + more);
    let none = Seq::<u8>::empty();
    lemma_ended_line(none, more, MAX_METADATA_BYTES);
    assert(ended(none) + more =~= seq![13u8, 10] + more);
}

/// A stream that ends too early is refused for where it ended: within the two bytes
/// after a payload, within a line, or within a payload. Nothing is asked of a reader that
/// has found the end, nor of one that is asked for nothing.
pub proof fn early_ends_are_told_apart(at: ChunkedReader, input: Seq<u8>, want: int, more: Seq<u8>)
    requires
        0 < want <= usize::MAX,
        input.len() <= usize::MAX,
    ensures
        !at.finished && at.remaining == 0 && at.needs_crlf && input.len() < 2 ==> chunk_read(
            at,
            input,
            true,
            want,
        ) == (
            at,
            ChunkRead::Failed { skip: input.len() as usize, error: ChunkError::TerminatorCut },
        ),
        !at.finished && at.remaining == 0 && !at.needs_crlf && !input.contains(10u8) && input.len()
            < 8192 ==> chunk_read(at, input, true, want) == (
            at,
            ChunkRead::Failed { skip: input.len() as usize, error: ChunkError::Metadata },
        ),
        !at.finished && at.remaining > 0 ==> chunk_read(at, Seq::empty(), true, want) == (
            at,
            ChunkRead::Failed { skip: 0, error: ChunkError::Payload },
        ),
        !at.finished && at.remaining > 0 && input.len() > 0 ==> (chunk_read(
            at,
            input,
            false,
            want,
        ).1 matches ChunkRead::Data { skip, take } && skip == 0 && take <= want && take
            <= input.len() && take <= at.remaining && (take == want || take == input.len() || take
            == at.remaining)),
        at.finished ==> chunk_read(at, input, true, want) == (at, ChunkRead::End { skip: 0 }),
        chunk_read(at, input, true, 0) == (at, ChunkRead::End { skip: 0 }),
{
    reveal(metadata_at);
    reveal(size_line_at);
    if !input.contains(10u8) && input.len() < 8192 {
        lines_are_bounded(input, more);
    }
}

/// Errors come in two kinds: a stream that ended within a chunk, and bytes that are
/// wrong.
pub proof fn early_ends_are_one_kind_of_error(error: ChunkError)
    ensures
        error.spec_is_unexpected_eof() <==> error == ChunkError::TerminatorCut || error
            == ChunkError::Payload,
{
}

/// Why a body was refused is told in these words.
pub proof fn refusals_are_told_in_words(error: ChunkError)
    ensures
        error.spec_message() == match error {
            ChunkError::Metadata => "Truncated or oversized HTTP chunk metadata"@,
            ChunkError::Terminator => "Invalid chunk terminator"@,
            ChunkError::TerminatorCut => "failed to fill whole buffer"@,
            ChunkError::Size => "Invalid HTTP chunk size"@,
            ChunkError::SizeRange => "number too large to fit in target type"@,
            ChunkError::Trailer => "Invalid HTTP trailer"@,
            ChunkError::Payload => "Truncated HTTP chunk"@,
        }
    ,
{
}

} // verus!
