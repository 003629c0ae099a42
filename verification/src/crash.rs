//! What is kept of a crash for the next boot to report.

use crate::scan::{find_byte, find_from, lemma_find_is};
use crate::text::{decimal, decimal_text, lossy_text, utf8_lossy};
use vstd::prelude::*;
use vstd::utf8::encode_utf8;

verus! {

/// The meaningful fields of a core dump, read from flash at boot. Covers both
/// panics and hardware exceptions.
#[derive(Debug)]
pub struct CoredumpSummary {
    pub task: String,
    pub exc_pc: u32,
    pub exc_cause: u32,
    pub fault_addr: u32,
    pub backtrace: Vec<u32>,
    pub bt_corrupted: bool,
}

/// A core dump's summary as it lies in flash.
#[derive(Debug)]
pub struct RawSummary {
    /// The name of the task; it may lack its NUL.
    pub task: [u8; 16],
    pub exc_pc: u32,
    pub exc_cause: u32,
    pub fault_addr: u32,
    pub backtrace: Vec<u32>,
    /// How many entries of the backtrace there are.
    pub depth: u32,
    pub bt_corrupted: bool,
}

/// The bytes before the first NUL, or all of them.
pub open spec fn until_nul(bytes: Seq<u8>) -> Seq<u8> {
    bytes.take(find_from(bytes, 0u8, 0))
}

impl CoredumpSummary {
    /// The meaningful fields of a summary.
    pub fn of(raw: &RawSummary) -> (r: CoredumpSummary)
        ensures
            r.task@ == utf8_lossy(until_nul(raw.task@)),
            r.exc_pc == raw.exc_pc,
            r.exc_cause == raw.exc_cause,
            r.fault_addr == raw.fault_addr,
            r.backtrace@ == raw.backtrace@.take(
                if raw.depth < raw.backtrace@.len() {
                    raw.depth as int
                } else {
                    raw.backtrace@.len() as int
                },
            ),
            r.bt_corrupted == raw.bt_corrupted,
    {
        let bytes = raw.task.as_slice();
        let name = &bytes[0..find_byte(bytes, 0)];
        assert(name@ =~= until_nul(raw.task@));
        let held = raw.backtrace.len();
        let n: usize = if (raw.depth as u64) < held as u64 { raw.depth as usize } else { held };
        let mut backtrace: Vec<u32> = Vec::new();
        let mut i: usize = 0;
        while i < n
            invariant
                i <= n <= raw.backtrace@.len(),
                backtrace@ == raw.backtrace@.take(i as int),
            decreases n - i,
        {
            backtrace.push(raw.backtrace[i]);
            i += 1;
            assert(backtrace@ =~= raw.backtrace@.take(i as int));
        }
        CoredumpSummary {
            task: lossy_text(name),
            exc_pc: raw.exc_pc,
            exc_cause: raw.exc_cause,
            fault_addr: raw.fault_addr,
            backtrace,
            bt_corrupted: raw.bt_corrupted,
        }
    }
}

/// What marks a crash log as written.
pub const CRASH_MAGIC: u32 = 0xC0DE_DEAD;

/// How much of a message is kept, in bytes.
pub const MSG_CAP: usize = 256;

/// A buffer of fixed size that takes text as far as it has room: a panic hook
/// must not depend on the allocator.
pub struct FixedBuf {
    buf: [u8; 256],
    len: usize,
}

impl FixedBuf {
    /// What was written.
    pub closed spec fn written(&self) -> Seq<u8> {
        self.buf@.take(self.len as int)
    }

    /// All of the buffer.
    pub closed spec fn whole(&self) -> Seq<u8> {
        self.buf@
    }

    /// What was written fits, and the rest of the buffer is zero.
    pub closed spec fn wf(&self) -> bool {
        &&& self.len <= MSG_CAP
        &&& forall|i: int| self.len <= i < MSG_CAP ==> #[trigger] self.buf@[i] == 0u8
    }

    /// An empty buffer.
    pub fn new() -> (r: FixedBuf)
        ensures
            r.wf(),
            r.written() == Seq::<u8>::empty(),
            r.whole() == zero_padded(Seq::empty()),
    {
        let r = FixedBuf { buf: [0; 256], len: 0 };
        assert(r.written() =~= Seq::<u8>::empty());
        assert(r.whole() =~= zero_padded(Seq::empty()));
        r
    }

    /// Appends text, as much of it as there is room for.
    pub fn write_str(&mut self, s: &str)
        requires
            old(self).wf(),
        ensures
            final(self).wf(),
            final(self).written() == clipped(old(self).written() + encode_utf8(s@)),
            final(self).whole() == zero_padded(final(self).written()),
    {
        let b = s.as_bytes();
        let room = MSG_CAP - self.len;
        let n: usize = if b.len() < room { b.len() } else { room };
        let ghost before = self.written();
        let start = self.len;
        let mut i: usize = 0;
        assert(before =~= before + b@.take(0));
        while i < n
            invariant
                i <= n <= b@.len(),
                start + n <= MSG_CAP,
                self.len == start,
                before.len() == start,
                self.buf@.take(start + i) == before + b@.take(i as int),
                forall|j: int| start + i <= j < MSG_CAP ==> #[trigger] self.buf@[j] == 0u8,
            decreases n - i,
        {
            let ghost held = self.buf@;
            self.buf[start + i] = b[i];
            i += 1;
            assert(self.buf@.take(start + i) =~= held.take(start + i - 1).push(b@[i - 1]));
            assert(before + b@.take(i as int) =~= (before + b@.take(i - 1)).push(b@[i - 1]));
        }
        self.len = start + n;
        assert(self.written() =~= clipped(before + b@));
        assert(self.whole() =~= zero_padded(self.written()));
    }
}

/// The first 256 bytes, or all where there are fewer.
pub open spec fn clipped(bytes: Seq<u8>) -> Seq<u8> {
    if bytes.len() <= MSG_CAP {
        bytes
    } else {
        bytes.take(MSG_CAP as int)
    }
}

/// At most 256 bytes, with zeros after them up to that size.
pub open spec fn zero_padded(bytes: Seq<u8>) -> Seq<u8> {
    bytes + Seq::new((MSG_CAP - bytes.len()) as nat, |i: int| 0u8)
}

/// Some texts one after the other.
pub open spec fn all_of(texts: Seq<Seq<u8>>) -> Seq<u8>
    decreases texts.len(),
{
    if texts.len() == 0 {
        Seq::empty()
    } else {
        all_of(texts.drop_last()) + texts.last()
    }
}

/// What an empty buffer holds after some texts were written to it.
pub open spec fn written_in_turn(texts: Seq<Seq<u8>>) -> Seq<u8>
    decreases texts.len(),
{
    if texts.len() == 0 {
        Seq::empty()
    } else {
        clipped(written_in_turn(texts.drop_last()) + texts.last())
    }
}

/// However a message is cut into texts, the buffer holds the front of the message.
pub proof fn texts_add_up(texts: Seq<Seq<u8>>)
    ensures
        written_in_turn(texts) == clipped(all_of(texts)),
    decreases texts.len(),
{
    if texts.len() > 0 {
        texts_add_up(texts.drop_last());
        let front = all_of(texts.drop_last());
        assert(clipped(clipped(front) + texts.last()) =~= clipped(front + texts.last()));
    }
}

/// A crash as it is kept in memory that survives a warm reboot. What that memory
/// holds after a power-on is arbitrary.
pub struct CrashLog {
    pub magic: u32,
    pub len: u16,
    /// Free internal memory at the instant of the panic.
    pub internal_free: u32,
    /// The largest block of it.
    pub internal_largest: u32,
    pub msg: [u8; 256],
}

impl CrashLog {
    /// Whether a crash is kept.
    pub open spec fn is_written(self) -> bool {
        self.magic == CRASH_MAGIC
    }

    /// The message that is kept.
    pub open spec fn message(self) -> Seq<u8> {
        self.msg@.take(if self.len < MSG_CAP { self.len as int } else { MSG_CAP as int })
    }

    /// A log of no crash: every field is zero.
    pub fn new() -> (r: CrashLog)
        ensures
            !r.is_written(),
            r.magic == 0,
            r.len == 0,
            r.internal_free == 0,
            r.internal_largest == 0,
            r.msg@ == Seq::new(MSG_CAP as nat, |i: int| 0u8),
    {
        let msg: [u8; 256] = [0; 256];
        assert(msg@ =~= Seq::new(MSG_CAP as nat, |i: int| 0u8));
        CrashLog { magic: 0, len: 0, internal_free: 0, internal_largest: 0, msg }
    }

    /// Keeps a crash. The mark is set last, so that a half-written log is never
    /// taken for a crash.
    pub fn record(&mut self, text: &FixedBuf, internal_free: u32, internal_largest: u32)
        requires
            text.wf(),
        ensures
            final(self).is_written(),
            final(self).message() == text.written(),
            final(self).internal_free == internal_free,
            final(self).internal_largest == internal_largest,
            final(self).len == text.written().len(),
            final(self).msg@ == text.written() + old(self).msg@.skip(text.written().len() as int),
    {
        let mut i: usize = 0;
        while i < text.len
            invariant
                i <= text.len <= MSG_CAP,
                self.msg@.take(i as int) == text.buf@.take(i as int),
                self.msg@.skip(i as int) == old(self).msg@.skip(i as int),
            decreases text.len - i,
        {
            let ghost held = self.msg@;
            self.msg[i] = text.buf[i];
            i += 1;
            assert(self.msg@.take(i as int) =~= held.take(i - 1).push(text.buf@[i - 1]));
            assert(text.buf@.take(i as int) =~= text.buf@.take(i - 1).push(text.buf@[i - 1]));
            assert(self.msg@.skip(i as int) =~= held.skip(i - 1).skip(1));
            assert(old(self).msg@.skip(i as int) =~= old(self).msg@.skip(i - 1).skip(1));
        }
        assert(self.msg@ =~= self.msg@.take(i as int) + self.msg@.skip(i as int));
        self.len = text.len as u16;
        self.internal_free = internal_free;
        self.internal_largest = internal_largest;
        self.magic = CRASH_MAGIC;
    }

    /// What a crash is reported as.
    pub open spec fn report(self) -> Seq<char> {
        utf8_lossy(self.message()) + " | internal-DRAM @panic: free="@ + decimal(
            self.internal_free as nat,
        ) + " B, largest_block="@ + decimal(self.internal_largest as nat) + " B"@
    }

    /// Takes the crash that is kept, if there is one: it is reported only once.
    pub fn take(&mut self) -> (r: Option<String>)
        ensures
            r is Some == old(self).is_written(),
            r matches Some(text) ==> text@ == old(self).report(),
            !final(self).is_written(),
            *final(self) == if old(self).is_written() {
                (CrashLog { magic: 0, ..*old(self) })
            } else {
                *old(self)
            },
    {
        if self.magic != CRASH_MAGIC {
            return None;
        }
        let n: usize = if (self.len as usize) < MSG_CAP { self.len as usize } else { MSG_CAP };
        let bytes = &self.msg.as_slice()[0..n];
        assert(bytes@ =~= self.message());
        let mut text = lossy_text(bytes);
        text.append(" | internal-DRAM @panic: free=");
        text.append(decimal_text(self.internal_free as u64).as_str());
        text.append(" B, largest_block=");
        text.append(decimal_text(self.internal_largest as u64).as_str());
        text.append(" B");
        self.magic = 0;
        Some(text)
    }
}

/// At most 256 bytes are kept, from the front.
pub proof fn at_most_so_much_is_kept(bytes: Seq<u8>)
    ensures
        bytes.len() <= 256 ==> clipped(bytes) == bytes,
        bytes.len() > 256 ==> clipped(bytes) == bytes.take(256),
        zero_padded(clipped(bytes)).len() == 256,
{
}

/// A name ends before its first NUL, and is all of the bytes where there is none.
pub proof fn names_end_at_a_nul(name: Seq<u8>, rest: Seq<u8>)
    requires
        forall|i: int| 0 <= i < name.len() ==> #[trigger] name[i] != 0,
    ensures
        until_nul(name) == name,
        until_nul(name + seq![0u8] + rest) == name,
{
    let n = name.len() as int;
    lemma_find_is(name, 0u8, 0, n);
    assert(name.take(n) =~= name);
    let all = name + seq![0u8] + rest;
    assert forall|i: int| 0 <= i < n implies all[i] != 0 by {
        assert(all[i] == name[i]);
    }
    lemma_find_is(all, 0u8, 0, n);
    assert(all.take(n) =~= name);
}

/// A crash is told by its message and by how much internal memory there was.
pub proof fn crashes_are_told_with_their_memory(log: CrashLog)
    ensures
        log.is_written() <==> log.magic == 0xC0DE_DEAD,
        log.len <= 256 ==> log.message() == log.msg@.take(log.len as int),
        log.len > 256 ==> log.message() == log.msg@,
        log.report() == utf8_lossy(log.message()) + " | internal-DRAM @panic: free="@ + decimal(
            log.internal_free as nat,
        ) + " B, largest_block="@ + decimal(log.internal_largest as nat) + " B"@,
{
    assert(log.msg@.take(256) =~= log.msg@);
}

} // verus!
