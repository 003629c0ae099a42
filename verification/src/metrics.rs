//! Telemetry for the dashboard: what was read from the system, and what is known
//! of how the previous run ended.

use crate::crash::CoredumpSummary;
use crate::json::{json_text, to_text, JsonFields, JsonList, JsonNode, JsonTree};
use crate::text::{decimal, decimal_text, string_of};
use vstd::prelude::*;

verus! {

/// Why the previous run ended.
#[derive(Clone, Copy, Debug, PartialEq, Eq, Structural)]
pub enum ResetReason {
    PowerOn,
    Software,
    Panic,
    TaskWatchdog,
    InterruptWatchdog,
    Watchdog,
    Brownout,
    DeepSleep,
    ExternalPin,
    Jtag,
    UsbPeripheral,
    Other,
}

/// How the previous run ended, noted once at boot. What was noted first stays.
pub struct BootRecord {
    reset: Option<ResetReason>,
    panic: Option<Option<String>>,
    coredump: Option<Option<CoredumpSummary>>,
}

/// A core dump as a value.
pub struct CoredumpView {
    pub task: Seq<char>,
    pub exc_pc: u32,
    pub exc_cause: u32,
    pub fault_addr: u32,
    pub backtrace: Seq<u32>,
    pub bt_corrupted: bool,
}

impl View for CoredumpSummary {
    type V = CoredumpView;

    open spec fn view(&self) -> CoredumpView {
        CoredumpView {
            task: self.task@,
            exc_pc: self.exc_pc,
            exc_cause: self.exc_cause,
            fault_addr: self.fault_addr,
            backtrace: self.backtrace@,
            bt_corrupted: self.bt_corrupted,
        }
    }
}

/// How the previous run ended, as a value.
pub struct BootView {
    pub reset: Option<ResetReason>,
    pub panic: Option<Option<Seq<char>>>,
    pub coredump: Option<Option<CoredumpView>>,
}

/// A panic's message, if there is one.
pub open spec fn panic_view(msg: Option<String>) -> Option<Seq<char>> {
    match msg {
        Some(text) => Some(text@),
        None => None,
    }
}

/// A core dump, if there is one.
pub open spec fn coredump_view(dump: Option<CoredumpSummary>) -> Option<CoredumpView> {
    match dump {
        Some(summary) => Some(summary@),
        None => None,
    }
}

impl View for BootRecord {
    type V = BootView;

    closed spec fn view(&self) -> BootView {
        BootView {
            reset: self.reset,
            panic: match self.panic {
                Some(msg) => Some(panic_view(msg)),
                None => None,
            },
            coredump: match self.coredump {
                Some(dump) => Some(coredump_view(dump)),
                None => None,
            },
        }
    }
}

impl BootRecord {
    /// Nothing is noted.
    pub fn new() -> (r: BootRecord)
        ensures
            r@ == (BootView { reset: None, panic: None, coredump: None }),
    {
        BootRecord { reset: None, panic: None, coredump: None }
    }
}

/// Notes why the previous run ended.
pub fn set_last_reset(record: &mut BootRecord, reason: ResetReason)
    ensures
        final(record)@ == if old(record)@.reset is Some {
            old(record)@
        } else {
            BootView { reset: Some(reason), ..old(record)@ }
        },
{
    if record.reset.is_none() {
        record.reset = Some(reason);
    }
}

/// Notes the message of the panic that ended the previous run, if one did.
pub fn set_last_panic(record: &mut BootRecord, msg: Option<String>)
    ensures
        final(record)@ == if old(record)@.panic is Some {
            old(record)@
        } else {
            BootView { panic: Some(panic_view(msg)), ..old(record)@ }
        },
{
    if record.panic.is_none() {
        record.panic = Some(msg);
    }
}

/// Notes the core dump of the crash that ended the previous run, if one did.
pub fn set_last_coredump(record: &mut BootRecord, dump: Option<CoredumpSummary>)
    ensures
        final(record)@ == if old(record)@.coredump is Some {
            old(record)@
        } else {
            BootView { coredump: Some(coredump_view(dump)), ..old(record)@ }
        },
{
    if record.coredump.is_none() {
        record.coredump = Some(dump);
    }
}

/// The message of the last panic, if there was one.
pub open spec fn last_panic(record: BootView) -> Option<Seq<char>> {
    match record.panic {
        Some(Some(text)) => Some(text),
        _ => None,
    }
}

/// One-line suffix for the boot log.
pub fn last_panic_str(record: &BootRecord) -> (r: String)
    ensures
        r@ == match last_panic(record@) {
            Some(text) => " | panic: "@ + text,
            None => ""@,
        },
{
    match &record.panic {
        Some(Some(text)) => {
            let mut suffix = " | panic: ".to_owned();
            suffix.append(text.as_str());
            suffix
        },
        _ => "".to_owned(),
    }
}

/// The name for `last_reset_str`.
pub open spec fn reset_name(reset: Option<ResetReason>) -> Seq<char> {
    match reset {
        Some(ResetReason::PowerOn) => "PowerOn"@,
        Some(ResetReason::Software) => "Software (esp_restart)"@,
        Some(ResetReason::Panic) => "Panic / exception (crash)"@,
        Some(ResetReason::TaskWatchdog) => "TaskWatchdog"@,
        Some(ResetReason::InterruptWatchdog) => "InterruptWatchdog"@,
        Some(ResetReason::Watchdog) => "Watchdog"@,
        Some(ResetReason::Brownout) => "Brownout (power dip)"@,
        Some(ResetReason::DeepSleep) => "DeepSleep"@,
        Some(ResetReason::ExternalPin) => "ExternalPin"@,
        Some(ResetReason::Jtag) => "JTAG"@,
        Some(ResetReason::UsbPeripheral) => "USBPeripheral"@,
        Some(ResetReason::Other) => "Other"@,
        None => "Unknown"@,
    }
}

/// Why the previous run ended, in words.
pub fn last_reset_str(record: &BootRecord) -> (r: &'static str)
    ensures
        r@ == reset_name(record@.reset),
{
    match record.reset {
        Some(ResetReason::PowerOn) => "PowerOn",
        Some(ResetReason::Software) => "Software (esp_restart)",
        Some(ResetReason::Panic) => "Panic / exception (crash)",
        Some(ResetReason::TaskWatchdog) => "TaskWatchdog",
        Some(ResetReason::InterruptWatchdog) => "InterruptWatchdog",
        Some(ResetReason::Watchdog) => "Watchdog",
        Some(ResetReason::Brownout) => "Brownout (power dip)",
        Some(ResetReason::DeepSleep) => "DeepSleep",
        Some(ResetReason::ExternalPin) => "ExternalPin",
        Some(ResetReason::Jtag) => "JTAG",
        Some(ResetReason::UsbPeripheral) => "USBPeripheral",
        Some(ResetReason::Other) => "Other",
        None => "Unknown",
    }
}

/// A note on the internal heap for a line of a log: free bytes and largest block
/// on a board without external memory, nothing on one with it, where the numbers
/// are noise.
#[derive(Clone, Copy, Debug)]
pub struct Note {
    pub reading: Option<(usize, usize)>,
}

impl Note {
    /// A note of a reading.
    pub fn new(has_psram: bool, free: usize, largest: usize) -> (r: Note)
        ensures
            r.reading == if has_psram {
                None
            } else {
                Some((free, largest))
            },
    {
        Note { reading: if has_psram { None } else { Some((free, largest)) } }
    }

    /// The text for `text`.
    pub open spec fn spec_text(self) -> Seq<char> {
        match self.reading {
            Some((free, largest)) => " heap="@ + decimal(free as nat) + "/"@ + decimal(
                largest as nat,
            ),
            None => ""@,
        }
    }

    /// The note as text.
    pub fn text(&self) -> (r: String)
        ensures
            r@ == self.spec_text(),
    {
        match self.reading {
            Some((free, largest)) => {
                let mut text = " heap=".to_owned();
                text.append(decimal_text(free as u64).as_str());
                text.append("/");
                text.append(decimal_text(largest as u64).as_str());
                text
            },
            None => "".to_owned(),
        }
    }
}

/// A note on the internal heap for a line of a log.
pub fn heap_note(has_psram: bool, free: usize, largest: usize) -> (r: Note)
    ensures
        r.reading == if has_psram {
            None
        } else {
            Some((free, largest))
        },
{
    Note::new(has_psram, free, largest)
}

/// A hexadecimal digit in lower case.
pub open spec fn hex_char(v: int) -> char {
    if v < 10 {
        (48 + v) as u8 as char
    } else {
        (87 + v) as u8 as char
    }
}

/// A number as `0x` and eight hexadecimal digits.
pub open spec fn hex_address(n: u32) -> Seq<char> {
    "0x"@ + Seq::new(8, |i: int| hex_char(nibble(n, i)))
}

/// The `i`-th of the eight hexadecimal digits of a number, the most significant
/// first.
pub open spec fn nibble(n: u32, i: int) -> int {
    (n as int) / pow16(7 - i) % 16
}

/// 16 to the power of `n`.
pub open spec fn pow16(n: int) -> int
    decreases n,
{
    if n <= 0 {
        1
    } else {
        16 * pow16(n - 1)
    }
}

fn hex_text(n: u32) -> (r: String)
    ensures
        r@ == hex_address(n),
{
    let ghost digits = Seq::new(8, |i: int| hex_char(nibble(n, i)));
    let mut chars: Vec<char> = Vec::new();
    let mut unit: u32 = 0x1000_0000;
    let mut i: usize = 0;
    proof {
        reveal_with_fuel(pow16, 9);
    }
    while i < 8
        invariant
            i <= 8,
            i < 8 ==> unit == pow16(7 - i),
            digits == Seq::new(8, |i: int| hex_char(nibble(n, i))),
            chars@ == digits.take(i as int),
        decreases 8 - i,
    {
        proof {
            reveal_with_fuel(pow16, 9);
            assert(unit > 0);
        }
        let d: u8 = (n / unit % 16) as u8;
        assert(d == nibble(n, i as int));
        let c: char = if d < 10 { (48 + d) as char } else { (87 + d) as char };
        chars.push(c);
        unit = unit / 16;
        i += 1;
        assert(chars@ =~= digits.take(i as int));
    }
    assert(chars@ =~= digits);
    let mut text = "0x".to_owned();
    text.append(string_of(chars.as_slice()).as_str());
    text
}

/// What was read from the system.
#[derive(Clone, Copy, Debug)]
pub struct Readings {
    pub uptime_us: u64,
    pub heap_free: u32,
    pub heap_internal_free: u32,
    pub heap_min_free: u32,
    pub internal_largest_block: usize,
    pub internal_min_free: usize,
    pub internal_8bit_largest_block: usize,
    pub internal_8bit_min_free: usize,
    pub psram_free: usize,
    pub psram_largest_block: usize,
    /// The least free stack ever of each task, where the task runs.
    pub stack_wa_main_min: Option<u32>,
    pub stack_wa_blocking_min: Option<u32>,
    pub stack_wa_nvs_min: Option<u32>,
    pub stack_ws_transport_min: Option<u32>,
    pub rssi_dbm: Option<i32>,
}

/// A number, or null where there is none.
pub open spec fn number_or_null(n: Option<u32>) -> JsonTree {
    match n {
        Some(v) => JsonTree::Number(v as int),
        None => JsonTree::Null,
    }
}

/// Addresses as documents.
pub open spec fn addresses_list(addresses: Seq<u32>) -> Seq<JsonTree> {
    addresses.map_values(|a: u32| JsonTree::Text(hex_address(a)))
}

/// A core dump as a document, or null where there is none.
pub open spec fn coredump_document(record: BootView) -> JsonTree {
    match record.coredump {
        Some(Some(dump)) => JsonTree::Dict(
            map![
                "task"@ => JsonTree::Text(dump.task),
                "exc_pc"@ => JsonTree::Text(hex_address(dump.exc_pc)),
                "exc_cause"@ => JsonTree::Number(dump.exc_cause as int),
                "fault_addr"@ => JsonTree::Text(hex_address(dump.fault_addr)),
                "backtrace"@ => JsonTree::List(addresses_list(dump.backtrace)),
                "bt_corrupted"@ => JsonTree::Bool(dump.bt_corrupted),
            ],
        ),
        _ => JsonTree::Null,
    }
}

/// The telemetry as a document.
pub open spec fn metrics_document(record: BootView, now: Readings) -> JsonTree {
    JsonTree::Dict(
        map![
            "reset_reason"@ => JsonTree::Text(reset_name(record.reset)),
            "uptime_s"@ => JsonTree::Number(now.uptime_us as int / 1_000_000),
            "heap_free"@ => JsonTree::Number(now.heap_free as int),
            "heap_internal_free"@ => JsonTree::Number(now.heap_internal_free as int),
            "heap_min_free"@ => JsonTree::Number(now.heap_min_free as int),
            "internal_largest_block"@ => JsonTree::Number(now.internal_largest_block as int),
            "internal_min_free"@ => JsonTree::Number(now.internal_min_free as int),
            "internal_8bit_largest_block"@ => JsonTree::Number(
                now.internal_8bit_largest_block as int,
            ),
            "internal_8bit_min_free"@ => JsonTree::Number(now.internal_8bit_min_free as int),
            "psram_free"@ => JsonTree::Number(now.psram_free as int),
            "psram_largest_block"@ => JsonTree::Number(now.psram_largest_block as int),
            "stack_wa_main_min"@ => number_or_null(now.stack_wa_main_min),
            "stack_wa_blocking_min"@ => number_or_null(now.stack_wa_blocking_min),
            "stack_wa_nvs_min"@ => number_or_null(now.stack_wa_nvs_min),
            "stack_ws_transport_min"@ => number_or_null(now.stack_ws_transport_min),
            "rssi_dbm"@ => match now.rssi_dbm {
                Some(v) => JsonTree::Number(v as int),
                None => JsonTree::Null,
            },
            "last_panic"@ => match last_panic(record) {
                Some(text) => JsonTree::Text(text),
                None => JsonTree::Null,
            },
            "coredump"@ => coredump_document(record),
        ],
    )
}

fn coredump_node(record: &BootRecord) -> (r: JsonNode)
    ensures
        r.tree() == coredump_document(record@),
{
    match &record.coredump {
        Some(Some(dump)) => {
            let mut list = JsonList::new();
            let mut i: usize = 0;
            assert(addresses_list(dump.backtrace@.take(0)) =~= Seq::empty());
            while i < dump.backtrace.len()
                invariant
                    i <= dump.backtrace@.len(),
                    list@ == addresses_list(dump.backtrace@.take(i as int)),
                decreases dump.backtrace@.len() - i,
            {
                list.push(JsonNode::Text(hex_text(dump.backtrace[i])));
                i += 1;
                assert(list@ =~= addresses_list(dump.backtrace@.take(i as int)));
            }
            assert(dump.backtrace@.take(i as int) =~= dump.backtrace@);
            let mut fields = JsonFields::new();
            fields.put_text("task", dump.task.as_str());
            fields.put_text("exc_pc", hex_text(dump.exc_pc).as_str());
            fields.put_nat("exc_cause", dump.exc_cause as u64);
            fields.put_text("fault_addr", hex_text(dump.fault_addr).as_str());
            fields.put("backtrace", list.finish());
            fields.put_bool("bt_corrupted", dump.bt_corrupted);
            fields.finish()
        },
        _ => JsonNode::Null,
    }
}

fn number_node(n: Option<u32>) -> (r: JsonNode)
    ensures
        r.tree() == number_or_null(n),
{
    match n {
        Some(v) => JsonNode::Nat(v as u64),
        None => JsonNode::Null,
    }
}

/// The telemetry as a document.
pub fn system_metrics_json(record: &BootRecord, now: &Readings) -> (r: String)
    ensures
        r@ == json_text(metrics_document(record@, *now)),
{
    let mut fields = JsonFields::new();
    fields.put_text("reset_reason", last_reset_str(record));
    fields.put_nat("uptime_s", now.uptime_us / 1_000_000);
    fields.put_nat("heap_free", now.heap_free as u64);
    fields.put_nat("heap_internal_free", now.heap_internal_free as u64);
    fields.put_nat("heap_min_free", now.heap_min_free as u64);
    fields.put_nat("internal_largest_block", now.internal_largest_block as u64);
    fields.put_nat("internal_min_free", now.internal_min_free as u64);
    fields.put_nat("internal_8bit_largest_block", now.internal_8bit_largest_block as u64);
    fields.put_nat("internal_8bit_min_free", now.internal_8bit_min_free as u64);
    fields.put_nat("psram_free", now.psram_free as u64);
    fields.put_nat("psram_largest_block", now.psram_largest_block as u64);
    fields.put("stack_wa_main_min", number_node(now.stack_wa_main_min));
    fields.put("stack_wa_blocking_min", number_node(now.stack_wa_blocking_min));
    fields.put("stack_wa_nvs_min", number_node(now.stack_wa_nvs_min));
    fields.put("stack_ws_transport_min", number_node(now.stack_ws_transport_min));
    match now.rssi_dbm {
        Some(v) => fields.put_int("rssi_dbm", v as i64),
        None => fields.put("rssi_dbm", JsonNode::Null),
    }
    match &record.panic {
        Some(Some(text)) => fields.put_text("last_panic", text.as_str()),
        _ => fields.put("last_panic", JsonNode::Null),
    }
    fields.put("coredump", coredump_node(record));
    to_text(&fields.finish())
}

/// A number, or a dash where there is none.
pub open spec fn number_or_dash(n: Option<u32>) -> Seq<char> {
    match n {
        Some(v) => decimal(v as nat),
        None => "-"@,
    }
}

fn dash_text(n: Option<u32>) -> (r: String)
    ensures
        r@ == number_or_dash(n),
{
    match n {
        Some(v) => decimal_text(v as u64),
        None => "-".to_owned(),
    }
}

/// A line for a log: the internal heap, and how much of its stack each worker has
/// never used.
pub fn memory_profile(at: &str, free: usize, largest: usize, now: &Readings) -> (r: String)
    ensures
        r@ == "memory at "@ + at@ + ": internal heap "@ + decimal(free as nat)
            + " free, largest block "@ + decimal(largest as nat)
            + "; stack never-used wa-main="@ + number_or_dash(now.stack_wa_main_min)
            + " wa-blocking="@ + number_or_dash(now.stack_wa_blocking_min) + " ws-transport="@
            + number_or_dash(now.stack_ws_transport_min) + " wa-nvs="@ + number_or_dash(
            now.stack_wa_nvs_min,
        ),
{
    let mut text = "memory at ".to_owned();
    text.append(at);
    text.append(": internal heap ");
    text.append(decimal_text(free as u64).as_str());
    text.append(" free, largest block ");
    text.append(decimal_text(largest as u64).as_str());
    text.append("; stack never-used wa-main=");
    text.append(dash_text(now.stack_wa_main_min).as_str());
    text.append(" wa-blocking=");
    text.append(dash_text(now.stack_wa_blocking_min).as_str());
    text.append(" ws-transport=");
    text.append(dash_text(now.stack_ws_transport_min).as_str());
    text.append(" wa-nvs=");
    text.append(dash_text(now.stack_wa_nvs_min).as_str());
    text
}

proof fn lemma_metric_names()
    ensures
        "reset_reason"@.len() == 12,
        "uptime_s"@.len() == 8,
        "uptime_s"@[0] == 'u',
        "heap_free"@.len() == 9,
        "heap_internal_free"@.len() == 18,
        "heap_min_free"@.len() == 13,
        "internal_largest_block"@.len() == 22,
        "internal_largest_block"@[0] == 'i',
        "internal_largest_block"@[9] == 'l',
        "internal_min_free"@.len() == 17,
        "internal_min_free"@[0] == 'i',
        "internal_8bit_largest_block"@.len() == 27,
        "internal_8bit_min_free"@.len() == 22,
        "internal_8bit_min_free"@[0] == 'i',
        "internal_8bit_min_free"@[9] == '8',
        "psram_free"@.len() == 10,
        "psram_free"@[0] == 'p',
        "psram_largest_block"@.len() == 19,
        "stack_wa_main_min"@.len() == 17,
        "stack_wa_main_min"@[0] == 's',
        "stack_wa_blocking_min"@.len() == 21,
        "stack_wa_nvs_min"@.len() == 16,
        "stack_ws_transport_min"@.len() == 22,
        "stack_ws_transport_min"@[0] == 's',
        "rssi_dbm"@.len() == 8,
        "rssi_dbm"@[0] == 'r',
        "last_panic"@.len() == 10,
        "last_panic"@[0] == 'l',
        "coredump"@.len() == 8,
        "coredump"@[0] == 'c',
{
    reveal_strlit("reset_reason");
    reveal_strlit("uptime_s");
    reveal_strlit("heap_free");
    reveal_strlit("heap_internal_free");
    reveal_strlit("heap_min_free");
    reveal_strlit("internal_largest_block");
    reveal_strlit("internal_min_free");
    reveal_strlit("internal_8bit_largest_block");
    reveal_strlit("internal_8bit_min_free");
    reveal_strlit("psram_free");
    reveal_strlit("psram_largest_block");
    reveal_strlit("stack_wa_main_min");
    reveal_strlit("stack_wa_blocking_min");
    reveal_strlit("stack_wa_nvs_min");
    reveal_strlit("stack_ws_transport_min");
    reveal_strlit("rssi_dbm");
    reveal_strlit("last_panic");
    reveal_strlit("coredump");
}

/// Every reading is shown under its own name, in its own unit, and as null where it could
/// not be had; so is what is known of how the previous run ended.
pub proof fn readings_are_shown_by_name(record: BootView, now: Readings)
    ensures
        metrics_document(record, now) matches JsonTree::Dict(fields) && {
            &&& fields["reset_reason"@] == JsonTree::Text(reset_name(record.reset))
            &&& fields["uptime_s"@] == JsonTree::Number(now.uptime_us as int / 1000000)
            &&& fields["heap_free"@] == JsonTree::Number(now.heap_free as int)
            &&& fields["heap_internal_free"@] == JsonTree::Number(now.heap_internal_free as int)
            &&& fields["heap_min_free"@] == JsonTree::Number(now.heap_min_free as int)
            &&& fields["internal_largest_block"@] == JsonTree::Number(
                now.internal_largest_block as int,
            )
            &&& fields["internal_min_free"@] == JsonTree::Number(now.internal_min_free as int)
            &&& fields["internal_8bit_largest_block"@] == JsonTree::Number(
                now.internal_8bit_largest_block as int,
            )
            &&& fields["internal_8bit_min_free"@] == JsonTree::Number(
                now.internal_8bit_min_free as int,
            )
            &&& fields["psram_free"@] == JsonTree::Number(now.psram_free as int)
            &&& fields["psram_largest_block"@] == JsonTree::Number(now.psram_largest_block as int)
            &&& now.stack_wa_main_min matches Some(n) ==> fields["stack_wa_main_min"@]
                == JsonTree::Number(n as int)
            &&& now.stack_wa_main_min is None ==> fields["stack_wa_main_min"@] == JsonTree::Null
            &&& now.stack_wa_blocking_min matches Some(n) ==> fields["stack_wa_blocking_min"@]
                == JsonTree::Number(n as int)
            &&& now.stack_wa_blocking_min is None ==> fields["stack_wa_blocking_min"@]
                == JsonTree::Null
            &&& now.stack_wa_nvs_min matches Some(n) ==> fields["stack_wa_nvs_min"@]
                == JsonTree::Number(n as int)
            &&& now.stack_wa_nvs_min is None ==> fields["stack_wa_nvs_min"@] == JsonTree::Null
            &&& now.stack_ws_transport_min matches Some(n) ==> fields["stack_ws_transport_min"@]
                == JsonTree::Number(n as int)
            &&& now.stack_ws_transport_min is None ==> fields["stack_ws_transport_min"@]
                == JsonTree::Null
            &&& now.rssi_dbm matches Some(n) ==> fields["rssi_dbm"@] == JsonTree::Number(n as int)
            &&& now.rssi_dbm is None ==> fields["rssi_dbm"@] == JsonTree::Null
            &&& record.panic matches Some(Some(text)) ==> fields["last_panic"@] == JsonTree::Text(
                text,
            )
            &&& !(record.panic matches Some(Some(_))) ==> fields["last_panic"@] == JsonTree::Null
            &&& fields["coredump"@] == coredump_document(record)
            &&& fields.dom().len() == 18
        },
{
    lemma_metric_names();
    let fields = metrics_document(record, now)->Dict_0;
    assert(fields.dom() =~= set![
        "reset_reason"@,
        "uptime_s"@,
        "heap_free"@,
        "heap_internal_free"@,
        "heap_min_free"@,
        "internal_largest_block"@,
        "internal_min_free"@,
        "internal_8bit_largest_block"@,
        "internal_8bit_min_free"@,
        "psram_free"@,
        "psram_largest_block"@,
        "stack_wa_main_min"@,
        "stack_wa_blocking_min"@,
        "stack_wa_nvs_min"@,
        "stack_ws_transport_min"@,
        "rssi_dbm"@,
        "last_panic"@,
        "coredump"@,
    ]);
}

/// A core dump is shown whole, each part under its name, addresses in hexadecimal and in
/// order; without one null is shown.
pub proof fn core_dumps_are_shown_whole(record: BootView)
    ensures
        !(record.coredump matches Some(Some(_))) ==> coredump_document(record) == JsonTree::Null,
        record.coredump matches Some(Some(dump)) ==> (coredump_document(
            record,
        ) matches JsonTree::Dict(fields) && {
            &&& fields["task"@] == JsonTree::Text(dump.task)
            &&& fields["exc_pc"@] == JsonTree::Text(hex_address(dump.exc_pc))
            &&& fields["exc_cause"@] == JsonTree::Number(dump.exc_cause as int)
            &&& fields["fault_addr"@] == JsonTree::Text(hex_address(dump.fault_addr))
            &&& fields["bt_corrupted"@] == JsonTree::Bool(dump.bt_corrupted)
            &&& fields["backtrace"@] matches JsonTree::List(items) && items.len()
                == dump.backtrace.len() && forall|i: int|
                0 <= i < items.len() ==> #[trigger] items[i] == JsonTree::Text(
                    hex_address(dump.backtrace[i]),
                )
        }),
{
    reveal_strlit("task");
    reveal_strlit("exc_pc");
    reveal_strlit("exc_cause");
    reveal_strlit("fault_addr");
    reveal_strlit("backtrace");
    reveal_strlit("bt_corrupted");
    assert("task"@.len() == 4 && "exc_pc"@.len() == 6 && "exc_cause"@.len() == 9);
    assert("fault_addr"@.len() == 10 && "backtrace"@.len() == 9 && "bt_corrupted"@.len() == 12);
    assert("exc_cause"@[0] == 'e' && "backtrace"@[0] == 'b');
}

/// An address is `0x` and its eight hexadecimal digits, the highest first.
pub proof fn addresses_are_in_hexadecimal(n: u32)
    ensures
        ({
            let digits = "0123456789abcdef"@;
            let v = n as int;
            hex_address(n) == seq![
                '0',
                'x',
                digits[v / 0x1000_0000],
                digits[v / 0x100_0000 % 16],
                digits[v / 0x10_0000 % 16],
                digits[v / 0x1_0000 % 16],
                digits[v / 0x1000 % 16],
                digits[v / 0x100 % 16],
                digits[v / 0x10 % 16],
                digits[v % 16],
            ]
        }),
{
    reveal_with_fuel(pow16, 9);
    reveal_strlit("0x");
    reveal_strlit("0123456789abcdef");
    let v = n as int;
    assert(pow16(7) == 0x1000_0000 && pow16(6) == 0x100_0000 && pow16(5) == 0x10_0000 && pow16(4)
        == 0x1_0000 && pow16(3) == 0x1000 && pow16(2) == 0x100 && pow16(1) == 0x10 && pow16(0)
        == 1);
    assert(v / 0x1000_0000 < 16);
    lemma_hex_char(nibble(n, 0));
    lemma_hex_char(nibble(n, 1));
    lemma_hex_char(nibble(n, 2));
    lemma_hex_char(nibble(n, 3));
    lemma_hex_char(nibble(n, 4));
    lemma_hex_char(nibble(n, 5));
    lemma_hex_char(nibble(n, 6));
    lemma_hex_char(nibble(n, 7));
    let digits = "0123456789abcdef"@;
    assert(hex_address(n) =~= seq![
        '0',
        'x',
        digits[v / 0x1000_0000],
        digits[v / 0x100_0000 % 16],
        digits[v / 0x10_0000 % 16],
        digits[v / 0x1_0000 % 16],
        digits[v / 0x1000 % 16],
        digits[v / 0x100 % 16],
        digits[v / 0x10 % 16],
        digits[v % 16],
    ]);
}

proof fn lemma_hex_char(v: int)
    requires
        0 <= v < 16,
    ensures
        hex_char(v) == "0123456789abcdef"@[v],
{
    reveal_strlit("0123456789abcdef");
}

/// Why the previous run ended is told in these words.
pub proof fn resets_are_told_in_words(record: BootView)
    ensures
        reset_name(None) == "Unknown"@,
        reset_name(Some(ResetReason::PowerOn)) == "PowerOn"@,
        reset_name(Some(ResetReason::Software)) == "Software (esp_restart)"@,
        reset_name(Some(ResetReason::Panic)) == "Panic / exception (crash)"@,
        reset_name(Some(ResetReason::TaskWatchdog)) == "TaskWatchdog"@,
        reset_name(Some(ResetReason::InterruptWatchdog)) == "InterruptWatchdog"@,
        reset_name(Some(ResetReason::Watchdog)) == "Watchdog"@,
        reset_name(Some(ResetReason::Brownout)) == "Brownout (power dip)"@,
        reset_name(Some(ResetReason::DeepSleep)) == "DeepSleep"@,
        reset_name(Some(ResetReason::ExternalPin)) == "ExternalPin"@,
        reset_name(Some(ResetReason::Jtag)) == "JTAG"@,
        reset_name(Some(ResetReason::UsbPeripheral)) == "USBPeripheral"@,
        reset_name(Some(ResetReason::Other)) == "Other"@,
        last_panic(record) is Some <==> record.panic is Some && record.panic->0 is Some,
        last_panic(record) is Some ==> last_panic(record)->0 == record.panic->0->0,
{
}

/// The heap is noted with both numbers, and only where there is no external memory.
pub proof fn notes_hold_both_numbers(note: Note)
    ensures
        note.reading matches Some((free, largest)) ==> note.spec_text() == " heap="@ + decimal(
            free as nat,
        ) + "/"@ + decimal(largest as nat),
        note.reading is None ==> note.spec_text() == ""@,
{
}

/// What was read is viewed as it is.
pub proof fn dumps_are_viewed_as_they_are(summary: CoredumpSummary)
    ensures
        summary@.task == summary.task@,
        summary@.exc_pc == summary.exc_pc,
        summary@.exc_cause == summary.exc_cause,
        summary@.fault_addr == summary.fault_addr,
        summary@.backtrace == summary.backtrace@,
        summary@.bt_corrupted == summary.bt_corrupted,
        coredump_view(Some(summary)) == Some(summary@),
        coredump_view(None) is None,
{
}

/// Numbers and messages that are there are told, and a dash where there is none.
pub proof fn missing_numbers_are_dashes(n: u32, text: String)
    ensures
        number_or_dash(Some(n)) == decimal(n as nat),
        number_or_dash(None) == "-"@,
        panic_view(Some(text)) == Some(text@),
        panic_view(None) is None,
{
}

} // verus!
