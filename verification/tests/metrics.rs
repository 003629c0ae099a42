use whatsapp_esp32::crash::{CoredumpSummary, CrashLog, FixedBuf, RawSummary};
use whatsapp_esp32::metrics::{
    heap_note, last_panic_str, last_reset_str, memory_profile, set_last_coredump, set_last_panic,
    set_last_reset, system_metrics_json, BootRecord, Note, Readings, ResetReason,
};

fn readings() -> Readings {
    Readings {
        uptime_us: 61_999_999,
        heap_free: 1,
        heap_internal_free: 2,
        heap_min_free: 3,
        internal_largest_block: 4,
        internal_min_free: 5,
        internal_8bit_largest_block: 6,
        internal_8bit_min_free: 7,
        psram_free: 8,
        psram_largest_block: 9,
        stack_wa_main_min: Some(10),
        stack_wa_blocking_min: None,
        stack_wa_nvs_min: Some(11),
        stack_ws_transport_min: None,
        rssi_dbm: Some(-61),
    }
}

fn raw_summary() -> RawSummary {
    let mut task = [0u8; 16];
    task[..7].copy_from_slice(b"wa-main");
    task[8] = b'x';
    RawSummary {
        task,
        exc_pc: 0x4200_beef,
        exc_cause: 28,
        fault_addr: 0,
        backtrace: vec![0xffff_ffff, 0x10, 3],
        depth: 2,
        bt_corrupted: false,
    }
}

#[test]
fn what_was_noted_first_stays() {
    let mut record = BootRecord::new();
    assert_eq!(last_reset_str(&record), "Unknown");
    assert_eq!(last_panic_str(&record), "");
    set_last_reset(&mut record, ResetReason::Brownout);
    set_last_reset(&mut record, ResetReason::PowerOn);
    assert_eq!(last_reset_str(&record), "Brownout (power dip)");
    set_last_panic(&mut record, Some("boom".to_string()));
    set_last_panic(&mut record, None);
    assert_eq!(last_panic_str(&record), " | panic: boom");
    let mut quiet = BootRecord::new();
    set_last_panic(&mut quiet, None);
    set_last_panic(&mut quiet, Some("late".to_string()));
    assert_eq!(last_panic_str(&quiet), "");
}

#[test]
fn reset_reasons_have_names() {
    for (reason, name) in [
        (ResetReason::PowerOn, "PowerOn"),
        (ResetReason::Software, "Software (esp_restart)"),
        (ResetReason::Panic, "Panic / exception (crash)"),
        (ResetReason::TaskWatchdog, "TaskWatchdog"),
        (ResetReason::InterruptWatchdog, "InterruptWatchdog"),
        (ResetReason::Watchdog, "Watchdog"),
        (ResetReason::DeepSleep, "DeepSleep"),
        (ResetReason::ExternalPin, "ExternalPin"),
        (ResetReason::Jtag, "JTAG"),
        (ResetReason::UsbPeripheral, "USBPeripheral"),
        (ResetReason::Other, "Other"),
    ] {
        let mut record = BootRecord::new();
        set_last_reset(&mut record, reason);
        assert_eq!(last_reset_str(&record), name);
    }
}

#[test]
fn telemetry_is_one_document() {
    let mut record = BootRecord::new();
    assert_eq!(
        system_metrics_json(&record, &readings()),
        r#"{"coredump":null,"heap_free":1,"heap_internal_free":2,"heap_min_free":3,"internal_8bit_largest_block":6,"internal_8bit_min_free":7,"internal_largest_block":4,"internal_min_free":5,"last_panic":null,"psram_free":8,"psram_largest_block":9,"reset_reason":"Unknown","rssi_dbm":-61,"stack_wa_blocking_min":null,"stack_wa_main_min":10,"stack_wa_nvs_min":11,"stack_ws_transport_min":null,"uptime_s":61}"#
    );
    set_last_panic(&mut record, Some("p".to_string()));
    set_last_coredump(&mut record, Some(CoredumpSummary::of(&raw_summary())));
    set_last_coredump(&mut record, None);
    let json = system_metrics_json(&record, &readings());
    assert!(json.contains(r#""last_panic":"p""#));
    assert!(json.contains(
        r#""coredump":{"backtrace":["0xffffffff","0x00000010"],"bt_corrupted":false,"exc_cause":28,"exc_pc":"0x4200beef","fault_addr":"0x00000000","task":"wa-main"}"#
    ));
}

#[test]
fn a_summary_holds_what_is_meaningful() {
    let summary = CoredumpSummary::of(&raw_summary());
    assert_eq!(summary.task, "wa-main");
    assert_eq!(summary.backtrace, [0xffff_ffff, 0x10]);
    let mut raw = raw_summary();
    raw.task = *b"sixteen-letters!";
    raw.depth = 99;
    let summary = CoredumpSummary::of(&raw);
    assert_eq!(summary.task, "sixteen-letters!");
    assert_eq!(summary.backtrace.len(), 3);
    raw.task[0] = 0xff;
    assert_eq!(CoredumpSummary::of(&raw).task, "\u{fffd}ixteen-letters!");
}

#[test]
fn a_crash_is_reported_once() {
    let mut log = CrashLog::new();
    assert_eq!((log.magic, log.len, log.internal_free, log.internal_largest), (0, 0, 0, 0));
    assert_eq!(log.msg, [0; 256]);
    assert_eq!(log.take(), None);
    let mut text = FixedBuf::new();
    text.write_str("panicked at src/x.rs:5: ");
    text.write_str("boom");
    log.record(&text, 1234, 56);
    assert_eq!(
        log.take().unwrap(),
        "panicked at src/x.rs:5: boom | internal-DRAM @panic: free=1234 B, largest_block=56 B"
    );
    assert_eq!(log.take(), None);
    assert_eq!((log.magic, log.len, log.internal_free, log.internal_largest), (0, 28, 1234, 56));
    // What a longer message left behind stays where the shorter one does not reach.
    let mut short = FixedBuf::new();
    short.write_str("x");
    log.record(&short, 0, 0);
    assert_eq!(&log.msg[..9], b"xanicked ");
    assert_eq!(&log.msg[28..], &[0; 228]);
}

#[test]
fn a_crash_message_is_clipped() {
    let mut text = FixedBuf::new();
    text.write_str(&"a".repeat(255));
    text.write_str("é");
    text.write_str("more");
    let mut log = CrashLog::new();
    log.record(&text, 0, 0);
    let report = log.take().unwrap();
    assert!(report.starts_with(&format!("{}\u{fffd} | internal", "a".repeat(255))));
    // A log whose length is garbage is read within its bounds.
    log.record(&text, 0, 0);
    log.len = u16::MAX;
    assert_eq!(log.take().unwrap(), report);
}

#[test]
fn heap_notes_are_for_boards_without_external_memory() {
    assert_eq!(heap_note(false, 71208, 57344).text(), " heap=71208/57344");
    assert_eq!(Note::new(true, 1, 2).text(), "");
}

#[test]
fn the_memory_profile_names_every_worker() {
    assert_eq!(
        memory_profile("websocket connect", 75236, 49152, &readings()),
        "memory at websocket connect: internal heap 75236 free, largest block 49152; \
         stack never-used wa-main=10 wa-blocking=- ws-transport=- wa-nvs=11"
    );
}
