use std::collections::BTreeMap;
use whatsapp_esp32::flash::{
    decode_record, encode_record, erase_step, record_name, BlobRead, EraseOutcome, EraseStep,
    FlashAction, Namespace, StoreError, MAX_DEVICE_LEN, MAX_LOGICAL_KEY_LEN, MAX_PREKEYS,
    MAX_RECORD_BLOB_LEN, MAX_SIGNAL_RECORD_LEN, MAX_SIGNED_PREKEYS,
};
use whatsapp_esp32::mirror::{
    AppStateSyncKey, FlashImage, NamespaceImage, MAX_DEVICE_BLOB_LEN, MAX_LATEST_BLOB_LEN,
};
use whatsapp_esp32::storage::{NvsStore, PendingDelete, PendingPut};
use whatsapp_esp32::supervisor::{finish_maintenance, prepare_maintenance, MaintenanceAction};
use whatsapp_rust::wacore::store::Device;

/// A partition in memory.
#[derive(Clone, Default)]
struct Partition {
    blobs: BTreeMap<(String, String), Vec<u8>>,
}

impl Partition {
    fn at(space: Namespace, name: &str) -> (String, String) {
        (space.name().to_string(), name.to_string())
    }

    fn read(&self, space: Namespace, name: &str, max: usize) -> BlobRead {
        match self.blobs.get(&Self::at(space, name)) {
            None => BlobRead::Absent,
            Some(data) if data.len() > max => BlobRead::TooLarge(data.len()),
            Some(data) => BlobRead::Data(data.clone()),
        }
    }

    fn apply(&mut self, action: &FlashAction) {
        match action {
            FlashAction::Write {
                space,
                name,
                record,
            } => {
                self.blobs.insert(Self::at(*space, name), record.clone());
            }
            FlashAction::Remove { space, name } => {
                self.blobs.remove(&Self::at(*space, name));
            }
            FlashAction::Erase { space } => {
                self.blobs.retain(|at, _| at.0 != space.name());
            }
        }
    }

    fn apply_all(&mut self, actions: &[FlashAction]) {
        for action in actions {
            self.apply(action);
        }
    }

    fn listing(&self, space: Namespace) -> NamespaceImage {
        self.blobs
            .keys()
            .filter(|at| at.0 == space.name())
            .map(|at| (at.1.clone(), self.read(space, &at.1, MAX_RECORD_BLOB_LEN)))
            .collect()
    }

    fn image(&self) -> FlashImage {
        FlashImage {
            reset: self.read(Namespace::Control, "reset", 1),
            device: self.read(Namespace::Device, "current", MAX_DEVICE_BLOB_LEN),
            latest: Some(self.read(Namespace::Control, "latestsync", MAX_LATEST_BLOB_LEN)),
            identities: self.listing(Namespace::Identity),
            sessions: self.listing(Namespace::Session),
            prekeys: self.listing(Namespace::Prekey),
            signed_prekeys: self.listing(Namespace::SignedPrekey),
            sender_keys: self.listing(Namespace::SenderKey),
            sync_keys: self.listing(Namespace::SyncKey),
        }
    }
}

fn open(flash: &mut Partition) -> NvsStore {
    let (store, actions) = match NvsStore::open(&flash.image()) {
        Ok(opened) => opened,
        Err(e) => panic!("{}", e.message()),
    };
    flash.apply_all(&actions);
    store
}

fn open_error(flash: &Partition) -> String {
    match NvsStore::open(&flash.image()) {
        Ok(_) => panic!("opened"),
        Err(e) => e.message(),
    }
}

fn put(
    store: &mut NvsStore,
    flash: &mut Partition,
    pending: Result<PendingPut, StoreError>,
) -> Result<(), StoreError> {
    let pending = pending?;
    let (space, name) = pending.slot();
    let existing = flash.read(space, name, MAX_RECORD_BLOB_LEN);
    let ready = pending.ready(&existing)?;
    flash.apply(ready.action());
    store.finish_put(ready);
    Ok(())
}

fn delete(
    store: &mut NvsStore,
    flash: &mut Partition,
    pending: Result<PendingDelete, StoreError>,
) -> Result<bool, StoreError> {
    let pending = pending?;
    let (space, name) = pending.slot();
    let existing = flash.read(space, name, MAX_RECORD_BLOB_LEN);
    let removal = pending.removal(&existing)?;
    if let Some(action) = &removal {
        flash.apply(action);
    }
    store.finish_delete(pending);
    Ok(removal.is_some())
}

fn set_sync_key(
    store: &mut NvsStore,
    flash: &mut Partition,
    id: &[u8],
    timestamp: i64,
    cut: bool,
) -> Result<(), StoreError> {
    let pending = store.set_sync_key(id, &sync_key(timestamp))?;
    flash.apply(pending.marker_action());
    if cut {
        return Ok(());
    }
    let put = pending.into_put();
    let (space, name) = put.slot();
    let existing = flash.read(space, name, MAX_RECORD_BLOB_LEN);
    let ready = put.ready(&existing)?;
    flash.apply(ready.action());
    store.finish_set_sync_key(ready);
    Ok(())
}

fn sync_key(timestamp: i64) -> AppStateSyncKey {
    AppStateSyncKey {
        key_data: vec![1, 2, 250],
        fingerprint: vec![9],
        timestamp,
    }
}

fn save_device(store: &mut NvsStore, flash: &mut Partition) {
    let payload = serde_json::to_vec(&Device::new()).unwrap();
    let action = store.begin_save(&payload).unwrap();
    flash.apply(&action);
    store.save(payload);
}

fn linked() -> (NvsStore, Partition) {
    let mut flash = Partition::default();
    let mut store = open(&mut flash);
    save_device(&mut store, &mut flash);
    (store, flash)
}

/// A linked device with a record of every kind.
fn filled() -> (NvsStore, Partition) {
    let (mut store, mut flash) = linked();
    let p = store.put_identity("1555@s.whatsapp.net", [7; 32]);
    put(&mut store, &mut flash, p).unwrap();
    let p = store.put_session("1555:2@s.whatsapp.net", b"session");
    put(&mut store, &mut flash, p).unwrap();
    let p = store.store_prekey(0x01020304, b"prekey");
    put(&mut store, &mut flash, p).unwrap();
    let p = store.store_prekey(9, b"other");
    put(&mut store, &mut flash, p).unwrap();
    let p = store.store_signed_prekey(1, b"signed");
    put(&mut store, &mut flash, p).unwrap();
    let p = store.put_sender_key("group", b"sender");
    put(&mut store, &mut flash, p).unwrap();
    set_sync_key(&mut store, &mut flash, b"newer", 20, false).unwrap();
    set_sync_key(&mut store, &mut flash, b"older", 10, false).unwrap();
    (store, flash)
}

#[test]
fn records_carry_their_key() {
    let record = encode_record(b"key", b"value").unwrap();
    assert_eq!(record, b"WA1\x03\x00keyvalue");
    let (key, value) = decode_record(&record).unwrap();
    assert_eq!((key, value), (&b"key"[..], &b"value"[..]));
    let long = vec![5u8; MAX_LOGICAL_KEY_LEN];
    let record = encode_record(&long, b"").unwrap();
    assert_eq!(&record[..5], b"WA1\x00\x02");
    assert_eq!(decode_record(&record).unwrap().0, &long[..]);
    assert_eq!(
        encode_record(&vec![5u8; MAX_LOGICAL_KEY_LEN + 1], b"")
            .unwrap_err()
            .message(),
        "logical storage key is too long: 513 bytes"
    );
    for bad in [&b"WA1\x00"[..], b"WA2\x00\x00", b""] {
        assert_eq!(
            decode_record(bad).unwrap_err().message(),
            "invalid WhatsApp NVS record header"
        );
    }
    for bad in [&b"WA1\x04\x00key"[..], b"WA1\x01\x02"] {
        assert_eq!(
            decode_record(bad).unwrap_err().message(),
            "invalid WhatsApp NVS logical-key length"
        );
    }
}

#[test]
fn names_are_the_front_of_a_hash_in_base32() {
    // SHA-256 of nothing begins e3b0c44298fc1c149afb.
    assert_eq!(record_name(b""), "4oymiquy7qobjgx");
    // SHA-256 of `abc` begins ba7816bf8f01cfea4141.
    assert_eq!(record_name(b"abc"), "xj4bnp4pahh6uqk");
    assert_eq!(record_name(b"device").len(), 15);
}

#[test]
fn an_erase_counts_once_nothing_is_left() {
    assert_eq!(erase_step(1, EraseOutcome::Remaining(0)), EraseStep::Done);
    assert_eq!(erase_step(1, EraseOutcome::Remaining(2)), EraseStep::Retry);
    assert_eq!(erase_step(2, EraseOutcome::Error), EraseStep::Retry);
    assert_eq!(erase_step(3, EraseOutcome::Error), EraseStep::Failed);
    assert_eq!(erase_step(3, EraseOutcome::Remaining(0)), EraseStep::Done);
}

#[test]
fn a_new_partition_opens_empty() {
    let mut flash = Partition::default();
    let store = open(&mut flash);
    assert!(!store.device_exists());
    assert!(store.load().is_none());
    assert_eq!(store.get_max_prekey_id(), 0);
    assert!(store.list_sessions().is_empty());
    assert!(flash.blobs.is_empty());
}

#[test]
fn a_linked_device_comes_back_from_a_boot() {
    let (before, mut flash) = filled();
    let blobs = flash.blobs.clone();
    let store = open(&mut flash);
    assert_eq!(flash.blobs, blobs, "a boot erases nothing of it");
    assert_eq!(store.load(), before.load());
    assert_eq!(store.stats(), before.stats());
    assert_eq!(store.stats().sessions, 1);
    assert_eq!(store.stats().identities, 1);
    assert_eq!(store.stats().prekeys, 2);
    assert_eq!(store.stats().sender_keys, 1);
    assert!(store.stats().device_exists);
    assert_eq!(
        store.load_identity("1555@s.whatsapp.net").unwrap()[..],
        [7; 32]
    );
    assert_eq!(
        store.get_session("1555:2@s.whatsapp.net").unwrap()[..],
        b"session"[..]
    );
    assert_eq!(store.load_prekey(0x01020304).unwrap()[..], b"prekey"[..]);
    assert_eq!(store.get_max_prekey_id(), 0x01020304);
    assert_eq!(store.load_signed_prekey(1).unwrap()[..], b"signed"[..]);
    assert_eq!(store.load_all_signed_prekeys().len(), 1);
    assert_eq!(store.load_all_signed_prekeys()[0].0, 1);
    assert_eq!(store.get_sender_key("group").unwrap()[..], b"sender"[..]);
    let key = store.get_sync_key(b"newer").unwrap();
    assert_eq!(key.key_data, [1, 2, 250]);
    assert_eq!(key.fingerprint, [9]);
    assert_eq!(key.timestamp, 20);
    assert!(store.get_sync_key(b"none").is_none());
    assert_eq!(store.get_latest_sync_key_id().unwrap(), b"older");
    assert_eq!(store.list_sessions(), ["1555:2@s.whatsapp.net"]);
}

#[test]
fn the_newest_sync_key_stands_in_for_a_missing_marker() {
    let (_, mut flash) = filled();
    flash.apply(&FlashAction::Remove {
        space: Namespace::Control,
        name: "latestsync".to_string(),
    });
    assert_eq!(open(&mut flash).get_latest_sync_key_id().unwrap(), b"newer");
    // So it does for one that names no key, and for one that cannot be read.
    flash.apply(&FlashAction::Write {
        space: Namespace::Control,
        name: "latestsync".to_string(),
        record: encode_record(b"latestsync", b"gone").unwrap(),
    });
    assert_eq!(open(&mut flash).get_latest_sync_key_id().unwrap(), b"newer");
    let mut image = flash.image();
    image.latest = None;
    let (store, _) = NvsStore::open(&image).ok().unwrap();
    assert_eq!(store.get_latest_sync_key_id().unwrap(), b"newer");
    flash.apply(&FlashAction::Write {
        space: Namespace::Control,
        name: "latestsync".to_string(),
        record: encode_record(b"other", b"older").unwrap(),
    });
    assert_eq!(open(&mut flash).get_latest_sync_key_id().unwrap(), b"newer");
}

#[test]
fn a_cut_sync_key_write_is_ignored_at_boot() {
    let (mut store, mut flash) = filled();
    set_sync_key(&mut store, &mut flash, b"brand new", 30, true).unwrap();
    let store = open(&mut flash);
    assert_eq!(store.get_latest_sync_key_id().unwrap(), b"newer");
    assert!(store.get_sync_key(b"brand new").is_none());
    assert!(store.get_sync_key(b"older").is_some());
}

#[test]
fn deleted_records_stay_deleted() {
    let (mut store, mut flash) = filled();
    let p = store.delete_identity("1555@s.whatsapp.net");
    assert!(delete(&mut store, &mut flash, p).unwrap());
    let p = store.delete_session("1555:2@s.whatsapp.net");
    assert!(delete(&mut store, &mut flash, p).unwrap());
    let p = store.remove_prekey(0x01020304);
    assert!(delete(&mut store, &mut flash, p).unwrap());
    let p = store.remove_signed_prekey(1);
    assert!(delete(&mut store, &mut flash, p).unwrap());
    let p = store.delete_sender_key("group");
    assert!(delete(&mut store, &mut flash, p).unwrap());
    let p = store.delete_sender_key("group");
    assert!(!delete(&mut store, &mut flash, p).unwrap(), "it was gone");
    for store in [store, open(&mut flash)] {
        assert!(store.load_identity("1555@s.whatsapp.net").is_none());
        assert!(store.get_session("1555:2@s.whatsapp.net").is_none());
        assert!(store.load_prekey(0x01020304).is_none());
        assert!(store.load_signed_prekey(1).is_none());
        assert!(store.get_sender_key("group").is_none());
        assert_eq!(store.get_max_prekey_id(), 9);
    }
}

#[test]
fn a_neighbour_under_the_same_name_is_never_touched() {
    let (mut store, mut flash) = linked();
    let name = record_name(b"mine");
    flash.apply(&FlashAction::Write {
        space: Namespace::Session,
        name: name.clone(),
        record: encode_record(b"theirs", b"x").unwrap(),
    });
    let p = store.put_session("mine", b"y");
    let error = put(&mut store, &mut flash, p).unwrap_err();
    assert_eq!(
        error.message(),
        format!("session NVS key collision at '{name}'")
    );
    assert!(store.get_session("mine").is_none());
    let p = store.delete_session("mine");
    assert!(delete(&mut store, &mut flash, p).is_err());
    assert_eq!(flash.blobs.len(), 2);
    assert_eq!(
        open_error(&flash),
        format!("session record '{name}' has a mismatched logical key")
    );
}

#[test]
fn records_and_keys_are_bounded() {
    let (mut store, mut flash) = linked();
    let most = vec![1u8; MAX_SIGNAL_RECORD_LEN];
    let p = store.put_session("a", &most);
    put(&mut store, &mut flash, p).unwrap();
    let more = vec![1u8; MAX_SIGNAL_RECORD_LEN + 1];
    let p = store.put_sender_key("a", &more);
    assert_eq!(
        put(&mut store, &mut flash, p).unwrap_err().message(),
        "sender key record is too large: 65537 bytes"
    );
    let p = store.put_session(&"k".repeat(513), b"");
    assert_eq!(
        put(&mut store, &mut flash, p).unwrap_err().message(),
        "logical storage key is too long: 513 bytes"
    );
    assert_eq!(
        store
            .begin_save(&vec![0u8; MAX_DEVICE_LEN + 1])
            .unwrap_err()
            .message(),
        "device record is too large: 65537 bytes"
    );
    assert_eq!(
        store
            .set_sync_key(&[0u8; 513], &sync_key(1))
            .unwrap_err()
            .message(),
        "sync key id is too long: 513 bytes"
    );
    assert_eq!(open(&mut flash).get_session("a").unwrap().len(), most.len());
}

#[test]
fn namespaces_hold_a_bounded_number_of_records() {
    let (mut store, mut flash) = linked();
    for id in 0..MAX_SIGNED_PREKEYS as u32 {
        let p = store.store_signed_prekey(id, b"x");
        put(&mut store, &mut flash, p).unwrap();
    }
    let p = store.store_signed_prekey(99, b"x");
    assert_eq!(
        put(&mut store, &mut flash, p).unwrap_err().message(),
        "signed prekey storage limit reached (16 records)"
    );
    let p = store.store_signed_prekey(3, b"replaced");
    put(&mut store, &mut flash, p).unwrap();
    assert_eq!(store.load_signed_prekey(3).unwrap()[..], b"replaced"[..]);
    for id in 0..=MAX_PREKEYS as u32 {
        let record = encode_record(&id.to_le_bytes(), b"x").unwrap();
        flash.apply(&FlashAction::Write {
            space: Namespace::Prekey,
            name: record_name(&id.to_le_bytes()),
            record,
        });
    }
    assert_eq!(
        open_error(&flash),
        "prekey namespace has 257 records; maximum is 256"
    );
}

fn with_record(space: Namespace, name: &str, record: Vec<u8>) -> Partition {
    let (_, mut flash) = linked();
    flash.apply(&FlashAction::Write {
        space,
        name: name.to_string(),
        record,
    });
    flash
}

fn keyed(space: Namespace, key: &[u8], value: &[u8]) -> Partition {
    with_record(space, &record_name(key), encode_record(key, value).unwrap())
}

#[test]
fn a_boot_refuses_what_it_does_not_understand() {
    assert_eq!(
        open_error(&keyed(Namespace::Session, b"\xff", b"")),
        "invalid session key"
    );
    assert_eq!(
        open_error(&keyed(Namespace::Identity, b"a", b"short")),
        "identity record for 'a' has 5 bytes"
    );
    assert_eq!(
        open_error(&keyed(Namespace::Identity, b"a", &[0; 33])),
        format!(
            "identity record '{}' is too large: 33 bytes",
            record_name(b"a")
        )
    );
    assert_eq!(
        open_error(&keyed(Namespace::SignedPrekey, b"12345", b"")),
        "invalid signed prekey numeric key length: 5"
    );
    assert_eq!(
        open_error(&keyed(Namespace::SyncKey, b"id", b"{}")),
        "invalid sync key record"
    );
    assert_eq!(
        open_error(&with_record(Namespace::SenderKey, "x", b"junk!".to_vec())),
        "invalid WhatsApp NVS record header"
    );
    assert_eq!(
        open_error(&with_record(
            Namespace::Device,
            "current",
            encode_record(b"other", b"{}").unwrap()
        )),
        "device record contains the wrong logical key"
    );
    assert_eq!(
        open_error(&with_record(
            Namespace::Device,
            "current",
            encode_record(b"device", b"{}").unwrap()
        )),
        "invalid device record"
    );
    assert_eq!(
        open_error(&with_record(Namespace::Control, "reset", b"12".to_vec())),
        "NVS record 'reset' is too large: 2 bytes"
    );
    let (_, flash) = linked();
    let mut image = flash.image();
    image.prekeys.push(("gone".to_string(), BlobRead::Absent));
    assert_eq!(
        NvsStore::open(&image).err().unwrap().message(),
        "prekey record 'gone' disappeared during startup"
    );
    let mut image = filled().1.image();
    image.sessions.push((
        record_name(b"1555:2@s.whatsapp.net"),
        BlobRead::Data(encode_record(b"1555:2@s.whatsapp.net", b"x").unwrap()),
    ));
    assert_eq!(
        NvsStore::open(&image).err().unwrap().message(),
        "duplicate session record in WhatsApp NVS"
    );
}

#[test]
fn a_reset_leaves_nothing_behind() {
    let (mut store, mut flash) = filled();
    store.caches_mut().put_tc_token(
        "x",
        whatsapp_esp32::caches::TcTokenEntry {
            token: vec![1],
            token_timestamp: 1,
            sender_timestamp: None,
        },
    );
    store.create().unwrap();
    flash.apply_all(&NvsStore::begin_reset());
    store.reset();
    assert!(flash.blobs.is_empty());
    assert!(!store.device_exists());
    assert!(store.caches().get_tc_token("x").is_none());
    assert!(store.get_latest_sync_key_id().is_none());
    assert_eq!(store.create().unwrap(), 1);
    assert!(!open(&mut flash).device_exists());
}

#[test]
fn a_cut_reset_is_completed_at_the_next_boot() {
    let (_, flash) = filled();
    let actions = NvsStore::begin_reset();
    for n in 1..=actions.len() {
        let mut cut = flash.clone();
        cut.apply_all(&actions[..n]);
        let store = open(&mut cut);
        assert!(!store.device_exists(), "after {n} changes");
        assert!(cut.blobs.is_empty(), "after {n} changes");
    }
}

#[test]
fn records_without_a_device_are_discarded() {
    let (_, mut flash) = filled();
    flash.apply(&FlashAction::Erase {
        space: Namespace::Device,
    });
    let store = open(&mut flash);
    assert_eq!(store.stats().sessions, 0);
    assert!(flash.blobs.is_empty());
}

#[test]
fn sealed_stores_take_no_writes() {
    let (mut store, _) = filled();
    store.seal_writes();
    let sealed = "WhatsApp storage is sealed for maintenance";
    assert_eq!(store.put_identity("a", [0; 32]).unwrap_err().message(), sealed);
    assert_eq!(store.put_session("a", b"").unwrap_err().message(), sealed);
    assert_eq!(store.store_prekey(1, b"").unwrap_err().message(), sealed);
    assert_eq!(store.store_signed_prekey(1, b"").unwrap_err().message(), sealed);
    assert_eq!(store.put_sender_key("a", b"").unwrap_err().message(), sealed);
    assert_eq!(
        store.set_sync_key(b"a", &sync_key(1)).unwrap_err().message(),
        sealed
    );
    assert_eq!(store.delete_session("a").unwrap_err().message(), sealed);
    assert_eq!(store.remove_prekey(1).unwrap_err().message(), sealed);
    assert_eq!(store.begin_save(b"{}").unwrap_err().message(), sealed);
    assert_eq!(store.create().unwrap_err().message(), sealed);
    store.reset();
    assert!(store.put_session("a", b"").is_err(), "a reset unseals nothing");
}

#[test]
fn clearing_sessions_keeps_the_rest() {
    let (mut store, mut flash) = filled();
    flash.apply(&NvsStore::begin_clear_sessions());
    assert_eq!(store.clear_sessions(), 1);
    assert_eq!(store.clear_sessions(), 0);
    for store in [store, open(&mut flash)] {
        assert!(store.list_sessions().is_empty());
        assert!(store.device_exists());
        assert_eq!(store.stats().identities, 1);
    }
}

#[test]
fn maintenance_seals_before_it_erases() {
    let (mut store, mut flash) = filled();
    let mut status = whatsapp_esp32::device_status::DeviceStatus::new();
    status.set_connected(Some("pn".to_string()), None);
    let actions = prepare_maintenance(MaintenanceAction::Reboot, &mut store, &mut status);
    assert!(actions.is_empty());
    assert!(store.put_session("a", b"").is_ok());
    let actions = prepare_maintenance(MaintenanceAction::ClearSessions, &mut store, &mut status);
    assert!(store.put_session("a", b"").is_err());
    assert!(status.is_connected());
    flash.apply_all(&actions);
    assert_eq!(
        finish_maintenance(MaintenanceAction::ClearSessions, &mut store),
        1
    );
    let actions = prepare_maintenance(MaintenanceAction::Reset, &mut store, &mut status);
    assert!(!status.is_connected());
    flash.apply_all(&actions);
    assert_eq!(finish_maintenance(MaintenanceAction::Reset, &mut store), 0);
    assert!(flash.blobs.is_empty());
    assert!(!store.device_exists());
}

#[test]
fn signal_state_is_found_by_the_whole_user() {
    let (mut store, mut flash) = linked();
    let p = store.put_session("155512:3@s.whatsapp.net", b"x");
    put(&mut store, &mut flash, p).unwrap();
    let p = store.put_identity("888@lid", [0; 32]);
    put(&mut store, &mut flash, p).unwrap();
    assert!(store.has_signal_state_for_user("155512"));
    assert!(store.has_signal_state_for_user("888"));
    assert!(!store.has_signal_state_for_user("15551"));
    assert!(!store.has_signal_state_for_user("155512:3@s.whatsapp.net"));
    assert!(!store.has_signal_state_for_user("999"));
}

#[test]
fn a_store_that_is_not_linked_counts_devices() {
    let mut flash = Partition::default();
    let mut store = open(&mut flash);
    assert_eq!(store.create().unwrap(), 1);
    assert_eq!(store.create().unwrap(), 2);
}

#[test]
fn an_erase_that_failed_says_what_was_left() {
    let error = StoreError::NotErased {
        space: Namespace::SyncKey,
        remaining: Some(2),
    };
    assert_eq!(
        error.message(),
        "failed to erase NVS sync key namespace after 3 attempts: verification found 2 remaining records"
    );
}

#[test]
fn a_boot_looks_no_further_than_it_has_to() {
    let (_, flash) = filled();
    let mut image = flash.image();
    image.reset = BlobRead::Data(b"1".to_vec());
    image.device = BlobRead::Data(b"junk".to_vec());
    image.sessions.push(("junk".to_string(), BlobRead::Absent));
    let (store, actions) = NvsStore::open(&image).ok().unwrap();
    assert!(!store.device_exists());
    assert_eq!(actions.len(), NvsStore::begin_reset().len() - 1);
    let mut image = flash.image();
    image.device = BlobRead::Absent;
    image.sessions.push(("junk".to_string(), BlobRead::Absent));
    let (store, actions) = NvsStore::open(&image).ok().unwrap();
    assert!(!store.device_exists());
    assert_eq!(actions.len(), 7);
}

#[test]
fn every_name_is_plain() {
    for i in 0..500u32 {
        let name = record_name(&i.to_le_bytes());
        assert_eq!(name.len(), 15);
        assert!(name
            .chars()
            .all(|c| c.is_ascii_lowercase() || ('2'..='7').contains(&c)));
    }
}
