//! The mirror in memory of what flash holds: the linked device, its Signal state
//! and the sync keys. It is filled once at boot.

use crate::buffers::content;
use crate::flash::{
    blob_within, changes, decode_record, name_of, parsed_record, read_blob, record_bytes,
    record_name, records_lie_as_they_are_read, BlobRead, BlobView, Change, FlashAction, Namespace,
    StoreError, StoreFault, MAX_LOGICAL_KEY_LEN, RECORD_HEADER_LEN,
};
use crate::rows::Rows;
use crate::scan::{same_bytes, to_vec};
use crate::text::utf8_text;
use bytes::Bytes;
use vstd::prelude::*;
use vstd::utf8::{decode_utf8, encode_utf8, valid_utf8};

verus! {

/// Whether a device record's payload is a device, as `serde_json` reads it into
/// the device of `wacore`.
pub uninterp spec fn is_device_json(payload: Seq<u8>) -> bool;

/// Trusted: `serde_json::from_slice` into `wacore`'s `Device` succeeds or fails
/// by the bytes alone.
#[verifier::external_body]
pub(crate) fn device_json_ok(payload: &[u8]) -> (r: bool)
    ensures
        r == is_device_json(payload@),
{
    serde_json::from_slice::<whatsapp_rust::wacore::store::Device>(payload).is_ok()
}

/// A sync key as a value: its data, its fingerprint and its timestamp.
pub struct SyncKeyView {
    pub key_data: Seq<u8>,
    pub fingerprint: Seq<u8>,
    pub timestamp: i64,
}

/// An app-state sync key.
#[derive(Debug)]
pub struct AppStateSyncKey {
    pub key_data: Vec<u8>,
    pub fingerprint: Vec<u8>,
    pub timestamp: i64,
}

impl View for AppStateSyncKey {
    type V = SyncKeyView;

    open spec fn view(&self) -> SyncKeyView {
        SyncKeyView {
            key_data: self.key_data@,
            fingerprint: self.fingerprint@,
            timestamp: self.timestamp,
        }
    }
}

/// The sync key that a record's payload holds, as `serde_json` reads it.
pub uninterp spec fn parsed_sync_key(payload: Seq<u8>) -> Option<SyncKeyView>;

/// The payload that `serde_json` writes for a sync key, if it writes one.
pub uninterp spec fn sync_key_payload(key: SyncKeyView) -> Option<Seq<u8>>;

/// Trusted: `serde_json::from_slice` into `wacore`'s `AppStateSyncKey` depends on
/// the bytes alone.
#[verifier::external_body]
pub(crate) fn parse_sync_key(payload: &[u8]) -> (r: Option<AppStateSyncKey>)
    ensures
        r is Some == parsed_sync_key(payload@) is Some,
        r matches Some(key) ==> parsed_sync_key(payload@) == Some(key@),
{
    let key: whatsapp_rust::wacore::store::traits::AppStateSyncKey =
        serde_json::from_slice(payload).ok()?;
    Some(AppStateSyncKey {
        key_data: key.key_data,
        fingerprint: key.fingerprint,
        timestamp: key.timestamp,
    })
}

/// Trusted: `serde_json::to_vec` of `wacore`'s `AppStateSyncKey` depends on the
/// key alone, and what it writes is read back as that key.
#[verifier::external_body]
pub(crate) fn write_sync_key(key: &AppStateSyncKey) -> (r: Option<Vec<u8>>)
    ensures
        r is Some == sync_key_payload(key@) is Some,
        r matches Some(payload) ==> sync_key_payload(key@) == Some(payload@) && parsed_sync_key(
            payload@,
        ) == Some(key@),
{
    serde_json::to_vec(&whatsapp_rust::wacore::store::traits::AppStateSyncKey {
        key_data: key.key_data.clone(),
        fingerprint: key.fingerprint.clone(),
        timestamp: key.timestamp,
    })
    .ok()
}

/// What rows hold: bytes by logical key.
pub open spec fn contents(rows: Rows<Vec<u8>, Bytes>) -> Map<Seq<u8>, Seq<u8>> {
    rows.map().map_values(|b: Bytes| content(b))
}

/// The mirror as a value.
pub struct MirrorView {
    pub device: Option<Seq<u8>>,
    pub identities: Map<Seq<u8>, Seq<u8>>,
    pub sessions: Map<Seq<u8>, Seq<u8>>,
    pub prekeys: Map<Seq<u8>, Seq<u8>>,
    pub signed_prekeys: Map<Seq<u8>, Seq<u8>>,
    pub sender_keys: Map<Seq<u8>, Seq<u8>>,
    pub sync_keys: Map<Seq<u8>, Seq<u8>>,
    pub latest_sync_key_id: Option<Seq<u8>>,
}

impl MirrorView {
    /// A mirror of nothing.
    pub open spec fn none() -> MirrorView {
        MirrorView {
            device: None,
            identities: Map::empty(),
            sessions: Map::empty(),
            prekeys: Map::empty(),
            signed_prekeys: Map::empty(),
            sender_keys: Map::empty(),
            sync_keys: Map::empty(),
            latest_sync_key_id: None,
        }
    }

    /// The rows of a keyed namespace.
    pub open spec fn rows(self, space: Namespace) -> Map<Seq<u8>, Seq<u8>> {
        match space {
            Namespace::Identity => self.identities,
            Namespace::Session => self.sessions,
            Namespace::Prekey => self.prekeys,
            Namespace::SignedPrekey => self.signed_prekeys,
            Namespace::SenderKey => self.sender_keys,
            Namespace::SyncKey => self.sync_keys,
            _ => Map::empty(),
        }
    }

    /// The mirror with other rows in a keyed namespace.
    pub open spec fn with_rows(self, space: Namespace, rows: Map<Seq<u8>, Seq<u8>>) -> MirrorView {
        match space {
            Namespace::Identity => MirrorView { identities: rows, ..self },
            Namespace::Session => MirrorView { sessions: rows, ..self },
            Namespace::Prekey => MirrorView { prekeys: rows, ..self },
            Namespace::SignedPrekey => MirrorView { signed_prekeys: rows, ..self },
            Namespace::SenderKey => MirrorView { sender_keys: rows, ..self },
            Namespace::SyncKey => MirrorView { sync_keys: rows, ..self },
            _ => self,
        }
    }
}

/// What is wrong with a key and a value of a namespace, if anything. Addresses
/// are text, prekeys go by a four byte number, an identity is 32 bytes.
pub open spec fn row_fault(space: Namespace, key: Seq<u8>, value: Seq<u8>) -> Option<StoreFault> {
    match space {
        Namespace::Identity | Namespace::Session | Namespace::SenderKey => if !valid_utf8(key) {
            Some(StoreFault::InvalidKeyText(space))
        } else if space == Namespace::Identity && value.len() != 32 {
            Some(StoreFault::IdentityLength { address: decode_utf8(key), len: value.len() })
        } else {
            None
        },
        Namespace::Prekey | Namespace::SignedPrekey => if key.len() != 4 {
            Some(StoreFault::InvalidKeyLength { space, len: key.len() })
        } else {
            None
        },
        Namespace::SyncKey => if parsed_sync_key(value) is None {
            Some(StoreFault::InvalidSyncKey)
        } else {
            None
        },
        _ => None,
    }
}

fn check_row(space: Namespace, key: &[u8], value: &[u8]) -> (r: Option<StoreError>)
    ensures
        r is Some == row_fault(space, key@, value@) is Some,
        r matches Some(e) ==> row_fault(space, key@, value@) == Some(e@),
{
    match space {
        Namespace::Identity | Namespace::Session | Namespace::SenderKey => {
            match utf8_text(key) {
                None => Some(StoreError::InvalidKeyText(space)),
                Some(address) => {
                    if matches!(space, Namespace::Identity) && value.len() != 32 {
                        proof {
                            vstd::utf8::encode_utf8_decode_utf8(address@);
                        }
                        Some(
                            StoreError::IdentityLength {
                                address: address.to_owned(),
                                len: value.len(),
                            },
                        )
                    } else {
                        None
                    }
                },
            }
        },
        Namespace::Prekey | Namespace::SignedPrekey => if key.len() != 4 {
            Some(StoreError::InvalidKeyLength { space, len: key.len() })
        } else {
            None
        },
        Namespace::SyncKey => if parse_sync_key(value).is_none() {
            Some(StoreError::InvalidSyncKey)
        } else {
            None
        },
        _ => None,
    }
}

/// What a record of a listing comes to: its logical key and its value.
pub open spec fn loaded_record(space: Namespace, name: Seq<char>, blob: BlobView) -> Result<
    (Seq<u8>, Seq<u8>),
    StoreFault,
> {
    let max_value = space.spec_max_value_len();
    match blob_within(name, blob, RECORD_HEADER_LEN + MAX_LOGICAL_KEY_LEN + max_value) {
        Err(fault) => Err(fault),
        Ok(None) => Err(StoreFault::Disappeared { space, name }),
        Ok(Some(record)) => match parsed_record(record) {
            Err(fault) => Err(fault),
            Ok((key, value)) => if name_of(key) != name {
                Err(StoreFault::Mismatched { space, name })
            } else if value.len() > max_value {
                Err(StoreFault::LoadedTooLarge { space, name, len: value.len() })
            } else {
                Ok((key, value))
            },
        },
    }
}

/// A listing of a namespace: the names of its blobs, and what reading each found.
pub type Listing = Seq<(Seq<char>, BlobView)>;

/// The records of a listing, up to the first that is refused.
pub open spec fn loaded_each(space: Namespace, listing: Listing) -> Result<
    Seq<(Seq<u8>, Seq<u8>)>,
    StoreFault,
>
    decreases listing.len(),
{
    if listing.len() == 0 {
        Ok(Seq::empty())
    } else {
        match loaded_each(space, listing.drop_last()) {
            Err(fault) => Err(fault),
            Ok(before) => match loaded_record(space, listing.last().0, listing.last().1) {
                Err(fault) => Err(fault),
                Ok(row) => Ok(before.push(row)),
            },
        }
    }
}

/// The records of a namespace.
pub open spec fn loaded_records(space: Namespace, listing: Listing) -> Result<
    Seq<(Seq<u8>, Seq<u8>)>,
    StoreFault,
> {
    if listing.len() > space.spec_max_entries() {
        Err(StoreFault::TooManyRecords { space, count: listing.len() })
    } else {
        loaded_each(space, listing)
    }
}

/// Records by logical key, up to the first that is refused.
pub open spec fn indexed(space: Namespace, records: Seq<(Seq<u8>, Seq<u8>)>) -> Result<
    Map<Seq<u8>, Seq<u8>>,
    StoreFault,
>
    decreases records.len(),
{
    if records.len() == 0 {
        Ok(Map::empty())
    } else {
        let (key, value) = records.last();
        match indexed(space, records.drop_last()) {
            Err(fault) => Err(fault),
            Ok(rows) => match row_fault(space, key, value) {
                Some(fault) => Err(fault),
                None => if rows.contains_key(key) {
                    Err(StoreFault::Duplicate(space))
                } else {
                    Ok(rows.insert(key, value))
                },
            },
        }
    }
}

/// The rows of a namespace.
pub open spec fn loaded_rows(space: Namespace, listing: Listing) -> Result<
    Map<Seq<u8>, Seq<u8>>,
    StoreFault,
> {
    match loaded_records(space, listing) {
        Err(fault) => Err(fault),
        Ok(records) => indexed(space, records),
    }
}

/// The id of the newest sync key among records, and its timestamp: of those with
/// the latest timestamp the one that comes last.
pub open spec fn newest(records: Seq<(Seq<u8>, Seq<u8>)>) -> Option<(Seq<u8>, i64)>
    decreases records.len(),
{
    if records.len() == 0 {
        None
    } else {
        let (id, payload) = records.last();
        let timestamp = (parsed_sync_key(payload)->0).timestamp;
        match newest(records.drop_last()) {
            Some((latest, at)) => if timestamp >= at {
                Some((id, timestamp))
            } else {
                Some((latest, at))
            },
            None => Some((id, timestamp)),
        }
    }
}

/// What was read of a namespace.
pub type NamespaceImage = Vec<(String, BlobRead)>;

/// A namespace's listing as a value.
pub open spec fn listing_of(image: Seq<(String, BlobRead)>) -> Listing {
    image.map_values(|entry: (String, BlobRead)| (entry.0@, entry.1@))
}

fn load_record<'a>(space: Namespace, name: &String, blob: &'a BlobRead) -> (r: Result<
    (&'a [u8], &'a [u8]),
    StoreError,
>)
    ensures
        match loaded_record(space, name@, blob@) {
            Ok((key, value)) => r matches Ok((k, v)) && k@ == key && v@ == value,
            Err(fault) => r matches Err(e) && e@ == fault,
        },
{
    let max_value = space.max_value_len();
    match read_blob(name.as_str(), blob, RECORD_HEADER_LEN + MAX_LOGICAL_KEY_LEN + max_value) {
        Err(e) => Err(e),
        Ok(None) => Err(StoreError::Disappeared { space, name: name.clone() }),
        Ok(Some(record)) => match decode_record(record) {
            Err(e) => Err(e),
            Ok((key, value)) => {
                if record_name(key) != *name {
                    Err(StoreError::Mismatched { space, name: name.clone() })
                } else if value.len() > max_value {
                    Err(StoreError::LoadedTooLarge { space, name: name.clone(), len: value.len() })
                } else {
                    Ok((key, value))
                }
            },
        },
    }
}

/// The sequences that pairs of slices show.
pub open spec fn record_views(v: Seq<(&[u8], &[u8])>) -> Seq<(Seq<u8>, Seq<u8>)> {
    v.map_values(|pair: (&[u8], &[u8])| (pair.0@, pair.1@))
}

/// The records of a namespace.
pub fn load_records<'a>(space: Namespace, image: &'a NamespaceImage) -> (r: Result<
    Vec<(&'a [u8], &'a [u8])>,
    StoreError,
>)
    ensures
        match loaded_records(space, listing_of(image@)) {
            Ok(records) => r matches Ok(got) && record_views(got@) == records,
            Err(fault) => r matches Err(e) && e@ == fault,
        },
{
    let ghost listing = listing_of(image@);
    if image.len() > space.max_entries() {
        return Err(StoreError::TooManyRecords { space, count: image.len() });
    }
    let mut out: Vec<(&'a [u8], &'a [u8])> = Vec::new();
    let mut i: usize = 0;
    assert(listing.take(0) =~= Seq::empty());
    assert(record_views(out@) =~= Seq::empty());
    assert(listing.take(listing.len() as int) =~= listing);
    while i < image.len()
        invariant
            i <= image@.len(),
            listing == listing_of(image@),
            listing.len() <= space.spec_max_entries(),
            loaded_each(space, listing.take(i as int)) == Ok::<
                Seq<(Seq<u8>, Seq<u8>)>,
                StoreFault,
            >(record_views(out@)),
        decreases image@.len() - i,
    {
        let ghost now = listing.take(i + 1);
        proof {
            assert(now.drop_last() =~= listing.take(i as int));
            assert(now.last() == (image@[i as int].0@, image@[i as int].1@));
        }
        match load_record(space, &image[i].0, &image[i].1) {
            Err(e) => {
                proof {
                    lemma_loaded_stops(space, listing, i + 1);
                }
                return Err(e);
            },
            Ok((key, value)) => {
                let ghost before = out@;
                out.push((key, value));
                assert(record_views(out@) =~= record_views(before).push((key@, value@)));
            },
        }
        i += 1;
    }
    assert(listing.take(i as int) =~= listing);
    Ok(out)
}

/// The first refused record decides.
proof fn lemma_loaded_stops(space: Namespace, listing: Listing, n: int)
    requires
        0 <= n <= listing.len(),
        loaded_each(space, listing.take(n)) is Err,
    ensures
        loaded_each(space, listing) == loaded_each(space, listing.take(n)),
    decreases listing.len() - n,
{
    if n < listing.len() {
        assert(listing.take(n + 1).drop_last() =~= listing.take(n));
        lemma_loaded_stops(space, listing, n + 1);
    } else {
        assert(listing.take(n) =~= listing);
    }
}

/// The first refused record decides.
proof fn lemma_indexed_stops(space: Namespace, records: Seq<(Seq<u8>, Seq<u8>)>, n: int)
    requires
        0 <= n <= records.len(),
        indexed(space, records.take(n)) is Err,
    ensures
        indexed(space, records) == indexed(space, records.take(n)),
    decreases records.len() - n,
{
    if n < records.len() {
        assert(records.take(n + 1).drop_last() =~= records.take(n));
        lemma_indexed_stops(space, records, n + 1);
    } else {
        assert(records.take(n) =~= records);
    }
}

fn index_records(space: Namespace, records: &Vec<(&[u8], &[u8])>) -> (r: Result<
    Rows<Vec<u8>, Bytes>,
    StoreError,
>)
    ensures
        match indexed(space, record_views(records@)) {
            Ok(rows) => r matches Ok(got) && got.wf() && contents(got) == rows,
            Err(fault) => r matches Err(e) && e@ == fault,
        },
{
    let ghost all = record_views(records@);
    let mut rows: Rows<Vec<u8>, Bytes> = Rows::new();
    let mut i: usize = 0;
    assert(all.take(0) =~= Seq::empty());
    assert(contents(rows) =~= Map::empty());
    while i < records.len()
        invariant
            i <= records@.len(),
            all == record_views(records@),
            rows.wf(),
            indexed(space, all.take(i as int)) == Ok::<Map<Seq<u8>, Seq<u8>>, StoreFault>(
                contents(rows),
            ),
        decreases records@.len() - i,
    {
        let key = records[i].0;
        let value = records[i].1;
        proof {
            assert(all.take(i + 1).drop_last() =~= all.take(i as int));
            assert(all.take(i + 1).last() == (key@, value@));
        }
        if let Some(e) = check_row(space, key, value) {
            proof {
                lemma_indexed_stops(space, all, i + 1);
            }
            return Err(e);
        }
        if rows.contains(key) {
            proof {
                lemma_indexed_stops(space, all, i + 1);
            }
            return Err(StoreError::Duplicate(space));
        }
        let ghost before = rows;
        rows.insert(to_vec(key), Bytes::copy_from_slice(value));
        assert(contents(rows) =~= contents(before).insert(key@, value@));
        i += 1;
    }
    assert(all.take(i as int) =~= all);
    Ok(rows)
}

fn newest_sync_key(records: &Vec<(&[u8], &[u8])>) -> (r: Option<Vec<u8>>)
    requires
        forall|i: int|
            0 <= i < records@.len() ==> parsed_sync_key((#[trigger] records@[i]).1@) is Some,
    ensures
        match newest(record_views(records@)) {
            Some((id, _)) => r matches Some(got) && got@ == id,
            None => r is None,
        },
{
    let ghost all = record_views(records@);
    let mut latest: Option<(usize, i64)> = None;
    let mut i: usize = 0;
    assert(all.take(0) =~= Seq::empty());
    while i < records.len()
        invariant
            i <= records@.len(),
            all == record_views(records@),
            forall|j: int|
                0 <= j < records@.len() ==> parsed_sync_key((#[trigger] records@[j]).1@) is Some,
            latest matches Some((at, _)) ==> at < i,
            newest(all.take(i as int)) == (match latest {
                Some((at, timestamp)) => Some((all[at as int].0, timestamp)),
                None => None,
            }),
        decreases records@.len() - i,
    {
        proof {
            assert(all.take(i + 1).drop_last() =~= all.take(i as int));
            assert(all.take(i + 1).last() == (records@[i as int].0@, records@[i as int].1@));
        }
        let timestamp: i64 = match parse_sync_key(records[i].1) {
            Some(key) => key.timestamp,
            None => 0,
        };
        let newer = match latest {
            Some((_, at)) => timestamp >= at,
            None => true,
        };
        if newer {
            latest = Some((i, timestamp));
        }
        i += 1;
    }
    assert(all.take(i as int) =~= all);
    match latest {
        Some((at, _)) => {
            Some(to_vec(records[at].0))
        },
        None => None,
    }
}

/// Every record that was indexed was acceptable.
proof fn lemma_indexed_ok(space: Namespace, records: Seq<(Seq<u8>, Seq<u8>)>, i: int)
    requires
        indexed(space, records) is Ok,
        0 <= i < records.len(),
    ensures
        row_fault(space, records[i].0, records[i].1) is None,
    decreases records.len(),
{
    if i < records.len() - 1 {
        lemma_indexed_ok(space, records.drop_last(), i);
    }
}

/// What was read of flash at boot.
#[derive(Debug)]
pub struct FlashImage {
    /// The blob `reset` of the control namespace, of at most one byte.
    pub reset: BlobRead,
    /// The blob `current` of the device namespace.
    pub device: BlobRead,
    /// The blob `latestsync` of the control namespace, `None` where it could not
    /// be read.
    pub latest: Option<BlobRead>,
    pub identities: NamespaceImage,
    pub sessions: NamespaceImage,
    pub prekeys: NamespaceImage,
    pub signed_prekeys: NamespaceImage,
    pub sender_keys: NamespaceImage,
    pub sync_keys: NamespaceImage,
}

/// What was read of flash at boot.
pub struct ImageView {
    pub reset: BlobView,
    pub device: BlobView,
    pub latest: Option<BlobView>,
    pub identities: Listing,
    pub sessions: Listing,
    pub prekeys: Listing,
    pub signed_prekeys: Listing,
    pub sender_keys: Listing,
    pub sync_keys: Listing,
}

impl ImageView {
    /// The listing of a keyed namespace.
    pub open spec fn listing(self, space: Namespace) -> Listing {
        match space {
            Namespace::Identity => self.identities,
            Namespace::Session => self.sessions,
            Namespace::Prekey => self.prekeys,
            Namespace::SignedPrekey => self.signed_prekeys,
            Namespace::SenderKey => self.sender_keys,
            Namespace::SyncKey => self.sync_keys,
            _ => Seq::empty(),
        }
    }

    /// Whether any keyed namespace holds a record.
    pub open spec fn has_signal_records(self) -> bool {
        self.identities.len() > 0 || self.sessions.len() > 0 || self.prekeys.len() > 0
            || self.signed_prekeys.len() > 0 || self.sender_keys.len() > 0 || self.sync_keys.len()
            > 0
    }
}

impl View for FlashImage {
    type V = ImageView;

    open spec fn view(&self) -> ImageView {
        ImageView {
            reset: self.reset@,
            device: self.device@,
            latest: match self.latest {
                Some(blob) => Some(blob@),
                None => None,
            },
            identities: listing_of(self.identities@),
            sessions: listing_of(self.sessions@),
            prekeys: listing_of(self.prekeys@),
            signed_prekeys: listing_of(self.signed_prekeys@),
            sender_keys: listing_of(self.sender_keys@),
            sync_keys: listing_of(self.sync_keys@),
        }
    }
}

/// The logical key of the device record.
pub open spec fn device_key() -> Seq<u8> {
    encode_utf8("device"@)
}

/// The logical key of the record that names the latest sync key.
pub open spec fn latest_key() -> Seq<u8> {
    encode_utf8("latestsync"@)
}

/// The longest blob that the device record can be.
pub const MAX_DEVICE_BLOB_LEN: usize = 65547;

/// The longest blob that the record of the latest sync key can be.
pub const MAX_LATEST_BLOB_LEN: usize = 527;

/// The device's payload, if a device is linked.
pub open spec fn loaded_device(blob: BlobView) -> Result<Option<Seq<u8>>, StoreFault> {
    match blob_within("current"@, blob, MAX_DEVICE_BLOB_LEN as int) {
        Err(fault) => Err(fault),
        Ok(None) => Ok(None),
        Ok(Some(record)) => match parsed_record(record) {
            Err(fault) => Err(fault),
            Ok((key, payload)) => if key != device_key() {
                Err(StoreFault::WrongDeviceKey)
            } else if !is_device_json(payload) {
                Err(StoreFault::InvalidDevice)
            } else {
                Ok(Some(payload))
            },
        },
    }
}

fn load_device(blob: &BlobRead) -> (r: Result<Option<Vec<u8>>, StoreError>)
    ensures
        match loaded_device(blob@) {
            Ok(None) => r matches Ok(None),
            Ok(Some(payload)) => r matches Ok(Some(got)) && got@ == payload,
            Err(fault) => r matches Err(e) && e@ == fault,
        },
{
    match read_blob("current", blob, MAX_DEVICE_BLOB_LEN) {
        Err(e) => Err(e),
        Ok(None) => Ok(None),
        Ok(Some(record)) => match decode_record(record) {
            Err(e) => Err(e),
            Ok((key, payload)) => if !same_bytes(key, "device".as_bytes()) {
                Err(StoreError::WrongDeviceKey)
            } else if !device_json_ok(payload) {
                Err(StoreError::InvalidDevice)
            } else {
                Ok(Some(to_vec(payload)))
            },
        },
    }
}

/// The id that the record of the latest sync key names.
pub open spec fn recorded_latest(blob: BlobView) -> Result<Option<Seq<u8>>, StoreFault> {
    match blob_within("latestsync"@, blob, MAX_LATEST_BLOB_LEN as int) {
        Err(fault) => Err(fault),
        Ok(None) => Ok(None),
        Ok(Some(record)) => match parsed_record(record) {
            Err(fault) => Err(fault),
            Ok((key, payload)) => if key != latest_key() {
                Err(StoreFault::WrongLatestKey)
            } else {
                Ok(Some(payload))
            },
        },
    }
}

/// The id that the record of the latest sync key names.
pub fn load_latest_sync_key_id(blob: &BlobRead) -> (r: Result<Option<Vec<u8>>, StoreError>)
    ensures
        match recorded_latest(blob@) {
            Ok(None) => r matches Ok(None),
            Ok(Some(id)) => r matches Ok(Some(got)) && got@ == id,
            Err(fault) => r matches Err(e) && e@ == fault,
        },
{
    match read_blob("latestsync", blob, MAX_LATEST_BLOB_LEN) {
        Err(e) => Err(e),
        Ok(None) => Ok(None),
        Ok(Some(record)) => match decode_record(record) {
            Err(e) => Err(e),
            Ok((key, payload)) => if !same_bytes(key, "latestsync".as_bytes()) {
                Err(StoreError::WrongLatestKey)
            } else {
                Ok(Some(to_vec(payload)))
            },
        },
    }
}

/// The latest sync key: the one that the record names, where that key is there,
/// else the newest by the phone's own timestamp. A record that cannot be read
/// counts as none.
pub open spec fn chosen_latest(
    latest: Option<BlobView>,
    rows: Map<Seq<u8>, Seq<u8>>,
    records: Seq<(Seq<u8>, Seq<u8>)>,
) -> Option<Seq<u8>> {
    let recorded = match latest {
        Some(blob) => match recorded_latest(blob) {
            Ok(id) => id,
            Err(_) => None,
        },
        None => None,
    };
    match recorded {
        Some(id) if rows.contains_key(id) => Some(id),
        _ => match newest(records) {
            Some((id, _)) => Some(id),
            None => None,
        },
    }
}

/// Erases the Signal records and the sync keys, and the record that names the
/// latest of these: it belongs with the keys it names.
pub open spec fn signal_erasure() -> Seq<Change> {
    seq![
        Change::Remove { space: Namespace::Control, name: "latestsync"@ },
        Change::Erase { space: Namespace::Identity },
        Change::Erase { space: Namespace::Session },
        Change::Erase { space: Namespace::Prekey },
        Change::Erase { space: Namespace::SignedPrekey },
        Change::Erase { space: Namespace::SenderKey },
        Change::Erase { space: Namespace::SyncKey },
    ]
}

/// Completes a reset: the device goes first, whose absence marks what is left as
/// orphaned, and the marker of the reset goes last.
pub open spec fn reset_completion() -> Seq<Change> {
    seq![Change::Erase { space: Namespace::Device }] + signal_erasure() + seq![
        Change::Remove { space: Namespace::Control, name: "reset"@ },
    ]
}

/// A whole reset: it is marked before anything is erased, so that one that is cut
/// short is resumed at the next boot.
pub open spec fn whole_reset() -> Seq<Change> {
    seq![
        Change::Write { space: Namespace::Control, name: "reset"@, record: encode_utf8("1"@) },
    ] + reset_completion()
}

fn erase(space: Namespace) -> (r: FlashAction)
    ensures
        r@ == (Change::Erase { space }),
{
    FlashAction::Erase { space }
}

/// Erases the Signal records and the sync keys.
pub fn erase_signal() -> (r: Vec<FlashAction>)
    ensures
        changes(r@) == signal_erasure(),
{
    let mut out: Vec<FlashAction> = Vec::new();
    out.push(FlashAction::Remove { space: Namespace::Control, name: "latestsync".to_owned() });
    out.push(erase(Namespace::Identity));
    out.push(erase(Namespace::Session));
    out.push(erase(Namespace::Prekey));
    out.push(erase(Namespace::SignedPrekey));
    out.push(erase(Namespace::SenderKey));
    out.push(erase(Namespace::SyncKey));
    assert(changes(out@) =~= signal_erasure());
    out
}

proof fn lemma_changes_concat(a: Seq<FlashAction>, b: Seq<FlashAction>)
    ensures
        changes(a + b) == changes(a) + changes(b),
{
    assert(changes(a + b) =~= changes(a) + changes(b));
}

/// Completes a reset that is marked.
pub fn complete_reset() -> (r: Vec<FlashAction>)
    ensures
        changes(r@) == reset_completion(),
{
    let mut out: Vec<FlashAction> = Vec::new();
    out.push(erase(Namespace::Device));
    let mut signal = erase_signal();
    let ghost middle = signal@;
    out.append(&mut signal);
    out.push(FlashAction::Remove { space: Namespace::Control, name: "reset".to_owned() });
    proof {
        lemma_changes_concat(middle, seq![out@.last()]);
        lemma_changes_concat(seq![out@[0]], middle + seq![out@.last()]);
        assert(out@ =~= seq![out@[0]] + (middle + seq![out@.last()]));
        assert(changes(seq![out@[0]]) =~= seq![Change::Erase { space: Namespace::Device }]);
        assert(changes(seq![out@.last()]) =~= seq![
            Change::Remove { space: Namespace::Control, name: "reset"@ },
        ]);
        assert(changes(out@) =~= reset_completion());
    }
    out
}

/// A whole reset.
pub fn reset_all() -> (r: Vec<FlashAction>)
    ensures
        changes(r@) == whole_reset(),
{
    let mut out: Vec<FlashAction> = Vec::new();
    out.push(
        FlashAction::Write {
            space: Namespace::Control,
            name: "reset".to_owned(),
            record: to_vec("1".as_bytes()),
        },
    );
    let ghost marker = out@[0]@;
    let mut rest = complete_reset();
    let ghost tail = rest@;
    out.append(&mut rest);
    proof {
        lemma_changes_concat(seq![out@[0]], tail);
        assert(out@ =~= seq![out@[0]] + tail);
        assert(changes(seq![out@[0]]) =~= seq![marker]);
    }
    out
}

/// What boot makes of flash: the mirror, and what is erased before it is used.
pub open spec fn opened(image: ImageView) -> Result<(MirrorView, Seq<Change>), StoreFault> {
    match blob_within("reset"@, image.reset, 1) {
        Err(fault) => Err(fault),
        Ok(Some(_)) => Ok((MirrorView::none(), reset_completion())),
        Ok(None) => match loaded_device(image.device) {
            Err(fault) => Err(fault),
            Ok(None) => Ok(
                (
                    MirrorView::none(),
                    if image.has_signal_records() {
                        signal_erasure()
                    } else {
                        Seq::empty()
                    },
                ),
            ),
            Ok(Some(device)) => match loaded_signal(image, device) {
                Err(fault) => Err(fault),
                Ok(mirror) => Ok((mirror, Seq::empty())),
            },
        },
    }
}

/// A boot looks no further than it has to: with a reset under way nothing else counts,
/// and without a linked device only whether there are records at all.
pub proof fn boot_looks_no_further(a: ImageView, b: ImageView)
    requires
        a.reset == b.reset,
    ensures
        !(blob_within("reset"@, a.reset, 1) == Ok::<Option<Seq<u8>>, StoreFault>(None)) ==> opened(
            a,
        ) == opened(b),
        a.device == b.device && loaded_device(a.device) == Ok::<Option<Seq<u8>>, StoreFault>(None)
            && a.has_signal_records() == b.has_signal_records() ==> opened(a) == opened(b),
{
}

/// The mirror of a linked device, its namespaces loaded in order.
pub open spec fn loaded_signal(image: ImageView, device: Seq<u8>) -> Result<
    MirrorView,
    StoreFault,
> {
    let identities = loaded_rows(Namespace::Identity, image.identities);
    let sessions = loaded_rows(Namespace::Session, image.sessions);
    let prekeys = loaded_rows(Namespace::Prekey, image.prekeys);
    let signed_prekeys = loaded_rows(Namespace::SignedPrekey, image.signed_prekeys);
    let sender_keys = loaded_rows(Namespace::SenderKey, image.sender_keys);
    let sync_keys = loaded_rows(Namespace::SyncKey, image.sync_keys);
    if let Err(fault) = identities {
        Err(fault)
    } else if let Err(fault) = sessions {
        Err(fault)
    } else if let Err(fault) = prekeys {
        Err(fault)
    } else if let Err(fault) = signed_prekeys {
        Err(fault)
    } else if let Err(fault) = sender_keys {
        Err(fault)
    } else if let Err(fault) = sync_keys {
        Err(fault)
    } else {
        Ok(
            MirrorView {
                device: Some(device),
                identities: identities->Ok_0,
                sessions: sessions->Ok_0,
                prekeys: prekeys->Ok_0,
                signed_prekeys: signed_prekeys->Ok_0,
                sender_keys: sender_keys->Ok_0,
                sync_keys: sync_keys->Ok_0,
                latest_sync_key_id: chosen_latest(
                    image.latest,
                    sync_keys->Ok_0,
                    loaded_records(Namespace::SyncKey, image.sync_keys)->Ok_0,
                ),
            },
        )
    }
}

/// The mirror in memory.
pub struct Mirror {
    device: Option<Vec<u8>>,
    identities: Rows<Vec<u8>, Bytes>,
    sessions: Rows<Vec<u8>, Bytes>,
    prekeys: Rows<Vec<u8>, Bytes>,
    signed_prekeys: Rows<Vec<u8>, Bytes>,
    sender_keys: Rows<Vec<u8>, Bytes>,
    sync_keys: Rows<Vec<u8>, Bytes>,
    latest_sync_key_id: Option<Vec<u8>>,
}

impl View for Mirror {
    type V = MirrorView;

    closed spec fn view(&self) -> MirrorView {
        MirrorView {
            device: match self.device {
                Some(payload) => Some(payload@),
                None => None,
            },
            identities: contents(self.identities),
            sessions: contents(self.sessions),
            prekeys: contents(self.prekeys),
            signed_prekeys: contents(self.signed_prekeys),
            sender_keys: contents(self.sender_keys),
            sync_keys: contents(self.sync_keys),
            latest_sync_key_id: match self.latest_sync_key_id {
                Some(id) => Some(id@),
                None => None,
            },
        }
    }
}

fn load_rows(space: Namespace, image: &NamespaceImage) -> (r: Result<
    Rows<Vec<u8>, Bytes>,
    StoreError,
>)
    ensures
        match loaded_rows(space, listing_of(image@)) {
            Ok(rows) => r matches Ok(got) && got.wf() && contents(got) == rows,
            Err(fault) => r matches Err(e) && e@ == fault,
        },
{
    match load_records(space, image) {
        Err(e) => Err(e),
        Ok(records) => index_records(space, &records),
    }
}

impl Mirror {
    /// No key occurs twice in any table.
    pub closed spec fn wf(&self) -> bool {
        &&& self.identities.wf()
        &&& self.sessions.wf()
        &&& self.prekeys.wf()
        &&& self.signed_prekeys.wf()
        &&& self.sender_keys.wf()
        &&& self.sync_keys.wf()
    }

    /// A mirror of nothing.
    pub fn new() -> (r: Mirror)
        ensures
            r.wf(),
            r@ == MirrorView::none(),
    {
        let r = Mirror {
            device: None,
            identities: Rows::new(),
            sessions: Rows::new(),
            prekeys: Rows::new(),
            signed_prekeys: Rows::new(),
            sender_keys: Rows::new(),
            sync_keys: Rows::new(),
            latest_sync_key_id: None,
        };
        proof {
            assert(contents(r.identities) =~= Map::empty());
            assert(contents(r.sessions) =~= Map::empty());
            assert(contents(r.prekeys) =~= Map::empty());
            assert(contents(r.signed_prekeys) =~= Map::empty());
            assert(contents(r.sender_keys) =~= Map::empty());
            assert(contents(r.sync_keys) =~= Map::empty());
        }
        r
    }

    fn load_signal(image: &FlashImage, device: Vec<u8>) -> (r: Result<Mirror, StoreError>)
        ensures
            match loaded_signal(image@, device@) {
                Ok(mirror) => r matches Ok(got) && got.wf() && got@ == mirror,
                Err(fault) => r matches Err(e) && e@ == fault,
            },
    {
        let identities = match load_rows(Namespace::Identity, &image.identities) {
            Ok(rows) => rows,
            Err(e) => {
                return Err(e);
            },
        };
        let sessions = match load_rows(Namespace::Session, &image.sessions) {
            Ok(rows) => rows,
            Err(e) => {
                return Err(e);
            },
        };
        let prekeys = match load_rows(Namespace::Prekey, &image.prekeys) {
            Ok(rows) => rows,
            Err(e) => {
                return Err(e);
            },
        };
        let signed_prekeys = match load_rows(Namespace::SignedPrekey, &image.signed_prekeys) {
            Ok(rows) => rows,
            Err(e) => {
                return Err(e);
            },
        };
        let sender_keys = match load_rows(Namespace::SenderKey, &image.sender_keys) {
            Ok(rows) => rows,
            Err(e) => {
                return Err(e);
            },
        };
        let records = match load_records(Namespace::SyncKey, &image.sync_keys) {
            Ok(records) => records,
            Err(e) => {
                return Err(e);
            },
        };
        let sync_keys = match index_records(Namespace::SyncKey, &records) {
            Ok(rows) => rows,
            Err(e) => {
                return Err(e);
            },
        };
        let ghost all = record_views(records@);
        proof {
            assert forall|i: int| 0 <= i < records@.len() implies parsed_sync_key(
                (#[trigger] records@[i]).1@,
            ) is Some by {
                lemma_indexed_ok(Namespace::SyncKey, all, i);
                assert(all[i] == (records@[i].0@, records@[i].1@));
            }
        }
        // Only trust a recorded id that names a key actually present.
        let recorded = match &image.latest {
            Some(blob) => match load_latest_sync_key_id(blob) {
                Ok(id) => id,
                Err(_) => None,
            },
            None => None,
        };
        let named = match recorded {
            Some(id) => if sync_keys.contains(id.as_slice()) {
                Some(id)
            } else {
                None
            },
            None => None,
        };
        let latest_sync_key_id = match named {
            Some(id) => Some(id),
            None => newest_sync_key(&records),
        };
        Ok(
            Mirror {
                device: Some(device),
                identities,
                sessions,
                prekeys,
                signed_prekeys,
                sender_keys,
                sync_keys,
                latest_sync_key_id,
            },
        )
    }

    /// What boot makes of flash: the mirror, and what has to be erased before it
    /// is used. An interrupted reset is completed, and Signal records without a
    /// linked device are discarded.
    pub fn open(image: &FlashImage) -> (r: Result<(Mirror, Vec<FlashAction>), StoreError>)
        ensures
            match opened(image@) {
                Ok((mirror, erased)) => r matches Ok((got, actions)) && got.wf() && got@ == mirror
                    && changes(actions@) == erased,
                Err(fault) => r matches Err(e) && e@ == fault,
            },
    {
        match read_blob("reset", &image.reset, 1) {
            Err(e) => {
                return Err(e);
            },
            Ok(Some(_)) => {
                return Ok((Mirror::new(), complete_reset()));
            },
            Ok(None) => {},
        }
        match load_device(&image.device) {
            Err(e) => Err(e),
            Ok(None) => {
                let orphans = image.identities.len() > 0 || image.sessions.len() > 0
                    || image.prekeys.len() > 0 || image.signed_prekeys.len() > 0
                    || image.sender_keys.len() > 0 || image.sync_keys.len() > 0;
                if orphans {
                    Ok((Mirror::new(), erase_signal()))
                } else {
                    let actions: Vec<FlashAction> = Vec::new();
                    assert(changes(actions@) =~= Seq::empty());
                    Ok((Mirror::new(), actions))
                }
            },
            Ok(Some(device)) => match Mirror::load_signal(image, device) {
                Err(e) => Err(e),
                Ok(mirror) => {
                    let actions: Vec<FlashAction> = Vec::new();
                    assert(changes(actions@) =~= Seq::empty());
                    Ok((mirror, actions))
                },
            },
        }
    }

    /// The rows of a keyed namespace.
    pub fn rows(&self, space: Namespace) -> (r: &Rows<Vec<u8>, Bytes>)
        requires
            self.wf(),
            space.is_keyed(),
        ensures
            r.wf(),
            contents(*r) == self@.rows(space),
    {
        match space {
            Namespace::Identity => &self.identities,
            Namespace::Session => &self.sessions,
            Namespace::Prekey => &self.prekeys,
            Namespace::SignedPrekey => &self.signed_prekeys,
            Namespace::SenderKey => &self.sender_keys,
            _ => &self.sync_keys,
        }
    }

    /// The rows of a keyed namespace, to be changed.
    pub(crate) fn rows_mut(&mut self, space: Namespace) -> (r: &mut Rows<Vec<u8>, Bytes>)
        requires
            old(self).wf(),
            space.is_keyed(),
        ensures
            r.wf(),
            contents(*r) == old(self)@.rows(space),
            final(r).wf() ==> final(self).wf(),
            final(self)@ == old(self)@.with_rows(space, contents(*final(r))),
    {
        match space {
            Namespace::Identity => &mut self.identities,
            Namespace::Session => &mut self.sessions,
            Namespace::Prekey => &mut self.prekeys,
            Namespace::SignedPrekey => &mut self.signed_prekeys,
            Namespace::SenderKey => &mut self.sender_keys,
            _ => &mut self.sync_keys,
        }
    }

    /// The value in a row.
    pub fn get(&self, space: Namespace, key: &[u8]) -> (r: Option<Bytes>)
        requires
            self.wf(),
            space.is_keyed(),
        ensures
            r is Some == self@.rows(space).contains_key(key@),
            r matches Some(b) ==> content(b) == self@.rows(space)[key@],
    {
        match self.rows(space).get(key) {
            Some(b) => Some(b.clone()),
            None => None,
        }
    }

    /// Puts a row.
    pub fn insert(&mut self, space: Namespace, key: Vec<u8>, value: Bytes)
        requires
            old(self).wf(),
            space.is_keyed(),
        ensures
            final(self).wf(),
            final(self)@ == old(self)@.with_rows(
                space,
                old(self)@.rows(space).insert(key@, content(value)),
            ),
    {
        let rows = self.rows_mut(space);
        let ghost before = *rows;
        let ghost id = key@;
        let ghost bytes = content(value);
        rows.insert(key, value);
        assert(contents(*rows) =~= contents(before).insert(id, bytes));
    }

    /// Removes a row.
    pub fn remove(&mut self, space: Namespace, key: &[u8])
        requires
            old(self).wf(),
            space.is_keyed(),
        ensures
            final(self).wf(),
            final(self)@ == old(self)@.with_rows(space, old(self)@.rows(space).remove(key@)),
    {
        let rows = self.rows_mut(space);
        let ghost before = *rows;
        rows.remove(key);
        assert(contents(*rows) =~= contents(before).remove(key@));
    }

    /// Removes all rows of a namespace.
    pub fn clear(&mut self, space: Namespace)
        requires
            old(self).wf(),
            space.is_keyed(),
        ensures
            final(self).wf(),
            final(self)@ == old(self)@.with_rows(space, Map::empty()),
    {
        let rows = self.rows_mut(space);
        *rows = Rows::new();
        assert(contents(*rows) =~= Map::empty());
    }

    /// How many rows a namespace has.
    pub fn count(&self, space: Namespace) -> (n: usize)
        requires
            self.wf(),
            space.is_keyed(),
        ensures
            n == self@.rows(space).dom().len(),
            self@.rows(space).dom().finite(),
    {
        let rows = self.rows(space);
        proof {
            rows.lemma_len();
            assert(contents(*rows).dom() =~= rows.map().dom());
        }
        rows.len()
    }

    /// The device's payload.
    pub fn device(&self) -> (r: Option<&Vec<u8>>)
        ensures
            r is Some == self@.device is Some,
            r matches Some(payload) ==> self@.device == Some(payload@),
    {
        match &self.device {
            Some(payload) => Some(payload),
            None => None,
        }
    }

    /// Replaces the device's payload.
    pub fn set_device(&mut self, payload: Vec<u8>)
        requires
            old(self).wf(),
        ensures
            final(self).wf(),
            final(self)@ == (MirrorView { device: Some(payload@), ..old(self)@ }),
    {
        self.device = Some(payload);
    }

    /// The id of the latest sync key.
    pub fn latest_sync_key_id(&self) -> (r: Option<&Vec<u8>>)
        ensures
            r is Some == self@.latest_sync_key_id is Some,
            r matches Some(id) ==> self@.latest_sync_key_id == Some(id@),
    {
        match &self.latest_sync_key_id {
            Some(id) => Some(id),
            None => None,
        }
    }

    /// Names the latest sync key.
    pub fn set_latest_sync_key_id(&mut self, id: Vec<u8>)
        requires
            old(self).wf(),
        ensures
            final(self).wf(),
            final(self)@ == (MirrorView { latest_sync_key_id: Some(id@), ..old(self)@ }),
    {
        self.latest_sync_key_id = Some(id);
    }
}

/// The rows of each kind are kept apart, each kind in its own place.
pub proof fn kinds_are_kept_apart(mirror: MirrorView, space: Namespace, rows: Map<Seq<u8>, Seq<u8>>)
    ensures
        mirror.rows(Namespace::Identity) == mirror.identities,
        mirror.rows(Namespace::Session) == mirror.sessions,
        mirror.rows(Namespace::Prekey) == mirror.prekeys,
        mirror.rows(Namespace::SignedPrekey) == mirror.signed_prekeys,
        mirror.rows(Namespace::SenderKey) == mirror.sender_keys,
        mirror.rows(Namespace::SyncKey) == mirror.sync_keys,
        ({
            let then_mirror = mirror.with_rows(space, rows);
            &&& then_mirror.device == mirror.device
            &&& then_mirror.latest_sync_key_id == mirror.latest_sync_key_id
            &&& then_mirror.identities == if space == Namespace::Identity {
                rows
            } else {
                mirror.identities
            }
            &&& then_mirror.sessions == if space == Namespace::Session {
                rows
            } else {
                mirror.sessions
            }
            &&& then_mirror.prekeys == if space == Namespace::Prekey {
                rows
            } else {
                mirror.prekeys
            }
            &&& then_mirror.signed_prekeys == if space == Namespace::SignedPrekey {
                rows
            } else {
                mirror.signed_prekeys
            }
            &&& then_mirror.sender_keys == if space == Namespace::SenderKey {
                rows
            } else {
                mirror.sender_keys
            }
            &&& then_mirror.sync_keys == if space == Namespace::SyncKey {
                rows
            } else {
                mirror.sync_keys
            }
        }),
        MirrorView::none().device is None,
        MirrorView::none().latest_sync_key_id is None,
        MirrorView::none().identities == Map::<Seq<u8>, Seq<u8>>::empty(),
        MirrorView::none().sessions == Map::<Seq<u8>, Seq<u8>>::empty(),
        MirrorView::none().prekeys == Map::<Seq<u8>, Seq<u8>>::empty(),
        MirrorView::none().signed_prekeys == Map::<Seq<u8>, Seq<u8>>::empty(),
        MirrorView::none().sender_keys == Map::<Seq<u8>, Seq<u8>>::empty(),
        MirrorView::none().sync_keys == Map::<Seq<u8>, Seq<u8>>::empty(),
{
}

/// What a row of each kind may be: addresses are text, prekeys go by four bytes, an
/// identity key is 32 bytes, a sync key is one that can be read.
pub proof fn rows_are_of_their_kind(space: Namespace, key: Seq<u8>, value: Seq<u8>)
    ensures
        row_fault(space, key, value) is None <==> match space {
            Namespace::Identity => valid_utf8(key) && value.len() == 32,
            Namespace::Session | Namespace::SenderKey => valid_utf8(key),
            Namespace::Prekey | Namespace::SignedPrekey => key.len() == 4,
            Namespace::SyncKey => parsed_sync_key(value) is Some,
            Namespace::Control | Namespace::Device => true,
        },
{
}

proof fn lemma_loaded_each(space: Namespace, listing: Listing)
    ensures
        match loaded_each(space, listing) {
            Ok(records) => records.len() == listing.len() && forall|i: int|
                0 <= i < listing.len() ==> loaded_record(
                    space,
                    (#[trigger] listing[i]).0,
                    listing[i].1,
                ) == Ok::<(Seq<u8>, Seq<u8>), StoreFault>(records[i]),
            Err(fault) => !(fault is TooManyRecords),
        },
    decreases listing.len(),
{
    if listing.len() > 0 {
        lemma_loaded_each(space, listing.drop_last());
        if loaded_each(space, listing) is Ok {
            let records = loaded_each(space, listing)->Ok_0;
            let before = loaded_each(space, listing.drop_last())->Ok_0;
            assert forall|i: int| 0 <= i < listing.len() implies loaded_record(
                space,
                (#[trigger] listing[i]).0,
                listing[i].1,
            ) == Ok::<(Seq<u8>, Seq<u8>), StoreFault>(records[i]) by {
                if i < before.len() {
                    assert(listing.drop_last()[i] == listing[i]);
                    assert(records[i] == before[i]);
                }
            }
        }
    }
}

proof fn lemma_indexed(space: Namespace, records: Seq<(Seq<u8>, Seq<u8>)>)
    ensures
        match indexed(space, records) {
            Ok(rows) => {
                &&& rows.dom().finite()
                &&& rows.dom().len() == records.len()
                &&& forall|i: int|
                    0 <= i < records.len() ==> rows.contains_key((#[trigger] records[i]).0)
                        && rows[records[i].0] == records[i].1
                &&& forall|key: Seq<u8>| #[trigger]
                    rows.contains_key(key) ==> exists|i: int|
                        0 <= i < records.len() && (#[trigger] records[i]).0 == key
            },
            Err(fault) => !(fault is TooManyRecords),
        },
    decreases records.len(),
{
    if records.len() > 0 {
        let front = records.drop_last();
        let (key, value) = records.last();
        lemma_indexed(space, front);
        if indexed(space, records) is Ok {
            let rows = indexed(space, records)->Ok_0;
            let before = indexed(space, front)->Ok_0;
            assert(rows.dom() =~= before.dom().insert(key));
            assert forall|i: int| 0 <= i < records.len() implies rows.contains_key(
                (#[trigger] records[i]).0,
            ) && rows[records[i].0] == records[i].1 by {
                if i < front.len() {
                    assert(front[i] == records[i]);
                }
            }
            assert forall|k: Seq<u8>| #[trigger] rows.contains_key(k) implies exists|i: int|
                0 <= i < records.len() && (#[trigger] records[i]).0 == k by {
                if k == key {
                    assert(records[records.len() - 1].0 == k);
                } else {
                    assert(before.contains_key(k));
                    let i = choose|i: int| 0 <= i < front.len() && (#[trigger] front[i]).0 == k;
                    assert(records[i].0 == k);
                }
            }
        }
    }
}

/// Whether rows are all of a listing: every blob of it is the record of a row under the
/// row's own name, and every row has one.
pub open spec fn loads_all(rows: Map<Seq<u8>, Seq<u8>>, listing: Listing) -> bool {
    &&& rows.dom().len() == listing.len()
    &&& forall|i: int|
        0 <= i < listing.len() ==> ((#[trigger] listing[i]).1 matches BlobView::Data(record) && (
        parsed_record(record) matches Ok((key, value)) && name_of(key) == listing[i].0
            && rows.contains_key(key) && rows[key] == value))
}

/// A namespace is loaded whole or not at all: up to as many records as it may hold, each
/// of them a row, and none beyond; more are refused for their number.
pub proof fn namespaces_load_whole(space: Namespace, listing: Listing)
    ensures
        loaded_rows(space, listing) matches Ok(rows) ==> loads_all(rows, listing),
        ({
            let most: nat = match space {
                Namespace::Control | Namespace::Device => 1,
                Namespace::Identity | Namespace::Session | Namespace::SenderKey => 2048,
                Namespace::Prekey | Namespace::SyncKey => 256,
                Namespace::SignedPrekey => 16,
            };
            &&& listing.len() > most ==> loaded_rows(space, listing) == Err::<
                Map<Seq<u8>, Seq<u8>>,
                StoreFault,
            >(StoreFault::TooManyRecords { space, count: listing.len() })
            &&& listing.len() <= most ==> !(loaded_rows(space, listing) matches Err(fault) && (fault
                is TooManyRecords))
        }),
{
    lemma_loaded_each(space, listing);
    if loaded_each(space, listing) is Ok {
        let records = loaded_each(space, listing)->Ok_0;
        lemma_indexed(space, records);
        if loaded_rows(space, listing) is Ok {
            let rows = loaded_rows(space, listing)->Ok_0;
            assert forall|i: int| 0 <= i < listing.len() implies ((
            #[trigger] listing[i]).1 matches BlobView::Data(record) && (parsed_record(
                record,
            ) matches Ok((key, value)) && name_of(key) == listing[i].0 && rows.contains_key(key)
                && rows[key] == value)) by {
                assert(loaded_record(space, listing[i].0, listing[i].1) == Ok::<
                    (Seq<u8>, Seq<u8>),
                    StoreFault,
                >(records[i]));
                assert(rows.contains_key(records[i].0));
            }
        }
    }
}

/// A boot that finds a linked device and succeeds has loaded all of it and erases
/// nothing: every record of every kind is a row of that kind.
pub proof fn boots_load_everything(image: ImageView)
    requires
        image.reset is Absent,
        image.device is Data,
        opened(image) is Ok,
    ensures
        ({
            let (mirror, erased) = opened(image)->Ok_0;
            &&& erased.len() == 0
            &&& mirror.device is Some
            &&& parsed_record(image.device->Data_0) matches Ok((key, payload)) && mirror.device
                == Some(payload) && key == encode_utf8("device"@)
            &&& loads_all(mirror.identities, image.identities)
            &&& loads_all(mirror.sessions, image.sessions)
            &&& loads_all(mirror.prekeys, image.prekeys)
            &&& loads_all(mirror.signed_prekeys, image.signed_prekeys)
            &&& loads_all(mirror.sender_keys, image.sender_keys)
            &&& loads_all(mirror.sync_keys, image.sync_keys)
        }),
{
    namespaces_load_whole(Namespace::Identity, image.identities);
    namespaces_load_whole(Namespace::Session, image.sessions);
    namespaces_load_whole(Namespace::Prekey, image.prekeys);
    namespaces_load_whole(Namespace::SignedPrekey, image.signed_prekeys);
    namespaces_load_whole(Namespace::SenderKey, image.sender_keys);
    namespaces_load_whole(Namespace::SyncKey, image.sync_keys);
}

/// A boot without a device, or with a reset under way, starts with nothing.
pub proof fn boots_without_a_device_are_empty(image: ImageView)
    ensures
        image.reset is Absent && image.device is Absent ==> (opened(image) matches Ok((mirror, _))
            && mirror == MirrorView::none()),
        (image.reset matches BlobView::Data(marker) && marker.len() <= 1) ==> (opened(
            image,
        ) matches Ok((mirror, _)) && mirror == MirrorView::none()),
{
}

/// The newest sync key is one with the latest timestamp of all, the last of those.
pub proof fn newest_key_has_the_latest_time(records: Seq<(Seq<u8>, Seq<u8>)>)
    ensures
        newest(records) is Some <==> records.len() > 0,
        newest(records) matches Some((id, at)) ==> exists|i: int|
            {
                &&& 0 <= i < records.len()
                &&& (#[trigger] records[i]).0 == id
                &&& (parsed_sync_key(records[i].1)->0).timestamp == at
                &&& forall|j: int|
                    0 <= j < records.len() ==> (parsed_sync_key(
                        (#[trigger] records[j]).1,
                    )->0).timestamp <= at && (j > i ==> (parsed_sync_key(
                        records[j].1,
                    )->0).timestamp < at)
            },
    decreases records.len(),
{
    if records.len() > 0 {
        let front = records.drop_last();
        newest_key_has_the_latest_time(front);
        let last = records.len() - 1;
        let at = (parsed_sync_key(records.last().1)->0).timestamp;
        match newest(front) {
            Some((id, before)) if at < before => {
                let i = choose|i: int|
                    {
                        &&& 0 <= i < front.len()
                        &&& (#[trigger] front[i]).0 == id
                        &&& (parsed_sync_key(front[i].1)->0).timestamp == before
                        &&& forall|j: int|
                            0 <= j < front.len() ==> (parsed_sync_key(
                                (#[trigger] front[j]).1,
                            )->0).timestamp <= before && (j > i ==> (parsed_sync_key(
                                front[j].1,
                            )->0).timestamp < before)
                    };
                assert(records[i].0 == id);
                assert forall|j: int| 0 <= j < records.len() implies (parsed_sync_key(
                    (#[trigger] records[j]).1,
                )->0).timestamp <= before && (j > i ==> (parsed_sync_key(
                    records[j].1,
                )->0).timestamp < before) by {
                    if j < front.len() {
                        assert(front[j] == records[j]);
                    }
                }
            },
            _ => {
                assert(records[last].0 == records.last().0);
                assert forall|j: int| 0 <= j < records.len() implies (parsed_sync_key(
                    (#[trigger] records[j]).1,
                )->0).timestamp <= at && (j > last ==> (parsed_sync_key(
                    records[j].1,
                )->0).timestamp < at) by {
                    if j < front.len() {
                        assert(front[j] == records[j]);
                    }
                }
            },
        }
    }
}

/// The key that its record names is the latest where it is there; otherwise the newest.
pub proof fn named_key_is_the_latest(
    id: Seq<u8>,
    rows: Map<Seq<u8>, Seq<u8>>,
    records: Seq<(Seq<u8>, Seq<u8>)>,
)
    requires
        id.len() <= 512,
    ensures
        ({
            let named = Some(BlobView::Data(record_bytes(encode_utf8("latestsync"@), id)));
            &&& rows.contains_key(id) ==> chosen_latest(named, rows, records) == Some(id)
            &&& !rows.contains_key(id) && records.len() > 0 ==> chosen_latest(named, rows, records)
                == Some((newest(records)->0).0)
            &&& records.len() > 0 ==> chosen_latest(Some(BlobView::Absent), rows, records) == Some(
                (newest(records)->0).0,
            ) && chosen_latest(None, rows, records) == Some((newest(records)->0).0)
        }),
{
    reveal_strlit("latestsync");
    vstd::utf8::is_ascii_chars_encode_utf8("latestsync"@);
    records_lie_as_they_are_read(encode_utf8("latestsync"@), id);
    newest_key_has_the_latest_time(records);
}

/// The records beside the keyed ones lie under fixed keys.
pub proof fn fixed_keys_are_their_words()
    ensures
        device_key() == seq![100u8, 101, 118, 105, 99, 101],
        latest_key() == seq![108u8, 97, 116, 101, 115, 116, 115, 121, 110, 99],
{
    reveal_strlit("device");
    reveal_strlit("latestsync");
    vstd::utf8::is_ascii_chars_encode_utf8("device"@);
    vstd::utf8::is_ascii_chars_encode_utf8("latestsync"@);
    assert(device_key() =~= seq![100u8, 101, 118, 105, 99, 101]);
    assert(latest_key() =~= seq![108u8, 97, 116, 101, 115, 116, 115, 121, 110, 99]);
}

/// What was read of flash is viewed as it was read, each namespace in its own place.
pub proof fn images_are_viewed_as_they_are(image: FlashImage, key: AppStateSyncKey)
    ensures
        image@.reset == image.reset@,
        image@.device == image.device@,
        image@.latest is Some <==> image.latest is Some,
        image.latest is Some ==> image@.latest->0 == (image.latest->0)@,
        image@.identities == listing_of(image.identities@),
        image@.sessions == listing_of(image.sessions@),
        image@.prekeys == listing_of(image.prekeys@),
        image@.signed_prekeys == listing_of(image.signed_prekeys@),
        image@.sender_keys == listing_of(image.sender_keys@),
        image@.sync_keys == listing_of(image.sync_keys@),
        image@.listing(Namespace::Identity) == image@.identities,
        image@.listing(Namespace::Session) == image@.sessions,
        image@.listing(Namespace::Prekey) == image@.prekeys,
        image@.listing(Namespace::SignedPrekey) == image@.signed_prekeys,
        image@.listing(Namespace::SenderKey) == image@.sender_keys,
        image@.listing(Namespace::SyncKey) == image@.sync_keys,
        key@.key_data == key.key_data@,
        key@.fingerprint == key.fingerprint@,
        key@.timestamp == key.timestamp,
{
}

/// A listing is viewed entry by entry, as it was read.
pub proof fn listings_are_viewed_in_order(image: Seq<(String, BlobRead)>)
    ensures
        listing_of(image).len() == image.len(),
        forall|i: int|
            0 <= i < image.len() ==> listing_of(image)[i] == ((#[trigger] image[i]).0@, image[i].1@),
{
}

/// The device is read back from its own record alone: another key, or a payload that is
/// no device, is refused rather than passed over.
pub proof fn the_device_is_read_from_its_record(key: Seq<u8>, payload: Seq<u8>)
    requires
        key.len() <= 6,
        payload.len() <= 65536,
    ensures
        loaded_device(BlobView::Absent) == Ok::<Option<Seq<u8>>, StoreFault>(None),
        is_device_json(payload) ==> loaded_device(
            BlobView::Data(record_bytes(encode_utf8("device"@), payload)),
        ) == Ok::<Option<Seq<u8>>, StoreFault>(Some(payload)),
        !is_device_json(payload) ==> loaded_device(
            BlobView::Data(record_bytes(encode_utf8("device"@), payload)),
        ) == Err::<Option<Seq<u8>>, StoreFault>(StoreFault::InvalidDevice),
        key != encode_utf8("device"@) ==> loaded_device(BlobView::Data(record_bytes(key, payload)))
            == Err::<Option<Seq<u8>>, StoreFault>(StoreFault::WrongDeviceKey),
{
    fixed_keys_are_their_words();
    records_lie_as_they_are_read(encode_utf8("device"@), payload);
    records_lie_as_they_are_read(key, payload);
}

/// The record of the latest sync key names an id; another key is refused.
pub proof fn the_latest_key_is_read_from_its_record(key: Seq<u8>, id: Seq<u8>)
    requires
        key.len() <= 10,
        id.len() <= 512,
    ensures
        recorded_latest(BlobView::Absent) == Ok::<Option<Seq<u8>>, StoreFault>(None),
        recorded_latest(BlobView::Data(record_bytes(encode_utf8("latestsync"@), id))) == Ok::<
            Option<Seq<u8>>,
            StoreFault,
        >(Some(id)),
        key != encode_utf8("latestsync"@) ==> recorded_latest(BlobView::Data(record_bytes(key, id)))
            == Err::<Option<Seq<u8>>, StoreFault>(StoreFault::WrongLatestKey),
{
    fixed_keys_are_their_words();
    records_lie_as_they_are_read(encode_utf8("latestsync"@), id);
    records_lie_as_they_are_read(key, id);
}

/// A listed record is loaded as its key and value where it lies under its own name and is
/// not too long; one that is gone, lies under another name or is too long is refused.
pub proof fn listed_records_are_loaded(
    space: Namespace,
    name: Seq<char>,
    key: Seq<u8>,
    value: Seq<u8>,
)
    requires
        key.len() <= 512,
    ensures
        ({
            let longest: nat = if space == Namespace::Identity { 32 } else { 65536 };
            let there = BlobView::Data(record_bytes(key, value));
            &&& loaded_record(space, name, BlobView::Absent) == Err::<
                (Seq<u8>, Seq<u8>),
                StoreFault,
            >(StoreFault::Disappeared { space, name })
            &&& name == name_of(key) && value.len() <= longest ==> loaded_record(space, name, there)
                == Ok::<(Seq<u8>, Seq<u8>), StoreFault>((key, value))
            &&& name != name_of(key) && value.len() <= longest ==> loaded_record(space, name, there)
                == Err::<(Seq<u8>, Seq<u8>), StoreFault>(StoreFault::Mismatched { space, name })
            &&& value.len() > longest ==> loaded_record(space, name, there) is Err
        }),
{
    records_lie_as_they_are_read(key, value);
}

/// Records are viewed one by one, as they are.
pub proof fn records_are_viewed_in_order(v: Seq<(&[u8], &[u8])>)
    ensures
        record_views(v).len() == v.len(),
        forall|i: int| 0 <= i < v.len() ==> record_views(v)[i] == ((#[trigger] v[i]).0@, v[i].1@),
{
}

} // verus!
