//! The store of a linked device: its Signal state and sync keys live in flash
//! and survive reboots and power loss; everything else is a cache.
//!
//! Reads are served from the mirror in memory. A write is planned here, carried
//! out in flash, and only then put into the mirror, so memory never claims more
//! than flash holds.

use crate::buffers::{content, content_bytes};
use crate::caches::{Caches, CachesView};
use crate::flash::{
    encode_record, find_record, name_of, put_record, put_verdict, record_bytes, record_name,
    record_of, records_lie_as_they_are_read, BlobRead, Change, FlashAction, Namespace, StoreError,
    StoreFault, MAX_DEVICE_LEN, MAX_LOGICAL_KEY_LEN,
};
use crate::mirror::{
    contents, device_key, indexed, loaded_records, loaded_rows, opened, parse_sync_key,
    parsed_sync_key, row_fault, sync_key_payload, write_sync_key, AppStateSyncKey, FlashImage,
    ImageView, Listing, Mirror, MirrorView,
};
use crate::recovery::latest_marker;
use crate::rows::Rows;
use crate::scan::to_vec;
use crate::text::utf8_text;
use bytes::Bytes;
use vstd::prelude::*;
use vstd::utf8::encode_utf8;

verus! {

/// Default partition name for WhatsApp credentials and Signal state.
pub const DEFAULT_PARTITION_NAME: &'static str = "wa_store";

/// Every row is one that its namespace can hold.
pub open spec fn rows_typed(mirror: MirrorView) -> bool {
    forall|space: Namespace, key: Seq<u8>|
        space.is_keyed() && #[trigger] mirror.rows(space).contains_key(key) ==> row_fault(
            space,
            key,
            mirror.rows(space)[key],
        ) is None
}

/// A four byte number, the least significant byte first.
pub open spec fn le_bytes(id: u32) -> Seq<u8> {
    seq![
        (id % 256) as u8,
        (id / 256 % 256) as u8,
        (id / 65536 % 256) as u8,
        (id / 16777216) as u8,
    ]
}

/// The number that four bytes write, the least significant first.
pub open spec fn le_value(bytes: Seq<u8>) -> nat {
    (bytes[0] + 256 * bytes[1] + 65536 * bytes[2] + 16777216 * bytes[3]) as nat
}

fn id_key(id: u32) -> (r: Vec<u8>)
    ensures
        r@ == le_bytes(id),
{
    let mut out: Vec<u8> = Vec::new();
    out.push((id % 256) as u8);
    out.push((id / 256 % 256) as u8);
    out.push((id / 65536 % 256) as u8);
    out.push((id / 16777216) as u8);
    assert(out@ =~= le_bytes(id));
    out
}

fn key_id(key: &[u8]) -> (r: u32)
    requires
        key@.len() == 4,
    ensures
        r == le_value(key@),
{
    key[0] as u32 + 256 * key[1] as u32 + 65536 * key[2] as u32 + 16777216 * key[3] as u32
}

/// A number is read back from its bytes.
pub proof fn id_is_read_back(id: u32)
    ensures
        le_bytes(id).len() == 4,
        le_value(le_bytes(id)) == id,
{
}

/// A record on its way into flash, before it is known what lies under its name.
#[derive(Debug)]
pub struct PendingPut {
    space: Namespace,
    key: Vec<u8>,
    value: Bytes,
    name: String,
}

impl PendingPut {
    pub closed spec fn space(&self) -> Namespace {
        self.space
    }

    pub closed spec fn key(&self) -> Seq<u8> {
        self.key@
    }

    pub closed spec fn value(&self) -> Seq<u8> {
        content(self.value)
    }

    /// The record goes under the name of its key, into a namespace that can hold
    /// it.
    pub closed spec fn wf(&self) -> bool {
        &&& self.space.is_keyed()
        &&& self.name@ == name_of(self.key@)
        &&& row_fault(self.space, self.key@, content(self.value)) is None
    }

    /// The namespace and the name to read before the record is made.
    pub fn slot(&self) -> (r: (Namespace, &String))
        requires
            self.wf(),
        ensures
            r.0 == self.space(),
            r.1@ == name_of(self.key()),
    {
        (self.space, &self.name)
    }

    /// The write, given what lies under the record's name. A record of another
    /// key is never overwritten.
    pub fn ready(self, existing: &BlobRead) -> (r: Result<ReadyPut, StoreError>)
        requires
            self.wf(),
        ensures
            match put_verdict(self.space(), self.key(), self.value(), existing@) {
                Ok(record) => r matches Ok(put) && put.wf() && put.space() == self.space()
                    && put.key() == self.key() && put.value() == self.value() && put.change() == (
                Change::Write { space: self.space(), name: name_of(self.key()), record }),
                Err(fault) => r matches Err(e) && e@ == fault,
            },
    {
        match put_record(
            self.space,
            self.key.as_slice(),
            content_bytes(&self.value),
            self.name.as_str(),
            existing,
        ) {
            Err(e) => Err(e),
            Ok(record) => Ok(
                ReadyPut {
                    space: self.space,
                    key: self.key,
                    value: self.value,
                    action: FlashAction::Write { space: self.space, name: self.name, record },
                },
            ),
        }
    }
}

/// A record that can be written.
#[derive(Debug)]
pub struct ReadyPut {
    space: Namespace,
    key: Vec<u8>,
    value: Bytes,
    action: FlashAction,
}

impl ReadyPut {
    pub closed spec fn space(&self) -> Namespace {
        self.space
    }

    pub closed spec fn key(&self) -> Seq<u8> {
        self.key@
    }

    pub closed spec fn value(&self) -> Seq<u8> {
        content(self.value)
    }

    pub closed spec fn change(&self) -> Change {
        self.action@
    }

    /// A row that its namespace can hold.
    pub closed spec fn wf(&self) -> bool {
        &&& self.space.is_keyed()
        &&& row_fault(self.space, self.key@, content(self.value)) is None
    }

    /// The write to make in flash.
    pub fn action(&self) -> (r: &FlashAction)
        ensures
            r@ == self.change(),
    {
        &self.action
    }
}

/// A record on its way out of flash.
#[derive(Debug)]
pub struct PendingDelete {
    space: Namespace,
    key: Vec<u8>,
    name: String,
}

impl PendingDelete {
    pub closed spec fn space(&self) -> Namespace {
        self.space
    }

    pub closed spec fn key(&self) -> Seq<u8> {
        self.key@
    }

    pub closed spec fn wf(&self) -> bool {
        self.space.is_keyed() && self.name@ == name_of(self.key@)
    }

    /// The namespace and the name to read before the record is removed.
    pub fn slot(&self) -> (r: (Namespace, &String))
        requires
            self.wf(),
        ensures
            r.0 == self.space(),
            r.1@ == name_of(self.key()),
    {
        (self.space, &self.name)
    }

    /// The removal to make in flash, given what lies under the record's name:
    /// `None` where there is nothing. A record of another key is never removed.
    pub fn removal(&self, existing: &BlobRead) -> (r: Result<Option<FlashAction>, StoreError>)
        requires
            self.wf(),
        ensures
            match crate::flash::collision_fault(self.space(), self.key(), existing@) {
                Ok(true) => r matches Ok(Some(action)) && action@ == (Change::Remove {
                    space: self.space(),
                    name: name_of(self.key()),
                }),
                Ok(false) => r matches Ok(None),
                Err(fault) => r matches Err(e) && e@ == fault,
            },
    {
        match find_record(self.space, self.key.as_slice(), self.name.as_str(), existing) {
            Err(e) => Err(e),
            Ok(true) => Ok(
                Some(FlashAction::Remove { space: self.space, name: self.name.clone() }),
            ),
            Ok(false) => Ok(None),
        }
    }
}

/// A sync key on its way into flash.
#[derive(Debug)]
pub struct PendingSyncKey {
    marker: FlashAction,
    put: PendingPut,
}

impl PendingSyncKey {
    pub closed spec fn marker(&self) -> Change {
        self.marker@
    }

    pub closed spec fn put(&self) -> PendingPut {
        self.put
    }

    /// The record that names the key as the latest. It is written first: a boot
    /// ignores one whose key is missing, but would keep to an older one that is
    /// there.
    pub fn marker_action(&self) -> (r: &FlashAction)
        ensures
            r@ == self.marker(),
    {
        &self.marker
    }

    /// The record of the key itself.
    pub fn into_put(self) -> (r: PendingPut)
        ensures
            r == self.put(),
    {
        self.put
    }
}

/// Counts for the admin interface.
#[derive(Clone, Copy, Debug, PartialEq, Eq, Structural)]
pub struct StoreStats {
    pub sessions: usize,
    pub identities: usize,
    pub prekeys: usize,
    pub sender_keys: usize,
    pub device_exists: bool,
}

/// The store of a linked device.
pub struct NvsStore {
    caches: Caches,
    mirror: Mirror,
    device_id_counter: i32,
    accepting_writes: bool,
}

impl NvsStore {
    /// What flash holds.
    pub closed spec fn mirror(&self) -> MirrorView {
        self.mirror@
    }

    /// What is kept in memory only.
    pub closed spec fn cached(&self) -> CachesView {
        self.caches@
    }

    /// How many devices were created.
    pub closed spec fn counter(&self) -> i32 {
        self.device_id_counter
    }

    /// Whether writes are taken.
    pub closed spec fn accepting(&self) -> bool {
        self.accepting_writes
    }

    /// The tables are sound, and their rows are of their kinds.
    pub closed spec fn wf(&self) -> bool {
        &&& self.caches.wf()
        &&& self.mirror.wf()
        &&& rows_typed(self.mirror@)
    }

    /// Opens the store from what was read of flash: the store, and what has to be
    /// erased before it is used.
    pub fn open(image: &FlashImage) -> (r: Result<(NvsStore, Vec<FlashAction>), StoreError>)
        ensures
            match opened(image@) {
                Ok((mirror, erased)) => r matches Ok((store, actions)) && store.wf()
                    && store.mirror() == mirror && store.cached() == CachesView::none()
                    && store.counter() == 0 && store.accepting() && crate::flash::changes(actions@)
                    == erased,
                Err(fault) => r matches Err(e) && e@ == fault,
            },
    {
        match Mirror::open(image) {
            Err(e) => Err(e),
            Ok((mirror, actions)) => {
                proof {
                    lemma_opened_typed(image@);
                }
                Ok(
                    (
                        NvsStore {
                            caches: Caches::new(),
                            mirror,
                            device_id_counter: 0,
                            accepting_writes: true,
                        },
                        actions,
                    ),
                )
            },
        }
    }

    /// What is kept in memory only.
    pub fn caches(&self) -> (r: &Caches)
        requires
            self.wf(),
        ensures
            r.wf(),
            r@ == self.cached(),
    {
        &self.caches
    }

    /// What is kept in memory only, to be changed. None of it touches flash.
    pub fn caches_mut(&mut self) -> (r: &mut Caches)
        requires
            old(self).wf(),
        ensures
            r.wf(),
            r@ == old(self).cached(),
            final(r).wf() ==> final(self).wf(),
            final(self).cached() == final(r)@,
            final(self).mirror() == old(self).mirror(),
            final(self).counter() == old(self).counter(),
            final(self).accepting() == old(self).accepting(),
    {
        &mut self.caches
    }

    /// Counts for the admin interface.
    pub fn stats(&self) -> (r: StoreStats)
        requires
            self.wf(),
        ensures
            r.sessions == self.mirror().sessions.dom().len(),
            r.identities == self.mirror().identities.dom().len(),
            r.prekeys == self.mirror().prekeys.dom().len(),
            r.sender_keys == self.mirror().sender_keys.dom().len(),
            r.device_exists == self.mirror().device is Some,
    {
        StoreStats {
            sessions: self.mirror.count(Namespace::Session),
            identities: self.mirror.count(Namespace::Identity),
            prekeys: self.mirror.count(Namespace::Prekey),
            sender_keys: self.mirror.count(Namespace::SenderKey),
            device_exists: self.mirror.device().is_some(),
        }
    }

    /// The addresses of all sessions, each once.
    pub fn list_sessions(&self) -> (r: Vec<String>)
        requires
            self.wf(),
        ensures
            r@.len() == self.mirror().sessions.dom().len(),
            forall|i: int|
                0 <= i < r@.len() ==> self.mirror().sessions.contains_key(
                    encode_utf8((#[trigger] r@[i])@),
                ),
            forall|key: Seq<u8>| #[trigger]
                self.mirror().sessions.contains_key(key) ==> exists|i: int|
                    0 <= i < r@.len() && encode_utf8((#[trigger] r@[i])@) == key,
    {
        let rows = self.mirror.rows(Namespace::Session);
        let ghost map = self.mirror().sessions;
        assert(contents(*rows) == map);
        assert(map.dom() =~= rows.map().dom());
        let mut out: Vec<String> = Vec::new();
        let mut i: usize = 0;
        while i < rows.len()
            invariant
                i <= rows.seq().len(),
                rows.wf(),
                map == contents(*rows),
                map == self.mirror@.rows(Namespace::Session),
                rows_typed(self.mirror@),
                out@.len() == i,
                forall|j: int| 0 <= j < i ==> encode_utf8((#[trigger] out@[j])@) == rows.seq()[j].0@,
            decreases rows.seq().len() - i,
        {
            let key = rows.key_at(i);
            proof {
                rows.lemma_row(i as int);
                assert(map.contains_key(key@));
                assert(self.mirror@.rows(Namespace::Session).contains_key(key@));
            }
            if let Some(address) = utf8_text(key.as_slice()) {
                out.push(address.to_owned());
            }
            i += 1;
        }
        proof {
            rows.lemma_len();
            assert forall|i: int| 0 <= i < out@.len() implies map.contains_key(
                encode_utf8((#[trigger] out@[i])@),
            ) by {
                rows.lemma_row(i);
            }
            assert forall|key: Seq<u8>| #[trigger] map.contains_key(key) implies exists|i: int|
                0 <= i < out@.len() && encode_utf8((#[trigger] out@[i])@) == key by {
                let j = choose|j: int| #[trigger] rows.at(key, j);
                assert(encode_utf8(out@[j]@) == key);
            }
        }
        out
    }

    /// What erases all sessions in flash.
    pub fn begin_clear_sessions() -> (r: FlashAction)
        ensures
            r@ == (Change::Erase { space: Namespace::Session }),
    {
        FlashAction::Erase { space: Namespace::Session }
    }

    /// Clears all sessions, once they are erased in flash. How many they were.
    pub fn clear_sessions(&mut self) -> (n: usize)
        requires
            old(self).wf(),
        ensures
            final(self).wf(),
            n == old(self).mirror().sessions.dom().len(),
            final(self).mirror() == (MirrorView { sessions: Map::empty(), ..old(self).mirror() }),
            final(self).cached() == old(self).cached(),
            final(self).counter() == old(self).counter(),
            final(self).accepting() == old(self).accepting(),
    {
        let n = self.mirror.count(Namespace::Session);
        self.mirror.clear(Namespace::Session);
        proof {
            lemma_typed_with(old(self).mirror@, Namespace::Session, Map::empty());
        }
        n
    }

    /// What resets flash, in order.
    pub fn begin_reset() -> (r: Vec<FlashAction>)
        ensures
            crate::flash::changes(r@) == crate::mirror::whole_reset(),
    {
        crate::mirror::reset_all()
    }

    /// Forgets everything, once flash is reset. A sealed store stays sealed.
    pub fn reset(&mut self)
        requires
            old(self).wf(),
        ensures
            final(self).wf(),
            final(self).mirror() == MirrorView::none(),
            final(self).cached() == CachesView::none(),
            final(self).counter() == 0,
            final(self).accepting() == old(self).accepting(),
    {
        self.mirror = Mirror::new();
        self.caches = Caches::new();
        self.device_id_counter = 0;
        assert forall|space: Namespace, key: Seq<u8>|
            space.is_keyed() && #[trigger] self.mirror@.rows(space).contains_key(key) implies row_fault(
            space,
            key,
            self.mirror@.rows(space)[key],
        ) is None by {}
    }

    /// Called once the client has been asked to stop: stale background work can
    /// then recreate no record before the reboot.
    pub fn seal_writes(&mut self)
        requires
            old(self).wf(),
        ensures
            final(self).wf(),
            !final(self).accepting(),
            final(self).mirror() == old(self).mirror(),
            final(self).cached() == old(self).cached(),
            final(self).counter() == old(self).counter(),
    {
        self.accepting_writes = false;
    }

    /// Whether a row can be put: its key is there, or there is room.
    pub open spec fn has_room(&self, space: Namespace, key: Seq<u8>) -> bool {
        self.mirror().rows(space).contains_key(key) || self.mirror().rows(space).dom().len()
            < space.spec_max_entries()
    }

    /// Why a put is refused before flash is looked at, if it is.
    pub open spec fn put_refusal(&self, space: Namespace, key: Seq<u8>) -> Option<StoreFault> {
        if !self.accepting() {
            Some(StoreFault::Sealed)
        } else if !self.has_room(space, key) {
            Some(StoreFault::LimitReached(space))
        } else {
            None
        }
    }

    /// Whether `r` is a put of this row, or the refusal that is due.
    pub open spec fn put_begun(
        &self,
        space: Namespace,
        key: Seq<u8>,
        value: Seq<u8>,
        r: Result<PendingPut, StoreError>,
    ) -> bool {
        match self.put_refusal(space, key) {
            Some(fault) => r matches Err(e) && e@ == fault,
            None => r matches Ok(put) && put.wf() && put.space() == space && put.key() == key
                && put.value() == value,
        }
    }

    fn begin_put(&self, space: Namespace, key: Vec<u8>, value: &[u8]) -> (r: Result<
        PendingPut,
        StoreError,
    >)
        requires
            self.wf(),
            space.is_keyed(),
            row_fault(space, key@, value@) is None,
        ensures
            self.put_begun(space, key@, value@, r),
    {
        if !self.accepting_writes {
            return Err(StoreError::Sealed);
        }
        let exists_already = self.mirror.rows(space).contains(key.as_slice());
        proof {
            assert(self.mirror().rows(space).contains_key(key@) == exists_already);
        }
        if !exists_already && self.mirror.count(space) >= space.max_entries() {
            return Err(StoreError::LimitReached(space));
        }
        let name = record_name(key.as_slice());
        Ok(PendingPut { space, key, value: Bytes::copy_from_slice(value), name })
    }

    /// Puts a row into the mirror, once its record is written.
    pub fn finish_put(&mut self, put: ReadyPut)
        requires
            old(self).wf(),
            put.wf(),
        ensures
            final(self).wf(),
            final(self).mirror() == old(self).mirror().with_rows(
                put.space(),
                old(self).mirror().rows(put.space()).insert(put.key(), put.value()),
            ),
            final(self).cached() == old(self).cached(),
            final(self).counter() == old(self).counter(),
            final(self).accepting() == old(self).accepting(),
    {
        let ghost rows = self.mirror@.rows(put.space).insert(put.key@, content(put.value));
        let ghost space = put.space;
        self.mirror.insert(put.space, put.key, put.value);
        proof {
            assert forall|key: Seq<u8>| #[trigger] rows.contains_key(key) implies row_fault(
                space,
                key,
                rows[key],
            ) is None by {
                if key != put.key@ {
                    assert(old(self).mirror@.rows(space).contains_key(key));
                }
            }
            lemma_typed_with(old(self).mirror@, space, rows);
        }
    }

    fn begin_delete(&self, space: Namespace, key: Vec<u8>) -> (r: Result<PendingDelete, StoreError>)
        requires
            self.wf(),
            space.is_keyed(),
        ensures
            self.delete_begun(space, key@, r),
    {
        if !self.accepting_writes {
            return Err(StoreError::Sealed);
        }
        let name = record_name(key.as_slice());
        Ok(PendingDelete { space, key, name })
    }

    /// Whether `r` is a removal of this row, or the refusal of a sealed store.
    pub open spec fn delete_begun(
        &self,
        space: Namespace,
        key: Seq<u8>,
        r: Result<PendingDelete, StoreError>,
    ) -> bool {
        if self.accepting() {
            r matches Ok(pending) && pending.wf() && pending.space() == space && pending.key()
                == key
        } else {
            r matches Err(e) && e@ == StoreFault::Sealed
        }
    }

    /// Removes a row from the mirror, once its record is gone.
    pub fn finish_delete(&mut self, pending: PendingDelete)
        requires
            old(self).wf(),
            pending.wf(),
        ensures
            final(self).wf(),
            final(self).mirror() == old(self).mirror().with_rows(
                pending.space(),
                old(self).mirror().rows(pending.space()).remove(pending.key()),
            ),
            final(self).cached() == old(self).cached(),
            final(self).counter() == old(self).counter(),
            final(self).accepting() == old(self).accepting(),
    {
        let ghost rows = self.mirror@.rows(pending.space).remove(pending.key@);
        self.mirror.remove(pending.space, pending.key.as_slice());
        proof {
            assert forall|key: Seq<u8>| #[trigger] rows.contains_key(key) implies row_fault(
                pending.space,
                key,
                rows[key],
            ) is None by {
                assert(old(self).mirror@.rows(pending.space).contains_key(key));
            }
            lemma_typed_with(old(self).mirror@, pending.space, rows);
        }
    }
}

/// Rows of one kind in place of others of that kind.
proof fn lemma_typed_with(mirror: MirrorView, space: Namespace, rows: Map<Seq<u8>, Seq<u8>>)
    requires
        space.is_keyed(),
        rows_typed(mirror),
        forall|key: Seq<u8>| #[trigger]
            rows.contains_key(key) ==> row_fault(space, key, rows[key]) is None,
    ensures
        rows_typed(mirror.with_rows(space, rows)),
{
    let then_mirror = mirror.with_rows(space, rows);
    assert forall|other: Namespace, key: Seq<u8>|
        other.is_keyed() && #[trigger] then_mirror.rows(other).contains_key(key) implies row_fault(
        other,
        key,
        then_mirror.rows(other)[key],
    ) is None by {
        if other != space {
            assert(mirror.rows(other).contains_key(key));
        }
    }
}

proof fn lemma_indexed_typed(space: Namespace, records: Seq<(Seq<u8>, Seq<u8>)>)
    requires
        indexed(space, records) is Ok,
    ensures
        forall|key: Seq<u8>| #[trigger]
            (indexed(space, records)->Ok_0).contains_key(key) ==> row_fault(
                space,
                key,
                (indexed(space, records)->Ok_0)[key],
            ) is None,
    decreases records.len(),
{
    if records.len() > 0 {
        lemma_indexed_typed(space, records.drop_last());
    }
}

proof fn lemma_loaded_typed(space: Namespace, listing: Listing)
    requires
        loaded_rows(space, listing) is Ok,
    ensures
        forall|key: Seq<u8>| #[trigger]
            (loaded_rows(space, listing)->Ok_0).contains_key(key) ==> row_fault(
                space,
                key,
                (loaded_rows(space, listing)->Ok_0)[key],
            ) is None,
{
    lemma_indexed_typed(space, loaded_records(space, listing)->Ok_0);
}

/// What a boot loads is of the kinds that its namespaces hold.
proof fn lemma_opened_typed(image: ImageView)
    requires
        opened(image) is Ok,
    ensures
        rows_typed((opened(image)->Ok_0).0),
{
    let mirror = (opened(image)->Ok_0).0;
    if mirror.device is Some {
        lemma_loaded_typed(Namespace::Identity, image.identities);
        lemma_loaded_typed(Namespace::Session, image.sessions);
        lemma_loaded_typed(Namespace::Prekey, image.prekeys);
        lemma_loaded_typed(Namespace::SignedPrekey, image.signed_prekeys);
        lemma_loaded_typed(Namespace::SenderKey, image.sender_keys);
        lemma_loaded_typed(Namespace::SyncKey, image.sync_keys);
    }
    assert forall|space: Namespace, key: Seq<u8>|
        space.is_keyed() && #[trigger] mirror.rows(space).contains_key(key) implies row_fault(
        space,
        key,
        mirror.rows(space)[key],
    ) is None by {
        match space {
            Namespace::Identity => {},
            Namespace::Session => {},
            Namespace::Prekey => {},
            Namespace::SignedPrekey => {},
            Namespace::SenderKey => {},
            _ => {},
        }
    }
}

/// The logical key of an address.
pub open spec fn address_key(address: &str) -> Seq<u8> {
    encode_utf8(address@)
}

/// Whether an address belongs to a user: the user's id, then `@` or `:`.
pub open spec fn is_of_user(key: Seq<u8>, user: Seq<u8>) -> bool {
    &&& user.is_prefix_of(key)
    &&& key.len() > user.len()
    &&& key[user.len() as int] == 64 || key[user.len() as int] == 58
}

fn address_matches(key: &[u8], user: &[u8]) -> (r: bool)
    ensures
        r == is_of_user(key@, user@),
{
    let n = user.len();
    if key.len() <= n {
        return false;
    }
    let front = &key[0..n];
    assert(front@ =~= key@.subrange(0, n as int));
    crate::scan::same_bytes(front, user) && (key[n] == 64 || key[n] == 58)
}

fn any_of_user(rows: &Rows<Vec<u8>, Bytes>, user: &str) -> (r: bool)
    requires
        rows.wf(),
    ensures
        r == has_user(contents(*rows), encode_utf8(user@)),
{
    let ghost id = encode_utf8(user@);
    let ghost map = contents(*rows);
    assert(map.dom() =~= rows.map().dom());
    let mut i: usize = 0;
    while i < rows.len()
        invariant
            i <= rows.seq().len(),
            rows.wf(),
            id == encode_utf8(user@),
            map == contents(*rows),
            forall|j: int| 0 <= j < i ==> !is_of_user((#[trigger] rows.seq()[j]).0@, id),
        decreases rows.seq().len() - i,
    {
        if address_matches(rows.key_at(i).as_slice(), user.as_bytes()) {
            proof {
                rows.lemma_row(i as int);
                assert(map.contains_key(rows.seq()[i as int].0@));
            }
            return true;
        }
        i += 1;
    }
    proof {
        assert forall|key: Seq<u8>| #[trigger] map.contains_key(key) implies !is_of_user(
            key,
            id,
        ) by {
            let j = choose|j: int| #[trigger] rows.at(key, j);
            assert(!is_of_user(rows.seq()[j].0@, id));
        }
    }
    false
}

/// Whether some row is of this user.
pub open spec fn has_user(rows: Map<Seq<u8>, Seq<u8>>, user: Seq<u8>) -> bool {
    exists|key: Seq<u8>| #[trigger] rows.contains_key(key) && is_of_user(key, user)
}

/// Whether `n` is the highest id among prekeys, zero where there is none.
pub open spec fn is_max_id(rows: Map<Seq<u8>, Seq<u8>>, n: nat) -> bool {
    &&& forall|key: Seq<u8>| #[trigger] rows.contains_key(key) ==> le_value(key) <= n
    &&& n == 0 || exists|key: Seq<u8>| #[trigger] rows.contains_key(key) && le_value(key) == n
}

impl NvsStore {
    /// Begins to put the identity key of an address.
    pub fn put_identity(&self, address: &str, key: [u8; 32]) -> (r: Result<PendingPut, StoreError>)
        requires
            self.wf(),
        ensures
            self.put_begun(Namespace::Identity, address_key(address), key@, r),
    {
        proof {
            vstd::utf8::encode_utf8_valid_utf8(address@);
        }
        self.begin_put(Namespace::Identity, to_vec(address.as_bytes()), key.as_slice())
    }

    /// The identity key of an address.
    pub fn load_identity(&self, address: &str) -> (r: Option<Bytes>)
        requires
            self.wf(),
        ensures
            r is Some == self.mirror().identities.contains_key(address_key(address)),
            r matches Some(b) ==> content(b) == self.mirror().identities[address_key(address)]
                && content(b).len() == 32,
    {
        proof {
            let key = address_key(address);
            if self.mirror().identities.contains_key(key) {
                assert(self.mirror@.rows(Namespace::Identity).contains_key(key));
            }
        }
        self.mirror.get(Namespace::Identity, address.as_bytes())
    }

    /// Begins to delete the identity key of an address.
    pub fn delete_identity(&self, address: &str) -> (r: Result<PendingDelete, StoreError>)
        requires
            self.wf(),
        ensures
            self.delete_begun(Namespace::Identity, address_key(address), r),
    {
        self.begin_delete(Namespace::Identity, to_vec(address.as_bytes()))
    }

    /// The session of an address.
    pub fn get_session(&self, address: &str) -> (r: Option<Bytes>)
        requires
            self.wf(),
        ensures
            r is Some == self.mirror().sessions.contains_key(address_key(address)),
            r matches Some(b) ==> content(b) == self.mirror().sessions[address_key(address)],
    {
        self.mirror.get(Namespace::Session, address.as_bytes())
    }

    /// Begins to put the session of an address.
    pub fn put_session(&self, address: &str, session: &[u8]) -> (r: Result<PendingPut, StoreError>)
        requires
            self.wf(),
        ensures
            self.put_begun(Namespace::Session, address_key(address), session@, r),
    {
        proof {
            vstd::utf8::encode_utf8_valid_utf8(address@);
        }
        self.begin_put(Namespace::Session, to_vec(address.as_bytes()), session)
    }

    /// Begins to delete the session of an address.
    pub fn delete_session(&self, address: &str) -> (r: Result<PendingDelete, StoreError>)
        requires
            self.wf(),
        ensures
            self.delete_begun(Namespace::Session, address_key(address), r),
    {
        self.begin_delete(Namespace::Session, to_vec(address.as_bytes()))
    }

    /// Whether a session or an identity key of the user is there.
    pub fn has_signal_state_for_user(&self, user: &str) -> (r: bool)
        requires
            self.wf(),
        ensures
            r == (has_user(self.mirror().sessions, encode_utf8(user@)) || has_user(
                self.mirror().identities,
                encode_utf8(user@),
            )),
    {
        any_of_user(self.mirror.rows(Namespace::Session), user) || any_of_user(
            self.mirror.rows(Namespace::Identity),
            user,
        )
    }

    /// Begins to put a prekey.
    pub fn store_prekey(&self, id: u32, record: &[u8]) -> (r: Result<PendingPut, StoreError>)
        requires
            self.wf(),
        ensures
            self.put_begun(Namespace::Prekey, le_bytes(id), record@, r),
    {
        self.begin_put(Namespace::Prekey, id_key(id), record)
    }

    /// A prekey.
    pub fn load_prekey(&self, id: u32) -> (r: Option<Bytes>)
        requires
            self.wf(),
        ensures
            r is Some == self.mirror().prekeys.contains_key(le_bytes(id)),
            r matches Some(b) ==> content(b) == self.mirror().prekeys[le_bytes(id)],
    {
        self.mirror.get(Namespace::Prekey, id_key(id).as_slice())
    }

    /// Begins to remove a prekey.
    pub fn remove_prekey(&self, id: u32) -> (r: Result<PendingDelete, StoreError>)
        requires
            self.wf(),
        ensures
            self.delete_begun(Namespace::Prekey, le_bytes(id), r),
    {
        self.begin_delete(Namespace::Prekey, id_key(id))
    }

    /// The highest id of a prekey, zero where there is none.
    pub fn get_max_prekey_id(&self) -> (r: u32)
        requires
            self.wf(),
        ensures
            is_max_id(self.mirror().prekeys, r as nat),
    {
        let rows = self.mirror.rows(Namespace::Prekey);
        let ghost map = self.mirror().prekeys;
        assert(map == contents(*rows));
        assert(map.dom() =~= rows.map().dom());
        let mut max: u32 = 0;
        let mut i: usize = 0;
        while i < rows.len()
            invariant
                i <= rows.seq().len(),
                rows.wf(),
                map == contents(*rows),
                map == self.mirror@.rows(Namespace::Prekey),
                rows_typed(self.mirror@),
                max == 0 || exists|key: Seq<u8>| #[trigger]
                    map.contains_key(key) && le_value(key) == max,
                forall|j: int| 0 <= j < i ==> le_value((#[trigger] rows.seq()[j]).0@) <= max,
            decreases rows.seq().len() - i,
        {
            let key = rows.key_at(i);
            proof {
                rows.lemma_row(i as int);
                assert(map.contains_key(key@));
                assert(self.mirror@.rows(Namespace::Prekey).contains_key(key@));
            }
            let id = key_id(key.as_slice());
            if id > max {
                max = id;
            }
            i += 1;
        }
        proof {
            assert forall|key: Seq<u8>| #[trigger] map.contains_key(key) implies le_value(key)
                <= max by {
                let j = choose|j: int| #[trigger] rows.at(key, j);
                assert(le_value(rows.seq()[j].0@) <= max);
            }
        }
        max
    }

    /// Begins to put a signed prekey.
    pub fn store_signed_prekey(&self, id: u32, record: &[u8]) -> (r: Result<PendingPut, StoreError>)
        requires
            self.wf(),
        ensures
            self.put_begun(Namespace::SignedPrekey, le_bytes(id), record@, r),
    {
        self.begin_put(Namespace::SignedPrekey, id_key(id), record)
    }

    /// A signed prekey.
    pub fn load_signed_prekey(&self, id: u32) -> (r: Option<Bytes>)
        requires
            self.wf(),
        ensures
            r is Some == self.mirror().signed_prekeys.contains_key(le_bytes(id)),
            r matches Some(b) ==> content(b) == self.mirror().signed_prekeys[le_bytes(id)],
    {
        self.mirror.get(Namespace::SignedPrekey, id_key(id).as_slice())
    }

    /// All signed prekeys with their ids, each once.
    pub fn load_all_signed_prekeys(&self) -> (r: Vec<(u32, Bytes)>)
        requires
            self.wf(),
        ensures
            r@.len() == self.mirror().signed_prekeys.dom().len(),
            forall|i: int|
                0 <= i < r@.len() ==> is_signed_prekey(
                    self.mirror().signed_prekeys,
                    (#[trigger] r@[i]).0,
                    content(r@[i].1),
                ),
            forall|key: Seq<u8>| #[trigger]
                self.mirror().signed_prekeys.contains_key(key) ==> exists|i: int|
                    0 <= i < r@.len() && (#[trigger] r@[i]).0 == le_value(key),
    {
        let rows = self.mirror.rows(Namespace::SignedPrekey);
        let ghost map = self.mirror().signed_prekeys;
        assert(map == contents(*rows));
        assert(map.dom() =~= rows.map().dom());
        let mut out: Vec<(u32, Bytes)> = Vec::new();
        let mut i: usize = 0;
        while i < rows.len()
            invariant
                i <= rows.seq().len(),
                rows.wf(),
                map == contents(*rows),
                map == self.mirror@.rows(Namespace::SignedPrekey),
                rows_typed(self.mirror@),
                out@.len() == i,
                forall|j: int|
                    0 <= j < i ==> (#[trigger] out@[j]).0 == le_value(rows.seq()[j].0@) && content(
                        out@[j].1,
                    ) == content(rows.seq()[j].1),
            decreases rows.seq().len() - i,
        {
            let key = rows.key_at(i);
            proof {
                rows.lemma_row(i as int);
                assert(map.contains_key(key@));
                assert(self.mirror@.rows(Namespace::SignedPrekey).contains_key(key@));
            }
            out.push((key_id(key.as_slice()), rows.value_at(i).clone()));
            i += 1;
        }
        proof {
            rows.lemma_len();
            assert forall|i: int| 0 <= i < out@.len() implies is_signed_prekey(
                map,
                (#[trigger] out@[i]).0,
                content(out@[i].1),
            ) by {
                rows.lemma_row(i);
                assert(map.contains_key(rows.seq()[i].0@));
            }
            assert forall|key: Seq<u8>| #[trigger] map.contains_key(key) implies exists|i: int|
                0 <= i < out@.len() && (#[trigger] out@[i]).0 == le_value(key) by {
                let j = choose|j: int| #[trigger] rows.at(key, j);
                assert(out@[j].0 == le_value(key));
            }
        }
        out
    }

    /// Begins to remove a signed prekey.
    pub fn remove_signed_prekey(&self, id: u32) -> (r: Result<PendingDelete, StoreError>)
        requires
            self.wf(),
        ensures
            self.delete_begun(Namespace::SignedPrekey, le_bytes(id), r),
    {
        self.begin_delete(Namespace::SignedPrekey, id_key(id))
    }

    /// Begins to put the sender key of an address.
    pub fn put_sender_key(&self, address: &str, record: &[u8]) -> (r: Result<
        PendingPut,
        StoreError,
    >)
        requires
            self.wf(),
        ensures
            self.put_begun(Namespace::SenderKey, address_key(address), record@, r),
    {
        proof {
            vstd::utf8::encode_utf8_valid_utf8(address@);
        }
        self.begin_put(Namespace::SenderKey, to_vec(address.as_bytes()), record)
    }

    /// The sender key of an address.
    pub fn get_sender_key(&self, address: &str) -> (r: Option<Bytes>)
        requires
            self.wf(),
        ensures
            r is Some == self.mirror().sender_keys.contains_key(address_key(address)),
            r matches Some(b) ==> content(b) == self.mirror().sender_keys[address_key(address)],
    {
        self.mirror.get(Namespace::SenderKey, address.as_bytes())
    }

    /// Begins to delete the sender key of an address.
    pub fn delete_sender_key(&self, address: &str) -> (r: Result<PendingDelete, StoreError>)
        requires
            self.wf(),
        ensures
            self.delete_begun(Namespace::SenderKey, address_key(address), r),
    {
        self.begin_delete(Namespace::SenderKey, to_vec(address.as_bytes()))
    }

    /// A sync key.
    pub fn get_sync_key(&self, key_id: &[u8]) -> (r: Option<AppStateSyncKey>)
        requires
            self.wf(),
        ensures
            r is Some == self.mirror().sync_keys.contains_key(key_id@),
            r matches Some(key) ==> parsed_sync_key(self.mirror().sync_keys[key_id@]) == Some(key@),
    {
        proof {
            if self.mirror().sync_keys.contains_key(key_id@) {
                assert(self.mirror@.rows(Namespace::SyncKey).contains_key(key_id@));
            }
        }
        match self.mirror.get(Namespace::SyncKey, key_id) {
            Some(payload) => parse_sync_key(content_bytes(&payload)),
            None => None,
        }
    }

    /// Begins to set a sync key.
    pub fn set_sync_key(&self, key_id: &[u8], key: &AppStateSyncKey) -> (r: Result<
        PendingSyncKey,
        StoreError,
    >)
        requires
            self.wf(),
        ensures
            match self.put_refusal(Namespace::SyncKey, key_id@) {
                Some(fault) => r matches Err(e) && e@ == fault,
                None => match sync_key_payload(key@) {
                    None => r matches Err(e) && e@ == StoreFault::InvalidSyncKey,
                    Some(payload) => if key_id@.len() > 512 {
                        r matches Err(e) && e@ == StoreFault::SyncKeyIdTooLong(key_id@.len())
                    } else {
                        r matches Ok(pending) && pending.marker() == latest_marker(key_id@)
                            && pending.put().wf() && pending.put().space() == Namespace::SyncKey
                            && pending.put().key() == key_id@ && pending.put().value() == payload
                            && parsed_sync_key(payload) == Some(key@)
                    },
                },
            },
    {
        if !self.accepting_writes {
            return Err(StoreError::Sealed);
        }
        let exists_already = self.mirror.rows(Namespace::SyncKey).contains(key_id);
        proof {
            assert(self.mirror().rows(Namespace::SyncKey).contains_key(key_id@) == exists_already);
        }
        if !exists_already && self.mirror.count(Namespace::SyncKey)
            >= Namespace::SyncKey.max_entries() {
            return Err(StoreError::LimitReached(Namespace::SyncKey));
        }
        match write_sync_key(key) {
            None => Err(StoreError::InvalidSyncKey),
            Some(payload) => {
                if key_id.len() > MAX_LOGICAL_KEY_LEN {
                    return Err(StoreError::SyncKeyIdTooLong(key_id.len()));
                }
                proof {
                    reveal_strlit("latestsync");
                    vstd::utf8::is_ascii_chars_encode_utf8("latestsync"@);
                }
                match encode_record("latestsync".as_bytes(), key_id) {
                    Err(e) => Err(e),
                    Ok(record) => {
                        let marker = FlashAction::Write {
                            space: Namespace::Control,
                            name: "latestsync".to_owned(),
                            record,
                        };
                        match self.begin_put(
                            Namespace::SyncKey,
                            to_vec(key_id),
                            payload.as_slice(),
                        ) {
                            Err(e) => Err(e),
                            Ok(put) => Ok(PendingSyncKey { marker, put }),
                        }
                    },
                }
            },
        }
    }

    /// Puts a sync key into the mirror, and names it as the latest, once both
    /// records are written.
    pub fn finish_set_sync_key(&mut self, put: ReadyPut)
        requires
            old(self).wf(),
            put.wf(),
            put.space() == Namespace::SyncKey,
        ensures
            final(self).wf(),
            final(self).mirror() == (MirrorView {
                sync_keys: old(self).mirror().sync_keys.insert(put.key(), put.value()),
                latest_sync_key_id: Some(put.key()),
                ..old(self).mirror()
            }),
            final(self).cached() == old(self).cached(),
            final(self).counter() == old(self).counter(),
            final(self).accepting() == old(self).accepting(),
    {
        let id = put.key.clone();
        self.finish_put(put);
        let ghost mid = self.mirror@;
        self.mirror.set_latest_sync_key_id(id);
        assert forall|space: Namespace, key: Seq<u8>|
            space.is_keyed() && #[trigger] self.mirror@.rows(space).contains_key(key) implies row_fault(
            space,
            key,
            self.mirror@.rows(space)[key],
        ) is None by {
            assert(mid.rows(space).contains_key(key));
        }
    }

    /// The id of the latest sync key.
    pub fn get_latest_sync_key_id(&self) -> (r: Option<&Vec<u8>>)
        ensures
            r is Some == self.mirror().latest_sync_key_id is Some,
            r matches Some(id) ==> self.mirror().latest_sync_key_id == Some(id@),
    {
        self.mirror.latest_sync_key_id()
    }

    /// Begins to save the device: the write to make in flash.
    pub fn begin_save(&self, payload: &[u8]) -> (r: Result<FlashAction, StoreError>)
        ensures
            !self.accepting() ==> (r matches Err(e) && e@ == StoreFault::Sealed),
            self.accepting() && payload@.len() > 65536 ==> (r matches Err(e) && e@ == (
            StoreFault::RecordTooLarge { space: Namespace::Device, len: payload@.len() })),
            self.accepting() && payload@.len() <= 65536 ==> (r matches Ok(action)
                && action@ == (Change::Write {
                space: Namespace::Device,
                name: "current"@,
                record: record_of(device_key(), payload@),
            })),
    {
        if !self.accepting_writes {
            return Err(StoreError::Sealed);
        }
        if payload.len() > MAX_DEVICE_LEN {
            return Err(
                StoreError::RecordTooLarge { space: Namespace::Device, len: payload.len() },
            );
        }
        proof {
            reveal_strlit("device");
            vstd::utf8::is_ascii_chars_encode_utf8("device"@);
        }
        match encode_record("device".as_bytes(), payload) {
            Err(e) => Err(e),
            Ok(record) => Ok(
                FlashAction::Write {
                    space: Namespace::Device,
                    name: "current".to_owned(),
                    record,
                },
            ),
        }
    }

    /// Saves the device in the mirror, once it is written to flash.
    pub fn save(&mut self, payload: Vec<u8>)
        requires
            old(self).wf(),
        ensures
            final(self).wf(),
            final(self).mirror() == (MirrorView { device: Some(payload@), ..old(self).mirror() }),
            final(self).cached() == old(self).cached(),
            final(self).counter() == old(self).counter(),
            final(self).accepting() == old(self).accepting(),
    {
        let ghost before = self.mirror@;
        self.mirror.set_device(payload);
        assert forall|space: Namespace, key: Seq<u8>|
            space.is_keyed() && #[trigger] self.mirror@.rows(space).contains_key(key) implies row_fault(
            space,
            key,
            self.mirror@.rows(space)[key],
        ) is None by {
            assert(before.rows(space).contains_key(key));
        }
    }

    /// The device's payload.
    pub fn load(&self) -> (r: Option<&Vec<u8>>)
        ensures
            r is Some == self.mirror().device is Some,
            r matches Some(payload) ==> self.mirror().device == Some(payload@),
    {
        self.mirror.device()
    }

    /// Whether a device is linked.
    pub fn device_exists(&self) -> (r: bool)
        ensures
            r == self.mirror().device is Some,
    {
        self.mirror.device().is_some()
    }

    /// How many devices were created.
    pub fn created(&self) -> (r: i32)
        ensures
            r == self.counter(),
    {
        self.device_id_counter
    }

    /// Counts one more device.
    pub fn create(&mut self) -> (r: Result<i32, StoreError>)
        requires
            old(self).wf(),
            old(self).counter() < i32::MAX,
        ensures
            final(self).wf(),
            final(self).mirror() == old(self).mirror(),
            final(self).cached() == old(self).cached(),
            final(self).accepting() == old(self).accepting(),
            !old(self).accepting() ==> final(self).counter() == old(self).counter() && (r matches Err(
                e,
            ) && e@ == StoreFault::Sealed),
            old(self).accepting() ==> final(self).counter() == old(self).counter() + 1 && (
            r matches Ok(n) && n == final(self).counter()),
    {
        if !self.accepting_writes {
            return Err(StoreError::Sealed);
        }
        self.device_id_counter = self.device_id_counter + 1;
        Ok(self.device_id_counter)
    }
}

/// Whether `id` and `value` are a signed prekey of these.
pub open spec fn is_signed_prekey(rows: Map<Seq<u8>, Seq<u8>>, id: u32, value: Seq<u8>) -> bool {
    exists|key: Seq<u8>| #[trigger]
        rows.contains_key(key) && le_value(key) == id && rows[key] == value
}

/// A put is refused before flash is looked at only where the store is sealed, or where
/// the key is new and its kind is full: 2048 identity keys, sessions or sender keys,
/// 256 prekeys or sync keys, 16 signed prekeys.
pub proof fn puts_are_refused_only_for_want_of_room(
    store: NvsStore,
    space: Namespace,
    key: Seq<u8>,
    value: Seq<u8>,
    r: Result<PendingPut, StoreError>,
)
    requires
        space.is_keyed(),
        store.put_begun(space, key, value, r),
    ensures
        ({
            let (rows, most) = match space {
                Namespace::Identity => (store.mirror().identities, 2048nat),
                Namespace::Session => (store.mirror().sessions, 2048nat),
                Namespace::Prekey => (store.mirror().prekeys, 256nat),
                Namespace::SignedPrekey => (store.mirror().signed_prekeys, 16nat),
                Namespace::SenderKey => (store.mirror().sender_keys, 2048nat),
                _ => (store.mirror().sync_keys, 256nat),
            };
            let full = !rows.contains_key(key) && rows.dom().len() >= most;
            &&& !store.accepting() ==> (r matches Err(e) && e@ == StoreFault::Sealed)
            &&& store.accepting() && full ==> (r matches Err(e) && e@ == StoreFault::LimitReached(
                space,
            ))
            &&& store.accepting() && !full ==> (r matches Ok(put) && put.space() == space
                && put.key() == key && put.value() == value)
        }),
{
}

/// A sync key is refused for the same reasons as any other row.
pub proof fn sync_keys_are_refused_only_for_want_of_room(store: NvsStore, id: Seq<u8>)
    ensures
        ({
            let keys = store.mirror().sync_keys;
            let full = !keys.contains_key(id) && keys.dom().len() >= 256;
            store.put_refusal(Namespace::SyncKey, id) == if !store.accepting() {
                Some(StoreFault::Sealed)
            } else if full {
                Some(StoreFault::LimitReached(Namespace::SyncKey))
            } else {
                None
            }
        }),
{
}

/// A removal is refused only by a sealed store.
pub proof fn removals_are_refused_only_when_sealed(
    store: NvsStore,
    space: Namespace,
    key: Seq<u8>,
    r: Result<PendingDelete, StoreError>,
)
    requires
        store.delete_begun(space, key, r),
    ensures
        !store.accepting() ==> (r matches Err(e) && e@ == StoreFault::Sealed),
        store.accepting() ==> (r matches Ok(pending) && pending.space() == space && pending.key()
            == key),
{
}

/// Prekeys are named by their id in four bytes, the lowest first, and no two ids alike.
pub proof fn prekeys_are_named_by_their_id(id: u32, other: u32)
    ensures
        le_bytes(id).len() == 4,
        le_bytes(id)[0] + 256 * le_bytes(id)[1] + 65536 * le_bytes(id)[2] + 16777216
            * le_bytes(id)[3] == id,
        le_value(le_bytes(id)) == id,
        le_bytes(id) == le_bytes(other) ==> id == other,
{
    id_is_read_back(id);
    id_is_read_back(other);
}

proof fn lemma_le_digits(n: u32, a: u8, b: u8, c: u8, d: u8)
    requires
        n == a + 256 * b + 65536 * c + 16777216 * d,
    ensures
        n % 256 == a,
        n / 256 % 256 == b,
        n / 65536 % 256 == c,
        n / 16777216 == d,
{
    let low: u32 = (a + 256 * b) as u32;
    let mid: u32 = (a + 256 * b + 65536 * c) as u32;
    assert(n % 256 == a as u32 && n / 256 % 256 == b as u32 && n / 65536 % 256 == c as u32 && n
        / 16777216 == d as u32) by (bit_vector)
        requires
            low == (a as u32) + 256 * (b as u32),
            mid == low + 65536 * (c as u32),
            n == mid + 16777216 * (d as u32),
    ;
}

/// The addresses of a user are the user's id with `@` or `:` and anything after it: not
/// those of a user whose id only begins alike.
pub proof fn addresses_belong_to_their_user(user: Seq<u8>, mark: u8, rest: Seq<u8>, key: Seq<u8>)
    ensures
        mark == 0x40 || mark == 0x3a ==> is_of_user(user + seq![mark] + rest, user),
        mark != 0x40 && mark != 0x3a ==> !is_of_user(user + seq![mark] + rest, user),
        !is_of_user(user, user),
        is_of_user(key, user) ==> key.len() > user.len() && key.take(user.len() as int) == user,
{
    let address = user + seq![mark] + rest;
    assert(user =~= address.subrange(0, user.len() as int));
    assert(address[user.len() as int] == mark);
    if is_of_user(key, user) {
        assert(key.take(user.len() as int) =~= user);
    }
}

/// A user has Signal state where some address of theirs has a row.
pub proof fn any_address_counts(rows: Map<Seq<u8>, Seq<u8>>, user: Seq<u8>, rest: Seq<u8>)
    ensures
        rows.contains_key(user + seq![0x40u8] + rest) || rows.contains_key(
            user + seq![0x3au8] + rest,
        ) ==> has_user(rows, user),
        has_user(rows, user) ==> exists|key: Seq<u8>|
            {
                &&& #[trigger] rows.contains_key(key)
                &&& key.len() > user.len()
                &&& key.take(user.len() as int) == user
                &&& key[user.len() as int] == 0x40 || key[user.len() as int] == 0x3a
            },
{
    addresses_belong_to_their_user(user, 0x40, rest, user);
    addresses_belong_to_their_user(user, 0x3a, rest, user);
    if has_user(rows, user) {
        let key = choose|key: Seq<u8>| #[trigger] rows.contains_key(key) && is_of_user(key, user);
        addresses_belong_to_their_user(user, 0x40, rest, key);
        assert(rows.contains_key(key));
    }
}

/// The highest prekey id is the id of a prekey that is there, and no id is higher.
pub proof fn highest_prekey_is_there(rows: Map<Seq<u8>, Seq<u8>>, n: u32, id: u32)
    requires
        is_max_id(rows, n as nat),
        forall|key: Seq<u8>| #[trigger] rows.contains_key(key) ==> key.len() == 4,
    ensures
        rows.contains_key(le_bytes(id)) ==> id <= n,
        n != 0 ==> rows.contains_key(le_bytes(n)),
{
    if rows.contains_key(le_bytes(id)) {
        id_is_read_back(id);
    }
    if n != 0 {
        let key = choose|key: Seq<u8>| #[trigger] rows.contains_key(key) && le_value(key) == n;
        lemma_le_digits(n, key[0], key[1], key[2], key[3]);
        assert(key =~= le_bytes(n));
    }
}

/// Saving the device writes it whole, under its fixed name and key.
pub proof fn device_record_is_the_device(payload: Seq<u8>)
    ensures
        record_of(device_key(), payload) == record_bytes(encode_utf8("device"@), payload),
        device_key() == encode_utf8("device"@),
{
    reveal_strlit("device");
    vstd::utf8::is_ascii_chars_encode_utf8("device"@);
    records_lie_as_they_are_read(encode_utf8("device"@), payload);
}

/// An address is named by its text in UTF-8, so no two addresses alike.
pub proof fn addresses_are_named_by_their_text(address: &str, other: &str)
    ensures
        address_key(address) == encode_utf8(address@),
        address_key(address) == address_key(other) ==> address@ == other@,
{
    vstd::utf8::encode_utf8_decode_utf8(address@);
    vstd::utf8::encode_utf8_decode_utf8(other@);
}

/// A signed prekey that is listed is the one under its id.
pub proof fn signed_prekeys_lie_under_their_id(
    rows: Map<Seq<u8>, Seq<u8>>,
    id: u32,
    value: Seq<u8>,
)
    requires
        forall|key: Seq<u8>| #[trigger] rows.contains_key(key) ==> key.len() == 4,
    ensures
        is_signed_prekey(rows, id, value) <==> rows.contains_key(le_bytes(id)) && rows[le_bytes(id)]
            == value,
{
    id_is_read_back(id);
    if is_signed_prekey(rows, id, value) {
        let key = choose|key: Seq<u8>| #[trigger]
            rows.contains_key(key) && le_value(key) == id && rows[key] == value;
        lemma_le_digits(id, key[0], key[1], key[2], key[3]);
        assert(key =~= le_bytes(id));
    }
}

/// The store lies in a partition of this name.
pub proof fn the_partition_has_its_name()
    ensures
        DEFAULT_PARTITION_NAME@ == "wa_store"@,
{
}

} // verus!
