//! What the protocol can rebuild and is kept in memory only: app-state hash
//! versions and MACs, sender-key devices, LID mappings, base keys, device lists,
//! trusted-contact tokens, sent messages, message secrets.

use crate::rows::{retained, RowKey, Rows};
use crate::scan::{same_bytes, to_vec};
use vstd::prelude::*;
use whatsapp_rust::wacore::appstate::hash::HashState;
use whatsapp_rust::wacore::store::traits::DeviceListRecord;

verus! {

#[verifier::external_type_specification]
#[verifier::external_body]
pub struct ExHashState(whatsapp_rust::wacore::appstate::hash::HashState);

#[verifier::external_type_specification]
#[verifier::external_body]
pub struct ExDeviceListRecord(whatsapp_rust::wacore::store::traits::DeviceListRecord);

/// Trusted: `merge_msg_secret_expiry` keeps the later of two deadlines, where zero
/// means never.
pub assume_specification[ whatsapp_rust::wacore::store::traits::merge_msg_secret_expiry ](
    existing: i64,
    incoming: i64,
) -> (r: i64)
    ensures
        r == merged_expiry(existing, incoming),
;

/// Trusted: `merge_msg_secret_message_ts` keeps the later of two times.
pub assume_specification[ whatsapp_rust::wacore::store::traits::merge_msg_secret_message_ts ](
    existing: i64,
    incoming: i64,
) -> (r: i64)
    ensures
        r == if existing < incoming { incoming } else { existing },
;

/// The deadline that is kept of two: never, which is written as zero, or the
/// later.
pub open spec fn merged_expiry(existing: i64, incoming: i64) -> i64 {
    if existing == 0 || incoming == 0 {
        0
    } else if existing < incoming {
        incoming
    } else {
        existing
    }
}

/// A mapping between a LID and a phone number.
#[derive(Debug)]
pub struct LidPnMappingEntry {
    pub lid: String,
    pub phone_number: String,
    pub created_at: i64,
    pub updated_at: i64,
    pub learning_source: String,
}

/// A mapping between a LID and a phone number, as a value.
pub struct LidMapping {
    pub lid: Seq<char>,
    pub phone_number: Seq<char>,
    pub created_at: i64,
    pub updated_at: i64,
    pub learning_source: Seq<char>,
}

impl View for LidPnMappingEntry {
    type V = LidMapping;

    open spec fn view(&self) -> LidMapping {
        LidMapping {
            lid: self.lid@,
            phone_number: self.phone_number@,
            created_at: self.created_at,
            updated_at: self.updated_at,
            learning_source: self.learning_source@,
        }
    }
}

/// A trusted-contact token: the one received, and when this side last issued one.
#[derive(Debug)]
pub struct TcTokenEntry {
    pub token: Vec<u8>,
    pub token_timestamp: i64,
    pub sender_timestamp: Option<i64>,
}

/// A trusted-contact token as a value.
pub struct TcToken {
    pub token: Seq<u8>,
    pub token_timestamp: i64,
    pub sender_timestamp: Option<i64>,
}

impl View for TcTokenEntry {
    type V = TcToken;

    open spec fn view(&self) -> TcToken {
        TcToken {
            token: self.token@,
            token_timestamp: self.token_timestamp,
            sender_timestamp: self.sender_timestamp,
        }
    }
}

/// What a message secret is found by.
#[derive(Debug)]
pub struct MsgSecretKey {
    pub chat: String,
    pub sender: String,
    pub msg_id: String,
}

impl RowKey for MsgSecretKey {
    type Query = MsgSecretKey;

    type Id = (Seq<char>, Seq<char>, Seq<char>);

    open spec fn id(&self) -> (Seq<char>, Seq<char>, Seq<char>) {
        (self.chat@, self.sender@, self.msg_id@)
    }

    open spec fn asked(query: &MsgSecretKey) -> (Seq<char>, Seq<char>, Seq<char>) {
        query.id()
    }

    fn is(&self, query: &MsgSecretKey) -> (r: bool) {
        self.chat == query.chat && self.sender == query.sender && self.msg_id == query.msg_id
    }

    fn same(&self, other: &MsgSecretKey) -> (r: bool) {
        self.chat == other.chat && self.sender == other.sender && self.msg_id == other.msg_id
    }
}

/// The secret of a message, when it expires (zero: never), and the time of its
/// message.
pub struct MsgSecretValue {
    pub secret: [u8; 32],
    pub expires_at: i64,
    pub message_ts: i64,
}

/// The secret of a message as a value.
pub struct MsgSecret {
    pub secret: Seq<u8>,
    pub expires_at: i64,
    pub message_ts: i64,
}

impl View for MsgSecretValue {
    type V = MsgSecret;

    open spec fn view(&self) -> MsgSecret {
        MsgSecret {
            secret: self.secret@,
            expires_at: self.expires_at,
            message_ts: self.message_ts,
        }
    }
}

/// A message secret to keep.
pub struct MsgSecretEntry {
    pub key: MsgSecretKey,
    pub value: MsgSecretValue,
}

/// The MAC of a mutation, and the index it goes by.
#[derive(Debug)]
pub struct AppStateMutationMAC {
    pub index_mac: Vec<u8>,
    pub value_mac: Vec<u8>,
}

/// MACs by index, with those of `mutations` put over them in order.
pub open spec fn macs_with(
    macs: Map<Seq<u8>, Seq<u8>>,
    mutations: Seq<AppStateMutationMAC>,
) -> Map<Seq<u8>, Seq<u8>>
    decreases mutations.len(),
{
    if mutations.len() == 0 {
        macs
    } else {
        macs_with(macs, mutations.drop_last()).insert(
            mutations.last().index_mac@,
            mutations.last().value_mac@,
        )
    }
}

/// MACs by index, without those that `gone` names.
pub open spec fn macs_without(macs: Map<Seq<u8>, Seq<u8>>, gone: Seq<Vec<u8>>) -> Map<
    Seq<u8>,
    Seq<u8>,
>
    decreases gone.len(),
{
    if gone.len() == 0 {
        macs
    } else {
        macs_without(macs, gone.drop_last()).remove(gone.last()@)
    }
}

/// Where a device first stands at or after `from`, or the end.
pub open spec fn device_at(devices: Seq<(Seq<char>, bool)>, jid: Seq<char>, from: int) -> int
    decreases devices.len() - from,
{
    if from >= devices.len() {
        devices.len() as int
    } else if devices[from].0 == jid {
        from
    } else {
        device_at(devices, jid, from + 1)
    }
}

/// Devices with the status of one of them set; it comes last if it was not there.
pub open spec fn with_status(devices: Seq<(Seq<char>, bool)>, jid: Seq<char>, status: bool) -> Seq<
    (Seq<char>, bool),
> {
    let i = device_at(devices, jid, 0);
    if i < devices.len() {
        devices.update(i, (jid, status))
    } else {
        devices.push((jid, status))
    }
}

/// Devices with the statuses of `entries` set in order.
pub open spec fn with_statuses(
    devices: Seq<(Seq<char>, bool)>,
    entries: Seq<(Seq<char>, bool)>,
) -> Seq<(Seq<char>, bool)>
    decreases entries.len(),
{
    if entries.len() == 0 {
        devices
    } else {
        with_status(
            with_statuses(devices, entries.drop_last()),
            entries.last().0,
            entries.last().1,
        )
    }
}

/// Whether `jid` is one of `jids`.
pub open spec fn names_jid(jids: Seq<String>, jid: Seq<char>) -> bool {
    exists|i: int| 0 <= i < jids.len() && (#[trigger] jids[i])@ == jid
}

/// Devices without those that `jids` names.
pub open spec fn without_devices(devices: Seq<(Seq<char>, bool)>, jids: Seq<String>) -> Seq<
    (Seq<char>, bool),
>
    decreases devices.len(),
{
    if devices.len() == 0 {
        devices
    } else {
        let before = without_devices(devices.drop_last(), jids);
        if names_jid(jids, devices.last().0) {
            before
        } else {
            before.push(devices.last())
        }
    }
}

/// The key that base keys and sent messages go by.
pub open spec fn composed(a: Seq<char>, b: Seq<char>) -> Seq<char> {
    a + ":"@ + b
}

/// The key that base keys and sent messages go by. The writer and the reader have
/// to form it identically.
pub fn composite_key(a: &str, b: &str) -> (r: String)
    ensures
        r@ == composed(a@, b@),
{
    let mut key = a.to_owned();
    key.append(":");
    key.append(b);
    key
}

/// The value that a map has for a key, if any.
pub open spec fn lookup<I, V>(map: Map<I, V>, id: I) -> Option<V> {
    if map.contains_key(id) {
        Some(map[id])
    } else {
        None
    }
}

/// Whether some key of a map has this value.
pub open spec fn has_value<I, V>(map: Map<I, V>, value: V) -> bool {
    exists|id: I| #[trigger] map.contains_key(id) && map[id] == value
}

/// The caches as a value.
pub struct CachesView {
    pub versions: Map<Seq<char>, HashState>,
    pub mutation_macs: Map<Seq<char>, Map<Seq<u8>, Seq<u8>>>,
    pub sender_key_devices: Map<Seq<char>, Seq<(Seq<char>, bool)>>,
    pub lid_mappings: Map<Seq<char>, LidMapping>,
    pub pn_mappings: Map<Seq<char>, Seq<char>>,
    pub base_keys: Map<Seq<char>, Seq<u8>>,
    pub device_lists: Map<Seq<char>, DeviceListRecord>,
    pub tc_tokens: Map<Seq<char>, TcToken>,
    pub sent_messages: Map<Seq<char>, (Seq<u8>, i64)>,
    pub msg_secrets: Map<(Seq<char>, Seq<char>, Seq<char>), MsgSecret>,
}

impl CachesView {
    /// Empty caches.
    pub open spec fn none() -> CachesView {
        CachesView {
            versions: Map::empty(),
            mutation_macs: Map::empty(),
            sender_key_devices: Map::empty(),
            lid_mappings: Map::empty(),
            pn_mappings: Map::empty(),
            base_keys: Map::empty(),
            device_lists: Map::empty(),
            tc_tokens: Map::empty(),
            sent_messages: Map::empty(),
            msg_secrets: Map::empty(),
        }
    }
}

/// The devices of a group and whether each has the sender key.
pub open spec fn device_views(devices: Seq<(String, bool)>) -> Seq<(Seq<char>, bool)> {
    devices.map_values(|d: (String, bool)| (d.0@, d.1))
}

/// The caches.
pub struct Caches {
    versions: Rows<String, HashState>,
    mutation_macs: Rows<String, Rows<Vec<u8>, Vec<u8>>>,
    sender_key_devices: Rows<String, Vec<(String, bool)>>,
    lid_mappings: Rows<String, LidPnMappingEntry>,
    pn_mappings: Rows<String, String>,
    base_keys: Rows<String, Vec<u8>>,
    device_lists: Rows<String, DeviceListRecord>,
    tc_tokens: Rows<String, TcTokenEntry>,
    sent_messages: Rows<String, (Vec<u8>, i64)>,
    msg_secrets: Rows<MsgSecretKey, MsgSecretValue>,
}

/// The MACs of a collection by index.
pub open spec fn macs_of(rows: Rows<Vec<u8>, Vec<u8>>) -> Map<Seq<u8>, Seq<u8>> {
    rows.map().map_values(|v: Vec<u8>| v@)
}

impl View for Caches {
    type V = CachesView;

    closed spec fn view(&self) -> CachesView {
        CachesView {
            versions: self.versions.map(),
            mutation_macs: self.mutation_macs.map().map_values(
                |rows: Rows<Vec<u8>, Vec<u8>>| macs_of(rows),
            ),
            sender_key_devices: self.sender_key_devices.map().map_values(
                |devices: Vec<(String, bool)>| device_views(devices@),
            ),
            lid_mappings: self.lid_mappings.map().map_values(|e: LidPnMappingEntry| e@),
            pn_mappings: self.pn_mappings.map().map_values(|s: String| s@),
            base_keys: self.base_keys.map().map_values(|v: Vec<u8>| v@),
            device_lists: self.device_lists.map(),
            tc_tokens: self.tc_tokens.map().map_values(|e: TcTokenEntry| e@),
            sent_messages: self.sent_messages.map().map_values(|m: (Vec<u8>, i64)| (m.0@, m.1)),
            msg_secrets: self.msg_secrets.map().map_values(|v: MsgSecretValue| v@),
        }
    }
}

impl Caches {
    /// No key occurs twice in any table.
    pub closed spec fn wf(&self) -> bool {
        &&& self.versions.wf()
        &&& self.mutation_macs.wf()
        &&& forall|name: Seq<char>| #[trigger]
            self.mutation_macs.map().contains_key(name) ==> self.mutation_macs.map()[name].wf()
        &&& self.sender_key_devices.wf()
        &&& self.lid_mappings.wf()
        &&& self.pn_mappings.wf()
        &&& self.base_keys.wf()
        &&& self.device_lists.wf()
        &&& self.tc_tokens.wf()
        &&& self.sent_messages.wf()
        &&& self.msg_secrets.wf()
    }

    /// Empty caches.
    pub fn new() -> (r: Caches)
        ensures
            r.wf(),
            r@ == CachesView::none(),
    {
        let r = Caches {
            versions: Rows::new(),
            mutation_macs: Rows::new(),
            sender_key_devices: Rows::new(),
            lid_mappings: Rows::new(),
            pn_mappings: Rows::new(),
            base_keys: Rows::new(),
            device_lists: Rows::new(),
            tc_tokens: Rows::new(),
            sent_messages: Rows::new(),
            msg_secrets: Rows::new(),
        };
        proof {
            assert(r@.mutation_macs =~= Map::empty());
            assert(r@.sender_key_devices =~= Map::empty());
            assert(r@.lid_mappings =~= Map::empty());
            assert(r@.pn_mappings =~= Map::empty());
            assert(r@.base_keys =~= Map::empty());
            assert(r@.tc_tokens =~= Map::empty());
            assert(r@.sent_messages =~= Map::empty());
            assert(r@.msg_secrets =~= Map::empty());
        }
        r
    }

    /// The hash state of a collection.
    pub fn get_version(&self, name: &str) -> (r: Option<&HashState>)
        requires
            self.wf(),
        ensures
            r is Some == self@.versions.contains_key(name@),
            r matches Some(state) ==> *state == self@.versions[name@],
    {
        self.versions.get(name)
    }

    /// Replaces the hash state of a collection.
    pub fn set_version(&mut self, name: &str, state: HashState)
        requires
            old(self).wf(),
        ensures
            final(self).wf(),
            final(self)@ == (CachesView {
                versions: old(self)@.versions.insert(name@, state),
                ..old(self)@
            }),
    {
        self.versions.insert(name.to_owned(), state);
    }

    /// Forgets the hash state of a collection.
    pub fn delete_version(&mut self, name: &str)
        requires
            old(self).wf(),
        ensures
            final(self).wf(),
            final(self)@ == (CachesView {
                versions: old(self)@.versions.remove(name@),
                ..old(self)@
            }),
    {
        self.versions.remove(name);
    }

    /// Puts the MACs of mutations, in order.
    pub fn put_mutation_macs(&mut self, name: &str, mutations: &Vec<AppStateMutationMAC>)
        requires
            old(self).wf(),
        ensures
            final(self).wf(),
            final(self)@ == (CachesView {
                mutation_macs: old(self)@.mutation_macs.insert(
                    name@,
                    macs_with(
                        match lookup(old(self)@.mutation_macs, name@) {
                            Some(macs) => macs,
                            None => Map::empty(),
                        },
                        mutations@,
                    ),
                ),
                ..old(self)@
            }),
    {
        let mut macs: Rows<Vec<u8>, Vec<u8>> = match self.mutation_macs.remove(name) {
            Some(macs) => macs,
            None => Rows::new(),
        };
        let ghost first = macs_of(macs);
        assert(first =~= match lookup(old(self)@.mutation_macs, name@) {
            Some(macs) => macs,
            None => Map::empty(),
        });
        let mut i: usize = 0;
        assert(mutations@.take(0) =~= Seq::empty());
        while i < mutations.len()
            invariant
                i <= mutations@.len(),
                macs.wf(),
                macs_of(macs) == macs_with(first, mutations@.take(i as int)),
            decreases mutations@.len() - i,
        {
            let ghost before = macs;
            assert(mutations@.take(i + 1).drop_last() =~= mutations@.take(i as int));
            macs.insert(mutations[i].index_mac.clone(), mutations[i].value_mac.clone());
            assert(macs_of(macs) =~= macs_of(before).insert(
                mutations@[i as int].index_mac@,
                mutations@[i as int].value_mac@,
            ));
            i += 1;
        }
        assert(mutations@.take(i as int) =~= mutations@);
        let ghost done = macs_of(macs);
        self.mutation_macs.insert(name.to_owned(), macs);
        assert(self@.mutation_macs =~= old(self)@.mutation_macs.insert(name@, done));
    }

    /// The MAC at an index of a collection.
    pub fn get_mutation_mac(&self, name: &str, index_mac: &[u8]) -> (r: Option<Vec<u8>>)
        requires
            self.wf(),
        ensures
            r is Some == (self@.mutation_macs.contains_key(name@)
                && self@.mutation_macs[name@].contains_key(index_mac@)),
            r matches Some(mac) ==> mac@ == self@.mutation_macs[name@][index_mac@],
    {
        match self.mutation_macs.get(name) {
            Some(macs) => match macs.get(index_mac) {
                Some(mac) => Some(mac.clone()),
                None => None,
            },
            None => None,
        }
    }

    /// Forgets the MACs at some indices of a collection.
    pub fn delete_mutation_macs(&mut self, name: &str, index_macs: &Vec<Vec<u8>>)
        requires
            old(self).wf(),
        ensures
            final(self).wf(),
            final(self)@ == (CachesView {
                mutation_macs: match lookup(old(self)@.mutation_macs, name@) {
                    Some(macs) => old(self)@.mutation_macs.insert(
                        name@,
                        macs_without(macs, index_macs@),
                    ),
                    None => old(self)@.mutation_macs,
                },
                ..old(self)@
            }),
    {
        let ghost all = self.mutation_macs.map();
        if let Some(macs) = self.mutation_macs.get_mut(name) {
            let ghost first = macs_of(*macs);
            let mut i: usize = 0;
            assert(index_macs@.take(0) =~= Seq::empty());
            while i < index_macs.len()
                invariant
                    i <= index_macs@.len(),
                    macs.wf(),
                    macs_of(*macs) == macs_without(first, index_macs@.take(i as int)),
                decreases index_macs@.len() - i,
            {
                let ghost before = *macs;
                assert(index_macs@.take(i + 1).drop_last() =~= index_macs@.take(i as int));
                macs.remove(index_macs[i].as_slice());
                assert(macs_of(*macs) =~= macs_of(before).remove(index_macs@[i as int]@));
                i += 1;
            }
            assert(index_macs@.take(i as int) =~= index_macs@);
        }
        proof {
            if let Some(macs) = lookup(old(self)@.mutation_macs, name@) {
                assert(self@.mutation_macs =~= old(self)@.mutation_macs.insert(
                    name@,
                    macs_without(macs, index_macs@),
                ));
            }
        }
    }

    /// Forgets the MACs of a collection.
    pub fn clear_mutation_macs(&mut self, name: &str)
        requires
            old(self).wf(),
        ensures
            final(self).wf(),
            final(self)@ == (CachesView {
                mutation_macs: old(self)@.mutation_macs.remove(name@),
                ..old(self)@
            }),
    {
        self.mutation_macs.remove(name);
        assert(self@.mutation_macs =~= old(self)@.mutation_macs.remove(name@));
    }

    /// The devices of a group and whether each has the sender key.
    pub fn get_sender_key_devices(&self, group_jid: &str) -> (r: Vec<(String, bool)>)
        requires
            self.wf(),
        ensures
            device_views(r@) == match lookup(self@.sender_key_devices, group_jid@) {
                Some(devices) => devices,
                None => Seq::empty(),
            },
    {
        let mut out: Vec<(String, bool)> = Vec::new();
        assert(device_views(out@) =~= Seq::empty());
        if let Some(devices) = self.sender_key_devices.get(group_jid) {
            let mut i: usize = 0;
            while i < devices.len()
                invariant
                    i <= devices@.len(),
                    device_views(out@) == device_views(devices@).take(i as int),
                decreases devices@.len() - i,
            {
                let ghost before = out@;
                out.push((devices[i].0.clone(), devices[i].1));
                i += 1;
                assert(device_views(out@) =~= device_views(before).push(
                    (devices@[i - 1].0@, devices@[i - 1].1),
                ));
                assert(device_views(devices@).take(i as int) =~= device_views(devices@).take(
                    i - 1,
                ).push((devices@[i - 1].0@, devices@[i - 1].1)));
            }
            assert(device_views(devices@).take(i as int) =~= device_views(devices@));
        }
        out
    }

    /// Sets whether devices of a group have the sender key, in order.
    pub fn set_sender_key_status(&mut self, group_jid: &str, entries: &Vec<(String, bool)>)
        requires
            old(self).wf(),
        ensures
            final(self).wf(),
            final(self)@ == (CachesView {
                sender_key_devices: old(self)@.sender_key_devices.insert(
                    group_jid@,
                    with_statuses(
                        match lookup(old(self)@.sender_key_devices, group_jid@) {
                            Some(devices) => devices,
                            None => Seq::empty(),
                        },
                        device_views(entries@),
                    ),
                ),
                ..old(self)@
            }),
    {
        let mut devices: Vec<(String, bool)> = match self.sender_key_devices.remove(group_jid) {
            Some(devices) => devices,
            None => Vec::new(),
        };
        let ghost first = device_views(devices@);
        let ghost wanted = device_views(entries@);
        assert(first =~= match lookup(old(self)@.sender_key_devices, group_jid@) {
            Some(devices) => devices,
            None => Seq::empty(),
        });
        let mut i: usize = 0;
        assert(wanted.take(0) =~= Seq::empty());
        while i < entries.len()
            invariant
                i <= entries@.len(),
                wanted == device_views(entries@),
                device_views(devices@) == with_statuses(first, wanted.take(i as int)),
            decreases entries@.len() - i,
        {
            proof {
                assert(wanted.take(i + 1).drop_last() =~= wanted.take(i as int));
                assert(wanted.take(i + 1).last() == (entries@[i as int].0@, entries@[i as int].1));
            }
            set_status(&mut devices, entries[i].0.as_str(), entries[i].1);
            i += 1;
        }
        assert(wanted.take(i as int) =~= wanted);
        let ghost done = device_views(devices@);
        self.sender_key_devices.insert(group_jid.to_owned(), devices);
        assert(self@.sender_key_devices =~= old(self)@.sender_key_devices.insert(
            group_jid@,
            done,
        ));
    }

    /// Forgets the devices of a group.
    pub fn clear_sender_key_devices(&mut self, group_jid: &str)
        requires
            old(self).wf(),
        ensures
            final(self).wf(),
            final(self)@ == (CachesView {
                sender_key_devices: old(self)@.sender_key_devices.remove(group_jid@),
                ..old(self)@
            }),
    {
        self.sender_key_devices.remove(group_jid);
        assert(self@.sender_key_devices =~= old(self)@.sender_key_devices.remove(group_jid@));
    }

    /// Forgets the devices of every group.
    pub fn clear_all_sender_key_devices(&mut self)
        requires
            old(self).wf(),
        ensures
            final(self).wf(),
            final(self)@ == (CachesView { sender_key_devices: Map::empty(), ..old(self)@ }),
    {
        self.sender_key_devices = Rows::new();
        assert(self@.sender_key_devices =~= Map::empty());
    }

    /// Forgets some devices in every group.
    pub fn delete_sender_key_device_rows(&mut self, device_jids: &Vec<String>)
        requires
            old(self).wf(),
        ensures
            final(self).wf(),
            final(self)@ == (CachesView {
                sender_key_devices: old(self)@.sender_key_devices.map_values(
                    |devices: Seq<(Seq<char>, bool)>| without_devices(devices, device_jids@),
                ),
                ..old(self)@
            }),
    {
        let ghost first = self.sender_key_devices;
        let mut i: usize = 0;
        while i < self.sender_key_devices.len()
            invariant
                self.wf(),
                first.wf(),
                i <= self.sender_key_devices.seq().len(),
                self.sender_key_devices.seq().len() == first.seq().len(),
                self@ == (CachesView {
                    sender_key_devices: self@.sender_key_devices,
                    ..old(self)@
                }),
                forall|j: int|
                    0 <= j < first.seq().len() ==> (#[trigger] self.sender_key_devices.seq()[j]).0
                        == first.seq()[j].0,
                forall|j: int|
                    i <= j < first.seq().len() ==> (#[trigger] self.sender_key_devices.seq()[j]).1
                        == first.seq()[j].1,
                forall|j: int|
                    0 <= j < i ==> device_views((#[trigger] self.sender_key_devices.seq()[j]).1@)
                        == without_devices(device_views(first.seq()[j].1@), device_jids@),
            decreases first.seq().len() - i,
        {
            let devices = self.sender_key_devices.value_at_mut(i);
            drop_devices(devices, device_jids);
            i += 1;
        }
        proof {
            let now = self.sender_key_devices;
            let want = old(self)@.sender_key_devices.map_values(
                |devices: Seq<(Seq<char>, bool)>| without_devices(devices, device_jids@),
            );
            assert forall|jid: Seq<char>| now.has(jid) == first.has(jid) by {
                if now.has(jid) {
                    let j = choose|j: int| #[trigger] now.at(jid, j);
                    assert(first.at(jid, j));
                }
                if first.has(jid) {
                    let j = choose|j: int| #[trigger] first.at(jid, j);
                    assert(now.at(jid, j));
                }
            }
            assert forall|jid: Seq<char>| now.has(jid) implies device_views(now.value(jid)@)
                == without_devices(device_views(first.value(jid)@), device_jids@) by {
                let j = choose|j: int| #[trigger] now.at(jid, j);
                now.lemma_row(j);
                first.lemma_row(j);
            }
            assert(self@.sender_key_devices =~= want);
        }
    }
}

fn set_status(devices: &mut Vec<(String, bool)>, jid: &str, status: bool)
    ensures
        device_views(final(devices)@) == with_status(device_views(old(devices)@), jid@, status),
{
    let ghost views = device_views(devices@);
    let mut i: usize = 0;
    while i < devices.len()
        invariant
            i <= devices@.len(),
            devices@ == old(devices)@,
            views == device_views(devices@),
            device_at(views, jid@, 0) == device_at(views, jid@, i as int),
        decreases devices@.len() - i,
    {
        if devices[i].0.is(jid) {
            devices.set(i, (jid.to_owned(), status));
            assert(device_views(devices@) =~= views.update(i as int, (jid@, status)));
            return;
        }
        i += 1;
    }
    devices.push((jid.to_owned(), status));
    assert(device_views(devices@) =~= views.push((jid@, status)));
}

fn drop_devices(devices: &mut Vec<(String, bool)>, jids: &Vec<String>)
    ensures
        device_views(final(devices)@) == without_devices(device_views(old(devices)@), jids@),
{
    let ghost views = device_views(devices@);
    let mut kept: Vec<(String, bool)> = Vec::new();
    let mut i: usize = 0;
    assert(views.take(0) =~= Seq::empty());
    assert(device_views(kept@) =~= Seq::empty());
    while i < devices.len()
        invariant
            i <= devices@.len(),
            devices@ == old(devices)@,
            views == device_views(devices@),
            device_views(kept@) == without_devices(views.take(i as int), jids@),
        decreases devices@.len() - i,
    {
        proof {
            assert(views.take(i + 1).drop_last() =~= views.take(i as int));
            assert(views.take(i + 1).last() == (devices@[i as int].0@, devices@[i as int].1));
        }
        if !is_named(jids, &devices[i].0) {
            let ghost before = kept@;
            kept.push((devices[i].0.clone(), devices[i].1));
            assert(device_views(kept@) =~= device_views(before).push(
                (devices@[i as int].0@, devices@[i as int].1),
            ));
        }
        i += 1;
    }
    assert(views.take(i as int) =~= views);
    *devices = kept;
}

fn is_named(jids: &Vec<String>, jid: &String) -> (r: bool)
    ensures
        r == names_jid(jids@, jid@),
{
    let mut i: usize = 0;
    while i < jids.len()
        invariant
            i <= jids@.len(),
            forall|j: int| 0 <= j < i ==> (#[trigger] jids@[j])@ != jid@,
        decreases jids@.len() - i,
    {
        if jids[i] == *jid {
            return true;
        }
        i += 1;
    }
    false
}

/// Whether a token row is kept: its received token is live, or what was issued to
/// the contact is. An empty token is a placeholder and is never live.
pub open spec fn token_kept(token: TcToken, token_cutoff: i64, sender_cutoff: i64) -> bool {
    ||| token.token.len() > 0 && token.token_timestamp >= token_cutoff
    ||| token.sender_timestamp matches Some(ts) && ts >= sender_cutoff
}

/// A token row after this side issued a token: its time of issue only moves
/// forward, and a row that was not there begins as a placeholder.
pub open spec fn token_touched(before: Option<TcToken>, sender_timestamp: i64) -> TcToken {
    match before {
        Some(token) => TcToken {
            sender_timestamp: Some(
                match token.sender_timestamp {
                    Some(ts) if ts > sender_timestamp => ts,
                    _ => sender_timestamp,
                },
            ),
            ..token
        },
        None => TcToken {
            token: Seq::empty(),
            token_timestamp: sender_timestamp,
            sender_timestamp: Some(sender_timestamp),
        },
    }
}

/// A token row after a token was received: the newer one stays, and a placeholder
/// never blocks a real token. The time of issue is left alone.
pub open spec fn token_received(before: Option<TcToken>, token: Seq<u8>, timestamp: i64) -> TcToken {
    match before {
        Some(old_token) => if old_token.token.len() > 0 && timestamp < old_token.token_timestamp {
            old_token
        } else {
            TcToken { token, token_timestamp: timestamp, ..old_token }
        },
        None => TcToken { token, token_timestamp: timestamp, sender_timestamp: None },
    }
}

/// A message secret put over another: the retention window never shrinks, and a
/// known time of the message is never lost.
pub open spec fn secret_over(before: Option<MsgSecret>, secret: MsgSecret) -> MsgSecret {
    match before {
        Some(existing) => MsgSecret {
            secret: secret.secret,
            expires_at: merged_expiry(existing.expires_at, secret.expires_at),
            message_ts: if existing.message_ts < secret.message_ts {
                secret.message_ts
            } else {
                existing.message_ts
            },
        },
        None => secret,
    }
}

/// Message secrets with those of `entries` put over them in order.
pub open spec fn secrets_with(
    secrets: Map<(Seq<char>, Seq<char>, Seq<char>), MsgSecret>,
    entries: Seq<MsgSecretEntry>,
) -> Map<(Seq<char>, Seq<char>, Seq<char>), MsgSecret>
    decreases entries.len(),
{
    if entries.len() == 0 {
        secrets
    } else {
        let before = secrets_with(secrets, entries.drop_last());
        let id = entries.last().key.id();
        before.insert(id, secret_over(lookup(before, id), entries.last().value@))
    }
}

fn copy_mapping(entry: &LidPnMappingEntry) -> (r: LidPnMappingEntry)
    ensures
        r@ == entry@,
{
    LidPnMappingEntry {
        lid: entry.lid.clone(),
        phone_number: entry.phone_number.clone(),
        created_at: entry.created_at,
        updated_at: entry.updated_at,
        learning_source: entry.learning_source.clone(),
    }
}

impl Caches {
    /// The mapping of a LID.
    pub fn get_lid_mapping(&self, lid: &str) -> (r: Option<&LidPnMappingEntry>)
        requires
            self.wf(),
        ensures
            r is Some == self@.lid_mappings.contains_key(lid@),
            r matches Some(entry) ==> entry@ == self@.lid_mappings[lid@],
    {
        self.lid_mappings.get(lid)
    }

    /// The mapping of a phone number: that of the LID it was last mapped to.
    pub fn get_pn_mapping(&self, phone: &str) -> (r: Option<&LidPnMappingEntry>)
        requires
            self.wf(),
        ensures
            r is Some == (self@.pn_mappings.contains_key(phone@)
                && self@.lid_mappings.contains_key(self@.pn_mappings[phone@])),
            r matches Some(entry) ==> entry@ == self@.lid_mappings[self@.pn_mappings[phone@]],
    {
        match self.pn_mappings.get(phone) {
            Some(lid) => self.lid_mappings.get(lid.as_str()),
            None => None,
        }
    }

    /// Puts a mapping, to be found by either side.
    pub fn put_lid_mapping(&mut self, entry: &LidPnMappingEntry)
        requires
            old(self).wf(),
        ensures
            final(self).wf(),
            final(self)@ == (CachesView {
                lid_mappings: old(self)@.lid_mappings.insert(entry@.lid, entry@),
                pn_mappings: old(self)@.pn_mappings.insert(entry@.phone_number, entry@.lid),
                ..old(self)@
            }),
    {
        self.pn_mappings.insert(entry.phone_number.clone(), entry.lid.clone());
        self.lid_mappings.insert(entry.lid.clone(), copy_mapping(entry));
        proof {
            assert(self@.pn_mappings =~= old(self)@.pn_mappings.insert(
                entry@.phone_number,
                entry@.lid,
            ));
            assert(self@.lid_mappings =~= old(self)@.lid_mappings.insert(entry@.lid, entry@));
        }
    }

    /// All mappings, each once.
    pub fn get_all_lid_mappings(&self) -> (r: Vec<LidPnMappingEntry>)
        requires
            self.wf(),
        ensures
            r@.len() == self@.lid_mappings.dom().len(),
            forall|lid: Seq<char>| #[trigger]
                self@.lid_mappings.contains_key(lid) ==> exists|i: int|
                    0 <= i < r@.len() && (#[trigger] r@[i])@ == self@.lid_mappings[lid],
            forall|i: int|
                0 <= i < r@.len() ==> has_value(self@.lid_mappings, (#[trigger] r@[i])@),
    {
        let rows = &self.lid_mappings;
        let mut out: Vec<LidPnMappingEntry> = Vec::new();
        let mut i: usize = 0;
        while i < rows.len()
            invariant
                i <= rows.seq().len(),
                out@.len() == i,
                forall|j: int| 0 <= j < i ==> (#[trigger] out@[j])@ == rows.seq()[j].1@,
            decreases rows.seq().len() - i,
        {
            out.push(copy_mapping(rows.value_at(i)));
            i += 1;
        }
        proof {
            rows.lemma_len();
            assert(self@.lid_mappings.dom() =~= rows.map().dom());
            assert forall|lid: Seq<char>| #[trigger]
                self@.lid_mappings.contains_key(lid) implies exists|i: int|
                0 <= i < out@.len() && (#[trigger] out@[i])@ == self@.lid_mappings[lid] by {
                let j = choose|j: int| #[trigger] rows.at(lid, j);
                rows.lemma_row(j);
                assert(out@[j]@ == self@.lid_mappings[lid]);
            }
            assert forall|i: int| 0 <= i < out@.len() implies has_value(
                self@.lid_mappings,
                (#[trigger] out@[i])@,
            ) by {
                rows.lemma_row(i);
                assert(self@.lid_mappings.contains_key(rows.seq()[i].0.id()));
            }
        }
        out
    }

    /// Keeps the base key of a message.
    pub fn save_base_key(&mut self, address: &str, message_id: &str, base_key: &[u8])
        requires
            old(self).wf(),
        ensures
            final(self).wf(),
            final(self)@ == (CachesView {
                base_keys: old(self)@.base_keys.insert(composed(address@, message_id@), base_key@),
                ..old(self)@
            }),
    {
        self.base_keys.insert(composite_key(address, message_id), to_vec(base_key));
        assert(self@.base_keys =~= old(self)@.base_keys.insert(
            composed(address@, message_id@),
            base_key@,
        ));
    }

    /// Whether the base key of a message is this one.
    pub fn has_same_base_key(&self, address: &str, message_id: &str, current: &[u8]) -> (r: bool)
        requires
            self.wf(),
        ensures
            r == (lookup(self@.base_keys, composed(address@, message_id@)) == Some(current@)),
    {
        match self.base_keys.get(composite_key(address, message_id).as_str()) {
            Some(key) => same_bytes(key.as_slice(), current),
            None => false,
        }
    }

    /// Forgets the base key of a message.
    pub fn delete_base_key(&mut self, address: &str, message_id: &str)
        requires
            old(self).wf(),
        ensures
            final(self).wf(),
            final(self)@ == (CachesView {
                base_keys: old(self)@.base_keys.remove(composed(address@, message_id@)),
                ..old(self)@
            }),
    {
        self.base_keys.remove(composite_key(address, message_id).as_str());
        assert(self@.base_keys =~= old(self)@.base_keys.remove(composed(address@, message_id@)));
    }

    /// Replaces the device list of a user.
    pub fn update_device_list(&mut self, user: String, record: DeviceListRecord)
        requires
            old(self).wf(),
        ensures
            final(self).wf(),
            final(self)@ == (CachesView {
                device_lists: old(self)@.device_lists.insert(user@, record),
                ..old(self)@
            }),
    {
        self.device_lists.insert(user, record);
    }

    /// The device list of a user.
    pub fn get_devices(&self, user: &str) -> (r: Option<&DeviceListRecord>)
        requires
            self.wf(),
        ensures
            r is Some == self@.device_lists.contains_key(user@),
            r matches Some(record) ==> *record == self@.device_lists[user@],
    {
        self.device_lists.get(user)
    }

    /// Forgets the device list of a user.
    pub fn delete_devices(&mut self, user: &str)
        requires
            old(self).wf(),
        ensures
            final(self).wf(),
            final(self)@ == (CachesView {
                device_lists: old(self)@.device_lists.remove(user@),
                ..old(self)@
            }),
    {
        self.device_lists.remove(user);
    }

    /// The token row of a contact.
    pub fn get_tc_token(&self, jid: &str) -> (r: Option<&TcTokenEntry>)
        requires
            self.wf(),
        ensures
            r is Some == self@.tc_tokens.contains_key(jid@),
            r matches Some(entry) ==> entry@ == self@.tc_tokens[jid@],
    {
        self.tc_tokens.get(jid)
    }

    /// Replaces the token row of a contact.
    pub fn put_tc_token(&mut self, jid: &str, entry: TcTokenEntry)
        requires
            old(self).wf(),
        ensures
            final(self).wf(),
            final(self)@ == (CachesView {
                tc_tokens: old(self)@.tc_tokens.insert(jid@, entry@),
                ..old(self)@
            }),
    {
        self.tc_tokens.insert(jid.to_owned(), entry);
        assert(self@.tc_tokens =~= old(self)@.tc_tokens.insert(jid@, entry@));
    }

    /// Forgets the token row of a contact.
    pub fn delete_tc_token(&mut self, jid: &str)
        requires
            old(self).wf(),
        ensures
            final(self).wf(),
            final(self)@ == (CachesView {
                tc_tokens: old(self)@.tc_tokens.remove(jid@),
                ..old(self)@
            }),
    {
        self.tc_tokens.remove(jid);
        assert(self@.tc_tokens =~= old(self)@.tc_tokens.remove(jid@));
    }

    /// The contacts that have a token row, each once.
    pub fn get_all_tc_token_jids(&self) -> (r: Vec<String>)
        requires
            self.wf(),
        ensures
            r@.len() == self@.tc_tokens.dom().len(),
            forall|jid: Seq<char>| #[trigger]
                self@.tc_tokens.contains_key(jid) <==> names_jid(r@, jid),
    {
        let rows = &self.tc_tokens;
        let mut out: Vec<String> = Vec::new();
        let mut i: usize = 0;
        while i < rows.len()
            invariant
                i <= rows.seq().len(),
                out@.len() == i,
                forall|j: int| 0 <= j < i ==> (#[trigger] out@[j])@ == rows.seq()[j].0@,
            decreases rows.seq().len() - i,
        {
            out.push(rows.key_at(i).clone());
            i += 1;
        }
        proof {
            rows.lemma_len();
            assert(self@.tc_tokens.dom() =~= rows.map().dom());
            assert forall|jid: Seq<char>| #[trigger]
                self@.tc_tokens.contains_key(jid) <==> names_jid(out@, jid) by {
                if self@.tc_tokens.contains_key(jid) {
                    let j = choose|j: int| #[trigger] rows.at(jid, j);
                    assert(out@[j]@ == jid);
                }
                if names_jid(out@, jid) {
                    let j = choose|j: int| 0 <= j < out@.len() && (#[trigger] out@[j])@ == jid;
                    assert(rows.at(jid, j));
                }
            }
        }
        out
    }

    /// Drops the token rows of which both sides are stale. How many they were.
    pub fn delete_expired_tc_tokens(&mut self, token_cutoff: i64, sender_cutoff: i64) -> (n: usize)
        requires
            old(self).wf(),
        ensures
            final(self).wf(),
            final(self)@ == (CachesView {
                tc_tokens: retained(
                    old(self)@.tc_tokens,
                    |token: TcToken| token_kept(token, token_cutoff, sender_cutoff),
                ),
                ..old(self)@
            }),
            n == old(self)@.tc_tokens.dom().len() - final(self)@.tc_tokens.dom().len(),
    {
        let before = self.tc_tokens.len();
        let ghost first = self.tc_tokens;
        let keep = |entry: &TcTokenEntry| -> (b: bool)
            ensures
                b == token_kept(entry@, token_cutoff, sender_cutoff),
        {
            let token_live = entry.token.len() > 0 && entry.token_timestamp >= token_cutoff;
            let sender_live = match entry.sender_timestamp {
                Some(ts) => ts >= sender_cutoff,
                None => false,
            };
            token_live || sender_live
        };
        self.tc_tokens.retain(
            keep,
            Ghost(|entry: TcTokenEntry| token_kept(entry@, token_cutoff, sender_cutoff)),
        );
        proof {
            first.lemma_len();
            self.tc_tokens.lemma_len();
            assert(old(self)@.tc_tokens.dom() =~= first.map().dom());
            assert(self@.tc_tokens.dom() =~= self.tc_tokens.map().dom());
            assert(self@.tc_tokens =~= retained(
                old(self)@.tc_tokens,
                |token: TcToken| token_kept(token, token_cutoff, sender_cutoff),
            ));
        }
        before - self.tc_tokens.len()
    }

    /// Notes when this side issued a token to a contact.
    pub fn touch_tc_token_sender_timestamp(&mut self, jid: &str, sender_timestamp: i64)
        requires
            old(self).wf(),
        ensures
            final(self).wf(),
            final(self)@ == (CachesView {
                tc_tokens: old(self)@.tc_tokens.insert(
                    jid@,
                    token_touched(lookup(old(self)@.tc_tokens, jid@), sender_timestamp),
                ),
                ..old(self)@
            }),
    {
        let ghost want = old(self)@.tc_tokens.insert(
            jid@,
            token_touched(lookup(old(self)@.tc_tokens, jid@), sender_timestamp),
        );
        if let Some(entry) = self.tc_tokens.get_mut(jid) {
            let moved: i64 = match entry.sender_timestamp {
                Some(ts) => if ts > sender_timestamp {
                    ts
                } else {
                    sender_timestamp
                },
                None => sender_timestamp,
            };
            entry.sender_timestamp = Some(moved);
            assert(self@.tc_tokens =~= want);
            return;
        }
        self.tc_tokens.insert(
            jid.to_owned(),
            TcTokenEntry {
                token: Vec::new(),
                token_timestamp: sender_timestamp,
                sender_timestamp: Some(sender_timestamp),
            },
        );
        assert(self@.tc_tokens =~= want);
    }

    /// Takes a token that a contact sent.
    pub fn store_received_tc_token(&mut self, jid: &str, token: &[u8], token_timestamp: i64)
        requires
            old(self).wf(),
        ensures
            final(self).wf(),
            final(self)@ == (CachesView {
                tc_tokens: old(self)@.tc_tokens.insert(
                    jid@,
                    token_received(lookup(old(self)@.tc_tokens, jid@), token@, token_timestamp),
                ),
                ..old(self)@
            }),
    {
        let ghost want = old(self)@.tc_tokens.insert(
            jid@,
            token_received(lookup(old(self)@.tc_tokens, jid@), token@, token_timestamp),
        );
        if let Some(entry) = self.tc_tokens.get_mut(jid) {
            if !(entry.token.len() > 0 && token_timestamp < entry.token_timestamp) {
                entry.token = to_vec(token);
                entry.token_timestamp = token_timestamp;
            }
            assert(self@.tc_tokens =~= want);
            return;
        }
        self.tc_tokens.insert(
            jid.to_owned(),
            TcTokenEntry { token: to_vec(token), token_timestamp, sender_timestamp: None },
        );
        assert(self@.tc_tokens =~= want);
    }

    /// Keeps a sent message; `now` is the time in seconds.
    pub fn store_sent_message(&mut self, chat_jid: &str, message_id: &str, payload: &[u8], now: i64)
        requires
            old(self).wf(),
        ensures
            final(self).wf(),
            final(self)@ == (CachesView {
                sent_messages: old(self)@.sent_messages.insert(
                    composed(chat_jid@, message_id@),
                    (payload@, now),
                ),
                ..old(self)@
            }),
    {
        self.sent_messages.insert(composite_key(chat_jid, message_id), (to_vec(payload), now));
        assert(self@.sent_messages =~= old(self)@.sent_messages.insert(
            composed(chat_jid@, message_id@),
            (payload@, now),
        ));
    }

    /// Takes a sent message out.
    pub fn take_sent_message(&mut self, chat_jid: &str, message_id: &str) -> (r: Option<Vec<u8>>)
        requires
            old(self).wf(),
        ensures
            final(self).wf(),
            final(self)@ == (CachesView {
                sent_messages: old(self)@.sent_messages.remove(composed(chat_jid@, message_id@)),
                ..old(self)@
            }),
            r is Some == old(self)@.sent_messages.contains_key(composed(chat_jid@, message_id@)),
            r matches Some(payload) ==> payload@ == old(self)@.sent_messages[composed(
                chat_jid@,
                message_id@,
            )].0,
    {
        let taken = self.sent_messages.remove(composite_key(chat_jid, message_id).as_str());
        assert(self@.sent_messages =~= old(self)@.sent_messages.remove(
            composed(chat_jid@, message_id@),
        ));
        match taken {
            Some((payload, _)) => Some(payload),
            None => None,
        }
    }

    /// Drops the sent messages from before the cutoff. How many they were.
    pub fn delete_expired_sent_messages(&mut self, cutoff_timestamp: i64) -> (n: usize)
        requires
            old(self).wf(),
        ensures
            final(self).wf(),
            final(self)@ == (CachesView {
                sent_messages: retained(
                    old(self)@.sent_messages,
                    |m: (Seq<u8>, i64)| m.1 >= cutoff_timestamp,
                ),
                ..old(self)@
            }),
            n == old(self)@.sent_messages.dom().len() - final(self)@.sent_messages.dom().len(),
    {
        let before = self.sent_messages.len();
        let ghost first = self.sent_messages;
        let keep = |m: &(Vec<u8>, i64)| -> (b: bool)
            ensures
                b == (m.1 >= cutoff_timestamp),
        { m.1 >= cutoff_timestamp };
        self.sent_messages.retain(
            keep,
            Ghost(|m: (Vec<u8>, i64)| m.1 >= cutoff_timestamp),
        );
        proof {
            first.lemma_len();
            self.sent_messages.lemma_len();
            assert(old(self)@.sent_messages.dom() =~= first.map().dom());
            assert(self@.sent_messages.dom() =~= self.sent_messages.map().dom());
            assert(self@.sent_messages =~= retained(
                old(self)@.sent_messages,
                |m: (Seq<u8>, i64)| m.1 >= cutoff_timestamp,
            ));
        }
        before - self.sent_messages.len()
    }

    /// Keeps message secrets, in order. How many were given.
    pub fn put_msg_secrets(&mut self, entries: Vec<MsgSecretEntry>) -> (n: usize)
        requires
            old(self).wf(),
        ensures
            final(self).wf(),
            n == entries@.len(),
            final(self)@ == (CachesView {
                msg_secrets: secrets_with(old(self)@.msg_secrets, entries@),
                ..old(self)@
            }),
    {
        let n = entries.len();
        let mut i: usize = 0;
        assert(entries@.take(0) =~= Seq::empty());
        while i < n
            invariant
                n == entries@.len(),
                i <= n,
                self.wf(),
                self@ == (CachesView {
                    msg_secrets: secrets_with(old(self)@.msg_secrets, entries@.take(i as int)),
                    ..old(self)@
                }),
            decreases n - i,
        {
            let ghost before = self@.msg_secrets;
            let e = &entries[i];
            assert(entries@.take(i + 1).drop_last() =~= entries@.take(i as int));
            let ghost want = before.insert(
                e.key.id(),
                secret_over(lookup(before, e.key.id()), e.value@),
            );
            let mut known = false;
            if let Some(existing) = self.msg_secrets.get_mut(&e.key) {
                existing.secret = e.value.secret;
                existing.expires_at =
                    whatsapp_rust::wacore::store::traits::merge_msg_secret_expiry(
                        existing.expires_at,
                        e.value.expires_at,
                    );
                existing.message_ts =
                    whatsapp_rust::wacore::store::traits::merge_msg_secret_message_ts(
                        existing.message_ts,
                        e.value.message_ts,
                    );
                known = true;
            }
            if !known {
                let key = MsgSecretKey {
                    chat: e.key.chat.clone(),
                    sender: e.key.sender.clone(),
                    msg_id: e.key.msg_id.clone(),
                };
                self.msg_secrets.insert(
                    key,
                    MsgSecretValue {
                        secret: e.value.secret,
                        expires_at: e.value.expires_at,
                        message_ts: e.value.message_ts,
                    },
                );
            }
            assert(self@.msg_secrets =~= want);
            i += 1;
        }
        assert(entries@.take(i as int) =~= entries@);
        n
    }

    /// The secret of a message, and the time of that message.
    pub fn get_msg_secret_with_ts(&self, key: &MsgSecretKey) -> (r: Option<([u8; 32], i64)>)
        requires
            self.wf(),
        ensures
            r is Some == self@.msg_secrets.contains_key(key.id()),
            r matches Some((secret, ts)) ==> secret@ == self@.msg_secrets[key.id()].secret && ts
                == self@.msg_secrets[key.id()].message_ts,
    {
        match self.msg_secrets.get(key) {
            Some(v) => Some((v.secret, v.message_ts)),
            None => None,
        }
    }

    /// The secret of a message.
    pub fn get_msg_secret(&self, key: &MsgSecretKey) -> (r: Option<[u8; 32]>)
        requires
            self.wf(),
        ensures
            r is Some == self@.msg_secrets.contains_key(key.id()),
            r matches Some(secret) ==> secret@ == self@.msg_secrets[key.id()].secret,
    {
        match self.msg_secrets.get(key) {
            Some(v) => Some(v.secret),
            None => None,
        }
    }

    /// Drops the message secrets that expire at the cutoff or before. How many
    /// they were.
    pub fn delete_expired_msg_secrets(&mut self, cutoff_timestamp: i64) -> (n: usize)
        requires
            old(self).wf(),
        ensures
            final(self).wf(),
            final(self)@ == (CachesView {
                msg_secrets: retained(
                    old(self)@.msg_secrets,
                    |s: MsgSecret| s.expires_at == 0 || s.expires_at > cutoff_timestamp,
                ),
                ..old(self)@
            }),
            n == old(self)@.msg_secrets.dom().len() - final(self)@.msg_secrets.dom().len(),
    {
        let before = self.msg_secrets.len();
        let ghost first = self.msg_secrets;
        let keep = |s: &MsgSecretValue| -> (b: bool)
            ensures
                b == (s.expires_at == 0 || s.expires_at > cutoff_timestamp),
        { s.expires_at == 0 || s.expires_at > cutoff_timestamp };
        self.msg_secrets.retain(
            keep,
            Ghost(|s: MsgSecretValue| s.expires_at == 0 || s.expires_at > cutoff_timestamp),
        );
        proof {
            first.lemma_len();
            self.msg_secrets.lemma_len();
            assert(old(self)@.msg_secrets.dom() =~= first.map().dom());
            assert(self@.msg_secrets.dom() =~= self.msg_secrets.map().dom());
            assert(self@.msg_secrets =~= retained(
                old(self)@.msg_secrets,
                |s: MsgSecret| s.expires_at == 0 || s.expires_at > cutoff_timestamp,
            ));
        }
        before - self.msg_secrets.len()
    }
}

/// Issuing a token and learning of one from history converge: in whatever order
/// two times of issue are noted of a contact that has a row, the row is the same,
/// and holds the later of them or one later still.
pub proof fn issue_times_converge(row: TcToken, a: i64, b: i64)
    ensures
        token_touched(Some(token_touched(Some(row), a)), b) == token_touched(
            Some(token_touched(Some(row), b)),
            a,
        ),
        token_touched(Some(token_touched(Some(row), a)), b).sender_timestamp matches Some(ts) && ts
            >= a && ts >= b,
{
}

/// Each writer of a token row owns its part: a received token leaves the time of
/// issue as it was, and noting a time of issue leaves the received token.
pub proof fn token_writers_do_not_interfere(
    row: TcToken,
    token: Seq<u8>,
    timestamp: i64,
    sender_timestamp: i64,
)
    ensures
        token_received(Some(row), token, timestamp).sender_timestamp == row.sender_timestamp,
        token_touched(Some(row), sender_timestamp).token == row.token,
        token_touched(Some(row), sender_timestamp).token_timestamp == row.token_timestamp,
        token_received(Some(token_touched(Some(row), sender_timestamp)), token, timestamp)
            == token_touched(Some(token_received(Some(row), token, timestamp)), sender_timestamp),
{
}

/// A stale token never replaces a fresher one, and a placeholder never keeps a
/// real one out.
pub proof fn newer_token_wins(row: TcToken, token: Seq<u8>, timestamp: i64)
    ensures
        row.token.len() > 0 && timestamp < row.token_timestamp ==> token_received(
            Some(row),
            token,
            timestamp,
        ) == row,
        row.token.len() == 0 || timestamp >= row.token_timestamp ==> token_received(
            Some(row),
            token,
            timestamp,
        ).token == token,
{
}

/// Putting a message secret again never shrinks the time it is kept, and never
/// loses a later time of its message.
pub proof fn secret_retention_never_shrinks(existing: MsgSecret, secret: MsgSecret, cutoff: i64)
    ensures
        existing.expires_at == 0 || existing.expires_at > cutoff ==> {
            let kept = secret_over(Some(existing), secret);
            kept.expires_at == 0 || kept.expires_at > cutoff
        },
        secret_over(Some(existing), secret).message_ts >= existing.message_ts,
        secret_over(Some(existing), secret).secret == secret.secret,
{
}

/// Of MACs for one index the last that was put counts, and the others stay.
pub proof fn the_last_mac_of_an_index_counts(
    macs: Map<Seq<u8>, Seq<u8>>,
    mutations: Seq<AppStateMutationMAC>,
    index: Seq<u8>,
)
    ensures
        (forall|i: int| 0 <= i < mutations.len() ==> (#[trigger] mutations[i]).index_mac@ != index)
            ==> lookup(macs_with(macs, mutations), index) == lookup(macs, index),
        forall|k: int|
            0 <= k < mutations.len() && (#[trigger] mutations[k]).index_mac@ == index && (forall|i: int|
                k < i < mutations.len() ==> (#[trigger] mutations[i]).index_mac@ != index)
                ==> macs_with(macs, mutations).contains_key(index) && macs_with(
                macs,
                mutations,
            )[index] == mutations[k].value_mac@,
    decreases mutations.len(),
{
    if mutations.len() > 0 {
        let front = mutations.drop_last();
        the_last_mac_of_an_index_counts(macs, front, index);
        if forall|i: int| 0 <= i < mutations.len() ==> (#[trigger] mutations[i]).index_mac@ != index {
            assert forall|i: int| 0 <= i < front.len() implies (#[trigger] front[i]).index_mac@
                != index by {
                assert(front[i] == mutations[i]);
            }
            assert(mutations[mutations.len() - 1].index_mac@ != index);
        }
        assert forall|k: int|
            0 <= k < mutations.len() && (#[trigger] mutations[k]).index_mac@ == index && (forall|i: int|
                k < i < mutations.len() ==> (#[trigger] mutations[i]).index_mac@
                    != index) implies macs_with(macs, mutations).contains_key(index) && macs_with(
            macs,
            mutations,
        )[index] == mutations[k].value_mac@ by {
            if k < front.len() {
                assert(front[k] == mutations[k]);
                assert forall|i: int| k < i < front.len() implies (#[trigger] front[i]).index_mac@
                    != index by {
                    assert(front[i] == mutations[i]);
                }
                assert(mutations[mutations.len() - 1].index_mac@ != index);
            }
        }
    }
}

/// A MAC is gone exactly where its index is named.
pub proof fn named_macs_are_gone(
    macs: Map<Seq<u8>, Seq<u8>>,
    gone: Seq<Vec<u8>>,
    index: Seq<u8>,
)
    ensures
        (exists|i: int| 0 <= i < gone.len() && (#[trigger] gone[i])@ == index)
            ==> !macs_without(macs, gone).contains_key(index),
        !(exists|i: int| 0 <= i < gone.len() && (#[trigger] gone[i])@ == index) ==> lookup(
            macs_without(macs, gone),
            index,
        ) == lookup(macs, index),
    decreases gone.len(),
{
    if gone.len() > 0 {
        let front = gone.drop_last();
        named_macs_are_gone(macs, front, index);
        if exists|i: int| 0 <= i < gone.len() && (#[trigger] gone[i])@ == index {
            let i = choose|i: int| 0 <= i < gone.len() && (#[trigger] gone[i])@ == index;
            if i < front.len() {
                assert(front[i]@ == index);
            }
        } else {
            assert(gone[gone.len() - 1]@ != index);
            assert forall|i: int| 0 <= i < front.len() implies (#[trigger] front[i])@ != index by {
                assert(front[i] == gone[i]);
            }
        }
    }
}

proof fn lemma_device_at(devices: Seq<(Seq<char>, bool)>, jid: Seq<char>, from: int)
    requires
        0 <= from <= devices.len(),
    ensures
        from <= device_at(devices, jid, from) <= devices.len(),
        device_at(devices, jid, from) < devices.len() ==> devices[device_at(
            devices,
            jid,
            from,
        )].0 == jid,
        forall|i: int| from <= i < device_at(devices, jid, from) ==> (#[trigger] devices[i]).0 != jid,
    decreases devices.len() - from,
{
    if from < devices.len() && devices[from].0 != jid {
        lemma_device_at(devices, jid, from + 1);
    }
}

/// Whether no device stands twice.
pub open spec fn no_device_twice(devices: Seq<(Seq<char>, bool)>) -> bool {
    forall|i: int, j: int|
        0 <= i < j < devices.len() ==> (#[trigger] devices[i]).0 != (#[trigger] devices[j]).0
}

/// Setting the status of a device sets that one and no other, adds it at the end where
/// it was not there, and never lists it twice.
pub proof fn one_status_is_set(devices: Seq<(Seq<char>, bool)>, jid: Seq<char>, status: bool)
    ensures
        ({
            let then_devices = with_status(devices, jid, status);
            &&& then_devices.contains((jid, status))
            &&& then_devices.len() == devices.len() || then_devices.len() == devices.len() + 1
            &&& forall|i: int|
                0 <= i < devices.len() && (#[trigger] devices[i]).0 != jid ==> then_devices[i]
                    == devices[i]
            &&& forall|i: int|
                0 <= i < then_devices.len() && (#[trigger] then_devices[i]).0 != jid ==> i
                    < devices.len() && devices[i] == then_devices[i]
            &&& then_devices.len() == devices.len() + 1 ==> then_devices.last() == (jid, status)
                && forall|i: int| 0 <= i < devices.len() ==> (#[trigger] devices[i]).0 != jid
            &&& no_device_twice(devices) ==> no_device_twice(then_devices)
        }),
{
    lemma_device_at(devices, jid, 0);
    let i = device_at(devices, jid, 0);
    let then_devices = with_status(devices, jid, status);
    if i < devices.len() {
        assert(then_devices[i] == (jid, status));
    } else {
        assert(then_devices[devices.len() as int] == (jid, status));
    }
    if no_device_twice(devices) {
        assert forall|a: int, b: int| 0 <= a < b < then_devices.len() implies (
        #[trigger] then_devices[a]).0 != (#[trigger] then_devices[b]).0 by {
            if b < devices.len() {
                assert(devices[a].0 != devices[b].0);
            } else {
                assert(devices[a].0 != jid);
            }
        }
    }
}

/// Statuses are set one after the other, so that of two for one device the later counts.
pub proof fn statuses_are_set_in_order(
    devices: Seq<(Seq<char>, bool)>,
    entries: Seq<(Seq<char>, bool)>,
    entry: (Seq<char>, bool),
)
    ensures
        with_statuses(devices, Seq::empty()) == devices,
        with_statuses(devices, entries.push(entry)) == with_status(
            with_statuses(devices, entries),
            entry.0,
            entry.1,
        ),
        with_statuses(devices, entries.push(entry)).contains(entry),
{
    assert(entries.push(entry).drop_last() =~= entries);
    one_status_is_set(with_statuses(devices, entries), entry.0, entry.1);
}

/// The devices that are named are gone, and the others stay, in order.
pub proof fn named_devices_are_gone(
    devices: Seq<(Seq<char>, bool)>,
    device: (Seq<char>, bool),
    jids: Seq<String>,
)
    ensures
        without_devices(Seq::empty(), jids) == Seq::<(Seq<char>, bool)>::empty(),
        (exists|i: int| 0 <= i < jids.len() && (#[trigger] jids[i])@ == device.0)
            ==> without_devices(devices.push(device), jids) == without_devices(devices, jids),
        !(exists|i: int| 0 <= i < jids.len() && (#[trigger] jids[i])@ == device.0)
            ==> without_devices(devices.push(device), jids) == without_devices(devices, jids).push(
            device,
        ),
        forall|k: int|
            0 <= k < without_devices(devices, jids).len() ==> !names_jid(
                jids,
                (#[trigger] without_devices(devices, jids)[k]).0,
            ),
    decreases devices.len(),
{
    assert(devices.push(device).drop_last() =~= devices);
    if devices.len() > 0 {
        named_devices_are_gone(devices.drop_last(), device, jids);
        let before = without_devices(devices.drop_last(), jids);
        let all = without_devices(devices, jids);
        assert forall|k: int| 0 <= k < all.len() implies !names_jid(jids, (#[trigger] all[k]).0) by {
            if k < before.len() {
                assert(all[k] == before[k]);
            }
        }
    }
}

/// Two parts make one key, with a colon between them; different parts make different keys
/// where the first holds no colon.
pub proof fn keys_of_two_parts_are_apart(a: Seq<char>, b: Seq<char>, c: Seq<char>, d: Seq<char>)
    ensures
        composed(a, b) == a + seq![':'] + b,
        (forall|i: int| 0 <= i < a.len() ==> #[trigger] a[i] != ':') && (forall|i: int|
            0 <= i < c.len() ==> #[trigger] c[i] != ':') && composed(a, b) == composed(c, d) ==> a
            == c && b == d,
        composed(a, b) == composed(a, d) ==> b == d,
        composed(a, b) == composed(c, b) ==> a == c,
{
    reveal_strlit(":");
    assert(":"@ =~= seq![':']);
    let x = composed(a, b);
    if x == composed(a, d) {
        assert(b =~= x.skip(a.len() + 1int));
        assert(d =~= x.skip(a.len() + 1int));
    }
    if x == composed(c, b) {
        assert(a.len() == c.len());
        assert(a =~= x.take(a.len() as int));
        assert(c =~= x.take(c.len() as int));
    }
    if (forall|i: int| 0 <= i < a.len() ==> #[trigger] a[i] != ':') && (forall|i: int|
        0 <= i < c.len() ==> #[trigger] c[i] != ':') && x == composed(c, d) {
        assert(x[a.len() as int] == ':');
        assert(x[c.len() as int] == ':');
        if a.len() < c.len() {
            assert(x[a.len() as int] == c[a.len() as int]);
        }
        if c.len() < a.len() {
            assert(x[c.len() as int] == a[c.len() as int]);
        }
        assert(a =~= x.take(a.len() as int));
        assert(c =~= x.take(c.len() as int));
        assert(b =~= x.skip(a.len() + 1int));
        assert(d =~= x.skip(a.len() + 1int));
    }
}

/// A token row is kept while the token it received is live, or while what was issued to
/// the contact is; an empty token never is.
pub proof fn live_tokens_are_kept(row: TcToken, token_cutoff: i64, sender_cutoff: i64)
    ensures
        token_kept(row, token_cutoff, sender_cutoff) <==> (row.token.len() > 0 && token_cutoff
            <= row.token_timestamp) || (row.sender_timestamp is Some && sender_cutoff
            <= row.sender_timestamp->0),
{
}

/// A contact without a row gets the token as it was received, or a placeholder with the
/// time at which one was issued.
pub proof fn first_tokens_are_kept(token: Seq<u8>, timestamp: i64, row: TcToken)
    ensures
        token_received(None, token, timestamp) == (TcToken {
            token,
            token_timestamp: timestamp,
            sender_timestamp: None,
        }),
        token_touched(None, timestamp) == (TcToken {
            token: Seq::empty(),
            token_timestamp: timestamp,
            sender_timestamp: Some(timestamp),
        }),
        token_touched(Some(row), timestamp).sender_timestamp == Some(
            if row.sender_timestamp is Some && row.sender_timestamp->0 > timestamp {
                row.sender_timestamp->0
            } else {
                timestamp
            },
        ),
        row.token.len() == 0 || timestamp >= row.token_timestamp ==> token_received(
            Some(row),
            token,
            timestamp,
        ) == (TcToken {
            token,
            token_timestamp: timestamp,
            sender_timestamp: row.sender_timestamp,
        }),
{
}

/// A message secret is kept as it was put; one that is put again is kept until the later
/// deadline, where zero is never, with the later time of its message.
pub proof fn secrets_are_kept_the_longer(existing: MsgSecret, secret: MsgSecret)
    ensures
        secret_over(None, secret) == secret,
        secret_over(Some(existing), secret).expires_at == if existing.expires_at == 0
            || secret.expires_at == 0 {
            0
        } else if existing.expires_at >= secret.expires_at {
            existing.expires_at
        } else {
            secret.expires_at
        },
        secret_over(Some(existing), secret).message_ts == if existing.message_ts
            >= secret.message_ts {
            existing.message_ts
        } else {
            secret.message_ts
        },
        secret_over(Some(existing), secret).secret == secret.secret,
{
}

/// Secrets are put one after the other, each over what is kept of its message by then.
pub proof fn secrets_are_put_in_order(
    secrets: Map<(Seq<char>, Seq<char>, Seq<char>), MsgSecret>,
    entries: Seq<MsgSecretEntry>,
    entry: MsgSecretEntry,
    other: (Seq<char>, Seq<char>, Seq<char>),
)
    ensures
        secrets_with(secrets, Seq::empty()) == secrets,
        ({
            let before = secrets_with(secrets, entries);
            let after = secrets_with(secrets, entries.push(entry));
            let id = entry.key.id();
            &&& after.contains_key(id)
            &&& before.contains_key(id) ==> after[id] == secret_over(
                Some(before[id]),
                entry.value@,
            )
            &&& !before.contains_key(id) ==> after[id] == secret_over(None, entry.value@)
            &&& other != id ==> lookup(after, other) == lookup(before, other)
        }),
{
    assert(entries.push(entry).drop_last() =~= entries);
}

/// What is retained of a map is what is picked, unchanged.
pub proof fn retained_entries_are_unchanged<I, V>(map: Map<I, V>, kept: spec_fn(V) -> bool, id: I)
    ensures
        retained(map, kept).contains_key(id) <==> map.contains_key(id) && kept(map[id]),
        retained(map, kept).contains_key(id) ==> retained(map, kept)[id] == map[id],
        map.contains_key(id) ==> lookup(map, id) == Some(map[id]),
        !map.contains_key(id) ==> lookup(map, id) is None,
{
}

/// Empty caches hold nothing.
pub proof fn empty_caches_hold_nothing()
    ensures
        CachesView::none().versions.dom().is_empty(),
        CachesView::none().mutation_macs.dom().is_empty(),
        CachesView::none().sender_key_devices.dom().is_empty(),
        CachesView::none().lid_mappings.dom().is_empty(),
        CachesView::none().pn_mappings.dom().is_empty(),
        CachesView::none().base_keys.dom().is_empty(),
        CachesView::none().device_lists.dom().is_empty(),
        CachesView::none().tc_tokens.dom().is_empty(),
        CachesView::none().sent_messages.dom().is_empty(),
        CachesView::none().msg_secrets.dom().is_empty(),
{
}

/// Entries are viewed as they are.
pub proof fn entries_are_viewed_as_they_are(
    mapping: LidPnMappingEntry,
    token: TcTokenEntry,
    key: MsgSecretKey,
)
    ensures
        mapping@.lid == mapping.lid@,
        mapping@.phone_number == mapping.phone_number@,
        mapping@.created_at == mapping.created_at,
        mapping@.updated_at == mapping.updated_at,
        mapping@.learning_source == mapping.learning_source@,
        token@.token == token.token@,
        token@.token_timestamp == token.token_timestamp,
        token@.sender_timestamp == token.sender_timestamp,
        key.id().0 == key.chat@,
        key.id().1 == key.sender@,
        key.id().2 == key.msg_id@,
{
}

/// Devices are viewed one by one, as they are; a JID is named where it stands in a list,
/// and a value is there where some key has it.
pub proof fn devices_are_viewed_in_order(
    devices: Seq<(String, bool)>,
    jids: Seq<String>,
    jid: Seq<char>,
    map: Map<Seq<char>, LidMapping>,
    value: LidMapping,
)
    ensures
        device_views(devices).len() == devices.len(),
        forall|i: int|
            0 <= i < devices.len() ==> device_views(devices)[i] == ((#[trigger] devices[i]).0@, devices[i].1),
        names_jid(jids, jid) <==> exists|i: int| 0 <= i < jids.len() && (#[trigger] jids[i])@ == jid,
        has_value(map, value) <==> exists|id: Seq<char>| #[trigger]
            map.contains_key(id) && map[id] == value,
{
}

} // verus!
