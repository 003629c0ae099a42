//! How records lie in flash.
//!
//! One namespace per kind of record, one blob per record. Names are 15
//! characters at most, so a record is named by a truncated hash of its logical
//! key and carries that key in a small header, which is how a name collision is
//! detected instead of silently overwriting a neighbour.

use crate::digest::{sha256, sha256_hash};
use crate::scan::same_bytes;
use crate::text::{decimal, decimal_text, string_of};
use vstd::prelude::*;

verus! {

pub const RECORD_HEADER_LEN: usize = 5;

pub const MAX_LOGICAL_KEY_LEN: usize = 512;

pub const MAX_DEVICE_LEN: usize = 65536;

pub const MAX_SIGNAL_RECORD_LEN: usize = 65536;

pub const MAX_IDENTITIES: usize = 2048;

pub const MAX_SESSIONS: usize = 2048;

pub const MAX_PREKEYS: usize = 256;

pub const MAX_SIGNED_PREKEYS: usize = 16;

pub const MAX_SENDER_KEYS: usize = 2048;

/// The caps are a sanity bound on what a namespace may hold. Sync keys are never
/// deleted and only accumulate, so theirs is generous.
pub const MAX_SYNC_KEYS: usize = 256;

/// A namespace of the partition.
#[derive(Clone, Copy, Debug, PartialEq, Eq, Structural)]
pub enum Namespace {
    Control,
    Device,
    Identity,
    Session,
    Prekey,
    SignedPrekey,
    SenderKey,
    SyncKey,
}

impl Namespace {
    /// The name for `name`.
    pub open spec fn spec_name(self) -> Seq<char> {
        match self {
            Namespace::Control => "control"@,
            Namespace::Device => "device"@,
            Namespace::Identity => "identity"@,
            Namespace::Session => "session"@,
            Namespace::Prekey => "prekey"@,
            Namespace::SignedPrekey => "signedpre"@,
            Namespace::SenderKey => "senderkey"@,
            Namespace::SyncKey => "synckey"@,
        }
    }

    /// What the namespace is called in the partition.
    pub fn name(&self) -> (r: &'static str)
        ensures
            r@ == self.spec_name(),
            r@ == match *self {
                Namespace::Control => "control"@,
                Namespace::Device => "device"@,
                Namespace::Identity => "identity"@,
                Namespace::Session => "session"@,
                Namespace::Prekey => "prekey"@,
                Namespace::SignedPrekey => "signedpre"@,
                Namespace::SenderKey => "senderkey"@,
                Namespace::SyncKey => "synckey"@,
            },
    {
        match *self {
            Namespace::Control => "control",
            Namespace::Device => "device",
            Namespace::Identity => "identity",
            Namespace::Session => "session",
            Namespace::Prekey => "prekey",
            Namespace::SignedPrekey => "signedpre",
            Namespace::SenderKey => "senderkey",
            Namespace::SyncKey => "synckey",
        }
    }

    /// The label for `label`.
    pub open spec fn spec_label(self) -> Seq<char> {
        match self {
            Namespace::Control => "control"@,
            Namespace::Device => "device"@,
            Namespace::Identity => "identity"@,
            Namespace::Session => "session"@,
            Namespace::Prekey => "prekey"@,
            Namespace::SignedPrekey => "signed prekey"@,
            Namespace::SenderKey => "sender key"@,
            Namespace::SyncKey => "sync key"@,
        }
    }

    /// What a record of the namespace is called in messages.
    pub fn label(&self) -> (r: &'static str)
        ensures
            r@ == self.spec_label(),
    {
        match *self {
            Namespace::Control => "control",
            Namespace::Device => "device",
            Namespace::Identity => "identity",
            Namespace::Session => "session",
            Namespace::Prekey => "prekey",
            Namespace::SignedPrekey => "signed prekey",
            Namespace::SenderKey => "sender key",
            Namespace::SyncKey => "sync key",
        }
    }

    /// The label for `hyphenated`.
    pub open spec fn spec_hyphenated(self) -> Seq<char> {
        match self {
            Namespace::SignedPrekey => "signed-prekey"@,
            Namespace::SenderKey => "sender-key"@,
            Namespace::SyncKey => "sync-key"@,
            _ => self.spec_label(),
        }
    }

    /// The label as one word.
    pub fn hyphenated(&self) -> (r: &'static str)
        ensures
            r@ == self.spec_hyphenated(),
    {
        match *self {
            Namespace::SignedPrekey => "signed-prekey",
            Namespace::SenderKey => "sender-key",
            Namespace::SyncKey => "sync-key",
            _ => self.label(),
        }
    }

    /// A namespace of records that are named by their logical key.
    pub open spec fn is_keyed(self) -> bool {
        !(self == Namespace::Control || self == Namespace::Device)
    }

    /// How many records the namespace may hold.
    pub open spec fn spec_max_entries(self) -> usize {
        match self {
            Namespace::Control | Namespace::Device => 1,
            Namespace::Identity => MAX_IDENTITIES,
            Namespace::Session => MAX_SESSIONS,
            Namespace::Prekey => MAX_PREKEYS,
            Namespace::SignedPrekey => MAX_SIGNED_PREKEYS,
            Namespace::SenderKey => MAX_SENDER_KEYS,
            Namespace::SyncKey => MAX_SYNC_KEYS,
        }
    }

    /// How many records the namespace may hold.
    pub fn max_entries(&self) -> (r: usize)
        ensures
            r == self.spec_max_entries(),
            r == match *self {
                Namespace::Control | Namespace::Device => 1int,
                Namespace::Identity | Namespace::Session | Namespace::SenderKey => 2048,
                Namespace::Prekey | Namespace::SyncKey => 256,
                Namespace::SignedPrekey => 16,
            },
    {
        match *self {
            Namespace::Control | Namespace::Device => 1,
            Namespace::Identity => MAX_IDENTITIES,
            Namespace::Session => MAX_SESSIONS,
            Namespace::Prekey => MAX_PREKEYS,
            Namespace::SignedPrekey => MAX_SIGNED_PREKEYS,
            Namespace::SenderKey => MAX_SENDER_KEYS,
            Namespace::SyncKey => MAX_SYNC_KEYS,
        }
    }

    /// How long a value in the namespace may be.
    pub open spec fn spec_max_value_len(self) -> usize {
        match self {
            Namespace::Identity => 32,
            Namespace::Device => MAX_DEVICE_LEN,
            _ => MAX_SIGNAL_RECORD_LEN,
        }
    }

    /// How long a value in the namespace may be.
    pub fn max_value_len(&self) -> (r: usize)
        ensures
            r == self.spec_max_value_len(),
            *self == Namespace::Identity ==> r == 32,
            *self != Namespace::Identity ==> r == 65536,
    {
        match *self {
            Namespace::Identity => 32,
            Namespace::Device => MAX_DEVICE_LEN,
            _ => MAX_SIGNAL_RECORD_LEN,
        }
    }
}

/// Why the store refused.
#[derive(Debug)]
pub enum StoreError {
    Sealed,
    LimitReached(Namespace),
    RecordTooLarge { space: Namespace, len: usize },
    Collision { space: Namespace, name: String },
    KeyTooLong(usize),
    SyncKeyIdTooLong(usize),
    BadHeader,
    BadKeyLength,
    WrongDeviceKey,
    WrongLatestKey,
    TooManyRecords { space: Namespace, count: usize },
    Disappeared { space: Namespace, name: String },
    BlobTooLarge { name: String, len: usize },
    Mismatched { space: Namespace, name: String },
    LoadedTooLarge { space: Namespace, name: String, len: usize },
    InvalidKeyText(Namespace),
    InvalidKeyLength { space: Namespace, len: usize },
    IdentityLength { address: String, len: usize },
    Duplicate(Namespace),
    InvalidDevice,
    InvalidSyncKey,
    NotErased { space: Namespace, remaining: Option<usize> },
}

/// Why the store refused.
pub enum StoreFault {
    Sealed,
    LimitReached(Namespace),
    RecordTooLarge { space: Namespace, len: nat },
    Collision { space: Namespace, name: Seq<char> },
    KeyTooLong(nat),
    SyncKeyIdTooLong(nat),
    BadHeader,
    BadKeyLength,
    WrongDeviceKey,
    WrongLatestKey,
    TooManyRecords { space: Namespace, count: nat },
    Disappeared { space: Namespace, name: Seq<char> },
    BlobTooLarge { name: Seq<char>, len: nat },
    Mismatched { space: Namespace, name: Seq<char> },
    LoadedTooLarge { space: Namespace, name: Seq<char>, len: nat },
    InvalidKeyText(Namespace),
    InvalidKeyLength { space: Namespace, len: nat },
    IdentityLength { address: Seq<char>, len: nat },
    Duplicate(Namespace),
    InvalidDevice,
    InvalidSyncKey,
    NotErased { space: Namespace, remaining: Option<usize> },
}

impl View for StoreError {
    type V = StoreFault;

    open spec fn view(&self) -> StoreFault {
        match *self {
            StoreError::Sealed => StoreFault::Sealed,
            StoreError::LimitReached(space) => StoreFault::LimitReached(space),
            StoreError::RecordTooLarge { space, len } => StoreFault::RecordTooLarge {
                space,
                len: len as nat,
            },
            StoreError::Collision { space, name } => StoreFault::Collision { space, name: name@ },
            StoreError::KeyTooLong(len) => StoreFault::KeyTooLong(len as nat),
            StoreError::SyncKeyIdTooLong(len) => StoreFault::SyncKeyIdTooLong(len as nat),
            StoreError::BadHeader => StoreFault::BadHeader,
            StoreError::BadKeyLength => StoreFault::BadKeyLength,
            StoreError::WrongDeviceKey => StoreFault::WrongDeviceKey,
            StoreError::WrongLatestKey => StoreFault::WrongLatestKey,
            StoreError::TooManyRecords { space, count } => StoreFault::TooManyRecords {
                space,
                count: count as nat,
            },
            StoreError::Disappeared { space, name } => StoreFault::Disappeared {
                space,
                name: name@,
            },
            StoreError::BlobTooLarge { name, len } => StoreFault::BlobTooLarge {
                name: name@,
                len: len as nat,
            },
            StoreError::Mismatched { space, name } => StoreFault::Mismatched { space, name: name@ },
            StoreError::LoadedTooLarge { space, name, len } => StoreFault::LoadedTooLarge {
                space,
                name: name@,
                len: len as nat,
            },
            StoreError::InvalidKeyText(space) => StoreFault::InvalidKeyText(space),
            StoreError::InvalidKeyLength { space, len } => StoreFault::InvalidKeyLength {
                space,
                len: len as nat,
            },
            StoreError::IdentityLength { address, len } => StoreFault::IdentityLength {
                address: address@,
                len: len as nat,
            },
            StoreError::Duplicate(space) => StoreFault::Duplicate(space),
            StoreError::InvalidDevice => StoreFault::InvalidDevice,
            StoreError::InvalidSyncKey => StoreFault::InvalidSyncKey,
            StoreError::NotErased { space, remaining } => StoreFault::NotErased {
                space,
                remaining,
            },
        }
    }
}

impl StoreFault {
    /// The sentence for `StoreError::message`.
    pub open spec fn message(self) -> Seq<char> {
        match self {
            StoreFault::Sealed => "WhatsApp storage is sealed for maintenance"@,
            StoreFault::LimitReached(space) => space.spec_label() + " storage limit reached ("@
                + decimal(space.spec_max_entries() as nat) + " records)"@,
            StoreFault::RecordTooLarge { space, len } => space.spec_label()
                + " record is too large: "@ + decimal(len) + " bytes"@,
            StoreFault::Collision { space, name } => space.spec_label() + " NVS key collision at '"@
                + name + "'"@,
            StoreFault::KeyTooLong(len) => "logical storage key is too long: "@ + decimal(len)
                + " bytes"@,
            StoreFault::SyncKeyIdTooLong(len) => "sync key id is too long: "@ + decimal(len)
                + " bytes"@,
            StoreFault::BadHeader => "invalid WhatsApp NVS record header"@,
            StoreFault::BadKeyLength => "invalid WhatsApp NVS logical-key length"@,
            StoreFault::WrongDeviceKey => "device record contains the wrong logical key"@,
            StoreFault::WrongLatestKey => {
                "latest sync key record contains the wrong logical key"@
            },
            StoreFault::TooManyRecords { space, count } => space.spec_label() + " namespace has "@
                + decimal(count) + " records; maximum is "@ + decimal(
                space.spec_max_entries() as nat,
            ),
            StoreFault::Disappeared { space, name } => space.spec_label() + " record '"@ + name
                + "' disappeared during startup"@,
            StoreFault::BlobTooLarge { name, len } => "NVS record '"@ + name
                + "' is too large: "@ + decimal(len) + " bytes"@,
            StoreFault::Mismatched { space, name } => space.spec_label() + " record '"@ + name
                + "' has a mismatched logical key"@,
            StoreFault::LoadedTooLarge { space, name, len } => space.spec_label() + " record '"@
                + name + "' is too large: "@ + decimal(len) + " bytes"@,
            StoreFault::InvalidKeyText(space) => "invalid "@ + space.spec_label() + " key"@,
            StoreFault::InvalidKeyLength { space, len } => "invalid "@ + space.spec_label()
                + " numeric key length: "@ + decimal(len),
            StoreFault::IdentityLength { address, len } => "identity record for '"@ + address
                + "' has "@ + decimal(len) + " bytes"@,
            StoreFault::Duplicate(space) => "duplicate "@ + space.spec_hyphenated()
                + " record in WhatsApp NVS"@,
            StoreFault::InvalidDevice => "invalid device record"@,
            StoreFault::InvalidSyncKey => "invalid sync key record"@,
            StoreFault::NotErased { space, remaining } => "failed to erase NVS "@
                + space.spec_label() + " namespace after 3 attempts"@ + match remaining {
                Some(n) => ": verification found "@ + decimal(n as nat) + " remaining records"@,
                None => ""@,
            },
        }
    }
}

impl StoreError {
    /// A sentence for a log or an answer.
    pub fn message(&self) -> (r: String)
        ensures
            r@ == self@.message(),
    {
        match self {
            StoreError::Sealed => "WhatsApp storage is sealed for maintenance".to_owned(),
            StoreError::LimitReached(space) => {
                let mut text = space.label().to_owned();
                text.append(" storage limit reached (");
                text.append(decimal_text(space.max_entries() as u64).as_str());
                text.append(" records)");
                text
            },
            StoreError::RecordTooLarge { space, len } => {
                let mut text = space.label().to_owned();
                text.append(" record is too large: ");
                text.append(decimal_text(*len as u64).as_str());
                text.append(" bytes");
                text
            },
            StoreError::Collision { space, name } => {
                let mut text = space.label().to_owned();
                text.append(" NVS key collision at '");
                text.append(name.as_str());
                text.append("'");
                text
            },
            StoreError::KeyTooLong(len) => {
                let mut text = "logical storage key is too long: ".to_owned();
                text.append(decimal_text(*len as u64).as_str());
                text.append(" bytes");
                text
            },
            StoreError::SyncKeyIdTooLong(len) => {
                let mut text = "sync key id is too long: ".to_owned();
                text.append(decimal_text(*len as u64).as_str());
                text.append(" bytes");
                text
            },
            StoreError::BadHeader => "invalid WhatsApp NVS record header".to_owned(),
            StoreError::BadKeyLength => "invalid WhatsApp NVS logical-key length".to_owned(),
            StoreError::WrongDeviceKey => "device record contains the wrong logical key".to_owned(),
            StoreError::WrongLatestKey => {
                "latest sync key record contains the wrong logical key".to_owned()
            },
            StoreError::TooManyRecords { space, count } => {
                let mut text = space.label().to_owned();
                text.append(" namespace has ");
                text.append(decimal_text(*count as u64).as_str());
                text.append(" records; maximum is ");
                text.append(decimal_text(space.max_entries() as u64).as_str());
                text
            },
            StoreError::Disappeared { space, name } => {
                let mut text = space.label().to_owned();
                text.append(" record '");
                text.append(name.as_str());
                text.append("' disappeared during startup");
                text
            },
            StoreError::BlobTooLarge { name, len } => {
                let mut text = "NVS record '".to_owned();
                text.append(name.as_str());
                text.append("' is too large: ");
                text.append(decimal_text(*len as u64).as_str());
                text.append(" bytes");
                text
            },
            StoreError::Mismatched { space, name } => {
                let mut text = space.label().to_owned();
                text.append(" record '");
                text.append(name.as_str());
                text.append("' has a mismatched logical key");
                text
            },
            StoreError::LoadedTooLarge { space, name, len } => {
                let mut text = space.label().to_owned();
                text.append(" record '");
                text.append(name.as_str());
                text.append("' is too large: ");
                text.append(decimal_text(*len as u64).as_str());
                text.append(" bytes");
                text
            },
            StoreError::InvalidKeyText(space) => {
                let mut text = "invalid ".to_owned();
                text.append(space.label());
                text.append(" key");
                text
            },
            StoreError::InvalidKeyLength { space, len } => {
                let mut text = "invalid ".to_owned();
                text.append(space.label());
                text.append(" numeric key length: ");
                text.append(decimal_text(*len as u64).as_str());
                text
            },
            StoreError::IdentityLength { address, len } => {
                let mut text = "identity record for '".to_owned();
                text.append(address.as_str());
                text.append("' has ");
                text.append(decimal_text(*len as u64).as_str());
                text.append(" bytes");
                text
            },
            StoreError::Duplicate(space) => {
                let mut text = "duplicate ".to_owned();
                text.append(space.hyphenated());
                text.append(" record in WhatsApp NVS");
                text
            },
            StoreError::InvalidDevice => "invalid device record".to_owned(),
            StoreError::InvalidSyncKey => "invalid sync key record".to_owned(),
            StoreError::NotErased { space, remaining } => {
                let mut text = "failed to erase NVS ".to_owned();
                text.append(space.label());
                text.append(" namespace after 3 attempts");
                if let Some(n) = remaining {
                    text.append(": verification found ");
                    text.append(decimal_text(*n as u64).as_str());
                    text.append(" remaining records");
                    assert(text@ =~= self@.message());
                } else {
                    proof {
                        reveal_strlit("");
                    }
                    assert(text@ =~= self@.message());
                }
                text
            },
        }
    }
}

/// The bytes that begin a record.
pub open spec fn record_magic() -> Seq<u8> {
    seq![87u8, 65, 49]
}

/// A record: the magic bytes, the length of the logical key, the key, and the
/// value.
pub open spec fn record_of(key: Seq<u8>, value: Seq<u8>) -> Seq<u8> {
    record_magic() + seq![(key.len() % 256) as u8, (key.len() / 256) as u8] + key + value
}

/// The logical key and the value of a record.
pub open spec fn parsed_record(record: Seq<u8>) -> Result<(Seq<u8>, Seq<u8>), StoreFault> {
    if record.len() < RECORD_HEADER_LEN || record.take(3) != record_magic() {
        Err(StoreFault::BadHeader)
    } else {
        let n = record[3] + record[4] * 256;
        if n > MAX_LOGICAL_KEY_LEN || n > record.len() - RECORD_HEADER_LEN {
            Err(StoreFault::BadKeyLength)
        } else {
            Ok(
                (
                    record.subrange(RECORD_HEADER_LEN as int, RECORD_HEADER_LEN + n),
                    record.skip(RECORD_HEADER_LEN + n),
                ),
            )
        }
    }
}

/// A record of a key and a value.
pub fn encode_record(logical_key: &[u8], value: &[u8]) -> (r: Result<Vec<u8>, StoreError>)
    ensures
        logical_key@.len() > MAX_LOGICAL_KEY_LEN ==> (r matches Err(e) && e@
            == StoreFault::KeyTooLong(logical_key@.len())),
        logical_key@.len() <= MAX_LOGICAL_KEY_LEN ==> (r matches Ok(record) && record@ == record_of(
            logical_key@,
            value@,
        )),
{
    let n = logical_key.len();
    if n > MAX_LOGICAL_KEY_LEN {
        return Err(StoreError::KeyTooLong(n));
    }
    let mut record: Vec<u8> = Vec::new();
    record.push(87);
    record.push(65);
    record.push(49);
    record.push((n % 256) as u8);
    record.push((n / 256) as u8);
    record.extend_from_slice(logical_key);
    record.extend_from_slice(value);
    assert(record@ =~= record_of(logical_key@, value@));
    Ok(record)
}

/// The logical key and the value of a record.
pub fn decode_record<'a>(record: &'a [u8]) -> (r: Result<(&'a [u8], &'a [u8]), StoreError>)
    ensures
        match parsed_record(record@) {
            Ok((key, value)) => r matches Ok((k, v)) && k@ == key && v@ == value,
            Err(fault) => r matches Err(e) && e@ == fault,
        },
{
    if record.len() < RECORD_HEADER_LEN {
        return Err(StoreError::BadHeader);
    }
    if record[0] != 87 || record[1] != 65 || record[2] != 49 {
        assert(record@.take(3)[0] == record@[0]);
        assert(record@.take(3)[1] == record@[1]);
        assert(record@.take(3)[2] == record@[2]);
        return Err(StoreError::BadHeader);
    }
    assert(record@.take(3) =~= record_magic());
    let n: usize = record[3] as usize + record[4] as usize * 256;
    if n > MAX_LOGICAL_KEY_LEN || n > record.len() - RECORD_HEADER_LEN {
        return Err(StoreError::BadKeyLength);
    }
    let key = &record[RECORD_HEADER_LEN..RECORD_HEADER_LEN + n];
    let value = &record[RECORD_HEADER_LEN + n..record.len()];
    assert(value@ =~= record@.skip(RECORD_HEADER_LEN + n));
    Ok((key, value))
}

/// What a record was made of is what is read back of it.
pub proof fn record_is_read_back(key: Seq<u8>, value: Seq<u8>)
    requires
        key.len() <= MAX_LOGICAL_KEY_LEN,
    ensures
        parsed_record(record_of(key, value)) == Ok::<(Seq<u8>, Seq<u8>), StoreFault>((key, value)),
{
    let record = record_of(key, value);
    let n = key.len() as int;
    assert(record.take(3) =~= record_magic());
    assert(record[3] == (n % 256) as u8);
    assert(record[4] == (n / 256) as u8);
    assert(record[3] + record[4] * 256 == n);
    assert(record.subrange(5, 5 + n) =~= key);
    assert(record.skip(5 + n) =~= value);
}

/// A key and a value are read back from one record only.
pub proof fn read_back_record_is_the_written_one(record: Seq<u8>, key: Seq<u8>, value: Seq<u8>)
    requires
        parsed_record(record) == Ok::<(Seq<u8>, Seq<u8>), StoreFault>((key, value)),
    ensures
        record == record_of(key, value),
        key.len() <= MAX_LOGICAL_KEY_LEN,
{
    let n = key.len() as int;
    assert(n == record[3] + record[4] * 256);
    assert(record =~= record_of(key, value)) by {
        assert(record.take(3)[0] == record[0]);
        assert(record.take(3)[1] == record[1]);
        assert(record.take(3)[2] == record[2]);
    }
}

/// The five bits of a hash that begin at bit `5 * i`.
pub open spec fn five_bits(hash: Seq<u8>, i: int) -> u16 {
    let at = 5 * i / 8;
    let shift = 5 * i % 8;
    let window = (hash[at] * 256 + hash[at + 1]) as u16;
    (window >> ((11 - shift) as u16)) & 31
}

/// The base32 digit of a value below 32.
pub open spec fn base32_char(v: int) -> char {
    if v < 26 {
        (97 + v) as u8 as char
    } else {
        (24 + v) as u8 as char
    }
}

/// The name of the record of a logical key: the first 75 bits of the key's hash
/// as fifteen base32 digits, which is as long as a name may be.
pub open spec fn name_of(key: Seq<u8>) -> Seq<char> {
    Seq::new(15, |i: int| base32_char(five_bits(sha256_hash(key), i) as int))
}

/// A name is fifteen letters and digits, as flash wants it, whatever the key.
pub proof fn names_fit_flash(key: Seq<u8>)
    ensures
        name_of(key).len() == 15,
        forall|i: int|
            0 <= i < 15 ==> {
                let c = #[trigger] name_of(key)[i];
                ('a' <= c <= 'z') || ('2' <= c <= '7')
            },
{
    assert forall|i: int| 0 <= i < 15 implies {
        let c = #[trigger] name_of(key)[i];
        ('a' <= c <= 'z') || ('2' <= c <= '7')
    } by {
        let bits = five_bits(sha256_hash(key), i);
        let hash = sha256_hash(key);
        let window = (hash[5 * i / 8] * 256 + hash[5 * i / 8 + 1]) as u16;
        let shift = (11 - 5 * i % 8) as u16;
        assert((window >> shift) & 31 < 32) by (bit_vector);
        assert(bits < 32);
    }
}

/// The name of the record of a logical key.
pub fn record_name(logical_key: &[u8]) -> (r: String)
    ensures
        r@ == name_of(logical_key@),
{
    let digest = sha256(logical_key);
    let mut chars: Vec<char> = Vec::new();
    let mut i: usize = 0;
    while i < 15
        invariant
            i <= 15,
            digest@ == sha256_hash(logical_key@),
            digest@.len() == 32,
            chars@ == name_of(logical_key@).take(i as int),
        decreases 15 - i,
    {
        let at: usize = 5 * i / 8;
        let shift: usize = 5 * i % 8;
        let window: u16 = digest[at] as u16 * 256 + digest[at + 1] as u16;
        let bits: u16 = (window >> ((11 - shift) as u16)) & 31;
        assert((window >> ((11 - shift) as u16)) & 31 < 32) by (bit_vector);
        assert(bits == five_bits(digest@, i as int));
        let c: char = if bits < 26 {
            (97 + bits as u8) as char
        } else {
            (24 + bits as u8) as char
        };
        chars.push(c);
        i += 1;
        assert(name_of(logical_key@).take(i as int) =~= name_of(logical_key@).take(i - 1).push(c));
    }
    assert(chars@ =~= name_of(logical_key@));
    string_of(chars.as_slice())
}

/// What a read of a blob found.
#[derive(Debug)]
pub enum BlobRead {
    Absent,
    /// The blob has this many bytes, and that is more than was asked for.
    TooLarge(usize),
    Data(Vec<u8>),
}

/// What a read of a blob found.
pub enum BlobView {
    Absent,
    TooLarge(nat),
    Data(Seq<u8>),
}

impl View for BlobRead {
    type V = BlobView;

    open spec fn view(&self) -> BlobView {
        match *self {
            BlobRead::Absent => BlobView::Absent,
            BlobRead::TooLarge(len) => BlobView::TooLarge(len as nat),
            BlobRead::Data(data) => BlobView::Data(data@),
        }
    }
}

/// The blob that a read found, of at most `max` bytes.
pub open spec fn blob_within(name: Seq<char>, blob: BlobView, max: int) -> Result<
    Option<Seq<u8>>,
    StoreFault,
> {
    match blob {
        BlobView::Absent => Ok(None),
        BlobView::TooLarge(len) => Err(StoreFault::BlobTooLarge { name, len }),
        BlobView::Data(data) => if data.len() > max {
            Err(StoreFault::BlobTooLarge { name, len: data.len() })
        } else {
            Ok(Some(data))
        },
    }
}

/// The blob that a read found, of at most `max` bytes.
pub fn read_blob<'a>(name: &str, blob: &'a BlobRead, max: usize) -> (r: Result<
    Option<&'a [u8]>,
    StoreError,
>)
    ensures
        match blob_within(name@, blob@, max as int) {
            Ok(None) => r matches Ok(None),
            Ok(Some(data)) => r matches Ok(Some(d)) && d@ == data,
            Err(fault) => r matches Err(e) && e@ == fault,
        },
{
    match blob {
        BlobRead::Absent => Ok(None),
        BlobRead::TooLarge(len) => Err(
            StoreError::BlobTooLarge { name: name.to_owned(), len: *len },
        ),
        BlobRead::Data(data) => if data.len() > max {
            Err(StoreError::BlobTooLarge { name: name.to_owned(), len: data.len() })
        } else {
            Ok(Some(data.as_slice()))
        },
    }
}

/// The longest blob that a keyed record can be.
pub const MAX_RECORD_BLOB_LEN: usize = 66053;

/// Whether the record that lies under a key's name is that key's, or there is
/// none: the fault, if not.
pub open spec fn collision_fault(space: Namespace, key: Seq<u8>, existing: BlobView) -> Result<
    bool,
    StoreFault,
> {
    match blob_within(name_of(key), existing, MAX_RECORD_BLOB_LEN as int) {
        Err(fault) => Err(fault),
        Ok(None) => Ok(false),
        Ok(Some(data)) => match parsed_record(data) {
            Err(fault) => Err(fault),
            Ok((stored, _)) => if stored != key {
                Err(StoreFault::Collision { space, name: name_of(key) })
            } else {
                Ok(true)
            },
        },
    }
}

/// Whether a record of this key lies under its name; an error where the record
/// there is another's.
pub fn find_record(space: Namespace, key: &[u8], name: &str, existing: &BlobRead) -> (r: Result<
    bool,
    StoreError,
>)
    requires
        name@ == name_of(key@),
    ensures
        match collision_fault(space, key@, existing@) {
            Ok(found) => r matches Ok(f) && f == found,
            Err(fault) => r matches Err(e) && e@ == fault,
        },
{
    match read_blob(name, existing, MAX_RECORD_BLOB_LEN) {
        Err(e) => Err(e),
        Ok(None) => Ok(false),
        Ok(Some(data)) => match decode_record(data) {
            Err(e) => Err(e),
            Ok((stored, _)) => if !same_bytes(stored, key) {
                Err(StoreError::Collision { space, name: name.to_owned() })
            } else {
                Ok(true)
            },
        },
    }
}

/// The record that is written for a key and a value over what lies under the
/// key's name, or why none is.
pub open spec fn put_verdict(
    space: Namespace,
    key: Seq<u8>,
    value: Seq<u8>,
    existing: BlobView,
) -> Result<Seq<u8>, StoreFault> {
    if value.len() > MAX_SIGNAL_RECORD_LEN {
        Err(StoreFault::RecordTooLarge { space, len: value.len() })
    } else {
        match collision_fault(space, key, existing) {
            Err(fault) => Err(fault),
            Ok(_) => if key.len() > MAX_LOGICAL_KEY_LEN {
                Err(StoreFault::KeyTooLong(key.len()))
            } else {
                Ok(record_of(key, value))
            },
        }
    }
}

/// The record to write for a key and a value over what lies under the key's
/// name. A record of another key is never overwritten.
pub fn put_record(
    space: Namespace,
    key: &[u8],
    value: &[u8],
    name: &str,
    existing: &BlobRead,
) -> (r: Result<Vec<u8>, StoreError>)
    requires
        name@ == name_of(key@),
    ensures
        match put_verdict(space, key@, value@, existing@) {
            Ok(record) => r matches Ok(got) && got@ == record,
            Err(fault) => r matches Err(e) && e@ == fault,
        },
{
    if value.len() > MAX_SIGNAL_RECORD_LEN {
        return Err(StoreError::RecordTooLarge { space, len: value.len() });
    }
    match find_record(space, key, name, existing) {
        Err(e) => Err(e),
        Ok(_) => encode_record(key, value),
    }
}

/// A change to flash. Each is committed before the next is made.
#[derive(Debug)]
pub enum FlashAction {
    Write { space: Namespace, name: String, record: Vec<u8> },
    /// Removes the blob, where there is one.
    Remove { space: Namespace, name: String },
    /// Erases all of a namespace.
    Erase { space: Namespace },
}

/// A change to flash.
pub enum Change {
    Write { space: Namespace, name: Seq<char>, record: Seq<u8> },
    Remove { space: Namespace, name: Seq<char> },
    Erase { space: Namespace },
}

impl View for FlashAction {
    type V = Change;

    open spec fn view(&self) -> Change {
        match *self {
            FlashAction::Write { space, name, record } => Change::Write {
                space,
                name: name@,
                record: record@,
            },
            FlashAction::Remove { space, name } => Change::Remove { space, name: name@ },
            FlashAction::Erase { space } => Change::Erase { space },
        }
    }
}

/// What actions change.
pub open spec fn changes(actions: Seq<FlashAction>) -> Seq<Change> {
    actions.map_values(|a: FlashAction| a@)
}

/// What flash holds: the blobs of each namespace, by name.
pub struct FlashView {
    pub blobs: Map<(Namespace, Seq<char>), Seq<u8>>,
}

impl FlashView {
    /// The blob of this name.
    pub open spec fn blob(self, space: Namespace, name: Seq<char>) -> Option<Seq<u8>> {
        if self.blobs.contains_key((space, name)) {
            Some(self.blobs[(space, name)])
        } else {
            None
        }
    }

    /// What a read that asks for at most `max` bytes finds.
    pub open spec fn read(self, space: Namespace, name: Seq<char>, max: int) -> BlobView {
        match self.blob(space, name) {
            None => BlobView::Absent,
            Some(data) => if data.len() > max {
                BlobView::TooLarge(data.len())
            } else {
                BlobView::Data(data)
            },
        }
    }

    /// Whether a namespace holds no blob.
    pub open spec fn is_empty(self, space: Namespace) -> bool {
        forall|name: Seq<char>| !#[trigger] self.blobs.contains_key((space, name))
    }

    /// Flash after a change.
    pub open spec fn after(self, change: Change) -> FlashView {
        FlashView {
            blobs: match change {
                Change::Write { space, name, record } => self.blobs.insert((space, name), record),
                Change::Remove { space, name } => self.blobs.remove((space, name)),
                Change::Erase { space } => Map::new(
                    |at: (Namespace, Seq<char>)| self.blobs.contains_key(at) && at.0 != space,
                    |at: (Namespace, Seq<char>)| self.blobs[at],
                ),
            },
        }
    }

    /// Flash after changes, made in order.
    pub open spec fn after_all(self, all: Seq<Change>) -> FlashView
        decreases all.len(),
    {
        if all.len() == 0 {
            self
        } else {
            self.after_all(all.drop_last()).after(all.last())
        }
    }
}

/// What to do after an attempt to erase a namespace.
#[derive(Clone, Copy, Debug, PartialEq, Eq, Structural)]
pub enum EraseStep {
    Done,
    Retry,
    Failed,
}

/// What an attempt to erase a namespace came to.
#[derive(Clone, Copy, Debug, PartialEq, Eq, Structural)]
pub enum EraseOutcome {
    /// The erase went through, and this many records were found after it.
    Remaining(usize),
    /// The erase, or the look at what was left, failed.
    Error,
}

/// How often an erase is attempted.
pub const ERASE_ATTEMPTS: u32 = 3;

/// What to do after the `attempt`-th attempt, counted from one: an erase counts
/// only once a look has found nothing left, and is tried three times.
pub fn erase_step(attempt: u32, outcome: EraseOutcome) -> (r: EraseStep)
    ensures
        r == if outcome == EraseOutcome::Remaining(0) {
            EraseStep::Done
        } else if attempt < 3 {
            EraseStep::Retry
        } else {
            EraseStep::Failed
        },
{
    match outcome {
        EraseOutcome::Remaining(0) => EraseStep::Done,
        _ => if attempt < ERASE_ATTEMPTS {
            EraseStep::Retry
        } else {
            EraseStep::Failed
        },
    }
}

/// How a record lies in flash: `WA1`, the length of the key with its low byte first,
/// the key, and the value.
pub open spec fn record_bytes(key: Seq<u8>, value: Seq<u8>) -> Seq<u8> {
    seq![0x57u8, 0x41, 0x31, (key.len() % 256) as u8, (key.len() / 256) as u8] + key + value
}

/// Records are written as they lie in flash, and what lies in flash that way is read as
/// the key and the value it was written from.
pub proof fn records_lie_as_they_are_read(key: Seq<u8>, value: Seq<u8>)
    requires
        key.len() <= 512,
    ensures
        record_of(key, value) == record_bytes(key, value),
        parsed_record(record_bytes(key, value)) == Ok::<(Seq<u8>, Seq<u8>), StoreFault>(
            (key, value),
        ),
        record_bytes(key, value).len() == 5 + key.len() + value.len(),
{
    assert(record_of(key, value) =~= record_bytes(key, value));
    record_is_read_back(key, value);
}

/// Bytes that do not begin with `WA1`, or are fewer than a header, are no record; and
/// none is one whose key would be longer than 512 bytes or than what is there.
pub proof fn other_bytes_are_no_record(record: Seq<u8>)
    ensures
        record.len() < 5 ==> parsed_record(record) == Err::<(Seq<u8>, Seq<u8>), StoreFault>(
            StoreFault::BadHeader,
        ),
        record.len() >= 5 && !(record[0] == 0x57 && record[1] == 0x41 && record[2] == 0x31)
            ==> parsed_record(record) == Err::<(Seq<u8>, Seq<u8>), StoreFault>(
            StoreFault::BadHeader,
        ),
        record.len() >= 5 && record[0] == 0x57 && record[1] == 0x41 && record[2] == 0x31 && (
        record[3] + 256 * record[4] > 512 || record[3] + 256 * record[4] > record.len() - 5)
            ==> parsed_record(record) == Err::<(Seq<u8>, Seq<u8>), StoreFault>(
            StoreFault::BadKeyLength,
        ),
{
    if record.len() >= 5 {
        assert(record.take(3)[0] == record[0]);
        assert(record.take(3)[1] == record[1]);
        assert(record.take(3)[2] == record[2]);
        if record[0] == 0x57 && record[1] == 0x41 && record[2] == 0x31 {
            assert(record.take(3) =~= record_magic());
        }
    }
}

/// How much each namespace holds, and what it is called.
pub proof fn namespaces_have_their_bounds(space: Namespace)
    ensures
        space.spec_max_entries() == match space {
            Namespace::Control | Namespace::Device => 1usize,
            Namespace::Identity | Namespace::Session | Namespace::SenderKey => 2048,
            Namespace::Prekey | Namespace::SyncKey => 256,
            Namespace::SignedPrekey => 16,
        },
        space.spec_max_value_len() == if space == Namespace::Identity {
            32usize
        } else {
            65536
        },
        space.spec_name() == match space {
            Namespace::Control => "control"@,
            Namespace::Device => "device"@,
            Namespace::Identity => "identity"@,
            Namespace::Session => "session"@,
            Namespace::Prekey => "prekey"@,
            Namespace::SignedPrekey => "signedpre"@,
            Namespace::SenderKey => "senderkey"@,
            Namespace::SyncKey => "synckey"@,
        },
        space.is_keyed() <==> space == Namespace::Identity || space == Namespace::Session || space
            == Namespace::Prekey || space == Namespace::SignedPrekey || space
            == Namespace::SenderKey || space == Namespace::SyncKey,
{
}

proof fn lemma_names_differ(space: Namespace, other: Namespace)
    ensures
        space.spec_name() == other.spec_name() ==> space == other,
{
    reveal_strlit("control");
    reveal_strlit("device");
    reveal_strlit("identity");
    reveal_strlit("session");
    reveal_strlit("prekey");
    reveal_strlit("signedpre");
    reveal_strlit("senderkey");
    reveal_strlit("synckey");
    assert("control"@[0] == 'c' && "session"@[0] == 's' && "synckey"@[0] == 's');
    assert("session"@[1] == 'e' && "synckey"@[1] == 'y');
    assert("device"@[0] == 'd' && "prekey"@[0] == 'p');
    assert("signedpre"@[1] == 'i' && "senderkey"@[1] == 'e');
    assert("control"@.len() == 7 && "device"@.len() == 6 && "identity"@.len() == 8);
    assert("session"@.len() == 7 && "prekey"@.len() == 6 && "signedpre"@.len() == 9);
    assert("senderkey"@.len() == 9 && "synckey"@.len() == 7);
}

/// No two namespaces share a name, so no record of one is taken for another's.
pub proof fn namespaces_are_apart(space: Namespace, other: Namespace)
    ensures
        space != other ==> space.spec_name() != other.spec_name(),
{
    lemma_names_differ(space, other);
}

/// What a put comes to, by what lies under the name: with nothing there, or an earlier
/// record of the same key, the record of the key and the value is written; a record of
/// another key, and anything that is no record, is never overwritten.
pub proof fn puts_respect_what_is_there(
    space: Namespace,
    key: Seq<u8>,
    value: Seq<u8>,
    there: Seq<u8>,
    older: Seq<u8>,
)
    ensures
        value.len() > 65536 ==> put_verdict(space, key, value, BlobView::Data(there)) == Err::<
            Seq<u8>,
            StoreFault,
        >(StoreFault::RecordTooLarge { space, len: value.len() }),
        value.len() <= 65536 && key.len() > 512 ==> put_verdict(space, key, value, BlobView::Absent)
            == Err::<Seq<u8>, StoreFault>(StoreFault::KeyTooLong(key.len())),
        value.len() <= 65536 && key.len() <= 512 ==> put_verdict(
            space,
            key,
            value,
            BlobView::Absent,
        ) == Ok::<Seq<u8>, StoreFault>(record_bytes(key, value)),
        value.len() <= 65536 && key.len() <= 512 && older.len() <= 65536 ==> put_verdict(
            space,
            key,
            value,
            BlobView::Data(record_bytes(key, older)),
        ) == Ok::<Seq<u8>, StoreFault>(record_bytes(key, value)),
        value.len() <= 65536 && there.len() <= 512 && older.len() <= 65536 && there != key
            ==> put_verdict(space, key, value, BlobView::Data(record_bytes(there, older))) == Err::<
            Seq<u8>,
            StoreFault,
        >(StoreFault::Collision { space, name: name_of(key) }),
        value.len() <= 65536 && parsed_record(there) is Err ==> put_verdict(
            space,
            key,
            value,
            BlobView::Data(there),
        ) is Err,
{
    if key.len() <= 512 {
        records_lie_as_they_are_read(key, value);
        records_lie_as_they_are_read(key, older);
    }
    if there.len() <= 512 {
        records_lie_as_they_are_read(there, older);
    }
}

/// A removal finds the record of its key, and never another's.
pub proof fn removals_find_their_own(space: Namespace, key: Seq<u8>, other: Seq<u8>, value: Seq<u8>)
    requires
        key.len() <= 512,
        other.len() <= 512,
        value.len() <= 65536,
    ensures
        collision_fault(space, key, BlobView::Absent) == Ok::<bool, StoreFault>(false),
        collision_fault(space, key, BlobView::Data(record_bytes(key, value))) == Ok::<
            bool,
            StoreFault,
        >(true),
        other != key ==> collision_fault(space, key, BlobView::Data(record_bytes(other, value)))
            == Err::<bool, StoreFault>(StoreFault::Collision { space, name: name_of(key) }),
{
    records_lie_as_they_are_read(key, value);
    records_lie_as_they_are_read(other, value);
}

/// A blob is handed on as it is, unless it is longer than was asked for.
pub proof fn blobs_are_handed_on(name: Seq<char>, data: Seq<u8>, max: int, len: nat)
    ensures
        blob_within(name, BlobView::Absent, max) == Ok::<Option<Seq<u8>>, StoreFault>(None),
        data.len() <= max ==> blob_within(name, BlobView::Data(data), max) == Ok::<
            Option<Seq<u8>>,
            StoreFault,
        >(Some(data)),
        data.len() > max ==> blob_within(name, BlobView::Data(data), max) == Err::<
            Option<Seq<u8>>,
            StoreFault,
        >(StoreFault::BlobTooLarge { name, len: data.len() }),
        blob_within(name, BlobView::TooLarge(len), max) == Err::<Option<Seq<u8>>, StoreFault>(
            StoreFault::BlobTooLarge { name, len },
        ),
{
}

/// The five bits of some bytes that begin at bit `at`: those that are left of the byte
/// it lies in, with those of the next byte where they are too few.
pub open spec fn bits_at(bytes: Seq<u8>, at: int) -> u8 {
    let high = bytes[at / 8];
    let low = bytes[at / 8 + 1];
    let shift = (at % 8) as u8;
    ((high << shift) | (if shift > 3 {
        low >> ((8 - shift) as u8)
    } else {
        0u8
    })) >> 3u8
}

proof fn lemma_five_bits(high: u8, low: u8, shift: u8)
    requires
        shift < 8,
    ensures
        ((((high as u16) * 256 + (low as u16)) as u16 >> ((11 - shift) as u16)) & 31) == (((high
            << shift) | (if shift > 3 {
            low >> ((8 - shift) as u8)
        } else {
            0u8
        })) >> 3u8) as u16,
{
    let window = ((high as u16) * 256 + (low as u16)) as u16;
    let up = (11 - shift) as u16;
    let down = (8 - shift) as u8;
    assert(window == ((high as u16) << 8u16) | (low as u16)) by (bit_vector)
        requires
            window == (high as u16) * 256 + (low as u16),
    ;
    assert((window >> up) & 31 == (((high << shift) | (if shift > 3 {
        low >> down
    } else {
        0u8
    })) >> 3u8) as u16) by (bit_vector)
        requires
            window == ((high as u16) << 8u16) | (low as u16),
            shift < 8,
            up == 11 - (shift as u16),
            down == 8 - shift,
    ;
}

/// The name of a record is the first 75 bits of its key's hash, five at a time, in the
/// base32 alphabet: keys whose names agree have hashes that agree in those bits.
pub proof fn names_are_the_hash_in_base32(key: Seq<u8>, i: int)
    requires
        0 <= i < 15,
    ensures
        name_of(key).len() == 15,
        bits_at(sha256_hash(key), 5 * i) < 32,
        name_of(key)[i] == "abcdefghijklmnopqrstuvwxyz234567"@[bits_at(
            sha256_hash(key),
            5 * i,
        ) as int],
{
    let hash = sha256_hash(key);
    let high = hash[5 * i / 8];
    let low = hash[5 * i / 8 + 1];
    let shift = (5 * i % 8) as u8;
    lemma_five_bits(high, low, shift);
    let bits = bits_at(hash, 5 * i);
    let mixed = (high << shift) | (if shift > 3 {
        low >> ((8 - shift) as u8)
    } else {
        0u8
    });
    assert(mixed >> 3u8 < 32) by (bit_vector);
    assert(five_bits(hash, i) == bits as u16);
    reveal_strlit("abcdefghijklmnopqrstuvwxyz234567");
}

/// What a record of each namespace is called.
pub proof fn records_have_their_labels(space: Namespace)
    ensures
        space.spec_label() == match space {
            Namespace::Control => "control"@,
            Namespace::Device => "device"@,
            Namespace::Identity => "identity"@,
            Namespace::Session => "session"@,
            Namespace::Prekey => "prekey"@,
            Namespace::SignedPrekey => "signed prekey"@,
            Namespace::SenderKey => "sender key"@,
            Namespace::SyncKey => "sync key"@,
        }
    ,
        space.spec_hyphenated() == match space {
            Namespace::SignedPrekey => "signed-prekey"@,
            Namespace::SenderKey => "sender-key"@,
            Namespace::SyncKey => "sync-key"@,
            _ => space.spec_label(),
        },
{
}

/// Why the store refused is told in these words, with the names and numbers of the case.
pub proof fn refusals_are_told_in_words(fault: StoreFault)
    ensures
        fault.message() == match fault {
            StoreFault::Sealed => "WhatsApp storage is sealed for maintenance"@,
            StoreFault::LimitReached(space) => space.spec_label() + " storage limit reached ("@
                + decimal(space.spec_max_entries() as nat) + " records)"@,
            StoreFault::RecordTooLarge { space, len } => space.spec_label()
                + " record is too large: "@ + decimal(len) + " bytes"@,
            StoreFault::Collision { space, name } => space.spec_label() + " NVS key collision at '"@
                + name + "'"@,
            StoreFault::KeyTooLong(len) => "logical storage key is too long: "@ + decimal(len)
                + " bytes"@,
            StoreFault::SyncKeyIdTooLong(len) => "sync key id is too long: "@ + decimal(len)
                + " bytes"@,
            StoreFault::BadHeader => "invalid WhatsApp NVS record header"@,
            StoreFault::BadKeyLength => "invalid WhatsApp NVS logical-key length"@,
            StoreFault::WrongDeviceKey => "device record contains the wrong logical key"@,
            StoreFault::WrongLatestKey => {
                "latest sync key record contains the wrong logical key"@
            },
            StoreFault::TooManyRecords { space, count } => space.spec_label() + " namespace has "@
                + decimal(count) + " records; maximum is "@ + decimal(
                space.spec_max_entries() as nat,
            ),
            StoreFault::Disappeared { space, name } => space.spec_label() + " record '"@ + name
                + "' disappeared during startup"@,
            StoreFault::BlobTooLarge { name, len } => "NVS record '"@ + name
                + "' is too large: "@ + decimal(len) + " bytes"@,
            StoreFault::Mismatched { space, name } => space.spec_label() + " record '"@ + name
                + "' has a mismatched logical key"@,
            StoreFault::LoadedTooLarge { space, name, len } => space.spec_label() + " record '"@
                + name + "' is too large: "@ + decimal(len) + " bytes"@,
            StoreFault::InvalidKeyText(space) => "invalid "@ + space.spec_label() + " key"@,
            StoreFault::InvalidKeyLength { space, len } => "invalid "@ + space.spec_label()
                + " numeric key length: "@ + decimal(len),
            StoreFault::IdentityLength { address, len } => "identity record for '"@ + address
                + "' has "@ + decimal(len) + " bytes"@,
            StoreFault::Duplicate(space) => "duplicate "@ + space.spec_hyphenated()
                + " record in WhatsApp NVS"@,
            StoreFault::InvalidDevice => "invalid device record"@,
            StoreFault::InvalidSyncKey => "invalid sync key record"@,
            StoreFault::NotErased { space, remaining } => "failed to erase NVS "@
                + space.spec_label() + " namespace after 3 attempts"@ + match remaining {
                Some(n) => ": verification found "@ + decimal(n as nat) + " remaining records"@,
                None => ""@,
            },
        }
    ,
{
}

/// An error is the fault that it stands for.
pub proof fn errors_are_viewed_as_they_are(error: StoreError, blob: BlobRead, action: FlashAction)
    ensures
        error@ == match error {
            StoreError::Sealed => StoreFault::Sealed,
            StoreError::LimitReached(space) => StoreFault::LimitReached(space),
            StoreError::RecordTooLarge { space, len } => StoreFault::RecordTooLarge {
                space,
                len: len as nat,
            },
            StoreError::Collision { space, name } => StoreFault::Collision { space, name: name@ },
            StoreError::KeyTooLong(len) => StoreFault::KeyTooLong(len as nat),
            StoreError::SyncKeyIdTooLong(len) => StoreFault::SyncKeyIdTooLong(len as nat),
            StoreError::BadHeader => StoreFault::BadHeader,
            StoreError::BadKeyLength => StoreFault::BadKeyLength,
            StoreError::WrongDeviceKey => StoreFault::WrongDeviceKey,
            StoreError::WrongLatestKey => StoreFault::WrongLatestKey,
            StoreError::TooManyRecords { space, count } => StoreFault::TooManyRecords {
                space,
                count: count as nat,
            },
            StoreError::Disappeared { space, name } => StoreFault::Disappeared {
                space,
                name: name@,
            },
            StoreError::BlobTooLarge { name, len } => StoreFault::BlobTooLarge {
                name: name@,
                len: len as nat,
            },
            StoreError::Mismatched { space, name } => StoreFault::Mismatched { space, name: name@ },
            StoreError::LoadedTooLarge { space, name, len } => StoreFault::LoadedTooLarge {
                space,
                name: name@,
                len: len as nat,
            },
            StoreError::InvalidKeyText(space) => StoreFault::InvalidKeyText(space),
            StoreError::InvalidKeyLength { space, len } => StoreFault::InvalidKeyLength {
                space,
                len: len as nat,
            },
            StoreError::IdentityLength { address, len } => StoreFault::IdentityLength {
                address: address@,
                len: len as nat,
            },
            StoreError::Duplicate(space) => StoreFault::Duplicate(space),
            StoreError::InvalidDevice => StoreFault::InvalidDevice,
            StoreError::InvalidSyncKey => StoreFault::InvalidSyncKey,
            StoreError::NotErased { space, remaining } => StoreFault::NotErased {
                space,
                remaining,
            },
        }
    ,
        blob is Absent ==> blob@ == BlobView::Absent,
        blob matches BlobRead::TooLarge(len) ==> blob@ == BlobView::TooLarge(len as nat),
        blob matches BlobRead::Data(data) ==> blob@ == BlobView::Data(data@),
        action matches FlashAction::Write { space, name, record } ==> action@ == (Change::Write {
            space,
            name: name@,
            record: record@,
        }),
        action matches FlashAction::Remove { space, name } ==> action@ == (Change::Remove {
            space,
            name: name@,
        }),
        action matches FlashAction::Erase { space } ==> action@ == (Change::Erase { space }),
{
}

/// Actions change what each of them changes, in order.
pub proof fn actions_change_in_order(actions: Seq<FlashAction>)
    ensures
        changes(actions).len() == actions.len(),
        forall|i: int| 0 <= i < actions.len() ==> changes(actions)[i] == (#[trigger] actions[i])@,
{
}

/// What cannot be read is neither overwritten nor removed.
pub proof fn unreadable_blobs_are_left_alone(
    space: Namespace,
    key: Seq<u8>,
    value: Seq<u8>,
    len: nat,
    there: Seq<u8>,
)
    ensures
        collision_fault(space, key, BlobView::TooLarge(len)) == Err::<bool, StoreFault>(
            StoreFault::BlobTooLarge { name: name_of(key), len },
        ),
        value.len() <= 65536 ==> put_verdict(space, key, value, BlobView::TooLarge(len)) is Err,
        there.len() > 66053 ==> collision_fault(space, key, BlobView::Data(there)) is Err,
        parsed_record(there) is Err ==> collision_fault(space, key, BlobView::Data(there)) is Err,
{
}

} // verus!
