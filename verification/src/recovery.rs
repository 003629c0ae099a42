//! What flash and the mirror say of each other, through every write, across
//! boots and across power failures.

use crate::flash::{
    name_of, put_verdict, record_bytes, record_is_read_back, record_of,
    records_lie_as_they_are_read, Change, FlashView, Namespace, StoreFault, MAX_DEVICE_LEN,
    MAX_LOGICAL_KEY_LEN, MAX_RECORD_BLOB_LEN, RECORD_HEADER_LEN,
};
use crate::mirror::{
    chosen_latest, device_key, indexed, is_device_json, latest_key, loaded_device, loaded_each,
    loaded_record, loaded_records, loaded_rows, loaded_signal, newest, opened, parsed_sync_key,
    reset_completion, row_fault, signal_erasure, whole_reset, ImageView, Listing, MirrorView,
    MAX_DEVICE_BLOB_LEN, MAX_LATEST_BLOB_LEN,
};
use vstd::prelude::*;
use vstd::utf8::{encode_utf8, valid_utf8};

verus! {

/// A key and a value that a namespace can keep.
pub open spec fn row_kept(space: Namespace, key: Seq<u8>, value: Seq<u8>) -> bool {
    &&& key.len() <= MAX_LOGICAL_KEY_LEN
    &&& value.len() <= space.spec_max_value_len()
    &&& row_fault(space, key, value) is None
}

/// A namespace of flash holds exactly these rows: the record of each under its
/// name, and nothing else.
pub open spec fn mirrored(
    rows: Map<Seq<u8>, Seq<u8>>,
    flash: FlashView,
    space: Namespace,
) -> bool {
    &&& rows.dom().finite()
    &&& rows.dom().len() <= space.spec_max_entries()
    &&& forall|key: Seq<u8>| #[trigger]
        rows.contains_key(key) ==> row_kept(space, key, rows[key]) && flash.blob(
            space,
            name_of(key),
        ) == Some(record_of(key, rows[key]))
    &&& forall|name: Seq<char>| #[trigger]
        flash.blobs.contains_key((space, name)) ==> exists|key: Seq<u8>| #[trigger]
            rows.contains_key(key) && name_of(key) == name
}

/// Every keyed namespace of flash holds exactly the mirror's rows.
pub open spec fn rows_mirrored(mirror: MirrorView, flash: FlashView) -> bool {
    forall|space: Namespace| #[trigger]
        space.is_keyed() ==> mirrored(mirror.rows(space), flash, space)
}

/// Flash holds the mirror's device, or none where the mirror has none.
pub open spec fn device_mirrored(mirror: MirrorView, flash: FlashView) -> bool {
    match mirror.device {
        Some(device) => {
            &&& flash.blob(Namespace::Device, "current"@) == Some(record_of(device_key(), device))
            &&& is_device_json(device)
            &&& device.len() <= MAX_DEVICE_LEN
        },
        None => flash.blob(Namespace::Device, "current"@) is None,
    }
}

/// The record of the latest sync key names the mirror's, which is there.
pub open spec fn latest_mirrored(mirror: MirrorView, flash: FlashView) -> bool {
    match mirror.latest_sync_key_id {
        Some(id) => {
            &&& mirror.sync_keys.contains_key(id)
            &&& flash.blob(Namespace::Control, "latestsync"@) == Some(record_of(latest_key(), id))
        },
        None => mirror.sync_keys.dom().is_empty(),
    }
}

/// Flash and the mirror say the same, and no reset is under way.
pub open spec fn coherent(mirror: MirrorView, flash: FlashView) -> bool {
    &&& rows_mirrored(mirror, flash)
    &&& device_mirrored(mirror, flash)
    &&& latest_mirrored(mirror, flash)
    &&& flash.blob(Namespace::Control, "reset"@) is None
}

/// The longest blob that is read for a record of a namespace at boot.
pub open spec fn boot_limit(space: Namespace) -> int {
    RECORD_HEADER_LEN + MAX_LOGICAL_KEY_LEN + space.spec_max_value_len()
}

/// A listing shows a namespace of flash: each of its blobs once, in any order.
pub open spec fn lists(listing: Listing, flash: FlashView, space: Namespace) -> bool {
    &&& forall|i: int|
        0 <= i < listing.len() ==> flash.blobs.contains_key((space, (#[trigger] listing[i]).0))
            && listing[i].1 == flash.read(space, listing[i].0, boot_limit(space))
    &&& forall|i: int, j: int|
        0 <= i < j < listing.len() ==> (#[trigger] listing[i]).0 != (#[trigger] listing[j]).0
    &&& forall|name: Seq<char>| #[trigger]
        flash.blobs.contains_key((space, name)) ==> exists|i: int|
            0 <= i < listing.len() && (#[trigger] listing[i]).0 == name
}

/// An image shows what flash holds.
pub open spec fn shows(image: ImageView, flash: FlashView) -> bool {
    &&& image.reset == flash.read(Namespace::Control, "reset"@, 1)
    &&& image.device == flash.read(Namespace::Device, "current"@, MAX_DEVICE_BLOB_LEN as int)
    &&& image.latest == Some(
        flash.read(Namespace::Control, "latestsync"@, MAX_LATEST_BLOB_LEN as int),
    )
    &&& forall|space: Namespace| #[trigger]
        space.is_keyed() ==> lists(image.listing(space), flash, space)
}

/// The key whose record a name of the listing stands for.
spec fn key_of(rows: Map<Seq<u8>, Seq<u8>>, name: Seq<char>) -> Seq<u8> {
    choose|key: Seq<u8>| #[trigger] rows.contains_key(key) && name_of(key) == name
}

proof fn lemma_loaded_record(
    rows: Map<Seq<u8>, Seq<u8>>,
    flash: FlashView,
    space: Namespace,
    listing: Listing,
    i: int,
)
    requires
        space.is_keyed(),
        mirrored(rows, flash, space),
        lists(listing, flash, space),
        0 <= i < listing.len(),
    ensures
        ({
            let key = key_of(rows, listing[i].0);
            &&& rows.contains_key(key)
            &&& name_of(key) == listing[i].0
            &&& loaded_record(space, listing[i].0, listing[i].1) == Ok::<
                (Seq<u8>, Seq<u8>),
                StoreFault,
            >((key, rows[key]))
        }),
{
    let name = listing[i].0;
    assert(flash.blobs.contains_key((space, name)));
    let key = key_of(rows, name);
    let record = record_of(key, rows[key]);
    assert(flash.blob(space, name) == Some(record));
    record_is_read_back(key, rows[key]);
    assert(record.len() == RECORD_HEADER_LEN + key.len() + rows[key].len());
}

/// The names that the first `n` entries of a listing give.
spec fn named(listing: Listing, n: int, key: Seq<u8>) -> bool {
    exists|i: int| 0 <= i < n && (#[trigger] listing[i]).0 == name_of(key)
}

proof fn lemma_loaded_prefix(
    rows: Map<Seq<u8>, Seq<u8>>,
    flash: FlashView,
    space: Namespace,
    listing: Listing,
    n: int,
)
    requires
        space.is_keyed(),
        mirrored(rows, flash, space),
        lists(listing, flash, space),
        0 <= n <= listing.len(),
    ensures
        ({
            let records = Seq::new(
                n as nat,
                |i: int| (key_of(rows, listing[i].0), rows[key_of(rows, listing[i].0)]),
            );
            &&& loaded_each(space, listing.take(n)) == Ok::<Seq<(Seq<u8>, Seq<u8>)>, StoreFault>(
                records,
            )
            &&& indexed(space, records) == Ok::<Map<Seq<u8>, Seq<u8>>, StoreFault>(
                rows.restrict(Set::new(|key: Seq<u8>| named(listing, n, key))),
            )
        }),
    decreases n,
{
    let records = Seq::new(
        n as nat,
        |i: int| (key_of(rows, listing[i].0), rows[key_of(rows, listing[i].0)]),
    );
    let kept = rows.restrict(Set::new(|key: Seq<u8>| named(listing, n, key)));
    if n == 0 {
        assert(records =~= Seq::empty());
        assert(kept =~= Map::empty());
    } else {
        lemma_loaded_prefix(rows, flash, space, listing, n - 1);
        lemma_loaded_record(rows, flash, space, listing, n - 1);
        let before = rows.restrict(Set::new(|key: Seq<u8>| named(listing, n - 1, key)));
        let key = key_of(rows, listing[n - 1].0);
        assert(listing.take(n).drop_last() =~= listing.take(n - 1));
        assert(records.drop_last() =~= Seq::new(
            (n - 1) as nat,
            |i: int| (key_of(rows, listing[i].0), rows[key_of(rows, listing[i].0)]),
        ));
        assert(records =~= records.drop_last().push((key, rows[key])));
        assert(!named(listing, n - 1, key)) by {
            if named(listing, n - 1, key) {
                let i = choose|i: int| 0 <= i < n - 1 && (#[trigger] listing[i]).0 == name_of(key);
                assert(listing[i].0 != listing[n - 1].0);
            }
        }
        assert(kept =~= before.insert(key, rows[key])) by {
            assert forall|other: Seq<u8>| kept.contains_key(other) == (before.contains_key(other)
                || other == key) by {
                if rows.contains_key(other) && named(listing, n, other) && !named(
                    listing,
                    n - 1,
                    other,
                ) {
                    let i = choose|i: int|
                        0 <= i < n && (#[trigger] listing[i]).0 == name_of(other);
                    assert(i == n - 1);
                    assert(flash.blob(space, name_of(other)) == Some(
                        record_of(other, rows[other]),
                    ));
                    assert(flash.blob(space, name_of(key)) == Some(record_of(key, rows[key])));
                    record_is_read_back(other, rows[other]);
                    record_is_read_back(key, rows[key]);
                }
                if named(listing, n - 1, other) {
                    let i = choose|i: int|
                        0 <= i < n - 1 && (#[trigger] listing[i]).0 == name_of(other);
                    assert(listing[i].0 == name_of(other));
                }
                if other == key {
                    assert(listing[n - 1].0 == name_of(other));
                }
            }
        }
    }
}

/// A namespace that is mirrored is loaded as the rows that it mirrors.
proof fn lemma_rows_reload(
    rows: Map<Seq<u8>, Seq<u8>>,
    flash: FlashView,
    space: Namespace,
    listing: Listing,
)
    requires
        space.is_keyed(),
        mirrored(rows, flash, space),
        lists(listing, flash, space),
    ensures
        loaded_rows(space, listing) == Ok::<Map<Seq<u8>, Seq<u8>>, StoreFault>(rows),
        loaded_records(space, listing) is Ok,
{
    let n = listing.len() as int;
    lemma_loaded_prefix(rows, flash, space, listing, n);
    assert(listing.take(n) =~= listing);
    let kept = rows.restrict(Set::new(|key: Seq<u8>| named(listing, n, key)));
    assert(kept =~= rows) by {
        assert forall|key: Seq<u8>| rows.contains_key(key) implies named(listing, n, key) by {
            assert(flash.blob(space, name_of(key)) is Some);
            assert(flash.blobs.contains_key((space, name_of(key))));
        }
    }
    let keys = Seq::new(n as nat, |i: int| key_of(rows, listing[i].0));
    assert(keys.no_duplicates()) by {
        assert forall|i: int, j: int| 0 <= i < n && 0 <= j < n && i != j implies keys[i]
            != keys[j] by {
            lemma_loaded_record(rows, flash, space, listing, i);
            lemma_loaded_record(rows, flash, space, listing, j);
            if i < j {
                assert(listing[i].0 != listing[j].0);
            } else {
                assert(listing[j].0 != listing[i].0);
            }
        }
    }
    keys.unique_seq_to_set();
    assert(keys.to_set().subset_of(rows.dom())) by {
        assert forall|key: Seq<u8>| keys.to_set().contains(key) implies rows.dom().contains(
            key,
        ) by {
            let i = choose|i: int| 0 <= i < keys.len() && keys[i] == key;
            lemma_loaded_record(rows, flash, space, listing, i);
        }
    }
    vstd::set_lib::lemma_len_subset(keys.to_set(), rows.dom());
}

proof fn lemma_lens()
    ensures
        device_key().len() == 6,
        latest_key().len() == 10,
{
    reveal_strlit("device");
    reveal_strlit("latestsync");
    vstd::utf8::is_ascii_chars_encode_utf8("device"@);
    vstd::utf8::is_ascii_chars_encode_utf8("latestsync"@);
}

/// A linked device comes back from a boot as it was: flash that agrees with the
/// mirror is loaded as that mirror, and nothing is erased.
pub proof fn boot_restores_the_mirror(mirror: MirrorView, flash: FlashView, image: ImageView)
    requires
        coherent(mirror, flash),
        mirror.device is Some,
        shows(image, flash),
    ensures
        opened(image) == Ok::<(MirrorView, Seq<Change>), StoreFault>((mirror, Seq::empty())),
{
    lemma_lens();
    let device = mirror.device->0;
    record_is_read_back(device_key(), device);
    assert(record_of(device_key(), device).len() == 11 + device.len());
    assert(loaded_device(image.device) == Ok::<Option<Seq<u8>>, StoreFault>(Some(device)));
    lemma_signal_reload(mirror, flash, image);
    let got = loaded_signal(image, device)->Ok_0;
    if let Some(id) = mirror.latest_sync_key_id {
        record_is_read_back(latest_key(), id);
        assert(mirrored(mirror.rows(Namespace::SyncKey), flash, Namespace::SyncKey)) by {
            assert(Namespace::SyncKey.is_keyed());
        }
        assert(row_kept(Namespace::SyncKey, id, mirror.sync_keys[id])) by {
            assert(mirror.rows(Namespace::SyncKey).contains_key(id));
        }
        assert(record_of(latest_key(), id).len() == 15 + id.len());
    } else {
        lemma_no_records(mirror, flash, image);
    }
}

/// Without sync keys no record of one is loaded.
proof fn lemma_no_records(mirror: MirrorView, flash: FlashView, image: ImageView)
    requires
        rows_mirrored(mirror, flash),
        shows(image, flash),
        mirror.sync_keys.dom().is_empty(),
    ensures
        image.sync_keys.len() == 0,
        newest(loaded_records(Namespace::SyncKey, image.sync_keys)->Ok_0) is None,
        forall|id: Seq<u8>| !mirror.sync_keys.contains_key(id),
{
    let space = Namespace::SyncKey;
    assert(space.is_keyed());
    assert(mirrored(mirror.rows(space), flash, space));
    assert(lists(image.listing(space), flash, space));
    if image.sync_keys.len() > 0 {
        lemma_loaded_record(mirror.rows(space), flash, space, image.sync_keys, 0);
    }
    assert forall|id: Seq<u8>| !mirror.sync_keys.contains_key(id) by {
        assert(!mirror.sync_keys.dom().contains(id));
    }
}

/// The rows of a linked device come back from a boot, whatever the record of the
/// latest sync key says.
proof fn lemma_signal_reload(mirror: MirrorView, flash: FlashView, image: ImageView)
    requires
        rows_mirrored(mirror, flash),
        shows(image, flash),
        mirror.device is Some,
    ensures
        loaded_signal(image, mirror.device->0) == Ok::<MirrorView, StoreFault>(
            MirrorView {
                latest_sync_key_id: chosen_latest(
                    image.latest,
                    mirror.sync_keys,
                    loaded_records(Namespace::SyncKey, image.sync_keys)->Ok_0,
                ),
                ..mirror
            },
        ),
{
    assert(Namespace::Identity.is_keyed());
    assert(Namespace::Session.is_keyed());
    assert(Namespace::Prekey.is_keyed());
    assert(Namespace::SignedPrekey.is_keyed());
    assert(Namespace::SenderKey.is_keyed());
    assert(Namespace::SyncKey.is_keyed());
    lemma_rows_reload(mirror.identities, flash, Namespace::Identity, image.identities);
    lemma_rows_reload(mirror.sessions, flash, Namespace::Session, image.sessions);
    lemma_rows_reload(mirror.prekeys, flash, Namespace::Prekey, image.prekeys);
    lemma_rows_reload(mirror.signed_prekeys, flash, Namespace::SignedPrekey, image.signed_prekeys);
    lemma_rows_reload(mirror.sender_keys, flash, Namespace::SenderKey, image.sender_keys);
    lemma_rows_reload(mirror.sync_keys, flash, Namespace::SyncKey, image.sync_keys);
}

/// A change to one blob leaves every other namespace mirrored as it was.
proof fn lemma_others_untouched(
    rows: Map<Seq<u8>, Seq<u8>>,
    flash: FlashView,
    then_flash: FlashView,
    space: Namespace,
)
    requires
        mirrored(rows, flash, space),
        forall|name: Seq<char>| #[trigger]
            then_flash.blobs.contains_key((space, name)) == flash.blobs.contains_key((space, name)),
        forall|name: Seq<char>| #[trigger]
            flash.blobs.contains_key((space, name)) ==> then_flash.blobs[(space, name)]
                == flash.blobs[(space, name)],
    ensures
        mirrored(rows, then_flash, space),
{
    assert forall|key: Seq<u8>| #[trigger] rows.contains_key(key) implies row_kept(
        space,
        key,
        rows[key],
    ) && then_flash.blob(space, name_of(key)) == Some(record_of(key, rows[key])) by {
        assert(flash.blob(space, name_of(key)) == Some(record_of(key, rows[key])));
        assert(flash.blobs.contains_key((space, name_of(key))));
    }
}

proof fn lemma_put_row(
    rows: Map<Seq<u8>, Seq<u8>>,
    flash: FlashView,
    space: Namespace,
    key: Seq<u8>,
    value: Seq<u8>,
)
    requires
        space.is_keyed(),
        mirrored(rows, flash, space),
        row_kept(space, key, value),
        rows.contains_key(key) || rows.dom().len() < space.spec_max_entries(),
        put_verdict(
            space,
            key,
            value,
            flash.read(space, name_of(key), MAX_RECORD_BLOB_LEN as int),
        ) is Ok,
    ensures
        mirrored(
            rows.insert(key, value),
            flash.after(
                Change::Write { space, name: name_of(key), record: record_of(key, value) },
            ),
            space,
        ),
{
    let then_flash = flash.after(
        Change::Write { space, name: name_of(key), record: record_of(key, value) },
    );
    let then_rows = rows.insert(key, value);
    assert forall|other: Seq<u8>| #[trigger] then_rows.contains_key(other) implies row_kept(
        space,
        other,
        then_rows[other],
    ) && then_flash.blob(space, name_of(other)) == Some(record_of(other, then_rows[other])) by {
        if other != key {
            assert(rows.contains_key(other));
            assert(flash.blob(space, name_of(other)) == Some(record_of(other, rows[other])));
            if name_of(other) == name_of(key) {
                let record = record_of(other, rows[other]);
                record_is_read_back(other, rows[other]);
                assert(record.len() <= MAX_RECORD_BLOB_LEN);
                assert(false);
            }
        }
    }
    assert forall|name: Seq<char>| #[trigger]
        then_flash.blobs.contains_key((space, name)) implies exists|other: Seq<u8>| #[trigger]
        then_rows.contains_key(other) && name_of(other) == name by {
        if name == name_of(key) {
            assert(then_rows.contains_key(key));
        } else {
            assert(flash.blobs.contains_key((space, name)));
            let other = choose|other: Seq<u8>| #[trigger]
                rows.contains_key(other) && name_of(other) == name;
            assert(then_rows.contains_key(other));
        }
    }
    if rows.contains_key(key) {
        assert(then_rows.dom() =~= rows.dom());
    } else {
        assert(then_rows.dom() =~= rows.dom().insert(key));
    }
}

/// A record that is written to flash, and then put into the mirror, leaves the
/// two in agreement. The record is written only if the one under its name is its
/// own, so no neighbour is lost.
pub proof fn put_keeps_them_coherent(
    mirror: MirrorView,
    flash: FlashView,
    space: Namespace,
    key: Seq<u8>,
    value: Seq<u8>,
)
    requires
        space.is_keyed(),
        space != Namespace::SyncKey,
        coherent(mirror, flash),
        row_kept(space, key, value),
        mirror.rows(space).contains_key(key) || mirror.rows(space).dom().len()
            < space.spec_max_entries(),
        put_verdict(
            space,
            key,
            value,
            flash.read(space, name_of(key), MAX_RECORD_BLOB_LEN as int),
        ) is Ok,
    ensures
        coherent(
            mirror.with_rows(space, mirror.rows(space).insert(key, value)),
            flash.after(
                Change::Write { space, name: name_of(key), record: record_of(key, value) },
            ),
        ),
{
    let change = Change::Write { space, name: name_of(key), record: record_of(key, value) };
    let then_flash = flash.after(change);
    let then_mirror = mirror.with_rows(space, mirror.rows(space).insert(key, value));
    lemma_put_row(mirror.rows(space), flash, space, key, value);
    assert forall|other: Namespace| #[trigger] other.is_keyed() implies mirrored(
        then_mirror.rows(other),
        then_flash,
        other,
    ) by {
        if other != space {
            lemma_others_untouched(mirror.rows(other), flash, then_flash, other);
        }
    }
}

/// What was put into the mirror is what is found there, and nothing else has changed.
pub proof fn put_row_is_found(
    mirror: MirrorView,
    space: Namespace,
    key: Seq<u8>,
    value: Seq<u8>,
)
    requires
        space.is_keyed(),
    ensures
        ({
            let then_mirror = mirror.with_rows(space, mirror.rows(space).insert(key, value));
            &&& then_mirror.rows(space).contains_pair(key, value)
            &&& forall|other: Seq<u8>|
                other != key ==> (#[trigger] then_mirror.rows(space).contains_key(other)
                    == mirror.rows(space).contains_key(other)) && (mirror.rows(space).contains_key(
                    other,
                ) ==> then_mirror.rows(space)[other] == mirror.rows(space)[other])
            &&& forall|other: Namespace|
                other != space ==> #[trigger] then_mirror.rows(other) == mirror.rows(other)
            &&& then_mirror.device == mirror.device
            &&& then_mirror.latest_sync_key_id == mirror.latest_sync_key_id
        }),
{
}

/// Power that fails right after a record was written loses nothing: the next boot has
/// the new row and every other one.
pub proof fn written_record_survives_a_power_failure(
    mirror: MirrorView,
    flash: FlashView,
    space: Namespace,
    key: Seq<u8>,
    value: Seq<u8>,
    image: ImageView,
)
    requires
        space.is_keyed(),
        space != Namespace::SyncKey,
        coherent(mirror, flash),
        mirror.device is Some,
        row_kept(space, key, value),
        mirror.rows(space).contains_key(key) || mirror.rows(space).dom().len()
            < space.spec_max_entries(),
        put_verdict(
            space,
            key,
            value,
            flash.read(space, name_of(key), MAX_RECORD_BLOB_LEN as int),
        ) is Ok,
        shows(
            image,
            flash.after(
                Change::Write { space, name: name_of(key), record: record_of(key, value) },
            ),
        ),
    ensures
        opened(image) == Ok::<(MirrorView, Seq<Change>), StoreFault>(
            (mirror.with_rows(space, mirror.rows(space).insert(key, value)), Seq::empty()),
        ),
{
    put_keeps_them_coherent(mirror, flash, space, key, value);
    boot_restores_the_mirror(
        mirror.with_rows(space, mirror.rows(space).insert(key, value)),
        flash.after(Change::Write { space, name: name_of(key), record: record_of(key, value) }),
        image,
    );
}

/// Putting a row that a namespace can keep is refused only where the record under
/// its name is another key's.
pub proof fn put_is_refused_only_on_collision(
    mirror: MirrorView,
    flash: FlashView,
    space: Namespace,
    key: Seq<u8>,
    value: Seq<u8>,
)
    requires
        space.is_keyed(),
        rows_mirrored(mirror, flash),
        row_kept(space, key, value),
    ensures
        ({
            let verdict = put_verdict(
                space,
                key,
                value,
                flash.read(space, name_of(key), MAX_RECORD_BLOB_LEN as int),
            );
            let taken = exists|other: Seq<u8>| #[trigger]
                mirror.rows(space).contains_key(other) && other != key && name_of(other) == name_of(
                    key,
                );
            verdict == if taken {
                Err::<Seq<u8>, StoreFault>(StoreFault::Collision { space, name: name_of(key) })
            } else {
                Ok::<Seq<u8>, StoreFault>(record_of(key, value))
            }
        }),
{
    let rows = mirror.rows(space);
    assert(mirrored(rows, flash, space));
    let name = name_of(key);
    if flash.blobs.contains_key((space, name)) {
        let owner = choose|owner: Seq<u8>| #[trigger]
            rows.contains_key(owner) && name_of(owner) == name;
        record_is_read_back(owner, rows[owner]);
        assert(flash.blob(space, name_of(owner)) == Some(record_of(owner, rows[owner])));
        assert(record_of(owner, rows[owner]).len() <= MAX_RECORD_BLOB_LEN);
        assert forall|other: Seq<u8>| #[trigger]
            rows.contains_key(other) && name_of(other) == name implies other == owner by {
            assert(flash.blob(space, name_of(other)) == Some(record_of(other, rows[other])));
            record_is_read_back(other, rows[other]);
        }
    } else {
        assert forall|other: Seq<u8>| #[trigger]
            rows.contains_key(other) && name_of(other) == name implies false by {
            assert(flash.blob(space, name_of(other)) == Some(record_of(other, rows[other])));
        }
    }
}

/// A record that is removed from flash, and then from the mirror, leaves the two
/// in agreement.
pub proof fn delete_keeps_them_coherent(
    mirror: MirrorView,
    flash: FlashView,
    space: Namespace,
    key: Seq<u8>,
)
    requires
        space.is_keyed(),
        space != Namespace::SyncKey,
        coherent(mirror, flash),
        mirror.rows(space).contains_key(key),
    ensures
        coherent(
            mirror.with_rows(space, mirror.rows(space).remove(key)),
            flash.after(Change::Remove { space, name: name_of(key) }),
        ),
{
    let rows = mirror.rows(space);
    let then_rows = rows.remove(key);
    let then_flash = flash.after(Change::Remove { space, name: name_of(key) });
    let then_mirror = mirror.with_rows(space, then_rows);
    assert(mirrored(rows, flash, space));
    assert(mirrored(then_rows, then_flash, space)) by {
        assert forall|other: Seq<u8>| #[trigger] then_rows.contains_key(other) implies row_kept(
            space,
            other,
            then_rows[other],
        ) && then_flash.blob(space, name_of(other)) == Some(
            record_of(other, then_rows[other]),
        ) by {
            assert(rows.contains_key(other));
            if name_of(other) == name_of(key) {
                assert(flash.blob(space, name_of(other)) == Some(record_of(other, rows[other])));
                assert(flash.blob(space, name_of(key)) == Some(record_of(key, rows[key])));
                record_is_read_back(other, rows[other]);
                record_is_read_back(key, rows[key]);
            }
        }
        assert forall|name: Seq<char>| #[trigger]
            then_flash.blobs.contains_key((space, name)) implies exists|other: Seq<u8>| #[trigger]
            then_rows.contains_key(other) && name_of(other) == name by {
            assert(flash.blobs.contains_key((space, name)));
            let other = choose|other: Seq<u8>| #[trigger]
                rows.contains_key(other) && name_of(other) == name;
            assert(then_rows.contains_key(other));
        }
    }
    assert forall|other: Namespace| #[trigger] other.is_keyed() implies mirrored(
        then_mirror.rows(other),
        then_flash,
        other,
    ) by {
        if other != space {
            lemma_others_untouched(mirror.rows(other), flash, then_flash, other);
        }
    }
}

/// Sessions that are erased on flash, and then in the mirror, leave the two in
/// agreement.
pub proof fn clearing_sessions_keeps_them_coherent(mirror: MirrorView, flash: FlashView)
    requires
        coherent(mirror, flash),
    ensures
        coherent(
            MirrorView { sessions: Map::empty(), ..mirror },
            flash.after(Change::Erase { space: Namespace::Session }),
        ),
{
    let then_flash = flash.after(Change::Erase { space: Namespace::Session });
    let then_mirror = MirrorView { sessions: Map::empty(), ..mirror };
    assert forall|other: Namespace| #[trigger] other.is_keyed() implies mirrored(
        then_mirror.rows(other),
        then_flash,
        other,
    ) by {
        if other != Namespace::Session {
            lemma_others_untouched(mirror.rows(other), flash, then_flash, other);
        }
    }
}

/// A device that is saved to flash, and then to the mirror, leaves the two in
/// agreement.
pub proof fn saving_the_device_keeps_them_coherent(
    mirror: MirrorView,
    flash: FlashView,
    device: Seq<u8>,
)
    requires
        coherent(mirror, flash),
        is_device_json(device),
        device.len() <= MAX_DEVICE_LEN,
    ensures
        coherent(
            MirrorView { device: Some(device), ..mirror },
            flash.after(
                Change::Write {
                    space: Namespace::Device,
                    name: "current"@,
                    record: record_of(device_key(), device),
                },
            ),
        ),
{
    let then_flash = flash.after(
        Change::Write {
            space: Namespace::Device,
            name: "current"@,
            record: record_of(device_key(), device),
        },
    );
    let then_mirror = MirrorView { device: Some(device), ..mirror };
    assert forall|other: Namespace| #[trigger] other.is_keyed() implies mirrored(
        then_mirror.rows(other),
        then_flash,
        other,
    ) by {
        assert(mirror.rows(other) == then_mirror.rows(other));
        lemma_others_untouched(mirror.rows(other), flash, then_flash, other);
    }
}

/// Setting a sync key writes two records: first the one that names it as the
/// latest, then its own. Once both are written, and the key is put into the
/// mirror, the two agree.
pub proof fn setting_a_sync_key_keeps_them_coherent(
    mirror: MirrorView,
    flash: FlashView,
    id: Seq<u8>,
    payload: Seq<u8>,
)
    requires
        coherent(mirror, flash),
        row_kept(Namespace::SyncKey, id, payload),
        mirror.sync_keys.contains_key(id) || mirror.sync_keys.dom().len()
            < Namespace::SyncKey.spec_max_entries(),
        put_verdict(
            Namespace::SyncKey,
            id,
            payload,
            flash.read(Namespace::SyncKey, name_of(id), MAX_RECORD_BLOB_LEN as int),
        ) is Ok,
    ensures
        coherent(
            MirrorView {
                sync_keys: mirror.sync_keys.insert(id, payload),
                latest_sync_key_id: Some(id),
                ..mirror
            },
            flash.after(latest_marker(id)).after(
                Change::Write {
                    space: Namespace::SyncKey,
                    name: name_of(id),
                    record: record_of(id, payload),
                },
            ),
        ),
{
    let space = Namespace::SyncKey;
    let marked = flash.after(latest_marker(id));
    let then_flash = marked.after(
        Change::Write { space, name: name_of(id), record: record_of(id, payload) },
    );
    let then_mirror = MirrorView {
        sync_keys: mirror.sync_keys.insert(id, payload),
        latest_sync_key_id: Some(id),
        ..mirror
    };
    reveal_strlit("latestsync");
    reveal_strlit("reset");
    assert("latestsync"@.len() != "reset"@.len());
    assert forall|other: Namespace| #[trigger] other.is_keyed() implies mirrored(
        then_mirror.rows(other),
        then_flash,
        other,
    ) by {
        lemma_others_untouched(mirror.rows(other), flash, marked, other);
        if other == space {
            assert(marked.read(space, name_of(id), MAX_RECORD_BLOB_LEN as int) == flash.read(
                space,
                name_of(id),
                MAX_RECORD_BLOB_LEN as int,
            ));
            lemma_put_row(mirror.sync_keys, marked, space, id, payload);
        } else {
            lemma_others_untouched(mirror.rows(other), marked, then_flash, other);
        }
    }
}

/// The record that names the latest sync key, as it is written.
pub open spec fn latest_marker(id: Seq<u8>) -> Change {
    Change::Write {
        space: Namespace::Control,
        name: "latestsync"@,
        record: record_of(latest_key(), id),
    }
}

/// The latest sync key that a boot chooses is one that is there.
pub proof fn chosen_sync_key_is_there(image: ImageView)
    requires
        opened(image) is Ok,
    ensures
        ({
            let mirror = (opened(image)->Ok_0).0;
            mirror.latest_sync_key_id matches Some(id) ==> mirror.sync_keys.contains_key(id)
        }),
{
    let mirror = (opened(image)->Ok_0).0;
    if mirror.device is Some {
        let records = loaded_records(Namespace::SyncKey, image.sync_keys)->Ok_0;
        lemma_newest_is_indexed(records);
    }
}

proof fn lemma_newest_is_indexed(records: Seq<(Seq<u8>, Seq<u8>)>)
    requires
        indexed(Namespace::SyncKey, records) is Ok,
    ensures
        newest(records) matches Some((id, _)) ==> (indexed(
            Namespace::SyncKey,
            records,
        )->Ok_0).contains_key(id),
    decreases records.len(),
{
    if records.len() > 0 {
        lemma_newest_is_indexed(records.drop_last());
    }
}

/// Power that fails between the two writes of a new sync key loses nothing else:
/// at the next boot all rows are as they were, and the latest sync key is one
/// that is there, never the one whose record is missing.
pub proof fn cut_sync_key_write_is_harmless(
    mirror: MirrorView,
    flash: FlashView,
    id: Seq<u8>,
    image: ImageView,
)
    requires
        coherent(mirror, flash),
        mirror.device is Some,
        id.len() <= MAX_LOGICAL_KEY_LEN,
        shows(image, flash.after(latest_marker(id))),
    ensures
        opened(image) is Ok,
        ({
            let (then_mirror, erased) = opened(image)->Ok_0;
            &&& erased == Seq::<Change>::empty()
            &&& then_mirror == MirrorView {
                latest_sync_key_id: then_mirror.latest_sync_key_id,
                ..mirror
            }
            &&& then_mirror.latest_sync_key_id matches Some(latest)
                ==> mirror.sync_keys.contains_key(latest)
            &&& mirror.sync_keys.contains_key(id) ==> then_mirror.latest_sync_key_id == Some(id)
        }),
{
    let marked = flash.after(latest_marker(id));
    lemma_lens();
    reveal_strlit("latestsync");
    reveal_strlit("reset");
    assert("latestsync"@.len() != "reset"@.len());
    let device = mirror.device->0;
    record_is_read_back(device_key(), device);
    assert(record_of(device_key(), device).len() == 11 + device.len());
    assert(marked.blob(Namespace::Device, "current"@) == flash.blob(
        Namespace::Device,
        "current"@,
    ));
    assert(loaded_device(image.device) == Ok::<Option<Seq<u8>>, StoreFault>(Some(device)));
    assert forall|space: Namespace| #[trigger] space.is_keyed() implies mirrored(
        mirror.rows(space),
        marked,
        space,
    ) by {
        lemma_others_untouched(mirror.rows(space), flash, marked, space);
    }
    lemma_signal_reload(mirror, marked, image);
    record_is_read_back(latest_key(), id);
    assert(record_of(latest_key(), id).len() == 15 + id.len());
    chosen_sync_key_is_there(image);
}

/// Flash in which nothing is left of a linked device.
pub open spec fn is_wiped(flash: FlashView) -> bool {
    &&& flash.is_empty(Namespace::Device)
    &&& forall|space: Namespace| #[trigger] space.is_keyed() ==> flash.is_empty(space)
    &&& flash.blob(Namespace::Control, "latestsync"@) is None
    &&& flash.blob(Namespace::Control, "reset"@) is None
}

/// What is gone stays gone under the changes of a reset.
proof fn lemma_completion(flash: FlashView)
    ensures
        is_wiped(flash.after_all(reset_completion())),
{
    reveal_strlit("latestsync");
    reveal_strlit("reset");
    assert("latestsync"@.len() != "reset"@.len());
    let all = reset_completion();
    let f1 = flash.after(Change::Erase { space: Namespace::Device });
    let f2 = f1.after(Change::Remove { space: Namespace::Control, name: "latestsync"@ });
    let f3 = f2.after(Change::Erase { space: Namespace::Identity });
    let f4 = f3.after(Change::Erase { space: Namespace::Session });
    let f5 = f4.after(Change::Erase { space: Namespace::Prekey });
    let f6 = f5.after(Change::Erase { space: Namespace::SignedPrekey });
    let f7 = f6.after(Change::Erase { space: Namespace::SenderKey });
    let f8 = f7.after(Change::Erase { space: Namespace::SyncKey });
    let f9 = f8.after(Change::Remove { space: Namespace::Control, name: "reset"@ });
    lemma_after_take(flash, all, 0);
    lemma_after_take(flash, all, 1);
    lemma_after_take(flash, all, 2);
    lemma_after_take(flash, all, 3);
    lemma_after_take(flash, all, 4);
    lemma_after_take(flash, all, 5);
    lemma_after_take(flash, all, 6);
    lemma_after_take(flash, all, 7);
    lemma_after_take(flash, all, 8);
    assert(all.take(0) =~= Seq::empty());
    assert(all.take(9) =~= all);
    assert(flash.after_all(all) == f9);
}

/// One more change.
proof fn lemma_after_take(flash: FlashView, all: Seq<Change>, n: int)
    requires
        0 <= n < all.len(),
    ensures
        flash.after_all(all.take(n + 1)) == flash.after_all(all.take(n)).after(all[n]),
{
    assert(all.take(n + 1).drop_last() =~= all.take(n));
    assert(all.take(n + 1).last() == all[n]);
}

/// A reset leaves nothing of a linked device, on flash or in the mirror.
pub proof fn reset_wipes_flash(flash: FlashView)
    ensures
        is_wiped(flash.after_all(whole_reset())),
        coherent(MirrorView::none(), flash.after_all(whole_reset())),
{
    let all = whole_reset();
    let marked = flash.after(all[0]);
    lemma_resume(flash, 10);
    assert(all.take(10) =~= all);
    assert(reset_completion().take(9) =~= reset_completion());
    lemma_completion(marked);
    lemma_wiped_is_coherent(flash.after_all(all));
}

proof fn lemma_wiped_is_coherent(flash: FlashView)
    requires
        is_wiped(flash),
    ensures
        coherent(MirrorView::none(), flash),
{
    assert forall|space: Namespace| #[trigger] space.is_keyed() implies mirrored(
        MirrorView::none().rows(space),
        flash,
        space,
    ) by {
        assert(flash.is_empty(space));
    }
    assert(!flash.blobs.contains_key((Namespace::Device, "current"@)));
    assert(MirrorView::none().sync_keys.dom() =~= Set::empty());
}

/// A reset that was cut short after its first `n` changes is its marker and the
/// first `n - 1` changes of its completion.
proof fn lemma_resume(flash: FlashView, n: int)
    requires
        1 <= n <= 10,
    ensures
        flash.after_all(whole_reset().take(n)) == flash.after(whole_reset()[0]).after_all(
            reset_completion().take(n - 1),
        ),
    decreases n,
{
    let all = whole_reset();
    let rest = reset_completion();
    assert(all.len() == 10 && rest.len() == 9);
    lemma_after_take(flash, all, n - 1);
    if n == 1 {
        assert(all.take(0) =~= Seq::empty());
        assert(rest.take(0) =~= Seq::empty());
    } else {
        lemma_resume(flash, n - 1);
        lemma_after_take(flash.after(all[0]), rest, n - 2);
        assert(all[n - 1] == rest[n - 2]);
    }
}

/// The marker of a reset stays until its last change.
proof fn lemma_marker_stays(flash: FlashView, n: int)
    requires
        0 <= n <= 8,
        flash.blob(Namespace::Control, "reset"@) == Some(encode_utf8("1"@)),
    ensures
        flash.after_all(reset_completion().take(n)).blob(Namespace::Control, "reset"@) == Some(
            encode_utf8("1"@),
        ),
    decreases n,
{
    reveal_strlit("latestsync");
    reveal_strlit("reset");
    assert("latestsync"@.len() != "reset"@.len());
    let all = reset_completion();
    if n == 0 {
        assert(all.take(0) =~= Seq::empty());
    } else {
        lemma_marker_stays(flash, n - 1);
        lemma_after_take(flash, all, n - 1);
    }
}

/// Power that fails anywhere within a reset, once it has begun, does not bring the
/// old device back: the next boot starts without one, and what it erases leaves
/// nothing behind.
pub proof fn cut_reset_is_completed(flash: FlashView, n: int, image: ImageView)
    requires
        1 <= n <= whole_reset().len(),
        shows(image, flash.after_all(whole_reset().take(n))),
    ensures
        ({
            let cut = flash.after_all(whole_reset().take(n));
            opened(image) matches Ok((mirror, erased)) && mirror == MirrorView::none() && is_wiped(
                cut.after_all(erased),
            )
        }),
{
    let all = whole_reset();
    let cut = flash.after_all(all.take(n));
    let marked = flash.after(all[0]);
    lemma_resume(flash, n);
    if n <= 9 {
        lemma_marker_stays(marked, n - 1);
        reveal_strlit("1");
        vstd::utf8::is_ascii_chars_encode_utf8("1"@);
        lemma_completion(cut);
    } else {
        assert(reset_completion().take(9) =~= reset_completion());
        lemma_completion(marked);
        lemma_nothing_shown(cut, image);
        assert(cut.after_all(Seq::empty()) == cut);
    }
}

/// Wiped flash is opened as nothing, and nothing of it is erased.
proof fn lemma_nothing_shown(flash: FlashView, image: ImageView)
    requires
        is_wiped(flash),
        shows(image, flash),
    ensures
        opened(image) == Ok::<(MirrorView, Seq<Change>), StoreFault>(
            (MirrorView::none(), Seq::empty()),
        ),
{
    assert(!flash.blobs.contains_key((Namespace::Device, "current"@)));
    assert forall|space: Namespace| #[trigger] space.is_keyed() implies image.listing(space).len()
        == 0 by {
        let listing = image.listing(space);
        assert(lists(listing, flash, space));
        if listing.len() > 0 {
            assert(flash.blobs.contains_key((space, listing[0].0)));
        }
    }
    assert(Namespace::Identity.is_keyed());
    assert(Namespace::Session.is_keyed());
    assert(Namespace::Prekey.is_keyed());
    assert(Namespace::SignedPrekey.is_keyed());
    assert(Namespace::SenderKey.is_keyed());
    assert(Namespace::SyncKey.is_keyed());
}

/// Signal records without a linked device, such as a cut erasure leaves behind,
/// are discarded at boot.
pub proof fn orphans_are_discarded(flash: FlashView, image: ImageView)
    requires
        shows(image, flash),
        flash.blob(Namespace::Control, "reset"@) is None,
        flash.blob(Namespace::Device, "current"@) is None,
    ensures
        opened(image) matches Ok((mirror, erased)) && mirror == MirrorView::none() && forall|
            space: Namespace,
        | #[trigger] space.is_keyed() ==> flash.after_all(erased).is_empty(space),
{
    let all = signal_erasure();
    if image.has_signal_records() {
        lemma_after_take(flash, all, 0);
        lemma_after_take(flash, all, 1);
        lemma_after_take(flash, all, 2);
        lemma_after_take(flash, all, 3);
        lemma_after_take(flash, all, 4);
        lemma_after_take(flash, all, 5);
        lemma_after_take(flash, all, 6);
        assert(all.take(0) =~= Seq::empty());
        assert(all.take(7) =~= all);
    } else {
        assert(flash.after_all(Seq::empty()) == flash);
        assert forall|space: Namespace| #[trigger] space.is_keyed() implies flash.is_empty(
            space,
        ) by {
            let listing = image.listing(space);
            assert(lists(listing, flash, space));
            assert(listing.len() == 0);
        }
    }
}

/// Whether a namespace of flash holds these rows and nothing else: at most `most` of
/// them, of keys up to 512 bytes and values up to `longest`, each as the bytes of its
/// record under its name.
pub open spec fn lie_in_flash(
    rows: Map<Seq<u8>, Seq<u8>>,
    flash: FlashView,
    space: Namespace,
    most: nat,
    longest: nat,
) -> bool {
    &&& rows.dom().finite()
    &&& rows.dom().len() <= most
    &&& forall|key: Seq<u8>| #[trigger]
        rows.contains_key(key) ==> key.len() <= 512 && rows[key].len() <= longest && flash.blob(
            space,
            name_of(key),
        ) == Some(record_bytes(key, rows[key]))
    &&& forall|name: Seq<char>| #[trigger]
        flash.blobs.contains_key((space, name)) ==> exists|key: Seq<u8>| #[trigger]
            rows.contains_key(key) && name_of(key) == name
}

proof fn lemma_lie_mirrored(
    rows: Map<Seq<u8>, Seq<u8>>,
    flash: FlashView,
    space: Namespace,
    most: nat,
    longest: nat,
)
    requires
        lie_in_flash(rows, flash, space, most, longest),
        most <= space.spec_max_entries(),
        longest <= space.spec_max_value_len(),
        forall|key: Seq<u8>| #[trigger]
            rows.contains_key(key) ==> row_fault(space, key, rows[key]) is None,
    ensures
        mirrored(rows, flash, space),
{
    assert forall|key: Seq<u8>| #[trigger] rows.contains_key(key) implies row_kept(
        space,
        key,
        rows[key],
    ) && flash.blob(space, name_of(key)) == Some(record_of(key, rows[key])) by {
        records_lie_as_they_are_read(key, rows[key]);
    }
}

/// A linked device survives a boot with all it had, as long as flash holds it byte for
/// byte: the device, up to 2048 identity keys, sessions and sender keys each, up to 256
/// prekeys and sync keys each, up to 16 signed prekeys, and the name of the latest sync
/// key.
pub proof fn linked_device_survives_a_boot(mirror: MirrorView, flash: FlashView, image: ImageView)
    requires
        shows(image, flash),
        flash.blob(Namespace::Control, "reset"@) is None,
        mirror.device matches Some(device) && device.len() <= 65536 && is_device_json(device)
            && flash.blob(Namespace::Device, "current"@) == Some(
            record_bytes(encode_utf8("device"@), device),
        ),
        lie_in_flash(mirror.identities, flash, Namespace::Identity, 2048, 32),
        lie_in_flash(mirror.sessions, flash, Namespace::Session, 2048, 65536),
        lie_in_flash(mirror.prekeys, flash, Namespace::Prekey, 256, 65536),
        lie_in_flash(mirror.signed_prekeys, flash, Namespace::SignedPrekey, 16, 65536),
        lie_in_flash(mirror.sender_keys, flash, Namespace::SenderKey, 2048, 65536),
        lie_in_flash(mirror.sync_keys, flash, Namespace::SyncKey, 256, 65536),
        forall|key: Seq<u8>| #[trigger]
            mirror.identities.contains_key(key) ==> valid_utf8(key) && mirror.identities[key].len()
                == 32,
        forall|key: Seq<u8>| #[trigger] mirror.sessions.contains_key(key) ==> valid_utf8(key),
        forall|key: Seq<u8>| #[trigger] mirror.sender_keys.contains_key(key) ==> valid_utf8(key),
        forall|key: Seq<u8>| #[trigger] mirror.prekeys.contains_key(key) ==> key.len() == 4,
        forall|key: Seq<u8>| #[trigger] mirror.signed_prekeys.contains_key(key) ==> key.len() == 4,
        forall|key: Seq<u8>| #[trigger]
            mirror.sync_keys.contains_key(key) ==> parsed_sync_key(mirror.sync_keys[key]) is Some,
        match mirror.latest_sync_key_id {
            Some(id) => mirror.sync_keys.contains_key(id) && flash.blob(
                Namespace::Control,
                "latestsync"@,
            ) == Some(record_bytes(encode_utf8("latestsync"@), id)),
            None => mirror.sync_keys.dom().is_empty(),
        },
    ensures
        opened(image) == Ok::<(MirrorView, Seq<Change>), StoreFault>((mirror, Seq::empty())),
{
    reveal_strlit("device");
    reveal_strlit("latestsync");
    vstd::utf8::is_ascii_chars_encode_utf8("device"@);
    vstd::utf8::is_ascii_chars_encode_utf8("latestsync"@);
    records_lie_as_they_are_read(encode_utf8("device"@), mirror.device->0);
    if let Some(id) = mirror.latest_sync_key_id {
        records_lie_as_they_are_read(encode_utf8("latestsync"@), id);
    }
    lemma_lie_mirrored(mirror.identities, flash, Namespace::Identity, 2048, 32);
    lemma_lie_mirrored(mirror.sessions, flash, Namespace::Session, 2048, 65536);
    lemma_lie_mirrored(mirror.prekeys, flash, Namespace::Prekey, 256, 65536);
    lemma_lie_mirrored(mirror.signed_prekeys, flash, Namespace::SignedPrekey, 16, 65536);
    lemma_lie_mirrored(mirror.sender_keys, flash, Namespace::SenderKey, 2048, 65536);
    lemma_lie_mirrored(mirror.sync_keys, flash, Namespace::SyncKey, 256, 65536);
    assert forall|space: Namespace| #[trigger] space.is_keyed() implies mirrored(
        mirror.rows(space),
        flash,
        space,
    ) by {}
    boot_restores_the_mirror(mirror, flash, image);
}

/// The record that names the latest sync key is written under its fixed name and key.
pub proof fn marker_names_the_key(id: Seq<u8>)
    requires
        id.len() <= 512,
    ensures
        latest_marker(id) == (Change::Write {
            space: Namespace::Control,
            name: "latestsync"@,
            record: record_bytes(encode_utf8("latestsync"@), id),
        }),
{
    reveal_strlit("latestsync");
    vstd::utf8::is_ascii_chars_encode_utf8("latestsync"@);
    records_lie_as_they_are_read(encode_utf8("latestsync"@), id);
}

} // verus!
