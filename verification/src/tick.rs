//! What one tick of the load tracker does to its records: changes of
//! reference counts arrive, the reports of the import source are dealt with,
//! and the tick ends with every record settled or gone.

use vstd::prelude::*;

use crate::asset::{AssetTypeId, AssetUUID};
use crate::error::{Error, ErrorKind};
use crate::tracking::{
    distinct_homes, distinct_ids, homes, index_of, lemma_position, Delivery, ImportEvent, RefOp,
    TrackedAsset,
};
use crate::storage::LoadHandle;
use crate::type_storage::{TypedSlot, WorldStorages};

verus! {

/// What one tick of the tracker gives back.
pub struct TickReport {
    /// The assets to ask the import source for.
    pub requests: Vec<AssetUUID>,
    /// What became of each report of the import source, in order.
    pub deliveries: Vec<Delivery>,
}

/// The records after one change of a reference count has arrived.
///
/// A new reference to an asset without record starts one. A reference less
/// to an asset without record, or without references, changes nothing.
pub open spec fn after_op(records: Seq<TrackedAsset>, op: RefOp) -> Seq<TrackedAsset> {
    match op {
        RefOp::Increase(id) => match index_of(records, id) {
            Some(i) => records.update(i, records[i].retained()),
            None => records.push(TrackedAsset::fresh(id).retained()),
        },
        RefOp::Decrease(id) => match index_of(records, id) {
            Some(i) => records.update(i, records[i].released()),
            None => records,
        },
    }
}

/// The asset to ask the import source for when the change arrives, if any: a
/// new reference asks for an asset that was not asked for, or whose last load
/// failed.
pub open spec fn request_of(records: Seq<TrackedAsset>, op: RefOp) -> Option<AssetUUID> {
    match op {
        RefOp::Increase(id) => match index_of(records, id) {
            Some(i) => if records[i].wants_import() {
                Some(id)
            } else {
                None
            },
            None => Some(id),
        },
        RefOp::Decrease(_) => None,
    }
}

/// The records after the first `n` of `ops` have arrived, in order.
pub open spec fn counted(records: Seq<TrackedAsset>, ops: Seq<RefOp>, n: nat) -> Seq<TrackedAsset>
    decreases n,
{
    if n == 0 {
        records
    } else {
        after_op(counted(records, ops, (n - 1) as nat), ops[n - 1])
    }
}

/// The assets to ask the import source for while the first `n` of `ops`
/// arrive, in order.
pub open spec fn requested(records: Seq<TrackedAsset>, ops: Seq<RefOp>, n: nat) -> Seq<AssetUUID>
    decreases n,
{
    if n == 0 {
        Seq::empty()
    } else {
        let before = requested(records, ops, (n - 1) as nat);
        match request_of(counted(records, ops, (n - 1) as nat), ops[n - 1]) {
            Some(id) => before.push(id),
            None => before,
        }
    }
}

/// The records with one about the asset `id` among them.
pub open spec fn tracking(records: Seq<TrackedAsset>, id: AssetUUID) -> Seq<TrackedAsset> {
    if index_of(records, id) is None {
        records.push(TrackedAsset::fresh(id))
    } else {
        records
    }
}

/// The records after one report of the import source was dealt with as
/// `outcome` says.
pub open spec fn delivered_one(
    records: Seq<TrackedAsset>,
    event: ImportEvent,
    outcome: Delivery,
) -> Seq<TrackedAsset> {
    match event {
        ImportEvent::Unknown { asset_id } => match index_of(records, asset_id) {
            Some(i) => records.update(i, records[i].unknown()),
            None => records,
        },
        ImportEvent::Bytes { asset_id, data_type_id, bytes } => {
            let known = tracking(records, asset_id);
            let i = index_of(known, asset_id)->0;
            match outcome {
                Delivery::Stored { slot, result } => known.update(
                    i,
                    known[i].stored((data_type_id, slot), result),
                ),
                Delivery::Refused(e) => known.update(i, known[i].refused(e)),
                _ => records,
            }
        },
    }
}

/// Whether `outcome` is a way to deal with `event`, given the records and the
/// asset types that have a storage: an unknown asset is noted as such; bytes
/// for a type without storage are dropped; other bytes go to the slot the
/// asset has in the storage of that type, or to a new one.
pub open spec fn is_delivery(
    records: Seq<TrackedAsset>,
    types: Set<AssetTypeId>,
    event: ImportEvent,
    outcome: Delivery,
) -> bool {
    match event {
        ImportEvent::Unknown { asset_id } => outcome is NotFound,
        ImportEvent::Bytes { asset_id, data_type_id, bytes } => if !types.contains(data_type_id) {
            outcome is Unregistered
        } else {
            match outcome {
                Delivery::Stored { slot, result } => match index_of(records, asset_id) {
                    Some(i) => records[i].home_in(data_type_id) is Some ==> records[i].home_in(
                        data_type_id,
                    ) == Some(slot),
                    None => true,
                },
                Delivery::Refused(e) => e.kind == ErrorKind::Import && match index_of(
                    records,
                    asset_id,
                ) {
                    Some(i) => records[i].home_in(data_type_id) is None,
                    None => true,
                },
                _ => false,
            }
        },
    }
}

/// The slot that the asset `id` has, if any.
pub open spec fn home_of(records: Seq<TrackedAsset>, id: AssetUUID) -> Option<TypedSlot> {
    match index_of(records, id) {
        Some(i) => records[i].home,
        None => None,
    }
}

/// The slot that the asset `id` has in the storage of the given type, if any.
pub open spec fn kept_slot(
    records: Seq<TrackedAsset>,
    id: AssetUUID,
    data_type_id: AssetTypeId,
) -> Option<LoadHandle> {
    match index_of(records, id) {
        Some(i) => records[i].home_in(data_type_id),
        None => None,
    }
}

/// The slot that is given up while a report is dealt with: the slot that the
/// asset has in the storage of another type than the one its bytes are for,
/// where that type has a storage.
pub open spec fn leaving(
    records: Seq<TrackedAsset>,
    types: Set<AssetTypeId>,
    event: ImportEvent,
) -> Option<TypedSlot> {
    match event {
        ImportEvent::Bytes { asset_id, data_type_id, bytes } => if types.contains(data_type_id)
            && kept_slot(records, asset_id, data_type_id) is None {
            home_of(records, asset_id)
        } else {
            None
        },
        ImportEvent::Unknown { asset_id } => None,
    }
}

/// The slots that are given up while a report is dealt with: see [`leaving`].
pub open spec fn given_up(
    records: Seq<TrackedAsset>,
    types: Set<AssetTypeId>,
    event: ImportEvent,
) -> Set<TypedSlot> {
    match leaving(records, types, event) {
        Some(slot) => set![slot],
        None => Set::empty(),
    }
}

/// The slot that bytes went to, where they were stored.
pub open spec fn stored_slot(outcome: Delivery) -> Option<LoadHandle> {
    match outcome {
        Delivery::Stored { slot, result } => Some(slot),
        _ => None,
    }
}

/// The slots that bytes went to while a report was dealt with.
pub open spec fn taken(event: ImportEvent, outcome: Delivery) -> Set<TypedSlot> {
    match event {
        ImportEvent::Bytes { asset_id, data_type_id, bytes } => match outcome {
            Delivery::Stored { slot, result } => set![(data_type_id, slot)],
            _ => Set::empty(),
        },
        ImportEvent::Unknown { asset_id } => Set::empty(),
    }
}

/// Whether the storages went from `before` over `freed` and `ready` to
/// `after` while bytes for a type with a storage were dealt with as
/// `outcome` says, with `data` being the bytes.
///
/// First the slot that the asset gives up is released. Then a slot is asked
/// of the storage of the type, unless the asset has one there. Then the
/// bytes are handed to the storage for that slot, unless there was none to
/// be had, and the result of the outcome is what the storage made of them.
pub open spec fn is_passage<S: WorldStorages>(
    before: S,
    freed: S,
    ready: S,
    after: S,
    records: Seq<TrackedAsset>,
    asset_id: AssetUUID,
    data_type_id: AssetTypeId,
    data: &[u8],
    outcome: Delivery,
) -> bool {
    &&& match home_of(records, asset_id) {
        Some(home) => if kept_slot(records, asset_id, data_type_id) is None {
            before.is_release(home.0, home.1, freed)
        } else {
            freed == before
        },
        None => freed == before,
    }
    &&& match kept_slot(records, asset_id, data_type_id) {
        Some(h) => ready == freed && stored_slot(outcome) == Some(h),
        None => freed.is_allocation(data_type_id, stored_slot(outcome), ready),
    }
    &&& match outcome {
        Delivery::Stored { slot, result } => {
            &&& ready.is_update(data_type_id, slot, data, result, after)
            &&& ready.world_wf()
            &&& ready.types() == after.types()
            &&& ready.loaded_slots() == after.loaded_slots()
            &&& ready.reserved_slots() == after.reserved_slots()
        },
        Delivery::Refused(e) => after == ready,
        _ => false,
    }
}

/// Whether the storages went from `before` to `after` while the report
/// `event` was dealt with as `outcome` says, given the records before.
///
/// An asset that is unknown, and bytes for a type without storage, leave the
/// storages as they are. Other bytes take the storages through what
/// [`is_passage`] says. The slot that the asset gives up is released; no
/// other slot loses its asset, and no slot gains one. Bytes are refused only
/// where every handle of the storage is handed out.
pub open spec fn is_handover<S: WorldStorages>(
    before: S,
    records: Seq<TrackedAsset>,
    event: ImportEvent,
    outcome: Delivery,
    after: S,
) -> bool {
    let gone = given_up(records, before.types(), event);
    &&& after.world_wf()
    &&& after.types() == before.types()
    &&& after.loaded_slots() == before.loaded_slots().difference(gone)
    &&& after.reserved_slots() == before.reserved_slots().difference(gone).union(
        taken(event, outcome),
    )
    &&& match event {
        ImportEvent::Bytes { asset_id, data_type_id, bytes } => if before.types().contains(
            data_type_id,
        ) {
            &&& exists|freed: S, ready: S, data: &[u8]|
                data@ == bytes@ && #[trigger] is_passage(
                    before,
                    freed,
                    ready,
                    after,
                    records,
                    asset_id,
                    data_type_id,
                    data,
                    outcome,
                )
            &&& outcome is Refused ==> forall|h: LoadHandle|
                after.reserved_slots().contains((data_type_id, h))
        } else {
            after == before
        },
        ImportEvent::Unknown { asset_id } => after == before,
    }
}

/// The records after the first `n` reports of the import source were dealt
/// with as `outcomes` say, in order.
pub open spec fn delivered(
    records: Seq<TrackedAsset>,
    events: Seq<ImportEvent>,
    outcomes: Seq<Delivery>,
    n: nat,
) -> Seq<TrackedAsset>
    decreases n,
{
    if n == 0 {
        records
    } else {
        delivered_one(
            delivered(records, events, outcomes, (n - 1) as nat),
            events[n - 1],
            outcomes[n - 1],
        )
    }
}

/// The first `n` records at the end of a tick, given the slots that hold an
/// asset: a record that has been without references for a whole tick is
/// gone, the others are settled, in their order.
pub open spec fn settled(records: Seq<TrackedAsset>, loaded: Set<TypedSlot>, n: nat) -> Seq<
    TrackedAsset,
>
    decreases n,
{
    if n == 0 {
        Seq::empty()
    } else {
        let before = settled(records, loaded, (n - 1) as nat);
        if records[n - 1].evictable() {
            before
        } else {
            before.push(records[n - 1].settled(records[n - 1].is_in(loaded)))
        }
    }
}

/// The homes of those among the first `n` records that have been without
/// references for a whole tick.
pub open spec fn evicted_homes(records: Seq<TrackedAsset>, n: nat) -> Set<TypedSlot> {
    Set::new(
        |slot: TypedSlot|
            exists|i: int|
                0 <= i < n && (#[trigger] records[i]).evictable() && records[i].home == Some(slot),
    )
}

/// Whether `record` is what the end of a tick makes of one of the first `n`
/// records, one that stays.
pub open spec fn stays_as(
    records: Seq<TrackedAsset>,
    loaded: Set<TypedSlot>,
    n: nat,
    record: TrackedAsset,
) -> bool {
    exists|i: int|
        0 <= i < n && !(#[trigger] records[i]).evictable() && record == records[i].settled(
            records[i].is_in(loaded),
        )
}

/// The records after the changes `ops` have arrived and the reports
/// `imports` were dealt with as `deliveries` say, before the tick ends.
pub open spec fn before_settling(
    records: Seq<TrackedAsset>,
    ops: Seq<RefOp>,
    imports: Seq<ImportEvent>,
    deliveries: Seq<Delivery>,
) -> Seq<TrackedAsset> {
    delivered(counted(records, ops, ops.len()), imports, deliveries, imports.len())
}

/// Whether each of `deliveries` is a way to deal with its report, given the
/// records at the time and the asset types that have a storage.
pub open spec fn are_deliveries(
    records: Seq<TrackedAsset>,
    types: Set<AssetTypeId>,
    imports: Seq<ImportEvent>,
    deliveries: Seq<Delivery>,
) -> bool {
    &&& deliveries.len() == imports.len()
    &&& forall|k: int|
        0 <= k < imports.len() ==> is_delivery(
            delivered(records, imports, deliveries, k as nat),
            types,
            imports[k],
            #[trigger] deliveries[k],
        )
}

/// Whether one tick leads from the records `before` to the records `after`
/// and gives `report`: the changes `ops` arrive, then the reports `imports`
/// are dealt with, then the tick ends with the slots `loaded` holding an asset.
pub open spec fn is_tick(
    before: Seq<TrackedAsset>,
    ops: Seq<RefOp>,
    imports: Seq<ImportEvent>,
    types: Set<AssetTypeId>,
    report: TickReport,
    loaded: Set<TypedSlot>,
    after: Seq<TrackedAsset>,
) -> bool {
    let mid = before_settling(before, ops, imports, report.deliveries@);
    &&& report.requests@ == requested(before, ops, ops.len())
    &&& are_deliveries(counted(before, ops, ops.len()), types, imports, report.deliveries@)
    &&& after == settled(mid, loaded, mid.len())
}

/// Whether the storages went from `stages[k]` to `stages[k + 1]` while the
/// report at `k` was dealt with, the records at that time being about
/// different assets in different slots.
pub open spec fn handover_at<S: WorldStorages>(
    stages: Seq<S>,
    records: Seq<TrackedAsset>,
    events: Seq<ImportEvent>,
    outcomes: Seq<Delivery>,
    k: int,
) -> bool {
    &&& distinct_ids(delivered(records, events, outcomes, k as nat))
    &&& distinct_homes(delivered(records, events, outcomes, k as nat))
    &&& is_handover(
        stages[k],
        delivered(records, events, outcomes, k as nat),
        events[k],
        outcomes[k],
        stages[k + 1],
    )
}

/// Whether `stages` are the storages before the first report and after each
/// report, while the reports were dealt with in order.
pub open spec fn are_handovers<S: WorldStorages>(
    stages: Seq<S>,
    records: Seq<TrackedAsset>,
    events: Seq<ImportEvent>,
    outcomes: Seq<Delivery>,
) -> bool {
    &&& stages.len() == events.len() + 1
    &&& forall|k: int|
        0 <= k < events.len() ==> #[trigger] handover_at(stages, records, events, outcomes, k)
}

/// Whether the storages went from `before` to `after` through `stages` while
/// the reports were dealt with in order.
pub open spec fn leads_through<S: WorldStorages>(
    stages: Seq<S>,
    before: S,
    after: S,
    records: Seq<TrackedAsset>,
    events: Seq<ImportEvent>,
    outcomes: Seq<Delivery>,
) -> bool {
    &&& are_handovers(stages, records, events, outcomes)
    &&& stages[0] == before
    &&& stages.last() == after
}

/// The slots that are given up while the first `n` reports are dealt with.
pub open spec fn released(
    records: Seq<TrackedAsset>,
    types: Set<AssetTypeId>,
    events: Seq<ImportEvent>,
    outcomes: Seq<Delivery>,
    n: nat,
) -> Set<TypedSlot>
    decreases n,
{
    if n == 0 {
        Set::empty()
    } else {
        released(records, types, events, outcomes, (n - 1) as nat).union(
            given_up(
                delivered(records, events, outcomes, (n - 1) as nat),
                types,
                events[n - 1],
            ),
        )
    }
}

/// Whether the storages went from `chain[k]` to `chain[k + 1]` while the
/// tick ended for the record at `k`: the slot of a record that has been
/// without references for a whole tick is released, and nothing else happens.
pub open spec fn release_at<S: WorldStorages>(
    chain: Seq<S>,
    records: Seq<TrackedAsset>,
    k: int,
) -> bool {
    if records[k].evictable() && records[k].home is Some {
        chain[k].is_release((records[k].home->0).0, (records[k].home->0).1, chain[k + 1])
    } else {
        chain[k + 1] == chain[k]
    }
}

/// Whether `chain` are the storages before the tick ends for the first
/// record and after it has ended for each record, in order.
pub open spec fn are_releases<S: WorldStorages>(chain: Seq<S>, records: Seq<TrackedAsset>) -> bool {
    &&& chain.len() == records.len() + 1
    &&& forall|k: int| 0 <= k < records.len() ==> #[trigger] release_at(chain, records, k)
}

/// Whether the storages went from `before` to `after` through `chain` while
/// the tick ended for the records, in order.
pub open spec fn settles_through<S: WorldStorages>(
    chain: Seq<S>,
    before: S,
    after: S,
    records: Seq<TrackedAsset>,
) -> bool {
    &&& are_releases(chain, records)
    &&& chain[0] == before
    &&& chain.last() == after
}

/// Whether one tick leads from the storages `before` to the storages
/// `after`, given the records before and what the tick gives back.
///
/// While the reports are dealt with the storages go through `stages`. Then
/// the slots of the assets that have been without references for a whole
/// tick are released, which takes the storages through `ends`. A slot holds
/// an asset after the tick exactly when it did before and was neither given
/// up nor released.
pub open spec fn is_tick_of<S: WorldStorages>(
    before: S,
    stages: Seq<S>,
    ends: Seq<S>,
    after: S,
    records: Seq<TrackedAsset>,
    ops: Seq<RefOp>,
    imports: Seq<ImportEvent>,
    report: TickReport,
) -> bool {
    let arrived = counted(records, ops, ops.len());
    let mid = before_settling(records, ops, imports, report.deliveries@);
    let gone = evicted_homes(mid, mid.len());
    &&& stages[0] == before
    &&& are_handovers(stages, arrived, imports, report.deliveries@)
    &&& settles_through(ends, stages.last(), after, mid)
    &&& distinct_ids(mid)
    &&& distinct_homes(mid)
    &&& homes(mid).subset_of(stages.last().reserved_slots())
    &&& after.types() == before.types()
    &&& after.reserved_slots() == stages.last().reserved_slots().difference(gone)
    &&& after.loaded_slots() == before.loaded_slots().difference(
        released(arrived, before.types(), imports, report.deliveries@, imports.len()),
    ).difference(gone)
}

/// A change of a reference count keeps the records apart and their homes
/// in place.
pub proof fn lemma_after_op(records: Seq<TrackedAsset>, op: RefOp)
    requires
        distinct_ids(records),
    ensures
        distinct_ids(after_op(records, op)),
        distinct_homes(records) ==> distinct_homes(after_op(records, op)),
        homes(after_op(records, op)) == homes(records),
{
    let id = match op {
        RefOp::Increase(id) => id,
        RefOp::Decrease(id) => id,
    };
    let after = after_op(records, op);
    lemma_position(records, id, records.len());
    assert forall|slot: TypedSlot| homes(after).contains(slot) == homes(records).contains(
        slot,
    ) by {
        if homes(after).contains(slot) {
            let i = choose|i: int| 0 <= i < after.len() && (#[trigger] after[i]).home == Some(slot);
            assert(records[i].home == Some(slot));
        }
        if homes(records).contains(slot) {
            let i = choose|i: int|
                0 <= i < records.len() && (#[trigger] records[i]).home == Some(slot);
            assert(after[i].home == Some(slot));
        }
    }
    assert(homes(after) =~= homes(records));
}

/// What the first `n` reports lead to depends on the first `n` outcomes only.
pub proof fn lemma_delivered_prefix(
    records: Seq<TrackedAsset>,
    events: Seq<ImportEvent>,
    a: Seq<Delivery>,
    b: Seq<Delivery>,
    n: nat,
)
    requires
        n <= a.len(),
        n <= b.len(),
        forall|i: int| 0 <= i < n ==> a[i] == b[i],
    ensures
        delivered(records, events, a, n) == delivered(records, events, b, n),
    decreases n,
{
    if n > 0 {
        lemma_delivered_prefix(records, events, a, b, (n - 1) as nat);
    }
}

/// Which slots the first `n` reports give up depends on the first `n`
/// outcomes only.
pub proof fn lemma_released_prefix(
    records: Seq<TrackedAsset>,
    types: Set<AssetTypeId>,
    events: Seq<ImportEvent>,
    a: Seq<Delivery>,
    b: Seq<Delivery>,
    n: nat,
)
    requires
        n <= a.len(),
        n <= b.len(),
        forall|i: int| 0 <= i < n ==> a[i] == b[i],
    ensures
        released(records, types, events, a, n) == released(records, types, events, b, n),
    decreases n,
{
    if n > 0 {
        lemma_released_prefix(records, types, events, a, b, (n - 1) as nat);
        lemma_delivered_prefix(records, events, a, b, (n - 1) as nat);
    }
}

/// Each record that the end of a tick leaves stems from an old record that
/// had references or was not idle, and each such record is left.
pub proof fn lemma_settled_stems(records: Seq<TrackedAsset>, loaded: Set<TypedSlot>, n: nat)
    requires
        n <= records.len(),
    ensures
        forall|j: int|
            0 <= j < settled(records, loaded, n).len() ==> stays_as(
                records,
                loaded,
                n,
                #[trigger] settled(records, loaded, n)[j],
            ),
        forall|i: int|
            0 <= i < n && !(#[trigger] records[i]).evictable() ==> settled(
                records,
                loaded,
                n,
            ).contains(records[i].settled(records[i].is_in(loaded))),
    decreases n,
{
    if n > 0 {
        let m = (n - 1) as nat;
        lemma_settled_stems(records, loaded, m);
        let before = settled(records, loaded, m);
        let now = settled(records, loaded, n);
        let last = records[n - 1];
        assert forall|j: int| 0 <= j < now.len() implies stays_as(
            records,
            loaded,
            n,
            #[trigger] now[j],
        ) by {
            if j < before.len() {
                assert(now[j] == before[j]);
                assert(stays_as(records, loaded, m, before[j]));
                let i = choose|i: int|
                    0 <= i < m && !(#[trigger] records[i]).evictable() && before[j]
                        == records[i].settled(records[i].is_in(loaded));
                assert(0 <= i < n && !records[i].evictable());
            } else {
                assert(!records[n - 1].evictable());
            }
        }
        assert forall|i: int| 0 <= i < n && !(#[trigger] records[i]).evictable() implies now.contains(
            records[i].settled(records[i].is_in(loaded)),
        ) by {
            let r = records[i].settled(records[i].is_in(loaded));
            if i < n - 1 {
                assert(before.contains(r));
                let j = choose|j: int| 0 <= j < before.len() && before[j] == r;
                assert(now[j] == r);
            } else {
                assert(now[now.len() - 1] == r);
            }
        }
    }
}

/// The records that the end of a tick leaves stay apart, and so do their homes.
pub proof fn lemma_settled(records: Seq<TrackedAsset>, loaded: Set<TypedSlot>, n: nat)
    requires
        n <= records.len(),
        distinct_ids(records),
        distinct_homes(records),
    ensures
        distinct_ids(settled(records, loaded, n)),
        distinct_homes(settled(records, loaded, n)),
    decreases n,
{
    if n > 0 {
        let m = (n - 1) as nat;
        lemma_settled(records, loaded, m);
        lemma_settled_stems(records, loaded, m);
        let before = settled(records, loaded, m);
        let now = settled(records, loaded, n);
        let last = records[n - 1];
        if !last.evictable() {
            assert forall|a: int, b: int| 0 <= a < b < now.len() implies (#[trigger] now[a]).id != (
            #[trigger] now[b]).id by {
                if b == now.len() - 1 {
                    assert(stays_as(records, loaded, m, before[a]));
                    let i = choose|i: int|
                        0 <= i < m && !(#[trigger] records[i]).evictable() && before[a]
                            == records[i].settled(records[i].is_in(loaded));
                    assert(records[i].id != records[n - 1].id);
                } else {
                    assert(before[a].id != before[b].id);
                }
            }
            assert forall|a: int, b: int|
                0 <= a < b < now.len() && (#[trigger] now[a]).home is Some implies now[a].home != (
                #[trigger] now[b]).home by {
                if b == now.len() - 1 {
                    assert(stays_as(records, loaded, m, before[a]));
                    let i = choose|i: int|
                        0 <= i < m && !(#[trigger] records[i]).evictable() && before[a]
                            == records[i].settled(records[i].is_in(loaded));
                    assert(records[i].home != records[n - 1].home);
                } else {
                    assert(before[a].home != before[b].home);
                }
            }
        }
    }
}

/// At the end of a tick the tracker says of an asset that it is loaded
/// exactly when the asset has a slot that holds an asset.
pub proof fn lemma_loaded_iff_in_storage(
    records: Seq<TrackedAsset>,
    loaded: Set<TypedSlot>,
    n: nat,
)
    requires
        n <= records.len(),
    ensures
        forall|j: int|
            0 <= j < settled(records, loaded, n).len() ==> ((#[trigger] settled(
                records,
                loaded,
                n,
            )[j]).status is Loaded <==> settled(records, loaded, n)[j].is_in(loaded)),
    decreases n,
{
    if n > 0 {
        lemma_loaded_iff_in_storage(records, loaded, (n - 1) as nat);
        let before = settled(records, loaded, (n - 1) as nat);
        let now = settled(records, loaded, n);
        assert forall|j: int| 0 <= j < now.len() implies ((#[trigger] now[j]).status is Loaded
            <==> now[j].is_in(loaded)) by {
            if j < before.len() {
                assert(now[j] == before[j]);
            }
        }
    }
}

/// The end of a tick looks at the slots of the records that stay, and at no
/// others.
pub proof fn lemma_settled_by_homes(
    records: Seq<TrackedAsset>,
    a: Set<TypedSlot>,
    b: Set<TypedSlot>,
    n: nat,
)
    requires
        n <= records.len(),
        forall|i: int|
            0 <= i < n && !(#[trigger] records[i]).evictable() ==> records[i].is_in(a)
                == records[i].is_in(b),
    ensures
        settled(records, a, n) == settled(records, b, n),
    decreases n,
{
    if n > 0 {
        lemma_settled_by_homes(records, a, b, (n - 1) as nat);
    }
}

} // verus!
