//! What follows from what a tick does: what the changes that handles send
//! make of the reference counts, that nothing else touches them, that an
//! asset whose slot holds an asset is loaded after the tick, what a delivery
//! makes of an asset, and that an asset without references goes after a tick
//! of grace.

use vstd::prelude::*;

use crate::asset::{AssetTypeId, AssetUUID};
use crate::error::Error;
use crate::storage::LoadHandle;
use crate::tick::{
    after_op, before_settling, counted, delivered, delivered_one, evicted_homes, given_up,
    handover_at, is_tick, is_tick_of, lemma_after_op, lemma_settled_stems, released, request_of,
    settled, stays_as, tracking, TickReport,
};
use crate::tracking::{
    distinct_homes, distinct_ids, homes, index_of, lemma_position, lemma_position_by_ids, refs_of,
    status_of, Delivery, ImportEvent, LoadStatus, RefOp, TrackedAsset,
};
use crate::type_storage::{TypedSlot, WorldStorages};

verus! {

/// Whether the change is one of the reference count of the asset `id`.
pub open spec fn is_about(op: RefOp, id: AssetUUID) -> bool {
    match op {
        RefOp::Increase(x) => x == id,
        RefOp::Decrease(x) => x == id,
    }
}

/// The strong handles that the first `n` of `ops` make, less those they
/// give up.
pub open spec fn live_handles(ops: Seq<RefOp>, n: nat) -> int
    decreases n,
{
    if n == 0 {
        0
    } else {
        live_handles(ops, (n - 1) as nat) + match ops[n - 1] {
            RefOp::Increase(_) => 1int,
            RefOp::Decrease(_) => -1int,
        }
    }
}

/// What one change does to the counts: a new reference counts one up on its
/// asset, as long as the count fits; a reference less counts one down,
/// unless the count is zero; the count of every other asset stays.
pub proof fn lemma_after_op_counts(records: Seq<TrackedAsset>, op: RefOp, id: AssetUUID)
    ensures
        refs_of(after_op(records, op), id) == (if !is_about(op, id) {
            refs_of(records, id)
        } else if op is Increase {
            if refs_of(records, id) < u64::MAX {
                refs_of(records, id) + 1
            } else {
                refs_of(records, id)
            }
        } else {
            if refs_of(records, id) > 0 {
                (refs_of(records, id) - 1) as nat
            } else {
                0
            }
        }),
{
    let target = match op {
        RefOp::Increase(x) => x,
        RefOp::Decrease(x) => x,
    };
    let after = after_op(records, op);
    lemma_position(records, target, records.len());
    lemma_position(records, id, records.len());
    lemma_position(after, id, after.len());
    lemma_position_by_ids(records, after, id, records.len());
}

/// For every sequence of taking and giving up handles to one asset, in which
/// only a handle that is there is given up and the count fits its type: once
/// the changes have all arrived, the count of the asset is the number of
/// handles that are left.
pub proof fn lemma_count_is_live_handles(
    records: Seq<TrackedAsset>,
    ops: Seq<RefOp>,
    id: AssetUUID,
    n: nat,
)
    requires
        n <= ops.len(),
        forall|k: int| 0 <= k < n ==> is_about(#[trigger] ops[k], id),
        forall|k: nat| k <= n ==> 0 <= refs_of(records, id) + #[trigger] live_handles(ops, k) <= u64::MAX,
    ensures
        refs_of(counted(records, ops, n), id) == refs_of(records, id) + live_handles(ops, n),
    decreases n,
{
    if n > 0 {
        let m = (n - 1) as nat;
        assert forall|k: nat| k <= m implies 0 <= refs_of(records, id) + #[trigger] live_handles(
            ops,
            k,
        ) <= u64::MAX by {
            assert(k <= n);
        }
        lemma_count_is_live_handles(records, ops, id, m);
        lemma_after_op_counts(counted(records, ops, m), ops[n - 1], id);
        assert(is_about(ops[n - 1], id));
        assert(0 <= refs_of(records, id) + live_handles(ops, m) <= u64::MAX);
        assert(0 <= refs_of(records, id) + live_handles(ops, n) <= u64::MAX);
    }
}

/// Changes that arrive one after the other count as the first ones, then
/// the others on what the first ones left.
pub proof fn lemma_counted_in_turn(
    records: Seq<TrackedAsset>,
    first: Seq<RefOp>,
    then: Seq<RefOp>,
    n: nat,
)
    requires
        n <= then.len(),
    ensures
        counted(records, first + then, first.len() + n) == counted(
            counted(records, first, first.len()),
            then,
            n,
        ),
    decreases n,
{
    if n == 0 {
        lemma_counted_prefix(records, first + then, first, first.len());
    } else {
        lemma_counted_in_turn(records, first, then, (n - 1) as nat);
        assert((first + then)[first.len() + n - 1] == then[n - 1]);
    }
}

/// What the first `n` changes make of the counts depends on the first `n`
/// changes only.
pub proof fn lemma_counted_prefix(
    records: Seq<TrackedAsset>,
    a: Seq<RefOp>,
    b: Seq<RefOp>,
    n: nat,
)
    requires
        n <= a.len(),
        n <= b.len(),
        forall|i: int| 0 <= i < n ==> a[i] == b[i],
    ensures
        counted(records, a, n) == counted(records, b, n),
    decreases n,
{
    if n > 0 {
        lemma_counted_prefix(records, a, b, (n - 1) as nat);
    }
}

/// Taking a handle and giving it up again leaves every count as it was:
/// whatever changes arrive before, the counts after both are the counts
/// before both, as long as the count fits its type.
pub proof fn lemma_clone_then_drop(
    records: Seq<TrackedAsset>,
    ops: Seq<RefOp>,
    id: AssetUUID,
    other: AssetUUID,
)
    requires
        refs_of(counted(records, ops, ops.len()), id) < u64::MAX,
    ensures
        refs_of(
            counted(
                records,
                ops + seq![RefOp::Increase(id), RefOp::Decrease(id)],
                ops.len() + 2,
            ),
            other,
        ) == refs_of(counted(records, ops, ops.len()), other),
{
    let pair = seq![RefOp::Increase(id), RefOp::Decrease(id)];
    let before = counted(records, ops, ops.len());
    let one = after_op(before, RefOp::Increase(id));
    lemma_counted_in_turn(records, ops, pair, 2);
    assert(counted(before, pair, 0) == before);
    assert(counted(before, pair, 1) == one);
    assert(counted(before, pair, 2) == after_op(one, RefOp::Decrease(id)));
    lemma_after_op_counts(before, RefOp::Increase(id), other);
    lemma_after_op_counts(one, RefOp::Decrease(id), other);
}

/// The changes of reference counts keep the records apart.
pub proof fn lemma_counted_distinct(records: Seq<TrackedAsset>, ops: Seq<RefOp>, n: nat)
    requires
        distinct_ids(records),
    ensures
        distinct_ids(counted(records, ops, n)),
    decreases n,
{
    if n > 0 {
        lemma_counted_distinct(records, ops, (n - 1) as nat);
        lemma_after_op(counted(records, ops, (n - 1) as nat), ops[n - 1]);
    }
}

/// Dealing with a report of the import source changes no count.
pub proof fn lemma_delivered_one_counts(
    records: Seq<TrackedAsset>,
    event: ImportEvent,
    outcome: Delivery,
    id: AssetUUID,
)
    ensures
        refs_of(delivered_one(records, event, outcome), id) == refs_of(records, id),
{
    let target = match event {
        ImportEvent::Unknown { asset_id } => asset_id,
        ImportEvent::Bytes { asset_id, .. } => asset_id,
    };
    let known = tracking(records, target);
    let after = delivered_one(records, event, outcome);
    lemma_position(records, target, records.len());
    lemma_position(known, target, known.len());
    lemma_position(records, id, records.len());
    lemma_position(known, id, known.len());
    lemma_position(after, id, after.len());
    lemma_position_by_ids(records, known, id, records.len());
    if after.len() == known.len() {
        lemma_position_by_ids(known, after, id, known.len());
    } else {
        lemma_position_by_ids(records, after, id, records.len());
    }
}

/// Dealing with the reports of the import source changes no count.
pub proof fn lemma_delivered_counts(
    records: Seq<TrackedAsset>,
    events: Seq<ImportEvent>,
    outcomes: Seq<Delivery>,
    n: nat,
    id: AssetUUID,
)
    ensures
        refs_of(delivered(records, events, outcomes, n), id) == refs_of(records, id),
    decreases n,
{
    if n > 0 {
        lemma_delivered_counts(records, events, outcomes, (n - 1) as nat, id);
        lemma_delivered_one_counts(
            delivered(records, events, outcomes, (n - 1) as nat),
            events[n - 1],
            outcomes[n - 1],
            id,
        );
    }
}

/// Dealing with the reports of the import source keeps the records apart.
pub proof fn lemma_delivered_distinct(
    records: Seq<TrackedAsset>,
    events: Seq<ImportEvent>,
    outcomes: Seq<Delivery>,
    n: nat,
)
    requires
        distinct_ids(records),
    ensures
        distinct_ids(delivered(records, events, outcomes, n)),
    decreases n,
{
    if n > 0 {
        lemma_delivered_distinct(records, events, outcomes, (n - 1) as nat);
        let before = delivered(records, events, outcomes, (n - 1) as nat);
        let target = match events[n - 1] {
            ImportEvent::Unknown { asset_id } => asset_id,
            ImportEvent::Bytes { asset_id, .. } => asset_id,
        };
        lemma_position(before, target, before.len());
        let known = tracking(before, target);
        lemma_position(known, target, known.len());
    }
}

/// The end of a tick changes no count: a record that goes had none.
pub proof fn lemma_settled_counts(
    records: Seq<TrackedAsset>,
    loaded: Set<TypedSlot>,
    id: AssetUUID,
)
    requires
        distinct_ids(records),
    ensures
        refs_of(settled(records, loaded, records.len()), id) == refs_of(records, id),
{
    let after = settled(records, loaded, records.len());
    lemma_settled_stems(records, loaded, records.len());
    lemma_position(records, id, records.len());
    lemma_position(after, id, after.len());
    match index_of(after, id) {
        Some(j) => {
            assert(stays_as(records, loaded, records.len(), after[j]));
            let i = choose|i: int|
                0 <= i < records.len() && !(#[trigger] records[i]).evictable() && after[j]
                    == records[i].settled(records[i].is_in(loaded));
            assert(records[i].id == id);
            let w = index_of(records, id)->0;
            if w != i {
                if w < i {
                    assert(records[w].id != records[i].id);
                } else {
                    assert(records[i].id != records[w].id);
                }
            }
        },
        None => {
            match index_of(records, id) {
                Some(i) => {
                    if !records[i].evictable() {
                        let r = records[i].settled(records[i].is_in(loaded));
                        assert(after.contains(r));
                        let j = choose|j: int| 0 <= j < after.len() && after[j] == r;
                        assert(after[j].id == id);
                    }
                },
                None => {},
            }
        },
    }
}

/// The asset that a report of the import source is about.
pub open spec fn event_asset(event: ImportEvent) -> AssetUUID {
    match event {
        ImportEvent::Bytes { asset_id, .. } => asset_id,
        ImportEvent::Unknown { asset_id } => asset_id,
    }
}

/// Whatever happens to other assets before a tick ends leaves the record of
/// an asset as it is and where it is.
pub proof fn lemma_untouched_until_settling(
    records: Seq<TrackedAsset>,
    ops: Seq<RefOp>,
    imports: Seq<ImportEvent>,
    deliveries: Seq<Delivery>,
    id: AssetUUID,
    i: int,
    n: nat,
    m: nat,
)
    requires
        index_of(records, id) == Some(i),
        n <= ops.len(),
        m <= imports.len(),
        forall|k: int| 0 <= k < n ==> !is_about(#[trigger] ops[k], id),
        forall|k: int| 0 <= k < m ==> event_asset(#[trigger] imports[k]) != id,
    ensures
        index_of(counted(records, ops, n), id) == Some(i),
        counted(records, ops, n)[i] == records[i],
        index_of(delivered(counted(records, ops, n), imports, deliveries, m), id) == Some(i),
        delivered(counted(records, ops, n), imports, deliveries, m)[i] == records[i],
    decreases n + m,
{
    if m > 0 {
        lemma_untouched_until_settling(
            records,
            ops,
            imports,
            deliveries,
            id,
            i,
            n,
            (m - 1) as nat,
        );
        lemma_delivered_one_record(
            delivered(counted(records, ops, n), imports, deliveries, (m - 1) as nat),
            imports[m - 1],
            deliveries[m - 1],
            id,
            i,
        );
    } else if n > 0 {
        lemma_untouched_until_settling(
            records,
            ops,
            imports,
            deliveries,
            id,
            i,
            (n - 1) as nat,
            0,
        );
        lemma_after_op_record(counted(records, ops, (n - 1) as nat), ops[n - 1], id, i);
    }
}

/// When a tick ends, an asset without references is marked as idle, and no
/// other asset is.
pub proof fn lemma_settled_marks_idle(records: Seq<TrackedAsset>, loaded: Set<TypedSlot>, n: nat)
    requires
        n <= records.len(),
    ensures
        forall|j: int|
            0 <= j < settled(records, loaded, n).len() ==> (#[trigger] settled(
                records,
                loaded,
                n,
            )[j]).idle == (settled(records, loaded, n)[j].refs == 0),
    decreases n,
{
    if n > 0 {
        lemma_settled_marks_idle(records, loaded, (n - 1) as nat);
        let before = settled(records, loaded, (n - 1) as nat);
        let now = settled(records, loaded, n);
        assert forall|j: int| 0 <= j < now.len() implies (#[trigger] now[j]).idle == (now[j].refs
            == 0) by {
            if j < before.len() {
                assert(now[j] == before[j]);
            }
        }
    }
}

/// What bytes that went to a storage make of the asset: it has the slot
/// they went to; its load has failed with the failure of the storage, where
/// the storage did not take the bytes, and goes on otherwise; its count is
/// as it was.
pub proof fn lemma_stored_delivery(
    records: Seq<TrackedAsset>,
    event: ImportEvent,
    slot: LoadHandle,
    result: Result<(), Error>,
)
    requires
        event is Bytes,
    ensures
        ({
            let id = event_asset(event);
            let after = delivered_one(records, event, Delivery::Stored { slot, result });
            &&& index_of(after, id) is Some
            &&& after[index_of(after, id)->0].home == Some((event->data_type_id, slot))
            &&& refs_of(after, id) == refs_of(records, id)
            &&& match result {
                Ok(_) => status_of(after, id) == (if status_of(records, id) is Loaded {
                    LoadStatus::Loaded
                } else {
                    LoadStatus::Loading
                }),
                Err(e) => status_of(after, id) == LoadStatus::Error(e),
            }
        }),
{
    let id = event_asset(event);
    let known = tracking(records, id);
    let after = delivered_one(records, event, Delivery::Stored { slot, result });
    lemma_position(records, id, records.len());
    lemma_position(known, id, known.len());
    lemma_position(after, id, after.len());
    lemma_position_by_ids(known, after, id, known.len());
}

/// A record that stays when a tick ends is found afterwards as what the end
/// of the tick makes of it.
pub proof fn lemma_settled_record(
    records: Seq<TrackedAsset>,
    loaded: Set<TypedSlot>,
    id: AssetUUID,
)
    requires
        distinct_ids(records),
        index_of(records, id) is Some,
        !records[index_of(records, id)->0].evictable(),
    ensures
        index_of(settled(records, loaded, records.len()), id) is Some,
        settled(records, loaded, records.len())[index_of(
            settled(records, loaded, records.len()),
            id,
        )->0] == records[index_of(records, id)->0].settled(
            records[index_of(records, id)->0].is_in(loaded),
        ),
{
    let after = settled(records, loaded, records.len());
    let i = index_of(records, id)->0;
    lemma_settled_stems(records, loaded, records.len());
    lemma_position(records, id, records.len());
    lemma_position(after, id, after.len());
    let r = records[i].settled(records[i].is_in(loaded));
    assert(after.contains(r));
    let k = choose|k: int| 0 <= k < after.len() && after[k] == r;
    assert(after[k].id == id);
    let j = index_of(after, id)->0;
    assert(stays_as(records, loaded, records.len(), after[j]));
    let w = choose|w: int|
        0 <= w < records.len() && !(#[trigger] records[w]).evictable() && after[j]
            == records[w].settled(records[w].is_in(loaded));
    assert(records[w].id == id);
    if w < i {
        assert(records[w].id != records[i].id);
    } else if i < w {
        assert(records[i].id != records[w].id);
    }
}

/// The slot of an asset that stays when a tick ends is not among those
/// released.
pub proof fn lemma_kept_home(records: Seq<TrackedAsset>, i: int, n: nat)
    requires
        distinct_homes(records),
        0 <= i < records.len(),
        n <= records.len(),
        !records[i].evictable(),
        records[i].home is Some,
    ensures
        !evicted_homes(records, n).contains(records[i].home->0),
{
    if evicted_homes(records, n).contains(records[i].home->0) {
        let w = choose|w: int|
            0 <= w < n && (#[trigger] records[w]).evictable() && records[w].home
                == records[i].home;
        if w < i {
            assert(records[w].home != records[i].home);
        } else {
            assert(records[i].home != records[w].home);
        }
    }
}

/// Where the record of an asset is after a change of a count, and what it
/// is: counted up or down where the change is of the asset's count, and as
/// it was otherwise.
pub proof fn lemma_after_op_record(records: Seq<TrackedAsset>, op: RefOp, id: AssetUUID, i: int)
    requires
        index_of(records, id) == Some(i),
    ensures
        index_of(after_op(records, op), id) == Some(i),
        after_op(records, op)[i] == (if !is_about(op, id) {
            records[i]
        } else if op is Increase {
            records[i].retained()
        } else {
            records[i].released()
        }),
{
    let target = match op {
        RefOp::Increase(x) => x,
        RefOp::Decrease(x) => x,
    };
    let after = after_op(records, op);
    lemma_position(records, target, records.len());
    lemma_position(records, id, records.len());
    lemma_position(after, id, after.len());
    lemma_position_by_ids(records, after, id, records.len());
}

/// Where the record of an asset is after a report was dealt with: where it
/// was, with its count and its idleness, and untouched by a report about
/// another asset.
pub proof fn lemma_delivered_one_record(
    records: Seq<TrackedAsset>,
    event: ImportEvent,
    outcome: Delivery,
    id: AssetUUID,
    i: int,
)
    requires
        index_of(records, id) == Some(i),
    ensures
        index_of(delivered_one(records, event, outcome), id) == Some(i),
        delivered_one(records, event, outcome)[i].refs == records[i].refs,
        delivered_one(records, event, outcome)[i].idle == records[i].idle,
        event_asset(event) != id ==> delivered_one(records, event, outcome)[i] == records[i],
{
    let target = event_asset(event);
    let known = tracking(records, target);
    let after = delivered_one(records, event, outcome);
    lemma_position(records, target, records.len());
    lemma_position(known, target, known.len());
    lemma_position(records, id, records.len());
    lemma_position(known, id, known.len());
    lemma_position(after, id, after.len());
    lemma_position_by_ids(records, known, id, records.len());
    if after.len() == known.len() {
        lemma_position_by_ids(known, after, id, known.len());
    } else {
        lemma_position_by_ids(records, after, id, records.len());
    }
}

/// Dealing with reports keeps the record of an asset where it is, with its
/// count and its idleness.
pub proof fn lemma_delivered_record(
    records: Seq<TrackedAsset>,
    events: Seq<ImportEvent>,
    outcomes: Seq<Delivery>,
    id: AssetUUID,
    i: int,
    n: nat,
)
    requires
        index_of(records, id) == Some(i),
    ensures
        index_of(delivered(records, events, outcomes, n), id) == Some(i),
        delivered(records, events, outcomes, n)[i].refs == records[i].refs,
        delivered(records, events, outcomes, n)[i].idle == records[i].idle,
    decreases n,
{
    if n > 0 {
        lemma_delivered_record(records, events, outcomes, id, i, (n - 1) as nat);
        lemma_delivered_one_record(
            delivered(records, events, outcomes, (n - 1) as nat),
            events[n - 1],
            outcomes[n - 1],
            id,
            i,
        );
    }
}

/// An asset that has been without references for a whole tick stays so for
/// as long as no new reference to it arrives.
pub proof fn lemma_counted_without_taking(
    records: Seq<TrackedAsset>,
    ops: Seq<RefOp>,
    id: AssetUUID,
    i: int,
    n: nat,
)
    requires
        index_of(records, id) == Some(i),
        records[i].evictable(),
        n <= ops.len(),
        forall|k: int| 0 <= k < n ==> #[trigger] ops[k] != RefOp::Increase(id),
    ensures
        index_of(counted(records, ops, n), id) == Some(i),
        counted(records, ops, n)[i] == records[i],
    decreases n,
{
    if n > 0 {
        lemma_counted_without_taking(records, ops, id, i, (n - 1) as nat);
        lemma_after_op_record(counted(records, ops, (n - 1) as nat), ops[n - 1], id, i);
        assert(ops[n - 1] != RefOp::Increase(id));
    }
}

/// An asset to which a new reference has arrived has a record, and is not
/// marked as idle, whatever arrives after.
pub proof fn lemma_counted_after_taking(
    records: Seq<TrackedAsset>,
    ops: Seq<RefOp>,
    id: AssetUUID,
    n: nat,
)
    requires
        n <= ops.len(),
        exists|k: int| 0 <= k < n && #[trigger] ops[k] == RefOp::Increase(id),
    ensures
        index_of(counted(records, ops, n), id) is Some,
        !counted(records, ops, n)[index_of(counted(records, ops, n), id)->0].idle,
    decreases n,
{
    let before = counted(records, ops, (n - 1) as nat);
    let after = counted(records, ops, n);
    if ops[n - 1] == RefOp::Increase(id) {
        lemma_position(before, id, before.len());
        lemma_position(after, id, after.len());
        if index_of(before, id) is Some {
            lemma_after_op_record(before, ops[n - 1], id, index_of(before, id)->0);
        } else {
            assert(after[after.len() - 1].id == id);
        }
    } else {
        let k = choose|k: int| 0 <= k < n && #[trigger] ops[k] == RefOp::Increase(id);
        assert(0 <= k < n - 1);
        lemma_counted_after_taking(records, ops, id, (n - 1) as nat);
        lemma_after_op_record(before, ops[n - 1], id, index_of(before, id)->0);
    }
}

/// An asset that was without references when the last tick ended, and to
/// which no new reference arrives in this tick, is gone when this tick ends,
/// whatever the import source reports of it: the tracker has no record of
/// it, and the slot it had when the reports were dealt with is among those
/// released.
pub proof fn lemma_idle_asset_goes(
    before: Seq<TrackedAsset>,
    ops: Seq<RefOp>,
    imports: Seq<ImportEvent>,
    types: Set<AssetTypeId>,
    report: TickReport,
    loaded: Set<TypedSlot>,
    after: Seq<TrackedAsset>,
    id: AssetUUID,
)
    requires
        distinct_ids(before),
        is_tick(before, ops, imports, types, report, loaded, after),
        index_of(before, id) is Some,
        before[index_of(before, id)->0].evictable(),
        forall|k: int| 0 <= k < ops.len() ==> #[trigger] ops[k] != RefOp::Increase(id),
    ensures
        index_of(after, id) is None,
        status_of(after, id) is NotRequested,
        refs_of(after, id) == 0,
        ({
            let mid = before_settling(before, ops, imports, report.deliveries@);
            &&& index_of(mid, id) == index_of(before, id)
            &&& mid[index_of(mid, id)->0].home matches Some(slot) ==> evicted_homes(
                mid,
                mid.len(),
            ).contains(slot)
        }),
{
    let i = index_of(before, id)->0;
    let arrived = counted(before, ops, ops.len());
    let mid = before_settling(before, ops, imports, report.deliveries@);
    lemma_counted_without_taking(before, ops, id, i, ops.len());
    lemma_delivered_record(arrived, imports, report.deliveries@, id, i, imports.len());
    lemma_counted_distinct(before, ops, ops.len());
    lemma_delivered_distinct(arrived, imports, report.deliveries@, imports.len());
    lemma_position(mid, id, mid.len());
    lemma_position(after, id, after.len());
    lemma_settled_stems(mid, loaded, mid.len());
    assert(mid[i].evictable());
    if index_of(after, id) is Some {
        let j = index_of(after, id)->0;
        assert(stays_as(mid, loaded, mid.len(), after[j]));
        let w = choose|w: int|
            0 <= w < mid.len() && !(#[trigger] mid[w]).evictable() && after[j] == mid[w].settled(
                mid[w].is_in(loaded),
            );
        assert(mid[w].id == id);
        if w < i {
            assert(mid[w].id != mid[i].id);
        } else if i < w {
            assert(mid[i].id != mid[w].id);
        }
    }
}

/// An asset to which a reference arrives in a tick, and whose count is zero
/// when the changes of the tick have arrived, has a record when the tick
/// ends, without references and marked as idle: it stays for a tick of grace.
pub proof fn lemma_taken_and_given_up(
    before: Seq<TrackedAsset>,
    ops: Seq<RefOp>,
    imports: Seq<ImportEvent>,
    types: Set<AssetTypeId>,
    report: TickReport,
    loaded: Set<TypedSlot>,
    after: Seq<TrackedAsset>,
    id: AssetUUID,
)
    requires
        distinct_ids(before),
        is_tick(before, ops, imports, types, report, loaded, after),
        exists|k: int| 0 <= k < ops.len() && #[trigger] ops[k] == RefOp::Increase(id),
        refs_of(counted(before, ops, ops.len()), id) == 0,
    ensures
        index_of(after, id) is Some,
        after[index_of(after, id)->0].evictable(),
{
    let arrived = counted(before, ops, ops.len());
    let mid = before_settling(before, ops, imports, report.deliveries@);
    lemma_counted_after_taking(before, ops, id, ops.len());
    let i = index_of(arrived, id)->0;
    lemma_delivered_record(arrived, imports, report.deliveries@, id, i, imports.len());
    lemma_counted_distinct(before, ops, ops.len());
    lemma_delivered_distinct(arrived, imports, report.deliveries@, imports.len());
    lemma_settled_record(mid, loaded, id);
}

/// The records that the end of a tick leaves are about different assets.
pub proof fn lemma_settled_apart(records: Seq<TrackedAsset>, loaded: Set<TypedSlot>, n: nat)
    requires
        n <= records.len(),
        distinct_ids(records),
    ensures
        distinct_ids(settled(records, loaded, n)),
    decreases n,
{
    if n > 0 {
        let m = (n - 1) as nat;
        lemma_settled_apart(records, loaded, m);
        lemma_settled_stems(records, loaded, m);
        let before = settled(records, loaded, m);
        let now = settled(records, loaded, n);
        if !records[n - 1].evictable() {
            assert forall|a: int, b: int| 0 <= a < b < now.len() implies (#[trigger] now[a]).id != (
            #[trigger] now[b]).id by {
                if b == now.len() - 1 {
                    assert(stays_as(records, loaded, m, before[a]));
                    let i = choose|i: int|
                        0 <= i < m && !(#[trigger] records[i]).evictable() && before[a]
                            == records[i].settled(records[i].is_in(loaded));
                    assert(records[i].id != records[n - 1].id);
                } else {
                    assert(before[a].id != before[b].id);
                }
            }
        }
    }
}

/// After a tick the records are about different assets, as they were before.
pub proof fn lemma_tick_keeps_apart(
    before: Seq<TrackedAsset>,
    ops: Seq<RefOp>,
    imports: Seq<ImportEvent>,
    types: Set<AssetTypeId>,
    report: TickReport,
    loaded: Set<TypedSlot>,
    after: Seq<TrackedAsset>,
)
    requires
        distinct_ids(before),
        is_tick(before, ops, imports, types, report, loaded, after),
    ensures
        distinct_ids(after),
{
    let arrived = counted(before, ops, ops.len());
    let mid = before_settling(before, ops, imports, report.deliveries@);
    lemma_counted_distinct(before, ops, ops.len());
    lemma_delivered_distinct(arrived, imports, report.deliveries@, imports.len());
    lemma_settled_apart(mid, loaded, mid.len());
}

/// An asset that is taken and given up at once, with no other reference to
/// it, is gone after two ticks, whatever the import source reports of it in
/// the meantime: after the first tick it is without references and idle,
/// after the second the tracker has no record of it, and the slot it had is
/// among those released.
pub proof fn lemma_gone_after_two_ticks(
    before: Seq<TrackedAsset>,
    first_ops: Seq<RefOp>,
    first_imports: Seq<ImportEvent>,
    first_report: TickReport,
    first_loaded: Set<TypedSlot>,
    between: Seq<TrackedAsset>,
    second_ops: Seq<RefOp>,
    second_imports: Seq<ImportEvent>,
    second_report: TickReport,
    second_loaded: Set<TypedSlot>,
    after: Seq<TrackedAsset>,
    types: Set<AssetTypeId>,
    id: AssetUUID,
)
    requires
        distinct_ids(before),
        is_tick(before, first_ops, first_imports, types, first_report, first_loaded, between),
        is_tick(between, second_ops, second_imports, types, second_report, second_loaded, after),
        exists|k: int| 0 <= k < first_ops.len() && #[trigger] first_ops[k] == RefOp::Increase(id),
        refs_of(counted(before, first_ops, first_ops.len()), id) == 0,
        forall|k: int|
            0 <= k < second_ops.len() ==> #[trigger] second_ops[k] != RefOp::Increase(id),
    ensures
        index_of(after, id) is None,
        status_of(after, id) is NotRequested,
        ({
            let mid = before_settling(between, second_ops, second_imports, second_report.deliveries@);
            mid[index_of(mid, id)->0].home matches Some(slot) ==> evicted_homes(
                mid,
                mid.len(),
            ).contains(slot)
        }),
{
    lemma_taken_and_given_up(
        before,
        first_ops,
        first_imports,
        types,
        first_report,
        first_loaded,
        between,
        id,
    );
    lemma_tick_keeps_apart(
        before,
        first_ops,
        first_imports,
        types,
        first_report,
        first_loaded,
        between,
    );
    lemma_idle_asset_goes(
        between,
        second_ops,
        second_imports,
        types,
        second_report,
        second_loaded,
        after,
        id,
    );
}

/// What a tick makes of an asset that stays: its record after the tick is
/// what the end of the tick makes of its record before the end, and it is
/// loaded exactly when its slot held an asset when the reports had been
/// dealt with. No count is touched, and the slot stays handed out.
pub proof fn lemma_tick_settles<S: WorldStorages>(
    before: S,
    stages: Seq<S>,
    ends: Seq<S>,
    after: S,
    records: Seq<TrackedAsset>,
    ops: Seq<RefOp>,
    imports: Seq<ImportEvent>,
    report: TickReport,
    after_records: Seq<TrackedAsset>,
    id: AssetUUID,
)
    requires
        is_tick(records, ops, imports, before.types(), report, after.loaded_slots(), after_records),
        is_tick_of(before, stages, ends, after, records, ops, imports, report),
        index_of(before_settling(records, ops, imports, report.deliveries@), id) is Some,
        !before_settling(records, ops, imports, report.deliveries@)[index_of(
            before_settling(records, ops, imports, report.deliveries@),
            id,
        )->0].evictable(),
    ensures
        ({
            let mid = before_settling(records, ops, imports, report.deliveries@);
            let record = mid[index_of(mid, id)->0];
            let held = record.is_in(
                before.loaded_slots().difference(
                    released(
                        counted(records, ops, ops.len()),
                        before.types(),
                        imports,
                        report.deliveries@,
                        imports.len(),
                    ),
                ),
            );
            &&& index_of(after_records, id) is Some
            &&& after_records[index_of(after_records, id)->0] == record.settled(held)
            &&& status_of(after_records, id) == record.settled(held).status
            &&& refs_of(after_records, id) == record.refs
            &&& record.home matches Some(slot) ==> after.reserved_slots().contains(slot)
                && after.loaded_slots().contains(slot) == held
        }),
{
    let mid = before_settling(records, ops, imports, report.deliveries@);
    let i = index_of(mid, id)->0;
    lemma_position(mid, id, mid.len());
    lemma_settled_record(mid, after.loaded_slots(), id);
    if mid[i].home is Some {
        lemma_kept_home(mid, i, mid.len());
        assert(homes(mid).contains(mid[i].home->0));
    }
}

/// Changes of counts keep the record of an asset where it is, about the
/// asset, and in its slot.
pub proof fn lemma_counted_record(
    records: Seq<TrackedAsset>,
    ops: Seq<RefOp>,
    id: AssetUUID,
    i: int,
    n: nat,
)
    requires
        index_of(records, id) == Some(i),
        n <= ops.len(),
    ensures
        index_of(counted(records, ops, n), id) == Some(i),
        counted(records, ops, n)[i].home == records[i].home,
        counted(records, ops, n)[i].refs == refs_of(counted(records, ops, n), id),
    decreases n,
{
    if n > 0 {
        lemma_counted_record(records, ops, id, i, (n - 1) as nat);
        lemma_after_op_record(counted(records, ops, (n - 1) as nat), ops[n - 1], id, i);
    }
}

/// Reports about other assets leave the record of an asset as it is and
/// where it is.
pub proof fn lemma_delivered_elsewhere(
    records: Seq<TrackedAsset>,
    events: Seq<ImportEvent>,
    outcomes: Seq<Delivery>,
    id: AssetUUID,
    i: int,
    n: nat,
)
    requires
        index_of(records, id) == Some(i),
        n <= events.len(),
        forall|k: int| 0 <= k < n ==> event_asset(#[trigger] events[k]) != id,
    ensures
        index_of(delivered(records, events, outcomes, n), id) == Some(i),
        delivered(records, events, outcomes, n)[i] == records[i],
    decreases n,
{
    if n > 0 {
        lemma_delivered_elsewhere(records, events, outcomes, id, i, (n - 1) as nat);
        lemma_delivered_one_record(
            delivered(records, events, outcomes, (n - 1) as nat),
            events[n - 1],
            outcomes[n - 1],
            id,
            i,
        );
    }
}

/// Reports about other assets do not give up the slot of an asset, as long
/// as no two assets have one slot.
pub proof fn lemma_slot_not_given_up(
    records: Seq<TrackedAsset>,
    types: Set<AssetTypeId>,
    events: Seq<ImportEvent>,
    outcomes: Seq<Delivery>,
    id: AssetUUID,
    i: int,
    n: nat,
)
    requires
        index_of(records, id) == Some(i),
        records[i].home is Some,
        n <= events.len(),
        forall|k: int| 0 <= k < n ==> event_asset(#[trigger] events[k]) != id,
        forall|k: nat| k < n ==> distinct_homes(#[trigger] delivered(records, events, outcomes, k)),
    ensures
        !released(records, types, events, outcomes, n).contains(records[i].home->0),
    decreases n,
{
    if n > 0 {
        let m = (n - 1) as nat;
        lemma_slot_not_given_up(records, types, events, outcomes, id, i, m);
        lemma_delivered_elsewhere(records, events, outcomes, id, i, m);
        let now = delivered(records, events, outcomes, m);
        let other = event_asset(events[n - 1]);
        lemma_position(now, other, now.len());
        lemma_position(now, id, now.len());
        assert(distinct_homes(now));
        if given_up(now, types, events[n - 1]).contains(records[i].home->0) {
            let j = index_of(now, other)->0;
            assert(now[j].home == now[i].home);
            if j < i {
                assert(now[j].home != now[i].home);
            } else {
                assert(now[i].home != now[j].home);
            }
        }
    }
}

/// An asset whose slot holds an asset is loaded after a tick in which a
/// reference to it is left and the import source reports nothing of it,
/// whether the tracker knew before that it is loaded or not: after the tick
/// the tracker says that it is loaded, with the count that the changes made,
/// and its slot is handed out and holds an asset as before.
pub proof fn lemma_loaded_asset_stays_loaded<S: WorldStorages>(
    before: S,
    stages: Seq<S>,
    ends: Seq<S>,
    after: S,
    records: Seq<TrackedAsset>,
    ops: Seq<RefOp>,
    imports: Seq<ImportEvent>,
    report: TickReport,
    after_records: Seq<TrackedAsset>,
    id: AssetUUID,
)
    requires
        is_tick(records, ops, imports, before.types(), report, after.loaded_slots(), after_records),
        is_tick_of(before, stages, ends, after, records, ops, imports, report),
        index_of(records, id) is Some,
        records[index_of(records, id)->0].is_in(before.loaded_slots()),
        refs_of(counted(records, ops, ops.len()), id) > 0,
        forall|k: int| 0 <= k < imports.len() ==> event_asset(#[trigger] imports[k]) != id,
    ensures
        status_of(after_records, id) is Loaded,
        refs_of(after_records, id) == refs_of(counted(records, ops, ops.len()), id),
        index_of(after_records, id) is Some,
        after_records[index_of(after_records, id)->0].home == records[index_of(
            records,
            id,
        )->0].home,
        after.loaded_slots().contains(records[index_of(records, id)->0].home->0),
        after.reserved_slots().contains(records[index_of(records, id)->0].home->0),
{
    let i = index_of(records, id)->0;
    let arrived = counted(records, ops, ops.len());
    let mid = before_settling(records, ops, imports, report.deliveries@);
    lemma_counted_record(records, ops, id, i, ops.len());
    lemma_delivered_elsewhere(arrived, imports, report.deliveries@, id, i, imports.len());
    assert forall|k: nat| k < imports.len() implies distinct_homes(
        #[trigger] delivered(arrived, imports, report.deliveries@, k),
    ) by {
        assert(handover_at(stages, arrived, imports, report.deliveries@, k as int));
    }
    lemma_slot_not_given_up(
        arrived,
        before.types(),
        imports,
        report.deliveries@,
        id,
        i,
        imports.len(),
    );
    lemma_tick_settles(before, stages, ends, after, records, ops, imports, report, after_records, id);
}

/// A new reference to an asset whose last load failed, or that the import
/// source did not know, or that was not asked for, asks the import source
/// for the asset and sets the load going, with the count one up.
pub proof fn lemma_load_asks_again(records: Seq<TrackedAsset>, id: AssetUUID)
    requires
        !(status_of(records, id) is Loading),
        !(status_of(records, id) is Loaded),
        refs_of(records, id) < u64::MAX,
    ensures
        request_of(records, RefOp::Increase(id)) == Some(id),
        status_of(after_op(records, RefOp::Increase(id)), id) is Loading,
        refs_of(after_op(records, RefOp::Increase(id)), id) == refs_of(records, id) + 1,
{
    let after = after_op(records, RefOp::Increase(id));
    lemma_position(records, id, records.len());
    lemma_position(after, id, after.len());
    if index_of(records, id) is Some {
        lemma_after_op_record(records, RefOp::Increase(id), id, index_of(records, id)->0);
    } else {
        assert(after[after.len() - 1].id == id);
    }
}

/// After a tick the count of every asset is what the changes that arrived
/// made of it: neither the reports of the import source nor the end of the
/// tick touch a count.
pub proof fn lemma_tick_counts(
    before: Seq<TrackedAsset>,
    ops: Seq<RefOp>,
    imports: Seq<ImportEvent>,
    types: Set<AssetTypeId>,
    report: TickReport,
    loaded: Set<TypedSlot>,
    after: Seq<TrackedAsset>,
    id: AssetUUID,
)
    requires
        distinct_ids(before),
        is_tick(before, ops, imports, types, report, loaded, after),
    ensures
        refs_of(after, id) == refs_of(counted(before, ops, ops.len()), id),
{
    let counted_ = counted(before, ops, ops.len());
    let mid = before_settling(before, ops, imports, report.deliveries@);
    lemma_counted_distinct(before, ops, ops.len());
    lemma_delivered_distinct(counted_, imports, report.deliveries@, imports.len());
    lemma_delivered_counts(counted_, imports, report.deliveries@, imports.len(), id);
    lemma_settled_counts(mid, loaded, id);
}

/// For every sequence of taking and giving up handles to one asset, in which
/// only a handle that is there is given up and the count fits its type:
/// after the tick in which the changes arrive, the count of the asset is the
/// number of handles that are left.
pub proof fn lemma_tick_count_is_live_handles(
    before: Seq<TrackedAsset>,
    ops: Seq<RefOp>,
    imports: Seq<ImportEvent>,
    types: Set<AssetTypeId>,
    report: TickReport,
    loaded: Set<TypedSlot>,
    after: Seq<TrackedAsset>,
    id: AssetUUID,
)
    requires
        distinct_ids(before),
        is_tick(before, ops, imports, types, report, loaded, after),
        forall|k: int| 0 <= k < ops.len() ==> is_about(#[trigger] ops[k], id),
        forall|k: nat|
            k <= ops.len() ==> 0 <= refs_of(before, id) + #[trigger] live_handles(ops, k)
                <= u64::MAX,
    ensures
        refs_of(after, id) == refs_of(before, id) + live_handles(ops, ops.len()),
{
    lemma_tick_counts(before, ops, imports, types, report, loaded, after, id);
    lemma_count_is_live_handles(before, ops, id, ops.len());
}

/// Taking a handle and giving it up again within a tick leaves every count
/// after the tick as it is without the two.
pub proof fn lemma_tick_clone_then_drop(
    before: Seq<TrackedAsset>,
    ops: Seq<RefOp>,
    imports: Seq<ImportEvent>,
    types: Set<AssetTypeId>,
    report: TickReport,
    loaded: Set<TypedSlot>,
    after: Seq<TrackedAsset>,
    id: AssetUUID,
    other: AssetUUID,
)
    requires
        distinct_ids(before),
        is_tick(
            before,
            ops + seq![RefOp::Increase(id), RefOp::Decrease(id)],
            imports,
            types,
            report,
            loaded,
            after,
        ),
        refs_of(counted(before, ops, ops.len()), id) < u64::MAX,
    ensures
        refs_of(after, other) == refs_of(counted(before, ops, ops.len()), other),
{
    let all = ops + seq![RefOp::Increase(id), RefOp::Decrease(id)];
    lemma_tick_counts(before, all, imports, types, report, loaded, after, other);
    lemma_clone_then_drop(before, ops, id, other);
}

} // verus!
