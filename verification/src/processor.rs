//! The processing queue: staging area between decoding asset data and
//! committing the finished asset to its storage.

use std::collections::VecDeque;
use std::marker::PhantomData;
use vstd::prelude::*;

use crate::asset::Asset;
use crate::error::Error;
use crate::storage::{AssetStorage, LoadHandle, StorageModel};

verus! {

/// Returned by processing functions, describes the loading state of the asset.
pub enum ProcessingState<D, A> {
    /// Asset is not fully loaded yet, need to wait longer
    Loading(D),
    /// Asset has finished loading, can now be inserted into storage
    Loaded(A),
}

/// One entry of a processing queue: asset data, or the reason there is none,
/// for the slot `handle`, and the token of whoever wants to hear how it ends.
pub struct Processed<T, K> {
    pub data: Result<T, Error>,
    pub handle: LoadHandle,
    pub tracker: Option<K>,
}

/// How the processing of one entry ended, to be passed on to its tracker.
pub struct Report<K> {
    pub handle: LoadHandle,
    pub tracker: Option<K>,
    pub outcome: Result<(), Error>,
}

/// What processing one entry yields: asset data goes through the processing
/// function, a failure is passed on as it is.
pub open spec fn is_outcome<T, K, A, F: Fn(T) -> Result<ProcessingState<T, A>, Error>>(
    f: F,
    entry: Processed<T, K>,
    out: Result<ProcessingState<T, A>, Error>,
) -> bool {
    match entry.data {
        Ok(d) => call_ensures(f, (d,), out),
        Err(e) => out == Err::<ProcessingState<T, A>, Error>(e),
    }
}

/// The storage after the first `n` entries were processed with the given
/// outcomes: each finished asset is written to the slot of its entry, in order.
pub open spec fn committed<T, K, A>(
    storage: StorageModel<A>,
    entries: Seq<Processed<T, K>>,
    outs: Seq<Result<ProcessingState<T, A>, Error>>,
    n: nat,
) -> StorageModel<A>
    decreases n,
{
    if n == 0 {
        storage
    } else {
        let before = committed(storage, entries, outs, (n - 1) as nat);
        match outs[n - 1] {
            Ok(ProcessingState::Loaded(asset)) => before.updated(entries[n - 1].handle, asset),
            _ => before,
        }
    }
}

/// The entries among the first `n` that are not complete yet, in order, each
/// with the data to try again with.
pub open spec fn requeued<T, K, A>(
    entries: Seq<Processed<T, K>>,
    outs: Seq<Result<ProcessingState<T, A>, Error>>,
    n: nat,
) -> Seq<Processed<T, K>>
    decreases n,
{
    if n == 0 {
        Seq::empty()
    } else {
        let before = requeued(entries, outs, (n - 1) as nat);
        match outs[n - 1] {
            Ok(ProcessingState::Loading(d)) => before.push(
                Processed { data: Ok(d), handle: entries[n - 1].handle, tracker: entries[n - 1].tracker },
            ),
            _ => before,
        }
    }
}

/// The reports on the entries among the first `n` that ended, in order:
/// success for a finished asset, the failure otherwise.
pub open spec fn reported<T, K, A>(
    entries: Seq<Processed<T, K>>,
    outs: Seq<Result<ProcessingState<T, A>, Error>>,
    n: nat,
) -> Seq<Report<K>>
    decreases n,
{
    if n == 0 {
        Seq::empty()
    } else {
        let before = reported(entries, outs, (n - 1) as nat);
        match outs[n - 1] {
            Ok(ProcessingState::Loaded(_)) => before.push(
                Report { handle: entries[n - 1].handle, tracker: entries[n - 1].tracker, outcome: Ok(()) },
            ),
            Ok(ProcessingState::Loading(_)) => before,
            Err(e) => before.push(
                Report { handle: entries[n - 1].handle, tracker: entries[n - 1].tracker, outcome: Err(e) },
            ),
        }
    }
}

/// Whether `outs`, one outcome for each of `entries`, lead from the storage
/// `before` to the storage `after`, leave `queue` behind and give `reports`.
pub open spec fn processed_as<T, K, A>(
    entries: Seq<Processed<T, K>>,
    outs: Seq<Result<ProcessingState<T, A>, Error>>,
    before: StorageModel<A>,
    after: StorageModel<A>,
    queue: Seq<Processed<T, K>>,
    reports: Seq<Report<K>>,
) -> bool {
    let n = entries.len();
    &&& outs.len() == n
    &&& after == committed(before, entries, outs, n)
    &&& queue == requeued(entries, outs, n)
    &&& reports == reported(entries, outs, n)
}

/// Whether `outs` are outcomes of processing `entries` with `f`, one for each
/// entry, that lead from the storage `before` to the storage `after`, leave
/// `queue` behind and give `reports`.
pub open spec fn processed_with<T, K, A, F: Fn(T) -> Result<ProcessingState<T, A>, Error>>(
    f: F,
    entries: Seq<Processed<T, K>>,
    outs: Seq<Result<ProcessingState<T, A>, Error>>,
    before: StorageModel<A>,
    after: StorageModel<A>,
    queue: Seq<Processed<T, K>>,
    reports: Seq<Report<K>>,
) -> bool {
    &&& processed_as(entries, outs, before, after, queue, reports)
    &&& forall|i: int|
        0 <= i < entries.len() ==> is_outcome(f, entries[i], #[trigger] outs[i])
}

/// Whether `outs` are outcomes of converting `entries`, one for each entry,
/// that lead from the storage `before` to the storage `after` with no asset
/// left to destroy, leave `queue` behind and give `reports`.
pub open spec fn ran_as<T: Into<Result<ProcessingState<T, A>, Error>>, K, A>(
    entries: Seq<Processed<T, K>>,
    outs: Seq<Result<ProcessingState<T, A>, Error>>,
    before: StorageModel<A>,
    after: StorageModel<A>,
    queue: Seq<Processed<T, K>>,
    reports: Seq<Report<K>>,
) -> bool {
    let n = entries.len();
    &&& outs.len() == n
    &&& forall|i: int| 0 <= i < n ==> is_conversion(entries[i], #[trigger] outs[i])
    &&& after == committed(before, entries, outs, n).drained()
    &&& queue == requeued(entries, outs, n)
    &&& reports == reported(entries, outs, n)
}

/// What processing one entry yields where the asset data brings its own
/// conversion along: asset data is converted, a failure is passed on as it is.
pub open spec fn is_conversion<T: Into<Result<ProcessingState<T, A>, Error>>, K, A>(
    entry: Processed<T, K>,
    out: Result<ProcessingState<T, A>, Error>,
) -> bool {
    match entry.data {
        Ok(d) => call_ensures(
            <T as Into<Result<ProcessingState<T, A>, Error>>>::into,
            (d,),
            out,
        ),
        Err(e) => out == Err::<ProcessingState<T, A>, Error>(e),
    }
}

/// The entries among the first `n` that are not for the slot `handle`, in order.
pub open spec fn without_handle<T, K>(
    entries: Seq<Processed<T, K>>,
    handle: LoadHandle,
    n: nat,
) -> Seq<Processed<T, K>>
    decreases n,
{
    if n == 0 {
        Seq::empty()
    } else {
        let before = without_handle(entries, handle, (n - 1) as nat);
        if entries[n - 1].handle == handle {
            before
        } else {
            before.push(entries[n - 1])
        }
    }
}

/// A queue of asset data that waits to be processed into assets.
///
/// The entries are kept in a `VecDeque`, of which contracts can say what it
/// holds. The queue is for one thread at a time; to fill it from several
/// threads, keep it behind a lock.
pub struct ProcessingQueue<T, K> {
    processed: VecDeque<Processed<T, K>>,
}

impl<T, K> View for ProcessingQueue<T, K> {
    type V = Seq<Processed<T, K>>;

    closed spec fn view(&self) -> Seq<Processed<T, K>> {
        self.processed@
    }
}

impl<T, K> Default for ProcessingQueue<T, K> {
    fn default() -> (q: Self)
        ensures
            q@ == Seq::<Processed<T, K>>::empty(),
    {
        ProcessingQueue { processed: VecDeque::new() }
    }
}

impl<T, K> ProcessingQueue<T, K> {
    /// Enqueue asset data for processing
    pub fn enqueue(&mut self, handle: LoadHandle, data: T)
        ensures
            final(self)@ == old(self)@.push(Processed { data: Ok(data), handle, tracker: None }),
    {
        self.processed.push_back(Processed { data: Ok(data), handle, tracker: None });
    }

    /// Enqueue an entry as it is: data or a failure, with or without a tracker.
    pub fn enqueue_processed(&mut self, entry: Processed<T, K>)
        ensures
            final(self)@ == old(self)@.push(entry),
    {
        self.processed.push_back(entry);
    }

    /// Takes every entry for the slot `handle` out of the queue; the others
    /// keep their order.
    pub fn discard(&mut self, handle: LoadHandle)
        ensures
            final(self)@ == without_handle(old(self)@, handle, old(self)@.len()),
    {
        let mut kept: VecDeque<Processed<T, K>> = VecDeque::new();
        let ghost entries = self@;
        while self.processed.len() > 0
            invariant
                kept@.len() <= entries.len() - self.processed@.len(),
                self.processed@.len() <= entries.len(),
                self.processed@ == entries.skip(entries.len() - self.processed@.len()),
                kept@ == without_handle(
                    entries,
                    handle,
                    (entries.len() - self.processed@.len()) as nat,
                ),
            decreases self.processed.len(),
        {
            let entry = self.processed.pop_front().unwrap();
            if entry.handle != handle {
                kept.push_back(entry);
            }
        }
        self.processed = kept;
    }

    /// Number of entries that wait to be processed.
    pub fn len(&self) -> (n: usize)
        ensures
            n == self@.len(),
    {
        self.processed.len()
    }

    /// Process asset data into assets.
    ///
    /// Every entry that is in the queue at the call is taken out and handled
    /// once, in order. A failure is reported and touches nothing. Data goes
    /// through `f`: a finished asset is written to the storage and reported,
    /// data that is not complete goes back on the queue for the next call, a
    /// failure of `f` is reported and the entry dropped. Afterwards the queue
    /// holds exactly the entries to try again, in their order.
    pub fn process<F, A: Asset>(&mut self, storage: &mut AssetStorage<A>, f: F) -> (reports: Vec<
        Report<K>,
    >) where F: Fn(T) -> Result<ProcessingState<T, A>, Error>
        requires
            old(storage).wf(),
            forall|i: int|
                0 <= i < old(self)@.len() && (#[trigger] old(self)@[i]).data is Ok ==> call_requires(
                    f,
                    (old(self)@[i].data->Ok_0,),
                ),
        ensures
            final(storage).wf(),
            exists|outs: Seq<Result<ProcessingState<T, A>, Error>>| #[trigger]
                processed_with(
                    f,
                    old(self)@,
                    outs,
                    old(storage)@,
                    final(storage)@,
                    final(self)@,
                    reports@,
                ),
    {
        let mut requeue: VecDeque<Processed<T, K>> = VecDeque::new();
        let mut reports: Vec<Report<K>> = Vec::new();
        let ghost entries = self@;
        let ghost mut outs: Seq<Result<ProcessingState<T, A>, Error>> = Seq::empty();
        while self.processed.len() > 0
            invariant
                storage.wf(),
                entries == old(self)@,
                forall|i: int|
                    0 <= i < entries.len() && (#[trigger] entries[i]).data is Ok ==> call_requires(
                        f,
                        (entries[i].data->Ok_0,),
                    ),
                outs.len() + self.processed@.len() == entries.len(),
                self.processed@ == entries.skip(outs.len() as int),
                forall|i: int| 0 <= i < outs.len() ==> is_outcome(f, entries[i], #[trigger] outs[i]),
                storage@ == committed(old(storage)@, entries, outs, outs.len()),
                requeue@ == requeued(entries, outs, outs.len()),
                reports@ == reported(entries, outs, outs.len()),
            decreases self.processed.len(),
        {
            let ghost k = outs.len() as int;
            let processed = self.processed.pop_front().unwrap();
            assert(processed == entries[k]);
            let Processed { data, handle, tracker } = processed;
            let out = match data {
                Ok(d) => f(d),
                Err(e) => Err(e),
            };
            proof {
                let prev = outs;
                outs = outs.push(out);
                assert(forall|i: int| 0 <= i < k ==> outs[i] == prev[i]);
                lemma_prefix_only::<T, K, A>(old(storage)@, entries, prev, outs, k as nat);
            }
            match out {
                Ok(ProcessingState::Loaded(asset)) => {
                    storage.update_asset(&handle, asset);
                    reports.push(Report { handle, tracker, outcome: Ok(()) });
                },
                Ok(ProcessingState::Loading(d)) => {
                    requeue.push_back(Processed { data: Ok(d), handle, tracker });
                },
                Err(e) => {
                    reports.push(Report { handle, tracker, outcome: Err(e) });
                },
            }
        }
        self.processed = requeue;
        assert(processed_with(f, entries, outs, old(storage)@, storage@, self@, reports@));
        reports
    }
}

/// A default implementation for an asset processing system
/// which converts data to assets and maintains the asset storage
/// for `A`.
///
/// This system can only be used if the asset data implements
/// `Into<Result<ProcessingState<A::Data, A>, Error>>`.
pub struct Processor<A> {
    marker: PhantomData<A>,
}

impl<A> Processor<A> {
    /// Creates a new asset processor for
    /// assets of type `A`.
    pub fn new() -> Self {
        Processor { marker: PhantomData }
    }
}

impl<A: Asset> Processor<A> where A::Data: Into<Result<ProcessingState<A::Data, A>, Error>> {
    /// One pass of the processor: processes every entry of the queue with the
    /// conversion that the asset data brings along, then destroys the assets
    /// that left their slots.
    pub fn run<K>(
        &mut self,
        queue: &mut ProcessingQueue<A::Data, K>,
        storage: &mut AssetStorage<A>,
    ) -> (reports: Vec<Report<K>>)
        requires
            old(storage).wf(),
        ensures
            final(storage).wf(),
            exists|outs: Seq<Result<ProcessingState<A::Data, A>, Error>>| #[trigger]
                ran_as(
                    old(queue)@,
                    outs,
                    old(storage)@,
                    final(storage)@,
                    final(queue)@,
                    reports@,
                ),
    {
        let convert = |d: A::Data| -> (r: Result<ProcessingState<A::Data, A>, Error>)
            ensures
                call_ensures(
                    <A::Data as Into<Result<ProcessingState<A::Data, A>, Error>>>::into,
                    (d,),
                    r,
                ),
            { d.into() };
        let reports = queue.process(storage, convert);
        let ghost mid = storage@;
        storage.process_custom_drop(|_asset: A| {});
        proof {
            let outs = choose|outs: Seq<Result<ProcessingState<A::Data, A>, Error>>|
                #[trigger] processed_with(
                    convert,
                    old(queue)@,
                    outs,
                    old(storage)@,
                    mid,
                    queue@,
                    reports@,
                );
            assert forall|i: int| 0 <= i < old(queue)@.len() implies is_conversion(
                old(queue)@[i],
                #[trigger] outs[i],
            ) by {
                assert(is_outcome(convert, old(queue)@[i], outs[i]));
            }
            assert(ran_as(old(queue)@, outs, old(storage)@, storage@, queue@, reports@));
        }
        reports
    }
}

/// Discarding a slot leaves only entries of other slots, each one of the old.
pub proof fn lemma_without_handle<T, K>(entries: Seq<Processed<T, K>>, handle: LoadHandle, n: nat)
    requires
        n <= entries.len(),
    ensures
        forall|j: int|
            0 <= j < without_handle(entries, handle, n).len() ==> {
                &&& (#[trigger] without_handle(entries, handle, n)[j]).handle != handle
                &&& exists|i: int|
                    0 <= i < n && entries[i] == without_handle(entries, handle, n)[j]
            },
    decreases n,
{
    if n > 0 {
        lemma_without_handle(entries, handle, (n - 1) as nat);
        let before = without_handle(entries, handle, (n - 1) as nat);
        let now = without_handle(entries, handle, n);
        assert forall|j: int| 0 <= j < now.len() implies {
            &&& (#[trigger] now[j]).handle != handle
            &&& exists|i: int| 0 <= i < n && entries[i] == now[j]
        } by {
            if j < before.len() {
                assert(now[j] == before[j]);
                let i = choose|i: int| 0 <= i < n - 1 && entries[i] == before[j];
                assert(entries[i] == now[j]);
            } else {
                assert(entries[n - 1] == now[j]);
            }
        }
    }
}

/// Processing reserves slots and releases none, and every entry that goes
/// back on the queue is for the slot of one of the old entries.
pub proof fn lemma_processing_keeps_slots<T, K, A>(
    storage: StorageModel<A>,
    entries: Seq<Processed<T, K>>,
    outs: Seq<Result<ProcessingState<T, A>, Error>>,
    n: nat,
)
    requires
        n <= entries.len(),
        n <= outs.len(),
    ensures
        forall|h: LoadHandle|
            storage.is_reserved(h) ==> #[trigger] committed(storage, entries, outs, n).is_reserved(
                h,
            ),
        forall|j: int|
            0 <= j < requeued(entries, outs, n).len() ==> exists|i: int|
                0 <= i < n && entries[i].handle == (#[trigger] requeued(entries, outs, n)[j]).handle,
    decreases n,
{
    if n > 0 {
        lemma_processing_keeps_slots(storage, entries, outs, (n - 1) as nat);
        assert forall|h: LoadHandle| storage.is_reserved(h) implies #[trigger] committed(
            storage,
            entries,
            outs,
            n,
        ).is_reserved(h) by {
            assert(committed(storage, entries, outs, (n - 1) as nat).is_reserved(h));
        }
        let before = requeued(entries, outs, (n - 1) as nat);
        let now = requeued(entries, outs, n);
        assert forall|j: int| 0 <= j < now.len() implies exists|i: int|
            0 <= i < n && entries[i].handle == (#[trigger] now[j]).handle by {
            if j < before.len() {
                assert(now[j] == before[j]);
                let i = choose|i: int| 0 <= i < n - 1 && entries[i].handle == before[j].handle;
                assert(entries[i].handle == now[j].handle);
            } else {
                assert(entries[n - 1].handle == now[j].handle);
            }
        }
    }
}

/// What the first `n` entries yield depends on the first `n` outcomes only.
proof fn lemma_prefix_only<T, K, A>(
    storage: StorageModel<A>,
    entries: Seq<Processed<T, K>>,
    a: Seq<Result<ProcessingState<T, A>, Error>>,
    b: Seq<Result<ProcessingState<T, A>, Error>>,
    n: nat,
)
    requires
        n <= a.len(),
        n <= b.len(),
        forall|i: int| 0 <= i < n ==> a[i] == b[i],
    ensures
        committed(storage, entries, a, n) == committed(storage, entries, b, n),
        requeued(entries, a, n) == requeued(entries, b, n),
        reported(entries, a, n) == reported(entries, b, n),
    decreases n,
{
    if n > 0 {
        lemma_prefix_only(storage, entries, a, b, (n - 1) as nat);
    }
}

} // verus!
