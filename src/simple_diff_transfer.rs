//! The diff-transfer engine: takes a snapshot of the source and of the target,
//! plans which keys to move, and tracks their transfer with a bounded number
//! in flight, where one key's failure never ends the run.
//!
//! The engine decides; its caller performs the work (snapshots, fetches,
//! writes, deadlines) and reports each result back.

use vstd::prelude::*;
use vstd::utf8::encode_utf8;

use crate::error::Error;
use crate::{SnapshotConfig, SnapshotPath};

verus! {

/// Parameters of one transfer run.
#[derive(Debug, Clone)]
pub struct SimpleDiffTransferConfig {
    /// Show progress while the run goes.
    pub progress: bool,
    /// Parameters handed to both snapshot producers.
    pub snapshot_config: SnapshotConfig,
}

/// Keys whose transfer may be in flight at the same time.
pub const TRANSFER_CONCURRENCY: usize = 128;

/// Seconds allowed to resolve one key, and again to place it.
pub const TRANSFER_TIMEOUT_SECS: u64 = 60;

/// The bytes of a key.
pub open spec fn key_bytes(p: SnapshotPath) -> Seq<u8> {
    encode_utf8(p.0@)
}

/// Lexicographic order of byte strings.
pub open spec fn bytes_le(a: Seq<u8>, b: Seq<u8>) -> bool
    decreases a.len(),
{
    if a.len() == 0 {
        true
    } else if b.len() == 0 {
        false
    } else if a[0] != b[0] {
        a[0] < b[0]
    } else {
        bytes_le(a.drop_first(), b.drop_first())
    }
}

/// Keys in ascending byte order.
pub open spec fn is_sorted(v: Seq<SnapshotPath>) -> bool {
    forall|i: int| 0 <= i < v.len() - 1 ==> bytes_le(key_bytes(v[i]), key_bytes(#[trigger] v[i + 1]))
}

proof fn lemma_bytes_le_after_common_prefix(a: Seq<u8>, b: Seq<u8>, i: int)
    requires
        0 <= i <= a.len(),
        i <= b.len(),
        forall|j: int| 0 <= j < i ==> a[j] == b[j],
    ensures
        bytes_le(a, b) == bytes_le(
            a.subrange(i, a.len() as int),
            b.subrange(i, b.len() as int),
        ),
    decreases i,
{
    if i == 0 {
        assert(a.subrange(0, a.len() as int) =~= a);
        assert(b.subrange(0, b.len() as int) =~= b);
    } else {
        let a1 = a.drop_first();
        let b1 = b.drop_first();
        assert(a[0] == b[0]);
        assert forall|j: int| 0 <= j < i - 1 implies a1[j] == b1[j] by {
            assert(a[j + 1] == b[j + 1]);
        }
        lemma_bytes_le_after_common_prefix(a1, b1, i - 1);
        assert(a1.subrange(i - 1, a1.len() as int) =~= a.subrange(i, a.len() as int));
        assert(b1.subrange(i - 1, b1.len() as int) =~= b.subrange(i, b.len() as int));
    }
}

proof fn lemma_bytes_le_first_difference(a: Seq<u8>, b: Seq<u8>, i: int)
    requires
        0 <= i < a.len(),
        i < b.len(),
        forall|j: int| 0 <= j < i ==> a[j] == b[j],
        a[i] != b[i],
    ensures
        bytes_le(a, b) == (a[i] < b[i]),
        a != b,
{
    lemma_bytes_le_after_common_prefix(a, b, i);
    let xa = a.subrange(i, a.len() as int);
    let ya = b.subrange(i, b.len() as int);
    assert(xa[0] == a[i] && ya[0] == b[i]);
}

/// Compares two keys by their bytes.
pub fn compare_keys(a: &SnapshotPath, b: &SnapshotPath) -> (r: core::cmp::Ordering)
    ensures
        (r is Less || r is Equal) <==> bytes_le(key_bytes(*a), key_bytes(*b)),
        r is Equal <==> key_bytes(*a) == key_bytes(*b),
{
    let x = a.0.as_str().as_bytes();
    let y = b.0.as_str().as_bytes();
    let ghost xs = key_bytes(*a);
    let ghost ys = key_bytes(*b);
    assert(x@ == xs);
    assert(y@ == ys);
    let mut i: usize = 0;
    while i < x.len() && i < y.len()
        invariant
            x@ == xs,
            y@ == ys,
            xs == key_bytes(*a),
            ys == key_bytes(*b),
            i <= xs.len(),
            i <= ys.len(),
            forall|j: int| 0 <= j < i ==> xs[j] == ys[j],
        decreases xs.len() - i,
    {
        if x[i] != y[i] {
            proof {
                lemma_bytes_le_first_difference(xs, ys, i as int);
            }
            if x[i] < y[i] {
                return core::cmp::Ordering::Less;
            } else {
                return core::cmp::Ordering::Greater;
            }
        }
        i = i + 1;
    }
    proof {
        lemma_bytes_le_after_common_prefix(xs, ys, i as int);
    }
    if x.len() == y.len() {
        assert(xs =~= ys);
        core::cmp::Ordering::Equal
    } else if x.len() < y.len() {
        assert(xs.len() != ys.len());
        core::cmp::Ordering::Less
    } else {
        assert(xs.len() != ys.len());
        core::cmp::Ordering::Greater
    }
}

/// Relies on slice::sort_by, which sorts the keys, stably, in the order that
/// the total order compare_keys gives: the same keys come out, ascending.
#[verifier::external_body]
fn sort_keys(v: &mut Vec<SnapshotPath>)
    ensures
        final(v)@.to_multiset() == old(v)@.to_multiset(),
        is_sorted(final(v)@),
{
    v.sort_by(|a, b| compare_keys(a, b));
}

/// The result of an operation that had a deadline: `None` when the deadline
/// passed first, which counts as a timeout error.
pub fn within_deadline<T>(r: Option<Result<T, Error>>) -> (res: Result<T, Error>)
    ensures
        match r {
            Some(x) => res == x,
            None => res matches Err(e) && e is TimeoutError,
        },
{
    match r {
        Some(x) => x,
        None => Err(Error::TimeoutError),
    }
}

/// How the transfer of one key ended.
#[derive(Debug)]
pub enum ItemOutcome {
    /// The key was resolved at the source and placed at the target.
    Transferred,
    /// The key could not be resolved at the source, or not in time.
    ResolveFailed(Error),
    /// The key was resolved but could not be placed at the target, or not in time.
    PlaceFailed(Error),
}

/// After resolving a key with a deadline: the item to place, or the
/// outcome of a key that could not be resolved (a passed deadline counts as a
/// timeout error).
pub fn resolve_step<T>(resolved: Option<Result<T, Error>>) -> (r: Result<T, ItemOutcome>)
    ensures
        match resolved {
            Some(Ok(x)) => r == Ok::<T, ItemOutcome>(x),
            Some(Err(e)) => r == Err::<T, ItemOutcome>(ItemOutcome::ResolveFailed(e)),
            None => r == Err::<T, ItemOutcome>(ItemOutcome::ResolveFailed(Error::TimeoutError)),
        },
{
    match within_deadline(resolved) {
        Ok(x) => Ok(x),
        Err(e) => Err(ItemOutcome::ResolveFailed(e)),
    }
}

/// After placing an item with a deadline: how the key's transfer ended (a
/// passed deadline counts as a timeout error).
pub fn place_step(placed: Option<Result<(), Error>>) -> (r: ItemOutcome)
    ensures
        match placed {
            Some(Ok(())) => r == ItemOutcome::Transferred,
            Some(Err(e)) => r == ItemOutcome::PlaceFailed(e),
            None => r == ItemOutcome::PlaceFailed(Error::TimeoutError),
        },
{
    match within_deadline(placed) {
        Ok(()) => ItemOutcome::Transferred,
        Err(e) => ItemOutcome::PlaceFailed(e),
    }
}

/// The phases of a run, passed through in order; `Failed` and `Done` end it.
#[derive(Debug, Clone, Copy, PartialEq, Eq)]
pub enum Phase {
    Init,
    Snapshot,
    Plan,
    Transfer,
    Done,
    Failed,
}

/// Number of `true` entries.
pub open spec fn count_true(s: Seq<bool>) -> nat
    decreases s.len(),
{
    if s.len() == 0 {
        0
    } else {
        count_true(s.drop_last()) + if s.last() {
            1nat
        } else {
            0nat
        }
    }
}

proof fn lemma_count_set(s: Seq<bool>, i: int)
    requires
        0 <= i < s.len(),
        !s[i],
    ensures
        count_true(s.update(i, true)) == count_true(s) + 1,
    decreases s.len(),
{
    let t = s.update(i, true);
    if i == s.len() - 1 {
        assert(t.drop_last() =~= s.drop_last());
    } else {
        assert(t.drop_last() =~= s.drop_last().update(i, true));
        lemma_count_set(s.drop_last(), i);
    }
}

proof fn lemma_count_bound(s: Seq<bool>, d: int)
    requires
        0 <= d <= s.len(),
        forall|i: int| d <= i < s.len() ==> !s[i],
    ensures
        count_true(s) <= d,
    decreases s.len(),
{
    if s.len() > 0 {
        if d == s.len() {
            lemma_count_bound(s.drop_last(), d - 1);
        } else {
            lemma_count_bound(s.drop_last(), d);
        }
    }
}

proof fn lemma_count_all(s: Seq<bool>)
    requires
        count_true(s) == s.len(),
    ensures
        forall|i: int| 0 <= i < s.len() ==> s[i],
    decreases s.len(),
{
    if s.len() > 0 {
        lemma_count_bound(s.drop_last(), s.drop_last().len() as int);
        lemma_count_all(s.drop_last());
        assert forall|i: int| 0 <= i < s.len() implies s[i] by {
            if i < s.len() - 1 {
                assert(s.drop_last()[i] == s[i]);
            }
        }
    }
}

proof fn lemma_count_none(n: int, s: Seq<bool>)
    requires
        s.len() == n,
        forall|i: int| 0 <= i < n ==> !s[i],
    ensures
        count_true(s) == 0,
{
    lemma_count_bound(s, 0);
}

/// What recording the end of the key at `index` does to a run: only the
/// key's mark, the count of ended keys, the failures and the phase change.
pub open spec fn item_done_step(
    before: TransferRun,
    after: TransferRun,
    index: usize,
    outcome: ItemOutcome,
) -> bool {
    &&& after.wf()
    &&& after.plan == before.plan
    &&& after.source == before.source
    &&& after.target == before.target
    &&& after.dispatched == before.dispatched
    &&& after.concurrency == before.concurrency
    &&& after.finished@ == before.finished@.update(index as int, true)
    &&& after.completed == before.completed + 1
    &&& if after.completed == after.plan@.len() {
        after.phase is Done
    } else {
        after.phase is Transfer
    }
    &&& match outcome {
        ItemOutcome::Transferred => after.failed == before.failed,
        _ => after.failed@ == before.failed@.push(index),
    }
}

/// The indices whose transfer failed, in the order their ends were recorded.
pub open spec fn failed_of(indices: Seq<usize>, outcomes: Seq<ItemOutcome>) -> Seq<usize>
    decreases indices.len(),
{
    if indices.len() == 0 || outcomes.len() == 0 {
        Seq::empty()
    } else {
        let prev = failed_of(indices.drop_last(), outcomes.drop_last());
        match outcomes.last() {
            ItemOutcome::Transferred => prev,
            _ => prev.push(indices.last()),
        }
    }
}

/// One run of the engine.
pub struct TransferRun {
    pub phase: Phase,
    /// Most keys in flight at the same time.
    pub concurrency: usize,
    /// The source's snapshot, once taken.
    pub source: Vec<SnapshotPath>,
    /// The target's snapshot, once taken; sorted with the plan.
    pub target: Vec<SnapshotPath>,
    /// The keys to transfer, in order.
    pub plan: Vec<SnapshotPath>,
    /// Keys of the plan handed out so far: those before this index.
    pub dispatched: usize,
    /// Keys of the plan whose transfer has ended.
    pub completed: usize,
    /// For each key of the plan, whether its transfer has ended.
    pub finished: Vec<bool>,
    /// Indices in the plan of the keys whose transfer failed.
    pub failed: Vec<usize>,
}

impl TransferRun {
    /// The bookkeeping agrees with itself.
    pub open spec fn wf(&self) -> bool {
        &&& self.concurrency > 0
        &&& self.finished@.len() == self.plan@.len()
        &&& self.dispatched <= self.plan@.len()
        &&& self.completed == count_true(self.finished@)
        &&& self.completed <= self.dispatched
        &&& self.dispatched - self.completed <= self.concurrency
        &&& forall|i: int| self.dispatched <= i < self.finished@.len() ==> !self.finished@[i]
        &&& forall|k: int|
            0 <= k < self.failed@.len() ==> self.failed@[k] < self.plan@.len()
                && self.finished@[self.failed@[k] as int]
        &&& (self.phase is Transfer ==> self.completed < self.plan@.len())
        &&& (self.phase is Done ==> self.completed == self.plan@.len())
        &&& (!(self.phase is Transfer || self.phase is Done) ==> self.plan@.len() == 0
            && self.dispatched == 0 && self.failed@.len() == 0)
    }

    /// A run that has not started.
    pub fn new(concurrency: usize) -> (r: TransferRun)
        requires
            concurrency > 0,
        ensures
            r.wf(),
            r.phase is Init,
            r.concurrency == concurrency,
    {
        TransferRun {
            phase: Phase::Init,
            concurrency,
            source: Vec::new(),
            target: Vec::new(),
            plan: Vec::new(),
            dispatched: 0,
            completed: 0,
            finished: Vec::new(),
            failed: Vec::new(),
        }
    }

    /// Starts taking the snapshots.
    pub fn begin_snapshot(&mut self)
        requires
            old(self).wf(),
            old(self).phase is Init,
        ensures
            final(self).wf(),
            final(self).phase is Snapshot,
            final(self).concurrency == old(self).concurrency,
    {
        self.phase = Phase::Snapshot;
    }

    /// Takes both snapshots; the run fails, with the source's error first,
    /// unless both were taken.
    pub fn snapshots_taken(
        &mut self,
        source: Result<Vec<SnapshotPath>, Error>,
        target: Result<Vec<SnapshotPath>, Error>,
    ) -> (r: Result<(), Error>)
        requires
            old(self).wf(),
            old(self).phase is Snapshot,
        ensures
            final(self).wf(),
            final(self).concurrency == old(self).concurrency,
            match source {
                Err(e) => r == Err::<(), Error>(e) && final(self).phase is Failed,
                Ok(s) => match target {
                    Err(e) => r == Err::<(), Error>(e) && final(self).phase is Failed,
                    Ok(t) => r is Ok && final(self).phase is Plan && final(self).source@ == s@
                        && final(self).target@ == t@,
                },
            },
    {
        match source {
            Err(e) => {
                self.phase = Phase::Failed;
                Err(e)
            },
            Ok(s) => match target {
                Err(e) => {
                    self.phase = Phase::Failed;
                    Err(e)
                },
                Ok(t) => {
                    self.source = s;
                    self.target = t;
                    self.phase = Phase::Plan;
                    Ok(())
                },
            },
        }
    }

    /// Sorts both snapshots and plans every key of the source's, in order.
    /// A run with nothing to transfer is done.
    pub fn make_plan(&mut self)
        requires
            old(self).wf(),
            old(self).phase is Plan,
        ensures
            final(self).wf(),
            final(self).concurrency == old(self).concurrency,
            final(self).plan@.to_multiset() == old(self).source@.to_multiset(),
            is_sorted(final(self).plan@),
            final(self).target@.to_multiset() == old(self).target@.to_multiset(),
            is_sorted(final(self).target@),
            final(self).dispatched == 0,
            final(self).completed == 0,
            final(self).failed@.len() == 0,
            if final(self).plan@.len() == 0 {
                final(self).phase is Done
            } else {
                final(self).phase is Transfer
            },
    {
        std::mem::swap(&mut self.plan, &mut self.source);
        sort_keys(&mut self.plan);
        sort_keys(&mut self.target);
        let n = self.plan.len();
        let mut finished: Vec<bool> = Vec::new();
        let mut i: usize = 0;
        while i < n
            invariant
                i <= n,
                finished@.len() == i,
                forall|j: int| 0 <= j < i ==> !finished@[j],
            decreases n - i,
        {
            finished.push(false);
            i = i + 1;
        }
        proof {
            lemma_count_none(n as int, finished@);
        }
        self.finished = finished;
        self.dispatched = 0;
        self.completed = 0;
        if n == 0 {
            self.phase = Phase::Done;
        } else {
            self.phase = Phase::Transfer;
        }
    }

    /// Whether the key at `index` of the plan was handed out and has not
    /// ended yet.
    pub fn is_pending(&self, index: usize) -> (r: bool)
        requires
            self.wf(),
        ensures
            r == (index < self.dispatched && !self.finished@[index as int]),
    {
        index < self.dispatched && !self.finished[index]
    }

    /// Hands out the index in the plan of the next key to transfer, when one
    /// is left and fewer than the limit are in flight.
    pub fn next_key(&mut self) -> (r: Option<usize>)
        requires
            old(self).wf(),
        ensures
            final(self).wf(),
            final(self).phase == old(self).phase,
            final(self).plan == old(self).plan,
            final(self).source == old(self).source,
            final(self).target == old(self).target,
            final(self).finished == old(self).finished,
            final(self).failed == old(self).failed,
            final(self).completed == old(self).completed,
            final(self).concurrency == old(self).concurrency,
            if old(self).phase is Transfer && old(self).dispatched < old(self).plan@.len()
                && old(self).dispatched - old(self).completed < old(self).concurrency {
                r == Some(old(self).dispatched) && final(self).dispatched == old(self).dispatched
                    + 1
            } else {
                r is None && final(self).dispatched == old(self).dispatched
            },
    {
        let is_transfer = match self.phase {
            Phase::Transfer => true,
            _ => false,
        };
        if is_transfer && self.dispatched < self.plan.len() && self.dispatched - self.completed
            < self.concurrency {
            let i = self.dispatched;
            self.dispatched = i + 1;
            Some(i)
        } else {
            None
        }
    }

    /// Records how the transfer of the key at `index` of the plan ended. A
    /// failure is noted and the run goes on; once every key has ended the run
    /// is done.
    pub fn item_done(&mut self, index: usize, outcome: &ItemOutcome)
        requires
            old(self).wf(),
            old(self).phase is Transfer,
            index < old(self).dispatched,
            !old(self).finished@[index as int],
        ensures
            item_done_step(*old(self), *final(self), index, *outcome),
    {
        proof {
            lemma_count_set(self.finished@, index as int);
            lemma_count_bound(self.finished@.update(index as int, true), self.dispatched as int);
        }
        self.finished.set(index, true);
        self.completed = self.completed + 1;
        match outcome {
            ItemOutcome::Transferred => {},
            _ => {
                self.failed.push(index);
            },
        }
        if self.completed == self.plan.len() {
            self.phase = Phase::Done;
        } else {
            self.phase = Phase::Transfer;
        }
    }
}

/// A run that is done has seen the transfer of every key of its plan end,
/// whether it succeeded or failed.
pub proof fn lemma_done_run_attempted_every_key(run: TransferRun)
    requires
        run.wf(),
        run.phase is Done,
    ensures
        forall|i: int| 0 <= i < run.plan@.len() ==> run.finished@[i],
        run.dispatched == run.plan@.len(),
{
    lemma_count_all(run.finished@);
}

proof fn lemma_steps_so_far(
    runs: Seq<TransferRun>,
    indices: Seq<usize>,
    outcomes: Seq<ItemOutcome>,
    k: int,
)
    requires
        runs.len() == indices.len() + 1,
        outcomes.len() == indices.len(),
        runs[0].completed == 0,
        runs[0].failed@.len() == 0,
        forall|i: int|
            0 <= i < indices.len() ==> item_done_step(
                #[trigger] runs[i],
                runs[i + 1],
                indices[i],
                outcomes[i],
            ),
        0 <= k <= indices.len(),
    ensures
        runs[k].completed == k,
        runs[k].plan == runs[0].plan,
        runs[k].failed@ == failed_of(indices.take(k), outcomes.take(k)),
    decreases k,
{
    if k == 0 {
        assert(runs[0].failed@ =~= Seq::<usize>::empty());
    } else {
        lemma_steps_so_far(runs, indices, outcomes, k - 1);
        assert(item_done_step(runs[k - 1], runs[k], indices[k - 1], outcomes[k - 1]));
        assert(indices.take(k).drop_last() =~= indices.take(k - 1));
        assert(outcomes.take(k).drop_last() =~= outcomes.take(k - 1));
    }
}

/// A run that records the end of each key of its plan once, whatever each
/// outcome (a key that could not be resolved, or whose placement timed
/// out), reaches `Done`: every key has ended, and the failures noted are
/// exactly the keys whose transfer failed, in the order recorded.
pub proof fn lemma_failures_do_not_stop_the_run(
    runs: Seq<TransferRun>,
    indices: Seq<usize>,
    outcomes: Seq<ItemOutcome>,
)
    requires
        runs.len() == indices.len() + 1,
        outcomes.len() == indices.len(),
        runs[0].wf(),
        runs[0].phase is Transfer,
        runs[0].completed == 0,
        runs[0].failed@.len() == 0,
        indices.len() == runs[0].plan@.len(),
        forall|i: int|
            0 <= i < indices.len() ==> item_done_step(
                #[trigger] runs[i],
                runs[i + 1],
                indices[i],
                outcomes[i],
            ),
    ensures
        runs.last().phase is Done,
        forall|j: int| 0 <= j < runs.last().plan@.len() ==> runs.last().finished@[j],
        runs.last().failed@ == failed_of(indices, outcomes),
{
    let n = indices.len() as int;
    lemma_steps_so_far(runs, indices, outcomes, n);
    assert(item_done_step(runs[n - 1], runs[n], indices[n - 1], outcomes[n - 1]));
    assert(indices.take(n) =~= indices);
    assert(outcomes.take(n) =~= outcomes);
    lemma_done_run_attempted_every_key(runs[n]);
}

} // verus!
