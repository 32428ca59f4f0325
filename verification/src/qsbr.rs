//! Quiescent-state based reclamation: epochs of the reader threads and the
//! list of retired snapshots that a partition keeps until every reader has
//! moved past them.

use vstd::prelude::*;
use crate::rcu::GarbageEntry;

verus! {

/// The epoch state of one reader thread. An epoch of `0` means the thread is
/// outside any read-side critical section.
pub struct WorkerState {
    pub local_epoch: usize,
    pub is_offline: bool,
}

impl WorkerState {
    /// A thread outside any critical section and online.
    pub fn new() -> (w: WorkerState)
        ensures
            w.local_epoch == 0,
            !w.is_offline,
    {
        WorkerState { local_epoch: 0, is_offline: false }
    }

    /// Enters a critical section at the current global epoch of `manager`;
    /// that epoch is never 0 (see [`QsbrManager::maintenance`]), so the
    /// thread then counts as inside a critical section.
    pub fn enter(&mut self, manager: &QsbrManager)
        ensures
            final(self).local_epoch == manager.global_epoch,
            manager.global_epoch >= 1 ==> final(self).local_epoch != 0,
            final(self).is_offline == old(self).is_offline,
    {
        self.local_epoch = manager.global_epoch;
    }

    /// Leaves the critical section.
    pub fn leave(&mut self)
        ensures
            final(self).local_epoch == 0,
            final(self).is_offline == old(self).is_offline,
    {
        self.local_epoch = 0;
    }

    /// Marks the thread offline: reclamation stops waiting for it.
    pub fn force_offline(&mut self)
        ensures
            final(self).is_offline,
            final(self).local_epoch == old(self).local_epoch,
    {
        self.is_offline = true;
    }

    /// Marks the thread online again.
    pub fn resume_online(&mut self)
        ensures
            !final(self).is_offline,
            final(self).local_epoch == old(self).local_epoch,
    {
        self.is_offline = false;
    }
}

impl Default for WorkerState {
    fn default() -> (w: WorkerState)
        ensures
            w.local_epoch == 0,
            !w.is_offline,
    {
        WorkerState::new()
    }
}

/// One node of the list of registered reader threads.
pub struct WorkerNode {
    pub worker: WorkerState,
    pub next: Option<Box<WorkerNode>>,
}

/// The epochs of the registered threads, in list order.
pub open spec fn worker_list(list: Option<Box<WorkerNode>>) -> Seq<WorkerState>
    decreases list,
{
    match list {
        None => Seq::empty(),
        Some(node) => seq![node.worker].add(worker_list(node.next)),
    }
}

/// The smallest epoch of an online thread inside a critical section, if
/// below `bound`; else `bound`.
pub open spec fn min_active_epoch(workers: Seq<WorkerState>, bound: usize) -> usize
    decreases workers.len(),
{
    if workers.len() == 0 {
        bound
    } else {
        let rest = min_active_epoch(workers.drop_first(), bound);
        let w = workers[0];
        if !w.is_offline && w.local_epoch != 0 && w.local_epoch < rest {
            w.local_epoch
        } else {
            rest
        }
    }
}

/// The entries of `garbage` retired at or after `min_epoch`, in order.
pub open spec fn still_needed(garbage: Seq<GarbageEntry>, min_epoch: usize) -> Seq<GarbageEntry>
    decreases garbage.len(),
{
    if garbage.len() == 0 {
        Seq::empty()
    } else {
        let rest = still_needed(garbage.drop_last(), min_epoch);
        if garbage.last().epoch >= min_epoch {
            rest.push(garbage.last())
        } else {
            rest
        }
    }
}

/// The reclamation manager of one partition.
pub struct QsbrManager {
    pub global_epoch: usize,
    pub garbage: Vec<GarbageEntry>,
}

impl QsbrManager {
    /// A manager at global epoch `1` with nothing retired.
    pub fn new() -> (m: QsbrManager)
        ensures
            m.global_epoch == 1,
            m.garbage@.len() == 0,
    {
        QsbrManager { global_epoch: 1, garbage: Vec::new() }
    }

    /// Retires `old` at the current global epoch.
    pub fn defer_free<T>(&mut self, retired: T)
        ensures
            final(self).global_epoch == old(self).global_epoch,
            final(self).garbage@.len() == old(self).garbage@.len() + 1,
            final(self).garbage@.drop_last() == old(self).garbage@,
            final(self).garbage@.last().epoch == old(self).global_epoch,
    {
        let g = GarbageEntry::new(retired, self.global_epoch);
        self.garbage.push(g);
        assert(self.garbage@.drop_last() =~= old(self).garbage@);
    }

    /// The smallest epoch of an online thread in a critical section in
    /// `list`, or `bound` when none is below it.
    fn min_epoch_of(list: &Option<Box<WorkerNode>>, bound: usize) -> (m: usize)
        ensures
            m == min_active_epoch(worker_list(*list), bound),
        decreases *list,
    {
        match list {
            None => bound,
            Some(node) => {
                let rest = Self::min_epoch_of(&node.next, bound);
                proof {
                    assert(worker_list(*list).drop_first() =~= worker_list(node.next));
                }
                let w = &node.worker;
                if !w.is_offline && w.local_epoch != 0 && w.local_epoch < rest {
                    w.local_epoch
                } else {
                    rest
                }
            },
        }
    }

    /// One reclamation round: advances the global epoch, finds the oldest
    /// epoch that an online reader is still in, advances the epoch once more
    /// when no reader lags, and releases every entry retired before that
    /// oldest epoch.
    pub fn maintenance(&mut self, workers: &Option<Box<WorkerNode>>)
        ensures
            ({
                let current = old(self).global_epoch.wrapping_add(1);
                let min_epoch = min_active_epoch(worker_list(*workers), current);
                &&& final(self).global_epoch == if min_epoch == current {
                    current.wrapping_add(1)
                } else {
                    current
                }
                &&& final(self).garbage@ == still_needed(old(self).garbage@, min_epoch)
            }),
            old(self).global_epoch < usize::MAX - 1 ==> old(self).global_epoch < final(self).global_epoch,
    {
        self.global_epoch = self.global_epoch.wrapping_add(1);
        let current_global = self.global_epoch;
        let min_epoch = Self::min_epoch_of(workers, current_global);
        if min_epoch == current_global {
            self.global_epoch = self.global_epoch.wrapping_add(1);
        }
        let mut kept: Vec<GarbageEntry> = Vec::new();
        let mut old_garbage: Vec<GarbageEntry> = Vec::new();
        std::mem::swap(&mut old_garbage, &mut self.garbage);
        let ghost og = old_garbage@;
        for g in it: old_garbage
            invariant
                it.seq() == og,
                kept@ == still_needed(og.take(it.index() as int), min_epoch),
        {
            let ghost j = it.index() as int;
            proof {
                assert(og.take(j + 1).drop_last() =~= og.take(j));
            }
            if g.epoch >= min_epoch {
                kept.push(g);
            }
        }
        proof {
            assert(og.take(og.len() as int) =~= og);
        }
        self.garbage = kept;
    }
}

} // verus!
