//! Work distribution: where the workers of a parallel search put the work
//! items that they make, and where they take the next one from.
//!
//! One interface serves both strategies. With the global state stack every
//! item goes to one shared stack. With work stealing each worker keeps a
//! stack of its own and hands an item over to the shared pool when the item
//! is shallow or the worker's stack is full; a worker whose own stack is
//! empty takes from the pool.

use vstd::prelude::*;
use crate::work::WorkItem;

verus! {

/// The stacks of a parallel search: the shared one and one per worker.
pub struct Scheduler {
    stacks: Vec<Vec<WorkItem>>,
    stealing: bool,
    high_limit: usize,
    local_limit: usize,
}

impl View for Scheduler {
    type V = Seq<Seq<WorkItem>>;

    /// The stacks, bottom first: the shared stack at index 0, the stack of
    /// worker `w` at index `w + 1`.
    closed spec fn view(&self) -> Seq<Seq<WorkItem>> {
        Seq::new(self.stacks.len() as nat, |k: int| self.stacks[k]@)
    }
}

impl Scheduler {
    /// Number of workers.
    pub open spec fn workers(&self) -> int {
        self@.len() - 1
    }

    /// Whether the strategy is work stealing; else it is the global state stack.
    pub closed spec fn stealing(&self) -> bool {
        self.stealing
    }

    /// The depth below which an item always goes to the shared pool.
    pub closed spec fn high_limit(&self) -> int {
        self.high_limit as int
    }

    /// The largest size of a worker's own stack.
    pub closed spec fn local_limit(&self) -> int {
        self.local_limit as int
    }

    /// There is at least one worker, and without work stealing the workers'
    /// own stacks stay empty.
    pub closed spec fn wf(&self) -> bool {
        &&& self.stacks.len() >= 2
        &&& !self.stealing ==> forall|k: int|
            1 <= k < self.stacks.len() ==> (#[trigger] self.stacks[k]).len() == 0
    }

    /// The index of the stack that an item of the given depth goes to when
    /// `worker` pushes it.
    pub open spec fn destination(&self, worker: int, depth: int) -> int {
        if self.stealing() && depth >= self.high_limit() && self@[worker + 1].len()
            < self.local_limit() {
            worker + 1
        } else {
            0
        }
    }

    /// The index of the stack that `worker` takes its next item from.
    pub open spec fn source(&self, worker: int) -> int {
        if self.stealing() && self@[worker + 1].len() > 0 {
            worker + 1
        } else {
            0
        }
    }

    /// What the representation invariant says of the stacks.
    pub proof fn lemma_wf(&self)
        requires
            self.wf(),
        ensures
            self.workers() >= 1,
            !self.stealing() ==> forall|k: int| 1 <= k < self@.len() ==> (#[trigger] self@[k]).len() == 0,
    {
    }

    /// Empty stacks for the given number of workers.
    pub fn new(workers: usize, stealing: bool, high_limit: usize, local_limit: usize) -> (sched:
        Scheduler)
        requires
            1 <= workers < usize::MAX,
        ensures
            sched.wf(),
            sched.workers() == workers,
            sched.stealing() == stealing,
            sched.high_limit() == high_limit,
            sched.local_limit() == local_limit,
            forall|k: int| 0 <= k < sched@.len() ==> (#[trigger] sched@[k]).len() == 0,
    {
        let mut stacks: Vec<Vec<WorkItem>> = Vec::new();
        let mut k: usize = 0;
        while k < workers + 1
            invariant
                workers < usize::MAX,
                k <= workers + 1,
                stacks.len() == k,
                forall|j: int| 0 <= j < k ==> (#[trigger] stacks[j]).len() == 0,
            decreases workers + 1 - k,
        {
            stacks.push(Vec::new());
            k += 1;
        }
        Scheduler { stacks, stealing, high_limit, local_limit }
    }

    /// Number of workers.
    pub fn worker_count(&self) -> (n: usize)
        requires
            self.wf(),
        ensures
            n == self.workers(),
    {
        self.stacks.len() - 1
    }

    /// Puts an item on the stack that the strategy chooses for it.
    pub fn push(&mut self, worker: usize, item: WorkItem)
        requires
            old(self).wf(),
            worker < old(self).workers(),
        ensures
            final(self).wf(),
            final(self).stealing() == old(self).stealing(),
            final(self).high_limit() == old(self).high_limit(),
            final(self).local_limit() == old(self).local_limit(),
            final(self)@ == old(self)@.update(
                old(self).destination(worker as int, item.placed().len() as int),
                old(self)@[old(self).destination(worker as int, item.placed().len() as int)].push(
                    item,
                ),
            ),
    {
        let ghost before = self@;
        let dest = if self.stealing && item.depth() >= self.high_limit && self.stacks[worker
            + 1].len() < self.local_limit {
            worker + 1
        } else {
            0
        };
        self.stacks[dest].push(item);
        assert(self@ =~= before.update(dest as int, before[dest as int].push(item)));
    }

    /// Takes the top item of the worker's own stack or, where that is empty
    /// or the strategy has none, of the shared stack.
    pub fn try_pop(&mut self, worker: usize) -> (popped: Option<WorkItem>)
        requires
            old(self).wf(),
            worker < old(self).workers(),
        ensures
            final(self).wf(),
            final(self).stealing() == old(self).stealing(),
            final(self).high_limit() == old(self).high_limit(),
            final(self).local_limit() == old(self).local_limit(),
            match popped {
                Some(item) => {
                    let from = old(self).source(worker as int);
                    &&& old(self)@[from].len() > 0
                    &&& item == old(self)@[from].last()
                    &&& final(self)@ == old(self)@.update(from, old(self)@[from].drop_last())
                },
                None => {
                    &&& old(self)@[old(self).source(worker as int)].len() == 0
                    &&& final(self)@ == old(self)@
                },
            },
    {
        let ghost before = self@;
        let from = if self.stealing && self.stacks[worker + 1].len() > 0 {
            worker + 1
        } else {
            0
        };
        let popped = self.stacks[from].pop();
        proof {
            if popped is Some {
                assert(self@ =~= before.update(from as int, before[from as int].drop_last()));
            } else {
                assert(self@ =~= before);
            }
        }
        popped
    }

    /// Whether every stack is empty, so that no worker can get any more work.
    pub fn is_globally_empty(&self) -> (empty: bool)
        ensures
            empty == (forall|k: int| 0 <= k < self@.len() ==> (#[trigger] self@[k]).len() == 0),
    {
        let mut k: usize = 0;
        while k < self.stacks.len()
            invariant
                k <= self.stacks.len(),
                forall|j: int| 0 <= j < k ==> (#[trigger] self@[j]).len() == 0,
            decreases self.stacks.len() - k,
        {
            if self.stacks[k].len() > 0 {
                assert(self@[k as int].len() > 0);
                return false;
            }
            k += 1;
        }
        true
    }
}

} // verus!
