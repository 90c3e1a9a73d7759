//! The result sink: the one place where a search reports its solutions.

use vstd::prelude::*;
use crate::error::VF3Error;
use crate::graph::ints;

verus! {

/// The number that a counter of 64 bits shows for `n` solutions.
pub open spec fn shown(n: nat) -> u64 {
    if n <= u64::MAX {
        n as u64
    } else {
        u64::MAX
    }
}

/// The mappings of `kept` as sequences of integers.
pub open spec fn mappings_view(kept: Seq<Vec<usize>>) -> Seq<Seq<int>> {
    Seq::new(kept.len(), |i: int| ints(kept[i]@))
}

/// Accumulates what a search finds: the number of solutions and, where the
/// caller asked for them, the solutions themselves in the order of arrival.
pub struct ResultSink {
    count: u64,
    keep: bool,
    kept: Vec<Vec<usize>>,
    first_at: Option<u64>,
    seen: Ghost<nat>,
}

impl ResultSink {
    /// Number of solutions recorded so far.
    pub closed spec fn found(&self) -> nat {
        self.seen@
    }

    /// Whether the sink keeps the solutions themselves.
    pub closed spec fn keeps(&self) -> bool {
        self.keep
    }

    /// The solutions kept so far, each as pattern vertex -> target vertex.
    pub closed spec fn stored(&self) -> Seq<Seq<int>> {
        mappings_view(self.kept@)
    }

    /// The time at which the first solution was recorded, if there is one.
    pub closed spec fn first_at(&self) -> Option<u64> {
        self.first_at
    }

    /// The counter shows the number of recorded solutions, the kept
    /// solutions are all of them or none, and the time of the first solution
    /// is there once a solution is.
    pub closed spec fn wf(&self) -> bool {
        &&& self.count == shown(self.seen@)
        &&& self.first_at is Some <==> self.seen@ > 0
        &&& self.keep ==> self.kept.len() == self.seen@
        &&& !self.keep ==> self.kept.len() == 0
    }

    /// An empty sink.
    pub fn new(keep: bool) -> (sink: ResultSink)
        ensures
            sink.wf(),
            sink.found() == 0,
            sink.keeps() == keep,
            sink.stored() == Seq::<Seq<int>>::empty(),
            sink.first_at() is None,
    {
        let sink = ResultSink { count: 0, keep, kept: Vec::new(), first_at: None, seen: Ghost(0) };
        assert(sink.stored() =~= Seq::<Seq<int>>::empty());
        sink
    }

    /// Records one solution that was found at the time `now`. The counter
    /// stops at its largest value; of the times, the first one stays.
    pub fn record(&mut self, mapping: Vec<usize>, now: u64)
        requires
            old(self).wf(),
        ensures
            final(self).wf(),
            final(self).first_at() == if old(self).found() == 0 {
                Some(now)
            } else {
                old(self).first_at()
            },
            final(self).found() == old(self).found() + 1,
            final(self).keeps() == old(self).keeps(),
            final(self).stored() == if old(self).keeps() {
                old(self).stored().push(ints(mapping@))
            } else {
                old(self).stored()
            },
    {
        let ghost before = self.stored();
        if self.first_at.is_none() {
            self.first_at = Some(now);
        }
        if self.count < u64::MAX {
            self.count += 1;
        }
        proof {
            self.seen@ = self.seen@ + 1;
        }
        if self.keep {
            self.kept.push(mapping);
            assert(self.stored() =~= before.push(ints(mapping@)));
        } else {
            assert(self.stored() =~= before);
        }
    }

    /// The number of solutions, as far as the counter goes.
    pub fn solutions(&self) -> (n: u64)
        requires
            self.wf(),
        ensures
            n == shown(self.found()),
    {
        self.count
    }

    /// Whether any solution was recorded.
    pub fn any(&self) -> (some: bool)
        requires
            self.wf(),
        ensures
            some == (self.found() > 0),
    {
        self.count > 0
    }

    /// The time at which the first solution was recorded, if there is one.
    pub fn first_solution_time(&self) -> (at: Option<u64>)
        requires
            self.wf(),
        ensures
            at == self.first_at(),
            at is Some <==> self.found() > 0,
    {
        self.first_at
    }

    /// Hands out the kept solutions.
    pub fn into_mappings(self) -> (kept: Vec<Vec<usize>>)
        ensures
            mappings_view(kept@) == self.stored(),
            kept@.len() == self.stored().len(),
    {
        self.kept
    }
}

/// What an engine reports: a status code, and the result where the status is 0.
#[derive(Debug)]
pub struct VF3Result {
    /// 0 on success, another value on failure.
    pub status: i32,
    /// Number of solutions found.
    pub solutions: u64,
    /// Nanoseconds from the start of the first run to its first solution, or
    /// to its end where it found none; the same as `time_all` for a query
    /// that stops at the first solution.
    pub time_first: u64,
    /// Nanoseconds that a whole run took, on average over the runs.
    pub time_all: u64,
    /// The solutions themselves, where the caller asked for them.
    pub mappings: Vec<Vec<usize>>,
}

/// The result of a query that succeeded.
#[derive(Debug)]
pub struct ResultData {
    /// Number of solutions found.
    pub solutions: u64,
    /// Nanoseconds from the start of the first run to its first solution, or
    /// to its end where it found none; the same as `time_all` for a query
    /// that stops at the first solution.
    pub time_first: u64,
    /// Nanoseconds that a whole run took, on average over the runs.
    pub time_all: u64,
    /// The solutions themselves, each as pattern vertex -> target vertex,
    /// where the caller asked for them.
    pub mappings: Vec<Vec<usize>>,
}

/// Turns an engine's report into the result of the query: the data where
/// the status is 0, else the failure with the status code and nothing else.
pub fn convert_result(res: VF3Result) -> (out: Result<ResultData, VF3Error>)
    ensures
        res.status == 0 ==> out == Ok::<ResultData, VF3Error>(
            ResultData {
                solutions: res.solutions,
                time_first: res.time_first,
                time_all: res.time_all,
                mappings: res.mappings,
            },
        ),
        res.status != 0 ==> out == Err::<ResultData, VF3Error>(
            VF3Error::ExecutionFailed { code: res.status },
        ),
{
    if res.status == 0 {
        Ok(
            ResultData {
                solutions: res.solutions,
                time_first: res.time_first,
                time_all: res.time_all,
                mappings: res.mappings,
            },
        )
    } else {
        Err(VF3Error::ExecutionFailed { code: res.status })
    }
}

} // verus!
