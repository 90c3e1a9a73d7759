//! Configuration of a query.

use vstd::prelude::*;

verus! {

/// Text format of a graph.
#[derive(Debug, Clone, Copy, PartialEq, Eq, Structural)]
pub enum GraphFormat {
    /// Attributed text format: vertex count, one attribute per vertex, then
    /// for every vertex its number of outgoing edges and the edges themselves.
    VFLegacy,
    /// Plain edge list: one edge per line as "u v", with one-based ids.
    EdgeList,
}

impl GraphFormat {
    /// The short name of the format.
    pub fn as_str(self) -> (name: &'static str)
        ensures
            self == GraphFormat::VFLegacy ==> name@ == "vf"@,
            self == GraphFormat::EdgeList ==> name@ == "edge"@,
    {
        match self {
            GraphFormat::VFLegacy => "vf",
            GraphFormat::EdgeList => "edge",
        }
    }
}

/// Options shared by every engine.
#[derive(Debug, Clone, Copy)]
pub struct RunOptions {
    /// Text format of both graphs.
    pub format: GraphFormat,
    /// Treat every edge as a pair of opposite arcs.
    pub undirected: bool,
    /// Keep every solution mapping, not only their number.
    pub store_solutions: bool,
    /// Stop at the first solution. The parallel engine then stops every
    /// worker once one of them has found a solution.
    pub first_only: bool,
    /// Ask the front end for a report on how the query went. The library
    /// itself writes nothing.
    pub verbose: bool,
    /// The least time, in nanoseconds, that a query goes on for: the whole
    /// search is run again until that much time has passed, and the total
    /// time is the average over the runs.
    pub repetition_time_limit: u64,
    /// Edge-induced matching (monomorphism) instead of node-induced.
    pub edge_induced: bool,
}

impl Default for RunOptions {
    fn default() -> (opts: Self)
        ensures
            opts.format == GraphFormat::VFLegacy,
            !opts.undirected,
            !opts.store_solutions,
            !opts.first_only,
            !opts.verbose,
            opts.repetition_time_limit == 1_000_000_000,
            !opts.edge_induced,
    {
        Self {
            format: GraphFormat::VFLegacy,
            undirected: false,
            store_solutions: false,
            first_only: false,
            verbose: false,
            repetition_time_limit: 1_000_000_000,
            edge_induced: false,
        }
    }
}

/// Options of the parallel engine.
#[derive(Debug, Clone, Copy)]
pub struct ParallelOptions {
    /// Strategy: 1 = global state stack, 2 = work stealing with local stacks.
    pub algo: i8,
    /// First CPU of the range to which a front end pins its worker
    /// threads; -1 disables pinning. Pinning is advisory: it changes nothing
    /// of what a query finds, and the library's own workers, which take
    /// turns, are not pinned.
    pub cpu: i16,
    /// Number of workers, at least 1.
    pub num_threads: i16,
    /// Ask a front end that runs the workers on threads for the lock-free
    /// shared stack. The library's own workers take turns and need no lock.
    pub lock_free: bool,
    /// Depth below which a work item always goes to the shared pool
    /// (work stealing only).
    pub ssr_high_limit: i16,
    /// Largest size of a worker's local stack (work stealing only).
    pub ssr_local_stack_limit: i16,
}

impl Default for ParallelOptions {
    fn default() -> (par: Self)
        ensures
            par.algo == 1,
            par.cpu == -1,
            par.num_threads == 1,
            !par.lock_free,
            par.ssr_high_limit == 3,
            par.ssr_local_stack_limit == 10,
    {
        Self {
            algo: 1,
            cpu: -1,
            num_threads: 1,
            lock_free: false,
            ssr_high_limit: 3,
            ssr_local_stack_limit: 10,
        }
    }
}

} // verus!
