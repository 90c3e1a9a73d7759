//! Queries: from two graphs, or their texts, and a configuration to the
//! result.

use vstd::prelude::*;
use vstd::string::StringSliceAdditionalSpecFns;
use crate::clock::Stopwatch;
use crate::embedding::{is_embedding, solution_count};
use crate::error::{
    VF3Error, STATUS_INVALID_CONFIGURATION, STATUS_MALFORMED_PATTERN, STATUS_MALFORMED_TARGET,
    STATUS_OK,
};
use crate::graph::{Graph, GraphView};
use crate::loader::{load, parse};
use crate::options::{GraphFormat, ParallelOptions, RunOptions};
use crate::parallel::search_with;
use crate::plan::OrderingPlan;
use crate::result::{convert_result, mappings_view, shown, ResultData, ResultSink, VF3Result};
use crate::scheduler::Scheduler;
use crate::search::{reported, search, search_result};
use crate::work::Engine;

verus! {

/// Whether `solutions` and `mappings` are the answer to the query for the
/// embeddings of `p` into `t`: the number of embeddings, or 1 at most where
/// the search stops at the first, as far as a counter of 64 bits goes; and,
/// where the solutions are stored, the embeddings themselves, each once.
pub open spec fn answers(
    p: GraphView,
    t: GraphView,
    opts: RunOptions,
    solutions: u64,
    mappings: Seq<Vec<usize>>,
) -> bool {
    let total = reported(solution_count(p, t, opts.edge_induced), opts.first_only);
    let ms = mappings_view(mappings);
    &&& solutions == shown(total)
    &&& ms.len() == if opts.store_solutions {
        total
    } else {
        0
    }
    &&& ms.no_duplicates()
    &&& forall|i: int| 0 <= i < ms.len() ==> is_embedding(p, t, #[trigger] ms[i], opts.edge_induced)
    &&& opts.store_solutions && !opts.first_only ==> forall|m: Seq<int>|
        is_embedding(p, t, m, opts.edge_induced) ==> #[trigger] ms.contains(m)
}

/// The parallel engine takes the configuration: at least one worker and one
/// of the two strategies.
pub open spec fn parallel_ok(par: ParallelOptions) -> bool {
    &&& par.num_threads >= 1
    &&& par.algo == 1 || par.algo == 2
}

/// What a sequential query on two graph texts has to return: the answer
/// for the graphs that the texts stand for, or the failure with the status
/// of the malformed text, the pattern's first.
pub open spec fn run_outcome(
    pattern: Seq<u8>,
    target: Seq<u8>,
    opts: RunOptions,
    out: Result<ResultData, VF3Error>,
) -> bool {
    match (
        parse(pattern, opts.format, opts.undirected),
        parse(target, opts.format, opts.undirected),
    ) {
        (Some(p), Some(t)) => out matches Ok(data) && answers(
            p,
            t,
            opts,
            data.solutions,
            data.mappings@,
        ) && (opts.first_only ==> data.time_first == data.time_all),
        (None, _) => out matches Err(e) && e == (VF3Error::ExecutionFailed {
            code: STATUS_MALFORMED_PATTERN,
        }),
        (Some(_), None) => out matches Err(e) && e == (VF3Error::ExecutionFailed {
            code: STATUS_MALFORMED_TARGET,
        }),
    }
}

/// What a parallel query on two graph texts has to return: the failure with
/// the status of an invalid configuration where the configuration is one,
/// else what the sequential query returns.
pub open spec fn parallel_outcome(
    pattern: Seq<u8>,
    target: Seq<u8>,
    opts: RunOptions,
    par: ParallelOptions,
    out: Result<ResultData, VF3Error>,
) -> bool {
    if parallel_ok(par) {
        run_outcome(pattern, target, opts, out)
    } else {
        out matches Err(e) && e == (VF3Error::ExecutionFailed { code: STATUS_INVALID_CONFIGURATION })
    }
}

/// Whether the query is run once more: the time spent so far is under the
/// least time asked for, and the number of runs can still be counted.
pub fn goes_on(elapsed: u64, limit: u64, runs: u64) -> (again: bool)
    ensures
        again == (elapsed < limit && runs < u64::MAX),
{
    elapsed < limit && runs < u64::MAX
}

/// The time that the first run of a query took to its first solution: the
/// time at which the solution was recorded or, where the run found none,
/// the time at which it ended.
pub fn time_to_first(recorded: Option<u64>, ended: u64) -> (time: u64)
    ensures
        time == match recorded {
            Some(at) => at,
            None => ended,
        },
{
    match recorded {
        Some(at) => at,
        None => ended,
    }
}

/// The two times that a query reports, after `runs` runs that took
/// `elapsed` nanoseconds together: the time to the first solution and the
/// average time of a run. A query that stops at the first solution stops
/// the clock with it, so both times are the average.
pub fn reported_times(first_only: bool, first: u64, elapsed: u64, runs: u64) -> (times: (u64, u64))
    requires
        runs >= 1,
    ensures
        times.1 == elapsed / runs,
        times.0 == if first_only {
            elapsed / runs
        } else {
            first
        },
{
    let average = elapsed / runs;
    if first_only {
        (average, average)
    } else {
        (first, average)
    }
}

/// Turns what a search found into an engine's report.
fn report(
    engine: &Engine,
    opts: RunOptions,
    sink: ResultSink,
    first: u64,
    elapsed: u64,
    runs: u64,
) -> (res: VF3Result)
    requires
        engine.wf(),
        engine.edge_induced == opts.edge_induced,
        search_result(engine, opts.first_only, opts.store_solutions, &sink),
        runs >= 1,
    ensures
        res.status == STATUS_OK,
        answers(engine.pattern@, engine.target@, opts, res.solutions, res.mappings@),
        opts.first_only ==> res.time_first == res.time_all,
{
    let solutions = sink.solutions();
    let mappings = sink.into_mappings();
    let (time_first, time_all) = reported_times(opts.first_only, first, elapsed, runs);
    VF3Result { status: STATUS_OK, solutions, time_first, time_all, mappings }
}

/// Searches the embeddings of `pattern` into `target` with the sequential
/// engine, under the full heuristic (`look_ahead`) or the lightweight one.
/// Whether the graphs are directed was settled when they were built. The
/// whole search is run again until the least time that the options ask for
/// has passed.
pub fn match_graphs(pattern: &Graph, target: &Graph, opts: RunOptions, look_ahead: bool) -> (res:
    VF3Result)
    requires
        pattern.wf(),
        target.wf(),
    ensures
        res.status == STATUS_OK,
        answers(pattern@, target@, opts, res.solutions, res.mappings@),
        opts.first_only ==> res.time_first == res.time_all,
{
    let plan = OrderingPlan::compute(pattern);
    let engine = Engine { pattern, target, plan: &plan, edge_induced: opts.edge_induced, look_ahead };
    let watch = Stopwatch::start();
    let mut sink = search(&engine, opts.first_only, opts.store_solutions, &watch);
    let mut elapsed = watch.elapsed();
    let first = time_to_first(sink.first_solution_time(), elapsed);
    let mut runs: u64 = 1;
    while goes_on(elapsed, opts.repetition_time_limit, runs)
        invariant
            engine.wf(),
            engine.edge_induced == opts.edge_induced,
            engine.pattern == pattern,
            engine.target == target,
            runs >= 1,
            search_result(&engine, opts.first_only, opts.store_solutions, &sink),
        decreases u64::MAX - runs,
    {
        sink = search(&engine, opts.first_only, opts.store_solutions, &watch);
        runs += 1;
        elapsed = watch.elapsed();
    }
    report(&engine, opts, sink, first, elapsed, runs)
}

/// A limit of the parallel options as a size; a negative one counts as 0.
fn limit(value: i16) -> (size: usize)
    ensures
        size == if value < 0 {
            0
        } else {
            value as int
        },
{
    if value < 0 {
        0
    } else {
        value as usize
    }
}

/// Searches the embeddings of `pattern` into `target` with the parallel
/// engine. An invalid configuration is reported by its status, with no
/// solution. Asked to stop at the first solution, the engine stops every
/// worker once one of them has found a solution.
pub fn match_graphs_parallel(
    pattern: &Graph,
    target: &Graph,
    opts: RunOptions,
    par: ParallelOptions,
) -> (res: VF3Result)
    requires
        pattern.wf(),
        target.wf(),
    ensures
        parallel_ok(par) ==> res.status == STATUS_OK && answers(
            pattern@,
            target@,
            opts,
            res.solutions,
            res.mappings@,
        ) && (opts.first_only ==> res.time_first == res.time_all),
        !parallel_ok(par) ==> res.status == STATUS_INVALID_CONFIGURATION && res.solutions == 0
            && res.mappings@.len() == 0,
{
    if par.num_threads < 1 || (par.algo != 1 && par.algo != 2) {
        return failure(STATUS_INVALID_CONFIGURATION);
    }
    let plan = OrderingPlan::compute(pattern);
    let engine = Engine {
        pattern,
        target,
        plan: &plan,
        edge_induced: opts.edge_induced,
        look_ahead: true,
    };
    let workers = limit(par.num_threads);
    let stealing = par.algo == 2;
    let high_limit = limit(par.ssr_high_limit);
    let local_limit = limit(par.ssr_local_stack_limit);
    let watch = Stopwatch::start();
    let mut sink = search_with(
        &engine,
        Scheduler::new(workers, stealing, high_limit, local_limit),
        opts.first_only,
        opts.store_solutions,
        &watch,
    );
    let mut elapsed = watch.elapsed();
    let first = time_to_first(sink.first_solution_time(), elapsed);
    let mut runs: u64 = 1;
    while goes_on(elapsed, opts.repetition_time_limit, runs)
        invariant
            engine.wf(),
            engine.edge_induced == opts.edge_induced,
            engine.pattern == pattern,
            engine.target == target,
            1 <= workers < usize::MAX,
            runs >= 1,
            search_result(&engine, opts.first_only, opts.store_solutions, &sink),
        decreases u64::MAX - runs,
    {
        sink = search_with(
            &engine,
            Scheduler::new(workers, stealing, high_limit, local_limit),
            opts.first_only,
            opts.store_solutions,
            &watch,
        );
        runs += 1;
        elapsed = watch.elapsed();
    }
    report(&engine, opts, sink, first, elapsed, runs)
}

/// The report of a run that failed with the given status: no solution comes
/// with it.
fn failure(status: i32) -> (res: VF3Result)
    ensures
        res.status == status,
        res.solutions == 0,
        res.mappings@.len() == 0,
{
    VF3Result { status, solutions: 0, time_first: 0, time_all: 0, mappings: Vec::new() }
}

/// Loads both graphs of a query, or reports the first text that is malformed.
fn load_pair(pattern: &str, target: &str, opts: RunOptions) -> (out: Result<(Graph, Graph), VF3Result>)
    ensures
        match (
            parse(pattern.spec_bytes(), opts.format, opts.undirected),
            parse(target.spec_bytes(), opts.format, opts.undirected),
        ) {
            (Some(p), Some(t)) => out matches Ok(pair) && pair.0.wf() && pair.1.wf() && pair.0@ == p
                && pair.1@ == t,
            (None, _) => out matches Err(failed) && failed.status == STATUS_MALFORMED_PATTERN,
            (Some(_), None) => out matches Err(failed) && failed.status == STATUS_MALFORMED_TARGET,
        },
{
    let p = match load(pattern, opts.format, opts.undirected) {
        Ok(g) => g,
        Err(_) => {
            return Err(failure(STATUS_MALFORMED_PATTERN));
        },
    };
    let t = match load(target, opts.format, opts.undirected) {
        Ok(g) => g,
        Err(_) => {
            return Err(failure(STATUS_MALFORMED_TARGET));
        },
    };
    Ok((p, t))
}

/// Runs the engine with all heuristics on the texts of two graphs.
///
/// Fails with [`VF3Error::ExecutionFailed`] where a text is malformed: the
/// code says which.
pub fn run_vf3(pattern: &str, target: &str, opts: RunOptions) -> (out: Result<ResultData, VF3Error>)
    ensures
        run_outcome(pattern.spec_bytes(), target.spec_bytes(), opts, out),
{
    match load_pair(pattern, target, opts) {
        Err(failed) => convert_result(failed),
        Ok((p, t)) => convert_result(match_graphs(&p, &t, opts, true)),
    }
}

/// Runs the lightweight engine, without look-ahead, on the texts of two graphs.
///
/// Fails with [`VF3Error::ExecutionFailed`] where a text is malformed: the
/// code says which.
pub fn run_vf3l(pattern: &str, target: &str, opts: RunOptions) -> (out: Result<ResultData, VF3Error>)
    ensures
        run_outcome(pattern.spec_bytes(), target.spec_bytes(), opts, out),
{
    match load_pair(pattern, target, opts) {
        Err(failed) => convert_result(failed),
        Ok((p, t)) => convert_result(match_graphs(&p, &t, opts, false)),
    }
}

/// Runs the parallel engine on the texts of two graphs.
///
/// Fails with [`VF3Error::ExecutionFailed`] where the configuration is
/// invalid, no worker or an unknown strategy, or a text is malformed: the
/// code says which.
pub fn run_vf3p(pattern: &str, target: &str, opts: RunOptions, par: ParallelOptions) -> (out: Result<
    ResultData,
    VF3Error,
>)
    ensures
        parallel_outcome(pattern.spec_bytes(), target.spec_bytes(), opts, par, out),
{
    if par.num_threads < 1 || (par.algo != 1 && par.algo != 2) {
        return convert_result(failure(STATUS_INVALID_CONFIGURATION));
    }
    match load_pair(pattern, target, opts) {
        Err(failed) => convert_result(failed),
        Ok((p, t)) => convert_result(match_graphs_parallel(&p, &t, opts, par)),
    }
}

/// A query under construction: the texts of both graphs and the options,
/// set one by one, then run with the engine of choice.
pub struct VF3Query<'a> {
    pattern: &'a str,
    target: &'a str,
    options: RunOptions,
    parallel: ParallelOptions,
}

impl<'a> VF3Query<'a> {
    /// The text of the pattern.
    pub closed spec fn pattern(&self) -> Seq<u8> {
        self.pattern.spec_bytes()
    }

    /// The text of the target.
    pub closed spec fn target(&self) -> Seq<u8> {
        self.target.spec_bytes()
    }

    /// The options set so far.
    pub closed spec fn options(&self) -> RunOptions {
        self.options
    }

    /// The options of the parallel engine set so far.
    pub closed spec fn parallel(&self) -> ParallelOptions {
        self.parallel
    }

    /// The other query has the same texts as this one.
    pub open spec fn same_texts(&self, other: &Self) -> bool {
        self.pattern() == other.pattern() && self.target() == other.target()
    }

    /// A query on the texts of a pattern and a target, with the default options.
    pub fn new(pattern: &'a str, target: &'a str) -> (q: Self)
        ensures
            q.pattern() == pattern.spec_bytes(),
            q.target() == target.spec_bytes(),
            q.options() == (RunOptions {
                format: GraphFormat::VFLegacy,
                undirected: false,
                store_solutions: false,
                first_only: false,
                verbose: false,
                repetition_time_limit: 1_000_000_000,
                edge_induced: false,
            }),
            q.parallel() == (ParallelOptions {
                algo: 1,
                cpu: -1i16,
                num_threads: 1,
                lock_free: false,
                ssr_high_limit: 3,
                ssr_local_stack_limit: 10,
            }),
    {
        Self {
            pattern,
            target,
            options: RunOptions::default(),
            parallel: ParallelOptions::default(),
        }
    }

    /// Sets the format of both texts.
    pub fn format(self, format: GraphFormat) -> (q: Self)
        ensures
            q.same_texts(&self),
            q.options() == (RunOptions { format, ..self.options() }),
            q.parallel() == self.parallel(),
    {
        let mut q = self;
        q.options.format = format;
        q
    }

    /// Treats both graphs as undirected.
    pub fn undirected(self) -> (q: Self)
        ensures
            q.same_texts(&self),
            q.options() == (RunOptions { undirected: true, ..self.options() }),
            q.parallel() == self.parallel(),
    {
        let mut q = self;
        q.options.undirected = true;
        q
    }

    /// Treats both graphs as directed, which is the default.
    pub fn directed(self) -> (q: Self)
        ensures
            q.same_texts(&self),
            q.options() == (RunOptions { undirected: false, ..self.options() }),
            q.parallel() == self.parallel(),
    {
        let mut q = self;
        q.options.undirected = false;
        q
    }

    /// Asks for edge-induced matching.
    pub fn edge_induced(self) -> (q: Self)
        ensures
            q.same_texts(&self),
            q.options() == (RunOptions { edge_induced: true, ..self.options() }),
            q.parallel() == self.parallel(),
    {
        let mut q = self;
        q.options.edge_induced = true;
        q
    }

    /// Asks for node-induced matching, which is the default.
    pub fn node_induced(self) -> (q: Self)
        ensures
            q.same_texts(&self),
            q.options() == (RunOptions { edge_induced: false, ..self.options() }),
            q.parallel() == self.parallel(),
    {
        let mut q = self;
        q.options.edge_induced = false;
        q
    }

    /// Asks for the solutions themselves. They may take much memory.
    pub fn store_solutions(self) -> (q: Self)
        ensures
            q.same_texts(&self),
            q.options() == (RunOptions { store_solutions: true, ..self.options() }),
            q.parallel() == self.parallel(),
    {
        let mut q = self;
        q.options.store_solutions = true;
        q
    }

    /// Asks to stop at the first solution.
    pub fn first_only(self) -> (q: Self)
        ensures
            q.same_texts(&self),
            q.options() == (RunOptions { first_only: true, ..self.options() }),
            q.parallel() == self.parallel(),
    {
        let mut q = self;
        q.options.first_only = true;
        q
    }

    /// Asks for a progress report.
    pub fn verbose(self) -> (q: Self)
        ensures
            q.same_texts(&self),
            q.options() == (RunOptions { verbose: true, ..self.options() }),
            q.parallel() == self.parallel(),
    {
        let mut q = self;
        q.options.verbose = true;
        q
    }

    /// Sets the least time, in nanoseconds, that the query goes on for.
    pub fn repetition_time_limit(self, nanoseconds: u64) -> (q: Self)
        ensures
            q.same_texts(&self),
            q.options() == (RunOptions { repetition_time_limit: nanoseconds, ..self.options() }),
            q.parallel() == self.parallel(),
    {
        let mut q = self;
        q.options.repetition_time_limit = nanoseconds;
        q
    }

    /// Sets the number of workers of the parallel engine.
    pub fn with_threads(self, num_threads: i16) -> (q: Self)
        ensures
            q.same_texts(&self),
            q.options() == self.options(),
            q.parallel() == (ParallelOptions { num_threads, ..self.parallel() }),
    {
        let mut q = self;
        q.parallel.num_threads = num_threads;
        q
    }

    /// Sets the strategy of the parallel engine: 1 for the global state
    /// stack, 2 for work stealing with local stacks.
    pub fn parallel_algorithm(self, algo: i8) -> (q: Self)
        ensures
            q.same_texts(&self),
            q.options() == self.options(),
            q.parallel() == (ParallelOptions { algo, ..self.parallel() }),
    {
        let mut q = self;
        q.parallel.algo = algo;
        q
    }

    /// Asks for the lock-free shared stack.
    pub fn lock_free(self) -> (q: Self)
        ensures
            q.same_texts(&self),
            q.options() == self.options(),
            q.parallel() == (ParallelOptions { lock_free: true, ..self.parallel() }),
    {
        let mut q = self;
        q.parallel.lock_free = true;
        q
    }

    /// Runs the query with the engine with all heuristics.
    pub fn run(self) -> (out: Result<ResultData, VF3Error>)
        ensures
            run_outcome(self.pattern(), self.target(), self.options(), out),
    {
        run_vf3(self.pattern, self.target, self.options)
    }

    /// Runs the query with the lightweight engine.
    pub fn run_light(self) -> (out: Result<ResultData, VF3Error>)
        ensures
            run_outcome(self.pattern(), self.target(), self.options(), out),
    {
        run_vf3l(self.pattern, self.target, self.options)
    }

    /// Runs the query with the parallel engine.
    pub fn run_parallel(self) -> (out: Result<ResultData, VF3Error>)
        ensures
            parallel_outcome(self.pattern(), self.target(), self.options(), self.parallel(), out),
    {
        run_vf3p(self.pattern, self.target, self.options, self.parallel)
    }
}

} // verus!
