//! What holds of the queries whatever the graphs and the configuration.

use vstd::prelude::*;
use crate::embedding::{
    embeddings, is_embedding, lemma_edge_induced_has_more, lemma_larger_pattern_has_none,
};
use crate::error::VF3Error;
use crate::graph::GraphView;
use crate::loader::parse;
use crate::options::{ParallelOptions, RunOptions};
use crate::query::{answers, parallel_ok, parallel_outcome, run_outcome};
use crate::result::{mappings_view, ResultData};

verus! {

/// Whether two results of queries are the same as far as the solutions go:
/// both fail, or both succeed with the same number of solutions.
pub open spec fn same_count(a: Result<ResultData, VF3Error>, b: Result<ResultData, VF3Error>) -> bool {
    match (a, b) {
        (Ok(x), Ok(y)) => x.solutions == y.solutions,
        (Err(_), Err(_)) => true,
        _ => false,
    }
}

/// The full heuristic and the lightweight one find the same: given the same
/// texts and options, what `run_vf3` returns and what `run_vf3l` returns
/// hold the same number of solutions and, where the solutions are stored and
/// the search is exhaustive, the same set of solutions.
pub proof fn law_policies_agree(
    pattern: Seq<u8>,
    target: Seq<u8>,
    opts: RunOptions,
    full: Result<ResultData, VF3Error>,
    light: Result<ResultData, VF3Error>,
)
    requires
        run_outcome(pattern, target, opts, full),
        run_outcome(pattern, target, opts, light),
    ensures
        same_count(full, light),
        full matches Ok(x) ==> (light matches Ok(y) && (opts.store_solutions && !opts.first_only
            ==> mappings_view(x.mappings@).to_set() == mappings_view(y.mappings@).to_set())),
{
    if let (Ok(x), Ok(y)) = (full, light) {
        if opts.store_solutions && !opts.first_only {
            let p = parse(pattern, opts.format, opts.undirected)->0;
            let t = parse(target, opts.format, opts.undirected)->0;
            law_stored_solutions_are_the_embeddings(p, t, opts, x.solutions, x.mappings@);
            law_stored_solutions_are_the_embeddings(p, t, opts, y.solutions, y.mappings@);
        }
    }
}

/// Where the solutions are stored and the search is exhaustive, the set of
/// the stored solutions is the set of the embeddings.
pub proof fn law_stored_solutions_are_the_embeddings(
    p: GraphView,
    t: GraphView,
    opts: RunOptions,
    solutions: u64,
    mappings: Seq<Vec<usize>>,
)
    requires
        answers(p, t, opts, solutions, mappings),
        opts.store_solutions,
        !opts.first_only,
    ensures
        mappings_view(mappings).to_set() == embeddings(p, t, opts.edge_induced),
{
    let ms = mappings_view(mappings);
    assert forall|m: Seq<int>| ms.to_set().contains(m) implies embeddings(
        p,
        t,
        opts.edge_induced,
    ).contains(m) by {
        let i = choose|i: int| 0 <= i < ms.len() && ms[i] == m;
        assert(is_embedding(p, t, ms[i], opts.edge_induced));
    }
    assert(ms.to_set() =~= embeddings(p, t, opts.edge_induced));
}

/// Storing the solutions never changes their number: two sequential queries
/// that differ in nothing but the storage flag return the same count.
pub proof fn law_storage_keeps_count(
    pattern: Seq<u8>,
    target: Seq<u8>,
    opts: RunOptions,
    without: Result<ResultData, VF3Error>,
    with: Result<ResultData, VF3Error>,
)
    requires
        run_outcome(pattern, target, RunOptions { store_solutions: false, ..opts }, without),
        run_outcome(pattern, target, RunOptions { store_solutions: true, ..opts }, with),
    ensures
        same_count(without, with),
{
}

/// Storing the solutions never changes their number with the parallel
/// engine either.
pub proof fn law_storage_keeps_parallel_count(
    pattern: Seq<u8>,
    target: Seq<u8>,
    opts: RunOptions,
    par: ParallelOptions,
    without: Result<ResultData, VF3Error>,
    with: Result<ResultData, VF3Error>,
)
    requires
        parallel_outcome(
            pattern,
            target,
            RunOptions { store_solutions: false, ..opts },
            par,
            without,
        ),
        parallel_outcome(pattern, target, RunOptions { store_solutions: true, ..opts }, par, with),
    ensures
        same_count(without, with),
{
}

/// For every number of workers from 1 on and both strategies, the parallel
/// engine returns the count of the sequential engine on the same texts and
/// options.
pub proof fn law_parallel_agrees(
    pattern: Seq<u8>,
    target: Seq<u8>,
    opts: RunOptions,
    par: ParallelOptions,
    sequential: Result<ResultData, VF3Error>,
    parallel: Result<ResultData, VF3Error>,
)
    requires
        par.num_threads >= 1,
        par.algo == 1 || par.algo == 2,
        run_outcome(pattern, target, opts, sequential),
        parallel_outcome(pattern, target, opts, par, parallel),
    ensures
        same_count(sequential, parallel),
{
    assert(parallel_ok(par));
}

/// Edge-induced matching finds at least as many solutions as node-induced
/// matching on the same texts.
pub proof fn law_edge_induced_finds_more(
    pattern: Seq<u8>,
    target: Seq<u8>,
    opts: RunOptions,
    node: Result<ResultData, VF3Error>,
    edge: Result<ResultData, VF3Error>,
)
    requires
        run_outcome(pattern, target, RunOptions { edge_induced: false, ..opts }, node),
        run_outcome(pattern, target, RunOptions { edge_induced: true, ..opts }, edge),
    ensures
        match (node, edge) {
            (Ok(x), Ok(y)) => x.solutions <= y.solutions,
            (Err(_), Err(_)) => true,
            _ => false,
        },
{
    if let (Ok(x), Ok(y)) = (node, edge) {
        let p = parse(pattern, opts.format, opts.undirected)->0;
        let t = parse(target, opts.format, opts.undirected)->0;
        lemma_edge_induced_has_more(p, t);
    }
}

/// The undirected mode is the directed mode on the symmetrized graphs: the
/// graph that a text stands for as undirected is the symmetrized one of the
/// graph that it stands for as directed, and a query in undirected mode
/// returns the count of the embeddings of the symmetrized pattern into the
/// symmetrized target.
pub proof fn law_undirected_is_symmetrized(
    pattern: Seq<u8>,
    target: Seq<u8>,
    opts: RunOptions,
    out: Result<ResultData, VF3Error>,
    solutions: u64,
    mappings: Seq<Vec<usize>>,
)
    requires
        opts.undirected,
        parse(pattern, opts.format, false) is Some,
        parse(target, opts.format, false) is Some,
        run_outcome(pattern, target, opts, out),
        answers(
            parse(pattern, opts.format, false)->0.symmetrized(),
            parse(target, opts.format, false)->0.symmetrized(),
            RunOptions { undirected: false, ..opts },
            solutions,
            mappings,
        ),
    ensures
        parse(pattern, opts.format, true) == Some(
            parse(pattern, opts.format, false)->0.symmetrized(),
        ),
        parse(target, opts.format, true) == Some(parse(target, opts.format, false)->0.symmetrized()),
        out matches Ok(data) && data.solutions == solutions,
{
}

/// A pattern with more vertices than the target has no solution, and the
/// query says so without an error.
pub proof fn law_larger_pattern_finds_none(
    p: GraphView,
    t: GraphView,
    opts: RunOptions,
    solutions: u64,
    mappings: Seq<Vec<usize>>,
)
    requires
        p.n() > t.n(),
        answers(p, t, opts, solutions, mappings),
    ensures
        solutions == 0,
        mappings.len() == 0,
{
    lemma_larger_pattern_has_none(p, t, opts.edge_induced);
}

/// A sequential query that stops at the first solution reports the time to
/// the first solution as its total time.
pub proof fn law_first_only_stops_the_clock(
    pattern: Seq<u8>,
    target: Seq<u8>,
    opts: RunOptions,
    out: Result<ResultData, VF3Error>,
)
    requires
        opts.first_only,
        run_outcome(pattern, target, opts, out),
    ensures
        out matches Ok(data) ==> data.time_first == data.time_all,
{
}

} // verus!
