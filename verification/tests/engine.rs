use vf3lib_rs::clock::{whole_nanos, Stopwatch};
use vf3lib_rs::graph::Graph;
use vf3lib_rs::loader::{edge_list, flat, legacy, load, scan};
use vf3lib_rs::options::{GraphFormat, ParallelOptions, RunOptions};
use vf3lib_rs::plan::{Anchor, OrderingPlan};
use vf3lib_rs::query::{
    goes_on, match_graphs, match_graphs_parallel, reported_times, run_vf3, time_to_first,
};
use vf3lib_rs::result::{convert_result, ResultSink, VF3Result};
use vf3lib_rs::scheduler::Scheduler;
use vf3lib_rs::search::search;
use vf3lib_rs::work::{Engine, Expansion, Marks, WorkItem};
use vf3lib_rs::VF3Error;

fn graph(labels: &[u32], edges: &[(usize, usize)], undirected: bool) -> Graph {
    let mut g = Graph::new(labels.to_vec());
    for &(u, v) in edges {
        assert!(g.add_edge(u, v));
    }
    if undirected {
        g.symmetrized()
    } else {
        g
    }
}

/// Counts the embeddings that begin with `m` by trying every assignment.
fn extensions(p: &Graph, t: &Graph, edge_induced: bool, m: &mut Vec<usize>) -> u64 {
    let u = m.len();
    if u == p.n() {
        return 1;
    }
    let mut count = 0;
    for v in 0..t.n() {
        if m.contains(&v) || p.label(u) != t.label(v) {
            continue;
        }
        m.push(v);
        let mut ok = true;
        for w in 0..=u {
            for (a, b) in [(u, w), (w, u)] {
                let in_p = p.has_edge(a, b);
                let in_t = t.has_edge(m[a], m[b]);
                if (in_p && !in_t) || (!edge_induced && in_t && !in_p) {
                    ok = false;
                }
            }
        }
        if ok {
            count += extensions(p, t, edge_induced, m);
        }
        m.pop();
    }
    count
}

/// Counts the embeddings by trying every assignment.
fn brute_force(p: &Graph, t: &Graph, edge_induced: bool) -> u64 {
    extensions(p, t, edge_induced, &mut Vec::new())
}

/// A small generator of pseudo-random numbers, the same on every run.
struct Lcg(u64);

impl Lcg {
    fn next(&mut self, bound: usize) -> usize {
        self.0 = self.0.wrapping_mul(6364136223846793005).wrapping_add(1442695040888963407);
        ((self.0 >> 33) as usize) % bound
    }
}

fn random_graph(rng: &mut Lcg, n: usize, arcs: usize, labels: u32, undirected: bool) -> Graph {
    let ls: Vec<u32> = (0..n).map(|_| rng.next(labels as usize) as u32).collect();
    let mut es = Vec::new();
    for _ in 0..arcs {
        es.push((rng.next(n), rng.next(n)));
    }
    graph(&ls, &es, undirected)
}

fn options(edge_induced: bool, store_solutions: bool, first_only: bool) -> RunOptions {
    RunOptions {
        edge_induced,
        store_solutions,
        first_only,
        repetition_time_limit: 0,
        ..Default::default()
    }
}

#[test]
fn triangle_in_triangle_with_tail() {
    let pattern = graph(&[0; 3], &[(0, 1), (1, 2), (0, 2)], true);
    let target = graph(&[0; 4], &[(0, 1), (1, 2), (0, 2), (2, 3)], true);
    let plan = OrderingPlan::compute(&pattern);
    let engine =
        Engine { pattern: &pattern, target: &target, plan: &plan, edge_induced: false, look_ahead: true };
    let watch = Stopwatch::start();
    let sink = search(&engine, false, true, &watch);
    assert!(sink.first_solution_time().is_some());
    assert_eq!(sink.solutions(), 6);
    assert!(sink.any());
    assert_eq!(sink.into_mappings().len(), 6);
}

#[test]
fn every_engine_counts_what_brute_force_counts() {
    let mut rng = Lcg(7);
    for round in 0..60 {
        let np = 1 + rng.next(4);
        let nt = 1 + rng.next(6);
        let labels = 1 + (round % 2) as u32;
        let undirected = round % 3 == 0;
        let pattern_arcs = rng.next(5);
        let target_arcs = rng.next(12);
        let p = random_graph(&mut rng, np, pattern_arcs, labels, undirected);
        let t = random_graph(&mut rng, nt, target_arcs, labels, undirected);
        for edge_induced in [false, true] {
            let expected = brute_force(&p, &t, edge_induced);
            let opts = options(edge_induced, true, false);
            let full = match_graphs(&p, &t, opts, true);
            let light = match_graphs(&p, &t, opts, false);
            assert_eq!(full.status, 0);
            assert_eq!(full.solutions, expected, "full, round {round}");
            assert_eq!(light.solutions, expected, "light, round {round}");
            assert_eq!(full.mappings.len() as u64, expected);
            for algo in [1, 2] {
                for num_threads in [1, 2, 5] {
                    let par = ParallelOptions { algo, num_threads, ..Default::default() };
                    let res = match_graphs_parallel(&p, &t, opts, par);
                    assert_eq!(res.status, 0);
                    assert_eq!(res.solutions, expected, "algo {algo}, round {round}");
                }
            }
            let first = match_graphs(&p, &t, options(edge_induced, true, true), true);
            assert_eq!(first.solutions, expected.min(1));
            assert_eq!(first.mappings.len() as u64, expected.min(1));
        }
    }
}

#[test]
fn stored_mappings_are_the_embeddings() {
    let pattern = graph(&[0, 0], &[(0, 1)], false);
    let target = graph(&[0, 0, 0], &[(0, 1), (1, 2)], false);
    let res = match_graphs(&pattern, &target, options(false, true, false), true);
    let mut found = res.mappings.clone();
    found.sort();
    assert_eq!(found, vec![vec![0, 1], vec![1, 2]]);
    assert_eq!(res.solutions, 2);
}

#[test]
fn edge_induced_allows_extra_target_arcs() {
    let pattern = graph(&[0; 3], &[(0, 1), (1, 2)], true);
    let target = graph(&[0; 3], &[(0, 1), (1, 2), (0, 2)], true);
    let node = match_graphs(&pattern, &target, options(false, false, false), true);
    let edge = match_graphs(&pattern, &target, options(true, false, false), true);
    assert_eq!(node.solutions, 0);
    assert_eq!(edge.solutions, 6);
}

#[test]
fn labels_restrict_the_candidates() {
    let pattern = graph(&[1, 2], &[(0, 1)], false);
    let target = graph(&[1, 2, 2, 1], &[(0, 1), (0, 2), (3, 2), (1, 0)], false);
    let res = match_graphs(&pattern, &target, options(false, true, false), false);
    let mut found = res.mappings.clone();
    found.sort();
    assert_eq!(found, vec![vec![0, 2], vec![3, 2]]);
}

#[test]
fn larger_pattern_has_no_solution() {
    let pattern = graph(&[0; 4], &[(0, 1), (1, 2), (2, 3)], true);
    let target = graph(&[0; 3], &[(0, 1), (1, 2)], true);
    for edge_induced in [false, true] {
        let res = match_graphs(&pattern, &target, options(edge_induced, false, false), true);
        assert_eq!(res.status, 0);
        assert_eq!(res.solutions, 0);
    }
    let denser = graph(&[0; 3], &[(0, 1), (1, 2), (0, 2)], true);
    let res = match_graphs(&denser, &target, options(true, false, false), true);
    assert_eq!(res.solutions, 0);
}

#[test]
fn empty_pattern_has_one_embedding() {
    let pattern = graph(&[], &[], false);
    let target = graph(&[0; 3], &[(0, 1)], false);
    let res = match_graphs(&pattern, &target, options(false, true, false), true);
    assert_eq!(res.solutions, 1);
    assert_eq!(res.mappings, vec![Vec::<usize>::new()]);
}

#[test]
fn plan_starts_at_the_highest_degree_and_stays_connected() {
    // A star with centre 2 and a pendant path 0 - 4 - 5.
    let pattern = graph(&[0; 6], &[(2, 0), (2, 1), (2, 3), (0, 4), (4, 5)], true);
    let plan = OrderingPlan::compute(&pattern);
    let order: Vec<usize> = (0..plan.len()).map(|i| plan.vertex_at(i)).collect();
    assert_eq!(order, vec![2, 0, 4, 1, 3, 5]);
    for (i, &u) in order.iter().enumerate() {
        assert_eq!(plan.position_of(u), i);
    }
}

#[test]
fn add_edge_refuses_what_is_no_vertex() {
    let mut g = Graph::new(vec![0, 0]);
    assert!(!g.add_edge(0, 2));
    assert!(!g.add_edge(2, 0));
    assert!(g.add_edge(0, 1));
    assert!(g.add_edge(0, 1));
    assert_eq!(g.out_degree(0), 1);
    assert_eq!(g.in_degree(1), 1);
    assert!(g.has_edge(0, 1));
    assert!(!g.has_edge(1, 0));
    assert!(!g.has_edge(5, 0));
    let s = g.symmetrized();
    assert!(s.has_edge(1, 0));
    assert_eq!(s.successors(1), &vec![0]);
    assert_eq!(s.predecessors(1), &vec![0]);
}

#[test]
fn undirected_mode_is_directed_mode_on_symmetrized_graphs() {
    let pattern = "1 2\n2 3\n";
    let target = "1 2\n2 3\n3 1\n3 4\n4 5\n";
    for edge_induced in [false, true] {
        let opts = RunOptions {
            format: GraphFormat::EdgeList,
            undirected: true,
            ..options(edge_induced, false, false)
        };
        let undirected = run_vf3(pattern, target, opts).unwrap();
        let p = load(pattern, GraphFormat::EdgeList, false).unwrap().symmetrized();
        let t = load(target, GraphFormat::EdgeList, false).unwrap().symmetrized();
        let directed = match_graphs(&p, &t, RunOptions { undirected: false, ..opts }, true);
        assert_eq!(undirected.solutions, directed.solutions);
        assert_eq!(undirected.solutions, if edge_induced { 12 } else { 6 });
        let as_read = run_vf3(pattern, target, RunOptions { undirected: false, ..opts }).unwrap();
        assert_eq!(as_read.solutions, if edge_induced { 5 } else { 2 });
    }
}

#[test]
fn loader_reads_both_formats() {
    let rows = scan(b"# head\n3 1\n\n 2\t3 \r\n").unwrap();
    assert_eq!(rows, vec![vec![], vec![3, 1], vec![], vec![2, 3]]);
    assert_eq!(flat(&rows), vec![3, 1, 2, 3]);
    assert_eq!(scan(b"12 18446744073709551615").unwrap(), vec![vec![12, usize::MAX]]);
    assert!(scan(b"18446744073709551616").is_none());
    assert!(scan(b"1 2x").is_none());
    assert!(scan(b"1 # 2").is_none());
    assert_eq!(scan(b"").unwrap(), Vec::<Vec<usize>>::new());
    assert_eq!(scan(b"\n").unwrap(), vec![Vec::<usize>::new()]);

    let g = edge_list(&rows).unwrap();
    assert_eq!(g.n(), 3);
    assert!(g.has_edge(2, 0) && g.has_edge(1, 2));
    assert!(!g.has_edge(0, 2) && !g.has_edge(2, 1));
    assert_eq!((g.label(0), g.label(2)), (0, 0));
    assert!(edge_list(&vec![vec![1]]).is_none());
    assert!(edge_list(&vec![vec![0, 1]]).is_none());
    assert_eq!(edge_list(&vec![]).unwrap().n(), 0);

    let g = legacy(&vec![2, 0, 7, 1, 9, 1, 0, 1, 0]).unwrap();
    assert_eq!(g.n(), 2);
    assert_eq!((g.label(0), g.label(1)), (7, 9));
    assert!(g.has_edge(0, 1) && !g.has_edge(1, 0));
    assert!(legacy(&vec![]).is_none());
    assert_eq!(legacy(&vec![0]).unwrap().n(), 0);
    assert!(legacy(&vec![1, 0, 1]).is_none());
    assert!(legacy(&vec![1, 0, 1, 1, 0, 1]).is_none());
    assert!(legacy(&vec![1, 0, 1, 0, 0]).is_none());

    let g = load("2\n0 7\n1 9\n1\n0 1\n0\n", GraphFormat::VFLegacy, true).unwrap();
    assert!(g.has_edge(0, 1) && g.has_edge(1, 0));
    assert_eq!(g.neighbors(0, true), &vec![1]);
    assert_eq!(g.neighbors(0, false), &vec![1]);
    assert!(g.has_arc(1, 0, true) && g.has_arc(1, 0, false));
}

#[test]
fn plan_anchors_each_position_at_its_first_placed_neighbor() {
    // 0 -> 1, 2 -> 1, 1 -> 3 and the lone vertex 4.
    let pattern = graph(&[0; 5], &[(0, 1), (2, 1), (1, 3)], false);
    let plan = OrderingPlan::compute(&pattern);
    let order: Vec<usize> = (0..plan.len()).map(|i| plan.vertex_at(i)).collect();
    assert_eq!(order, vec![1, 0, 2, 3, 4]);
    assert!(matches!(plan.anchor_at(0), Anchor::Free));
    assert!(matches!(plan.anchor_at(1), Anchor::Linked { at: 0, outgoing: false }));
    assert!(matches!(plan.anchor_at(2), Anchor::Linked { at: 0, outgoing: false }));
    assert!(matches!(plan.anchor_at(3), Anchor::Linked { at: 0, outgoing: true }));
    assert!(matches!(plan.anchor_at(4), Anchor::Free));
    // Vertex 1 comes first: all its neighbors are still to be placed.
    assert_eq!(plan.neighbors_at(0, true, false), &vec![3]);
    assert_eq!(plan.neighbors_at(0, false, false), &vec![0, 2]);
    assert!(plan.neighbors_at(0, true, true).is_empty());
    assert!(plan.neighbors_at(0, false, true).is_empty());
    // Vertex 0 comes next: its only neighbor is placed.
    assert_eq!(plan.neighbors_at(1, true, true), &vec![1]);
    assert!(plan.neighbors_at(1, true, false).is_empty());
    assert_eq!(plan.neighbors_at(3, false, true), &vec![1]);
    assert!(plan.neighbors_at(4, false, true).is_empty());
}

#[test]
fn self_loops_are_matched() {
    let pattern = graph(&[0, 0], &[(0, 0), (0, 1)], false);
    let target = graph(&[0, 0, 0], &[(0, 0), (0, 1), (2, 2), (2, 1), (1, 0)], false);
    for look_ahead in [false, true] {
        let node = match_graphs(&pattern, &target, options(false, true, false), look_ahead);
        assert_eq!(node.mappings, vec![vec![2, 1]]);
        let edge = match_graphs(&pattern, &target, options(true, true, false), look_ahead);
        let mut found = edge.mappings.clone();
        found.sort();
        assert_eq!(found, vec![vec![0, 1], vec![2, 1]]);
    }
}

#[test]
fn expansion_splits_an_item_into_rest_and_child() {
    let pattern = graph(&[0, 0], &[(0, 1)], false);
    let target = graph(&[0, 0, 0], &[(1, 2)], false);
    let plan = OrderingPlan::compute(&pattern);
    let engine =
        Engine { pattern: &pattern, target: &target, plan: &plan, edge_induced: false, look_ahead: false };
    let mut marks = Marks::new(target.n());
    let root = WorkItem::root();
    assert_eq!((root.depth(), root.next_index()), (0, 0));
    // Target vertex 0 has no arc, yet it fits alone: the light policy goes on with it.
    let (rest, child) = match engine.expand(root, &mut marks) {
        Expansion::Branch(rest, child) => (rest, child),
        other => panic!("{other:?}"),
    };
    assert_eq!((rest.depth(), rest.next_index()), (0, 1));
    assert_eq!((child.depth(), child.next_index()), (1, 0));
    assert_eq!(child.placement(), &vec![0]);
    assert!(rest.placement().is_empty());
    // The child has no candidate: vertex 0 has no successor.
    assert!(matches!(engine.expand(child, &mut marks), Expansion::Exhausted));
    // The full heuristic does not go on with vertex 0.
    let full = Engine { look_ahead: true, ..engine };
    let rest = match full.expand(WorkItem::root(), &mut marks) {
        Expansion::Advance(rest) => rest,
        other => panic!("{other:?}"),
    };
    let (rest, child) = match full.expand(rest, &mut marks) {
        Expansion::Branch(rest, child) => (rest, child),
        other => panic!("{other:?}"),
    };
    assert_eq!(rest.next_index(), 2);
    let (_, leaf) = match full.expand(child, &mut marks) {
        Expansion::Branch(rest, leaf) => (rest, leaf),
        other => panic!("{other:?}"),
    };
    match full.expand(leaf, &mut marks) {
        Expansion::Solution(mapping) => assert_eq!(mapping, vec![1, 2]),
        other => panic!("{other:?}"),
    }
}

#[test]
fn scheduler_follows_its_strategy() {
    let pattern = graph(&[0, 0], &[(0, 1)], false);
    let target = graph(&[0, 0, 0], &[(0, 1), (1, 2)], false);
    let plan = OrderingPlan::compute(&pattern);
    let engine =
        Engine { pattern: &pattern, target: &target, plan: &plan, edge_induced: false, look_ahead: true };
    let mut marks = Marks::new(target.n());
    let (rest, child) = match engine.expand(WorkItem::root(), &mut marks) {
        Expansion::Branch(rest, child) => (rest, child),
        other => panic!("{other:?}"),
    };

    // Work stealing: a shallow item goes to the pool, a deep one stays with its worker.
    let mut stealing = Scheduler::new(2, true, 1, 1);
    assert_eq!(stealing.worker_count(), 2);
    assert!(stealing.is_globally_empty());
    stealing.push(0, rest);
    stealing.push(0, child);
    assert!(!stealing.is_globally_empty());
    let taken = stealing.try_pop(1).unwrap();
    assert_eq!(taken.depth(), 0);
    assert!(stealing.try_pop(1).is_none());
    let own = stealing.try_pop(0).unwrap();
    assert_eq!(own.depth(), 1);
    assert!(stealing.is_globally_empty());
    // A full local stack sends the next item to the pool.
    let (rest, child) = match engine.expand(taken, &mut marks) {
        Expansion::Branch(rest, child) => (rest, child),
        other => panic!("{other:?}"),
    };
    stealing.push(0, own);
    stealing.push(0, child);
    assert_eq!(stealing.try_pop(1).unwrap().depth(), 1);
    assert_eq!(stealing.try_pop(0).unwrap().depth(), 1);

    // The global stack: every item is shared, last in first out.
    let mut global = Scheduler::new(2, false, 1, 1);
    // Target vertex 2 has no successor: the full heuristic moves on.
    assert!(matches!(engine.expand(rest, &mut marks), Expansion::Advance(_)));
    let (rest, child) = match engine.expand(WorkItem::root(), &mut marks) {
        Expansion::Branch(rest, child) => (rest, child),
        other => panic!("{other:?}"),
    };
    global.push(0, rest);
    global.push(0, child);
    assert_eq!(global.try_pop(1).unwrap().depth(), 1);
    assert_eq!(global.try_pop(0).unwrap().depth(), 0);
    assert!(global.try_pop(0).is_none());
}

#[test]
fn sink_counts_and_keeps_the_first_time() {
    let mut sink = ResultSink::new(true);
    assert!(!sink.any());
    assert_eq!(sink.first_solution_time(), None);
    sink.record(vec![2, 0], 17);
    sink.record(vec![0, 2], 5);
    assert_eq!(sink.solutions(), 2);
    assert_eq!(sink.first_solution_time(), Some(17));
    assert_eq!(sink.into_mappings(), vec![vec![2, 0], vec![0, 2]]);
    let mut counting = ResultSink::new(false);
    counting.record(vec![1], 3);
    assert_eq!(counting.solutions(), 1);
    assert!(counting.into_mappings().is_empty());

    let ok = VF3Result { status: 0, solutions: 4, time_first: 1, time_all: 2, mappings: vec![vec![1]] };
    let data = convert_result(ok).unwrap();
    assert_eq!((data.solutions, data.time_first, data.time_all), (4, 1, 2));
    assert_eq!(data.mappings, vec![vec![1]]);
    let failed =
        VF3Result { status: -7, solutions: 4, time_first: 1, time_all: 2, mappings: vec![vec![1]] };
    assert!(matches!(convert_result(failed), Err(VF3Error::ExecutionFailed { code: -7 })));
}

#[test]
fn times_of_a_query() {
    assert_eq!(reported_times(false, 5, 100, 4), (5, 25));
    assert_eq!(reported_times(true, 5, 100, 4), (25, 25));
    assert_eq!(reported_times(false, 9, 7, 2), (9, 3));
    assert_eq!(time_to_first(Some(3), 8), 3);
    assert_eq!(time_to_first(None, 8), 8);
    assert!(goes_on(9, 10, 1));
    assert!(!goes_on(10, 10, 1));
    assert!(!goes_on(0, 0, 1));
    assert!(!goes_on(0, 10, u64::MAX));
    let watch = Stopwatch::start();
    let earlier = watch.elapsed();
    assert!(watch.elapsed() >= earlier);
    assert_eq!(whole_nanos(0), 0);
    assert_eq!(whole_nanos(1_500_000_000), 1_500_000_000);
    assert_eq!(whole_nanos(u64::MAX as u128), u64::MAX);
    assert_eq!(whole_nanos(u64::MAX as u128 + 1), u64::MAX);
    assert_eq!(whole_nanos(u128::MAX), u64::MAX);
}

#[test]
fn defaults_of_the_options() {
    let opts = RunOptions::default();
    assert_eq!(opts.format, GraphFormat::VFLegacy);
    assert!(!opts.undirected && !opts.store_solutions && !opts.first_only);
    assert!(!opts.verbose && !opts.edge_induced);
    assert_eq!(opts.repetition_time_limit, 1_000_000_000);
    let par = ParallelOptions::default();
    assert_eq!((par.algo, par.cpu, par.num_threads), (1, -1, 1));
    assert!(!par.lock_free);
    assert_eq!((par.ssr_high_limit, par.ssr_local_stack_limit), (3, 10));
}
