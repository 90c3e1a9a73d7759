use vf3lib_rs::loader::load;
use vf3lib_rs::{
    run_vf3, run_vf3l, run_vf3p, GraphFormat, ParallelOptions, RunOptions, VF3Error, VF3Query,
};

const TRIANGLE: &str = "# Triangle pattern\n1 2\n2 3\n1 3\n";
const TRIANGLE_WITH_TAIL: &str = "# Triangle with tail\n1 2\n2 3\n1 3\n3 4\n";

/// A directed path 0 -> 1 -> 2 in the attributed format.
const PATH: &str = "# Number of nodes\n3\n# Node attributes\n0 7\n1 7\n2 7\n\
# Edges coming out of node 0\n1\n0 1\n# Edges coming out of node 1\n1\n1 2\n\
# Edges coming out of node 2\n0\n";

/// A directed cycle 0 -> 1 -> 2 -> 3 -> 0 with the chord 0 -> 2.
const CYCLE: &str = "4\n0 7\n1 7\n2 7\n3 7\n2\n0 1\n0 2\n1\n1 2\n1\n2 3\n1\n3 0\n";

fn quick() -> RunOptions {
    RunOptions { repetition_time_limit: 0, ..Default::default() }
}

fn edge_list_options() -> RunOptions {
    RunOptions {
        format: GraphFormat::EdgeList,
        undirected: true,
        repetition_time_limit: 20_000_000,
        ..Default::default()
    }
}

#[test]
fn edge_list_undirected_triangle() {
    let opts = edge_list_options();
    let res = run_vf3(TRIANGLE, TRIANGLE_WITH_TAIL, opts).expect("Edge list execution failed");
    assert!(
        res.solutions >= 1,
        "Expected at least one triangle, got {} solutions. Pattern: {:?}, Target: {:?}",
        res.solutions,
        TRIANGLE,
        TRIANGLE_WITH_TAIL
    );
    assert_eq!(res.solutions, 6);
    let light = run_vf3l(TRIANGLE, TRIANGLE_WITH_TAIL, opts).unwrap();
    assert_eq!(light.solutions, 6);
    for algo in [1, 2] {
        for num_threads in [1, 2, 4] {
            let par = ParallelOptions { algo, num_threads, ..Default::default() };
            let res = run_vf3p(TRIANGLE, TRIANGLE_WITH_TAIL, opts, par).unwrap();
            assert_eq!(res.solutions, 6);
        }
    }
}

#[test]
fn path_in_cycle_edge_induced() {
    let opts = RunOptions { edge_induced: true, repetition_time_limit: 20_000_000, ..Default::default() };
    let res = run_vf3(PATH, CYCLE, opts).expect("VF3 edge-induced failed");
    assert!(res.solutions >= 1);
    assert_eq!(res.solutions, 6);
}

#[test]
fn path_in_cycle_edge_induced_light() {
    let opts = RunOptions { edge_induced: true, repetition_time_limit: 20_000_000, ..Default::default() };
    let res = run_vf3l(PATH, CYCLE, opts).expect("VF3L edge-induced failed");
    assert!(res.solutions >= 1);
    assert_eq!(res.solutions, 6);
}

#[test]
fn vf3_node_induced_is_stricter() {
    let res = run_vf3(PATH, CYCLE, quick()).unwrap();
    assert_eq!(res.solutions, 2);
}

#[test]
fn storing_the_solutions_keeps_the_count() {
    let base = quick();
    let a = run_vf3(PATH, CYCLE, base.clone()).expect("VF3 run A failed");
    let mut bopts = base;
    bopts.store_solutions = true;
    let b = run_vf3(PATH, CYCLE, bopts).expect("VF3 run B failed");
    assert_eq!(a.solutions, b.solutions, "store_solutions flag must not change solution count");
    assert!(a.mappings.is_empty());
    assert_eq!(b.mappings.len() as u64, b.solutions);
}

#[test]
fn first_only_reports_one_time() {
    // With first_only=true, time_first should equal time_all.
    let opts = RunOptions { first_only: true, repetition_time_limit: 20_000_000, ..Default::default() };
    let res = run_vf3(PATH, CYCLE, opts).expect("VF3 first_only failed");
    assert!(res.solutions >= 1);
    assert!(
        res.time_first == res.time_all,
        "Expected time_first == time_all, got {} vs {}",
        res.time_first,
        res.time_all
    );
}

#[test]
fn repetition_goes_on_for_the_least_time() {
    let started = std::time::Instant::now();
    let opts = RunOptions { repetition_time_limit: 30_000_000, ..Default::default() };
    let res = run_vf3(PATH, CYCLE, opts).unwrap();
    assert!(started.elapsed().as_nanos() >= 30_000_000);
    assert_eq!(res.solutions, 2);
    assert!(res.time_all < 30_000_000);
    assert_eq!(RunOptions::default().repetition_time_limit, 1_000_000_000);
}

#[test]
fn vf3_first_only_stops_at_one() {
    let opts = RunOptions {
        first_only: true,
        store_solutions: true,
        edge_induced: true,
        repetition_time_limit: 20_000_000,
        ..Default::default()
    };
    let res = run_vf3(PATH, CYCLE, opts).expect("VF3 first_only failed");
    assert_eq!(res.solutions, 1);
    assert_eq!(res.mappings.len(), 1);
}

#[test]
fn path_in_cycle_work_stealing() {
    let opts = RunOptions { edge_induced: true, repetition_time_limit: 20_000_000, ..Default::default() };
    let par = ParallelOptions { algo: 2, num_threads: 2, lock_free: true, ..Default::default() };
    let res = run_vf3p(PATH, CYCLE, opts, par).expect("VF3P WLS failed");
    assert!(res.solutions >= 1);
    assert_eq!(res.solutions, 6);
}

#[test]
fn vf3p_refuses_an_invalid_configuration() {
    let opts = quick();
    for par in [
        ParallelOptions { num_threads: 0, ..Default::default() },
        ParallelOptions { num_threads: -3, ..Default::default() },
        ParallelOptions { algo: 0, ..Default::default() },
        ParallelOptions { algo: 3, ..Default::default() },
    ] {
        match run_vf3p(PATH, CYCLE, opts, par) {
            Err(VF3Error::ExecutionFailed { code }) => assert_eq!(code, 1),
            other => panic!("Unexpected result: {other:?}"),
        }
    }
}

#[test]
fn vf3p_first_only_stops_every_worker() {
    let first = RunOptions {
        first_only: true,
        store_solutions: true,
        edge_induced: true,
        repetition_time_limit: 0,
        ..Default::default()
    };
    for algo in [1, 2] {
        for num_threads in [1, 3] {
            let par = ParallelOptions { algo, num_threads, ..Default::default() };
            let res = run_vf3p(PATH, CYCLE, first, par).unwrap();
            assert_eq!(res.solutions, 1);
            assert_eq!(res.mappings.len(), 1);
            assert_eq!(res.time_first, res.time_all);
        }
    }
}

#[test]
fn malformed_texts_fail_with_their_status() {
    let opts = quick();
    for bad in [
        "",
        "x",
        "2\n0 1\n1 1\n1\n0 1\n",
        "2\n0 1\n1 1\n1\n0 2\n0\n",
        "2\n0 1\n1 1\n1\n1 0\n0\n",
        "2\n0 1\n2 1\n0\n0\n",
        "2\n0 1\n1 1\n0\n0\n5\n",
        "1\n0 4294967296\n0\n",
        "1\n0 1\n99999999999999999999999999\n",
        "1\n0 1\n0x\n",
    ] {
        assert!(
            matches!(run_vf3(bad, CYCLE, opts), Err(VF3Error::ExecutionFailed { code: 2 })),
            "{bad:?}"
        );
        assert!(
            matches!(run_vf3l(PATH, bad, opts), Err(VF3Error::ExecutionFailed { code: 3 })),
            "{bad:?}"
        );
        assert!(matches!(
            run_vf3p(bad, bad, opts, ParallelOptions::default()),
            Err(VF3Error::ExecutionFailed { code: 2 })
        ));
    }
    let edges = edge_list_options();
    for bad in ["1\n", "1 2 3\n", "0 1\n", "1 0\n", "1 -2\n", "a b\n"] {
        assert!(
            matches!(run_vf3(bad, TRIANGLE, edges), Err(VF3Error::ExecutionFailed { code: 2 })),
            "{bad:?}"
        );
        assert!(matches!(load(bad, GraphFormat::EdgeList, false), Err(VF3Error::FormatError)));
    }
}

#[test]
fn bad_paths_return_error() {
    let opts = RunOptions { repetition_time_limit: 10_000_000, ..Default::default() };
    let err = run_vf3("/no/such/file/sub.grf", "/no/such/file/grf", opts).unwrap_err();
    // Check that the error is an ExecutionFailed variant
    match err {
        VF3Error::ExecutionFailed { .. } => {
            // Expected error type
        }
        _ => panic!("Unexpected error type: {err:?}"),
    }
}

#[test]
fn blank_lines_comments_and_carriage_returns_are_skipped() {
    let text = "\r\n# a comment\r\n1 2\r\n\r\n  2\t3  \n#1 9\n1 3";
    let res = run_vf3(text, TRIANGLE_WITH_TAIL, edge_list_options()).unwrap();
    assert_eq!(res.solutions, 6);
}

#[test]
fn query_builder_sets_what_the_functions_take() {
    let res = VF3Query::new(TRIANGLE, TRIANGLE_WITH_TAIL)
        .repetition_time_limit(0)
        .format(GraphFormat::EdgeList)
        .undirected()
        .store_solutions()
        .run()
        .unwrap();
    assert_eq!(res.solutions, 6);
    assert_eq!(res.mappings.len(), 6);
    let directed = VF3Query::new(TRIANGLE, TRIANGLE_WITH_TAIL)
        .repetition_time_limit(0)
        .format(GraphFormat::EdgeList)
        .undirected()
        .directed()
        .verbose()
        .run_light()
        .unwrap();
    assert_eq!(directed.solutions, 1);
    let edge = VF3Query::new(PATH, CYCLE).repetition_time_limit(0).edge_induced().run().unwrap();
    assert_eq!(edge.solutions, 6);
    let node = VF3Query::new(PATH, CYCLE).repetition_time_limit(0).edge_induced().node_induced().run().unwrap();
    assert_eq!(node.solutions, 2);
    let first = VF3Query::new(PATH, CYCLE).repetition_time_limit(0).edge_induced().first_only().run_light().unwrap();
    assert_eq!(first.solutions, 1);
    let par = VF3Query::new(PATH, CYCLE).repetition_time_limit(0)
        .edge_induced()
        .with_threads(3)
        .parallel_algorithm(2)
        .lock_free()
        .run_parallel()
        .unwrap();
    assert_eq!(par.solutions, 6);
    assert!(VF3Query::new(PATH, CYCLE).repetition_time_limit(0).with_threads(0).run_parallel().is_err());
}

#[test]
fn format_names() {
    assert_eq!(GraphFormat::VFLegacy.as_str(), "vf");
    assert_eq!(GraphFormat::EdgeList.as_str(), "edge");
}
