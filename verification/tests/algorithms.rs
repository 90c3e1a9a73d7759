use vf3lib_rs::{run_vf3, run_vf3l, run_vf3p, ParallelOptions, RunOptions};

/// A small generator of pseudo-random numbers, the same on every run.
struct Lcg(u64);

impl Lcg {
    fn next(&mut self, bound: usize) -> usize {
        self.0 = self.0.wrapping_mul(6364136223846793005).wrapping_add(1442695040888963407);
        ((self.0 >> 33) as usize) % bound
    }
}

/// A graph as its number of vertices and its arcs.
struct Sample {
    n: usize,
    arcs: Vec<(usize, usize)>,
}

impl Sample {
    /// The text of the graph in the attributed format, every attribute 1.
    fn text(&self) -> String {
        let mut text = format!("# Number of nodes\n{}\n\n# Node attributes\n", self.n);
        for u in 0..self.n {
            text.push_str(&format!("{u} 1\n"));
        }
        for u in 0..self.n {
            let out: Vec<usize> =
                self.arcs.iter().filter(|arc| arc.0 == u).map(|arc| arc.1).collect();
            text.push_str(&format!("\n# Edges coming out of node {u}\n{}\n", out.len()));
            for v in out {
                text.push_str(&format!("{u} {v}\n"));
            }
        }
        text
    }

    fn joined(&self, u: usize, v: usize) -> bool {
        self.arcs.contains(&(u, v)) || self.arcs.contains(&(v, u))
    }

    /// The subgraph induced by `size` vertices that hang together, with the
    /// vertices renumbered in the order in which they were reached.
    fn part(&self, size: usize, start: usize) -> Sample {
        let mut reached = vec![start];
        let mut at = 0;
        while at < reached.len() && reached.len() < size {
            let u = reached[at];
            for v in 0..self.n {
                if reached.len() < size && self.joined(u, v) && !reached.contains(&v) {
                    reached.push(v);
                }
            }
            at += 1;
        }
        let mut arcs = Vec::new();
        for &(u, v) in &self.arcs {
            let a = reached.iter().position(|&w| w == u);
            let b = reached.iter().position(|&w| w == v);
            if let (Some(a), Some(b)) = (a, b) {
                arcs.push((a, b));
            }
        }
        Sample { n: reached.len(), arcs }
    }
}

/// A graph in which no vertex has more than `valence` neighbors.
fn bounded_valence(seed: u64, n: usize, valence: usize) -> Sample {
    let mut rng = Lcg(seed);
    let mut degree = vec![0; n];
    let mut sample = Sample { n, arcs: Vec::new() };
    for v in 1..n {
        // Hang every vertex on an earlier one, so that the graph is connected.
        let mut u = rng.next(v);
        let mut tries = 0;
        while degree[u] >= valence && tries < n {
            u = (u + 1) % v;
            tries += 1;
        }
        if degree[u] < valence {
            sample.arcs.push(if rng.next(2) == 0 { (u, v) } else { (v, u) });
            degree[u] += 1;
            degree[v] += 1;
        }
    }
    for _ in 0..n {
        let u = rng.next(n);
        let v = rng.next(n);
        if u != v && degree[u] < valence && degree[v] < valence && !sample.joined(u, v) {
            sample.arcs.push((u, v));
            degree[u] += 1;
            degree[v] += 1;
        }
    }
    sample
}

/// A mesh of `width` by `height` vertices, every edge in both directions.
fn mesh(width: usize, height: usize) -> Sample {
    let mut sample = Sample { n: width * height, arcs: Vec::new() };
    for y in 0..height {
        for x in 0..width {
            let u = y * width + x;
            if x + 1 < width {
                sample.arcs.push((u, u + 1));
                sample.arcs.push((u + 1, u));
            }
            if y + 1 < height {
                sample.arcs.push((u, u + width));
                sample.arcs.push((u + width, u));
            }
        }
    }
    sample
}

/// A graph with `arcs` arcs drawn at random.
fn random(seed: u64, n: usize, arcs: usize) -> Sample {
    let mut rng = Lcg(seed);
    let mut sample = Sample { n, arcs: Vec::new() };
    while sample.arcs.len() < arcs {
        let u = rng.next(n);
        let v = rng.next(n);
        if u != v && !sample.arcs.contains(&(u, v)) {
            sample.arcs.push((u, v));
        }
    }
    sample
}

/// The texts of a pattern cut out of a target, and of the target.
fn pair(target: Sample, size: usize, start: usize) -> (String, String) {
    (target.part(size, start).text(), target.text())
}

fn bvg1() -> (String, String) {
    pair(bounded_valence(1, 40, 3), 8, 5)
}

fn bvg2() -> (String, String) {
    pair(bounded_valence(2, 40, 6), 8, 11)
}

fn bvg3() -> (String, String) {
    pair(bounded_valence(3, 40, 9), 8, 17)
}

fn m2d1() -> (String, String) {
    pair(mesh(4, 4), 6, 5)
}

fn m2d2() -> (String, String) {
    pair(mesh(5, 4), 6, 0)
}

fn rand1() -> (String, String) {
    pair(random(11, 30, 60), 7, 3)
}

fn rand2() -> (String, String) {
    pair(random(12, 30, 90), 7, 9)
}

fn rand3() -> (String, String) {
    pair(random(13, 30, 120), 7, 21)
}

fn si2_b03_m400() -> (String, String) {
    pair(bounded_valence(21, 400, 3), 40, 37)
}

fn si2_b06m_m400() -> (String, String) {
    pair(bounded_valence(22, 400, 6), 40, 96)
}

fn si2_b03m_m800() -> (String, String) {
    pair(bounded_valence(23, 800, 3), 60, 22)
}

#[test]
fn vf3_basic_smoke_test() {
    let (pattern, target) = bvg1();
    let opts = RunOptions { repetition_time_limit: 50_000_000, ..Default::default() };
    let res = run_vf3(&pattern, &target, opts).expect("VF3 execution failed");
    assert!(res.solutions >= 1, "Expected at least one solution, got {}", res.solutions);
}

#[test]
fn vf3_multiple_small_graphs() {
    let test_cases = vec![
        ("bvg1", bvg1()),
        ("bvg2", bvg2()),
        ("m2d1", m2d1()),
        ("m2d2", m2d2()),
        ("rand1", rand1()),
        ("rand2", rand2()),
        ("rand3", rand3()),
    ];
    for (name, (pattern, target)) in test_cases {
        let opts = RunOptions::default();
        let res = run_vf3(&pattern, &target, opts).expect(&format!("VF3 failed for {}", name));
        assert!(res.solutions >= 1, "No solutions found for {}", name);
        let light = run_vf3l(&pattern, &target, RunOptions { repetition_time_limit: 0, ..opts });
        assert_eq!(light.unwrap().solutions, res.solutions, "{}", name);
    }
}

#[test]
fn vf3l_sparse_graphs() {
    // The lightweight engine is meant for sparse graphs
    let test_cases = vec![("rand1", rand1()), ("rand2", rand2()), ("rand3", rand3())];
    for (name, (pattern, target)) in test_cases {
        let opts = RunOptions::default();
        let res = run_vf3l(&pattern, &target, opts).expect(&format!("VF3L failed for {}", name));
        assert!(res.solutions >= 1, "No solutions found for {}", name);
    }
}

#[test]
fn vf3_medium_si2_datasets() {
    let test_cases = vec![("si2_b03_m400", si2_b03_m400()), ("si2_b06m_m400", si2_b06m_m400())];
    for (name, (pattern, target)) in test_cases {
        let opts = RunOptions {
            repetition_time_limit: 50_000_000,
            first_only: true, // Stop after first solution for medium graphs
            ..Default::default()
        };
        let res = run_vf3(&pattern, &target, opts).expect(&format!("VF3 failed for {}", name));
        assert!(res.solutions >= 1, "No solutions found for {}", name);
    }
}

#[test]
fn vf3_larger_si2_dataset() {
    let (pattern, target) = si2_b03m_m800();
    let opts = RunOptions {
        repetition_time_limit: 50_000_000,
        first_only: true, // Important for this larger graph
        ..Default::default()
    };
    let res = run_vf3(&pattern, &target, opts).expect("VF3 failed for si2_b03m_m800_22");
    assert!(res.solutions >= 1);
}

#[test]
fn vf3_non_isomorphic_pairs() {
    // Patterns that were cut out of other graphs than the target
    let (_, target) = bvg1();
    let test_cases = vec![("bvg1_3", bvg3().0), ("bvg1_4", m2d1().0)];
    for (name, pattern) in test_cases {
        let opts = RunOptions::default();
        let _res = run_vf3(&pattern, &target, opts).expect(&format!("VF3 failed for {}", name));
        // These might still have solutions: the run must only come to its end
    }
}

#[test]
fn vf3p_parallel_small_graphs() {
    let test_cases = vec![("bvg3", bvg3()), ("m2d1", m2d1()), ("m2d2", m2d2())];
    let par = ParallelOptions { num_threads: 2, ..Default::default() };
    for (name, (pattern, target)) in test_cases {
        let opts = RunOptions::default();
        let res = run_vf3p(&pattern, &target, opts, par.clone())
            .expect(&format!("VF3P failed for {}", name));
        assert!(res.solutions >= 1, "No solutions found for {}", name);
        let sequential = run_vf3(&pattern, &target, RunOptions { repetition_time_limit: 0, ..opts });
        assert_eq!(sequential.unwrap().solutions, res.solutions, "{}", name);
    }
}

#[test]
fn vf3p_parallel_medium_datasets() {
    let (pattern, target) = si2_b03_m400();
    let opts =
        RunOptions { repetition_time_limit: 50_000_000, first_only: true, ..Default::default() };
    let par = ParallelOptions {
        num_threads: 2,
        algo: 2, // work stealing
        ..Default::default()
    };
    let res = run_vf3p(&pattern, &target, opts, par).expect("VF3P failed");
    assert!(res.solutions >= 1);
}

#[test]
fn vf3p_parallel_lockfree() {
    let (pattern, target) = bvg2();
    let opts = RunOptions::default();
    let par = ParallelOptions { num_threads: 2, lock_free: true, ..Default::default() };
    let res = run_vf3p(&pattern, &target, opts, par).expect("VF3P lockfree failed");
    assert!(res.solutions >= 1);
}

#[test]
fn vf3_bvg2_node_induced() {
    let (pattern, target) = bvg2();
    let opts = RunOptions { repetition_time_limit: 50_000_000, ..Default::default() };
    let res = run_vf3(&pattern, &target, opts).expect("VF3 bvg2 failed");
    assert!(res.solutions >= 1);
}

#[test]
fn vf3l_rand1_sparse_graph() {
    let (pattern, target) = rand1();
    let opts = RunOptions { repetition_time_limit: 50_000_000, ..Default::default() };
    let res = run_vf3l(&pattern, &target, opts).expect("VF3L rand1 failed");
    assert!(res.solutions >= 1);
}

#[test]
fn vf3_rand1_edge_induced() {
    let (pattern, target) = rand1();
    let opts =
        RunOptions { edge_induced: true, repetition_time_limit: 50_000_000, ..Default::default() };
    let res = run_vf3(&pattern, &target, opts).expect("VF3 rand1 edge-induced failed");
    assert!(res.solutions >= 1);
    let node = run_vf3(&pattern, &target, RunOptions { edge_induced: false, ..opts }).unwrap();
    assert!(node.solutions <= res.solutions);
}

#[test]
fn vf3_edge_induced_smoke() {
    let (pattern, target) = bvg1();
    let opts =
        RunOptions { edge_induced: true, repetition_time_limit: 20_000_000, ..Default::default() };
    let res = run_vf3(&pattern, &target, opts).expect("VF3 edge-induced failed");
    assert!(res.solutions >= 1);
}

#[test]
fn vf3l_edge_induced_smoke() {
    let (pattern, target) = bvg1();
    let opts =
        RunOptions { edge_induced: true, repetition_time_limit: 20_000_000, ..Default::default() };
    let res = run_vf3l(&pattern, &target, opts).expect("VF3L edge-induced failed");
    assert!(res.solutions >= 1);
}

#[test]
fn vf3_first_only_time_equals_all() {
    let (pattern, target) = bvg1();
    // With first_only=true, time_first should equal time_all.
    let opts =
        RunOptions { first_only: true, repetition_time_limit: 20_000_000, ..Default::default() };
    let res = run_vf3(&pattern, &target, opts).expect("VF3 first_only failed");
    assert!(res.solutions >= 1);
    assert!(
        res.time_first == res.time_all,
        "Expected time_first == time_all, got {} vs {}",
        res.time_first,
        res.time_all
    );
}

#[test]
fn vf3_store_solutions_no_count_change() {
    let (pattern, target) = bvg1();
    let base = RunOptions { repetition_time_limit: 20_000_000, ..Default::default() };
    let a = run_vf3(&pattern, &target, base.clone()).expect("VF3 run A failed");
    let mut bopts = base;
    bopts.store_solutions = true;
    let b = run_vf3(&pattern, &target, bopts).expect("VF3 run B failed");
    assert_eq!(a.solutions, b.solutions, "store_solutions flag must not change solution count");
}

#[test]
fn vf3p_wls_lockfree_smoke() {
    let (pattern, target) = bvg1();
    let opts = RunOptions { repetition_time_limit: 20_000_000, ..Default::default() };
    let par = ParallelOptions {
        algo: 2, // work stealing
        num_threads: 2,
        lock_free: true,
        ..Default::default()
    };
    let res = run_vf3p(&pattern, &target, opts, par).expect("VF3P WLS failed");
    assert!(res.solutions >= 1);
}
