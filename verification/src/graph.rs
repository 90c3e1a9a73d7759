//! The graph model: labelled vertices `0..n` and directed arcs, held as
//! successor and predecessor lists that never change once a search starts.

use vstd::prelude::*;
use vstd::set_lib::*;

verus! {

/// A sequence of machine integers as a sequence of integers.
pub open spec fn ints(s: Seq<usize>) -> Seq<int> {
    Seq::new(s.len(), |k: int| s[k] as int)
}

/// What a graph is, mathematically: one label per vertex and a set of arcs.
pub struct GraphView {
    /// The label of each vertex; the vertices are `0..labels.len()`. A graph
    /// without labels carries the label 0 on every vertex.
    pub labels: Seq<u32>,
    /// The arcs, each as (source, destination).
    pub edges: Set<(int, int)>,
}

impl GraphView {
    /// Number of vertices.
    pub open spec fn n(self) -> int {
        self.labels.len() as int
    }

    /// Whether there is an arc from `u` to `v`.
    pub open spec fn has_edge(self, u: int, v: int) -> bool {
        self.edges.contains((u, v))
    }

    /// Whether there is an arc from `x` to `y` (`outgoing`) or from `y` to `x`.
    pub open spec fn linked(self, x: int, y: int, outgoing: bool) -> bool {
        if outgoing {
            self.has_edge(x, y)
        } else {
            self.has_edge(y, x)
        }
    }

    /// Every arc joins two vertices of the graph.
    pub open spec fn wf(self) -> bool {
        forall|u: int, v: int| #[trigger]
            self.edges.contains((u, v)) ==> 0 <= u < self.n() && 0 <= v < self.n()
    }

    /// The same vertices, with every arc accompanied by its opposite.
    pub open spec fn symmetrized(self) -> GraphView {
        GraphView {
            labels: self.labels,
            edges: Set::new(
                |e: (int, int)| self.edges.contains(e) || self.edges.contains((e.1, e.0)),
            ),
        }
    }
}

/// Whether `v` stands in the `u`-th of the adjacency lists `lists`.
pub open spec fn arc(lists: Seq<Vec<usize>>, u: int, v: int) -> bool {
    0 <= u < lists.len() && exists|k: int| 0 <= k < lists[u].len() && #[trigger] lists[u][k] == v
}

/// Every list of `lists` is free of repetitions and names vertices below `n` only.
pub open spec fn lists_ok(lists: Seq<Vec<usize>>, n: int) -> bool {
    &&& lists.len() == n
    &&& forall|u: int| 0 <= u < n ==> (#[trigger] lists[u])@.no_duplicates()
    &&& forall|u: int, k: int|
        0 <= u < n && 0 <= k < lists[u].len() ==> 0 <= #[trigger] lists[u][k] < n
}

/// A sequence without repetitions whose items are all below `n` has at most `n` items.
pub proof fn lemma_distinct_bounded_len(s: Seq<usize>, n: int)
    requires
        0 <= n,
        s.no_duplicates(),
        forall|k: int| 0 <= k < s.len() ==> 0 <= #[trigger] s[k] < n,
    ensures
        s.len() <= n,
{
    if s.len() > 0 {
        let t = Seq::new(s.len(), |k: int| s[k] as int);
        assert(0 <= s[0] < n);
        assert(t.no_duplicates());
        t.unique_seq_to_set();
        lemma_int_range(0, n);
        assert forall|x: int| t.to_set().contains(x) implies set_int_range(0, n).contains(x) by {
            let k = choose|k: int| 0 <= k < t.len() && t[k] == x;
            assert(0 <= s[k] < n);
        }
        lemma_len_subset(t.to_set(), set_int_range(0, n));
    }
}

/// A directed graph with labelled vertices.
///
/// An undirected graph is a directed one in which every arc has its opposite;
/// [`Graph::symmetrized`] makes one from any graph.
pub struct Graph {
    labels: Vec<u32>,
    succ: Vec<Vec<usize>>,
    pred: Vec<Vec<usize>>,
}

impl View for Graph {
    type V = GraphView;

    closed spec fn view(&self) -> GraphView {
        GraphView {
            labels: self.labels@,
            edges: Set::new(|e: (int, int)| arc(self.succ@, e.0, e.1)),
        }
    }
}

impl Graph {
    /// The successors of `u`, in the order in which the arcs were added.
    pub closed spec fn out_list(&self, u: int) -> Seq<usize> {
        self.succ[u]@
    }

    /// The predecessors of `v`, in the order in which the arcs were added.
    pub closed spec fn in_list(&self, v: int) -> Seq<usize> {
        self.pred[v]@
    }

    /// The successors of `x` (`outgoing`) or its predecessors.
    pub open spec fn nbrs(&self, x: int, outgoing: bool) -> Seq<usize> {
        if outgoing {
            self.out_list(x)
        } else {
            self.in_list(x)
        }
    }

    /// The representation invariant: both families of lists are free of
    /// repetitions, stay inside the graph, and describe the same arcs.
    pub closed spec fn wf(&self) -> bool {
        &&& lists_ok(self.succ@, self.labels.len() as int)
        &&& lists_ok(self.pred@, self.labels.len() as int)
        &&& forall|u: int, v: int| #[trigger] arc(self.succ@, u, v) <==> arc(self.pred@, v, u)
    }

    /// What the representation invariant says in terms of the view and of
    /// the adjacency lists.
    pub proof fn lemma_wf(&self)
        requires
            self.wf(),
        ensures
            self@.wf(),
            self@.n() <= usize::MAX,
            forall|u: int|
                0 <= u < self@.n() ==> (#[trigger] self.out_list(u)).no_duplicates()
                    && self.out_list(u).len() <= self@.n(),
            forall|v: int|
                0 <= v < self@.n() ==> (#[trigger] self.in_list(v)).no_duplicates()
                    && self.in_list(v).len() <= self@.n(),
            forall|u: int, k: int|
                0 <= u < self@.n() && 0 <= k < self.out_list(u).len() ==> 0
                    <= #[trigger] self.out_list(u)[k] < self@.n() && self@.has_edge(
                    u,
                    self.out_list(u)[k] as int,
                ),
            forall|v: int, k: int|
                0 <= v < self@.n() && 0 <= k < self.in_list(v).len() ==> 0
                    <= #[trigger] self.in_list(v)[k] < self@.n() && self@.has_edge(
                    self.in_list(v)[k] as int,
                    v,
                ),
            forall|u: int, v: int| #[trigger]
                self@.has_edge(u, v) ==> (exists|k: int|
                    0 <= k < self.out_list(u).len() && #[trigger] self.out_list(u)[k] == v) && (
                exists|k: int| 0 <= k < self.in_list(v).len() && #[trigger] self.in_list(v)[k] == u),
    {
        let n = self.labels.len() as int;
        assert forall|u: int| 0 <= u < n implies self.succ[u]@.len() <= n by {
            lemma_distinct_bounded_len(self.succ[u]@, n);
        }
        assert forall|v: int| 0 <= v < n implies self.pred[v]@.len() <= n by {
            lemma_distinct_bounded_len(self.pred[v]@, n);
        }
        assert forall|u: int, v: int| #[trigger] self@.edges.contains((u, v)) implies 0 <= u < n
            && 0 <= v < n by {
            assert(arc(self.succ@, u, v));
        }
        assert forall|u: int, k: int| 0 <= u < n && 0 <= k < self.succ[u]@.len() implies self@.has_edge(
            u,
            #[trigger] self.succ[u]@[k] as int,
        ) by {
            assert(arc(self.succ@, u, self.succ[u]@[k] as int));
        }
        assert forall|v: int, k: int| 0 <= v < n && 0 <= k < self.pred[v]@.len() implies self@.has_edge(
            #[trigger] self.pred[v]@[k] as int,
            v,
        ) by {
            assert(arc(self.pred@, v, self.pred[v]@[k] as int));
            assert(arc(self.succ@, self.pred[v]@[k] as int, v));
        }
        assert forall|u: int, v: int| #[trigger] self@.has_edge(u, v) implies (exists|k: int|
            0 <= k < self.out_list(u).len() && #[trigger] self.out_list(u)[k] == v) && (exists|
            k: int,
        |
            0 <= k < self.in_list(v).len() && #[trigger] self.in_list(v)[k] == u) by {
            assert(arc(self.succ@, u, v));
            assert(arc(self.pred@, v, u));
            let i = choose|i: int| 0 <= i < self.succ@[u].len() && #[trigger] self.succ@[u][i] == v;
            assert(self.out_list(u)[i] == v);
            let j = choose|j: int| 0 <= j < self.pred@[v].len() && #[trigger] self.pred@[v][j] == u;
            assert(self.in_list(v)[j] == u);
        }
    }

    /// The facts of [`Graph::lemma_wf`], stated once for both directions.
    pub proof fn lemma_nbrs(&self)
        requires
            self.wf(),
        ensures
            self@.wf(),
            self@.n() <= usize::MAX,
            forall|x: int, outgoing: bool|
                0 <= x < self@.n() ==> (#[trigger] self.nbrs(x, outgoing)).no_duplicates()
                    && self.nbrs(x, outgoing).len() <= self@.n(),
            forall|x: int, outgoing: bool, k: int|
                0 <= x < self@.n() && 0 <= k < self.nbrs(x, outgoing).len() ==> 0
                    <= #[trigger] self.nbrs(x, outgoing)[k] < self@.n() && self@.linked(
                    x,
                    self.nbrs(x, outgoing)[k] as int,
                    outgoing,
                ),
            forall|x: int, y: int, outgoing: bool| #[trigger]
                self@.linked(x, y, outgoing) ==> 0 <= x < self@.n() && 0 <= y < self@.n()
                    && exists|k: int|
                    0 <= k < self.nbrs(x, outgoing).len() && #[trigger] self.nbrs(x, outgoing)[k]
                        == y,
    {
        self.lemma_wf();
        assert forall|x: int, y: int, outgoing: bool| #[trigger]
            self@.linked(x, y, outgoing) implies 0 <= x < self@.n() && 0 <= y < self@.n()
            && exists|k: int|
            0 <= k < self.nbrs(x, outgoing).len() && #[trigger] self.nbrs(x, outgoing)[k] == y by {
            if outgoing {
                assert(self@.has_edge(x, y));
                let k = choose|k: int|
                    0 <= k < self.out_list(x).len() && #[trigger] self.out_list(x)[k] == y;
                assert(self.nbrs(x, outgoing)[k] == y);
            } else {
                assert(self@.has_edge(y, x));
                let k = choose|k: int|
                    0 <= k < self.in_list(x).len() && #[trigger] self.in_list(x)[k] == y;
                assert(self.nbrs(x, outgoing)[k] == y);
            }
        }
    }

    /// A graph with the given vertex labels and no arc.
    pub fn new(labels: Vec<u32>) -> (g: Graph)
        ensures
            g.wf(),
            g@.labels == labels@,
            g@.edges == Set::<(int, int)>::empty(),
    {
        let n = labels.len();
        let mut succ: Vec<Vec<usize>> = Vec::new();
        let mut pred: Vec<Vec<usize>> = Vec::new();
        let mut i: usize = 0;
        while i < n
            invariant
                i <= n,
                succ.len() == i,
                pred.len() == i,
                forall|u: int| 0 <= u < i ==> (#[trigger] succ[u]).len() == 0,
                forall|u: int| 0 <= u < i ==> (#[trigger] pred[u]).len() == 0,
            decreases n - i,
        {
            succ.push(Vec::new());
            pred.push(Vec::new());
            i += 1;
        }
        let g = Graph { labels, succ, pred };
        assert(g@.edges =~= Set::<(int, int)>::empty());
        g
    }

    /// Number of vertices.
    pub fn n(&self) -> (n: usize)
        ensures
            n == self@.n(),
    {
        self.labels.len()
    }

    /// The label of vertex `u`.
    pub fn label(&self, u: usize) -> (l: u32)
        requires
            u < self@.n(),
        ensures
            l == self@.labels[u as int],
    {
        self.labels[u]
    }

    /// The successors of `u`.
    pub fn successors(&self, u: usize) -> (list: &Vec<usize>)
        requires
            self.wf(),
            u < self@.n(),
        ensures
            list@ == self.out_list(u as int),
    {
        &self.succ[u]
    }

    /// The predecessors of `v`.
    pub fn predecessors(&self, v: usize) -> (list: &Vec<usize>)
        requires
            self.wf(),
            v < self@.n(),
        ensures
            list@ == self.in_list(v as int),
    {
        &self.pred[v]
    }

    /// The successors of `x` (`outgoing`) or its predecessors.
    pub fn neighbors(&self, x: usize, outgoing: bool) -> (list: &Vec<usize>)
        requires
            self.wf(),
            x < self@.n(),
        ensures
            list@ == self.nbrs(x as int, outgoing),
    {
        if outgoing {
            &self.succ[x]
        } else {
            &self.pred[x]
        }
    }

    /// Whether there is an arc from `x` to `y` (`outgoing`) or from `y` to `x`.
    pub fn has_arc(&self, x: usize, y: usize, outgoing: bool) -> (found: bool)
        requires
            self.wf(),
        ensures
            found == self@.linked(x as int, y as int, outgoing),
    {
        if outgoing {
            self.has_edge(x, y)
        } else {
            self.has_edge(y, x)
        }
    }

    /// Number of arcs that leave `u`.
    pub fn out_degree(&self, u: usize) -> (d: usize)
        requires
            self.wf(),
            u < self@.n(),
        ensures
            d == self.out_list(u as int).len(),
    {
        self.succ[u].len()
    }

    /// Number of arcs that enter `v`.
    pub fn in_degree(&self, v: usize) -> (d: usize)
        requires
            self.wf(),
            v < self@.n(),
        ensures
            d == self.in_list(v as int).len(),
    {
        self.pred[v].len()
    }

    /// Whether there is an arc from `u` to `v`; `false` where either is no vertex.
    pub fn has_edge(&self, u: usize, v: usize) -> (found: bool)
        requires
            self.wf(),
        ensures
            found == self@.has_edge(u as int, v as int),
    {
        if u >= self.succ.len() {
            return false;
        }
        let row = &self.succ[u];
        let mut k: usize = 0;
        while k < row.len()
            invariant
                k <= row.len(),
                row@ == self.succ[u as int]@,
                u < self.succ.len(),
                forall|j: int| 0 <= j < k ==> row[j] != v,
            decreases row.len() - k,
        {
            if row[k] == v {
                assert(arc(self.succ@, u as int, v as int));
                return true;
            }
            k += 1;
        }
        false
    }

    /// Adds the arc from `u` to `v`, unless it is there already. Returns
    /// `false`, and changes nothing, where `u` or `v` is no vertex.
    pub fn add_edge(&mut self, u: usize, v: usize) -> (added: bool)
        requires
            old(self).wf(),
        ensures
            final(self).wf(),
            final(self)@.labels == old(self)@.labels,
            added == (u < old(self)@.n() && v < old(self)@.n()),
            added ==> final(self)@.edges == old(self)@.edges.insert((u as int, v as int)),
            !added ==> final(self)@.edges == old(self)@.edges,
    {
        let n = self.labels.len();
        if u >= n || v >= n {
            return false;
        }
        if self.has_edge(u, v) {
            assert(self@.edges =~= self@.edges.insert((u as int, v as int)));
            return true;
        }
        let ghost before = *self;
        assert(!arc(before.succ@, u as int, v as int));
        assert(!arc(before.pred@, v as int, u as int));
        self.succ[u].push(v);
        self.pred[v].push(u);
        proof {
            let old_succs = before.succ@;
            let new_succs = self.succ@;
            let old_preds = before.pred@;
            let new_preds = self.pred@;
            assert(new_succs[u as int]@ == old_succs[u as int]@.push(v));
            assert(new_preds[v as int]@ == old_preds[v as int]@.push(u));
            assert(forall|w: int| 0 <= w < n && w != u ==> new_succs[w] == old_succs[w]);
            assert(forall|w: int| 0 <= w < n && w != v ==> new_preds[w] == old_preds[w]);
            assert forall|a: int, b: int| #[trigger] arc(new_succs, a, b) <==> (arc(old_succs, a, b) || (a == u
                && b == v)) by {
                if arc(old_succs, a, b) {
                    let k = choose|k: int| 0 <= k < old_succs[a].len() && #[trigger] old_succs[a][k] == b;
                    assert(new_succs[a][k] == b);
                }
                if a == u && b == v {
                    assert(new_succs[a][old_succs[a].len() as int] == b);
                }
                if arc(new_succs, a, b) {
                    let k = choose|k: int| 0 <= k < new_succs[a].len() && #[trigger] new_succs[a][k] == b;
                    if a == u {
                        if k < old_succs[a].len() {
                            assert(old_succs[a][k] == b);
                        }
                    } else {
                        assert(old_succs[a][k] == b);
                    }
                }
            }
            assert forall|b: int, a: int| #[trigger] arc(new_preds, b, a) <==> (arc(old_preds, b, a) || (a == u
                && b == v)) by {
                if arc(old_preds, b, a) {
                    let k = choose|k: int| 0 <= k < old_preds[b].len() && #[trigger] old_preds[b][k] == a;
                    assert(new_preds[b][k] == a);
                }
                if a == u && b == v {
                    assert(new_preds[b][old_preds[b].len() as int] == a);
                }
                if arc(new_preds, b, a) {
                    let k = choose|k: int| 0 <= k < new_preds[b].len() && #[trigger] new_preds[b][k] == a;
                    if b == v {
                        if k < old_preds[b].len() {
                            assert(old_preds[b][k] == a);
                        }
                    } else {
                        assert(old_preds[b][k] == a);
                    }
                }
            }
            assert forall|w: int| 0 <= w < n implies (#[trigger] new_succs[w])@.no_duplicates() by {
                if w == u {
                    assert forall|i: int, j: int|
                        0 <= i < new_succs[w].len() && 0 <= j < new_succs[w].len() && i != j implies new_succs[w][i]
                        != new_succs[w][j] by {
                        if i < old_succs[w].len() && j < old_succs[w].len() {
                            assert(old_succs[w]@.no_duplicates());
                        }
                    }
                } else {
                    assert(old_succs[w]@.no_duplicates());
                }
            }
            assert forall|w: int| 0 <= w < n implies (#[trigger] new_preds[w])@.no_duplicates() by {
                if w == v {
                    assert forall|i: int, j: int|
                        0 <= i < new_preds[w].len() && 0 <= j < new_preds[w].len() && i != j implies new_preds[w][i]
                        != new_preds[w][j] by {
                        if i < old_preds[w].len() && j < old_preds[w].len() {
                            assert(old_preds[w]@.no_duplicates());
                        }
                    }
                } else {
                    assert(old_preds[w]@.no_duplicates());
                }
            }
            assert forall|w: int, k: int| 0 <= w < n && 0 <= k < new_succs[w].len() implies 0
                <= #[trigger] new_succs[w][k] < n by {
                if w == u && k == old_succs[w].len() {
                } else {
                    assert(new_succs[w][k] == old_succs[w][k]);
                }
            }
            assert forall|w: int, k: int| 0 <= w < n && 0 <= k < new_preds[w].len() implies 0
                <= #[trigger] new_preds[w][k] < n by {
                if w == v && k == old_preds[w].len() {
                } else {
                    assert(new_preds[w][k] == old_preds[w][k]);
                }
            }
            assert forall|a: int, b: int| #[trigger] arc(new_succs, a, b) <==> arc(new_preds, b, a) by {
                assert(arc(old_succs, a, b) <==> arc(old_preds, b, a));
            }
            assert(self@.edges =~= before@.edges.insert((u as int, v as int)));
        }
        true
    }

    /// The graph with the same vertices in which every arc has its opposite.
    pub fn symmetrized(&self) -> (g: Graph)
        requires
            self.wf(),
        ensures
            g.wf(),
            g@ == self@.symmetrized(),
    {
        let n = self.labels.len();
        let mut g = Graph::new(self.labels.clone());
        let mut u: usize = 0;
        while u < n
            invariant
                u <= n,
                n == self.labels.len(),
                self.wf(),
                g.wf(),
                g@.labels == self@.labels,
                forall|a: int, b: int| #[trigger]
                    g@.edges.contains((a, b)) <==> ((0 <= a < u && arc(self.succ@, a, b)) || (0
                        <= b < u && arc(self.succ@, b, a))),
            decreases n - u,
        {
            let row = &self.succ[u];
            let mut k: usize = 0;
            while k < row.len()
                invariant
                    u < n,
                    n == self.labels.len(),
                    k <= row.len(),
                    row@ == self.succ[u as int]@,
                    self.wf(),
                    g.wf(),
                    g@.labels == self@.labels,
                    forall|a: int, b: int| #[trigger]
                        g@.edges.contains((a, b)) <==> ((0 <= a < u && arc(self.succ@, a, b)) || (0
                            <= b < u && arc(self.succ@, b, a)) || (a == u && exists|j: int|
                            0 <= j < k && #[trigger] row[j] == b) || (b == u && exists|j: int|
                            0 <= j < k && #[trigger] row[j] == a)),
                decreases row.len() - k,
            {
                let v = row[k];
                let ghost g0 = g@;
                assert(self.succ@[u as int][k as int] < n);
                g.add_edge(u, v);
                g.add_edge(v, u);
                proof {
                    assert forall|a: int, b: int| #[trigger]
                        g@.edges.contains((a, b)) <==> ((0 <= a < u && arc(self.succ@, a, b)) || (0
                            <= b < u && arc(self.succ@, b, a)) || (a == u && exists|j: int|
                            0 <= j < k + 1 && #[trigger] row[j] == b) || (b == u && exists|j: int|
                            0 <= j < k + 1 && #[trigger] row[j] == a)) by {
                        assert(g@.edges.contains((a, b)) <==> (g0.edges.contains((a, b)) || (a == u
                            && b == v) || (a == v && b == u)));
                        if a == u && b == v {
                            assert(row[k as int] == b);
                        }
                        if a == v && b == u {
                            assert(row[k as int] == a);
                        }
                    }
                }
                k += 1;
            }
            proof {
                assert forall|a: int, b: int| #[trigger]
                    g@.edges.contains((a, b)) <==> ((0 <= a < u + 1 && arc(self.succ@, a, b)) || (0
                        <= b < u + 1 && arc(self.succ@, b, a))) by {
                    if a == u && arc(self.succ@, a, b) {
                        let j = choose|j: int|
                            0 <= j < self.succ@[a].len() && #[trigger] self.succ@[a][j] == b;
                        assert(row[j] == b);
                    }
                    if b == u && arc(self.succ@, b, a) {
                        let j = choose|j: int|
                            0 <= j < self.succ@[b].len() && #[trigger] self.succ@[b][j] == a;
                        assert(row[j] == a);
                    }
                }
            }
            u += 1;
        }
        assert(g@.edges =~= self@.symmetrized().edges);
        g
    }
}

} // verus!
