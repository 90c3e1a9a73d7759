//! Work items and the single search step that every engine is built on.
//!
//! A work item is a partial placement together with a cursor into the
//! candidates for the next position. Expanding an item tries the candidate
//! under the cursor: the item is split into the rest of its candidates and,
//! where the candidate fits, a child item that holds one more placement.
//! Nothing is lost and nothing is counted twice: the solutions below an item
//! are those below the items it is split into.

use vstd::prelude::*;
use vstd::relations::*;
use vstd::set_lib::*;
use crate::embedding::{is_embedding, Space};
use crate::graph::{ints, Graph};
use crate::plan::{lemma_those, side, those, Anchor, OrderingPlan};

verus! {

/// A transferable snapshot of a search: the target vertices placed so far,
/// by position, and the index of the next candidate to try.
#[derive(Debug)]
pub struct WorkItem {
    core: Vec<usize>,
    cursor: usize,
}

impl WorkItem {
    /// The target vertex placed at each position so far.
    pub closed spec fn placed(&self) -> Seq<int> {
        ints(self.core@)
    }

    /// The index, among the candidates for the next position, of the next one to try.
    pub closed spec fn cursor(&self) -> int {
        self.cursor as int
    }

    /// The item from which a whole search starts: nothing placed, no
    /// candidate tried.
    pub fn root() -> (item: WorkItem)
        ensures
            item.placed() == Seq::<int>::empty(),
            item.cursor() == 0,
    {
        let item = WorkItem { core: Vec::new(), cursor: 0 };
        assert(item.placed() =~= Seq::<int>::empty());
        item
    }

    /// Number of positions placed so far.
    pub fn depth(&self) -> (d: usize)
        ensures
            d == self.placed().len(),
    {
        self.core.len()
    }

    /// The target vertex placed at each position so far.
    pub fn placement(&self) -> (core: &Vec<usize>)
        ensures
            ints(core@) == self.placed(),
    {
        &self.core
    }

    /// The index of the next candidate to try.
    pub fn next_index(&self) -> (c: usize)
        ensures
            c == self.cursor(),
    {
        self.cursor
    }
}

/// Scratch memory of one worker: for each target vertex the position at
/// which it is placed, while a step is under way. Between steps it is blank.
pub struct Marks {
    inv: Vec<usize>,
}

impl Marks {
    /// No target vertex is marked, of `nt` target vertices.
    pub closed spec fn blank(&self, nt: int) -> bool {
        &&& self.inv.len() == nt
        &&& forall|x: int| 0 <= x < nt ==> self.inv[x] == usize::MAX
    }

    /// Exactly the vertices of the placement `a` are marked, each with its position.
    closed spec fn holds(&self, a: Seq<int>, nt: int) -> bool {
        &&& self.inv.len() == nt
        &&& forall|i: int| 0 <= i < a.len() ==> self.inv[#[trigger] a[i]] == i
        &&& forall|x: int|
            0 <= x < nt ==> (#[trigger] self.inv[x]) == usize::MAX || (self.inv[x] < a.len()
                && a[self.inv[x] as int] == x)
    }

    /// Blank scratch memory for a target of `nt` vertices.
    pub fn new(nt: usize) -> (marks: Marks)
        ensures
            marks.blank(nt as int),
    {
        let mut inv: Vec<usize> = Vec::new();
        let mut i: usize = 0;
        while i < nt
            invariant
                i <= nt,
                inv.len() == i,
                forall|x: int| 0 <= x < i ==> inv[x] == usize::MAX,
            decreases nt - i,
        {
            inv.push(usize::MAX);
            i += 1;
        }
        Marks { inv }
    }
}

/// Number of steps that a subtree of `levels` levels can take, where every
/// position has at most `width` candidates.
pub open spec fn subtree_cost(width: nat, levels: nat) -> nat
    decreases levels,
{
    if levels == 0 {
        1
    } else {
        width * (1 + subtree_cost(width, (levels - 1) as nat)) + 1
    }
}

/// Trying one candidate costs one step more than what it leaves to do.
proof fn lemma_cost_step(width: int, below: int, c: int)
    requires
        0 <= c < width,
        0 <= below,
    ensures
        (width - c) * (1 + below) + 1 == ((width - (c + 1)) * (1 + below) + 1) + below + 1,
        (width - (c + 1)) * (1 + below) >= 0,
{
    assert((width - c) * (1 + below) == (width - (c + 1)) * (1 + below) + (1 + below))
        by (nonlinear_arith);
    assert((width - (c + 1)) * (1 + below) >= 0) by (nonlinear_arith)
        requires
            0 <= c < width,
            0 <= below,
    ;
}

/// How many vertices of `list` satisfy `f`.
pub open spec fn count_where(list: Seq<usize>, f: spec_fn(int) -> bool) -> nat
    decreases list.len(),
{
    if list.len() == 0 {
        0
    } else {
        count_where(list.drop_last(), f) + if f(list.last() as int) {
            1nat
        } else {
            0nat
        }
    }
}

/// The vertices of `list` that satisfy `f`.
pub open spec fn chosen(list: Seq<usize>, f: spec_fn(int) -> bool) -> Set<int> {
    Set::new(|x: int| (exists|k: int| 0 <= k < list.len() && #[trigger] list[k] == x) && f(x))
}

/// In a list without repetitions, counting the vertices that satisfy `f`
/// gives the size of their set.
pub proof fn lemma_count_chosen(list: Seq<usize>, f: spec_fn(int) -> bool)
    requires
        list.no_duplicates(),
    ensures
        chosen(list, f).finite(),
        chosen(list, f).len() == count_where(list, f),
    decreases list.len(),
{
    if list.len() == 0 {
        assert(chosen(list, f) =~= Set::<int>::empty());
    } else {
        let shorter = list.drop_last();
        let last = list.last() as int;
        lemma_count_chosen(shorter, f);
        assert forall|y: int| chosen(shorter, f).contains(y) implies chosen(list, f).contains(
            y,
        ) && y != last by {
            let k = choose|k: int| 0 <= k < shorter.len() && #[trigger] shorter[k] == y;
            assert(list[k] == y);
            assert(list[k] != list[list.len() - 1]);
        }
        assert forall|y: int| chosen(list, f).contains(y) && y != last implies chosen(
            shorter,
            f,
        ).contains(y) by {
            let k = choose|k: int| 0 <= k < list.len() && #[trigger] list[k] == y;
            assert(shorter[k] == y);
        }
        if f(last) {
            assert(list[list.len() - 1] == last);
            assert(chosen(list, f) =~= chosen(shorter, f).insert(last));
        } else {
            assert(chosen(list, f) =~= chosen(shorter, f));
        }
    }
}

/// Counting, among the vertices of a list that satisfy `f`, those that
/// satisfy `g` is counting in the list those that satisfy both.
pub proof fn lemma_count_those(
    list: Seq<usize>,
    f: spec_fn(int) -> bool,
    g: spec_fn(int) -> bool,
    both: spec_fn(int) -> bool,
)
    requires
        forall|k: int|
            0 <= k < list.len() ==> both(#[trigger] list[k] as int) == (f(list[k] as int) && g(
                list[k] as int,
            )),
    ensures
        count_where(those(list, f), g) == count_where(list, both),
    decreases list.len(),
{
    if list.len() > 0 {
        let shorter = list.drop_last();
        assert forall|k: int| 0 <= k < shorter.len() implies both(#[trigger] shorter[k] as int) == (
        f(shorter[k] as int) && g(shorter[k] as int)) by {
            assert(shorter[k] == list[k]);
        }
        lemma_count_those(shorter, f, g, both);
        assert(list[list.len() - 1] == list.last());
        if f(list.last() as int) {
            let grown = those(shorter, f).push(list.last());
            assert(grown.drop_last() =~= those(shorter, f));
            assert(grown.last() == list.last());
        }
    }
}

/// What one step makes of a work item.
#[derive(Debug)]
pub enum Expansion {
    /// The item held a full placement: the embedding it stands for, as the
    /// target vertex of each pattern vertex.
    Solution(Vec<usize>),
    /// The item had no candidate left.
    Exhausted,
    /// The candidate did not fit: the item with its cursor moved on.
    Advance(WorkItem),
    /// The candidate fits: the item with its cursor moved on, and the child
    /// that holds the candidate.
    Branch(WorkItem, WorkItem),
}

/// The fixed part of a search: both graphs, the plan, the matching mode.
pub struct Engine<'a> {
    /// The pattern.
    pub pattern: &'a Graph,
    /// The target.
    pub target: &'a Graph,
    /// The visiting order of the pattern.
    pub plan: &'a OrderingPlan,
    /// Edge-induced matching instead of node-induced.
    pub edge_induced: bool,
    /// The full heuristic: a candidate that fits is also looked one step
    /// ahead, and dropped where the target cannot hold the neighbors that
    /// the pattern still has to place.
    pub look_ahead: bool,
}

impl<'a> Engine<'a> {
    /// Both graphs are well formed and the plan is one for the pattern.
    pub open spec fn wf(&self) -> bool {
        &&& self.pattern.wf()
        &&& self.target.wf()
        &&& self.plan.wf(self.pattern)
    }

    /// The frame of the search.
    pub open spec fn space(&self) -> Space {
        self.plan.space(self.pattern, self.target, self.edge_induced)
    }

    /// The candidates for the position that follows the placement `a`: the
    /// neighbors of the target vertex at the position's anchor, or every
    /// target vertex where the position has no anchor.
    pub open spec fn candidates(&self, a: Seq<int>) -> Seq<int> {
        match self.plan.anchors()[a.len() as int] {
            Anchor::Free => Seq::new(self.target@.n() as nat, |k: int| k),
            Anchor::Linked { at, outgoing } => ints(self.target.nbrs(a[at as int], outgoing)),
        }
    }

    /// The full placements that the item can still lead to.
    pub open spec fn covered(&self, item: &WorkItem) -> Set<Seq<int>> {
        if item.placed().len() >= self.space().np() {
            self.space().completions(item.placed())
        } else {
            self.space().cover(item.placed(), self.candidates(item.placed()), item.cursor())
        }
    }

    /// The item belongs to this search: its placement breaks no rule and its
    /// cursor is not past the end of the candidates.
    pub open spec fn valid(&self, item: &WorkItem) -> bool {
        &&& self.space().consistent(item.placed())
        &&& item.placed().len() < self.space().np() ==> 0 <= item.cursor() <= self.candidates(
            item.placed(),
        ).len()
    }

    /// Number of solutions that the item can still lead to.
    pub open spec fn yield_of(&self, item: &WorkItem) -> nat {
        self.covered(item).len()
    }

    /// A bound on the number of steps that the item can still cause.
    pub open spec fn cost(&self, item: &WorkItem) -> nat {
        let d = item.placed().len() as int;
        if d >= self.space().np() {
            1
        } else {
            ((self.target@.n() - item.cursor()) * (1 + subtree_cost(
                self.target@.n() as nat,
                (self.space().np() - d - 1) as nat,
            )) + 1) as nat
        }
    }

    /// The pattern arc between the last position of `a1` and position `j`,
    /// in the given direction, has its image in the target.
    pub open spec fn kept(&self, a1: Seq<int>, j: int, outgoing: bool) -> bool {
        let d = a1.len() - 1;
        self.pattern@.linked(self.plan.order()[d], self.plan.order()[j], outgoing)
            ==> self.target@.linked(a1[d], a1[j], outgoing)
    }

    /// The target arc between the vertices at the last position of `a1` and
    /// at position `j`, in the given direction, comes from a pattern arc.
    pub open spec fn reflected(&self, a1: Seq<int>, j: int, outgoing: bool) -> bool {
        let d = a1.len() - 1;
        self.target@.linked(a1[d], a1[j], outgoing) ==> self.pattern@.linked(
            self.plan.order()[d],
            self.plan.order()[j],
            outgoing,
        )
    }

    /// What it takes for a consistent placement to stay consistent with one
    /// more target vertex: the vertex is new, carries the right label, and
    /// the arcs between the new position and every position agree.
    pub open spec fn fits(&self, a: Seq<int>, v: int) -> bool {
        let d = a.len() as int;
        let a1 = a.push(v);
        &&& 0 <= v < self.target@.n()
        &&& forall|i: int| 0 <= i < d ==> #[trigger] a[i] != v
        &&& self.pattern@.labels[self.plan.order()[d]] == self.target@.labels[v]
        &&& forall|j: int, outgoing: bool| 0 <= j <= d ==> #[trigger] self.kept(a1, j, outgoing)
        &&& !self.edge_induced ==> forall|j: int, outgoing: bool|
            0 <= j <= d ==> #[trigger] self.reflected(a1, j, outgoing)
    }

    /// The pattern vertices with the given label that are placed after position `d`.
    pub open spec fn pending(&self, d: int, label: u32) -> spec_fn(int) -> bool {
        |w: int| self.plan.pos()[w] > d && self.pattern@.labels[w] == label
    }

    /// The target vertices with the given label that `a1` does not hold.
    pub open spec fn free(&self, a1: Seq<int>, label: u32) -> spec_fn(int) -> bool {
        |x: int| !a1.contains(x) && self.target@.labels[x] == label
    }

    /// The pattern vertices with the given label.
    pub open spec fn labelled(&self, label: u32) -> spec_fn(int) -> bool {
        |w: int| self.pattern@.labels[w] == label
    }

    /// One step ahead of placing `v` after `a`, for one label: the target
    /// vertex has at least as many unplaced neighbors with that label, in
    /// the given direction, as the pattern vertex has neighbors with that
    /// label still to place.
    pub open spec fn label_promising(&self, a: Seq<int>, v: int, outgoing: bool, label: u32) -> bool {
        let d = a.len() as int;
        let u = self.plan.order()[d];
        count_where(self.pattern.nbrs(u, outgoing), self.pending(d, label)) <= count_where(
            self.target.nbrs(v, outgoing),
            self.free(a.push(v), label),
        )
    }

    /// One step ahead of placing `v` after `a`, seen from the `k`-th
    /// neighbor of the pattern vertex in the given direction: if that
    /// neighbor is still to be placed, the look-ahead holds for its label.
    pub open spec fn side_promising(&self, a: Seq<int>, v: int, outgoing: bool, k: int) -> bool {
        let d = a.len() as int;
        let u = self.plan.order()[d];
        let w = self.pattern.nbrs(u, outgoing)[k] as int;
        self.plan.pos()[w] > d ==> self.label_promising(a, v, outgoing, self.pattern@.labels[w])
    }

    /// Placing `v` after `a` passes the look-ahead in both directions.
    pub open spec fn promising(&self, a: Seq<int>, v: int) -> bool {
        forall|outgoing: bool, k: int|
            0 <= k < self.pattern.nbrs(self.plan.order()[a.len() as int], outgoing).len()
                ==> #[trigger] self.side_promising(a, v, outgoing, k)
    }

    /// The search goes on with `v` after `a`: the placement stays consistent
    /// and, under the full heuristic, passes the look-ahead.
    pub open spec fn admits(&self, a: Seq<int>, v: int) -> bool {
        self.space().consistent(a.push(v)) && (self.look_ahead ==> self.promising(a, v))
    }

    /// The look-ahead never drops a placement that has a completion.
    pub proof fn lemma_look_ahead(&self, a: Seq<int>, v: int, e: Seq<int>, outgoing: bool, k: int)
        requires
            self.wf(),
            a.len() < self.space().np(),
            self.space().completions(a.push(v)).contains(e),
            0 <= k < self.pattern.nbrs(self.plan.order()[a.len() as int], outgoing).len(),
        ensures
            self.side_promising(a, v, outgoing, k),
    {
        let s = self.space();
        let d = a.len() as int;
        let a1 = a.push(v);
        let u = s.order[d];
        let plist = self.pattern.nbrs(u, outgoing);
        let tlist = self.target.nbrs(v, outgoing);
        let w = plist[k] as int;
        self.pattern.lemma_nbrs();
        self.target.lemma_nbrs();
        assert(e[d] == a1[d]);
        assert(0 <= e[d] < s.t.n());
        if s.pos[w] > d {
            let label = self.pattern@.labels[w];
            let f = self.pending(d, label);
            let g = self.free(a1, label);
            lemma_count_chosen(plist, f);
            lemma_count_chosen(tlist, g);
            let xs = chosen(plist, f);
            let ys = chosen(tlist, g);
            let m = |w2: int| e[s.pos[w2]];
            assert forall|w1: int, w2: int|
                xs.contains(w1) && xs.contains(w2) && #[trigger] m(w1) == #[trigger] m(
                    w2,
                ) implies w1 == w2 by {
                let k1 = choose|k1: int| 0 <= k1 < plist.len() && #[trigger] plist[k1] == w1;
                let k2 = choose|k2: int| 0 <= k2 < plist.len() && #[trigger] plist[k2] == w2;
                assert(0 <= w1 < s.np() && 0 <= w2 < s.np());
                assert(s.order[s.pos[w1]] == w1);
                assert(s.order[s.pos[w2]] == w2);
                if s.pos[w1] != s.pos[w2] {
                    assert(e[s.pos[w1]] != e[s.pos[w2]]);
                }
            }
            assert(injective_on(m, xs));
            assert forall|y: int| xs.map(m).contains(y) implies ys.contains(y) by {
                let w2 = choose|w2: int| xs.contains(w2) && y == m(w2);
                let k2 = choose|k2: int| 0 <= k2 < plist.len() && #[trigger] plist[k2] == w2;
                assert(0 <= w2 < s.np());
                assert(self.pattern@.linked(u, w2, outgoing));
                let i = s.pos[w2];
                assert(s.order[i] == w2);
                assert(s.pair_ok(e, d, i));
                assert(s.pair_ok(e, i, d));
                assert(self.target@.linked(e[d], e[i], outgoing));
                let k3 = choose|k3: int| 0 <= k3 < tlist.len() && #[trigger] tlist[k3] == e[i];
                assert(tlist[k3] == y);
                assert(s.t.labels[e[i]] == s.p.labels[s.order[i]]);
                if a1.contains(y) {
                    let j = choose|j: int| 0 <= j < a1.len() && a1[j] == y;
                    assert(e[j] == a1[j]);
                    assert(e[j] != e[i]);
                }
            }
            lemma_map_size(xs, xs.map(m), m);
            lemma_len_subset(xs.map(m), ys);
        }
    }

    /// A placement that the search does not go on with has no completion.
    pub proof fn lemma_not_admitted(&self, a: Seq<int>, v: int)
        requires
            self.wf(),
            a.len() < self.space().np(),
            !self.admits(a, v),
        ensures
            self.space().completions(a.push(v)) == Set::<Seq<int>>::empty(),
            self.space().completions(a.push(v)).len() == 0,
    {
        let s = self.space();
        let a1 = a.push(v);
        if !s.consistent(a1) {
            s.lemma_dead(a1);
        } else {
            let (outgoing, k) = choose|outgoing: bool, k: int|
                0 <= k < self.pattern.nbrs(self.plan.order()[a.len() as int], outgoing).len()
                    && !#[trigger] self.side_promising(a, v, outgoing, k);
            assert forall|e: Seq<int>| !s.completions(a1).contains(e) by {
                if s.completions(a1).contains(e) {
                    self.lemma_look_ahead(a, v, e, outgoing, k);
                }
            }
            assert(s.completions(a1) =~= Set::<Seq<int>>::empty());
        }
    }

    /// A consistent placement stays consistent with one more vertex exactly
    /// where the vertex fits.
    pub proof fn lemma_fits(&self, a: Seq<int>, v: int)
        requires
            self.wf(),
            self.space().consistent(a),
            a.len() < self.space().np(),
        ensures
            self.space().consistent(a.push(v)) <==> self.fits(a, v),
    {
        let s = self.space();
        let d = a.len() as int;
        let a1 = a.push(v);
        if s.consistent(a1) {
            assert(a1[d] == v);
            assert(0 <= a1[d] < s.t.n());
            assert forall|i: int| 0 <= i < d implies #[trigger] a[i] != v by {
                assert(a1[i] != a1[d]);
            }
            assert(s.p.labels[s.order[d]] == s.t.labels[a1[d]]);
            assert forall|j: int, outgoing: bool| 0 <= j <= d implies #[trigger] self.kept(
                a1,
                j,
                outgoing,
            ) by {
                assert(s.pair_ok(a1, d, j));
                assert(s.pair_ok(a1, j, d));
            }
            if !self.edge_induced {
                assert forall|j: int, outgoing: bool| 0 <= j <= d implies #[trigger] self.reflected(
                    a1,
                    j,
                    outgoing,
                ) by {
                    assert(s.pair_ok(a1, d, j));
                    assert(s.pair_ok(a1, j, d));
                }
            }
        }
        if self.fits(a, v) {
            assert forall|i: int| 0 <= i < a1.len() implies 0 <= #[trigger] a1[i] < s.t.n() by {
                if i < d {
                    assert(a1[i] == a[i]);
                }
            }
            assert forall|i: int, j: int|
                #![trigger a1[i], a1[j]]
                0 <= i < a1.len() && 0 <= j < a1.len() && i != j implies a1[i] != a1[j] by {
                if i < d && j < d {
                    assert(a[i] != a[j]);
                } else if i < d {
                    assert(a[i] != v);
                } else {
                    assert(a[j] != v);
                }
            }
            assert forall|i: int| 0 <= i < a1.len() implies s.p.labels[s.order[i]]
                == s.t.labels[#[trigger] a1[i]] by {
                if i < d {
                    assert(s.p.labels[s.order[i]] == s.t.labels[a[i]]);
                }
            }
            assert forall|i: int, j: int| 0 <= i < a1.len() && 0 <= j < a1.len() implies #[trigger] s.pair_ok(
                a1,
                i,
                j,
            ) by {
                if i < d && j < d {
                    assert(s.pair_ok(a, i, j));
                } else if i == d {
                    assert(self.kept(a1, j, true));
                    if !self.edge_induced {
                        assert(self.reflected(a1, j, true));
                    }
                } else {
                    assert(self.kept(a1, i, false));
                    if !self.edge_induced {
                        assert(self.reflected(a1, i, false));
                    }
                }
            }
        }
    }

    /// The candidates for the next position are distinct target vertices, and
    /// every completion of the placement takes its next vertex from them.
    pub proof fn lemma_candidates(&self, a: Seq<int>)
        requires
            self.wf(),
            self.space().consistent(a),
            a.len() < self.space().np(),
        ensures
            self.candidates(a).no_duplicates(),
            self.candidates(a).len() <= self.target@.n(),
            forall|k: int|
                0 <= k < self.candidates(a).len() ==> 0 <= #[trigger] self.candidates(a)[k]
                    < self.target@.n(),
            forall|e: Seq<int>| #[trigger]
                self.space().completions(a).contains(e) ==> exists|k: int|
                    0 <= k < self.candidates(a).len() && #[trigger] self.candidates(a)[k]
                        == e[a.len() as int],
            self.space().cover(a, self.candidates(a), 0) == self.space().completions(a),
    {
        let s = self.space();
        let d = a.len() as int;
        let cands = self.candidates(a);
        self.target.lemma_nbrs();
        match self.plan.anchors()[d] {
            Anchor::Free => {
                assert forall|e: Seq<int>| #[trigger] s.completions(a).contains(e) implies exists|
                    k: int,
                |
                    0 <= k < cands.len() && #[trigger] cands[k] == e[d] by {
                    assert(0 <= e[d] < s.t.n());
                    assert(cands[e[d]] == e[d]);
                }
            },
            Anchor::Linked { at, outgoing } => {
                let x = a[at as int];
                assert(0 <= x < s.t.n());
                let list = self.target.nbrs(x, outgoing);
                assert(list.no_duplicates());
                assert forall|i: int, j: int|
                    0 <= i < cands.len() && 0 <= j < cands.len() && i != j implies cands[i]
                    != cands[j] by {
                    assert(list[i] != list[j]);
                }
                assert forall|k: int| 0 <= k < cands.len() implies 0 <= #[trigger] cands[k]
                    < self.target@.n() by {
                    assert(0 <= list[k] < self.target@.n());
                }
                assert forall|e: Seq<int>| #[trigger] s.completions(a).contains(e) implies exists|
                    k: int,
                |
                    0 <= k < cands.len() && #[trigger] cands[k] == e[d] by {
                    assert(e[at as int] == a[at as int]);
                    assert(s.pair_ok(e, at as int, d));
                    assert(s.pair_ok(e, d, at as int));
                    assert(self.pattern@.linked(s.order[at as int], s.order[d], outgoing));
                    assert(self.target@.linked(x, e[d], outgoing));
                    let k = choose|k: int| 0 <= k < list.len() && #[trigger] list[k] == e[d];
                    assert(cands[k] == e[d]);
                }
            },
        }
        s.lemma_cover_all(a, cands);
    }

    /// The root item is valid and leads to every solution.
    pub proof fn lemma_root(&self, item: &WorkItem)
        requires
            self.wf(),
            item.placed() == Seq::<int>::empty(),
            item.cursor() == 0,
        ensures
            self.valid(item),
            self.covered(item) == self.space().completions(Seq::empty()),
    {
        if 0 < self.space().np() {
            self.lemma_candidates(Seq::empty());
        }
    }

    /// The embedding that a full placement stands for.
    fn mapping_of(&self, core: &Vec<usize>) -> (m: Vec<usize>)
        requires
            self.wf(),
            core.len() == self.space().np(),
        ensures
            ints(m@) == self.space().to_mapping(ints(core@)),
    {
        let np = self.pattern.n();
        let mut m: Vec<usize> = Vec::new();
        let mut u: usize = 0;
        while u < np
            invariant
                self.wf(),
                np == self.space().np(),
                core.len() == np,
                u <= np,
                m.len() == u,
                forall|w: int| 0 <= w < u ==> m[w] == core[self.plan.pos()[w]],
            decreases np - u,
        {
            let i = self.plan.position_of(u);
            m.push(core[i]);
            u += 1;
        }
        assert(ints(m@) =~= self.space().to_mapping(ints(core@)));
        m
    }

    /// The candidate under the cursor, if the cursor is not past the end.
    fn candidate_at(&self, core: &Vec<usize>, c: usize) -> (picked: Option<usize>)
        requires
            self.wf(),
            self.space().consistent(ints(core@)),
            core.len() < self.space().np(),
        ensures
            match picked {
                Some(v) => c < self.candidates(ints(core@)).len() && v == self.candidates(
                    ints(core@),
                )[c as int],
                None => c >= self.candidates(ints(core@)).len(),
            },
    {
        match self.plan.anchor_at(core.len()) {
            Anchor::Free => {
                if c < self.target.n() {
                    Some(c)
                } else {
                    None
                }
            },
            Anchor::Linked { at, outgoing } => {
                assert(0 <= ints(core@)[at as int] < self.target@.n());
                let list = self.target.neighbors(core[at], outgoing);
                if c < list.len() {
                    Some(list[c])
                } else {
                    None
                }
            },
        }
    }

    /// Marks the vertices of a placement.
    fn mark(&self, core: &Vec<usize>, marks: &mut Marks)
        requires
            self.space().consistent(ints(core@)),
            old(marks).blank(self.target@.n()),
        ensures
            final(marks).holds(ints(core@), self.target@.n()),
    {
        let ghost a = ints(core@);
        let ghost nt = self.target@.n();
        let mut i: usize = 0;
        while i < core.len()
            invariant
                i <= core.len(),
                a == ints(core@),
                nt == self.target@.n(),
                self.space().consistent(a),
                marks.inv.len() == nt,
                forall|j: int| 0 <= j < i ==> marks.inv[#[trigger] a[j]] == j,
                forall|x: int|
                    0 <= x < nt ==> (#[trigger] marks.inv[x]) == usize::MAX || (marks.inv[x] < i
                        && a[marks.inv[x] as int] == x),
            decreases core.len() - i,
        {
            assert(0 <= a[i as int] < nt);
            assert(forall|j: int| 0 <= j < i ==> a[j] != a[i as int]);
            marks.inv[core[i]] = i;
            i += 1;
        }
    }

    /// Takes the marks of a placement away again.
    fn unmark(&self, core: &Vec<usize>, marks: &mut Marks)
        requires
            self.space().consistent(ints(core@)),
            old(marks).holds(ints(core@), self.target@.n()),
        ensures
            final(marks).blank(self.target@.n()),
    {
        let ghost a = ints(core@);
        let ghost nt = self.target@.n();
        let mut i: usize = 0;
        while i < core.len()
            invariant
                i <= core.len(),
                a == ints(core@),
                nt == self.target@.n(),
                self.space().consistent(a),
                marks.inv.len() == nt,
                forall|x: int|
                    0 <= x < nt ==> (#[trigger] marks.inv[x]) == usize::MAX || (i <= marks.inv[x]
                        < a.len() && a[marks.inv[x] as int] == x),
            decreases core.len() - i,
        {
            assert(0 <= a[i as int] < nt);
            marks.inv[core[i]] = usize::MAX;
            i += 1;
        }
    }

    /// Whether every pattern arc between the new position and the placed
    /// ones, in the given direction, has its image in the target.
    fn pattern_arcs_kept(&self, core: &Vec<usize>, v: usize, outgoing: bool) -> (ok: bool)
        requires
            self.wf(),
            self.space().consistent(ints(core@)),
            core.len() < self.space().np(),
            v < self.target@.n(),
        ensures
            ok == (forall|j: int|
                0 <= j <= core.len() ==> #[trigger] self.kept(
                    ints(core@).push(v as int),
                    j,
                    outgoing,
                )),
    {
        let d = core.len();
        let u = self.plan.vertex_at(d);
        let ghost a1 = ints(core@).push(v as int);
        let ghost nbrs = self.pattern.nbrs(u as int, outgoing);
        let ghost f = side(self.plan.pos(), d as int, true);
        let list = self.plan.neighbors_at(d, outgoing, true);
        let mut k: usize = 0;
        while k < list.len()
            invariant
                self.wf(),
                self.space().consistent(ints(core@)),
                d == core.len(),
                d < self.space().np(),
                v < self.target@.n(),
                u == self.plan.order()[d as int],
                0 <= u < self.pattern@.n(),
                nbrs == self.pattern.nbrs(u as int, outgoing),
                f == side(self.plan.pos(), d as int, true),
                list@ == those(nbrs, f),
                a1 == ints(core@).push(v as int),
                k <= list.len(),
                forall|i: int|
                    0 <= i < k ==> self.target@.linked(
                        v as int,
                        a1[self.plan.pos()[#[trigger] list[i] as int]],
                        outgoing,
                    ),
            decreases list.len() - k,
        {
            let w = list[k];
            proof {
                self.pattern.lemma_nbrs();
                lemma_those(nbrs, f);
                assert(f(those(nbrs, f)[k as int] as int));
                assert(nbrs.contains(those(nbrs, f)[k as int]));
                let i = choose|i: int| 0 <= i < nbrs.len() && nbrs[i] == w;
                assert(0 <= nbrs[i] < self.pattern@.n());
                assert(self.pattern@.linked(u as int, nbrs[i] as int, outgoing));
            }
            let j = self.plan.position_of(w);
            assert(self.plan.order()[j as int] == w);
            let x = if j == d {
                v
            } else {
                assert(0 <= ints(core@)[j as int] < self.target@.n());
                core[j]
            };
            assert(x == a1[j as int]);
            if !self.target.has_arc(v, x, outgoing) {
                assert(!self.kept(a1, j as int, outgoing));
                return false;
            }
            k += 1;
        }
        proof {
            self.pattern.lemma_nbrs();
            lemma_those(nbrs, f);
            assert forall|j: int| 0 <= j <= d implies #[trigger] self.kept(a1, j, outgoing) by {
                let w = self.plan.order()[j];
                if self.pattern@.linked(u as int, w, outgoing) {
                    let i0 = choose|i0: int| 0 <= i0 < nbrs.len() && #[trigger] nbrs[i0] == w;
                    assert(f(nbrs[i0] as int));
                    assert(those(nbrs, f).contains(nbrs[i0]));
                    let i = choose|i: int| 0 <= i < list@.len() && list@[i] == nbrs[i0];
                    assert(self.plan.pos()[list[i] as int] == j);
                }
            }
        }
        true
    }

    /// Whether every target arc between the new vertex and the placed ones,
    /// in the given direction, comes from a pattern arc.
    fn target_arcs_reflected(&self, core: &Vec<usize>, marks: &Marks, v: usize, outgoing: bool) -> (ok:
        bool)
        requires
            self.wf(),
            self.space().consistent(ints(core@)),
            core.len() < self.space().np(),
            v < self.target@.n(),
            marks.holds(ints(core@), self.target@.n()),
            marks.inv[v as int] == usize::MAX,
        ensures
            ok == (forall|j: int|
                0 <= j <= core.len() ==> #[trigger] self.reflected(
                    ints(core@).push(v as int),
                    j,
                    outgoing,
                )),
    {
        let d = core.len();
        let u = self.plan.vertex_at(d);
        let ghost a = ints(core@);
        let ghost a1 = ints(core@).push(v as int);
        proof {
            self.pattern.lemma_nbrs();
            self.target.lemma_nbrs();
        }
        let list = self.target.neighbors(v, outgoing);
        let mut k: usize = 0;
        while k < list.len()
            invariant
                self.wf(),
                self.space().consistent(ints(core@)),
                d == core.len(),
                d < self.space().np(),
                v < self.target@.n(),
                marks.holds(ints(core@), self.target@.n()),
                marks.inv[v as int] == usize::MAX,
                u == self.plan.order()[d as int],
                list@ == self.target.nbrs(v as int, outgoing),
                a == ints(core@),
                a1 == a.push(v as int),
                k <= list.len(),
                forall|i: int, j: int|
                    0 <= i < k && 0 <= j <= d && a1[j] == #[trigger] list[i]
                        ==> #[trigger] self.pattern@.linked(
                        u as int,
                        self.plan.order()[j],
                        outgoing,
                    ),
            decreases list.len() - k,
        {
            let x = list[k];
            proof {
                self.pattern.lemma_nbrs();
                self.target.lemma_nbrs();
            }
            assert(0 <= self.target.nbrs(v as int, outgoing)[k as int] < self.target@.n());
            assert(self.target@.linked(v as int, x as int, outgoing));
            let j = if x == v {
                d
            } else {
                marks.inv[x]
            };
            if j != usize::MAX {
                assert(j <= d);
                assert(a1[j as int] == x);
                let w = self.plan.vertex_at(j);
                if !self.pattern.has_arc(u, w, outgoing) {
                    assert(!self.reflected(a1, j as int, outgoing));
                    return false;
                }
                assert forall|jj: int| 0 <= jj <= d && a1[jj] == x implies jj == j by {
                    if jj < d && j < d {
                        assert(a[jj] == a[j as int]);
                    }
                }
            } else {
                assert forall|jj: int| 0 <= jj <= d implies a1[jj] != x by {
                    if jj < d {
                        assert(marks.inv[a[jj]] == jj);
                    }
                }
            }
            k += 1;
        }
        proof {
            assert forall|j: int| 0 <= j <= d implies #[trigger] self.reflected(a1, j, outgoing) by {
                if self.target@.linked(v as int, a1[j], outgoing) {
                    let i = choose|i: int|
                        0 <= i < self.target.nbrs(v as int, outgoing).len()
                            && #[trigger] self.target.nbrs(v as int, outgoing)[i] == a1[j];
                    assert(list[i] == a1[j]);
                }
            }
        }
        true
    }

    /// Whether the placement stays consistent with `v` at the next position.
    fn consistent_with(&self, core: &Vec<usize>, marks: &Marks, v: usize) -> (ok: bool)
        requires
            self.wf(),
            self.space().consistent(ints(core@)),
            core.len() < self.space().np(),
            v < self.target@.n(),
            marks.holds(ints(core@), self.target@.n()),
        ensures
            ok == self.space().consistent(ints(core@).push(v as int)),
    {
        let d = core.len();
        let u = self.plan.vertex_at(d);
        let ghost a = ints(core@);
        proof {
            self.lemma_fits(a, v as int);
        }
        if marks.inv[v] != usize::MAX {
            assert(a[marks.inv[v as int] as int] == v);
            return false;
        }
        assert forall|i: int| 0 <= i < d implies #[trigger] a[i] != v by {
            assert(marks.inv[a[i]] == i);
        }
        if self.pattern.label(u) != self.target.label(v) {
            return false;
        }
        if !self.pattern_arcs_kept(core, v, true) {
            return false;
        }
        if !self.pattern_arcs_kept(core, v, false) {
            return false;
        }
        if !self.edge_induced {
            if !self.target_arcs_reflected(core, marks, v, true) {
                return false;
            }
            if !self.target_arcs_reflected(core, marks, v, false) {
                return false;
            }
        }
        true
    }

    /// How many vertices of `list` carry `label`.
    fn count_labelled(&self, list: &Vec<usize>, label: u32) -> (c: usize)
        requires
            self.wf(),
            forall|k: int| 0 <= k < list.len() ==> #[trigger] list[k] < self.pattern@.n(),
        ensures
            c == count_where(list@, self.labelled(label)),
            c <= list.len(),
    {
        let ghost g = self.labelled(label);
        let mut c: usize = 0;
        let mut k: usize = 0;
        while k < list.len()
            invariant
                self.wf(),
                g == self.labelled(label),
                forall|i: int| 0 <= i < list.len() ==> #[trigger] list[i] < self.pattern@.n(),
                k <= list.len(),
                c <= k,
                c == count_where(list@.subrange(0, k as int), g),
            decreases list.len() - k,
        {
            proof {
                assert(list@.subrange(0, k + 1).drop_last() =~= list@.subrange(0, k as int));
                assert(list@.subrange(0, k + 1).last() == list[k as int]);
                assert(list[k as int] < self.pattern@.n());
            }
            if self.pattern.label(list[k]) == label {
                c += 1;
            }
            k += 1;
        }
        assert(list@.subrange(0, list.len() as int) =~= list@);
        c
    }

    /// How many vertices of `list` carry `label` and are neither `v` nor placed.
    fn count_free(&self, list: &Vec<usize>, core: &Vec<usize>, marks: &Marks, v: usize, label: u32) -> (c:
        usize)
        requires
            self.wf(),
            marks.holds(ints(core@), self.target@.n()),
            v < self.target@.n(),
            core.len() < usize::MAX,
            forall|k: int| 0 <= k < list.len() ==> #[trigger] list[k] < self.target@.n(),
        ensures
            c == count_where(list@, self.free(ints(core@).push(v as int), label)),
            c <= list.len(),
    {
        let ghost a = ints(core@);
        let ghost a1 = a.push(v as int);
        let ghost g = self.free(a1, label);
        let mut c: usize = 0;
        let mut k: usize = 0;
        while k < list.len()
            invariant
                self.wf(),
                a == ints(core@),
                a1 == a.push(v as int),
                g == self.free(a1, label),
                marks.holds(a, self.target@.n()),
                v < self.target@.n(),
                core.len() < usize::MAX,
                forall|i: int| 0 <= i < list.len() ==> #[trigger] list[i] < self.target@.n(),
                k <= list.len(),
                c <= k,
                c == count_where(list@.subrange(0, k as int), g),
            decreases list.len() - k,
        {
            proof {
                assert(list@.subrange(0, k + 1).drop_last() =~= list@.subrange(0, k as int));
                assert(list@.subrange(0, k + 1).last() == list[k as int]);
                assert(list[k as int] < self.target@.n());
            }
            let x = list[k];
            proof {
                if a1.contains(x as int) {
                    let j = choose|j: int| 0 <= j < a1.len() && a1[j] == x;
                    if j < a.len() {
                        assert(marks.inv[a[j]] == j);
                    }
                }
                if x != v && marks.inv[x as int] != usize::MAX {
                    assert(a1[marks.inv[x as int] as int] == x);
                }
                if x == v {
                    assert(a1[a.len() as int] == x);
                }
            }
            if x != v && marks.inv[x] == usize::MAX && self.target.label(x) == label {
                c += 1;
            }
            k += 1;
        }
        assert(list@.subrange(0, list.len() as int) =~= list@);
        c
    }

    /// The look-ahead in one direction.
    fn promising_side(&self, core: &Vec<usize>, marks: &Marks, v: usize, outgoing: bool) -> (ok: bool)
        requires
            self.wf(),
            self.space().consistent(ints(core@)),
            core.len() < self.space().np(),
            v < self.target@.n(),
            marks.holds(ints(core@), self.target@.n()),
        ensures
            ok == (forall|k: int|
                0 <= k < self.pattern.nbrs(self.plan.order()[core.len() as int], outgoing).len()
                    ==> #[trigger] self.side_promising(ints(core@), v as int, outgoing, k)),
    {
        let d = core.len();
        let u = self.plan.vertex_at(d);
        let ghost a = ints(core@);
        let ghost nbrs = self.pattern.nbrs(u as int, outgoing);
        let ghost f = side(self.plan.pos(), d as int, false);
        let later = self.plan.neighbors_at(d, outgoing, false);
        let tlist = self.target.neighbors(v, outgoing);
        let mut k: usize = 0;
        while k < later.len()
            invariant
                self.wf(),
                self.space().consistent(ints(core@)),
                d == core.len(),
                d < self.space().np(),
                v < self.target@.n(),
                marks.holds(ints(core@), self.target@.n()),
                a == ints(core@),
                u == self.plan.order()[d as int],
                0 <= u < self.pattern@.n(),
                nbrs == self.pattern.nbrs(u as int, outgoing),
                f == side(self.plan.pos(), d as int, false),
                later@ == those(nbrs, f),
                tlist@ == self.target.nbrs(v as int, outgoing),
                k <= later.len(),
                forall|i: int|
                    0 <= i < k ==> self.label_promising(
                        a,
                        v as int,
                        outgoing,
                        self.pattern@.labels[#[trigger] later[i] as int],
                    ),
            decreases later.len() - k,
        {
            proof {
                self.pattern.lemma_nbrs();
                self.target.lemma_nbrs();
                lemma_those(nbrs, f);
                assert forall|i: int| 0 <= i < later.len() implies #[trigger] later[i]
                    < self.pattern@.n() by {
                    assert(nbrs.contains(those(nbrs, f)[i]));
                    let i0 = choose|i0: int| 0 <= i0 < nbrs.len() && nbrs[i0] == later[i];
                    assert(0 <= nbrs[i0] < self.pattern@.n());
                }
                assert forall|i: int| 0 <= i < tlist.len() implies #[trigger] tlist[i]
                    < self.target@.n() by {
                    assert(0 <= self.target.nbrs(v as int, outgoing)[i] < self.target@.n());
                }
            }
            let w = later[k];
            let label = self.pattern.label(w);
            let need = self.count_labelled(later, label);
            let have = self.count_free(tlist, core, marks, v, label);
            proof {
                lemma_count_those(nbrs, f, self.labelled(label), self.pending(d as int, label));
            }
            if need > have {
                proof {
                    assert(f(those(nbrs, f)[k as int] as int));
                    assert(nbrs.contains(those(nbrs, f)[k as int]));
                    let i0 = choose|i0: int| 0 <= i0 < nbrs.len() && nbrs[i0] == w;
                    assert(!self.side_promising(a, v as int, outgoing, i0));
                }
                return false;
            }
            k += 1;
        }
        proof {
            lemma_those(nbrs, f);
            assert forall|k0: int| 0 <= k0 < nbrs.len() implies #[trigger] self.side_promising(
                a,
                v as int,
                outgoing,
                k0,
            ) by {
                if self.plan.pos()[nbrs[k0] as int] > d {
                    assert(f(nbrs[k0] as int));
                    assert(those(nbrs, f).contains(nbrs[k0]));
                    let i = choose|i: int| 0 <= i < later@.len() && later@[i] == nbrs[k0];
                    assert(self.label_promising(
                        a,
                        v as int,
                        outgoing,
                        self.pattern@.labels[later[i] as int],
                    ));
                }
            }
        }
        true
    }

    /// Whether placing `v` next passes the look-ahead.
    fn promising_next(&self, core: &Vec<usize>, marks: &Marks, v: usize) -> (ok: bool)
        requires
            self.wf(),
            self.space().consistent(ints(core@)),
            core.len() < self.space().np(),
            v < self.target@.n(),
            marks.holds(ints(core@), self.target@.n()),
        ensures
            ok == self.promising(ints(core@), v as int),
    {
        if !self.promising_side(core, marks, v, true) {
            return false;
        }
        if !self.promising_side(core, marks, v, false) {
            return false;
        }
        proof {
            let a = ints(core@);
            assert forall|outgoing: bool, k: int|
                0 <= k < self.pattern.nbrs(
                    self.plan.order()[a.len() as int],
                    outgoing,
                ).len() implies #[trigger] self.side_promising(a, v as int, outgoing, k) by {
                if outgoing {
                } else {
                }
            }
        }
        true
    }

    /// One step of the search on one work item.
    ///
    /// A full placement is a solution. Otherwise the candidate under the
    /// cursor is tried: the item comes back with its cursor moved on, together
    /// with a child where the candidate fits. The solutions below the item are
    /// exactly those below what comes back, which costs fewer steps.
    pub fn expand(&self, item: WorkItem, marks: &mut Marks) -> (out: Expansion)
        requires
            self.wf(),
            self.valid(&item),
            old(marks).blank(self.target@.n()),
        ensures
            final(marks).blank(self.target@.n()),
            self.cost(&item) >= 1,
            match out {
                Expansion::Solution(m) => {
                    &&& item.placed().len() == self.space().np()
                    &&& ints(m@) == self.space().to_mapping(item.placed())
                    &&& is_embedding(self.pattern@, self.target@, ints(m@), self.edge_induced)
                    &&& self.covered(&item) == set![item.placed()]
                    &&& self.yield_of(&item) == 1
                },
                Expansion::Exhausted => {
                    &&& item.placed().len() < self.space().np()
                    &&& item.cursor() >= self.candidates(item.placed()).len()
                    &&& self.covered(&item) == Set::<Seq<int>>::empty()
                    &&& self.yield_of(&item) == 0
                },
                Expansion::Advance(rest) => {
                    &&& item.placed().len() < self.space().np()
                    &&& item.cursor() < self.candidates(item.placed()).len()
                    &&& !self.admits(item.placed(), self.candidates(item.placed())[item.cursor()])
                    &&& rest.placed() == item.placed()
                    &&& rest.cursor() == item.cursor() + 1
                    &&& self.valid(&rest)
                    &&& self.covered(&item) == self.covered(&rest)
                    &&& self.yield_of(&item) == self.yield_of(&rest)
                    &&& self.cost(&rest) < self.cost(&item)
                },
                Expansion::Branch(rest, child) => {
                    &&& item.placed().len() < self.space().np()
                    &&& item.cursor() < self.candidates(item.placed()).len()
                    &&& self.admits(item.placed(), self.candidates(item.placed())[item.cursor()])
                    &&& rest.placed() == item.placed()
                    &&& rest.cursor() == item.cursor() + 1
                    &&& child.placed() == item.placed().push(
                        self.candidates(item.placed())[item.cursor()],
                    )
                    &&& child.cursor() == 0
                    &&& self.valid(&rest)
                    &&& self.valid(&child)
                    &&& self.covered(&item) == self.covered(&rest).union(self.covered(&child))
                    &&& self.yield_of(&item) == self.yield_of(&rest) + self.yield_of(&child)
                    &&& self.cost(&rest) + self.cost(&child) < self.cost(&item)
                },
            },
    {
        let ghost s = self.space();
        let ghost a = item.placed();
        let ghost c = item.cursor();
        let WorkItem { core, cursor } = item;
        let d = core.len();
        let np = self.pattern.n();
        proof {
            self.plan.lemma_space(self.pattern, self.target, self.edge_induced);
        }
        if d >= np {
            let m = self.mapping_of(&core);
            proof {
                s.lemma_full(a);
                s.lemma_mapping_of_placement(a);
            }
            return Expansion::Solution(m);
        }
        proof {
            self.lemma_candidates(a);
        }
        let ghost cands = self.candidates(a);
        match self.candidate_at(&core, cursor) {
            None => {
                proof {
                    s.lemma_cover_end(a, cands, c);
                    let below = subtree_cost(self.target@.n() as nat, (s.np() - d - 1) as nat) as int;
                    assert((self.target@.n() - c) * (1 + below) >= 0) by (nonlinear_arith)
                        requires
                            self.target@.n() - c >= 0,
                            below >= 0,
                    ;
                }
                Expansion::Exhausted
            },
            Some(v) => {
                self.mark(&core, marks);
                let ok = self.consistent_with(&core, marks, v) && (!self.look_ahead
                    || self.promising_next(&core, marks, v));
                self.unmark(&core, marks);
                let ghost a1 = a.push(v as int);
                let ghost below = subtree_cost(
                    self.target@.n() as nat,
                    (s.np() - d - 1) as nat,
                ) as int;
                proof {
                    s.lemma_cover_split(a, cands, c);
                    lemma_cost_step(self.target@.n(), below, c);
                }
                if ok {
                    let mut child_core = core.clone();
                    assert(child_core@ =~= core@);
                    child_core.push(v);
                    let rest = WorkItem { core, cursor: cursor + 1 };
                    let child = WorkItem { core: child_core, cursor: 0 };
                    proof {
                        assert(child.placed() =~= a1);
                        if a1.len() < s.np() {
                            self.lemma_candidates(a1);
                        }
                        assert(self.covered(&child) == s.completions(a1));
                        assert(self.cost(&child) == below);
                    }
                    Expansion::Branch(rest, child)
                } else {
                    let rest = WorkItem { core, cursor: cursor + 1 };
                    proof {
                        self.lemma_not_admitted(a, v as int);
                        assert(self.covered(&rest).union(Set::<Seq<int>>::empty())
                            =~= self.covered(&rest));
                    }
                    Expansion::Advance(rest)
                }
            },
        }
    }
}

} // verus!
