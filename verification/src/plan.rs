//! The ordering planner: the order in which a search places the pattern's
//! vertices, computed once per pattern and read by every engine and worker.

use vstd::prelude::*;
use vstd::set_lib::*;
use crate::embedding::{lemma_distinct_words_are_short, Space};
use crate::graph::{ints, Graph};

verus! {

/// Where the candidates for a position come from.
#[derive(Debug, Clone, Copy)]
pub enum Anchor {
    /// No earlier position holds a neighbor: every target vertex is a candidate.
    Free,
    /// The pattern vertex at the earlier position `at` is a neighbor: the
    /// candidates are the successors (`outgoing`) or the predecessors of the
    /// target vertex placed there.
    Linked {
        /// The earlier position.
        at: usize,
        /// Whether the pattern arc leaves the vertex at `at`.
        outgoing: bool,
    },
}

/// How many vertices of `list` are placed before position `k`.
pub open spec fn count_placed(list: Seq<usize>, pos: Seq<int>, k: int) -> nat
    decreases list.len(),
{
    if list.len() == 0 {
        0
    } else {
        count_placed(list.drop_last(), pos, k) + if pos[list.last() as int] < k {
            1nat
        } else {
            0nat
        }
    }
}

/// Number of arcs between `v` and the vertices placed before position `k`.
pub open spec fn links_to_placed(p: &Graph, pos: Seq<int>, k: int, v: int) -> nat {
    count_placed(p.out_list(v), pos, k) + count_placed(p.in_list(v), pos, k)
}

/// Number of arcs that leave or enter `v`.
pub open spec fn degree(p: &Graph, v: int) -> nat {
    p.out_list(v).len() + p.in_list(v).len()
}

/// Whether, at position `k`, vertex `u` goes before vertex `v`: more arcs to
/// the placed vertices, then the higher degree, then the smaller id.
pub open spec fn goes_before(p: &Graph, pos: Seq<int>, k: int, u: int, v: int) -> bool {
    let lu = links_to_placed(p, pos, k, u);
    let lv = links_to_placed(p, pos, k, v);
    lu > lv || (lu == lv && (degree(p, u) > degree(p, v) || (degree(p, u) == degree(p, v) && u
        < v)))
}

/// Two rankings that place the same vertices before `k` count alike.
pub proof fn lemma_count_placed_same(list: Seq<usize>, pos1: Seq<int>, pos2: Seq<int>, k: int)
    requires
        forall|j: int| 0 <= j < list.len() ==> (pos1[#[trigger] list[j] as int] < k <==> pos2[list[j] as int] < k),
    ensures
        count_placed(list, pos1, k) == count_placed(list, pos2, k),
    decreases list.len(),
{
    if list.len() > 0 {
        let shorter = list.drop_last();
        assert forall|j: int| 0 <= j < shorter.len() implies (pos1[#[trigger] shorter[j] as int] < k
            <==> pos2[shorter[j] as int] < k) by {
            assert(shorter[j] == list[j]);
        }
        lemma_count_placed_same(shorter, pos1, pos2, k);
        assert(list.last() == list[list.len() - 1]);
    }
}

/// The vertices of `list` that satisfy `f`, in the order of the list.
pub open spec fn those(list: Seq<usize>, f: spec_fn(int) -> bool) -> Seq<usize>
    decreases list.len(),
{
    if list.len() == 0 {
        Seq::empty()
    } else if f(list.last() as int) {
        those(list.drop_last(), f).push(list.last())
    } else {
        those(list.drop_last(), f)
    }
}

/// The vertices that are placed at position `d` or before it (`placed`),
/// or after it.
pub open spec fn side(pos: Seq<int>, d: int, placed: bool) -> spec_fn(int) -> bool {
    |w: int| (pos[w] <= d) == placed
}

/// What the chosen vertices of a list are: vertices of the list that
/// satisfy `f`, and all of those.
pub proof fn lemma_those(list: Seq<usize>, f: spec_fn(int) -> bool)
    ensures
        those(list, f).len() <= list.len(),
        forall|k: int|
            0 <= k < those(list, f).len() ==> f(#[trigger] those(list, f)[k] as int)
                && list.contains(those(list, f)[k]),
        forall|k: int|
            0 <= k < list.len() && f(list[k] as int) ==> those(list, f).contains(#[trigger] list[k]),
    decreases list.len(),
{
    if list.len() > 0 {
        let shorter = list.drop_last();
        let last = list.last();
        lemma_those(shorter, f);
        let out = those(list, f);
        let head = those(shorter, f);
        assert(list[list.len() - 1] == last);
        assert forall|k: int| 0 <= k < out.len() implies f(#[trigger] out[k] as int)
            && list.contains(out[k]) by {
            if k < head.len() {
                assert(out[k] == head[k]);
                assert(shorter.contains(head[k]));
                let i = choose|i: int| 0 <= i < shorter.len() && shorter[i] == head[k];
                assert(list[i] == head[k]);
            } else {
                assert(out[k] == last);
            }
        }
        assert forall|k: int| 0 <= k < list.len() && f(list[k] as int) implies out.contains(
            #[trigger] list[k],
        ) by {
            if k < shorter.len() {
                assert(shorter[k] == list[k]);
                assert(head.contains(shorter[k]));
                let i = choose|i: int| 0 <= i < head.len() && head[i] == shorter[k];
                assert(out[i] == list[k]);
            } else {
                assert(out[out.len() - 1] == list[k]);
            }
        }
    }
}

/// The vertices of `list` on one side of position `d`.
fn select(list: &Vec<usize>, pos: &Vec<usize>, d: usize, placed: bool) -> (out: Vec<usize>)
    requires
        forall|k: int| 0 <= k < list.len() ==> #[trigger] list[k] < pos.len(),
    ensures
        out@ == those(list@, side(ints(pos@), d as int, placed)),
{
    let ghost f = side(ints(pos@), d as int, placed);
    let mut out: Vec<usize> = Vec::new();
    let mut k: usize = 0;
    while k < list.len()
        invariant
            k <= list.len(),
            f == side(ints(pos@), d as int, placed),
            forall|i: int| 0 <= i < list.len() ==> #[trigger] list[i] < pos.len(),
            out@ == those(list@.subrange(0, k as int), f),
        decreases list.len() - k,
    {
        proof {
            assert(list@.subrange(0, k + 1).drop_last() =~= list@.subrange(0, k as int));
            assert(list@.subrange(0, k + 1).last() == list[k as int]);
            assert(list[k as int] < pos.len());
        }
        let w = list[k];
        if (pos[w] <= d) == placed {
            out.push(w);
        }
        k += 1;
    }
    assert(list@.subrange(0, list.len() as int) =~= list@);
    out
}

/// Whether `u` and `v` are joined by an arc, in either direction.
pub open spec fn adjacent(p: &Graph, u: int, v: int) -> bool {
    p@.has_edge(u, v) || p@.has_edge(v, u)
}

/// Whether `a` anchors position `d` at the first earlier position that holds
/// a neighbor of the vertex at `d`, along the arc that leaves that neighbor
/// if there is one.
pub open spec fn anchor_is_first(p: &Graph, order: Seq<int>, d: int, a: Anchor) -> bool {
    match a {
        Anchor::Free => forall|j: int| 0 <= j < d ==> !adjacent(p, #[trigger] order[j], order[d]),
        Anchor::Linked { at, outgoing } => {
            &&& at < d
            &&& adjacent(p, order[at as int], order[d])
            &&& outgoing == p@.has_edge(order[at as int], order[d])
            &&& forall|j: int| 0 <= j < at ==> !adjacent(p, #[trigger] order[j], order[d])
        },
    }
}

/// A sequence of `n` distinct vertices below `n` holds every vertex below `n`.
pub proof fn lemma_distinct_holds_all(order: Seq<int>, n: int, v: int)
    requires
        order.len() == n,
        forall|i: int| 0 <= i < n ==> 0 <= #[trigger] order[i] < n,
        forall|i: int, j: int|
            #![trigger order[i], order[j]]
            0 <= i < n && 0 <= j < n && i != j ==> order[i] != order[j],
        0 <= v < n,
    ensures
        exists|i: int| 0 <= i < n && order[i] == v,
{
    assert(order.no_duplicates());
    order.unique_seq_to_set();
    lemma_int_range(0, n);
    assert forall|x: int| order.to_set().contains(x) implies set_int_range(0, n).contains(x) by {
        let k = choose|k: int| 0 <= k < order.len() && order[k] == x;
        assert(0 <= order[k] < n);
    }
    lemma_subset_equality(order.to_set(), set_int_range(0, n));
    assert(set_int_range(0, n).contains(v));
    assert(order.to_set().contains(v));
}

/// How many vertices of `list` are placed before position `k`.
fn count_linked(list: &Vec<usize>, pos: &Vec<usize>, k: usize) -> (c: usize)
    requires
        forall|j: int| 0 <= j < list.len() ==> #[trigger] list[j] < pos.len(),
    ensures
        c == count_placed(list@, ints(pos@), k as int),
        c <= list.len(),
{
    let mut c: usize = 0;
    let mut j: usize = 0;
    while j < list.len()
        invariant
            j <= list.len(),
            c <= j,
            c == count_placed(list@.subrange(0, j as int), ints(pos@), k as int),
            forall|i: int| 0 <= i < list.len() ==> #[trigger] list[i] < pos.len(),
        decreases list.len() - j,
    {
        proof {
            assert(list@.subrange(0, j + 1).drop_last() =~= list@.subrange(0, j as int));
            assert(list@.subrange(0, j + 1).last() == list[j as int]);
            assert(list[j as int] < pos.len());
        }
        if pos[list[j]] < k {
            c += 1;
        }
        j += 1;
    }
    assert(list@.subrange(0, list.len() as int) =~= list@);
    c
}

/// Of the vertices that `pos` leaves unplaced, the one that goes before all
/// the others at position `k`.
fn pick(p: &Graph, pos: &Vec<usize>, k: usize) -> (best: usize)
    requires
        p.wf(),
        pos.len() == p@.n(),
        exists|v: int| 0 <= v < pos.len() && pos[v] == usize::MAX,
    ensures
        best < pos.len(),
        pos[best as int] == usize::MAX,
        forall|v: int|
            0 <= v < pos.len() && pos[v] == usize::MAX && v != best ==> #[trigger] goes_before(
                p,
                ints(pos@),
                k as int,
                best as int,
                v,
            ),
{
    let n = p.n();
    let mut best: usize = 0;
    let mut found = false;
    let mut best_links: u128 = 0;
    let mut best_degree: u128 = 0;
    let mut v: usize = 0;
    proof {
        p.lemma_wf();
    }
    while v < n
        invariant
            p.wf(),
            n == p@.n(),
            pos.len() == n,
            v <= n,
            !found ==> forall|w: int| 0 <= w < v ==> pos[w] != usize::MAX,
            found ==> best < v && pos[best as int] == usize::MAX && best_links == links_to_placed(
                p,
                ints(pos@),
                k as int,
                best as int,
            ) && best_degree == degree(p, best as int),
            found ==> forall|w: int|
                0 <= w < v && pos[w] == usize::MAX && w != best ==> #[trigger] goes_before(
                    p,
                    ints(pos@),
                    k as int,
                    best as int,
                    w,
                ),
        decreases n - v,
    {
        if pos[v] == usize::MAX {
            proof {
                p.lemma_wf();
            }
            let outs = p.successors(v);
            let ins = p.predecessors(v);
            let links: u128 = count_linked(outs, pos, k) as u128 + count_linked(ins, pos, k) as u128;
            let deg: u128 = outs.len() as u128 + ins.len() as u128;
            proof {
                assert(links == links_to_placed(p, ints(pos@), k as int, v as int));
                assert(deg == degree(p, v as int));
            }
            let ghost old_best = best;
            let ghost old_found = found;
            if !found || links > best_links || (links == best_links && deg > best_degree) {
                proof {
                    if old_found {
                        assert forall|w: int|
                            0 <= w < v + 1 && pos[w] == usize::MAX && w != v implies #[trigger] goes_before(
                            p,
                            ints(pos@),
                            k as int,
                            v as int,
                            w,
                        ) by {
                            if w != old_best {
                                assert(goes_before(p, ints(pos@), k as int, old_best as int, w));
                            }
                        }
                    }
                }
                best = v;
                best_links = links;
                best_degree = deg;
                found = true;
            } else {
                proof {
                    assert(goes_before(p, ints(pos@), k as int, best as int, v as int));
                }
            }
        }
        v += 1;
    }
    best
}

/// The anchor of the vertex `u` that is about to be placed after `order`.
fn find_anchor(p: &Graph, order: &Vec<usize>, u: usize) -> (a: Anchor)
    requires
        p.wf(),
        u < p@.n(),
        forall|i: int| 0 <= i < order.len() ==> #[trigger] order[i] < p@.n(),
    ensures
        anchor_is_first(p, ints(order@).push(u as int), order.len() as int, a),
{
    let ghost full = ints(order@).push(u as int);
    let mut j: usize = 0;
    while j < order.len()
        invariant
            p.wf(),
            j <= order.len(),
            full == ints(order@).push(u as int),
            forall|i: int| 0 <= i < j ==> !adjacent(p, #[trigger] full[i], u as int),
        decreases order.len() - j,
    {
        assert(full[j as int] == order[j as int]);
        if p.has_edge(order[j], u) {
            return Anchor::Linked { at: j, outgoing: true };
        }
        if p.has_edge(u, order[j]) {
            return Anchor::Linked { at: j, outgoing: false };
        }
        j += 1;
    }
    Anchor::Free
}

/// The visiting order of a pattern, with what every engine needs to follow it.
pub struct OrderingPlan {
    order: Vec<usize>,
    pos: Vec<usize>,
    anchor: Vec<Anchor>,
    placed_out: Vec<Vec<usize>>,
    placed_in: Vec<Vec<usize>>,
    pending_out: Vec<Vec<usize>>,
    pending_in: Vec<Vec<usize>>,
}

impl OrderingPlan {
    /// The pattern vertex at each position.
    pub closed spec fn order(&self) -> Seq<int> {
        ints(self.order@)
    }

    /// The position of each pattern vertex.
    pub closed spec fn pos(&self) -> Seq<int> {
        ints(self.pos@)
    }

    /// The anchor of each position.
    pub closed spec fn anchors(&self) -> Seq<Anchor> {
        self.anchor@
    }

    /// The neighbors of the vertex at position `d`, successors (`outgoing`)
    /// or predecessors, that are placed at `d` or before it (`placed`), or
    /// after it.
    pub closed spec fn neighbors(&self, d: int, outgoing: bool, placed: bool) -> Seq<usize> {
        if placed {
            if outgoing {
                self.placed_out[d]@
            } else {
                self.placed_in[d]@
            }
        } else {
            if outgoing {
                self.pending_out[d]@
            } else {
                self.pending_in[d]@
            }
        }
    }

    /// The plan holds the neighbors of every position.
    pub closed spec fn shaped(&self) -> bool {
        &&& self.placed_out.len() == self.order.len()
        &&& self.placed_in.len() == self.order.len()
        &&& self.pending_out.len() == self.order.len()
        &&& self.pending_in.len() == self.order.len()
    }

    /// The plan is one for the pattern `p`: `order` and `pos` are inverse
    /// permutations of its vertices, every anchor names an earlier position
    /// whose vertex is joined to the anchored one as it says, and the
    /// neighbors of each position are split into those that are placed by
    /// then and those that are still to be placed.
    pub open spec fn wf(&self, p: &Graph) -> bool {
        let n = p@.n();
        &&& self.shaped()
        &&& forall|d: int, outgoing: bool, placed: bool|
            0 <= d < n ==> #[trigger] self.neighbors(d, outgoing, placed) == those(
                p.nbrs(self.order()[d], outgoing),
                side(self.pos(), d, placed),
            )
        &&& self.order().len() == n
        &&& self.pos().len() == n
        &&& self.anchors().len() == n
        &&& forall|i: int|
            0 <= i < n ==> 0 <= #[trigger] self.order()[i] < n && self.pos()[self.order()[i]] == i
        &&& forall|u: int|
            0 <= u < n ==> 0 <= #[trigger] self.pos()[u] < n && self.order()[self.pos()[u]] == u
        &&& forall|d: int|
            0 <= d < n ==> (#[trigger] self.anchors()[d] matches Anchor::Linked { at, outgoing }
                ==> at < d && p@.linked(self.order()[at as int], self.order()[d], outgoing))
    }

    /// The plan is the greedy one: each position holds, of the vertices not
    /// placed before it, the one with the most arcs to the placed vertices,
    /// then the highest degree, then the smallest id; and each position is
    /// anchored at the first earlier position that holds a neighbor.
    pub open spec fn greedy(&self, p: &Graph) -> bool {
        let n = p@.n();
        &&& forall|k: int, v: int|
            0 <= k < n && 0 <= v < n && self.pos()[v] > k ==> #[trigger] goes_before(
                p,
                self.pos(),
                k,
                self.order()[k],
                v,
            )
        &&& forall|d: int|
            0 <= d < n ==> anchor_is_first(p, self.order(), d, #[trigger] self.anchors()[d])
    }

    /// The frame of a search that follows this plan.
    pub open spec fn space(&self, p: &Graph, t: &Graph, edge_induced: bool) -> Space {
        Space { p: p@, t: t@, order: self.order(), pos: self.pos(), edge_induced }
    }

    /// A plan for `p` gives a well-formed frame.
    pub proof fn lemma_space(&self, p: &Graph, t: &Graph, edge_induced: bool)
        requires
            p.wf(),
            t.wf(),
            self.wf(p),
        ensures
            self.space(p, t, edge_induced).wf(),
    {
        p.lemma_wf();
        t.lemma_wf();
    }

    /// The greedy plan of the pattern `p`.
    pub fn compute(p: &Graph) -> (plan: OrderingPlan)
        requires
            p.wf(),
        ensures
            plan.wf(p),
            plan.greedy(p),
    {
        let n = p.n();
        let mut order: Vec<usize> = Vec::new();
        let mut pos: Vec<usize> = Vec::new();
        let mut anchor: Vec<Anchor> = Vec::new();
        let mut i: usize = 0;
        while i < n
            invariant
                i <= n,
                pos.len() == i,
                forall|v: int| 0 <= v < i ==> pos[v] == usize::MAX,
            decreases n - i,
        {
            pos.push(usize::MAX);
            i += 1;
        }
        let mut k: usize = 0;
        while k < n
            invariant
                p.wf(),
                n == p@.n(),
                k <= n,
                order.len() == k,
                anchor.len() == k,
                pos.len() == n,
                forall|i: int| 0 <= i < k ==> #[trigger] order[i] < n && pos[order[i] as int] == i,
                forall|v: int|
                    0 <= v < n ==> #[trigger] pos[v] == usize::MAX || (pos[v] < k
                        && order[pos[v] as int] == v),
                forall|d: int|
                    0 <= d < k ==> anchor_is_first(p, ints(order@), d, #[trigger] anchor[d]),
                forall|kk: int, v: int|
                    0 <= kk < k && 0 <= v < n && pos[v] > kk ==> #[trigger] goes_before(
                        p,
                        ints(pos@),
                        kk,
                        order[kk] as int,
                        v,
                    ),
            decreases n - k,
        {
            proof {
                if forall|v: int| 0 <= v < n ==> pos[v] != usize::MAX {
                    let ranks = ints(pos@);
                    assert forall|a: int, b: int|
                        #![trigger ranks[a], ranks[b]]
                        0 <= a < ranks.len() && 0 <= b < ranks.len() && a != b implies ranks[a]
                        != ranks[b] by {
                        assert(order[pos[a] as int] == a);
                        assert(order[pos[b] as int] == b);
                    }
                    lemma_distinct_words_are_short(ranks, k as int);
                }
            }
            let best = pick(p, &pos, k);
            let a = find_anchor(p, &order, best);
            let ghost pos0 = ints(pos@);
            let ghost order0 = ints(order@);
            order.push(best);
            pos[best] = k;
            anchor.push(a);
            proof {
                let pos1 = ints(pos@);
                let order1 = ints(order@);
                assert(order1 =~= order0.push(best as int));
                assert forall|d: int| 0 <= d < k + 1 implies anchor_is_first(
                    p,
                    order1,
                    d,
                    #[trigger] anchor[d],
                ) by {
                    if d < k {
                        assert(anchor_is_first(p, order0, d, anchor[d]));
                        assert(order1[d] == order0[d]);
                        match anchor[d] {
                            Anchor::Free => {
                                assert forall|j: int| 0 <= j < d implies !adjacent(
                                    p,
                                    #[trigger] order1[j],
                                    order1[d],
                                ) by {
                                    assert(order1[j] == order0[j]);
                                }
                            },
                            Anchor::Linked { at, outgoing } => {
                                assert(order1[at as int] == order0[at as int]);
                                assert forall|j: int| 0 <= j < at implies !adjacent(
                                    p,
                                    #[trigger] order1[j],
                                    order1[d],
                                ) by {
                                    assert(order1[j] == order0[j]);
                                }
                            },
                        }
                    }
                }
                assert forall|kk: int, v: int|
                    0 <= kk < k + 1 && 0 <= v < n && pos[v] > kk implies #[trigger] goes_before(
                    p,
                    pos1,
                    kk,
                    order[kk] as int,
                    v,
                ) by {
                    let u = order[kk] as int;
                    p.lemma_wf();
                    assert forall|list: Seq<usize>|
                        (forall|j: int| 0 <= j < list.len() ==> 0 <= #[trigger] list[j] < n)
                        implies #[trigger] count_placed(list, pos0, kk) == count_placed(
                        list,
                        pos1,
                        kk,
                    ) by {
                        assert forall|j: int| 0 <= j < list.len() implies (pos0[#[trigger] list[j] as int]
                            < kk <==> pos1[list[j] as int] < kk) by {
                            assert(0 <= list[j] < n);
                        }
                        lemma_count_placed_same(list, pos0, pos1, kk);
                    }
                    assert(count_placed(p.out_list(u), pos0, kk) == count_placed(
                        p.out_list(u),
                        pos1,
                        kk,
                    ));
                    assert(count_placed(p.in_list(u), pos0, kk) == count_placed(
                        p.in_list(u),
                        pos1,
                        kk,
                    ));
                    assert(count_placed(p.out_list(v), pos0, kk) == count_placed(
                        p.out_list(v),
                        pos1,
                        kk,
                    ));
                    assert(count_placed(p.in_list(v), pos0, kk) == count_placed(
                        p.in_list(v),
                        pos1,
                        kk,
                    ));
                    if kk < k {
                        assert(pos0[v] > kk);
                        assert(goes_before(p, pos0, kk, u, v));
                    } else {
                        assert(pos0[v] == usize::MAX && v != best);
                        assert(goes_before(p, pos0, kk, best as int, v));
                    }
                }
            }
            k += 1;
        }
        let mut placed_out: Vec<Vec<usize>> = Vec::new();
        let mut placed_in: Vec<Vec<usize>> = Vec::new();
        let mut pending_out: Vec<Vec<usize>> = Vec::new();
        let mut pending_in: Vec<Vec<usize>> = Vec::new();
        let mut d: usize = 0;
        while d < n
            invariant
                p.wf(),
                n == p@.n(),
                d <= n,
                order.len() == n,
                pos.len() == n,
                forall|i: int| 0 <= i < n ==> #[trigger] order[i] < n,
                placed_out.len() == d,
                placed_in.len() == d,
                pending_out.len() == d,
                pending_in.len() == d,
                forall|e: int|
                    0 <= e < d ==> (#[trigger] placed_out[e])@ == those(
                        p.nbrs(order[e] as int, true),
                        side(ints(pos@), e, true),
                    ),
                forall|e: int|
                    0 <= e < d ==> (#[trigger] placed_in[e])@ == those(
                        p.nbrs(order[e] as int, false),
                        side(ints(pos@), e, true),
                    ),
                forall|e: int|
                    0 <= e < d ==> (#[trigger] pending_out[e])@ == those(
                        p.nbrs(order[e] as int, true),
                        side(ints(pos@), e, false),
                    ),
                forall|e: int|
                    0 <= e < d ==> (#[trigger] pending_in[e])@ == those(
                        p.nbrs(order[e] as int, false),
                        side(ints(pos@), e, false),
                    ),
            decreases n - d,
        {
            let u = order[d];
            proof {
                p.lemma_nbrs();
                assert forall|k: int| 0 <= k < p.nbrs(u as int, true).len() implies #[trigger] p.nbrs(
                    u as int,
                    true,
                )[k] < pos.len() by {
                    assert(0 <= p.nbrs(u as int, true)[k] < n);
                }
                assert forall|k: int| 0 <= k < p.nbrs(u as int, false).len() implies #[trigger] p.nbrs(
                    u as int,
                    false,
                )[k] < pos.len() by {
                    assert(0 <= p.nbrs(u as int, false)[k] < n);
                }
            }
            let outs = p.neighbors(u, true);
            let ins = p.neighbors(u, false);
            placed_out.push(select(outs, &pos, d, true));
            placed_in.push(select(ins, &pos, d, true));
            pending_out.push(select(outs, &pos, d, false));
            pending_in.push(select(ins, &pos, d, false));
            d += 1;
        }
        let plan = OrderingPlan { order, pos, anchor, placed_out, placed_in, pending_out, pending_in };
        proof {
            assert forall|d: int, outgoing: bool, placed: bool| 0 <= d < n implies #[trigger] plan.neighbors(
                d,
                outgoing,
                placed,
            ) == those(p.nbrs(plan.order()[d], outgoing), side(plan.pos(), d, placed)) by {
                assert(plan.order()[d] == plan.order@[d]);
            }
            let o = plan.order();
            assert forall|i: int, j: int|
                #![trigger o[i], o[j]]
                0 <= i < n && 0 <= j < n && i != j implies o[i] != o[j] by {
                assert(plan.pos@[plan.order@[i] as int] == i);
                assert(plan.pos@[plan.order@[j] as int] == j);
            }
            assert forall|u: int| 0 <= u < n implies 0 <= #[trigger] plan.pos()[u] < n
                && plan.order()[plan.pos()[u]] == u by {
                lemma_distinct_holds_all(o, n as int, u);
                let i = choose|i: int| 0 <= i < n && o[i] == u;
                assert(plan.pos@[plan.order@[i] as int] == i);
            }
            assert forall|d: int| 0 <= d < n implies (#[trigger] plan.anchors()[d] matches Anchor::Linked {
                at,
                outgoing,
            } ==> at < d && p@.linked(plan.order()[at as int], plan.order()[d], outgoing)) by {
                assert(anchor_is_first(p, o, d, plan.anchor@[d]));
            }
            assert forall|kk: int, v: int|
                0 <= kk < n && 0 <= v < n && plan.pos()[v] > kk implies #[trigger] goes_before(
                p,
                plan.pos(),
                kk,
                plan.order()[kk],
                v,
            ) by {
                assert(plan.pos@[v] > kk);
            }
        }
        plan
    }

    /// Number of positions.
    pub fn len(&self) -> (n: usize)
        ensures
            n == self.order().len(),
    {
        self.order.len()
    }

    /// The pattern vertex at position `i`.
    pub fn vertex_at(&self, i: usize) -> (u: usize)
        requires
            i < self.order().len(),
        ensures
            u == self.order()[i as int],
    {
        self.order[i]
    }

    /// The position of pattern vertex `u`.
    pub fn position_of(&self, u: usize) -> (i: usize)
        requires
            u < self.pos().len(),
        ensures
            i == self.pos()[u as int],
    {
        self.pos[u]
    }

    /// The neighbors of the vertex at position `d`, successors (`outgoing`)
    /// or predecessors, that are placed at `d` or before it (`placed`), or
    /// after it.
    pub fn neighbors_at(&self, d: usize, outgoing: bool, placed: bool) -> (list: &Vec<usize>)
        requires
            self.shaped(),
            d < self.order().len(),
        ensures
            list@ == self.neighbors(d as int, outgoing, placed),
    {
        if placed {
            if outgoing {
                &self.placed_out[d]
            } else {
                &self.placed_in[d]
            }
        } else {
            if outgoing {
                &self.pending_out[d]
            } else {
                &self.pending_in[d]
            }
        }
    }

    /// The anchor of position `d`.
    pub fn anchor_at(&self, d: usize) -> (a: Anchor)
        requires
            d < self.anchors().len(),
        ensures
            a == self.anchors()[d as int],
    {
        self.anchor[d]
    }
}

} // verus!
