//! What a solution is, and the counting facts on which every engine rests.
//!
//! An embedding assigns a target vertex to every pattern vertex. A search
//! places the pattern vertices one by one in a visiting order, so it works on
//! placements: sequences indexed by visiting position. This module defines
//! both, shows that they are in one-to-one correspondence, and shows how the
//! completions of a partial placement split along a list of candidates.

use vstd::prelude::*;
use vstd::relations::*;
use vstd::set_lib::*;
use crate::graph::GraphView;

verus! {

/// Whether `m`, read as pattern vertex -> target vertex, embeds `p` into `t`:
/// it is injective, keeps labels and maps every pattern arc to a target arc.
/// Node-induced matching also asks that no target arc joins the images of two
/// pattern vertices that the pattern leaves unjoined.
pub open spec fn is_embedding(p: GraphView, t: GraphView, m: Seq<int>, edge_induced: bool) -> bool {
    &&& m.len() == p.n()
    &&& forall|u: int| 0 <= u < m.len() ==> 0 <= #[trigger] m[u] < t.n()
    &&& forall|u: int, v: int|
        #![trigger m[u], m[v]]
        0 <= u < m.len() && 0 <= v < m.len() && u != v ==> m[u] != m[v]
    &&& forall|u: int| 0 <= u < m.len() ==> p.labels[u] == t.labels[#[trigger] m[u]]
    &&& forall|u: int, v: int|
        0 <= u < m.len() && 0 <= v < m.len() && #[trigger] p.has_edge(u, v) ==> t.has_edge(
            m[u],
            m[v],
        )
    &&& !edge_induced ==> forall|u: int, v: int|
        0 <= u < m.len() && 0 <= v < m.len() && #[trigger] t.has_edge(m[u], m[v]) ==> p.has_edge(
            u,
            v,
        )
}

/// All embeddings of `p` into `t`.
pub open spec fn embeddings(p: GraphView, t: GraphView, edge_induced: bool) -> Set<Seq<int>> {
    Set::new(|m: Seq<int>| is_embedding(p, t, m, edge_induced))
}

/// The number of embeddings of `p` into `t`.
pub open spec fn solution_count(p: GraphView, t: GraphView, edge_induced: bool) -> nat {
    embeddings(p, t, edge_induced).len()
}

/// The sequences of length `len` over `0..bound`.
pub open spec fn words(len: nat, bound: int) -> Set<Seq<int>> {
    Set::new(
        |s: Seq<int>| s.len() == len && forall|i: int| 0 <= i < len ==> 0 <= #[trigger] s[i] < bound,
    )
}

/// The words of length `len + 1` whose last item is below `hi`.
pub open spec fn words_ending_below(len: nat, bound: int, hi: int) -> Set<Seq<int>> {
    Set::new(|s: Seq<int>| words((len + 1) as nat, bound).contains(s) && s[len as int] < hi)
}

proof fn lemma_words_ending_below_finite(len: nat, bound: int, hi: int)
    requires
        words(len, bound).finite(),
        0 <= hi <= bound,
    ensures
        words_ending_below(len, bound, hi).finite(),
    decreases hi,
{
    let all = words_ending_below(len, bound, hi);
    if hi == 0 {
        assert(all =~= Set::<Seq<int>>::empty());
    } else {
        lemma_words_ending_below_finite(len, bound, hi - 1);
        let prev = words_ending_below(len, bound, hi - 1);
        let f = |s: Seq<int>| s.push(hi - 1);
        words(len, bound).lemma_map_finite(f);
        let img = words(len, bound).map(f);
        assert forall|s: Seq<int>| all.contains(s) implies prev.contains(s) || img.contains(s) by {
            if s[len as int] == hi - 1 {
                let r = s.drop_last();
                assert(words(len, bound).contains(r));
                assert(r.push(hi - 1) =~= s);
                assert(f(r) == s);
            }
        }
        assert forall|s: Seq<int>| img.contains(s) implies all.contains(s) by {
            let r = choose|r: Seq<int>| words(len, bound).contains(r) && s == f(r);
            assert(s == r.push(hi - 1));
            assert forall|i: int| 0 <= i < len + 1 implies 0 <= #[trigger] s[i] < bound by {
                if i < len {
                    assert(s[i] == r[i]);
                }
            }
        }
        assert(all =~= prev.union(img));
        lemma_set_union_finite_iff(prev, img);
    }
}

/// There are finitely many words of a given length over a given range.
pub proof fn lemma_words_finite(len: nat, bound: int)
    requires
        0 <= bound,
    ensures
        words(len, bound).finite(),
    decreases len,
{
    if len == 0 {
        assert(words(0, bound) =~= set![Seq::<int>::empty()]) by {
            assert forall|s: Seq<int>| words(0, bound).contains(s) implies s == Seq::<int>::empty() by {
                assert(s =~= Seq::<int>::empty());
            }
        }
    } else {
        let shorter = (len - 1) as nat;
        lemma_words_finite(shorter, bound);
        lemma_words_ending_below_finite(shorter, bound, bound);
        assert(words(len, bound) =~= words_ending_below(shorter, bound, bound));
    }
}

/// Whether `e` begins with `a`.
pub open spec fn extends(e: Seq<int>, a: Seq<int>) -> bool {
    a.len() <= e.len() && forall|i: int| 0 <= i < a.len() ==> #[trigger] e[i] == a[i]
}

/// The frame of a search: both graphs, the visiting order of the pattern
/// vertices with its inverse, and the matching mode.
pub struct Space {
    /// The pattern.
    pub p: GraphView,
    /// The target.
    pub t: GraphView,
    /// `order[i]` is the pattern vertex placed at position `i`.
    pub order: Seq<int>,
    /// `pos[u]` is the position at which pattern vertex `u` is placed.
    pub pos: Seq<int>,
    /// Edge-induced matching instead of node-induced.
    pub edge_induced: bool,
}

impl Space {
    /// Number of pattern vertices, which is the length of a full placement.
    pub open spec fn np(self) -> int {
        self.p.n()
    }

    /// Both graphs are well formed and `order` and `pos` are inverse
    /// permutations of the pattern's vertices.
    pub open spec fn wf(self) -> bool {
        &&& self.p.wf()
        &&& self.t.wf()
        &&& self.order.len() == self.p.n()
        &&& self.pos.len() == self.p.n()
        &&& forall|i: int|
            0 <= i < self.p.n() ==> 0 <= #[trigger] self.order[i] < self.p.n()
                && self.pos[self.order[i]] == i
        &&& forall|u: int|
            0 <= u < self.p.n() ==> 0 <= #[trigger] self.pos[u] < self.p.n()
                && self.order[self.pos[u]] == u
    }

    /// The arcs between positions `i` and `j` agree with those between the
    /// target vertices placed there.
    pub open spec fn pair_ok(self, a: Seq<int>, i: int, j: int) -> bool {
        &&& self.p.has_edge(self.order[i], self.order[j]) ==> self.t.has_edge(a[i], a[j])
        &&& !self.edge_induced && self.t.has_edge(a[i], a[j]) ==> self.p.has_edge(
            self.order[i],
            self.order[j],
        )
    }

    /// The placement `a` of the first `a.len()` positions breaks no rule.
    pub open spec fn consistent(self, a: Seq<int>) -> bool {
        &&& a.len() <= self.np()
        &&& forall|i: int| 0 <= i < a.len() ==> 0 <= #[trigger] a[i] < self.t.n()
        &&& forall|i: int, j: int|
            #![trigger a[i], a[j]]
            0 <= i < a.len() && 0 <= j < a.len() && i != j ==> a[i] != a[j]
        &&& forall|i: int|
            0 <= i < a.len() ==> self.p.labels[self.order[i]] == self.t.labels[#[trigger] a[i]]
        &&& forall|i: int, j: int|
            0 <= i < a.len() && 0 <= j < a.len() ==> #[trigger] self.pair_ok(a, i, j)
    }

    /// The full consistent placements that begin with `a`.
    pub open spec fn completions(self, a: Seq<int>) -> Set<Seq<int>> {
        Set::new(|e: Seq<int>| e.len() == self.np() && self.consistent(e) && extends(e, a))
    }

    /// The completions of `a` whose next item stands in `cands` at index
    /// `from` or later.
    pub open spec fn cover(self, a: Seq<int>, cands: Seq<int>, from: int) -> Set<Seq<int>> {
        Set::new(
            |e: Seq<int>|
                self.completions(a).contains(e) && exists|k: int|
                    from <= k < cands.len() && #[trigger] cands[k] == e[a.len() as int],
        )
    }

    /// The embedding that the full placement `e` stands for.
    pub open spec fn to_mapping(self, e: Seq<int>) -> Seq<int> {
        Seq::new(self.np() as nat, |u: int| e[self.pos[u]])
    }

    /// The full placement that stands for the embedding `m`.
    pub open spec fn to_placement(self, m: Seq<int>) -> Seq<int> {
        Seq::new(self.np() as nat, |i: int| m[self.order[i]])
    }

    /// A full consistent placement stands for an embedding.
    pub proof fn lemma_mapping_of_placement(self, e: Seq<int>)
        requires
            self.wf(),
            e.len() == self.np(),
            self.consistent(e),
        ensures
            is_embedding(self.p, self.t, self.to_mapping(e), self.edge_induced),
            self.to_placement(self.to_mapping(e)) == e,
    {
        let m = self.to_mapping(e);
        assert forall|u: int, v: int|
            #![trigger m[u], m[v]]
            0 <= u < m.len() && 0 <= v < m.len() && u != v implies m[u] != m[v] by {
            assert(self.order[self.pos[u]] == u);
            assert(self.order[self.pos[v]] == v);
            assert(e[self.pos[u]] != e[self.pos[v]]);
        }
        assert forall|u: int| 0 <= u < m.len() implies self.p.labels[u] == self.t.labels[#[trigger] m[u]] by {
            assert(self.order[self.pos[u]] == u);
            assert(self.t.labels[e[self.pos[u]]] == self.p.labels[self.order[self.pos[u]]]);
        }
        assert forall|u: int, v: int|
            0 <= u < m.len() && 0 <= v < m.len() && #[trigger] self.p.has_edge(
                u,
                v,
            ) implies self.t.has_edge(m[u], m[v]) by {
            assert(self.order[self.pos[u]] == u);
            assert(self.order[self.pos[v]] == v);
            assert(self.pair_ok(e, self.pos[u], self.pos[v]));
        }
        if !self.edge_induced {
            assert forall|u: int, v: int|
                0 <= u < m.len() && 0 <= v < m.len() && #[trigger] self.t.has_edge(
                    m[u],
                    m[v],
                ) implies self.p.has_edge(u, v) by {
                assert(self.order[self.pos[u]] == u);
                assert(self.order[self.pos[v]] == v);
                assert(self.pair_ok(e, self.pos[u], self.pos[v]));
            }
        }
        assert forall|u: int| 0 <= u < m.len() implies 0 <= #[trigger] m[u] < self.t.n() by {
            assert(0 <= e[self.pos[u]] < self.t.n());
        }
        let back = self.to_placement(m);
        assert forall|i: int| 0 <= i < e.len() implies back[i] == e[i] by {
            assert(self.pos[self.order[i]] == i);
        }
        assert(back =~= e);
    }

    /// An embedding stands for a full consistent placement.
    pub proof fn lemma_placement_of_mapping(self, m: Seq<int>)
        requires
            self.wf(),
            is_embedding(self.p, self.t, m, self.edge_induced),
        ensures
            self.to_placement(m).len() == self.np(),
            self.consistent(self.to_placement(m)),
            self.to_mapping(self.to_placement(m)) == m,
    {
        let e = self.to_placement(m);
        assert forall|i: int| 0 <= i < e.len() implies 0 <= #[trigger] e[i] < self.t.n() by {
            assert(0 <= m[self.order[i]] < self.t.n());
        }
        assert forall|i: int, j: int|
            #![trigger e[i], e[j]]
            0 <= i < e.len() && 0 <= j < e.len() && i != j implies e[i] != e[j] by {
            assert(self.pos[self.order[i]] == i);
            assert(self.pos[self.order[j]] == j);
            assert(m[self.order[i]] != m[self.order[j]]);
        }
        assert forall|i: int| 0 <= i < e.len() implies self.p.labels[self.order[i]]
            == self.t.labels[#[trigger] e[i]] by {
            assert(self.p.labels[self.order[i]] == self.t.labels[m[self.order[i]]]);
        }
        assert forall|i: int, j: int| 0 <= i < e.len() && 0 <= j < e.len() implies #[trigger] self.pair_ok(
            e,
            i,
            j,
        ) by {
            let u = self.order[i];
            let v = self.order[j];
            assert(0 <= u < m.len() && 0 <= v < m.len());
            if self.p.has_edge(u, v) {
                assert(self.t.has_edge(m[u], m[v]));
            }
            if !self.edge_induced && self.t.has_edge(m[u], m[v]) {
                assert(self.p.has_edge(u, v));
            }
        }
        let back = self.to_mapping(e);
        assert forall|u: int| 0 <= u < m.len() implies back[u] == m[u] by {
            assert(self.order[self.pos[u]] == u);
        }
        assert(back =~= m);
    }

    /// Every set of completions is finite.
    pub proof fn lemma_completions_finite(self, a: Seq<int>)
        requires
            self.wf(),
        ensures
            self.completions(a).finite(),
            forall|cands: Seq<int>, from: int| #[trigger] self.cover(a, cands, from).finite(),
    {
        let all = words(self.np() as nat, self.t.n());
        lemma_words_finite(self.np() as nat, self.t.n());
        assert(self.completions(a).subset_of(all));
        lemma_len_subset(self.completions(a), all);
        assert forall|cands: Seq<int>, from: int| #[trigger]
            self.cover(a, cands, from).finite() by {
            assert(self.cover(a, cands, from).subset_of(all));
            lemma_len_subset(self.cover(a, cands, from), all);
        }
    }

    /// There are as many full consistent placements as there are embeddings.
    pub proof fn lemma_completions_count(self)
        requires
            self.wf(),
        ensures
            embeddings(self.p, self.t, self.edge_induced).finite(),
            self.completions(Seq::empty()).finite(),
            self.completions(Seq::empty()).len() == solution_count(
                self.p,
                self.t,
                self.edge_induced,
            ),
    {
        let x = self.completions(Seq::empty());
        let y = embeddings(self.p, self.t, self.edge_induced);
        self.lemma_completions_finite(Seq::empty());
        let f = |e: Seq<int>| self.to_mapping(e);
        assert forall|e1: Seq<int>, e2: Seq<int>|
            x.contains(e1) && x.contains(e2) && #[trigger] f(e1) == #[trigger] f(e2) implies e1
            == e2 by {
            self.lemma_mapping_of_placement(e1);
            self.lemma_mapping_of_placement(e2);
        }
        assert(injective_on(f, x));
        assert forall|m: Seq<int>| x.map(f).contains(m) <==> y.contains(m) by {
            if x.map(f).contains(m) {
                let e = choose|e: Seq<int>| x.contains(e) && m == f(e);
                self.lemma_mapping_of_placement(e);
            }
            if y.contains(m) {
                let e = self.to_placement(m);
                self.lemma_placement_of_mapping(m);
                assert(x.contains(e));
                assert(f(e) == m);
            }
        }
        assert(x.map(f) =~= y);
        lemma_map_size(x, y, f);
    }

    /// A placement that a consistent placement begins with is consistent.
    pub proof fn lemma_prefix_consistent(self, e: Seq<int>, a: Seq<int>)
        requires
            self.consistent(e),
            extends(e, a),
        ensures
            self.consistent(a),
    {
        assert forall|i: int, j: int| 0 <= i < a.len() && 0 <= j < a.len() implies #[trigger] self.pair_ok(
            a,
            i,
            j,
        ) by {
            assert(self.pair_ok(e, i, j));
            assert(e[i] == a[i] && e[j] == a[j]);
        }
        assert forall|i: int| 0 <= i < a.len() implies 0 <= #[trigger] a[i] < self.t.n() by {
            assert(e[i] == a[i]);
        }
        assert forall|i: int, j: int|
            #![trigger a[i], a[j]]
            0 <= i < a.len() && 0 <= j < a.len() && i != j implies a[i] != a[j] by {
            assert(e[i] == a[i] && e[j] == a[j]);
        }
        assert forall|i: int| 0 <= i < a.len() implies self.p.labels[self.order[i]]
            == self.t.labels[#[trigger] a[i]] by {
            assert(e[i] == a[i]);
        }
    }

    /// A full consistent placement is its own only completion.
    pub proof fn lemma_full(self, a: Seq<int>)
        requires
            self.wf(),
            a.len() == self.np(),
            self.consistent(a),
        ensures
            self.completions(a) == set![a],
            self.completions(a).len() == 1,
    {
        assert forall|e: Seq<int>| self.completions(a).contains(e) implies e == a by {
            assert(e =~= a);
        }
        assert(extends(a, a));
        assert(self.completions(a) =~= set![a]);
    }

    /// A placement that breaks a rule has no completion.
    pub proof fn lemma_dead(self, a: Seq<int>)
        requires
            !self.consistent(a),
        ensures
            self.completions(a) == Set::<Seq<int>>::empty(),
            self.completions(a).len() == 0,
    {
        assert forall|e: Seq<int>| !self.completions(a).contains(e) by {
            if self.completions(a).contains(e) {
                self.lemma_prefix_consistent(e, a);
            }
        }
        assert(self.completions(a) =~= Set::<Seq<int>>::empty());
    }

    /// Past the end of the candidates nothing is covered.
    pub proof fn lemma_cover_end(self, a: Seq<int>, cands: Seq<int>, from: int)
        requires
            from >= cands.len(),
        ensures
            self.cover(a, cands, from) == Set::<Seq<int>>::empty(),
            self.cover(a, cands, from).len() == 0,
    {
        assert(self.cover(a, cands, from) =~= Set::<Seq<int>>::empty());
    }

    /// What is covered from candidate `from` on is what the placement with
    /// that candidate leads to, together with what is covered from the next
    /// candidate on; the two parts share nothing.
    pub proof fn lemma_cover_split(self, a: Seq<int>, cands: Seq<int>, from: int)
        requires
            self.wf(),
            a.len() < self.np(),
            0 <= from < cands.len(),
            cands.no_duplicates(),
        ensures
            self.cover(a, cands, from).len() == self.cover(a, cands, from + 1).len()
                + self.completions(a.push(cands[from])).len(),
            self.cover(a, cands, from) == self.cover(a, cands, from + 1).union(
                self.completions(a.push(cands[from])),
            ),
    {
        let whole = self.cover(a, cands, from);
        let rest = self.cover(a, cands, from + 1);
        let child = a.push(cands[from]);
        let here = self.completions(child);
        let d = a.len() as int;
        self.lemma_completions_finite(a);
        self.lemma_completions_finite(child);
        assert forall|e: Seq<int>| whole.contains(e) implies rest.contains(e) || here.contains(e) by {
            let k = choose|k: int| from <= k < cands.len() && #[trigger] cands[k] == e[d];
            if k == from {
                assert forall|i: int| 0 <= i < child.len() implies #[trigger] e[i] == child[i] by {
                    if i < d {
                        assert(e[i] == a[i]);
                    }
                }
                assert(extends(e, child));
            } else {
                assert(from + 1 <= k < cands.len() && cands[k] == e[d]);
            }
        }
        assert forall|e: Seq<int>| here.contains(e) implies whole.contains(e) && !rest.contains(e) by {
            assert(e[d] == child[d]);
            assert forall|i: int| 0 <= i < a.len() implies #[trigger] e[i] == a[i] by {
                assert(e[i] == child[i]);
            }
            assert(extends(e, a));
            assert(cands[from] == e[d]);
            if rest.contains(e) {
                let k = choose|k: int| from + 1 <= k < cands.len() && #[trigger] cands[k] == e[d];
                assert(cands[k] == cands[from]);
            }
        }
        assert forall|e: Seq<int>| rest.contains(e) implies whole.contains(e) by {
            let k = choose|k: int| from + 1 <= k < cands.len() && #[trigger] cands[k] == e[d];
            assert(from <= k < cands.len() && cands[k] == e[d]);
        }
        assert(whole =~= rest.union(here));
        assert(rest.disjoint(here));
        lemma_set_disjoint_lens(rest, here);
        assert(rest + here == rest.union(here));
    }

    /// Where every completion takes its next item from the candidates, the
    /// candidates cover every completion.
    pub proof fn lemma_cover_all(self, a: Seq<int>, cands: Seq<int>)
        requires
            a.len() < self.np(),
            forall|e: Seq<int>| #[trigger]
                self.completions(a).contains(e) ==> exists|k: int|
                    0 <= k < cands.len() && #[trigger] cands[k] == e[a.len() as int],
        ensures
            self.cover(a, cands, 0) == self.completions(a),
    {
        assert(self.cover(a, cands, 0) =~= self.completions(a));
    }
}

/// Every node-induced embedding is an edge-induced one, so the edge-induced
/// matching has at least as many solutions.
pub proof fn lemma_edge_induced_has_more(p: GraphView, t: GraphView)
    ensures
        embeddings(p, t, false).subset_of(embeddings(p, t, true)),
        solution_count(p, t, false) <= solution_count(p, t, true),
{
    lemma_embeddings_finite(p, t, true);
    lemma_len_subset(embeddings(p, t, false), embeddings(p, t, true));
}

/// A pattern has finitely many embeddings into a target.
pub proof fn lemma_embeddings_finite(p: GraphView, t: GraphView, edge_induced: bool)
    ensures
        embeddings(p, t, edge_induced).finite(),
{
    let all = words(p.n() as nat, t.n());
    lemma_words_finite(p.n() as nat, t.n());
    assert(embeddings(p, t, edge_induced).subset_of(all));
    lemma_len_subset(embeddings(p, t, edge_induced), all);
}

/// A pattern with more vertices than the target has no embedding.
pub proof fn lemma_larger_pattern_has_none(p: GraphView, t: GraphView, edge_induced: bool)
    requires
        p.n() > t.n(),
    ensures
        solution_count(p, t, edge_induced) == 0,
{
    assert forall|m: Seq<int>| !embeddings(p, t, edge_induced).contains(m) by {
        if is_embedding(p, t, m, edge_induced) {
            lemma_distinct_words_are_short(m, t.n());
        }
    }
    assert(embeddings(p, t, edge_induced) =~= Set::<Seq<int>>::empty());
}

/// A sequence of distinct integers of `0..bound` has at most `bound` items.
pub proof fn lemma_distinct_words_are_short(m: Seq<int>, bound: int)
    requires
        0 <= bound,
        forall|u: int| 0 <= u < m.len() ==> 0 <= #[trigger] m[u] < bound,
        forall|u: int, v: int|
            #![trigger m[u], m[v]]
            0 <= u < m.len() && 0 <= v < m.len() && u != v ==> m[u] != m[v],
    ensures
        m.len() <= bound,
{
    assert(m.no_duplicates());
    m.unique_seq_to_set();
    lemma_int_range(0, bound);
    assert forall|x: int| m.to_set().contains(x) implies set_int_range(0, bound).contains(x) by {
        let k = choose|k: int| 0 <= k < m.len() && m[k] == x;
        assert(0 <= m[k] < bound);
    }
    lemma_len_subset(m.to_set(), set_int_range(0, bound));
}

} // verus!
