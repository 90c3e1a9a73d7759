//! The sequential engine: a depth-first search over an explicit stack of
//! work items.

use vstd::prelude::*;
use crate::clock::Stopwatch;
use crate::embedding::{embeddings, is_embedding, solution_count};
use crate::result::ResultSink;
use crate::work::{Engine, Expansion, Marks, WorkItem};

verus! {

/// Number of solutions that the items of a stack can still lead to.
pub open spec fn total_yield(engine: &Engine, items: Seq<WorkItem>) -> nat
    decreases items.len(),
{
    if items.len() == 0 {
        0
    } else {
        total_yield(engine, items.drop_last()) + engine.yield_of(&items.last())
    }
}

/// A bound on the number of steps that the items of a stack can still cause.
pub open spec fn total_cost(engine: &Engine, items: Seq<WorkItem>) -> nat
    decreases items.len(),
{
    if items.len() == 0 {
        0
    } else {
        total_cost(engine, items.drop_last()) + engine.cost(&items.last())
    }
}

/// Every item of the stack belongs to the search.
pub open spec fn all_valid(engine: &Engine, items: Seq<WorkItem>) -> bool {
    forall|k: int| 0 <= k < items.len() ==> engine.valid(&#[trigger] items[k])
}

/// Some item of the stack can still lead to the full placement `e`.
pub open spec fn reaches(engine: &Engine, items: Seq<WorkItem>, e: Seq<int>) -> bool {
    exists|k: int| 0 <= k < items.len() && engine.covered(&#[trigger] items[k]).contains(e)
}

/// What a push does to the sums over a stack.
pub proof fn lemma_push(engine: &Engine, items: Seq<WorkItem>, item: WorkItem)
    ensures
        total_yield(engine, items.push(item)) == total_yield(engine, items) + engine.yield_of(
            &item,
        ),
        total_cost(engine, items.push(item)) == total_cost(engine, items) + engine.cost(&item),
        all_valid(engine, items) && engine.valid(&item) ==> all_valid(engine, items.push(item)),
        forall|e: Seq<int>|
            reaches(engine, items, e) || engine.covered(&item).contains(e) <==> #[trigger] reaches(
                engine,
                items.push(item),
                e,
            ),
{
    let more = items.push(item);
    assert(more.drop_last() =~= items);
    assert(more.last() == item);
    assert forall|e: Seq<int>|
        reaches(engine, items, e) || engine.covered(&item).contains(e) <==> #[trigger] reaches(
            engine,
            more,
            e,
        ) by {
        if reaches(engine, items, e) {
            let k = choose|k: int|
                0 <= k < items.len() && engine.covered(&#[trigger] items[k]).contains(e);
            assert(more[k] == items[k]);
        }
        if engine.covered(&item).contains(e) {
            assert(more[items.len() as int] == item);
        }
        if reaches(engine, more, e) {
            let k = choose|k: int|
                0 <= k < more.len() && engine.covered(&#[trigger] more[k]).contains(e);
            if k < items.len() {
                assert(more[k] == items[k]);
            }
        }
    }
}

/// The number of solutions that a search finds among `total`: all of them,
/// or one at most where it stops at the first.
pub open spec fn reported(total: nat, first_only: bool) -> nat {
    if first_only && total > 1 {
        1
    } else {
        total
    }
}

/// What a search has to deliver: the number of embeddings of the pattern
/// into the target — or 1 at most, for a search that stops at the first —
/// and, where the solutions are kept, the embeddings themselves, each once.
pub open spec fn search_result(engine: &Engine, first_only: bool, keep: bool, sink: &ResultSink) -> bool {
    let p = engine.pattern@;
    let t = engine.target@;
    &&& sink.wf()
    &&& sink.keeps() == keep
    &&& sink.found() == reported(solution_count(p, t, engine.edge_induced), first_only)
    &&& keep ==> sink.stored().len() == sink.found()
    &&& !keep ==> sink.stored().len() == 0
    &&& sink.stored().no_duplicates()
    &&& forall|i: int|
        0 <= i < sink.stored().len() ==> is_embedding(p, t, #[trigger] sink.stored()[i], engine.edge_induced)
    &&& keep && !first_only ==> forall|m: Seq<int>|
        is_embedding(p, t, m, engine.edge_induced) ==> #[trigger] sink.stored().contains(m)
}

/// What is known once a search has come to its end.
pub proof fn lemma_search_done(
    engine: &Engine,
    first_only: bool,
    keep: bool,
    sink: &ResultSink,
    left: nat,
    exhausted: bool,
)
    requires
        engine.wf(),
        sink.wf(),
        sink.keeps() == keep,
        sink.found() + left == engine.space().completions(Seq::empty()).len(),
        first_only ==> sink.found() <= 1,
        exhausted ==> left == 0,
        exhausted || (first_only && sink.found() == 1),
        keep ==> sink.stored().len() == sink.found(),
        !keep ==> sink.stored().len() == 0,
        forall|i: int|
            0 <= i < sink.stored().len() ==> is_embedding(
                engine.pattern@,
                engine.target@,
                #[trigger] sink.stored()[i],
                engine.edge_induced,
            ),
        keep && exhausted ==> forall|e: Seq<int>| #[trigger]
            engine.space().completions(Seq::empty()).contains(e) ==> sink.stored().contains(
                engine.space().to_mapping(e),
            ),
    ensures
        search_result(engine, first_only, keep, sink),
{
    let s = engine.space();
    let p = engine.pattern@;
    let t = engine.target@;
    let all = embeddings(p, t, engine.edge_induced);
    let stored = sink.stored();
    engine.plan.lemma_space(engine.pattern, engine.target, engine.edge_induced);
    s.lemma_completions_count();
    if keep && exhausted {
        assert forall|m: Seq<int>| is_embedding(p, t, m, engine.edge_induced) implies #[trigger] stored.contains(
            m,
        ) by {
            s.lemma_placement_of_mapping(m);
            let e = s.to_placement(m);
            assert(s.completions(Seq::empty()).contains(e));
        }
        assert(stored.to_set() =~= all) by {
            assert forall|m: Seq<int>| stored.to_set().contains(m) implies all.contains(m) by {
                let i = choose|i: int| 0 <= i < stored.len() && stored[i] == m;
                assert(is_embedding(p, t, stored[i], engine.edge_induced));
            }
        }
        stored.lemma_no_dup_set_cardinality();
    } else {
        assert(stored.len() <= 1);
    }
}

/// Runs the depth-first search to its end, or to the first solution where
/// `first_only` is set, and reports what it found. The first solution is
/// recorded with the time that the stopwatch shows.
pub fn search(engine: &Engine, first_only: bool, keep: bool, watch: &Stopwatch) -> (sink: ResultSink)
    requires
        engine.wf(),
    ensures
        search_result(engine, first_only, keep, &sink),
{
    let mut sink = ResultSink::new(keep);
    let mut marks = Marks::new(engine.target.n());
    let mut stack: Vec<WorkItem> = Vec::new();
    let root = WorkItem::root();
    let ghost s = engine.space();
    let ghost all = s.completions(Seq::empty());
    proof {
        engine.lemma_root(&root);
        lemma_push(engine, stack@, root);
        assert(engine.covered(&root) == all);
    }
    stack.push(root);
    while stack.len() > 0
        invariant_except_break
            first_only ==> sink.found() == 0,
        invariant
            engine.wf(),
            s == engine.space(),
            all == s.completions(Seq::empty()),
            marks.blank(engine.target@.n()),
            sink.wf(),
            sink.keeps() == keep,
            all_valid(engine, stack@),
            sink.found() + total_yield(engine, stack@) == all.len(),
            first_only ==> sink.found() <= 1,
            keep ==> sink.stored().len() == sink.found(),
            !keep ==> sink.stored().len() == 0,
            forall|i: int|
                0 <= i < sink.stored().len() ==> is_embedding(
                    engine.pattern@,
                    engine.target@,
                    #[trigger] sink.stored()[i],
                    engine.edge_induced,
                ),
            keep ==> forall|e: Seq<int>| #[trigger]
                all.contains(e) ==> sink.stored().contains(s.to_mapping(e)) || reaches(
                    engine,
                    stack@,
                    e,
                ),
        ensures
            stack.len() == 0 || (first_only && sink.found() == 1),
        decreases total_cost(engine, stack@),
    {
        let ghost before = stack@;
        let ghost stored0 = sink.stored();
        let item = stack.pop().unwrap();
        proof {
            assert(stack@ == before.drop_last());
            assert(item == before.last());
            assert(engine.valid(&before[before.len() - 1]));
            assert forall|e: Seq<int>| #[trigger] reaches(engine, before, e) implies reaches(
                engine,
                stack@,
                e,
            ) || engine.covered(&item).contains(e) by {
                let k = choose|k: int|
                    0 <= k < before.len() && engine.covered(&#[trigger] before[k]).contains(e);
                if k < stack@.len() {
                    assert(stack@[k] == before[k]);
                }
            }
        }
        let ghost popped = stack@;
        match engine.expand(item, &mut marks) {
            Expansion::Solution(m) => {
                let ghost a = item.placed();
                let now = if sink.any() {
                    0
                } else {
                    watch.elapsed()
                };
                sink.record(m, now);
                proof {
                    if keep {
                        assert(sink.stored().last() == s.to_mapping(a));
                        assert forall|e: Seq<int>| #[trigger] all.contains(e) implies sink.stored().contains(
                            s.to_mapping(e),
                        ) || reaches(engine, stack@, e) by {
                            if stored0.contains(s.to_mapping(e)) {
                                let i = choose|i: int|
                                    0 <= i < stored0.len() && stored0[i] == s.to_mapping(e);
                                assert(sink.stored()[i] == s.to_mapping(e));
                            } else if !reaches(engine, popped, e) {
                                assert(e == a);
                                assert(sink.stored()[stored0.len() as int] == s.to_mapping(e));
                            }
                        }
                    }
                }
                if first_only {
                    break ;
                }
            },
            Expansion::Exhausted => {},
            Expansion::Advance(rest) => {
                proof {
                    lemma_push(engine, popped, rest);
                }
                stack.push(rest);
            },
            Expansion::Branch(rest, child) => {
                proof {
                    lemma_push(engine, popped, rest);
                    lemma_push(engine, popped.push(rest), child);
                }
                stack.push(rest);
                stack.push(child);
            },
        }
    }
    proof {
        lemma_search_done(
            engine,
            first_only,
            keep,
            &sink,
            total_yield(engine, stack@),
            stack@.len() == 0,
        );
    }
    sink
}

} // verus!
