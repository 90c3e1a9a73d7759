//! The parallel engine: the search of the sequential engine, decomposed
//! over workers that share work items through a scheduler.
//!
//! The workers take turns: in each round every worker does one step. Whatever
//! the strategy and the number of workers, each step splits one item into
//! items that lead to the same solutions, so the search as a whole finds what
//! the sequential engine finds.

use vstd::prelude::*;
use crate::clock::Stopwatch;
use crate::embedding::is_embedding;
use crate::result::ResultSink;
use crate::scheduler::Scheduler;
use crate::search::{
    all_valid, lemma_push, lemma_search_done, reaches, search_result, total_cost, total_yield,
};
use crate::work::{Engine, Expansion, Marks, WorkItem};

verus! {

/// Number of solutions that the items of all stacks can still lead to.
pub open spec fn grand_yield(engine: &Engine, stacks: Seq<Seq<WorkItem>>) -> nat
    decreases stacks.len(),
{
    if stacks.len() == 0 {
        0
    } else {
        grand_yield(engine, stacks.drop_last()) + total_yield(engine, stacks.last())
    }
}

/// A bound on the number of steps that the items of all stacks can still cause.
pub open spec fn grand_cost(engine: &Engine, stacks: Seq<Seq<WorkItem>>) -> nat
    decreases stacks.len(),
{
    if stacks.len() == 0 {
        0
    } else {
        grand_cost(engine, stacks.drop_last()) + total_cost(engine, stacks.last())
    }
}

/// Every item of every stack belongs to the search.
pub open spec fn grand_valid(engine: &Engine, stacks: Seq<Seq<WorkItem>>) -> bool {
    forall|k: int| 0 <= k < stacks.len() ==> all_valid(engine, #[trigger] stacks[k])
}

/// Some item of some stack can still lead to the full placement `e`.
pub open spec fn grand_reaches(engine: &Engine, stacks: Seq<Seq<WorkItem>>, e: Seq<int>) -> bool {
    exists|k: int| 0 <= k < stacks.len() && reaches(engine, #[trigger] stacks[k], e)
}

/// What a change of one stack does to the sums over all stacks.
pub proof fn lemma_grand_update(
    engine: &Engine,
    stacks: Seq<Seq<WorkItem>>,
    k: int,
    stack: Seq<WorkItem>,
)
    requires
        0 <= k < stacks.len(),
    ensures
        grand_yield(engine, stacks.update(k, stack)) + total_yield(engine, stacks[k])
            == grand_yield(engine, stacks) + total_yield(engine, stack),
        grand_cost(engine, stacks.update(k, stack)) + total_cost(engine, stacks[k]) == grand_cost(
            engine,
            stacks,
        ) + total_cost(engine, stack),
    decreases stacks.len(),
{
    let changed = stacks.update(k, stack);
    if k == stacks.len() - 1 {
        assert(changed.drop_last() =~= stacks.drop_last());
        assert(changed.last() == stack);
    } else {
        assert(changed.drop_last() =~= stacks.drop_last().update(k, stack));
        assert(changed.last() == stacks.last());
        assert(stacks.drop_last()[k] == stacks[k]);
        lemma_grand_update(engine, stacks.drop_last(), k, stack);
    }
}

/// Stacks that are all empty lead nowhere and cost nothing.
pub proof fn lemma_grand_empty(engine: &Engine, stacks: Seq<Seq<WorkItem>>)
    requires
        forall|k: int| 0 <= k < stacks.len() ==> (#[trigger] stacks[k]).len() == 0,
    ensures
        grand_yield(engine, stacks) == 0,
        grand_cost(engine, stacks) == 0,
        forall|e: Seq<int>| !grand_reaches(engine, stacks, e),
    decreases stacks.len(),
{
    if stacks.len() > 0 {
        assert forall|k: int| 0 <= k < stacks.drop_last().len() implies (#[trigger] stacks.drop_last()[k]).len()
            == 0 by {
            assert(stacks.drop_last()[k] == stacks[k]);
        }
        lemma_grand_empty(engine, stacks.drop_last());
        assert(stacks[stacks.len() - 1].len() == 0);
    }
    assert forall|e: Seq<int>| !grand_reaches(engine, stacks, e) by {
        if grand_reaches(engine, stacks, e) {
            let k = choose|k: int| 0 <= k < stacks.len() && reaches(engine, #[trigger] stacks[k], e);
            assert(stacks[k].len() == 0);
        }
    }
}

/// Hands an item to the scheduler.
fn put(engine: &Engine, sched: &mut Scheduler, worker: usize, item: WorkItem)
    requires
        old(sched).wf(),
        worker < old(sched).workers(),
        grand_valid(engine, old(sched)@),
        engine.valid(&item),
    ensures
        final(sched).wf(),
        final(sched).workers() == old(sched).workers(),
        final(sched).stealing() == old(sched).stealing(),
        grand_valid(engine, final(sched)@),
        grand_yield(engine, final(sched)@) == grand_yield(engine, old(sched)@) + engine.yield_of(
            &item,
        ),
        grand_cost(engine, final(sched)@) == grand_cost(engine, old(sched)@) + engine.cost(&item),
        forall|e: Seq<int>|
            grand_reaches(engine, old(sched)@, e) || engine.covered(&item).contains(e)
                <==> #[trigger] grand_reaches(engine, final(sched)@, e),
{
    let ghost before = sched@;
    let ghost dest = sched.destination(worker as int, item.placed().len() as int);
    proof {
        sched.lemma_wf();
    }
    sched.push(worker, item);
    proof {
        let after = sched@;
        let grown = before[dest].push(item);
        lemma_grand_update(engine, before, dest, grown);
        lemma_push(engine, before[dest], item);
        assert forall|k: int| 0 <= k < after.len() implies all_valid(engine, #[trigger] after[k]) by {
            if k != dest {
                assert(after[k] == before[k]);
            }
        }
        assert forall|e: Seq<int>|
            grand_reaches(engine, before, e) || engine.covered(&item).contains(e)
                <==> #[trigger] grand_reaches(engine, after, e) by {
            if grand_reaches(engine, before, e) {
                let k = choose|k: int| 0 <= k < before.len() && reaches(engine, #[trigger] before[k], e);
                if k == dest {
                    assert(reaches(engine, after[dest], e));
                } else {
                    assert(after[k] == before[k]);
                }
            }
            if engine.covered(&item).contains(e) {
                assert(reaches(engine, after[dest], e));
            }
            if grand_reaches(engine, after, e) {
                let k = choose|k: int| 0 <= k < after.len() && reaches(engine, #[trigger] after[k], e);
                if k == dest {
                    assert(reaches(engine, before[dest], e) || engine.covered(&item).contains(e));
                } else {
                    assert(after[k] == before[k]);
                }
            }
        }
    }
}

/// Asks the scheduler for the worker's next item.
fn take(engine: &Engine, sched: &mut Scheduler, worker: usize) -> (popped: Option<WorkItem>)
    requires
        old(sched).wf(),
        worker < old(sched).workers(),
        grand_valid(engine, old(sched)@),
    ensures
        final(sched).wf(),
        final(sched).workers() == old(sched).workers(),
        final(sched).stealing() == old(sched).stealing(),
        grand_valid(engine, final(sched)@),
        match popped {
            Some(item) => {
                &&& engine.valid(&item)
                &&& grand_yield(engine, old(sched)@) == grand_yield(engine, final(sched)@)
                    + engine.yield_of(&item)
                &&& grand_cost(engine, old(sched)@) == grand_cost(engine, final(sched)@)
                    + engine.cost(&item)
                &&& forall|e: Seq<int>| #[trigger]
                    grand_reaches(engine, old(sched)@, e) ==> grand_reaches(
                        engine,
                        final(sched)@,
                        e,
                    ) || engine.covered(&item).contains(e)
            },
            None => {
                &&& final(sched)@ == old(sched)@
                &&& old(sched)@[0].len() == 0
                &&& old(sched)@[worker + 1].len() == 0
            },
        },
{
    let ghost before = sched@;
    let ghost from = sched.source(worker as int);
    proof {
        sched.lemma_wf();
    }
    let popped = sched.try_pop(worker);
    proof {
        let after = sched@;
        match &popped {
            Some(item) => {
                let item = *item;
                let shrunk = before[from].drop_last();
                lemma_grand_update(engine, before, from, shrunk);
                assert(engine.valid(&before[from][before[from].len() - 1]));
                assert forall|k: int| 0 <= k < after.len() implies all_valid(
                    engine,
                    #[trigger] after[k],
                ) by {
                    if k != from {
                        assert(after[k] == before[k]);
                    } else {
                        assert forall|j: int| 0 <= j < after[k].len() implies engine.valid(
                            &#[trigger] after[k][j],
                        ) by {
                            assert(after[k][j] == before[k][j]);
                        }
                    }
                }
                assert forall|e: Seq<int>| #[trigger]
                    grand_reaches(engine, before, e) implies grand_reaches(engine, after, e)
                    || engine.covered(&item).contains(e) by {
                    let k = choose|k: int|
                        0 <= k < before.len() && reaches(engine, #[trigger] before[k], e);
                    if k == from {
                        let j = choose|j: int|
                            0 <= j < before[k].len() && engine.covered(&#[trigger] before[k][j]).contains(
                                e,
                            );
                        if j < shrunk.len() {
                            assert(shrunk[j] == before[k][j]);
                            assert(reaches(engine, after[from], e));
                        }
                    } else {
                        assert(after[k] == before[k]);
                    }
                }
            },
            None => {},
        }
    }
    popped
}

/// Runs the search with the given scheduler until every stack is empty or,
/// where `first_only` is set, until a worker finds a solution, at which every
/// worker stops. The first solution is recorded with the time that the
/// stopwatch shows.
pub fn search_with(
    engine: &Engine,
    sched: Scheduler,
    first_only: bool,
    keep: bool,
    watch: &Stopwatch,
) -> (sink: ResultSink)
    requires
        engine.wf(),
        sched.wf(),
        forall|k: int| 0 <= k < sched@.len() ==> (#[trigger] sched@[k]).len() == 0,
    ensures
        search_result(engine, first_only, keep, &sink),
{
    let mut sched = sched;
    let mut sink = ResultSink::new(keep);
    let mut marks = Marks::new(engine.target.n());
    let root = WorkItem::root();
    let ghost s = engine.space();
    let ghost all = s.completions(Seq::empty());
    proof {
        engine.lemma_root(&root);
        lemma_grand_empty(engine, sched@);
        sched.lemma_wf();
        assert(grand_valid(engine, sched@));
    }
    put(engine, &mut sched, 0, root);
    let workers = sched.worker_count();
    let mut done = false;
    while !done && !sched.is_globally_empty()
        invariant
            first_only ==> sink.found() <= 1,
            done ==> first_only && sink.found() == 1,
            !done && first_only ==> sink.found() == 0,
            engine.wf(),
            s == engine.space(),
            all == s.completions(Seq::empty()),
            marks.blank(engine.target@.n()),
            sched.wf(),
            sched.workers() == workers,
            1 <= workers,
            sink.wf(),
            sink.keeps() == keep,
            grand_valid(engine, sched@),
            sink.found() + grand_yield(engine, sched@) == all.len(),
            keep ==> sink.stored().len() == sink.found(),
            !keep ==> sink.stored().len() == 0,
            forall|i: int|
                0 <= i < sink.stored().len() ==> is_embedding(
                    engine.pattern@,
                    engine.target@,
                    #[trigger] sink.stored()[i],
                    engine.edge_induced,
                ),
            keep ==> forall|e: Seq<int>| #[trigger]
                all.contains(e) ==> sink.stored().contains(s.to_mapping(e)) || grand_reaches(
                    engine,
                    sched@,
                    e,
                ),
        decreases grand_cost(engine, sched@),
    {
        let ghost round_start = sched@;
        let ghost start_cost = grand_cost(engine, sched@);
        let ghost mut progressed = false;
        let mut worker: usize = 0;
        while worker < workers && !done
            invariant
                first_only ==> sink.found() <= 1,
                done ==> first_only && sink.found() == 1,
                !done && first_only ==> sink.found() == 0,
                engine.wf(),
                s == engine.space(),
                all == s.completions(Seq::empty()),
                marks.blank(engine.target@.n()),
                sched.wf(),
                sched.workers() == workers,
                1 <= workers,
                worker <= workers,
                sink.wf(),
                sink.keeps() == keep,
                grand_valid(engine, sched@),
                sink.found() + grand_yield(engine, sched@) == all.len(),
                keep ==> sink.stored().len() == sink.found(),
                !keep ==> sink.stored().len() == 0,
                forall|i: int|
                    0 <= i < sink.stored().len() ==> is_embedding(
                        engine.pattern@,
                        engine.target@,
                        #[trigger] sink.stored()[i],
                        engine.edge_induced,
                    ),
                keep ==> forall|e: Seq<int>| #[trigger]
                    all.contains(e) ==> sink.stored().contains(s.to_mapping(e)) || grand_reaches(
                        engine,
                        sched@,
                        e,
                    ),
                progressed ==> grand_cost(engine, sched@) < start_cost,
                !progressed ==> sched@ == round_start,
                !progressed && worker > 0 ==> round_start[0].len() == 0,
                !progressed ==> forall|w: int| 0 <= w < worker ==> (#[trigger] round_start[w + 1]).len() == 0,
                start_cost == grand_cost(engine, round_start),
            decreases workers - worker,
        {
            let ghost stored0 = sink.stored();
            let ghost before = sched@;
            match take(engine, &mut sched, worker) {
                None => {},
                Some(item) => {
                    let ghost popped = sched@;
                    proof {
                        progressed = true;
                    }
                    match engine.expand(item, &mut marks) {
                        Expansion::Solution(m) => {
                            let ghost a = item.placed();
                            let now = if sink.any() {
                                0
                            } else {
                                watch.elapsed()
                            };
                            sink.record(m, now);
                            done = first_only;
                            proof {
                                if keep {
                                    assert(sink.stored().last() == s.to_mapping(a));
                                    assert forall|e: Seq<int>| #[trigger] all.contains(e) implies sink.stored().contains(
                                        s.to_mapping(e),
                                    ) || grand_reaches(engine, sched@, e) by {
                                        if stored0.contains(s.to_mapping(e)) {
                                            let i = choose|i: int|
                                                0 <= i < stored0.len() && stored0[i] == s.to_mapping(
                                                    e,
                                                );
                                            assert(sink.stored()[i] == s.to_mapping(e));
                                        } else if !grand_reaches(engine, popped, e) {
                                            assert(grand_reaches(engine, before, e));
                                            assert(e == a);
                                            assert(sink.stored()[stored0.len() as int] == s.to_mapping(
                                                e,
                                            ));
                                        }
                                    }
                                }
                            }
                        },
                        Expansion::Exhausted => {
                            proof {
                                if keep {
                                    assert forall|e: Seq<int>| #[trigger] all.contains(e) implies sink.stored().contains(
                                        s.to_mapping(e),
                                    ) || grand_reaches(engine, sched@, e) by {
                                        if !stored0.contains(s.to_mapping(e)) {
                                            assert(grand_reaches(engine, before, e));
                                        }
                                    }
                                }
                            }
                        },
                        Expansion::Advance(rest) => {
                            put(engine, &mut sched, worker, rest);
                            proof {
                                if keep {
                                    assert forall|e: Seq<int>| #[trigger] all.contains(e) implies sink.stored().contains(
                                        s.to_mapping(e),
                                    ) || grand_reaches(engine, sched@, e) by {
                                        if !stored0.contains(s.to_mapping(e)) {
                                            assert(grand_reaches(engine, before, e));
                                        }
                                    }
                                }
                            }
                        },
                        Expansion::Branch(rest, child) => {
                            put(engine, &mut sched, worker, rest);
                            let ghost mid = sched@;
                            put(engine, &mut sched, worker, child);
                            proof {
                                if keep {
                                    assert forall|e: Seq<int>| #[trigger] all.contains(e) implies sink.stored().contains(
                                        s.to_mapping(e),
                                    ) || grand_reaches(engine, sched@, e) by {
                                        if !stored0.contains(s.to_mapping(e)) {
                                            assert(grand_reaches(engine, before, e));
                                            if grand_reaches(engine, popped, e) {
                                                assert(grand_reaches(engine, mid, e));
                                            } else if engine.covered(&rest).contains(e) {
                                                assert(grand_reaches(engine, mid, e));
                                            }
                                        }
                                    }
                                }
                            }
                        },
                    }
                },
            }
            worker += 1;
        }
        proof {
            if !progressed {
                assert(!done);
                sched.lemma_wf();
                assert forall|k: int| 0 <= k < sched@.len() implies (#[trigger] sched@[k]).len()
                    == 0 by {
                    if k > 0 {
                        assert(round_start[(k - 1) + 1].len() == 0);
                    }
                }
            }
        }
    }
    proof {
        if !done {
            lemma_grand_empty(engine, sched@);
        }
        lemma_search_done(engine, first_only, keep, &sink, grand_yield(engine, sched@), !done);
    }
    sink
}

} // verus!
