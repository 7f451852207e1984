use crate::bound::drain;
use crate::checks::Check;
use crate::ir::{FunctionId, Instr, InstrLocId, InstrSeqId};
use crate::machine::Fault;
use crate::rules::{explored, next_after, with_checks, After, Outcome, Rules, Turn};
use crate::sound::all_queued;
use crate::state::{ExecutionView, Status};
use vstd::prelude::*;

verus! {

/// How many identifiers one instruction took, from the counter before
/// and after it. An instruction takes none, one or two.
pub open spec fn gap(before: usize, after: usize) -> nat {
    if after == before {
        0
    } else if after == next_after(before) {
        1
    } else {
        2
    }
}

/// Whether the identifiers of `es` are pairwise distinct and below `next_id`.
pub open spec fn distinct_below(es: Seq<ExecutionView>, next_id: usize) -> bool {
    &&& forall|i: int| 0 <= i < es.len() ==> (#[trigger] es[i]).id < next_id
    &&& forall|i: int, j: int| 0 <= i < j < es.len() ==> (#[trigger] es[i]).id != (#[trigger] es[j]).id
}

/// Whether `after` is `before` with executions more at its end, each of
/// which is the execution `source` itself or a fork of it under an
/// identifier from `low` on.
pub open spec fn forked(before: Seq<ExecutionView>, after: Seq<ExecutionView>, source: usize, low: usize) -> bool {
    &&& before.len() <= after.len()
    &&& after.take(before.len() as int) == before
    &&& forall|j: int|
        before.len() <= j < after.len() ==> (#[trigger] after[j]).id == source || low <= after[j].id
}

impl Turn {
    /// Whether no identifier is in use twice and the counter is above all
    /// that are in use.
    pub open spec fn fresh(self) -> bool {
        &&& self.current.id < self.next_id
        &&& distinct_below(self.queue, self.next_id)
        &&& forall|i: int| 0 <= i < self.queue.len() ==> (#[trigger] self.queue[i]).id != self.current.id
    }
}

impl Outcome {
    /// Whether no identifier is in use twice, in the worklist or by the
    /// execution handed out, and the counter is above all that are in use.
    pub open spec fn fresh(self) -> bool {
        &&& distinct_below(self.queue, self.next_id)
        &&& self.result matches Ok(Some(e)) ==> {
            &&& e.id < self.next_id
            &&& forall|i: int| 0 <= i < self.queue.len() ==> (#[trigger] self.queue[i]).id != e.id
        }
    }
}

impl Rules {
    /// The number of identifiers that the rest of a step takes, from the
    /// `i`-th instruction of the sequence `block` on.
    pub open spec fn taken_from(self, t: Turn, block: InstrSeqId, skipped: bool, i: int) -> nat
        decreases self.module.seqs[block as int].instrs.len() - i,
    {
        let instrs = self.module.seqs[block as int].instrs;
        if 0 <= i < instrs.len() {
            let (instr, loc) = instrs[i];
            if Self::passes(t.current, skipped, loc) {
                self.taken_from(t, block, false, i + 1)
            } else {
                match self.visit(t, instr, loc) {
                    After::Go(next) => gap(t.next_id, next.next_id) + self.taken_from(
                        next,
                        block,
                        true,
                        i + 1,
                    ),
                    After::End(outcome) => gap(t.next_id, outcome.next_id),
                }
            }
        } else {
            0
        }
    }

    /// The number of identifiers that one step takes: those that the
    /// instructions take which it runs.
    pub open spec fn taken(self, t: Turn) -> nat {
        let e = t.current;
        let block = e.cur_block;
        let count = Self::entries(e, block);
        if e.status != Status::Running {
            0
        } else if e.cur_location is Some && !e.hotness.dom().contains(block) {
            0
        } else if e.cur_location is None && count == usize::MAX {
            0
        } else {
            let entered = if e.cur_location is None {
                ExecutionView { hotness: e.hotness.insert(block, (count + 1) as usize), ..e }
            } else {
                e
            };
            if Self::entries(entered, block) > self.max_hotness {
                0
            } else {
                self.taken_from(t.with(entered), block, e.cur_location is None, 0)
            }
        }
    }

    /// What an instruction does to the identifiers: the execution that
    /// runs it keeps its own, each fork takes the next unused one, and
    /// the counter moves past those that were taken. So none is in use
    /// twice afterwards.
    pub proof fn lemma_visit_ids(self, t: Turn, instr: Instr, loc: InstrLocId)
        requires
            t.fresh(),
            match self.visit(t, instr, loc) {
                After::Go(next) => t.next_id + gap(t.next_id, next.next_id) <= usize::MAX,
                After::End(outcome) => t.next_id + gap(t.next_id, outcome.next_id) <= usize::MAX,
            },
        ensures
            match self.visit(t, instr, loc) {
                After::Go(next) => {
                    &&& next.fresh()
                    &&& next.current.id == t.current.id
                    &&& next.next_id == t.next_id + gap(t.next_id, next.next_id)
                    &&& forked(t.queue, next.queue, t.current.id, t.next_id)
                },
                After::End(outcome) => {
                    &&& outcome.fresh()
                    &&& outcome.result matches Ok(Some(e)) ==> e.id == t.current.id
                    &&& outcome.next_id == t.next_id + gap(t.next_id, outcome.next_id)
                    &&& forked(t.queue, outcome.queue, t.current.id, t.next_id)
                },
            },
    {
        reveal(Rules::visit);
        match self.visit(t, instr, loc) {
            After::Go(next) => {
                assert(next.queue.take(t.queue.len() as int) =~= t.queue);
            },
            After::End(outcome) => {
                assert(outcome.queue.take(t.queue.len() as int) =~= t.queue);
            },
        }
    }

    /// What the rest of a step does to the identifiers: as each of its
    /// instructions.
    pub proof fn lemma_run_ids(self, t: Turn, func: FunctionId, block: InstrSeqId, skipped: bool, i: int)
        requires
            0 <= i,
            t.fresh(),
            t.next_id + self.taken_from(t, block, skipped, i) <= usize::MAX,
        ensures
            ({
                let outcome = self.run(t, func, block, skipped, i);
                &&& outcome.fresh()
                &&& outcome.result matches Ok(Some(e)) ==> e.id == t.current.id
                &&& outcome.next_id == t.next_id + self.taken_from(t, block, skipped, i)
                &&& forked(t.queue, outcome.queue, t.current.id, t.next_id)
            }),
        decreases self.module.seqs[block as int].instrs.len() - i,
    {
        let instrs = self.module.seqs[block as int].instrs;
        if i < instrs.len() {
            let (instr, loc) = instrs[i];
            if Self::passes(t.current, skipped, loc) {
                self.lemma_run_ids(t, func, block, false, i + 1);
            } else {
                self.lemma_visit_ids(t, instr, loc);
                match self.visit(t, instr, loc) {
                    After::Go(next) => {
                        self.lemma_run_ids(next, func, block, true, i + 1);
                        let outcome = self.run(next, func, block, true, i + 1);
                        assert(outcome.queue.take(t.queue.len() as int) =~= next.queue.take(
                            t.queue.len() as int,
                        )) by {
                            assert(outcome.queue.take(next.queue.len() as int) == next.queue);
                        }
                        assert forall|j: int| t.queue.len() <= j < outcome.queue.len() implies (
                        #[trigger] outcome.queue[j]).id == t.current.id || t.next_id
                            <= outcome.queue[j].id by {
                            if j < next.queue.len() {
                                assert(outcome.queue.take(next.queue.len() as int)[j] == next.queue[j]);
                            }
                        }
                    },
                    After::End(outcome) => {},
                }
            }
        } else {
            let outcome = self.fall_off(t, func, block);
            assert(outcome.queue.take(t.queue.len() as int) =~= t.queue);
        }
    }

    /// Identifiers in one step. Where no identifier is in use twice, the
    /// counter is above all that are in use, and the counter has room for
    /// those that the step takes: afterwards no identifier is in use
    /// twice and the counter is above all in use; the execution that
    /// stepped keeps its identifier, where it is handed out and where it
    /// goes back to the worklist; and every fork that joins the worklist
    /// has an identifier from the old counter on, which is above its
    /// source's.
    pub proof fn lemma_step_ids(self, t: Turn)
        requires
            t.fresh(),
            t.next_id + self.taken(t) <= usize::MAX,
        ensures
            ({
                let outcome = self.step(t);
                &&& outcome.fresh()
                &&& outcome.result matches Ok(Some(e)) ==> e.id == t.current.id
                &&& outcome.next_id == t.next_id + self.taken(t)
                &&& forked(t.queue, outcome.queue, t.current.id, t.next_id)
                &&& forall|j: int|
                    t.queue.len() <= j < outcome.queue.len() && (#[trigger] outcome.queue[j]).id
                        != t.current.id ==> outcome.queue[j].id > t.current.id
            }),
    {
        let e = t.current;
        let block = e.cur_block;
        let count = Self::entries(e, block);
        assert(t.queue.take(t.queue.len() as int) =~= t.queue);
        if e.status == Status::Running && !(e.cur_location is Some && !e.hotness.dom().contains(block))
            && !(e.cur_location is None && count == usize::MAX) {
            let entered = if e.cur_location is None {
                ExecutionView { hotness: e.hotness.insert(block, (count + 1) as usize), ..e }
            } else {
                e
            };
            if Self::entries(entered, block) <= self.max_hotness {
                self.lemma_run_ids(t.with(entered), e.frame().func, block, e.cur_location is None, 0);
            }
        }
    }
}

/// The number of identifiers that a run of the worklist to its end takes.
pub open spec fn spent(rules: Rules, queue: Seq<ExecutionView>, next_id: usize) -> nat
    decreases rules.potential(queue),
    when rules.wf() && all_queued(queue, &rules.module)
    via spent_decreases
{
    if queue.len() == 0 {
        0
    } else {
        let t = Turn { current: queue[0], queue: queue.skip(1), next_id };
        let outcome = rules.step(t);
        rules.taken(t) + if outcome.result is Ok {
            spent(rules, outcome.queue, outcome.next_id)
        } else {
            0
        }
    }
}

#[via_fn]
proof fn spent_decreases(rules: Rules, queue: Seq<ExecutionView>, next_id: usize) {
    if queue.len() != 0 {
        rules.lemma_turn_falls(queue, next_id);
    }
}

/// Whether `id` is the identifier of one of `es`.
pub open spec fn has_id(es: Seq<ExecutionView>, id: usize) -> bool {
    exists|i: int| 0 <= i < es.len() && (#[trigger] es[i]).id == id
}

/// Identifiers in a whole run. Where the identifiers in the worklist are
/// pairwise distinct and below the counter, and the counter has room for
/// those that the run takes, the executions that the run hands out have
/// pairwise distinct identifiers: each is one of the worklist, kept by
/// the execution that had it, or one that the run took from the counter,
/// and so above all of the worklist.
pub proof fn lemma_drain_ids(rules: Rules, queue: Seq<ExecutionView>, next_id: usize)
    requires
        rules.wf(),
        all_queued(queue, &rules.module),
        distinct_below(queue, next_id),
        next_id + spent(rules, queue, next_id) <= usize::MAX,
    ensures
        drain(rules, queue, next_id) matches Ok(done) ==> {
            &&& forall|i: int, j: int|
                0 <= i < j < done.len() ==> (#[trigger] done[i]).id != (#[trigger] done[j]).id
            &&& forall|i: int|
                0 <= i < done.len() ==> has_id(queue, (#[trigger] done[i]).id) || next_id
                    <= done[i].id < next_id + spent(rules, queue, next_id)
        },
    decreases rules.potential(queue),
{
    if queue.len() != 0 {
        let t = Turn { current: queue[0], queue: queue.skip(1), next_id };
        rules.lemma_turn_falls(queue, next_id);
        let outcome = rules.step(t);
        assert(t.fresh()) by {
            assert forall|i: int| 0 <= i < t.queue.len() implies (#[trigger] t.queue[i]).id
                != t.current.id && t.queue[i].id < next_id by {
                assert(t.queue[i] == queue[i + 1]);
            }
            assert forall|i: int, j: int| 0 <= i < j < t.queue.len() implies (#[trigger] t.queue[i]).id != (
            #[trigger] t.queue[j]).id by {
                assert(t.queue[i] == queue[i + 1]);
                assert(t.queue[j] == queue[j + 1]);
            }
        }
        rules.lemma_step_ids(t);
        if let Ok(first) = outcome.result {
            lemma_drain_ids(rules, outcome.queue, outcome.next_id);
            if let Ok(rest) = drain(rules, outcome.queue, outcome.next_id) {
                let done = drain(rules, queue, next_id)->Ok_0;
                assert forall|i: int| 0 <= i < rest.len() implies (has_id(queue, (#[trigger] rest[i]).id)
                    || next_id <= rest[i].id < next_id + spent(rules, queue, next_id)) && (first matches Some(
                    e,
                ) ==> rest[i].id != e.id) by {
                    if has_id(outcome.queue, rest[i].id) {
                        let k = choose|k: int|
                            0 <= k < outcome.queue.len() && (#[trigger] outcome.queue[k]).id
                                == rest[i].id;
                        if k < t.queue.len() {
                            assert(outcome.queue.take(t.queue.len() as int)[k] == t.queue[k]);
                            assert(queue[k + 1].id == rest[i].id);
                        } else if outcome.queue[k].id == t.current.id {
                            assert(queue[0].id == rest[i].id);
                        }
                    }
                }
                assert(queue[0].id == t.current.id);
                match first {
                    Some(e) => {
                        assert(done =~= seq![e] + rest);
                        assert forall|i: int| 0 <= i < done.len() implies has_id(
                            queue,
                            (#[trigger] done[i]).id,
                        ) || next_id <= done[i].id < next_id + spent(rules, queue, next_id) by {
                            if i > 0 {
                                assert(done[i] == rest[i - 1]);
                            }
                        }
                        assert forall|i: int, j: int| 0 <= i < j < done.len() implies (
                        #[trigger] done[i]).id != (#[trigger] done[j]).id by {
                            assert(done[j] == rest[j - 1]);
                            if i > 0 {
                                assert(done[i] == rest[i - 1]);
                            }
                        }
                    },
                    None => {
                        assert(done =~= rest);
                    },
                }
            }
        }
    }
}

/// Identifiers of an analysis. Let a run start from an empty worklist
/// with a seed that has just taken the identifier `next_id`, and let the
/// counter have room for the identifiers that the run takes. Then the
/// executions that it hands out have pairwise distinct identifiers, none
/// below the seed's.
pub proof fn lemma_explored_ids(
    rules: Rules,
    checks: Seq<Check>,
    seed: ExecutionView,
    next_id: usize,
    outcome: Result<Seq<ExecutionView>, Fault>,
)
    requires
        rules.wf(),
        with_checks(seed, checks).queued(&rules.module),
        seed.id == next_id,
        next_id < usize::MAX,
        next_id + 1 + spent(rules, seq![with_checks(seed, checks)], next_after(next_id))
            <= usize::MAX,
        explored(rules, Seq::empty(), checks, seed, true, next_id, outcome),
    ensures
        outcome matches Ok(done) ==> {
            &&& forall|i: int, j: int|
                0 <= i < j < done.len() ==> (#[trigger] done[i]).id != (#[trigger] done[j]).id
            &&& forall|i: int| 0 <= i < done.len() ==> (#[trigger] done[i]).id >= seed.id
        },
{
    let first = with_checks(seed, checks);
    let queue = seq![first];
    assert(Seq::<ExecutionView>::empty().push(first) =~= queue);
    lemma_drain_ids(rules, queue, next_after(next_id));
    if let Ok(done) = outcome {
        assert forall|i: int| 0 <= i < done.len() implies (#[trigger] done[i]).id >= seed.id by {
            if has_id(queue, done[i].id) {
                let k = choose|k: int| 0 <= k < queue.len() && (#[trigger] queue[k]).id == done[i].id;
                assert(queue[k] == first);
            }
        }
    }
}

} // verus!
