use crate::bound::drain;
use crate::ir::{FunctionId, Instr, InstrLocId, InstrSeqId};
use crate::rules::{After, Rules, Turn};
use crate::sound::all_queued;
use crate::state::{ExecutionView, Status};
use vstd::prelude::*;

verus! {

/// Whether `after` is `before` with executions more at its end, none of
/// which was terminated.
pub open spec fn unstopped(before: Seq<ExecutionView>, after: Seq<ExecutionView>) -> bool {
    &&& before.len() <= after.len()
    &&& after.take(before.len() as int) == before
    &&& forall|j: int| before.len() <= j < after.len() ==> (#[trigger] after[j]).status != Status::Terminated
}

impl Rules {
    /// Whether the execution `e` was terminated at the bound: it stands
    /// at the start of a sequence that it has entered once more than the
    /// bound allows, and has entered no other more often than the bound
    /// allows.
    pub open spec fn stopped(self, e: ExecutionView) -> bool {
        &&& e.status == Status::Terminated
        &&& e.cur_location is None
        &&& Self::entries(e, e.cur_block) == self.max_hotness + 1
        &&& forall|block: InstrSeqId|
            block != e.cur_block ==> #[trigger] Self::entries(e, block) <= self.max_hotness
    }

    /// No instruction terminates an execution.
    pub proof fn lemma_visit_unstopped(self, t: Turn, instr: Instr, loc: InstrLocId)
        requires
            t.current.status == Status::Running,
        ensures
            match self.visit(t, instr, loc) {
                After::Go(next) => next.current.status == Status::Running && unstopped(
                    t.queue,
                    next.queue,
                ),
                After::End(outcome) => unstopped(t.queue, outcome.queue) && (outcome.result matches Ok(
                    Some(e),
                ) ==> e.status != Status::Terminated),
            },
    {
        reveal(Rules::visit);
        match self.visit(t, instr, loc) {
            After::Go(next) => {
                assert(next.queue.take(t.queue.len() as int) =~= t.queue);
            },
            After::End(outcome) => {
                assert(outcome.queue.take(t.queue.len() as int) =~= t.queue);
            },
        }
    }

    /// The instructions of a step terminate no execution.
    pub proof fn lemma_run_unstopped(
        self,
        t: Turn,
        func: FunctionId,
        block: InstrSeqId,
        skipped: bool,
        i: int,
    )
        requires
            t.current.status == Status::Running,
            0 <= i,
        ensures
            unstopped(t.queue, self.run(t, func, block, skipped, i).queue),
            self.run(t, func, block, skipped, i).result matches Ok(Some(e)) ==> e.status
                != Status::Terminated,
        decreases self.module.seqs[block as int].instrs.len() - i,
    {
        let instrs = self.module.seqs[block as int].instrs;
        if i < instrs.len() {
            let (instr, loc) = instrs[i];
            if Self::passes(t.current, skipped, loc) {
                self.lemma_run_unstopped(t, func, block, false, i + 1);
            } else {
                self.lemma_visit_unstopped(t, instr, loc);
                match self.visit(t, instr, loc) {
                    After::Go(next) => {
                        self.lemma_run_unstopped(next, func, block, true, i + 1);
                        let outcome = self.run(next, func, block, true, i + 1);
                        assert(outcome.queue.take(t.queue.len() as int) =~= next.queue.take(
                            t.queue.len() as int,
                        )) by {
                            assert(outcome.queue.take(next.queue.len() as int) == next.queue);
                        }
                        assert forall|j: int| t.queue.len() <= j < outcome.queue.len() implies (
                        #[trigger] outcome.queue[j]).status != Status::Terminated by {
                            if j < next.queue.len() {
                                assert(outcome.queue.take(next.queue.len() as int)[j] == next.queue[j]);
                            }
                        }
                    },
                    After::End(outcome) => {},
                }
            }
        } else {
            let outcome = self.fall_off(t, func, block);
            assert(outcome.queue.take(t.queue.len() as int) =~= t.queue);
        }
    }

    /// Termination at the bound. Let a running execution that has entered
    /// no sequence more often than the bound allows step, under a bound
    /// below the counter's range. Where the step hands out a terminated
    /// execution, the execution stood at the start of a sequence that it
    /// had entered as often as the bound allows; the step has counted the
    /// entry and has run no instruction: what it hands out differs from
    /// the execution in that counter and in the status alone, and the
    /// worklist and the next identifier are as before. So exactly that
    /// one counter is at the bound plus one. A step puts no terminated
    /// execution in the worklist.
    pub proof fn lemma_step_stops(self, t: Turn)
        requires
            self.cool(t.current),
            t.current.status == Status::Running,
            self.max_hotness < usize::MAX,
        ensures
            unstopped(t.queue, self.step(t).queue),
            self.step(t).result matches Ok(Some(e)) ==> e.status != Status::Terminated || {
                &&& t.current.cur_location is None
                &&& Self::entries(t.current, t.current.cur_block) == self.max_hotness
                &&& self.step(t) == t.finish(
                    ExecutionView {
                        hotness: t.current.hotness.insert(
                            t.current.cur_block,
                            (self.max_hotness + 1) as usize,
                        ),
                        status: Status::Terminated,
                        ..t.current
                    },
                )
                &&& self.stopped(e)
            },
    {
        let e = t.current;
        let block = e.cur_block;
        let count = Self::entries(e, block);
        assert(t.queue.take(t.queue.len() as int) =~= t.queue);
        assert(count <= self.max_hotness);
        if !(e.cur_location is Some && !e.hotness.dom().contains(block)) {
            let entered = if e.cur_location is None {
                ExecutionView { hotness: e.hotness.insert(block, (count + 1) as usize), ..e }
            } else {
                e
            };
            if Self::entries(entered, block) <= self.max_hotness {
                self.lemma_run_unstopped(t.with(entered), e.frame().func, block, e.cur_location is None, 0);
            } else {
                let out = entered.ended(Status::Terminated);
                assert forall|b: InstrSeqId| b != block implies #[trigger] Self::entries(out, b)
                    <= self.max_hotness by {
                    assert(Self::entries(out, b) == Self::entries(e, b));
                }
            }
        }
    }
}

/// Hotness bound of a whole run, under a bound below the counter's
/// range. Where no execution in the worklist was terminated or has
/// entered a sequence more often than the bound allows, every execution
/// that the run hands out has ended; one that was not terminated has
/// entered no sequence more often than the bound allows, and one that
/// was terminated stands at the start of the one sequence that it has
/// entered once more than the bound allows.
pub proof fn lemma_drain_stops(rules: Rules, queue: Seq<ExecutionView>, next_id: usize)
    requires
        rules.wf(),
        all_queued(queue, &rules.module),
        rules.max_hotness < usize::MAX,
        forall|i: int|
            0 <= i < queue.len() ==> rules.cool(#[trigger] queue[i]) && queue[i].status
                != Status::Terminated,
    ensures
        drain(rules, queue, next_id) matches Ok(done) ==> forall|i: int|
            0 <= i < done.len() ==> {
                &&& (#[trigger] done[i]).status != Status::Running
                &&& done[i].status != Status::Terminated ==> rules.cool(done[i])
                &&& done[i].status == Status::Terminated ==> rules.stopped(done[i])
            },
    decreases rules.potential(queue),
{
    if queue.len() != 0 {
        let t = Turn { current: queue[0], queue: queue.skip(1), next_id };
        let rest = queue.skip(1);
        rules.lemma_turn_falls(queue, next_id);
        assert(queue[0].queued(&rules.module));
        assert(rules.cool(queue[0]));
        rules.lemma_step_cool(t);
        if t.current.status == Status::Running {
            rules.lemma_step_stops(t);
        }
        let outcome = rules.step(t);
        assert forall|i: int| 0 <= i < outcome.queue.len() implies rules.cool(
            #[trigger] outcome.queue[i],
        ) && outcome.queue[i].status != Status::Terminated by {
            if i < rest.len() {
                assert(outcome.queue.take(rest.len() as int)[i] == rest[i]);
                assert(rules.cool(queue[i + 1]));
            }
        }
        if let Ok(first) = outcome.result {
            lemma_drain_stops(rules, outcome.queue, outcome.next_id);
        }
    }
}

} // verus!
