use crate::flow::Loc;
use crate::ir::{FunctionId, Instr, InstrLocId, InstrSeqId, Module};
use crate::machine::{fault_of, is_straight, straight_spec, top};
use crate::rules::{is_nonzero, is_zero, next_after, After, Outcome, Rules, Turn};
use crate::state::{ExecutionView, StateView, Status};
use crate::value::Val;
use vstd::prelude::*;

verus! {

/// Whether every execution of a worklist may stand in it.
pub open spec fn all_queued(queue: Seq<ExecutionView>, module: &Module) -> bool {
    forall|i: int| 0 <= i < queue.len() ==> (#[trigger] queue[i]).queued(module)
}

impl Outcome {
    /// What the engine keeps from step to step: every execution in the
    /// worklist may stand there, and one that is handed out has ended.
    pub open spec fn sound(self, module: &Module) -> bool {
        &&& all_queued(self.queue, module)
        &&& self.result matches Ok(Some(e)) ==> e.status != Status::Running
    }
}

impl Rules {
    /// A return from a function leaves an execution that may stand in the worklist.
    pub proof fn lemma_leave_queued(self, e: ExecutionView)
        requires
            e.live(&self.module),
        ensures
            e.leave().queued(&self.module),
            (ExecutionView { advance: false, ..e }).leave().queued(&self.module),
    {
        let frames = e.state.frames;
        if frames.len() >= 2 {
            let r = e.leave();
            assert(frames[frames.len() - 1].ret is Some);
            assert forall|i: int| 0 <= i < r.state.frames.len() implies {
                &&& (#[trigger] r.state.frames[i]).func < self.module.funcs.len()
                &&& self.module.funcs[r.state.frames[i].func as int].kind is Local
            } by {
                assert(r.state.frames[i].func == frames[i].func);
            }
            assert forall|i: int| 1 <= i < r.state.frames.len() implies {
                &&& (#[trigger] r.state.frames[i]).ret is Some
                &&& r.state.frames[i].ret.unwrap().block < self.module.seqs.len()
            } by {
                assert(r.state.frames[i].ret == frames[i].ret);
            }
            let r2 = (ExecutionView { advance: false, ..e }).leave();
            assert(r2.state == r.state);
        }
    }

    /// A branch leaves an execution that may stand in the worklist.
    pub proof fn lemma_jump_queued(self, e: ExecutionView, target: InstrSeqId)
        requires
            self.wf(),
            e.live(&self.module),
            target < self.module.seqs.len(),
        ensures
            self.jump(e, target).queued(&self.module),
    {
        self.lemma_leave_queued(e);
        let f = e.frame().func;
        assert(e.state.frames[e.state.frames.len() - 1].func == f);
        assert(self.info[f as int] is Some);
        let info = self.info_of(f);
        assert(info.as_walk().info_wf(&self.module));
        if info.ends.dom().contains(target) {
            assert(info.as_walk().ends.dom().contains(target));
            assert(info.ends[target].block < target);
        }
    }

    /// Changing the current frame's stack and locals, the memory, the
    /// checks, the constraints or the identifier leaves a live execution live.
    pub proof fn lemma_live_kept(self, e: ExecutionView, r: ExecutionView)
        requires
            e.live(&self.module),
            r.status == e.status,
            r.cur_block == e.cur_block,
            r.state.frames.len() == e.state.frames.len(),
            forall|i: int|
                0 <= i < e.state.frames.len() ==> (#[trigger] r.state.frames[i]).func
                    == e.state.frames[i].func && r.state.frames[i].ret == e.state.frames[i].ret,
        ensures
            r.live(&self.module),
    {
        assert forall|i: int| 0 <= i < r.state.frames.len() implies {
            &&& (#[trigger] r.state.frames[i]).func < self.module.funcs.len()
            &&& self.module.funcs[r.state.frames[i].func as int].kind is Local
        } by {
            assert(e.state.frames[i].func < self.module.funcs.len());
        }
        assert forall|i: int| 1 <= i < r.state.frames.len() implies {
            &&& (#[trigger] r.state.frames[i]).ret is Some
            &&& r.state.frames[i].ret.unwrap().block < self.module.seqs.len()
        } by {
            assert(e.state.frames[i].ret is Some);
        }
    }

    /// An instruction keeps the engine sound.
    pub proof fn lemma_instr_sound(self, t: Turn, instr: Instr, loc: InstrLocId, seq: int)
        requires
            self.wf(),
            t.current.live(&self.module),
            all_queued(t.queue, &self.module),
            self.module.instr_wf(instr, seq),
            0 <= seq < self.module.seqs.len(),
        ensures
            match self.instr(t, instr, loc) {
                After::Go(next) => next.current.live(&self.module) && all_queued(
                    next.queue,
                    &self.module,
                ),
                After::End(outcome) => outcome.sound(&self.module),
            },
    {
        let m = &self.module;
        let e = t.current;
        let seen = e.observed(instr, loc);
        self.lemma_live_kept(e, seen);
        if is_straight(instr) {
            if fault_of(e.frame(), e.state.memory, instr) is None {
                let (frame, memory, trap) = straight_spec(seen.frame(), seen.state.memory, instr);
                let done = seen.with_machine(frame, memory);
                assert(frame.func == seen.frame().func && frame.ret == seen.frame().ret);
                self.lemma_live_kept(seen, done);
            }
        } else {
            let e = seen;
            let t = t.with(seen);
            match instr {
                Instr::Block { seq: sub } => {
                    self.lemma_live_kept(e, e.at(e.cur_block, None));
                    assert(e.at(sub, None).live(m));
                },
                Instr::Loop { seq: sub } => {
                    self.lemma_live_kept(e, e.at(e.cur_block, None));
                    assert(e.at(sub, None).live(m));
                },
                Instr::Br { block } => {
                    self.lemma_jump_queued(e, block);
                },
                Instr::BrIf { block } => {
                    if e.frame().stack.len() >= 1 {
                        let p = e.popped(1);
                        self.lemma_live_kept(e, p);
                        self.lemma_jump_queued(p, block);
                        if let Val::Sym(val) = top(e.frame().stack, 1) {
                            let fork = ExecutionView { id: t.next_id, ..p }.constrained(
                                is_nonzero(val),
                            );
                            self.lemma_live_kept(p, fork);
                            self.lemma_jump_queued(fork, block);
                            self.lemma_live_kept(p, p.constrained(is_zero(val)));
                        }
                    }
                },
                Instr::IfElse { consequent, alternative } => {
                    if e.frame().stack.len() >= 1 {
                        let p = e.popped(1);
                        self.lemma_live_kept(e, p);
                        match top(e.frame().stack, 1) {
                            Val::Conc(val) => {
                                assert(p.at(consequent, None).live(m));
                                assert(p.at(alternative, None).live(m));
                            },
                            Val::Sym(val) => {
                                let a = ExecutionView { id: t.next_id, ..p }.constrained(
                                    is_nonzero(val),
                                );
                                self.lemma_live_kept(p, a);
                                assert(a.at(consequent, None).live(m));
                                let b = ExecutionView {
                                    id: next_after(t.next_id),
                                    ..p
                                }.constrained(is_zero(val));
                                self.lemma_live_kept(p, b);
                                assert(b.at(alternative, None).live(m));
                            },
                        }
                    }
                },
                Instr::Call { func } => {
                    let count = self.args_of(func).len();
                    let stack = e.frame().stack;
                    if self.call_fault(func) is None && stack.len() >= count {
                        let caller = e.popped(count as int);
                        self.lemma_live_kept(e, caller);
                        let callee = self.callee_frame(
                            func,
                            Loc { block: e.cur_block, loc },
                            stack.skip(stack.len() - count),
                        );
                        let r = ExecutionView {
                            state: StateView {
                                frames: caller.state.frames.push(callee),
                                memory: caller.state.memory,
                            },
                            ..caller
                        }.at(self.entry_of(func), None);
                        assert(m.func_wf(func as int));
                        assert forall|i: int| 0 <= i < r.state.frames.len() implies {
                            &&& (#[trigger] r.state.frames[i]).func < m.funcs.len()
                            &&& m.funcs[r.state.frames[i].func as int].kind is Local
                        } by {
                            if i < caller.state.frames.len() {
                                assert(caller.state.frames[i].func < m.funcs.len());
                            }
                        }
                        assert forall|i: int| 1 <= i < r.state.frames.len() implies {
                            &&& (#[trigger] r.state.frames[i]).ret is Some
                            &&& r.state.frames[i].ret.unwrap().block < m.seqs.len()
                        } by {
                            if i < caller.state.frames.len() {
                                assert(caller.state.frames[i].ret is Some);
                            }
                        }
                        assert(r.live(m));
                    }
                },
                _ => {},
            }
        }
    }

    /// The end of a sequence keeps the engine sound.
    pub proof fn lemma_fall_off_sound(self, t: Turn, func: FunctionId, block: InstrSeqId)
        requires
            self.wf(),
            t.current.live(&self.module),
            all_queued(t.queue, &self.module),
            func == t.current.frame().func,
        ensures
            self.fall_off(t, func, block).sound(&self.module),
    {
        let e = ExecutionView { advance: false, ..t.current };
        self.lemma_live_kept(t.current, e);
        self.lemma_leave_queued(e);
        assert(t.current.state.frames[t.current.state.frames.len() - 1].func == func);
        assert(self.info[func as int] is Some);
        let info = self.info_of(func);
        assert(info.as_walk().info_wf(&self.module));
        if info.ends.dom().contains(block) {
            assert(info.as_walk().ends.dom().contains(block));
            assert(info.ends[block].block < block < self.module.seqs.len());
            assert(e.at(info.ends[block].block, Some(info.ends[block].loc)).live(&self.module));
        }
    }

    /// A visit to an instruction keeps the engine sound, and where the
    /// step goes on the execution is in the function that it was in.
    pub proof fn lemma_visit_sound(self, t: Turn, instr: Instr, loc: InstrLocId, seq: int)
        requires
            self.wf(),
            t.current.live(&self.module),
            all_queued(t.queue, &self.module),
            self.module.instr_wf(instr, seq),
            0 <= seq < self.module.seqs.len(),
        ensures
            match self.visit(t, instr, loc) {
                After::Go(next) => {
                    &&& next.current.live(&self.module)
                    &&& all_queued(next.queue, &self.module)
                    &&& next.current.frame().func == t.current.frame().func
                },
                After::End(outcome) => outcome.sound(&self.module),
            },
    {
        reveal(Rules::visit);
        let e = t.current;
        let here = ExecutionView { cur_location: Some(loc), ..e };
        self.lemma_live_kept(e, here);
        if here.advance {
            let next = ExecutionView { advance: false, ..here };
            self.lemma_live_kept(here, next);
        } else {
            self.lemma_instr_sound(t.with(here), instr, loc, seq);
            self.lemma_instr_frame(t.with(here), instr, loc);
        }
    }

    /// The rest of a step keeps the engine sound.
    pub proof fn lemma_run_sound(
        self,
        t: Turn,
        func: FunctionId,
        block: InstrSeqId,
        skipped: bool,
        i: int,
    )
        requires
            self.wf(),
            t.current.live(&self.module),
            all_queued(t.queue, &self.module),
            func == t.current.frame().func,
            block < self.module.seqs.len(),
            0 <= i,
        ensures
            self.run(t, func, block, skipped, i).sound(&self.module),
        decreases self.module.seqs[block as int].instrs.len() - i,
    {
        let instrs = self.module.seqs[block as int].instrs;
        if i < instrs.len() {
            let (instr, loc) = instrs[i];
            assert(self.module.instr_wf(self.module.seqs[block as int].instrs[i].0, block as int));
            if Self::passes(t.current, skipped, loc) {
                self.lemma_run_sound(t, func, block, false, i + 1);
            } else {
                self.lemma_visit_sound(t, instr, loc, block as int);
                match self.visit(t, instr, loc) {
                    After::Go(next) => {
                        self.lemma_run_sound(next, func, block, true, i + 1);
                    },
                    After::End(outcome) => {},
                }
            }
        } else {
            self.lemma_fall_off_sound(t, func, block);
        }
    }

    /// An instruction after which the step goes on has left the execution
    /// in the function that it was in.
    pub proof fn lemma_instr_frame(self, t: Turn, instr: Instr, loc: InstrLocId)
        requires
            t.current.state.frames.len() >= 1,
        ensures
            self.instr(t, instr, loc) matches After::Go(next) ==> next.current.frame().func
                == t.current.frame().func && next.current.state.frames.len()
                == t.current.state.frames.len(),
    {
    }

    /// Soundness of a step: where every execution in the worklist may
    /// stand there and so may the one that steps, the same holds after the
    /// step, and an execution that the step hands out has ended.
    pub proof fn lemma_step_sound(self, t: Turn)
        requires
            self.wf(),
            t.current.queued(&self.module),
            all_queued(t.queue, &self.module),
        ensures
            self.step(t).sound(&self.module),
    {
        let e = t.current;
        if e.status == Status::Running {
            let block = e.cur_block;
            let count = Self::entries(e, block);
            if !(e.cur_location is None && count == usize::MAX) {
                let entered = if e.cur_location is None {
                    ExecutionView { hotness: e.hotness.insert(block, (count + 1) as usize), ..e }
                } else {
                    e
                };
                self.lemma_live_kept(e, entered);
                if Self::entries(entered, block) <= self.max_hotness {
                    self.lemma_run_sound(
                        t.with(entered),
                        e.frame().func,
                        block,
                        e.cur_location is None,
                        0,
                    );
                }
            }
        }
    }
}

} // verus!
