use crate::bound::drain;
use crate::checks::{check_views, Check};
use crate::context::zero32;
use crate::flow::{BlockKind, InfoView, Loc, Walk};
use crate::ir::{FunctionId, FunctionKind, Instr, InstrLocId, InstrSeqId, LocalId, Module};
use crate::machine::{below, fault_of, is_straight, straight_spec, top, Fault};
use crate::memory::Memory;
use crate::state::{ExecutionView, FrameView, StateView, Status};
use crate::term::{ArrayTerm, BoolTerm, BvTerm, Rel};
use crate::text::local_name;
use crate::value::{from_bits, ConcVal, SymVal, Val};
use vstd::prelude::*;

verus! {

broadcast use vstd::std_specs::hash::group_hash_axioms;

/// What decides how an execution steps: the module, what the pre-pass
/// recorded of each function with a body, and the bound on entries.
pub struct Rules {
    pub module: Module,
    pub info: Seq<Option<InfoView>>,
    pub max_hotness: usize,
}

/// The engine between two instructions of a step: the execution that
/// steps, the worklist, and the next unused identifier.
pub struct Turn {
    pub current: ExecutionView,
    pub queue: Seq<ExecutionView>,
    pub next_id: usize,
}

/// How a step ends: with a finished execution, with none, or on a fault;
/// and the worklist and the next unused identifier after it.
pub struct Outcome {
    pub result: Result<Option<ExecutionView>, Fault>,
    pub queue: Seq<ExecutionView>,
    pub next_id: usize,
}

/// What an instruction leaves: the step goes on, or it has ended.
pub enum After {
    Go(Turn),
    End(Outcome),
}

/// Where a branch leads.
pub enum Jump {
    /// Nowhere that the engine knows: the target has an end, and neither
    /// a `block` nor a `loop` introduced it.
    Lost,
    /// Out of the function.
    Exit,
    /// To a place in a sequence; no location means the start.
    To(InstrSeqId, Option<InstrLocId>),
}

/// That the condition `cond` is zero.
pub open spec fn is_zero(cond: SymVal) -> BoolTerm {
    BoolTerm::Compare { rel: Rel::Eq, lhs: Box::new(cond.term()), rhs: Box::new(zero32()) }
}

/// That the condition `cond` is not zero.
pub open spec fn is_nonzero(cond: SymVal) -> BoolTerm {
    BoolTerm::Not { arg: Box::new(is_zero(cond)) }
}

/// `locals` with each parameter bound to its argument, a later one
/// winning where a parameter occurs twice.
pub open spec fn bind_args(locals: Map<LocalId, Val>, args: Seq<LocalId>, vals: Seq<Val>) -> Map<
    LocalId,
    Val,
>
    decreases args.len(),
{
    if args.len() == 0 {
        locals
    } else {
        bind_args(locals, args.drop_last(), vals).insert(args.last(), vals[args.len() - 1])
    }
}

/// `locals` with a concrete zero for each local of `ids` that it lacks.
pub open spec fn fill_zero(locals: Map<LocalId, Val>, ids: Seq<LocalId>) -> Map<LocalId, Val>
    decreases ids.len(),
{
    if ids.len() == 0 {
        locals
    } else {
        let filled = fill_zero(locals, ids.drop_last());
        if filled.dom().contains(ids.last()) {
            filled
        } else {
            filled.insert(ids.last(), Val::Conc(ConcVal(0)))
        }
    }
}

/// The next identifier after `id`. The counter wraps around.
pub open spec fn next_after(id: usize) -> usize {
    if id == usize::MAX {
        0
    } else {
        (id + 1) as usize
    }
}

impl ExecutionView {
    /// The current frame.
    pub open spec fn frame(self) -> FrameView {
        self.state.frames.last()
    }

    /// This execution with `frame` as its current frame and `memory` as its memory.
    pub open spec fn with_machine(self, frame: FrameView, memory: Option<Memory>) -> ExecutionView {
        ExecutionView {
            state: StateView {
                frames: self.state.frames.update(self.state.frames.len() - 1, frame),
                memory,
            },
            ..self
        }
    }

    /// This execution with the top `n` values taken from the stack of its current frame.
    pub open spec fn popped(self, n: int) -> ExecutionView {
        self.with_machine(
            FrameView { stack: below(self.frame().stack, n), ..self.frame() },
            self.state.memory,
        )
    }

    /// This execution at another place.
    pub open spec fn at(self, block: InstrSeqId, loc: Option<InstrLocId>) -> ExecutionView {
        ExecutionView { cur_block: block, cur_location: loc, ..self }
    }

    /// This execution with one more path constraint.
    pub open spec fn constrained(self, constraint: BoolTerm) -> ExecutionView {
        ExecutionView { constraints: self.constraints.push(constraint), ..self }
    }

    /// This execution with another status.
    pub open spec fn ended(self, status: Status) -> ExecutionView {
        ExecutionView { status, ..self }
    }

    /// This execution after every check has looked at the state before `instr`.
    pub open spec fn observed(self, instr: Instr, loc: InstrLocId) -> ExecutionView {
        ExecutionView {
            checks: Seq::new(
                self.checks.len(),
                |i: int| self.checks[i].observe(self.state, instr, loc),
            ),
            ..self
        }
    }

    /// The current function returns. Where it is the entry function,
    /// the execution is complete and keeps its frame, so that the result
    /// can be read. Else the frame goes, its values pass to the caller's
    /// stack in their order, and the caller resumes at the call, which the
    /// next step skips.
    pub open spec fn leave(self) -> ExecutionView {
        let frames = self.state.frames;
        if frames.len() <= 1 {
            ExecutionView { status: Status::Complete, advance: false, ..self }
        } else {
            let callee = frames[frames.len() - 1];
            let caller = frames[frames.len() - 2];
            ExecutionView {
                state: StateView {
                    frames: frames.take(frames.len() - 2).push(
                        FrameView { stack: caller.stack + callee.stack, ..caller },
                    ),
                    memory: self.state.memory,
                },
                cur_block: callee.ret.unwrap().block,
                cur_location: Some(callee.ret.unwrap().loc),
                advance: true,
                ..self
            }
        }
    }

    /// Whether an execution can step in `module`: it is running, has a
    /// current frame, every frame belongs to a function with a body,
    /// every frame but the first knows where its caller resumes, and the
    /// current sequence is one of the module's.
    pub open spec fn live(self, module: &Module) -> bool {
        &&& self.status == Status::Running
        &&& self.state.frames.len() >= 1
        &&& self.cur_block < module.seqs.len()
        &&& forall|i: int|
            0 <= i < self.state.frames.len() ==> {
                &&& (#[trigger] self.state.frames[i]).func < module.funcs.len()
                &&& module.funcs[self.state.frames[i].func as int].kind is Local
            }
        &&& forall|i: int|
            1 <= i < self.state.frames.len() ==> {
                &&& (#[trigger] self.state.frames[i]).ret is Some
                &&& self.state.frames[i].ret.unwrap().block < module.seqs.len()
            }
    }

    /// Whether an execution may stand in the worklist: it can step, or
    /// it has ended and only waits to be handed out.
    pub open spec fn queued(self, module: &Module) -> bool {
        self.status != Status::Running || self.live(module)
    }
}

impl Turn {
    /// The turn with `e` as the execution that steps.
    pub open spec fn with(self, e: ExecutionView) -> Turn {
        Turn { current: e, ..self }
    }

    /// The step ends and hands out `e`.
    pub open spec fn finish(self, e: ExecutionView) -> Outcome {
        Outcome { result: Ok(Some(e)), queue: self.queue, next_id: self.next_id }
    }

    /// The step ends and puts `e` at the back of the worklist.
    pub open spec fn requeue(self, e: ExecutionView) -> Outcome {
        Outcome { result: Ok(None), queue: self.queue.push(e), next_id: self.next_id }
    }

    /// The step ends with `e`: handed out where it has ended, else back
    /// in the worklist.
    pub open spec fn settle(self, e: ExecutionView) -> Outcome {
        if e.status != Status::Running {
            self.finish(e)
        } else {
            self.requeue(e)
        }
    }

    /// The step ends on a fault.
    pub open spec fn fail(self, fault: Fault) -> Outcome {
        Outcome { result: Err(fault), queue: self.queue, next_id: self.next_id }
    }
}

impl Rules {
    /// What the pre-pass recorded of the function `f`.
    pub open spec fn info_of(self, f: FunctionId) -> InfoView {
        self.info[f as int].unwrap()
    }

    /// The parameters of the function `f`.
    pub open spec fn args_of(self, f: FunctionId) -> Seq<LocalId> {
        match self.module.funcs[f as int].kind {
            FunctionKind::Local(func) => func.args@,
            _ => Seq::empty(),
        }
    }

    /// The entry sequence of the function `f`.
    pub open spec fn entry_of(self, f: FunctionId) -> InstrSeqId {
        match self.module.funcs[f as int].kind {
            FunctionKind::Local(func) => func.entry,
            _ => 0,
        }
    }

    /// The rules of an engine that is ready to step: the module is
    /// well-formed and the pre-pass has run on every function with a body.
    pub open spec fn wf(self) -> bool {
        &&& self.module.wf()
        &&& self.info.len() == self.module.funcs.len()
        &&& forall|f: int|
            0 <= f < self.module.funcs.len() && self.module.funcs[f].kind is Local ==> {
                &&& (#[trigger] self.info[f]) is Some
                &&& self.info[f].unwrap().as_walk().info_wf(&self.module)
            }
    }

    /// Where a branch to `target` leads in the function `f`: out of the
    /// function where `target` has no end, to its end where a `block`
    /// introduced it, to its start where a `loop` did, and nowhere where
    /// neither did.
    pub open spec fn branch(self, f: FunctionId, target: InstrSeqId) -> Jump {
        let info = self.info_of(f);
        if !info.ends.dom().contains(target) {
            Jump::Exit
        } else if !info.kinds.dom().contains(target) {
            Jump::Lost
        } else {
            match info.kinds[target] {
                BlockKind::Block => Jump::To(info.ends[target].block, Some(info.ends[target].loc)),
                BlockKind::Loop => Jump::To(target, None),
            }
        }
    }

    /// The execution `e` after it has branched to `target`.
    pub open spec fn jump(self, e: ExecutionView, target: InstrSeqId) -> ExecutionView {
        match self.branch(e.frame().func, target) {
            Jump::Lost => e,
            Jump::Exit => ExecutionView { advance: false, ..e }.leave(),
            Jump::To(block, loc) => e.at(block, loc),
        }
    }

    /// Whether a branch of `e` to `target` leads nowhere.
    pub open spec fn lost(self, e: ExecutionView, target: InstrSeqId) -> bool {
        self.branch(e.frame().func, target) is Lost
    }

    /// Whether the function `f` has a body that the engine can enter:
    /// its parameters and the locals that it names are locals of the
    /// module and 32-bit integers.
    pub open spec fn supported(self, f: FunctionId) -> bool {
        &&& forall|a: int|
            0 <= a < self.args_of(f).len() ==> self.module.local_wf(#[trigger] self.args_of(f)[a])
        &&& forall|i: int|
            0 <= i < self.info_of(f).locals.len() ==> self.module.local_wf(
                #[trigger] self.info_of(f).locals[i],
            )
    }

    /// The fault on which a call of the function `func` stops before it
    /// takes its arguments, if any.
    pub open spec fn call_fault(self, func: FunctionId) -> Option<Fault> {
        if !(self.module.funcs[func as int].kind is Local) {
            Some(Fault::NoBody)
        } else if !self.supported(func) {
            Some(Fault::UnsupportedType)
        } else {
            None
        }
    }

    /// The frame of a call to `func` from the place `ret` with `inputs`.
    pub open spec fn callee_frame(self, func: FunctionId, ret: Loc, inputs: Seq<Val>) -> FrameView {
        FrameView {
            func,
            ret: Some(ret),
            stack: Seq::empty(),
            locals: fill_zero(
                bind_args(Map::empty(), self.args_of(func), inputs),
                self.info_of(func).locals,
            ),
        }
    }

    /// What a control instruction does.
    ///
    /// A `block` or a `loop` moves the execution to the start of its
    /// sequence and puts it back in the worklist. A branch moves it to
    /// where the branch leads, or lets the function return, and ends the
    /// step with it. A conditional branch takes the condition from the
    /// stack: on a concrete zero the step goes on, on another concrete
    /// number it branches, and on a symbolic condition it forks: a copy
    /// under the next identifier, with the constraint that the condition
    /// is not zero, branches and joins the worklist, and the execution
    /// itself goes on with the constraint that it is zero. A conditional
    /// takes the condition from the stack: on a concrete one the execution
    /// is moved to the start of the chosen arm, the consequent unless the
    /// condition is zero, and put back in the worklist, so that the arm
    /// runs next and control comes back after the conditional where the
    /// arm ends; on a symbolic one two copies under the next
    /// two identifiers, one for each arm and each with its constraint,
    /// join the worklist, and the execution itself is given up. A call
    /// takes the arguments from the stack, the first parameter's deepest,
    /// and puts a new frame on the call stack in which the parameters hold
    /// them and every other local that the callee names is zero; the
    /// execution joins the worklist at the callee's entry. A `return`
    /// completes the execution.
    pub open spec fn control(self, t: Turn, instr: Instr, loc: InstrLocId) -> After {
        let e = t.current;
        let stack = e.frame().stack;
        match instr {
            Instr::Block { seq } => After::End(t.requeue(e.at(seq, None))),
            Instr::Loop { seq } => After::End(t.requeue(e.at(seq, None))),
            Instr::Br { block } => if self.lost(e, block) {
                After::End(t.fail(Fault::UnknownKind))
            } else {
                After::End(t.settle(self.jump(e, block)))
            },
            Instr::BrIf { block } => if stack.len() < 1 {
                After::End(t.fail(Fault::StackUnderflow))
            } else {
                match top(stack, 1) {
                    Val::Conc(val) => if val.0 == 0 {
                        After::Go(t.with(e.popped(1)))
                    } else if self.lost(e, block) {
                        After::End(t.fail(Fault::UnknownKind))
                    } else {
                        After::End(t.settle(self.jump(e.popped(1), block)))
                    },
                    Val::Sym(val) => if self.lost(e, block) {
                        After::End(t.fail(Fault::UnknownKind))
                    } else {
                        let fork = ExecutionView { id: t.next_id, ..e.popped(1) }.constrained(
                            is_nonzero(val),
                        );
                        After::Go(
                            Turn {
                                current: e.popped(1).constrained(is_zero(val)),
                                queue: t.queue.push(self.jump(fork, block)),
                                next_id: next_after(t.next_id),
                            },
                        )
                    },
                }
            },
            Instr::IfElse { consequent, alternative } => if stack.len() < 1 {
                After::End(t.fail(Fault::StackUnderflow))
            } else {
                match top(stack, 1) {
                    Val::Conc(val) => After::End(
                        t.requeue(
                            e.popped(1).at(
                                if val.0 != 0 {
                                    consequent
                                } else {
                                    alternative
                                },
                                None,
                            ),
                        ),
                    ),
                    Val::Sym(val) => {
                        let on_true = ExecutionView { id: t.next_id, ..e.popped(1) }.constrained(
                            is_nonzero(val),
                        ).at(consequent, None);
                        let on_false = ExecutionView {
                            id: next_after(t.next_id),
                            ..e.popped(1)
                        }.constrained(is_zero(val)).at(alternative, None);
                        After::End(
                            Outcome {
                                result: Ok(None),
                                queue: t.queue.push(on_true).push(on_false),
                                next_id: next_after(next_after(t.next_id)),
                            },
                        )
                    },
                }
            },
            Instr::Call { func } => {
                let count = self.args_of(func).len();
                if self.call_fault(func) is Some {
                    After::End(t.fail(self.call_fault(func).unwrap()))
                } else if stack.len() < count {
                    After::End(t.fail(Fault::StackUnderflow))
                } else {
                    let inputs = stack.skip(stack.len() - count);
                    let callee = self.callee_frame(
                        func,
                        Loc { block: e.cur_block, loc },
                        inputs,
                    );
                    let caller = e.popped(count as int);
                    After::End(
                        t.requeue(
                            ExecutionView {
                                state: StateView {
                                    frames: caller.state.frames.push(callee),
                                    memory: caller.state.memory,
                                },
                                ..caller
                            }.at(self.entry_of(func), None),
                        ),
                    )
                }
            },
            Instr::Return => After::End(t.finish(e.ended(Status::Complete))),
            _ => After::Go(t),
        }
    }

    /// What one instruction does, after the checks have looked at the
    /// state before it. An instruction that meets a fault ends the step
    /// with it.
    pub open spec fn instr(self, t: Turn, instr: Instr, loc: InstrLocId) -> After {
        let e = t.current;
        if is_straight(instr) {
            match fault_of(e.frame(), e.state.memory, instr) {
                Some(fault) => After::End(t.fail(fault)),
                None => {
                    let seen = e.observed(instr, loc);
                    let (frame, memory, trap) = straight_spec(seen.frame(), seen.state.memory, instr);
                    let done = seen.with_machine(frame, memory);
                    match trap {
                        Some(reason) => After::End(t.finish(done.ended(Status::Trap(reason)))),
                        None => After::Go(t.with(done)),
                    }
                },
            }
        } else {
            self.control(t.with(e.observed(instr, loc)), instr, loc)
        }
    }

    /// What happens when the instructions of the sequence `block` are
    /// used up: control passes to the end of the sequence, or, where it
    /// has none, the function returns.
    pub open spec fn fall_off(self, t: Turn, func: FunctionId, block: InstrSeqId) -> Outcome {
        let e = ExecutionView { advance: false, ..t.current };
        let ends = self.info_of(func).ends;
        if ends.dom().contains(block) {
            t.requeue(e.at(ends[block].block, Some(ends[block].loc)))
        } else {
            t.settle(e.leave())
        }
    }

    /// The rest of a step through the sequence `block` of the function
    /// `func`, from the `i`-th instruction on. While `skipped` is false
    /// the step passes over instructions until it meets the execution's
    /// location; an execution that has to advance passes over one more.
    pub open spec fn run(
        self,
        t: Turn,
        func: FunctionId,
        block: InstrSeqId,
        skipped: bool,
        i: int,
    ) -> Outcome
        decreases self.module.seqs[block as int].instrs.len() - i,
    {
        let instrs = self.module.seqs[block as int].instrs;
        if 0 <= i < instrs.len() {
            let (instr, loc) = instrs[i];
            if Self::passes(t.current, skipped, loc) {
                self.run(t, func, block, false, i + 1)
            } else {
                match self.visit(t, instr, loc) {
                    After::Go(next) => self.run(next, func, block, true, i + 1),
                    After::End(outcome) => outcome,
                }
            }
        } else {
            self.fall_off(t, func, block)
        }
    }

    /// Whether a step that has not yet met the execution's location passes
    /// over the instruction at `loc`.
    pub open spec fn passes(e: ExecutionView, skipped: bool, loc: InstrLocId) -> bool {
        !skipped && e.cur_location is Some && e.cur_location != Some(loc)
    }

    /// What the step does at an instruction that it does not pass over:
    /// the execution is now at it; where it has to advance, it only
    /// drops that duty, else it runs the instruction.
    #[verifier::opaque]
    pub open spec fn visit(self, t: Turn, instr: Instr, loc: InstrLocId) -> After {
        let here = ExecutionView { cur_location: Some(loc), ..t.current };
        if here.advance {
            After::Go(t.with(ExecutionView { advance: false, ..here }))
        } else {
            self.instr(t.with(here), instr, loc)
        }
    }

    /// How often the execution has entered the sequence `block`.
    pub open spec fn entries(e: ExecutionView, block: InstrSeqId) -> usize {
        if e.hotness.dom().contains(block) {
            e.hotness[block]
        } else {
            0
        }
    }

    /// One step of the execution `t.current`. An execution that has
    /// ended is handed out as it is. One that stands at the start of a
    /// sequence counts the entry, and is terminated where the count
    /// exceeds the bound or the counter's range. One that resumes
    /// within a sequence must have entered it, and is terminated where
    /// its count exceeds the bound. Else the step runs the instructions
    /// of the sequence from the execution's place on.
    pub open spec fn step(self, t: Turn) -> Outcome {
        let e = t.current;
        let block = e.cur_block;
        let count = Self::entries(e, block);
        if e.status != Status::Running {
            t.finish(e)
        } else if e.cur_location is Some && !e.hotness.dom().contains(block) {
            t.fail(Fault::NotEntered)
        } else if e.cur_location is None && count == usize::MAX {
            t.finish(e.ended(Status::Terminated))
        } else {
            let entered = if e.cur_location is None {
                ExecutionView { hotness: e.hotness.insert(block, (count + 1) as usize), ..e }
            } else {
                e
            };
            if Self::entries(entered, block) > self.max_hotness {
                t.finish(entered.ended(Status::Terminated))
            } else {
                self.run(t.with(entered), e.frame().func, block, e.cur_location is None, 0)
            }
        }
    }
}

/// Whether `val` is the symbolic value of the parameter `id`: the 32-bit
/// variable named `local` and the number of the local.
pub open spec fn is_input(val: Val, id: LocalId) -> bool {
    val matches Val::Sym(SymVal::I32(BvTerm::Var { name, width })) && name@ == local_name(id)
        && width == 32
}

/// Binding arguments adds the parameters to what was bound and changes nothing else.
pub proof fn lemma_bind_args(locals: Map<LocalId, Val>, args: Seq<LocalId>, vals: Seq<Val>, k: LocalId)
    ensures
        bind_args(locals, args, vals).dom().contains(k) <==> locals.dom().contains(k)
            || args.contains(k),
        !args.contains(k) && locals.dom().contains(k) ==> bind_args(locals, args, vals)[k]
            == locals[k],
        args.contains(k) ==> exists|i: int|
            0 <= i < args.len() && args[i] == k && bind_args(locals, args, vals)[k] == vals[i],
    decreases args.len(),
{
    if args.len() > 0 {
        let rest = args.drop_last();
        lemma_bind_args(locals, rest, vals, k);
        if args.last() == k {
            assert(args[args.len() - 1] == k);
        } else if args.contains(k) {
            let j = choose|j: int| 0 <= j < args.len() && args[j] == k;
            assert(rest[j] == k);
            let i = choose|i: int|
                0 <= i < rest.len() && rest[i] == k && bind_args(locals, rest, vals)[k] == vals[i];
            assert(args[i] == k);
        } else {
            if rest.contains(k) {
                let j = choose|j: int| 0 <= j < rest.len() && rest[j] == k;
                assert(args[j] == k);
            }
        }
    }
}

/// Filling with zeros adds the listed locals that were missing, each as a
/// concrete zero, and changes nothing else.
pub proof fn lemma_fill_zero(locals: Map<LocalId, Val>, ids: Seq<LocalId>, k: LocalId)
    ensures
        fill_zero(locals, ids).dom().contains(k) <==> locals.dom().contains(k) || ids.contains(k),
        locals.dom().contains(k) ==> fill_zero(locals, ids)[k] == locals[k],
        !locals.dom().contains(k) && ids.contains(k) ==> fill_zero(locals, ids)[k] == Val::Conc(
            ConcVal(0),
        ),
    decreases ids.len(),
{
    if ids.len() > 0 {
        let rest = ids.drop_last();
        lemma_fill_zero(locals, rest, k);
        if ids.last() == k {
            assert(ids[ids.len() - 1] == k);
        } else if ids.contains(k) {
            let j = choose|j: int| 0 <= j < ids.len() && ids[j] == k;
            assert(rest[j] == k);
        } else {
            if rest.contains(k) {
                let j = choose|j: int| 0 <= j < rest.len() && rest[j] == k;
                assert(ids[j] == k);
            }
        }
    }
}

/// What the pre-pass records of the function `f`: the walk through its
/// body, or nothing where it has none.
pub open spec fn prepass(module: &Module, f: int) -> Option<InfoView> {
    match module.funcs[f].kind {
        FunctionKind::Local(func) => Some(
            crate::flow::Walk::initial().walk_seq(module, func.entry).info(),
        ),
        _ => None,
    }
}

/// The memory that an execution starts with: none where the module
/// declares none, else one of as many pages as the last declaration says.
pub open spec fn initial_memory(module: &Module) -> Option<Memory> {
    if module.memories.len() == 0 {
        None
    } else {
        Some(
            Memory {
                size: Val::Conc(ConcVal(from_bits(module.memories@.last().initial as int))),
                array: ArrayTerm::Fill { byte: 0 },
            },
        )
    }
}

impl Rules {
    /// Whether `e` is an execution from which the analysis of the function
    /// `id` starts: it runs, with one frame of that function, in which
    /// the stack is empty, every parameter is a symbolic value named
    /// after it, and every other local that the function names is zero;
    /// its memory is the module's initial one; it has no constraint, no
    /// check and no counter; and it is about to enter the entry sequence.
    pub open spec fn seeded(self, id: FunctionId, e: ExecutionView) -> bool {
        let args = self.args_of(id);
        let named = self.info_of(id).locals;
        &&& e.status == Status::Running
        &&& e.state.frames.len() == 1
        &&& e.frame().func == id
        &&& e.frame().ret is None
        &&& e.frame().stack.len() == 0
        &&& forall|k: LocalId| #[trigger]
            e.frame().locals.dom().contains(k) <==> args.contains(k) || named.contains(k)
        &&& forall|k: LocalId| args.contains(k) ==> is_input(#[trigger] e.frame().locals[k], k)
        &&& forall|k: LocalId|
            !args.contains(k) && named.contains(k) ==> #[trigger] e.frame().locals[k] == Val::Conc(
                ConcVal(0),
            )
        &&& e.state.memory == initial_memory(&self.module)
        &&& e.constraints.len() == 0
        &&& e.cur_block == self.entry_of(id)
        &&& e.cur_location is None
        &&& !e.advance
        &&& e.checks.len() == 0
        &&& e.hotness == Map::<InstrSeqId, usize>::empty()
    }
}

/// The execution `seed` with a copy of each of `checks` after its own.
pub open spec fn with_checks(seed: ExecutionView, checks: Seq<Check>) -> ExecutionView {
    ExecutionView { checks: seed.checks + check_views(checks), ..seed }
}

/// Whether `outcome` is what the run hands out that starts when `seed`,
/// with a copy of each check, joins the worklist. Where the seed is
/// `fresh`, it has taken the identifier `next_id`.
pub open spec fn explored(
    rules: Rules,
    queue: Seq<ExecutionView>,
    checks: Seq<Check>,
    seed: ExecutionView,
    fresh: bool,
    next_id: usize,
    outcome: Result<Seq<ExecutionView>, Fault>,
) -> bool {
    outcome == drain(
        rules,
        queue.push(with_checks(seed, checks)),
        if fresh {
            next_after(next_id)
        } else {
            next_id
        },
    )
}

/// An execution with every value of its state folded.
pub open spec fn tidy(e: ExecutionView) -> ExecutionView {
    ExecutionView { state: e.state.simplified(), ..e }
}

/// The executions with their states folded.
pub open spec fn tidied(es: Seq<ExecutionView>) -> Seq<ExecutionView> {
    Seq::new(es.len(), |i: int| tidy(es[i]))
}

/// Whether a path completed or trapped.
pub open spec fn finished(e: ExecutionView) -> bool {
    e.status is Complete || e.status is Trap
}

/// The paths that completed or trapped, in their order.
pub open spec fn kept(es: Seq<ExecutionView>) -> Seq<ExecutionView>
    decreases es.len(),
{
    if es.len() == 0 {
        Seq::empty()
    } else if finished(es.last()) {
        kept(es.drop_last()).push(es.last())
    } else {
        kept(es.drop_last())
    }
}

/// Identifiers grow: below the end of the counter's range, the next
/// identifier is the next number.
pub proof fn lemma_next_after_grows(id: usize)
    requires
        id < usize::MAX,
    ensures
        next_after(id) == id + 1,
        next_after(id) > id,
{
}

} // verus!