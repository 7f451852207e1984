use crate::bound::{after_done, drain};
use crate::checks::{check_views, observable, Check};
use crate::context::{bin_op_spec, un_op_spec, Context};
use crate::flow::{compute_info, BlockKind, Info, InfoView, Loc};
use crate::ir::{
    BinaryOp, Function, FunctionId, FunctionKind, Instr, InstrLocId, InstrSeqId,
    LocalFunction, LocalId, Module, UnaryOp,
};
use crate::machine::{below, is_straight, top, Fault, Stop};
use crate::memory::Memory;
use crate::reporter::{line_views, paths_report, Line, LineView, Reporter, Tone};
use crate::rules::{
    bind_args, explored, fill_zero, is_input, is_zero, kept, lemma_fill_zero, next_after, prepass,
    tidied, tidy, with_checks, After, Jump, Outcome, Rules, Turn,
};
use crate::sound::all_queued;
use crate::state::{Execution, ExecutionView, Frame, State, Status, TrapReason};
use crate::term::{ArrayTerm, BoolTerm, BvTerm, Rel};
use crate::text::name_of_local;
use crate::value::{from_bits, ConcVal, SymVal, Val};
use std::collections::{HashMap, VecDeque};
use vstd::prelude::*;

verus! {

broadcast use vstd::std_specs::hash::group_hash_axioms;

/// The body of a function, where it has one.
pub fn as_local_func(func: &Function) -> (r: Option<&LocalFunction>)
    ensures
        r == match func.kind {
            FunctionKind::Local(local_func) => Some(&local_func),
            _ => None,
        },
{
    match &func.kind {
        FunctionKind::Local(local_func) => Some(local_func),
        _ => None,
    }
}

/// The symbolic execution engine: the module's rules, the worklist of
/// executions that still step, and the checks that every execution gets.
#[derive(Debug)]
pub struct Engine<'ctx, 'm> {
    pub context: &'ctx Context<'m>,
    /// What the pre-pass recorded, by function; nothing for a function without a body.
    pub info: Vec<Option<Info>>,
    /// The worklist: first in, first out.
    pub executions: VecDeque<Execution>,
    pub checks: Vec<Check>,
    /// How often an execution may enter one sequence.
    pub max_hotness: usize,
    /// The identifier that the next execution gets.
    pub next_id: usize,
}

/// The views of a list of executions.
pub open spec fn execution_views(list: Seq<Execution>) -> Seq<ExecutionView> {
    Seq::new(list.len(), |i: int| list[i]@)
}

/// Whether `slot` holds what the pre-pass records of the function `f`:
/// well-formed information where the function has a body, else nothing.
pub open spec fn prepared(slot: Option<Info>, module: &Module, f: int) -> bool {
    match slot {
        Some(info) => info.wf(module) && prepass(module, f) == Some(info@),
        None => prepass(module, f) is None,
    }
}

/// The views of what the pre-pass recorded.
pub open spec fn info_views(list: Seq<Option<Info>>) -> Seq<Option<InfoView>> {
    Seq::new(
        list.len(),
        |i: int|
            match list[i] {
                Some(info) => Some(info@),
                None => None,
            },
    )
}

/// How a step of the engine ended, as a mathematical value.
pub open spec fn result_view(r: Result<Option<Execution>, Fault>) -> Result<
    Option<ExecutionView>,
    Fault,
> {
    match r {
        Ok(Some(e)) => Ok(Some(e@)),
        Ok(None) => Ok(None),
        Err(fault) => Err(fault),
    }
}

/// What an instruction left: the execution to go on with, or the end of the step.
pub enum Moved {
    Go(Execution),
    End(Result<Option<Execution>, Fault>),
}

impl<'ctx, 'm> Engine<'ctx, 'm> {
    /// The rules by which this engine steps.
    pub open spec fn rules(&self) -> Rules {
        Rules {
            module: *self.context.module,
            info: info_views(self.info@),
            max_hotness: self.max_hotness,
        }
    }

    /// The worklist as a mathematical value.
    pub open spec fn queue(&self) -> Seq<ExecutionView> {
        execution_views(self.executions@)
    }

    /// The engine with `e` about to step.
    pub open spec fn turn(&self, e: ExecutionView) -> Turn {
        Turn { current: e, queue: self.queue(), next_id: self.next_id }
    }

    /// How the engine stands after a step that returned `r`.
    pub open spec fn outcome(&self, r: Result<Option<Execution>, Fault>) -> Outcome {
        Outcome { result: result_view(r), queue: self.queue(), next_id: self.next_id }
    }

    /// How the engine stands after an instruction that left `moved`.
    pub open spec fn after(&self, moved: Moved) -> After {
        match moved {
            Moved::Go(e) => After::Go(self.turn(e@)),
            Moved::End(r) => After::End(self.outcome(r)),
        }
    }

    /// Whether only the worklist and the identifier counter differ between two engines.
    pub open spec fn same_setup(&self, other: &Self) -> bool {
        &&& self.context == other.context
        &&& self.info == other.info
        &&& self.checks == other.checks
        &&& self.max_hotness == other.max_hotness
    }

    /// An engine for the module of `context`, with no check, a bound of
    /// one entry for each sequence, and nothing recorded yet of any function.
    pub fn new(context: &'ctx Context<'m>) -> (r: Self)
        ensures
            r.context == context,
            r.info@.len() == context.module.funcs.len(),
            forall|i: int| 0 <= i < r.info@.len() ==> r.info@[i] is None,
            r.queue() == Seq::<ExecutionView>::empty(),
            r.checks@.len() == 0,
            r.max_hotness == 1,
            r.next_id == 0,
    {
        let mut info: Vec<Option<Info>> = Vec::new();
        let mut i: usize = 0;
        while i < context.module.funcs.len()
            invariant
                i <= context.module.funcs.len(),
                info@.len() == i,
                forall|j: int| 0 <= j < i ==> info@[j] is None,
            decreases context.module.funcs.len() - i,
        {
            info.push(None);
            i = i + 1;
        }
        let r = Engine {
            context,
            info,
            executions: VecDeque::new(),
            checks: Vec::new(),
            max_hotness: 1,
            next_id: 0,
        };
        assert(r.queue() =~= Seq::<ExecutionView>::empty());
        r
    }

    /// Sets how often an execution may enter one sequence.
    pub fn set_max_hotness(&mut self, max_hotness: usize)
        ensures
            final(self).max_hotness == max_hotness,
            final(self).context == old(self).context,
            final(self).info == old(self).info,
            final(self).checks == old(self).checks,
            final(self).executions == old(self).executions,
            final(self).next_id == old(self).next_id,
    {
        self.max_hotness = max_hotness;
    }

    /// Adds a check that every execution seeded from now on gets a copy of.
    pub fn add_check(&mut self, check: Check)
        ensures
            final(self).checks@ == old(self).checks@.push(check),
            final(self).context == old(self).context,
            final(self).info == old(self).info,
            final(self).max_hotness == old(self).max_hotness,
            final(self).executions == old(self).executions,
            final(self).next_id == old(self).next_id,
    {
        self.checks.push(check);
    }

    /// Puts an execution at the back of the worklist.
    pub fn push_execution(&mut self, execution: Execution)
        ensures
            final(self).queue() == old(self).queue().push(execution@),
            final(self).executions@ == old(self).executions@.push(execution),
            final(self).next_id == old(self).next_id,
            final(self).same_setup(old(self)),
    {
        self.executions.push_back(execution);
        assert(self.queue() =~= old(self).queue().push(execution@));
    }

    /// Takes the next unused identifier.
    fn fresh_id(&mut self) -> (id: usize)
        ensures
            id == old(self).next_id,
            final(self).next_id == next_after(id),
            final(self).executions == old(self).executions,
            final(self).same_setup(old(self)),
    {
        let id = self.next_id;
        self.next_id = if id == usize::MAX {
            0
        } else {
            id + 1
        };
        id
    }

    /// Ends a step with `execution`: hands it out where it has ended,
    /// else puts it back in the worklist.
    fn settle(&mut self, execution: Execution) -> (r: Result<Option<Execution>, Fault>)
        ensures
            final(self).outcome(r) == old(self).turn(execution@).settle(execution@),
            final(self).same_setup(old(self)),
    {
        if execution.status != Status::Running {
            Ok(Some(execution))
        } else {
            self.push_execution(execution);
            Ok(None)
        }
    }

    /// Moves the execution to the start of the sequence `seq_id`.
    fn do_jump_to_seq(&self, execution: &mut Execution, seq_id: &InstrSeqId)
        ensures
            final(execution)@ == old(execution)@.at(*seq_id, None),
    {
        execution.cur_block = *seq_id;
        execution.cur_location = None;
    }

    /// Lets the current function of the execution return.
    fn leave(&self, execution: &mut Execution)
        requires
            old(execution)@.state.frames.len() >= 1,
            old(execution)@.state.frames.len() >= 2 ==> old(execution)@.frame().ret is Some,
        ensures
            final(execution)@ == old(execution)@.leave(),
    {
        let ghost frames = execution@.state.frames;
        let old_frame = execution.state.call_stack.pop().unwrap();
        assert(old_frame@ == frames[frames.len() - 1]);
        match execution.state.call_stack.pop() {
            None => {
                execution.status = Status::Complete;
                execution.advance = false;
                execution.state.call_stack.push(old_frame);
                assert(execution@.state.frames =~= frames);
            },
            Some(mut prev_frame) => {
                assert(prev_frame@ == frames[frames.len() - 2]);
                let ret = old_frame.ret.unwrap();
                execution.cur_block = ret.block;
                execution.cur_location = Some(ret.loc);
                execution.advance = true;
                let mut values = old_frame.value_stack;
                prev_frame.value_stack.append(&mut values);
                execution.state.call_stack.push(prev_frame);
                assert(execution@.state.frames =~= old(execution)@.leave().state.frames);
            },
        }
    }

    /// Whether a branch of the execution to `target` leads nowhere.
    fn lost(&self, execution: &Execution, target: &InstrSeqId) -> (r: bool)
        requires
            execution@.state.frames.len() >= 1,
            execution@.frame().func < self.info@.len(),
            self.info@[execution@.frame().func as int] is Some,
        ensures
            r == self.rules().lost(execution@, *target),
    {
        let frame = &execution.state.call_stack[execution.state.call_stack.len() - 1];
        let info = self.info[frame.func].as_ref().unwrap();
        info.ends.contains_key(target) && !info.kinds.contains_key(target)
    }

    /// Whether the engine can enter the function `id`: it has a body,
    /// and its parameters and the locals that it names are locals of the
    /// module and 32-bit integers.
    pub fn callable(&self, id: FunctionId) -> (r: bool)
        requires
            self.rules().wf(),
            id < self.context.module.funcs.len(),
        ensures
            r == (self.rules().call_fault(id) is None),
    {
        let module = self.context.module;
        let func = match &module.funcs[id].kind {
            FunctionKind::Local(func) => func,
            _ => {
                return false;
            },
        };
        assert(self.rules().info[id as int] is Some);
        let info = self.info[id].as_ref().unwrap();
        let ghost rules = self.rules();
        assert(rules.info_of(id) == info@);
        assert(rules.args_of(id) == func.args@);
        assert(rules.module == *module);
        let mut a: usize = 0;
        while a < func.args.len()
            invariant
                a <= func.args.len(),
                rules == self.rules(),
                rules.module.funcs[id as int].kind is Local,
                rules.args_of(id) == func.args@,
                rules.module == *module,
                forall|b: int| 0 <= b < a ==> module.local_wf(#[trigger] func.args@[b]),
            decreases func.args.len() - a,
        {
            if !module.local_ok(func.args[a]) {
                assert(!rules.module.local_wf(rules.args_of(id)[a as int]));
                assert(!rules.supported(id));
                return false;
            }
            a = a + 1;
        }
        let mut i: usize = 0;
        while i < info.locals.len()
            invariant
                i <= info.locals.len(),
                rules == self.rules(),
                rules.module.funcs[id as int].kind is Local,
                rules.info_of(id) == info@,
                rules.module == *module,
                forall|j: int| 0 <= j < i ==> module.local_wf(#[trigger] info.locals@[j]),
            decreases info.locals.len() - i,
        {
            if !module.local_ok(info.locals[i]) {
                assert(!rules.module.local_wf(rules.info_of(id).locals[i as int]));
                assert(!rules.supported(id));
                return false;
            }
            i = i + 1;
        }
        assert(rules.supported(id));
        true
    }

    /// Resolves a branch to `block` in the current function. Where the
    /// branch leads out of the function, returns true and leaves the
    /// execution where it is; else moves the execution to where the
    /// branch leads.
    pub fn do_branch(&self, execution: &mut Execution, block: &InstrSeqId) -> (exits: bool)
        requires
            old(execution)@.state.frames.len() >= 1,
            old(execution)@.frame().func < self.info@.len(),
            self.info@[old(execution)@.frame().func as int] is Some,
            !self.rules().lost(old(execution)@, *block),
        ensures
            match self.rules().branch(old(execution)@.frame().func, *block) {
                Jump::Lost => false,
                Jump::Exit => exits && final(execution)@ == old(execution)@,
                Jump::To(seq, loc) => !exits && final(execution)@ == old(execution)@.at(seq, loc),
            },
    {
        let frame = &execution.state.call_stack[execution.state.call_stack.len() - 1];
        let info = self.info[frame.func].as_ref().unwrap();
        let block_loc = match info.ends.get(block) {
            None => {
                return true;
            },
            Some(end) => *end,
        };
        match info.kinds.get(block) {
            Some(BlockKind::Loop) => {
                execution.cur_block = *block;
                execution.cur_location = None;
            },
            _ => {
                execution.cur_block = block_loc.block;
                execution.cur_location = Some(block_loc.loc);
            },
        }
        false
    }

    /// Lets the execution branch to `target`.
    fn jump(&self, execution: &mut Execution, target: &InstrSeqId)
        requires
            old(execution)@.state.frames.len() >= 1,
            old(execution)@.state.frames.len() >= 2 ==> old(execution)@.frame().ret is Some,
            old(execution)@.frame().func < self.info@.len(),
            self.info@[old(execution)@.frame().func as int] is Some,
            !self.rules().lost(old(execution)@, *target),
        ensures
            final(execution)@ == self.rules().jump(old(execution)@, *target),
    {
        if self.do_branch(execution, target) {
            execution.advance = false;
            self.leave(execution);
        }
    }
}

impl<'ctx, 'm> Engine<'ctx, 'm> {
    /// Lets every check of the execution look at the state before `instr`.
    fn observe(&self, execution: &mut Execution, instr: &Instr, loc: &InstrLocId)
        requires
            observable(old(execution)@.state, *instr),
        ensures
            final(execution)@ == old(execution)@.observed(*instr, *loc),
    {
        let mut execution_checks: Vec<Check> = Vec::new();
        std::mem::swap(&mut execution_checks, &mut execution.checks);
        let ghost before = execution_checks@;
        assert(execution@.checks =~= Seq::empty());
        let mut i: usize = 0;
        while i < execution_checks.len()
            invariant
                i <= execution_checks.len(),
                execution_checks.len() == before.len(),
                before == old(execution).checks@,
                execution@ == (ExecutionView { checks: Seq::empty(), ..old(execution)@ }),
                observable(execution@.state, *instr),
                forall|j: int|
                    0 <= j < i ==> (#[trigger] execution_checks@[j])@ == before[j]@.observe(
                        execution@.state,
                        *instr,
                        *loc,
                    ),
                forall|j: int|
                    i <= j < before.len() ==> (#[trigger] execution_checks@[j]) == before[j],
            decreases execution_checks.len() - i,
        {
            execution_checks[i].check(self.context, execution, instr, loc);
            i = i + 1;
        }
        execution.checks = execution_checks;
        assert(execution@.checks =~= old(execution)@.observed(*instr, *loc).checks);
    }
}

/// Binds each parameter to its argument.
fn bind(locals: &mut HashMap<LocalId, Val>, args: &Vec<LocalId>, vals: &Vec<Val>)
    requires
        args@.len() <= vals@.len(),
    ensures
        final(locals)@ == bind_args(old(locals)@, args@, vals@),
{
    let mut i: usize = 0;
    while i < args.len()
        invariant
            i <= args@.len() <= vals@.len(),
            locals@ == bind_args(old(locals)@, args@.take(i as int), vals@),
        decreases args.len() - i,
    {
        locals.insert(args[i], vals[i].clone());
        assert(args@.take(i + 1).drop_last() =~= args@.take(i as int));
        i = i + 1;
    }
    assert(args@.take(args@.len() as int) =~= args@);
}

/// Gives each local of `ids` that `locals` lacks a concrete zero.
fn fill(module: &Module, locals: &mut HashMap<LocalId, Val>, ids: &Vec<LocalId>)
    requires
        forall|i: int| 0 <= i < ids@.len() ==> module.local_wf(#[trigger] ids@[i]),
    ensures
        final(locals)@ == fill_zero(old(locals)@, ids@),
{
    let mut i: usize = 0;
    while i < ids.len()
        invariant
            i <= ids@.len(),
            forall|i: int| 0 <= i < ids@.len() ==> module.local_wf(#[trigger] ids@[i]),
            locals@ == fill_zero(old(locals)@, ids@.take(i as int)),
        decreases ids.len() - i,
    {
        let local = ids[i];
        if !locals.contains_key(&local) {
            assert(module.local_wf(ids@[i as int]));
            let local_ty = module.locals[local];
            locals.insert(local, Val::Conc(ConcVal::from_valtype(local_ty)));
        }
        assert(ids@.take(i + 1).drop_last() =~= ids@.take(i as int));
        i = i + 1;
    }
    assert(ids@.take(ids@.len() as int) =~= ids@);
}

impl<'ctx, 'm> Engine<'ctx, 'm> {
    /// Calls the function `func_id` from the instruction at `loc`.
    fn call(&mut self, started: Execution, func_id: FunctionId, loc: InstrLocId) -> (r: Result<
        Option<Execution>,
        Fault,
    >)
        requires
            old(self).rules().wf(),
            started@.state.frames.len() >= 1,
            func_id < old(self).context.module.funcs.len(),
        ensures
            After::End(final(self).outcome(r)) == old(self).rules().control(
                old(self).turn(started@),
                Instr::Call { func: func_id },
                loc,
            ),
            final(self).same_setup(old(self)),
    {
        let mut execution = started;
        let ghost start = execution@;
        let module = self.context.module;
        let local_func = match as_local_func(&module.funcs[func_id]) {
            Some(local_func) => local_func,
            None => {
                return Err(Fault::NoBody);
            },
        };
        if !self.callable(func_id) {
            return Err(Fault::UnsupportedType);
        }
        assert(self.rules().info[func_id as int] is Some);
        let info = self.info[func_id].as_ref().unwrap();
        let count = local_func.args.len();
        let mut caller = execution.state.call_stack.pop().unwrap();
        assert(caller@ == start.frame());
        let depth = caller.value_stack.len();
        if depth < count {
            return Err(Fault::StackUnderflow);
        }
        let inputs = caller.value_stack.split_off(depth - count);
        let mut frame = Frame::new(func_id, Some(Loc { block: execution.cur_block, loc }));
        bind(&mut frame.locals, &local_func.args, &inputs);
        proof {
            assert(self.rules().info[func_id as int] == Some(info@));
            assert(self.rules().supported(func_id));
        }
        fill(module, &mut frame.locals, &info.locals);
        execution.state.call_stack.push(caller);
        execution.state.call_stack.push(frame);
        execution.cur_block = local_func.entry_block();
        execution.cur_location = None;
        proof {
            let count = count as int;
            let stack = start.frame().stack;
            assert(inputs@ =~= stack.skip(stack.len() - count));
            assert(caller@.stack =~= below(stack, count));
            let expect = start.popped(count);
            assert(execution@.state.frames =~= expect.state.frames.push(frame@));
        }
        self.push_execution(execution);
        Ok(None)
    }
}

/// Takes the top value from the stack of the current frame.
fn pop_top(execution: &mut Execution) -> (r: Val)
    requires
        old(execution)@.state.frames.len() >= 1,
        old(execution)@.frame().stack.len() >= 1,
    ensures
        r == top(old(execution)@.frame().stack, 1),
        final(execution)@ == old(execution)@.popped(1),
{
    let mut frame = execution.state.call_stack.pop().unwrap();
    let value = frame.value_stack.pop().unwrap();
    execution.state.call_stack.push(frame);
    assert(execution@.state.frames =~= old(execution)@.popped(1).state.frames);
    value
}

/// The constraint that a condition is zero.
fn zero_test(context: &Context, cond: &SymVal) -> (r: BoolTerm)
    ensures
        r == is_zero(*cond),
{
    BoolTerm::Compare {
        rel: Rel::Eq,
        lhs: Box::new(cond.as_i32().clone()),
        rhs: Box::new(context.zero(32)),
    }
}

/// Adds a path constraint to an execution.
fn constrain(execution: &mut Execution, constraint: BoolTerm)
    ensures
        final(execution)@ == old(execution)@.constrained(constraint),
{
    execution.constraints.push(constraint);
}

impl<'ctx, 'm> Engine<'ctx, 'm> {
    /// Runs one control instruction of the sequence `seq`.
    fn control(&mut self, started: Execution, instr: &Instr, loc: InstrLocId, seq: Ghost<int>) -> (moved:
        Moved)
        requires
            old(self).rules().wf(),
            started@.live(old(self).context.module),
            !is_straight(*instr),
            old(self).context.module.instr_wf(*instr, seq@),
        ensures
            final(self).after(moved) == old(self).rules().control(
                old(self).turn(started@),
                *instr,
                loc,
            ),
            final(self).same_setup(old(self)),
    {
        let mut execution = started;
        let ghost start = execution@;
        let ghost module = self.context.module;
        proof {
            let f = start.frame().func;
            assert(start.state.frames[start.state.frames.len() - 1].func < module.funcs.len());
            assert(self.rules().info[f as int] is Some);
            assert(self.rules().info_of(f).as_walk().info_wf(module));
        }
        match instr {
            Instr::Block { seq } => {
                self.do_jump_to_seq(&mut execution, seq);
                self.push_execution(execution);
                Moved::End(Ok(None))
            },
            Instr::Loop { seq } => {
                self.do_jump_to_seq(&mut execution, seq);
                self.push_execution(execution);
                Moved::End(Ok(None))
            },
            Instr::Br { block } => {
                if self.lost(&execution, block) {
                    return Moved::End(Err(Fault::UnknownKind));
                }
                self.jump(&mut execution, block);
                Moved::End(self.settle(execution))
            },
            Instr::BrIf { block } => {
                let depth = execution.state.call_stack[execution.state.call_stack.len()
                    - 1].value_stack.len();
                if depth < 1 {
                    return Moved::End(Err(Fault::StackUnderflow));
                }
                let lost = self.lost(&execution, block);
                let condition = pop_top(&mut execution);
                match condition {
                    Val::Conc(val) => {
                        if val.as_i32() == 0 {
                            Moved::Go(execution)
                        } else if lost {
                            Moved::End(Err(Fault::UnknownKind))
                        } else {
                            self.jump(&mut execution, block);
                            Moved::End(self.settle(execution))
                        }
                    },
                    Val::Sym(val) => {
                        if lost {
                            return Moved::End(Err(Fault::UnknownKind));
                        }
                        let id = self.fresh_id();
                        let mut true_execution = Execution::from(&execution, id);
                        let eq_zero = zero_test(self.context, &val);
                        constrain(
                            &mut true_execution,
                            BoolTerm::Not { arg: Box::new(eq_zero.clone()) },
                        );
                        self.jump(&mut true_execution, block);
                        constrain(&mut execution, eq_zero);
                        self.push_execution(true_execution);
                        Moved::Go(execution)
                    },
                }
            },
            Instr::IfElse { consequent, alternative } => {
                let depth = execution.state.call_stack[execution.state.call_stack.len()
                    - 1].value_stack.len();
                if depth < 1 {
                    return Moved::End(Err(Fault::StackUnderflow));
                }
                let condition = pop_top(&mut execution);
                match condition {
                    Val::Conc(val) => {
                        if val.as_i32() != 0 {
                            execution.cur_block = *consequent;
                        } else {
                            execution.cur_block = *alternative;
                        }
                        execution.cur_location = None;
                        self.push_execution(execution);
                        Moved::End(Ok(None))
                    },
                    Val::Sym(val) => {
                        let eq_zero = zero_test(self.context, &val);
                        let true_id = self.fresh_id();
                        let mut true_execution = Execution::from(&execution, true_id);
                        constrain(
                            &mut true_execution,
                            BoolTerm::Not { arg: Box::new(eq_zero.clone()) },
                        );
                        true_execution.cur_block = *consequent;
                        true_execution.cur_location = None;
                        let false_id = self.fresh_id();
                        let mut false_execution = Execution::from(&execution, false_id);
                        constrain(&mut false_execution, eq_zero);
                        false_execution.cur_block = *alternative;
                        false_execution.cur_location = None;
                        self.push_execution(true_execution);
                        self.push_execution(false_execution);
                        Moved::End(Ok(None))
                    },
                }
            },
            Instr::Call { func } => Moved::End(self.call(execution, *func, loc)),
            Instr::Return => {
                execution.status = Status::Complete;
                Moved::End(Ok(Some(execution)))
            },
            _ => Moved::Go(execution),
        }
    }

    /// Runs one instruction of the sequence `seq`, after the checks have
    /// looked at the state before it.
    fn instr(&mut self, started: Execution, instr: &Instr, loc: InstrLocId, seq: Ghost<int>) -> (moved:
        Moved)
        requires
            old(self).rules().wf(),
            started@.live(old(self).context.module),
            old(self).context.module.instr_wf(*instr, seq@),
        ensures
            final(self).after(moved) == old(self).rules().instr(
                old(self).turn(started@),
                *instr,
                loc,
            ),
            final(self).same_setup(old(self)),
    {
        let mut execution = started;
        let ghost start = execution@;
        match instr {
            Instr::Block { .. }
            | Instr::Loop { .. }
            | Instr::Call { .. }
            | Instr::Br { .. }
            | Instr::BrIf { .. }
            | Instr::IfElse { .. }
            | Instr::Return => {
                self.observe(&mut execution, instr, &loc);
                self.control(execution, instr, loc, seq)
            },
            _ => {
                let mut frame = execution.state.call_stack.pop().unwrap();
                assert(frame@ == start.frame());
                let mut memory = execution.state.memory.take();
                // The checks look at the state before the instruction, so the
                // fault that would stop it is found first, on a copy of nothing:
                // a fault leaves frame and memory as they were.
                let fault = self.context.faults(&frame, &memory, instr);
                execution.state.memory = memory;
                execution.state.call_stack.push(frame);
                assert(execution@.state.frames =~= start.state.frames);
                assert(execution@ == start);
                if let Some(fault) = fault {
                    return Moved::End(Err(fault));
                }
                self.observe(&mut execution, instr, &loc);
                let ghost seen = execution@;
                let mut frame = execution.state.call_stack.pop().unwrap();
                let mut memory = execution.state.memory.take();
                let stopped = self.context.straight(&mut frame, &mut memory, instr);
                execution.state.memory = memory;
                execution.state.call_stack.push(frame);
                assert(execution@.state.frames =~= seen.with_machine(
                    frame@,
                    execution@.state.memory,
                ).state.frames);
                match stopped {
                    Ok(()) => Moved::Go(execution),
                    Err(Stop::Trap(trap)) => {
                        execution.status = Status::Trap(trap);
                        Moved::End(Ok(Some(execution)))
                    },
                    Err(Stop::Fault(fault)) => Moved::End(Err(fault)),
                }
            },
        }
    }
}

impl<'ctx, 'm> Engine<'ctx, 'm> {
    /// Whether the engine can step: its module is well-formed, the
    /// pre-pass has run, and every execution in the worklist may stand there.
    pub open spec fn ready(&self) -> bool {
        self.rules().wf() && all_queued(self.queue(), self.context.module)
    }

    /// Visits one instruction of the sequence `seq` that the step does not pass over.
    fn visit(&mut self, started: Execution, instr: &Instr, loc: InstrLocId, seq: Ghost<int>) -> (moved:
        Moved)
        requires
            old(self).ready(),
            started@.live(old(self).context.module),
            old(self).context.module.instr_wf(*instr, seq@),
            0 <= seq@ < old(self).context.module.seqs.len(),
        ensures
            final(self).after(moved) == old(self).rules().visit(
                old(self).turn(started@),
                *instr,
                loc,
            ),
            final(self).same_setup(old(self)),
            match moved {
                Moved::Go(next) => {
                    &&& next@.live(final(self).context.module)
                    &&& final(self).ready()
                    &&& next@.frame().func == started@.frame().func
                },
                Moved::End(r) => final(self).outcome(r).sound(final(self).context.module),
            },
    {
        let mut execution = started;
        proof {
            reveal(Rules::visit);
            self.rules().lemma_visit_sound(self.turn(execution@), *instr, loc, seq@);
        }
        execution.cur_location = Some(loc);
        if execution.advance {
            execution.advance = false;
            Moved::Go(execution)
        } else {
            proof {
                self.rules().lemma_live_kept(old(self).turn(execution@).current, execution@);
            }
            self.instr(execution, instr, loc, seq)
        }
    }

    /// Makes one step of an execution: runs the instructions of its
    /// current sequence from its place on, until one of them passes
    /// control elsewhere, the execution ends, or the sequence is used up.
    /// Hands out the execution where it has ended; else the execution, and
    /// every fork of it, is in the worklist afterwards. Stops with a fault
    /// where the module does not provide what an instruction takes.
    pub fn step_execution(&mut self, started: Execution) -> (r: Result<Option<Execution>, Fault>)
        requires
            old(self).ready(),
            started@.queued(old(self).context.module),
        ensures
            final(self).outcome(r) == old(self).rules().step(old(self).turn(started@)),
            final(self).outcome(r).sound(final(self).context.module),
            final(self).same_setup(old(self)),
            final(self).ready(),
    {
        let mut execution = started;
        let ghost start = execution@;
        let ghost rules = self.rules();
        let ghost goal = rules.step(self.turn(start));
        proof {
            rules.lemma_step_sound(self.turn(start));
        }
        if execution.status != Status::Running {
            return Ok(Some(execution));
        }
        let module = self.context.module;
        let func_id = execution.state.call_stack[execution.state.call_stack.len() - 1].func;
        let block_id = execution.cur_block;
        let cur_block = module.block(block_id);
        let mut skipped = execution.cur_location.is_none();
        let count = match execution.hotness.get(&block_id) {
            Some(count) => *count,
            None => {
                if !skipped {
                    return Err(Fault::NotEntered);
                }
                0
            },
        };
        let mut hot = count;
        if skipped {
            if count == usize::MAX {
                execution.status = Status::Terminated;
                return Ok(Some(execution));
            }
            hot = count + 1;
            execution.hotness.insert(block_id, hot);
        }
        if hot > self.max_hotness {
            execution.status = Status::Terminated;
            return Ok(Some(execution));
        }
        proof {
            rules.lemma_live_kept(start, execution@);
        }
        let mut i: usize = 0;
        while i < cur_block.instrs.len()
            invariant
                i <= cur_block.instrs.len(),
                *cur_block == module.seqs[block_id as int],
                block_id < module.seqs.len(),
                module == self.context.module,
                module.wf(),
                rules == self.rules(),
                self.ready(),
                self.same_setup(old(self)),
                execution@.live(module),
                execution@.frame().func == func_id,
                rules.run(self.turn(execution@), func_id, block_id, skipped, i as int) == goal,
                goal == old(self).rules().step(old(self).turn(started@)),
                goal.sound(module),
            decreases cur_block.instrs.len() - i,
        {
            let (instr, instr_loc) = cur_block.instrs[i];
            assert(module.seqs[block_id as int].instrs[i as int] == (instr, instr_loc));
            let pass = match execution.cur_location {
                Some(cur_location) => !skipped && cur_location != instr_loc,
                None => false,
            };
            assert(pass == Rules::passes(execution@, skipped, instr_loc));
            if !pass {
                let ghost turn_before = self.turn(execution@);
                assert(goal == match rules.visit(turn_before, instr, instr_loc) {
                    After::Go(next) => rules.run(next, func_id, block_id, true, i + 1),
                    After::End(outcome) => outcome,
                });
                skipped = true;
                assert(module.instr_wf(
                    module.seqs[block_id as int].instrs[i as int].0,
                    block_id as int,
                ));
                match self.visit(execution, &instr, instr_loc, Ghost(block_id as int)) {
                    Moved::Go(next) => {
                        execution = next;
                    },
                    Moved::End(r) => {
                        assert(After::End(self.outcome(r)) == rules.visit(
                            turn_before,
                            instr,
                            instr_loc,
                        ));
                        assert(self.outcome(r) == goal);
                        return r;
                    },
                }
            }
            i = i + 1;
        }
        proof {
            rules.lemma_fall_off_sound(self.turn(execution@), func_id, block_id);
        }
        execution.advance = false;
        let info = self.info[func_id].as_ref().unwrap();
        let end = match info.ends.get(&block_id) {
            Some(end) => Some(*end),
            None => None,
        };
        match end {
            None => {
                self.leave(&mut execution);
                self.settle(execution)
            },
            Some(end) => {
                execution.cur_block = end.block;
                execution.cur_location = Some(end.loc);
                self.push_execution(execution);
                Ok(None)
            },
        }
    }
}

impl<'ctx, 'm> Engine<'ctx, 'm> {
    /// The literal 0 of `size` bits.
    pub fn zero(&self, size: u32) -> (r: BvTerm)
        requires
            1 <= size <= 32,
        ensures
            r == (BvTerm::Lit { value: 0, width: size }),
    {
        self.context.zero(size)
    }

    /// Runs the pre-pass on every function with a body.
    pub fn initialize(&mut self)
        requires
            old(self).context.module.wf(),
            old(self).info@.len() == old(self).context.module.funcs.len(),
            all_queued(old(self).queue(), old(self).context.module),
        ensures
            final(self).ready(),
            final(self).context == old(self).context,
            final(self).checks == old(self).checks,
            final(self).max_hotness == old(self).max_hotness,
            final(self).executions == old(self).executions,
            final(self).next_id == old(self).next_id,
            final(self).rules().info == Seq::new(
                old(self).context.module.funcs.len() as nat,
                |f: int| prepass(old(self).context.module, f),
            ),
    {
        let module = self.context.module;
        let mut i: usize = 0;
        while i < module.funcs.len()
            invariant
                i <= module.funcs.len(),
                module == self.context.module,
                module.wf(),
                self.info@.len() == module.funcs.len(),
                self.context == old(self).context,
                self.checks == old(self).checks,
                self.max_hotness == old(self).max_hotness,
                self.executions == old(self).executions,
                self.next_id == old(self).next_id,
                forall|f: int| 0 <= f < i ==> prepared(#[trigger] self.info@[f], module, f),
            decreases module.funcs.len() - i,
        {
            assert(module.func_wf(i as int));
            let info = match &module.funcs[i].kind {
                FunctionKind::Import => None,
                FunctionKind::Uninitialized => None,
                FunctionKind::Local(local_func) => Some(compute_info(module, local_func)),
            };
            self.info.set(i, info);
            i = i + 1;
        }
        proof {
            let rules = self.rules();
            assert forall|f: int|
                0 <= f < module.funcs.len() && module.funcs[f].kind is Local implies {
                &&& (#[trigger] rules.info[f]) is Some
                &&& rules.info[f].unwrap().as_walk().info_wf(module)
            } by {
                assert(prepared(self.info@[f], module, f));
            }
            assert(rules.info =~= Seq::new(
                module.funcs.len() as nat,
                |f: int| prepass(module, f),
            )) by {
                assert forall|f: int| 0 <= f < module.funcs.len() implies #[trigger] rules.info[f]
                    == prepass(module, f) by {
                    assert(prepared(self.info@[f], module, f));
                }
            }
        }
    }

    /// The symbolic inputs of a function: for each parameter, in order,
    /// a fresh 32-bit variable named after it.
    pub fn get_inputs(&self, func: &LocalFunction) -> (inputs: Vec<(LocalId, Val)>)
        requires
            forall|a: int|
                0 <= a < func.args.len() ==> self.context.module.local_wf(#[trigger] func.args[a]),
        ensures
            inputs@.len() == func.args@.len(),
            forall|i: int|
                0 <= i < inputs@.len() ==> (#[trigger] inputs@[i]).0 == func.args@[i] && is_input(
                    inputs@[i].1,
                    func.args@[i],
                ),
    {
        let mut inputs: Vec<(LocalId, Val)> = Vec::new();
        let mut i: usize = 0;
        while i < func.args.len()
            invariant
                i <= func.args.len(),
                inputs@.len() == i,
                forall|a: int|
                    0 <= a < func.args.len() ==> self.context.module.local_wf(
                        #[trigger] func.args[a],
                    ),
                forall|j: int|
                    0 <= j < i ==> (#[trigger] inputs@[j]).0 == func.args@[j] && is_input(
                        inputs@[j].1,
                        func.args@[j],
                    ),
            decreases func.args.len() - i,
        {
            let param_id = func.args[i];
            assert(self.context.module.local_wf(func.args[i as int]));
            let param_ty = self.context.module.locals[param_id];
            let symbolic_param = Val::Sym(SymVal::from_valtype(param_ty, name_of_local(param_id)));
            inputs.push((param_id, symbolic_param));
            i = i + 1;
        }
        inputs
    }
}

impl<'ctx, 'm> Engine<'ctx, 'm> {
    /// The execution from which the analysis of the function `id`
    /// starts: one frame, in which every parameter is a fresh symbolic
    /// value and every other local that the function names is zero, the
    /// module's memory with every byte zero, no constraint, and the entry
    /// sequence about to be entered.
    pub fn get_initial_execution(&mut self, func: &LocalFunction, id: FunctionId) -> (r: Execution)
        requires
            old(self).ready(),
            id < old(self).context.module.funcs.len(),
            old(self).context.module.funcs[id as int].kind == FunctionKind::Local(*func),
            old(self).rules().supported(id),
        ensures
            final(self).same_setup(old(self)),
            final(self).executions == old(self).executions,
            final(self).next_id == next_after(old(self).next_id),
            final(self).ready(),
            r@.id == old(self).next_id,
            r@.live(final(self).context.module),
            old(self).rules().seeded(id, r@),
    {
        let module = self.context.module;
        assert(module.func_wf(id as int));
        assert(self.rules().info[id as int] is Some);
        assert(self.rules().args_of(id) == func.args@);
        let inputs = self.get_inputs(func);
        let mut frame = Frame::new(id, None);
        let mut i: usize = 0;
        while i < inputs.len()
            invariant
                i <= inputs@.len() == func.args@.len(),
                forall|j: int|
                    0 <= j < inputs@.len() ==> (#[trigger] inputs@[j]).0 == func.args@[j] && is_input(
                        inputs@[j].1,
                        func.args@[j],
                    ),
                frame@.func == id,
                frame@.ret is None,
                frame@.stack.len() == 0,
                forall|k: LocalId| #[trigger]
                    frame@.locals.dom().contains(k) <==> func.args@.take(i as int).contains(k),
                forall|k: LocalId|
                    func.args@.take(i as int).contains(k) ==> is_input(
                        #[trigger] frame@.locals[k],
                        k,
                    ),
            decreases inputs.len() - i,
        {
            let ghost before = func.args@.take(i as int);
            let ghost after = func.args@.take(i + 1);
            let ghost bound = frame@.locals;
            let key = inputs[i].0;
            let value = inputs[i].1.clone();
            assert(key == func.args@[i as int] && is_input(value, key));
            frame.locals.insert(key, value);
            assert(frame@.locals == bound.insert(key, value));
            proof {
                assert(after =~= before.push(func.args@[i as int]));
                assert forall|k: LocalId| #[trigger]
                    after.contains(k) <==> (before.contains(k) || k == func.args@[i as int]) by {
                    if before.contains(k) {
                        let j = choose|j: int| 0 <= j < before.len() && before[j] == k;
                        assert(after[j] == k);
                    }
                    if k == func.args@[i as int] {
                        assert(after[i as int] == k);
                    }
                }
            }
            i = i + 1;
        }
        assert(func.args@.take(inputs@.len() as int) =~= func.args@);
        let ghost bound = frame@.locals;
        let ghost listed = self.rules().info_of(id).locals;
        let info = self.info[id].as_ref().unwrap();
        proof {
            assert(self.rules().info[id as int] == Some(info@));
            assert(self.rules().info_of(id) == info@);
        }
        fill(module, &mut frame.locals, &info.locals);
        let ghost frame_view = frame@;
        proof {
            assert(frame_view.locals == fill_zero(bound, listed));
            assert forall|k: LocalId| #[trigger]
                frame_view.locals.dom().contains(k) <==> func.args@.contains(k) || listed.contains(
                    k,
                ) by {
                lemma_fill_zero(bound, listed, k);
            }
            assert forall|k: LocalId| func.args@.contains(k) implies is_input(
                #[trigger] frame_view.locals[k],
                k,
            ) by {
                lemma_fill_zero(bound, listed, k);
            }
            assert forall|k: LocalId|
                !func.args@.contains(k) && listed.contains(k) implies #[trigger] frame_view.locals[k]
                == Val::Conc(ConcVal(0)) by {
                lemma_fill_zero(bound, listed, k);
            }
        }
        let mut state = State::new();
        state.call_stack.push(frame);
        assert(state.call_stack@ =~= seq![frame]);
        let mut m: usize = 0;
        while m < module.memories.len()
            invariant
                m <= module.memories.len(),
                state.call_stack@ == seq![frame],
                state.memory == if m == 0 {
                    None::<Memory>
                } else {
                    Some(
                        Memory {
                            size: Val::Conc(ConcVal(from_bits(module.memories@[m - 1].initial as int))),
                            array: ArrayTerm::Fill { byte: 0 },
                        },
                    )
                },
            decreases module.memories.len() - m,
        {
            state.memory = Some(Memory::new(module.memories[m].initial));
            m = m + 1;
        }
        let execution_id = self.fresh_id();
        let execution = Execution::new(state, func.entry_block(), execution_id);
        proof {
            assert(execution@.state.frames =~= seq![frame_view]);
            assert(execution@.frame() == frame_view);
            assert(self.queue() == old(self).queue());
        }
        execution
    }
}

/// What a run of the worklist handed out, as a mathematical value.
pub open spec fn run_view(r: Result<Vec<Execution>, Fault>) -> Result<Seq<ExecutionView>, Fault> {
    match r {
        Ok(done) => Ok(execution_views(done@)),
        Err(fault) => Err(fault),
    }
}

impl<'ctx, 'm> Engine<'ctx, 'm> {
    /// Runs the worklist until it is empty: steps the first execution,
    /// again and again, and collects the executions that end, in the
    /// order in which they end. Stops with the fault of a step that
    /// meets one.
    pub fn collect_executions(&mut self) -> (r: Result<Vec<Execution>, Fault>)
        requires
            old(self).ready(),
        ensures
            run_view(r) == drain(old(self).rules(), old(self).queue(), old(self).next_id),
            final(self).same_setup(old(self)),
            final(self).ready(),
            r matches Ok(done) ==> final(self).queue().len() == 0 && forall|i: int|
                0 <= i < done@.len() ==> (#[trigger] done@[i])@.status != Status::Running,
    {
        let ghost rules = self.rules();
        let ghost goal = drain(rules, self.queue(), self.next_id);
        let mut completed_executions: Vec<Execution> = Vec::new();
        assert(execution_views(completed_executions@) =~= Seq::empty());
        assert(Seq::<ExecutionView>::empty() + Seq::<ExecutionView>::empty() =~= Seq::empty());
        while self.executions.len() > 0
            invariant
                rules == self.rules(),
                self.ready(),
                self.same_setup(old(self)),
                goal == drain(old(self).rules(), old(self).queue(), old(self).next_id),
                after_done(
                    execution_views(completed_executions@),
                    drain(rules, self.queue(), self.next_id),
                ) == goal,
                forall|i: int|
                    0 <= i < completed_executions@.len() ==> (#[trigger] completed_executions@[i])@.status
                        != Status::Running,
            decreases rules.potential(self.queue()),
        {
            let ghost before = self.queue();
            let ghost done = execution_views(completed_executions@);
            let ghost id = self.next_id;
            let execution = self.executions.pop_front().unwrap();
            proof {
                assert(self.queue() =~= before.skip(1));
                assert(execution@ == before[0]);
                assert(before[0].queued(self.context.module));
                assert(all_queued(self.queue(), self.context.module)) by {
                    assert forall|i: int| 0 <= i < self.queue().len() implies (
                    #[trigger] self.queue()[i]).queued(self.context.module) by {
                        assert(before[i + 1].queued(self.context.module));
                    }
                }
                rules.lemma_step_weight(self.turn(execution@));
                rules.lemma_potential_falls(before, rules.step(self.turn(execution@)).queue);
                assert(self.turn(execution@) == (Turn {
                    current: before[0],
                    queue: before.skip(1),
                    next_id: id,
                }));
            }
            match self.step_execution(execution) {
                Ok(Some(execution)) => {
                    completed_executions.push(execution);
                    proof {
                        let rest = drain(rules, self.queue(), self.next_id);
                        assert(execution_views(completed_executions@) =~= done.push(execution@));
                        if let Ok(tail) = rest {
                            assert(done + (seq![execution@] + tail) =~= done.push(execution@) + tail);
                        }
                    }
                },
                Ok(None) => {},
                Err(fault) => {
                    return Err(fault);
                },
            }
        }
        proof {
            assert(self.queue().len() == 0);
            assert(execution_views(completed_executions@) + Seq::<ExecutionView>::empty()
                =~= execution_views(completed_executions@));
        }
        Ok(completed_executions)
    }

    /// Explores the function `id` from an initial execution, the one
    /// given or else the one that `get_initial_execution` makes: gives it
    /// a copy of every check of the engine, puts it in the worklist and
    /// runs the worklist until it is empty.
    pub fn get_func_executions(
        &mut self,
        func: &LocalFunction,
        id: FunctionId,
        initial: Option<Execution>,
    ) -> (r: Result<Vec<Execution>, Fault>)
        requires
            old(self).ready(),
            id < old(self).context.module.funcs.len(),
            old(self).context.module.funcs[id as int].kind == FunctionKind::Local(*func),
            initial matches Some(e) ==> e@.queued(old(self).context.module),
            initial is None ==> old(self).rules().supported(id),
        ensures
            final(self).same_setup(old(self)),
            final(self).ready(),
            r matches Ok(done) ==> final(self).queue().len() == 0 && forall|i: int|
                0 <= i < done@.len() ==> (#[trigger] done@[i])@.status != Status::Running,
            exists|seed: ExecutionView|
                {
                    &&& initial matches Some(e) ==> seed == e@
                    &&& initial is None ==> seed.id == old(self).next_id && old(
                        self,
                    ).rules().seeded(id, seed)
                    &&& #[trigger] explored(
                        old(self).rules(),
                        old(self).queue(),
                        old(self).checks@,
                        seed,
                        initial is None,
                        old(self).next_id,
                        run_view(r),
                    )
                },
    {
        let mut execution = match initial {
            None => self.get_initial_execution(func, id),
            Some(execution) => execution,
        };
        let ghost seed = execution@;
        let mut i: usize = 0;
        while i < self.checks.len()
            invariant
                i <= self.checks.len(),
                *self == *old(self) || (initial is None && self.same_setup(old(self))
                    && self.executions == old(self).executions && self.next_id == next_after(
                    old(self).next_id,
                )),
                execution@ == (ExecutionView {
                    checks: seed.checks + check_views(self.checks@.take(i as int)),
                    ..seed
                }),
            decreases self.checks.len() - i,
        {
            let check = self.checks[i].clone();
            execution.add_check(check);
            proof {
                assert(check_views(self.checks@.take(i + 1)) =~= check_views(
                    self.checks@.take(i as int),
                ).push(self.checks@[i as int]@));
                assert(execution@.checks =~= seed.checks + check_views(self.checks@.take(i + 1)));
            }
            i = i + 1;
        }
        proof {
            assert(self.checks@.take(self.checks@.len() as int) =~= self.checks@);
            assert(check_views(self.checks@.take(0)) =~= Seq::empty());
            assert(seed.queued(self.context.module));
            if seed.status == Status::Running {
                self.rules().lemma_live_kept(seed, execution@);
            }
        }
        let ghost seeded = with_checks(seed, self.checks@);
        assert(execution@ == seeded);
        self.push_execution(execution);
        let r = self.collect_executions();
        proof {
            if initial is None {
                assert(old(self).rules().seeded(id, seed));
            }
            assert(explored(
                old(self).rules(),
                old(self).queue(),
                old(self).checks@,
                seed,
                initial is None,
                old(self).next_id,
                run_view(r),
            ));
        }
        r
    }
}

impl<'ctx, 'm> Engine<'ctx, 'm> {
    /// Computes a two-operand instruction on two values.
    pub fn bin_op(&self, op: BinaryOp, lhs: &Val, rhs: &Val) -> (r: Result<Val, TrapReason>)
        ensures
            r == bin_op_spec(op, *lhs, *rhs),
    {
        self.context.bin_op(op, lhs, rhs)
    }

    /// Computes a one-operand instruction on a value.
    pub fn un_op(&self, op: UnaryOp, operand: &Val) -> (r: Result<Val, TrapReason>)
        ensures
            r == Ok::<Val, TrapReason>(un_op_spec(op, *operand)),
    {
        self.context.un_op(op, operand)
    }
}

/// What the analysis of one function hands to the caller, who asks the
/// solver and prints: the heading, the list of all paths, the symbolic
/// inputs, and the paths that completed or trapped, on which the checks
/// are to be run.
#[derive(Debug)]
pub struct Analysis {
    pub title: Line,
    pub paths: Vec<Line>,
    pub inputs: Vec<(LocalId, Val)>,
    pub completed: Vec<Execution>,
}

impl<'ctx, 'm> Engine<'ctx, 'm> {
    /// Whether `outcome` is what the exploration of the function `id`
    /// from some initial execution of it hands out.
    pub open spec fn analysed(&self, id: FunctionId, outcome: Result<Seq<ExecutionView>, Fault>) -> bool {
        exists|seed: ExecutionView|
            {
                &&& seed.id == self.next_id
                &&& self.rules().seeded(id, seed)
                &&& #[trigger] explored(
                    self.rules(),
                    self.queue(),
                    self.checks@,
                    seed,
                    true,
                    self.next_id,
                    outcome,
                )
            }
    }

    /// Analyses the function `id`: explores it from its initial
    /// execution until the worklist is empty, folds the values of the
    /// states that come out, lists all paths, and keeps those that
    /// completed or trapped for the checks.
    pub fn analyze_func(&mut self, func: &LocalFunction, id: FunctionId, name: &str) -> (r: Result<
        Analysis,
        Fault,
    >)
        requires
            old(self).ready(),
            id < old(self).context.module.funcs.len(),
            old(self).context.module.funcs[id as int].kind == FunctionKind::Local(*func),
            old(self).rules().supported(id),
        ensures
            final(self).same_setup(old(self)),
            final(self).ready(),
            r matches Ok(analysis) ==> {
                &&& analysis.title@ == (LineView { tone: Tone::Title, text: name@ })
                &&& analysis.inputs@.len() == func.args@.len()
                &&& forall|i: int|
                    0 <= i < func.args@.len() ==> (#[trigger] analysis.inputs@[i]).0 == func.args@[i]
                        && is_input(analysis.inputs@[i].1, func.args@[i])
                &&& exists|all: Seq<ExecutionView>|
                    {
                        &&& #[trigger] old(self).analysed(id, Ok(all))
                        &&& line_views(analysis.paths@) == paths_report(tidied(all))
                        &&& execution_views(analysis.completed@) == kept(tidied(all))
                    }
            },
            r matches Err(fault) ==> old(self).analysed(id, Err(fault)),
    {
        let found = self.get_func_executions(func, id, None);
        assert(old(self).analysed(id, run_view(found)));
        let mut executions = match found {
            Ok(executions) => executions,
            Err(fault) => {
                return Err(fault);
            },
        };
        let ghost all = execution_views(executions@);
        assert(old(self).analysed(id, Ok(all)));
        assert(self.rules().args_of(id) == func.args@);
        assert(self.rules().supported(id));
        let inputs = self.get_inputs(func);
        let mut i: usize = 0;
        while i < executions.len()
            invariant
                i <= executions.len(),
                executions@.len() == all.len(),
                forall|j: int| 0 <= j < i ==> (#[trigger] executions@[j])@ == tidy(all[j]),
                forall|j: int| i <= j < all.len() ==> (#[trigger] executions@[j])@ == all[j],
            decreases executions.len() - i,
        {
            executions[i].state.simplify();
            i = i + 1;
        }
        assert(execution_views(executions@) =~= tidied(all));
        let reporter = Reporter::new();
        let title = reporter.report_func(name);
        let paths = reporter.report_executions(&executions);
        let mut completed: Vec<Execution> = Vec::new();
        let ghost neat = execution_views(executions@);
        let ghost total = executions@.len();
        assert(execution_views(completed@) =~= kept(neat.take(0)));
        let mut taken: usize = 0;
        while executions.len() > 0
            invariant
                taken + executions@.len() == total,
                total == neat.len(),
                total <= usize::MAX,
                execution_views(executions@) == neat.skip(taken as int),
                execution_views(completed@) == kept(neat.take(taken as int)),
            decreases executions.len(),
        {
            let ghost rest = execution_views(executions@);
            let ghost done = execution_views(completed@);
            let ghost list = executions@;
            let execution = executions.remove(0);
            proof {
                assert(execution@ == rest[0]);
                assert(rest[0] == neat[taken as int]);
                assert(executions@ =~= list.remove(0));
                assert forall|j: int| 0 <= j < executions@.len() implies execution_views(
                    executions@,
                )[j] == neat.skip(taken + 1)[j] by {
                    assert(executions@[j] == list[j + 1]);
                    assert(rest[j + 1] == neat.skip(taken as int)[j + 1]);
                }
                assert(execution_views(executions@) =~= neat.skip(taken + 1));
                assert(neat.take(taken + 1).drop_last() =~= neat.take(taken as int));
                assert(neat.take(taken + 1).last() == execution@);
            }
            match execution.status {
                Status::Complete | Status::Trap(_) => {
                    completed.push(execution);
                    assert(execution_views(completed@) =~= done.push(execution@));
                },
                _ => {},
            }
            taken = taken + 1;
        }
        proof {
            assert(neat.take(total as int) =~= neat);
            assert(line_views(paths@) == paths_report(tidied(all)));
        }
        Ok(Analysis { title, paths, inputs, completed })
    }
}

} // verus!
