use crate::bound::drain;
use crate::checks::{has_key, first_key, record_spec, CheckView, Recorded};
use crate::context::{lemma_bin_op_wf, lemma_un_op_wf};
use crate::flow::Loc;
use crate::ir::{BinaryOp, FunctionId, Instr, InstrLocId, InstrSeqId, LocalId};
use crate::machine::{
    access_index, below, fault_of, is_straight, load_bits, load_zero_extends, store_bits,
    straight_spec, top,
};
use crate::memory::{lemma_load_wf, lemma_store_bytes_wf, Memory, PAGE_SIZE};
use crate::rules::{
    bind_args, fill_zero, initial_memory, is_input, is_nonzero, is_zero, lemma_bind_args,
    lemma_fill_zero, next_after, After, Rules, Turn,
};
use crate::sound::all_queued;
use crate::state::{ExecutionView, FrameView, StateView, Status};
use crate::term::{lemma_modulus_values, BoolTerm, BvTerm};
use crate::value::{lemma_bits_round_trip, ConcVal, SymVal, Val};
use vstd::prelude::*;

verus! {

/// Whether every recorded predicate is a well-formed term.
pub open spec fn recorded_wf(list: Recorded) -> bool {
    forall|i: int| 0 <= i < list.len() ==> (#[trigger] list[i]).1.wf()
}

impl FrameView {
    /// Whether every value on the stack and in the locals is well-formed.
    pub open spec fn values_wf(self) -> bool {
        &&& forall|i: int| 0 <= i < self.stack.len() ==> (#[trigger] self.stack[i]).wf()
        &&& forall|k: LocalId| self.locals.dom().contains(k) ==> (#[trigger] self.locals[k]).wf()
    }
}

impl StateView {
    /// Whether every value of every frame is well-formed, and the memory.
    pub open spec fn values_wf(self) -> bool {
        &&& forall|i: int| 0 <= i < self.frames.len() ==> (#[trigger] self.frames[i]).values_wf()
        &&& self.memory matches Some(memory) ==> memory.wf()
    }
}

impl ExecutionView {
    /// Whether every term that the execution holds is well-formed: the
    /// values of its state, its path constraints, and what its checks
    /// have recorded.
    pub open spec fn terms_wf(self) -> bool {
        &&& self.state.values_wf()
        &&& self.constraints_wf()
        &&& forall|j: int| 0 <= j < self.checks.len() ==> recorded_wf((#[trigger] self.checks[j]).recorded())
    }
}

/// A concrete value is well-formed.
pub proof fn lemma_conc_wf(c: i32)
    ensures
        Val::Conc(ConcVal(c)).wf(),
{
    lemma_modulus_values();
    lemma_bits_round_trip(c, 0);
}

/// Where a location is recorded there is a first index at which it is.
pub proof fn lemma_first_key(list: Recorded, loc: u32, i: int)
    requires
        0 <= i < list.len(),
        list[i].0 == loc,
    ensures
        0 <= first_key(list, loc) <= i,
        list[first_key(list, loc)].0 == loc,
    decreases i,
{
    if exists|j: int| 0 <= j < i && (#[trigger] list[j]).0 == loc {
        let j = choose|j: int| 0 <= j < i && (#[trigger] list[j]).0 == loc;
        lemma_first_key(list, loc, j);
    } else {
        assert(0 <= i < list.len() && list[i].0 == loc && forall|j: int|
            0 <= j < i ==> (#[trigger] list[j]).0 != loc);
        let k = first_key(list, loc);
        if k > i {
            assert(list[i].0 != loc);
        }
    }
}

/// Recording a well-formed predicate keeps a list of them well-formed.
pub proof fn lemma_record_wf(list: Recorded, loc: u32, pred: BoolTerm)
    requires
        recorded_wf(list),
        pred.wf(),
    ensures
        recorded_wf(record_spec(list, loc, pred)),
{
    let r = record_spec(list, loc, pred);
    if has_key(list, loc) {
        let w = choose|i: int| 0 <= i < list.len() && (#[trigger] list[i]).0 == loc;
        lemma_first_key(list, loc, w);
    }
    assert forall|i: int| 0 <= i < r.len() implies (#[trigger] r[i]).1.wf() by {
        if has_key(list, loc) {
            if i != first_key(list, loc) {
                assert(r[i] == list[i]);
            }
        } else {
            if i < list.len() {
                assert(r[i] == list[i]);
            }
        }
    }
}

/// A straight-line instruction on well-formed values leaves well-formed values.
pub proof fn lemma_straight_wf(frame: FrameView, memory: Option<Memory>, instr: Instr)
    requires
        frame.values_wf(),
        memory matches Some(m) ==> m.wf(),
        fault_of(frame, memory, instr) is None,
        is_straight(instr),
    ensures
        straight_spec(frame, memory, instr).0.values_wf(),
        straight_spec(frame, memory, instr).1 matches Some(m) ==> m.wf(),
        straight_spec(frame, memory, instr).0.func == frame.func,
        straight_spec(frame, memory, instr).0.ret == frame.ret,
{
    reveal_with_fuel(BvTerm::wf, 3);
    reveal_with_fuel(BoolTerm::wf, 3);
    reveal_with_fuel(BvTerm::width, 3);
    lemma_modulus_values();
    let stack = frame.stack;
    let (after, mem, trap) = straight_spec(frame, memory, instr);
    lemma_conc_wf(0);
    assert forall|n: int| 1 <= n <= stack.len() implies (#[trigger] top(stack, n)).wf() by {
        assert(stack[stack.len() - n].wf());
    }
    assert forall|n: int, i: int| 0 <= n <= stack.len() && 0 <= i < below(stack, n).len() implies (
    #[trigger] below(stack, n)[i]).wf() by {
        assert(stack[i].wf());
    }
    match instr {
        Instr::Unop { op } => {
            lemma_un_op_wf(op, top(stack, 1));
        },
        Instr::Binop { op } => {
            lemma_bin_op_wf(op, top(stack, 2), top(stack, 1));
        },
        Instr::Const { value } => {
            lemma_conc_wf(value);
        },
        Instr::LocalGet { local } => {
            assert(frame.locals[local].wf());
        },
        Instr::MemoryGrow => {
            lemma_bin_op_wf(BinaryOp::I32Add, memory.unwrap().size, top(stack, 1));
        },
        Instr::Load { kind, offset } => {
            let base = Val::Conc(ConcVal(crate::value::from_bits(offset as int)));
            lemma_conc_wf(crate::value::from_bits(offset as int));
            lemma_bin_op_wf(BinaryOp::I32Add, base, top(stack, 1));
            lemma_load_wf(
                memory.unwrap().array,
                access_index(offset, top(stack, 1)),
                load_bits(kind),
                load_zero_extends(kind),
            );
        },
        Instr::Store { kind, offset } => {
            let base = Val::Conc(ConcVal(crate::value::from_bits(offset as int)));
            lemma_conc_wf(crate::value::from_bits(offset as int));
            lemma_bin_op_wf(BinaryOp::I32Add, base, top(stack, 2));
            lemma_store_bytes_wf(
                memory.unwrap().array,
                access_index(offset, top(stack, 2)),
                top(stack, 1).term(),
                (store_bits(kind) / 8) as nat,
            );
        },
        _ => {},
    }
    assert forall|i: int| 0 <= i < after.stack.len() implies (#[trigger] after.stack[i]).wf() by {
        if i < stack.len() {
            assert(stack[i].wf());
        }
    }
    assert forall|k: LocalId| after.locals.dom().contains(k) implies (#[trigger] after.locals[k]).wf() by {
        if frame.locals.dom().contains(k) {
            assert(frame.locals[k].wf());
        }
    }
}

/// What a check records of a state with well-formed values is well-formed.
pub proof fn lemma_observe_wf(check: CheckView, state: StateView, instr: Instr, loc: InstrLocId)
    requires
        recorded_wf(check.recorded()),
        state.values_wf(),
        state.frames.len() >= 1,
        instr is Binop ==> state.frames.last().stack.len() >= 1,
        instr is Load ==> state.frames.last().stack.len() >= 1 && state.memory is Some,
    ensures
        recorded_wf(check.observe(state, instr, loc).recorded()),
{
    reveal_with_fuel(BvTerm::wf, 3);
    reveal_with_fuel(BoolTerm::wf, 3);
    reveal_with_fuel(BvTerm::width, 3);
    lemma_modulus_values();
    let frame = state.frames.last();
    assert(state.frames[state.frames.len() - 1].values_wf());
    if let Some(pred) = check.predicate(state, instr) {
        let value = top(frame.stack, 1);
        assert(frame.stack[frame.stack.len() - 1].wf());
        match instr {
            Instr::Load { kind, .. } => {
                let count = Val::Conc(ConcVal((load_bits(kind) / 8) as i32));
                lemma_conc_wf((load_bits(kind) / 8) as i32);
                lemma_bin_op_wf(BinaryOp::I32Add, count, value);
                lemma_conc_wf(PAGE_SIZE as i32);
                lemma_bin_op_wf(
                    BinaryOp::I32Mul,
                    Val::Conc(ConcVal(PAGE_SIZE as i32)),
                    state.memory.unwrap().size,
                );
            },
            _ => {},
        }
        assert(pred.wf());
        lemma_record_wf(check.recorded(), loc, pred);
    }
}

impl Rules {
    /// Whether `after` is `before` with executions more at its end,
    /// each of which holds only well-formed terms.
    pub open spec fn fine(self, before: Seq<ExecutionView>, after: Seq<ExecutionView>) -> bool {
        &&& before.len() <= after.len()
        &&& after.take(before.len() as int) == before
        &&& forall|j: int| before.len() <= j < after.len() ==> (#[trigger] after[j]).terms_wf()
    }

    /// Fine after fine is fine.
    pub proof fn lemma_fine_twice(
        self,
        q0: Seq<ExecutionView>,
        q1: Seq<ExecutionView>,
        q2: Seq<ExecutionView>,
    )
        requires
            self.fine(q0, q1),
            self.fine(q1, q2),
        ensures
            self.fine(q0, q2),
    {
        assert(q2.take(q0.len() as int) =~= q1.take(q0.len() as int)) by {
            assert forall|j: int| 0 <= j < q0.len() implies q2[j] == q1[j] by {
                assert(q2.take(q1.len() as int)[j] == q1[j]);
            }
        }
        assert forall|j: int| q0.len() <= j < q2.len() implies (#[trigger] q2[j]).terms_wf() by {
            if j < q1.len() {
                assert(q2.take(q1.len() as int)[j] == q1[j]);
            }
        }
    }

    /// A worklist with a well-formed execution more is fine.
    pub proof fn lemma_fine_push(self, q: Seq<ExecutionView>, e: ExecutionView)
        ensures
            self.fine(q, q),
            e.terms_wf() ==> self.fine(q, q.push(e)),
    {
        assert(q.take(q.len() as int) =~= q);
        assert(q.push(e).take(q.len() as int) =~= q);
    }

    /// An execution whose terms are well-formed stays so when its place,
    /// its status, its identifier or its counters change.
    pub proof fn lemma_terms_kept(self, e: ExecutionView, r: ExecutionView)
        requires
            e.terms_wf(),
            r.state == e.state,
            r.constraints == e.constraints,
            r.checks == e.checks,
        ensures
            r.terms_wf(),
    {
    }

    /// Taking values from the stack of the current frame keeps the terms well-formed.
    pub proof fn lemma_popped_wf(self, e: ExecutionView, n: int)
        requires
            e.terms_wf(),
            e.state.frames.len() >= 1,
            0 <= n <= e.frame().stack.len(),
        ensures
            e.popped(n).terms_wf(),
            forall|i: int| 1 <= i <= e.frame().stack.len() ==> (#[trigger] top(e.frame().stack, i)).wf(),
    {
        let frame = e.frame();
        let frames = e.state.frames;
        assert(frames[frames.len() - 1].values_wf());
        let r = e.popped(n);
        assert forall|i: int| 0 <= i < r.state.frames.len() implies (
        #[trigger] r.state.frames[i]).values_wf() by {
            if i < frames.len() - 1 {
                assert(frames[i].values_wf());
            } else {
                let f = r.state.frames[i];
                assert forall|j: int| 0 <= j < f.stack.len() implies (#[trigger] f.stack[j]).wf() by {
                    assert(frame.stack[j].wf());
                }
                assert forall|k: LocalId| f.locals.dom().contains(k) implies (
                #[trigger] f.locals[k]).wf() by {
                    assert(frame.locals[k].wf());
                }
            }
        }
        assert forall|i: int| 1 <= i <= frame.stack.len() implies (#[trigger] top(
            frame.stack,
            i,
        )).wf() by {
            assert(frame.stack[frame.stack.len() - i].wf());
        }
    }

    /// One more well-formed constraint keeps the terms well-formed.
    pub proof fn lemma_constrained_wf(self, e: ExecutionView, c: BoolTerm)
        requires
            e.terms_wf(),
            c.wf(),
        ensures
            e.constrained(c).terms_wf(),
    {
        let r = e.constrained(c);
        assert forall|i: int| 0 <= i < r.constraints.len() implies (#[trigger] r.constraints[i]).wf() by {
            if i < e.constraints.len() {
                assert(e.constraints[i].wf());
            }
        }
    }

    /// That a well-formed condition is zero, or is not, is well-formed.
    pub proof fn lemma_condition_wf(self, val: SymVal)
        requires
            Val::Sym(val).wf(),
        ensures
            is_zero(val).wf(),
            is_nonzero(val).wf(),
    {
        reveal_with_fuel(BvTerm::wf, 2);
        reveal_with_fuel(BoolTerm::wf, 3);
        reveal_with_fuel(BvTerm::width, 2);
        lemma_modulus_values();
    }

    /// A return from a function keeps the terms well-formed.
    pub proof fn lemma_leave_wf(self, e: ExecutionView)
        requires
            e.terms_wf(),
            e.state.frames.len() >= 1,
        ensures
            e.leave().terms_wf(),
            (ExecutionView { advance: false, ..e }).leave().terms_wf(),
    {
        let frames = e.state.frames;
        let r = e.leave();
        if frames.len() >= 2 {
            let callee = frames[frames.len() - 1];
            let caller = frames[frames.len() - 2];
            assert(callee.values_wf());
            assert(caller.values_wf());
            assert forall|i: int| 0 <= i < r.state.frames.len() implies (
            #[trigger] r.state.frames[i]).values_wf() by {
                if i < frames.len() - 2 {
                    assert(frames[i].values_wf());
                } else {
                    let f = r.state.frames[i];
                    assert forall|j: int| 0 <= j < f.stack.len() implies (
                    #[trigger] f.stack[j]).wf() by {
                        if j < caller.stack.len() {
                            assert(caller.stack[j].wf());
                        } else {
                            assert(callee.stack[j - caller.stack.len()].wf());
                        }
                    }
                    assert forall|k: LocalId| f.locals.dom().contains(k) implies (
                    #[trigger] f.locals[k]).wf() by {
                        assert(caller.locals[k].wf());
                    }
                }
            }
        }
        let r2 = (ExecutionView { advance: false, ..e }).leave();
        assert(r2.state == r.state);
    }

    /// A branch keeps the terms well-formed.
    pub proof fn lemma_jump_wf(self, e: ExecutionView, target: InstrSeqId)
        requires
            e.terms_wf(),
            e.state.frames.len() >= 1,
        ensures
            self.jump(e, target).terms_wf(),
    {
        self.lemma_leave_wf(e);
    }

    /// The frame of a call with well-formed arguments holds well-formed values.
    pub proof fn lemma_callee_wf(self, func: FunctionId, ret: Loc, inputs: Seq<Val>)
        requires
            inputs.len() == self.args_of(func).len(),
            forall|i: int| 0 <= i < inputs.len() ==> (#[trigger] inputs[i]).wf(),
        ensures
            self.callee_frame(func, ret, inputs).values_wf(),
    {
        let args = self.args_of(func);
        let bound = bind_args(Map::empty(), args, inputs);
        let filled = fill_zero(bound, self.info_of(func).locals);
        lemma_conc_wf(0);
        assert forall|k: LocalId| filled.dom().contains(k) implies (#[trigger] filled[k]).wf() by {
            lemma_fill_zero(bound, self.info_of(func).locals, k);
            lemma_bind_args(Map::empty(), args, inputs, k);
            if bound.dom().contains(k) {
                let i = choose|i: int| 0 <= i < args.len() && args[i] == k && bound[k] == inputs[i];
                assert(inputs[i].wf());
            }
        }
    }

    /// An instruction keeps the terms well-formed: those of the execution
    /// that goes on, of what is handed out, and of what joins the worklist.
    pub proof fn lemma_visit_wf(self, t: Turn, instr: Instr, loc: InstrLocId)
        requires
            t.current.terms_wf(),
            t.current.state.frames.len() >= 1,
        ensures
            match self.visit(t, instr, loc) {
                After::Go(next) => next.current.terms_wf() && self.fine(t.queue, next.queue)
                    && next.current.state.frames.len() >= 1,
                After::End(outcome) => self.fine(t.queue, outcome.queue) && (outcome.result matches Ok(
                    Some(e),
                ) ==> e.terms_wf()),
            },
    {
        reveal(Rules::visit);
        let q = t.queue;
        self.lemma_fine_push(q, t.current);
        let here = ExecutionView { cur_location: Some(loc), ..t.current };
        self.lemma_terms_kept(t.current, here);
        if !here.advance {
            let frames = here.state.frames;
            assert(frames[frames.len() - 1].values_wf());
            self.lemma_popped_wf(here, 0);
            if is_straight(instr) {
                if fault_of(here.frame(), here.state.memory, instr) is None {
                    let seen = here.observed(instr, loc);
                    assert forall|j: int| 0 <= j < seen.checks.len() implies recorded_wf(
                        (#[trigger] seen.checks[j]).recorded(),
                    ) by {
                        lemma_observe_wf(here.checks[j], here.state, instr, loc);
                    }
                    lemma_straight_wf(seen.frame(), seen.state.memory, instr);
                    let (frame, memory, trap) = straight_spec(
                        seen.frame(),
                        seen.state.memory,
                        instr,
                    );
                    let done = seen.with_machine(frame, memory);
                    assert forall|i: int| 0 <= i < done.state.frames.len() implies (
                    #[trigger] done.state.frames[i]).values_wf() by {
                        if i < frames.len() - 1 {
                            assert(frames[i].values_wf());
                        }
                    }
                    assert(done.terms_wf());
                }
            } else {
                let seen = here.observed(instr, loc);
                assert forall|j: int| 0 <= j < seen.checks.len() implies recorded_wf(
                    (#[trigger] seen.checks[j]).recorded(),
                ) by {
                    assert(here.checks[j].predicate(here.state, instr) is None);
                }
                assert(seen.terms_wf());
                self.lemma_control_wf(t.with(seen), instr, loc);
            }
        }
    }

    /// A control instruction keeps the terms well-formed.
    pub proof fn lemma_control_wf(self, t: Turn, instr: Instr, loc: InstrLocId)
        requires
            t.current.terms_wf(),
            t.current.state.frames.len() >= 1,
            !is_straight(instr),
        ensures
            match self.control(t, instr, loc) {
                After::Go(next) => next.current.terms_wf() && self.fine(t.queue, next.queue)
                    && next.current.state.frames.len() >= 1,
                After::End(outcome) => self.fine(t.queue, outcome.queue) && (outcome.result matches Ok(
                    Some(e),
                ) ==> e.terms_wf()),
            },
    {
        let e = t.current;
        let q = t.queue;
        let stack = e.frame().stack;
        self.lemma_fine_push(q, e);
        match instr {
            Instr::Block { seq } => {
                self.lemma_terms_kept(e, e.at(seq, None));
                self.lemma_fine_push(q, e.at(seq, None));
            },
            Instr::Loop { seq } => {
                self.lemma_terms_kept(e, e.at(seq, None));
                self.lemma_fine_push(q, e.at(seq, None));
            },
            Instr::Br { block } => {
                self.lemma_jump_wf(e, block);
                self.lemma_fine_push(q, self.jump(e, block));
            },
            Instr::BrIf { block } => {
                if stack.len() >= 1 {
                    let p = e.popped(1);
                    self.lemma_popped_wf(e, 1);
                    match top(stack, 1) {
                        Val::Conc(val) => {
                            self.lemma_jump_wf(p, block);
                            self.lemma_fine_push(q, self.jump(p, block));
                        },
                        Val::Sym(val) => {
                            self.lemma_condition_wf(val);
                            let f0 = ExecutionView { id: t.next_id, ..p };
                            self.lemma_terms_kept(p, f0);
                            self.lemma_constrained_wf(f0, is_nonzero(val));
                            let fork = f0.constrained(is_nonzero(val));
                            self.lemma_jump_wf(fork, block);
                            self.lemma_fine_push(q, self.jump(fork, block));
                            self.lemma_constrained_wf(p, is_zero(val));
                        },
                    }
                }
            },
            Instr::IfElse { consequent, alternative } => {
                if stack.len() >= 1 {
                    let p = e.popped(1);
                    self.lemma_popped_wf(e, 1);
                    match top(stack, 1) {
                        Val::Conc(val) => {
                            self.lemma_terms_kept(p, p.at(consequent, None));
                            self.lemma_terms_kept(p, p.at(alternative, None));
                            self.lemma_fine_push(q, p.at(consequent, None));
                            self.lemma_fine_push(q, p.at(alternative, None));
                        },
                        Val::Sym(val) => {
                            self.lemma_condition_wf(val);
                            let a0 = ExecutionView { id: t.next_id, ..p };
                            self.lemma_terms_kept(p, a0);
                            self.lemma_constrained_wf(a0, is_nonzero(val));
                            let a = a0.constrained(is_nonzero(val)).at(consequent, None);
                            self.lemma_terms_kept(a0.constrained(is_nonzero(val)), a);
                            let b0 = ExecutionView { id: next_after(t.next_id), ..p };
                            self.lemma_terms_kept(p, b0);
                            self.lemma_constrained_wf(b0, is_zero(val));
                            let b = b0.constrained(is_zero(val)).at(alternative, None);
                            self.lemma_terms_kept(b0.constrained(is_zero(val)), b);
                            self.lemma_fine_push(q, a);
                            self.lemma_fine_push(q.push(a), b);
                            self.lemma_fine_twice(q, q.push(a), q.push(a).push(b));
                        },
                    }
                }
            },
            Instr::Call { func } => {
                let count = self.args_of(func).len();
                if stack.len() >= count {
                    let inputs = stack.skip(stack.len() - count);
                    let caller = e.popped(count as int);
                    self.lemma_popped_wf(e, count as int);
                    assert forall|i: int| 0 <= i < inputs.len() implies (#[trigger] inputs[i]).wf() by {
                        assert(inputs[i] == top(stack, count - i));
                    }
                    let ret = Loc { block: e.cur_block, loc };
                    self.lemma_callee_wf(func, ret, inputs);
                    let callee = self.callee_frame(func, ret, inputs);
                    let r = ExecutionView {
                        state: StateView {
                            frames: caller.state.frames.push(callee),
                            memory: caller.state.memory,
                        },
                        ..caller
                    }.at(self.entry_of(func), None);
                    assert forall|i: int| 0 <= i < r.state.frames.len() implies (
                    #[trigger] r.state.frames[i]).values_wf() by {
                        if i < caller.state.frames.len() {
                            assert(caller.state.frames[i].values_wf());
                        }
                    }
                    assert(r.terms_wf());
                    self.lemma_fine_push(q, r);
                }
            },
            Instr::Return => {
                self.lemma_terms_kept(e, e.ended(Status::Complete));
            },
            _ => {},
        }
    }

    /// The end of a sequence keeps the terms well-formed.
    pub proof fn lemma_fall_off_wf(self, t: Turn, func: FunctionId, block: InstrSeqId)
        requires
            t.current.terms_wf(),
            t.current.state.frames.len() >= 1,
        ensures
            self.fine(t.queue, self.fall_off(t, func, block).queue),
            self.fall_off(t, func, block).result matches Ok(Some(e)) ==> e.terms_wf(),
    {
        let e = ExecutionView { advance: false, ..t.current };
        self.lemma_terms_kept(t.current, e);
        self.lemma_leave_wf(e);
        self.lemma_fine_push(t.queue, e.leave());
        let ends = self.info_of(func).ends;
        if ends.dom().contains(block) {
            let r = e.at(ends[block].block, Some(ends[block].loc));
            self.lemma_terms_kept(e, r);
            self.lemma_fine_push(t.queue, r);
        }
    }

    /// The rest of a step keeps the terms well-formed.
    pub proof fn lemma_run_wf(
        self,
        t: Turn,
        func: FunctionId,
        block: InstrSeqId,
        skipped: bool,
        i: int,
    )
        requires
            t.current.terms_wf(),
            t.current.state.frames.len() >= 1,
            0 <= i,
        ensures
            self.fine(t.queue, self.run(t, func, block, skipped, i).queue),
            self.run(t, func, block, skipped, i).result matches Ok(Some(e)) ==> e.terms_wf(),
        decreases self.module.seqs[block as int].instrs.len() - i,
    {
        let instrs = self.module.seqs[block as int].instrs;
        self.lemma_fine_push(t.queue, t.current);
        if i < instrs.len() {
            let (instr, loc) = instrs[i];
            if Self::passes(t.current, skipped, loc) {
                self.lemma_run_wf(t, func, block, false, i + 1);
            } else {
                self.lemma_visit_wf(t, instr, loc);
                match self.visit(t, instr, loc) {
                    After::Go(next) => {
                        self.lemma_run_wf(next, func, block, true, i + 1);
                        self.lemma_fine_twice(
                            t.queue,
                            next.queue,
                            self.run(next, func, block, true, i + 1).queue,
                        );
                    },
                    After::End(outcome) => {},
                }
            }
        } else {
            self.lemma_fall_off_wf(t, func, block);
        }
    }

    /// Well-formedness is kept: a step of an execution that holds only
    /// well-formed terms puts only such executions in the worklist and
    /// hands out only such an execution.
    pub proof fn lemma_step_wf(self, t: Turn)
        requires
            t.current.terms_wf(),
            t.current.status == Status::Running ==> t.current.state.frames.len() >= 1,
        ensures
            self.fine(t.queue, self.step(t).queue),
            self.step(t).result matches Ok(Some(e)) ==> e.terms_wf(),
    {
        let e = t.current;
        self.lemma_fine_push(t.queue, e);
        if e.status == Status::Running {
            let block = e.cur_block;
            let count = Self::entries(e, block);
            self.lemma_terms_kept(e, e.ended(Status::Terminated));
            if !(e.cur_location is None && count == usize::MAX) {
                let entered = if e.cur_location is None {
                    ExecutionView { hotness: e.hotness.insert(block, (count + 1) as usize), ..e }
                } else {
                    e
                };
                self.lemma_terms_kept(e, entered);
                self.lemma_terms_kept(e, entered.ended(Status::Terminated));
                if Self::entries(entered, block) <= self.max_hotness {
                    self.lemma_run_wf(
                        t.with(entered),
                        e.frame().func,
                        block,
                        e.cur_location is None,
                        0,
                    );
                }
            }
        }
    }

    /// An execution from which an analysis starts holds only well-formed terms.
    pub proof fn lemma_seeded_wf(self, id: FunctionId, e: ExecutionView)
        requires
            self.seeded(id, e),
        ensures
            e.terms_wf(),
    {
        reveal_with_fuel(BvTerm::wf, 2);
        reveal_with_fuel(BvTerm::width, 2);
        lemma_modulus_values();
        lemma_conc_wf(0);
        let frame = e.frame();
        assert forall|k: LocalId| frame.locals.dom().contains(k) implies (#[trigger] frame.locals[k]).wf() by {
            if self.args_of(id).contains(k) {
                assert(is_input(frame.locals[k], k));
            }
        }
        assert(frame.values_wf());
        assert forall|i: int| 0 <= i < e.state.frames.len() implies (#[trigger] e.state.frames[i]).values_wf() by {
            assert(e.state.frames[i] == frame);
        }
        if let Some(memory) = initial_memory(&self.module) {
            lemma_conc_wf(crate::value::from_bits(self.module.memories@.last().initial as int));
        }
    }
}

/// Well-formedness of a whole run: where every execution in the worklist
/// holds only well-formed terms, so does every execution that the run
/// hands out.
pub proof fn lemma_drain_wf(rules: Rules, queue: Seq<ExecutionView>, next_id: usize)
    requires
        rules.wf(),
        all_queued(queue, &rules.module),
        forall|i: int| 0 <= i < queue.len() ==> (#[trigger] queue[i]).terms_wf(),
    ensures
        drain(rules, queue, next_id) matches Ok(done) ==> forall|i: int|
            0 <= i < done.len() ==> (#[trigger] done[i]).terms_wf(),
    decreases rules.potential(queue),
{
    if queue.len() != 0 {
        let t = Turn { current: queue[0], queue: queue.skip(1), next_id };
        let rest = queue.skip(1);
        assert(queue[0].queued(&rules.module));
        assert(all_queued(rest, &rules.module)) by {
            assert forall|i: int| 0 <= i < rest.len() implies (#[trigger] rest[i]).queued(
                &rules.module,
            ) by {
                assert(queue[i + 1].queued(&rules.module));
            }
        }
        rules.lemma_step_weight(t);
        rules.lemma_potential_falls(queue, rules.step(t).queue);
        rules.lemma_step_sound(t);
        rules.lemma_step_wf(t);
        let outcome = rules.step(t);
        assert forall|i: int| 0 <= i < outcome.queue.len() implies (
        #[trigger] outcome.queue[i]).terms_wf() by {
            if i < rest.len() {
                assert(outcome.queue.take(rest.len() as int)[i] == rest[i]);
                assert(queue[i + 1].terms_wf());
            }
        }
        if let Ok(done) = outcome.result {
            lemma_drain_wf(rules, outcome.queue, outcome.next_id);
        }
    }
}

} // verus!
