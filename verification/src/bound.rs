use crate::flow::Loc;
use crate::ir::{FunctionId, Instr, InstrLocId, InstrSeqId, Module};
use crate::machine::{is_straight, top, Fault};
use crate::rules::{After, Jump, Rules, Turn};
use crate::sound::all_queued;
use crate::state::{ExecutionView, StateView, Status};
use crate::value::Val;
use vstd::prelude::*;

verus! {

/// `k` to the power `e`.
pub open spec fn power(k: nat, e: nat) -> nat
    decreases e,
{
    if e == 0 {
        1
    } else {
        k * power(k, (e - 1) as nat)
    }
}

/// A power of a positive number is positive and grows with the exponent.
pub proof fn lemma_power_grows(k: nat, e1: nat, e2: nat)
    requires
        k >= 1,
        e1 <= e2,
    ensures
        1 <= power(k, e1) <= power(k, e2),
    decreases e2,
{
    if e1 == 0 && e2 == 0 {
    } else if e1 < e2 {
        lemma_power_grows(k, e1, (e2 - 1) as nat);
        let p = power(k, (e2 - 1) as nat);
        assert(p <= k * p) by (nonlinear_arith)
            requires
                k >= 1,
                p >= 0,
        ;
    } else {
        lemma_power_grows(k, (e1 - 1) as nat, (e2 - 1) as nat);
        let p = power(k, (e1 - 1) as nat);
        assert(1 <= k * p) by (nonlinear_arith)
            requires
                k >= 1,
                p >= 1,
        ;
    }
}

/// The longest sequence among the first `n` of a module.
pub open spec fn longest(module: &Module, n: nat) -> nat
    decreases n,
{
    if n == 0 {
        0
    } else {
        let rest = longest(module, (n - 1) as nat);
        if module.seqs[n - 1].instrs.len() > rest {
            module.seqs[n - 1].instrs.len() as nat
        } else {
            rest
        }
    }
}

/// No sequence is longer than the longest.
pub proof fn lemma_longest(module: &Module, n: nat, s: int)
    requires
        0 <= s < n <= module.seqs.len(),
    ensures
        module.seqs[s].instrs.len() <= longest(module, n),
    decreases n,
{
    if s < n - 1 {
        lemma_longest(module, (n - 1) as nat, s);
    }
}

impl Rules {
    /// The number of sequences of the module.
    pub open spec fn span(self) -> int {
        self.module.seqs.len() as int
    }

    /// How often the sequence `block` can still be entered.
    pub open spec fn room(self, hotness: Map<InstrSeqId, usize>, block: int) -> nat {
        let count = if hotness.dom().contains(block as usize) {
            hotness[block as usize] as int
        } else {
            0
        };
        if count >= self.max_hotness {
            0
        } else {
            (self.max_hotness - count) as nat
        }
    }

    /// How many entries the first `n` sequences can still take together.
    pub open spec fn budget_upto(self, hotness: Map<InstrSeqId, usize>, n: nat) -> nat
        decreases n,
    {
        if n == 0 {
            0
        } else {
            self.budget_upto(hotness, (n - 1) as nat) + self.room(hotness, n - 1)
        }
    }

    /// How many entries into sequences an execution can still make.
    pub open spec fn budget(self, e: ExecutionView) -> nat {
        self.budget_upto(e.hotness, self.module.seqs.len() as nat)
    }

    /// The part of an execution's weight that its budget and the depth of
    /// its call stack make up.
    pub open spec fn base(self, budget: int, depth: int) -> int {
        budget * (2 * self.span() + 3) + depth * (self.span() + 1)
    }

    /// The weight of an execution: a number that every step makes smaller
    /// for each execution that it puts in the worklist. An execution that
    /// has ended weighs nothing, nor does one that is about to enter a
    /// sequence that has no room left.
    pub open spec fn weight(self, e: ExecutionView) -> nat {
        if e.status != Status::Running {
            0
        } else if e.cur_location is None {
            if self.room(e.hotness, e.cur_block as int) == 0 {
                0
            } else {
                (self.base(self.budget(e) - 1, e.state.frames.len() as int) + self.span() + 2) as nat
            }
        } else {
            (self.base(self.budget(e) as int, e.state.frames.len() as int) + 1 + e.cur_block) as nat
        }
    }

    /// How many executions a step can put in the worklist, and one more.
    pub open spec fn fanout(self) -> nat {
        longest(&self.module, self.module.seqs.len() as nat) + 3
    }

    /// The potential of a worklist: it falls with every step.
    pub open spec fn potential(self, queue: Seq<ExecutionView>) -> nat
        decreases queue.len(),
    {
        if queue.len() == 0 {
            0
        } else {
            self.potential(queue.drop_last()) + power(self.fanout(), self.weight(queue.last()))
        }
    }

    /// A sequence with room left adds to the budget.
    pub proof fn lemma_budget_room(self, hotness: Map<InstrSeqId, usize>, n: nat, block: int)
        requires
            0 <= block < n,
        ensures
            self.budget_upto(hotness, n) >= self.room(hotness, block),
        decreases n,
    {
        if block < n - 1 {
            self.lemma_budget_room(hotness, (n - 1) as nat, block);
        }
    }

    /// An entry into a sequence with room left takes one from the budget.
    pub proof fn lemma_budget_enter(
        self,
        hotness: Map<InstrSeqId, usize>,
        n: nat,
        block: InstrSeqId,
        count: usize,
    )
        requires
            count < self.max_hotness,
            count == if hotness.dom().contains(block) {
                hotness[block]
            } else {
                0
            },
            n <= usize::MAX,
        ensures
            self.budget_upto(hotness.insert(block, (count + 1) as usize), n) == self.budget_upto(
                hotness,
                n,
            ) - if block < n {
                1int
            } else {
                0int
            },
        decreases n,
    {
        if n > 0 {
            self.lemma_budget_enter(hotness, (n - 1) as nat, block, count);
            let after = hotness.insert(block, (count + 1) as usize);
            if block != n - 1 {
                assert(((n - 1) as int) as usize != block);
                assert(self.room(after, n - 1) == self.room(hotness, n - 1));
            }
        }
    }

    /// How the base changes with budget and depth.
    pub proof fn lemma_base(self, budget: int, depth: int)
        ensures
            self.base(budget - 1, depth) == self.base(budget, depth) - (2 * self.span() + 3),
            self.base(budget, depth + 1) == self.base(budget, depth) + self.span() + 1,
            self.base(budget, depth - 1) == self.base(budget, depth) - self.span() - 1,
            budget >= 0 && depth >= 0 ==> self.base(budget, depth) >= 0,
    {
        let x = 2 * self.span() + 3;
        let d = self.span() + 1;
        assert((budget - 1) * x == budget * x - x) by (nonlinear_arith);
        assert((depth + 1) * d == depth * d + d) by (nonlinear_arith);
        assert((depth - 1) * d == depth * d - d) by (nonlinear_arith);
        if budget >= 0 && depth >= 0 {
            assert(budget * x >= 0) by (nonlinear_arith)
                requires
                    budget >= 0,
                    x >= 0,
            ;
            assert(depth * d >= 0) by (nonlinear_arith)
                requires
                    depth >= 0,
                    d >= 0,
            ;
        }
    }

    /// The limit under which the weight of every execution stays that a
    /// step puts in the worklist while it runs the sequence `block` with
    /// the execution `e`.
    pub open spec fn limit(self, e: ExecutionView, block: int) -> int {
        self.base(self.budget(e) as int, e.state.frames.len() as int) + block
    }

    /// Whether `after` is `before` with at most `count` executions more at
    /// its end, each of a weight of at most `limit`.
    pub open spec fn grown(
        self,
        before: Seq<ExecutionView>,
        after: Seq<ExecutionView>,
        count: int,
        limit: int,
    ) -> bool {
        &&& before.len() <= after.len() <= before.len() + count
        &&& after.take(before.len() as int) == before
        &&& forall|j: int| before.len() <= j < after.len() ==> self.weight(#[trigger] after[j]) <= limit
    }

    /// An execution that is about to enter a sequence weighs at most the
    /// base of its budget and depth, less the number of sequences and one.
    pub proof fn lemma_weight_entry(self, e: ExecutionView)
        requires
            e.cur_location is None,
            e.cur_block < self.module.seqs.len(),
        ensures
            self.weight(e) <= self.base(self.budget(e) as int, e.state.frames.len() as int)
                - self.span() - 1 || self.weight(e) == 0,
    {
        self.lemma_base(self.budget(e) as int, e.state.frames.len() as int);
        if e.status == Status::Running && self.room(e.hotness, e.cur_block as int) != 0 {
            self.lemma_budget_room(e.hotness, self.module.seqs.len() as nat, e.cur_block as int);
            self.lemma_base(self.budget(e) as int - 1, e.state.frames.len() as int);
        }
    }

    /// The weight of an execution depends only on its status, its place,
    /// its counters and the depth of its call stack.
    pub proof fn lemma_weight_same(self, a: ExecutionView, b: ExecutionView)
        requires
            a.status == b.status,
            a.cur_location == b.cur_location,
            a.cur_block == b.cur_block,
            a.hotness == b.hotness,
            a.state.frames.len() == b.state.frames.len(),
        ensures
            self.weight(a) == self.weight(b),
    {
    }

    /// An execution that has left its function weighs less than the base
    /// of what it was.
    pub proof fn lemma_weight_leave(self, e: ExecutionView)
        requires
            e.live(&self.module),
        ensures
            self.weight(e.leave()) <= self.limit(e, 0),
            self.weight((ExecutionView { advance: false, ..e }).leave()) <= self.limit(e, 0),
    {
        let depth = e.state.frames.len() as int;
        let b = self.budget(e) as int;
        self.lemma_base(b, depth);
        let r = e.leave();
        let r2 = (ExecutionView { advance: false, ..e }).leave();
        if depth >= 2 {
            assert(e.state.frames[depth - 1].ret is Some);
            assert(r.cur_block < self.module.seqs.len());
            assert(r.state.frames.len() == depth - 1);
            assert(self.weight(r) == self.base(b, depth - 1) + 1 + r.cur_block);
            self.lemma_weight_same(r, r2);
        } else {
            assert(self.weight(r) == 0);
            assert(self.weight(r2) == 0);
        }
    }

    /// An execution that has branched from the sequence `seq` weighs at
    /// most the limit of that sequence.
    pub proof fn lemma_weight_jump(self, e: ExecutionView, target: InstrSeqId, seq: int)
        requires
            self.wf(),
            e.live(&self.module),
            target <= seq < self.module.seqs.len(),
            !self.lost(e, target),
        ensures
            self.weight(self.jump(e, target)) <= self.limit(e, seq),
    {
        let depth = e.state.frames.len() as int;
        let b = self.budget(e) as int;
        self.lemma_base(b, depth);
        self.lemma_weight_leave(e);
        let f = e.frame().func;
        assert(e.state.frames[depth - 1].func == f);
        assert(self.info[f as int] is Some);
        let info = self.info_of(f);
        assert(info.as_walk().info_wf(&self.module));
        match self.branch(f, target) {
            Jump::Lost => {},
            Jump::Exit => {},
            Jump::To(block, loc) => {
                assert(info.as_walk().ends.dom().contains(target));
                let r = e.at(block, loc);
                if loc is None {
                    self.lemma_weight_entry(r);
                } else {
                    assert(block < target);
                }
            },
        }
    }
}

impl Rules {
    /// Growth after growth is growth.
    pub proof fn lemma_grown_twice(
        self,
        q0: Seq<ExecutionView>,
        q1: Seq<ExecutionView>,
        q2: Seq<ExecutionView>,
        k1: int,
        k2: int,
        limit: int,
    )
        requires
            self.grown(q0, q1, k1, limit),
            self.grown(q1, q2, k2, limit),
        ensures
            self.grown(q0, q2, k1 + k2, limit),
    {
        assert(q2.take(q0.len() as int) =~= q1.take(q0.len() as int)) by {
            assert forall|j: int| 0 <= j < q0.len() implies q2[j] == q1[j] by {
                assert(q2.take(q1.len() as int)[j] == q1[j]);
            }
        }
        assert forall|j: int| q0.len() <= j < q2.len() implies self.weight(#[trigger] q2[j])
            <= limit by {
            if j < q1.len() {
                assert(q2.take(q1.len() as int)[j] == q1[j]);
            }
        }
    }

    /// A worklist with one execution more at its end has grown.
    pub proof fn lemma_grown_push(self, q: Seq<ExecutionView>, e: ExecutionView, limit: int)
        requires
            self.weight(e) <= limit,
        ensures
            self.grown(q, q.push(e), 1, limit),
            self.grown(q, q, 0, limit),
    {
        assert(q.push(e).take(q.len() as int) =~= q);
        assert(q.take(q.len() as int) =~= q);
    }

    /// Whether two executions have the same budget and depth.
    pub open spec fn same_size(a: ExecutionView, b: ExecutionView) -> bool {
        a.hotness == b.hotness && a.state.frames.len() == b.state.frames.len()
    }

    /// What a control instruction puts in the worklist weighs at most the
    /// limit of the sequence that holds it.
    pub proof fn lemma_control_weight(self, t: Turn, instr: Instr, loc: InstrLocId, seq: int)
        requires
            self.wf(),
            t.current.live(&self.module),
            self.module.instr_wf(instr, seq),
            0 <= seq < self.module.seqs.len(),
            !is_straight(instr),
        ensures
            match self.control(t, instr, loc) {
                After::Go(next) => self.grown(t.queue, next.queue, 1, self.limit(t.current, seq))
                    && Self::same_size(next.current, t.current),
                After::End(outcome) => self.grown(
                    t.queue,
                    outcome.queue,
                    2,
                    self.limit(t.current, seq),
                ),
            },
    {
        let m = &self.module;
        let e = t.current;
        let q = t.queue;
        let depth = e.state.frames.len() as int;
        let b = self.budget(e) as int;
        let limit = self.limit(e, seq);
        self.lemma_base(b, depth);
        self.lemma_grown_push(q, e, limit + self.weight(e));
        assert(self.grown(q, q, 0, limit)) by {
            assert(q.take(q.len() as int) =~= q);
        }
        assert(self.grown(q, q, 1, limit));
        assert(self.grown(q, q, 2, limit));
        match instr {
            Instr::Block { seq: sub } => {
                self.lemma_weight_entry(e.at(sub, None));
                self.lemma_grown_push(q, e.at(sub, None), limit);
            },
            Instr::Loop { seq: sub } => {
                self.lemma_weight_entry(e.at(sub, None));
                self.lemma_grown_push(q, e.at(sub, None), limit);
            },
            Instr::Br { block } => {
                if !self.lost(e, block) {
                    self.lemma_weight_jump(e, block, seq);
                    self.lemma_grown_push(q, self.jump(e, block), limit);
                }
            },
            Instr::BrIf { block } => {
                if e.frame().stack.len() >= 1 {
                    let p = e.popped(1);
                    self.lemma_live_kept(e, p);
                    assert(p.frame().func == e.frame().func);
                    if !self.lost(e, block) {
                        match top(e.frame().stack, 1) {
                            Val::Conc(val) => {
                                self.lemma_weight_jump(p, block, seq);
                                self.lemma_grown_push(q, self.jump(p, block), limit);
                            },
                            Val::Sym(val) => {
                                let fork = ExecutionView { id: t.next_id, ..p }.constrained(
                                    crate::rules::is_nonzero(val),
                                );
                                self.lemma_live_kept(p, fork);
                                assert(fork.frame().func == e.frame().func);
                                self.lemma_weight_jump(fork, block, seq);
                                self.lemma_grown_push(q, self.jump(fork, block), limit);
                            },
                        }
                    }
                }
            },
            Instr::IfElse { consequent, alternative } => {
                if e.frame().stack.len() >= 1 {
                    let p = e.popped(1);
                    self.lemma_weight_entry(p.at(consequent, None));
                    self.lemma_weight_entry(p.at(alternative, None));
                    self.lemma_grown_push(q, p.at(consequent, None), limit);
                    self.lemma_grown_push(q, p.at(alternative, None), limit);
                    if let Val::Sym(val) = top(e.frame().stack, 1) {
                        let a = ExecutionView { id: t.next_id, ..p }.constrained(
                            crate::rules::is_nonzero(val),
                        ).at(consequent, None);
                        let b2 = ExecutionView {
                            id: crate::rules::next_after(t.next_id),
                            ..p
                        }.constrained(crate::rules::is_zero(val)).at(alternative, None);
                        self.lemma_weight_entry(a);
                        self.lemma_weight_entry(b2);
                        self.lemma_grown_push(q, a, limit);
                        self.lemma_grown_push(q.push(a), b2, limit);
                        self.lemma_grown_twice(q, q.push(a), q.push(a).push(b2), 1, 1, limit);
                    }
                }
            },
            Instr::Call { func } => {
                let count = self.args_of(func).len();
                let stack = e.frame().stack;
                if stack.len() >= count {
                    let caller = e.popped(count as int);
                    let callee = self.callee_frame(
                        func,
                        Loc { block: e.cur_block, loc },
                        stack.skip(stack.len() - count),
                    );
                    let r = ExecutionView {
                        state: StateView {
                            frames: caller.state.frames.push(callee),
                            memory: caller.state.memory,
                        },
                        ..caller
                    }.at(self.entry_of(func), None);
                    assert(m.func_wf(func as int));
                    self.lemma_weight_entry(r);
                    self.lemma_base(b, depth + 1);
                    self.lemma_grown_push(q, r, limit);
                }
            },
            _ => {},
        }
    }

    /// What a visit to an instruction puts in the worklist weighs at most
    /// the limit of the sequence that holds it.
    pub proof fn lemma_visit_weight(self, t: Turn, instr: Instr, loc: InstrLocId, seq: int)
        requires
            self.wf(),
            t.current.live(&self.module),
            self.module.instr_wf(instr, seq),
            0 <= seq < self.module.seqs.len(),
        ensures
            match self.visit(t, instr, loc) {
                After::Go(next) => self.grown(t.queue, next.queue, 1, self.limit(t.current, seq))
                    && Self::same_size(next.current, t.current),
                After::End(outcome) => self.grown(
                    t.queue,
                    outcome.queue,
                    2,
                    self.limit(t.current, seq),
                ),
            },
    {
        reveal(Rules::visit);
        let e = t.current;
        let q = t.queue;
        let limit = self.limit(e, seq);
        assert(self.grown(q, q, 0, limit)) by {
            assert(q.take(q.len() as int) =~= q);
        }
        let here = ExecutionView { cur_location: Some(loc), ..e };
        self.lemma_live_kept(e, here);
        if !here.advance {
            let seen = here.observed(instr, loc);
            self.lemma_live_kept(here, seen);
            if !is_straight(instr) {
                self.lemma_control_weight(t.with(seen), instr, loc, seq);
            }
        }
    }

    /// What the end of a sequence puts in the worklist weighs at most the
    /// limit of the sequence.
    pub proof fn lemma_fall_off_weight(self, t: Turn, func: FunctionId, block: InstrSeqId)
        requires
            self.wf(),
            t.current.live(&self.module),
            func == t.current.frame().func,
            block < self.module.seqs.len(),
        ensures
            self.grown(
                t.queue,
                self.fall_off(t, func, block).queue,
                1,
                self.limit(t.current, block as int),
            ),
    {
        let e0 = t.current;
        let e = ExecutionView { advance: false, ..e0 };
        let q = t.queue;
        let limit = self.limit(e0, block as int);
        let depth = e.state.frames.len() as int;
        self.lemma_base(self.budget(e) as int, depth);
        self.lemma_live_kept(e0, e);
        self.lemma_weight_leave(e);
        assert(self.grown(q, q, 0, limit)) by {
            assert(q.take(q.len() as int) =~= q);
        }
        assert(e0.state.frames[depth - 1].func == func);
        assert(self.info[func as int] is Some);
        let info = self.info_of(func);
        assert(info.as_walk().info_wf(&self.module));
        if info.ends.dom().contains(block) {
            assert(info.as_walk().ends.dom().contains(block));
            let r = e.at(info.ends[block].block, Some(info.ends[block].loc));
            assert(self.weight(r) <= limit);
            self.lemma_grown_push(q, r, limit);
        } else {
            self.lemma_grown_push(q, e.leave(), limit);
        }
    }

    /// What the rest of a step puts in the worklist weighs at most the
    /// limit of the sequence, and is no more than the sequence has
    /// instructions, and two.
    pub proof fn lemma_run_weight(
        self,
        t: Turn,
        func: FunctionId,
        block: InstrSeqId,
        skipped: bool,
        i: int,
        q0: Seq<ExecutionView>,
    )
        requires
            self.wf(),
            t.current.live(&self.module),
            all_queued(t.queue, &self.module),
            func == t.current.frame().func,
            block < self.module.seqs.len(),
            0 <= i <= self.module.seqs[block as int].instrs.len(),
            self.grown(q0, t.queue, i, self.limit(t.current, block as int)),
        ensures
            self.grown(
                q0,
                self.run(t, func, block, skipped, i).queue,
                self.module.seqs[block as int].instrs.len() + 2,
                self.limit(t.current, block as int),
            ),
        decreases self.module.seqs[block as int].instrs.len() - i,
    {
        let instrs = self.module.seqs[block as int].instrs;
        let limit = self.limit(t.current, block as int);
        if i < instrs.len() {
            let (instr, loc) = instrs[i];
            assert(self.module.instr_wf(self.module.seqs[block as int].instrs[i].0, block as int));
            if Self::passes(t.current, skipped, loc) {
                self.lemma_run_weight(t, func, block, false, i + 1, q0);
            } else {
                self.lemma_visit_sound(t, instr, loc, block as int);
                self.lemma_visit_weight(t, instr, loc, block as int);
                match self.visit(t, instr, loc) {
                    After::Go(next) => {
                        self.lemma_grown_twice(q0, t.queue, next.queue, i, 1, limit);
                        self.lemma_run_weight(next, func, block, true, i + 1, q0);
                    },
                    After::End(outcome) => {
                        self.lemma_grown_twice(q0, t.queue, outcome.queue, i, 2, limit);
                    },
                }
            }
        } else {
            self.lemma_fall_off_weight(t, func, block);
            self.lemma_grown_twice(
                q0,
                t.queue,
                self.fall_off(t, func, block).queue,
                i,
                1,
                limit,
            );
        }
    }

    /// A step puts fewer executions in the worklist than the fanout, and
    /// each of them weighs less than the execution that stepped.
    pub proof fn lemma_step_weight(self, t: Turn)
        requires
            self.wf(),
            t.current.queued(&self.module),
            all_queued(t.queue, &self.module),
        ensures
            self.grown(
                t.queue,
                self.step(t).queue,
                self.fanout() - 1,
                self.weight(t.current) - 1,
            ),
    {
        let e = t.current;
        let q = t.queue;
        assert(self.grown(q, q, 0, self.weight(e) - 1)) by {
            assert(q.take(q.len() as int) =~= q);
        }
        if e.status == Status::Running {
            let block = e.cur_block;
            let count = Self::entries(e, block);
            let depth = e.state.frames.len() as int;
            if !(e.cur_location is None && count == usize::MAX) {
                let entered = if e.cur_location is None {
                    ExecutionView { hotness: e.hotness.insert(block, (count + 1) as usize), ..e }
                } else {
                    e
                };
                self.lemma_live_kept(e, entered);
                if Self::entries(entered, block) <= self.max_hotness {
                    let len = self.module.seqs[block as int].instrs.len();
                    lemma_longest(&self.module, self.module.seqs.len() as nat, block as int);
                    let limit = self.limit(entered, block as int);
                    assert(self.grown(q, q, 0, limit)) by {
                        assert(q.take(q.len() as int) =~= q);
                    }
                    self.lemma_run_weight(
                        t.with(entered),
                        e.frame().func,
                        block,
                        e.cur_location is None,
                        0,
                        q,
                    );
                    self.lemma_base(self.budget(e) as int, depth);
                    if e.cur_location is None {
                        self.lemma_budget_enter(
                            e.hotness,
                            self.module.seqs.len() as nat,
                            block,
                            count,
                        );
                        self.lemma_budget_room(
                            e.hotness,
                            self.module.seqs.len() as nat,
                            block as int,
                        );
                        assert(self.budget(entered) == self.budget(e) - 1);
                        assert(limit < self.weight(e));
                    } else {
                        assert(limit < self.weight(e));
                    }
                    let after = self.run(
                        t.with(entered),
                        e.frame().func,
                        block,
                        e.cur_location is None,
                        0,
                    ).queue;
                    assert(self.grown(q, after, self.fanout() - 1, self.weight(e) - 1));
                }
            }
        }
    }

    /// The potential of two worklists in a row is the sum of their potentials.
    pub proof fn lemma_potential_sum(self, a: Seq<ExecutionView>, b: Seq<ExecutionView>)
        ensures
            self.potential(a + b) == self.potential(a) + self.potential(b),
        decreases b.len(),
    {
        if b.len() == 0 {
            assert(a + b =~= a);
        } else {
            self.lemma_potential_sum(a, b.drop_last());
            assert((a + b).drop_last() =~= a + b.drop_last());
            assert((a + b).last() == b.last());
        }
    }

    /// The potential of a worklist of at most `count` executions, each of
    /// a weight of at most `limit`.
    pub proof fn lemma_potential_bound(self, q: Seq<ExecutionView>, count: nat, limit: nat)
        requires
            q.len() <= count,
            forall|j: int| 0 <= j < q.len() ==> self.weight(#[trigger] q[j]) <= limit,
        ensures
            self.potential(q) <= count * power(self.fanout(), limit),
        decreases q.len(),
    {
        let p = power(self.fanout(), limit);
        if q.len() == 0 {
            assert(0 <= count * p) by (nonlinear_arith)
                requires
                    count >= 0,
                    p >= 0,
            ;
        } else {
            self.lemma_potential_bound(q.drop_last(), (count - 1) as nat, limit);
            lemma_power_grows(self.fanout(), self.weight(q.last()), limit);
            assert((count - 1) * p + p == count * p) by (nonlinear_arith);
        }
    }

    /// The potential falls: where `before` is a worklist whose first
    /// execution stepped and `after` is the rest of it, grown by what the
    /// step put in, the potential of `after` is less than that of `before`.
    pub proof fn lemma_potential_falls(self, before: Seq<ExecutionView>, after: Seq<ExecutionView>)
        requires
            before.len() >= 1,
            self.grown(
                before.skip(1),
                after,
                self.fanout() - 1,
                self.weight(before[0]) - 1,
            ),
        ensures
            self.potential(after) < self.potential(before),
    {
        let rest = before.skip(1);
        let extra = after.skip(rest.len() as int);
        let w = self.weight(before[0]);
        let k = self.fanout();
        assert(before =~= seq![before[0]] + rest);
        self.lemma_potential_sum(seq![before[0]], rest);
        let one = seq![before[0]];
        assert(one.drop_last() =~= Seq::<ExecutionView>::empty());
        assert(one.last() == before[0]);
        assert(self.potential(one.drop_last()) == 0);
        assert(self.potential(one) == power(k, w));
        assert(after =~= rest + extra) by {
            assert(after.take(rest.len() as int) == rest);
        }
        self.lemma_potential_sum(rest, extra);
        lemma_power_grows(k, 0, w);
        if extra.len() == 0 {
            assert(self.potential(extra) == 0);
        } else {
            assert(self.weight(after[rest.len() as int]) <= w - 1);
            assert forall|j: int| 0 <= j < extra.len() implies self.weight(#[trigger] extra[j]) <= (
            w - 1) as nat by {
                assert(extra[j] == after[rest.len() + j]);
            }
            self.lemma_potential_bound(extra, (k - 1) as nat, (w - 1) as nat);
            let p = power(k, (w - 1) as nat);
            lemma_power_grows(k, 0, (w - 1) as nat);
            assert((k - 1) * p < k * p) by (nonlinear_arith)
                requires
                    p >= 1,
            ;
        }
    }
}

impl Rules {
    /// A turn of the run: the first execution of the worklist steps.
    /// Afterwards every execution of the worklist may stand there, and
    /// the potential of the worklist is less than before.
    pub proof fn lemma_turn_falls(self, queue: Seq<ExecutionView>, next_id: usize)
        requires
            self.wf(),
            all_queued(queue, &self.module),
            queue.len() > 0,
        ensures
            ({
                let outcome = self.step(Turn { current: queue[0], queue: queue.skip(1), next_id });
                &&& outcome.sound(&self.module)
                &&& self.potential(outcome.queue) < self.potential(queue)
            }),
    {
        let t = Turn { current: queue[0], queue: queue.skip(1), next_id };
        assert(queue[0].queued(&self.module));
        assert(all_queued(queue.skip(1), &self.module)) by {
            assert forall|i: int| 0 <= i < queue.skip(1).len() implies (#[trigger] queue.skip(
                1,
            )[i]).queued(&self.module) by {
                assert(queue[i + 1].queued(&self.module));
            }
        }
        self.lemma_step_weight(t);
        self.lemma_potential_falls(queue, self.step(t).queue);
        self.lemma_step_sound(t);
    }
}

/// What running a worklist to its end hands out: the executions that
/// end, in the order in which their steps end them, or the fault that
/// stops the run. Each turn steps the first execution of the worklist.
pub open spec fn drain(rules: Rules, queue: Seq<ExecutionView>, next_id: usize) -> Result<
    Seq<ExecutionView>,
    Fault,
>
    decreases rules.potential(queue),
    when rules.wf() && all_queued(queue, &rules.module)
    via drain_decreases
{
    if queue.len() == 0 {
        Ok(Seq::empty())
    } else {
        let outcome = rules.step(Turn { current: queue[0], queue: queue.skip(1), next_id });
        match outcome.result {
            Err(fault) => Err(fault),
            Ok(done) => match drain(rules, outcome.queue, outcome.next_id) {
                Err(fault) => Err(fault),
                Ok(rest) => Ok(
                    match done {
                        Some(e) => seq![e] + rest,
                        None => rest,
                    },
                ),
            },
        }
    }
}

#[via_fn]
proof fn drain_decreases(rules: Rules, queue: Seq<ExecutionView>, next_id: usize) {
    if queue.len() != 0 {
        rules.lemma_turn_falls(queue, next_id);
    }
}

/// `r` with `done` before what it hands out.
pub open spec fn after_done(done: Seq<ExecutionView>, r: Result<Seq<ExecutionView>, Fault>) -> Result<
    Seq<ExecutionView>,
    Fault,
> {
    match r {
        Ok(rest) => Ok(done + rest),
        Err(fault) => Err(fault),
    }
}

/// Hotness bound of a whole run: where no execution in the worklist has
/// entered a sequence more often than the bound allows, every execution
/// that the run hands out has ended, and either has entered no sequence
/// more often than the bound allows or was terminated for it.
pub proof fn lemma_drain_cool(rules: Rules, queue: Seq<ExecutionView>, next_id: usize)
    requires
        rules.wf(),
        all_queued(queue, &rules.module),
        forall|i: int| 0 <= i < queue.len() ==> rules.cool(#[trigger] queue[i]),
    ensures
        drain(rules, queue, next_id) matches Ok(done) ==> forall|i: int|
            0 <= i < done.len() ==> (#[trigger] done[i]).status != Status::Running && (rules.cool(
                done[i],
            ) || done[i].status == Status::Terminated),
    decreases rules.potential(queue),
{
    if queue.len() != 0 {
        let t = Turn { current: queue[0], queue: queue.skip(1), next_id };
        let rest = queue.skip(1);
        assert(queue[0].queued(&rules.module));
        assert(all_queued(rest, &rules.module)) by {
            assert forall|i: int| 0 <= i < rest.len() implies (#[trigger] rest[i]).queued(
                &rules.module,
            ) by {
                assert(queue[i + 1].queued(&rules.module));
            }
        }
        rules.lemma_step_weight(t);
        rules.lemma_potential_falls(queue, rules.step(t).queue);
        rules.lemma_step_sound(t);
        rules.lemma_step_cool(t);
        let outcome = rules.step(t);
        assert forall|i: int| 0 <= i < outcome.queue.len() implies rules.cool(
            #[trigger] outcome.queue[i],
        ) by {
            if i < rest.len() {
                assert(outcome.queue.take(rest.len() as int)[i] == rest[i]);
                assert(rules.cool(queue[i + 1]));
            }
        }
        if let Ok(done) = outcome.result {
            lemma_drain_cool(rules, outcome.queue, outcome.next_id);
        }
    }
}

impl Rules {
    /// Whether an execution has entered no sequence more often than the bound allows.
    pub open spec fn cool(self, e: ExecutionView) -> bool {
        forall|block: InstrSeqId| #[trigger] Self::entries(e, block) <= self.max_hotness
    }

    /// Whether `after` is `before` with executions more at its end, none
    /// of which has entered a sequence more often than the bound allows.
    pub open spec fn calm(self, before: Seq<ExecutionView>, after: Seq<ExecutionView>) -> bool {
        &&& before.len() <= after.len()
        &&& after.take(before.len() as int) == before
        &&& forall|j: int| before.len() <= j < after.len() ==> self.cool(#[trigger] after[j])
    }

    /// An instruction changes no counter: what it puts in the worklist,
    /// hands out or goes on with has the counters of the execution that runs it.
    pub proof fn lemma_visit_cool(self, t: Turn, instr: Instr, loc: InstrLocId)
        requires
            self.cool(t.current),
            t.current.state.frames.len() >= 1,
        ensures
            match self.visit(t, instr, loc) {
                After::Go(next) => self.cool(next.current) && self.calm(t.queue, next.queue)
                    && next.current.state.frames.len() >= 1,
                After::End(outcome) => self.calm(t.queue, outcome.queue) && (outcome.result matches Ok(
                    Some(e),
                ) ==> self.cool(e)),
            },
    {
        reveal(Rules::visit);
        let e = t.current;
        let q = t.queue;
        let h = e.hotness;
        assert(q.take(q.len() as int) =~= q);
        assert forall|x: ExecutionView| x.hotness == h implies #[trigger] self.cool(x) by {
            assert forall|block: InstrSeqId| #[trigger] Self::entries(x, block)
                <= self.max_hotness by {
                assert(Self::entries(x, block) == Self::entries(e, block));
            }
        }
        assert forall|x: ExecutionView| x.hotness == h implies #[trigger] q.push(x).take(
            q.len() as int,
        ) == q && self.calm(q, q.push(x)) by {
            assert(q.push(x).take(q.len() as int) =~= q);
        }
        assert forall|x: ExecutionView, y: ExecutionView|
            x.hotness == h && y.hotness == h implies #[trigger] self.calm(q, q.push(x).push(y)) by {
            assert(q.push(x).push(y).take(q.len() as int) =~= q);
        }
    }

    /// The end of a sequence changes no counter.
    pub proof fn lemma_fall_off_cool(self, t: Turn, func: FunctionId, block: InstrSeqId)
        requires
            self.cool(t.current),
        ensures
            self.calm(t.queue, self.fall_off(t, func, block).queue),
            self.fall_off(t, func, block).result matches Ok(Some(e)) ==> self.cool(e),
    {
        let e = t.current;
        let q = t.queue;
        let h = e.hotness;
        assert(q.take(q.len() as int) =~= q);
        assert forall|x: ExecutionView| x.hotness == h implies #[trigger] self.cool(x) by {
            assert forall|block: InstrSeqId| #[trigger] Self::entries(x, block)
                <= self.max_hotness by {
                assert(Self::entries(x, block) == Self::entries(e, block));
            }
        }
        assert forall|x: ExecutionView| x.hotness == h implies #[trigger] self.calm(
            q,
            q.push(x),
        ) by {
            assert(q.push(x).take(q.len() as int) =~= q);
        }
    }

    /// Calm after calm is calm.
    pub proof fn lemma_calm_twice(
        self,
        q0: Seq<ExecutionView>,
        q1: Seq<ExecutionView>,
        q2: Seq<ExecutionView>,
    )
        requires
            self.calm(q0, q1),
            self.calm(q1, q2),
        ensures
            self.calm(q0, q2),
    {
        assert(q2.take(q0.len() as int) =~= q1.take(q0.len() as int)) by {
            assert forall|j: int| 0 <= j < q0.len() implies q2[j] == q1[j] by {
                assert(q2.take(q1.len() as int)[j] == q1[j]);
            }
        }
        assert forall|j: int| q0.len() <= j < q2.len() implies self.cool(#[trigger] q2[j]) by {
            if j < q1.len() {
                assert(q2.take(q1.len() as int)[j] == q1[j]);
            }
        }
    }

    /// The rest of a step changes no counter.
    pub proof fn lemma_run_cool(
        self,
        t: Turn,
        func: FunctionId,
        block: InstrSeqId,
        skipped: bool,
        i: int,
    )
        requires
            self.cool(t.current),
            t.current.state.frames.len() >= 1,
            0 <= i,
        ensures
            self.calm(t.queue, self.run(t, func, block, skipped, i).queue),
            self.run(t, func, block, skipped, i).result matches Ok(Some(e)) ==> self.cool(e),
        decreases self.module.seqs[block as int].instrs.len() - i,
    {
        let instrs = self.module.seqs[block as int].instrs;
        assert(t.queue.take(t.queue.len() as int) =~= t.queue);
        if i < instrs.len() {
            let (instr, loc) = instrs[i];
            if Self::passes(t.current, skipped, loc) {
                self.lemma_run_cool(t, func, block, false, i + 1);
            } else {
                self.lemma_visit_cool(t, instr, loc);
                match self.visit(t, instr, loc) {
                    After::Go(next) => {
                        self.lemma_run_cool(next, func, block, true, i + 1);
                        self.lemma_calm_twice(
                            t.queue,
                            next.queue,
                            self.run(next, func, block, true, i + 1).queue,
                        );
                    },
                    After::End(outcome) => {},
                }
            }
        } else {
            self.lemma_fall_off_cool(t, func, block);
        }
    }

    /// Hotness bound: a step of an execution that has entered no
    /// sequence more often than the bound allows puts only such executions
    /// in the worklist, and hands out such an execution or one that it has
    /// terminated; and it terminates an execution that is about to enter a
    /// sequence which it has entered as often as the bound allows.
    pub proof fn lemma_step_cool(self, t: Turn)
        requires
            self.cool(t.current),
            t.current.status == Status::Running ==> t.current.state.frames.len() >= 1,
        ensures
            self.calm(t.queue, self.step(t).queue),
            self.step(t).result matches Ok(Some(e)) ==> self.cool(e) || e.status
                == Status::Terminated,
            t.current.status == Status::Running && t.current.cur_location is None && Self::entries(
                t.current,
                t.current.cur_block,
            ) >= self.max_hotness ==> (self.step(t).result matches Ok(Some(e)) && e.status
                == Status::Terminated),
    {
        let e = t.current;
        let q = t.queue;
        assert(q.take(q.len() as int) =~= q);
        if e.status == Status::Running {
            let block = e.cur_block;
            let count = Self::entries(e, block);
            assert(count <= self.max_hotness);
            if !(e.cur_location is None && count == usize::MAX) {
                let entered = if e.cur_location is None {
                    ExecutionView { hotness: e.hotness.insert(block, (count + 1) as usize), ..e }
                } else {
                    e
                };
                if Self::entries(entered, block) <= self.max_hotness {
                    assert forall|b: InstrSeqId| #[trigger] Self::entries(entered, b)
                        <= self.max_hotness by {
                        if b != block {
                            assert(Self::entries(entered, b) == Self::entries(e, b));
                        }
                    }
                    self.lemma_run_cool(
                        t.with(entered),
                        e.frame().func,
                        block,
                        e.cur_location is None,
                        0,
                    );
                }
            }
        }
    }
}

} // verus!