use crate::ir::{Instr, InstrLocId};
use crate::machine::top;
use crate::rules::{is_nonzero, is_zero, next_after, After, Rules, Turn};
use crate::term::{holds_all, satisfiable, BoolTerm};
use crate::value::SymVal;
use vstd::prelude::*;

verus! {

/// No model makes a condition both zero and not zero: two lists of
/// constraints of which one holds that `cond` is not zero and the other
/// that it is cannot hold together.
pub proof fn lemma_branches_exclude(a: Seq<BoolTerm>, b: Seq<BoolTerm>, cond: SymVal)
    requires
        a.contains(is_nonzero(cond)),
        b.contains(is_zero(cond)),
    ensures
        !satisfiable(a + b),
{
    if satisfiable(a + b) {
        let env = choose|env: Map<Seq<char>, int>| holds_all(a + b, env);
        let i = choose|i: int| 0 <= i < a.len() && a[i] == is_nonzero(cond);
        let j = choose|j: int| 0 <= j < b.len() && b[j] == is_zero(cond);
        assert((a + b)[i].holds(env));
        assert((a + b)[a.len() + j].holds(env));
    }
}

impl Rules {
    /// Fork disjointness: a conditional branch or a conditional on a
    /// symbolic condition leaves two executions, of which one has the path
    /// constraints so far and that the condition is not zero, the other
    /// the same and that it is zero; no model satisfies the constraints of
    /// both. After a conditional branch the two are the fork, which is last
    /// in the worklist, and the execution that goes on; after a
    /// conditional they are the last two of the worklist.
    pub proof fn lemma_fork_disjoint(self, t: Turn, instr: Instr, loc: InstrLocId)
        requires
            instr is BrIf || instr is IfElse,
            t.current.state.frames.len() >= 1,
            t.current.frame().stack.len() >= 1,
            top(t.current.frame().stack, 1) is Sym,
            instr matches Instr::BrIf { block } ==> !self.lost(t.current, block),
        ensures
            ({
                let cond = top(t.current.frame().stack, 1)->Sym_0;
                let (taken, other) = match self.control(t, instr, loc) {
                    After::Go(next) => (next.queue.last(), next.current),
                    After::End(outcome) => (
                        outcome.queue[outcome.queue.len() - 2],
                        outcome.queue.last(),
                    ),
                };
                &&& taken.constraints == t.current.constraints.push(is_nonzero(cond))
                &&& other.constraints == t.current.constraints.push(is_zero(cond))
                &&& !satisfiable(taken.constraints + other.constraints)
            }),
    {
        let e = t.current;
        let cond = top(e.frame().stack, 1)->Sym_0;
        let a = e.constraints.push(is_nonzero(cond));
        let b = e.constraints.push(is_zero(cond));
        assert(a[a.len() - 1] == is_nonzero(cond));
        assert(b[b.len() - 1] == is_zero(cond));
        lemma_branches_exclude(a, b, cond);
    }
}

impl Rules {
    /// Who gets which identifier: the fork of a conditional branch takes
    /// the next unused identifier and the execution that goes on keeps
    /// its own; the two forks of a conditional take the next two. Where
    /// the counter is above the identifier of the execution that forks,
    /// and does not wrap, each fork's identifier is above that one, and
    /// the two forks of a conditional differ.
    pub proof fn lemma_fork_ids(self, t: Turn, instr: Instr, loc: InstrLocId)
        requires
            instr is BrIf || instr is IfElse,
            t.current.state.frames.len() >= 1,
            t.current.frame().stack.len() >= 1,
            top(t.current.frame().stack, 1) is Sym,
            instr matches Instr::BrIf { block } ==> !self.lost(t.current, block),
        ensures
            match self.control(t, instr, loc) {
                After::Go(next) => {
                    &&& next.queue.last().id == t.next_id
                    &&& next.current.id == t.current.id
                    &&& next.next_id == next_after(t.next_id)
                    &&& t.current.id < t.next_id ==> next.queue.last().id > next.current.id
                },
                After::End(outcome) => {
                    &&& outcome.queue[outcome.queue.len() - 2].id == t.next_id
                    &&& outcome.queue.last().id == next_after(t.next_id)
                    &&& outcome.next_id == next_after(next_after(t.next_id))
                    &&& t.current.id < t.next_id < usize::MAX ==> t.current.id
                        < outcome.queue[outcome.queue.len() - 2].id < outcome.queue.last().id
                },
            },
    {
    }
}

} // verus!
