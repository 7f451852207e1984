use crate::checks::{
    answered, record, record_spec, run_check, verdict, CheckResult, CheckView, Recorded,
};
use crate::context::{bin_op_spec, Context};
use crate::ir::LocalId;
use crate::ir::{BinaryOp, Instr, InstrLocId, LoadKind};
use crate::machine::{load_bits, top};
use crate::memory::PAGE_SIZE;
use crate::model::Answer;
use crate::state::{Execution, StateView};
use crate::term::{BoolTerm, Rel};
use crate::value::{ConcVal, Val};
use vstd::prelude::*;

verus! {

/// Looks for loads that can reach beyond the end of memory.
#[derive(Debug)]
pub struct MemoryCheck {
    /// For each load seen on this path, by its location, the predicate
    /// that it ends at or beyond the size of memory.
    pub constraints: Vec<(u32, BoolTerm)>,
}

impl View for MemoryCheck {
    type V = Recorded;

    open spec fn view(&self) -> Recorded {
        self.constraints@
    }
}

impl MemoryCheck {
    /// A check that has recorded nothing.
    pub fn new() -> (r: Self)
        ensures
            r@ == Recorded::empty(),
    {
        MemoryCheck { constraints: Vec::new() }
    }
}

/// What the check records before `instr` runs: before a load, that the
/// index on top of the stack plus the number of bytes read is, as a signed
/// number, at least the size of memory in bytes.
pub open spec fn bounds_predicate(state: StateView, instr: Instr) -> Option<BoolTerm> {
    match instr {
        Instr::Load { kind, .. } => {
            let size = state.memory.unwrap().size;
            let base_index = top(state.frames.last().stack, 1);
            let end_index = bin_op_spec(
                BinaryOp::I32Add,
                Val::Conc(ConcVal((load_bits(kind) / 8) as i32)),
                base_index,
            ).unwrap();
            let byte_size = bin_op_spec(
                BinaryOp::I32Mul,
                Val::Conc(ConcVal(PAGE_SIZE as i32)),
                size,
            ).unwrap();
            Some(
                BoolTerm::Compare {
                    rel: Rel::Sge,
                    lhs: Box::new(end_index.term()),
                    rhs: Box::new(byte_size.term()),
                },
            )
        },
        _ => None,
    }
}

impl MemoryCheck {
    /// The name under which the check reports.
    pub fn name(&self) -> (r: &'static str)
        ensures
            r@ == "Memory"@,
    {
        "Memory"
    }

    /// Looks at the state before `instr` runs and records, for a load,
    /// the predicate that it ends at or beyond the size of memory.
    pub fn check(&mut self, context: &Context, execution: &Execution, instr: &Instr, loc: &InstrLocId)
        requires
            bounds_predicate(execution@.state, *instr) is Some ==> execution@.state.frames.len() >= 1
                && execution@.state.frames.last().stack.len() >= 1 && execution@.state.memory is Some,
        ensures
            final(self)@ == match bounds_predicate(execution@.state, *instr) {
                Some(pred) => record_spec(old(self)@, *loc, pred),
                None => old(self)@,
            },
    {
        if let Instr::Load { kind, .. } = instr {
            let frame = &execution.state.call_stack[execution.state.call_stack.len() - 1];
            let memory = execution.state.memory.as_ref().unwrap();
            let size = &memory.size;
            let load_size: i32 = match kind {
                LoadKind::I32 => 32,
                LoadKind::I32_8 { .. } => 8,
                LoadKind::I32_16 { .. } => 16,
            };
            let base_index = &frame.value_stack[frame.value_stack.len() - 1];
            let end_index = context.bin_op(
                BinaryOp::I32Add,
                &Val::Conc(ConcVal(load_size / 8)),
                base_index,
            ).unwrap();
            let byte_size = context.bin_op(
                BinaryOp::I32Mul,
                &Val::Conc(ConcVal(PAGE_SIZE as i32)),
                size,
            ).unwrap();
            let pred = BoolTerm::Compare {
                rel: Rel::Sge,
                lhs: Box::new(end_index.as_sym().as_i32().clone()),
                rhs: Box::new(byte_size.as_sym().as_i32().clone()),
            };
            record(&mut self.constraints, *loc, pred);
        }
    }
}

impl MemoryCheck {
    /// The final phase of the check on a path that completed: its verdict
    /// from the solver's answers to the recorded predicates.
    pub fn run(&self, context: &Context, execution: &Execution, inputs: &Vec<(LocalId, Val)>, answers: &Vec<
        Answer,
    >) -> (r: CheckResult)
        requires
            answered(self@.len(), answers@),
        ensures
            r@ == verdict(CheckView::Memory(self@), execution@.constraints, inputs@, answers@),
    {
        run_check("memory out of bounds", &self.constraints, execution, inputs, answers)
    }
}

} // verus!