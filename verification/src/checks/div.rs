use crate::checks::{
    answered, record, record_spec, run_check, verdict, CheckResult, CheckView, Recorded,
};
use crate::context::{zero32, Context};
use crate::ir::LocalId;
use crate::ir::{BinaryOp, Instr, InstrLocId};
use crate::machine::top;
use crate::model::Answer;
use crate::state::{Execution, StateView};
use crate::term::{BoolTerm, Rel};
use crate::value::Val;
use vstd::prelude::*;

verus! {

/// Looks for divisions and remainders whose divisor can be zero.
#[derive(Debug)]
pub struct DivisionByZeroCheck {
    /// For each division seen on this path, by its location, the
    /// predicate that its divisor is zero.
    pub constraints: Vec<(u32, BoolTerm)>,
}

impl View for DivisionByZeroCheck {
    type V = Recorded;

    open spec fn view(&self) -> Recorded {
        self.constraints@
    }
}

impl DivisionByZeroCheck {
    /// A check that has recorded nothing.
    pub fn new() -> (r: Self)
        ensures
            r@ == Recorded::empty(),
    {
        DivisionByZeroCheck { constraints: Vec::new() }
    }
}

/// Whether `op` divides: a division or a remainder, signed or not.
pub open spec fn divides(op: BinaryOp) -> bool {
    op == BinaryOp::I32DivS || op == BinaryOp::I32DivU || op == BinaryOp::I32RemS || op
        == BinaryOp::I32RemU
}

/// What the check records before `instr` runs: before a division, that
/// the divisor, which is on top of the stack, equals zero.
pub open spec fn division_predicate(state: StateView, instr: Instr) -> Option<BoolTerm> {
    match instr {
        Instr::Binop { op } => if divides(op) {
            Some(
                BoolTerm::Compare {
                    rel: Rel::Eq,
                    lhs: Box::new(top(state.frames.last().stack, 1).term()),
                    rhs: Box::new(zero32()),
                },
            )
        } else {
            None
        },
        _ => None,
    }
}

impl DivisionByZeroCheck {
    /// The name under which the check reports.
    pub fn name(&self) -> (r: &'static str)
        ensures
            r@ == "DivisionByZero"@,
    {
        "DivisionByZero"
    }

    /// Looks at the state before `instr` runs and records, for a
    /// division, the predicate that its divisor is zero.
    pub fn check(&mut self, context: &Context, execution: &Execution, instr: &Instr, loc: &InstrLocId)
        requires
            division_predicate(execution@.state, *instr) is Some ==> execution@.state.frames.len() >= 1
                && execution@.state.frames.last().stack.len() >= 1,
        ensures
            final(self)@ == match division_predicate(execution@.state, *instr) {
                Some(pred) => record_spec(old(self)@, *loc, pred),
                None => old(self)@,
            },
    {
        if let Instr::Binop { op } = instr {
            if matches!(
                op,
                BinaryOp::I32DivS | BinaryOp::I32DivU | BinaryOp::I32RemS | BinaryOp::I32RemU
            ) {
                let frame = &execution.state.call_stack[execution.state.call_stack.len() - 1];
                let rhs = &frame.value_stack[frame.value_stack.len() - 1];
                let val = rhs.as_sym();
                let pred = BoolTerm::Compare {
                    rel: Rel::Eq,
                    lhs: Box::new(val.as_i32().clone()),
                    rhs: Box::new(context.zero(32)),
                };
                record(&mut self.constraints, *loc, pred);
            }
        }
    }
}

impl DivisionByZeroCheck {
    /// The final phase of the check on a path that completed: its verdict
    /// from the solver's answers to the recorded predicates.
    pub fn run(&self, context: &Context, execution: &Execution, inputs: &Vec<(LocalId, Val)>, answers: &Vec<
        Answer,
    >) -> (r: CheckResult)
        requires
            answered(self@.len(), answers@),
        ensures
            r@ == verdict(CheckView::DivisionByZero(self@), execution@.constraints, inputs@, answers@),
    {
        run_check("division by zero", &self.constraints, execution, inputs, answers)
    }
}

} // verus!