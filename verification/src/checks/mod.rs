use crate::checks::div::{division_predicate, DivisionByZeroCheck};
use crate::checks::memory::{bounds_predicate, MemoryCheck};
use crate::context::Context;
use crate::ir::{Instr, InstrLocId, LocalId};
use crate::model::{satisfied_by, Answer};
use crate::reporter::{format_model_spec, Reporter};
use crate::state::{Execution, StateView};
use crate::term::BoolTerm;
use crate::term::{holds_all, satisfiable};
use crate::text::{decimal, decimal_spec};
use crate::value::Val;
use vstd::prelude::*;
use vstd::string::StringExecFns;

pub mod div;
pub mod memory;

verus! {

/// The verdict of a check on one path.
#[derive(Debug)]
pub enum CheckResult {
    Pass,
    PossibleFail(String),
    Fail(String),
}

/// The predicates that a check has recorded, each under the location of
/// its instruction.
pub type Recorded = Seq<(u32, BoolTerm)>;

/// Whether a predicate is recorded under `loc`.
pub open spec fn has_key(list: Recorded, loc: u32) -> bool {
    exists|i: int| 0 <= i < list.len() && (#[trigger] list[i]).0 == loc
}

/// The first index at which `loc` is recorded.
pub open spec fn first_key(list: Recorded, loc: u32) -> int {
    choose|i: int|
        0 <= i < list.len() && (#[trigger] list[i]).0 == loc && forall|j: int|
            0 <= j < i ==> (#[trigger] list[j]).0 != loc
}

/// `list` with `pred` recorded under `loc`: in place of what was recorded
/// there, or at the end.
pub open spec fn record_spec(list: Recorded, loc: u32, pred: BoolTerm) -> Recorded {
    if has_key(list, loc) {
        list.update(first_key(list, loc), (loc, pred))
    } else {
        list.push((loc, pred))
    }
}

/// Records `pred` under `loc`.
pub fn record(list: &mut Vec<(u32, BoolTerm)>, loc: u32, pred: BoolTerm)
    ensures
        final(list)@ == record_spec(old(list)@, loc, pred),
{
    let mut i: usize = 0;
    while i < list.len()
        invariant
            i <= list.len(),
            *list == *old(list),
            forall|j: int| 0 <= j < i ==> (#[trigger] list@[j]).0 != loc,
        decreases list.len() - i,
    {
        if list[i].0 == loc {
            proof {
                let k = first_key(list@, loc);
                assert(list@[i as int].0 == loc);
                assert(k == i) by {
                    if k < i {
                        assert(list@[k].0 != loc);
                    }
                    if k > i {
                        assert(list@[i as int].0 != loc);
                    }
                }
            }
            list.set(i, (loc, pred));
            return ;
        }
        i = i + 1;
    }
    list.push((loc, pred));
}

/// Copies a list of recorded predicates.
pub fn clone_recorded(list: &Vec<(u32, BoolTerm)>) -> (r: Vec<(u32, BoolTerm)>)
    ensures
        r@ == list@,
{
    let mut r: Vec<(u32, BoolTerm)> = Vec::new();
    let mut i: usize = 0;
    while i < list.len()
        invariant
            i <= list.len(),
            r@ == list@.take(i as int),
        decreases list.len() - i,
    {
        let pred = list[i].1.clone();
        r.push((list[i].0, pred));
        assert(r@ =~= list@.take(i + 1));
        i = i + 1;
    }
    assert(list@.take(list@.len() as int) =~= list@);
    r
}

/// A check: one of the kinds that the engine knows. Every execution
/// holds its own copy of each check, so that what a check records stays
/// with the path on which it was seen.
#[derive(Debug)]
pub enum Check {
    DivisionByZero(DivisionByZeroCheck),
    Memory(MemoryCheck),
}

/// A check as a mathematical value: its kind and what it has recorded.
pub enum CheckView {
    DivisionByZero(Recorded),
    Memory(Recorded),
}

impl CheckView {
    /// What the check has recorded.
    pub open spec fn recorded(self) -> Recorded {
        match self {
            CheckView::DivisionByZero(list) => list,
            CheckView::Memory(list) => list,
        }
    }
}

impl View for Check {
    type V = CheckView;

    open spec fn view(&self) -> CheckView {
        match self {
            Check::DivisionByZero(c) => CheckView::DivisionByZero(c@),
            Check::Memory(c) => CheckView::Memory(c@),
        }
    }
}

impl Clone for Check {
    fn clone(&self) -> (r: Self)
        ensures
            r@ == self@,
    {
        match self {
            Check::DivisionByZero(c) => Check::DivisionByZero(
                DivisionByZeroCheck { constraints: clone_recorded(&c.constraints) },
            ),
            Check::Memory(c) => Check::Memory(
                MemoryCheck { constraints: clone_recorded(&c.constraints) },
            ),
        }
    }
}

/// The views of a list of checks.
pub open spec fn check_views(checks: Seq<Check>) -> Seq<CheckView> {
    Seq::new(checks.len(), |i: int| checks[i]@)
}

/// Copies a list of checks.
pub fn clone_checks(checks: &Vec<Check>) -> (r: Vec<Check>)
    ensures
        check_views(r@) == check_views(checks@),
{
    let mut r: Vec<Check> = Vec::new();
    let mut i: usize = 0;
    while i < checks.len()
        invariant
            i <= checks.len(),
            r@.len() == i,
            forall|j: int| 0 <= j < i ==> (#[trigger] r@[j])@ == checks@[j]@,
        decreases checks.len() - i,
    {
        r.push(checks[i].clone());
        i = i + 1;
    }
    assert(check_views(r@) =~= check_views(checks@));
    r
}

impl CheckView {
    /// What this check records before `instr` runs in `execution`.
    pub open spec fn predicate(self, state: StateView, instr: Instr) -> Option<BoolTerm> {
        match self {
            CheckView::DivisionByZero(_) => division_predicate(state, instr),
            CheckView::Memory(_) => bounds_predicate(state, instr),
        }
    }

    /// This check with `list` in place of what it has recorded.
    pub open spec fn with(self, list: Recorded) -> CheckView {
        match self {
            CheckView::DivisionByZero(_) => CheckView::DivisionByZero(list),
            CheckView::Memory(_) => CheckView::Memory(list),
        }
    }

    /// This check after it has looked at the state before `instr` at `loc`.
    pub open spec fn observe(self, state: StateView, instr: Instr, loc: InstrLocId) -> CheckView {
        match self.predicate(state, instr) {
            Some(pred) => self.with(record_spec(self.recorded(), loc, pred)),
            None => self,
        }
    }
}

/// Whether the state before `instr` holds what the checks read there: a
/// current frame with an operand, and for a load a memory.
pub open spec fn observable(state: StateView, instr: Instr) -> bool {
    &&& instr is Binop || instr is Load ==> state.frames.len() >= 1 && state.frames.last().stack.len()
        >= 1
    &&& instr is Load ==> state.memory is Some
}

impl Check {
    /// The name under which the check reports.
    pub fn name(&self) -> (r: &'static str)
        ensures
            r@ == match self@ {
                CheckView::DivisionByZero(_) => "DivisionByZero"@,
                CheckView::Memory(_) => "Memory"@,
            },
    {
        match self {
            Check::DivisionByZero(c) => c.name(),
            Check::Memory(c) => c.name(),
        }
    }

    /// Lets the check look at the state before `instr` runs.
    pub fn check(&mut self, context: &Context, execution: &Execution, instr: &Instr, loc: &InstrLocId)
        requires
            observable(execution@.state, *instr),
        ensures
            final(self)@ == old(self)@.observe(execution@.state, *instr, *loc),
    {
        match self {
            Check::DivisionByZero(c) => c.check(context, execution, instr, loc),
            Check::Memory(c) => c.check(context, execution, instr, loc),
        }
    }
}

/// A verdict as a mathematical value.
pub enum Verdict {
    Pass,
    PossibleFail(Seq<char>),
    Fail(Seq<char>),
}

impl View for CheckResult {
    type V = Verdict;

    open spec fn view(&self) -> Verdict {
        match self {
            CheckResult::Pass => Verdict::Pass,
            CheckResult::PossibleFail(message) => Verdict::PossibleFail(message@),
            CheckResult::Fail(message) => Verdict::Fail(message@),
        }
    }
}

/// The first index from `i` on at which the answer is not `Unsat`; the
/// number of answers where there is none.
pub open spec fn decisive(answers: Seq<Answer>, i: int) -> int
    decreases answers.len() - i,
{
    if 0 <= i < answers.len() {
        if answers[i] is Unsat {
            decisive(answers, i + 1)
        } else {
            i
        }
    } else {
        answers.len() as int
    }
}

/// The first answer that is not `Unsat` lies at or after the index from
/// which it is looked for.
pub proof fn lemma_decisive_range(answers: Seq<Answer>, i: int)
    requires
        0 <= i,
    ensures
        i <= decisive(answers, i) || decisive(answers, i) == answers.len(),
        0 <= decisive(answers, i) <= answers.len() || i > answers.len(),
        decisive(answers, i) < answers.len() ==> !(answers[decisive(answers, i)] is Unsat),
    decreases answers.len() - i,
{
    if i < answers.len() && answers[i] is Unsat {
        lemma_decisive_range(answers, i + 1);
    }
}

/// Whether the answers suffice for a verdict on `count` recorded
/// predicates: there is one for each, or the last one given is not `Unsat`.
pub open spec fn answered(count: nat, answers: Seq<Answer>) -> bool {
    answers.len() <= count && (answers.len() == count || decisive(answers, 0) < answers.len())
}

impl CheckView {
    /// The name under which the check reports.
    pub open spec fn name(self) -> Seq<char> {
        match self {
            CheckView::DivisionByZero(_) => "DivisionByZero"@,
            CheckView::Memory(_) => "Memory"@,
        }
    }

    /// What the check calls a failure.
    pub open spec fn failure(self) -> Seq<char> {
        match self {
            CheckView::DivisionByZero(_) => "division by zero"@,
            CheckView::Memory(_) => "memory out of bounds"@,
        }
    }
}

/// Whether `model` is evidence that `pred` can hold on the path: all
/// path constraints and `pred` are well-formed and true under it.
pub open spec fn confirms(constraints: Seq<BoolTerm>, pred: BoolTerm, model: Map<Seq<char>, int>) -> bool {
    &&& forall|i: int| 0 <= i < constraints.len() ==> (#[trigger] constraints[i]).wf()
    &&& holds_all(constraints, model)
    &&& pred.wf()
    &&& pred.holds(model)
}

/// The verdict of a check on a path, from the solver's answers to its
/// recorded predicates, each asked together with the path constraints.
/// While the answers are `Unsat` the check goes on to the next
/// predicate, and passes when none is left. At the first other answer it
/// reports: a failure with its inputs where the answer brings a model
/// that confirms it, else a possible failure.
pub open spec fn verdict(
    check: CheckView,
    constraints: Seq<BoolTerm>,
    inputs: Seq<(LocalId, Val)>,
    answers: Seq<Answer>,
) -> Verdict {
    let i = decisive(answers, 0);
    if i >= answers.len() || i >= check.recorded().len() {
        Verdict::Pass
    } else {
        let (loc, pred) = check.recorded()[i];
        let place = check.failure() + " @ +"@ + decimal_spec(loc as nat);
        match answers[i].model() {
            Some(model) => if confirms(constraints, pred, model@) {
                Verdict::Fail(place + " with inputs "@ + format_model_spec(inputs, model@))
            } else {
                Verdict::PossibleFail(place)
            },
            None => Verdict::PossibleFail(place),
        }
    }
}

/// Decides the verdict of a check that calls a failure `failure`.
pub fn run_check(
    failure: &str,
    recorded: &Vec<(u32, BoolTerm)>,
    execution: &Execution,
    inputs: &Vec<(LocalId, Val)>,
    answers: &Vec<Answer>,
) -> (r: CheckResult)
    requires
        answers@.len() <= recorded@.len(),
    ensures
        ({
            let i = decisive(answers@, 0);
            if i >= answers@.len() {
                r@ == Verdict::Pass
            } else {
                let (loc, pred) = recorded@[i];
                let place = failure@ + " @ +"@ + decimal_spec(loc as nat);
                match answers@[i].model() {
                    Some(model) => if confirms(execution@.constraints, pred, model@) {
                        r@ == Verdict::Fail(
                            place + " with inputs "@ + format_model_spec(inputs@, model@),
                        )
                    } else {
                        r@ == Verdict::PossibleFail(place)
                    },
                    None => r@ == Verdict::PossibleFail(place),
                }
            }
        }),
{
    let mut i: usize = 0;
    while i < answers.len()
        invariant
            i <= answers@.len() <= recorded@.len(),
            decisive(answers@, 0) == decisive(answers@, i as int),
        decreases answers.len() - i,
    {
        match &answers[i] {
            Answer::Unsat => {},
            other => {
                let loc = recorded[i].0;
                let mut place = String::from_str(failure);
                place.append(" @ +");
                place.append(decimal(loc as u64).as_str());
                if let Some(model) = other.witness() {
                    let pred = &recorded[i].1;
                    if satisfied_by(&execution.constraints, model) && pred.shape() && pred.decide(
                        model,
                    ) {
                        place.append(" with inputs ");
                        place.append(Reporter::format_model(inputs, model).as_str());
                        return CheckResult::Fail(place);
                    }
                }
                return CheckResult::PossibleFail(place);
            },
        }
        i = i + 1;
    }
    CheckResult::Pass
}

impl Check {
    /// The final phase of the check on a path that completed: its verdict
    /// from the solver's answers.
    pub fn run(&self, context: &Context, execution: &Execution, inputs: &Vec<(LocalId, Val)>, answers: &Vec<
        Answer,
    >) -> (r: CheckResult)
        requires
            answered(self@.recorded().len(), answers@),
        ensures
            r@ == verdict(self@, execution@.constraints, inputs@, answers@),
            r is Fail ==> exists|i: int|
                0 <= i < self@.recorded().len() && satisfiable(
                    execution@.constraints.push((#[trigger] self@.recorded()[i]).1),
                ),
    {
        let r = match self {
            Check::DivisionByZero(c) => c.run(context, execution, inputs, answers),
            Check::Memory(c) => c.run(context, execution, inputs, answers),
        };
        proof {
            if r is Fail {
                lemma_decisive_range(answers@, 0);
                let i = decisive(answers@, 0);
                let pred = self@.recorded()[i].1;
                let model = answers@[i].model().unwrap();
                assert(confirms(execution@.constraints, pred, model@));
                let all = execution@.constraints.push(pred);
                assert(holds_all(all, model@)) by {
                    assert forall|k: int| 0 <= k < all.len() implies (#[trigger] all[k]).holds(
                        model@,
                    ) by {
                        if k < execution@.constraints.len() {
                            assert(execution@.constraints[k].holds(model@));
                        }
                    }
                }
                assert(satisfiable(execution@.constraints.push(self@.recorded()[i].1)));
            }
        }
        r
    }
}

} // verus!