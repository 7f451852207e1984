use crate::checks::{check_views, clone_checks, Check, CheckView};
use crate::flow::Loc;
use crate::ir::{FunctionId, InstrLocId, InstrSeqId, LocalId};
use crate::memory::Memory;
use crate::model::{satisfied_by, Answer, Assignment};
use crate::term::{holds_all, satisfiable, BoolTerm};
use crate::text::{decimal, decimal_spec, join, join_spec, texts};
use crate::value::Val;
use std::collections::HashMap;
use vstd::prelude::*;
use vstd::string::StringExecFns;

verus! {

broadcast use vstd::std_specs::hash::group_hash_axioms;

/// Why an execution trapped.
#[derive(Clone, Copy, Debug, PartialEq, Eq, Structural)]
pub enum TrapReason {
    DivisionByZero,
}

/// How far an execution has come.
#[derive(Clone, Copy, Debug, PartialEq, Eq, Structural)]
pub enum Status {
    /// Still running.
    Running,
    /// The entry function returned.
    Complete,
    /// An instruction trapped on concrete operands.
    Trap(TrapReason),
    /// A sequence was entered more often than the engine allows.
    Terminated,
}

/// One activation of a function.
#[derive(Debug)]
pub struct Frame {
    pub func: FunctionId,
    /// Where the caller resumes; nothing for the entry function.
    pub ret: Option<Loc>,
    pub value_stack: Vec<Val>,
    pub locals: HashMap<LocalId, Val>,
}

/// A frame as a mathematical value.
pub struct FrameView {
    pub func: FunctionId,
    pub ret: Option<Loc>,
    pub stack: Seq<Val>,
    pub locals: Map<LocalId, Val>,
}

impl View for Frame {
    type V = FrameView;

    open spec fn view(&self) -> FrameView {
        FrameView {
            func: self.func,
            ret: self.ret,
            stack: self.value_stack@,
            locals: self.locals@,
        }
    }
}

/// Copies a list of values.
pub fn clone_vals(vals: &Vec<Val>) -> (r: Vec<Val>)
    ensures
        r@ == vals@,
{
    let mut r: Vec<Val> = Vec::new();
    let mut i: usize = 0;
    while i < vals.len()
        invariant
            i <= vals.len(),
            r@ == vals@.take(i as int),
        decreases vals.len() - i,
    {
        r.push(vals[i].clone());
        assert(r@ =~= vals@.take(i + 1));
        i = i + 1;
    }
    assert(vals@.take(vals@.len() as int) =~= vals@);
    r
}

/// Copies a list of constraints.
pub fn clone_constraints(list: &Vec<BoolTerm>) -> (r: Vec<BoolTerm>)
    ensures
        r@ == list@,
{
    let mut r: Vec<BoolTerm> = Vec::new();
    let mut i: usize = 0;
    while i < list.len()
        invariant
            i <= list.len(),
            r@ == list@.take(i as int),
        decreases list.len() - i,
    {
        r.push(list[i].clone());
        assert(r@ =~= list@.take(i + 1));
        i = i + 1;
    }
    assert(list@.take(list@.len() as int) =~= list@);
    r
}

impl Frame {
    /// A frame with an empty stack and no locals.
    pub fn new(func: FunctionId, ret: Option<Loc>) -> (r: Self)
        ensures
            r@ == (FrameView { func, ret, stack: Seq::empty(), locals: Map::empty() }),
    {
        Frame { func, ret, value_stack: Vec::new(), locals: HashMap::new() }
    }
}

impl Clone for Frame {
    fn clone(&self) -> (r: Self)
        ensures
            r@ == self@,
    {
        Frame {
            func: self.func,
            ret: self.ret,
            value_stack: clone_vals(&self.value_stack),
            locals: self.locals.clone(),
        }
    }
}

/// The machine state of an execution: the call stack, the current frame
/// last, and the memory if the module has one.
#[derive(Debug)]
pub struct State {
    pub call_stack: Vec<Frame>,
    pub memory: Option<Memory>,
}

/// The views of a list of frames.
pub open spec fn frame_views(frames: Seq<Frame>) -> Seq<FrameView> {
    Seq::new(frames.len(), |i: int| frames[i]@)
}

/// A state as a mathematical value.
pub struct StateView {
    pub frames: Seq<FrameView>,
    pub memory: Option<Memory>,
}

impl View for State {
    type V = StateView;

    open spec fn view(&self) -> StateView {
        StateView { frames: frame_views(self.call_stack@), memory: self.memory }
    }
}

impl State {
    /// A state with no frame and no memory.
    pub fn new() -> (r: Self)
        ensures
            r@ == (StateView { frames: Seq::empty(), memory: None }),
            r.call_stack@ == Seq::<Frame>::empty(),
            r.memory is None,
    {
        let r = State { call_stack: Vec::new(), memory: None };
        assert(r@.frames =~= Seq::empty());
        r
    }
}

impl Clone for State {
    fn clone(&self) -> (r: Self)
        ensures
            r@ == self@,
    {
        let mut call_stack: Vec<Frame> = Vec::new();
        let mut i: usize = 0;
        while i < self.call_stack.len()
            invariant
                i <= self.call_stack.len(),
                call_stack@.len() == i,
                forall|j: int| 0 <= j < i ==> (#[trigger] call_stack@[j])@ == self.call_stack@[j]@,
            decreases self.call_stack.len() - i,
        {
            call_stack.push(self.call_stack[i].clone());
            i = i + 1;
        }
        let memory = match &self.memory {
            Some(memory) => Some(memory.clone()),
            None => None,
        };
        let r = State { call_stack, memory };
        assert(r@.frames =~= self@.frames);
        r
    }
}

/// One path through the program while it is explored.
#[derive(Debug)]
pub struct Execution {
    pub id: usize,
    pub state: State,
    /// The path constraints: what every input that takes this path satisfies.
    pub constraints: Vec<BoolTerm>,
    pub cur_block: InstrSeqId,
    /// The instruction to resume at; nothing at the start of a sequence.
    pub cur_location: Option<InstrLocId>,
    /// Whether the next step skips the instruction it resumes at. Set when
    /// a call returns, so that the call is not made again.
    pub advance: bool,
    pub status: Status,
    pub checks: Vec<Check>,
    /// How often each sequence was entered.
    pub hotness: HashMap<InstrSeqId, usize>,
}

/// An execution as a mathematical value.
pub struct ExecutionView {
    pub id: usize,
    pub state: StateView,
    pub constraints: Seq<BoolTerm>,
    pub cur_block: InstrSeqId,
    pub cur_location: Option<InstrLocId>,
    pub advance: bool,
    pub status: Status,
    pub checks: Seq<CheckView>,
    pub hotness: Map<InstrSeqId, usize>,
}

impl View for Execution {
    type V = ExecutionView;

    open spec fn view(&self) -> ExecutionView {
        ExecutionView {
            id: self.id,
            state: self.state@,
            constraints: self.constraints@,
            cur_block: self.cur_block,
            cur_location: self.cur_location,
            advance: self.advance,
            status: self.status,
            checks: check_views(self.checks@),
            hotness: self.hotness@,
        }
    }
}

impl Execution {
    /// A new execution at the start of the sequence `entry`, with no
    /// constraints, no checks and no sequence entered yet.
    pub fn new(state: State, entry: InstrSeqId, id: usize) -> (r: Self)
        ensures
            r@ == (ExecutionView {
                id,
                state: state@,
                constraints: Seq::empty(),
                cur_block: entry,
                cur_location: None,
                advance: false,
                status: Status::Running,
                checks: Seq::empty(),
                hotness: Map::empty(),
            }),
    {
        let r = Execution {
            id,
            constraints: Vec::new(),
            state,
            cur_block: entry,
            cur_location: None,
            advance: false,
            status: Status::Running,
            checks: Vec::new(),
            hotness: HashMap::new(),
        };
        assert(r@.checks =~= Seq::empty());
        r
    }

    /// Gives the execution one more check.
    pub fn add_check(&mut self, check: Check)
        ensures
            final(self)@ == (ExecutionView { checks: old(self)@.checks.push(check@), ..old(self)@ }),
    {
        self.checks.push(check);
        assert(self@.checks =~= old(self)@.checks.push(check@));
    }

    /// A copy of `other` under the identifier `id`: a fork.
    pub fn from(other: &Execution, id: usize) -> (r: Self)
        ensures
            r@ == (ExecutionView { id, ..other@ }),
    {
        Execution {
            id,
            state: other.state.clone(),
            constraints: clone_constraints(&other.constraints),
            cur_block: other.cur_block,
            cur_location: other.cur_location,
            advance: other.advance,
            status: other.status,
            checks: clone_checks(&other.checks),
            hotness: other.hotness.clone(),
        }
    }
}

/// The texts of a list of constraints.
pub open spec fn constraint_texts(list: Seq<BoolTerm>) -> Seq<Seq<char>> {
    Seq::new(list.len(), |i: int| list[i].text())
}

impl ExecutionView {
    /// The summary of a path: its identifier and its constraints.
    pub open spec fn text(self) -> Seq<char> {
        "#"@ + decimal_spec(self.id as nat) + ": constraints=["@ + join_spec(
            constraint_texts(self.constraints),
            ", "@,
        ) + "]"@
    }

    /// Whether every path constraint is a well-formed term.
    pub open spec fn constraints_wf(self) -> bool {
        forall|i: int| 0 <= i < self.constraints.len() ==> (#[trigger] self.constraints[i]).wf()
    }
}

impl Execution {
    /// Writes the summary of the path: its identifier and its constraints.
    pub fn to_text(&self) -> (r: String)
        ensures
            r@ == self@.text(),
    {
        let mut parts: Vec<String> = Vec::new();
        let mut i: usize = 0;
        while i < self.constraints.len()
            invariant
                i <= self.constraints.len(),
                parts@.len() == i,
                texts(parts@) == constraint_texts(self.constraints@.take(i as int)),
            decreases self.constraints.len() - i,
        {
            let ghost before = parts@;
            parts.push(self.constraints[i].to_text());
            proof {
                let goal = constraint_texts(self.constraints@.take(i + 1));
                assert forall|j: int| 0 <= j < goal.len() implies texts(parts@)[j] == goal[j] by {
                    if j < i {
                        assert(texts(before)[j] == constraint_texts(
                            self.constraints@.take(i as int),
                        )[j]);
                    }
                }
                assert(texts(parts@) =~= goal);
            }
            i = i + 1;
        }
        assert(self.constraints@.take(self.constraints@.len() as int) =~= self.constraints@);
        let mut r = String::from_str("#");
        r.append(decimal(self.id as u64).as_str());
        r.append(": constraints=[");
        r.append(join(&parts, ", ").as_str());
        r.append("]");
        r
    }

    /// What a solver has to hold to speak for this path: a copy of its
    /// constraints, in their order.
    pub fn get_solver(&self) -> (assertions: Vec<BoolTerm>)
        ensures
            assertions@ == self@.constraints,
    {
        clone_constraints(&self.constraints)
    }

    /// Reads a solver's answer to the path constraints. The path is
    /// infeasible exactly where the answer is `Unsat`: an answer that the
    /// solver gave up on counts as feasible, so that nothing is passed over
    /// that the solver did not refute. For a feasible path the result
    /// carries the model of the answer, if it has one, and says whether
    /// that model confirms the path.
    pub fn solve<'a>(&self, answer: &'a Answer) -> (r: Option<Feasible<'a>>)
        ensures
            r is None <==> *answer is Unsat,
            r matches Some(found) ==> {
                &&& match found.model {
                    Some(model) => answer.model() == Some(*model),
                    None => answer.model() is None,
                }
                &&& found.confirmed == self@.confirmed(*answer)
                &&& found.confirmed ==> satisfiable(self@.constraints)
            },
    {
        match answer {
            Answer::Unsat => None,
            _ => {
                let model = answer.witness();
                let confirmed = match model {
                    Some(m) => satisfied_by(&self.constraints, m),
                    None => false,
                };
                proof {
                    if confirmed {
                        assert(holds_all(self@.constraints, model.unwrap()@));
                    }
                }
                Some(Feasible { model, confirmed })
            },
        }
    }
}

/// What speaks for a path that the solver did not refute.
pub struct Feasible<'a> {
    /// The model that came with the answer.
    pub model: Option<&'a Assignment>,
    /// Whether that model is evidence: all path constraints are
    /// well-formed and true under it.
    pub confirmed: bool,
}

impl ExecutionView {
    /// Whether the answer brings a model under which all path constraints
    /// are well-formed and true.
    pub open spec fn confirmed(self, answer: Answer) -> bool {
        answer.model() matches Some(model) && self.constraints_wf() && holds_all(self.constraints, model@)
    }
}

} // verus!