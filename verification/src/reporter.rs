use crate::checks::{answered, verdict, CheckResult, CheckView, Verdict};
use crate::context::Context;
use crate::ir::LocalId;
use crate::model::{Answer, Assignment};
use crate::render::{literal_text, write_literal};
use crate::state::{Execution, ExecutionView, Status, TrapReason};
use crate::term::{holds_all, satisfiable, BvTerm};
use crate::text::{decimal, decimal_spec, join, join_spec, texts};
use crate::value::Val;
use vstd::prelude::*;
use vstd::string::StringExecFns;

verus! {

/// How a line of the report is meant: the caller chooses how to show it.
#[derive(Clone, Copy, Debug, PartialEq, Eq, Structural)]
pub enum Tone {
    /// The name of a function.
    Title,
    /// A heading within a function's report.
    Note,
    /// A path that completed, or is feasible.
    Plain,
    /// A path that is skipped.
    Faint,
    /// A check that found nothing.
    Good,
    /// A path that did not complete, or a check that may have found something.
    Warn,
    /// A check that found a failure.
    Bad,
}

/// One line of the report.
#[derive(Debug)]
pub struct Line {
    pub tone: Tone,
    pub text: String,
}

/// A line as a mathematical value.
pub struct LineView {
    pub tone: Tone,
    pub text: Seq<char>,
}

impl View for Line {
    type V = LineView;

    open spec fn view(&self) -> LineView {
        LineView { tone: self.tone, text: self.text@ }
    }
}

/// The views of a list of lines.
pub open spec fn line_views(lines: Seq<Line>) -> Seq<LineView> {
    Seq::new(lines.len(), |i: int| lines[i]@)
}

/// What the solver answered for one path: to its constraints alone, and,
/// for each of its checks, to each recorded predicate together with the
/// constraints, in the order in which the check recorded them and up to
/// the first answer that is not `Unsat`.
#[derive(Debug)]
pub struct PathAnswers {
    pub path: Answer,
    pub checks: Vec<Vec<Answer>>,
}

/// Turns the results of an analysis into lines of text.
#[derive(Debug)]
pub struct Reporter {
    pub show_traces: bool,
}

/// The number that a term denotes under a model, as a literal; a
/// question mark for a term that is not well-formed.
pub open spec fn value_text(term: BvTerm, model: Map<Seq<char>, int>) -> Seq<char> {
    if term.wf() {
        literal_text(term.eval(model) as u32, term.width())
    } else {
        "?"@
    }
}

/// One input of a counter-example: the local and its value. A concrete
/// input shows its number, a symbolic one the number that the model gives it.
pub open spec fn input_text(id: LocalId, val: Val, model: Map<Seq<char>, int>) -> Seq<char> {
    "local"@ + decimal_spec(id as nat) + "="@ + match val {
        Val::Conc(c) => c.text(),
        Val::Sym(s) => value_text(s.term(), model),
    }
}

/// The inputs of a counter-example, separated by commas.
pub open spec fn format_model_spec(inputs: Seq<(LocalId, Val)>, model: Map<Seq<char>, int>) -> Seq<
    char,
> {
    join_spec(Seq::new(inputs.len(), |i: int| input_text(inputs[i].0, inputs[i].1, model)), ", "@)
}

/// Terms with the numbers that a model gives them, separated by commas.
pub open spec fn format_values_spec(variables: Seq<BvTerm>, model: Map<Seq<char>, int>) -> Seq<
    char,
> {
    join_spec(
        Seq::new(
            variables.len(),
            |i: int| variables[i].text() + "="@ + value_text(variables[i], model),
        ),
        ", "@,
    )
}

/// The name of a status.
pub open spec fn status_text(status: Status) -> Seq<char> {
    match status {
        Status::Running => "Running"@,
        Status::Complete => "Complete"@,
        Status::Trap(TrapReason::DivisionByZero) => "Trap(DivisionByZero)"@,
        Status::Terminated => "Terminated"@,
    }
}

/// The line of one path in the list of paths.
pub open spec fn path_line(e: ExecutionView) -> LineView {
    if e.status == Status::Complete {
        LineView { tone: Tone::Plain, text: "    "@ + e.text() }
    } else {
        LineView { tone: Tone::Warn, text: "    ✗ "@ + status_text(e.status) + " "@ + e.text() }
    }
}

/// The list of paths: a heading with their number, and a line for each.
pub open spec fn paths_report(es: Seq<ExecutionView>) -> Seq<LineView> {
    seq![
        LineView {
            tone: Tone::Note,
            text: "  Collected "@ + decimal_spec(es.len()) + " Execution Paths"@,
        },
    ] + Seq::new(es.len(), |i: int| path_line(es[i]))
}

/// Whether a path counts as feasible after the solver's answer: the
/// solver did not refute it. An answer that the solver gave up on counts
/// as feasible, so that no possible failure on the path is passed over.
pub open spec fn feasible(e: ExecutionView, answer: Answer) -> bool {
    !(answer is Unsat)
}

/// The inputs of a feasible path as the report shows them: their values
/// under the model, or a question mark where the answer brought none.
pub open spec fn inputs_text(inputs: Seq<(LocalId, Val)>, model: Option<Assignment>) -> Seq<char> {
    match model {
        Some(model) => format_model_spec(inputs, model@),
        None => "?"@,
    }
}

/// The line of one check's verdict.
pub open spec fn check_line(check: CheckView, v: Verdict) -> LineView {
    match v {
        Verdict::Pass => LineView { tone: Tone::Good, text: "        ["@ + check.name() + "] ✓"@ },
        Verdict::PossibleFail(message) => LineView {
            tone: Tone::Warn,
            text: "        ["@ + check.name() + "] ? "@ + message,
        },
        Verdict::Fail(message) => LineView {
            tone: Tone::Bad,
            text: "        ["@ + check.name() + "] ✗ "@ + message,
        },
    }
}

/// The lines of one path in the report of the checks: for an infeasible
/// path one line that says so; for a feasible one its inputs, and a line
/// for each check.
pub open spec fn checks_of_path(e: ExecutionView, inputs: Seq<(LocalId, Val)>, answers: PathAnswers) -> Seq<
    LineView,
> {
    if feasible(e, answers.path) {
        seq![
            LineView {
                tone: Tone::Plain,
                text: "    #"@ + decimal_spec(e.id as nat) + ": Feasible; Input=["@ + inputs_text(
                    inputs,
                    answers.path.model(),
                ) + "]"@,
            },
        ] + Seq::new(
            e.checks.len(),
            |j: int| check_line(e.checks[j], verdict(e.checks[j], e.constraints, inputs, answers.checks@[j]@)),
        )
    } else {
        seq![infeasible_line(e)]
    }
}

/// The line of a path that is skipped.
pub open spec fn infeasible_line(e: ExecutionView) -> LineView {
    LineView {
        tone: Tone::Faint,
        text: "    #"@ + decimal_spec(e.id as nat) + ": Infeasible; skipping..."@,
    }
}

/// The report of the checks: a heading, and the lines of each path.
pub open spec fn checks_report(
    es: Seq<ExecutionView>,
    inputs: Seq<(LocalId, Val)>,
    answers: Seq<PathAnswers>,
) -> Seq<LineView>
    decreases es.len(),
{
    if es.len() == 0 {
        seq![LineView { tone: Tone::Note, text: "  Execution Path Checks"@ }]
    } else {
        checks_report(es.drop_last(), inputs, answers) + checks_of_path(
            es.last(),
            inputs,
            answers[es.len() - 1],
        )
    }
}

/// Whether the answers for a path are those that the report needs: where
/// the path is feasible, answers for each of its checks.
pub open spec fn answers_fit(e: ExecutionView, answers: PathAnswers) -> bool {
    feasible(e, answers.path) ==> answers.checks@.len() == e.checks.len() && forall|j: int|
        0 <= j < e.checks.len() ==> answered(
            e.checks[j].recorded().len(),
            (#[trigger] answers.checks@[j])@,
        )
}

/// Writes the number that a term denotes under a model.
fn write_value(term: &BvTerm, model: &Assignment) -> (r: String)
    ensures
        r@ == value_text(*term, model@),
{
    match term.shape() {
        Some(_) => {
            let (value, width) = term.value(model);
            write_literal(value, width)
        },
        None => String::from_str("?"),
    }
}

impl Reporter {
    /// A reporter that shows no traces.
    pub fn new() -> (r: Self)
        ensures
            !r.show_traces,
    {
        Reporter { show_traces: false }
    }

    /// The heading of a function's report: its name.
    pub fn report_func(&self, name: &str) -> (r: Line)
        ensures
            r@ == (LineView { tone: Tone::Title, text: name@ }),
    {
        Line { tone: Tone::Title, text: String::from_str(name) }
    }

    /// The list of the paths that the engine collected.
    pub fn report_executions(&self, executions: &Vec<Execution>) -> (r: Vec<Line>)
        ensures
            line_views(r@) == paths_report(crate::engine::execution_views(executions@)),
    {
        let ghost es = crate::engine::execution_views(executions@);
        let mut lines: Vec<Line> = Vec::new();
        let mut heading = String::from_str("  Collected ");
        heading.append(decimal(executions.len() as u64).as_str());
        heading.append(" Execution Paths");
        lines.push(Line { tone: Tone::Note, text: heading });
        let mut i: usize = 0;
        while i < executions.len()
            invariant
                i <= executions.len(),
                es == crate::engine::execution_views(executions@),
                lines@.len() == i + 1,
                lines@[0]@ == paths_report(es)[0],
                forall|j: int| 0 <= j < i ==> (#[trigger] lines@[j + 1])@ == path_line(es[j]),
            decreases executions.len() - i,
        {
            let execution = &executions[i];
            let line = if execution.status == Status::Complete {
                let mut text = String::from_str("    ");
                text.append(execution.to_text().as_str());
                Line { tone: Tone::Plain, text }
            } else {
                let mut text = String::from_str("    ✗ ");
                text.append(
                    match execution.status {
                        Status::Running => "Running",
                        Status::Complete => "Complete",
                        Status::Trap(TrapReason::DivisionByZero) => "Trap(DivisionByZero)",
                        Status::Terminated => "Terminated",
                    },
                );
                text.append(" ");
                text.append(execution.to_text().as_str());
                Line { tone: Tone::Warn, text }
            };
            assert(line@ == path_line(es[i as int]));
            lines.push(line);
            i = i + 1;
        }
        proof {
            let goal = paths_report(es);
            assert forall|j: int| 0 <= j < goal.len() implies line_views(lines@)[j] == goal[j] by {
                if j > 0 {
                    assert(lines@[(j - 1) + 1]@ == path_line(es[j - 1]));
                }
            }
            assert(line_views(lines@) =~= goal);
        }
        lines
    }

    /// Writes terms with the numbers that a model gives them.
    pub fn format_model_values(variables: &Vec<BvTerm>, model: &Assignment) -> (r: String)
        ensures
            r@ == format_values_spec(variables@, model@),
    {
        let ghost goal = Seq::new(
            variables@.len(),
            |i: int| variables@[i].text() + "="@ + value_text(variables@[i], model@),
        );
        let mut parts: Vec<String> = Vec::new();
        let mut i: usize = 0;
        while i < variables.len()
            invariant
                i <= variables.len(),
                parts@.len() == i,
                forall|j: int| 0 <= j < i ==> (#[trigger] parts@[j])@ == goal[j],
                goal == Seq::new(
                    variables@.len(),
                    |i: int| variables@[i].text() + "="@ + value_text(variables@[i], model@),
                ),
            decreases variables.len() - i,
        {
            let mut part = variables[i].to_text();
            part.append("=");
            part.append(write_value(&variables[i], model).as_str());
            parts.push(part);
            i = i + 1;
        }
        assert(texts(parts@) =~= goal);
        join(&parts, ", ")
    }

    /// Writes the inputs of a counter-example: each local with its value
    /// under the model, separated by commas.
    pub fn format_model(inputs: &Vec<(LocalId, Val)>, model: &Assignment) -> (r: String)
        ensures
            r@ == format_model_spec(inputs@, model@),
    {
        let ghost goal = Seq::new(
            inputs@.len(),
            |i: int| input_text(inputs@[i].0, inputs@[i].1, model@),
        );
        let mut parts: Vec<String> = Vec::new();
        let mut i: usize = 0;
        while i < inputs.len()
            invariant
                i <= inputs.len(),
                parts@.len() == i,
                forall|j: int| 0 <= j < i ==> (#[trigger] parts@[j])@ == goal[j],
                goal == Seq::new(
                    inputs@.len(),
                    |i: int| input_text(inputs@[i].0, inputs@[i].1, model@),
                ),
            decreases inputs.len() - i,
        {
            let mut part = String::from_str("local");
            part.append(decimal(inputs[i].0 as u64).as_str());
            part.append("=");
            match &inputs[i].1 {
                Val::Conc(val) => {
                    part.append(val.to_text().as_str());
                },
                Val::Sym(val) => {
                    part.append(write_value(val.as_i32(), model).as_str());
                },
            }
            parts.push(part);
            i = i + 1;
        }
        assert(texts(parts@) =~= goal);
        join(&parts, ", ")
    }

    /// The report of the checks on the paths that completed or trapped:
    /// for each path whether it is feasible, and for a feasible one its
    /// inputs and the verdict of each of its checks.
    pub fn report_checks(
        &self,
        context: &Context,
        inputs: &Vec<(LocalId, Val)>,
        executions: &Vec<Execution>,
        answers: &Vec<PathAnswers>,
    ) -> (r: Vec<Line>)
        requires
            answers@.len() == executions@.len(),
            forall|i: int|
                0 <= i < executions@.len() ==> answers_fit(
                    (#[trigger] executions@[i])@,
                    answers@[i],
                ),
        ensures
            line_views(r@) == checks_report(
                crate::engine::execution_views(executions@),
                inputs@,
                answers@,
            ),
    {
        let ghost es = crate::engine::execution_views(executions@);
        let mut lines: Vec<Line> = Vec::new();
        lines.push(Line { tone: Tone::Note, text: String::from_str("  Execution Path Checks") });
        assert(line_views(lines@) =~= checks_report(es.take(0), inputs@, answers@));
        let mut i: usize = 0;
        while i < executions.len()
            invariant
                i <= executions.len(),
                answers@.len() == executions@.len(),
                es == crate::engine::execution_views(executions@),
                forall|i: int|
                    0 <= i < executions@.len() ==> answers_fit(
                        (#[trigger] executions@[i])@,
                        answers@[i],
                    ),
                line_views(lines@) == checks_report(es.take(i as int), inputs@, answers@),
            decreases executions.len() - i,
        {
            let execution = &executions[i];
            let path = &answers[i];
            let ghost before = line_views(lines@);
            let ghost expect = checks_of_path(execution@, inputs@, *path);
            assert(answers_fit(executions@[i as int]@, answers@[i as int]));
            proof {
                assert(es.take(i + 1).drop_last() =~= es.take(i as int));
                assert(es.take(i + 1).last() == execution@);
            }
            match execution.solve(&path.path) {
                None => {
                    let mut text = String::from_str("    #");
                    text.append(decimal(execution.id as u64).as_str());
                    text.append(": Infeasible; skipping...");
                    lines.push(Line { tone: Tone::Faint, text });
                    assert(line_views(lines@) =~= before + expect);
                },
                Some(found) => {
                    let mut text = String::from_str("    #");
                    text.append(decimal(execution.id as u64).as_str());
                    text.append(": Feasible; Input=[");
                    match found.model {
                        Some(model) => text.append(Self::format_model(inputs, model).as_str()),
                        None => text.append("?"),
                    }
                    text.append("]");
                    lines.push(Line { tone: Tone::Plain, text });
                    let mut j: usize = 0;
                    while j < execution.checks.len()
                        invariant
                            j <= execution.checks.len(),
                            feasible(execution@, path.path),
                            answers_fit(execution@, *path),
                            expect == checks_of_path(execution@, inputs@, *path),
                            lines@.len() == before.len() + 1 + j,
                            forall|k: int|
                                0 <= k < before.len() ==> (#[trigger] lines@[k])@ == before[k],
                            forall|k: int|
                                0 <= k < 1 + j ==> (#[trigger] lines@[before.len() + k])@
                                    == expect[k],
                        decreases execution.checks.len() - j,
                    {
                        let check = &execution.checks[j];
                        assert(execution@.checks[j as int] == check@);
                        assert(answered(check@.recorded().len(), path.checks@[j as int]@));
                        let mut text = String::from_str("        [");
                        text.append(check.name());
                        let line = match check.run(context, execution, inputs, &path.checks[j]) {
                            CheckResult::Pass => {
                                text.append("] ✓");
                                Line { tone: Tone::Good, text }
                            },
                            CheckResult::PossibleFail(message) => {
                                text.append("] ? ");
                                text.append(message.as_str());
                                Line { tone: Tone::Warn, text }
                            },
                            CheckResult::Fail(message) => {
                                text.append("] ✗ ");
                                text.append(message.as_str());
                                Line { tone: Tone::Bad, text }
                            },
                        };
                        assert(line@ == expect[1 + j]);
                        lines.push(line);
                        j = j + 1;
                    }
                    proof {
                        let goal = before + expect;
                        assert(expect.len() == 1 + execution@.checks.len());
                        assert(execution@.checks.len() == execution.checks@.len());
                        assert forall|k: int| 0 <= k < goal.len() implies line_views(lines@)[k]
                            == goal[k] by {
                            if k < before.len() {
                                assert(lines@[k]@ == before[k]);
                            } else {
                                assert(lines@[before.len() + (k - before.len())]@ == expect[k
                                    - before.len()]);
                            }
                        }
                        assert(line_views(lines@) =~= goal);
                    }
                },
            }
            i = i + 1;
        }
        assert(es.take(executions@.len() as int) =~= es);
        lines
    }
}

/// Path-constraint soundness. The report calls a path feasible exactly
/// when the solver did not answer `Unsat`. Where the answer brings a model
/// under which every constraint of the path is well-formed and true, the
/// constraints are satisfiable.
pub proof fn lemma_feasible_sound(e: ExecutionView, inputs: Seq<(LocalId, Val)>, answers: PathAnswers)
    ensures
        checks_of_path(e, inputs, answers)[0].tone == Tone::Plain <==> !(answers.path is Unsat),
        checks_of_path(e, inputs, answers)[0].tone == Tone::Faint <==> answers.path is Unsat,
        e.confirmed(answers.path) ==> checks_of_path(e, inputs, answers)[0].tone == Tone::Plain
            && satisfiable(e.constraints),
{
    if e.confirmed(answers.path) {
        assert(holds_all(e.constraints, answers.path.model().unwrap()@));
    }
}

/// Where the solver refutes exactly the constraints that cannot hold
/// together, the report calls a path feasible if and only if its
/// constraints are satisfiable.
pub proof fn lemma_feasible_exact(e: ExecutionView, inputs: Seq<(LocalId, Val)>, answers: PathAnswers)
    requires
        answers.path is Unsat <==> !satisfiable(e.constraints),
    ensures
        checks_of_path(e, inputs, answers)[0].tone == Tone::Plain <==> satisfiable(e.constraints),
{
}

} // verus!
