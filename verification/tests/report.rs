use wasymex::checks::div::DivisionByZeroCheck;
use wasymex::checks::memory::MemoryCheck;
use wasymex::checks::{record, Check, CheckResult};
use wasymex::context::Context;
use wasymex::engine::{as_local_func, Engine};
use wasymex::ir::{
    BinaryOp, Function, FunctionKind, Instr, InstrSeq, LocalFunction, Module, ValType,
};
use wasymex::model::{Answer, Assignment};
use wasymex::reporter::{PathAnswers, Reporter, Tone};
use wasymex::state::{Execution, Frame, State, Status, TrapReason};
use wasymex::term::{ArrayTerm, BoolTerm, BvOp, BvTerm, Rel};
use wasymex::text::{bits_text, decimal, join, name_of_local, signed_decimal};
use wasymex::value::{ConcVal, SymVal, Val};

fn lit(value: u32) -> BvTerm {
    BvTerm::Lit { value, width: 32 }
}

fn var(name: &str) -> BvTerm {
    BvTerm::Var { name: String::from(name), width: 32 }
}

fn eq(lhs: BvTerm, rhs: BvTerm) -> BoolTerm {
    BoolTerm::Compare { rel: Rel::Eq, lhs: Box::new(lhs), rhs: Box::new(rhs) }
}

fn model(entries: &[(&str, u32)]) -> Assignment {
    Assignment { entries: entries.iter().map(|(n, v)| (String::from(*n), *v)).collect() }
}

#[test]
fn numbers_are_written_in_decimal_and_hexadecimal() {
    assert_eq!(decimal(0), "0");
    assert_eq!(decimal(7), "7");
    assert_eq!(decimal(10), "10");
    assert_eq!(decimal(65536), "65536");
    assert_eq!(decimal(u64::MAX), "18446744073709551615");
    assert_eq!(signed_decimal(0), "0");
    assert_eq!(signed_decimal(-1), "-1");
    assert_eq!(signed_decimal(i32::MIN), "-2147483648");
    assert_eq!(signed_decimal(i32::MAX), "2147483647");
    assert_eq!(bits_text(0), "#x00000000");
    assert_eq!(bits_text(0xdead_beef), "#xdeadbeef");
    assert_eq!(bits_text(0x0000_0a0f), "#x00000a0f");
    assert_eq!(name_of_local(0), "local0");
    assert_eq!(name_of_local(12), "local12");
    assert_eq!(join(&vec![], ", "), "");
    assert_eq!(join(&vec![String::from("a")], ", "), "a");
    assert_eq!(join(&vec![String::from("a"), String::from("b"), String::from("c")], ", "), "a, b, c");
}

#[test]
fn terms_are_written_in_the_solver_language() {
    let sum = BvTerm::Bin { op: BvOp::Add, lhs: Box::new(var("x")), rhs: Box::new(lit(1)) };
    assert_eq!(sum.to_text(), "(bvadd x #x00000001)");
    let names = [
        (BvOp::Sub, "bvsub"),
        (BvOp::Mul, "bvmul"),
        (BvOp::SDiv, "bvsdiv"),
        (BvOp::UDiv, "bvudiv"),
        (BvOp::SRem, "bvsrem"),
        (BvOp::URem, "bvurem"),
        (BvOp::And, "bvand"),
        (BvOp::Or, "bvor"),
        (BvOp::Xor, "bvxor"),
        (BvOp::Shl, "bvshl"),
        (BvOp::LShr, "bvlshr"),
        (BvOp::AShr, "bvashr"),
        (BvOp::Rotl, "ext_rotate_left"),
        (BvOp::Rotr, "ext_rotate_right"),
    ];
    for (op, name) in names {
        let term = BvTerm::Bin { op, lhs: Box::new(var("a")), rhs: Box::new(var("b")) };
        assert_eq!(term.to_text(), format!("({} a b)", name));
    }
    let rels = [
        (Rel::Eq, "="),
        (Rel::Ult, "bvult"),
        (Rel::Ule, "bvule"),
        (Rel::Ugt, "bvugt"),
        (Rel::Uge, "bvuge"),
        (Rel::Slt, "bvslt"),
        (Rel::Sle, "bvsle"),
        (Rel::Sgt, "bvsgt"),
        (Rel::Sge, "bvsge"),
    ];
    for (rel, name) in rels {
        let term = BoolTerm::Compare { rel, lhs: Box::new(var("a")), rhs: Box::new(lit(255)) };
        assert_eq!(term.to_text(), format!("({} a #x000000ff)", name));
    }
    let negated = BoolTerm::Not { arg: Box::new(eq(var("a"), lit(0))) };
    assert_eq!(negated.to_text(), "(not (= a #x00000000))");
    let choice = BvTerm::Ite {
        cond: Box::new(eq(var("a"), var("b"))),
        on_true: Box::new(lit(1)),
        on_false: Box::new(lit(0)),
    };
    assert_eq!(choice.to_text(), "(ite (= a b) #x00000001 #x00000000)");
    let array = ArrayTerm::Store {
        array: Box::new(ArrayTerm::Fill { byte: 0 }),
        index: Box::new(var("i")),
        value: Box::new(BvTerm::Extract { high: 15, low: 8, arg: Box::new(var("v")) }),
    };
    assert_eq!(
        array.to_text(),
        "(store ((as const (Array (_ BitVec 32) (_ BitVec 8))) (_ bv0 8)) i ((_ extract 15 8) v))"
    );
    let byte = BvTerm::Select { array: Box::new(array), index: Box::new(lit(4)) };
    let wide = BvTerm::ZeroExt {
        extra: 16,
        arg: Box::new(BvTerm::Concat { upper: Box::new(byte.clone()), lower: Box::new(byte.clone()) }),
    };
    assert!(wide.to_text().starts_with("((_ zero_extend 16) (concat (select (store "));
    let signed = BvTerm::SignExt { extra: 24, arg: Box::new(BvTerm::Lit { value: 200, width: 8 }) };
    assert_eq!(signed.to_text(), "((_ sign_extend 24) (_ bv200 8))");
    assert_eq!(Val::Conc(ConcVal(-5)).to_text(), "-5: i32");
    assert_eq!(ConcVal(5).to_text(), "5: i32");
    assert_eq!(Val::Sym(SymVal::I32(var("q"))).to_text(), "q: i32");
    assert_eq!(SymVal::I32(lit(3)).to_text(), "#x00000003: i32");
}

#[test]
fn models_are_written_input_by_input() {
    let inputs = vec![
        (3usize, Val::Sym(SymVal::I32(var("local3")))),
        (0usize, Val::Conc(ConcVal(-2))),
        (1usize, Val::Sym(SymVal::I32(BvTerm::Bin {
            op: BvOp::Add,
            lhs: Box::new(var("local3")),
            rhs: Box::new(lit(1)),
        }))),
        (2usize, Val::Sym(SymVal::I32(BvTerm::Lit { value: 1, width: 0 }))),
    ];
    let m = model(&[("local3", 41)]);
    assert_eq!(
        Reporter::format_model(&inputs, &m),
        "local3=#x00000029, local0=-2: i32, local1=#x0000002a, local2=?"
    );
    assert_eq!(Reporter::format_model(&vec![], &m), "");
    let terms = vec![var("local3"), BvTerm::Var { name: String::from("pwd0"), width: 8 }];
    assert_eq!(Reporter::format_model_values(&terms, &m), "local3=#x00000029, pwd0=(_ bv0 8)");
}

fn execution(id: usize, status: Status, constraints: Vec<BoolTerm>) -> Execution {
    let mut state = State::new();
    state.call_stack.push(Frame::new(0, None));
    let mut e = Execution::new(state, 0, id);
    e.status = status;
    e.constraints = constraints;
    e
}

#[test]
fn paths_are_listed_with_their_status() {
    let reporter = Reporter::new();
    assert!(!reporter.show_traces);
    let title = reporter.report_func("main");
    assert_eq!((title.tone, title.text.as_str()), (Tone::Title, "main"));
    let executions = vec![
        execution(4, Status::Complete, vec![eq(var("local0"), lit(0))]),
        execution(5, Status::Terminated, vec![]),
        execution(6, Status::Trap(TrapReason::DivisionByZero), vec![eq(var("a"), lit(1)), eq(var("b"), lit(2))]),
    ];
    let lines = reporter.report_executions(&executions);
    let shown: Vec<(Tone, &str)> = lines.iter().map(|l| (l.tone, l.text.as_str())).collect();
    assert_eq!(
        shown,
        vec![
            (Tone::Note, "  Collected 3 Execution Paths"),
            (Tone::Plain, "    #4: constraints=[(= local0 #x00000000)]"),
            (Tone::Warn, "    ✗ Terminated #5: constraints=[]"),
            (
                Tone::Warn,
                "    ✗ Trap(DivisionByZero) #6: constraints=[(= a #x00000001), (= b #x00000002)]"
            ),
        ]
    );
    let none = reporter.report_executions(&vec![]);
    assert_eq!(none.len(), 1);
    assert_eq!(none[0].text, "  Collected 0 Execution Paths");
}

#[test]
fn checks_are_reported_unless_the_path_is_refuted() {
    let module = Module { funcs: vec![], seqs: vec![], locals: vec![], memories: vec![] };
    let context = Context::new(&module);
    let reporter = Reporter::new();
    let inputs = vec![(0usize, Val::Sym(SymVal::I32(var("local0"))))];

    let mut div = DivisionByZeroCheck::new();
    record(&mut div.constraints, 7, eq(var("local0"), lit(9)));
    record(&mut div.constraints, 9, eq(var("local0"), lit(0)));
    let mut mem = MemoryCheck::new();
    record(&mut mem.constraints, 3, eq(var("local0"), lit(5)));

    let mut feasible = execution(1, Status::Complete, vec![BoolTerm::Not { arg: Box::new(eq(var("local0"), lit(9))) }]);
    feasible.add_check(Check::DivisionByZero(div));
    feasible.add_check(Check::Memory(mem));
    feasible.add_check(Check::Memory(MemoryCheck::new()));
    let infeasible = execution(2, Status::Complete, vec![eq(var("local0"), lit(1)), eq(var("local0"), lit(2))]);
    let doubtful = execution(3, Status::Trap(TrapReason::DivisionByZero), vec![eq(var("local0"), lit(1))]);

    let mut given_up = execution(4, Status::Complete, vec![eq(var("local0"), lit(8))]);
    let mut late = DivisionByZeroCheck::new();
    record(&mut late.constraints, 7, eq(var("local0"), lit(0)));
    given_up.add_check(Check::DivisionByZero(late));
    let partial = execution(5, Status::Complete, vec![]);

    let executions = vec![feasible, infeasible, doubtful, given_up, partial];
    let answers = vec![
        PathAnswers {
            path: Answer::Sat(model(&[("local0", 4)])),
            checks: vec![
                vec![Answer::Unsat, Answer::Sat(model(&[("local0", 0)]))],
                vec![Answer::Unknown(None)],
                vec![],
            ],
        },
        PathAnswers { path: Answer::Unsat, checks: vec![] },
        PathAnswers { path: Answer::Sat(model(&[("local0", 2)])), checks: vec![] },
        PathAnswers { path: Answer::Unknown(None), checks: vec![vec![Answer::Unknown(None)]] },
        PathAnswers { path: Answer::Unknown(Some(model(&[("local0", 6)]))), checks: vec![] },
    ];
    let lines = reporter.report_checks(&context, &inputs, &executions, &answers);
    let shown: Vec<(Tone, &str)> = lines.iter().map(|l| (l.tone, l.text.as_str())).collect();
    assert_eq!(
        shown,
        vec![
            (Tone::Note, "  Execution Path Checks"),
            (Tone::Plain, "    #1: Feasible; Input=[local0=#x00000004]"),
            (
                Tone::Bad,
                "        [DivisionByZero] ✗ division by zero @ +9 with inputs local0=#x00000000"
            ),
            (Tone::Warn, "        [Memory] ? memory out of bounds @ +3"),
            (Tone::Good, "        [Memory] ✓"),
            (Tone::Faint, "    #2: Infeasible; skipping..."),
            (Tone::Plain, "    #3: Feasible; Input=[local0=#x00000002]"),
            (Tone::Plain, "    #4: Feasible; Input=[?]"),
            (Tone::Warn, "        [DivisionByZero] ? division by zero @ +7"),
            (Tone::Plain, "    #5: Feasible; Input=[local0=#x00000006]"),
        ]
    );
}

#[test]
fn verdicts_follow_the_first_answer_that_is_not_unsat() {
    let module = Module { funcs: vec![], seqs: vec![], locals: vec![], memories: vec![] };
    let context = Context::new(&module);
    let inputs = vec![(0usize, Val::Sym(SymVal::I32(var("local0"))))];
    let mut div = DivisionByZeroCheck::new();
    assert_eq!(div.name(), "DivisionByZero");
    assert_eq!(MemoryCheck::new().name(), "Memory");
    record(&mut div.constraints, 1, eq(var("local0"), lit(1)));
    record(&mut div.constraints, 2, eq(var("local0"), lit(2)));
    record(&mut div.constraints, 1, eq(var("local0"), lit(3)));
    assert_eq!(div.constraints.len(), 2);
    assert_eq!(div.constraints[0].0, 1);
    assert_eq!(div.constraints[0].1.to_text(), "(= local0 #x00000003)");
    assert_eq!(div.constraints[1].0, 2);
    let path = execution(0, Status::Complete, vec![BoolTerm::Not { arg: Box::new(eq(var("local0"), lit(3))) }]);
    let run = |answers: Vec<Answer>| div.run(&context, &path, &inputs, &answers);
    assert!(matches!(run(vec![Answer::Unsat, Answer::Unsat]), CheckResult::Pass));
    match run(vec![Answer::Unsat, Answer::Sat(model(&[("local0", 2)]))]) {
        CheckResult::Fail(m) => assert_eq!(m, "division by zero @ +2 with inputs local0=#x00000002"),
        other => panic!("{:?}", other),
    }
    match run(vec![Answer::Sat(model(&[("local0", 3)]))]) {
        CheckResult::PossibleFail(m) => assert_eq!(m, "division by zero @ +1"),
        other => panic!("{:?}", other),
    }
    match run(vec![Answer::Unknown(None)]) {
        CheckResult::PossibleFail(m) => assert_eq!(m, "division by zero @ +1"),
        other => panic!("{:?}", other),
    }
    match run(vec![Answer::Unsat, Answer::Unknown(Some(model(&[("local0", 2)])))]) {
        CheckResult::Fail(m) => assert_eq!(m, "division by zero @ +2 with inputs local0=#x00000002"),
        other => panic!("{:?}", other),
    }
    let check = Check::DivisionByZero(div);
    assert_eq!(check.name(), "DivisionByZero");
    let copy = check.clone();
    let Check::DivisionByZero(inner) = &copy else { panic!("kind") };
    assert_eq!(inner.constraints.len(), 2);
    assert_eq!(Check::Memory(MemoryCheck::new()).name(), "Memory");
}

#[test]
fn checks_record_only_at_their_instructions() {
    let module = Module {
        funcs: vec![Function {
            name: None,
            kind: FunctionKind::Local(LocalFunction { args: vec![0], entry: 0 }),
        }],
        seqs: vec![InstrSeq { instrs: vec![] }],
        locals: vec![ValType::I32],
        memories: vec![],
    };
    let context = Context::new(&module);
    let mut engine = Engine::new(&context);
    engine.initialize();
    let body = as_local_func(&module.funcs[0]).unwrap();
    let mut e = engine.get_initial_execution(body, 0);
    e.state.call_stack[0].value_stack.push(Val::Conc(ConcVal(6)));
    e.state.call_stack[0].value_stack.push(Val::Sym(SymVal::I32(var("local0"))));
    let mut div = DivisionByZeroCheck::new();
    for (loc, op) in [
        (1, BinaryOp::I32Add),
        (2, BinaryOp::I32DivS),
        (3, BinaryOp::I32DivU),
        (4, BinaryOp::I32RemS),
        (5, BinaryOp::I32RemU),
        (6, BinaryOp::I32Mul),
    ] {
        div.check(&context, &e, &Instr::Binop { op }, &loc);
    }
    div.check(&context, &e, &Instr::Drop, &7);
    let locs: Vec<u32> = div.constraints.iter().map(|(loc, _)| *loc).collect();
    assert_eq!(locs, vec![2, 3, 4, 5]);
    assert!(div.constraints.iter().all(|(_, p)| p.to_text() == "(= local0 #x00000000)"));
    e.state.call_stack[0].value_stack.push(Val::Conc(ConcVal(0)));
    div.check(&context, &e, &Instr::Binop { op: BinaryOp::I32DivS }, &2);
    assert_eq!(div.constraints[0].1.to_text(), "(= #x00000000 #x00000000)");
    assert_eq!(div.constraints.len(), 4);
}

#[test]
fn simplify_folds_operations_on_literals() {
    let folded = BvTerm::Bin {
        op: BvOp::Mul,
        lhs: Box::new(BvTerm::Bin { op: BvOp::Add, lhs: Box::new(lit(2)), rhs: Box::new(lit(3)) }),
        rhs: Box::new(lit(4)),
    };
    assert_eq!(folded.simplified().to_text(), "#x00000014");
    let kept = BvTerm::Bin {
        op: BvOp::Add,
        lhs: Box::new(var("x")),
        rhs: Box::new(BvTerm::Bin { op: BvOp::Sub, lhs: Box::new(lit(2)), rhs: Box::new(lit(3)) }),
    };
    assert_eq!(kept.simplified().to_text(), "(bvadd x #xffffffff)");
    let test = eq(BvTerm::Bin { op: BvOp::UDiv, lhs: Box::new(lit(7)), rhs: Box::new(lit(0)) }, var("y"));
    assert_eq!(test.simplified().to_text(), "(= #xffffffff y)");
    let mut value = SymVal::I32(BvTerm::Bin { op: BvOp::Xor, lhs: Box::new(lit(6)), rhs: Box::new(lit(3)) });
    value.simplify();
    assert_eq!(value.to_text(), "#x00000005: i32");

    let mut state = State::new();
    state.simplify();
    assert!(state.call_stack.is_empty());
    let mut frame = Frame::new(0, None);
    let two_plus_two = || Val::Sym(SymVal::I32(BvTerm::Bin {
        op: BvOp::Add,
        lhs: Box::new(lit(2)),
        rhs: Box::new(lit(2)),
    }));
    frame.value_stack.push(two_plus_two());
    frame.value_stack.push(Val::Conc(ConcVal(1)));
    frame.locals.insert(3, two_plus_two());
    frame.locals.insert(8, Val::Sym(SymVal::I32(var("local8"))));
    state.call_stack.push(frame);
    state.memory = Some(wasymex::memory::Memory {
        size: two_plus_two(),
        array: ArrayTerm::Store {
            array: Box::new(ArrayTerm::Fill { byte: 0 }),
            index: Box::new(BvTerm::Bin { op: BvOp::Add, lhs: Box::new(lit(1)), rhs: Box::new(lit(1)) }),
            value: Box::new(BvTerm::Lit { value: 9, width: 8 }),
        },
    });
    state.simplify();
    let frame = &state.call_stack[0];
    assert_eq!(frame.value_stack[0].to_text(), "#x00000004: i32");
    assert_eq!(frame.value_stack[1].to_text(), "1: i32");
    assert_eq!(frame.locals[&3].to_text(), "#x00000004: i32");
    assert_eq!(frame.locals[&8].to_text(), "local8: i32");
    assert_eq!(frame.locals.len(), 2);
    let memory = state.memory.as_ref().unwrap();
    assert_eq!(memory.size.to_text(), "(bvadd #x00000002 #x00000002): i32");
    assert!(memory.array.to_text().contains(" #x00000002 (_ bv9 8))"));
}
