use wasymex::checks::div::DivisionByZeroCheck;
use wasymex::checks::memory::MemoryCheck;
use wasymex::checks::{Check, CheckResult};
use wasymex::context::Context;
use wasymex::engine::{as_local_func, Engine};
use wasymex::ir::{
    BinaryOp, ExtendedLoad, Function, FunctionKind, Instr, InstrSeq, LoadKind,
    LocalFunction, MemoryDecl, Module, StoreKind, UnaryOp, ValType,
};
use wasymex::machine::Fault;
use wasymex::model::{Answer, Assignment};
use wasymex::state::{Execution, Status, TrapReason};
use wasymex::term::BoolTerm;
use wasymex::value::{of_bits, ConcVal, SymVal, Val};

fn seq(instrs: Vec<Instr>, first_loc: u32) -> InstrSeq {
    InstrSeq {
        instrs: instrs.into_iter().enumerate().map(|(i, instr)| (instr, first_loc + i as u32)).collect(),
    }
}

fn local(name: &str, args: Vec<usize>, entry: usize) -> Function {
    Function {
        name: Some(String::from(name)),
        kind: FunctionKind::Local(LocalFunction { args, entry }),
    }
}

fn model(entries: &[(&str, u32)]) -> Assignment {
    Assignment { entries: entries.iter().map(|(n, v)| (String::from(*n), *v)).collect() }
}

fn explore(module: &Module, func: usize, max_hotness: usize, checks: Vec<Check>) -> Vec<Execution> {
    let context = Context::new(module);
    let mut engine = Engine::new(&context);
    engine.initialize();
    engine.set_max_hotness(max_hotness);
    for check in checks {
        engine.add_check(check);
    }
    let body = as_local_func(&module.funcs[func]).unwrap();
    engine.get_func_executions(body, func, None).unwrap()
}

fn top_value(execution: &Execution, model: &Assignment) -> i32 {
    let frame = execution.state.call_stack.last().unwrap();
    match frame.value_stack.last().unwrap() {
        Val::Conc(c) => c.as_i32(),
        Val::Sym(SymVal::I32(term)) => {
            assert_eq!(term.shape(), Some(32));
            of_bits(term.value(model).0)
        }
    }
}

fn holds(constraints: &[BoolTerm], model: &Assignment) -> bool {
    constraints.iter().all(|c| c.shape() && c.decide(model))
}

fn both_checks() -> Vec<Check> {
    vec![
        Check::DivisionByZero(DivisionByZeroCheck::new()),
        Check::Memory(MemoryCheck::new()),
    ]
}

/// `f(x) = 10 / x`
fn division_module() -> Module {
    Module {
        funcs: vec![local("f", vec![0], 0)],
        seqs: vec![seq(
            vec![
                Instr::Const { value: 10 },
                Instr::LocalGet { local: 0 },
                Instr::Binop { op: BinaryOp::I32DivS },
                Instr::Return,
            ],
            100,
        )],
        locals: vec![ValType::I32],
        memories: vec![],
    }
}

#[test]
fn division_by_a_symbolic_input_can_fail() {
    let module = division_module();
    let paths = explore(&module, 0, 1, both_checks());
    assert_eq!(paths.len(), 1);
    let path = &paths[0];
    assert_eq!(path.status, Status::Complete);
    assert!(path.constraints.is_empty());
    assert_eq!(path.checks.len(), 2);
    let Check::DivisionByZero(div) = &path.checks[0] else { panic!("first check") };
    assert_eq!(div.constraints.len(), 1);
    assert_eq!(div.constraints[0].0, 102);
    assert_eq!(div.constraints[0].1.to_text(), "(= local0 #x00000000)");
    let Check::Memory(mem) = &path.checks[1] else { panic!("second check") };
    assert!(mem.constraints.is_empty());

    let context = Context::new(&module);
    let engine = Engine::new(&context);
    let inputs = engine.get_inputs(as_local_func(&module.funcs[0]).unwrap());
    assert_eq!(inputs.len(), 1);

    let feasible = Answer::Sat(model(&[("local0", 3)]));
    let found = path.solve(&feasible).unwrap();
    assert!(found.confirmed);
    assert_eq!(found.model.unwrap().lookup(&"local0".to_string()), Some(3));

    let zero = vec![Answer::Sat(model(&[("local0", 0)]))];
    match path.checks[0].run(&context, path, &inputs, &zero) {
        CheckResult::Fail(message) => {
            assert_eq!(message, "division by zero @ +102 with inputs local0=#x00000000")
        }
        other => panic!("{:?}", other),
    }
    let wrong = vec![Answer::Sat(model(&[("local0", 5)]))];
    match path.checks[0].run(&context, path, &inputs, &wrong) {
        CheckResult::PossibleFail(message) => assert_eq!(message, "division by zero @ +102"),
        other => panic!("{:?}", other),
    }
    let unknown = vec![Answer::Unknown(None)];
    match path.checks[0].run(&context, path, &inputs, &unknown) {
        CheckResult::PossibleFail(message) => assert_eq!(message, "division by zero @ +102"),
        other => panic!("{:?}", other),
    }
    let unknown = vec![Answer::Unknown(Some(model(&[("local0", 0)])))];
    match path.checks[0].run(&context, path, &inputs, &unknown) {
        CheckResult::Fail(message) => {
            assert_eq!(message, "division by zero @ +102 with inputs local0=#x00000000")
        }
        other => panic!("{:?}", other),
    }
    let unknown = vec![Answer::Unknown(Some(model(&[("local0", 4)])))];
    match path.checks[0].run(&context, path, &inputs, &unknown) {
        CheckResult::PossibleFail(message) => assert_eq!(message, "division by zero @ +102"),
        other => panic!("{:?}", other),
    }
    let unsat = vec![Answer::Unsat];
    assert!(matches!(path.checks[0].run(&context, path, &inputs, &unsat), CheckResult::Pass));
    assert!(matches!(path.checks[1].run(&context, path, &inputs, &vec![]), CheckResult::Pass));
    for x in [1u32, 2, 5, 10, 0xffff_ffff] {
        let m = model(&[("local0", x)]);
        assert_eq!(top_value(path, &m), 10i32.wrapping_div(x as i32));
    }
}

#[test]
fn division_by_concrete_zero_traps() {
    let module = Module {
        funcs: vec![local("f", vec![], 0)],
        seqs: vec![seq(
            vec![
                Instr::Const { value: 10 },
                Instr::Const { value: 0 },
                Instr::Binop { op: BinaryOp::I32DivU },
                Instr::Return,
            ],
            0,
        )],
        locals: vec![],
        memories: vec![],
    };
    let paths = explore(&module, 0, 1, both_checks());
    assert_eq!(paths.len(), 1);
    assert_eq!(paths[0].status, Status::Trap(TrapReason::DivisionByZero));
    assert_eq!(paths[0].cur_location, Some(2));
    assert!(paths[0].state.call_stack[0].value_stack.is_empty());
}

/// `f(x) = if x > 0 then return 1 else return 0`
fn conditional_module() -> Module {
    Module {
        funcs: vec![local("f", vec![0], 0)],
        seqs: vec![
            seq(
                vec![
                    Instr::LocalGet { local: 0 },
                    Instr::Const { value: 0 },
                    Instr::Binop { op: BinaryOp::I32GtS },
                    Instr::IfElse { consequent: 1, alternative: 2 },
                ],
                0,
            ),
            seq(vec![Instr::Const { value: 1 }, Instr::Return], 10),
            seq(vec![Instr::Const { value: 0 }, Instr::Return], 20),
        ],
        locals: vec![ValType::I32],
        memories: vec![],
    }
}

#[test]
fn conditional_on_a_symbolic_input_forks() {
    let module = conditional_module();
    let paths = explore(&module, 0, 1, both_checks());
    assert_eq!(paths.len(), 2);
    let positive = model(&[("local0", 1)]);
    let zero = model(&[("local0", 0)]);
    let negative = model(&[("local0", 0x8000_0000)]);
    let (taken, other) = (&paths[0], &paths[1]);
    assert_eq!(taken.status, Status::Complete);
    assert_eq!(other.status, Status::Complete);
    assert_eq!((taken.id, other.id), (1, 2));
    assert_eq!(taken.constraints.len(), 1);
    assert_eq!(other.constraints.len(), 1);
    assert_eq!(top_value(taken, &positive), 1);
    assert_eq!(top_value(other, &zero), 0);
    assert!(holds(&taken.constraints, &positive));
    assert!(!holds(&taken.constraints, &zero));
    assert!(!holds(&taken.constraints, &negative));
    assert!(holds(&other.constraints, &zero));
    assert!(holds(&other.constraints, &negative));
    assert!(!holds(&other.constraints, &positive));
    for x in [0u32, 1, 2, 0x7fff_ffff, 0x8000_0000, 0xffff_ffff] {
        let m = model(&[("local0", x)]);
        assert!(holds(&taken.constraints, &m) != holds(&other.constraints, &m));
    }
    let sat = Answer::Sat(model(&[("local0", 1)]));
    let found = taken.solve(&sat).unwrap();
    assert!(found.confirmed);
    assert_eq!(found.model.unwrap().lookup(&"local0".to_string()), Some(1));
    let off = Answer::Sat(model(&[("local0", 0)]));
    let found = taken.solve(&off).unwrap();
    assert!(!found.confirmed);
    assert_eq!(found.model.unwrap().lookup(&"local0".to_string()), Some(0));
    assert!(taken.solve(&Answer::Unsat).is_none());
    let given_up = Answer::Unknown(None);
    let found = taken.solve(&given_up).unwrap();
    assert!(!found.confirmed);
    assert!(found.model.is_none());
    let partial = Answer::Unknown(Some(model(&[("local0", 7)])));
    let found = taken.solve(&partial).unwrap();
    assert!(found.confirmed);
    assert_eq!(found.model.unwrap().lookup(&"local0".to_string()), Some(7));
    assert!(other.solve(&off).unwrap().confirmed);
    assert!(other.solve(&Answer::Unsat).is_none());
    let context = Context::new(&module);
    let inputs = Engine::new(&context).get_inputs(as_local_func(&module.funcs[0]).unwrap());
    for path in &paths {
        for check in &path.checks {
            assert!(matches!(check.run(&context, path, &inputs, &vec![]), CheckResult::Pass));
        }
    }
    assert_eq!(taken.get_solver().len(), 1);
    assert_eq!(taken.get_solver()[0].to_text(), taken.constraints[0].to_text());
    assert_eq!(taken.to_text(), "#1: constraints=[(not (= (ite (bvsgt local0 #x00000000) #x00000001 #x00000000) #x00000000))]");
    assert_eq!(other.to_text(), "#2: constraints=[(= (ite (bvsgt local0 #x00000000) #x00000001 #x00000000) #x00000000)]");
}

/// `f(n) = { i = 0; while (i < n) i++; i }`
fn loop_module() -> Module {
    Module {
        funcs: vec![local("f", vec![0], 0)],
        seqs: vec![
            seq(vec![Instr::Block { seq: 1 }, Instr::LocalGet { local: 1 }], 0),
            seq(vec![Instr::Loop { seq: 2 }], 10),
            seq(
                vec![
                    Instr::LocalGet { local: 1 },
                    Instr::LocalGet { local: 0 },
                    Instr::Binop { op: BinaryOp::I32GeS },
                    Instr::BrIf { block: 1 },
                    Instr::LocalGet { local: 1 },
                    Instr::Const { value: 1 },
                    Instr::Binop { op: BinaryOp::I32Add },
                    Instr::LocalSet { local: 1 },
                    Instr::Br { block: 2 },
                ],
                20,
            ),
        ],
        locals: vec![ValType::I32, ValType::I32],
        memories: vec![],
    }
}

#[test]
fn loop_is_bounded_by_max_hotness() {
    let module = loop_module();
    let paths = explore(&module, 0, 3, vec![]);
    assert!(paths.len() <= 4);
    let complete: Vec<&Execution> = paths.iter().filter(|p| p.status == Status::Complete).collect();
    let terminated: Vec<&Execution> =
        paths.iter().filter(|p| p.status == Status::Terminated).collect();
    assert_eq!(complete.len(), 3);
    assert_eq!(terminated.len(), 1);
    assert_eq!(complete.len() + terminated.len(), paths.len());
    for (rounds, path) in complete.iter().enumerate() {
        let n = model(&[("local0", rounds as u32)]);
        assert!(holds(&path.constraints, &n), "path {} with n = {}", path.id, rounds);
        assert_eq!(top_value(path, &n), rounds as i32);
        assert_eq!(path.constraints.len(), rounds + 1);
        for (block, count) in path.hotness.iter() {
            assert!(*count <= 3, "block {} entered {} times", block, count);
        }
        assert_eq!(path.hotness[&2], rounds + 1);
    }
    let cut = terminated[0];
    assert_eq!(cut.cur_block, 2);
    assert_eq!(cut.hotness[&2], 4);
    assert_eq!(cut.hotness[&0], 1);
    assert_eq!(cut.hotness[&1], 1);
    assert!(holds(&cut.constraints, &model(&[("local0", 3)])));
    assert!(holds(&cut.constraints, &model(&[("local0", 1000)])));
    assert!(!holds(&cut.constraints, &model(&[("local0", 2)])));
}

#[test]
fn loop_with_the_least_bound_exits_once_or_is_cut() {
    let module = loop_module();
    let paths = explore(&module, 0, 1, vec![]);
    assert_eq!(paths.len(), 2);
    assert_eq!(paths.iter().filter(|p| p.status == Status::Complete).count(), 1);
    assert_eq!(paths.iter().filter(|p| p.status == Status::Terminated).count(), 1);
    let none = explore(&module, 0, 0, vec![]);
    assert_eq!(none.len(), 1);
    assert_eq!(none[0].status, Status::Terminated);
    assert_eq!(none[0].hotness[&0], 1);
}

#[test]
fn load_beyond_memory_is_found() {
    let module = Module {
        funcs: vec![local("f", vec![], 0)],
        seqs: vec![seq(
            vec![
                Instr::Const { value: 65533 },
                Instr::Load { kind: LoadKind::I32, offset: 0 },
                Instr::Return,
            ],
            0,
        )],
        locals: vec![],
        memories: vec![MemoryDecl { initial: 1 }],
    };
    let paths = explore(&module, 0, 1, both_checks());
    assert_eq!(paths.len(), 1);
    let path = &paths[0];
    assert_eq!(path.status, Status::Complete);
    let Check::Memory(check) = &path.checks[1] else { panic!("second check") };
    assert_eq!(check.constraints.len(), 1);
    assert_eq!(check.constraints[0].0, 1);
    assert_eq!(check.constraints[0].1.to_text(), "(bvsge #x00010001 #x00010000)");
    assert!(check.constraints[0].1.decide(&Assignment::new()));
    let context = Context::new(&module);
    let answers = vec![Answer::Sat(Assignment::new())];
    match path.checks[1].run(&context, path, &vec![], &answers) {
        CheckResult::Fail(message) => {
            assert_eq!(message, "memory out of bounds @ +1 with inputs ")
        }
        other => panic!("{:?}", other),
    }
    assert_eq!(top_value(path, &Assignment::new()), 0);
}

#[test]
fn load_within_memory_is_not_reported() {
    let module = Module {
        funcs: vec![local("f", vec![], 0)],
        seqs: vec![seq(
            vec![
                Instr::Const { value: 65532 },
                Instr::Load { kind: LoadKind::I32, offset: 0 },
                Instr::Return,
            ],
            0,
        )],
        locals: vec![],
        memories: vec![MemoryDecl { initial: 1 }],
    };
    let paths = explore(&module, 0, 1, both_checks());
    let Check::Memory(check) = &paths[0].checks[1] else { panic!("second check") };
    assert_eq!(check.constraints.len(), 1);
    assert!(check.constraints[0].1.decide(&Assignment::new()));
    let shorter = Module {
        seqs: vec![seq(
            vec![
                Instr::Const { value: 65531 },
                Instr::Load { kind: LoadKind::I32, offset: 0 },
                Instr::Return,
            ],
            0,
        )],
        ..module
    };
    let paths = explore(&shorter, 0, 1, both_checks());
    let Check::Memory(check) = &paths[0].checks[1] else { panic!("second check") };
    assert!(!check.constraints[0].1.decide(&Assignment::new()));
}

/// `g(x) = x + 1`, `f(x) = g(x) * 2`
fn call_module() -> Module {
    Module {
        funcs: vec![local("f", vec![0], 0), local("g", vec![1], 1)],
        seqs: vec![
            seq(
                vec![
                    Instr::LocalGet { local: 0 },
                    Instr::Call { func: 1 },
                    Instr::Const { value: 2 },
                    Instr::Binop { op: BinaryOp::I32Mul },
                ],
                0,
            ),
            seq(
                vec![
                    Instr::LocalGet { local: 1 },
                    Instr::Const { value: 1 },
                    Instr::Binop { op: BinaryOp::I32Add },
                ],
                10,
            ),
        ],
        locals: vec![ValType::I32, ValType::I32],
        memories: vec![],
    }
}

#[test]
fn call_and_return_pass_values() {
    let module = call_module();
    let paths = explore(&module, 0, 1, both_checks());
    assert_eq!(paths.len(), 1);
    let path = &paths[0];
    assert_eq!(path.status, Status::Complete);
    assert_eq!(path.state.call_stack.len(), 1);
    assert_eq!(path.state.call_stack[0].value_stack.len(), 1);
    assert!(path.constraints.is_empty());
    for x in [0u32, 1, 20, 0x7fff_ffff, 0xffff_ffff] {
        let m = model(&[("local0", x)]);
        assert_eq!(top_value(path, &m), (x as i32).wrapping_add(1).wrapping_mul(2));
    }
    let Val::Sym(value) = path.state.call_stack[0].value_stack.last().unwrap() else {
        panic!("symbolic result")
    };
    assert_eq!(value.as_i32().to_text(), "(bvmul (bvadd local0 #x00000001) #x00000002)");
    assert_eq!(path.hotness[&0], 1);
    assert_eq!(path.hotness[&1], 1);
}

#[test]
fn initial_execution_is_seeded() {
    let module = Module {
        funcs: vec![local("f", vec![2, 0], 0)],
        seqs: vec![seq(
            vec![Instr::LocalGet { local: 1 }, Instr::LocalSet { local: 3 }, Instr::LocalGet { local: 2 }],
            0,
        )],
        locals: vec![ValType::I32, ValType::I32, ValType::I32, ValType::I32],
        memories: vec![MemoryDecl { initial: 7 }, MemoryDecl { initial: 2 }],
    };
    let context = Context::new(&module);
    let mut engine = Engine::new(&context);
    assert_eq!(engine.max_hotness, 1);
    engine.initialize();
    let body = as_local_func(&module.funcs[0]).unwrap();
    let first = engine.get_initial_execution(body, 0);
    let second = engine.get_initial_execution(body, 0);
    assert_eq!((first.id, second.id), (0, 1));
    assert_eq!(first.status, Status::Running);
    assert_eq!(first.cur_block, 0);
    assert_eq!(first.cur_location, None);
    assert!(!first.advance);
    assert!(first.constraints.is_empty() && first.checks.is_empty() && first.hotness.is_empty());
    let frame = &first.state.call_stack[0];
    assert_eq!(first.state.call_stack.len(), 1);
    assert_eq!(frame.func, 0);
    assert!(frame.ret.is_none());
    assert!(frame.value_stack.is_empty());
    assert_eq!(frame.locals.len(), 4);
    assert_eq!(frame.locals[&2].to_text(), "local2: i32");
    assert_eq!(frame.locals[&0].to_text(), "local0: i32");
    assert_eq!(frame.locals[&1].to_text(), "0: i32");
    assert_eq!(frame.locals[&3].to_text(), "0: i32");
    let memory = first.state.memory.as_ref().unwrap();
    assert_eq!(memory.size.to_text(), "2: i32");
    assert_eq!(memory.array.to_text(), "((as const (Array (_ BitVec 32) (_ BitVec 8))) (_ bv0 8))");
    let inputs = engine.get_inputs(body);
    assert_eq!(inputs.iter().map(|(id, _)| *id).collect::<Vec<_>>(), vec![2, 0]);
}

fn single(instrs: Vec<Instr>, locals: usize, memories: Vec<MemoryDecl>) -> Module {
    Module {
        funcs: vec![local("f", vec![], 0)],
        seqs: vec![seq(instrs, 0)],
        locals: vec![ValType::I32; locals],
        memories,
    }
}

fn run_single(module: &Module) -> Result<Vec<Execution>, Fault> {
    let context = Context::new(module);
    let mut engine = Engine::new(&context);
    engine.initialize();
    let body = as_local_func(&module.funcs[0]).unwrap();
    engine.get_func_executions(body, 0, None)
}

#[test]
fn faults_stop_the_engine() {
    let underflow = [
        vec![Instr::Drop],
        vec![Instr::Const { value: 1 }, Instr::Binop { op: BinaryOp::I32Add }],
        vec![Instr::Unop { op: UnaryOp::I32Eqz }],
        vec![Instr::Const { value: 1 }, Instr::Const { value: 1 }, Instr::Select],
        vec![Instr::LocalSet { local: 0 }],
        vec![Instr::LocalTee { local: 0 }],
        vec![Instr::BrIf { block: 0 }],
        vec![Instr::Const { value: 0 }, Instr::Store { kind: StoreKind::I32, offset: 0 }],
        vec![Instr::Load { kind: LoadKind::I32, offset: 0 }],
        vec![Instr::MemoryGrow],
    ];
    for instrs in underflow {
        let module = single(instrs.clone(), 1, vec![MemoryDecl { initial: 1 }]);
        assert_eq!(run_single(&module).err(), Some(Fault::StackUnderflow), "{:?}", instrs);
    }
    let no_memory = [
        vec![Instr::MemorySize],
        vec![Instr::Const { value: 0 }, Instr::MemoryGrow],
        vec![Instr::Const { value: 0 }, Instr::Load { kind: LoadKind::I32, offset: 0 }],
        vec![
            Instr::Const { value: 0 },
            Instr::Const { value: 0 },
            Instr::Store { kind: StoreKind::I32_8, offset: 0 },
        ],
    ];
    for instrs in no_memory {
        let module = single(instrs.clone(), 1, vec![]);
        assert_eq!(run_single(&module).err(), Some(Fault::NoMemory), "{:?}", instrs);
    }
    for instr in [
        Instr::MemoryGrow,
        Instr::Load { kind: LoadKind::I32, offset: 0 },
        Instr::Store { kind: StoreKind::I32, offset: 0 },
    ] {
        let module = single(vec![instr], 1, vec![]);
        assert_eq!(run_single(&module).err(), Some(Fault::NoMemory), "{:?}", instr);
    }
    let module = Module {
        funcs: vec![local("f", vec![], 0), local("g", vec![0], 1)],
        seqs: vec![seq(vec![Instr::Call { func: 1 }], 0), seq(vec![Instr::LocalGet { local: 1 }], 10)],
        locals: vec![ValType::I32, ValType::I32],
        memories: vec![],
    };
    assert_eq!(run_single(&module).err(), Some(Fault::StackUnderflow));
    let unknown = Module {
        funcs: vec![local("f", vec![], 0), local("g", vec![], 1)],
        seqs: vec![seq(vec![Instr::LocalGet { local: 0 }], 0), seq(vec![Instr::Return], 10)],
        locals: vec![ValType::I32],
        memories: vec![],
    };
    let context = Context::new(&unknown);
    let mut engine = Engine::new(&context);
    engine.initialize();
    let other = as_local_func(&unknown.funcs[1]).unwrap();
    let mut seed = engine.get_initial_execution(other, 1);
    seed.cur_block = 0;
    let body = as_local_func(&unknown.funcs[0]).unwrap();
    assert_eq!(engine.get_func_executions(body, 0, Some(seed)).err(), Some(Fault::UnknownLocal));
}

#[test]
fn straight_line_instructions() {
    let module = single(
        vec![
            Instr::Const { value: 7 },
            Instr::LocalTee { local: 0 },
            Instr::Drop,
            Instr::GlobalSet { global: 0 },
            Instr::GlobalGet { global: 3 },
            Instr::LocalSet { local: 1 },
            Instr::LocalGet { local: 0 },
            Instr::LocalGet { local: 1 },
            Instr::Unop { op: UnaryOp::I32Eqz },
            Instr::Binop { op: BinaryOp::I32Add },
            Instr::MemorySize,
            Instr::Const { value: 3 },
            Instr::MemoryGrow,
            Instr::MemorySize,
        ],
        2,
        vec![MemoryDecl { initial: 2 }],
    );
    let paths = run_single(&module).unwrap();
    assert_eq!(paths.len(), 1);
    assert_eq!(paths[0].status, Status::Complete);
    let stack: Vec<String> =
        paths[0].state.call_stack[0].value_stack.iter().map(|v| v.to_text()).collect();
    assert_eq!(stack, vec!["8: i32", "2: i32", "3: i32", "5: i32"]);
    assert_eq!(paths[0].state.call_stack[0].locals[&0].to_text(), "7: i32");
    assert_eq!(paths[0].state.call_stack[0].locals[&1].to_text(), "0: i32");
}

#[test]
fn select_takes_the_first_operand_on_zero() {
    let module = single(
        vec![
            Instr::Const { value: 11 },
            Instr::Const { value: 22 },
            Instr::Const { value: 0 },
            Instr::Select,
            Instr::Const { value: 11 },
            Instr::Const { value: 22 },
            Instr::Const { value: 5 },
            Instr::Select,
        ],
        0,
        vec![],
    );
    let paths = run_single(&module).unwrap();
    let stack = &paths[0].state.call_stack[0].value_stack;
    assert_eq!(stack.len(), 2);
    let empty = Assignment::new();
    let value = |v: &Val| match v {
        Val::Sym(s) => of_bits(s.as_i32().value(&empty).0),
        Val::Conc(c) => c.as_i32(),
    };
    assert!(matches!(stack[0], Val::Sym(_)));
    assert_eq!(value(&stack[0]), 11);
    assert_eq!(value(&stack[1]), 22);
}

#[test]
fn memory_instructions_round_trip() {
    let module = Module {
        funcs: vec![local("f", vec![0, 1], 0)],
        seqs: vec![seq(
            vec![
                Instr::LocalGet { local: 0 },
                Instr::LocalGet { local: 1 },
                Instr::Store { kind: StoreKind::I32, offset: 4 },
                Instr::LocalGet { local: 0 },
                Instr::Load { kind: LoadKind::I32, offset: 4 },
                Instr::LocalGet { local: 0 },
                Instr::Load { kind: LoadKind::I32_8 { kind: ExtendedLoad::ZeroExtend }, offset: 4 },
                Instr::LocalGet { local: 0 },
                Instr::Load { kind: LoadKind::I32_8 { kind: ExtendedLoad::SignExtend }, offset: 5 },
                Instr::LocalGet { local: 0 },
                Instr::Load { kind: LoadKind::I32_16 { kind: ExtendedLoad::ZeroExtend }, offset: 6 },
                Instr::LocalGet { local: 0 },
                Instr::Load { kind: LoadKind::I32_16 { kind: ExtendedLoad::SignExtend }, offset: 5 },
                Instr::LocalGet { local: 0 },
                Instr::Load { kind: LoadKind::I32, offset: 8 },
            ],
            0,
        )],
        locals: vec![ValType::I32, ValType::I32],
        memories: vec![MemoryDecl { initial: 1 }],
    };
    let paths = explore(&module, 0, 1, vec![]);
    assert_eq!(paths.len(), 1);
    let stack = &paths[0].state.call_stack[0].value_stack;
    assert_eq!(stack.len(), 6);
    for (address, word) in [(0u32, 0x1234_5678u32), (0xffff_fffa, 0x80ff_7f01), (100, 0xdead_beef)] {
        let m = model(&[("local0", address), ("local1", word)]);
        let values: Vec<u32> = stack
            .iter()
            .map(|v| match v {
                Val::Sym(s) => s.as_i32().value(&m).0,
                Val::Conc(c) => c.as_i32() as u32,
            })
            .collect();
        let bytes = word.to_le_bytes();
        assert_eq!(values[0], word);
        assert_eq!(values[1], bytes[0] as u32);
        assert_eq!(values[2], bytes[1] as i8 as i32 as u32);
        assert_eq!(values[3], u16::from_le_bytes([bytes[2], bytes[3]]) as u32);
        assert_eq!(values[4], i16::from_le_bytes([bytes[1], bytes[2]]) as i32 as u32);
        assert_eq!(values[5], 0);
    }
}

#[test]
fn concrete_branches_do_not_fork() {
    let module = Module {
        funcs: vec![local("f", vec![], 0)],
        seqs: vec![
            seq(vec![Instr::Block { seq: 1 }, Instr::Const { value: 9 }], 0),
            seq(
                vec![
                    Instr::Const { value: 0 },
                    Instr::BrIf { block: 1 },
                    Instr::Const { value: 1 },
                    Instr::BrIf { block: 1 },
                    Instr::Const { value: 5 },
                    Instr::Const { value: 0 },
                    Instr::Binop { op: BinaryOp::I32DivS },
                ],
                10,
            ),
        ],
        locals: vec![],
        memories: vec![],
    };
    let paths = run_single(&module).unwrap();
    assert_eq!(paths.len(), 1);
    assert_eq!(paths[0].status, Status::Complete);
    assert_eq!(paths[0].id, 0);
    let stack: Vec<String> =
        paths[0].state.call_stack[0].value_stack.iter().map(|v| v.to_text()).collect();
    assert_eq!(stack, vec!["9: i32"]);
}

#[test]
fn symbolic_branch_enqueues_the_taken_fork_first() {
    let module = Module {
        funcs: vec![local("f", vec![0], 0)],
        seqs: vec![
            seq(vec![Instr::Block { seq: 1 }, Instr::Const { value: 9 }], 0),
            seq(
                vec![Instr::LocalGet { local: 0 }, Instr::BrIf { block: 1 }, Instr::Const { value: 4 }, Instr::Return],
                10,
            ),
        ],
        locals: vec![ValType::I32],
        memories: vec![],
    };
    let paths = run_single(&module).unwrap();
    assert_eq!(paths.len(), 2);
    let fall = paths.iter().find(|p| p.id == 0).unwrap();
    let fork = paths.iter().find(|p| p.id == 1).unwrap();
    assert_eq!(fall.constraints[0].to_text(), "(= local0 #x00000000)");
    assert_eq!(fork.constraints[0].to_text(), "(not (= local0 #x00000000))");
    assert_eq!(top_value(fall, &Assignment::new()), 4);
    assert_eq!(top_value(fork, &Assignment::new()), 9);
    for x in [0u32, 1, 0xffff_ffff] {
        let m = model(&[("local0", x)]);
        assert!(holds(&fall.constraints, &m) != holds(&fork.constraints, &m));
    }
}

#[test]
fn branch_out_of_the_function_completes() {
    let module = Module {
        funcs: vec![local("f", vec![0], 0)],
        seqs: vec![
            seq(vec![Instr::Const { value: 1 }, Instr::Block { seq: 1 }], 0),
            seq(vec![Instr::LocalGet { local: 0 }, Instr::BrIf { block: 0 }, Instr::Const { value: 2 }], 10),
        ],
        locals: vec![ValType::I32],
        memories: vec![],
    };
    let paths = run_single(&module).unwrap();
    assert_eq!(paths.len(), 2);
    assert!(paths.iter().all(|p| p.status == Status::Complete));
    let fork = paths.iter().find(|p| p.id == 1).unwrap();
    let fall = paths.iter().find(|p| p.id == 0).unwrap();
    assert_eq!(fork.state.call_stack[0].value_stack.len(), 1);
    assert_eq!(fall.state.call_stack[0].value_stack.len(), 2);
}

#[test]
fn a_finished_execution_is_handed_out_unchanged() {
    let module = division_module();
    let context = Context::new(&module);
    let mut engine = Engine::new(&context);
    engine.initialize();
    let body = as_local_func(&module.funcs[0]).unwrap();
    let mut seed = engine.get_initial_execution(body, 0);
    seed.status = Status::Terminated;
    let out = engine.step_execution(seed).unwrap().unwrap();
    assert_eq!(out.status, Status::Terminated);
    assert!(out.hotness.is_empty());
    assert!(engine.executions.is_empty());
    let seed = engine.get_initial_execution(body, 0);
    engine.push_execution(seed);
    assert_eq!(engine.executions.len(), 1);
    let done = engine.collect_executions().unwrap();
    assert_eq!(done.len(), 1);
    assert!(engine.executions.is_empty());
}

#[test]
fn analysis_lists_paths_and_keeps_the_finished() {
    let module = loop_module();
    let context = Context::new(&module);
    let mut engine = Engine::new(&context);
    engine.initialize();
    engine.set_max_hotness(2);
    engine.add_check(Check::DivisionByZero(DivisionByZeroCheck::new()));
    let body = as_local_func(&module.funcs[0]).unwrap();
    let analysis = engine.analyze_func(body, 0, "f").unwrap();
    assert_eq!(analysis.title.text, "f");
    assert_eq!(analysis.paths.len(), 4);
    assert_eq!(analysis.paths[0].text, "  Collected 3 Execution Paths");
    assert_eq!(analysis.completed.len(), 2);
    assert!(analysis.completed.iter().all(|p| p.status == Status::Complete));
    assert_eq!(analysis.inputs.len(), 1);
    assert_eq!(analysis.paths.iter().filter(|l| l.text.starts_with("    ✗ Terminated #")).count(), 1);
}

#[test]
fn unsupported_instructions_stop_the_engine_when_they_are_met() {
    let module = Module {
        funcs: vec![local("f", vec![0], 0)],
        seqs: vec![
            seq(vec![Instr::LocalGet { local: 0 }, Instr::IfElse { consequent: 1, alternative: 2 }], 0),
            seq(vec![Instr::Const { value: 1 }, Instr::Return], 10),
            seq(vec![Instr::Unsupported], 20),
        ],
        locals: vec![ValType::I32],
        memories: vec![],
    };
    assert!(module.check());
    assert_eq!(run_single(&module).err(), Some(Fault::Unimplemented));
    let unreached = Module {
        funcs: vec![local("f", vec![], 0)],
        seqs: vec![seq(vec![Instr::Return, Instr::Unsupported], 0)],
        locals: vec![],
        memories: vec![],
    };
    let paths = run_single(&unreached).unwrap();
    assert_eq!(paths.len(), 1);
    assert_eq!(paths[0].status, Status::Complete);
}

#[test]
fn calls_without_a_body_or_with_other_types_stop_the_engine() {
    let import = Module {
        funcs: vec![
            local("f", vec![], 0),
            Function { name: Some(String::from("env.log")), kind: FunctionKind::Import },
        ],
        seqs: vec![seq(vec![Instr::Call { func: 1 }], 0)],
        locals: vec![],
        memories: vec![],
    };
    assert!(import.check());
    assert_eq!(run_single(&import).err(), Some(Fault::NoBody));

    let wide = Module {
        funcs: vec![local("f", vec![], 0), local("g", vec![1], 1), local("h", vec![], 2)],
        seqs: vec![
            seq(vec![Instr::Const { value: 1 }, Instr::Call { func: 1 }], 0),
            seq(vec![Instr::Return], 10),
            seq(vec![Instr::LocalGet { local: 7 }], 20),
        ],
        locals: vec![ValType::I32, ValType::I64],
        memories: vec![],
    };
    assert!(wide.check());
    assert!(wide.local_ok(0));
    assert!(!wide.local_ok(1));
    assert!(!wide.local_ok(2));
    assert_eq!(run_single(&wide).err(), Some(Fault::UnsupportedType));
    let context = Context::new(&wide);
    let mut engine = Engine::new(&context);
    engine.initialize();
    assert!(engine.callable(0));
    assert!(!engine.callable(1));
    assert!(!engine.callable(2));
    let context = Context::new(&import);
    let mut engine = Engine::new(&context);
    engine.initialize();
    assert!(engine.callable(0));
    assert!(!engine.callable(1));
}

#[test]
fn a_branch_to_an_arm_with_an_end_stops_the_engine() {
    let module = Module {
        funcs: vec![local("f", vec![], 0)],
        seqs: vec![
            seq(
                vec![
                    Instr::Const { value: 1 },
                    Instr::Block { seq: 1 },
                    Instr::Const { value: 3 },
                ],
                0,
            ),
            seq(vec![Instr::Const { value: 0 }, Instr::IfElse { consequent: 2, alternative: 3 }, Instr::Drop], 10),
            seq(vec![Instr::Br { block: 2 }], 20),
            seq(vec![Instr::Br { block: 3 }], 30),
        ],
        locals: vec![],
        memories: vec![],
    };
    assert!(module.check());
    let context = Context::new(&module);
    let mut engine = Engine::new(&context);
    engine.initialize();
    let body = as_local_func(&module.funcs[0]).unwrap();
    let mut seed = engine.get_initial_execution(body, 0);
    seed.cur_block = 2;
    assert_eq!(engine.get_func_executions(body, 0, Some(seed)).err(), Some(Fault::UnknownKind));
}

#[test]
fn modules_are_checked_for_their_shape() {
    assert!(division_module().check());
    assert!(conditional_module().check());
    assert!(loop_module().check());
    assert!(call_module().check());
    let bad = |instrs: Vec<Instr>| Module {
        funcs: vec![local("f", vec![], 0)],
        seqs: vec![seq(vec![Instr::Block { seq: 1 }], 0), seq(instrs, 10)],
        locals: vec![],
        memories: vec![],
    };
    assert!(bad(vec![Instr::Br { block: 0 }, Instr::BrIf { block: 1 }, Instr::Call { func: 0 }]).check());
    assert!(!bad(vec![Instr::Block { seq: 1 }]).check());
    assert!(!bad(vec![Instr::Loop { seq: 0 }]).check());
    assert!(!bad(vec![Instr::Loop { seq: 2 }]).check());
    assert!(!bad(vec![Instr::IfElse { consequent: 2, alternative: 1 }]).check());
    assert!(!bad(vec![Instr::Br { block: 2 }]).check());
    assert!(!bad(vec![Instr::BrIf { block: 2 }]).check());
    assert!(!bad(vec![Instr::Call { func: 1 }]).check());
    let no_entry = Module { funcs: vec![local("f", vec![], 2)], ..bad(vec![]) };
    assert!(!no_entry.check());
}

fn concrete_conditional_module(condition: i32) -> Module {
    Module {
        funcs: vec![local("f", vec![], 0)],
        seqs: vec![
            seq(
                vec![
                    Instr::Const { value: condition },
                    Instr::IfElse { consequent: 1, alternative: 2 },
                    Instr::Const { value: 7 },
                ],
                0,
            ),
            seq(vec![Instr::Const { value: 100 }], 10),
            seq(vec![Instr::Const { value: 200 }], 20),
        ],
        locals: vec![],
        memories: vec![],
    }
}

#[test]
fn a_concrete_conditional_runs_the_chosen_arm() {
    for (condition, arm, pushed) in [(1, 1usize, "100: i32"), (-5, 1, "100: i32"), (0, 2, "200: i32")] {
        let module = concrete_conditional_module(condition);
        let paths = run_single(&module).unwrap();
        assert_eq!(paths.len(), 1);
        let path = &paths[0];
        assert_eq!(path.status, Status::Complete);
        assert_eq!(path.id, 0);
        assert!(path.constraints.is_empty());
        assert_eq!(path.cur_block, 0);
        assert_eq!(path.cur_location, Some(2));
        let stack: Vec<String> =
            path.state.call_stack[0].value_stack.iter().map(|v| v.to_text()).collect();
        assert_eq!(stack, vec![pushed, "7: i32"]);
        assert_eq!(path.hotness.len(), 2);
        assert_eq!(path.hotness[&0], 1);
        assert_eq!(path.hotness[&arm], 1);
    }
}

#[test]
fn a_concrete_conditional_moves_to_the_start_of_the_arm() {
    let module = concrete_conditional_module(1);
    let context = Context::new(&module);
    let mut engine = Engine::new(&context);
    engine.initialize();
    let body = as_local_func(&module.funcs[0]).unwrap();
    let seed = engine.get_initial_execution(body, 0);
    assert!(matches!(engine.step_execution(seed), Ok(None)));
    assert_eq!(engine.executions.len(), 1);
    let moved = engine.executions.pop_front().unwrap();
    assert_eq!(moved.status, Status::Running);
    assert_eq!((moved.cur_block, moved.cur_location), (1, None));
    assert!(moved.state.call_stack[0].value_stack.is_empty());
    assert!(moved.constraints.is_empty());
    assert!(matches!(engine.step_execution(moved), Ok(None)));
    let back = engine.executions.pop_front().unwrap();
    assert_eq!((back.cur_block, back.cur_location), (0, Some(2)));
    let stack: Vec<String> =
        back.state.call_stack[0].value_stack.iter().map(|v| v.to_text()).collect();
    assert_eq!(stack, vec!["100: i32"]);
}

#[test]
fn a_call_returns_to_the_instruction_after_it() {
    let module = Module {
        funcs: vec![local("f", vec![], 0), local("g", vec![0, 1], 1)],
        seqs: vec![
            seq(
                vec![
                    Instr::Const { value: 5 },
                    Instr::Const { value: 20 },
                    Instr::Const { value: 3 },
                    Instr::Call { func: 1 },
                    Instr::Binop { op: BinaryOp::I32Add },
                ],
                0,
            ),
            seq(
                vec![
                    Instr::LocalGet { local: 0 },
                    Instr::LocalGet { local: 1 },
                    Instr::Binop { op: BinaryOp::I32Sub },
                    Instr::LocalGet { local: 2 },
                ],
                10,
            ),
        ],
        locals: vec![ValType::I32, ValType::I32, ValType::I32],
        memories: vec![],
    };
    let context = Context::new(&module);
    let mut engine = Engine::new(&context);
    engine.initialize();
    let body = as_local_func(&module.funcs[0]).unwrap();
    let seed = engine.get_initial_execution(body, 0);
    let none = engine.step_execution(seed).unwrap();
    assert!(none.is_none());
    assert_eq!(engine.executions.len(), 1);
    let called = &engine.executions[0];
    assert_eq!(called.state.call_stack.len(), 2);
    assert_eq!((called.cur_block, called.cur_location), (1, None));
    let frame = &called.state.call_stack[1];
    assert_eq!(frame.func, 1);
    assert_eq!(frame.ret.map(|r| (r.block, r.loc)), Some((0, 3)));
    assert_eq!(frame.locals[&0].to_text(), "20: i32");
    assert_eq!(frame.locals[&1].to_text(), "3: i32");
    assert_eq!(frame.locals[&2].to_text(), "0: i32");
    assert_eq!(called.state.call_stack[0].value_stack.len(), 1);
    let done = engine.collect_executions().unwrap();
    assert_eq!(done.len(), 1);
    assert_eq!(done[0].status, Status::Complete);
    let stack: Vec<String> =
        done[0].state.call_stack[0].value_stack.iter().map(|v| v.to_text()).collect();
    assert_eq!(stack, vec!["5: i32", "17: i32"]);
    assert!(!done[0].advance);
}

#[test]
fn resuming_in_a_sequence_that_was_never_entered_stops_the_engine() {
    let module = division_module();
    let context = Context::new(&module);
    let mut engine = Engine::new(&context);
    engine.initialize();
    let body = as_local_func(&module.funcs[0]).unwrap();
    let mut seed = engine.get_initial_execution(body, 0);
    seed.cur_location = Some(101);
    assert_eq!(engine.get_func_executions(body, 0, Some(seed)).err(), Some(Fault::NotEntered));

    let mut seed = engine.get_initial_execution(body, 0);
    seed.cur_location = Some(101);
    seed.hotness.insert(0, 1);
    seed.state.call_stack[0].value_stack.push(Val::Conc(ConcVal(10)));
    let paths = engine.get_func_executions(body, 0, Some(seed)).unwrap();
    assert_eq!(paths.len(), 1);
    assert_eq!(paths[0].status, Status::Complete);
    assert_eq!(paths[0].hotness[&0], 1);

    let entered = Module {
        funcs: vec![local("f", vec![], 0), local("g", vec![], 3)],
        seqs: vec![
            seq(
                vec![
                    Instr::Const { value: 1 },
                    Instr::IfElse { consequent: 1, alternative: 2 },
                    Instr::Call { func: 1 },
                ],
                0,
            ),
            seq(vec![], 10),
            seq(vec![], 20),
            seq(vec![Instr::Const { value: 4 }], 30),
        ],
        locals: vec![],
        memories: vec![],
    };
    let paths = run_single(&entered).unwrap();
    assert_eq!(paths.len(), 1);
    assert_eq!(paths[0].status, Status::Complete);
    let stack: Vec<String> =
        paths[0].state.call_stack[0].value_stack.iter().map(|v| v.to_text()).collect();
    assert_eq!(stack, vec!["4: i32"]);
}

#[test]
fn identifiers_of_a_run_are_pairwise_distinct() {
    for bound in [1usize, 2, 3, 5] {
        let paths = explore(&loop_module(), 0, bound, vec![]);
        assert_eq!(paths.len(), bound + 1);
        let mut ids: Vec<usize> = paths.iter().map(|p| p.id).collect();
        assert!(ids.iter().all(|id| *id <= bound));
        ids.sort();
        ids.dedup();
        assert_eq!(ids.len(), paths.len());
    }
    let paths = explore(&conditional_module(), 0, 1, both_checks());
    assert_eq!(paths.iter().map(|p| p.id).collect::<Vec<usize>>(), vec![1, 2]);
}

#[test]
fn a_fork_takes_an_identifier_above_its_source() {
    let module = loop_module();
    let context = Context::new(&module);
    let mut engine = Engine::new(&context);
    engine.initialize();
    engine.set_max_hotness(2);
    let body = as_local_func(&module.funcs[0]).unwrap();
    let seed = engine.get_initial_execution(body, 0);
    assert_eq!(seed.id, 0);
    assert_eq!(engine.next_id, 1);
    engine.executions.push_back(seed);
    let mut seen: Vec<usize> = vec![0];
    while let Some(next) = engine.executions.pop_front() {
        let source = next.id;
        let before: Vec<usize> = engine.executions.iter().map(|e| e.id).collect();
        let counter = engine.next_id;
        let handed = engine.step_execution(next).unwrap();
        if let Some(done) = &handed {
            assert_eq!(done.id, source);
        }
        let after: Vec<usize> = engine.executions.iter().map(|e| e.id).collect();
        assert_eq!(&after[..before.len()], &before[..]);
        for id in &after[before.len()..] {
            if *id != source {
                assert!(*id > source);
                assert!(*id >= counter && *id < engine.next_id);
                assert!(!seen.contains(id));
                seen.push(*id);
            }
        }
    }
    assert_eq!(seen.len(), engine.next_id);
}

#[test]
fn a_terminated_execution_has_one_counter_past_the_bound() {
    for bound in [0usize, 1, 2, 4] {
        let paths = explore(&loop_module(), 0, bound, vec![]);
        let mut cut = 0;
        for path in &paths {
            let over: Vec<(&usize, &usize)> =
                path.hotness.iter().filter(|(_, count)| **count > bound).collect();
            if path.status == Status::Terminated {
                cut += 1;
                assert_eq!(over.len(), 1);
                assert_eq!(*over[0].0, path.cur_block);
                assert_eq!(*over[0].1, bound + 1);
                assert_eq!(path.cur_location, None);
            } else {
                assert!(over.is_empty());
            }
        }
        assert_eq!(cut, 1);
    }
}

#[test]
fn an_entry_past_the_bound_runs_no_instruction() {
    let module = division_module();
    let context = Context::new(&module);
    let mut engine = Engine::new(&context);
    engine.initialize();
    engine.set_max_hotness(2);
    engine.add_check(Check::DivisionByZero(DivisionByZeroCheck::new()));
    let body = as_local_func(&module.funcs[0]).unwrap();
    let mut seed = engine.get_initial_execution(body, 0);
    seed.add_check(Check::DivisionByZero(DivisionByZeroCheck::new()));
    seed.hotness.insert(0, 2);
    let counter = engine.next_id;
    let cut = engine.step_execution(seed).unwrap().unwrap();
    assert_eq!(cut.status, Status::Terminated);
    assert_eq!(cut.hotness[&0], 3);
    assert_eq!(cut.hotness.len(), 1);
    assert_eq!((cut.cur_block, cut.cur_location), (0, None));
    assert!(cut.state.call_stack[0].value_stack.is_empty());
    assert!(cut.constraints.is_empty());
    let Check::DivisionByZero(div) = &cut.checks[0] else { panic!("check") };
    assert!(div.constraints.is_empty());
    assert!(engine.executions.is_empty());
    assert_eq!(engine.next_id, counter);
}
