use wasymex::checks::Check;
use wasymex::context::Context;
use wasymex::engine::{as_local_func, Engine};
use wasymex::ir::{
    BinaryOp, ExtendedLoad, Function, FunctionKind, Instr, InstrSeq, LoadKind,
    LocalFunction, MemoryDecl, Module, ValType,
};
use wasymex::memory::{Memory, PAGE_SIZE};
use wasymex::model::Assignment;
use wasymex::state::Status;
use wasymex::term::{ArrayTerm, BoolTerm, BvTerm, Rel};
use wasymex::value::{ConcVal, SymVal, Val};

fn empty_module() -> Module {
    Module { funcs: vec![], seqs: vec![], locals: vec![], memories: vec![] }
}

fn var(name: &str) -> Val {
    Val::Sym(SymVal::I32(BvTerm::Var { name: String::from(name), width: 32 }))
}

fn model(entries: &[(&str, u32)]) -> Assignment {
    Assignment { entries: entries.iter().map(|(n, v)| (String::from(*n), *v)).collect() }
}

fn bits(val: &Val, model: &Assignment) -> u32 {
    match val {
        Val::Sym(s) => {
            assert_eq!(s.as_i32().shape(), Some(32));
            s.as_i32().value(model).0
        }
        Val::Conc(c) => c.as_i32() as u32,
    }
}

#[test]
fn page_size_is_65536() {
    assert_eq!(PAGE_SIZE, 65536);
}

#[test]
fn new_memory_reads_zero_everywhere() {
    let module = empty_module();
    let context = Context::new(&module);
    let engine = Engine::new(&context);
    let memory = Memory::new(3);
    assert_eq!(memory.size.to_text(), "3: i32");
    assert!(matches!(memory.array, ArrayTerm::Fill { byte: 0 }));
    let empty = Assignment::new();
    for address in [0, 1, 65535, -1, i32::MIN] {
        let loaded = engine.do_load(&memory, &Val::Conc(ConcVal(address)), 32, 32, false);
        assert_eq!(bits(&loaded, &empty), 0);
    }
    let huge = Memory::new(0xffff_ffff);
    assert_eq!(huge.size.to_text(), "-1: i32");
}

#[test]
fn store_then_load_gives_the_value_back() {
    let module = empty_module();
    let context = Context::new(&module);
    let engine = Engine::new(&context);
    let samples = [0u32, 1, 0x7f, 0x80, 0xff, 0x7fff, 0x8000, 0xffff, 0x1234_5678, 0x8000_0000, 0xffff_ffff];
    for address in [0u32, 1, 0xfffe, 0xffff_fffd, 0xffff_ffff] {
        for value in samples {
            let m = model(&[("a", address), ("v", value)]);
            for symbolic in [false, true] {
                let (base, val) = if symbolic {
                    (var("a"), var("v"))
                } else {
                    (Val::Conc(ConcVal(address as i32)), Val::Conc(ConcVal(value as i32)))
                };
                let mut memory = Memory::new(1);
                engine.do_store(&mut memory, &base, val.clone(), 32);
                assert!(memory.array.shape());
                assert_eq!(bits(&engine.do_load(&memory, &base, 32, 32, false), &m), value);
                assert_eq!(bits(&engine.do_load(&memory, &base, 32, 32, true), &m), value);

                let mut memory = Memory::new(1);
                engine.do_store(&mut memory, &base, val.clone(), 16);
                assert_eq!(bits(&engine.do_load(&memory, &base, 16, 32, true), &m), value & 0xffff);
                assert_eq!(
                    bits(&engine.do_load(&memory, &base, 16, 32, false), &m),
                    value as u16 as i16 as i32 as u32
                );
                assert_eq!(bits(&engine.do_load(&memory, &base, 32, 32, false), &m), value & 0xffff);

                let mut memory = Memory::new(1);
                engine.do_store(&mut memory, &base, val, 8);
                assert_eq!(bits(&engine.do_load(&memory, &base, 8, 32, true), &m), value & 0xff);
                assert_eq!(
                    bits(&engine.do_load(&memory, &base, 8, 32, false), &m),
                    value as u8 as i8 as i32 as u32
                );
            }
        }
    }
}

#[test]
fn bytes_are_stored_lowest_first() {
    let module = empty_module();
    let context = Context::new(&module);
    let engine = Engine::new(&context);
    let mut memory = Memory::new(1);
    let base = Val::Conc(ConcVal(16));
    engine.do_store(&mut memory, &base, Val::Conc(ConcVal(0x0403_0201)), 32);
    let empty = Assignment::new();
    for i in 0..4u32 {
        assert_eq!(memory.array.byte(&empty, 16 + i), (i + 1) as u8);
        let at = Val::Conc(ConcVal(16 + i as i32));
        assert_eq!(bits(&engine.do_load(&memory, &at, 8, 32, true), &empty), i + 1);
    }
    assert_eq!(memory.array.byte(&empty, 15), 0);
    assert_eq!(memory.array.byte(&empty, 20), 0);
    let next = Val::Conc(ConcVal(17));
    assert_eq!(bits(&engine.do_load(&memory, &next, 16, 32, true), &empty), 0x0302);
    assert_eq!(bits(&engine.do_load(&memory, &next, 32, 32, true), &empty), 0x0004_0302);
    engine.do_store(&mut memory, &next, Val::Conc(ConcVal(-1)), 8);
    assert_eq!(bits(&engine.do_load(&memory, &base, 32, 32, true), &empty), 0x0403_ff01);
    assert_eq!(memory.size.to_text(), "1: i32");
    let wide = engine.do_load(&memory, &base, 8, 16, true);
    let Val::Sym(term) = &wide else { panic!("symbolic") };
    assert_eq!(term.as_i32().shape(), Some(16));
    let same = engine.do_load(&memory, &base, 8, 8, false);
    let Val::Sym(term) = &same else { panic!("symbolic") };
    assert_eq!(term.as_i32().shape(), Some(8));
}

/// Folds five bytes from address 0 on into `acc = acc * 31 + byte`.
fn checksum_module() -> Module {
    let body = vec![
        Instr::LocalGet { local: 0 },
        Instr::Const { value: 5 },
        Instr::Binop { op: BinaryOp::I32GeS },
        Instr::BrIf { block: 1 },
        Instr::LocalGet { local: 1 },
        Instr::Const { value: 31 },
        Instr::Binop { op: BinaryOp::I32Mul },
        Instr::LocalGet { local: 0 },
        Instr::Load { kind: LoadKind::I32_8 { kind: ExtendedLoad::ZeroExtend }, offset: 0 },
        Instr::Binop { op: BinaryOp::I32Add },
        Instr::LocalSet { local: 1 },
        Instr::LocalGet { local: 0 },
        Instr::Const { value: 1 },
        Instr::Binop { op: BinaryOp::I32Add },
        Instr::LocalSet { local: 0 },
        Instr::Br { block: 2 },
    ];
    let seq = |instrs: Vec<Instr>, first: u32| InstrSeq {
        instrs: instrs.into_iter().enumerate().map(|(i, x)| (x, first + i as u32)).collect(),
    };
    Module {
        funcs: vec![Function {
            name: Some(String::from("checksum")),
            kind: FunctionKind::Local(LocalFunction { args: vec![], entry: 0 }),
        }],
        seqs: vec![
            seq(vec![Instr::Block { seq: 1 }, Instr::LocalGet { local: 1 }], 0),
            seq(vec![Instr::Loop { seq: 2 }], 10),
            seq(body, 20),
        ],
        locals: vec![ValType::I32, ValType::I32],
        memories: vec![MemoryDecl { initial: 1 }],
    }
}

#[test]
fn checksum_of_symbolic_bytes_is_recovered_by_its_model() {
    let module = checksum_module();
    let context = Context::new(&module);
    let mut engine = Engine::new(&context);
    engine.initialize();
    engine.set_max_hotness(7);
    let body = as_local_func(&module.funcs[0]).unwrap();
    let mut initial = engine.get_initial_execution(body, 0);
    let memory = initial.state.memory.as_mut().unwrap();
    for i in 0..5u32 {
        let array = std::mem::replace(&mut memory.array, ArrayTerm::Fill { byte: 0 });
        memory.array = ArrayTerm::Store {
            array: Box::new(array),
            index: Box::new(BvTerm::Lit { value: i, width: 32 }),
            value: Box::new(BvTerm::Var { name: format!("pwd{}", i), width: 8 }),
        };
    }
    let paths = engine.get_func_executions(body, 0, Some(initial)).unwrap();
    assert_eq!(paths.len(), 1);
    let path = &paths[0];
    assert_eq!(path.status, Status::Complete);
    assert!(path.constraints.is_empty());
    assert_eq!(path.hotness[&2], 6);
    let Val::Sym(result) = path.state.call_stack[0].value_stack.last().unwrap() else {
        panic!("symbolic checksum")
    };
    let checksum = |word: &[u8]| word.iter().fold(0u32, |acc, b| acc.wrapping_mul(31).wrapping_add(*b as u32));
    let assign = |word: &[u8]| Assignment {
        entries: word.iter().enumerate().map(|(i, b)| (format!("pwd{}", i), *b as u32)).collect(),
    };
    for word in [b"hello", b"world", b"aaaaa", b"zzzzz"] {
        assert_eq!(result.as_i32().value(&assign(word)).0, checksum(word));
    }
    let target = checksum(b"verus");
    let hit = BoolTerm::Compare {
        rel: Rel::Eq,
        lhs: Box::new(result.as_i32().clone()),
        rhs: Box::new(BvTerm::Lit { value: target, width: 32 }),
    };
    let mut wanted = vec![hit];
    for i in 0..5 {
        let byte = BvTerm::Var { name: format!("pwd{}", i), width: 8 };
        wanted.push(BoolTerm::Compare {
            rel: Rel::Sge,
            lhs: Box::new(byte.clone()),
            rhs: Box::new(BvTerm::Lit { value: 97, width: 8 }),
        });
        wanted.push(BoolTerm::Compare {
            rel: Rel::Sle,
            lhs: Box::new(byte),
            rhs: Box::new(BvTerm::Lit { value: 122, width: 8 }),
        });
    }
    assert!(wasymex::model::satisfied_by(&wanted, &assign(b"verus")));
    assert!(!wasymex::model::satisfied_by(&wanted, &assign(b"versu")));
    assert!(!wasymex::model::satisfied_by(&wanted, &assign(b"VERUS")));
    assert!(assign(b"verus").entries.iter().all(|(_, b)| (97..=122).contains(b)));
    let _unused: Vec<Check> = Vec::new();
}
