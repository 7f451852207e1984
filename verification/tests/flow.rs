use wasymex::engine::as_local_func;
use wasymex::flow::{compute_info, BlockKind, InfoVisitor, Loc};
use wasymex::ir::{
    Function, FunctionKind, Instr, InstrSeq, LocalFunction, Module, ValType,
};

fn seq(instrs: Vec<Instr>, first_loc: u32) -> InstrSeq {
    InstrSeq {
        instrs: instrs.into_iter().enumerate().map(|(i, instr)| (instr, first_loc + i as u32)).collect(),
    }
}

fn nested() -> Module {
    Module {
        funcs: vec![
            Function {
                name: None,
                kind: FunctionKind::Local(LocalFunction { args: vec![], entry: 0 }),
            },
            Function { name: Some(String::from("imported")), kind: FunctionKind::Import },
            Function { name: None, kind: FunctionKind::Uninitialized },
        ],
        seqs: vec![
            seq(vec![Instr::Block { seq: 1 }, Instr::Const { value: 0 }, Instr::Loop { seq: 3 }], 0),
            seq(vec![Instr::Const { value: 1 }, Instr::Block { seq: 2 }], 10),
            seq(vec![Instr::LocalGet { local: 5 }], 20),
            seq(vec![Instr::IfElse { consequent: 4, alternative: 5 }, Instr::Drop], 30),
            seq(vec![Instr::LocalGet { local: 5 }], 40),
            seq(vec![Instr::LocalSet { local: 6 }, Instr::LocalTee { local: 2 }], 50),
        ],
        locals: vec![ValType::I32; 7],
        memories: vec![],
    }
}

#[test]
fn ends_point_at_the_next_instruction_outside() {
    let module = nested();
    let info = compute_info(&module, as_local_func(&module.funcs[0]).unwrap());
    assert_eq!(info.ends.len(), 4);
    assert_eq!(info.ends[&1], Loc { block: 0, loc: 1 });
    assert_eq!(info.ends[&2], Loc { block: 0, loc: 1 });
    assert_eq!(info.ends[&4], Loc { block: 3, loc: 31 });
    assert_eq!(info.ends[&5], Loc { block: 3, loc: 31 });
    assert!(!info.ends.contains_key(&0));
    assert!(!info.ends.contains_key(&3));
}

#[test]
fn kinds_tell_blocks_from_loops() {
    let module = nested();
    let info = compute_info(&module, as_local_func(&module.funcs[0]).unwrap());
    assert_eq!(info.kinds.len(), 3);
    assert_eq!(info.kinds[&1], BlockKind::Block);
    assert_eq!(info.kinds[&2], BlockKind::Block);
    assert_eq!(info.kinds[&3], BlockKind::Loop);
    assert!(!info.kinds.contains_key(&4));
}

#[test]
fn locals_and_places_are_listed_in_the_order_of_the_walk() {
    let module = nested();
    let info = compute_info(&module, as_local_func(&module.funcs[0]).unwrap());
    assert_eq!(info.locals, vec![5, 6, 2]);
    assert_eq!(info.seqs, vec![0, 1, 2, 3, 4, 5]);
    let places: Vec<(usize, u32)> = info.locs.iter().map(|l| (l.block, l.loc)).collect();
    assert_eq!(
        places,
        vec![(0, 0), (1, 10), (1, 11), (2, 20), (0, 1), (0, 2), (3, 30), (4, 40), (5, 50), (5, 51), (3, 31)]
    );
}

#[test]
fn a_flat_function_has_no_ends() {
    let module = Module {
        funcs: vec![Function {
            name: None,
            kind: FunctionKind::Local(LocalFunction { args: vec![0], entry: 0 }),
        }],
        seqs: vec![seq(vec![Instr::LocalGet { local: 0 }, Instr::Return], 0)],
        locals: vec![ValType::I32],
        memories: vec![],
    };
    let info = compute_info(&module, as_local_func(&module.funcs[0]).unwrap());
    assert!(info.ends.is_empty());
    assert!(info.kinds.is_empty());
    assert_eq!(info.locals, vec![0]);
}

#[test]
fn visitor_defers_ends_until_an_instruction_follows() {
    let mut visitor = InfoVisitor::new();
    assert_eq!(visitor.to_update_next, vec![Vec::<usize>::new()]);
    visitor.start_instr_seq(0);
    visitor.visit_instr(7);
    visitor.visit_block(1);
    visitor.start_instr_seq(1);
    visitor.visit_loop(2);
    visitor.start_instr_seq(2);
    visitor.visit_local_id(3);
    visitor.visit_local_id(3);
    visitor.end_instr_seq(2);
    assert_eq!(visitor.blocks, vec![0, 1]);
    assert_eq!(visitor.to_update_next, vec![vec![], vec![], vec![2]]);
    visitor.end_instr_seq(1);
    assert_eq!(visitor.to_update_next, vec![vec![], vec![2, 1]]);
    assert!(visitor.info.ends.is_empty());
    visitor.visit_instr(8);
    assert_eq!(visitor.info.ends[&1], Loc { block: 0, loc: 8 });
    assert_eq!(visitor.info.ends[&2], Loc { block: 0, loc: 8 });
    assert_eq!(visitor.to_update_next, vec![vec![], vec![]]);
    visitor.end_instr_seq(0);
    assert_eq!(visitor.to_update_next, vec![vec![0]]);
    assert!(visitor.blocks.is_empty());
    assert_eq!(visitor.info.locals, vec![3]);
    assert_eq!(visitor.info.kinds[&1], BlockKind::Block);
    assert_eq!(visitor.info.kinds[&2], BlockKind::Loop);
    assert!(!visitor.info.ends.contains_key(&0));
}
