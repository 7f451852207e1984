use wasymex::context::Context;
use wasymex::ir::{BinaryOp, Module, UnaryOp};
use wasymex::model::Assignment;
use wasymex::state::TrapReason;
use wasymex::term::{BoolTerm, BvOp, BvTerm, Rel};
use wasymex::value::{bits_of, of_bits, ConcVal, SymVal, Val};

const ALL_OPS: [BinaryOp; 25] = [
    BinaryOp::I32Eq,
    BinaryOp::I32Ne,
    BinaryOp::I32LtS,
    BinaryOp::I32LtU,
    BinaryOp::I32GtS,
    BinaryOp::I32GtU,
    BinaryOp::I32LeS,
    BinaryOp::I32LeU,
    BinaryOp::I32GeS,
    BinaryOp::I32GeU,
    BinaryOp::I32Add,
    BinaryOp::I32Sub,
    BinaryOp::I32Mul,
    BinaryOp::I32DivS,
    BinaryOp::I32DivU,
    BinaryOp::I32RemS,
    BinaryOp::I32RemU,
    BinaryOp::I32And,
    BinaryOp::I32Or,
    BinaryOp::I32Xor,
    BinaryOp::I32Shl,
    BinaryOp::I32ShrS,
    BinaryOp::I32ShrU,
    BinaryOp::I32Rotl,
    BinaryOp::I32Rotr,
];

const SAMPLES: [i32; 12] =
    [0, 1, -1, i32::MIN, i32::MAX, 2, 5, 31, 32, 33, -7, 0x1234_5678];

fn empty_module() -> Module {
    Module { funcs: vec![], seqs: vec![], locals: vec![], memories: vec![] }
}

fn conc(context: &Context, op: BinaryOp, a: i32, b: i32) -> Result<i32, TrapReason> {
    context.bin_conc(op, &ConcVal(a), &ConcVal(b)).map(|v| v.as_i32())
}

fn sym_value(val: &Val, model: &Assignment) -> i32 {
    match val {
        Val::Sym(SymVal::I32(term)) => {
            assert_eq!(term.shape(), Some(32));
            of_bits(term.value(model).0)
        }
        Val::Conc(c) => c.as_i32(),
    }
}

#[test]
fn concrete_and_symbolic_operators_agree_on_samples() {
    let module = empty_module();
    let context = Context::new(&module);
    let model = Assignment::new();
    for op in ALL_OPS {
        for a in SAMPLES {
            for b in SAMPLES {
                let concrete = match conc(&context, op, a, b) {
                    Ok(value) => value,
                    Err(_) => continue,
                };
                let lifted_a = Val::Sym(SymVal::from_concrete(&ConcVal(a)));
                let lifted_b = Val::Sym(SymVal::from_concrete(&ConcVal(b)));
                let symbolic = context.bin_op(op, &lifted_a, &lifted_b).unwrap();
                assert!(matches!(symbolic, Val::Sym(_)));
                assert_eq!(sym_value(&symbolic, &model), concrete, "{:?} {} {}", op, a, b);
                let mixed = context.bin_op(op, &Val::Conc(ConcVal(a)), &lifted_b).unwrap();
                assert_eq!(sym_value(&mixed, &model), concrete, "{:?} {} {}", op, a, b);
            }
        }
    }
}

#[test]
fn symbolic_shift_takes_the_count_modulo_32() {
    let module = empty_module();
    let context = Context::new(&module);
    let model = Assignment::new();
    assert_eq!(conc(&context, BinaryOp::I32Shl, 1, -1), Ok(i32::MIN));
    assert_eq!(conc(&context, BinaryOp::I32Shl, 1, 32), Ok(1));
    let one = Val::Sym(SymVal::from_concrete(&ConcVal(1)));
    let count = Val::Sym(SymVal::from_concrete(&ConcVal(32)));
    let shifted = context.bin_op(BinaryOp::I32Shl, &one, &count).unwrap();
    assert_eq!(sym_value(&shifted, &model), 1);
    let last = Val::Sym(SymVal::from_concrete(&ConcVal(-1)));
    let shifted = context.bin_op(BinaryOp::I32Shl, &one, &last).unwrap();
    assert_eq!(sym_value(&shifted, &model), i32::MIN);
    let least = Val::Sym(SymVal::from_concrete(&ConcVal(i32::MIN)));
    let shifted = context.bin_op(BinaryOp::I32ShrS, &least, &Val::Conc(ConcVal(33))).unwrap();
    assert_eq!(sym_value(&shifted, &model), -0x4000_0000);
    let shifted = context.bin_op(BinaryOp::I32ShrU, &Val::Conc(ConcVal(-8)), &count).unwrap();
    assert_eq!(sym_value(&shifted, &model), -8);
    let shifted = context.bin_op(BinaryOp::I32ShrU, &least, &last).unwrap();
    assert_eq!(sym_value(&shifted, &model), 1);
}

#[test]
fn symbolic_shift_by_an_input_masks_the_count() {
    let module = empty_module();
    let context = Context::new(&module);
    let x = Val::Sym(SymVal::I32(BvTerm::Var { name: "local0".to_string(), width: 32 }));
    let shifted = context.bin_op(BinaryOp::I32Shl, &Val::Conc(ConcVal(3)), &x).unwrap();
    for (count, expected) in [(0u32, 3), (1, 6), (31, i32::MIN), (32, 3), (33, 6), (u32::MAX, i32::MIN)] {
        let model = Assignment { entries: vec![("local0".to_string(), count)] };
        assert_eq!(sym_value(&shifted, &model), expected, "count {}", count);
        assert_eq!(conc(&context, BinaryOp::I32Shl, 3, count as i32), Ok(expected));
    }
}

#[test]
fn arithmetic_wraps() {
    let module = empty_module();
    let c = Context::new(&module);
    assert_eq!(conc(&c, BinaryOp::I32Add, i32::MAX, 1), Ok(i32::MIN));
    assert_eq!(conc(&c, BinaryOp::I32Add, 2, 3), Ok(5));
    assert_eq!(conc(&c, BinaryOp::I32Sub, i32::MIN, 1), Ok(i32::MAX));
    assert_eq!(conc(&c, BinaryOp::I32Sub, 3, 5), Ok(-2));
    assert_eq!(conc(&c, BinaryOp::I32Mul, 0x10000, 0x10000), Ok(0));
    assert_eq!(conc(&c, BinaryOp::I32Mul, -3, 7), Ok(-21));
    assert_eq!(conc(&c, BinaryOp::I32Mul, i32::MIN, -1), Ok(i32::MIN));
}

#[test]
fn division_rounds_toward_zero() {
    let module = empty_module();
    let c = Context::new(&module);
    assert_eq!(conc(&c, BinaryOp::I32DivS, 7, 2), Ok(3));
    assert_eq!(conc(&c, BinaryOp::I32DivS, -7, 2), Ok(-3));
    assert_eq!(conc(&c, BinaryOp::I32DivS, 7, -2), Ok(-3));
    assert_eq!(conc(&c, BinaryOp::I32DivS, -7, -2), Ok(3));
    assert_eq!(conc(&c, BinaryOp::I32RemS, 7, 2), Ok(1));
    assert_eq!(conc(&c, BinaryOp::I32RemS, -7, 2), Ok(-1));
    assert_eq!(conc(&c, BinaryOp::I32RemS, 7, -2), Ok(1));
    assert_eq!(conc(&c, BinaryOp::I32RemS, -7, -2), Ok(-1));
    assert_eq!(conc(&c, BinaryOp::I32DivU, -1, 2), Ok(i32::MAX));
    assert_eq!(conc(&c, BinaryOp::I32RemU, -1, 16), Ok(15));
    assert_eq!(conc(&c, BinaryOp::I32DivU, 10, 3), Ok(3));
}

#[test]
fn division_traps() {
    let module = empty_module();
    let c = Context::new(&module);
    for op in [BinaryOp::I32DivS, BinaryOp::I32DivU, BinaryOp::I32RemS, BinaryOp::I32RemU] {
        assert_eq!(conc(&c, op, 10, 0), Err(TrapReason::DivisionByZero));
        assert_eq!(conc(&c, op, 0, 0), Err(TrapReason::DivisionByZero));
    }
    assert_eq!(conc(&c, BinaryOp::I32DivS, i32::MIN, -1), Err(TrapReason::DivisionByZero));
    assert_eq!(conc(&c, BinaryOp::I32RemS, i32::MIN, -1), Ok(0));
    assert_eq!(conc(&c, BinaryOp::I32RemS, i32::MIN, 1), Ok(0));
    assert_eq!(conc(&c, BinaryOp::I32RemS, i32::MIN, 3), Ok(-2));
    let least = Val::Conc(ConcVal(i32::MIN));
    let rest = c.bin_op(BinaryOp::I32RemS, &least, &Val::Conc(ConcVal(-1)));
    assert!(matches!(rest, Ok(Val::Conc(ConcVal(0)))));
    assert_eq!(conc(&c, BinaryOp::I32DivU, i32::MIN, -1), Ok(0));
    assert_eq!(conc(&c, BinaryOp::I32RemU, i32::MIN, -1), Ok(i32::MIN));
    let trapped = c.bin_op(BinaryOp::I32DivS, &Val::Conc(ConcVal(1)), &Val::Conc(ConcVal(0)));
    assert!(matches!(trapped, Err(TrapReason::DivisionByZero)));
}

#[test]
fn symbolic_division_never_traps() {
    let module = empty_module();
    let c = Context::new(&module);
    let ten = Val::Sym(SymVal::from_concrete(&ConcVal(10)));
    let zero = Val::Conc(ConcVal(0));
    let model = Assignment::new();
    let q = c.bin_op(BinaryOp::I32DivU, &ten, &zero).unwrap();
    assert_eq!(sym_value(&q, &model), -1);
    let q = c.bin_op(BinaryOp::I32DivS, &ten, &zero).unwrap();
    assert_eq!(sym_value(&q, &model), -1);
    let r = c.bin_op(BinaryOp::I32RemU, &ten, &zero).unwrap();
    assert_eq!(sym_value(&r, &model), 10);
}

#[test]
fn bitwise_shift_and_rotate() {
    let module = empty_module();
    let c = Context::new(&module);
    assert_eq!(conc(&c, BinaryOp::I32And, 0b1100, 0b1010), Ok(0b1000));
    assert_eq!(conc(&c, BinaryOp::I32Or, 0b1100, 0b1010), Ok(0b1110));
    assert_eq!(conc(&c, BinaryOp::I32Xor, 0b1100, 0b1010), Ok(0b0110));
    assert_eq!(conc(&c, BinaryOp::I32And, -1, i32::MIN), Ok(i32::MIN));
    assert_eq!(conc(&c, BinaryOp::I32Shl, 1, 31), Ok(i32::MIN));
    assert_eq!(conc(&c, BinaryOp::I32Shl, 3, 33), Ok(6));
    assert_eq!(conc(&c, BinaryOp::I32ShrS, -8, 1), Ok(-4));
    assert_eq!(conc(&c, BinaryOp::I32ShrS, -1, 31), Ok(-1));
    assert_eq!(conc(&c, BinaryOp::I32ShrS, i32::MIN, 31), Ok(-1));
    assert_eq!(conc(&c, BinaryOp::I32ShrU, -8, 1), Ok(0x7fff_fffc));
    assert_eq!(conc(&c, BinaryOp::I32ShrU, -1, 31), Ok(1));
    assert_eq!(conc(&c, BinaryOp::I32Rotl, i32::MIN + 1, 1), Ok(3));
    assert_eq!(conc(&c, BinaryOp::I32Rotl, 0x1234_5678, 8), Ok(0x3456_7812));
    assert_eq!(conc(&c, BinaryOp::I32Rotl, 0x1234_5678, 32), Ok(0x1234_5678));
    assert_eq!(conc(&c, BinaryOp::I32Rotr, 3, 1), Ok(i32::MIN + 1));
    assert_eq!(conc(&c, BinaryOp::I32Rotr, 0x1234_5678, 8), Ok(0x7812_3456));
    assert_eq!(conc(&c, BinaryOp::I32Rotr, 0x1234_5678, 0), Ok(0x1234_5678));
    for a in SAMPLES {
        for b in SAMPLES {
            assert_eq!(conc(&c, BinaryOp::I32Rotl, a, b), Ok(a.rotate_left(b as u32)));
            assert_eq!(conc(&c, BinaryOp::I32Rotr, a, b), Ok(a.rotate_right(b as u32)));
            assert_eq!(conc(&c, BinaryOp::I32Shl, a, b), Ok(a.wrapping_shl(b as u32)));
            assert_eq!(conc(&c, BinaryOp::I32ShrS, a, b), Ok(a.wrapping_shr(b as u32)));
            assert_eq!(
                conc(&c, BinaryOp::I32ShrU, a, b),
                Ok((a as u32).wrapping_shr(b as u32) as i32)
            );
            assert_eq!(conc(&c, BinaryOp::I32Add, a, b), Ok(a.wrapping_add(b)));
            assert_eq!(conc(&c, BinaryOp::I32Sub, a, b), Ok(a.wrapping_sub(b)));
            assert_eq!(conc(&c, BinaryOp::I32Mul, a, b), Ok(a.wrapping_mul(b)));
            assert_eq!(
                conc(&c, BinaryOp::I32DivS, a, b).ok(),
                a.checked_div(b)
            );
            assert_eq!(
                conc(&c, BinaryOp::I32RemS, a, b).ok(),
                if b == 0 { None } else { Some(a.wrapping_rem(b)) }
            );
            assert_eq!(
                conc(&c, BinaryOp::I32DivU, a, b).ok(),
                (a as u32).checked_div(b as u32).map(|v| v as i32)
            );
            assert_eq!(
                conc(&c, BinaryOp::I32RemU, a, b).ok(),
                (a as u32).checked_rem(b as u32).map(|v| v as i32)
            );
        }
    }
}

#[test]
fn comparisons_give_zero_or_one() {
    let module = empty_module();
    let c = Context::new(&module);
    assert_eq!(conc(&c, BinaryOp::I32Eq, 4, 4), Ok(1));
    assert_eq!(conc(&c, BinaryOp::I32Eq, 4, 5), Ok(0));
    assert_eq!(conc(&c, BinaryOp::I32Ne, 4, 4), Ok(0));
    assert_eq!(conc(&c, BinaryOp::I32Ne, 4, 5), Ok(1));
    assert_eq!(conc(&c, BinaryOp::I32LtS, -1, 0), Ok(1));
    assert_eq!(conc(&c, BinaryOp::I32LtU, -1, 0), Ok(0));
    assert_eq!(conc(&c, BinaryOp::I32GtS, -1, 0), Ok(0));
    assert_eq!(conc(&c, BinaryOp::I32GtU, -1, 0), Ok(1));
    assert_eq!(conc(&c, BinaryOp::I32LeS, i32::MIN, i32::MAX), Ok(1));
    assert_eq!(conc(&c, BinaryOp::I32LeU, i32::MIN, i32::MAX), Ok(0));
    assert_eq!(conc(&c, BinaryOp::I32GeS, i32::MIN, i32::MAX), Ok(0));
    assert_eq!(conc(&c, BinaryOp::I32GeU, i32::MIN, i32::MAX), Ok(1));
    assert_eq!(conc(&c, BinaryOp::I32LeS, 3, 3), Ok(1));
    assert_eq!(conc(&c, BinaryOp::I32GeU, 3, 3), Ok(1));
}

#[test]
fn eqz_on_both_domains() {
    let module = empty_module();
    let c = Context::new(&module);
    let model = Assignment::new();
    for a in SAMPLES {
        let expected = if a == 0 { 1 } else { 0 };
        assert_eq!(c.un_conc(UnaryOp::I32Eqz, &ConcVal(a)), Ok(ConcVal(expected)));
        let lifted = Val::Sym(SymVal::from_concrete(&ConcVal(a)));
        let symbolic = c.un_op(UnaryOp::I32Eqz, &lifted).unwrap();
        assert_eq!(sym_value(&symbolic, &model), expected);
    }
}

#[test]
fn lifting_keeps_the_bits() {
    let model = Assignment::new();
    for a in SAMPLES {
        let concrete = Val::Conc(ConcVal(a));
        let lifted = concrete.as_sym();
        let SymVal::I32(term) = &lifted;
        assert_eq!(term.shape(), Some(32));
        assert_eq!(term.value(&model).0, a as u32);
        assert_eq!(bits_of(a), a as u32);
        assert_eq!(of_bits(a as u32), a);
        let same = BoolTerm::Compare {
            rel: Rel::Eq,
            lhs: Box::new(term.clone()),
            rhs: Box::new(SymVal::from_concrete(&ConcVal(a)).as_i32().clone()),
        };
        assert!(same.shape());
        assert!(same.decide(&model));
        let again = Val::Sym(lifted).as_sym();
        assert_eq!(again.as_i32().value(&model).0, a as u32);
    }
}

#[test]
fn variables_read_the_model() {
    let x = BvTerm::Var { name: String::from("local0"), width: 32 };
    let mut model = Assignment::new();
    assert_eq!(x.value(&model), (0, 32));
    model.entries.push((String::from("local0"), 41));
    model.entries.push((String::from("local0"), 7));
    assert_eq!(model.lookup(&String::from("local0")), Some(41));
    assert_eq!(model.lookup(&String::from("local1")), None);
    assert_eq!(x.value(&model), (41, 32));
    let byte = BvTerm::Var { name: String::from("local0"), width: 8 };
    model.entries[0].1 = 0x1ff;
    assert_eq!(byte.value(&model), (0xff, 8));
    let sum = BvTerm::Bin {
        op: BvOp::Add,
        lhs: Box::new(x),
        rhs: Box::new(BvTerm::Lit { value: 1, width: 32 }),
    };
    assert_eq!(sum.value(&model), (0x200, 32));
}

#[test]
fn ill_formed_terms_have_no_shape() {
    assert_eq!(BvTerm::Lit { value: 256, width: 8 }.shape(), None);
    assert_eq!(BvTerm::Lit { value: 255, width: 8 }.shape(), Some(8));
    assert_eq!(BvTerm::Lit { value: 0, width: 0 }.shape(), None);
    assert_eq!(BvTerm::Lit { value: 0, width: 33 }.shape(), None);
    let narrow = BvTerm::Bin {
        op: BvOp::Add,
        lhs: Box::new(BvTerm::Lit { value: 1, width: 8 }),
        rhs: Box::new(BvTerm::Lit { value: 1, width: 8 }),
    };
    assert_eq!(narrow.shape(), None);
    let mixed = BoolTerm::Compare {
        rel: Rel::Eq,
        lhs: Box::new(BvTerm::Lit { value: 1, width: 8 }),
        rhs: Box::new(BvTerm::Lit { value: 1, width: 32 }),
    };
    assert!(!mixed.shape());
    let wide = BvTerm::Concat {
        upper: Box::new(BvTerm::Lit { value: 1, width: 32 }),
        lower: Box::new(BvTerm::Lit { value: 1, width: 8 }),
    };
    assert_eq!(wide.shape(), None);
}

#[test]
fn widths_extend_and_extract() {
    let model = Assignment::new();
    let word = BvTerm::Lit { value: 0x1234_5678, width: 32 };
    let byte = |i: u32| BvTerm::Extract { high: 8 * i + 7, low: 8 * i, arg: Box::new(word.clone()) };
    assert_eq!(byte(0).value(&model), (0x78, 8));
    assert_eq!(byte(1).value(&model), (0x56, 8));
    assert_eq!(byte(3).value(&model), (0x12, 8));
    let joined = BvTerm::Concat { upper: Box::new(byte(1)), lower: Box::new(byte(0)) };
    assert_eq!(joined.value(&model), (0x5678, 16));
    let negative = BvTerm::Lit { value: 0x80, width: 8 };
    let zero_ext = BvTerm::ZeroExt { extra: 24, arg: Box::new(negative.clone()) };
    let sign_ext = BvTerm::SignExt { extra: 24, arg: Box::new(negative) };
    assert_eq!(zero_ext.value(&model), (0x80, 32));
    assert_eq!(sign_ext.value(&model), (0xffff_ff80, 32));
    let positive = BvTerm::SignExt { extra: 16, arg: Box::new(BvTerm::Lit { value: 0x7fff, width: 16 }) };
    assert_eq!(positive.value(&model), (0x7fff, 32));
    assert!(Rel::Slt.test(0x80, 0x7f, 8));
    assert!(!Rel::Ult.test(0x80, 0x7f, 8));
    assert!(Rel::Sge.test(0, 0xffff_ffff, 32));
}
