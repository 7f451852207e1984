use crate::ir::{BinaryOp, Module, UnaryOp};
use crate::state::TrapReason;
use crate::term::{
    bv_op, holds_all, lemma_modulus_values, rel_holds, satisfiable, BoolTerm, BvOp, BvTerm, Rel,
    WORD,
};
use crate::value::{
    bits_of, from_bits, lemma_bits_round_trip, of_bits, to_bits, ConcVal, SymVal, Val,
};
use vstd::prelude::*;

verus! {

/// What every operation of the engine works in: the module under analysis.
#[derive(Debug)]
pub struct Context<'m> {
    pub module: &'m Module,
}

/// How a two-operand instruction is computed on bit-vectors.
pub enum OpShape {
    /// By a bit-vector function.
    Arith(BvOp),
    /// By a relation, whose truth becomes 1 and whose falsehood 0.
    Test(Rel),
    /// By the negation of equality.
    Differ,
}

/// The shape of each two-operand instruction.
pub open spec fn shape_of(op: BinaryOp) -> OpShape {
    match op {
        BinaryOp::I32Add => OpShape::Arith(BvOp::Add),
        BinaryOp::I32Sub => OpShape::Arith(BvOp::Sub),
        BinaryOp::I32Mul => OpShape::Arith(BvOp::Mul),
        BinaryOp::I32DivS => OpShape::Arith(BvOp::SDiv),
        BinaryOp::I32DivU => OpShape::Arith(BvOp::UDiv),
        BinaryOp::I32RemS => OpShape::Arith(BvOp::SRem),
        BinaryOp::I32RemU => OpShape::Arith(BvOp::URem),
        BinaryOp::I32And => OpShape::Arith(BvOp::And),
        BinaryOp::I32Or => OpShape::Arith(BvOp::Or),
        BinaryOp::I32Xor => OpShape::Arith(BvOp::Xor),
        BinaryOp::I32Shl => OpShape::Arith(BvOp::Shl),
        BinaryOp::I32ShrS => OpShape::Arith(BvOp::AShr),
        BinaryOp::I32ShrU => OpShape::Arith(BvOp::LShr),
        BinaryOp::I32Rotl => OpShape::Arith(BvOp::Rotl),
        BinaryOp::I32Rotr => OpShape::Arith(BvOp::Rotr),
        BinaryOp::I32Eq => OpShape::Test(Rel::Eq),
        BinaryOp::I32Ne => OpShape::Differ,
        BinaryOp::I32LtS => OpShape::Test(Rel::Slt),
        BinaryOp::I32LtU => OpShape::Test(Rel::Ult),
        BinaryOp::I32GtS => OpShape::Test(Rel::Sgt),
        BinaryOp::I32GtU => OpShape::Test(Rel::Ugt),
        BinaryOp::I32LeS => OpShape::Test(Rel::Sle),
        BinaryOp::I32LeU => OpShape::Test(Rel::Ule),
        BinaryOp::I32GeS => OpShape::Test(Rel::Sge),
        BinaryOp::I32GeU => OpShape::Test(Rel::Uge),
    }
}

/// Whether `op` is one of the three shifts.
pub open spec fn is_shift(op: BinaryOp) -> bool {
    op == BinaryOp::I32Shl || op == BinaryOp::I32ShrS || op == BinaryOp::I32ShrU
}

/// Whether `op` traps on the concrete operands `lhs` and `rhs`: a division
/// or a remainder by zero, or the signed division of the least integer by
/// -1, whose quotient is no 32-bit integer. The signed remainder of the
/// least integer by -1 does not trap: it is 0.
pub open spec fn traps(op: BinaryOp, lhs: i32, rhs: i32) -> bool {
    match op {
        BinaryOp::I32DivS => rhs == 0 || (lhs == i32::MIN && rhs == -1),
        BinaryOp::I32DivU | BinaryOp::I32RemS | BinaryOp::I32RemU => rhs == 0,
        _ => false,
    }
}

/// The result of `op` on concrete operands. A shift counts modulo 32.
pub open spec fn bin_conc_spec(op: BinaryOp, lhs: i32, rhs: i32) -> Result<i32, TrapReason> {
    if traps(op, lhs, rhs) {
        Err(TrapReason::DivisionByZero)
    } else {
        let a = to_bits(lhs);
        let b = if is_shift(op) {
            to_bits(rhs) % 32
        } else {
            to_bits(rhs)
        };
        Ok(
            match shape_of(op) {
                OpShape::Arith(f) => from_bits(bv_op(f, a, b)),
                OpShape::Test(rel) => if rel_holds(rel, a, b, 32) {
                    1i32
                } else {
                    0i32
                },
                OpShape::Differ => if a != b {
                    1i32
                } else {
                    0i32
                },
            },
        )
    }
}

/// The 32-bit literal 0.
pub open spec fn zero32() -> BvTerm {
    BvTerm::Lit { value: 0, width: 32 }
}

/// The 32-bit literal 1.
pub open spec fn one32() -> BvTerm {
    BvTerm::Lit { value: 1, width: 32 }
}

/// The count of a shift as a term: the low five bits of `count`, which
/// is the count modulo 32.
pub open spec fn shift_count(count: BvTerm) -> BvTerm {
    BvTerm::Bin {
        op: BvOp::And,
        lhs: Box::new(count),
        rhs: Box::new(BvTerm::Lit { value: 31, width: 32 }),
    }
}

/// The term that `op` builds from the terms of its operands. A shift
/// takes its count modulo 32, as the concrete shift does. A relation
/// becomes a choice between the literals 1 and 0, so that the result is
/// again a 32-bit vector.
pub open spec fn bin_sym_spec(op: BinaryOp, lhs: BvTerm, rhs: BvTerm) -> BvTerm {
    match shape_of(op) {
        OpShape::Arith(f) => BvTerm::Bin {
            op: f,
            lhs: Box::new(lhs),
            rhs: Box::new(
                if is_shift(op) {
                    shift_count(rhs)
                } else {
                    rhs
                },
            ),
        },
        OpShape::Test(rel) => BvTerm::Ite {
            cond: Box::new(BoolTerm::Compare { rel, lhs: Box::new(lhs), rhs: Box::new(rhs) }),
            on_true: Box::new(one32()),
            on_false: Box::new(zero32()),
        },
        OpShape::Differ => BvTerm::Ite {
            cond: Box::new(
                BoolTerm::Compare { rel: Rel::Eq, lhs: Box::new(lhs), rhs: Box::new(rhs) },
            ),
            on_true: Box::new(zero32()),
            on_false: Box::new(one32()),
        },
    }
}

/// The result of `op` on two values: concrete where both are, else the
/// term built from their terms.
pub open spec fn bin_op_spec(op: BinaryOp, lhs: Val, rhs: Val) -> Result<Val, TrapReason> {
    match (lhs, rhs) {
        (Val::Conc(a), Val::Conc(b)) => match bin_conc_spec(op, a.0, b.0) {
            Ok(c) => Ok(Val::Conc(ConcVal(c))),
            Err(trap) => Err(trap),
        },
        _ => Ok(Val::Sym(SymVal::I32(bin_sym_spec(op, lhs.term(), rhs.term())))),
    }
}

/// The result of the one-operand `op` on a concrete operand.
pub open spec fn un_conc_spec(op: UnaryOp, operand: i32) -> i32 {
    match op {
        UnaryOp::I32Eqz => if operand == 0 {
            1i32
        } else {
            0i32
        },
    }
}

/// The term that the one-operand `op` builds.
pub open spec fn un_sym_spec(op: UnaryOp, operand: BvTerm) -> BvTerm {
    match op {
        UnaryOp::I32Eqz => BvTerm::Ite {
            cond: Box::new(
                BoolTerm::Compare { rel: Rel::Eq, lhs: Box::new(operand), rhs: Box::new(zero32()) },
            ),
            on_true: Box::new(one32()),
            on_false: Box::new(zero32()),
        },
    }
}

/// The result of the one-operand `op` on a value.
pub open spec fn un_op_spec(op: UnaryOp, operand: Val) -> Val {
    match operand {
        Val::Conc(a) => Val::Conc(ConcVal(un_conc_spec(op, a.0))),
        Val::Sym(a) => Val::Sym(SymVal::I32(un_sym_spec(op, a.term()))),
    }
}

/// Builds the count of a shift.
fn count_of(count: BvTerm) -> (r: BvTerm)
    ensures
        r == shift_count(count),
{
    BvTerm::Bin {
        op: BvOp::And,
        lhs: Box::new(count),
        rhs: Box::new(BvTerm::Lit { value: 31, width: 32 }),
    }
}

fn arith(f: BvOp, lhs: BvTerm, rhs: BvTerm) -> (r: SymVal)
    ensures
        r == SymVal::I32(BvTerm::Bin { op: f, lhs: Box::new(lhs), rhs: Box::new(rhs) }),
{
    SymVal::I32(BvTerm::Bin { op: f, lhs: Box::new(lhs), rhs: Box::new(rhs) })
}

impl<'m> Context<'m> {
    /// The context of an analysis of `module`.
    pub fn new(module: &'m Module) -> (r: Self)
        ensures
            r.module == module,
    {
        Context { module }
    }

    /// The literal 0 of `size` bits.
    pub fn zero(&self, size: u32) -> (r: BvTerm)
        requires
            1 <= size <= 32,
        ensures
            r == (BvTerm::Lit { value: 0, width: size }),
            r.wf(),
    {
        proof {
            lemma_modulus_values();
        }
        BvTerm::Lit { value: 0, width: size }
    }

    /// The literal 1 of `size` bits.
    pub fn one(&self, size: u32) -> (r: BvTerm)
        requires
            1 <= size <= 32,
        ensures
            r == (BvTerm::Lit { value: 1, width: size }),
            r.wf(),
    {
        proof {
            lemma_modulus_values();
            crate::term::lemma_modulus_monotonic(1, size);
        }
        BvTerm::Lit { value: 1, width: size }
    }

    /// The relation's truth as a choice between the literals `hit` and `miss`.
    fn choose_by(&self, rel: Rel, lhs: &SymVal, rhs: &SymVal, hit: BvTerm, miss: BvTerm) -> (r: SymVal)
        ensures
            r == SymVal::I32(
                BvTerm::Ite {
                    cond: Box::new(
                        BoolTerm::Compare {
                            rel,
                            lhs: Box::new(lhs.term()),
                            rhs: Box::new(rhs.term()),
                        },
                    ),
                    on_true: Box::new(hit),
                    on_false: Box::new(miss),
                },
            ),
    {
        SymVal::I32(
            BvTerm::Ite {
                cond: Box::new(
                    BoolTerm::Compare {
                        rel,
                        lhs: Box::new(lhs.as_i32().clone()),
                        rhs: Box::new(rhs.as_i32().clone()),
                    },
                ),
                on_true: Box::new(hit),
                on_false: Box::new(miss),
            },
        )
    }

    /// Computes `op` on two concrete values.
    pub fn bin_conc(&self, op: BinaryOp, lhs: &ConcVal, rhs: &ConcVal) -> (r: Result<
        ConcVal,
        TrapReason,
    >)
        ensures
            r == match bin_conc_spec(op, lhs.0, rhs.0) {
                Ok(c) => Ok::<ConcVal, TrapReason>(ConcVal(c)),
                Err(trap) => Err(trap),
            },
    {
        let a = bits_of(lhs.as_i32());
        let b = bits_of(rhs.as_i32());
        proof {
            lemma_modulus_values();
        }
        let bits: u32 = match op {
            BinaryOp::I32Add => BvOp::Add.apply(a, b),
            BinaryOp::I32Sub => BvOp::Sub.apply(a, b),
            BinaryOp::I32Mul => BvOp::Mul.apply(a, b),
            BinaryOp::I32DivS => {
                if b == 0 || (a == 0x8000_0000 && b == 0xffff_ffff) {
                    return Err(TrapReason::DivisionByZero);
                }
                BvOp::SDiv.apply(a, b)
            },
            BinaryOp::I32DivU => {
                if b == 0 {
                    return Err(TrapReason::DivisionByZero);
                }
                BvOp::UDiv.apply(a, b)
            },
            BinaryOp::I32RemS => {
                if b == 0 {
                    return Err(TrapReason::DivisionByZero);
                }
                BvOp::SRem.apply(a, b)
            },
            BinaryOp::I32RemU => {
                if b == 0 {
                    return Err(TrapReason::DivisionByZero);
                }
                BvOp::URem.apply(a, b)
            },
            BinaryOp::I32And => BvOp::And.apply(a, b),
            BinaryOp::I32Or => BvOp::Or.apply(a, b),
            BinaryOp::I32Xor => BvOp::Xor.apply(a, b),
            BinaryOp::I32Shl => BvOp::Shl.apply(a, b % 32),
            BinaryOp::I32ShrS => BvOp::AShr.apply(a, b % 32),
            BinaryOp::I32ShrU => BvOp::LShr.apply(a, b % 32),
            BinaryOp::I32Rotl => BvOp::Rotl.apply(a, b),
            BinaryOp::I32Rotr => BvOp::Rotr.apply(a, b),
            BinaryOp::I32Eq => return Ok(ConcVal(if Rel::Eq.test(a, b, 32) { 1 } else { 0 })),
            BinaryOp::I32Ne => return Ok(ConcVal(if a != b { 1 } else { 0 })),
            BinaryOp::I32LtS => return Ok(ConcVal(if Rel::Slt.test(a, b, 32) { 1 } else { 0 })),
            BinaryOp::I32LtU => return Ok(ConcVal(if Rel::Ult.test(a, b, 32) { 1 } else { 0 })),
            BinaryOp::I32GtS => return Ok(ConcVal(if Rel::Sgt.test(a, b, 32) { 1 } else { 0 })),
            BinaryOp::I32GtU => return Ok(ConcVal(if Rel::Ugt.test(a, b, 32) { 1 } else { 0 })),
            BinaryOp::I32LeS => return Ok(ConcVal(if Rel::Sle.test(a, b, 32) { 1 } else { 0 })),
            BinaryOp::I32LeU => return Ok(ConcVal(if Rel::Ule.test(a, b, 32) { 1 } else { 0 })),
            BinaryOp::I32GeS => return Ok(ConcVal(if Rel::Sge.test(a, b, 32) { 1 } else { 0 })),
            BinaryOp::I32GeU => return Ok(ConcVal(if Rel::Uge.test(a, b, 32) { 1 } else { 0 })),
        };
        Ok(ConcVal(of_bits(bits)))
    }

    /// Builds the term of `op` on two symbolic values.
    pub fn bin_sym(&self, op: BinaryOp, lhs: &SymVal, rhs: &SymVal) -> (r: SymVal)
        ensures
            r == SymVal::I32(bin_sym_spec(op, lhs.term(), rhs.term())),
    {
        let l = lhs.as_i32().clone();
        let r = rhs.as_i32().clone();
        match op {
            BinaryOp::I32Add => arith(BvOp::Add, l, r),
            BinaryOp::I32Sub => arith(BvOp::Sub, l, r),
            BinaryOp::I32Mul => arith(BvOp::Mul, l, r),
            BinaryOp::I32DivS => arith(BvOp::SDiv, l, r),
            BinaryOp::I32DivU => arith(BvOp::UDiv, l, r),
            BinaryOp::I32RemS => arith(BvOp::SRem, l, r),
            BinaryOp::I32RemU => arith(BvOp::URem, l, r),
            BinaryOp::I32ShrS => arith(BvOp::AShr, l, count_of(r)),
            BinaryOp::I32ShrU => arith(BvOp::LShr, l, count_of(r)),
            BinaryOp::I32Shl => arith(BvOp::Shl, l, count_of(r)),
            BinaryOp::I32Rotl => arith(BvOp::Rotl, l, r),
            BinaryOp::I32Rotr => arith(BvOp::Rotr, l, r),
            BinaryOp::I32And => arith(BvOp::And, l, r),
            BinaryOp::I32Or => arith(BvOp::Or, l, r),
            BinaryOp::I32Xor => arith(BvOp::Xor, l, r),
            BinaryOp::I32LtS => self.choose_by(Rel::Slt, lhs, rhs, self.one(32), self.zero(32)),
            BinaryOp::I32LtU => self.choose_by(Rel::Ult, lhs, rhs, self.one(32), self.zero(32)),
            BinaryOp::I32LeU => self.choose_by(Rel::Ule, lhs, rhs, self.one(32), self.zero(32)),
            BinaryOp::I32LeS => self.choose_by(Rel::Sle, lhs, rhs, self.one(32), self.zero(32)),
            BinaryOp::I32GtU => self.choose_by(Rel::Ugt, lhs, rhs, self.one(32), self.zero(32)),
            BinaryOp::I32GtS => self.choose_by(Rel::Sgt, lhs, rhs, self.one(32), self.zero(32)),
            BinaryOp::I32GeU => self.choose_by(Rel::Uge, lhs, rhs, self.one(32), self.zero(32)),
            BinaryOp::I32GeS => self.choose_by(Rel::Sge, lhs, rhs, self.one(32), self.zero(32)),
            BinaryOp::I32Eq => self.choose_by(Rel::Eq, lhs, rhs, self.one(32), self.zero(32)),
            BinaryOp::I32Ne => self.choose_by(Rel::Eq, lhs, rhs, self.zero(32), self.one(32)),
        }
    }

    /// Computes `op` on two values: concretely where both are concrete,
    /// else on their terms, a concrete operand lifted to its literal.
    pub fn bin_op(&self, op: BinaryOp, lhs: &Val, rhs: &Val) -> (r: Result<Val, TrapReason>)
        ensures
            r == bin_op_spec(op, *lhs, *rhs),
    {
        Ok(
            match (lhs, rhs) {
                (Val::Conc(lhs_val), Val::Conc(rhs_val)) => {
                    match self.bin_conc(op, lhs_val, rhs_val) {
                        Ok(val) => Val::Conc(val),
                        Err(trap) => {
                            return Err(trap);
                        },
                    }
                },
                (Val::Sym(lhs_val), Val::Conc(rhs_val)) => {
                    let rhs_val = SymVal::from_concrete(rhs_val);
                    Val::Sym(self.bin_sym(op, lhs_val, &rhs_val))
                },
                (Val::Conc(lhs_val), Val::Sym(rhs_val)) => {
                    let lhs_val = SymVal::from_concrete(lhs_val);
                    Val::Sym(self.bin_sym(op, &lhs_val, rhs_val))
                },
                (Val::Sym(lhs_val), Val::Sym(rhs_val)) => Val::Sym(
                    self.bin_sym(op, lhs_val, rhs_val),
                ),
            },
        )
    }

    /// Computes the one-operand `op` on a concrete value.
    pub fn un_conc(&self, op: UnaryOp, operand: &ConcVal) -> (r: Result<ConcVal, TrapReason>)
        ensures
            r == Ok::<ConcVal, TrapReason>(ConcVal(un_conc_spec(op, operand.0))),
    {
        Ok(
            ConcVal(
                match op {
                    UnaryOp::I32Eqz => if operand.as_i32() == 0 {
                        1
                    } else {
                        0
                    },
                },
            ),
        )
    }

    /// Builds the term of the one-operand `op` on a symbolic value.
    pub fn un_sym(&self, op: UnaryOp, operand: &SymVal) -> (r: SymVal)
        ensures
            r == SymVal::I32(un_sym_spec(op, operand.term())),
    {
        match op {
            UnaryOp::I32Eqz => {
                let zero = SymVal::I32(self.zero(32));
                self.choose_by(Rel::Eq, operand, &zero, self.one(32), self.zero(32))
            },
        }
    }

    /// Computes the one-operand `op` on a value.
    pub fn un_op(&self, op: UnaryOp, operand: &Val) -> (r: Result<Val, TrapReason>)
        ensures
            r == Ok::<Val, TrapReason>(un_op_spec(op, *operand)),
    {
        Ok(
            match operand {
                Val::Conc(val) => match self.un_conc(op, val) {
                    Ok(res) => Val::Conc(res),
                    Err(trap) => {
                        return Err(trap);
                    },
                },
                Val::Sym(val) => Val::Sym(self.un_sym(op, val)),
            },
        )
    }
}

/// The term that an operation builds from 32-bit operands is a 32-bit vector.
pub proof fn lemma_bin_sym_wf(op: BinaryOp, lhs: BvTerm, rhs: BvTerm)
    requires
        lhs.wf(),
        rhs.wf(),
        lhs.width() == 32,
        rhs.width() == 32,
    ensures
        bin_sym_spec(op, lhs, rhs).wf(),
        bin_sym_spec(op, lhs, rhs).width() == 32,
{
    reveal_with_fuel(BvTerm::wf, 3);
    reveal_with_fuel(BoolTerm::wf, 3);
    reveal_with_fuel(BvTerm::width, 3);
    reveal_with_fuel(BvTerm::eval, 3);
    reveal_with_fuel(BoolTerm::holds, 3);
    lemma_modulus_values();
}

/// An operation on well-formed values gives a well-formed value.
pub proof fn lemma_bin_op_wf(op: BinaryOp, lhs: Val, rhs: Val)
    requires
        lhs.wf(),
        rhs.wf(),
    ensures
        bin_op_spec(op, lhs, rhs) matches Ok(v) ==> v.wf(),
{
    lemma_modulus_values();
    lemma_bin_sym_wf(op, lhs.term(), rhs.term());
    if let (Val::Conc(a), Val::Conc(b)) = (lhs, rhs) {
        if let Ok(c) = bin_conc_spec(op, a.0, b.0) {
            lemma_bits_round_trip(c, 0);
        }
    }
}

/// A one-operand operation on a well-formed value gives a well-formed value.
pub proof fn lemma_un_op_wf(op: UnaryOp, operand: Val)
    requires
        operand.wf(),
    ensures
        un_op_spec(op, operand).wf(),
{
    reveal_with_fuel(BvTerm::wf, 3);
    reveal_with_fuel(BoolTerm::wf, 3);
    reveal_with_fuel(BvTerm::width, 3);
    reveal_with_fuel(BvTerm::eval, 3);
    reveal_with_fuel(BoolTerm::holds, 3);
    lemma_modulus_values();
}

/// The low five bits of a 32-bit number are the number modulo 32.
pub proof fn lemma_shift_count(b: int)
    requires
        0 <= b < WORD,
    ensures
        bv_op(BvOp::And, b, 31) == b % 32,
{
    let x = b as u32;
    assert((x & 31u32) == x % 32u32) by (bit_vector);
}

/// The symbolic operation agrees with the concrete one under every model:
/// where the operands' terms denote concrete numbers on which `op` does not
/// trap, the term that `op` builds denotes the concrete result.
pub proof fn lemma_symbolic_agrees(op: BinaryOp, lhs: BvTerm, rhs: BvTerm, env: Map<Seq<char>, int>)
    requires
        lhs.wf(),
        rhs.wf(),
        lhs.width() == 32,
        rhs.width() == 32,
        !traps(op, from_bits(lhs.eval(env)), from_bits(rhs.eval(env))),
    ensures
        bin_conc_spec(op, from_bits(lhs.eval(env)), from_bits(rhs.eval(env))) == Ok::<
            i32,
            TrapReason,
        >(from_bits(bin_sym_spec(op, lhs, rhs).eval(env))),
{
    reveal_with_fuel(BvTerm::wf, 3);
    reveal_with_fuel(BoolTerm::wf, 3);
    reveal_with_fuel(BvTerm::width, 3);
    reveal_with_fuel(BvTerm::eval, 3);
    reveal_with_fuel(BoolTerm::holds, 3);
    lemma_modulus_values();
    lhs.lemma_eval_range(env);
    rhs.lemma_eval_range(env);
    let a = lhs.eval(env);
    let b = rhs.eval(env);
    lemma_shift_count(b);
    lemma_bits_round_trip(0, a);
    lemma_bits_round_trip(0, b);
}

/// Value-domain consistency: an operation on two concrete integers, where
/// it does not trap, gives the number that the same operation on their
/// symbolic literals denotes under every model. Where only one operand is
/// lifted, the operation builds the same term as where both are.
pub proof fn lemma_value_domain_consistent(op: BinaryOp, a: i32, b: i32, env: Map<Seq<char>, int>)
    requires
        !traps(op, a, b),
    ensures
        bin_op_spec(op, Val::Conc(ConcVal(a)), Val::Conc(ConcVal(b))) is Ok,
        bin_op_spec(
            op,
            Val::Sym(SymVal::I32(ConcVal(a).lift())),
            Val::Sym(SymVal::I32(ConcVal(b).lift())),
        ) is Ok,
        bin_op_spec(op, Val::Conc(ConcVal(a)), Val::Conc(ConcVal(b))).unwrap().eval(env)
            == bin_op_spec(
            op,
            Val::Sym(SymVal::I32(ConcVal(a).lift())),
            Val::Sym(SymVal::I32(ConcVal(b).lift())),
        ).unwrap().eval(env),
        bin_op_spec(op, Val::Conc(ConcVal(a)), Val::Sym(SymVal::I32(ConcVal(b).lift())))
            == bin_op_spec(
            op,
            Val::Sym(SymVal::I32(ConcVal(a).lift())),
            Val::Sym(SymVal::I32(ConcVal(b).lift())),
        ),
        bin_op_spec(op, Val::Sym(SymVal::I32(ConcVal(a).lift())), Val::Conc(ConcVal(b)))
            == bin_op_spec(
            op,
            Val::Sym(SymVal::I32(ConcVal(a).lift())),
            Val::Sym(SymVal::I32(ConcVal(b).lift())),
        ),
{
    lemma_modulus_values();
    lemma_bits_round_trip(a, 0);
    lemma_bits_round_trip(b, 0);
    let l = ConcVal(a).lift();
    let r = ConcVal(b).lift();
    lemma_symbolic_agrees(op, l, r, env);
    lemma_bin_sym_wf(op, l, r);
    bin_sym_spec(op, l, r).lemma_eval_range(env);
    lemma_bits_round_trip(0, bin_sym_spec(op, l, r).eval(env));
}

/// The same for the one-operand operations, which never trap.
pub proof fn lemma_unary_consistent(op: UnaryOp, a: i32, env: Map<Seq<char>, int>)
    ensures
        un_op_spec(op, Val::Conc(ConcVal(a))).eval(env) == un_op_spec(
            op,
            Val::Sym(SymVal::I32(ConcVal(a).lift())),
        ).eval(env),
{
    reveal_with_fuel(BvTerm::wf, 3);
    reveal_with_fuel(BoolTerm::wf, 3);
    reveal_with_fuel(BvTerm::width, 3);
    reveal_with_fuel(BvTerm::eval, 3);
    reveal_with_fuel(BoolTerm::holds, 3);
    lemma_modulus_values();
    lemma_bits_round_trip(a, 0);
}

/// Lifting is idempotent: a concrete value's literal denotes the value's
/// bits under every model, so the constraint that a value equals its lifted
/// form holds under every model and is satisfiable.
pub proof fn lemma_lift_idempotent(v: Val, env: Map<Seq<char>, int>)
    requires
        v.wf(),
    ensures
        v matches Val::Conc(c) ==> v.term().eval(env) == to_bits(c.0),
        (BoolTerm::Compare { rel: Rel::Eq, lhs: Box::new(v.term()), rhs: Box::new(v.term()) }).holds(
            env,
        ),
        satisfiable(
            seq![
                BoolTerm::Compare { rel: Rel::Eq, lhs: Box::new(v.term()), rhs: Box::new(v.term()) },
            ],
        ),
{
    lemma_bits_round_trip(0, 0);
    let c = BoolTerm::Compare { rel: Rel::Eq, lhs: Box::new(v.term()), rhs: Box::new(v.term()) };
    assert(holds_all(seq![c], env));
}

} // verus!