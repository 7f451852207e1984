use vstd::arithmetic::power2::{lemma2_to64, lemma_pow2_adds, lemma_pow2_pos, lemma_pow2_unfold, pow2};
use vstd::prelude::*;

verus! {

/// Two-operand bit-vector functions on 32-bit operands.
#[derive(Clone, Copy, Debug, PartialEq, Eq, Structural)]
pub enum BvOp {
    Add,
    Sub,
    Mul,
    SDiv,
    UDiv,
    SRem,
    URem,
    And,
    Or,
    Xor,
    Shl,
    LShr,
    AShr,
    Rotl,
    Rotr,
}

/// Relations between two bit-vectors of one width.
#[derive(Clone, Copy, Debug, PartialEq, Eq, Structural)]
pub enum Rel {
    Eq,
    Ult,
    Ule,
    Ugt,
    Uge,
    Slt,
    Sle,
    Sgt,
    Sge,
}

/// A bit-vector term of a fixed width between 1 and 32 bits: what the
/// engine hands to a solver in place of a number that it does not know.
#[derive(Debug)]
pub enum BvTerm {
    /// The number `value` in `width` bits.
    Lit { value: u32, width: u32 },
    /// A variable of `width` bits, which a model gives a number.
    Var { name: String, width: u32 },
    /// A function of two 32-bit vectors.
    Bin { op: BvOp, lhs: Box<BvTerm>, rhs: Box<BvTerm> },
    /// `on_true` where `cond` holds, else `on_false`.
    Ite { cond: Box<BoolTerm>, on_true: Box<BvTerm>, on_false: Box<BvTerm> },
    /// The byte of `array` at the 32-bit address `index`.
    Select { array: Box<ArrayTerm>, index: Box<BvTerm> },
    /// The bits of `upper` followed by those of `lower`.
    Concat { upper: Box<BvTerm>, lower: Box<BvTerm> },
    /// The bits `low` to `high` of `arg`.
    Extract { high: u32, low: u32, arg: Box<BvTerm> },
    /// `arg` with `extra` zero bits above.
    ZeroExt { extra: u32, arg: Box<BvTerm> },
    /// `arg` with `extra` copies of its highest bit above.
    SignExt { extra: u32, arg: Box<BvTerm> },
}

/// A boolean term: a constraint on a path, or a predicate of a check.
#[derive(Debug)]
pub enum BoolTerm {
    Compare { rel: Rel, lhs: Box<BvTerm>, rhs: Box<BvTerm> },
    Not { arg: Box<BoolTerm> },
}

/// A term denoting an array from 32-bit addresses to bytes.
#[derive(Debug)]
pub enum ArrayTerm {
    /// The array that holds `byte` at every address.
    Fill { byte: u8 },
    /// `array` with the byte `value` at the address `index`.
    Store { array: Box<ArrayTerm>, index: Box<BvTerm>, value: Box<BvTerm> },
}

/// The number of values of a vector of `width` bits: 2 to the `width`.
pub open spec fn modulus(width: u32) -> int {
    pow2(width as nat) as int
}

/// 2 to the 32nd power: the number of values of a 32-bit vector.
pub const WORD: u64 = 0x1_0000_0000;

/// The signed reading of the `width`-bit vector `x`.
pub open spec fn signed(x: int, width: u32) -> int {
    if 2 * x >= modulus(width) {
        x - modulus(width)
    } else {
        x
    }
}

/// Division that rounds toward zero.
pub open spec fn trunc_div(x: int, d: int) -> int {
    if x >= 0 && d > 0 {
        x / d
    } else if x < 0 && d < 0 {
        (-x) / (-d)
    } else if x < 0 {
        -((-x) / d)
    } else {
        -(x / (-d))
    }
}

/// The remainder that goes with `trunc_div`: it has the sign of `x`.
pub open spec fn trunc_rem(x: int, d: int) -> int {
    x - d * trunc_div(x, d)
}

/// What `op` computes on the 32-bit vectors `a` and `b`, both read as
/// unsigned numbers below `WORD`.
pub open spec fn bv_op(op: BvOp, a: int, b: int) -> int {
    match op {
        BvOp::Add => (a + b) % (WORD as int),
        BvOp::Sub => (a - b) % (WORD as int),
        BvOp::Mul => (a * b) % (WORD as int),
        BvOp::UDiv => if b == 0 {
            WORD - 1
        } else {
            a / b
        },
        BvOp::URem => if b == 0 {
            a
        } else {
            a % b
        },
        BvOp::SDiv => if b == 0 {
            if signed(a, 32) < 0 {
                1
            } else {
                WORD - 1
            }
        } else {
            trunc_div(signed(a, 32), signed(b, 32)) % (WORD as int)
        },
        BvOp::SRem => if b == 0 {
            a
        } else {
            trunc_rem(signed(a, 32), signed(b, 32)) % (WORD as int)
        },
        BvOp::And => ((a as u32) & (b as u32)) as int,
        BvOp::Or => ((a as u32) | (b as u32)) as int,
        BvOp::Xor => ((a as u32) ^ (b as u32)) as int,
        BvOp::Shl => if b >= 32 {
            0
        } else {
            (a * pow2(b as nat)) % (WORD as int)
        },
        BvOp::LShr => if b >= 32 {
            0
        } else {
            a / (pow2(b as nat) as int)
        },
        BvOp::AShr => if b >= 32 {
            if signed(a, 32) < 0 {
                WORD - 1
            } else {
                0
            }
        } else {
            (signed(a, 32) / (pow2(b as nat) as int)) % (WORD as int)
        },
        BvOp::Rotl => rotate_left(a, b % 32),
        BvOp::Rotr => rotate_left(a, (32 - b % 32) % 32),
    }
}

/// The 32-bit vector `a` turned left by `k` places, `k` below 32.
pub open spec fn rotate_left(a: int, k: int) -> int {
    ((a * pow2(k as nat)) % (WORD as int) + a / (pow2((32 - k) as nat) as int)) % (WORD as int)
}

/// Whether `rel` holds between the `width`-bit vectors `a` and `b`.
pub open spec fn rel_holds(rel: Rel, a: int, b: int, width: u32) -> bool {
    match rel {
        Rel::Eq => a == b,
        Rel::Ult => a < b,
        Rel::Ule => a <= b,
        Rel::Ugt => a > b,
        Rel::Uge => a >= b,
        Rel::Slt => signed(a, width) < signed(b, width),
        Rel::Sle => signed(a, width) <= signed(b, width),
        Rel::Sgt => signed(a, width) > signed(b, width),
        Rel::Sge => signed(a, width) >= signed(b, width),
    }
}

/// The value that a model gives the variable `name` of `width` bits:
/// the model's entry cut to the width, and 0 where it has none.
pub open spec fn var_value(env: Map<Seq<char>, int>, name: Seq<char>, width: u32) -> int {
    if env.dom().contains(name) {
        env[name] % modulus(width)
    } else {
        0
    }
}

impl BvTerm {
    /// The number of bits of the term.
    pub open spec fn width(self) -> u32
        decreases self,
    {
        match self {
            BvTerm::Lit { width, .. } => width,
            BvTerm::Var { width, .. } => width,
            BvTerm::Bin { lhs, .. } => lhs.width(),
            BvTerm::Ite { on_true, .. } => on_true.width(),
            BvTerm::Select { .. } => 8,
            BvTerm::Concat { upper, lower } => (upper.width() + lower.width()) as u32,
            BvTerm::Extract { high, low, .. } => (high - low + 1) as u32,
            BvTerm::ZeroExt { extra, arg } => (arg.width() + extra) as u32,
            BvTerm::SignExt { extra, arg } => (arg.width() + extra) as u32,
        }
    }

    /// Whether the term is well-formed: every width is between 1 and 32,
    /// a literal fits its width, and the operands of every part have the
    /// widths that the part takes.
    pub open spec fn wf(self) -> bool
        decreases self,
    {
        match self {
            BvTerm::Lit { value, width } => 1 <= width <= 32 && value < modulus(width),
            BvTerm::Var { width, .. } => 1 <= width <= 32,
            BvTerm::Bin { lhs, rhs, .. } => lhs.wf() && rhs.wf() && lhs.width() == 32 && rhs.width() == 32,
            BvTerm::Ite { cond, on_true, on_false } => cond.wf() && on_true.wf() && on_false.wf()
                && on_true.width() == on_false.width(),
            BvTerm::Select { array, index } => array.wf() && index.wf() && index.width() == 32,
            BvTerm::Concat { upper, lower } => upper.wf() && lower.wf() && upper.width() + lower.width() <= 32,
            BvTerm::Extract { high, low, arg } => arg.wf() && low <= high < arg.width(),
            BvTerm::ZeroExt { extra, arg } => arg.wf() && arg.width() + extra <= 32,
            BvTerm::SignExt { extra, arg } => arg.wf() && arg.width() + extra <= 32,
        }
    }

    /// The unsigned number that the term denotes under the model `env`.
    pub open spec fn eval(self, env: Map<Seq<char>, int>) -> int
        decreases self,
    {
        match self {
            BvTerm::Lit { value, .. } => value as int,
            BvTerm::Var { name, width } => var_value(env, name@, width),
            BvTerm::Bin { op, lhs, rhs } => bv_op(op, lhs.eval(env), rhs.eval(env)),
            BvTerm::Ite { cond, on_true, on_false } => if cond.holds(env) {
                on_true.eval(env)
            } else {
                on_false.eval(env)
            },
            BvTerm::Select { array, index } => array.read(env, index.eval(env)),
            BvTerm::Concat { upper, lower } => upper.eval(env) * modulus(lower.width()) + lower.eval(
                env,
            ),
            BvTerm::Extract { high, low, arg } => (arg.eval(env) / modulus(low)) % modulus(
                (high - low + 1) as u32,
            ),
            BvTerm::ZeroExt { arg, .. } => arg.eval(env),
            BvTerm::SignExt { extra, arg } => {
                let x = arg.eval(env);
                if 2 * x >= modulus(arg.width()) {
                    x + modulus((arg.width() + extra) as u32) - modulus(arg.width())
                } else {
                    x
                }
            },
        }
    }
}

impl BoolTerm {
    /// Whether the term is well-formed: so are its parts, and a relation
    /// holds between vectors of one width.
    pub open spec fn wf(self) -> bool
        decreases self,
    {
        match self {
            BoolTerm::Compare { lhs, rhs, .. } => lhs.wf() && rhs.wf() && lhs.width() == rhs.width(),
            BoolTerm::Not { arg } => arg.wf(),
        }
    }

    /// Whether the term is true under the model `env`.
    pub open spec fn holds(self, env: Map<Seq<char>, int>) -> bool
        decreases self,
    {
        match self {
            BoolTerm::Compare { rel, lhs, rhs } => rel_holds(
                rel,
                lhs.eval(env),
                rhs.eval(env),
                lhs.width(),
            ),
            BoolTerm::Not { arg } => !arg.holds(env),
        }
    }
}

impl ArrayTerm {
    /// Whether the term is well-formed: every store writes a byte at a
    /// 32-bit address.
    pub open spec fn wf(self) -> bool
        decreases self,
    {
        match self {
            ArrayTerm::Fill { .. } => true,
            ArrayTerm::Store { array, index, value } => array.wf() && index.wf() && value.wf()
                && index.width() == 32 && value.width() == 8,
        }
    }

    /// The byte that the array holds at `addr` under the model `env`.
    pub open spec fn read(self, env: Map<Seq<char>, int>, addr: int) -> int
        decreases self,
    {
        match self {
            ArrayTerm::Fill { byte } => byte as int,
            ArrayTerm::Store { array, index, value } => if index.eval(env) == addr {
                value.eval(env)
            } else {
                array.read(env, addr)
            },
        }
    }
}

/// The values of `pow2` that the widths in use need.
pub proof fn lemma_modulus_values()
    ensures
        modulus(0) == 1,
        modulus(1) == 2,
        modulus(8) == 0x100,
        modulus(16) == 0x1_0000,
        modulus(24) == 0x100_0000,
        modulus(32) == WORD,
        forall|w: u32| 0 < #[trigger] modulus(w),
{
    lemma2_to64();
    assert forall|w: u32| 0 < #[trigger] modulus(w) by {
        lemma_pow2_pos(w as nat);
    }
}

/// `modulus` of a sum of widths is the product of their moduli.
pub proof fn lemma_modulus_adds(a: u32, b: u32)
    requires
        a + b <= u32::MAX,
    ensures
        modulus((a + b) as u32) == modulus(a) * modulus(b),
        modulus(a) > 0,
        modulus(b) > 0,
{
    lemma_pow2_adds(a as nat, b as nat);
    lemma_pow2_pos(a as nat);
    lemma_pow2_pos(b as nat);
}

/// `modulus` grows with the width.
pub proof fn lemma_modulus_monotonic(a: u32, b: u32)
    requires
        a <= b,
    ensures
        0 < modulus(a) <= modulus(b),
{
    lemma_modulus_adds(a, (b - a) as u32);
    assert(modulus(a) <= modulus(a) * modulus((b - a) as u32)) by (nonlinear_arith)
        requires
            modulus(a) > 0,
            modulus((b - a) as u32) > 0,
    ;
}

/// Every operation gives a 32-bit vector.
pub proof fn lemma_bv_op_range(op: BvOp, a: int, b: int)
    requires
        0 <= a < WORD,
        0 <= b < WORD,
    ensures
        0 <= bv_op(op, a, b) < WORD,
{
    lemma_modulus_values();
    match op {
        BvOp::UDiv => {
            if b != 0 {
                assert(0 <= a / b <= a) by (nonlinear_arith)
                    requires
                        0 <= a,
                        0 < b,
                ;
            }
        },
        BvOp::URem => {
            if b != 0 {
                assert(0 <= a % b < b) by (nonlinear_arith)
                    requires
                        0 <= a,
                        0 < b,
                ;
            }
        },
        BvOp::LShr => {
            if b < 32 {
                lemma_pow2_pos(b as nat);
                let d = pow2(b as nat) as int;
                assert(0 <= a / d <= a) by (nonlinear_arith)
                    requires
                        0 <= a,
                        0 < d,
                ;
            }
        },
        _ => {},
    }
}

impl BvTerm {
    /// A well-formed term denotes a vector of its width.
    pub proof fn lemma_eval_range(self, env: Map<Seq<char>, int>)
        requires
            self.wf(),
        ensures
            0 <= self.eval(env) < modulus(self.width()),
            1 <= self.width() <= 32,
        decreases self,
    {
        lemma_modulus_values();
        match self {
            BvTerm::Lit { .. } => {},
            BvTerm::Var { name, width } => {
                if env.dom().contains(name@) {
                    let m = modulus(width);
                    let v = env[name@];
                    assert(0 <= v % m < m) by (nonlinear_arith)
                        requires
                            m > 0,
                    ;
                }
            },
            BvTerm::Bin { op, lhs, rhs } => {
                lhs.lemma_eval_range(env);
                rhs.lemma_eval_range(env);
                lemma_bv_op_range(op, lhs.eval(env), rhs.eval(env));
            },
            BvTerm::Ite { cond, on_true, on_false } => {
                on_true.lemma_eval_range(env);
                on_false.lemma_eval_range(env);
            },
            BvTerm::Select { array, index } => {
                array.lemma_read_range(env, index.eval(env));
            },
            BvTerm::Concat { upper, lower } => {
                upper.lemma_eval_range(env);
                lower.lemma_eval_range(env);
                lemma_modulus_adds(upper.width(), lower.width());
                let u = upper.eval(env);
                let l = lower.eval(env);
                let mu = modulus(upper.width());
                let ml = modulus(lower.width());
                assert(0 <= u * ml + l < mu * ml) by (nonlinear_arith)
                    requires
                        0 <= u < mu,
                        0 <= l < ml,
                ;
            },
            BvTerm::Extract { high, low, arg } => {
                arg.lemma_eval_range(env);
                let x = arg.eval(env) / modulus(low);
                let m = modulus((high - low + 1) as u32);
                assert(0 <= x % m < m) by (nonlinear_arith)
                    requires
                        m > 0,
                ;
            },
            BvTerm::ZeroExt { extra, arg } => {
                arg.lemma_eval_range(env);
                lemma_modulus_monotonic(arg.width(), (arg.width() + extra) as u32);
            },
            BvTerm::SignExt { extra, arg } => {
                arg.lemma_eval_range(env);
                lemma_modulus_monotonic(arg.width(), (arg.width() + extra) as u32);
            },
        }
    }
}

impl ArrayTerm {
    /// A well-formed array holds a byte at every address.
    pub proof fn lemma_read_range(self, env: Map<Seq<char>, int>, addr: int)
        requires
            self.wf(),
        ensures
            0 <= self.read(env, addr) < 0x100,
        decreases self,
    {
        lemma_modulus_values();
        match self {
            ArrayTerm::Fill { .. } => {},
            ArrayTerm::Store { array, index, value } => {
                value.lemma_eval_range(env);
                array.lemma_read_range(env, addr);
            },
        }
    }
}

/// 2 to the power `k`, for `k` up to 32.
pub fn pow2_u64(k: u32) -> (r: u64)
    requires
        k <= 32,
    ensures
        r == pow2(k as nat),
        r == modulus(k),
        1 <= r <= WORD,
{
    proof {
        lemma_modulus_values();
        lemma_modulus_monotonic(k, 32);
    }
    let mut r: u64 = 1;
    let mut i: u32 = 0;
    while i < k
        invariant
            i <= k <= 32,
            r == pow2(i as nat),
            r <= pow2(k as nat) <= WORD,
        decreases k - i,
    {
        proof {
            lemma_pow2_unfold((i + 1) as nat);
            lemma_modulus_monotonic((i + 1) as u32, k);
        }
        r = r * 2;
        i = i + 1;
    }
    r
}

/// The signed reading of a 32-bit vector, as a wider machine integer.
pub fn signed_u32(x: u32) -> (r: i64)
    ensures
        r == signed(x as int, 32),
{
    proof {
        lemma_modulus_values();
    }
    if x >= 0x8000_0000 {
        x as i64 - 0x1_0000_0000
    } else {
        x as i64
    }
}

/// The 32-bit vector whose signed reading is `x` modulo `WORD`.
pub fn wrap_i64(x: i64) -> (r: u32)
    requires
        -(WORD as int) <= x < WORD,
    ensures
        r == (x as int) % (WORD as int),
{
    if x < 0 {
        (x + 0x1_0000_0000) as u32
    } else {
        x as u32
    }
}

/// Division rounding toward zero on machine integers.
fn trunc_div_i64(x: i64, d: i64) -> (r: i64)
    requires
        -0x8000_0000 <= x < 0x8000_0000,
        -0x8000_0000 <= d < 0x8000_0000,
        d != 0,
    ensures
        r == trunc_div(x as int, d as int),
        -0x8000_0000 <= r <= 0x8000_0000,
{
    let ax: u64 = if x < 0 { (-x) as u64 } else { x as u64 };
    let ad: u64 = if d < 0 { (-d) as u64 } else { d as u64 };
    let q: u64 = ax / ad;
    assert(0 <= q <= ax) by (nonlinear_arith)
        requires
            q == ax / ad,
            0 < ad,
            0 <= ax,
    ;
    if (x < 0) == (d < 0) {
        q as i64
    } else {
        -(q as i64)
    }
}

impl BvOp {
    /// Computes the operation on two 32-bit vectors.
    pub fn apply(self, a: u32, b: u32) -> (r: u32)
        ensures
            r == bv_op(self, a as int, b as int),
    {
        proof {
            lemma_modulus_values();
        }
        match self {
            BvOp::Add => ((a as u64 + b as u64) % WORD) as u32,
            BvOp::Sub => ((a as u64 + WORD - b as u64) % WORD) as u32,
            BvOp::Mul => {
                assert(a * b <= 0xffff_ffff * 0xffff_ffff) by (nonlinear_arith)
                    requires
                        0 <= a <= 0xffff_ffff,
                        0 <= b <= 0xffff_ffff,
                ;
                ((a as u64 * b as u64) % WORD) as u32
            },
            BvOp::UDiv => if b == 0 {
                0xffff_ffff
            } else {
                a / b
            },
            BvOp::URem => if b == 0 {
                a
            } else {
                a % b
            },
            BvOp::SDiv => if b == 0 {
                if a >= 0x8000_0000 {
                    1
                } else {
                    0xffff_ffff
                }
            } else {
                wrap_i64(trunc_div_i64(signed_u32(a), signed_u32(b)))
            },
            BvOp::SRem => if b == 0 {
                a
            } else {
                let x = signed_u32(a);
                let d = signed_u32(b);
                let q = trunc_div_i64(x, d);
                proof {
                    lemma_trunc_rem_bound(x as int, d as int);
                }
                wrap_i64(x - d * q)
            },
            BvOp::And => a & b,
            BvOp::Or => a | b,
            BvOp::Xor => a ^ b,
            BvOp::Shl => if b >= 32 {
                0
            } else {
                shift_left(a, b)
            },
            BvOp::LShr => if b >= 32 {
                0
            } else {
                (a as u64 / pow2_u64(b)) as u32
            },
            BvOp::AShr => if b >= 32 {
                if a >= 0x8000_0000 {
                    0xffff_ffff
                } else {
                    0
                }
            } else {
                let d = pow2_u64(b);
                if a >= 0x8000_0000 {
                    let n: u64 = 0xffff_ffff - a as u64;
                    proof {
                        lemma_floor_div_negative(n as int, d as int);
                        assert(0 <= n / d <= n) by (nonlinear_arith)
                            requires
                                0 <= n,
                                0 < d,
                        ;
                    }
                    (0xffff_ffff - n / d) as u32
                } else {
                    (a as u64 / d) as u32
                }
            },
            BvOp::Rotl => turn_left(a, b % 32),
            BvOp::Rotr => turn_left(a, (32 - b % 32) % 32),
        }
    }
}

/// `a` times 2 to the `k`, cut to 32 bits.
fn shift_left(a: u32, k: u32) -> (r: u32)
    requires
        k <= 32,
    ensures
        r == (a * pow2(k as nat)) % (WORD as int),
{
    let p = pow2_u64(k);
    assert(a * p <= 0xffff_ffff * 0x1_0000_0000) by (nonlinear_arith)
        requires
            0 <= a <= 0xffff_ffff,
            0 <= p <= 0x1_0000_0000,
    ;
    ((a as u64 * p) % WORD) as u32
}

/// `a` turned left by `k` places.
fn turn_left(a: u32, k: u32) -> (r: u32)
    requires
        k < 32,
    ensures
        r == rotate_left(a as int, k as int),
{
    let low = pow2_u64(32 - k);
    let up = shift_left(a, k);
    let down = a as u64 / low;
    assert(0 <= down <= a) by (nonlinear_arith)
        requires
            down == a as u64 / low,
            0 < low,
            0 <= a,
    ;
    ((up as u64 + down) % WORD) as u32
}

/// The remainder of a truncating division of 32-bit signed numbers is
/// smaller in size than the divisor.
proof fn lemma_trunc_rem_bound(x: int, d: int)
    requires
        d != 0,
        -0x8000_0000 <= x < 0x8000_0000,
        -0x8000_0000 <= d < 0x8000_0000,
    ensures
        -0x8000_0000 < trunc_rem(x, d) < 0x8000_0000,
        -0x8000_0000 * 0x8000_0000 <= d * trunc_div(x, d) <= 0x8000_0000 * 0x8000_0000,
{
    let ax = if x < 0 { -x } else { x };
    let ad = if d < 0 { -d } else { d };
    let q = ax / ad;
    let r = ax % ad;
    assert(ax == ad * q + r && 0 <= r < ad && 0 <= q <= ax) by (nonlinear_arith)
        requires
            q == ax / ad,
            r == ax % ad,
            0 <= ax,
            0 < ad,
    ;
    assert(ad * q <= ax);
    if x >= 0 && d > 0 {
        assert(trunc_rem(x, d) == r);
    } else if x < 0 && d < 0 {
        assert(d * q == -(ad * q)) by (nonlinear_arith)
            requires
                d == -ad,
        ;
        assert(trunc_rem(x, d) == -r);
    } else if x < 0 {
        assert(d * (-q) == -(ad * q)) by (nonlinear_arith)
            requires
                d == ad,
        ;
        assert(trunc_rem(x, d) == -r);
    } else {
        assert(d * (-q) == ad * q) by (nonlinear_arith)
            requires
                d == -ad,
        ;
        assert(trunc_rem(x, d) == r);
    }
}

/// Floor division of the negative number `-n - 1` by a positive `d`.
proof fn lemma_floor_div_negative(n: int, d: int)
    requires
        0 <= n,
        0 < d,
    ensures
        (-n - 1) / d == -1 - n / d,
{
    let q = n / d;
    let r = n % d;
    assert(n == d * q + r && 0 <= r < d) by (nonlinear_arith)
        requires
            q == n / d,
            r == n % d,
            0 < d,
    ;
    assert(-n - 1 == (-1 - q) * d + (d - 1 - r)) by (nonlinear_arith)
        requires
            n == d * q + r,
    ;
    vstd::arithmetic::div_mod::lemma_fundamental_div_mod_converse(-n - 1, d, -1 - q, d - 1 - r);
}

/// The signed reading of a vector of `width` bits, as a wider machine integer.
pub fn signed_of(x: u32, width: u32) -> (r: i64)
    requires
        1 <= width <= 32,
        x < modulus(width),
    ensures
        r == signed(x as int, width),
{
    let m = pow2_u64(width);
    if 2 * (x as u64) >= m {
        x as i64 - m as i64
    } else {
        x as i64
    }
}

impl Rel {
    /// Decides the relation between two vectors of `width` bits.
    pub fn test(self, a: u32, b: u32, width: u32) -> (r: bool)
        requires
            1 <= width <= 32,
            a < modulus(width),
            b < modulus(width),
        ensures
            r == rel_holds(self, a as int, b as int, width),
    {
        match self {
            Rel::Eq => a == b,
            Rel::Ult => a < b,
            Rel::Ule => a <= b,
            Rel::Ugt => a > b,
            Rel::Uge => a >= b,
            Rel::Slt => signed_of(a, width) < signed_of(b, width),
            Rel::Sle => signed_of(a, width) <= signed_of(b, width),
            Rel::Sgt => signed_of(a, width) > signed_of(b, width),
            Rel::Sge => signed_of(a, width) >= signed_of(b, width),
        }
    }
}

impl Clone for BvTerm {
    fn clone(&self) -> (r: Self)
        ensures
            r == *self,
        decreases self,
    {
        match self {
            BvTerm::Lit { value, width } => BvTerm::Lit { value: *value, width: *width },
            BvTerm::Var { name, width } => BvTerm::Var { name: name.clone(), width: *width },
            BvTerm::Bin { op, lhs, rhs } => BvTerm::Bin {
                op: *op,
                lhs: Box::new((&**lhs).clone()),
                rhs: Box::new((&**rhs).clone()),
            },
            BvTerm::Ite { cond, on_true, on_false } => BvTerm::Ite {
                cond: Box::new((&**cond).clone()),
                on_true: Box::new((&**on_true).clone()),
                on_false: Box::new((&**on_false).clone()),
            },
            BvTerm::Select { array, index } => BvTerm::Select {
                array: Box::new((&**array).clone()),
                index: Box::new((&**index).clone()),
            },
            BvTerm::Concat { upper, lower } => BvTerm::Concat {
                upper: Box::new((&**upper).clone()),
                lower: Box::new((&**lower).clone()),
            },
            BvTerm::Extract { high, low, arg } => BvTerm::Extract {
                high: *high,
                low: *low,
                arg: Box::new((&**arg).clone()),
            },
            BvTerm::ZeroExt { extra, arg } => BvTerm::ZeroExt {
                extra: *extra,
                arg: Box::new((&**arg).clone()),
            },
            BvTerm::SignExt { extra, arg } => BvTerm::SignExt {
                extra: *extra,
                arg: Box::new((&**arg).clone()),
            },
        }
    }
}

impl Clone for BoolTerm {
    fn clone(&self) -> (r: Self)
        ensures
            r == *self,
        decreases self,
    {
        match self {
            BoolTerm::Compare { rel, lhs, rhs } => BoolTerm::Compare {
                rel: *rel,
                lhs: Box::new((&**lhs).clone()),
                rhs: Box::new((&**rhs).clone()),
            },
            BoolTerm::Not { arg } => BoolTerm::Not { arg: Box::new((&**arg).clone()) },
        }
    }
}

impl Clone for ArrayTerm {
    fn clone(&self) -> (r: Self)
        ensures
            r == *self,
        decreases self,
    {
        match self {
            ArrayTerm::Fill { byte } => ArrayTerm::Fill { byte: *byte },
            ArrayTerm::Store { array, index, value } => ArrayTerm::Store {
                array: Box::new((&**array).clone()),
                index: Box::new((&**index).clone()),
                value: Box::new((&**value).clone()),
            },
        }
    }
}

/// Whether every constraint holds under the model `env`.
pub open spec fn holds_all(constraints: Seq<BoolTerm>, env: Map<Seq<char>, int>) -> bool {
    forall|i: int| 0 <= i < constraints.len() ==> (#[trigger] constraints[i]).holds(env)
}

/// Whether some model makes every constraint hold.
pub open spec fn satisfiable(constraints: Seq<BoolTerm>) -> bool {
    exists|env: Map<Seq<char>, int>| holds_all(constraints, env)
}

} // verus!