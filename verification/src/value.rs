use crate::ir::ValType;
use crate::term::{lemma_modulus_values, BvTerm, WORD};
use crate::text::{signed_decimal, signed_decimal_spec};
use vstd::prelude::*;
use vstd::string::StringExecFns;

verus! {

/// The 32 bits of `x`, read as an unsigned number.
pub open spec fn to_bits(x: i32) -> int {
    if x < 0 {
        x + WORD
    } else {
        x as int
    }
}

/// The signed integer whose bits are the unsigned number `b` below `WORD`.
pub open spec fn from_bits(b: int) -> i32 {
    if b >= 0x8000_0000 {
        (b - WORD) as i32
    } else {
        b as i32
    }
}

/// `from_bits` undoes `to_bits`, and the other way round.
pub proof fn lemma_bits_round_trip(x: i32, b: int)
    requires
        0 <= b < WORD,
    ensures
        0 <= to_bits(x) < WORD,
        from_bits(to_bits(x)) == x,
        to_bits(from_bits(b)) == b,
{
}

/// The bits of a signed integer.
pub fn bits_of(x: i32) -> (r: u32)
    ensures
        r == to_bits(x),
{
    let r = #[verifier::truncate] (x as u32);
    assert(r as int == (if x < 0 {
        x as int + 0x1_0000_0000int
    } else {
        x as int
    })) by (bit_vector)
        requires
            r == x as u32,
    ;
    r
}

/// The signed integer with the given bits.
pub fn of_bits(b: u32) -> (r: i32)
    ensures
        r == from_bits(b as int),
{
    let r = #[verifier::truncate] (b as i32);
    assert(r as int == (if b >= 0x8000_0000u32 {
        b as int - 0x1_0000_0000int
    } else {
        b as int
    })) by (bit_vector)
        requires
            r == b as i32,
    ;
    r
}

/// A concrete 32-bit integer.
#[derive(Clone, Copy, Debug, PartialEq, Eq, Structural)]
pub struct ConcVal(pub i32);

/// A symbolic value: a bit-vector term of 32 bits.
#[derive(Debug)]
pub enum SymVal {
    I32(BvTerm),
}

/// A value on the stack or in a local: concrete or symbolic.
#[derive(Debug)]
pub enum Val {
    Sym(SymVal),
    Conc(ConcVal),
}

impl ConcVal {
    /// The zero of a value type. Only 32-bit integers have one here.
    pub fn from_valtype(val_type: ValType) -> (r: ConcVal)
        requires
            val_type == ValType::I32,
        ensures
            r == ConcVal(0),
    {
        ConcVal(0)
    }

    /// The number.
    pub fn as_i32(&self) -> (r: i32)
        ensures
            r == self.0,
    {
        self.0
    }

    /// The literal term that stands for this value.
    pub open spec fn lift(self) -> BvTerm {
        BvTerm::Lit { value: to_bits(self.0) as u32, width: 32 }
    }
}

impl SymVal {
    /// The term inside.
    pub open spec fn term(self) -> BvTerm {
        match self {
            SymVal::I32(t) => t,
        }
    }

    /// Lifts a concrete value to the literal of the same bits and width.
    pub fn from_concrete(value: &ConcVal) -> (r: SymVal)
        ensures
            r == SymVal::I32(value.lift()),
            r.term().wf(),
    {
        proof {
            lemma_modulus_values();
        }
        SymVal::I32(BvTerm::Lit { value: bits_of(value.0), width: 32 })
    }

    /// A fresh symbolic value of the given type: the variable `name`.
    pub fn from_valtype(val_type: ValType, name: String) -> (r: SymVal)
        requires
            val_type == ValType::I32,
        ensures
            r == SymVal::I32(BvTerm::Var { name, width: 32 }),
    {
        SymVal::I32(BvTerm::Var { name, width: 32 })
    }

    /// The term.
    pub fn as_i32(&self) -> (r: &BvTerm)
        ensures
            *r == self.term(),
    {
        match self {
            SymVal::I32(term) => term,
        }
    }
}

impl Clone for SymVal {
    fn clone(&self) -> (r: Self)
        ensures
            r == *self,
    {
        match self {
            SymVal::I32(term) => SymVal::I32(term.clone()),
        }
    }
}

impl Val {
    /// The term that stands for the value: its own, or the literal of a
    /// concrete one.
    pub open spec fn term(self) -> BvTerm {
        match self {
            Val::Sym(val) => val.term(),
            Val::Conc(val) => val.lift(),
        }
    }

    /// A value is well-formed when its term is a well-formed 32-bit vector.
    pub open spec fn wf(self) -> bool {
        self.term().wf() && self.term().width() == 32
    }

    /// The bits of the value under the model `env`.
    pub open spec fn eval(self, env: Map<Seq<char>, int>) -> int {
        self.term().eval(env)
    }

    /// The value as a symbolic one. A symbolic value is returned as it
    /// is, a concrete one is lifted.
    pub fn as_sym(&self) -> (r: SymVal)
        ensures
            r == SymVal::I32(self.term()),
    {
        match self {
            Val::Sym(val) => val.clone(),
            Val::Conc(val) => SymVal::from_concrete(val),
        }
    }
}

impl Clone for Val {
    fn clone(&self) -> (r: Self)
        ensures
            r == *self,
    {
        match self {
            Val::Sym(val) => Val::Sym(val.clone()),
            Val::Conc(val) => Val::Conc(*val),
        }
    }
}

impl ConcVal {
    /// The value as text: its number and its type.
    pub open spec fn text(self) -> Seq<char> {
        signed_decimal_spec(self.0 as int) + ": i32"@
    }

    /// Writes the value: its number and its type.
    pub fn to_text(&self) -> (r: String)
        ensures
            r@ == self.text(),
    {
        let mut r = signed_decimal(self.0);
        r.append(": i32");
        r
    }
}

impl SymVal {
    /// The value as text: its term and its type.
    pub open spec fn text(self) -> Seq<char> {
        self.term().text() + ": i32"@
    }

    /// Writes the value: its term and its type.
    pub fn to_text(&self) -> (r: String)
        ensures
            r@ == self.text(),
    {
        let mut r = self.as_i32().to_text();
        r.append(": i32");
        r
    }
}

impl Val {
    /// The value as text.
    pub open spec fn text(self) -> Seq<char> {
        match self {
            Val::Sym(val) => val.text(),
            Val::Conc(val) => val.text(),
        }
    }

    /// Writes the value.
    pub fn to_text(&self) -> (r: String)
        ensures
            r@ == self.text(),
    {
        match self {
            Val::Sym(val) => val.to_text(),
            Val::Conc(val) => val.to_text(),
        }
    }
}

} // verus!