use crate::term::{ArrayTerm, BoolTerm, BvOp, BvTerm, Rel};
use crate::text::{bits_spec, bits_text, decimal, decimal_spec};
use vstd::prelude::*;
use vstd::string::StringExecFns;

verus! {

/// The name of a bit-vector function in the solver's language.
pub open spec fn op_name(op: BvOp) -> Seq<char> {
    match op {
        BvOp::Add => "bvadd"@,
        BvOp::Sub => "bvsub"@,
        BvOp::Mul => "bvmul"@,
        BvOp::SDiv => "bvsdiv"@,
        BvOp::UDiv => "bvudiv"@,
        BvOp::SRem => "bvsrem"@,
        BvOp::URem => "bvurem"@,
        BvOp::And => "bvand"@,
        BvOp::Or => "bvor"@,
        BvOp::Xor => "bvxor"@,
        BvOp::Shl => "bvshl"@,
        BvOp::LShr => "bvlshr"@,
        BvOp::AShr => "bvashr"@,
        BvOp::Rotl => "ext_rotate_left"@,
        BvOp::Rotr => "ext_rotate_right"@,
    }
}

/// The name of a relation in the solver's language.
pub open spec fn rel_name(rel: Rel) -> Seq<char> {
    match rel {
        Rel::Eq => "="@,
        Rel::Ult => "bvult"@,
        Rel::Ule => "bvule"@,
        Rel::Ugt => "bvugt"@,
        Rel::Uge => "bvuge"@,
        Rel::Slt => "bvslt"@,
        Rel::Sle => "bvsle"@,
        Rel::Sgt => "bvsgt"@,
        Rel::Sge => "bvsge"@,
    }
}

/// An application with two arguments: `(head a b)`.
pub open spec fn apply2(head: Seq<char>, a: Seq<char>, b: Seq<char>) -> Seq<char> {
    "("@ + head + " "@ + a + " "@ + b + ")"@
}

/// An application with three arguments: `(head a b c)`.
pub open spec fn apply3(head: Seq<char>, a: Seq<char>, b: Seq<char>, c: Seq<char>) -> Seq<char> {
    "("@ + head + " "@ + a + " "@ + b + " "@ + c + ")"@
}

/// An indexed function applied to one argument: `((_ head n ..) a)`.
pub open spec fn indexed(head: Seq<char>, a: Seq<char>) -> Seq<char> {
    "((_ "@ + head + ") "@ + a + ")"@
}

/// A literal: eight hexadecimal digits at 32 bits, else its number and width.
pub open spec fn literal_text(value: u32, width: u32) -> Seq<char> {
    if width == 32 {
        bits_spec(value)
    } else {
        "(_ bv"@ + decimal_spec(value as nat) + " "@ + decimal_spec(width as nat) + ")"@
    }
}

impl BvTerm {
    /// The term in the solver's language.
    pub open spec fn text(self) -> Seq<char>
        decreases self,
    {
        match self {
            BvTerm::Lit { value, width } => literal_text(value, width),
            BvTerm::Var { name, .. } => name@,
            BvTerm::Bin { op, lhs, rhs } => apply2(op_name(op), lhs.text(), rhs.text()),
            BvTerm::Ite { cond, on_true, on_false } => apply3(
                "ite"@,
                cond.text(),
                on_true.text(),
                on_false.text(),
            ),
            BvTerm::Select { array, index } => apply2("select"@, array.text(), index.text()),
            BvTerm::Concat { upper, lower } => apply2("concat"@, upper.text(), lower.text()),
            BvTerm::Extract { high, low, arg } => indexed(
                "extract "@ + decimal_spec(high as nat) + " "@ + decimal_spec(low as nat),
                arg.text(),
            ),
            BvTerm::ZeroExt { extra, arg } => indexed(
                "zero_extend "@ + decimal_spec(extra as nat),
                arg.text(),
            ),
            BvTerm::SignExt { extra, arg } => indexed(
                "sign_extend "@ + decimal_spec(extra as nat),
                arg.text(),
            ),
        }
    }
}

impl BoolTerm {
    /// The term in the solver's language.
    pub open spec fn text(self) -> Seq<char>
        decreases self,
    {
        match self {
            BoolTerm::Compare { rel, lhs, rhs } => apply2(rel_name(rel), lhs.text(), rhs.text()),
            BoolTerm::Not { arg } => "(not "@ + arg.text() + ")"@,
        }
    }
}

impl ArrayTerm {
    /// The term in the solver's language.
    pub open spec fn text(self) -> Seq<char>
        decreases self,
    {
        match self {
            ArrayTerm::Fill { byte } => "((as const (Array (_ BitVec 32) (_ BitVec 8))) "@
                + literal_text(byte as u32, 8) + ")"@,
            ArrayTerm::Store { array, index, value } => apply3(
                "store"@,
                array.text(),
                index.text(),
                value.text(),
            ),
        }
    }
}

fn name_of_op(op: BvOp) -> (r: &'static str)
    ensures
        r@ == op_name(op),
{
    match op {
        BvOp::Add => "bvadd",
        BvOp::Sub => "bvsub",
        BvOp::Mul => "bvmul",
        BvOp::SDiv => "bvsdiv",
        BvOp::UDiv => "bvudiv",
        BvOp::SRem => "bvsrem",
        BvOp::URem => "bvurem",
        BvOp::And => "bvand",
        BvOp::Or => "bvor",
        BvOp::Xor => "bvxor",
        BvOp::Shl => "bvshl",
        BvOp::LShr => "bvlshr",
        BvOp::AShr => "bvashr",
        BvOp::Rotl => "ext_rotate_left",
        BvOp::Rotr => "ext_rotate_right",
    }
}

fn name_of_rel(rel: Rel) -> (r: &'static str)
    ensures
        r@ == rel_name(rel),
{
    match rel {
        Rel::Eq => "=",
        Rel::Ult => "bvult",
        Rel::Ule => "bvule",
        Rel::Ugt => "bvugt",
        Rel::Uge => "bvuge",
        Rel::Slt => "bvslt",
        Rel::Sle => "bvsle",
        Rel::Sgt => "bvsgt",
        Rel::Sge => "bvsge",
    }
}

fn write2(head: &str, a: &String, b: &String) -> (r: String)
    ensures
        r@ == apply2(head@, a@, b@),
{
    let mut r = String::from_str("(");
    r.append(head);
    r.append(" ");
    r.append(a.as_str());
    r.append(" ");
    r.append(b.as_str());
    r.append(")");
    r
}

fn write3(head: &str, a: &String, b: &String, c: &String) -> (r: String)
    ensures
        r@ == apply3(head@, a@, b@, c@),
{
    let mut r = String::from_str("(");
    r.append(head);
    r.append(" ");
    r.append(a.as_str());
    r.append(" ");
    r.append(b.as_str());
    r.append(" ");
    r.append(c.as_str());
    r.append(")");
    r
}

fn write_indexed(head: &String, a: &String) -> (r: String)
    ensures
        r@ == indexed(head@, a@),
{
    let mut r = String::from_str("((_ ");
    r.append(head.as_str());
    r.append(") ");
    r.append(a.as_str());
    r.append(")");
    r
}

/// Writes a literal.
pub fn write_literal(value: u32, width: u32) -> (r: String)
    ensures
        r@ == literal_text(value, width),
{
    if width == 32 {
        bits_text(value)
    } else {
        let mut r = String::from_str("(_ bv");
        r.append(decimal(value as u64).as_str());
        r.append(" ");
        r.append(decimal(width as u64).as_str());
        r.append(")");
        r
    }
}

impl BvTerm {
    /// Writes the term in the solver's language.
    pub fn to_text(&self) -> (r: String)
        ensures
            r@ == self.text(),
        decreases self,
    {
        match self {
            BvTerm::Lit { value, width } => write_literal(*value, *width),
            BvTerm::Var { name, .. } => name.clone(),
            BvTerm::Bin { op, lhs, rhs } => write2(name_of_op(*op), &lhs.to_text(), &rhs.to_text()),
            BvTerm::Ite { cond, on_true, on_false } => write3(
                "ite",
                &cond.to_text(),
                &on_true.to_text(),
                &on_false.to_text(),
            ),
            BvTerm::Select { array, index } => write2("select", &array.to_text(), &index.to_text()),
            BvTerm::Concat { upper, lower } => write2("concat", &upper.to_text(), &lower.to_text()),
            BvTerm::Extract { high, low, arg } => {
                let mut head = String::from_str("extract ");
                head.append(decimal(*high as u64).as_str());
                head.append(" ");
                head.append(decimal(*low as u64).as_str());
                write_indexed(&head, &arg.to_text())
            },
            BvTerm::ZeroExt { extra, arg } => {
                let mut head = String::from_str("zero_extend ");
                head.append(decimal(*extra as u64).as_str());
                write_indexed(&head, &arg.to_text())
            },
            BvTerm::SignExt { extra, arg } => {
                let mut head = String::from_str("sign_extend ");
                head.append(decimal(*extra as u64).as_str());
                write_indexed(&head, &arg.to_text())
            },
        }
    }
}

impl BoolTerm {
    /// Writes the term in the solver's language.
    pub fn to_text(&self) -> (r: String)
        ensures
            r@ == self.text(),
        decreases self,
    {
        match self {
            BoolTerm::Compare { rel, lhs, rhs } => write2(
                name_of_rel(*rel),
                &lhs.to_text(),
                &rhs.to_text(),
            ),
            BoolTerm::Not { arg } => {
                let mut r = String::from_str("(not ");
                r.append(arg.to_text().as_str());
                r.append(")");
                r
            },
        }
    }
}

impl ArrayTerm {
    /// Writes the term in the solver's language.
    pub fn to_text(&self) -> (r: String)
        ensures
            r@ == self.text(),
        decreases self,
    {
        match self {
            ArrayTerm::Fill { byte } => {
                let mut r = String::from_str("((as const (Array (_ BitVec 32) (_ BitVec 8))) ");
                r.append(write_literal(*byte as u32, 8).as_str());
                r.append(")");
                r
            },
            ArrayTerm::Store { array, index, value } => write3(
                "store",
                &array.to_text(),
                &index.to_text(),
                &value.to_text(),
            ),
        }
    }
}

} // verus!
