use vstd::prelude::*;

verus! {

/// Index of a function in `Module::funcs`.
pub type FunctionId = usize;

/// Index of a local in `Module::locals`.
pub type LocalId = usize;

/// Index of an instruction sequence in `Module::seqs`.
pub type InstrSeqId = usize;

/// The position that an instruction had in the binary it was read from.
pub type InstrLocId = u32;

/// The type of a value on the stack or in a local.
#[derive(Clone, Copy, Debug, PartialEq, Eq, Structural)]
pub enum ValType {
    I32,
    I64,
    F32,
    F64,
    V128,
    Externref,
    Funcref,
}

/// The two-operand instructions on 32-bit integers.
#[derive(Clone, Copy, Debug, PartialEq, Eq, Structural)]
pub enum BinaryOp {
    I32Eq,
    I32Ne,
    I32LtS,
    I32LtU,
    I32GtS,
    I32GtU,
    I32LeS,
    I32LeU,
    I32GeS,
    I32GeU,
    I32Add,
    I32Sub,
    I32Mul,
    I32DivS,
    I32DivU,
    I32RemS,
    I32RemU,
    I32And,
    I32Or,
    I32Xor,
    I32Shl,
    I32ShrS,
    I32ShrU,
    I32Rotl,
    I32Rotr,
}

/// The one-operand instructions on 32-bit integers.
#[derive(Clone, Copy, Debug, PartialEq, Eq, Structural)]
pub enum UnaryOp {
    I32Eqz,
}

/// How a load narrower than its result fills the upper bits.
#[derive(Clone, Copy, Debug, PartialEq, Eq, Structural)]
pub enum ExtendedLoad {
    SignExtend,
    ZeroExtend,
}

/// The width of a load into a 32-bit result.
#[derive(Clone, Copy, Debug, PartialEq, Eq, Structural)]
pub enum LoadKind {
    I32,
    I32_8 { kind: ExtendedLoad },
    I32_16 { kind: ExtendedLoad },
}

/// The width of a store from a 32-bit operand.
#[derive(Clone, Copy, Debug, PartialEq, Eq, Structural)]
pub enum StoreKind {
    I32,
    I32_8,
    I32_16,
}

/// One instruction. A nested sequence is named by its index.
#[allow(inconsistent_fields)]
#[derive(Clone, Copy, Debug, PartialEq, Eq, Structural)]
pub enum Instr {
    Block { seq: InstrSeqId },
    Loop { seq: InstrSeqId },
    Call { func: FunctionId },
    LocalGet { local: LocalId },
    LocalSet { local: LocalId },
    LocalTee { local: LocalId },
    GlobalGet { global: usize },
    GlobalSet { global: usize },
    Const { value: i32 },
    Binop { op: BinaryOp },
    Unop { op: UnaryOp },
    Select,
    Br { block: InstrSeqId },
    BrIf { block: InstrSeqId },
    IfElse { consequent: InstrSeqId, alternative: InstrSeqId },
    Drop,
    Return,
    MemorySize,
    MemoryGrow,
    Load { kind: LoadKind, offset: u32 },
    Store { kind: StoreKind, offset: u32 },
    /// Any instruction that the engine does not run.
    Unsupported,
}

/// A sequence of instructions, each with its location.
#[derive(Debug)]
pub struct InstrSeq {
    pub instrs: Vec<(Instr, InstrLocId)>,
}

/// A function with a body in this module.
#[derive(Debug)]
pub struct LocalFunction {
    /// The parameters, in the order of their declaration.
    pub args: Vec<LocalId>,
    /// The sequence at which the body starts.
    pub entry: InstrSeqId,
}

/// Whether a function has a body in this module.
#[derive(Debug)]
pub enum FunctionKind {
    Import,
    Uninitialized,
    Local(LocalFunction),
}

/// A function of a module.
#[derive(Debug)]
pub struct Function {
    pub name: Option<String>,
    pub kind: FunctionKind,
}

/// A declared linear memory.
#[derive(Clone, Copy, Debug)]
pub struct MemoryDecl {
    /// The number of pages that the memory starts with.
    pub initial: u32,
}

/// A module: its functions, the instruction sequences of all their bodies,
/// the types of all their locals, and its memories.
#[derive(Debug)]
pub struct Module {
    pub funcs: Vec<Function>,
    pub seqs: Vec<InstrSeq>,
    pub locals: Vec<ValType>,
    pub memories: Vec<MemoryDecl>,
}

impl LocalFunction {
    /// The sequence at which the body starts.
    pub fn entry_block(&self) -> (r: InstrSeqId)
        ensures
            r == self.entry,
    {
        self.entry
    }
}

impl Module {
    /// Whether `instr` may stand in the sequence `seq` of this module:
    /// a nested sequence has a larger index than the one that holds it, a
    /// branch names the sequence that holds it or one before it, and a
    /// call names a function of the module.
    pub open spec fn instr_wf(&self, instr: Instr, seq: int) -> bool {
        match instr {
            Instr::Block { seq: sub } => seq < sub < self.seqs.len(),
            Instr::Loop { seq: sub } => seq < sub < self.seqs.len(),
            Instr::IfElse { consequent, alternative } => seq < consequent < self.seqs.len() && seq
                < alternative < self.seqs.len(),
            Instr::Br { block } => block <= seq,
            Instr::BrIf { block } => block <= seq,
            Instr::Call { func } => func < self.funcs.len(),
            _ => true,
        }
    }

    /// Whether `local` is a local of the module and a 32-bit integer.
    pub open spec fn local_wf(&self, local: LocalId) -> bool {
        local < self.locals.len() && self.locals[local as int] == ValType::I32
    }

    /// Whether the sequence `id` is an arm of some conditional.
    pub open spec fn is_arm(&self, id: int) -> bool {
        exists|s: int, i: int|
            0 <= s < self.seqs.len() && 0 <= i < self.seqs[s].instrs.len() && self.arm_at(s, i, id)
    }

    /// Whether instruction `i` of sequence `s` is a conditional with the arm `id`.
    pub open spec fn arm_at(&self, s: int, i: int, id: int) -> bool {
        match #[trigger] self.seqs[s].instrs[i].0 {
            Instr::IfElse { consequent, alternative } => consequent == id || alternative == id,
            _ => false,
        }
    }

    /// Whether the function `f`, where it has a body, has an entry among
    /// the module's sequences.
    pub open spec fn func_wf(&self, f: int) -> bool {
        match self.funcs[f].kind {
            FunctionKind::Local(func) => func.entry < self.seqs.len(),
            _ => true,
        }
    }

    /// The invariant of a module that the engine can run.
    pub open spec fn wf(&self) -> bool {
        &&& forall|f: int| 0 <= f < self.funcs.len() ==> #[trigger] self.func_wf(f)
        &&& forall|s: int, i: int|
            0 <= s < self.seqs.len() && 0 <= i < self.seqs[s].instrs.len() ==> self.instr_wf(
                #[trigger] self.seqs[s].instrs[i].0,
                s,
            )
    }

    /// The sequence with the index `id`.
    pub fn block(&self, id: InstrSeqId) -> (r: &InstrSeq)
        requires
            id < self.seqs.len(),
        ensures
            *r == self.seqs[id as int],
    {
        &self.seqs[id]
    }
}

impl Module {
    /// Whether `instr` may stand in the sequence `seq`.
    fn instr_ok(&self, instr: &Instr, seq: usize) -> (ok: bool)
        requires
            seq < self.seqs.len(),
        ensures
            ok == self.instr_wf(*instr, seq as int),
    {
        let count = self.seqs.len();
        match instr {
            Instr::Block { seq: sub } => seq < *sub && *sub < count,
            Instr::Loop { seq: sub } => seq < *sub && *sub < count,
            Instr::IfElse { consequent, alternative } => seq < *consequent && *consequent < count
                && seq < *alternative && *alternative < count,
            Instr::Br { block } => *block <= seq,
            Instr::BrIf { block } => *block <= seq,
            Instr::Call { func } => *func < self.funcs.len(),
            _ => true,
        }
    }

    /// Whether `local` is a local of the module and a 32-bit integer.
    pub fn local_ok(&self, local: LocalId) -> (ok: bool)
        ensures
            ok == self.local_wf(local),
    {
        local < self.locals.len() && match self.locals[local] {
            ValType::I32 => true,
            _ => false,
        }
    }

    /// Decides whether the module is one that the engine can run.
    pub fn check(&self) -> (ok: bool)
        ensures
            ok == self.wf(),
    {
        let mut f: usize = 0;
        while f < self.funcs.len()
            invariant
                f <= self.funcs.len(),
                forall|g: int| 0 <= g < f ==> #[trigger] self.func_wf(g),
            decreases self.funcs.len() - f,
        {
            if let FunctionKind::Local(func) = &self.funcs[f].kind {
                if func.entry >= self.seqs.len() {
                    assert(!self.func_wf(f as int));
                    return false;
                }
            }
            f = f + 1;
        }
        let mut s: usize = 0;
        while s < self.seqs.len()
            invariant
                s <= self.seqs.len(),
                forall|t: int, i: int|
                    0 <= t < s && 0 <= i < self.seqs[t].instrs.len() ==> self.instr_wf(
                        #[trigger] self.seqs[t].instrs[i].0,
                        t,
                    ),
            decreases self.seqs.len() - s,
        {
            let instrs = &self.seqs[s].instrs;
            let mut i: usize = 0;
            while i < instrs.len()
                invariant
                    s < self.seqs.len(),
                    *instrs == self.seqs[s as int].instrs,
                    i <= instrs.len(),
                    forall|j: int|
                        0 <= j < i ==> self.instr_wf(#[trigger] self.seqs[s as int].instrs[j].0, s as int),
                decreases instrs.len() - i,
            {
                if !self.instr_ok(&instrs[i].0, s) {
                    assert(!self.instr_wf(self.seqs[s as int].instrs[i as int].0, s as int));
                    return false;
                }
                i = i + 1;
            }
            s = s + 1;
        }
        true
    }
}

} // verus!
