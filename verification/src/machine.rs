use crate::context::{bin_op_spec, un_op_spec, zero32, Context};
use crate::ir::{BinaryOp, ExtendedLoad, Instr, LoadKind, StoreKind};
use crate::memory::{load_spec, store_bytes, Memory};
use crate::state::{Frame, FrameView, TrapReason};
use crate::term::{BoolTerm, BvTerm, Rel};
use crate::value::{from_bits, of_bits, ConcVal, SymVal, Val};
use vstd::prelude::*;

verus! {

broadcast use vstd::std_specs::hash::group_hash_axioms;

/// What the module must provide for an instruction to run and does not.
/// The engine stops on a fault: it is an error in the module, not a
/// result of the analysis.
#[derive(Clone, Copy, Debug, PartialEq, Eq, Structural)]
pub enum Fault {
    /// The value stack holds fewer operands than the instruction takes.
    StackUnderflow,
    /// The instruction reads a local that the frame does not hold.
    UnknownLocal,
    /// The instruction works on memory and the module has none.
    NoMemory,
    /// The instruction is one that the engine does not run.
    Unimplemented,
    /// A call names a function without a body.
    NoBody,
    /// A parameter of a function, or a local that it names, is no local
    /// of the module or no 32-bit integer.
    UnsupportedType,
    /// A branch names a sequence that has an end, and neither a `block`
    /// nor a `loop` introduced it.
    UnknownKind,
    /// The execution resumes within a sequence that it never entered.
    NotEntered,
}

/// Why a straight-line instruction did not run to its end.
#[derive(Clone, Copy, Debug, PartialEq, Eq, Structural)]
pub enum Stop {
    Trap(TrapReason),
    Fault(Fault),
}

/// The number of bits that a load reads.
pub open spec fn load_bits(kind: LoadKind) -> u32 {
    match kind {
        LoadKind::I32 => 32,
        LoadKind::I32_8 { .. } => 8,
        LoadKind::I32_16 { .. } => 16,
    }
}

/// Whether a load fills the upper bits with zeros.
pub open spec fn load_zero_extends(kind: LoadKind) -> bool {
    match kind {
        LoadKind::I32 => false,
        LoadKind::I32_8 { kind } => kind == ExtendedLoad::ZeroExtend,
        LoadKind::I32_16 { kind } => kind == ExtendedLoad::ZeroExtend,
    }
}

/// The number of bits that a store writes.
pub open spec fn store_bits(kind: StoreKind) -> u32 {
    match kind {
        StoreKind::I32 => 32,
        StoreKind::I32_8 => 8,
        StoreKind::I32_16 => 16,
    }
}

/// The number of operands that a straight-line instruction takes from the stack.
pub open spec fn operands(instr: Instr) -> nat {
    match instr {
        Instr::Drop => 1,
        Instr::Unop { .. } => 1,
        Instr::Binop { .. } => 2,
        Instr::LocalSet { .. } => 1,
        Instr::LocalTee { .. } => 1,
        Instr::Select => 3,
        Instr::BrIf { .. } => 1,
        Instr::IfElse { .. } => 1,
        Instr::MemoryGrow => 1,
        Instr::Load { .. } => 1,
        Instr::Store { .. } => 2,
        _ => 0,
    }
}

/// Whether an instruction works on memory.
pub open spec fn uses_memory(instr: Instr) -> bool {
    match instr {
        Instr::MemorySize => true,
        Instr::MemoryGrow => true,
        Instr::Load { .. } => true,
        Instr::Store { .. } => true,
        _ => false,
    }
}

/// The fault on which an instruction other than a call stops, if any.
pub open spec fn fault_of(frame: FrameView, memory: Option<Memory>, instr: Instr) -> Option<Fault> {
    if instr is Unsupported {
        Some(Fault::Unimplemented)
    } else if uses_memory(instr) && memory is None {
        Some(Fault::NoMemory)
    } else if frame.stack.len() < operands(instr) {
        Some(Fault::StackUnderflow)
    } else if instr matches Instr::LocalGet { local } && !frame.locals.dom().contains(local) {
        Some(Fault::UnknownLocal)
    } else {
        None
    }
}

/// The address of a memory access: the instruction's offset plus the index.
pub open spec fn access_index(offset: u32, index: Val) -> Val {
    bin_op_spec(BinaryOp::I32Add, Val::Conc(ConcVal(from_bits(offset as int))), index).unwrap()
}

/// The value that `select` leaves: the operand `a` where the condition
/// is zero, else `b`.
pub open spec fn select_spec(a: Val, b: Val, cond: Val) -> Val {
    Val::Sym(
        SymVal::I32(
            BvTerm::Ite {
                cond: Box::new(
                    BoolTerm::Compare {
                        rel: Rel::Eq,
                        lhs: Box::new(cond.term()),
                        rhs: Box::new(zero32()),
                    },
                ),
                on_true: Box::new(a.term()),
                on_false: Box::new(b.term()),
            },
        ),
    )
}

/// The stack without its last `n` values.
pub open spec fn below(stack: Seq<Val>, n: int) -> Seq<Val> {
    stack.take(stack.len() - n)
}

/// The `n`-th value from the top of the stack, the top being the first.
pub open spec fn top(stack: Seq<Val>, n: int) -> Val {
    stack[stack.len() - n]
}

/// What a straight-line instruction does to the current frame and the
/// memory, where it meets no fault. A division that traps leaves its
/// operands taken.
pub open spec fn straight_spec(frame: FrameView, memory: Option<Memory>, instr: Instr) -> (
    FrameView,
    Option<Memory>,
    Option<TrapReason>,
) {
    let stack = frame.stack;
    match instr {
        Instr::Drop => (FrameView { stack: below(stack, 1), ..frame }, memory, None),
        Instr::Unop { op } => (
            FrameView { stack: below(stack, 1).push(un_op_spec(op, top(stack, 1))), ..frame },
            memory,
            None,
        ),
        Instr::Binop { op } => match bin_op_spec(op, top(stack, 2), top(stack, 1)) {
            Ok(result) => (FrameView { stack: below(stack, 2).push(result), ..frame }, memory, None),
            Err(trap) => (FrameView { stack: below(stack, 2), ..frame }, memory, Some(trap)),
        },
        Instr::Const { value } => (
            FrameView { stack: stack.push(Val::Conc(ConcVal(value))), ..frame },
            memory,
            None,
        ),
        Instr::LocalGet { local } => (
            FrameView { stack: stack.push(frame.locals[local]), ..frame },
            memory,
            None,
        ),
        Instr::LocalSet { local } => (
            FrameView {
                stack: below(stack, 1),
                locals: frame.locals.insert(local, top(stack, 1)),
                ..frame
            },
            memory,
            None,
        ),
        Instr::LocalTee { local } => (
            FrameView { locals: frame.locals.insert(local, top(stack, 1)), ..frame },
            memory,
            None,
        ),
        Instr::Select => (
            FrameView {
                stack: below(stack, 3).push(
                    select_spec(top(stack, 3), top(stack, 2), top(stack, 1)),
                ),
                ..frame
            },
            memory,
            None,
        ),
        Instr::GlobalGet { .. } => (
            FrameView { stack: stack.push(Val::Conc(ConcVal(0))), ..frame },
            memory,
            None,
        ),
        Instr::GlobalSet { .. } => (
            FrameView {
                stack: if stack.len() > 0 {
                    below(stack, 1)
                } else {
                    stack
                },
                ..frame
            },
            memory,
            None,
        ),
        Instr::MemorySize => (
            FrameView { stack: stack.push(memory.unwrap().size), ..frame },
            memory,
            None,
        ),
        Instr::MemoryGrow => (
            frame,
            Some(
                Memory {
                    size: bin_op_spec(BinaryOp::I32Add, memory.unwrap().size, top(stack, 1)).unwrap(),
                    array: memory.unwrap().array,
                },
            ),
            None,
        ),
        Instr::Load { kind, offset } => (
            FrameView {
                stack: below(stack, 1).push(
                    Val::Sym(
                        SymVal::I32(
                            load_spec(
                                memory.unwrap().array,
                                access_index(offset, top(stack, 1)),
                                load_bits(kind),
                                32,
                                load_zero_extends(kind),
                            ),
                        ),
                    ),
                ),
                ..frame
            },
            memory,
            None,
        ),
        Instr::Store { kind, offset } => (
            FrameView { stack: below(stack, 2), ..frame },
            Some(
                Memory {
                    size: memory.unwrap().size,
                    array: store_bytes(
                        memory.unwrap().array,
                        access_index(offset, top(stack, 2)),
                        top(stack, 1).term(),
                        (store_bits(kind) / 8) as nat,
                    ),
                },
            ),
            None,
        ),
        _ => (frame, memory, None),
    }
}

/// Whether an instruction is straight-line: it works on the current frame
/// and the memory and passes control to the next instruction.
pub open spec fn is_straight(instr: Instr) -> bool {
    match instr {
        Instr::Block { .. } => false,
        Instr::Loop { .. } => false,
        Instr::Call { .. } => false,
        Instr::Br { .. } => false,
        Instr::BrIf { .. } => false,
        Instr::IfElse { .. } => false,
        Instr::Return => false,
        _ => true,
    }
}

/// Takes the top of a stack that is known to hold a value.
fn pop(stack: &mut Vec<Val>) -> (r: Val)
    requires
        old(stack)@.len() >= 1,
    ensures
        r == top(old(stack)@, 1),
        final(stack)@ == below(old(stack)@, 1),
{
    stack.pop().unwrap()
}

impl<'m> Context<'m> {
    /// The address of a memory access.
    fn access(&self, offset: u32, index: &Val) -> (r: Val)
        ensures
            r == access_index(offset, *index),
    {
        let base = Val::Conc(ConcVal(of_bits(offset)));
        self.bin_op(BinaryOp::I32Add, &base, index).unwrap()
    }

    /// Runs one straight-line instruction on the current frame and the memory.
    pub fn straight(&self, frame: &mut Frame, memory: &mut Option<Memory>, instr: &Instr) -> (r: Result<
        (),
        Stop,
    >)
        requires
            is_straight(*instr),
        ensures
            match fault_of(old(frame)@, *old(memory), *instr) {
                Some(fault) => r == Err::<(), Stop>(Stop::Fault(fault)) && final(frame)@ == old(
                    frame,
                )@ && *final(memory) == *old(memory),
                None => {
                    let (f, m, trap) = straight_spec(old(frame)@, *old(memory), *instr);
                    &&& final(frame)@ == f
                    &&& *final(memory) == m
                    &&& r == match trap {
                        Some(reason) => Err::<(), Stop>(Stop::Trap(reason)),
                        None => Ok(()),
                    }
                },
            },
    {
        let ghost stack0 = frame.value_stack@;
        let depth = frame.value_stack.len();
        match instr {
            Instr::Unsupported => {
                return Err(Stop::Fault(Fault::Unimplemented));
            },
            Instr::Drop => {
                if depth < 1 {
                    return Err(Stop::Fault(Fault::StackUnderflow));
                }
                pop(&mut frame.value_stack);
            },
            Instr::Unop { op } => {
                if depth < 1 {
                    return Err(Stop::Fault(Fault::StackUnderflow));
                }
                let operand = pop(&mut frame.value_stack);
                match self.un_op(*op, &operand) {
                    Ok(result) => {
                        frame.value_stack.push(result);
                    },
                    Err(trap) => {
                        return Err(Stop::Trap(trap));
                    },
                }
            },
            Instr::Binop { op } => {
                if depth < 2 {
                    return Err(Stop::Fault(Fault::StackUnderflow));
                }
                let rhs = pop(&mut frame.value_stack);
                let lhs = pop(&mut frame.value_stack);
                assert(frame.value_stack@ =~= below(stack0, 2));
                match self.bin_op(*op, &lhs, &rhs) {
                    Ok(result) => {
                        frame.value_stack.push(result);
                    },
                    Err(trap) => {
                        return Err(Stop::Trap(trap));
                    },
                }
            },
            Instr::Const { value } => {
                frame.value_stack.push(Val::Conc(ConcVal(*value)));
            },
            Instr::LocalGet { local } => {
                let value = match frame.locals.get(local) {
                    Some(value) => value.clone(),
                    None => {
                        return Err(Stop::Fault(Fault::UnknownLocal));
                    },
                };
                frame.value_stack.push(value);
            },
            Instr::LocalSet { local } => {
                if depth < 1 {
                    return Err(Stop::Fault(Fault::StackUnderflow));
                }
                let value = pop(&mut frame.value_stack);
                frame.locals.insert(*local, value);
            },
            Instr::LocalTee { local } => {
                if depth < 1 {
                    return Err(Stop::Fault(Fault::StackUnderflow));
                }
                let value = frame.value_stack[depth - 1].clone();
                frame.locals.insert(*local, value);
            },
            Instr::Select => {
                if depth < 3 {
                    return Err(Stop::Fault(Fault::StackUnderflow));
                }
                let cond = pop(&mut frame.value_stack);
                let rhs = pop(&mut frame.value_stack).as_sym();
                let lhs = pop(&mut frame.value_stack).as_sym();
                assert(frame.value_stack@ =~= below(stack0, 3));
                let sym_cond = cond.as_sym();
                let sym_val = BvTerm::Ite {
                    cond: Box::new(
                        BoolTerm::Compare {
                            rel: Rel::Eq,
                            lhs: Box::new(sym_cond.as_i32().clone()),
                            rhs: Box::new(self.zero(32)),
                        },
                    ),
                    on_true: Box::new(lhs.as_i32().clone()),
                    on_false: Box::new(rhs.as_i32().clone()),
                };
                frame.value_stack.push(Val::Sym(SymVal::I32(sym_val)));
            },
            Instr::GlobalGet { .. } => {
                frame.value_stack.push(Val::Conc(ConcVal(0)));
            },
            Instr::GlobalSet { .. } => {
                if depth > 0 {
                    pop(&mut frame.value_stack);
                }
            },
            Instr::MemorySize => {
                let size = match memory {
                    Some(mem) => mem.size.clone(),
                    None => {
                        return Err(Stop::Fault(Fault::NoMemory));
                    },
                };
                frame.value_stack.push(size);
            },
            Instr::MemoryGrow => {
                if memory.is_none() {
                    return Err(Stop::Fault(Fault::NoMemory));
                }
                if depth < 1 {
                    return Err(Stop::Fault(Fault::StackUnderflow));
                }
                let mem = memory.take().unwrap();
                let num_pages = pop(&mut frame.value_stack);
                let new_size = self.bin_op(BinaryOp::I32Add, &mem.size, &num_pages).unwrap();
                *memory = Some(Memory { size: new_size, array: mem.array });
                frame.value_stack.push(num_pages);
                assert(frame.value_stack@ =~= stack0);
            },
            Instr::Load { kind, offset } => {
                let mem = match memory {
                    Some(mem) => mem,
                    None => {
                        return Err(Stop::Fault(Fault::NoMemory));
                    },
                };
                if depth < 1 {
                    return Err(Stop::Fault(Fault::StackUnderflow));
                }
                let index = pop(&mut frame.value_stack);
                let access_index = self.access(*offset, &index);
                let value = match kind {
                    LoadKind::I32 => self.load(mem, &access_index, 32, 32, false),
                    LoadKind::I32_8 { kind: ExtendedLoad::ZeroExtend } => self.load(
                        mem,
                        &access_index,
                        8,
                        32,
                        true,
                    ),
                    LoadKind::I32_8 { .. } => self.load(mem, &access_index, 8, 32, false),
                    LoadKind::I32_16 { kind: ExtendedLoad::ZeroExtend } => self.load(
                        mem,
                        &access_index,
                        16,
                        32,
                        true,
                    ),
                    LoadKind::I32_16 { .. } => self.load(mem, &access_index, 16, 32, false),
                };
                frame.value_stack.push(value);
            },
            Instr::Store { kind, offset } => {
                if memory.is_none() {
                    return Err(Stop::Fault(Fault::NoMemory));
                }
                if depth < 2 {
                    return Err(Stop::Fault(Fault::StackUnderflow));
                }
                let mut mem = memory.take().unwrap();
                let value = pop(&mut frame.value_stack);
                let index = pop(&mut frame.value_stack);
                assert(frame.value_stack@ =~= below(stack0, 2));
                let access_index = self.access(*offset, &index);
                match kind {
                    StoreKind::I32 => self.store(&mut mem, &access_index, value, 32),
                    StoreKind::I32_8 => self.store(&mut mem, &access_index, value, 8),
                    StoreKind::I32_16 => self.store(&mut mem, &access_index, value, 16),
                }
                *memory = Some(mem);
            },
            _ => {},
        }
        Ok(())
    }
}

impl<'m> Context<'m> {
    /// The fault on which a straight-line instruction would stop.
    pub fn faults(&self, frame: &Frame, memory: &Option<Memory>, instr: &Instr) -> (r: Option<Fault>)
        ensures
            r == fault_of(frame@, *memory, *instr),
    {
        if let Instr::Unsupported = instr {
            return Some(Fault::Unimplemented);
        }
        let depth = frame.value_stack.len();
        let needed: usize = match instr {
            Instr::Drop => 1,
            Instr::Unop { .. } => 1,
            Instr::Binop { .. } => 2,
            Instr::LocalSet { .. } => 1,
            Instr::LocalTee { .. } => 1,
            Instr::Select => 3,
            Instr::BrIf { .. } => 1,
            Instr::IfElse { .. } => 1,
            Instr::MemoryGrow => 1,
            Instr::Load { .. } => 1,
            Instr::Store { .. } => 2,
            _ => 0,
        };
        let works_on_memory = match instr {
            Instr::MemorySize => true,
            Instr::MemoryGrow => true,
            Instr::Load { .. } => true,
            Instr::Store { .. } => true,
            _ => false,
        };
        if works_on_memory && memory.is_none() {
            return Some(Fault::NoMemory);
        }
        if depth < needed {
            return Some(Fault::StackUnderflow);
        }
        if let Instr::LocalGet { local } = instr {
            if !frame.locals.contains_key(local) {
                return Some(Fault::UnknownLocal);
            }
        }
        None
    }
}

} // verus!