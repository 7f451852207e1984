use crate::context::{bin_op_spec, lemma_bin_op_wf, Context};
use crate::engine::Engine;
use crate::ir::BinaryOp;
use crate::term::{lemma_modulus_adds, lemma_modulus_values, modulus, ArrayTerm, BvTerm, WORD};
use crate::value::{of_bits, ConcVal, SymVal, Val};
use vstd::prelude::*;

verus! {

/// The number of bytes in one page of memory.
pub const PAGE_SIZE: u32 = 65536;

/// A linear memory: its size in pages, and an array term from 32-bit
/// addresses to bytes. A byte that was never written reads as zero.
#[derive(Debug)]
pub struct Memory {
    /// The size in pages.
    pub size: Val,
    pub array: ArrayTerm,
}

impl Clone for Memory {
    fn clone(&self) -> (r: Self)
        ensures
            r == *self,
    {
        Memory { size: self.size.clone(), array: self.array.clone() }
    }
}

/// The term of the address `offset` bytes after `base`.
pub open spec fn address(base: Val, offset: int) -> BvTerm {
    bin_op_spec(BinaryOp::I32Add, base, Val::Conc(ConcVal(offset as i32))).unwrap().term()
}

/// The term of the byte that `array` holds `offset` bytes after `base`.
pub open spec fn byte_at(array: ArrayTerm, base: Val, offset: int) -> BvTerm {
    BvTerm::Select { array: Box::new(array), index: Box::new(address(base, offset)) }
}

/// The term of the `count` bytes from `base` on, the byte at the lowest
/// address in the lowest bits.
pub open spec fn load_bytes(array: ArrayTerm, base: Val, count: nat) -> BvTerm
    decreases count,
{
    if count <= 1 {
        byte_at(array, base, 0)
    } else {
        BvTerm::Concat {
            upper: Box::new(byte_at(array, base, count - 1)),
            lower: Box::new(load_bytes(array, base, (count - 1) as nat)),
        }
    }
}

/// The term that a load of `load_size` bits into `size` bits gives.
pub open spec fn load_spec(array: ArrayTerm, base: Val, load_size: u32, size: u32, zero_extend: bool) -> BvTerm {
    let value = load_bytes(array, base, (load_size / 8) as nat);
    if size == load_size {
        value
    } else if zero_extend {
        BvTerm::ZeroExt { extra: (size - load_size) as u32, arg: Box::new(value) }
    } else {
        BvTerm::SignExt { extra: (size - load_size) as u32, arg: Box::new(value) }
    }
}

/// The term of byte `i` of `value`: its bits `8 i` to `8 i + 7`.
pub open spec fn byte_of(value: BvTerm, i: int) -> BvTerm {
    BvTerm::Extract { high: (i * 8 + 7) as u32, low: (i * 8) as u32, arg: Box::new(value) }
}

/// The array after the lowest `count` bytes of `value` were written from
/// `base` on, the lowest byte at the lowest address.
pub open spec fn store_bytes(array: ArrayTerm, base: Val, value: BvTerm, count: nat) -> ArrayTerm
    decreases count,
{
    if count == 0 {
        array
    } else {
        ArrayTerm::Store {
            array: Box::new(store_bytes(array, base, value, (count - 1) as nat)),
            index: Box::new(address(base, count - 1)),
            value: Box::new(byte_of(value, count - 1)),
        }
    }
}

/// Whether `bits` is a width that a memory access can have.
pub open spec fn access_width(bits: u32) -> bool {
    bits == 8 || bits == 16 || bits == 32
}

impl Memory {
    /// A memory of `initial` pages, every byte zero.
    pub fn new(initial: u32) -> (r: Self)
        ensures
            r.size == Val::Conc(ConcVal(crate::value::from_bits(initial as int))),
            r.array == (ArrayTerm::Fill { byte: 0 }),
            r.wf(),
    {
        proof {
            crate::value::lemma_bits_round_trip(0, initial as int);
            lemma_modulus_values();
        }
        Memory { size: Val::Conc(ConcVal(of_bits(initial))), array: ArrayTerm::Fill { byte: 0 } }
    }

    /// Whether the size and the array are well-formed.
    pub open spec fn wf(&self) -> bool {
        self.size.wf() && self.array.wf()
    }
}

impl<'m> Context<'m> {
    /// The address `offset` bytes after `base`, as a symbolic value.
    fn address_of(&self, base: &Val, offset: u32) -> (r: SymVal)
        requires
            offset < 4,
        ensures
            r == SymVal::I32(address(*base, offset as int)),
    {
        let step = Val::Conc(ConcVal(offset as i32));
        self.bin_op(BinaryOp::I32Add, base, &step).unwrap().as_sym()
    }

    /// Reads `load_size` bits from `memory` at `base_index`, the byte at
    /// the lowest address lowest, and extends them to `size` bits: by
    /// zeros if `zero_extend`, else by the sign.
    pub(crate) fn load(&self, memory: &Memory, base_index: &Val, load_size: u32, size: u32, zero_extend: bool) -> (r: Val)
        requires
            access_width(load_size),
            access_width(size),
            load_size <= size,
        ensures
            r == Val::Sym(
                SymVal::I32(load_spec(memory.array, *base_index, load_size, size, zero_extend)),
            ),
    {
        let num_bytes = load_size / 8;
        let first = self.address_of(base_index, 0);
        let mut value = BvTerm::Select {
            array: Box::new(memory.array.clone()),
            index: Box::new(first.as_i32().clone()),
        };
        let mut i: u32 = 1;
        while i < num_bytes
            invariant
                1 <= i <= num_bytes <= 4,
                value == load_bytes(memory.array, *base_index, i as nat),
            decreases num_bytes - i,
        {
            let index = self.address_of(base_index, i);
            let byte = BvTerm::Select {
                array: Box::new(memory.array.clone()),
                index: Box::new(index.as_i32().clone()),
            };
            value = BvTerm::Concat { upper: Box::new(byte), lower: Box::new(value) };
            i = i + 1;
        }
        if size == load_size {
            Val::Sym(SymVal::I32(value))
        } else if zero_extend {
            Val::Sym(SymVal::I32(BvTerm::ZeroExt { extra: size - load_size, arg: Box::new(value) }))
        } else {
            Val::Sym(SymVal::I32(BvTerm::SignExt { extra: size - load_size, arg: Box::new(value) }))
        }
    }

    /// Writes the lowest `store_size` bits of `value` to `memory` at
    /// `base_index`, the lowest byte at the lowest address.
    pub(crate) fn store(&self, memory: &mut Memory, base_index: &Val, value: Val, store_size: u32)
        requires
            access_width(store_size),
        ensures
            final(memory).size == old(memory).size,
            final(memory).array == store_bytes(
                old(memory).array,
                *base_index,
                value.term(),
                (store_size / 8) as nat,
            ),
    {
        let num_bytes = store_size / 8;
        let sym_val = value.as_sym();
        let mut i: u32 = 0;
        while i < num_bytes
            invariant
                i <= num_bytes <= 4,
                sym_val == SymVal::I32(value.term()),
                memory.size == old(memory).size,
                memory.array == store_bytes(old(memory).array, *base_index, value.term(), i as nat),
            decreases num_bytes - i,
        {
            let index = self.address_of(base_index, i);
            let stored = BvTerm::Extract {
                high: i * 8 + 7,
                low: i * 8,
                arg: Box::new(sym_val.as_i32().clone()),
            };
            let array = memory.array.clone();
            memory.array = ArrayTerm::Store {
                array: Box::new(array),
                index: Box::new(index.as_i32().clone()),
                value: Box::new(stored),
            };
            i = i + 1;
        }
    }
}

/// The number that `bits` bits read from memory become in 32 bits: the
/// same where the upper bits are filled with zeros, else the number with
/// the same signed reading.
pub open spec fn extended(x: int, bits: u32, zero_extend: bool) -> int {
    if zero_extend || 2 * x < modulus(bits) {
        x
    } else {
        x + WORD - modulus(bits)
    }
}

/// An address a few bytes after a well-formed base is a 32-bit vector that
/// denotes the base's number plus the offset, modulo `WORD`.
pub proof fn lemma_address(base: Val, offset: int, env: Map<Seq<char>, int>)
    requires
        base.wf(),
        0 <= offset < 4,
    ensures
        address(base, offset).wf(),
        address(base, offset).width() == 32,
        address(base, offset).eval(env) == (base.eval(env) + offset) % (WORD as int),
{
    reveal_with_fuel(BvTerm::wf, 3);
    reveal_with_fuel(BvTerm::width, 3);
    reveal_with_fuel(BvTerm::eval, 3);
    lemma_modulus_values();
    let step = Val::Conc(ConcVal(offset as i32));
    lemma_bin_op_wf(BinaryOp::I32Add, base, step);
    base.term().lemma_eval_range(env);
    crate::value::lemma_bits_round_trip(offset as i32, (base.eval(env) + offset) % (WORD as int));
}

/// Writing bytes of a 32-bit vector into a well-formed array leaves it well-formed.
pub proof fn lemma_store_bytes_wf(array: ArrayTerm, base: Val, value: BvTerm, count: nat)
    requires
        array.wf(),
        base.wf(),
        value.wf(),
        value.width() == 32,
        count <= 4,
    ensures
        store_bytes(array, base, value, count).wf(),
    decreases count,
{
    reveal_with_fuel(BvTerm::wf, 2);
    reveal_with_fuel(BvTerm::width, 2);
    if count > 0 {
        lemma_store_bytes_wf(array, base, value, (count - 1) as nat);
        lemma_address(base, count - 1, Map::empty());
        let byte = byte_of(value, count - 1);
        assert(byte.wf() && byte.width() == 8);
        assert(store_bytes(array, base, value, count) == ArrayTerm::Store {
            array: Box::new(store_bytes(array, base, value, (count - 1) as nat)),
            index: Box::new(address(base, count - 1)),
            value: Box::new(byte),
        });
    }
}

/// The bytes read from a well-formed array form a vector of 8 bits each.
pub proof fn lemma_load_bytes_wf(array: ArrayTerm, base: Val, count: nat)
    requires
        array.wf(),
        base.wf(),
        1 <= count <= 4,
    ensures
        load_bytes(array, base, count).wf(),
        load_bytes(array, base, count).width() == 8 * count,
    decreases count,
{
    reveal_with_fuel(BvTerm::wf, 2);
    reveal_with_fuel(BvTerm::width, 2);
    lemma_address(base, count - 1, Map::empty());
    if count > 1 {
        lemma_load_bytes_wf(array, base, (count - 1) as nat);
    }
}

/// A load from a well-formed memory into 32 bits gives a well-formed value.
pub proof fn lemma_load_wf(array: ArrayTerm, base: Val, load_size: u32, zero_extend: bool)
    requires
        array.wf(),
        base.wf(),
        access_width(load_size),
    ensures
        load_spec(array, base, load_size, 32, zero_extend).wf(),
        load_spec(array, base, load_size, 32, zero_extend).width() == 32,
{
    reveal_with_fuel(BvTerm::wf, 2);
    reveal_with_fuel(BvTerm::width, 2);
    lemma_load_bytes_wf(array, base, (load_size / 8) as nat);
}

/// After `count` bytes of `value` were written from `base` on, the byte
/// `i` places after `base` is byte `i` of `value`.
pub proof fn lemma_read_written(
    array: ArrayTerm,
    base: Val,
    value: BvTerm,
    count: nat,
    i: int,
    env: Map<Seq<char>, int>,
)
    requires
        base.wf(),
        0 <= i < count <= 4,
    ensures
        store_bytes(array, base, value, count).read(env, address(base, i).eval(env)) == byte_of(
            value,
            i,
        ).eval(env),
    decreases count,
{
    lemma_address(base, i, env);
    lemma_address(base, count - 1, env);
    base.term().lemma_eval_range(env);
    if i < count - 1 {
        lemma_read_written(array, base, value, (count - 1) as nat, i, env);
    }
}

/// The `count` bytes read back from where they were written make up the
/// lowest `8 * count` bits of the value written.
pub proof fn lemma_load_written(
    array: ArrayTerm,
    base: Val,
    value: BvTerm,
    written: nat,
    count: nat,
    env: Map<Seq<char>, int>,
)
    requires
        array.wf(),
        base.wf(),
        value.wf(),
        value.width() == 32,
        1 <= count <= written <= 4,
    ensures
        load_bytes(store_bytes(array, base, value, written), base, count).eval(env) == value.eval(
            env,
        ) % modulus((8 * count) as u32),
    decreases count,
{
    reveal_with_fuel(BvTerm::eval, 2);
    reveal_with_fuel(BvTerm::width, 2);
    lemma_modulus_values();
    let stored = store_bytes(array, base, value, written);
    let x = value.eval(env);
    value.lemma_eval_range(env);
    lemma_read_written(array, base, value, written, count - 1, env);
    let low = (8 * (count - 1)) as u32;
    if count == 1 {
        assert(modulus(0) == 1);
        assert(x / 1 == x);
    } else {
        lemma_load_written(array, base, value, written, (count - 1) as nat, env);
        lemma_store_bytes_wf(array, base, value, written);
        lemma_load_bytes_wf(stored, base, (count - 1) as nat);
        lemma_modulus_adds(low, 8);
        vstd::arithmetic::div_mod::lemma_mod_breakdown(x, modulus(low), modulus(8));
        assert(modulus(low) * ((x / modulus(low)) % modulus(8)) == ((x / modulus(low)) % modulus(8))
            * modulus(low)) by (nonlinear_arith);
    }
}

/// Memory round-trip: a value stored with a width of 8, 16 or 32 bits and
/// loaded again from the same address with that width is, under every
/// model, the value's lowest bits of that width, extended to 32 bits as
/// the load asks. At 32 bits it is the value itself.
pub proof fn lemma_store_load(
    array: ArrayTerm,
    base: Val,
    value: Val,
    width: u32,
    zero_extend: bool,
    env: Map<Seq<char>, int>,
)
    requires
        array.wf(),
        base.wf(),
        value.wf(),
        access_width(width),
    ensures
        load_spec(
            store_bytes(array, base, value.term(), (width / 8) as nat),
            base,
            width,
            32,
            zero_extend,
        ).eval(env) == extended(value.eval(env) % modulus(width), width, zero_extend),
        width == 32 ==> load_spec(
            store_bytes(array, base, value.term(), 4),
            base,
            32,
            32,
            zero_extend,
        ).eval(env) == value.eval(env),
{
    reveal_with_fuel(BvTerm::eval, 2);
    reveal_with_fuel(BvTerm::width, 2);
    lemma_modulus_values();
    let count = (width / 8) as nat;
    let stored = store_bytes(array, base, value.term(), count);
    lemma_load_written(array, base, value.term(), count, count, env);
    lemma_store_bytes_wf(array, base, value.term(), count);
    lemma_load_bytes_wf(stored, base, count);
    value.term().lemma_eval_range(env);
    let x = value.eval(env);
    assert(0 <= x % modulus(width) < modulus(width)) by (nonlinear_arith)
        requires
            modulus(width) > 0,
    ;
    if width == 32 {
        let m = modulus(32);
        assert(x % m == x) by (nonlinear_arith)
            requires
                0 <= x < m,
        ;
    }
}

impl<'ctx, 'm> Engine<'ctx, 'm> {
    /// Reads `load_size` bits from `memory` at `base_index`, the byte at
    /// the lowest address in the lowest bits, and extends them to `size`
    /// bits: by zeros if `zero_extend`, else by the sign.
    pub fn do_load(&self, memory: &Memory, base_index: &Val, load_size: u32, size: u32, zero_extend: bool) -> (r:
        Val)
        requires
            access_width(load_size),
            access_width(size),
            load_size <= size,
        ensures
            r == Val::Sym(
                SymVal::I32(load_spec(memory.array, *base_index, load_size, size, zero_extend)),
            ),
    {
        self.context.load(memory, base_index, load_size, size, zero_extend)
    }

    /// Writes the lowest `store_size` bits of `value` to `memory` at
    /// `base_index`, the lowest byte at the lowest address.
    pub fn do_store(&self, memory: &mut Memory, base_index: &Val, value: Val, store_size: u32)
        requires
            access_width(store_size),
        ensures
            final(memory).size == old(memory).size,
            final(memory).array == store_bytes(
                old(memory).array,
                *base_index,
                value.term(),
                (store_size / 8) as nat,
            ),
    {
        self.context.store(memory, base_index, value, store_size)
    }
}

/// A byte that was never written reads as zero: a new memory holds zero
/// at every address, under every model.
pub proof fn lemma_new_reads_zero(addr: int, env: Map<Seq<char>, int>)
    ensures
        (ArrayTerm::Fill { byte: 0 }).read(env, addr) == 0,
        (ArrayTerm::Fill { byte: 0 }).wf(),
{
}

/// A store changes only the bytes that it writes: an address that no
/// written byte's address denotes reads as before.
pub proof fn lemma_read_untouched(
    array: ArrayTerm,
    base: Val,
    value: BvTerm,
    count: nat,
    addr: int,
    env: Map<Seq<char>, int>,
)
    requires
        base.wf(),
        count <= 4,
        forall|i: int| 0 <= i < count ==> addr != #[trigger] address(base, i).eval(env),
    ensures
        store_bytes(array, base, value, count).read(env, addr) == array.read(env, addr),
    decreases count,
{
    if count > 0 {
        assert(addr != address(base, count - 1).eval(env));
        lemma_read_untouched(array, base, value, (count - 1) as nat, addr, env);
    }
}

} // verus!