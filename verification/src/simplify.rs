use crate::ir::LocalId;
use crate::memory::Memory;
use crate::state::{Frame, FrameView, State, StateView};
use crate::term::{bv_op, lemma_bv_op_range, lemma_modulus_values, ArrayTerm, BoolTerm, BvTerm};
use crate::value::{SymVal, Val};
use std::collections::HashMap;
use vstd::prelude::*;

verus! {

broadcast use vstd::std_specs::hash::group_hash_axioms;

impl BvTerm {
    /// The term with every operation on two literals replaced by the
    /// literal of its result.
    pub open spec fn fold(self) -> BvTerm
        decreases self,
    {
        match self {
            BvTerm::Lit { .. } => self,
            BvTerm::Var { .. } => self,
            BvTerm::Bin { op, lhs, rhs } => match (lhs.fold(), rhs.fold()) {
                (BvTerm::Lit { value: a, width: 32 }, BvTerm::Lit { value: b, width: 32 }) => BvTerm::Lit {
                    value: bv_op(op, a as int, b as int) as u32,
                    width: 32,
                },
                (l, r) => BvTerm::Bin { op, lhs: Box::new(l), rhs: Box::new(r) },
            },
            BvTerm::Ite { cond, on_true, on_false } => BvTerm::Ite {
                cond: Box::new(cond.fold()),
                on_true: Box::new(on_true.fold()),
                on_false: Box::new(on_false.fold()),
            },
            BvTerm::Select { array, index } => BvTerm::Select {
                array: Box::new(array.fold()),
                index: Box::new(index.fold()),
            },
            BvTerm::Concat { upper, lower } => BvTerm::Concat {
                upper: Box::new(upper.fold()),
                lower: Box::new(lower.fold()),
            },
            BvTerm::Extract { high, low, arg } => BvTerm::Extract {
                high,
                low,
                arg: Box::new(arg.fold()),
            },
            BvTerm::ZeroExt { extra, arg } => BvTerm::ZeroExt { extra, arg: Box::new(arg.fold()) },
            BvTerm::SignExt { extra, arg } => BvTerm::SignExt { extra, arg: Box::new(arg.fold()) },
        }
    }

    /// Folding keeps a well-formed term well-formed, of the same width,
    /// and of the same meaning under every model.
    pub proof fn lemma_fold(self, env: Map<Seq<char>, int>)
        requires
            self.wf(),
        ensures
            self.fold().wf(),
            self.fold().width() == self.width(),
            self.fold().eval(env) == self.eval(env),
        decreases self,
    {
        lemma_modulus_values();
        match self {
            BvTerm::Lit { .. } => {},
            BvTerm::Var { .. } => {},
            BvTerm::Bin { op, lhs, rhs } => {
                lhs.lemma_fold(env);
                rhs.lemma_fold(env);
                lhs.lemma_eval_range(env);
                rhs.lemma_eval_range(env);
                lemma_bv_op_range(op, lhs.eval(env), rhs.eval(env));
            },
            BvTerm::Ite { cond, on_true, on_false } => {
                cond.lemma_fold(env);
                on_true.lemma_fold(env);
                on_false.lemma_fold(env);
            },
            BvTerm::Select { array, index } => {
                index.lemma_fold(env);
                array.lemma_fold(env, index.eval(env));
            },
            BvTerm::Concat { upper, lower } => {
                upper.lemma_fold(env);
                lower.lemma_fold(env);
            },
            BvTerm::Extract { arg, .. } => {
                arg.lemma_fold(env);
            },
            BvTerm::ZeroExt { arg, .. } => {
                arg.lemma_fold(env);
            },
            BvTerm::SignExt { arg, .. } => {
                arg.lemma_fold(env);
            },
        }
    }

    /// Folds the operations on literals.
    pub fn simplified(&self) -> (r: BvTerm)
        ensures
            r == self.fold(),
        decreases self,
    {
        match self {
            BvTerm::Lit { value, width } => BvTerm::Lit { value: *value, width: *width },
            BvTerm::Var { name, width } => BvTerm::Var { name: name.clone(), width: *width },
            BvTerm::Bin { op, lhs, rhs } => {
                let l = lhs.simplified();
                let r = rhs.simplified();
                match (l, r) {
                    (BvTerm::Lit { value: a, width: 32 }, BvTerm::Lit { value: b, width: 32 }) => BvTerm::Lit {
                        value: op.apply(a, b),
                        width: 32,
                    },
                    (l, r) => BvTerm::Bin { op: *op, lhs: Box::new(l), rhs: Box::new(r) },
                }
            },
            BvTerm::Ite { cond, on_true, on_false } => BvTerm::Ite {
                cond: Box::new(cond.simplified()),
                on_true: Box::new(on_true.simplified()),
                on_false: Box::new(on_false.simplified()),
            },
            BvTerm::Select { array, index } => BvTerm::Select {
                array: Box::new(array.simplified()),
                index: Box::new(index.simplified()),
            },
            BvTerm::Concat { upper, lower } => BvTerm::Concat {
                upper: Box::new(upper.simplified()),
                lower: Box::new(lower.simplified()),
            },
            BvTerm::Extract { high, low, arg } => BvTerm::Extract {
                high: *high,
                low: *low,
                arg: Box::new(arg.simplified()),
            },
            BvTerm::ZeroExt { extra, arg } => BvTerm::ZeroExt {
                extra: *extra,
                arg: Box::new(arg.simplified()),
            },
            BvTerm::SignExt { extra, arg } => BvTerm::SignExt {
                extra: *extra,
                arg: Box::new(arg.simplified()),
            },
        }
    }
}

impl BoolTerm {
    /// The term with every operation on two literals folded.
    pub open spec fn fold(self) -> BoolTerm
        decreases self,
    {
        match self {
            BoolTerm::Compare { rel, lhs, rhs } => BoolTerm::Compare {
                rel,
                lhs: Box::new(lhs.fold()),
                rhs: Box::new(rhs.fold()),
            },
            BoolTerm::Not { arg } => BoolTerm::Not { arg: Box::new(arg.fold()) },
        }
    }

    /// Folding keeps a well-formed term well-formed and of the same truth
    /// under every model.
    pub proof fn lemma_fold(self, env: Map<Seq<char>, int>)
        requires
            self.wf(),
        ensures
            self.fold().wf(),
            self.fold().holds(env) == self.holds(env),
        decreases self,
    {
        match self {
            BoolTerm::Compare { lhs, rhs, .. } => {
                lhs.lemma_fold(env);
                rhs.lemma_fold(env);
            },
            BoolTerm::Not { arg } => {
                arg.lemma_fold(env);
            },
        }
    }

    /// Folds the operations on literals.
    pub fn simplified(&self) -> (r: BoolTerm)
        ensures
            r == self.fold(),
        decreases self,
    {
        match self {
            BoolTerm::Compare { rel, lhs, rhs } => BoolTerm::Compare {
                rel: *rel,
                lhs: Box::new(lhs.simplified()),
                rhs: Box::new(rhs.simplified()),
            },
            BoolTerm::Not { arg } => BoolTerm::Not { arg: Box::new(arg.simplified()) },
        }
    }
}

impl ArrayTerm {
    /// The term with every operation on two literals folded.
    pub open spec fn fold(self) -> ArrayTerm
        decreases self,
    {
        match self {
            ArrayTerm::Fill { .. } => self,
            ArrayTerm::Store { array, index, value } => ArrayTerm::Store {
                array: Box::new(array.fold()),
                index: Box::new(index.fold()),
                value: Box::new(value.fold()),
            },
        }
    }

    /// Folding keeps a well-formed array well-formed and of the same
    /// content under every model.
    pub proof fn lemma_fold(self, env: Map<Seq<char>, int>, addr: int)
        requires
            self.wf(),
        ensures
            self.fold().wf(),
            self.fold().read(env, addr) == self.read(env, addr),
        decreases self,
    {
        match self {
            ArrayTerm::Fill { .. } => {},
            ArrayTerm::Store { array, index, value } => {
                array.lemma_fold(env, addr);
                index.lemma_fold(env);
                value.lemma_fold(env);
            },
        }
    }

    /// Folds the operations on literals.
    pub fn simplified(&self) -> (r: ArrayTerm)
        ensures
            r == self.fold(),
        decreases self,
    {
        match self {
            ArrayTerm::Fill { byte } => ArrayTerm::Fill { byte: *byte },
            ArrayTerm::Store { array, index, value } => ArrayTerm::Store {
                array: Box::new(array.simplified()),
                index: Box::new(index.simplified()),
                value: Box::new(value.simplified()),
            },
        }
    }
}

impl SymVal {
    /// Replaces the term by its folded form.
    pub fn simplify(&mut self)
        ensures
            *final(self) == SymVal::I32(old(self).term().fold()),
    {
        let folded = self.as_i32().simplified();
        *self = SymVal::I32(folded);
    }
}

impl Val {
    /// The value with its term folded, where it is symbolic.
    pub open spec fn folded(self) -> Val {
        match self {
            Val::Sym(val) => Val::Sym(SymVal::I32(val.term().fold())),
            Val::Conc(_) => self,
        }
    }

    /// Folding keeps a well-formed value well-formed and of the same
    /// meaning under every model.
    pub proof fn lemma_folded(self, env: Map<Seq<char>, int>)
        requires
            self.wf(),
        ensures
            self.folded().wf(),
            self.folded().eval(env) == self.eval(env),
    {
        self.term().lemma_fold(env);
    }

    /// Folds the value's term, where it is symbolic.
    pub fn simplified(&self) -> (r: Val)
        ensures
            r == self.folded(),
    {
        match self {
            Val::Sym(val) => Val::Sym(SymVal::I32(val.as_i32().simplified())),
            Val::Conc(val) => Val::Conc(*val),
        }
    }
}

/// The keys of a map, each once, in no particular order.
fn keys_of(map: &HashMap<LocalId, Val>) -> (r: Vec<LocalId>)
    ensures
        r@.to_set() == map@.dom(),
        r@.no_duplicates(),
{
    let mut keys: Vec<LocalId> = Vec::new();
    proof {
        vstd::std_specs::hash::axiom_spec_keys_iter(map);
    }
    for key in it: map.keys()
        invariant
            keys@ == it.seq().unref().take(it.index() as int),
            it.seq().unref().to_set() == map@.dom(),
            it.seq().unref().no_duplicates(),
            it.index() == it.seq().len() ==> keys@.to_set() == map@.dom() && keys@.no_duplicates(),
    {
        keys.push(*key);
        assert(keys@ =~= it.seq().unref().take(it.index() + 1));
        assert(it.index() + 1 == it.seq().len() ==> keys@ =~= it.seq().unref());
    }
    keys
}

impl FrameView {
    /// The frame with every value on its stack and in its locals folded.
    pub open spec fn simplified(self) -> FrameView {
        FrameView {
            stack: Seq::new(self.stack.len(), |i: int| self.stack[i].folded()),
            locals: Map::new(
                |k: LocalId| self.locals.dom().contains(k),
                |k: LocalId| self.locals[k].folded(),
            ),
            ..self
        }
    }
}

impl StateView {
    /// The state with every value of every frame folded, and, where
    /// there is a frame, the memory's array.
    pub open spec fn simplified(self) -> StateView {
        StateView {
            frames: Seq::new(self.frames.len(), |i: int| self.frames[i].simplified()),
            memory: match self.memory {
                Some(memory) => if self.frames.len() > 0 {
                    Some(Memory { size: memory.size, array: memory.array.fold() })
                } else {
                    self.memory
                },
                None => None,
            },
        }
    }
}

impl Frame {
    /// Folds every value on the stack and in the locals.
    pub fn simplify(&mut self)
        ensures
            final(self)@ == old(self)@.simplified(),
    {
        let mut i: usize = 0;
        while i < self.value_stack.len()
            invariant
                i <= self.value_stack.len(),
                self.value_stack@.len() == old(self).value_stack@.len(),
                self.func == old(self).func,
                self.ret == old(self).ret,
                self.locals == old(self).locals,
                forall|j: int|
                    0 <= j < i ==> #[trigger] self.value_stack@[j] == old(
                        self,
                    ).value_stack@[j].folded(),
                forall|j: int|
                    i <= j < self.value_stack@.len() ==> #[trigger] self.value_stack@[j] == old(
                        self,
                    ).value_stack@[j],
            decreases self.value_stack.len() - i,
        {
            let folded = self.value_stack[i].simplified();
            self.value_stack.set(i, folded);
            i = i + 1;
        }
        let keys = keys_of(&self.locals);
        let ghost before = self.locals@;
        let mut k: usize = 0;
        while k < keys.len()
            invariant
                k <= keys.len(),
                keys@.to_set() == before.dom(),
                keys@.no_duplicates(),
                self.func == old(self).func,
                self.ret == old(self).ret,
                self.value_stack@ == old(self)@.simplified().stack,
                before == old(self).locals@,
                self.locals@.dom() == before.dom(),
                forall|j: int| 0 <= j < k ==> #[trigger] self.locals@[keys@[j]] == before[keys@[j]].folded(),
                forall|j: int| k <= j < keys@.len() ==> #[trigger] self.locals@[keys@[j]] == before[keys@[j]],
            decreases keys.len() - k,
        {
            let key = keys[k];
            assert(keys@.to_set().contains(keys@[k as int]));
            let folded = self.locals.get(&key).unwrap().simplified();
            self.locals.insert(key, folded);
            assert(self.locals@.dom() =~= before.dom());
            k = k + 1;
        }
        proof {
            let goal = old(self)@.simplified().locals;
            assert forall|key: LocalId| goal.dom().contains(key) implies #[trigger] self.locals@[key]
                == goal[key] by {
                assert(keys@.to_set().contains(key));
                let j = choose|j: int| 0 <= j < keys@.len() && keys@[j] == key;
                assert(self.locals@[keys@[j]] == before[keys@[j]].folded());
            }
            assert(self.locals@ =~= goal);
            assert(self.value_stack@ =~= old(self)@.simplified().stack);
        }
    }
}

impl State {
    /// Folds every value of every frame, and, where there is a frame,
    /// the memory's array.
    pub fn simplify(&mut self)
        ensures
            final(self)@ == old(self)@.simplified(),
    {
        let mut i: usize = 0;
        while i < self.call_stack.len()
            invariant
                i <= self.call_stack.len(),
                self.call_stack@.len() == old(self).call_stack@.len(),
                self.memory == old(self).memory,
                forall|j: int|
                    0 <= j < i ==> (#[trigger] self.call_stack@[j])@ == old(
                        self,
                    ).call_stack@[j]@.simplified(),
                forall|j: int|
                    i <= j < self.call_stack@.len() ==> #[trigger] self.call_stack@[j] == old(
                        self,
                    ).call_stack@[j],
            decreases self.call_stack.len() - i,
        {
            self.call_stack[i].simplify();
            i = i + 1;
        }
        if self.call_stack.len() > 0 {
            match self.memory.take() {
                Some(memory) => {
                    self.memory = Some(
                        Memory { size: memory.size, array: memory.array.simplified() },
                    );
                },
                None => {},
            }
        }
        assert(self@.frames =~= old(self)@.simplified().frames);
    }
}

} // verus!
