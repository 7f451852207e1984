use crate::term::{
    holds_all, lemma_modulus_adds, lemma_modulus_monotonic, lemma_modulus_values, modulus,
    pow2_u64, satisfiable, ArrayTerm, BoolTerm, BvTerm,
};
use vstd::prelude::*;

verus! {

/// A model: the numbers that a solver gives to named variables. A name
/// that occurs twice counts where it occurs first.
#[derive(Debug)]
pub struct Assignment {
    pub entries: Vec<(String, u32)>,
}

/// The number that the first entry named `name` from index `i` on gives.
pub open spec fn find(entries: Seq<(String, u32)>, name: Seq<char>, i: int) -> Option<u32>
    decreases entries.len() - i,
{
    if 0 <= i < entries.len() {
        if entries[i].0@ == name {
            Some(entries[i].1)
        } else {
            find(entries, name, i + 1)
        }
    } else {
        None
    }
}

impl View for Assignment {
    type V = Map<Seq<char>, int>;

    open spec fn view(&self) -> Map<Seq<char>, int> {
        Map::new(
            |name: Seq<char>| find(self.entries@, name, 0) is Some,
            |name: Seq<char>| find(self.entries@, name, 0).unwrap() as int,
        )
    }
}

impl Assignment {
    /// A model without entries: every variable is zero.
    pub fn new() -> (r: Self)
        ensures
            r@ == Map::<Seq<char>, int>::empty(),
    {
        let r = Assignment { entries: Vec::new() };
        assert(r@ =~= Map::<Seq<char>, int>::empty());
        r
    }

    /// The number that the model gives to `name`, if any.
    pub fn lookup(&self, name: &String) -> (r: Option<u32>)
        ensures
            r == find(self.entries@, name@, 0),
            r matches Some(v) ==> self@.dom().contains(name@) && self@[name@] == v,
            r is None ==> !self@.dom().contains(name@),
    {
        let mut i: usize = 0;
        while i < self.entries.len()
            invariant
                i <= self.entries.len(),
                find(self.entries@, name@, 0) == find(self.entries@, name@, i as int),
            decreases self.entries.len() - i,
        {
            if self.entries[i].0 == *name {
                return Some(self.entries[i].1);
            }
            i = i + 1;
        }
        None
    }
}

impl BvTerm {
    /// The width of the term, where it is well-formed.
    pub fn shape(&self) -> (r: Option<u32>)
        ensures
            r matches Some(w) ==> self.wf() && w == self.width() && 1 <= w <= 32,
            r is None ==> !self.wf(),
        decreases self,
    {
        proof {
            lemma_modulus_values();
            if self.wf() {
                self.lemma_eval_range(Map::empty());
            }
        }
        match self {
            BvTerm::Lit { value, width } => {
                if 1 <= *width && *width <= 32 && (*value as u64) < pow2_u64(*width) {
                    Some(*width)
                } else {
                    None
                }
            },
            BvTerm::Var { width, .. } => {
                if 1 <= *width && *width <= 32 {
                    Some(*width)
                } else {
                    None
                }
            },
            BvTerm::Bin { lhs, rhs, .. } => {
                match (lhs.shape(), rhs.shape()) {
                    (Some(32), Some(32)) => Some(32),
                    _ => None,
                }
            },
            BvTerm::Ite { cond, on_true, on_false } => {
                if !cond.shape() {
                    return None;
                }
                match (on_true.shape(), on_false.shape()) {
                    (Some(a), Some(b)) => if a == b {
                        Some(a)
                    } else {
                        None
                    },
                    _ => None,
                }
            },
            BvTerm::Select { array, index } => {
                if !array.shape() {
                    return None;
                }
                match index.shape() {
                    Some(32) => Some(8),
                    _ => None,
                }
            },
            BvTerm::Concat { upper, lower } => {
                match (upper.shape(), lower.shape()) {
                    (Some(a), Some(b)) => if a + b <= 32 {
                        Some(a + b)
                    } else {
                        None
                    },
                    _ => None,
                }
            },
            BvTerm::Extract { high, low, arg } => {
                match arg.shape() {
                    Some(w) => if *low <= *high && *high < w {
                        Some(*high - *low + 1)
                    } else {
                        None
                    },
                    None => None,
                }
            },
            BvTerm::ZeroExt { extra, arg } => {
                match arg.shape() {
                    Some(w) => if *extra <= 32 - w {
                        Some(w + *extra)
                    } else {
                        None
                    },
                    None => None,
                }
            },
            BvTerm::SignExt { extra, arg } => {
                match arg.shape() {
                    Some(w) => if *extra <= 32 - w {
                        Some(w + *extra)
                    } else {
                        None
                    },
                    None => None,
                }
            },
        }
    }

    /// The number that the term denotes under `model`, and its width.
    pub fn value(&self, model: &Assignment) -> (r: (u32, u32))
        requires
            self.wf(),
        ensures
            r.0 == self.eval(model@),
            r.1 == self.width(),
            1 <= r.1 <= 32,
            r.0 < modulus(r.1),
        decreases self,
    {
        proof {
            lemma_modulus_values();
            self.lemma_eval_range(model@);
        }
        match self {
            BvTerm::Lit { value, width } => (*value, *width),
            BvTerm::Var { name, width } => {
                match model.lookup(name) {
                    Some(v) => ((v as u64 % pow2_u64(*width)) as u32, *width),
                    None => (0, *width),
                }
            },
            BvTerm::Bin { op, lhs, rhs } => {
                let (a, _) = lhs.value(model);
                let (b, _) = rhs.value(model);
                (op.apply(a, b), 32)
            },
            BvTerm::Ite { cond, on_true, on_false } => {
                if cond.decide(model) {
                    on_true.value(model)
                } else {
                    let (v, w) = on_false.value(model);
                    (v, w)
                }
            },
            BvTerm::Select { array, index } => {
                let (addr, _) = index.value(model);
                (array.byte(model, addr) as u32, 8)
            },
            BvTerm::Concat { upper, lower } => {
                let (u, wu) = upper.value(model);
                let (l, wl) = lower.value(model);
                let m = pow2_u64(wl);
                proof {
                    lemma_modulus_adds(wu, wl);
                    let mu = modulus(wu);
                    let ml = modulus(wl);
                    assert(0 <= u * ml + l < mu * ml) by (nonlinear_arith)
                        requires
                            0 <= u < mu,
                            0 <= l < ml,
                    ;
                    lemma_modulus_monotonic((wu + wl) as u32, 32);
                }
                ((u as u64 * m + l as u64) as u32, wu + wl)
            },
            BvTerm::Extract { high, low, arg } => {
                let (x, w) = arg.value(model);
                let d = pow2_u64(*low);
                let m = pow2_u64(*high - *low + 1);
                (((x as u64 / d) % m) as u32, *high - *low + 1)
            },
            BvTerm::ZeroExt { extra, arg } => {
                let (x, w) = arg.value(model);
                (x, w + *extra)
            },
            BvTerm::SignExt { extra, arg } => {
                let (x, w) = arg.value(model);
                let m = pow2_u64(w);
                let big = pow2_u64(w + *extra);
                proof {
                    lemma_modulus_monotonic(w, (w + *extra) as u32);
                }
                if 2 * (x as u64) >= m {
                    ((x as u64 + big - m) as u32, w + *extra)
                } else {
                    (x, w + *extra)
                }
            },
        }
    }
}

impl BoolTerm {
    /// Whether the term is well-formed.
    pub fn shape(&self) -> (r: bool)
        ensures
            r == self.wf(),
        decreases self,
    {
        match self {
            BoolTerm::Compare { lhs, rhs, .. } => {
                match (lhs.shape(), rhs.shape()) {
                    (Some(a), Some(b)) => a == b,
                    _ => false,
                }
            },
            BoolTerm::Not { arg } => arg.shape(),
        }
    }

    /// Whether the term is true under `model`.
    pub fn decide(&self, model: &Assignment) -> (r: bool)
        requires
            self.wf(),
        ensures
            r == self.holds(model@),
        decreases self,
    {
        match self {
            BoolTerm::Compare { rel, lhs, rhs } => {
                let (a, w) = lhs.value(model);
                let (b, _) = rhs.value(model);
                rel.test(a, b, w)
            },
            BoolTerm::Not { arg } => !arg.decide(model),
        }
    }
}

impl ArrayTerm {
    /// Whether the term is well-formed.
    pub fn shape(&self) -> (r: bool)
        ensures
            r == self.wf(),
        decreases self,
    {
        match self {
            ArrayTerm::Fill { .. } => true,
            ArrayTerm::Store { array, index, value } => {
                if !array.shape() {
                    return false;
                }
                match (index.shape(), value.shape()) {
                    (Some(32), Some(8)) => true,
                    _ => false,
                }
            },
        }
    }

    /// The byte that the array holds at `addr` under `model`.
    pub fn byte(&self, model: &Assignment, addr: u32) -> (r: u8)
        requires
            self.wf(),
        ensures
            r == self.read(model@, addr as int),
        decreases self,
    {
        proof {
            lemma_modulus_values();
        }
        match self {
            ArrayTerm::Fill { byte } => *byte,
            ArrayTerm::Store { array, index, value } => {
                let (at, _) = index.value(model);
                if at == addr {
                    let (v, _) = value.value(model);
                    v as u8
                } else {
                    array.byte(model, addr)
                }
            },
        }
    }
}

/// Whether `model` makes every constraint true. A constraint that is not
/// well-formed counts as false.
pub fn satisfied_by(constraints: &Vec<BoolTerm>, model: &Assignment) -> (r: bool)
    ensures
        r == (holds_all(constraints@, model@) && forall|i: int|
            0 <= i < constraints@.len() ==> (#[trigger] constraints@[i]).wf()),
        r ==> satisfiable(constraints@),
{
    let mut i: usize = 0;
    while i < constraints.len()
        invariant
            i <= constraints.len(),
            forall|j: int| 0 <= j < i ==> (#[trigger] constraints@[j]).wf() && constraints@[j].holds(model@),
        decreases constraints.len() - i,
    {
        if !constraints[i].shape() {
            return false;
        }
        if !constraints[i].decide(model) {
            return false;
        }
        i = i + 1;
    }
    assert(holds_all(constraints@, model@));
    true
}

/// What a solver answered to a question whether some constraints can hold together.
#[derive(Debug)]
pub enum Answer {
    /// They cannot.
    Unsat,
    /// The solver gave up, with the model it had reached, if any. Such an
    /// answer counts as "they can": nothing is taken for refuted that the
    /// solver did not refute.
    Unknown(Option<Assignment>),
    /// They can, as under this model.
    Sat(Assignment),
}

impl Answer {
    /// The model that the answer brings.
    pub open spec fn model(self) -> Option<Assignment> {
        match self {
            Answer::Unsat => None,
            Answer::Unknown(model) => model,
            Answer::Sat(model) => Some(model),
        }
    }

    /// The model that the answer brings.
    pub fn witness(&self) -> (r: Option<&Assignment>)
        ensures
            match r {
                Some(model) => self.model() == Some(*model),
                None => self.model() is None,
            },
    {
        match self {
            Answer::Unsat => None,
            Answer::Unknown(model) => model.as_ref(),
            Answer::Sat(model) => Some(model),
        }
    }
}

} // verus!
