use crate::ir::{Instr, InstrLocId, InstrSeqId, LocalFunction, LocalId, Module};
use std::collections::HashMap;
use vstd::prelude::*;

verus! {

broadcast use vstd::std_specs::hash::group_hash_axioms;

/// A place in a function: an instruction's location within a sequence.
#[derive(Clone, Copy, Debug, PartialEq, Eq, Structural)]
pub struct Loc {
    pub block: InstrSeqId,
    pub loc: InstrLocId,
}

/// Which instruction introduced a nested sequence.
#[derive(Clone, Copy, Debug, PartialEq, Eq, Structural)]
pub enum BlockKind {
    Block,
    Loop,
}

/// What the pre-pass records of one function.
#[derive(Debug)]
pub struct Info {
    /// The place of every instruction, in the order of the walk.
    pub locs: Vec<Loc>,
    /// Every sequence, in the order in which the walk opened them.
    pub seqs: Vec<InstrSeqId>,
    /// For each sequence that a `block` or a `loop` introduced, which of the two.
    pub kinds: HashMap<InstrSeqId, BlockKind>,
    /// For each nested sequence that something follows, the place at
    /// which control resumes after it.
    pub ends: HashMap<InstrSeqId, Loc>,
    /// Every local that an instruction of the function names, once each.
    pub locals: Vec<LocalId>,
}

/// The mathematical content of the pre-pass while it runs: what `Info`
/// holds, the sequences that are open, innermost last, and for each level
/// the sequences that have closed there and still wait for their end.
pub struct Walk {
    pub locs: Seq<Loc>,
    pub seqs: Seq<InstrSeqId>,
    pub kinds: Map<InstrSeqId, BlockKind>,
    pub ends: Map<InstrSeqId, Loc>,
    pub locals: Seq<LocalId>,
    pub blocks: Seq<InstrSeqId>,
    pub pending: Seq<Seq<InstrSeqId>>,
}

/// `ends` with every sequence of `ids` resuming at `loc`.
pub open spec fn assign_all(ends: Map<InstrSeqId, Loc>, ids: Seq<InstrSeqId>, loc: Loc) -> Map<
    InstrSeqId,
    Loc,
> {
    Map::new(
        |k: InstrSeqId| ends.dom().contains(k) || ids.contains(k),
        |k: InstrSeqId|
            if ids.contains(k) {
                loc
            } else {
                ends[k]
            },
    )
}

impl Walk {
    /// Before anything was visited: one level, with nothing waiting.
    pub open spec fn initial() -> Walk {
        Walk {
            locs: Seq::empty(),
            seqs: Seq::empty(),
            kinds: Map::empty(),
            ends: Map::empty(),
            locals: Seq::empty(),
            blocks: Seq::empty(),
            pending: seq![Seq::empty()],
        }
    }

    /// A sequence opens.
    pub open spec fn start_instr_seq(self, seq: InstrSeqId) -> Walk {
        Walk {
            seqs: self.seqs.push(seq),
            pending: self.pending.push(Seq::empty()),
            blocks: self.blocks.push(seq),
            ..self
        }
    }

    /// A sequence closes: it joins those that waited inside it, and all
    /// of them wait one level further out.
    pub open spec fn end_instr_seq(self, seq: InstrSeqId) -> Walk {
        let inner = self.pending.last().push(seq);
        let rest = self.pending.drop_last();
        Walk {
            blocks: self.blocks.drop_last(),
            pending: rest.update(rest.len() - 1, rest.last() + inner),
            ..self
        }
    }

    /// An instruction is visited: every sequence that waits at this level
    /// resumes at it.
    pub open spec fn visit_instr(self, instr_loc: InstrLocId) -> Walk {
        let loc = Loc { block: self.blocks.last(), loc: instr_loc };
        Walk {
            locs: self.locs.push(loc),
            ends: assign_all(self.ends, self.pending.last(), loc),
            pending: self.pending.update(self.pending.len() - 1, Seq::empty()),
            ..self
        }
    }

    /// A `block` introduces the sequence `seq`.
    pub open spec fn visit_block(self, seq: InstrSeqId) -> Walk {
        Walk { kinds: self.kinds.insert(seq, BlockKind::Block), ..self }
    }

    /// A `loop` introduces the sequence `seq`.
    pub open spec fn visit_loop(self, seq: InstrSeqId) -> Walk {
        Walk { kinds: self.kinds.insert(seq, BlockKind::Loop), ..self }
    }

    /// An instruction names the local `id`: it is listed, once.
    pub open spec fn visit_local_id(self, id: LocalId) -> Walk {
        if self.locals.contains(id) {
            self
        } else {
            Walk { locals: self.locals.push(id), ..self }
        }
    }

    /// What an instruction's own operands add: the kind of the sequence
    /// that it introduces, or the local that it names.
    pub open spec fn visit_operands(self, instr: Instr) -> Walk {
        match instr {
            Instr::Block { seq } => self.visit_block(seq),
            Instr::Loop { seq } => self.visit_loop(seq),
            Instr::LocalGet { local } => self.visit_local_id(local),
            Instr::LocalSet { local } => self.visit_local_id(local),
            Instr::LocalTee { local } => self.visit_local_id(local),
            _ => self,
        }
    }

    /// The walk through the sequence `seq` and all that is nested in it,
    /// depth first and in order.
    pub open spec fn walk_seq(self, module: &Module, seq: InstrSeqId) -> Walk
        decreases module.seqs.len() - seq, module.seqs[seq as int].instrs.len() + 1,
    {
        if seq < module.seqs.len() {
            self.start_instr_seq(seq).walk_instrs(module, seq, 0).end_instr_seq(seq)
        } else {
            self
        }
    }

    /// The walk through the instructions of `seq` from the `i`-th on.
    pub open spec fn walk_instrs(self, module: &Module, seq: InstrSeqId, i: int) -> Walk
        decreases module.seqs.len() - seq, module.seqs[seq as int].instrs.len() - i,
    {
        if seq < module.seqs.len() && 0 <= i < module.seqs[seq as int].instrs.len() {
            let (instr, instr_loc) = module.seqs[seq as int].instrs[i];
            let here = self.visit_instr(instr_loc).visit_operands(instr);
            let after = match instr {
                Instr::Block { seq: sub } => if seq < sub < module.seqs.len() {
                    here.walk_seq(module, sub)
                } else {
                    here
                },
                Instr::Loop { seq: sub } => if seq < sub < module.seqs.len() {
                    here.walk_seq(module, sub)
                } else {
                    here
                },
                Instr::IfElse { consequent, alternative } => if seq < consequent < module.seqs.len()
                    && seq < alternative < module.seqs.len() {
                    here.walk_seq(module, consequent).walk_seq(module, alternative)
                } else {
                    here
                },
                _ => here,
            };
            after.walk_instrs(module, seq, i + 1)
        } else {
            self
        }
    }

    /// Whether the sequence `id` was introduced by an instruction that the
    /// walk has seen: it has a kind, or is an arm of a conditional.
    pub open spec fn introduced(self, module: &Module, id: InstrSeqId) -> bool {
        self.kinds.dom().contains(id) || module.is_arm(id as int)
    }

    /// What holds of a walk at every moment.
    pub open spec fn inv(self, module: &Module) -> bool {
        &&& self.pending.len() == self.blocks.len() + 1
        &&& forall|i: int, j: int|
            0 <= i < j < self.blocks.len() ==> #[trigger] self.blocks[i] < #[trigger] self.blocks[j]
        &&& forall|i: int| 0 <= i < self.blocks.len() ==> #[trigger] self.blocks[i] < module.seqs.len()
        &&& forall|k: int, x: int|
            1 <= k < self.pending.len() && 0 <= x < self.pending[k].len() ==> {
                &&& self.blocks[k - 1] < (#[trigger] self.pending[k][x]) < module.seqs.len()
                &&& self.introduced(module, self.pending[k][x])
            }
        &&& self.info_wf(module)
    }

    /// What holds of the recorded content: control resumes after a nested
    /// sequence in a sequence of smaller index; a sequence with an end
    /// that is no arm of a conditional has a kind; each local is listed once.
    pub open spec fn info_wf(self, module: &Module) -> bool {
        &&& forall|k: InstrSeqId| #[trigger]
            self.ends.dom().contains(k) ==> {
                &&& self.ends[k].block < k < module.seqs.len()
                &&& self.introduced(module, k)
            }
        &&& self.locals.no_duplicates()
    }
}

/// The content of `Info`, as the walk's content without what is open.
pub struct InfoView {
    pub locs: Seq<Loc>,
    pub seqs: Seq<InstrSeqId>,
    pub kinds: Map<InstrSeqId, BlockKind>,
    pub ends: Map<InstrSeqId, Loc>,
    pub locals: Seq<LocalId>,
}

impl Walk {
    /// What the walk has recorded.
    pub open spec fn info(self) -> InfoView {
        InfoView {
            locs: self.locs,
            seqs: self.seqs,
            kinds: self.kinds,
            ends: self.ends,
            locals: self.locals,
        }
    }
}

impl InfoView {
    /// The walk that has recorded this and has nothing open.
    pub open spec fn as_walk(self) -> Walk {
        Walk {
            locs: self.locs,
            seqs: self.seqs,
            kinds: self.kinds,
            ends: self.ends,
            locals: self.locals,
            blocks: Seq::empty(),
            pending: seq![Seq::empty()],
        }
    }
}

impl View for Info {
    type V = InfoView;

    open spec fn view(&self) -> InfoView {
        InfoView {
            locs: self.locs@,
            seqs: self.seqs@,
            kinds: self.kinds@,
            ends: self.ends@,
            locals: self.locals@,
        }
    }
}

impl Info {
    /// The invariant of what the pre-pass returns for a function of `module`.
    pub open spec fn wf(&self, module: &Module) -> bool {
        self@.as_walk().info_wf(module)
    }
}

/// The views of a vector of vectors.
pub open spec fn lists(v: Seq<Vec<InstrSeqId>>) -> Seq<Seq<InstrSeqId>> {
    Seq::new(v.len(), |i: int| v[i]@)
}

/// The pre-pass while it runs.
#[derive(Debug)]
pub struct InfoVisitor {
    pub info: Info,
    pub blocks: Vec<InstrSeqId>,
    pub to_update_next: Vec<Vec<InstrSeqId>>,
}

impl View for InfoVisitor {
    type V = Walk;

    open spec fn view(&self) -> Walk {
        Walk {
            locs: self.info.locs@,
            seqs: self.info.seqs@,
            kinds: self.info.kinds@,
            ends: self.info.ends@,
            locals: self.info.locals@,
            blocks: self.blocks@,
            pending: lists(self.to_update_next@),
        }
    }
}

/// Whether `id` occurs in `list`.
fn holds_id(list: &Vec<LocalId>, id: LocalId) -> (r: bool)
    ensures
        r == list@.contains(id),
{
    let mut i: usize = 0;
    while i < list.len()
        invariant
            i <= list.len(),
            forall|j: int| 0 <= j < i ==> list@[j] != id,
        decreases list.len() - i,
    {
        if list[i] == id {
            return true;
        }
        i = i + 1;
    }
    false
}

impl InfoVisitor {
    /// A pre-pass that has seen nothing yet.
    pub fn new() -> (r: Self)
        ensures
            r@ == Walk::initial(),
    {
        let mut to_update_next: Vec<Vec<InstrSeqId>> = Vec::new();
        to_update_next.push(Vec::new());
        let r = InfoVisitor {
            info: Info {
                locs: Vec::new(),
                seqs: Vec::new(),
                kinds: HashMap::new(),
                ends: HashMap::new(),
                locals: Vec::new(),
            },
            blocks: Vec::new(),
            to_update_next,
        };
        assert(r@.pending =~= seq![Seq::empty()]);
        r
    }

    /// A sequence opens.
    pub fn start_instr_seq(&mut self, seq: InstrSeqId)
        ensures
            final(self)@ == old(self)@.start_instr_seq(seq),
    {
        self.info.seqs.push(seq);
        self.to_update_next.push(Vec::new());
        self.blocks.push(seq);
        assert(self@.pending =~= old(self)@.pending.push(Seq::empty()));
    }

    /// A sequence closes: it and those that waited inside it now wait
    /// one level further out for the instruction that follows them.
    pub fn end_instr_seq(&mut self, seq: InstrSeqId)
        requires
            old(self)@.pending.len() >= 2,
            old(self)@.blocks.len() >= 1,
        ensures
            final(self)@ == old(self)@.end_instr_seq(seq),
    {
        self.blocks.pop();
        let mut last_to_update = self.to_update_next.pop().unwrap();
        last_to_update.push(seq);
        let mut outer = self.to_update_next.pop().unwrap();
        outer.append(&mut last_to_update);
        self.to_update_next.push(outer);
        assert(self@.blocks =~= old(self)@.blocks.drop_last());
        assert(self@.pending =~= old(self)@.end_instr_seq(seq).pending);
    }

    /// An instruction is visited: it is where every sequence resumes
    /// that waits at this level.
    pub fn visit_instr(&mut self, instr_loc: InstrLocId)
        requires
            old(self)@.blocks.len() >= 1,
            old(self)@.pending.len() >= 1,
        ensures
            final(self)@ == old(self)@.visit_instr(instr_loc),
    {
        let loc = Loc { block: self.blocks[self.blocks.len() - 1], loc: instr_loc };
        self.info.locs.push(loc);
        let mut to_update = self.to_update_next.pop().unwrap();
        let ghost waiting = to_update@;
        let ghost before = self.info.ends@;
        while to_update.len() > 0
            invariant
                to_update@ == waiting.take(to_update@.len() as int),
                to_update@.len() <= waiting.len(),
                self.info.ends@ =~= assign_all(before, waiting.skip(to_update@.len() as int), loc),
                self.info.locs@ == old(self).info.locs@.push(loc),
                self.info.seqs == old(self).info.seqs,
                self.info.kinds == old(self).info.kinds,
                self.info.locals == old(self).info.locals,
                self.blocks == old(self).blocks,
                self.to_update_next@ == old(self).to_update_next@.drop_last(),
            decreases to_update.len(),
        {
            let ghost n = to_update@.len() as int;
            let seq = to_update.pop().unwrap();
            self.info.ends.insert(seq, loc);
            proof {
                assert(to_update@ =~= waiting.take(n - 1));
                assert(waiting.skip(n - 1) =~= seq![seq] + waiting.skip(n));
                assert forall|k: InstrSeqId| waiting.skip(n - 1).contains(k) <==> (k == seq
                    || waiting.skip(n).contains(k)) by {
                    if waiting.skip(n).contains(k) {
                        let j = choose|j: int| 0 <= j < waiting.skip(n).len() && waiting.skip(n)[j] == k;
                        assert(waiting.skip(n - 1)[j + 1] == k);
                    }
                    if k == seq {
                        assert(waiting.skip(n - 1)[0] == k);
                    }
                }
            }
        }
        assert(to_update@ =~= Seq::<InstrSeqId>::empty());
        self.to_update_next.push(to_update);
        proof {
            assert(waiting.skip(0) =~= waiting);
            assert(waiting == old(self)@.pending.last());
            assert(self@.pending =~= old(self)@.visit_instr(instr_loc).pending);
            assert(self@.ends =~= old(self)@.visit_instr(instr_loc).ends);
        }
    }

    /// A `block` introduces the sequence `seq`.
    pub fn visit_block(&mut self, seq: InstrSeqId)
        ensures
            final(self)@ == old(self)@.visit_block(seq),
    {
        self.info.kinds.insert(seq, BlockKind::Block);
    }

    /// A `loop` introduces the sequence `seq`.
    pub fn visit_loop(&mut self, seq: InstrSeqId)
        ensures
            final(self)@ == old(self)@.visit_loop(seq),
    {
        self.info.kinds.insert(seq, BlockKind::Loop);
    }

    /// An instruction names the local `id`.
    pub fn visit_local_id(&mut self, id: LocalId)
        ensures
            final(self)@ == old(self)@.visit_local_id(id),
    {
        if !holds_id(&self.info.locals, id) {
            self.info.locals.push(id);
        }
    }

    /// Visits what an instruction names.
    fn visit_operands(&mut self, instr: &Instr)
        ensures
            final(self)@ == old(self)@.visit_operands(*instr),
    {
        match instr {
            Instr::Block { seq } => self.visit_block(*seq),
            Instr::Loop { seq } => self.visit_loop(*seq),
            Instr::LocalGet { local } => self.visit_local_id(*local),
            Instr::LocalSet { local } => self.visit_local_id(*local),
            Instr::LocalTee { local } => self.visit_local_id(*local),
            _ => {},
        }
    }

    /// Walks through the sequence `seq` and all that is nested in it.
    fn walk(&mut self, module: &Module, seq: InstrSeqId)
        requires
            module.wf(),
            seq < module.seqs.len(),
            old(self)@.pending.len() >= 1,
        ensures
            final(self)@ == old(self)@.walk_seq(module, seq),
            final(self)@.blocks == old(self)@.blocks,
            final(self)@.pending.len() == old(self)@.pending.len(),
        decreases module.seqs.len() - seq,
    {
        self.start_instr_seq(seq);
        let block = module.block(seq);
        let ghost opened = self@;
        let mut i: usize = 0;
        while i < block.instrs.len()
            invariant
                module.wf(),
                seq < module.seqs.len(),
                *block == module.seqs[seq as int],
                i <= block.instrs.len(),
                self@.blocks == old(self)@.blocks.push(seq),
                self@.pending.len() == old(self)@.pending.len() + 1,
                self@.walk_instrs(module, seq, i as int) == opened.walk_instrs(module, seq, 0),
            decreases block.instrs.len() - i,
        {
            let (instr, instr_loc) = block.instrs[i];
            assert(module.instr_wf(module.seqs[seq as int].instrs[i as int].0, seq as int));
            self.visit_instr(instr_loc);
            self.visit_operands(&instr);
            match instr {
                Instr::Block { seq: sub } => {
                    self.walk(module, sub);
                },
                Instr::Loop { seq: sub } => {
                    self.walk(module, sub);
                },
                Instr::IfElse { consequent, alternative } => {
                    self.walk(module, consequent);
                    self.walk(module, alternative);
                },
                _ => {},
            }
            i = i + 1;
        }
        self.end_instr_seq(seq);
        assert(self@.blocks =~= old(self)@.blocks);
    }
}

impl Walk {
    /// Whether everything that `self` has recorded of kinds is still in `later`.
    pub open spec fn kinds_kept(self, later: Walk) -> bool {
        forall|k: InstrSeqId| self.kinds.dom().contains(k) ==> #[trigger] later.kinds.dom().contains(k)
    }

    proof fn lemma_start_inv(self, module: &Module, seq: InstrSeqId)
        requires
            self.inv(module),
            seq < module.seqs.len(),
            self.blocks.len() > 0 ==> self.blocks.last() < seq,
        ensures
            self.start_instr_seq(seq).inv(module),
    {
        let r = self.start_instr_seq(seq);
        assert forall|i: int, j: int| 0 <= i < j < r.blocks.len() implies #[trigger] r.blocks[i]
            < #[trigger] r.blocks[j] by {
            if j == self.blocks.len() {
                if i < self.blocks.len() - 1 {
                    assert(self.blocks[i] < self.blocks[self.blocks.len() - 1]);
                }
            }
        }
        assert forall|k: int, x: int|
            1 <= k < r.pending.len() && 0 <= x < r.pending[k].len() implies {
            &&& r.blocks[k - 1] < (#[trigger] r.pending[k][x]) < module.seqs.len()
            &&& r.introduced(module, r.pending[k][x])
        } by {
            assert(k < self.pending.len());
            assert(r.pending[k] == self.pending[k]);
            assert(self.introduced(module, self.pending[k][x]));
        }
    }

    proof fn lemma_end_inv(self, module: &Module, seq: InstrSeqId)
        requires
            self.inv(module),
            self.blocks.len() >= 1,
            seq == self.blocks.last(),
            self.blocks.len() >= 2 ==> self.introduced(module, seq),
        ensures
            self.end_instr_seq(seq).inv(module),
    {
        let r = self.end_instr_seq(seq);
        let n = self.blocks.len() as int;
        let inner = self.pending.last().push(seq);
        assert forall|k: int, x: int|
            1 <= k < r.pending.len() && 0 <= x < r.pending[k].len() implies {
            &&& r.blocks[k - 1] < (#[trigger] r.pending[k][x]) < module.seqs.len()
            &&& r.introduced(module, r.pending[k][x])
        } by {
            if k < n - 1 {
                assert(r.pending[k] == self.pending[k]);
                assert(self.introduced(module, self.pending[k][x]));
            } else {
                assert(r.pending[k] == self.pending[n - 1] + inner);
                assert(self.blocks[n - 2] < self.blocks[n - 1]);
                let old_len = self.pending[n - 1].len();
                if x < old_len {
                    assert(r.pending[k][x] == self.pending[n - 1][x]);
                    assert(self.introduced(module, self.pending[n - 1][x]));
                } else if x < old_len + self.pending[n].len() {
                    assert(r.pending[k][x] == self.pending[n][x - old_len]);
                    assert(self.introduced(module, self.pending[n][x - old_len]));
                } else {
                    assert(r.pending[k][x] == seq);
                }
            }
        }
    }

    proof fn lemma_visit_instr_inv(self, module: &Module, instr_loc: InstrLocId)
        requires
            self.inv(module),
            self.blocks.len() >= 1,
        ensures
            self.visit_instr(instr_loc).inv(module),
    {
        let r = self.visit_instr(instr_loc);
        let n = self.blocks.len() as int;
        assert forall|k: int, x: int|
            1 <= k < r.pending.len() && 0 <= x < r.pending[k].len() implies {
            &&& r.blocks[k - 1] < (#[trigger] r.pending[k][x]) < module.seqs.len()
            &&& r.introduced(module, r.pending[k][x])
        } by {
            assert(r.pending[k] == self.pending[k]);
            assert(self.introduced(module, self.pending[k][x]));
        }
        assert forall|k: InstrSeqId| #[trigger] r.ends.dom().contains(k) implies {
            &&& r.ends[k].block < k < module.seqs.len()
            &&& r.introduced(module, k)
        } by {
            if self.pending.last().contains(k) {
                let x = choose|x: int| 0 <= x < self.pending[n].len() && self.pending[n][x] == k;
                assert(self.introduced(module, self.pending[n][x]));
            } else {
                assert(self.ends.dom().contains(k));
            }
        }
    }

    proof fn lemma_visit_operands_inv(self, module: &Module, instr: Instr, seq: int)
        requires
            self.inv(module),
            module.instr_wf(instr, seq),
        ensures
            self.visit_operands(instr).inv(module),
            self.kinds_kept(self.visit_operands(instr)),
            self.visit_operands(instr).blocks == self.blocks,
            self.visit_operands(instr).pending == self.pending,
            instr matches Instr::Block { seq: sub } ==> self.visit_operands(instr).introduced(
                module,
                sub,
            ),
            instr matches Instr::Loop { seq: sub } ==> self.visit_operands(instr).introduced(
                module,
                sub,
            ),
    {
        let r = self.visit_operands(instr);
        assert forall|k: int, x: int|
            1 <= k < r.pending.len() && 0 <= x < r.pending[k].len() implies {
            &&& r.blocks[k - 1] < (#[trigger] r.pending[k][x]) < module.seqs.len()
            &&& r.introduced(module, r.pending[k][x])
        } by {
            assert(self.introduced(module, self.pending[k][x]));
        }
        assert forall|k: InstrSeqId| #[trigger] r.ends.dom().contains(k) implies {
            &&& r.ends[k].block < k < module.seqs.len()
            &&& r.introduced(module, k)
        } by {
            assert(self.ends.dom().contains(k));
        }
    }

    /// The walk through a sequence keeps the invariant, leaves open what
    /// was open, and forgets no kind.
    pub proof fn lemma_walk_seq_inv(self, module: &Module, seq: InstrSeqId)
        requires
            self.inv(module),
            module.wf(),
            seq < module.seqs.len(),
            self.blocks.len() > 0 ==> self.blocks.last() < seq && self.introduced(module, seq),
        ensures
            self.walk_seq(module, seq).inv(module),
            self.walk_seq(module, seq).blocks == self.blocks,
            self.kinds_kept(self.walk_seq(module, seq)),
        decreases module.seqs.len() - seq, module.seqs[seq as int].instrs.len() + 1,
    {
        let opened = self.start_instr_seq(seq);
        self.lemma_start_inv(module, seq);
        opened.lemma_walk_instrs_inv(module, seq, 0);
        let walked = opened.walk_instrs(module, seq, 0);
        walked.lemma_end_inv(module, seq);
        assert(walked.end_instr_seq(seq).blocks =~= self.blocks);
    }

    /// The same for the rest of a sequence from its `i`-th instruction on.
    pub proof fn lemma_walk_instrs_inv(self, module: &Module, seq: InstrSeqId, i: int)
        requires
            self.inv(module),
            module.wf(),
            seq < module.seqs.len(),
            0 <= i <= module.seqs[seq as int].instrs.len(),
            self.blocks.len() >= 1,
            self.blocks.last() == seq,
        ensures
            self.walk_instrs(module, seq, i).inv(module),
            self.walk_instrs(module, seq, i).blocks == self.blocks,
            self.kinds_kept(self.walk_instrs(module, seq, i)),
        decreases module.seqs.len() - seq, module.seqs[seq as int].instrs.len() - i,
    {
        if i < module.seqs[seq as int].instrs.len() {
            let (instr, instr_loc) = module.seqs[seq as int].instrs[i];
            assert(module.instr_wf(module.seqs[seq as int].instrs[i].0, seq as int));
            let seen = self.visit_instr(instr_loc);
            self.lemma_visit_instr_inv(module, instr_loc);
            let here = seen.visit_operands(instr);
            seen.lemma_visit_operands_inv(module, instr, seq as int);
            let after = match instr {
                Instr::Block { seq: sub } => here.walk_seq(module, sub),
                Instr::Loop { seq: sub } => here.walk_seq(module, sub),
                Instr::IfElse { consequent, alternative } => here.walk_seq(
                    module,
                    consequent,
                ).walk_seq(module, alternative),
                _ => here,
            };
            match instr {
                Instr::Block { seq: sub } => {
                    here.lemma_walk_seq_inv(module, sub);
                },
                Instr::Loop { seq: sub } => {
                    here.lemma_walk_seq_inv(module, sub);
                },
                Instr::IfElse { consequent, alternative } => {
                    assert(module.arm_at(seq as int, i, consequent as int));
                    assert(module.arm_at(seq as int, i, alternative as int));
                    here.lemma_walk_seq_inv(module, consequent);
                    here.walk_seq(module, consequent).lemma_walk_seq_inv(module, alternative);
                },
                _ => {},
            }
            after.lemma_walk_instrs_inv(module, seq, i + 1);
        }
    }
}


/// The sequences that wait for their end when instruction `i` of the
/// sequence `seq` is done: those that it introduces, each after the
/// sequences that wait inside it.
pub open spec fn carried(module: &Module, seq: InstrSeqId, i: int) -> Seq<InstrSeqId>
    decreases module.seqs.len() - seq, 0nat,
{
    if seq < module.seqs.len() && 0 <= i < module.seqs[seq as int].instrs.len() {
        match module.seqs[seq as int].instrs[i].0 {
            Instr::Block { seq: sub } => if seq < sub < module.seqs.len() {
                waiting(module, sub).push(sub)
            } else {
                Seq::empty()
            },
            Instr::Loop { seq: sub } => if seq < sub < module.seqs.len() {
                waiting(module, sub).push(sub)
            } else {
                Seq::empty()
            },
            Instr::IfElse { consequent, alternative } => if seq < consequent < module.seqs.len()
                && seq < alternative < module.seqs.len() {
                waiting(module, consequent).push(consequent) + waiting(module, alternative).push(
                    alternative,
                )
            } else {
                Seq::empty()
            },
            _ => Seq::empty(),
        }
    } else {
        Seq::empty()
    }
}

/// The sequences nested in `seq` that end where `seq` ends: what the
/// last instruction of `seq` carries.
pub open spec fn waiting(module: &Module, seq: InstrSeqId) -> Seq<InstrSeqId>
    decreases module.seqs.len() - seq, 1nat,
{
    if seq < module.seqs.len() && module.seqs[seq as int].instrs.len() > 0 {
        carried(module, seq, module.seqs[seq as int].instrs.len() - 1)
    } else {
        Seq::empty()
    }
}

/// The ends of the sequences nested in `seq`, as far as they lie within
/// `seq`: a sequence that an instruction introduces, and every
/// sequence that ends where it ends, resumes at the instruction that
/// follows in the sequence that holds the instruction. What the last
/// instruction of `seq` introduces has no end within `seq`.
pub open spec fn settled(module: &Module, seq: InstrSeqId) -> Map<InstrSeqId, Loc>
    decreases module.seqs.len() - seq, module.seqs[seq as int].instrs.len() + 1,
{
    if seq < module.seqs.len() {
        settled_from(module, seq, 0)
    } else {
        Map::empty()
    }
}

/// The ends that lie within what instruction `i` of `seq` introduces.
pub open spec fn settled_inside(module: &Module, seq: InstrSeqId, i: int) -> Map<InstrSeqId, Loc>
    decreases module.seqs.len() - seq, 0nat,
{
    if seq < module.seqs.len() && 0 <= i < module.seqs[seq as int].instrs.len() {
        match module.seqs[seq as int].instrs[i].0 {
            Instr::Block { seq: sub } => if seq < sub < module.seqs.len() {
                settled(module, sub)
            } else {
                Map::empty()
            },
            Instr::Loop { seq: sub } => if seq < sub < module.seqs.len() {
                settled(module, sub)
            } else {
                Map::empty()
            },
            Instr::IfElse { consequent, alternative } => if seq < consequent < module.seqs.len()
                && seq < alternative < module.seqs.len() {
                settled(module, consequent).union_prefer_right(settled(module, alternative))
            } else {
                Map::empty()
            },
            _ => Map::empty(),
        }
    } else {
        Map::empty()
    }
}

/// The ends that the instructions of `seq` from the `i`-th on settle.
pub open spec fn settled_from(module: &Module, seq: InstrSeqId, i: int) -> Map<InstrSeqId, Loc>
    decreases module.seqs.len() - seq, module.seqs[seq as int].instrs.len() - i,
{
    let instrs = module.seqs[seq as int].instrs;
    if seq < module.seqs.len() && 0 <= i < instrs.len() {
        let inside = settled_inside(module, seq, i);
        let here = if i + 1 < instrs.len() {
            assign_all(inside, carried(module, seq, i), Loc { block: seq, loc: instrs[i + 1].1 })
        } else {
            inside
        };
        here.union_prefer_right(settled_from(module, seq, i + 1))
    } else {
        Map::empty()
    }
}

/// The kinds of the sequences that the instructions of `seq` from the
/// `i`-th on introduce, and of those nested in them.
pub open spec fn kinds_from(module: &Module, seq: InstrSeqId, i: int) -> Map<InstrSeqId, BlockKind>
    decreases module.seqs.len() - seq, module.seqs[seq as int].instrs.len() - i,
{
    let instrs = module.seqs[seq as int].instrs;
    if seq < module.seqs.len() && 0 <= i < instrs.len() {
        let here: Map<InstrSeqId, BlockKind> = match instrs[i].0 {
            Instr::Block { seq: sub } => if seq < sub < module.seqs.len() {
                map![sub => BlockKind::Block].union_prefer_right(kinds_from(module, sub, 0))
            } else {
                map![sub => BlockKind::Block]
            },
            Instr::Loop { seq: sub } => if seq < sub < module.seqs.len() {
                map![sub => BlockKind::Loop].union_prefer_right(kinds_from(module, sub, 0))
            } else {
                map![sub => BlockKind::Loop]
            },
            Instr::IfElse { consequent, alternative } => if seq < consequent < module.seqs.len()
                && seq < alternative < module.seqs.len() {
                kinds_from(module, consequent, 0).union_prefer_right(
                    kinds_from(module, alternative, 0),
                )
            } else {
                Map::empty()
            },
            _ => Map::empty(),
        };
        here.union_prefer_right(kinds_from(module, seq, i + 1))
    } else {
        Map::empty()
    }
}

impl Walk {
    /// The state before the `i`-th instruction of `seq` is visited, with
    /// what waits at this level resumed there.
    pub open spec fn flushed(self, module: &Module, seq: InstrSeqId, i: int) -> Map<InstrSeqId, Loc> {
        if 0 <= i < module.seqs[seq as int].instrs.len() {
            assign_all(
                self.ends,
                self.pending.last(),
                Loc { block: seq, loc: module.seqs[seq as int].instrs[i].1 },
            )
        } else {
            self.ends
        }
    }

    /// What the walk through a sequence adds: the ends and the kinds that
    /// lie within it, and to what waits at the level around it the
    /// sequences that end with it.
    pub proof fn lemma_walk_seq_adds(self, module: &Module, seq: InstrSeqId)
        requires
            seq < module.seqs.len(),
            self.pending.len() == self.blocks.len() + 1,
        ensures
            self.walk_seq(module, seq).ends == self.ends.union_prefer_right(settled(module, seq)),
            self.walk_seq(module, seq).kinds == self.kinds.union_prefer_right(
                kinds_from(module, seq, 0),
            ),
            self.walk_seq(module, seq).pending == self.pending.update(
                self.pending.len() - 1,
                self.pending.last() + waiting(module, seq).push(seq),
            ),
            self.walk_seq(module, seq).blocks == self.blocks,
        decreases module.seqs.len() - seq, module.seqs[seq as int].instrs.len() + 1,
    {
        let opened = self.start_instr_seq(seq);
        opened.lemma_walk_instrs_adds(module, seq, 0);
        let walked = opened.walk_instrs(module, seq, 0);
        let r = walked.end_instr_seq(seq);
        let len = module.seqs[seq as int].instrs.len();
        assert(opened.flushed(module, seq, 0) =~= self.ends);
        assert(r.ends =~= self.ends.union_prefer_right(settled(module, seq)));
        assert(walked.pending.last() == waiting(module, seq));
        assert(walked.pending.drop_last() =~= self.pending);
        assert(r.pending =~= self.pending.update(
            self.pending.len() - 1,
            self.pending.last() + waiting(module, seq).push(seq),
        ));
        assert(r.blocks =~= self.blocks);
    }

    /// The same for the rest of a sequence from its `i`-th instruction
    /// on, where what the instruction before carries waits at this level.
    pub proof fn lemma_walk_instrs_adds(self, module: &Module, seq: InstrSeqId, i: int)
        requires
            seq < module.seqs.len(),
            0 <= i <= module.seqs[seq as int].instrs.len(),
            self.blocks.len() >= 1,
            self.blocks.last() == seq,
            self.pending.len() == self.blocks.len() + 1,
            self.pending.last() == if i == 0 {
                Seq::<InstrSeqId>::empty()
            } else {
                carried(module, seq, i - 1)
            },
        ensures
            self.walk_instrs(module, seq, i).ends == self.flushed(module, seq, i).union_prefer_right(
                settled_from(module, seq, i),
            ),
            self.walk_instrs(module, seq, i).kinds == self.kinds.union_prefer_right(
                kinds_from(module, seq, i),
            ),
            self.walk_instrs(module, seq, i).pending == self.pending.update(
                self.pending.len() - 1,
                waiting(module, seq),
            ),
            self.walk_instrs(module, seq, i).blocks == self.blocks,
        decreases module.seqs.len() - seq, module.seqs[seq as int].instrs.len() - i,
    {
        let instrs = module.seqs[seq as int].instrs;
        let last = self.pending.len() - 1;
        if i < instrs.len() {
            let (instr, instr_loc) = instrs[i];
            let seen = self.visit_instr(instr_loc);
            let here = seen.visit_operands(instr);
            assert(here.ends == self.flushed(module, seq, i));
            assert(here.pending == self.pending.update(last, Seq::empty()));
            assert(here.blocks == self.blocks);
            let after = match instr {
                Instr::Block { seq: sub } => if seq < sub < module.seqs.len() {
                    here.walk_seq(module, sub)
                } else {
                    here
                },
                Instr::Loop { seq: sub } => if seq < sub < module.seqs.len() {
                    here.walk_seq(module, sub)
                } else {
                    here
                },
                Instr::IfElse { consequent, alternative } => if seq < consequent < module.seqs.len()
                    && seq < alternative < module.seqs.len() {
                    here.walk_seq(module, consequent).walk_seq(module, alternative)
                } else {
                    here
                },
                _ => here,
            };
            match instr {
                Instr::Block { seq: sub } => {
                    if seq < sub < module.seqs.len() {
                        here.lemma_walk_seq_adds(module, sub);
                    }
                },
                Instr::Loop { seq: sub } => {
                    if seq < sub < module.seqs.len() {
                        here.lemma_walk_seq_adds(module, sub);
                    }
                },
                Instr::IfElse { consequent, alternative } => {
                    if seq < consequent < module.seqs.len() && seq < alternative < module.seqs.len() {
                        here.lemma_walk_seq_adds(module, consequent);
                        let mid = here.walk_seq(module, consequent);
                        mid.lemma_walk_seq_adds(module, alternative);
                        assert(after.pending =~= here.pending.update(
                            last,
                            carried(module, seq, i),
                        ));
                        assert(after.ends =~= here.ends.union_prefer_right(
                            settled_inside(module, seq, i),
                        ));
                    }
                },
                _ => {},
            }
            assert(after.pending =~= self.pending.update(last, carried(module, seq, i)));
            assert(after.ends =~= here.ends.union_prefer_right(settled_inside(module, seq, i)));
            assert(after.blocks == self.blocks);
            after.lemma_walk_instrs_adds(module, seq, i + 1);
            let r = after.walk_instrs(module, seq, i + 1);
            assert(r == self.walk_instrs(module, seq, i));
            assert(r.ends =~= self.flushed(module, seq, i).union_prefer_right(
                settled_from(module, seq, i),
            ));
            assert(r.kinds =~= self.kinds.union_prefer_right(kinds_from(module, seq, i)));
            assert(r.pending =~= self.pending.update(last, waiting(module, seq)));
        } else {
            assert(self.walk_instrs(module, seq, i) == self);
            assert(self.ends =~= self.flushed(module, seq, i).union_prefer_right(
                settled_from(module, seq, i),
            ));
            assert(self.kinds =~= self.kinds.union_prefer_right(kinds_from(module, seq, i)));
            if i == 0 {
                assert(self.pending =~= self.pending.update(last, waiting(module, seq)));
            } else {
                assert(self.pending =~= self.pending.update(last, waiting(module, seq)));
            }
        }
    }
}

/// Walks once through the body of `func`, depth first and in order, and
/// records for each nested sequence the place at which control resumes
/// after it, for each sequence that a `block` or a `loop` introduced which
/// of the two it was, and every local that an instruction names.
///
/// A nested sequence resumes at the instruction that follows the one
/// which introduced it, in the sequence that holds that one. Where
/// nothing follows there, it resumes where that sequence resumes; where
/// that goes on to the end of the body, it has no end, and neither has
/// the entry sequence.
pub fn compute_info(module: &Module, func: &LocalFunction) -> (info: Info)
    requires
        module.wf(),
        func.entry < module.seqs.len(),
    ensures
        info@ == Walk::initial().walk_seq(module, func.entry).info(),
        info@.ends == settled(module, func.entry),
        info@.kinds == kinds_from(module, func.entry, 0),
        info.wf(module),
{
    let mut info_visitor = InfoVisitor::new();
    proof {
        assert(Walk::initial().inv(module));
        Walk::initial().lemma_walk_seq_inv(module, func.entry);
        Walk::initial().lemma_walk_seq_adds(module, func.entry);
        assert(Map::<InstrSeqId, Loc>::empty().union_prefer_right(settled(module, func.entry))
            =~= settled(module, func.entry));
        assert(Map::<InstrSeqId, BlockKind>::empty().union_prefer_right(
            kinds_from(module, func.entry, 0),
        ) =~= kinds_from(module, func.entry, 0));
    }
    info_visitor.walk(module, func.entry_block());
    info_visitor.info
}

} // verus!