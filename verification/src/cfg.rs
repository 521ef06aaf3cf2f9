//! The shape of a program: what every client owes the allocator, and the
//! checks on blocks, branches and edges that come before any allocation.

use vstd::prelude::*;
use crate::function::{Program, ProgramModel};
use crate::index::{Block, Inst};
use crate::operand::{OperandConstraint, OperandKind};
use crate::output::RegAllocError;

verus! {

/// The least index in `from..to` at which `f` holds, or `to` if there is none.
pub open spec fn first_such(from: int, to: int, f: spec_fn(int) -> bool) -> int
    decreases to - from,
{
    if from >= to {
        to
    } else if f(from) {
        from
    } else {
        first_such(from + 1, to, f)
    }
}

/// `first_such` finds an index at which `f` holds and before which it does
/// not, or `to` if `f` holds nowhere in the range.
pub proof fn lemma_first_such(from: int, to: int, f: spec_fn(int) -> bool)
    requires
        from <= to,
    ensures
        from <= first_such(from, to, f) <= to,
        first_such(from, to, f) < to ==> f(first_such(from, to, f)),
        forall|j: int| from <= j < first_such(from, to, f) ==> !#[trigger] f(j),
    decreases to - from,
{
    if from < to && !f(from) {
        lemma_first_such(from + 1, to, f);
    }
}

impl ProgramModel {
    /// The number of operands of the instructions before instruction `i`.
    pub open spec fn operand_offset(self, i: int) -> int
        decreases i,
    {
        if i <= 0 {
            0
        } else {
            self.operand_offset(i - 1) + self.insts[i - 1].operands.len()
        }
    }

    /// The blocks' ranges of instructions divide `0..insts.len()` in order.
    pub open spec fn partitioned(self) -> bool {
        &&& self.blocks.len() >= 1
        &&& self.blocks[0].insns.0.0 == 0
        &&& forall|b: int| 0 <= b < self.blocks.len() ==> (#[trigger] self.blocks[b]).insns.wf()
        &&& forall|b: int|
            0 < b < self.blocks.len() ==> (#[trigger] self.blocks[b]).insns.0 == self.blocks[b
                - 1].insns.1
        &&& self.blocks[self.blocks.len() - 1].insns.1.0 == self.insts.len()
    }

    /// Every successor and predecessor is a block of the program.
    pub open spec fn edges_in_bounds(self) -> bool {
        &&& forall|b: int, k: int|
            0 <= b < self.blocks.len() && 0 <= k < self.blocks[b].succs.len() ==> (
            #[trigger] self.blocks[b].succs[k]).0 < self.blocks.len()
        &&& forall|b: int, k: int|
            0 <= b < self.blocks.len() && 0 <= k < self.blocks[b].preds.len() ==> (
            #[trigger] self.blocks[b].preds[k]).0 < self.blocks.len()
    }

    /// Every vreg that the program names has an id below `num_vregs`.
    pub open spec fn vregs_in_bounds(self) -> bool {
        &&& forall|i: int, k: int|
            0 <= i < self.insts.len() && 0 <= k < self.insts[i].operands.len() ==> (
            #[trigger] self.insts[i].operands[k]).spec_vreg().spec_vreg() < self.num_vregs
        &&& forall|b: int, k: int|
            0 <= b < self.blocks.len() && 0 <= k < self.blocks[b].params.len() ==> (
            #[trigger] self.blocks[b].params[k]).spec_vreg() < self.num_vregs
        &&& forall|k: int|
            0 <= k < self.reftype_vregs.len() ==> (#[trigger] self.reftype_vregs[k]).spec_vreg()
                < self.num_vregs
        &&& forall|k: int|
            0 <= k < self.pinned_vregs.len() ==> (#[trigger] self.pinned_vregs[k]).spec_vreg()
                < self.num_vregs
    }

    /// Whether operand `k` of instruction `i` is a definition that takes
    /// the location of the operand with index `j`.
    pub open spec fn reuses(self, i: int, k: int, j: int) -> bool {
        &&& 0 <= k < self.insts[i].operands.len()
        &&& self.insts[i].operands[k].spec_constraint() == OperandConstraint::Reuse(j as usize)
    }

    /// What a reuse constraint owes: it stands on a definition, and names
    /// a use of the same instruction that is constrained to a register,
    /// fixed or not.
    pub open spec fn reuse_wf_at(self, i: int, k: int) -> bool {
        let ops = self.insts[i].operands;
        match ops[k].spec_constraint() {
            OperandConstraint::Reuse(j) => {
                &&& ops[k].spec_kind() == OperandKind::Def
                &&& j < ops.len()
                &&& ops[j as int].spec_kind() == OperandKind::Use
                &&& (ops[j as int].spec_constraint() == OperandConstraint::Reg
                    || ops[j as int].spec_constraint() is FixedReg)
            },
            _ => true,
        }
    }

    pub open spec fn reuse_wf(self) -> bool {
        forall|i: int, k: int|
            0 <= i < self.insts.len() && 0 <= k < self.insts[i].operands.len()
                ==> #[trigger] self.reuse_wf_at(i, k)
    }

    /// A value of either class takes at least one spill slot, and twice
    /// the slots of all vregs and of two more values of each class have
    /// indices below 2^24: every value can have its slots, aligned to
    /// their number.
    pub open spec fn slots_in_bounds(self) -> bool {
        &&& 1 <= self.spillslot_size_int
        &&& 1 <= self.spillslot_size_float
        &&& 2 * (self.num_vregs + 2) * (self.spillslot_size_int + self.spillslot_size_float)
            < 0x100_0000
    }

    /// What every client owes the allocator: a program whose indices are
    /// all in bounds, whose blocks divide the instructions in order, and
    /// whose reuse constraints name proper inputs.
    pub open spec fn wf(self) -> bool {
        &&& self.readable()
        &&& self.partitioned()
        &&& self.entry.0 < self.blocks.len()
        &&& self.edges_in_bounds()
        &&& self.vregs_in_bounds()
        &&& self.reuse_wf()
        &&& self.slots_in_bounds()
        &&& self.operand_offset(self.insts.len() as int) <= 0xffff_ffff
    }

    /// Whether instruction `i` ends a block: it is a branch or a return.
    pub open spec fn is_terminator(self, i: int) -> bool {
        self.insts[i].is_branch || self.insts[i].is_ret
    }

    /// The index of the last instruction of block `b`.
    pub open spec fn last_inst(self, b: int) -> int {
        self.blocks[b].insns.1.0 - 1
    }

    /// A block is malformed when it is empty, does not end in a branch
    /// or return, or has a branch or return before its end.
    pub open spec fn block_malformed(self, b: int) -> bool {
        let r = self.blocks[b].insns;
        ||| r.spec_len() == 0
        ||| !self.is_terminator(self.last_inst(b))
        ||| first_such(r.0.0 as int, self.last_inst(b), |i: int| self.is_terminator(i))
            < self.last_inst(b)
    }

    pub open spec fn first_malformed_block(self) -> int {
        first_such(0, self.blocks.len() as int, |b: int| self.block_malformed(b))
    }

    /// The error of the first malformed block; if all blocks are well
    /// formed, the error of an entry block that has parameters.
    pub open spec fn block_error(self) -> Option<RegAllocError> {
        let b = self.first_malformed_block();
        if b < self.blocks.len() {
            Some(RegAllocError::BB(Block(b as u32)))
        } else if self.blocks[self.entry.0 as int].params.len() > 0 {
            Some(RegAllocError::BB(self.entry))
        } else {
            None
        }
    }

    /// The number of parameters of the first `k` successors of block `b`.
    pub open spec fn succ_param_count(self, b: int, k: int) -> int
        decreases k,
    {
        if k <= 0 {
            0
        } else {
            self.succ_param_count(b, k - 1) + self.blocks[self.blocks[b].succs[k - 1].0 as int].params.len()
        }
    }

    /// A branch is malformed when the operands from its argument offset on
    /// are not as many as the parameters of all successors of its block.
    pub open spec fn branch_malformed(self, b: int) -> bool {
        let inst = self.insts[self.last_inst(b)];
        inst.is_branch && inst.operands.len() != inst.branch_arg_offset + self.succ_param_count(
            b,
            self.blocks[b].succs.len() as int,
        )
    }

    pub open spec fn first_malformed_branch(self) -> int {
        first_such(0, self.blocks.len() as int, |b: int| self.branch_malformed(b))
    }

    /// The error of the first block whose branch is malformed.
    pub open spec fn branch_error(self) -> Option<RegAllocError> {
        let b = self.first_malformed_branch();
        if b < self.blocks.len() {
            Some(RegAllocError::Branch(Inst(self.last_inst(b) as u32)))
        } else {
            None
        }
    }

    /// The number of ways into block `b`: its predecessors, and for the
    /// entry block the entry into the program.
    pub open spec fn pred_count(self, b: int) -> int {
        self.blocks[b].preds.len() + if b == self.entry.0 {
            1int
        } else {
            0int
        }
    }

    /// Whether predecessor `k` of block `b` has more than one successor.
    pub open spec fn pred_branches(self, b: int, k: int) -> bool {
        self.blocks[self.blocks[b].preds[k].0 as int].succs.len() > 1
    }

    pub open spec fn first_branching_pred(self, b: int) -> int {
        first_such(0, self.blocks[b].preds.len() as int, |k: int| self.pred_branches(b, k))
    }

    /// A critical edge ends in block `b`: the block has several ways in,
    /// and one of its predecessors several ways out.
    pub open spec fn has_critical_edge(self, b: int) -> bool {
        self.pred_count(b) > 1 && self.first_branching_pred(b) < self.blocks[b].preds.len()
    }

    /// Whether successor `k` of block `b` has more than one way in.
    pub open spec fn succ_joins(self, b: int, k: int) -> bool {
        self.pred_count(self.blocks[b].succs[k].0 as int) > 1
    }

    /// The branch of block `b` has arguments that are no block
    /// parameters, while a successor of the block has several ways in.
    pub open spec fn branch_arg_disallowed(self, b: int) -> bool {
        &&& first_such(0, self.blocks[b].succs.len() as int, |k: int| self.succ_joins(b, k))
            < self.blocks[b].succs.len()
        &&& self.insts[self.last_inst(b)].branch_arg_offset > 0
    }

    pub open spec fn edge_malformed(self, b: int) -> bool {
        self.has_critical_edge(b) || self.branch_arg_disallowed(b)
    }

    pub open spec fn first_malformed_edge(self) -> int {
        first_such(0, self.blocks.len() as int, |b: int| self.edge_malformed(b))
    }

    /// The error of the first block with a malformed edge: the critical
    /// edge into it, from its first predecessor with several successors,
    /// or else its branch with disallowed arguments.
    pub open spec fn edge_error(self) -> Option<RegAllocError> {
        let b = self.first_malformed_edge();
        if b >= self.blocks.len() {
            None
        } else if self.has_critical_edge(b) {
            Some(
                RegAllocError::CritEdge(
                    self.blocks[b].preds[self.first_branching_pred(b)],
                    Block(b as u32),
                ),
            )
        } else {
            Some(RegAllocError::DisallowedBranchArg(Inst(self.last_inst(b) as u32)))
        }
    }

    /// The first error in the shape of the control-flow graph: a
    /// malformed block, else a malformed branch, else a malformed edge.
    pub open spec fn cfg_error(self) -> Option<RegAllocError> {
        if self.block_error() is Some {
            self.block_error()
        } else if self.branch_error() is Some {
            self.branch_error()
        } else {
            self.edge_error()
        }
    }
}

/// Whether block `b` of the program is malformed.
fn block_is_malformed(p: &Program, b: usize) -> (r: bool)
    requires
        p@.wf(),
        b < p.blocks.len(),
    ensures
        r == p@.block_malformed(b as int),
{
    let range = p.blocks[b].insns;
    assert(p@.blocks[b as int] == p.blocks@[b as int]@);
    if range.len() == 0 {
        return true;
    }
    let last = range.last().0 as usize;
    assert(p@.insts[last as int] == p.insts@[last as int]@);
    if !(p.insts[last].is_branch || p.insts[last].is_ret) {
        return true;
    }
    let ghost f = |i: int| p@.is_terminator(i);
    let mut i: usize = range.0.0 as usize;
    while i < last
        invariant
            range.0.0 <= i <= last,
            last < p.insts.len(),
            b < p.blocks.len(),
            p@.blocks[b as int].insns == range,
            range.spec_len() > 0,
            last == p@.last_inst(b as int),
            p@.is_terminator(last as int),
            f == |i: int| p@.is_terminator(i),
            first_such(range.0.0 as int, last as int, f) == first_such(i as int, last as int, f),
        decreases last - i,
    {
        assert(p@.insts[i as int] == p.insts@[i as int]@);
        if p.insts[i].is_branch || p.insts[i].is_ret {
            assert(f(i as int));
            return true;
        }
        assert(!f(i as int));
        i += 1;
    }
    false
}

/// The error of the blocks' form, if there is one.
pub fn check_blocks(p: &Program) -> (r: Option<RegAllocError>)
    requires
        p@.wf(),
    ensures
        r == p@.block_error(),
{
    let ghost f = |b: int| p@.block_malformed(b);
    let n = p.blocks.len();
    let mut b: usize = 0;
    while b < n
        invariant
            p@.wf(),
            n == p.blocks.len(),
            b <= n,
            f == |b: int| p@.block_malformed(b),
            p@.first_malformed_block() == first_such(b as int, n as int, f),
        decreases n - b,
    {
        if block_is_malformed(p, b) {
            assert(f(b as int));
            return Some(RegAllocError::BB(Block::new(b)));
        }
        assert(!f(b as int));
        b += 1;
    }
    let e = p.entry.0 as usize;
    assert(p@.blocks[e as int] == p.blocks@[e as int]@);
    if p.blocks[e].params.len() > 0 {
        return Some(RegAllocError::BB(p.entry));
    }
    None
}

/// Whether the branch that ends block `b` is malformed.
fn branch_is_malformed(p: &Program, b: usize) -> (r: bool)
    requires
        p@.wf(),
        p@.block_error() is None,
        b < p.blocks.len(),
    ensures
        r == p@.branch_malformed(b as int),
{
    proof {
        lemma_blocks_well_formed(p@, b as int);
    }
    assert(p@.blocks[b as int] == p.blocks@[b as int]@);
    let last = p.blocks[b].insns.last().0 as usize;
    assert(p@.insts[last as int] == p.insts@[last as int]@);
    let inst = &p.insts[last];
    if !inst.is_branch {
        return false;
    }
    let total = inst.operands.len();
    if inst.branch_arg_offset > total {
        assert(p@.succ_param_count(b as int, p@.blocks[b as int].succs.len() as int) >= 0) by {
            lemma_succ_param_count_nonneg(p@, b as int, p@.blocks[b as int].succs.len() as int);
        }
        return true;
    }
    let want = total - inst.branch_arg_offset;
    let succs = &p.blocks[b].succs;
    let mut sum: usize = 0;
    let mut k: usize = 0;
    while k < succs.len()
        invariant
            p@.wf(),
            b < p.blocks.len(),
            succs@ == p@.blocks[b as int].succs,
            k <= succs.len(),
            sum == p@.succ_param_count(b as int, k as int),
            sum <= want,
            last == p@.last_inst(b as int),
            *inst == p.insts@[last as int],
            inst.is_branch,
            inst@ == p@.insts[last as int],
            total == inst.operands.len(),
            inst.branch_arg_offset <= total,
            want == total - inst.branch_arg_offset,
        decreases succs.len() - k,
    {
        let s = succs[k].0 as usize;
        assert(p@.blocks[b as int].succs[k as int].0 < p@.blocks.len());
        assert(p@.blocks[s as int] == p.blocks@[s as int]@);
        let count = p.blocks[s].params.len();
        if count > want - sum {
            proof {
                lemma_succ_param_count_monotone(
                    p@,
                    b as int,
                    k as int + 1,
                    succs.len() as int,
                );
            }
            return true;
        }
        sum += count;
        k += 1;
    }
    sum != want
}

/// The error of the first malformed branch, if there is one.
pub fn check_branches(p: &Program) -> (r: Option<RegAllocError>)
    requires
        p@.wf(),
        p@.block_error() is None,
    ensures
        r == p@.branch_error(),
{
    let ghost f = |b: int| p@.branch_malformed(b);
    let n = p.blocks.len();
    let mut b: usize = 0;
    while b < n
        invariant
            p@.wf(),
            p@.block_error() is None,
            n == p.blocks.len(),
            b <= n,
            f == |b: int| p@.branch_malformed(b),
            p@.first_malformed_branch() == first_such(b as int, n as int, f),
        decreases n - b,
    {
        if branch_is_malformed(p, b) {
            assert(f(b as int));
            proof {
                lemma_blocks_well_formed(p@, b as int);
            }
            assert(p@.blocks[b as int] == p.blocks@[b as int]@);
            return Some(RegAllocError::Branch(p.blocks[b].insns.last()));
        }
        assert(!f(b as int));
        b += 1;
    }
    None
}

/// The number of ways into block `b`, as far as it matters: 0, 1 or 2 for "several".
fn pred_count_capped(p: &Program, b: usize) -> (r: usize)
    requires
        p@.wf(),
        b < p.blocks.len(),
    ensures
        r <= 2,
        r > 1 <==> p@.pred_count(b as int) > 1,
{
    assert(p@.blocks[b as int] == p.blocks@[b as int]@);
    let n = p.blocks[b].preds.len();
    let extra: usize = if b == p.entry.0 as usize {
        1
    } else {
        0
    };
    if n >= 2 {
        2
    } else {
        n + extra
    }
}

/// The edge error of block `b`, if it has one.
fn check_block_edges(p: &Program, b: usize) -> (r: Option<RegAllocError>)
    requires
        p@.wf(),
        p@.block_error() is None,
        b < p.blocks.len(),
    ensures
        r is Some <==> p@.edge_malformed(b as int),
        r is Some ==> r == Some(
            if p@.has_critical_edge(b as int) {
                RegAllocError::CritEdge(
                    p@.blocks[b as int].preds[p@.first_branching_pred(b as int)],
                    Block(b as u32),
                )
            } else {
                RegAllocError::DisallowedBranchArg(Inst(p@.last_inst(b as int) as u32))
            },
        ),
{
    proof {
        lemma_blocks_well_formed(p@, b as int);
    }
    assert(p@.blocks[b as int] == p.blocks@[b as int]@);
    let block = &p.blocks[b];
    if pred_count_capped(p, b) > 1 {
        let ghost f = |k: int| p@.pred_branches(b as int, k);
        let mut k: usize = 0;
        while k < block.preds.len()
            invariant
                p@.wf(),
                b < p.blocks.len(),
                block@ == p@.blocks[b as int],
                k <= block.preds.len(),
                p@.pred_count(b as int) > 1,
                f == |k: int| p@.pred_branches(b as int, k),
                p@.first_branching_pred(b as int) == first_such(
                    k as int,
                    block.preds.len() as int,
                    f,
                ),
            decreases block.preds.len() - k,
        {
            let pred = block.preds[k];
            assert(p@.blocks[b as int].preds[k as int].0 < p@.blocks.len());
            assert(p@.blocks[pred.0 as int] == p.blocks@[pred.0 as int]@);
            if p.blocks[pred.0 as usize].succs.len() > 1 {
                assert(f(k as int));
                return Some(RegAllocError::CritEdge(pred, Block::new(b)));
            }
            assert(!f(k as int));
            k += 1;
        }
    }
    assert(!p@.has_critical_edge(b as int));
    let last = block.insns.last();
    assert(p@.insts[last.0 as int] == p.insts@[last.0 as int]@);
    if p.insts[last.0 as usize].branch_arg_offset == 0 {
        return None;
    }
    let ghost g = |k: int| p@.succ_joins(b as int, k);
    let mut k: usize = 0;
    while k < block.succs.len()
        invariant
            p@.wf(),
            b < p.blocks.len(),
            block@ == p@.blocks[b as int],
            k <= block.succs.len(),
            !p@.has_critical_edge(b as int),
            last.0 == p@.last_inst(b as int),
            p@.insts[last.0 as int].branch_arg_offset > 0,
            g == |k: int| p@.succ_joins(b as int, k),
            first_such(0, block.succs.len() as int, g) == first_such(
                k as int,
                block.succs.len() as int,
                g,
            ),
        decreases block.succs.len() - k,
    {
        let succ = block.succs[k].0 as usize;
        assert(p@.blocks[b as int].succs[k as int].0 < p@.blocks.len());
        if pred_count_capped(p, succ) > 1 {
            assert(g(k as int));
            return Some(RegAllocError::DisallowedBranchArg(last));
        }
        assert(!g(k as int));
        k += 1;
    }
    None
}

/// The error of the first block with a malformed edge, if there is one.
pub fn check_edges(p: &Program) -> (r: Option<RegAllocError>)
    requires
        p@.wf(),
        p@.block_error() is None,
    ensures
        r == p@.edge_error(),
{
    let ghost f = |b: int| p@.edge_malformed(b);
    let n = p.blocks.len();
    let mut b: usize = 0;
    while b < n
        invariant
            p@.wf(),
            p@.block_error() is None,
            n == p.blocks.len(),
            b <= n,
            f == |b: int| p@.edge_malformed(b),
            p@.first_malformed_edge() == first_such(b as int, n as int, f),
        decreases n - b,
    {
        let e = check_block_edges(p, b);
        if e.is_some() {
            assert(f(b as int));
            return e;
        }
        assert(!f(b as int));
        b += 1;
    }
    None
}

/// The first error in the shape of the control-flow graph, if there is one.
pub fn check_cfg(p: &Program) -> (r: Option<RegAllocError>)
    requires
        p@.wf(),
    ensures
        r == p@.cfg_error(),
{
    let e = check_blocks(p);
    if e.is_some() {
        return e;
    }
    let e = check_branches(p);
    if e.is_some() {
        return e;
    }
    check_edges(p)
}

/// Where no block is malformed, every block has a last instruction, which
/// is a branch or a return, and no other instruction of it is one.
pub proof fn lemma_blocks_well_formed(m: ProgramModel, b: int)
    requires
        m.wf(),
        m.block_error() is None,
        0 <= b < m.blocks.len(),
    ensures
        !m.block_malformed(b),
        m.blocks[b].insns.spec_len() > 0,
        m.blocks[b].insns.0.0 <= m.last_inst(b) < m.insts.len(),
        m.is_terminator(m.last_inst(b)),
        forall|i: int| m.blocks[b].insns.0.0 <= i < m.last_inst(b) ==> !m.is_terminator(i),
{
    let f = |b: int| m.block_malformed(b);
    lemma_first_such(0, m.blocks.len() as int, f);
    assert(!f(b));
    let g = |i: int| m.is_terminator(i);
    lemma_first_such(m.blocks[b].insns.0.0 as int, m.last_inst(b), g);
    assert forall|i: int| m.blocks[b].insns.0.0 <= i < m.last_inst(b) implies !m.is_terminator(
        i,
    ) by {
        assert(!g(i));
    }
}

pub proof fn lemma_succ_param_count_nonneg(m: ProgramModel, b: int, k: int)
    ensures
        m.succ_param_count(b, k) >= 0,
    decreases k,
{
    if k > 0 {
        lemma_succ_param_count_nonneg(m, b, k - 1);
    }
}

pub proof fn lemma_succ_param_count_monotone(m: ProgramModel, b: int, k: int, n: int)
    requires
        k <= n,
    ensures
        m.succ_param_count(b, k) <= m.succ_param_count(b, n),
    decreases n - k,
{
    if k < n {
        lemma_succ_param_count_monotone(m, b, k, n - 1);
    }
}

} // verus!
