//! A home for every vreg: the one location, a register or a spill
//! slot, in which its value rests between the instructions that name it.

use vstd::prelude::*;
use crate::allocation::Allocation;
use crate::assign::{operand_holds_early, operand_holds_late};
use crate::cfg::first_such;
use crate::demand::{class_at, holds_early, holds_late};
use crate::function::{Program, ProgramModel};
use crate::liveness::{closed, out_row, sound, table_ok};
use crate::machine::MachineEnv;
use crate::operand::{OperandConstraint, OperandKind};
use crate::regs::{PReg, RegClass, SpillSlot};
use crate::ssa::filled;

verus! {

/// What is known of the vregs by their mentions: whether any operand
/// names the vreg, whether it has to rest on the stack, and its class.
pub struct VregFacts {
    pub mentioned: Vec<bool>,
    pub on_stack: Vec<bool>,
    pub class: Vec<RegClass>,
}

impl VregFacts {
    /// Every vreg that an operand names is marked as mentioned; every
    /// vreg that holds a reference, or that an operand wants on the
    /// stack, is marked as resting on the stack.
    pub open spec fn covers(&self, m: ProgramModel) -> bool {
        &&& self.mentioned@.len() == m.num_vregs
        &&& self.on_stack@.len() == m.num_vregs
        &&& self.class@.len() == m.num_vregs
        &&& forall|i: int, k: int|
            0 <= i < m.insts.len() && 0 <= k < m.insts[i].operands.len()
                ==> self.mentioned@[#[trigger] m.op_vreg(i, k) as int]
        &&& forall|i: int, k: int|
            0 <= i < m.insts.len() && 0 <= k < m.insts[i].operands.len()
                && m.insts[i].operands[k].spec_constraint() == OperandConstraint::Stack
                ==> self.on_stack@[#[trigger] m.op_vreg(i, k) as int]
        &&& forall|id: int|
            0 <= id < m.num_vregs && m.is_reftype(id as usize) ==> #[trigger] self.on_stack@[id]
        &&& forall|id: int| 0 <= id < m.num_vregs && #[trigger] self.mentioned@[id] ==> named(m, id)
        &&& forall|id: int|
            0 <= id < m.num_vregs && #[trigger] self.on_stack@[id] ==> stack_bound(m, id)
    }
}

/// Whether operand `k` of instruction `i` names the vreg.
pub open spec fn names(m: ProgramModel, i: int, k: int, id: int) -> bool {
    0 <= i < m.insts.len() && 0 <= k < m.insts[i].operands.len() && m.op_vreg(i, k) == id
}

/// Whether some operand names the vreg.
pub open spec fn named(m: ProgramModel, id: int) -> bool {
    exists|i: int, k: int| #[trigger] names(m, i, k, id)
}

/// Whether the vreg has to rest on the stack: it holds a reference, or
/// some operand that names it wants it on the stack.
pub open spec fn stack_bound(m: ProgramModel, id: int) -> bool {
    m.is_reftype(id as usize) || exists|i: int, k: int| #[trigger]
        names(m, i, k, id) && m.insts[i].operands[k].spec_constraint() == OperandConstraint::Stack
}

/// Go through every mention of a vreg and note what it tells.
pub(crate) fn scan_vregs(p: &Program, reftype: &Vec<bool>) -> (r: VregFacts)
    requires
        p@.wf(),
        reftype@.len() == p@.num_vregs,
        forall|id: int|
            0 <= id < p@.num_vregs ==> #[trigger] reftype@[id] == p@.is_reftype(id as usize),
    ensures
        r.covers(p@),
{
    let v = p.num_vregs;
    let mut mentioned: Vec<bool> = filled(v, false);
    let mut on_stack: Vec<bool> = Vec::new();
    let mut id: usize = 0;
    while id < v
        invariant
            id <= v,
            v == p@.num_vregs,
            reftype@.len() == v,
            on_stack@.len() == id,
            forall|j: int| 0 <= j < id ==> #[trigger] on_stack@[j] == reftype@[j],
            forall|j: int| 0 <= j < v ==> !#[trigger] mentioned@[j],
            mentioned@.len() == v,
        decreases v - id,
    {
        on_stack.push(reftype[id]);
        id += 1;
    }
    let mut class: Vec<RegClass> = filled(v, RegClass::Int);
    let mut b: usize = 0;
    while b < p.blocks.len()
        invariant
            p@.wf(),
            b <= p.blocks.len(),
            class@.len() == p@.num_vregs,
        decreases p.blocks.len() - b,
    {
        assert(p@.blocks[b as int] == p.blocks@[b as int]@);
        let params = &p.blocks[b].params;
        let mut k: usize = 0;
        while k < params.len()
            invariant
                p@.wf(),
                b < p.blocks.len(),
                params@ == p@.blocks[b as int].params,
                k <= params.len(),
                class@.len() == p@.num_vregs,
            decreases params.len() - k,
        {
            assert(p@.blocks[b as int].params[k as int].spec_vreg() < p@.num_vregs);
            class.set(params[k].vreg(), params[k].class());
            k += 1;
        }
        b += 1;
    }
    let n = p.insts.len();
    let mut i: usize = 0;
    while i < n
        invariant
            p@.wf(),
            n == p.insts.len(),
            i <= n,
            v == p@.num_vregs,
            mentioned@.len() == v,
            on_stack@.len() == v,
            class@.len() == v,
            forall|id: int|
                0 <= id < v && p@.is_reftype(id as usize) ==> #[trigger] on_stack@[id],
            forall|i2: int, k: int|
                0 <= i2 < i && 0 <= k < p@.insts[i2].operands.len()
                    ==> mentioned@[#[trigger] p@.op_vreg(i2, k) as int],
            forall|i2: int, k: int|
                0 <= i2 < i && 0 <= k < p@.insts[i2].operands.len()
                    && p@.insts[i2].operands[k].spec_constraint() == OperandConstraint::Stack
                    ==> on_stack@[#[trigger] p@.op_vreg(i2, k) as int],
            forall|id: int| 0 <= id < v && #[trigger] mentioned@[id] ==> named(p@, id),
            forall|id: int| 0 <= id < v && #[trigger] on_stack@[id] ==> stack_bound(p@, id),
        decreases n - i,
    {
        assert(p@.insts[i as int] == p.insts@[i as int]@);
        let ops = &p.insts[i].operands;
        let mut k: usize = 0;
        while k < ops.len()
            invariant
                p@.wf(),
                n == p.insts.len(),
                i < n,
                ops@ == p@.insts[i as int].operands,
                k <= ops.len(),
                v == p@.num_vregs,
                mentioned@.len() == v,
                on_stack@.len() == v,
                class@.len() == v,
                forall|id: int|
                    0 <= id < v && p@.is_reftype(id as usize) ==> #[trigger] on_stack@[id],
                forall|i2: int, k2: int|
                    0 <= i2 < i && 0 <= k2 < p@.insts[i2].operands.len()
                        ==> mentioned@[#[trigger] p@.op_vreg(i2, k2) as int],
                forall|i2: int, k2: int|
                    0 <= i2 < i && 0 <= k2 < p@.insts[i2].operands.len()
                        && p@.insts[i2].operands[k2].spec_constraint() == OperandConstraint::Stack
                        ==> on_stack@[#[trigger] p@.op_vreg(i2, k2) as int],
                forall|k2: int|
                    0 <= k2 < k ==> mentioned@[#[trigger] p@.op_vreg(i as int, k2) as int],
                forall|k2: int|
                    0 <= k2 < k && p@.insts[i as int].operands[k2].spec_constraint()
                        == OperandConstraint::Stack ==> on_stack@[#[trigger] p@.op_vreg(
                        i as int,
                        k2,
                    ) as int],
                forall|id: int| 0 <= id < v && #[trigger] mentioned@[id] ==> named(p@, id),
                forall|id: int| 0 <= id < v && #[trigger] on_stack@[id] ==> stack_bound(p@, id),
            decreases ops.len() - k,
        {
            let op = ops[k];
            let id = op.vreg().vreg();
            assert(p@.insts[i as int].operands[k as int].spec_vreg().spec_vreg() < p@.num_vregs);
            assert(id == p@.op_vreg(i as int, k as int));
            assert(names(p@, i as int, k as int, id as int));
            mentioned.set(id, true);
            class.set(id, op.class());
            match op.constraint() {
                OperandConstraint::Stack => {
                    on_stack.set(id, true);
                },
                _ => {},
            }
            k += 1;
        }
        i += 1;
    }
    VregFacts { mentioned, on_stack, class }
}

/// For every vreg, the first and the last program point at which its
/// home has to hold its value. Where `lo` is beyond `hi`, there is no such point.
pub struct Hulls {
    pub lo: Vec<usize>,
    pub hi: Vec<usize>,
}

impl Hulls {
    pub open spec fn shaped(&self, m: ProgramModel) -> bool {
        &&& self.lo@.len() == m.num_vregs
        &&& self.hi@.len() == m.num_vregs
        &&& forall|id: int| 0 <= id < m.num_vregs ==> #[trigger] self.hi@[id] < 2 * m.insts.len() + 1
    }

    /// Whether the hull of the vreg reaches over the point.
    pub open spec fn covers(&self, id: int, pt: int) -> bool {
        self.lo@[id] <= pt <= self.hi@[id]
    }

    /// Make the hull of a vreg reach a point.
    fn extend(&mut self, Ghost(m): Ghost<ProgramModel>, id: usize, pt: usize)
        requires
            old(self).shaped(m),
            id < m.num_vregs,
            pt < 2 * m.insts.len(),
            old(self).tight(m),
            needed(m, id as int, pt as int),
        ensures
            final(self).shaped(m),
            final(self).covers(id as int, pt as int),
            forall|id2: int, pt2: int|
                0 <= id2 < m.num_vregs && #[trigger] old(self).covers(id2, pt2)
                    ==> final(self).covers(id2, pt2),
            final(self).tight(m),
    {
        assert(old(self).tight_at(m, id as int));
        if pt < self.lo[id] {
            self.lo.set(id, pt);
        }
        if pt > self.hi[id] {
            self.hi.set(id, pt);
        }
        proof {
            assert forall|id2: int| 0 <= id2 < m.num_vregs implies #[trigger] self.tight_at(
                m,
                id2,
            ) by {
                assert(old(self).tight_at(m, id2));
            }
        }
    }

    /// Whether the hull of the vreg is no wider than it has to be: it
    /// reaches over no point, or its first and its last point are
    /// points at which the vreg has to be in its home.
    pub open spec fn tight_at(&self, m: ProgramModel, id: int) -> bool {
        hull_tight(m, self.lo@, self.hi@, id)
    }

    /// Whether no hull is wider than it has to be.
    pub open spec fn tight(&self, m: ProgramModel) -> bool {
        forall|id: int| 0 <= id < m.num_vregs ==> #[trigger] self.tight_at(m, id)
    }
}

/// Whether the vreg is live at the start of block `b`, which is the point.
pub open spec fn needs_live_in(m: ProgramModel, b: int, id: int, pt: int) -> bool {
    0 <= b < m.blocks.len() && m.live_in(b, id as usize) && pt == 2 * m.blocks[b].insns.0.0
}

/// Whether the vreg is live at the end of block `b`, which is the point.
pub open spec fn needs_live_out(m: ProgramModel, b: int, id: int, pt: int) -> bool {
    0 <= b < m.blocks.len() && m.live_out(b, id as usize) && pt == 2 * m.last_inst(b) + 1
}

/// Whether operand `k` of instruction `i` names the vreg and holds its
/// location at the point.
pub open spec fn needs_operand(m: ProgramModel, i: int, k: int, id: int, pt: int) -> bool {
    names(m, i, k, id) && ((holds_early(m.insts[i].operands[k]) && pt == 2 * i) || (holds_late(
        m.insts[i].operands[k],
    ) && pt == 2 * i + 1))
}

/// Whether the vreg is parameter `k` of block `b`.
pub open spec fn is_param_at(m: ProgramModel, b: int, k: int, id: int) -> bool {
    0 <= b < m.blocks.len() && 0 <= k < m.blocks[b].params.len() && m.blocks[b].params[k].spec_vreg()
        == id
}

/// Whether the vreg is parameter `k` of block `b`, and the point the
/// start of the block.
pub open spec fn needs_param(m: ProgramModel, b: int, k: int, id: int, pt: int) -> bool {
    is_param_at(m, b, k, id) && pt == 2 * m.blocks[b].insns.0.0
}

/// Whether the vreg is parameter `k` of block `b`, and the point the
/// one before or after the branch of predecessor `q` of the block.
pub open spec fn needs_pred(m: ProgramModel, b: int, k: int, q: int, id: int, pt: int) -> bool {
    is_param_at(m, b, k, id) && 0 <= q < m.blocks[b].preds.len() && (pt == 2 * m.last_inst(
        m.blocks[b].preds[q].0 as int,
    ) || pt == 2 * m.last_inst(m.blocks[b].preds[q].0 as int) + 1)
}

/// Whether operand `k` of the last instruction of block `b` names the vreg.
pub open spec fn is_last_operand(m: ProgramModel, b: int, k: int, id: int) -> bool {
    0 <= b < m.blocks.len() && names(m, m.last_inst(b), k, id)
}

/// Whether operand `k` of the last instruction of block `b` names the
/// vreg, and the point is the one after that instruction.
pub open spec fn needs_last(m: ProgramModel, b: int, k: int, id: int, pt: int) -> bool {
    is_last_operand(m, b, k, id) && pt == 2 * m.last_inst(b) + 1
}

/// Whether operand `k` of the last instruction of block `b` names the
/// vreg, and the point is the start of successor `s` of the block.
pub open spec fn needs_succ(m: ProgramModel, b: int, k: int, s: int, id: int, pt: int) -> bool {
    is_last_operand(m, b, k, id) && 0 <= s < m.blocks[b].succs.len() && pt == 2
        * m.blocks[m.blocks[b].succs[s].0 as int].insns.0.0
}

/// Whether the vreg has to be in its home at the point: it is live
/// there at the start or the end of a block, an operand that names it
/// holds its location there, or the moves into or out of a block
/// parameter may read or write it there.
pub open spec fn needed(m: ProgramModel, id: int, pt: int) -> bool {
    ||| exists|b: int| #[trigger] needs_live_in(m, b, id, pt)
    ||| exists|b: int| #[trigger] needs_live_out(m, b, id, pt)
    ||| exists|i: int, k: int| #[trigger] needs_operand(m, i, k, id, pt)
    ||| exists|b: int, k: int| #[trigger] needs_param(m, b, k, id, pt)
    ||| exists|b: int, k: int, q: int| #[trigger] needs_pred(m, b, k, q, id, pt)
    ||| exists|b: int, k: int| #[trigger] needs_last(m, b, k, id, pt)
    ||| exists|b: int, k: int, s: int| #[trigger] needs_succ(m, b, k, s, id, pt)
}

/// Whether no hull is wider than it has to be.
pub open spec fn hulls_tight(m: ProgramModel, lo: Seq<usize>, hi: Seq<usize>) -> bool {
    forall|id: int| 0 <= id < m.num_vregs ==> #[trigger] hull_tight(m, lo, hi, id)
}

/// Whether the hull of the vreg is no wider than it has to be: it
/// reaches over no point, or its first and its last point are points
/// at which the vreg has to be in its home.
pub open spec fn hull_tight(m: ProgramModel, lo: Seq<usize>, hi: Seq<usize>, id: int) -> bool {
    ||| lo[id] == 2 * m.insts.len() && hi[id] == 0
    ||| lo[id] <= hi[id] && needed(m, id, lo[id] as int) && needed(m, id, hi[id] as int)
}

/// Whether the hulls reach over every point at which a vreg has to be
/// in its home: the start of every block that it is live into, the end
/// of every block that it is live out of, and every half of an
/// instruction in which an operand names it.
pub open spec fn hulls_cover(m: ProgramModel, t: Seq<Vec<bool>>, h: Hulls) -> bool {
    &&& forall|b: int, id: int|
        0 <= b < m.blocks.len() && 0 <= id < m.num_vregs && #[trigger] t[b]@[id] ==> h.covers(
            id,
            2 * m.blocks[b].insns.0.0,
        )
    &&& forall|b: int, id: int|
        0 <= b < m.blocks.len() && 0 <= id < m.num_vregs && #[trigger] out_row(m, t, b)[id]
            ==> h.covers(id, 2 * m.last_inst(b) + 1)
    &&& forall|i: int, k: int|
        0 <= i < m.insts.len() && 0 <= k < m.insts[i].operands.len() && holds_early(
            #[trigger] m.insts[i].operands[k],
        ) ==> h.covers(m.op_vreg(i, k) as int, 2 * i)
    &&& forall|i: int, k: int|
        0 <= i < m.insts.len() && 0 <= k < m.insts[i].operands.len() && holds_late(
            #[trigger] m.insts[i].operands[k],
        ) ==> h.covers(m.op_vreg(i, k) as int, 2 * i + 1)
}

/// Whether the hull of the vreg reaches over the points before and
/// after the last instruction of block `q`.
pub open spec fn covers_branch(m: ProgramModel, h: Hulls, id: int, q: int) -> bool {
    h.covers(id, 2 * m.last_inst(q)) && h.covers(id, 2 * m.last_inst(q) + 1)
}

/// Whether the hull of every block parameter reaches over the start
/// of its block, and over the points before and after the branch of
/// every predecessor of the block: the points at which the moves into
/// the parameter may stand, and the point at which the branch may write
/// or clobber registers once they have been made.
pub open spec fn params_covered(m: ProgramModel, h: Hulls) -> bool {
    &&& forall|b: int, k: int|
        0 <= b < m.blocks.len() && 0 <= k < m.blocks[b].params.len() ==> h.covers(
            (#[trigger] m.blocks[b].params[k]).spec_vreg() as int,
            2 * m.blocks[b].insns.0.0,
        )
    &&& forall|b: int, k: int, q: int|
        0 <= b < m.blocks.len() && 0 <= k < m.blocks[b].params.len() && 0 <= q
            < m.blocks[b].preds.len() ==> covers_branch(
            m,
            h,
            (#[trigger] m.blocks[b].params[k]).spec_vreg() as int,
            (#[trigger] m.blocks[b].preds[q]).0 as int,
        )
}

/// Whether the hull of the vreg reaches over the point after the
/// last instruction of block `b` and over the start of block `succ`.
pub open spec fn covers_edge(m: ProgramModel, h: Hulls, id: int, b: int, succ: int) -> bool {
    h.covers(id, 2 * m.last_inst(b) + 1) && h.covers(id, 2 * m.blocks[succ].insns.0.0)
}

/// Whether the hull of the vreg of every operand of the last
/// instruction of a block reaches over the point after that
/// instruction and over the start of every successor of the block: the
/// point at which the moves out of an argument may stand, and the point
/// at which the branch may write or clobber registers before.
pub open spec fn args_covered(m: ProgramModel, h: Hulls) -> bool {
    forall|b: int, k: int, s: int|
        0 <= b < m.blocks.len() && 0 <= k < m.insts[m.last_inst(b)].operands.len() && 0 <= s
            < m.blocks[b].succs.len() ==> covers_edge(
            m,
            h,
            (#[trigger] m.insts[m.last_inst(b)].operands[k]).spec_vreg().spec_vreg() as int,
            b,
            (#[trigger] m.blocks[b].succs[s]).0 as int,
        )
}

impl Hulls {
    /// Whether these hulls reach over every point that the others reach over.
    pub open spec fn grown_from(&self, before: Hulls, m: ProgramModel) -> bool {
        forall|id: int, pt: int|
            0 <= id < m.num_vregs && #[trigger] before.covers(id, pt) ==> self.covers(id, pt)
    }

    /// Make the hulls reach over the start of every block for the vregs
    /// live into it, and over its end for the vregs live out of it.
    fn cover_blocks(&mut self, p: &Program, t: &Vec<Vec<bool>>)
        requires
            p@.wf(),
            p@.block_error() is None,
            table_ok(p@, t@),
            sound(p@, t@),
            closed(p@, t@),
            old(self).shaped(p@),
            old(self).tight(p@),
        ensures
            final(self).shaped(p@),
            final(self).grown_from(*old(self), p@),
            final(self).tight(p@),
            forall|b: int, id: int|
                0 <= b < p@.blocks.len() && 0 <= id < p@.num_vregs && #[trigger] t@[b]@[id]
                    ==> final(self).covers(id, 2 * p@.blocks[b].insns.0.0),
            forall|b: int, id: int|
                0 <= b < p@.blocks.len() && 0 <= id < p@.num_vregs && #[trigger] out_row(
                    p@,
                    t@,
                    b,
                )[id] ==> final(self).covers(id, 2 * p@.last_inst(b) + 1),
    {
        let ghost m = p@;
        let v = p.num_vregs;
        let n = p.insts.len();
        let nb = p.blocks.len();
        let mut b: usize = 0;
        while b < nb
            invariant
                p@.wf(),
                p@.block_error() is None,
                m == p@,
                table_ok(m, t@),
                sound(m, t@),
                closed(m, t@),
                nb == p.blocks.len(),
                b <= nb,
                v == m.num_vregs,
                n == p.insts.len(),
                self.shaped(m),
                self.grown_from(*old(self), m),
                self.tight(m),
                forall|b2: int, id: int|
                    0 <= b2 < b && 0 <= id < v && #[trigger] t@[b2]@[id] ==> self.covers(
                        id,
                        2 * m.blocks[b2].insns.0.0,
                    ),
                forall|b2: int, id: int|
                    0 <= b2 < b && 0 <= id < v && #[trigger] out_row(m, t@, b2)[id]
                        ==> self.covers(id, 2 * m.last_inst(b2) + 1),
            decreases nb - b,
        {
            proof {
                crate::cfg::lemma_blocks_well_formed(m, b as int);
            }
            assert(m.blocks[b as int] == p.blocks@[b as int]@);
            let first = p.blocks[b].insns.0.0 as usize;
            let last = p.blocks[b].insns.1.0 as usize - 1;
            let out = crate::liveness::out_set(p, t, b);
            let row = &t[b];
            let mut id: usize = 0;
            while id < v
                invariant
                    m == p@,
                    p@.wf(),
                    p@.block_error() is None,
                    table_ok(m, t@),
                    sound(m, t@),
                    closed(m, t@),
                    b < nb,
                    nb == p.blocks.len(),
                    id <= v,
                    v == m.num_vregs,
                    n == p.insts.len(),
                    n < 0x4000_0000,
                    first <= last < n,
                    first == m.blocks[b as int].insns.0.0,
                    last == m.last_inst(b as int),
                    row@ == t@[b as int]@,
                    row@.len() == v,
                    out@ == out_row(m, t@, b as int),
                    self.shaped(m),
                    self.grown_from(*old(self), m),
                    self.tight(m),
                    forall|b2: int, id2: int|
                        0 <= b2 < b && 0 <= id2 < v && #[trigger] t@[b2]@[id2] ==> self.covers(
                            id2,
                            2 * m.blocks[b2].insns.0.0,
                        ),
                    forall|b2: int, id2: int|
                        0 <= b2 < b && 0 <= id2 < v && #[trigger] out_row(m, t@, b2)[id2]
                            ==> self.covers(id2, 2 * m.last_inst(b2) + 1),
                    forall|id2: int|
                        0 <= id2 < id && #[trigger] row@[id2] ==> self.covers(id2, 2 * first),
                    forall|id2: int|
                        0 <= id2 < id && #[trigger] out@[id2] ==> self.covers(id2, 2 * last + 1),
                decreases v - id,
            {
                if row[id] {
                    proof {
                        crate::liveness::lemma_table_exact(m, t@, b as int, id as int);
                        assert(needs_live_in(m, b as int, id as int, 2 * first));
                    }
                    self.extend(Ghost(m), id, 2 * first);
                }
                if out[id] {
                    proof {
                        let fuel = crate::liveness::lemma_out_sound(
                            m,
                            t@,
                            b as int,
                            m.blocks[b as int].succs.len() as int,
                            id as int,
                        );
                        assert(needs_live_out(m, b as int, id as int, 2 * last + 1));
                    }
                    self.extend(Ghost(m), id, 2 * last + 1);
                }
                id += 1;
            }
            b += 1;
        }
    }

    /// Make the hulls reach over every half of an instruction in which
    /// an operand names a vreg.
    fn cover_operands(&mut self, p: &Program)
        requires
            p@.wf(),
            old(self).shaped(p@),
            old(self).tight(p@),
        ensures
            final(self).shaped(p@),
            final(self).grown_from(*old(self), p@),
            final(self).tight(p@),
            forall|i: int, k: int|
                0 <= i < p@.insts.len() && 0 <= k < p@.insts[i].operands.len() && holds_early(
                    #[trigger] p@.insts[i].operands[k],
                ) ==> final(self).covers(p@.op_vreg(i, k) as int, 2 * i),
            forall|i: int, k: int|
                0 <= i < p@.insts.len() && 0 <= k < p@.insts[i].operands.len() && holds_late(
                    #[trigger] p@.insts[i].operands[k],
                ) ==> final(self).covers(p@.op_vreg(i, k) as int, 2 * i + 1),
    {
        let ghost m = p@;
        let n = p.insts.len();
        let mut i: usize = 0;
        while i < n
            invariant
                p@.wf(),
                m == p@,
                i <= n,
                n == p.insts.len(),
                self.shaped(m),
                self.grown_from(*old(self), m),
                self.tight(m),
                forall|i2: int, k: int|
                    0 <= i2 < i && 0 <= k < m.insts[i2].operands.len() && holds_early(
                        #[trigger] m.insts[i2].operands[k],
                    ) ==> self.covers(m.op_vreg(i2, k) as int, 2 * i2),
                forall|i2: int, k: int|
                    0 <= i2 < i && 0 <= k < m.insts[i2].operands.len() && holds_late(
                        #[trigger] m.insts[i2].operands[k],
                    ) ==> self.covers(m.op_vreg(i2, k) as int, 2 * i2 + 1),
            decreases n - i,
        {
            assert(m.insts[i as int] == p.insts@[i as int]@);
            let ops = &p.insts[i].operands;
            let mut k: usize = 0;
            while k < ops.len()
                invariant
                    p@.wf(),
                    m == p@,
                    i < n,
                    ops@ == m.insts[i as int].operands,
                    k <= ops.len(),
                    n == p.insts.len(),
                    self.shaped(m),
                    self.grown_from(*old(self), m),
                    self.tight(m),
                    forall|i2: int, k2: int|
                        0 <= i2 < i && 0 <= k2 < m.insts[i2].operands.len() && holds_early(
                            #[trigger] m.insts[i2].operands[k2],
                        ) ==> self.covers(m.op_vreg(i2, k2) as int, 2 * i2),
                    forall|i2: int, k2: int|
                        0 <= i2 < i && 0 <= k2 < m.insts[i2].operands.len() && holds_late(
                            #[trigger] m.insts[i2].operands[k2],
                        ) ==> self.covers(m.op_vreg(i2, k2) as int, 2 * i2 + 1),
                    forall|k2: int|
                        0 <= k2 < k && holds_early(#[trigger] m.insts[i as int].operands[k2])
                            ==> self.covers(m.op_vreg(i as int, k2) as int, 2 * i),
                    forall|k2: int|
                        0 <= k2 < k && holds_late(#[trigger] m.insts[i as int].operands[k2])
                            ==> self.covers(m.op_vreg(i as int, k2) as int, 2 * i + 1),
                decreases ops.len() - k,
            {
                let op = ops[k];
                assert(m.insts[i as int].operands[k as int].spec_vreg().spec_vreg()
                    < m.num_vregs);
                let id = op.vreg().vreg();
                if operand_holds_early(op) {
                    assert(needs_operand(m, i as int, k as int, id as int, 2 * i));
                    self.extend(Ghost(m), id, 2 * i);
                }
                if operand_holds_late(op) {
                    assert(needs_operand(m, i as int, k as int, id as int, 2 * i + 1));
                    self.extend(Ghost(m), id, 2 * i + 1);
                }
                k += 1;
            }
            i += 1;
        }
    }

    /// Make the hull of a vreg reach over the points before and after
    /// the branch of every predecessor of block `b`.
    fn reach_predecessors(&mut self, p: &Program, b: usize, Ghost(k): Ghost<int>, id: usize)
        requires
            p@.wf(),
            p@.block_error() is None,
            old(self).shaped(p@),
            old(self).tight(p@),
            b < p.blocks.len(),
            id < p@.num_vregs,
            is_param_at(p@, b as int, k, id as int),
        ensures
            final(self).shaped(p@),
            final(self).grown_from(*old(self), p@),
            final(self).tight(p@),
            forall|q: int|
                0 <= q < p@.blocks[b as int].preds.len() ==> covers_branch(
                    p@,
                    *final(self),
                    id as int,
                    (#[trigger] p@.blocks[b as int].preds[q]).0 as int,
                ),
    {
        let ghost m = p@;
        assert(m.blocks[b as int] == p.blocks@[b as int]@);
        let block = &p.blocks[b];
        let mut q: usize = 0;
        while q < block.preds.len()
            invariant
                p@.wf(),
                p@.block_error() is None,
                m == p@,
                b < p.blocks.len(),
                block@ == m.blocks[b as int],
                q <= block.preds.len(),
                id < m.num_vregs,
                is_param_at(m, b as int, k, id as int),
                self.shaped(m),
                self.grown_from(*old(self), m),
                self.tight(m),
                forall|q2: int|
                    0 <= q2 < q ==> covers_branch(
                        m,
                        *self,
                        id as int,
                        (#[trigger] m.blocks[b as int].preds[q2]).0 as int,
                    ),
            decreases block.preds.len() - q,
        {
            let pred = block.preds[q].0 as usize;
            assert(m.blocks[b as int].preds[q as int].0 < m.blocks.len());
            proof {
                crate::cfg::lemma_blocks_well_formed(m, pred as int);
            }
            assert(m.blocks[pred as int] == p.blocks@[pred as int]@);
            let pred_last = p.blocks[pred].insns.1.0 as usize - 1;
            assert(needs_pred(m, b as int, k, q as int, id as int, 2 * pred_last));
            self.extend(Ghost(m), id, 2 * pred_last);
            // the branch itself may write or clobber registers
            assert(needs_pred(m, b as int, k, q as int, id as int, 2 * pred_last + 1));
            self.extend(Ghost(m), id, 2 * pred_last + 1);
            q += 1;
        }
    }

    /// Make the hulls of the block parameters reach over the points at
    /// which the moves into them may stand.
    fn cover_params(&mut self, p: &Program)
        requires
            p@.wf(),
            p@.block_error() is None,
            old(self).shaped(p@),
            old(self).tight(p@),
        ensures
            final(self).shaped(p@),
            final(self).grown_from(*old(self), p@),
            final(self).tight(p@),
            params_covered(p@, *final(self)),
    {
        let ghost m = p@;
        let n = p.insts.len();
        let nb = p.blocks.len();
        let mut b: usize = 0;
        while b < nb
            invariant
                p@.wf(),
                p@.block_error() is None,
                m == p@,
                nb == p.blocks.len(),
                n == p.insts.len(),
                b <= nb,
                self.shaped(m),
                self.grown_from(*old(self), m),
                self.tight(m),
                forall|b2: int, k: int|
                    0 <= b2 < b && 0 <= k < m.blocks[b2].params.len() ==> self.covers(
                        (#[trigger] m.blocks[b2].params[k]).spec_vreg() as int,
                        2 * m.blocks[b2].insns.0.0,
                    ),
                forall|b2: int, k: int, q: int|
                    0 <= b2 < b && 0 <= k < m.blocks[b2].params.len() && 0 <= q
                        < m.blocks[b2].preds.len() ==> covers_branch(
                        m,
                        *self,
                        (#[trigger] m.blocks[b2].params[k]).spec_vreg() as int,
                        (#[trigger] m.blocks[b2].preds[q]).0 as int,
                    ),
            decreases nb - b,
        {
            proof {
                crate::cfg::lemma_blocks_well_formed(m, b as int);
            }
            assert(m.blocks[b as int] == p.blocks@[b as int]@);
            let block = &p.blocks[b];
            let first = block.insns.0.0 as usize;
            let mut k: usize = 0;
            while k < block.params.len()
                invariant
                    p@.wf(),
                    p@.block_error() is None,
                    m == p@,
                    b < p.blocks.len(),
                    nb == p.blocks.len(),
                    n == p.insts.len(),
                    block@ == m.blocks[b as int],
                    k <= block.params.len(),
                    first < n,
                    first == m.blocks[b as int].insns.0.0,
                    self.shaped(m),
                    self.grown_from(*old(self), m),
                    self.tight(m),
                    forall|b2: int, k2: int|
                        0 <= b2 < nb && 0 <= k2 < m.blocks[b2].params.len() && (b2 < b || (b2
                            == b && k2 < k)) ==> self.covers(
                            (#[trigger] m.blocks[b2].params[k2]).spec_vreg() as int,
                            2 * m.blocks[b2].insns.0.0,
                        ),
                    forall|b2: int, k2: int, q: int|
                        0 <= b2 < nb && 0 <= k2 < m.blocks[b2].params.len() && (b2 < b || (b2
                            == b && k2 < k)) && 0 <= q < m.blocks[b2].preds.len()
                            ==> covers_branch(
                            m,
                            *self,
                            (#[trigger] m.blocks[b2].params[k2]).spec_vreg() as int,
                            (#[trigger] m.blocks[b2].preds[q]).0 as int,
                        ),
                decreases block.params.len() - k,
            {
                assert(m.blocks[b as int].params[k as int].spec_vreg() < m.num_vregs);
                let id = block.params[k].vreg();
                let ghost was = *self;
                assert(needs_param(m, b as int, k as int, id as int, 2 * first));
                self.extend(Ghost(m), id, 2 * first);
                self.reach_predecessors(p, b, Ghost(k as int), id);
                proof {
                    assert forall|b2: int, k2: int|
                        0 <= b2 < nb && 0 <= k2 < m.blocks[b2].params.len() && (b2 < b || (b2
                            == b && k2 < k + 1)) implies self.covers(
                        (#[trigger] m.blocks[b2].params[k2]).spec_vreg() as int,
                        2 * m.blocks[b2].insns.0.0,
                    ) by {
                        assert(m.blocks[b2].params[k2].spec_vreg() < m.num_vregs);
                        if b2 == b && k2 == k {
                        } else {
                            assert(was.covers(
                                m.blocks[b2].params[k2].spec_vreg() as int,
                                2 * m.blocks[b2].insns.0.0,
                            ));
                        }
                    }
                    assert forall|b2: int, k2: int, q: int|
                        0 <= b2 < nb && 0 <= k2 < m.blocks[b2].params.len() && (b2 < b || (b2
                            == b && k2 < k + 1)) && 0 <= q
                            < m.blocks[b2].preds.len() implies covers_branch(
                        m,
                        *self,
                        (#[trigger] m.blocks[b2].params[k2]).spec_vreg() as int,
                        (#[trigger] m.blocks[b2].preds[q]).0 as int,
                    ) by {
                        let id2 = m.blocks[b2].params[k2].spec_vreg() as int;
                        let pq = m.blocks[b2].preds[q].0 as int;
                        assert(m.blocks[b2].params[k2].spec_vreg() < m.num_vregs);
                        if b2 == b && k2 == k {
                        } else {
                            assert(covers_branch(m, was, id2, pq));
                            assert(was.covers(id2, 2 * m.last_inst(pq)));
                            assert(was.covers(id2, 2 * m.last_inst(pq) + 1));
                        }
                    }
                }
                k += 1;
            }
            b += 1;
        }
    }

    /// Make the hull of a vreg reach over the point after the branch of
    /// block `b` and over the start of every successor of the block.
    fn reach_successors(&mut self, p: &Program, b: usize, Ghost(k): Ghost<int>, id: usize)
        requires
            p@.wf(),
            p@.block_error() is None,
            old(self).shaped(p@),
            old(self).tight(p@),
            b < p.blocks.len(),
            id < p@.num_vregs,
            is_last_operand(p@, b as int, k, id as int),
        ensures
            final(self).shaped(p@),
            final(self).grown_from(*old(self), p@),
            final(self).tight(p@),
            forall|s: int|
                0 <= s < p@.blocks[b as int].succs.len() ==> covers_edge(
                    p@,
                    *final(self),
                    id as int,
                    b as int,
                    (#[trigger] p@.blocks[b as int].succs[s]).0 as int,
                ),
    {
        let ghost m = p@;
        assert(m.blocks[b as int] == p.blocks@[b as int]@);
        let block = &p.blocks[b];
        proof {
            crate::cfg::lemma_blocks_well_formed(m, b as int);
        }
        // the branch itself may write or clobber registers
        assert(needs_last(m, b as int, k, id as int, 2 * m.last_inst(b as int) + 1));
        self.extend(Ghost(m), id, 2 * (block.insns.1.0 as usize - 1) + 1);
        let mut s: usize = 0;
        while s < block.succs.len()
            invariant
                p@.wf(),
                p@.block_error() is None,
                m == p@,
                b < p.blocks.len(),
                block@ == m.blocks[b as int],
                s <= block.succs.len(),
                id < m.num_vregs,
                is_last_operand(m, b as int, k, id as int),
                self.shaped(m),
                self.grown_from(*old(self), m),
                self.tight(m),
                self.covers(id as int, 2 * m.last_inst(b as int) + 1),
                forall|s2: int|
                    0 <= s2 < s ==> covers_edge(
                        m,
                        *self,
                        id as int,
                        b as int,
                        (#[trigger] m.blocks[b as int].succs[s2]).0 as int,
                    ),
            decreases block.succs.len() - s,
        {
            let succ = block.succs[s].0 as usize;
            assert(m.blocks[b as int].succs[s as int].0 < m.blocks.len());
            proof {
                crate::cfg::lemma_blocks_well_formed(m, succ as int);
            }
            assert(m.blocks[succ as int] == p.blocks@[succ as int]@);
            let succ_first = p.blocks[succ].insns.0.0 as usize;
            let ghost was = *self;
            assert(needs_succ(m, b as int, k, s as int, id as int, 2 * succ_first));
            self.extend(Ghost(m), id, 2 * succ_first);
            proof {
                assert forall|s2: int| 0 <= s2 < s + 1 implies covers_edge(
                    m,
                    *self,
                    id as int,
                    b as int,
                    (#[trigger] m.blocks[b as int].succs[s2]).0 as int,
                ) by {
                    let sb = m.blocks[b as int].succs[s2].0 as int;
                    assert(was.covers(id as int, 2 * m.last_inst(b as int) + 1));
                    if s2 < s {
                        assert(covers_edge(m, was, id as int, b as int, sb));
                        assert(was.covers(id as int, 2 * m.blocks[sb].insns.0.0));
                    }
                }
            }
            s += 1;
        }
    }

    /// Make the hulls of the arguments of the branch of block `b` reach
    /// over the points at which the moves out of them may stand.
    fn cover_block_args(&mut self, p: &Program, b: usize)
        requires
            p@.wf(),
            p@.block_error() is None,
            old(self).shaped(p@),
            old(self).tight(p@),
            b < p.blocks.len(),
        ensures
            final(self).shaped(p@),
            final(self).grown_from(*old(self), p@),
            final(self).tight(p@),
            forall|k: int, s: int|
                0 <= k < p@.insts[p@.last_inst(b as int)].operands.len() && 0 <= s
                    < p@.blocks[b as int].succs.len() ==> covers_edge(
                    p@,
                    *final(self),
                    (#[trigger] p@.insts[p@.last_inst(
                        b as int,
                    )].operands[k]).spec_vreg().spec_vreg() as int,
                    b as int,
                    (#[trigger] p@.blocks[b as int].succs[s]).0 as int,
                ),
    {
        let ghost m = p@;
        proof {
            crate::cfg::lemma_blocks_well_formed(m, b as int);
        }
        assert(m.blocks[b as int] == p.blocks@[b as int]@);
        let last = p.blocks[b].insns.1.0 as usize - 1;
        assert(m.insts[last as int] == p.insts@[last as int]@);
        let ops = &p.insts[last].operands;
        let mut k: usize = 0;
        while k < ops.len()
            invariant
                p@.wf(),
                p@.block_error() is None,
                m == p@,
                b < p.blocks.len(),
                last == m.last_inst(b as int),
                last < p.insts.len(),
                ops@ == m.insts[last as int].operands,
                k <= ops.len(),
                self.shaped(m),
                self.grown_from(*old(self), m),
                self.tight(m),
                forall|k2: int, s: int|
                    0 <= k2 < k && 0 <= s < m.blocks[b as int].succs.len() ==> covers_edge(
                        m,
                        *self,
                        (#[trigger] m.insts[last as int].operands[k2]).spec_vreg().spec_vreg() as int,
                        b as int,
                        (#[trigger] m.blocks[b as int].succs[s]).0 as int,
                    ),
            decreases ops.len() - k,
        {
            assert(m.insts[last as int].operands[k as int].spec_vreg().spec_vreg() < m.num_vregs);
            let id = ops[k].vreg().vreg();
            let ghost was = *self;
            assert(is_last_operand(m, b as int, k as int, id as int));
            self.reach_successors(p, b, Ghost(k as int), id);
            proof {
                assert forall|k2: int, s: int|
                    0 <= k2 < k + 1 && 0 <= s < m.blocks[b as int].succs.len() implies covers_edge(
                    m,
                    *self,
                    (#[trigger] m.insts[last as int].operands[k2]).spec_vreg().spec_vreg() as int,
                    b as int,
                    (#[trigger] m.blocks[b as int].succs[s]).0 as int,
                ) by {
                    let id2 = m.insts[last as int].operands[k2].spec_vreg().spec_vreg() as int;
                    let sb = m.blocks[b as int].succs[s].0 as int;
                    assert(m.insts[last as int].operands[k2].spec_vreg().spec_vreg()
                        < m.num_vregs);
                    if k2 < k {
                        assert(covers_edge(m, was, id2, b as int, sb));
                        assert(was.covers(id2, 2 * m.last_inst(b as int) + 1));
                        assert(was.covers(id2, 2 * m.blocks[sb].insns.0.0));
                    }
                }
            }
            k += 1;
        }
    }

    /// Make the hulls of the arguments of every branch reach over the
    /// points at which the moves out of them may stand.
    fn cover_args(&mut self, p: &Program)
        requires
            p@.wf(),
            p@.block_error() is None,
            old(self).shaped(p@),
            old(self).tight(p@),
        ensures
            final(self).shaped(p@),
            final(self).grown_from(*old(self), p@),
            final(self).tight(p@),
            args_covered(p@, *final(self)),
    {
        let ghost m = p@;
        let nb = p.blocks.len();
        let mut b: usize = 0;
        while b < nb
            invariant
                p@.wf(),
                p@.block_error() is None,
                m == p@,
                nb == p.blocks.len(),
                b <= nb,
                self.shaped(m),
                self.grown_from(*old(self), m),
                self.tight(m),
                forall|b2: int, k: int, s: int|
                    0 <= b2 < b && 0 <= k < m.insts[m.last_inst(b2)].operands.len() && 0 <= s
                        < m.blocks[b2].succs.len() ==> covers_edge(
                        m,
                        *self,
                        (#[trigger] m.insts[m.last_inst(
                            b2,
                        )].operands[k]).spec_vreg().spec_vreg() as int,
                        b2,
                        (#[trigger] m.blocks[b2].succs[s]).0 as int,
                    ),
            decreases nb - b,
        {
            let ghost was = *self;
            self.cover_block_args(p, b);
            proof {
                assert forall|b2: int, k: int, s: int|
                    0 <= b2 < b + 1 && 0 <= k < m.insts[m.last_inst(b2)].operands.len() && 0 <= s
                        < m.blocks[b2].succs.len() implies covers_edge(
                    m,
                    *self,
                    (#[trigger] m.insts[m.last_inst(b2)].operands[k]).spec_vreg().spec_vreg() as int,
                    b2,
                    (#[trigger] m.blocks[b2].succs[s]).0 as int,
                ) by {
                    let id2 = m.insts[m.last_inst(b2)].operands[k].spec_vreg().spec_vreg() as int;
                    let sb = m.blocks[b2].succs[s].0 as int;
                    if b2 < b {
                        crate::cfg::lemma_blocks_well_formed(m, b2);
                        assert(m.insts[m.last_inst(b2)].operands[k].spec_vreg().spec_vreg()
                            < m.num_vregs);
                        assert(covers_edge(m, was, id2, b2, sb));
                        assert(was.covers(id2, 2 * m.last_inst(b2) + 1));
                        assert(was.covers(id2, 2 * m.blocks[sb].insns.0.0));
                    }
                }
            }
            b += 1;
        }
    }
}

/// The first and last points of every vreg: where an operand names it,
/// where it enters or leaves a block alive, and where the moves for a
/// block parameter read or write it.
pub(crate) fn compute_hulls(p: &Program, pins: &Vec<Option<PReg>>, t: &Vec<Vec<bool>>) -> (h: Hulls)
    requires
        p@.wf(),
        p@.block_error() is None,
        table_ok(p@, t@),
        sound(p@, t@),
        closed(p@, t@),
        pins@.len() == p@.num_vregs,
    ensures
        h.shaped(p@),
        hulls_cover(p@, t@, h),
        params_covered(p@, h),
        args_covered(p@, h),
        h.tight(p@),
{
    let ghost m = p@;
    let mut h = Hulls { lo: filled(p.num_vregs, 2 * p.insts.len()), hi: filled(p.num_vregs, 0) };
    assert(h.tight(m)) by {
        assert forall|id: int| 0 <= id < m.num_vregs implies #[trigger] h.tight_at(m, id) by {
            assert(h.lo@[id] == 2 * m.insts.len() && h.hi@[id] == 0);
        }
    }
    h.cover_blocks(p, t);
    let ghost h1 = h;
    h.cover_operands(p);
    let ghost h2 = h;
    h.cover_params(p);
    let ghost h3 = h;
    h.cover_args(p);
    proof {
        assert forall|b: int, id: int|
            0 <= b < m.blocks.len() && 0 <= id < m.num_vregs && #[trigger] t@[b]@[id] implies h.covers(
            id,
            2 * m.blocks[b].insns.0.0,
        ) by {
            assert(h1.covers(id, 2 * m.blocks[b].insns.0.0));
            assert(h2.covers(id, 2 * m.blocks[b].insns.0.0));
            assert(h3.covers(id, 2 * m.blocks[b].insns.0.0));
        }
        assert forall|b: int, id: int|
            0 <= b < m.blocks.len() && 0 <= id < m.num_vregs && #[trigger] out_row(
                m,
                t@,
                b,
            )[id] implies h.covers(id, 2 * m.last_inst(b) + 1) by {
            assert(h1.covers(id, 2 * m.last_inst(b) + 1));
            assert(h2.covers(id, 2 * m.last_inst(b) + 1));
            assert(h3.covers(id, 2 * m.last_inst(b) + 1));
        }
        assert forall|i: int, k: int|
            0 <= i < m.insts.len() && 0 <= k < m.insts[i].operands.len() && holds_early(
                #[trigger] m.insts[i].operands[k],
            ) implies h.covers(m.op_vreg(i, k) as int, 2 * i) by {
            assert(m.insts[i].operands[k].spec_vreg().spec_vreg() < m.num_vregs);
            assert(h2.covers(m.op_vreg(i, k) as int, 2 * i));
            assert(h3.covers(m.op_vreg(i, k) as int, 2 * i));
        }
        assert forall|i: int, k: int|
            0 <= i < m.insts.len() && 0 <= k < m.insts[i].operands.len() && holds_late(
                #[trigger] m.insts[i].operands[k],
            ) implies h.covers(m.op_vreg(i, k) as int, 2 * i + 1) by {
            assert(m.insts[i].operands[k].spec_vreg().spec_vreg() < m.num_vregs);
            assert(h2.covers(m.op_vreg(i, k) as int, 2 * i + 1));
            assert(h3.covers(m.op_vreg(i, k) as int, 2 * i + 1));
        }
        assert(params_covered(m, h)) by {
            assert forall|b: int, k: int|
                0 <= b < m.blocks.len() && 0 <= k < m.blocks[b].params.len() implies h.covers(
                (#[trigger] m.blocks[b].params[k]).spec_vreg() as int,
                2 * m.blocks[b].insns.0.0,
            ) by {
                assert(m.blocks[b].params[k].spec_vreg() < m.num_vregs);
                assert(h3.covers(m.blocks[b].params[k].spec_vreg() as int, 2 * m.blocks[b].insns.0.0));
            }
            assert forall|b: int, k: int, q: int|
                0 <= b < m.blocks.len() && 0 <= k < m.blocks[b].params.len() && 0 <= q
                    < m.blocks[b].preds.len() implies h.covers(
                (#[trigger] m.blocks[b].params[k]).spec_vreg() as int,
                2 * m.last_inst((#[trigger] m.blocks[b].preds[q]).0 as int),
            ) by {
                assert(m.blocks[b].params[k].spec_vreg() < m.num_vregs);
                assert(h3.covers(
                    m.blocks[b].params[k].spec_vreg() as int,
                    2 * m.last_inst(m.blocks[b].preds[q].0 as int),
                ));
            }
        }
    }
    h
}

/// A copy of a table of points.
pub(crate) fn copy_points(v: &Vec<usize>) -> (r: Vec<usize>)
    ensures
        r@ == v@,
{
    let mut r: Vec<usize> = Vec::new();
    let mut k: usize = 0;
    while k < v.len()
        invariant
            k <= v.len(),
            r@.len() == k,
            forall|j: int| 0 <= j < k ==> #[trigger] r@[j] == v@[j],
        decreases v.len() - k,
    {
        r.push(v[k]);
        k += 1;
    }
    assert(r@ =~= v@);
    r
}

/// Who holds each register at each program point: nobody (0), a vreg
/// (its id plus one), or something that no vreg can share the register
/// with (the largest value). A register that is no candidate has no row.
pub struct Occupancy {
    pub rows: Vec<Vec<u32>>,
}

pub const BLOCKED: u32 = 0xffff_ffff;

/// What a cell holds once `owner` has been noted in it: the owner, if
/// the cell was free or the owner's already, and else the mark that
/// nobody may share it.
pub open spec fn noted(cell: u32, owner: u32) -> u32 {
    if cell == 0 || cell == owner {
        owner
    } else {
        BLOCKED
    }
}

/// Whether a cell is kept from every vreg but the one with the given id.
pub open spec fn kept_for(cell: u32, id: int) -> bool {
    cell == id + 1 || cell == BLOCKED
}

impl Occupancy {
    pub open spec fn shaped(&self, points: nat) -> bool {
        &&& self.rows@.len() == 128
        &&& forall|x: int|
            0 <= x < 128 ==> (#[trigger] self.rows@[x])@.len() == 0 || self.rows@[x]@.len()
                == points
    }

    /// What the cell of register `x` at point `pt` holds.
    pub open spec fn held(&self, x: int, pt: int) -> u32 {
        self.rows@[x]@[pt]
    }

    /// Whether register `x` is one that a vreg may rest in.
    pub open spec fn has_row(&self, x: int) -> bool {
        self.rows@[x]@.len() > 0
    }

    /// Whether register `x` is free for `owner` from point `lo` to point `hi`.
    pub open spec fn free_for(&self, x: int, lo: int, hi: int, owner: u32) -> bool {
        &&& self.has_row(x)
        &&& forall|pt: int|
            lo <= pt <= hi && 0 <= pt < self.rows@[x]@.len() ==> #[trigger] self.held(x, pt) == 0
                || self.held(x, pt) == owner
    }

    /// An occupancy in which every candidate register is free everywhere.
    pub fn new(cand: &Vec<bool>, points: usize) -> (r: Occupancy)
        requires
            cand@.len() == 128,
        ensures
            r.shaped(points as nat),
            forall|x: int|
                0 <= x < 128 ==> (#[trigger] r.rows@[x])@.len() == if cand@[x] {
                    points
                } else {
                    0
                },
            forall|x: int| 0 <= x < 128 && cand@[x] && points > 0 ==> #[trigger] r.has_row(x),
            forall|x: int, pt: int|
                0 <= x < 128 && 0 <= pt < r.rows@[x]@.len() ==> #[trigger] r.held(x, pt) == 0,
    {
        let mut rows: Vec<Vec<u32>> = Vec::new();
        let mut x: usize = 0;
        while x < 128
            invariant
                x <= 128,
                cand@.len() == 128,
                rows@.len() == x,
                forall|y: int|
                    0 <= y < x ==> (#[trigger] rows@[y])@.len() == if cand@[y] {
                        points
                    } else {
                        0
                    },
                forall|y: int, pt: int|
                    0 <= y < x && 0 <= pt < rows@[y]@.len() ==> #[trigger] rows@[y]@[pt] == 0,
            decreases 128 - x,
        {
            if cand[x] {
                rows.push(filled(points, 0u32));
            } else {
                rows.push(Vec::new());
            }
            x += 1;
        }
        Occupancy { rows }
    }

    /// Note that `owner` holds register `x` at point `pt`. Where another
    /// owner holds it already, nobody may share it.
    pub fn mark(&mut self, Ghost(points): Ghost<nat>, x: usize, pt: usize, owner: u32)
        requires
            old(self).shaped(points),
            x < 128,
        ensures
            final(self).shaped(points),
            forall|y: int|
                0 <= y < 128 ==> (#[trigger] final(self).rows@[y])@.len() == old(self).rows@[y]@.len(),
            forall|y: int, q: int|
                0 <= y < 128 && 0 <= q < old(self).rows@[y]@.len() ==> #[trigger] final(self).held(y, q) == if y == x && q == pt {
                    noted(old(self).held(y, q), owner)
                } else {
                    old(self).held(y, q)
                },
    {
        if pt < self.rows[x].len() {
            let cell = self.rows[x][pt];
            let value = if cell == 0 || cell == owner {
                owner
            } else {
                BLOCKED
            };
            let mut row: Vec<u32> = Vec::new();
            std::mem::swap(&mut row, &mut self.rows[x]);
            row.set(pt, value);
            self.rows.set(x, row);
        }
    }

    /// Whether register `x` is free for `owner` from point `lo` to point `hi`.
    pub fn is_free(&self, Ghost(points): Ghost<nat>, x: usize, lo: usize, hi: usize, owner: u32) -> (r:
        bool)
        requires
            self.shaped(points),
            x < 128,
        ensures
            r == self.free_for(x as int, lo as int, hi as int, owner),
    {
        let row = &self.rows[x];
        if row.len() == 0 {
            return false;
        }
        let mut pt: usize = lo;
        while pt <= hi && pt < row.len()
            invariant
                x < 128,
                row@ == self.rows@[x as int]@,
                row@.len() > 0,
                lo <= pt,
                forall|q: int|
                    lo <= q < pt && 0 <= q < row@.len() ==> #[trigger] self.held(x as int, q) == 0
                        || self.held(x as int, q) == owner,
            decreases row.len() - pt,
        {
            let cell = row[pt];
            if cell != 0 && cell != owner {
                assert(self.held(x as int, pt as int) == cell);
                return false;
            }
            pt += 1;
        }
        true
    }

    /// Note that `owner` holds register `x` from point `lo` to point `hi`.
    pub fn take(&mut self, Ghost(points): Ghost<nat>, x: usize, lo: usize, hi: usize, owner: u32)
        requires
            old(self).shaped(points),
            x < 128,
        ensures
            final(self).shaped(points),
            forall|y: int|
                0 <= y < 128 ==> (#[trigger] final(self).rows@[y])@.len() == old(self).rows@[y]@.len(),
            forall|y: int, q: int|
                0 <= y < 128 && 0 <= q < old(self).rows@[y]@.len() ==> #[trigger] final(self).held(y, q) == if y == x && lo <= q <= hi {
                    noted(old(self).held(y, q), owner)
                } else {
                    old(self).held(y, q)
                },
    {
        let mut pt: usize = lo;
        while pt <= hi && pt < self.rows[x].len()
            invariant
                self.shaped(points),
                x < 128,
                lo <= pt,
                pt == lo || pt <= hi + 1,
                forall|y: int|
                    0 <= y < 128 ==> (#[trigger] self.rows@[y])@.len() == old(self).rows@[y]@.len(),
                forall|y: int, q: int|
                    0 <= y < 128 && 0 <= q < old(self).rows@[y]@.len() ==> #[trigger] self.held(
                        y,
                        q,
                    ) == if y == x && lo <= q < pt {
                        noted(old(self).held(y, q), owner)
                    } else {
                        old(self).held(y, q)
                    },
            decreases self.rows@[x as int]@.len() - pt,
        {
            self.mark(Ghost(points), x, pt, owner);
            pt += 1;
        }
        assert(pt > hi || pt >= self.rows@[x as int]@.len());
        assert forall|y: int, q: int|
            0 <= y < 128 && 0 <= q < old(self).rows@[y]@.len() implies #[trigger] self.held(y, q)
            == if y == x && lo <= q <= hi {
            noted(old(self).held(y, q), owner)
        } else {
            old(self).held(y, q)
        } by {
            assert(self.rows@[y]@.len() == old(self).rows@[y]@.len());
            if y == x && lo <= q <= hi {
                assert(q < pt);
                assert(self.held(y, q) == noted(old(self).held(y, q), owner));
            } else {
                assert(!(y == x && lo <= q < pt));
                assert(self.held(y, q) == old(self).held(y, q));
            }
        }
    }
}

/// Whether every operand of the first `upto` instructions that has a
/// register keeps it, wherever a vreg may rest in it, from every other
/// vreg in the halves of the instruction in which it holds it.
pub open spec fn operands_marked(
    m: ProgramModel,
    regs: Seq<Vec<Option<PReg>>>,
    occ: Occupancy,
    upto: int,
) -> bool {
    forall|i: int, k: int|
        0 <= i < upto && 0 <= k < m.insts[i].operands.len() && (#[trigger] regs[i]@[k]) is Some
            && occ.has_row(regs[i]@[k].unwrap().spec_index() as int) ==> {
            let x = regs[i]@[k].unwrap().spec_index() as int;
            let op = m.insts[i].operands[k];
            &&& holds_early(op) ==> kept_for(occ.held(x, 2 * i), m.op_vreg(i, k) as int)
            &&& holds_late(op) ==> kept_for(occ.held(x, 2 * i + 1), m.op_vreg(i, k) as int)
        }
}

/// Whether one occupancy comes from another by notes alone: the rows
/// are the same, and every cell is as it was, or is what it was with an
/// owner noted in it.
pub open spec fn only_noted(before: Occupancy, after: Occupancy) -> bool {
    &&& forall|y: int|
        0 <= y < 128 ==> (#[trigger] after.rows@[y])@.len() == before.rows@[y]@.len()
    &&& forall|y: int, q: int|
        0 <= y < 128 && 0 <= q < before.rows@[y]@.len() ==> #[trigger] after.held(y, q)
            == before.held(y, q) || exists|owner: u32|
            after.held(y, q) == noted(before.held(y, q), owner)
}

/// Notes take no register from an operand that holds it.
proof fn lemma_marked_stays(
    m: ProgramModel,
    regs: Seq<Vec<Option<PReg>>>,
    before: Occupancy,
    after: Occupancy,
    upto: int,
)
    requires
        m.within_limits(),
        0 <= upto <= m.insts.len(),
        before.shaped(2 * m.insts.len()),
        regs.len() == m.insts.len(),
        forall|i: int| 0 <= i < regs.len() ==> (#[trigger] regs[i])@.len() == m.insts[i].operands.len(),
        forall|i: int, k: int|
            0 <= i < regs.len() && 0 <= k < regs[i]@.len() && (#[trigger] regs[i]@[k]) is Some
                ==> regs[i]@[k].unwrap().spec_index() < 128,
        operands_marked(m, regs, before, upto),
        only_noted(before, after),
    ensures
        operands_marked(m, regs, after, upto),
{
    assert forall|i: int, k: int|
        0 <= i < upto && 0 <= k < m.insts[i].operands.len() && (#[trigger] regs[i]@[k]) is Some
            && after.has_row(regs[i]@[k].unwrap().spec_index() as int) implies {
        let x = regs[i]@[k].unwrap().spec_index() as int;
        let op = m.insts[i].operands[k];
        &&& holds_early(op) ==> kept_for(after.held(x, 2 * i), m.op_vreg(i, k) as int)
        &&& holds_late(op) ==> kept_for(after.held(x, 2 * i + 1), m.op_vreg(i, k) as int)
    } by {
        let x = regs[i]@[k].unwrap().spec_index() as int;
        assert(before.rows@[x]@.len() == after.rows@[x]@.len());
        assert(before.has_row(x));
        assert(before.rows@[x]@.len() == 2 * m.insts.len());
        assert(kept_for(before.held(x, 2 * i), m.op_vreg(i, k) as int) ==> kept_for(
            after.held(x, 2 * i),
            m.op_vreg(i, k) as int,
        ));
        assert(kept_for(before.held(x, 2 * i + 1), m.op_vreg(i, k) as int) ==> kept_for(
            after.held(x, 2 * i + 1),
            m.op_vreg(i, k) as int,
        ));
    }
}

/// Whether every register that one of the first `upto` instructions
/// clobbers is kept from every vreg, wherever a vreg may rest in it, at
/// the point after the instruction.
pub open spec fn clobbers_marked(m: ProgramModel, occ: Occupancy, upto: int) -> bool {
    forall|i: int, c: int|
        0 <= i < upto && 0 <= c < m.insts[i].clobbers.len() && occ.has_row(
            (#[trigger] m.insts[i].clobbers[c]).spec_index() as int,
        ) ==> occ.held(m.insts[i].clobbers[c].spec_index() as int, 2 * i + 1) == BLOCKED
}

/// Notes leave a clobbered register kept from every vreg.
proof fn lemma_clobbers_stay(m: ProgramModel, before: Occupancy, after: Occupancy, upto: int)
    requires
        0 <= upto <= m.insts.len(),
        before.shaped(2 * m.insts.len()),
        forall|i: int, c: int|
            0 <= i < m.insts.len() && 0 <= c < m.insts[i].clobbers.len() ==> (
            #[trigger] m.insts[i].clobbers[c]).spec_index() < 128,
        clobbers_marked(m, before, upto),
        only_noted(before, after),
    ensures
        clobbers_marked(m, after, upto),
{
    assert forall|i: int, c: int|
        0 <= i < upto && 0 <= c < m.insts[i].clobbers.len() && after.has_row(
            (#[trigger] m.insts[i].clobbers[c]).spec_index() as int,
        ) implies after.held(m.insts[i].clobbers[c].spec_index() as int, 2 * i + 1)
        == BLOCKED by {
        let x = m.insts[i].clobbers[c].spec_index() as int;
        assert(before.rows@[x]@.len() == after.rows@[x]@.len());
        assert(before.has_row(x));
        assert(before.rows@[x]@.len() == 2 * m.insts.len());
        assert(before.held(x, 2 * i + 1) == BLOCKED);
        assert(after.held(x, 2 * i + 1) == BLOCKED);
    }
}

/// Whether every register that an instruction clobbers has a place in
/// the index space.
pub open spec fn clobbers_in_bounds(m: ProgramModel) -> bool {
    forall|i: int, c: int|
        0 <= i < m.insts.len() && 0 <= c < m.insts[i].clobbers.len() ==> (
        #[trigger] m.insts[i].clobbers[c]).spec_index() < 128
}

/// Go through the registers that the instructions clobber: each has a
/// place in the index space, as every register that executable code
/// holds, and from here on that is known of all of them at once.
pub(crate) fn clobbers_checked(p: &Program)
    ensures
        clobbers_in_bounds(p@),
{
    let ghost m = p@;
    let n = p.insts.len();
    let mut i: usize = 0;
    while i < n
        invariant
            m == p@,
            n == p.insts.len(),
            i <= n,
            forall|i2: int, c: int|
                0 <= i2 < i && 0 <= c < m.insts[i2].clobbers.len() ==> (
                #[trigger] m.insts[i2].clobbers[c]).spec_index() < 128,
        decreases n - i,
    {
        assert(m.insts[i as int] == p.insts@[i as int]@);
        let list = &p.insts[i].clobbers;
        let mut c: usize = 0;
        while c < list.len()
            invariant
                m == p@,
                i < n,
                n == p.insts.len(),
                list@ == m.insts[i as int].clobbers,
                c <= list.len(),
                forall|c2: int|
                    0 <= c2 < c ==> (#[trigger] m.insts[i as int].clobbers[c2]).spec_index() < 128,
            decreases list.len() - c,
        {
            let r = list[c];
            proof {
                use_type_invariant(&r);
                crate::regs::lemma_preg_determined(r);
            }
            c += 1;
        }
        i += 1;
    }
}

/// Whether operand `k` of instruction `i` is an operand of vreg `w`
/// that holds the register at `x` at point `pt`.
pub open spec fn operand_holds_at(
    m: ProgramModel,
    regs: Seq<Vec<Option<PReg>>>,
    i: int,
    k: int,
    x: int,
    pt: int,
    w: int,
) -> bool {
    &&& 0 <= i < m.insts.len()
    &&& 0 <= k < m.insts[i].operands.len()
    &&& regs[i]@[k] is Some
    &&& regs[i]@[k].unwrap().spec_index() == x
    &&& m.op_vreg(i, k) == w
    &&& ((holds_early(m.insts[i].operands[k]) && pt == 2 * i) || (holds_late(
        m.insts[i].operands[k],
    ) && pt == 2 * i + 1))
}

/// Whether the vreg `w` is one of the vregs with a home in the list,
/// is not pinned, and rests in the register at `x` while `pt` lies
/// within its hull.
pub open spec fn home_holds_at(
    m: ProgramModel,
    homes: Seq<Allocation>,
    lo: Seq<usize>,
    hi: Seq<usize>,
    x: int,
    pt: int,
    w: int,
) -> bool {
    &&& 0 <= w < homes.len()
    &&& m.pin_of(w as usize) is None
    &&& homes[w].spec_is_reg()
    &&& homes[w].spec_index() == x
    &&& lo[w] <= pt <= hi[w]
}

/// Whether the vreg `w` holds the register at `x` at point `pt`: it
/// rests there, or one of its operands is there.
pub open spec fn occupies(
    m: ProgramModel,
    regs: Seq<Vec<Option<PReg>>>,
    homes: Seq<Allocation>,
    lo: Seq<usize>,
    hi: Seq<usize>,
    x: int,
    pt: int,
    w: int,
) -> bool {
    home_holds_at(m, homes, lo, hi, x, pt, w) || exists|i: int, k: int| #[trigger]
        operand_holds_at(m, regs, i, k, x, pt, w)
}

/// Whether clobber `c` of instruction `i` is the register at `x`, and
/// `pt` the point after the instruction.
pub open spec fn clobber_at(m: ProgramModel, i: int, c: int, x: int, pt: int) -> bool {
    &&& 0 <= i < m.insts.len()
    &&& 0 <= c < m.insts[i].clobbers.len()
    &&& m.insts[i].clobbers[c].spec_index() == x
    &&& pt == 2 * i + 1
}

/// Whether an instruction clobbers the register at `x` at point `pt`.
pub open spec fn clobbered_at(m: ProgramModel, x: int, pt: int) -> bool {
    exists|i: int, c: int| #[trigger] clobber_at(m, i, c, x, pt)
}

/// Whether the register at `x` is taken from the vreg `id` at point
/// `pt`: an instruction clobbers it there, or another vreg holds it.
pub open spec fn taken_from(
    m: ProgramModel,
    regs: Seq<Vec<Option<PReg>>>,
    homes: Seq<Allocation>,
    lo: Seq<usize>,
    hi: Seq<usize>,
    x: int,
    pt: int,
    id: int,
) -> bool {
    clobbered_at(m, x, pt) || exists|w: int|
        w != id && #[trigger] occupies(m, regs, homes, lo, hi, x, pt, w)
}

/// Whether what a cell holds has its reason: the vreg whose mark it
/// holds does hold the register at that point, and where it is kept
/// from all vregs, it is taken from each of them.
pub open spec fn cell_sourced(
    m: ProgramModel,
    regs: Seq<Vec<Option<PReg>>>,
    homes: Seq<Allocation>,
    lo: Seq<usize>,
    hi: Seq<usize>,
    x: int,
    pt: int,
    cell: u32,
) -> bool {
    &&& cell != 0 && cell != BLOCKED ==> occupies(m, regs, homes, lo, hi, x, pt, cell - 1)
    &&& cell == BLOCKED ==> forall|id: int| #[trigger]
        taken_from(m, regs, homes, lo, hi, x, pt, id)
}

/// Whether every cell of the occupancy has its reason in the operands,
/// the clobbers and the homes in the list.
pub open spec fn sourced(
    m: ProgramModel,
    regs: Seq<Vec<Option<PReg>>>,
    homes: Seq<Allocation>,
    lo: Seq<usize>,
    hi: Seq<usize>,
    occ: Occupancy,
) -> bool {
    forall|x: int, pt: int|
        0 <= x < 128 && 0 <= pt < occ.rows@[x]@.len() ==> cell_sourced(
            m,
            regs,
            homes,
            lo,
            hi,
            x,
            pt,
            #[trigger] occ.held(x, pt),
        )
}

/// Whether the register at `x` is taken from the vreg `id` at some
/// point of its hull by what came before it: an operand, a clobber, or
/// the home of a vreg in the list.
pub open spec fn contested(
    m: ProgramModel,
    regs: Seq<Vec<Option<PReg>>>,
    before: Seq<Allocation>,
    lo: Seq<usize>,
    hi: Seq<usize>,
    x: int,
    id: int,
) -> bool {
    exists|pt: int|
        lo[id] <= pt <= hi[id] && 0 <= pt < 2 * m.insts.len() && #[trigger] taken_from(
            m,
            regs,
            before,
            lo,
            hi,
            x,
            pt,
            id,
        )
}

/// Whether the vreg `id` could not rest in a register: every register
/// of its class that may be allocated is taken from it at some point
/// of its hull, by an operand, a clobber, or the home of a vreg with a
/// lesser id.
pub open spec fn forced(
    m: ProgramModel,
    env: &MachineEnv,
    regs: Seq<Vec<Option<PReg>>>,
    homes: Seq<Allocation>,
    lo: Seq<usize>,
    hi: Seq<usize>,
    id: int,
) -> bool {
    forall|x: int|
        0 <= x < 128 && class_at(x) == homes[id].spec_class() && m.candidate(env, class_at(x), x)
            ==> #[trigger] contested(m, regs, homes.take(id), lo, hi, x, id)
}

/// Whether every vreg that rests on the stack has to: it is marked as
/// bound to the stack, or it could not rest in a register.
pub open spec fn stack_forced(
    m: ProgramModel,
    env: &MachineEnv,
    regs: Seq<Vec<Option<PReg>>>,
    on_stack: Seq<bool>,
    homes: Seq<Allocation>,
    lo: Seq<usize>,
    hi: Seq<usize>,
    upto: int,
) -> bool {
    forall|id: int|
        0 <= id < upto && m.pin_of(id as usize) is None && (#[trigger] homes[id]).spec_is_stack()
            && !on_stack[id] ==> forced(m, env, regs, homes, lo, hi, id)
}

/// Whether every vreg that rests on the stack has to: it holds a
/// reference, or an operand wants it on the stack, or it could not rest
/// in a register.
pub open spec fn spills_forced(
    m: ProgramModel,
    env: &MachineEnv,
    regs: Seq<Vec<Option<PReg>>>,
    homes: Seq<Allocation>,
    lo: Seq<usize>,
    hi: Seq<usize>,
) -> bool {
    forall|id: int|
        0 <= id < m.num_vregs && m.pin_of(id as usize) is None && (
        #[trigger] homes[id]).spec_is_stack() && !stack_bound(m, id) ==> forced(
            m,
            env,
            regs,
            homes,
            lo,
            hi,
            id,
        )
}

/// Cells keep their reasons where an owner is noted in some of them
/// and the owner has its reason there: a vreg that holds the register
/// at that point, or, for the mark that keeps a cell from all vregs, a
/// clobber.
proof fn lemma_sourced_noted(
    m: ProgramModel,
    regs: Seq<Vec<Option<PReg>>>,
    homes: Seq<Allocation>,
    lo: Seq<usize>,
    hi: Seq<usize>,
    before: Occupancy,
    after: Occupancy,
    owner: u32,
)
    requires
        sourced(m, regs, homes, lo, hi, before),
        owner != 0,
        forall|y: int| 0 <= y < 128 ==> (#[trigger] after.rows@[y])@.len() == before.rows@[y]@.len(),
        forall|y: int, q: int|
            0 <= y < 128 && 0 <= q < before.rows@[y]@.len() ==> #[trigger] after.held(y, q)
                == before.held(y, q) || (after.held(y, q) == noted(before.held(y, q), owner) && (
            if owner == BLOCKED {
                clobbered_at(m, y, q)
            } else {
                occupies(m, regs, homes, lo, hi, y, q, owner - 1)
            })),
    ensures
        sourced(m, regs, homes, lo, hi, after),
{
    assert forall|x: int, pt: int| 0 <= x < 128 && 0 <= pt < after.rows@[x]@.len() implies cell_sourced(
        m,
        regs,
        homes,
        lo,
        hi,
        x,
        pt,
        #[trigger] after.held(x, pt),
    ) by {
        let was = before.held(x, pt);
        let now = after.held(x, pt);
        assert(before.rows@[x]@.len() == after.rows@[x]@.len());
        assert(cell_sourced(m, regs, homes, lo, hi, x, pt, was));
        if now != was && now == BLOCKED {
            assert forall|id: int| #[trigger] taken_from(m, regs, homes, lo, hi, x, pt, id) by {
                if owner != BLOCKED {
                    assert(occupies(m, regs, homes, lo, hi, x, pt, owner - 1));
                    assert(occupies(m, regs, homes, lo, hi, x, pt, was - 1));
                }
            }
        }
    }
}

/// Cells keep their reasons when more vregs get their homes.
proof fn lemma_sourced_more(
    m: ProgramModel,
    regs: Seq<Vec<Option<PReg>>>,
    fewer: Seq<Allocation>,
    more: Seq<Allocation>,
    lo: Seq<usize>,
    hi: Seq<usize>,
    occ: Occupancy,
)
    requires
        sourced(m, regs, fewer, lo, hi, occ),
        fewer.len() <= more.len(),
        forall|j: int| 0 <= j < fewer.len() ==> fewer[j] == more[j],
    ensures
        sourced(m, regs, more, lo, hi, occ),
{
    assert forall|x: int, pt: int, w: int| #[trigger]
        occupies(m, regs, fewer, lo, hi, x, pt, w) implies occupies(
        m,
        regs,
        more,
        lo,
        hi,
        x,
        pt,
        w,
    ) by {
        if home_holds_at(m, fewer, lo, hi, x, pt, w) {
            assert(fewer[w] == more[w]);
        }
    }
    assert forall|x: int, pt: int| 0 <= x < 128 && 0 <= pt < occ.rows@[x]@.len() implies cell_sourced(
        m,
        regs,
        more,
        lo,
        hi,
        x,
        pt,
        #[trigger] occ.held(x, pt),
    ) by {
        let cell = occ.held(x, pt);
        assert(cell_sourced(m, regs, fewer, lo, hi, x, pt, cell));
        if cell == BLOCKED {
            assert forall|id: int| #[trigger] taken_from(m, regs, more, lo, hi, x, pt, id) by {
                assert(taken_from(m, regs, fewer, lo, hi, x, pt, id));
                if !clobbered_at(m, x, pt) {
                    let w = choose|w: int|
                        w != id && #[trigger] occupies(m, regs, fewer, lo, hi, x, pt, w);
                    assert(occupies(m, regs, more, lo, hi, x, pt, w));
                }
            }
        }
    }
}

/// Where no register is found for a vreg, every register of its class
/// that may be allocated is not free for it.
proof fn lemma_none_fits(
    m: ProgramModel,
    env: &MachineEnv,
    cand: Seq<bool>,
    occ: Occupancy,
    class: RegClass,
    lo: int,
    hi: int,
    owner: u32,
    hint: int,
    x: int,
)
    requires
        cand.len() == 128,
        forall|y: int| 0 <= y < 128 ==> #[trigger] cand[y] == m.candidate(env, class_at(y), y),
        first_home(env, cand, occ, class, lo, hi, owner, hint) is None,
        0 <= x < 128,
        class_at(x) == class,
        m.candidate(env, class, x),
    ensures
        !occ.free_for(x, lo, hi, owner),
{
    let list = env.listed(class);
    let f = |j: int| fit_for_home(cand, occ, class, lo, hi, owner, list[j].spec_index() as int);
    crate::cfg::lemma_first_such(0, list.len() as int, f);
    let at = crate::machine::lemma_listed_upto(list, list.len() as int, x);
    assert(!f(at));
    assert(cand[x]);
}

/// Note for every operand that has a register, and for every clobber,
/// which points of which register it holds.
pub(crate) fn mark_operands(
    p: &Program,
    regs: &Vec<Vec<Option<PReg>>>,
    occ: &mut Occupancy,
    Ghost(lo): Ghost<Seq<usize>>,
    Ghost(hi): Ghost<Seq<usize>>,
)
    requires
        sourced(p@, regs@, Seq::<Allocation>::empty(), lo, hi, *old(occ)),
        p@.wf(),
        regs@.len() == p@.insts.len(),
        forall|i: int|
            0 <= i < regs@.len() ==> (#[trigger] regs@[i])@.len() == p@.insts[i].operands.len(),
        forall|i: int, k: int|
            0 <= i < regs@.len() && 0 <= k < regs@[i]@.len() && (#[trigger] regs@[i]@[k]) is Some
                ==> regs@[i]@[k].unwrap().spec_index() < 128,
        old(occ).shaped(2 * p@.insts.len()),
        clobbers_in_bounds(p@),
    ensures
        final(occ).shaped(2 * p@.insts.len()),
        forall|y: int|
            0 <= y < 128 ==> (#[trigger] final(occ).rows@[y])@.len() == old(occ).rows@[y]@.len(),
        operands_marked(p@, regs@, *final(occ), p@.insts.len() as int),
        clobbers_marked(p@, *final(occ), p@.insts.len() as int),
        sourced(p@, regs@, Seq::<Allocation>::empty(), lo, hi, *final(occ)),
{
    let ghost m = p@;
    let n = p.insts.len();
    let ghost points = 2 * p@.insts.len();
    let ghost nobody = Seq::<Allocation>::empty();
    let mut i: usize = 0;
    while i < n
        invariant
            sourced(m, regs@, nobody, lo, hi, *occ),
            p@.wf(),
            m == p@,
            n == p.insts.len(),
            i <= n,
            points == 2 * m.insts.len(),
            regs@.len() == n,
            forall|i2: int|
                0 <= i2 < regs@.len() ==> (#[trigger] regs@[i2])@.len()
                    == m.insts[i2].operands.len(),
            forall|i2: int, k: int|
                0 <= i2 < regs@.len() && 0 <= k < regs@[i2]@.len() && (
                #[trigger] regs@[i2]@[k]) is Some ==> regs@[i2]@[k].unwrap().spec_index() < 128,
            occ.shaped(points),
            forall|y: int|
                0 <= y < 128 ==> (#[trigger] occ.rows@[y])@.len() == old(occ).rows@[y]@.len(),
            operands_marked(m, regs@, *occ, i as int),
            clobbers_in_bounds(m),
            clobbers_marked(m, *occ, i as int),
        decreases n - i,
    {
        assert(m.insts[i as int] == p.insts@[i as int]@);
        let inst = &p.insts[i];
        let row = &regs[i];
        let mut c: usize = 0;
        while c < inst.clobbers.len()
            invariant
                sourced(m, regs@, nobody, lo, hi, *occ),
                m == p@,
                p@.wf(),
                c <= inst.clobbers.len(),
                i < n,
                n == p.insts.len(),
                points == 2 * m.insts.len(),
                regs@.len() == n,
                forall|i2: int|
                    0 <= i2 < regs@.len() ==> (#[trigger] regs@[i2])@.len()
                        == m.insts[i2].operands.len(),
                forall|i2: int, k: int|
                    0 <= i2 < regs@.len() && 0 <= k < regs@[i2]@.len() && (
                    #[trigger] regs@[i2]@[k]) is Some ==> regs@[i2]@[k].unwrap().spec_index()
                        < 128,
                occ.shaped(points),
                forall|y: int|
                    0 <= y < 128 ==> (#[trigger] occ.rows@[y])@.len() == old(occ).rows@[y]@.len(),
                operands_marked(m, regs@, *occ, i as int),
                inst@ == m.insts[i as int],
                clobbers_in_bounds(m),
                clobbers_marked(m, *occ, i as int),
                forall|c2: int|
                    0 <= c2 < c && occ.has_row(
                        (#[trigger] m.insts[i as int].clobbers[c2]).spec_index() as int,
                    ) ==> occ.held(m.insts[i as int].clobbers[c2].spec_index() as int, 2 * i + 1)
                        == BLOCKED,
            decreases inst.clobbers.len() - c,
        {
            let r = inst.clobbers[c];
            let ghost before = *occ;
            occ.mark(Ghost(points), r.index(), 2 * i + 1, BLOCKED);
            proof {
                assert(clobber_at(m, i as int, c as int, r.spec_index() as int, 2 * i + 1));
                lemma_sourced_noted(m, regs@, nobody, lo, hi, before, *occ, BLOCKED);
                assert(only_noted(before, *occ)) by {
                    assert forall|y: int, q: int|
                        0 <= y < 128 && 0 <= q < before.rows@[y]@.len() implies #[trigger] occ.held(
                        y,
                        q,
                    ) == before.held(y, q) || exists|owner: u32|
                        occ.held(y, q) == noted(before.held(y, q), owner) by {
                        if occ.held(y, q) != before.held(y, q) {
                            assert(occ.held(y, q) == noted(before.held(y, q), BLOCKED));
                        }
                    }
                }
                lemma_marked_stays(m, regs@, before, *occ, i as int);
                lemma_clobbers_stay(m, before, *occ, i as int);
                assert forall|c2: int|
                    0 <= c2 < c + 1 && occ.has_row(
                        (#[trigger] m.insts[i as int].clobbers[c2]).spec_index() as int,
                    ) implies occ.held(
                    m.insts[i as int].clobbers[c2].spec_index() as int,
                    2 * i + 1,
                ) == BLOCKED by {
                    let x = m.insts[i as int].clobbers[c2].spec_index() as int;
                    assert(before.rows@[x]@.len() == occ.rows@[x]@.len());
                    assert(before.rows@[x]@.len() == 2 * m.insts.len());
                    if c2 < c {
                        assert(before.held(x, 2 * i + 1) == BLOCKED);
                    }
                }
            }
            c += 1;
        }
        let mut k: usize = 0;
        while k < inst.operands.len()
            invariant
                sourced(m, regs@, nobody, lo, hi, *occ),
                p@.wf(),
                m == p@,
                i < n,
                n == p.insts.len(),
                points == 2 * m.insts.len(),
                inst@ == m.insts[i as int],
                regs@.len() == n,
                forall|i2: int|
                    0 <= i2 < regs@.len() ==> (#[trigger] regs@[i2])@.len()
                        == m.insts[i2].operands.len(),
                forall|i2: int, k3: int|
                    0 <= i2 < regs@.len() && 0 <= k3 < regs@[i2]@.len() && (
                    #[trigger] regs@[i2]@[k3]) is Some ==> regs@[i2]@[k3].unwrap().spec_index()
                        < 128,
                row@ == regs@[i as int]@,
                row@.len() == inst.operands.len(),
                k <= inst.operands.len(),
                clobbers_in_bounds(m),
                clobbers_marked(m, *occ, i as int + 1),
                occ.shaped(points),
                forall|y: int|
                    0 <= y < 128 ==> (#[trigger] occ.rows@[y])@.len() == old(occ).rows@[y]@.len(),
                operands_marked(m, regs@, *occ, i as int),
                forall|k2: int|
                    0 <= k2 < k && (#[trigger] row@[k2]) is Some && occ.has_row(
                        row@[k2].unwrap().spec_index() as int,
                    ) ==> {
                        let x = row@[k2].unwrap().spec_index() as int;
                        let op = m.insts[i as int].operands[k2];
                        &&& holds_early(op) ==> kept_for(
                            occ.held(x, 2 * i),
                            m.op_vreg(i as int, k2) as int,
                        )
                        &&& holds_late(op) ==> kept_for(
                            occ.held(x, 2 * i + 1),
                            m.op_vreg(i as int, k2) as int,
                        )
                    },
            decreases inst.operands.len() - k,
        {
            let op = inst.operands[k];
            assert(m.insts[i as int].operands[k as int].spec_vreg().spec_vreg() < m.num_vregs);
            let owner: u32 = (op.vreg().vreg() + 1) as u32;
            let ghost before = *occ;
            match row[k] {
                Some(r) => {
                    let x = r.index();
                    if operand_holds_early(op) {
                        occ.mark(Ghost(points), x, 2 * i, owner);
                        proof {
                            assert(operand_holds_at(
                                m,
                                regs@,
                                i as int,
                                k as int,
                                x as int,
                                2 * i,
                                owner - 1,
                            ));
                            lemma_sourced_noted(m, regs@, nobody, lo, hi, before, *occ, owner);
                        }
                    }
                    let ghost middle = *occ;
                    if operand_holds_late(op) {
                        occ.mark(Ghost(points), x, 2 * i + 1, owner);
                        proof {
                            assert(operand_holds_at(
                                m,
                                regs@,
                                i as int,
                                k as int,
                                x as int,
                                2 * i + 1,
                                owner - 1,
                            ));
                            lemma_sourced_noted(m, regs@, nobody, lo, hi, middle, *occ, owner);
                        }
                    }
                    proof {
                        assert(only_noted(before, *occ)) by {
                            assert forall|y: int, q: int|
                                0 <= y < 128 && 0 <= q < before.rows@[y]@.len() implies #[trigger] occ.held(
                                y,
                                q,
                            ) == before.held(y, q) || exists|o: u32|
                                occ.held(y, q) == noted(before.held(y, q), o) by {
                                assert(middle.rows@[y]@.len() == before.rows@[y]@.len());
                                if occ.held(y, q) != before.held(y, q) {
                                    assert(middle.held(y, q) == before.held(y, q) || middle.held(
                                        y,
                                        q,
                                    ) == noted(before.held(y, q), owner));
                                    assert(occ.held(y, q) == noted(before.held(y, q), owner));
                                }
                            }
                        }
                    }
                },
                None => {},
            }
            proof {
                if row@[k as int] is Some {
                    lemma_clobbers_stay(m, before, *occ, i as int + 1);
                    lemma_marked_stays(m, regs@, before, *occ, i as int);
                    assert forall|k2: int|
                        0 <= k2 < k + 1 && (#[trigger] row@[k2]) is Some && occ.has_row(
                            row@[k2].unwrap().spec_index() as int,
                        ) implies {
                        let x = row@[k2].unwrap().spec_index() as int;
                        let op2 = m.insts[i as int].operands[k2];
                        &&& holds_early(op2) ==> kept_for(
                            occ.held(x, 2 * i),
                            m.op_vreg(i as int, k2) as int,
                        )
                        &&& holds_late(op2) ==> kept_for(
                            occ.held(x, 2 * i + 1),
                            m.op_vreg(i as int, k2) as int,
                        )
                    } by {
                        let x = row@[k2].unwrap().spec_index() as int;
                        assert(regs@[i as int]@[k2] is Some);
                        assert(before.rows@[x]@.len() == occ.rows@[x]@.len());
                        assert(before.rows@[x]@.len() == 2 * m.insts.len());
                        let id = m.op_vreg(i as int, k2) as int;
                        assert(kept_for(before.held(x, 2 * i), id) ==> kept_for(
                            occ.held(x, 2 * i),
                            id,
                        ));
                        assert(kept_for(before.held(x, 2 * i + 1), id) ==> kept_for(
                            occ.held(x, 2 * i + 1),
                            id,
                        ));
                    }
                }
            }
            k += 1;
        }
        i += 1;
    }
}

/// Whether every vreg that rests in a register holds that register at
/// every point of its hull.
pub open spec fn homes_held(
    m: ProgramModel,
    homes: Seq<Allocation>,
    h: Hulls,
    occ: Occupancy,
    points: nat,
) -> bool {
    forall|w: int, pt: int|
        0 <= w < homes.len() && m.pin_of(w as usize) is None && homes[w].spec_is_reg() && h.covers(
            w,
            pt,
        ) && 0 <= pt < points ==> #[trigger] occ.held(homes[w].spec_index() as int, pt) == w + 1
}

/// What the homes owe: a pinned vreg rests in the register it is pinned
/// to; a vreg that no operand names has no home; every other vreg rests
/// in a register that may
/// be allocated or in a spill slot below the number of slots, in a slot
/// if it has to rest on the stack; and no two vregs share a slot.
pub open spec fn homes_ok(
    m: ProgramModel,
    env: &MachineEnv,
    mentioned: Seq<bool>,
    on_stack: Seq<bool>,
    homes: Seq<Allocation>,
    slots: int,
) -> bool {
    &&& homes.len() == m.num_vregs
    &&& slots < 0x100_0000
    &&& forall|id: int|
        0 <= id < m.num_vregs ==> match m.pin_of(id as usize) {
            Some(pin) => #[trigger] homes[id] == Allocation::spec_reg(pin),
            None => {
                &&& homes[id].wf()
                &&& !mentioned[id] ==> homes[id].spec_is_none()
                &&& mentioned[id] ==> homes[id].spec_is_reg() || homes[id].spec_is_stack()
                &&& mentioned[id] && on_stack[id] ==> homes[id].spec_is_stack()
                &&& homes[id].spec_is_reg() ==> m.candidate(
                    env,
                    class_at(homes[id].spec_index() as int),
                    homes[id].spec_index() as int,
                )
                &&& homes[id].spec_is_stack() ==> homes[id].spec_as_stack().unwrap().spec_index()
                    < slots
            },
        }
    &&& forall|id1: int, id2: int|
        0 <= id1 < id2 < m.num_vregs && (#[trigger] homes[id1]).spec_is_stack() && (
        #[trigger] homes[id2]).spec_is_stack() ==> homes[id1] != homes[id2]
}

/// Whether the two spare slots are the home of no vreg.
pub open spec fn spares_apart(
    homes: Seq<Allocation>,
    spare_int: SpillSlot,
    spare_float: SpillSlot,
) -> bool {
    forall|id: int|
        0 <= id < homes.len() ==> #[trigger] homes[id] != Allocation::spec_stack(spare_int)
            && homes[id] != Allocation::spec_stack(spare_float)
}

/// The first multiple of `size` that is not below `next`.
fn align_up(next: usize, size: usize) -> (r: usize)
    requires
        1 <= size < 0x100_0000,
        next < 0x100_0000,
    ensures
        next <= r < next + size,
        r % size == 0,
        r == aligned(next as int, size as int),
{
    let rem = next % size;
    assert(rem < size) by (nonlinear_arith)
        requires
            rem == next % size,
            size > 0,
    ;
    if rem == 0 {
        next
    } else {
        proof {
            let q = next as int / size as int;
            vstd::arithmetic::div_mod::lemma_fundamental_div_mod(next as int, size as int);
            assert(next + (size - rem) == size * (q + 1)) by (nonlinear_arith)
                requires
                    next == size * q + rem,
            ;
            vstd::arithmetic::div_mod::lemma_mod_multiples_basic(q + 1, size as int);
            assert(size * (q + 1) == (q + 1) * size) by (nonlinear_arith);
        }
        next + (size - rem)
    }
}

/// The first register of the class that is free for `owner` from point
/// `lo` to point `hi`, if there is one: the hinted register comes
/// first, then the preferred ones, then the others.
fn choose_reg(
    env: &MachineEnv,
    cand: &Vec<bool>,
    occ: &Occupancy,
    Ghost(points): Ghost<nat>,
    class: RegClass,
    lo: usize,
    hi: usize,
    owner: u32,
    hint: usize,
) -> (r: Option<PReg>)
    requires
        cand@.len() == 128,
        occ.shaped(points),
    ensures
        match r {
            Some(reg) => reg.wf() && reg.spec_index() < 128 && cand@[reg.spec_index() as int]
                && class_at(reg.spec_index() as int) == class && occ.free_for(
                reg.spec_index() as int,
                lo as int,
                hi as int,
                owner,
            ),
            None => true,
        },
        r == first_home(env, cand@, *occ, class, lo as int, hi as int, owner, hint as int),
{
    let ci: usize = class.bit() as usize;
    if hint < 128 && hint / 64 == ci && cand[hint] && occ.is_free(
        Ghost(points),
        hint,
        lo,
        hi,
        owner,
    ) {
        return Some(PReg::from_index(hint));
    }
    let first = &env.preferred_regs_by_class[ci];
    let second = &env.non_preferred_regs_by_class[ci];
    let ghost n = env.listed(class).len() as int;
    let ghost f = |j: int|
        fit_for_home(
            cand@,
            *occ,
            class,
            lo as int,
            hi as int,
            owner,
            env.listed(class)[j].spec_index() as int,
        );
    let mut j: usize = 0;
    while j < first.len()
        invariant
            ci < 2,
            class.spec_bit() == ci,
            cand@.len() == 128,
            occ.shaped(points),
            env.listed(class) == first@ + second@,
            n == first@.len() + second@.len(),
            !fit_for_home(cand@, *occ, class, lo as int, hi as int, owner, hint as int),
            j <= first.len(),
            f == |j: int|
                fit_for_home(
                    cand@,
                    *occ,
                    class,
                    lo as int,
                    hi as int,
                    owner,
                    env.listed(class)[j].spec_index() as int,
                ),
            first_such(0, n, f) == first_such(j as int, n, f),
        decreases first.len() - j,
    {
        let reg = first[j];
        assert(env.listed(class)[j as int] == first@[j as int]);
        proof {
            use_type_invariant(&reg);
            crate::regs::lemma_preg_determined(reg);
        }
        let x = reg.index();
        if x / 64 == ci && cand[x] && occ.is_free(Ghost(points), x, lo, hi, owner) {
            assert(f(j as int));
            return Some(reg);
        }
        assert(!f(j as int));
        j += 1;
    }
    let mut j: usize = 0;
    while j < second.len()
        invariant
            ci < 2,
            class.spec_bit() == ci,
            cand@.len() == 128,
            occ.shaped(points),
            env.listed(class) == first@ + second@,
            n == first@.len() + second@.len(),
            !fit_for_home(cand@, *occ, class, lo as int, hi as int, owner, hint as int),
            j <= second.len(),
            f == |j: int|
                fit_for_home(
                    cand@,
                    *occ,
                    class,
                    lo as int,
                    hi as int,
                    owner,
                    env.listed(class)[j].spec_index() as int,
                ),
            first_such(0, n, f) == first_such(first@.len() + j, n, f),
        decreases second.len() - j,
    {
        let reg = second[j];
        assert(env.listed(class)[first@.len() + j] == second@[j as int]);
        proof {
            use_type_invariant(&reg);
            crate::regs::lemma_preg_determined(reg);
        }
        let x = reg.index();
        if x / 64 == ci && cand[x] && occ.is_free(Ghost(points), x, lo, hi, owner) {
            assert(f(first@.len() + j));
            return Some(reg);
        }
        assert(!f(first@.len() + j));
        j += 1;
    }
    None
}

/// Whether the register at `x` can become the home of `owner`: it is a
/// candidate of the class, and free for the owner from point `lo` to
/// point `hi`.
pub open spec fn fit_for_home(
    cand: Seq<bool>,
    occ: Occupancy,
    class: RegClass,
    lo: int,
    hi: int,
    owner: u32,
    x: int,
) -> bool {
    0 <= x < 128 && class_at(x) == class && cand[x] && occ.free_for(x, lo, hi, owner)
}

/// The register that becomes the home of `owner`: the hinted one if it
/// can, else the first of the machine's list for the class that can,
/// the preferred registers coming first; none if none can.
pub open spec fn first_home(
    env: &MachineEnv,
    cand: Seq<bool>,
    occ: Occupancy,
    class: RegClass,
    lo: int,
    hi: int,
    owner: u32,
    hint: int,
) -> Option<PReg> {
    if fit_for_home(cand, occ, class, lo, hi, owner, hint) {
        Some(PReg::spec_from_index(hint as nat))
    } else if first_such(
        0,
        env.listed(class).len() as int,
        |j: int| fit_for_home(cand, occ, class, lo, hi, owner, env.listed(class)[j].spec_index() as int),
    ) < env.listed(class).len() {
        Some(
            env.listed(class)[first_such(
                0,
                env.listed(class).len() as int,
                |j: int|
                    fit_for_home(
                        cand,
                        occ,
                        class,
                        lo,
                        hi,
                        owner,
                        env.listed(class)[j].spec_index() as int,
                    ),
            )],
        )
    } else {
        None
    }
}

/// The first multiple of `size` that is not below `next`.
pub open spec fn aligned(next: int, size: int) -> int {
    if next % size == 0 {
        next
    } else {
        next + size - next % size
    }
}

/// How many spill slots a value of the class takes.
pub open spec fn slot_size(m: ProgramModel, class: RegClass) -> int {
    match class {
        RegClass::Int => m.spillslot_size_int as int,
        RegClass::Float => m.spillslot_size_float as int,
    }
}

/// The number of spill slots that the homes of the first `id` vregs
/// reach over: the vregs that rest on the stack take their slots in
/// the order of their ids, each as many as its class asks for, from
/// the next multiple of that number on.
pub open spec fn slots_taken(m: ProgramModel, homes: Seq<Allocation>, id: int) -> int
    decreases id,
{
    if id <= 0 {
        0
    } else if homes[id - 1].spec_is_stack() {
        aligned(slots_taken(m, homes, id - 1), slot_size(m, homes[id - 1].spec_class()))
            + slot_size(m, homes[id - 1].spec_class())
    } else {
        slots_taken(m, homes, id - 1)
    }
}

/// The slot in which the vreg rests, if it rests on the stack: the
/// first or the last of the slots it takes, as the program names them.
pub open spec fn slot_for(m: ProgramModel, homes: Seq<Allocation>, id: int) -> SpillSlot {
    let class = homes[id].spec_class();
    let start = aligned(slots_taken(m, homes, id), slot_size(m, class));
    if m.multi_spillslot_named_by_last_slot {
        SpillSlot::spec_new((start + slot_size(m, class) - 1) as nat, class)
    } else {
        SpillSlot::spec_new(start as nat, class)
    }
}

/// Where the slots are: every vreg that rests on the stack rests in
/// the slot that its turn gives it; after them comes one spare slot of
/// each class for the moves; and the number of slots is zero where no
/// vreg rests on the stack, and else reaches over the spare slots too.
pub open spec fn slots_exact(
    m: ProgramModel,
    homes: Seq<Allocation>,
    slots: int,
    spare_int: SpillSlot,
    spare_float: SpillSlot,
) -> bool {
    let used = slots_taken(m, homes, homes.len() as int);
    let first = aligned(used, m.spillslot_size_int as int);
    let second = aligned(first + m.spillslot_size_int, m.spillslot_size_float as int);
    &&& forall|id: int|
        0 <= id < homes.len() && (#[trigger] homes[id]).spec_is_stack() ==> homes[id]
            == Allocation::spec_stack(slot_for(m, homes, id))
    &&& spare_int == SpillSlot::spec_new(first as nat, RegClass::Int)
    &&& spare_float == SpillSlot::spec_new(second as nat, RegClass::Float)
    &&& slots == if used == 0 {
        0
    } else {
        second + m.spillslot_size_float
    }
}

/// The slots that the first vregs take are the same in two lists of
/// homes that are the same for these vregs.
pub proof fn lemma_slots_prefix(m: ProgramModel, a: Seq<Allocation>, b: Seq<Allocation>, id: int)
    requires
        0 <= id <= a.len(),
        id <= b.len(),
        forall|j: int| 0 <= j < id ==> a[j] == b[j],
    ensures
        slots_taken(m, a, id) == slots_taken(m, b, id),
    decreases id,
{
    if id > 0 {
        lemma_slots_prefix(m, a, b, id - 1);
        assert(a[id - 1] == b[id - 1]);
    }
}

/// How many of the first `id` vregs rest on the stack.
pub open spec fn stack_homes(homes: Seq<Allocation>, id: int) -> int
    decreases id,
{
    if id <= 0 {
        0
    } else {
        stack_homes(homes, id - 1) + if homes[id - 1].spec_is_stack() {
            1int
        } else {
            0int
        }
    }
}

/// How many of the first `id` vregs are not pinned and rest in a register.
pub open spec fn register_homes(m: ProgramModel, homes: Seq<Allocation>, id: int) -> int
    decreases id,
{
    if id <= 0 {
        0
    } else {
        register_homes(m, homes, id - 1) + if m.pin_of((id - 1) as usize) is None && homes[id
            - 1].spec_is_reg() {
            1int
        } else {
            0int
        }
    }
}

/// The counts of the first vregs are the same in two lists of homes
/// that are the same for these vregs.
pub proof fn lemma_counts_prefix(m: ProgramModel, a: Seq<Allocation>, b: Seq<Allocation>, id: int)
    requires
        0 <= id <= a.len(),
        id <= b.len(),
        forall|j: int| 0 <= j < id ==> a[j] == b[j],
    ensures
        stack_homes(a, id) == stack_homes(b, id),
        register_homes(m, a, id) == register_homes(m, b, id),
    decreases id,
{
    if id > 0 {
        lemma_counts_prefix(m, a, b, id - 1);
        assert(a[id - 1] == b[id - 1]);
    }
}

/// The homes of all vregs, with the number of spill slots they take,
/// and one further slot of each class for the moves, which is counted
/// among the slots where a vreg rests on the stack.
pub struct Homes {
    pub homes: Vec<Allocation>,
    pub num_spillslots: usize,
    pub spare_int: SpillSlot,
    pub spare_float: SpillSlot,
    pub in_registers: usize,
    pub spilled: usize,
}

/// Give every vreg its home: a pinned vreg its register; every other
/// vreg the first register that is free at all points of its hull, if
/// it may rest in a register and there is one; else a spill slot.
pub(crate) fn choose_homes(
    p: &Program,
    env: &MachineEnv,
    pins: &Vec<Option<PReg>>,
    cand: &Vec<bool>,
    facts: &VregFacts,
    hulls: &Hulls,
    hints: &Vec<usize>,
    occ: &mut Occupancy,
    Ghost(regs): Ghost<Seq<Vec<Option<PReg>>>>,
) -> (r: Homes)
    requires
        p@.wf(),
        regs.len() == p@.insts.len(),
        forall|i: int|
            0 <= i < regs.len() ==> (#[trigger] regs[i])@.len() == p@.insts[i].operands.len(),
        forall|i: int, k: int|
            0 <= i < regs.len() && 0 <= k < regs[i]@.len() && (#[trigger] regs[i]@[k]) is Some
                ==> regs[i]@[k].unwrap().spec_index() < 128,
        operands_marked(p@, regs, *old(occ), p@.insts.len() as int),
        clobbers_in_bounds(p@),
        clobbers_marked(p@, *old(occ), p@.insts.len() as int),
        pins@.len() == p@.num_vregs,
        forall|id: int| 0 <= id < p@.num_vregs ==> #[trigger] pins@[id] == p@.pin_of(id as usize),
        cand@.len() == 128,
        forall|x: int| 0 <= x < 128 ==> #[trigger] cand@[x] == p@.candidate(env, class_at(x), x),
        facts.mentioned@.len() == p@.num_vregs,
        facts.on_stack@.len() == p@.num_vregs,
        facts.class@.len() == p@.num_vregs,
        hulls.shaped(p@),
        hints@.len() == p@.num_vregs,
        old(occ).shaped(2 * p@.insts.len()),
        forall|x: int| 0 <= x < 128 && cand@[x] ==> (#[trigger] old(occ).rows@[x])@.len() == 2 * p@.insts.len(),
        sourced(p@, regs, Seq::<Allocation>::empty(), hulls.lo@, hulls.hi@, *old(occ)),
        facts.covers(p@),
    ensures
        homes_ok(
            p@,
            env,
            facts.mentioned@,
            facts.on_stack@,
            r.homes@,
            r.num_spillslots as int,
        ),
        r.spare_int.spec_is_valid(),
        r.spare_float.spec_is_valid(),
        r.spare_int.wf(),
        r.spare_float.wf(),
        spares_apart(r.homes@, r.spare_int, r.spare_float),
        final(occ).shaped(2 * p@.insts.len()),
        forall|y: int|
            0 <= y < 128 ==> (#[trigger] final(occ).rows@[y])@.len() == old(occ).rows@[y]@.len(),
        operands_marked(p@, regs, *final(occ), p@.insts.len() as int),
        clobbers_marked(p@, *final(occ), p@.insts.len() as int),
        homes_held(p@, r.homes@, *hulls, *final(occ), 2 * p@.insts.len()),
        slots_exact(p@, r.homes@, r.num_spillslots as int, r.spare_int, r.spare_float),
        r.spilled == stack_homes(r.homes@, p@.num_vregs as int),
        r.in_registers == register_homes(p@, r.homes@, p@.num_vregs as int),
        stack_forced(
            p@,
            env,
            regs,
            facts.on_stack@,
            r.homes@,
            hulls.lo@,
            hulls.hi@,
            p@.num_vregs as int,
        ),
{
    let v = p.num_vregs;
    let ghost m = p@;
    let ghost points = 2 * p@.insts.len();
    let size_int = p.spillslot_size_int;
    let size_float = p.spillslot_size_float;
    assert(size_int + size_float < 0x40_0000) by (nonlinear_arith)
        requires
            2 * (v + 2) * (size_int + size_float) < 0x100_0000,
            v >= 0,
    ;
    let unit: usize = 2 * (size_int + size_float);
    let by_last = p.multi_spillslot_named_by_last_slot;
    let mut homes: Vec<Allocation> = Vec::new();
    let mut next: usize = 0;
    let mut in_registers: usize = 0;
    let mut spilled: usize = 0;
    let mut id: usize = 0;
    assert((v + 2) * unit < 0x100_0000) by (nonlinear_arith)
        requires
            2 * (v + 2) * (size_int + size_float) < 0x100_0000,
            unit == 2 * (size_int + size_float),
    ;
    while id < v
        invariant
            p@.wf(),
            m == p@,
            id <= v,
            v == p@.num_vregs,
            pins@.len() == v,
            forall|j: int| 0 <= j < v ==> #[trigger] pins@[j] == m.pin_of(j as usize),
            cand@.len() == 128,
            forall|x: int| 0 <= x < 128 ==> #[trigger] cand@[x] == m.candidate(env, class_at(x), x),
            facts.mentioned@.len() == v,
            facts.on_stack@.len() == v,
            facts.class@.len() == v,
            hulls.shaped(m),
            hints@.len() == v,
            occ.shaped(points),
            points == 2 * m.insts.len(),
            regs.len() == m.insts.len(),
            forall|i: int|
                0 <= i < regs.len() ==> (#[trigger] regs[i])@.len() == m.insts[i].operands.len(),
            forall|i: int, k: int|
                0 <= i < regs.len() && 0 <= k < regs[i]@.len() && (#[trigger] regs[i]@[k]) is Some
                    ==> regs[i]@[k].unwrap().spec_index() < 128,
            forall|y: int|
                0 <= y < 128 ==> (#[trigger] occ.rows@[y])@.len() == old(occ).rows@[y]@.len(),
            operands_marked(m, regs, *occ, m.insts.len() as int),
            clobbers_in_bounds(m),
            clobbers_marked(m, *occ, m.insts.len() as int),
            homes_held(m, homes@, *hulls, *occ, points),
            forall|w: int|
                0 <= w < homes@.len() && m.pin_of(w as usize) is None && (
                #[trigger] homes@[w]).spec_is_reg() ==> occ.rows@[homes@[w].spec_index() as int]@.len()
                    == points,
            size_int == m.spillslot_size_int,
            size_float == m.spillslot_size_float,
            unit == 2 * (size_int + size_float),
            (v + 2) * unit < 0x100_0000,
            next <= id * unit,
            in_registers <= id,
            spilled <= id,
            homes@.len() == id,
            facts.covers(m),
            sourced(m, regs, homes@, hulls.lo@, hulls.hi@, *occ),
            stack_forced(m, env, regs, facts.on_stack@, homes@, hulls.lo@, hulls.hi@, id as int),
            forall|x: int| 0 <= x < 128 && cand@[x] ==> (#[trigger] occ.rows@[x])@.len() == points,
            by_last == m.multi_spillslot_named_by_last_slot,
            1 <= size_int,
            1 <= size_float,
            next == slots_taken(m, homes@, id as int),
            spilled == 0 <==> next == 0,
            spilled == stack_homes(homes@, id as int),
            in_registers == register_homes(m, homes@, id as int),
            forall|j: int|
                0 <= j < id && (#[trigger] homes@[j]).spec_is_stack() ==> homes@[j]
                    == Allocation::spec_stack(slot_for(m, homes@, j)),
            forall|j: int|
                0 <= j < id ==> match m.pin_of(j as usize) {
                    Some(pin) => #[trigger] homes@[j] == Allocation::spec_reg(pin),
                    None => {
                        &&& homes@[j].wf()
                        &&& !facts.mentioned@[j] ==> homes@[j].spec_is_none()
                        &&& facts.mentioned@[j] ==> homes@[j].spec_is_reg()
                            || homes@[j].spec_is_stack()
                        &&& facts.mentioned@[j] && facts.on_stack@[j] ==> homes@[j].spec_is_stack()
                        &&& homes@[j].spec_is_reg() ==> m.candidate(
                            env,
                            class_at(homes@[j].spec_index() as int),
                            homes@[j].spec_index() as int,
                        )
                        &&& homes@[j].spec_is_stack()
                            ==> homes@[j].spec_as_stack().unwrap().spec_index() < next
                    },
                },
            forall|j: int|
                0 <= j < id && (#[trigger] homes@[j]).spec_is_stack()
                    ==> homes@[j].spec_as_stack().unwrap().spec_index() < next,
            forall|j1: int, j2: int|
                0 <= j1 < j2 < id && (#[trigger] homes@[j1]).spec_is_stack() && (
                #[trigger] homes@[j2]).spec_is_stack() ==> homes@[j1] != homes@[j2],
        decreases v - id,
    {
        assert(next + unit <= (id + 1) * unit) by (nonlinear_arith)
            requires
                next <= id * unit,
        ;
        assert((id + 1) * unit <= (v + 2) * unit) by (nonlinear_arith)
            requires
                id < v,
        ;
        let ghost homes0 = homes@;
        let ghost next0 = next;
        let ghost occ0 = *occ;
        let ghost mut taken = false;
        match pins[id] {
            Some(pin) => {
                homes.push(Allocation::reg(pin));
            },
            None => {
                if !facts.mentioned[id] {
                    homes.push(Allocation::none());
                } else {
                    let class = facts.class[id];
                    let owner: u32 = (id + 1) as u32;
                    let lo = hulls.lo[id];
                    let hi = hulls.hi[id];
                    let found = if facts.on_stack[id] {
                        None
                    } else {
                        choose_reg(env, cand, occ, Ghost(points), class, lo, hi, owner, hints[id])
                    };
                    match found {
                        Some(reg) => {
                            occ.take(Ghost(points), reg.index(), lo, hi, owner);
                            homes.push(Allocation::reg(reg));
                            in_registers += 1;
                            proof {
                                taken = true;
                                let x = reg.spec_index() as int;
                                lemma_sourced_more(m, regs, homes0, homes@, hulls.lo@, hulls.hi@, occ0);
                                assert forall|q: int| lo <= q <= hi implies #[trigger] occupies(
                                    m,
                                    regs,
                                    homes@,
                                    hulls.lo@,
                                    hulls.hi@,
                                    x,
                                    q,
                                    owner - 1,
                                ) by {
                                    assert(home_holds_at(
                                        m,
                                        homes@,
                                        hulls.lo@,
                                        hulls.hi@,
                                        x,
                                        q,
                                        id as int,
                                    ));
                                }
                                lemma_sourced_noted(
                                    m,
                                    regs,
                                    homes@,
                                    hulls.lo@,
                                    hulls.hi@,
                                    occ0,
                                    *occ,
                                    owner,
                                );
                                assert(only_noted(occ0, *occ)) by {
                                    assert forall|y: int, q: int|
                                        0 <= y < 128 && 0 <= q < occ0.rows@[y]@.len() implies #[trigger] occ.held(
                                        y,
                                        q,
                                    ) == occ0.held(y, q) || exists|o: u32|
                                        occ.held(y, q) == noted(occ0.held(y, q), o) by {
                                        if occ.held(y, q) != occ0.held(y, q) {
                                            assert(occ.held(y, q) == noted(occ0.held(y, q), owner));
                                        }
                                    }
                                }
                                lemma_marked_stays(m, regs, occ0, *occ, m.insts.len() as int);
                                lemma_clobbers_stay(m, occ0, *occ, m.insts.len() as int);
                                assert forall|w: int, pt: int|
                                    0 <= w < homes@.len() && m.pin_of(w as usize) is None
                                        && homes@[w].spec_is_reg() && hulls.covers(w, pt) && 0
                                        <= pt < points implies #[trigger] occ.held(
                                    homes@[w].spec_index() as int,
                                    pt,
                                ) == w + 1 by {
                                    if w < id {
                                        assert(homes@[w] == homes0[w]);
                                        let xw = homes0[w].spec_index() as int;
                                        assert(occ0.held(xw, pt) == w + 1);
                                        assert(m.candidate(env, class_at(xw), xw));
                                        assert(occ0.rows@[xw]@.len() == points);
                                        assert(occ0.rows@[xw]@.len() == occ.rows@[xw]@.len());
                                        if xw == x && lo <= pt <= hi {
                                            assert(occ0.held(x, pt) == 0 || occ0.held(x, pt)
                                                == owner);
                                        }
                                    } else {
                                        assert(occ0.rows@[x]@.len() == points);
                                        assert(occ0.held(x, pt) == 0 || occ0.held(x, pt) == owner);
                                    }
                                }
                            }
                        },
                        None => {
                            let size = match class {
                                RegClass::Int => size_int,
                                RegClass::Float => size_float,
                            };
                            let start = align_up(next, size);
                            let name = if by_last {
                                start + size - 1
                            } else {
                                start
                            };
                            next = start + size;
                            let slot = SpillSlot::new(name, class);
                            homes.push(Allocation::stack(slot));
                            spilled += 1;
                            proof {
                                assert(homes@.take(id as int) =~= homes0);
                                if !facts.on_stack@[id as int] {
                                    assert forall|x: int|
                                        0 <= x < 128 && class_at(x) == homes@[id as int].spec_class()
                                            && m.candidate(
                                            env,
                                            class_at(x),
                                            x,
                                        ) implies #[trigger] contested(
                                        m,
                                        regs,
                                        homes@.take(id as int),
                                        hulls.lo@,
                                        hulls.hi@,
                                        x,
                                        id as int,
                                    ) by {
                                        lemma_none_fits(
                                            m,
                                            env,
                                            cand@,
                                            occ0,
                                            class,
                                            lo as int,
                                            hi as int,
                                            owner,
                                            hints@[id as int] as int,
                                            x,
                                        );
                                        assert(cand@[x]);
                                        assert(occ0.rows@[x]@.len() == points);
                                        assert(named(m, id as int));
                                        let (i0, k0) = choose|i0: int, k0: int| #[trigger]
                                            names(m, i0, k0, id as int);
                                        assert(names(m, i0, k0, id as int));
                                        assert(occ0.has_row(x));
                                        let pt = choose|pt: int|
                                            lo <= pt <= hi && 0 <= pt < occ0.rows@[x]@.len() && !(
                                            #[trigger] occ0.held(x, pt) == 0 || occ0.held(x, pt)
                                                == owner);
                                        assert(cell_sourced(
                                            m,
                                            regs,
                                            homes0,
                                            hulls.lo@,
                                            hulls.hi@,
                                            x,
                                            pt,
                                            occ0.held(x, pt),
                                        ));
                                        assert(taken_from(
                                            m,
                                            regs,
                                            homes0,
                                            hulls.lo@,
                                            hulls.hi@,
                                            x,
                                            pt,
                                            id as int,
                                        ));
                                    }
                                }
                            }
                        },
                    }
                }
            },
        }
        proof {
            assert(homes@ == homes0.push(homes@[id as int]));
            if !taken {
                lemma_sourced_more(m, regs, homes0, homes@, hulls.lo@, hulls.hi@, occ0);
            }
            assert forall|j: int|
                0 <= j < id + 1 && m.pin_of(j as usize) is None && (
                #[trigger] homes@[j]).spec_is_stack() && !facts.on_stack@[j] implies forced(
                m,
                env,
                regs,
                homes@,
                hulls.lo@,
                hulls.hi@,
                j,
            ) by {
                if j < id {
                    assert(homes@[j] == homes0[j]);
                    assert(homes@.take(j) =~= homes0.take(j));
                    assert(forced(m, env, regs, homes0, hulls.lo@, hulls.hi@, j));
                }
            }
            lemma_slots_prefix(m, homes0, homes@, id as int);
            lemma_counts_prefix(m, homes0, homes@, id as int);
            assert(next == slots_taken(m, homes@, id + 1));
            assert forall|j: int|
                0 <= j < id + 1 && (#[trigger] homes@[j]).spec_is_stack() implies homes@[j]
                == Allocation::spec_stack(slot_for(m, homes@, j)) by {
                lemma_slots_prefix(m, homes0, homes@, j);
                if j < id {
                    assert(homes@[j] == homes0[j]);
                }
            }
            assert forall|w: int|
                0 <= w < homes@.len() && m.pin_of(w as usize) is None && (
                #[trigger] homes@[w]).spec_is_reg() implies occ.rows@[homes@[w].spec_index() as int]@.len()
                == points by {
                if w < id {
                    assert(homes@[w] == homes0[w]);
                    let xw = homes0[w].spec_index() as int;
                    assert(m.candidate(env, class_at(xw), xw));
                    assert(occ0.rows@[xw]@.len() == occ.rows@[xw]@.len());
                }
            }
            if !taken {
                assert(*occ == occ0);
                assert forall|w: int, pt: int|
                    0 <= w < homes@.len() && m.pin_of(w as usize) is None
                        && homes@[w].spec_is_reg() && hulls.covers(w, pt) && 0 <= pt
                        < points implies #[trigger] occ.held(homes@[w].spec_index() as int, pt)
                    == w + 1 by {
                    if w < id {
                        assert(homes@[w] == homes0[w]);
                    }
                }
            }
            assert forall|j: int| 0 <= j < id + 1 implies match m.pin_of(j as usize) {
                Some(pin) => #[trigger] homes@[j] == Allocation::spec_reg(pin),
                None => {
                    &&& homes@[j].wf()
                    &&& !facts.mentioned@[j] ==> homes@[j].spec_is_none()
                    &&& facts.mentioned@[j] ==> homes@[j].spec_is_reg()
                        || homes@[j].spec_is_stack()
                    &&& facts.mentioned@[j] && facts.on_stack@[j] ==> homes@[j].spec_is_stack()
                    &&& homes@[j].spec_is_reg() ==> m.candidate(
                        env,
                        class_at(homes@[j].spec_index() as int),
                        homes@[j].spec_index() as int,
                    )
                    &&& homes@[j].spec_is_stack()
                        ==> homes@[j].spec_as_stack().unwrap().spec_index() < next
                },
            } by {
                if j < id {
                    assert(homes@[j] == homes0[j]);
                }
            }
            assert forall|j: int|
                0 <= j < id + 1 && (#[trigger] homes@[j]).spec_is_stack() implies homes@[j].spec_as_stack().unwrap().spec_index()
                < next by {
                if j < id {
                    assert(homes@[j] == homes0[j]);
                }
            }
            assert forall|j1: int, j2: int|
                0 <= j1 < j2 < id + 1 && (#[trigger] homes@[j1]).spec_is_stack() && (
                #[trigger] homes@[j2]).spec_is_stack() implies homes@[j1] != homes@[j2] by {
                assert(homes@[j1] == homes0[j1]);
                if j2 < id {
                    assert(homes@[j2] == homes0[j2]);
                } else {
                    assert(homes0[j1].spec_as_stack().unwrap().spec_index() < next0);
                    assert(homes@[j2].spec_as_stack().unwrap().spec_index() >= next0);
                }
            }
        }
        id += 1;
    }
    assert(next + unit <= (v + 1) * unit) by (nonlinear_arith)
        requires
            next <= v * unit,
    ;
    assert((v + 1) * unit + unit == (v + 2) * unit) by (nonlinear_arith);
    let used = next;
    let start = align_up(next, size_int);
    let spare_int = SpillSlot::new(start, RegClass::Int);
    next = start + size_int;
    let start = align_up(next, size_float);
    let spare_float = SpillSlot::new(start, RegClass::Float);
    next = start + size_float;
    proof {
        crate::regs::lemma_preg_new_fields(0, RegClass::Int);
        crate::allocation::lemma_allocation_reg_stack_round_trip(
            PReg::spec_new(0, RegClass::Int),
            spare_int,
        );
        crate::allocation::lemma_allocation_reg_stack_round_trip(
            PReg::spec_new(0, RegClass::Int),
            spare_float,
        );
        assert forall|id: int| 0 <= id < homes@.len() implies #[trigger] homes@[id]
            != Allocation::spec_stack(spare_int) && homes@[id] != Allocation::spec_stack(
            spare_float,
        ) by {
            if homes@[id].spec_is_stack() {
                assert(homes@[id].spec_as_stack().unwrap().spec_index() < used);
            }
        }
    }
    // where no vreg rests on the stack, no move asks for a spare slot
    let num_spillslots = if spilled == 0 {
        used
    } else {
        next
    };
    Homes { homes, num_spillslots, spare_int, spare_float, in_registers, spilled }
}

} // verus!
