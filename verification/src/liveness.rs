//! Liveness: at which points of the program the value of a vreg is still needed.

use vstd::prelude::*;
use vstd::set_lib::lemma_len_subset;
use crate::cfg::lemma_blocks_well_formed;
use crate::function::{Program, ProgramModel};
use crate::operand::OperandKind;
use crate::regs::PReg;
use crate::ssa::filled;

verus! {

impl ProgramModel {
    /// Whether operand `k` of instruction `i` reads the vreg with the
    /// given id. Pinned vregs are left out of liveness altogether.
    pub open spec fn op_uses(self, i: int, k: int, id: usize) -> bool {
        let op = self.insts[i].operands[k];
        op.spec_kind() != OperandKind::Def && op.spec_vreg().spec_vreg() == id && !self.is_pinned(
            id,
        )
    }

    /// Whether operand `k` of instruction `i` writes the vreg with the given id.
    pub open spec fn op_defines(self, i: int, k: int, id: usize) -> bool {
        let op = self.insts[i].operands[k];
        op.spec_kind() != OperandKind::Use && op.spec_vreg().spec_vreg() == id && !self.is_pinned(
            id,
        )
    }

    /// Whether one of the first `k` operands of instruction `i` reads the vreg.
    pub open spec fn uses_upto(self, i: int, k: int, id: usize) -> bool
        decreases k,
    {
        k > 0 && (self.uses_upto(i, k - 1, id) || self.op_uses(i, k - 1, id))
    }

    /// Whether instruction `i` reads the vreg.
    pub open spec fn uses(self, i: int, id: usize) -> bool {
        self.uses_upto(i, self.insts[i].operands.len() as int, id)
    }

    /// Whether one of the first `k` operands of instruction `i` writes the vreg.
    pub open spec fn defines_upto(self, i: int, k: int, id: usize) -> bool
        decreases k,
    {
        k > 0 && (self.defines_upto(i, k - 1, id) || self.op_defines(i, k - 1, id))
    }

    /// Whether instruction `i` writes the vreg.
    pub open spec fn defines(self, i: int, id: usize) -> bool {
        self.defines_upto(i, self.insts[i].operands.len() as int, id)
    }

    /// Whether one of the first `k` parameters of block `b` is the vreg.
    pub open spec fn param_upto(self, b: int, k: int, id: usize) -> bool
        decreases k,
    {
        k > 0 && (self.param_upto(b, k - 1, id) || self.blocks[b].params[k - 1].spec_vreg() == id)
    }

    /// Whether the vreg is a parameter of block `b`.
    pub open spec fn is_param(self, b: int, id: usize) -> bool {
        self.param_upto(b, self.blocks[b].params.len() as int, id)
    }

    /// Whether the vreg is live before instruction `i` of block `b`: some
    /// path of at most `fuel` further instructions leads from there to
    /// an instruction that reads the vreg, through none that writes it,
    /// and into no block of which it is a parameter.
    pub open spec fn live_before(self, b: int, i: int, id: usize, fuel: nat) -> bool
        decreases fuel, 1int,
    {
        self.uses(i, id) || (!self.defines(i, id) && self.live_after(b, i, id, fuel))
    }

    /// Whether the vreg is live after instruction `i` of block `b`.
    pub open spec fn live_after(self, b: int, i: int, id: usize, fuel: nat) -> bool
        decreases fuel, 0int,
    {
        fuel > 0 && if i + 1 < self.blocks[b].insns.1.0 {
            self.live_before(b, i + 1, id, (fuel - 1) as nat)
        } else {
            self.live_out_upto(b, self.blocks[b].succs.len() as int, id, (fuel - 1) as nat)
        }
    }

    /// Whether the vreg is live into one of the first `s` successors of block `b`.
    pub open spec fn live_out_upto(self, b: int, s: int, id: usize, fuel: nat) -> bool
        decreases fuel, 2 + if s > 0 { s } else { 0 },
    {
        s > 0 && (self.live_out_upto(b, s - 1, id, fuel) || {
            let sb = self.blocks[b].succs[s - 1].0 as int;
            !self.is_param(sb, id) && self.live_before(
                sb,
                self.blocks[sb].insns.0.0 as int,
                id,
                fuel,
            )
        })
    }

    /// Whether the vreg is live at the start of block `b`.
    pub open spec fn live_in(self, b: int, id: usize) -> bool {
        exists|fuel: nat| self.live_before(b, self.blocks[b].insns.0.0 as int, id, fuel)
    }

    /// Whether the vreg is live after instruction `i` of block `b`.
    pub open spec fn live_past(self, b: int, i: int, id: usize) -> bool {
        exists|fuel: nat| self.live_after(b, i, id, fuel)
    }

    /// Whether the vreg is live at the end of block `b`: live into one
    /// of its successors, and no parameter of that successor.
    pub open spec fn live_out(self, b: int, id: usize) -> bool {
        exists|fuel: nat| self.live_out_upto(b, self.blocks[b].succs.len() as int, id, fuel)
    }

    /// Whether some vreg is live at the start of the entry block: it is
    /// read on some path before anything defines it.
    pub open spec fn entry_livein(self) -> bool {
        exists|id: int|
            0 <= id < self.num_vregs && #[trigger] self.live_in(self.entry.0 as int, id as usize)
    }
}

/// More fuel keeps a vreg live.
pub proof fn lemma_live_before_more(m: ProgramModel, b: int, i: int, id: usize, f: nat, g: nat)
    requires
        f <= g,
        m.live_before(b, i, id, f),
    ensures
        m.live_before(b, i, id, g),
    decreases f, 1int,
{
    if !m.uses(i, id) {
        lemma_live_after_more(m, b, i, id, f, g);
    }
}

pub proof fn lemma_live_after_more(m: ProgramModel, b: int, i: int, id: usize, f: nat, g: nat)
    requires
        f <= g,
        m.live_after(b, i, id, f),
    ensures
        m.live_after(b, i, id, g),
    decreases f, 0int,
{
    if i + 1 < m.blocks[b].insns.1.0 {
        lemma_live_before_more(m, b, i + 1, id, (f - 1) as nat, (g - 1) as nat);
    } else {
        lemma_live_out_more(
            m,
            b,
            m.blocks[b].succs.len() as int,
            id,
            (f - 1) as nat,
            (g - 1) as nat,
        );
    }
}

pub proof fn lemma_live_out_more(m: ProgramModel, b: int, s: int, id: usize, f: nat, g: nat)
    requires
        f <= g,
        m.live_out_upto(b, s, id, f),
    ensures
        m.live_out_upto(b, s, id, g),
    decreases f, 2 + if s > 0 { s } else { 0 },
{
    if m.live_out_upto(b, s - 1, id, f) {
        lemma_live_out_more(m, b, s - 1, id, f, g);
    } else {
        let sb = m.blocks[b].succs[s - 1].0 as int;
        lemma_live_before_more(m, sb, m.blocks[sb].insns.0.0 as int, id, f, g);
    }
}

pub open spec fn table_ok(m: ProgramModel, t: Seq<Vec<bool>>) -> bool {
    &&& t.len() == m.blocks.len()
    &&& forall|b: int| 0 <= b < t.len() ==> (#[trigger] t[b])@.len() == m.num_vregs
}

/// Whether the table says that the vreg is live into one of the first
/// `s` successors of block `b`.
pub open spec fn out_upto(m: ProgramModel, t: Seq<Vec<bool>>, b: int, s: int, id: int) -> bool
    decreases s,
{
    s > 0 && (out_upto(m, t, b, s - 1, id) || {
        let sb = m.blocks[b].succs[s - 1].0 as int;
        !m.is_param(sb, id as usize) && t[sb]@[id]
    })
}

/// The vregs that the table says are live at the end of block `b`.
pub open spec fn out_row(m: ProgramModel, t: Seq<Vec<bool>>, b: int) -> Seq<bool> {
    Seq::new(m.num_vregs as nat, |id: int| out_upto(m, t, b, m.blocks[b].succs.len() as int, id))
}

/// Whether the vreg is live before instruction `i` of block `b`, given
/// the vregs that are live at the end of the block.
pub open spec fn walk(m: ProgramModel, out: Seq<bool>, b: int, i: int, id: int) -> bool
    decreases m.blocks[b].insns.1.0 - i,
{
    m.uses(i, id as usize) || (!m.defines(i, id as usize) && if i + 1 < m.blocks[b].insns.1.0 {
        walk(m, out, b, i + 1, id)
    } else {
        out[id]
    })
}

/// Every bit that is set in the table stands for a vreg that is live
/// at the start of its block.
pub open spec fn sound(m: ProgramModel, t: Seq<Vec<bool>>) -> bool {
    forall|b: int, id: int|
        0 <= b < m.blocks.len() && 0 <= id < m.num_vregs && #[trigger] t[b]@[id] ==> m.live_in(
            b,
            id as usize,
        )
}

/// The row of block `b` holds every vreg that the rows of its
/// successors make live at its start.
pub open spec fn closed_at(m: ProgramModel, t: Seq<Vec<bool>>, b: int) -> bool {
    forall|id: int|
        0 <= id < m.num_vregs && #[trigger] walk(
            m,
            out_row(m, t, b),
            b,
            m.blocks[b].insns.0.0 as int,
            id,
        ) ==> t[b]@[id]
}

pub open spec fn closed(m: ProgramModel, t: Seq<Vec<bool>>) -> bool {
    forall|b: int| 0 <= b < m.blocks.len() ==> #[trigger] closed_at(m, t, b)
}

/// What a sound table says to be live at the end of a block is live there.
pub proof fn lemma_out_sound(m: ProgramModel, t: Seq<Vec<bool>>, b: int, s: int, id: int) -> (fuel:
    nat)
    requires
        m.wf(),
        table_ok(m, t),
        sound(m, t),
        0 <= b < m.blocks.len(),
        0 <= s <= m.blocks[b].succs.len(),
        0 <= id < m.num_vregs,
        out_upto(m, t, b, s, id),
    ensures
        m.live_out_upto(b, s, id as usize, fuel),
    decreases s,
{
    if out_upto(m, t, b, s - 1, id) {
        lemma_out_sound(m, t, b, s - 1, id)
    } else {
        let sb = m.blocks[b].succs[s - 1].0 as int;
        assert(t[sb]@[id]);
        assert(m.live_in(sb, id as usize));
        let uid = id as usize;
        let first = m.blocks[sb].insns.0.0 as int;
        choose|fuel: nat| m.live_before(sb, first, uid, fuel)
    }
}

/// What a walk from the end of a block finds live, on a sound table, is live.
pub proof fn lemma_walk_sound(m: ProgramModel, t: Seq<Vec<bool>>, b: int, i: int, id: int) -> (fuel:
    nat)
    requires
        m.wf(),
        table_ok(m, t),
        sound(m, t),
        0 <= b < m.blocks.len(),
        m.blocks[b].insns.0.0 <= i < m.blocks[b].insns.1.0,
        0 <= id < m.num_vregs,
        walk(m, out_row(m, t, b), b, i, id),
    ensures
        m.live_before(b, i, id as usize, fuel),
    decreases m.blocks[b].insns.1.0 - i,
{
    if m.uses(i, id as usize) {
        0
    } else if i + 1 < m.blocks[b].insns.1.0 {
        let f = lemma_walk_sound(m, t, b, i + 1, id);
        (f + 1) as nat
    } else {
        let f = lemma_out_sound(m, t, b, m.blocks[b].succs.len() as int, id);
        (f + 1) as nat
    }
}

/// On a closed table, what is live before an instruction is found by the walk.
pub proof fn lemma_walk_complete(
    m: ProgramModel,
    t: Seq<Vec<bool>>,
    b: int,
    i: int,
    id: int,
    fuel: nat,
)
    requires
        m.wf(),
        m.block_error() is None,
        table_ok(m, t),
        closed(m, t),
        0 <= b < m.blocks.len(),
        m.blocks[b].insns.0.0 <= i < m.blocks[b].insns.1.0,
        0 <= id < m.num_vregs,
        m.live_before(b, i, id as usize, fuel),
    ensures
        walk(m, out_row(m, t, b), b, i, id),
    decreases fuel, 1int,
{
    if !m.uses(i, id as usize) {
        if i + 1 < m.blocks[b].insns.1.0 {
            lemma_walk_complete(m, t, b, i + 1, id, (fuel - 1) as nat);
        } else {
            lemma_out_complete(m, t, b, m.blocks[b].succs.len() as int, id, (fuel - 1) as nat);
        }
    }
}

pub proof fn lemma_out_complete(m: ProgramModel, t: Seq<Vec<bool>>, b: int, s: int, id: int, fuel: nat)
    requires
        m.wf(),
        m.block_error() is None,
        table_ok(m, t),
        closed(m, t),
        0 <= b < m.blocks.len(),
        0 <= s <= m.blocks[b].succs.len(),
        0 <= id < m.num_vregs,
        m.live_out_upto(b, s, id as usize, fuel),
    ensures
        out_upto(m, t, b, s, id),
    decreases fuel, 2 + s,
{
    if m.live_out_upto(b, s - 1, id as usize, fuel) {
        lemma_out_complete(m, t, b, s - 1, id, fuel);
    } else {
        let sb = m.blocks[b].succs[s - 1].0 as int;
        assert(m.blocks[b].succs[s - 1].0 < m.blocks.len());
        lemma_blocks_well_formed(m, sb);
        lemma_walk_complete(m, t, sb, m.blocks[sb].insns.0.0 as int, id, fuel);
        assert(closed_at(m, t, sb));
    }
}

/// Whether the vreg is live after instruction `i` of block `b`, given
/// the vregs that are live at the end of the block.
pub open spec fn walk_after(m: ProgramModel, out: Seq<bool>, b: int, i: int, id: int) -> bool {
    if i + 1 < m.blocks[b].insns.1.0 {
        walk(m, out, b, i + 1, id)
    } else {
        out[id]
    }
}

impl ProgramModel {
    /// Whether the vreg is live at the start of instruction `i` of block `b`.
    pub open spec fn live_at(self, b: int, i: int, id: usize) -> bool {
        exists|fuel: nat| self.live_before(b, i, id, fuel)
    }

    /// Whether the vreg is live both before and after instruction `i`
    /// of block `b`: the instruction finds its value and leaves it needed.
    pub open spec fn live_across(self, b: int, i: int, id: usize) -> bool {
        self.live_at(b, i, id) && self.live_past(b, i, id)
    }
}

/// On a table that is sound and closed, the walk from the end of a
/// block finds exactly the vregs that are live before and after each
/// instruction of it.
pub proof fn lemma_walk_exact(m: ProgramModel, t: Seq<Vec<bool>>, b: int, i: int, id: int)
    requires
        m.wf(),
        m.block_error() is None,
        table_ok(m, t),
        sound(m, t),
        closed(m, t),
        0 <= b < m.blocks.len(),
        m.blocks[b].insns.0.0 <= i < m.blocks[b].insns.1.0,
        0 <= id < m.num_vregs,
    ensures
        walk(m, out_row(m, t, b), b, i, id) == m.live_at(b, i, id as usize),
        walk_after(m, out_row(m, t, b), b, i, id) == m.live_past(b, i, id as usize),
{
    let uid = id as usize;
    let out = out_row(m, t, b);
    if walk(m, out, b, i, id) {
        let f = lemma_walk_sound(m, t, b, i, id);
    }
    if m.live_at(b, i, uid) {
        let f = choose|fuel: nat| m.live_before(b, i, uid, fuel);
        lemma_walk_complete(m, t, b, i, id, f);
    }
    let n = m.blocks[b].succs.len() as int;
    if walk_after(m, out, b, i, id) {
        if i + 1 < m.blocks[b].insns.1.0 {
            let f = lemma_walk_sound(m, t, b, i + 1, id);
            assert(m.live_after(b, i, uid, (f + 1) as nat));
        } else {
            let f = lemma_out_sound(m, t, b, n, id);
            assert(m.live_after(b, i, uid, (f + 1) as nat));
        }
    }
    if m.live_past(b, i, uid) {
        let f = choose|fuel: nat| m.live_after(b, i, uid, fuel);
        if i + 1 < m.blocks[b].insns.1.0 {
            lemma_walk_complete(m, t, b, i + 1, id, (f - 1) as nat);
        } else {
            lemma_out_complete(m, t, b, n, id, (f - 1) as nat);
        }
    }
}

/// An instruction that reads a vreg has an operand that reads it.
pub proof fn lemma_uses_witness(m: ProgramModel, i: int, k: int, id: usize) -> (w: int)
    requires
        m.uses_upto(i, k, id),
    ensures
        0 <= w < k,
        m.op_uses(i, w, id),
    decreases k,
{
    if m.op_uses(i, k - 1, id) {
        k - 1
    } else {
        lemma_uses_witness(m, i, k - 1, id)
    }
}

/// A vreg that is live before an instruction is read by some operand
/// of the program.
pub proof fn lemma_live_is_read(m: ProgramModel, b: int, i: int, id: usize, fuel: nat) -> (w: (
    int,
    int,
))
    requires
        m.wf(),
        m.block_error() is None,
        0 <= b < m.blocks.len(),
        m.blocks[b].insns.0.0 <= i < m.blocks[b].insns.1.0,
        m.live_before(b, i, id, fuel),
    ensures
        0 <= w.0 < m.insts.len(),
        0 <= w.1 < m.insts[w.0].operands.len(),
        m.op_uses(w.0, w.1, id),
    decreases fuel, 1int,
{
    if m.uses(i, id) {
        let k = lemma_uses_witness(m, i, m.insts[i].operands.len() as int, id);
        (i, k)
    } else if i + 1 < m.blocks[b].insns.1.0 {
        lemma_live_is_read(m, b, i + 1, id, (fuel - 1) as nat)
    } else {
        lemma_live_out_is_read(m, b, m.blocks[b].succs.len() as int, id, (fuel - 1) as nat)
    }
}

pub proof fn lemma_live_out_is_read(m: ProgramModel, b: int, s: int, id: usize, fuel: nat) -> (w: (
    int,
    int,
))
    requires
        m.wf(),
        m.block_error() is None,
        0 <= b < m.blocks.len(),
        0 <= s <= m.blocks[b].succs.len(),
        m.live_out_upto(b, s, id, fuel),
    ensures
        0 <= w.0 < m.insts.len(),
        0 <= w.1 < m.insts[w.0].operands.len(),
        m.op_uses(w.0, w.1, id),
    decreases fuel, 2 + s,
{
    if m.live_out_upto(b, s - 1, id, fuel) {
        lemma_live_out_is_read(m, b, s - 1, id, fuel)
    } else {
        let sb = m.blocks[b].succs[s - 1].0 as int;
        assert(m.blocks[b].succs[s - 1].0 < m.blocks.len());
        lemma_blocks_well_formed(m, sb);
        lemma_live_is_read(m, sb, m.blocks[sb].insns.0.0 as int, id, fuel)
    }
}

/// A table that is sound and closed holds exactly the vregs that are
/// live at the start of each block.
pub proof fn lemma_table_exact(m: ProgramModel, t: Seq<Vec<bool>>, b: int, id: int)
    requires
        m.wf(),
        m.block_error() is None,
        table_ok(m, t),
        sound(m, t),
        closed(m, t),
        0 <= b < m.blocks.len(),
        0 <= id < m.num_vregs,
    ensures
        t[b]@[id] == m.live_in(b, id as usize),
{
    lemma_blocks_well_formed(m, b);
    if m.live_in(b, id as usize) {
        let uid = id as usize;
        let first = m.blocks[b].insns.0.0 as int;
        let fuel = choose|fuel: nat| m.live_before(b, first, uid, fuel);
        lemma_walk_complete(m, t, b, m.blocks[b].insns.0.0 as int, id, fuel);
        assert(closed_at(m, t, b));
    }
}

/// The bits of the table that are not set, as pairs of block and vreg.
pub open spec fn unset(m: ProgramModel, t: Seq<Vec<bool>>) -> Set<(int, int)> {
    Set::new(
        |p: (int, int)| 0 <= p.0 < m.blocks.len() && 0 <= p.1 < m.num_vregs && !t[p.0]@[p.1],
    )
}

spec fn row_pairs(b: int, v: int) -> Set<(int, int)>
    decreases v,
{
    if v <= 0 {
        Set::empty()
    } else {
        row_pairs(b, v - 1).insert((b, v - 1))
    }
}

spec fn all_pairs(n: int, v: int) -> Set<(int, int)>
    decreases n,
{
    if n <= 0 {
        Set::empty()
    } else {
        all_pairs(n - 1, v).union(row_pairs(n - 1, v))
    }
}

proof fn lemma_row_pairs(b: int, v: int)
    ensures
        row_pairs(b, v).finite(),
        forall|p: (int, int)| row_pairs(b, v).contains(p) <==> p.0 == b && 0 <= p.1 < v,
    decreases v,
{
    if v > 0 {
        lemma_row_pairs(b, v - 1);
    }
}

proof fn lemma_all_pairs(n: int, v: int)
    ensures
        all_pairs(n, v).finite(),
        forall|p: (int, int)| all_pairs(n, v).contains(p) <==> 0 <= p.0 < n && 0 <= p.1 < v,
    decreases n,
{
    if n > 0 {
        lemma_all_pairs(n - 1, v);
        lemma_row_pairs(n - 1, v);
    }
}

/// A table that has all the bits of another and one more has fewer unset bits.
proof fn lemma_unset_shrinks(m: ProgramModel, t: Seq<Vec<bool>>, t2: Seq<Vec<bool>>, b: int, id: int)
    requires
        0 <= b < m.blocks.len(),
        0 <= id < m.num_vregs,
        !t[b]@[id],
        t2[b]@[id],
        forall|b2: int, id2: int|
            0 <= b2 < m.blocks.len() && 0 <= id2 < m.num_vregs && t[b2]@[id2] ==> t2[b2]@[id2],
    ensures
        unset(m, t).finite(),
        unset(m, t2).len() < unset(m, t).len(),
{
    let all = all_pairs(m.blocks.len() as int, m.num_vregs as int);
    lemma_all_pairs(m.blocks.len() as int, m.num_vregs as int);
    lemma_len_subset(unset(m, t), all);
    let smaller = unset(m, t).remove((b, id));
    assert(unset(m, t).contains((b, id)));
    assert(unset(m, t2).subset_of(smaller)) by {
        assert forall|p: (int, int)| unset(m, t2).contains(p) implies smaller.contains(p) by {
            if t[p.0]@[p.1] {
                assert(t2[p.0]@[p.1]);
            }
        }
    }
    lemma_len_subset(unset(m, t2), smaller);
}

/// The vregs that the table says are live at the end of block `b`.
pub fn out_set(p: &Program, t: &Vec<Vec<bool>>, b: usize) -> (r: Vec<bool>)
    requires
        p@.wf(),
        table_ok(p@, t@),
        b < p.blocks.len(),
    ensures
        r@ == out_row(p@, t@, b as int),
{
    let v = p.num_vregs;
    let mut cur: Vec<bool> = filled(v, false);
    assert(p@.blocks[b as int] == p.blocks@[b as int]@);
    let succs = &p.blocks[b].succs;
    let mut s: usize = 0;
    while s < succs.len()
        invariant
            p@.wf(),
            table_ok(p@, t@),
            b < p.blocks.len(),
            succs@ == p@.blocks[b as int].succs,
            s <= succs.len(),
            v == p@.num_vregs,
            cur@.len() == v,
            forall|id: int|
                0 <= id < v ==> #[trigger] cur@[id] == out_upto(p@, t@, b as int, s as int, id),
        decreases succs.len() - s,
    {
        let sb = succs[s].0 as usize;
        assert(p@.blocks[b as int].succs[s as int].0 < p@.blocks.len());
        assert(p@.blocks[sb as int] == p.blocks@[sb as int]@);
        let params = &p.blocks[sb].params;
        let mut is_param: Vec<bool> = filled(v, false);
        let mut k: usize = 0;
        while k < params.len()
            invariant
                p@.wf(),
                sb < p.blocks.len(),
                params@ == p@.blocks[sb as int].params,
                k <= params.len(),
                v == p@.num_vregs,
                is_param@.len() == v,
                forall|id: int|
                    0 <= id < v ==> #[trigger] is_param@[id] == p@.param_upto(
                        sb as int,
                        k as int,
                        id as usize,
                    ),
            decreases params.len() - k,
        {
            assert(p@.blocks[sb as int].params[k as int].spec_vreg() < p@.num_vregs);
            is_param.set(params[k].vreg(), true);
            k += 1;
        }
        let row = &t[sb];
        let ghost before = cur@;
        let mut id: usize = 0;
        while id < v
            invariant
                table_ok(p@, t@),
                sb < p.blocks.len(),
                row@ == t@[sb as int]@,
                id <= v,
                v == p@.num_vregs,
                cur@.len() == v,
                before.len() == v,
                is_param@.len() == v,
                forall|j: int| id <= j < v ==> #[trigger] cur@[j] == before[j],
                forall|j: int|
                    0 <= j < id ==> #[trigger] cur@[j] == (before[j] || (!is_param@[j] && row@[j])),
            decreases v - id,
        {
            if row[id] && !is_param[id] {
                cur.set(id, true);
            }
            id += 1;
        }
        s += 1;
    }
    assert(cur@ =~= out_row(p@, t@, b as int));
    cur
}

/// Bring the live vregs from after instruction `i` to before it.
pub fn step_inst(p: &Program, pins: &Vec<Option<PReg>>, i: usize, cur: &mut Vec<bool>)
    requires
        p@.wf(),
        i < p.insts.len(),
        pins@.len() == p@.num_vregs,
        forall|id: int| 0 <= id < p@.num_vregs ==> pins@[id] == p@.pin_of(id as usize),
        old(cur)@.len() == p@.num_vregs,
    ensures
        final(cur)@.len() == p@.num_vregs,
        forall|id: int|
            0 <= id < p@.num_vregs ==> #[trigger] final(cur)@[id] == (p@.uses(
                i as int,
                id as usize,
            ) || (
            !p@.defines(i as int, id as usize) && old(cur)@[id])),
{
    assert(p@.insts[i as int] == p.insts@[i as int]@);
    let ops = &p.insts[i].operands;
    let ghost after = cur@;
    let mut k: usize = 0;
    while k < ops.len()
        invariant
            p@.wf(),
            i < p.insts.len(),
            ops@ == p@.insts[i as int].operands,
            k <= ops.len(),
            pins@.len() == p@.num_vregs,
            forall|id: int| 0 <= id < p@.num_vregs ==> pins@[id] == p@.pin_of(id as usize),
            cur@.len() == p@.num_vregs,
            after.len() == p@.num_vregs,
            forall|id: int|
                0 <= id < p@.num_vregs ==> #[trigger] cur@[id] == (after[id] && !p@.defines_upto(
                    i as int,
                    k as int,
                    id as usize,
                )),
        decreases ops.len() - k,
    {
        let op = ops[k];
        let id = op.vreg().vreg();
        assert(p@.insts[i as int].operands[k as int].spec_vreg().spec_vreg() < p@.num_vregs);
        if op.kind() != OperandKind::Use && pins[id].is_none() {
            cur.set(id, false);
        }
        k += 1;
    }
    let mut k: usize = 0;
    while k < ops.len()
        invariant
            p@.wf(),
            i < p.insts.len(),
            ops@ == p@.insts[i as int].operands,
            k <= ops.len(),
            pins@.len() == p@.num_vregs,
            forall|id: int| 0 <= id < p@.num_vregs ==> pins@[id] == p@.pin_of(id as usize),
            cur@.len() == p@.num_vregs,
            after.len() == p@.num_vregs,
            forall|id: int|
                0 <= id < p@.num_vregs ==> #[trigger] cur@[id] == (p@.uses_upto(
                    i as int,
                    k as int,
                    id as usize,
                ) || (after[id] && !p@.defines(i as int, id as usize))),
        decreases ops.len() - k,
    {
        let op = ops[k];
        let id = op.vreg().vreg();
        assert(p@.insts[i as int].operands[k as int].spec_vreg().spec_vreg() < p@.num_vregs);
        if op.kind() != OperandKind::Def && pins[id].is_none() {
            cur.set(id, true);
        }
        k += 1;
    }
}

/// The vregs that the table makes live at the start of block `b`.
fn walk_block(p: &Program, pins: &Vec<Option<PReg>>, t: &Vec<Vec<bool>>, b: usize) -> (r: Vec<
    bool,
>)
    requires
        p@.wf(),
        p@.block_error() is None,
        table_ok(p@, t@),
        b < p.blocks.len(),
        pins@.len() == p@.num_vregs,
        forall|id: int| 0 <= id < p@.num_vregs ==> pins@[id] == p@.pin_of(id as usize),
    ensures
        r@.len() == p@.num_vregs,
        forall|id: int|
            0 <= id < p@.num_vregs ==> #[trigger] r@[id] == walk(
                p@,
                out_row(p@, t@, b as int),
                b as int,
                p@.blocks[b as int].insns.0.0 as int,
                id,
            ),
{
    proof {
        lemma_blocks_well_formed(p@, b as int);
    }
    assert(p@.blocks[b as int] == p.blocks@[b as int]@);
    let mut cur = out_set(p, t, b);
    let ghost out = cur@;
    let first = p.blocks[b].insns.0.0 as usize;
    let end = p.blocks[b].insns.1.0 as usize;
    let mut i: usize = end;
    while i > first
        invariant
            p@.wf(),
            b < p.blocks.len(),
            first == p@.blocks[b as int].insns.0.0,
            end == p@.blocks[b as int].insns.1.0,
            first <= i <= end <= p.insts.len(),
            first < end,
            pins@.len() == p@.num_vregs,
            forall|id: int| 0 <= id < p@.num_vregs ==> pins@[id] == p@.pin_of(id as usize),
            out.len() == p@.num_vregs,
            cur@.len() == p@.num_vregs,
            forall|id: int|
                0 <= id < p@.num_vregs ==> #[trigger] cur@[id] == if i < end {
                    walk(p@, out, b as int, i as int, id)
                } else {
                    out[id]
                },
        decreases i,
    {
        i -= 1;
        step_inst(p, pins, i, &mut cur);
    }
    cur
}

/// One pass over the blocks: every row takes up what the rows of its
/// successors make live. Says whether any row changed.
fn pass(p: &Program, pins: &Vec<Option<PReg>>, t: &mut Vec<Vec<bool>>) -> (changed: bool)
    requires
        p@.wf(),
        p@.block_error() is None,
        table_ok(p@, old(t)@),
        sound(p@, old(t)@),
        pins@.len() == p@.num_vregs,
        forall|id: int| 0 <= id < p@.num_vregs ==> pins@[id] == p@.pin_of(id as usize),
    ensures
        table_ok(p@, final(t)@),
        sound(p@, final(t)@),
        changed ==> unset(p@, final(t)@).len() < unset(p@, old(t)@).len(),
        !changed ==> closed(p@, final(t)@),
{
    let ghost t0 = t@;
    let v = p.num_vregs;
    let n = p.blocks.len();
    let mut changed = false;
    let mut b: usize = n;
    while b > 0
        invariant
            p@.wf(),
            p@.block_error() is None,
            table_ok(p@, t@),
            table_ok(p@, t0),
            sound(p@, t@),
            pins@.len() == p@.num_vregs,
            forall|id: int| 0 <= id < p@.num_vregs ==> pins@[id] == p@.pin_of(id as usize),
            n == p.blocks.len(),
            v == p@.num_vregs,
            b <= n,
            changed ==> unset(p@, t@).len() < unset(p@, t0).len(),
            !changed ==> t@ == t0,
            !changed ==> forall|b2: int| b <= b2 < n ==> #[trigger] closed_at(p@, t@, b2),
        decreases b,
    {
        b -= 1;
        let cur = walk_block(p, pins, t, b);
        let ghost before = t@;
        let row = &t[b];
        let mut merged: Vec<bool> = Vec::new();
        let mut fresh: usize = v;
        let mut id: usize = 0;
        while id < v
            invariant
                id <= v,
                v == p@.num_vregs,
                cur@.len() == v,
                row@.len() == v,
                merged@.len() == id,
                forall|j: int| 0 <= j < id ==> merged@[j] == (cur@[j] || row@[j]),
                fresh <= v,
                fresh < v ==> cur@[fresh as int] && !row@[fresh as int],
                fresh == v ==> forall|j: int| 0 <= j < id && cur@[j] ==> row@[j],
            decreases v - id,
        {
            if cur[id] && !row[id] {
                fresh = id;
            }
            merged.push(cur[id] || row[id]);
            id += 1;
        }
        if fresh < v {
            t.set(b, merged);
            proof {
                assert forall|b2: int, id2: int|
                    0 <= b2 < p@.blocks.len() && 0 <= id2 < p@.num_vregs && #[trigger] t@[b2]@[id2] implies p@.live_in(b2, id2 as usize) by {
                    if b2 == b {
                        if before[b2]@[id2] {
                        } else {
                            lemma_blocks_well_formed(p@, b as int);
                            let f = lemma_walk_sound(
                                p@,
                                before,
                                b as int,
                                p@.blocks[b as int].insns.0.0 as int,
                                id2,
                            );
                        }
                    } else {
                        assert(before[b2]@[id2]);
                    }
                }
                assert forall|b2: int, id2: int|
                    0 <= b2 < p@.blocks.len() && 0 <= id2 < p@.num_vregs && before[b2]@[id2] implies t@[b2]@[id2] by {
                    if b2 != b {
                        assert(t@[b2] == before[b2]);
                    }
                }
                lemma_unset_shrinks(p@, before, t@, b as int, fresh as int);
            }
            changed = true;
        } else {
            proof {
                assert(closed_at(p@, t@, b as int));
            }
        }
    }
    changed
}

/// For every block, the vregs that are live at its start.
pub fn live_in_table(p: &Program, pins: &Vec<Option<PReg>>) -> (r: (Vec<Vec<bool>>, usize))
    requires
        p@.wf(),
        p@.block_error() is None,
        pins@.len() == p@.num_vregs,
        forall|id: int| 0 <= id < p@.num_vregs ==> pins@[id] == p@.pin_of(id as usize),
    ensures
        table_ok(p@, r.0@),
        sound(p@, r.0@),
        closed(p@, r.0@),
{
    let n = p.blocks.len();
    let v = p.num_vregs;
    let mut t: Vec<Vec<bool>> = Vec::new();
    let mut b: usize = 0;
    while b < n
        invariant
            b <= n,
            t@.len() == b,
            forall|b2: int| 0 <= b2 < b ==> (#[trigger] t@[b2])@.len() == v,
            forall|b2: int, id: int| 0 <= b2 < b && 0 <= id < v ==> !t@[b2]@[id],
        decreases n - b,
    {
        t.push(filled(v, false));
        b += 1;
    }
    let mut passes: usize = 0;
    loop
        invariant
            p@.wf(),
            p@.block_error() is None,
            pins@.len() == p@.num_vregs,
            forall|id: int| 0 <= id < p@.num_vregs ==> pins@[id] == p@.pin_of(id as usize),
            table_ok(p@, t@),
            sound(p@, t@),
        ensures
            closed(p@, t@),
        decreases unset(p@, t@).len(),
    {
        let changed = pass(p, pins, &mut t);
        if passes < usize::MAX {
            passes += 1;
        }
        if !changed {
            break ;
        }
    }
    (t, passes)
}

} // verus!
