//! Where a vreg can be read before anything has defined it: the blocks
//! that a path from the entry reaches without a definition of the vreg,
//! and the first instruction that reads it there.

use vstd::prelude::*;
use crate::cfg::{first_such, lemma_first_such};
use crate::demand::{count_upto, lemma_count_bounds, lemma_count_less};
use crate::function::{Program, ProgramModel};
use crate::index::Inst;
use crate::operand::OperandKind;
use crate::output::RegAllocError;
use crate::regs::VReg;
use crate::liveness::{closed, lemma_live_is_read, lemma_table_exact, sound, table_ok};
use crate::ssa::{all_defs_table, filled};

verus! {

impl ProgramModel {
    /// Whether the vreg is defined in block `b` before instruction
    /// `i`: it is a parameter of the block, or an earlier instruction
    /// of the block writes it.
    pub open spec fn defined_before(self, b: int, i: int, id: usize) -> bool
        decreases i - self.blocks[b].insns.0.0,
    {
        if i <= self.blocks[b].insns.0.0 {
            self.is_param(b, id)
        } else {
            self.defined_before(b, i - 1, id) || self.defines(i - 1, id)
        }
    }

    /// Whether block `b` defines the vreg.
    pub open spec fn defined_in(self, b: int, id: usize) -> bool {
        self.defined_before(b, self.blocks[b].insns.1.0 as int, id)
    }

    /// Whether block `b` is a successor of block `q`.
    pub open spec fn has_succ(self, q: int, b: int) -> bool {
        exists|k: int| 0 <= k < self.blocks[q].succs.len() && (#[trigger] self.blocks[q].succs[k]).0 == b
    }

    /// Whether a path of at most `fuel` edges leads from the entry to
    /// block `b` through no block that defines the vreg.
    pub open spec fn reached(self, b: int, id: usize, fuel: nat) -> bool
        decreases fuel, 0int,
    {
        b == self.entry.0 || (fuel > 0 && self.reached_via(
            b,
            self.blocks.len() as int,
            id,
            (fuel - 1) as nat,
        ))
    }

    /// Whether such a path leads to block `b` through one of the first
    /// `n` blocks as the last one before `b`.
    pub open spec fn reached_via(self, b: int, n: int, id: usize, fuel: nat) -> bool
        decreases fuel, 1 + if n > 0 { n } else { 0 },
    {
        n > 0 && (self.reached_via(b, n - 1, id, fuel) || (self.has_succ(n - 1, b)
            && !self.defined_in(n - 1, id) && self.reached(n - 1, id, fuel)))
    }

    /// Whether the vreg can be without a definition at the start of
    /// block `b`: some path leads from the entry to the block through
    /// no block that defines the vreg.
    pub open spec fn exposed(self, b: int, id: usize) -> bool {
        exists|fuel: nat| self.reached(b, id, fuel)
    }

    /// Whether instruction `i` of block `b` reads the vreg before the
    /// block has defined it.
    pub open spec fn reads_early(self, b: int, i: int, id: usize) -> bool {
        self.uses(i, id) && !self.defined_before(b, i, id)
    }

    /// The first instruction of block `b` that reads the vreg before
    /// the block has defined it, or the end of the block.
    pub open spec fn first_early_read(self, b: int, id: usize) -> int {
        first_such(
            self.blocks[b].insns.0.0 as int,
            self.blocks[b].insns.1.0 as int,
            |i: int| self.reads_early(b, i, id),
        )
    }

    /// Whether block `b` reads the vreg where no definition of it has
    /// to have come before.
    pub open spec fn block_exposes(self, b: int, id: usize) -> bool {
        self.exposed(b, id) && self.first_early_read(b, id) < self.blocks[b].insns.1.0
    }

    /// The first block that reads the vreg where no definition of it
    /// has to have come before, or the number of blocks.
    pub open spec fn first_exposing_block(self, id: usize) -> int {
        first_such(0, self.blocks.len() as int, |b: int| self.block_exposes(b, id))
    }

    /// The first operand of instruction `i` that reads the vreg.
    pub open spec fn reading_operand(self, i: int, id: usize) -> int {
        first_such(0, self.insts[i].operands.len() as int, |k: int| self.op_uses(i, k, id))
    }

    /// The error for a vreg that is read where no definition of it has
    /// to have come before: it names the vreg, and the first
    /// instruction of the first block that reads it so.
    pub open spec fn exposed_read_error(self, id: usize) -> RegAllocError {
        let b = self.first_exposing_block(id);
        let i = self.first_early_read(b, id);
        RegAllocError::SSA(
            self.insts[i].operands[self.reading_operand(i, id)].spec_vreg(),
            Inst(i as u32),
        )
    }
}

/// An operand that reads the vreg makes its instruction read it.
proof fn lemma_uses_more(m: ProgramModel, i: int, k: int, n: int, id: usize)
    requires
        k <= n,
        m.uses_upto(i, k, id),
    ensures
        m.uses_upto(i, n, id),
    decreases n - k,
{
    if k < n {
        lemma_uses_more(m, i, k + 1, n, id);
    }
}

/// An operand that writes the vreg makes its instruction write it.
proof fn lemma_defines_more(m: ProgramModel, i: int, k: int, n: int, id: usize)
    requires
        k <= n,
        m.defines_upto(i, k, id),
    ensures
        m.defines_upto(i, n, id),
    decreases n - k,
{
    if k < n {
        lemma_defines_more(m, i, k + 1, n, id);
    }
}

/// A parameter that is the vreg makes the vreg a parameter of the block.
proof fn lemma_param_more(m: ProgramModel, b: int, k: int, n: int, id: usize)
    requires
        k <= n,
        m.param_upto(b, k, id),
    ensures
        m.param_upto(b, n, id),
    decreases n - k,
{
    if k < n {
        lemma_param_more(m, b, k + 1, n, id);
    }
}

/// The vreg of the first operand of instruction `i` that reads the
/// vreg with the given id, if the instruction reads it.
fn reading_vreg(p: &Program, i: usize, id: usize) -> (r: Option<VReg>)
    requires
        i < p.insts.len(),
        !p@.is_pinned(id),
    ensures
        r is Some == p@.uses(i as int, id),
        r is Some ==> r.unwrap() == p@.insts[i as int].operands[p@.reading_operand(
            i as int,
            id,
        )].spec_vreg(),
{
    assert(p@.insts[i as int] == p.insts@[i as int]@);
    let ops = &p.insts[i].operands;
    let ghost f = |k: int| p@.op_uses(i as int, k, id);
    let mut k: usize = 0;
    while k < ops.len()
        invariant
            ops@ == p@.insts[i as int].operands,
            k <= ops.len(),
            !p@.is_pinned(id),
            !p@.uses_upto(i as int, k as int, id),
            f == |k: int| p@.op_uses(i as int, k, id),
            first_such(0, ops.len() as int, f) == first_such(k as int, ops.len() as int, f),
        decreases ops.len() - k,
    {
        let op = ops[k];
        if op.kind() != OperandKind::Def && op.vreg().vreg() == id {
            proof {
                assert(f(k as int));
                assert(p@.uses_upto(i as int, k as int + 1, id));
                lemma_uses_more(p@, i as int, k as int + 1, ops.len() as int, id);
            }
            return Some(op.vreg());
        }
        assert(!f(k as int));
        k += 1;
    }
    None
}

/// Whether instruction `i` writes the vreg.
fn inst_defines(p: &Program, i: usize, id: usize) -> (r: bool)
    requires
        i < p.insts.len(),
        !p@.is_pinned(id),
    ensures
        r == p@.defines(i as int, id),
{
    assert(p@.insts[i as int] == p.insts@[i as int]@);
    let ops = &p.insts[i].operands;
    let mut k: usize = 0;
    while k < ops.len()
        invariant
            ops@ == p@.insts[i as int].operands,
            k <= ops.len(),
            !p@.is_pinned(id),
            !p@.defines_upto(i as int, k as int, id),
        decreases ops.len() - k,
    {
        let op = ops[k];
        if op.kind() != OperandKind::Use && op.vreg().vreg() == id {
            proof {
                assert(p@.defines_upto(i as int, k as int + 1, id));
                lemma_defines_more(p@, i as int, k as int + 1, ops.len() as int, id);
            }
            return true;
        }
        k += 1;
    }
    false
}

/// Whether the vreg is a parameter of block `b`.
fn block_has_param(p: &Program, b: usize, id: usize) -> (r: bool)
    requires
        b < p.blocks.len(),
    ensures
        r == p@.is_param(b as int, id),
{
    assert(p@.blocks[b as int] == p.blocks@[b as int]@);
    let params = &p.blocks[b].params;
    let mut k: usize = 0;
    while k < params.len()
        invariant
            params@ == p@.blocks[b as int].params,
            k <= params.len(),
            !p@.param_upto(b as int, k as int, id),
        decreases params.len() - k,
    {
        if params[k].vreg() == id {
            proof {
                assert(p@.param_upto(b as int, k as int + 1, id));
                lemma_param_more(p@, b as int, k as int + 1, params.len() as int, id);
            }
            return true;
        }
        k += 1;
    }
    false
}

/// For every block, whether it defines the vreg.
fn defines_table(p: &Program, id: usize) -> (r: Vec<bool>)
    requires
        p@.wf(),
        !p@.is_pinned(id),
    ensures
        r@.len() == p@.blocks.len(),
        forall|b: int| 0 <= b < r@.len() ==> #[trigger] r@[b] == p@.defined_in(b, id),
{
    let nb = p.blocks.len();
    let mut r: Vec<bool> = Vec::new();
    let mut b: usize = 0;
    while b < nb
        invariant
            p@.wf(),
            !p@.is_pinned(id),
            nb == p.blocks.len(),
            b <= nb,
            r@.len() == b,
            forall|c: int| 0 <= c < b ==> #[trigger] r@[c] == p@.defined_in(c, id),
        decreases nb - b,
    {
        assert(p@.blocks[b as int] == p.blocks@[b as int]@);
        assert(p@.blocks[b as int].insns.wf() && p@.blocks[b as int].insns.1.0 <= p@.insts.len());
        let first = p.blocks[b].insns.0.0 as usize;
        let end = p.blocks[b].insns.1.0 as usize;
        let mut d = block_has_param(p, b, id);
        let mut i: usize = first;
        while i < end
            invariant
                !p@.is_pinned(id),
                b < p.blocks.len(),
                first == p@.blocks[b as int].insns.0.0,
                end == p@.blocks[b as int].insns.1.0,
                first <= i <= end <= p.insts.len(),
                d == p@.defined_before(b as int, i as int, id),
            decreases end - i,
        {
            if inst_defines(p, i, id) {
                d = true;
            }
            i += 1;
        }
        r.push(d);
        b += 1;
    }
    r
}

/// Whether the table marks only blocks at whose start the vreg can be
/// without a definition.
pub open spec fn marks_sound(m: ProgramModel, id: usize, r: Seq<bool>) -> bool {
    &&& r.len() == m.blocks.len()
    &&& forall|b: int| 0 <= b < r.len() && #[trigger] r[b] ==> m.exposed(b, id)
}

/// Whether the table marks the entry, and with every marked block that
/// does not define the vreg all successors of the block.
pub open spec fn marks_closed(m: ProgramModel, id: usize, r: Seq<bool>) -> bool {
    &&& r.len() == m.blocks.len()
    &&& r[m.entry.0 as int]
    &&& forall|q: int, k: int|
        0 <= q < m.blocks.len() && 0 <= k < m.blocks[q].succs.len() && r[q] && !m.defined_in(q, id)
            ==> r[(#[trigger] m.blocks[q].succs[k]).0 as int]
}

/// How many blocks the table does not mark.
pub open spec fn unmarked(r: Seq<bool>) -> int {
    count_upto(|b: int| !r[b], r.len() as int)
}

/// The number of blocks without a mark is no less than zero.
proof fn lemma_unmarked_bounds(r: Seq<bool>)
    ensures
        0 <= unmarked(r) <= r.len(),
{
    lemma_count_bounds(|b: int| !r[b], r.len() as int);
}

/// One more mark leaves one block less without a mark.
proof fn lemma_mark(r: Seq<bool>, s: int)
    requires
        0 <= s < r.len(),
        !r[s],
    ensures
        unmarked(r.update(s, true)) == unmarked(r) - 1,
        unmarked(r) >= 1,
{
    let after = r.update(s, true);
    let f = |b: int| !r[b];
    let g = |b: int| !after[b];
    lemma_count_less(f, g, r.len() as int, s);
    lemma_count_bounds(g, r.len() as int);
}

/// A block that a path reaches hands the path on to its successors,
/// if it does not define the vreg.
proof fn lemma_reached_via(m: ProgramModel, b: int, n: int, q: int, id: usize, fuel: nat)
    requires
        0 <= q < n,
        m.has_succ(q, b),
        !m.defined_in(q, id),
        m.reached(q, id, fuel),
    ensures
        m.reached_via(b, n, id, fuel),
    decreases n,
{
    if q < n - 1 {
        lemma_reached_via(m, b, n - 1, q, id, fuel);
    }
}

/// A closed table marks every block that a path reaches.
proof fn lemma_closed_holds(m: ProgramModel, id: usize, r: Seq<bool>, b: int, fuel: nat)
    requires
        m.wf(),
        marks_closed(m, id, r),
        0 <= b < m.blocks.len(),
        m.reached(b, id, fuel),
    ensures
        r[b],
    decreases fuel, 0int,
{
    if b != m.entry.0 {
        lemma_closed_via(m, id, r, b, m.blocks.len() as int, (fuel - 1) as nat);
    }
}

/// A closed table marks every block that a path reaches through one
/// of the first `n` blocks.
proof fn lemma_closed_via(m: ProgramModel, id: usize, r: Seq<bool>, b: int, n: int, fuel: nat)
    requires
        m.wf(),
        marks_closed(m, id, r),
        0 <= b < m.blocks.len(),
        0 <= n <= m.blocks.len(),
        m.reached_via(b, n, id, fuel),
    ensures
        r[b],
    decreases fuel, 1 + n,
{
    if m.reached_via(b, n - 1, id, fuel) {
        lemma_closed_via(m, id, r, b, n - 1, fuel);
    } else {
        let q = n - 1;
        lemma_closed_holds(m, id, r, q, fuel);
        let k = choose|k: int|
            0 <= k < m.blocks[q].succs.len() && (#[trigger] m.blocks[q].succs[k]).0 == b;
        assert(r[m.blocks[q].succs[k].0 as int]);
    }
}

/// Mark the successors of block `q`, which is marked and does not
/// define the vreg.
fn mark_succs(p: &Program, id: usize, q: usize, r: &mut Vec<bool>) -> (changed: bool)
    requires
        p@.wf(),
        q < p.blocks.len(),
        marks_sound(p@, id, old(r)@),
        old(r)@[q as int],
        !p@.defined_in(q as int, id),
    ensures
        marks_sound(p@, id, final(r)@),
        forall|b: int| 0 <= b < old(r)@.len() && old(r)@[b] ==> #[trigger] final(r)@[b],
        forall|k: int|
            0 <= k < p@.blocks[q as int].succs.len() ==> final(r)@[(
            #[trigger] p@.blocks[q as int].succs[k]).0 as int],
        changed ==> unmarked(final(r)@) < unmarked(old(r)@),
        !changed ==> final(r)@ == old(r)@,
{
    let ghost m = p@;
    let ghost r0 = r@;
    assert(m.blocks[q as int] == p.blocks@[q as int]@);
    let succs = &p.blocks[q].succs;
    let mut changed = false;
    let mut k: usize = 0;
    while k < succs.len()
        invariant
            m == p@,
            m.wf(),
            q < p.blocks.len(),
            succs@ == m.blocks[q as int].succs,
            k <= succs.len(),
            marks_sound(m, id, r@),
            r@[q as int],
            !m.defined_in(q as int, id),
            r0.len() == r@.len(),
            forall|b: int| 0 <= b < r0.len() && r0[b] ==> #[trigger] r@[b],
            forall|k2: int| 0 <= k2 < k ==> r@[(#[trigger] m.blocks[q as int].succs[k2]).0 as int],
            changed ==> unmarked(r@) < unmarked(r0),
            !changed ==> r@ == r0,
        decreases succs.len() - k,
    {
        assert(m.blocks[q as int].succs[k as int].0 < m.blocks.len());
        let s = succs[k].0 as usize;
        if !r[s] {
            let ghost before = r@;
            r.set(s, true);
            changed = true;
            proof {
                lemma_mark(before, s as int);
                let fuel = choose|fuel: nat| m.reached(q as int, id, fuel);
                assert(m.has_succ(q as int, s as int));
                lemma_reached_via(m, s as int, m.blocks.len() as int, q as int, id, fuel);
                assert(m.reached(s as int, id, fuel + 1));
            }
        }
        k += 1;
    }
    changed
}

/// For every block, whether the vreg can be without a definition at
/// its start.
fn exposed_table(p: &Program, defd: &Vec<bool>, id: usize) -> (r: Vec<bool>)
    requires
        p@.wf(),
        defd@.len() == p@.blocks.len(),
        forall|b: int| 0 <= b < defd@.len() ==> #[trigger] defd@[b] == p@.defined_in(b, id),
    ensures
        r@.len() == p@.blocks.len(),
        forall|b: int| 0 <= b < r@.len() ==> #[trigger] r@[b] == p@.exposed(b, id),
{
    let ghost m = p@;
    let nb = p.blocks.len();
    let e = p.entry.0 as usize;
    let mut r: Vec<bool> = filled(nb, false);
    r.set(e, true);
    proof {
        assert(m.reached(e as int, id, 0));
        assert(marks_sound(m, id, r@)) by {
            assert forall|b: int| 0 <= b < r@.len() && #[trigger] r@[b] implies m.exposed(b, id) by {
                assert(b == e);
            }
        }
    }
    let mut changed = true;
    while changed
        invariant
            m == p@,
            m.wf(),
            nb == p.blocks.len(),
            e == m.entry.0,
            defd@.len() == nb,
            forall|b: int| 0 <= b < defd@.len() ==> #[trigger] defd@[b] == m.defined_in(b, id),
            marks_sound(m, id, r@),
            r@[e as int],
            !changed ==> marks_closed(m, id, r@),
        decreases unmarked(r@), if changed { 1int } else { 0int },
    {
        changed = false;
        let ghost r0 = r@;
        let mut q: usize = 0;
        while q < nb
            invariant
                m == p@,
                m.wf(),
                nb == p.blocks.len(),
                e == m.entry.0,
                defd@.len() == nb,
                forall|b: int| 0 <= b < defd@.len() ==> #[trigger] defd@[b] == m.defined_in(b, id),
                marks_sound(m, id, r@),
                r@[e as int],
                q <= nb,
                changed ==> unmarked(r@) < unmarked(r0),
                !changed ==> r@ == r0,
                !changed ==> forall|q2: int, k: int|
                    0 <= q2 < q && 0 <= k < m.blocks[q2].succs.len() && r0[q2] && !m.defined_in(
                        q2,
                        id,
                    ) ==> r0[(#[trigger] m.blocks[q2].succs[k]).0 as int],
            decreases nb - q,
        {
            if r[q] && !defd[q] {
                let more = mark_succs(p, id, q, &mut r);
                if more {
                    changed = true;
                }
            }
            q += 1;
        }
        proof {
            lemma_unmarked_bounds(r@);
        }
    }
    proof {
        assert forall|b: int| 0 <= b < r@.len() implies #[trigger] r@[b] == m.exposed(b, id) by {
            if m.exposed(b, id) {
                let fuel = choose|fuel: nat| m.reached(b, id, fuel);
                lemma_closed_holds(m, id, r@, b, fuel);
            }
        }
    }
    r
}

/// The first instruction of block `b` that reads the vreg before the
/// block has defined it, with the vreg as the reading operand names it.
fn early_read(p: &Program, b: usize, id: usize) -> (r: Option<(VReg, usize)>)
    requires
        p@.wf(),
        b < p.blocks.len(),
        !p@.is_pinned(id),
    ensures
        r is Some == (p@.first_early_read(b as int, id) < p@.blocks[b as int].insns.1.0),
        r is Some ==> r.unwrap().1 == p@.first_early_read(b as int, id) && r.unwrap().1
            < p@.insts.len() && r.unwrap().0 == p@.insts[r.unwrap().1 as int].operands[p@.reading_operand(
            r.unwrap().1 as int,
            id,
        )].spec_vreg(),
{
    assert(p@.blocks[b as int] == p.blocks@[b as int]@);
    assert(p@.blocks[b as int].insns.wf() && p@.blocks[b as int].insns.1.0 <= p@.insts.len());
    let first = p.blocks[b].insns.0.0 as usize;
    let end = p.blocks[b].insns.1.0 as usize;
    let ghost f = |i: int| p@.reads_early(b as int, i, id);
    let mut d = block_has_param(p, b, id);
    let mut i: usize = first;
    while i < end
        invariant
            !p@.is_pinned(id),
            b < p.blocks.len(),
            first == p@.blocks[b as int].insns.0.0,
            end == p@.blocks[b as int].insns.1.0,
            first <= i <= end <= p.insts.len(),
            d == p@.defined_before(b as int, i as int, id),
            f == |i: int| p@.reads_early(b as int, i, id),
            p@.first_early_read(b as int, id) == first_such(i as int, end as int, f),
        decreases end - i,
    {
        if !d {
            match reading_vreg(p, i, id) {
                Some(v) => {
                    assert(f(i as int));
                    return Some((v, i));
                },
                None => {},
            }
        }
        assert(!f(i as int));
        if inst_defines(p, i, id) {
            d = true;
        }
        i += 1;
    }
    None
}

/// The error for a vreg that is read where no definition of it has to
/// have come before, if there is such a place.
pub(crate) fn exposed_read(p: &Program, id: usize) -> (r: Option<RegAllocError>)
    requires
        p@.wf(),
        !p@.is_pinned(id),
    ensures
        r is Some == (p@.first_exposing_block(id) < p@.blocks.len()),
        r is Some ==> r.unwrap() == p@.exposed_read_error(id),
{
    let defd = defines_table(p, id);
    let ex = exposed_table(p, &defd, id);
    let nb = p.blocks.len();
    let ghost g = |b: int| p@.block_exposes(b, id);
    let mut b: usize = 0;
    while b < nb
        invariant
            p@.wf(),
            !p@.is_pinned(id),
            nb == p.blocks.len(),
            b <= nb,
            ex@.len() == nb,
            forall|c: int| 0 <= c < ex@.len() ==> #[trigger] ex@[c] == p@.exposed(c, id),
            g == |b: int| p@.block_exposes(b, id),
            p@.first_exposing_block(id) == first_such(b as int, nb as int, g),
        decreases nb - b,
    {
        if ex[b] {
            match early_read(p, b, id) {
                Some((v, i)) => {
                    assert(g(b as int));
                    return Some(RegAllocError::SSA(v, Inst::new(i)));
                },
                None => {},
            }
        }
        assert(!g(b as int));
        b += 1;
    }
    None
}

impl ProgramModel {
    /// The least id of a vreg that is live at the start of the entry
    /// block, or the number of vregs.
    pub open spec fn first_livein(self) -> int {
        first_such(
            0,
            self.num_vregs as int,
            |id: int| self.live_in(self.entry.0 as int, id as usize),
        )
    }

    /// The error for a program in which some vreg is live at the start
    /// of the entry block, by the least such vreg: that it is live
    /// there, if nothing defines it; else the instruction that reads it
    /// where its definition need not have come before.
    pub open spec fn entry_error(self) -> RegAllocError {
        let v = self.first_livein() as usize;
        if !self.all_defs().contains(v) {
            RegAllocError::EntryLivein
        } else {
            self.exposed_read_error(v)
        }
    }
}

/// A vreg that is live before an instruction is read where no
/// definition of it has to have come before, if it can be without a
/// definition at the start of the block of the instruction, and the
/// block has not defined it before the instruction.
pub proof fn lemma_live_is_exposed(m: ProgramModel, b: int, i: int, id: usize, fuel: nat)
    requires
        m.wf(),
        m.block_error() is None,
        0 <= b < m.blocks.len(),
        m.blocks[b].insns.0.0 <= i < m.blocks[b].insns.1.0,
        m.exposed(b, id),
        !m.defined_before(b, i, id),
        m.live_before(b, i, id, fuel),
    ensures
        m.first_exposing_block(id) < m.blocks.len(),
    decreases fuel, 1int,
{
    if m.uses(i, id) {
        let f = |j: int| m.reads_early(b, j, id);
        lemma_first_such(m.blocks[b].insns.0.0 as int, m.blocks[b].insns.1.0 as int, f);
        assert(f(i));
        let g = |c: int| m.block_exposes(c, id);
        lemma_first_such(0, m.blocks.len() as int, g);
        assert(g(b));
    } else if i + 1 < m.blocks[b].insns.1.0 {
        assert(!m.defined_before(b, i + 1, id));
        lemma_live_is_exposed(m, b, i + 1, id, (fuel - 1) as nat);
    } else {
        assert(!m.defined_before(b, i + 1, id));
        lemma_live_out_is_exposed(m, b, m.blocks[b].succs.len() as int, id, (fuel - 1) as nat);
    }
}

/// The same for a vreg that is live into one of the first `s`
/// successors of a block that does not define it.
pub proof fn lemma_live_out_is_exposed(m: ProgramModel, b: int, s: int, id: usize, fuel: nat)
    requires
        m.wf(),
        m.block_error() is None,
        0 <= b < m.blocks.len(),
        0 <= s <= m.blocks[b].succs.len(),
        m.exposed(b, id),
        !m.defined_in(b, id),
        m.live_out_upto(b, s, id, fuel),
    ensures
        m.first_exposing_block(id) < m.blocks.len(),
    decreases fuel, 2 + s,
{
    if m.live_out_upto(b, s - 1, id, fuel) {
        lemma_live_out_is_exposed(m, b, s - 1, id, fuel);
    } else {
        let sb = m.blocks[b].succs[s - 1].0 as int;
        assert(m.blocks[b].succs[s - 1].0 < m.blocks.len());
        crate::cfg::lemma_blocks_well_formed(m, sb);
        let f0 = choose|f0: nat| m.reached(b, id, f0);
        assert(m.has_succ(b, sb));
        lemma_reached_via(m, sb, m.blocks.len() as int, b, id, f0);
        assert(m.reached(sb, id, f0 + 1));
        assert(!m.defined_before(sb, m.blocks[sb].insns.0.0 as int, id));
        lemma_live_is_exposed(m, sb, m.blocks[sb].insns.0.0 as int, id, fuel);
    }
}

/// The error for the least vreg that is live at the start of the entry
/// block, if there is one.
pub fn check_entry(p: &Program, t: &Vec<Vec<bool>>) -> (r: Option<RegAllocError>)
    requires
        p@.wf(),
        p@.block_error() is None,
        table_ok(p@, t@),
        sound(p@, t@),
        closed(p@, t@),
    ensures
        r is Some == p@.entry_livein(),
        r is Some ==> r.unwrap() == p@.entry_error(),
{
    let ghost m = p@;
    let e = p.entry.0 as usize;
    let row = &t[e];
    let v = p.num_vregs;
    let ghost f = |id: int| m.live_in(m.entry.0 as int, id as usize);
    let mut id: usize = 0;
    while id < v
        invariant
            m == p@,
            m.wf(),
            m.block_error() is None,
            table_ok(m, t@),
            sound(m, t@),
            closed(m, t@),
            e == m.entry.0,
            row@ == t@[e as int]@,
            v == m.num_vregs,
            id <= v,
            f == |id: int| m.live_in(m.entry.0 as int, id as usize),
            m.first_livein() == first_such(id as int, v as int, f),
            forall|j: int| 0 <= j < id ==> !#[trigger] t@[e as int]@[j],
        decreases v - id,
    {
        proof {
            lemma_table_exact(m, t@, e as int, id as int);
        }
        if row[id] {
            proof {
                assert(f(id as int));
                crate::cfg::lemma_blocks_well_formed(m, e as int);
                let first = m.blocks[e as int].insns.0.0 as int;
                let fuel = choose|fuel: nat| m.live_before(e as int, first, id, fuel);
                let w = lemma_live_is_read(m, e as int, first, id, fuel);
                assert(!m.is_pinned(id));
            }
            let all = all_defs_table(p);
            if !all[id] {
                return Some(RegAllocError::EntryLivein);
            }
            proof {
                let first = m.blocks[e as int].insns.0.0 as int;
                let fuel = choose|fuel: nat| m.live_before(e as int, first, id, fuel);
                assert(m.reached(e as int, id, 0));
                assert(!m.defined_before(e as int, first, id));
                lemma_live_is_exposed(m, e as int, first, id, fuel);
            }
            return exposed_read(p, id);
        }
        assert(!f(id as int));
        id += 1;
    }
    proof {
        assert forall|j: int| 0 <= j < m.num_vregs implies !#[trigger] m.live_in(
            m.entry.0 as int,
            j as usize,
        ) by {
            lemma_table_exact(m, t@, e as int, j);
            assert(!t@[e as int]@[j]);
        }
    }
    None
}

} // verus!
