//! Single assignment: every vreg that is not pinned is defined once and
//! never modified, and every vreg that is used is defined somewhere, or
//! is live at the start of the entry block.

use vstd::prelude::*;
use crate::cfg::{first_such, lemma_blocks_well_formed};
use crate::function::{pin_from, Program, ProgramModel};
use crate::index::Inst;
use crate::liveness::{closed, lemma_table_exact, sound, table_ok};
use crate::operand::OperandKind;
use crate::output::RegAllocError;
use crate::regs::PReg;

verus! {

impl ProgramModel {
    /// The ids of the vregs that are defined before block `b`: by the
    /// parameters and instructions of the blocks before it.
    pub open spec fn defs_before_block(self, b: int) -> Set<usize>
        decreases b, 0int, 0int, 0int,
    {
        if b <= 0 {
            Set::empty()
        } else {
            self.defs_before_inst(b - 1, self.blocks[b - 1].insns.1.0 as int)
        }
    }

    /// The ids of the vregs that are defined before parameter `k` of block `b`.
    pub open spec fn defs_before_param(self, b: int, k: int) -> Set<usize>
        decreases b, 1int, k, 0int,
    {
        if b < 0 {
            Set::empty()
        } else if k <= 0 {
            self.defs_before_block(b)
        } else {
            self.defs_before_param(b, k - 1).insert(self.blocks[b].params[k - 1].spec_vreg())
        }
    }

    /// The ids of the vregs that are defined before instruction `i` of
    /// block `b`: before the block, by its parameters, or by an earlier
    /// instruction of it.
    pub open spec fn defs_before_inst(self, b: int, i: int) -> Set<usize>
        decreases b, 2int, i, 0int,
    {
        if b < 0 {
            Set::empty()
        } else if i <= self.blocks[b].insns.0.0 || i <= 0 {
            self.defs_before_param(b, self.blocks[b].params.len() as int)
        } else {
            self.defs_before_operand(b, i - 1, self.insts[i - 1].operands.len() as int)
        }
    }

    /// The ids of the vregs that are defined before operand `k` of
    /// instruction `i` of block `b`.
    pub open spec fn defs_before_operand(self, b: int, i: int, k: int) -> Set<usize>
        decreases b, 2int, i, 1 + if k > 0 { k } else { 0 },
    {
        if b < 0 || i < 0 {
            Set::empty()
        } else if k <= 0 {
            self.defs_before_inst(b, i)
        } else {
            let before = self.defs_before_operand(b, i, k - 1);
            let op = self.insts[i].operands[k - 1];
            if op.spec_kind() == OperandKind::Def {
                before.insert(op.spec_vreg().spec_vreg())
            } else {
                before
            }
        }
    }

    /// The ids of the vregs that the program defines anywhere.
    pub open spec fn all_defs(self) -> Set<usize> {
        self.defs_before_block(self.blocks.len() as int)
    }

    /// Whether the vreg with the given id is pinned to a register.
    pub open spec fn is_pinned(self, id: usize) -> bool {
        self.pin_of(id) is Some
    }

    /// A block parameter breaks single assignment when its vreg is
    /// defined before it.
    pub open spec fn param_breaks_ssa(self, b: int, k: int) -> bool {
        let id = self.blocks[b].params[k].spec_vreg();
        !self.is_pinned(id) && self.defs_before_param(b, k).contains(id)
    }

    /// Whether the vreg is accounted for: the program defines it
    /// somewhere, or it is live at the start of the entry block, which
    /// is told as an error of its own.
    pub open spec fn known(self, id: usize) -> bool {
        self.all_defs().contains(id) || self.live_in(self.entry.0 as int, id)
    }

    /// An operand breaks single assignment when it modifies its vreg,
    /// defines a vreg that is defined before it, or uses a vreg that
    /// nothing defines and that is not live at the start of the entry
    /// block. Pinned vregs are exempt.
    pub open spec fn operand_breaks_ssa(self, b: int, i: int, k: int) -> bool {
        let op = self.insts[i].operands[k];
        let id = op.spec_vreg().spec_vreg();
        !self.is_pinned(id) && match op.spec_kind() {
            OperandKind::Mod => true,
            OperandKind::Def => self.defs_before_operand(b, i, k).contains(id),
            OperandKind::Use => !self.known(id),
        }
    }

    pub open spec fn first_bad_param(self, b: int) -> int {
        first_such(0, self.blocks[b].params.len() as int, |k: int| self.param_breaks_ssa(b, k))
    }

    pub open spec fn first_bad_operand(self, b: int, i: int) -> int {
        first_such(
            0,
            self.insts[i].operands.len() as int,
            |k: int| self.operand_breaks_ssa(b, i, k),
        )
    }

    pub open spec fn inst_breaks_ssa(self, b: int, i: int) -> bool {
        self.first_bad_operand(b, i) < self.insts[i].operands.len()
    }

    pub open spec fn first_bad_inst(self, b: int) -> int {
        first_such(
            self.blocks[b].insns.0.0 as int,
            self.blocks[b].insns.1.0 as int,
            |i: int| self.inst_breaks_ssa(b, i),
        )
    }

    /// The error of the first parameter of block `b` that breaks single
    /// assignment, else of the first operand of the block that does.
    pub open spec fn block_ssa_error(self, b: int) -> Option<RegAllocError> {
        let k = self.first_bad_param(b);
        let i = self.first_bad_inst(b);
        if k < self.blocks[b].params.len() {
            Some(RegAllocError::SSA(self.blocks[b].params[k], Inst::spec_invalid()))
        } else if i < self.blocks[b].insns.1.0 {
            Some(
                RegAllocError::SSA(
                    self.insts[i].operands[self.first_bad_operand(b, i)].spec_vreg(),
                    Inst(i as u32),
                ),
            )
        } else {
            None
        }
    }

    pub open spec fn first_ssa_block(self) -> int {
        first_such(0, self.blocks.len() as int, |b: int| self.block_ssa_error(b) is Some)
    }

    /// The error of the first parameter or operand, in the order of the
    /// blocks, that breaks single assignment.
    pub open spec fn ssa_error(self) -> Option<RegAllocError> {
        let b = self.first_ssa_block();
        if b < self.blocks.len() {
            self.block_ssa_error(b)
        } else {
            None
        }
    }
}

/// The parameters of a block are among the vregs defined before a
/// later parameter of it.
pub proof fn lemma_param_defined(m: ProgramModel, b: int, k: int, k1: int)
    requires
        0 <= b,
        0 <= k1 < k,
    ensures
        m.defs_before_param(b, k).contains(m.blocks[b].params[k1].spec_vreg()),
    decreases k,
{
    if k1 < k - 1 {
        lemma_param_defined(m, b, k - 1, k1);
    }
}

/// Where nothing breaks single assignment, no parameter of a block
/// that is not pinned is the vreg of an earlier parameter of the block.
pub proof fn lemma_params_distinct(m: ProgramModel, b: int, k1: int, k2: int)
    requires
        m.ssa_error() is None,
        0 <= b < m.blocks.len(),
        0 <= k1 < k2 < m.blocks[b].params.len(),
        !m.is_pinned(m.blocks[b].params[k2].spec_vreg()),
    ensures
        m.blocks[b].params[k1].spec_vreg() != m.blocks[b].params[k2].spec_vreg(),
{
    let f = |b: int| m.block_ssa_error(b) is Some;
    crate::cfg::lemma_first_such(0, m.blocks.len() as int, f);
    assert(!f(b));
    let g = |k: int| m.param_breaks_ssa(b, k);
    crate::cfg::lemma_first_such(0, m.blocks[b].params.len() as int, g);
    assert(!g(k2));
    lemma_param_defined(m, b, k2, k1);
}

/// A table of `n` entries that all hold `value`.
pub fn filled<T: Copy>(n: usize, value: T) -> (r: Vec<T>)
    ensures
        r@.len() == n,
        forall|i: int| 0 <= i < n ==> r@[i] == value,
{
    let mut r: Vec<T> = Vec::new();
    let mut i: usize = 0;
    while i < n
        invariant
            i <= n,
            r@.len() == i,
            forall|j: int| 0 <= j < i ==> r@[j] == value,
        decreases n - i,
    {
        r.push(value);
        i += 1;
    }
    r
}

/// For every vreg id, the register that the vreg is pinned to, if any.
pub fn pin_table(p: &Program) -> (r: Vec<Option<PReg>>)
    requires
        p@.wf(),
    ensures
        r@.len() == p@.num_vregs,
        forall|id: int| 0 <= id < p@.num_vregs ==> r@[id] == p@.pin_of(id as usize),
{
    let mut r: Vec<Option<PReg>> = filled(p.num_vregs, None);
    let mut k: usize = p.pinned_vregs.len();
    while k > 0
        invariant
            p@.wf(),
            k <= p.pinned_vregs.len(),
            r@.len() == p@.num_vregs,
            forall|id: int|
                0 <= id < p@.num_vregs ==> r@[id] == pin_from(
                    p@.pinned_vregs,
                    p@.pinned_pregs,
                    id as usize,
                    k as int,
                ),
        decreases k,
    {
        k -= 1;
        let id = p.pinned_vregs[k].vreg();
        assert(p@.pinned_vregs[k as int].spec_vreg() < p@.num_vregs);
        r.set(id, p.pinned_pregs[k]);
    }
    r
}

/// For every vreg id, whether the program defines the vreg anywhere.
pub(crate) fn all_defs_table(p: &Program) -> (r: Vec<bool>)
    requires
        p@.wf(),
        p@.block_error() is None,
    ensures
        r@.len() == p@.num_vregs,
        forall|id: int| 0 <= id < p@.num_vregs ==> r@[id] == p@.all_defs().contains(id as usize),
{
    let mut defined: Vec<bool> = filled(p.num_vregs, false);
    let n = p.blocks.len();
    let mut b: usize = 0;
    while b < n
        invariant
            p@.wf(),
            p@.block_error() is None,
            n == p.blocks.len(),
            b <= n,
            defined@.len() == p@.num_vregs,
            forall|id: int|
                0 <= id < p@.num_vregs ==> defined@[id] == p@.defs_before_block(b as int).contains(
                    id as usize,
                ),
        decreases n - b,
    {
        add_block_defs(p, b, &mut defined);
        b += 1;
    }
    defined
}

/// Add to the table the vregs that block `b` defines.
fn add_block_defs(p: &Program, b: usize, defined: &mut Vec<bool>)
    requires
        p@.wf(),
        p@.block_error() is None,
        b < p.blocks.len(),
        old(defined)@.len() == p@.num_vregs,
        forall|id: int|
            0 <= id < p@.num_vregs ==> old(defined)@[id] == p@.defs_before_block(b as int).contains(
                id as usize,
            ),
    ensures
        final(defined)@.len() == p@.num_vregs,
        forall|id: int|
            0 <= id < p@.num_vregs ==> final(defined)@[id] == p@.defs_before_block(
                b as int + 1,
            ).contains(id as usize),
{
    proof {
        lemma_blocks_well_formed(p@, b as int);
    }
    assert(p@.blocks[b as int] == p.blocks@[b as int]@);
    let block = &p.blocks[b];
    let mut k: usize = 0;
    while k < block.params.len()
        invariant
            p@.wf(),
            b < p.blocks.len(),
            block@ == p@.blocks[b as int],
            k <= block.params.len(),
            defined@.len() == p@.num_vregs,
            forall|id: int|
                0 <= id < p@.num_vregs ==> defined@[id] == p@.defs_before_param(
                    b as int,
                    k as int,
                ).contains(id as usize),
        decreases block.params.len() - k,
    {
        let id = block.params[k].vreg();
        assert(p@.blocks[b as int].params[k as int].spec_vreg() < p@.num_vregs);
        defined.set(id, true);
        k += 1;
    }
    let first = block.insns.0.0 as usize;
    let end = block.insns.1.0 as usize;
    let mut i: usize = first;
    while i < end
        invariant
            p@.wf(),
            b < p.blocks.len(),
            block@ == p@.blocks[b as int],
            first == block.insns.0.0,
            end == block.insns.1.0,
            first <= i <= end <= p.insts.len(),
            defined@.len() == p@.num_vregs,
            forall|id: int|
                0 <= id < p@.num_vregs ==> defined@[id] == p@.defs_before_inst(
                    b as int,
                    i as int,
                ).contains(id as usize),
        decreases end - i,
    {
        assert(p@.insts[i as int] == p.insts@[i as int]@);
        let ops = &p.insts[i].operands;
        let mut k: usize = 0;
        while k < ops.len()
            invariant
                p@.wf(),
                b < p.blocks.len(),
                i < p.insts.len(),
                ops@ == p@.insts[i as int].operands,
                k <= ops.len(),
                defined@.len() == p@.num_vregs,
                forall|id: int|
                    0 <= id < p@.num_vregs ==> defined@[id] == p@.defs_before_operand(
                        b as int,
                        i as int,
                        k as int,
                    ).contains(id as usize),
            decreases ops.len() - k,
        {
            let op = ops[k];
            assert(p@.insts[i as int].operands[k as int].spec_vreg().spec_vreg() < p@.num_vregs);
            if op.kind() == OperandKind::Def {
                defined.set(op.vreg().vreg(), true);
            }
            k += 1;
        }
        i += 1;
    }
}

/// The error of block `b` against single assignment, if it has one; if
/// not, the table is brought from before the block to after it.
fn check_block_ssa(
    p: &Program,
    b: usize,
    pins: &Vec<Option<PReg>>,
    all: &Vec<bool>,
    defined: &mut Vec<bool>,
) -> (r: Option<RegAllocError>)
    requires
        p@.wf(),
        p@.block_error() is None,
        b < p.blocks.len(),
        pins@.len() == p@.num_vregs,
        forall|id: int| 0 <= id < p@.num_vregs ==> pins@[id] == p@.pin_of(id as usize),
        all@.len() == p@.num_vregs,
        forall|id: int| 0 <= id < p@.num_vregs ==> all@[id] == p@.known(id as usize),
        old(defined)@.len() == p@.num_vregs,
        forall|id: int|
            0 <= id < p@.num_vregs ==> old(defined)@[id] == p@.defs_before_block(b as int).contains(
                id as usize,
            ),
    ensures
        r == p@.block_ssa_error(b as int),
        final(defined)@.len() == p@.num_vregs,
        r is None ==> forall|id: int|
            0 <= id < p@.num_vregs ==> final(defined)@[id] == p@.defs_before_block(
                b as int + 1,
            ).contains(id as usize),
{
    proof {
        lemma_blocks_well_formed(p@, b as int);
    }
    assert(p@.blocks[b as int] == p.blocks@[b as int]@);
    let block = &p.blocks[b];
    let ghost fp = |k: int| p@.param_breaks_ssa(b as int, k);
    let mut k: usize = 0;
    while k < block.params.len()
        invariant
            p@.wf(),
            b < p.blocks.len(),
            block@ == p@.blocks[b as int],
            k <= block.params.len(),
            pins@.len() == p@.num_vregs,
            forall|id: int| 0 <= id < p@.num_vregs ==> pins@[id] == p@.pin_of(id as usize),
            defined@.len() == p@.num_vregs,
            forall|id: int|
                0 <= id < p@.num_vregs ==> defined@[id] == p@.defs_before_param(
                    b as int,
                    k as int,
                ).contains(id as usize),
            fp == |k: int| p@.param_breaks_ssa(b as int, k),
            p@.first_bad_param(b as int) == first_such(k as int, block.params.len() as int, fp),
        decreases block.params.len() - k,
    {
        let v = block.params[k];
        let id = v.vreg();
        assert(p@.blocks[b as int].params[k as int].spec_vreg() < p@.num_vregs);
        if pins[id].is_none() && defined[id] {
            assert(fp(k as int));
            return Some(RegAllocError::SSA(v, Inst::invalid()));
        }
        assert(!fp(k as int));
        defined.set(id, true);
        k += 1;
    }
    let first = block.insns.0.0 as usize;
    let end = block.insns.1.0 as usize;
    let ghost fi = |i: int| p@.inst_breaks_ssa(b as int, i);
    let mut i: usize = first;
    while i < end
        invariant
            p@.wf(),
            b < p.blocks.len(),
            block@ == p@.blocks[b as int],
            first == block.insns.0.0,
            end == block.insns.1.0,
            first <= i <= end <= p.insts.len(),
            pins@.len() == p@.num_vregs,
            forall|id: int| 0 <= id < p@.num_vregs ==> pins@[id] == p@.pin_of(id as usize),
            all@.len() == p@.num_vregs,
            forall|id: int|
                0 <= id < p@.num_vregs ==> all@[id] == p@.known(id as usize),
            defined@.len() == p@.num_vregs,
            forall|id: int|
                0 <= id < p@.num_vregs ==> defined@[id] == p@.defs_before_inst(
                    b as int,
                    i as int,
                ).contains(id as usize),
            p@.first_bad_param(b as int) >= block.params.len(),
            fi == |i: int| p@.inst_breaks_ssa(b as int, i),
            p@.first_bad_inst(b as int) == first_such(i as int, end as int, fi),
        decreases end - i,
    {
        assert(p@.insts[i as int] == p.insts@[i as int]@);
        let ops = &p.insts[i].operands;
        let ghost fo = |k: int| p@.operand_breaks_ssa(b as int, i as int, k);
        let mut k: usize = 0;
        while k < ops.len()
            invariant
                p@.wf(),
                b < p.blocks.len(),
                block@ == p@.blocks[b as int],
                end == block.insns.1.0,
                i < end <= p.insts.len(),
                ops@ == p@.insts[i as int].operands,
                k <= ops.len(),
                pins@.len() == p@.num_vregs,
                forall|id: int| 0 <= id < p@.num_vregs ==> pins@[id] == p@.pin_of(id as usize),
                all@.len() == p@.num_vregs,
                forall|id: int|
                    0 <= id < p@.num_vregs ==> all@[id] == p@.known(id as usize),
                defined@.len() == p@.num_vregs,
                forall|id: int|
                    0 <= id < p@.num_vregs ==> defined@[id] == p@.defs_before_operand(
                        b as int,
                        i as int,
                        k as int,
                    ).contains(id as usize),
                p@.first_bad_param(b as int) >= block.params.len(),
                fi == |i: int| p@.inst_breaks_ssa(b as int, i),
                p@.first_bad_inst(b as int) == first_such(i as int, end as int, fi),
                fo == |k: int| p@.operand_breaks_ssa(b as int, i as int, k),
                p@.first_bad_operand(b as int, i as int) == first_such(
                    k as int,
                    ops.len() as int,
                    fo,
                ),
            decreases ops.len() - k,
        {
            let op = ops[k];
            let v = op.vreg();
            let id = v.vreg();
            assert(p@.insts[i as int].operands[k as int].spec_vreg().spec_vreg() < p@.num_vregs);
            let bad = pins[id].is_none() && match op.kind() {
                OperandKind::Mod => true,
                OperandKind::Def => defined[id],
                OperandKind::Use => !all[id],
            };
            if bad {
                assert(fo(k as int));
                assert(fi(i as int));
                return Some(RegAllocError::SSA(v, Inst::new(i)));
            }
            assert(!fo(k as int));
            if op.kind() == OperandKind::Def {
                defined.set(id, true);
            }
            k += 1;
        }
        assert(!fi(i as int));
        i += 1;
    }
    None
}

/// For every vreg id, whether the vreg is accounted for.
fn known_table(p: &Program, t: &Vec<Vec<bool>>) -> (r: Vec<bool>)
    requires
        p@.wf(),
        p@.block_error() is None,
        table_ok(p@, t@),
        sound(p@, t@),
        closed(p@, t@),
    ensures
        r@.len() == p@.num_vregs,
        forall|id: int| 0 <= id < p@.num_vregs ==> r@[id] == p@.known(id as usize),
{
    let mut all = all_defs_table(p);
    let e = p.entry.0 as usize;
    let row = &t[e];
    let v = p.num_vregs;
    let mut id: usize = 0;
    while id < v
        invariant
            p@.wf(),
            p@.block_error() is None,
            table_ok(p@, t@),
            sound(p@, t@),
            closed(p@, t@),
            e == p@.entry.0,
            row@ == t@[e as int]@,
            v == p@.num_vregs,
            id <= v,
            all@.len() == v,
            forall|j: int| 0 <= j < id ==> all@[j] == p@.known(j as usize),
            forall|j: int| id <= j < v ==> all@[j] == p@.all_defs().contains(j as usize),
        decreases v - id,
    {
        proof {
            lemma_table_exact(p@, t@, e as int, id as int);
        }
        if row[id] {
            all.set(id, true);
        }
        id += 1;
    }
    all
}

/// The first error against single assignment, if there is one.
pub fn check_ssa(p: &Program, pins: &Vec<Option<PReg>>, t: &Vec<Vec<bool>>) -> (r: Option<
    RegAllocError,
>)
    requires
        p@.wf(),
        p@.block_error() is None,
        pins@.len() == p@.num_vregs,
        forall|id: int| 0 <= id < p@.num_vregs ==> pins@[id] == p@.pin_of(id as usize),
        table_ok(p@, t@),
        sound(p@, t@),
        closed(p@, t@),
    ensures
        r == p@.ssa_error(),
{
    let all = known_table(p, t);
    let mut defined: Vec<bool> = filled(p.num_vregs, false);
    let ghost f = |b: int| p@.block_ssa_error(b) is Some;
    let n = p.blocks.len();
    let mut b: usize = 0;
    while b < n
        invariant
            p@.wf(),
            p@.block_error() is None,
            n == p.blocks.len(),
            b <= n,
            pins@.len() == p@.num_vregs,
            forall|id: int| 0 <= id < p@.num_vregs ==> pins@[id] == p@.pin_of(id as usize),
            all@.len() == p@.num_vregs,
            forall|id: int|
                0 <= id < p@.num_vregs ==> all@[id] == p@.known(id as usize),
            defined@.len() == p@.num_vregs,
            forall|id: int|
                0 <= id < p@.num_vregs ==> defined@[id] == p@.defs_before_block(b as int).contains(
                    id as usize,
                ),
            f == |b: int| p@.block_ssa_error(b) is Some,
            p@.first_ssa_block() == first_such(b as int, n as int, f),
        decreases n - b,
    {
        let e = check_block_ssa(p, b, pins, &all, &mut defined);
        if e.is_some() {
            assert(f(b as int));
            return e;
        }
        assert(!f(b as int));
        b += 1;
    }
    None
}

} // verus!
