//! A check of what a program owes the allocator before it is run.

use vstd::prelude::*;
use crate::function::{pin_from, Program, ProgramModel};
use crate::operand::{OperandConstraint, OperandKind};
use crate::regs::{PReg, VReg};
use crate::ssa::filled;

verus! {

/// Whether two registers, or two absences of one, are the same.
fn same_pin(a: Option<PReg>, b: Option<PReg>) -> (r: bool)
    ensures
        r == (a == b),
{
    match (a, b) {
        (None, None) => true,
        (Some(x), Some(y)) => {
            proof {
                use_type_invariant(&x);
                use_type_invariant(&y);
                crate::regs::lemma_preg_determined(x);
                crate::regs::lemma_preg_determined(y);
            }
            x.hw_enc() == y.hw_enc() && x.class() == y.class()
        },
        _ => false,
    }
}

impl Program {
    fn check_limits(&self) -> (r: bool)
        ensures
            r == self@.within_limits(),
    {
        self.insts.len() < 0x4000_0000 && self.blocks.len() < 0x4000_0000 && self.num_vregs
            <= VReg::MAX && self.pinned_pregs.len() == self.pinned_vregs.len()
    }

    fn check_ranges(&self) -> (r: bool)
        ensures
            r == (self@.ranges_in_bounds() && self@.partitioned()),
    {
        let nb = self.blocks.len();
        let n = self.insts.len();
        if nb == 0 {
            return false;
        }
        assert(self@.blocks[0] == self.blocks@[0]@);
        if self.blocks[0].insns.0.0 != 0 {
            return false;
        }
        let mut b: usize = 0;
        while b < nb
            invariant
                nb == self.blocks.len(),
                n == self.insts.len(),
                nb >= 1,
                self@.blocks[0].insns.0.0 == 0,
                b <= nb,
                forall|c: int|
                    0 <= c < b ==> (#[trigger] self@.blocks[c]).insns.wf() && self@.blocks[c].insns.1.0
                        <= n,
                forall|c: int|
                    0 < c < b ==> (#[trigger] self@.blocks[c]).insns.0 == self@.blocks[c
                        - 1].insns.1,
            decreases nb - b,
        {
            assert(self@.blocks[b as int] == self.blocks@[b as int]@);
            let range = self.blocks[b].insns;
            if range.0.0 > range.1.0 || range.1.0 as usize > n {
                return false;
            }
            if b > 0 {
                assert(self@.blocks[b as int - 1] == self.blocks@[b as int - 1]@);
                let prev = self.blocks[b - 1].insns;
                if range.0.0 != prev.1.0 {
                    return false;
                }
            }
            b += 1;
        }
        assert(self@.blocks[nb as int - 1] == self.blocks@[nb as int - 1]@);
        self.blocks[nb - 1].insns.1.0 as usize == n
    }

    fn check_offsets(&self) -> (r: bool)
        requires
            self@.within_limits(),
            self@.ranges_in_bounds(),
        ensures
            r == self@.offsets_normal(),
    {
        let n = self.insts.len();
        let nb = self.blocks.len();
        let mut last: Vec<bool> = filled(n, false);
        let mut b: usize = 0;
        while b < nb
            invariant
                self@.ranges_in_bounds(),
                n == self.insts.len(),
                nb == self.blocks.len(),
                b <= nb,
                last@.len() == n,
                forall|i: int|
                    0 <= i < n ==> #[trigger] last@[i] == exists|c: int|
                        0 <= c < b && #[trigger] self@.is_last_of(c, i),
            decreases nb - b,
        {
            assert(self@.blocks[b as int] == self.blocks@[b as int]@);
            let range = self.blocks[b].insns;
            let ghost before = last@;
            if range.1.0 > range.0.0 {
                last.set(range.1.0 as usize - 1, true);
            }
            proof {
                assert forall|i: int| 0 <= i < n implies #[trigger] last@[i] == exists|c: int|
                    0 <= c < b + 1 && #[trigger] self@.is_last_of(c, i) by {
                    if self@.is_last_of(b as int, i) {
                    } else {
                        assert(last@[i] == before[i]);
                        if exists|c: int| 0 <= c < b + 1 && #[trigger] self@.is_last_of(c, i) {
                            let c = choose|c: int| 0 <= c < b + 1 && #[trigger] self@.is_last_of(c, i);
                            assert(0 <= c < b && self@.is_last_of(c, i));
                        }
                        if before[i] {
                            let c = choose|c: int| 0 <= c < b && #[trigger] self@.is_last_of(c, i);
                            assert(0 <= c < b + 1 && self@.is_last_of(c, i));
                        }
                    }
                }
            }
            b += 1;
        }
        let mut i: usize = 0;
        while i < n
            invariant
                n == self.insts.len(),
                nb == self.blocks.len(),
                i <= n,
                last@.len() == n,
                forall|j: int|
                    0 <= j < n ==> #[trigger] last@[j] == exists|c: int|
                        0 <= c < nb && #[trigger] self@.is_last_of(c, j),
                forall|j: int|
                    0 <= j < i && !self@.is_block_end_branch(j) ==> (
                    #[trigger] self@.insts[j]).branch_arg_offset == 0,
            decreases n - i,
        {
            assert(self@.insts[i as int] == self.insts@[i as int]@);
            let inst = &self.insts[i];
            if !(inst.is_branch && last[i]) && inst.branch_arg_offset != 0 {
                proof {
                    if self@.is_block_end_branch(i as int) {
                        let c = choose|c: int| self@.is_last_of(c, i as int);
                        assert(0 <= c < nb && self@.is_last_of(c, i as int));
                    }
                }
                return false;
            }
            i += 1;
        }
        true
    }

    fn check_pins(&self) -> (r: bool)
        requires
            self@.within_limits(),
        ensures
            r == self@.pins_consistent(),
    {
        let n = self.pinned_vregs.len();
        let mut k: usize = 0;
        while k < n
            invariant
                n == self.pinned_vregs.len(),
                n == self.pinned_pregs.len(),
                k <= n,
                forall|j: int|
                    0 <= j < k ==> #[trigger] self@.pinned_pregs[j] == self@.pin_of(
                        self@.pinned_vregs[j].spec_vreg(),
                    ),
            decreases n - k,
        {
            let id = self.pinned_vregs[k].vreg();
            let mut j: usize = 0;
            while j < k && self.pinned_vregs[j].vreg() != id
                invariant
                    n == self.pinned_vregs.len(),
                    n == self.pinned_pregs.len(),
                    k < n,
                    j <= k,
                    id == self@.pinned_vregs[k as int].spec_vreg(),
                    self@.pin_of(id) == pin_from(
                        self@.pinned_vregs,
                        self@.pinned_pregs,
                        id,
                        j as int,
                    ),
                decreases k - j,
            {
                j += 1;
            }
            if !same_pin(self.pinned_pregs[j], self.pinned_pregs[k]) {
                return false;
            }
            k += 1;
        }
        true
    }

    fn check_edges(&self) -> (r: bool)
        ensures
            r == self@.edges_in_bounds(),
    {
        let nb = self.blocks.len();
        let mut b: usize = 0;
        while b < nb
            invariant
                nb == self.blocks.len(),
                b <= nb,
                forall|c: int, k: int|
                    0 <= c < b && 0 <= k < self@.blocks[c].succs.len() ==> (
                    #[trigger] self@.blocks[c].succs[k]).0 < nb,
                forall|c: int, k: int|
                    0 <= c < b && 0 <= k < self@.blocks[c].preds.len() ==> (
                    #[trigger] self@.blocks[c].preds[k]).0 < nb,
            decreases nb - b,
        {
            assert(self@.blocks[b as int] == self.blocks@[b as int]@);
            let block = &self.blocks[b];
            let mut k: usize = 0;
            while k < block.succs.len()
                invariant
                    nb == self.blocks.len(),
                    b < nb,
                    block@ == self@.blocks[b as int],
                    k <= block.succs.len(),
                    forall|j: int|
                        0 <= j < k ==> (#[trigger] self@.blocks[b as int].succs[j]).0 < nb,
                decreases block.succs.len() - k,
            {
                if block.succs[k].0 as usize >= nb {
                    assert(self@.blocks[b as int].succs[k as int] == block.succs@[k as int]);
                    return false;
                }
                k += 1;
            }
            let mut k: usize = 0;
            while k < block.preds.len()
                invariant
                    nb == self.blocks.len(),
                    b < nb,
                    block@ == self@.blocks[b as int],
                    k <= block.preds.len(),
                    forall|j: int|
                        0 <= j < k ==> (#[trigger] self@.blocks[b as int].preds[j]).0 < nb,
                decreases block.preds.len() - k,
            {
                if block.preds[k].0 as usize >= nb {
                    assert(self@.blocks[b as int].preds[k as int] == block.preds@[k as int]);
                    return false;
                }
                k += 1;
            }
            b += 1;
        }
        true
    }

    fn check_vregs(&self) -> (r: bool)
        ensures
            r == self@.vregs_in_bounds(),
    {
        let v = self.num_vregs;
        let n = self.insts.len();
        let mut i: usize = 0;
        while i < n
            invariant
                n == self.insts.len(),
                v == self@.num_vregs,
                i <= n,
                forall|i2: int, k: int|
                    0 <= i2 < i && 0 <= k < self@.insts[i2].operands.len() ==> (
                    #[trigger] self@.insts[i2].operands[k]).spec_vreg().spec_vreg() < v,
            decreases n - i,
        {
            assert(self@.insts[i as int] == self.insts@[i as int]@);
            let ops = &self.insts[i].operands;
            let mut k: usize = 0;
            while k < ops.len()
                invariant
                    n == self.insts.len(),
                    i < n,
                    ops@ == self@.insts[i as int].operands,
                    v == self@.num_vregs,
                    k <= ops.len(),
                    forall|j: int|
                        0 <= j < k ==> (
                        #[trigger] self@.insts[i as int].operands[j]).spec_vreg().spec_vreg() < v,
                decreases ops.len() - k,
            {
                if ops[k].vreg().vreg() >= v {
                    return false;
                }
                k += 1;
            }
            i += 1;
        }
        let nb = self.blocks.len();
        let mut b: usize = 0;
        while b < nb
            invariant
                nb == self.blocks.len(),
                v == self@.num_vregs,
                b <= nb,
                forall|c: int, k: int|
                    0 <= c < b && 0 <= k < self@.blocks[c].params.len() ==> (
                    #[trigger] self@.blocks[c].params[k]).spec_vreg() < v,
            decreases nb - b,
        {
            assert(self@.blocks[b as int] == self.blocks@[b as int]@);
            let params = &self.blocks[b].params;
            let mut k: usize = 0;
            while k < params.len()
                invariant
                    nb == self.blocks.len(),
                    b < nb,
                    params@ == self@.blocks[b as int].params,
                    v == self@.num_vregs,
                    k <= params.len(),
                    forall|j: int|
                        0 <= j < k ==> (#[trigger] self@.blocks[b as int].params[j]).spec_vreg()
                            < v,
                decreases params.len() - k,
            {
                if params[k].vreg() >= v {
                    return false;
                }
                k += 1;
            }
            b += 1;
        }
        let mut k: usize = 0;
        while k < self.reftype_vregs.len()
            invariant
                v == self@.num_vregs,
                k <= self.reftype_vregs.len(),
                forall|j: int| 0 <= j < k ==> (#[trigger] self@.reftype_vregs[j]).spec_vreg() < v,
            decreases self.reftype_vregs.len() - k,
        {
            if self.reftype_vregs[k].vreg() >= v {
                assert(self@.reftype_vregs[k as int] == self.reftype_vregs@[k as int]);
                return false;
            }
            k += 1;
        }
        let mut k: usize = 0;
        while k < self.pinned_vregs.len()
            invariant
                v == self@.num_vregs,
                k <= self.pinned_vregs.len(),
                forall|j: int| 0 <= j < k ==> (#[trigger] self@.pinned_vregs[j]).spec_vreg() < v,
            decreases self.pinned_vregs.len() - k,
        {
            if self.pinned_vregs[k].vreg() >= v {
                assert(self@.pinned_vregs[k as int] == self.pinned_vregs@[k as int]);
                return false;
            }
            k += 1;
        }
        true
    }

    fn check_reuse_at(&self, i: usize, k: usize) -> (r: bool)
        requires
            i < self.insts.len(),
            k < self@.insts[i as int].operands.len(),
        ensures
            r == self@.reuse_wf_at(i as int, k as int),
    {
        assert(self@.insts[i as int] == self.insts@[i as int]@);
        let ops = &self.insts[i].operands;
        match ops[k].constraint() {
            OperandConstraint::Reuse(j) => {
                if ops[k].kind() != OperandKind::Def || j >= ops.len() {
                    return false;
                }
                if ops[j].kind() != OperandKind::Use {
                    return false;
                }
                let bound = match ops[j].constraint() {
                    OperandConstraint::Reg => true,
                    OperandConstraint::FixedReg(_) => true,
                    _ => false,
                };
                if !bound {
                    return false;
                }
                true
            },
            _ => true,
        }
    }

    fn check_reuse(&self) -> (r: bool)
        ensures
            r == self@.reuse_wf(),
    {
        let n = self.insts.len();
        let mut i: usize = 0;
        while i < n
            invariant
                n == self.insts.len(),
                i <= n,
                forall|i2: int, k: int|
                    0 <= i2 < i && 0 <= k < self@.insts[i2].operands.len()
                        ==> #[trigger] self@.reuse_wf_at(i2, k),
            decreases n - i,
        {
            assert(self@.insts[i as int] == self.insts@[i as int]@);
            let len = self.insts[i].operands.len();
            let mut k: usize = 0;
            while k < len
                invariant
                    n == self.insts.len(),
                    i < n,
                    len == self@.insts[i as int].operands.len(),
                    k <= len,
                    forall|j: int| 0 <= j < k ==> #[trigger] self@.reuse_wf_at(i as int, j),
                decreases len - k,
            {
                if !self.check_reuse_at(i, k) {
                    return false;
                }
                k += 1;
            }
            i += 1;
        }
        true
    }

    fn check_slots(&self) -> (r: bool)
        requires
            self@.within_limits(),
        ensures
            r == self@.slots_in_bounds(),
    {
        let a = self.spillslot_size_int;
        let b = self.spillslot_size_float;
        if a < 1 || b < 1 {
            return false;
        }
        if a >= 0x100_0000 || b >= 0x100_0000 {
            assert(2 * (self.num_vregs + 2) * (a + b) >= 0x100_0000) by (nonlinear_arith)
                requires
                    a + b >= 0x100_0000,
                    self.num_vregs >= 0,
            ;
            return false;
        }
        let v = self.num_vregs as u64;
        let unit = (a + b) as u64;
        assert(2 * (v + 2) * unit <= 2 * (0x20_0000 + 2) * 0x200_0000) by (nonlinear_arith)
            requires
                v <= 0x1f_ffff,
                unit <= 0x200_0000,
        ;
        2 * (v + 2) * unit < 0x100_0000
    }

    fn check_operand_count(&self) -> (r: bool)
        ensures
            r == (self@.operand_offset(self@.insts.len() as int) <= 0xffff_ffff),
    {
        let n = self.insts.len();
        let mut total: u64 = 0;
        let mut i: usize = 0;
        while i < n
            invariant
                n == self.insts.len(),
                i <= n,
                total == self@.operand_offset(i as int),
                total <= 0xffff_ffff,
            decreases n - i,
        {
            assert(self@.insts[i as int] == self.insts@[i as int]@);
            let len = self.insts[i].operands.len();
            if len > 0xffff_ffff || total + len as u64 > 0xffff_ffff {
                proof {
                    crate::engine::lemma_offsets_grow(self@, i as int + 1, n as int);
                }
                return false;
            }
            total = total + len as u64;
            i += 1;
        }
        true
    }

    /// Whether the program is what every client owes the allocator:
    /// whether `run` and `run_program` may be called on it.
    pub fn is_wf(&self) -> (r: bool)
        ensures
            r == self@.wf(),
    {
        self.check_limits() && self.check_ranges() && self.check_offsets() && self.check_pins()
            && (self.entry.0 as usize) < self.blocks.len() && self.check_edges()
            && self.check_vregs() && self.check_reuse() && self.check_slots()
            && self.check_operand_count()
    }
}

} // verus!
