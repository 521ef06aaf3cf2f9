//! What an instruction asks of the registers: which of its operands are
//! bound to a register, which need one of their own, and whether the
//! machine has enough.

use vstd::prelude::*;
use crate::cfg::first_such;
use crate::function::ProgramModel;
use crate::machine::MachineEnv;
use crate::operand::{Operand, OperandConstraint, OperandKind, OperandPos};
use crate::regs::{PReg, RegClass};

verus! {

/// The number of indices below `n` at which `f` holds.
pub open spec fn count_upto(f: spec_fn(int) -> bool, n: int) -> int
    decreases n,
{
    if n <= 0 {
        0
    } else {
        count_upto(f, n - 1) + if f(n - 1) {
            1int
        } else {
            0int
        }
    }
}

/// Whether the operand holds its location in the early half of its
/// instruction: every operand but a definition at the late position.
pub open spec fn holds_early(op: Operand) -> bool {
    !(op.spec_kind() == OperandKind::Def && op.spec_pos() == OperandPos::Late)
}

/// Whether the operand holds its location in the late half of its
/// instruction: every operand but a use at the early position.
pub open spec fn holds_late(op: Operand) -> bool {
    !(op.spec_kind() == OperandKind::Use && op.spec_pos() == OperandPos::Early)
}

/// The class of the register at a place of the index space.
pub open spec fn class_at(index: int) -> RegClass {
    if index < 64 {
        RegClass::Int
    } else {
        RegClass::Float
    }
}

impl ProgramModel {
    /// Whether one of the first `k` operands of instruction `i` reuses
    /// the location of operand `j`.
    pub open spec fn reused_upto(self, i: int, k: int, j: int) -> bool
        decreases k,
    {
        k > 0 && (self.reused_upto(i, k - 1, j) || self.reuses(i, k - 1, j))
    }

    /// Whether some definition of instruction `i` reuses the location of operand `j`.
    pub open spec fn is_reused(self, i: int, j: int) -> bool {
        self.reused_upto(i, self.insts[i].operands.len() as int, j)
    }

    /// Whether operand `k` of instruction `i` holds its location in the early half.
    pub open spec fn op_early(self, i: int, k: int) -> bool {
        holds_early(self.insts[i].operands[k])
    }

    /// Whether operand `k` of instruction `i` holds its location in the
    /// late half: by its kind and position, or because a definition
    /// takes its location over.
    pub open spec fn op_late(self, i: int, k: int) -> bool {
        holds_late(self.insts[i].operands[k]) || self.is_reused(i, k)
    }

    /// Whether two operands of instruction `i` hold their locations at the same time.
    pub open spec fn overlap(self, i: int, k1: int, k2: int) -> bool {
        (self.op_early(i, k1) && self.op_early(i, k2)) || (self.op_late(i, k1) && self.op_late(
            i,
            k2,
        ))
    }

    /// Whether the vreg is among the first `k` reference-typed vregs.
    pub open spec fn reftype_upto(self, k: int, id: usize) -> bool
        decreases k,
    {
        k > 0 && (self.reftype_upto(k - 1, id) || self.reftype_vregs[k - 1].spec_vreg() == id)
    }

    /// Whether the vreg holds a reference.
    pub open spec fn is_reftype(self, id: usize) -> bool {
        self.reftype_upto(self.reftype_vregs.len() as int, id)
    }

    /// Whether one of the first `k` pinned vregs is pinned to the
    /// register at `index`.
    pub open spec fn pin_reserved_upto(self, k: int, index: int) -> bool
        decreases k,
    {
        k > 0 && (self.pin_reserved_upto(k - 1, index) || match self.pinned_pregs[k - 1] {
            Some(r) => r.spec_index() == index,
            None => false,
        })
    }

    /// Whether some vreg is pinned to the register at `index`.
    pub open spec fn pin_reserved(self, index: int) -> bool {
        self.pin_reserved_upto(self.pinned_pregs.len() as int, index)
    }

    /// The vreg id of operand `k` of instruction `i`.
    pub open spec fn op_vreg(self, i: int, k: int) -> usize {
        self.insts[i].operands[k].spec_vreg().spec_vreg()
    }

    /// The register that operand `k` of instruction `i` is bound to: the
    /// one its vreg is pinned to, or else the one its constraint names.
    pub open spec fn bound_reg(self, i: int, k: int) -> Option<PReg> {
        let op = self.insts[i].operands[k];
        if self.is_pinned(self.op_vreg(i, k)) {
            self.pin_of(self.op_vreg(i, k))
        } else {
            match op.spec_constraint() {
                OperandConstraint::FixedReg(r) => Some(r),
                _ => None,
            }
        }
    }

    /// Whether operand `k` of instruction `i` needs a register of its
    /// own: it is constrained to a register, and bound to none.
    pub open spec fn wants_reg(self, i: int, k: int) -> bool {
        self.insts[i].operands[k].spec_constraint() == OperandConstraint::Reg && !self.is_pinned(
            self.op_vreg(i, k),
        )
    }

    /// Whether operand `k` of instruction `i` is allocated to a register
    /// whatever becomes of its vreg elsewhere.
    pub open spec fn in_reg(self, i: int, k: int) -> bool {
        self.bound_reg(i, k) is Some || self.wants_reg(i, k)
            || self.insts[i].operands[k].spec_constraint() is Reuse
    }

    /// Whether operand `k` of instruction `i` asks by itself for what
    /// cannot be: its vreg is pinned, and its constraint names another
    /// register, the stack, a register of another class, or a reuse;
    /// it reuses the location of a pinned vreg, or one that an operand
    /// before it reuses already; or it holds a reference in a register
    /// at an instruction that wants references on the stack.
    pub open spec fn op_impossible(self, i: int, k: int) -> bool {
        let op = self.insts[i].operands[k];
        let id = self.op_vreg(i, k);
        ||| match self.pin_of(id) {
            Some(pin) => match op.spec_constraint() {
                OperandConstraint::Any => false,
                OperandConstraint::Reg => pin.spec_class() != op.spec_class(),
                OperandConstraint::Stack => true,
                OperandConstraint::FixedReg(r) => r.spec_index() != pin.spec_index(),
                OperandConstraint::Reuse(_) => true,
            },
            None => false,
        }
        ||| match op.spec_constraint() {
            OperandConstraint::Reuse(j) => self.is_pinned(self.op_vreg(i, j as int))
                || self.reused_upto(i, k, j as int),
            _ => false,
        }
        ||| self.insts[i].requires_refs_on_stack && self.is_reftype(id) && self.in_reg(i, k)
    }

    /// Whether the register at `index` is among the first `k` clobbers
    /// of instruction `i`.
    pub open spec fn clobbered_upto(self, i: int, k: int, index: int) -> bool
        decreases k,
    {
        k > 0 && (self.clobbered_upto(i, k - 1, index) || self.insts[i].clobbers[k
            - 1].spec_index() == index)
    }

    /// Whether instruction `i` clobbers the register at `index`.
    pub open spec fn clobbered(self, i: int, index: int) -> bool {
        self.clobbered_upto(i, self.insts[i].clobbers.len() as int, index)
    }

    /// Whether operand `k` of instruction `i` is bound to the register
    /// at `index` and holds it in the given half of the instruction.
    pub open spec fn binds(self, i: int, k: int, late: bool, index: int) -> bool {
        &&& match self.bound_reg(i, k) {
            Some(r) => r.spec_index() == index,
            None => false,
        }
        &&& if late {
            self.op_late(i, k)
        } else {
            self.op_early(i, k)
        }
    }

    /// Whether one of the first `k` operands of instruction `i` binds
    /// the register at `index` in the given half of the instruction.
    pub open spec fn bound_upto(self, i: int, k: int, late: bool, index: int) -> bool
        decreases k,
    {
        k > 0 && (self.bound_upto(i, k - 1, late, index) || self.binds(i, k - 1, late, index))
    }

    /// Whether the register at `index` is taken in the given half of
    /// instruction `i` before any operand gets a register of its own:
    /// an operand is bound to it there, or, in the late half, the
    /// instruction clobbers it.
    pub open spec fn taken(self, i: int, late: bool, index: int) -> bool {
        self.bound_upto(i, self.insts[i].operands.len() as int, late, index) || (late
            && self.clobbered(i, index))
    }

    /// Whether operand `k` of instruction `i` is bound to a register
    /// that an earlier operand holds at the same time, or that the
    /// instruction clobbers while the operand holds it.
    pub open spec fn op_clashes(self, i: int, k: int) -> bool {
        match self.bound_reg(i, k) {
            Some(r) => {
                let index = r.spec_index() as int;
                ||| self.op_early(i, k) && self.bound_upto(i, k, false, index)
                ||| self.op_late(i, k) && (self.bound_upto(i, k, true, index) || self.clobbered(
                    i,
                    index,
                ))
            },
            None => false,
        }
    }

    /// Whether an operand of instruction `i` asks for what cannot be.
    pub open spec fn inst_impossible(self, i: int) -> bool {
        first_such(
            0,
            self.insts[i].operands.len() as int,
            |k: int| self.op_impossible(i, k) || self.op_clashes(i, k),
        ) < self.insts[i].operands.len()
    }

    /// Whether the register at `index` may be given to an operand of
    /// the given class that needs a register of its own: the machine
    /// lets it be allocated to that class, and no vreg is pinned to it.
    pub open spec fn candidate(self, env: &MachineEnv, class: RegClass, index: int) -> bool {
        env.allocatable(class, index) && !self.pin_reserved(index)
    }

    /// How many registers the operands of the given class that need one
    /// of their own can choose from, in the given halves of instruction `i`.
    pub open spec fn supply(
        self,
        env: &MachineEnv,
        i: int,
        class: RegClass,
        early: bool,
        late: bool,
    ) -> int {
        count_upto(
            |index: int|
                self.candidate(env, class, index) && (early ==> !self.taken(i, false, index)) && (
                late ==> !self.taken(i, true, index)),
            128,
        )
    }

    /// Whether operand `k` of instruction `i` needs a register of its
    /// own, of the given class, for exactly the given halves.
    pub open spec fn asks(self, i: int, k: int, class: RegClass, early: bool, late: bool) -> bool {
        &&& self.wants_reg(i, k)
        &&& self.insts[i].operands[k].spec_class() == class
        &&& self.op_early(i, k) == early
        &&& self.op_late(i, k) == late
    }

    /// How many operands of instruction `i` need a register of their
    /// own, of the given class, for exactly the given halves.
    pub open spec fn demand(self, i: int, class: RegClass, early: bool, late: bool) -> int {
        count_upto(
            |k: int| self.asks(i, k, class, early, late),
            self.insts[i].operands.len() as int,
        )
    }

    /// Whether the registers of a class are enough for instruction `i`:
    /// for the operands that span both halves, for these and the early
    /// ones together, and for these and the late ones together.
    pub open spec fn class_fits(self, env: &MachineEnv, i: int, class: RegClass) -> bool {
        &&& self.demand(i, class, true, true) <= self.supply(env, i, class, true, true)
        &&& self.demand(i, class, true, true) + self.demand(i, class, true, false) <= self.supply(
            env,
            i,
            class,
            true,
            false,
        )
        &&& self.demand(i, class, true, true) + self.demand(i, class, false, true) <= self.supply(
            env,
            i,
            class,
            false,
            true,
        )
    }

    /// Whether instruction `i` can have its registers: no operand asks
    /// for what cannot be, and each class has enough registers.
    pub open spec fn inst_feasible(self, env: &MachineEnv, i: int) -> bool {
        &&& !self.inst_impossible(i)
        &&& self.class_fits(env, i, RegClass::Int)
        &&& self.class_fits(env, i, RegClass::Float)
    }

    /// The first instruction that cannot have its registers, or the
    /// number of instructions if there is none.
    pub open spec fn first_infeasible(self, env: &MachineEnv) -> int {
        first_such(0, self.insts.len() as int, |i: int| !self.inst_feasible(env, i))
    }

    /// Whether every instruction can have its registers.
    pub open spec fn feasible(self, env: &MachineEnv) -> bool {
        self.first_infeasible(env) >= self.insts.len()
    }
}

/// `count_upto` is between 0 and `n`.
pub proof fn lemma_count_bounds(f: spec_fn(int) -> bool, n: int)
    requires
        0 <= n,
    ensures
        0 <= count_upto(f, n) <= n,
    decreases n,
{
    if n > 0 {
        lemma_count_bounds(f, n - 1);
    }
}

/// Where nothing is counted, `f` holds nowhere, and the other way round.
pub proof fn lemma_count_zero(f: spec_fn(int) -> bool, n: int)
    requires
        0 <= n,
    ensures
        count_upto(f, n) == 0 <==> forall|j: int| 0 <= j < n ==> !#[trigger] f(j),
    decreases n,
{
    if n > 0 {
        lemma_count_zero(f, n - 1);
        lemma_count_bounds(f, n - 1);
        if count_upto(f, n) == 0 {
            assert(!f(n - 1));
        }
    }
}

/// Two predicates that agree below `n` count the same.
pub proof fn lemma_count_same(f: spec_fn(int) -> bool, g: spec_fn(int) -> bool, n: int)
    requires
        forall|j: int| 0 <= j < n ==> #[trigger] f(j) == g(j),
    ensures
        count_upto(f, n) == count_upto(g, n),
    decreases n,
{
    if n > 0 {
        lemma_count_same(f, g, n - 1);
    }
}

/// Taking one index out of what is counted lowers the count by one.
pub proof fn lemma_count_less(f: spec_fn(int) -> bool, g: spec_fn(int) -> bool, n: int, at: int)
    requires
        0 <= at < n,
        f(at),
        !g(at),
        forall|j: int| 0 <= j < n && j != at ==> #[trigger] f(j) == g(j),
    ensures
        count_upto(g, n) == count_upto(f, n) - 1,
    decreases n,
{
    if at == n - 1 {
        lemma_count_same(f, g, n - 1);
    } else {
        lemma_count_less(f, g, n - 1, at);
    }
}

} // verus!
