//! What a result of the allocator owes the program, and a check of it
//! that reads nothing but the program and the result.

use vstd::prelude::*;
use crate::allocation::{lemma_allocation_new_fields, lemma_allocation_reg_stack_round_trip, Allocation, AllocationKind};
use crate::assign::local_ok;
use crate::cfg::lemma_first_such;
use crate::function::{Program, ProgramModel};
use crate::homes::homes_ok;
use crate::machine::MachineEnv;
use crate::operand::OperandConstraint;
use crate::output::{Edit, Output};
use crate::point::ProgPoint;
use crate::regs::{lemma_preg_determined, PReg, SpillSlot};

verus! {

/// Whether the allocation of operand `k` of instruction `i` is what
/// the operand asks for: a register or a spill slot; for a fixed
/// register that register, for a register one of the operand's class
/// that the machine lets be allocated, for the stack a spill slot, for
/// a reuse the allocation of the input it names; for a pinned vreg the
/// register it is pinned to; for a reference at an instruction that
/// wants references on the stack, a spill slot; and every spill slot is
/// below the number of slots.
pub open spec fn operand_alloc_ok(
    m: ProgramModel,
    env: &MachineEnv,
    slots: int,
    i: int,
    k: int,
    allocs: Seq<Allocation>,
) -> bool {
    let op = m.insts[i].operands[k];
    let a = allocs[k];
    let id = m.op_vreg(i, k);
    &&& a.wf()
    &&& a.spec_is_reg() || a.spec_is_stack()
    &&& match op.spec_constraint() {
        OperandConstraint::Any => true,
        OperandConstraint::Reg => a.spec_is_reg() && a.spec_as_reg().unwrap().spec_class()
            == op.spec_class(),
        OperandConstraint::Stack => a.spec_is_stack(),
        OperandConstraint::FixedReg(r) => a == Allocation::spec_reg(r),
        OperandConstraint::Reuse(j) => a == allocs[j as int],
    }
    &&& match m.pin_of(id) {
        Some(pin) => a == Allocation::spec_reg(pin),
        None => true,
    }
    &&& m.insts[i].requires_refs_on_stack && m.is_reftype(id) ==> a.spec_is_stack()
    &&& m.wants_reg(i, k) ==> m.candidate(env, op.spec_class(), a.spec_index() as int)
    &&& a.spec_is_stack() ==> a.spec_as_stack().unwrap().spec_index() < slots
}

/// Whether the allocations of instruction `i` are what its operands
/// ask for, and no two operands that are in registers at the same time
/// are in the same register, but a reusing definition and its input.
pub open spec fn inst_allocs_ok(
    m: ProgramModel,
    env: &MachineEnv,
    slots: int,
    i: int,
    allocs: Seq<Allocation>,
) -> bool {
    &&& allocs.len() == m.insts[i].operands.len()
    &&& forall|k: int|
        0 <= k < allocs.len() ==> #[trigger] operand_alloc_ok(m, env, slots, i, k, allocs)
    &&& forall|k1: int, k2: int|
        0 <= k1 < allocs.len() && 0 <= k2 < allocs.len() && k1 != k2 && m.in_reg(i, k1) && m.in_reg(
            i,
            k2,
        ) && m.overlap(i, k1, k2) && #[trigger] allocs[k1] == #[trigger] allocs[k2] ==> m.reuses(
            i,
            k1,
            k2,
        ) || m.reuses(i, k2, k1)
}

/// Whether the allocations of an instruction go back to the homes of
/// the vregs: an operand that need not be in a register is in the home
/// of its vreg.
pub open spec fn rests_at_home(
    m: ProgramModel,
    i: int,
    allocs: Seq<Allocation>,
    homes: Seq<Allocation>,
) -> bool {
    forall|k: int|
        0 <= k < allocs.len() && !m.in_reg(i, k) ==> #[trigger] allocs[k] == homes[m.op_vreg(
            i,
            k,
        ) as int]
}

/// The allocations of an instruction: the register of every operand
/// that has one, and the home of its vreg for every other.
pub open spec fn allocs_of(
    m: ProgramModel,
    i: int,
    regs: Seq<Option<PReg>>,
    homes: Seq<Allocation>,
) -> Seq<Allocation> {
    Seq::new(
        regs.len(),
        |k: int|
            match regs[k] {
                Some(r) => Allocation::spec_reg(r),
                None => homes[m.op_vreg(i, k) as int],
            },
    )
}

/// Registers that are right for an instruction, with homes that are
/// right for the vregs, make allocations that are right for the instruction.
pub proof fn lemma_inst_allocs(
    m: ProgramModel,
    env: &MachineEnv,
    i: int,
    regs: Seq<Option<PReg>>,
    homes: Seq<Allocation>,
    mentioned: Seq<bool>,
    on_stack: Seq<bool>,
    slots: int,
)
    requires
        m.wf(),
        0 <= i < m.insts.len(),
        m.inst_feasible(env, i),
        local_ok(m, env, i, regs),
        homes_ok(m, env, mentioned, on_stack, homes, slots),
        mentioned.len() == m.num_vregs,
        on_stack.len() == m.num_vregs,
        forall|k: int|
            0 <= k < m.insts[i].operands.len() ==> mentioned[#[trigger] m.op_vreg(i, k) as int],
        forall|k: int|
            0 <= k < m.insts[i].operands.len() && m.insts[i].operands[k].spec_constraint()
                == OperandConstraint::Stack ==> on_stack[#[trigger] m.op_vreg(i, k) as int],
        forall|id: int|
            0 <= id < m.num_vregs && m.is_reftype(id as usize) ==> #[trigger] on_stack[id],
    ensures
        inst_allocs_ok(m, env, slots, i, allocs_of(m, i, regs, homes)),
        rests_at_home(m, i, allocs_of(m, i, regs, homes), homes),
{
    let a = allocs_of(m, i, regs, homes);
    let n = m.insts[i].operands.len() as int;
    let bad = |k: int| m.op_impossible(i, k) || m.op_clashes(i, k);
    lemma_first_such(0, n, bad);
    assert forall|k: int| 0 <= k < n implies !m.op_impossible(i, k) by {
        assert(!bad(k));
    }
    // what the allocation of an operand in a register is
    assert forall|k: int| 0 <= k < n && (#[trigger] regs[k]) is Some implies {
        &&& a[k] == Allocation::spec_reg(regs[k].unwrap())
        &&& a[k].wf()
        &&& a[k].spec_is_reg()
        &&& a[k].spec_as_reg() == Some(regs[k].unwrap())
        &&& a[k].spec_index() == regs[k].unwrap().spec_index()
    } by {
        let r = regs[k].unwrap();
        lemma_preg_determined(r);
        crate::regs::lemma_spillslot_new_fields(0, crate::regs::RegClass::Int);
        lemma_allocation_reg_stack_round_trip(
            r,
            crate::regs::SpillSlot::spec_new(0, crate::regs::RegClass::Int),
        );
        lemma_allocation_new_fields(AllocationKind::Reg, r.spec_index() as nat);
    }
    assert forall|k: int| 0 <= k < n implies #[trigger] operand_alloc_ok(
        m,
        env,
        slots,
        i,
        k,
        a,
    ) by {
        let op = m.insts[i].operands[k];
        let id = m.op_vreg(i, k);
        assert(m.insts[i].operands[k].spec_vreg().spec_vreg() < m.num_vregs);
        assert(!m.op_impossible(i, k));
        assert(m.reuse_wf_at(i, k));
        if regs[k] is Some {
            let r = regs[k].unwrap();
            lemma_preg_determined(r);
            match op.spec_constraint() {
                OperandConstraint::Reg => {
                    if m.wants_reg(i, k) {
                        assert(m.candidate(env, op.spec_class(), r.spec_index() as int));
                    } else {
                        assert(regs[k] == m.bound_reg(i, k));
                    }
                },
                OperandConstraint::FixedReg(fr) => {
                    assert(regs[k] == m.bound_reg(i, k));
                },
                OperandConstraint::Reuse(j) => {
                    assert(m.reuses(i, k, j as int));
                    assert(regs[k] == regs[j as int]);
                },
                _ => {
                    assert(regs[k] == m.bound_reg(i, k));
                },
            }
            if m.pin_of(id) is Some {
                assert(regs[k] == m.bound_reg(i, k));
            }
        } else {
            assert(!m.in_reg(i, k));
            assert(mentioned[m.op_vreg(i, k) as int]);
            assert(m.pin_of(id) is None);
            assert(a[k] == homes[id as int]);
            if op.spec_constraint() == OperandConstraint::Stack {
                assert(on_stack[m.op_vreg(i, k) as int]);
            }
            if m.is_reftype(id) {
                assert(on_stack[id as int]);
            }
        }
    }
    assert forall|k1: int, k2: int|
        0 <= k1 < n && 0 <= k2 < n && k1 != k2 && m.in_reg(i, k1) && m.in_reg(i, k2) && m.overlap(
            i,
            k1,
            k2,
        ) && #[trigger] a[k1] == #[trigger] a[k2] implies m.reuses(i, k1, k2) || m.reuses(
        i,
        k2,
        k1,
    ) by {
        assert(regs[k1] is Some);
        assert(regs[k2] is Some);
    }
    assert forall|k: int| 0 <= k < n && !m.in_reg(i, k) implies #[trigger] a[k] == homes[m.op_vreg(
        i,
        k,
    ) as int] by {
        assert(regs[k] is None);
    }
}

/// The edits are in the order of their program points.
pub open spec fn edits_sorted(edits: Seq<(ProgPoint, Edit)>) -> bool {
    forall|a: int, b: int|
        0 <= a <= b < edits.len() ==> (#[trigger] edits[a]).0.spec_to_index() <= (
        #[trigger] edits[b]).0.spec_to_index()
}

/// No edit moves from one stack slot to another.
pub open spec fn edits_avoid_stack_to_stack(edits: Seq<(ProgPoint, Edit)>) -> bool {
    forall|a: int| 0 <= a < edits.len() ==> !(#[trigger] edits[a]).1.spec_is_stack_to_stack()
}

/// The allocations of the operands stand in the order of the
/// instructions, and the offset of an instruction is the number of
/// operands before it.
pub open spec fn allocs_shaped(m: ProgramModel, out: &Output) -> bool {
    &&& out.inst_alloc_offsets@.len() == m.insts.len()
    &&& out.allocs@.len() == m.operand_offset(m.insts.len() as int)
    &&& forall|i: int|
        0 <= i < m.insts.len() ==> #[trigger] out.inst_alloc_offsets@[i] == m.operand_offset(i)
}

/// The safepoint records are in the order of their points.
pub open spec fn safepoints_sorted(records: Seq<(ProgPoint, SpillSlot)>) -> bool {
    forall|a: int, c: int|
        0 <= a <= c < records.len() ==> (#[trigger] records[a]).0.spec_to_index() <= (
        #[trigger] records[c]).0.spec_to_index()
}

/// The debug locations are in the order of their labels, and those of
/// one label in the order of their points; no range is empty, and none
/// of a label reaches into the next of that label.
pub open spec fn debug_sorted(list: Seq<(u32, ProgPoint, ProgPoint, Allocation)>) -> bool {
    &&& forall|a: int|
        0 <= a < list.len() ==> (#[trigger] list[a]).1.spec_to_index() < list[a].2.spec_to_index()
    &&& forall|a: int, b: int|
        0 <= a < b < list.len() ==> (#[trigger] list[a]).0 < (#[trigger] list[b]).0 || (list[a].0
            == list[b].0 && list[a].2.spec_to_index() <= list[b].1.spec_to_index())
}

/// What a result owes the program as far as program and result alone
/// show it: the allocations of every instruction are right for it, the
/// edits are in order and avoid moves from stack to stack, and the
/// safepoint records and debug locations are in order.
pub open spec fn output_ok(m: ProgramModel, env: &MachineEnv, out: &Output) -> bool {
    &&& allocs_shaped(m, out)
    &&& forall|i: int|
        0 <= i < m.insts.len() ==> #[trigger] inst_allocs_ok(
            m,
            env,
            out.num_spillslots as int,
            i,
            out.allocs@.subrange(m.operand_offset(i), m.operand_offset(i + 1)),
        )
    &&& edits_sorted(out.edits@)
    &&& edits_avoid_stack_to_stack(out.edits@)
    &&& safepoints_sorted(out.safepoint_slots@)
    &&& debug_sorted(out.debug_locations@)
}

/// Whether the allocations stand in the order of the instructions.
fn check_shape(p: &Program, out: &Output) -> (r: bool)
    requires
        p@.wf(),
    ensures
        r == allocs_shaped(p@, out),
{
    let n = p.insts.len();
    if out.inst_alloc_offsets.len() != n {
        return false;
    }
    let mut total: usize = 0;
    let mut i: usize = 0;
    while i < n
        invariant
            p@.wf(),
            n == p.insts.len(),
            out.inst_alloc_offsets@.len() == n,
            i <= n,
            total == p@.operand_offset(i as int),
            forall|j: int|
                0 <= j < i ==> #[trigger] out.inst_alloc_offsets@[j] == p@.operand_offset(j),
        decreases n - i,
    {
        proof {
            crate::engine::lemma_offsets_grow(p@, i as int + 1, n as int);
        }
        if out.inst_alloc_offsets[i] as usize != total {
            return false;
        }
        assert(p@.insts[i as int] == p.insts@[i as int]@);
        total = total + p.insts[i].operands.len();
        i += 1;
    }
    out.allocs.len() == total
}

/// Whether the allocation of operand `k` of instruction `i` is what
/// the operand asks for.
fn check_operand(
    p: &Program,
    env: &MachineEnv,
    pins: &Vec<Option<PReg>>,
    reftype: &Vec<bool>,
    cand: &Vec<bool>,
    out: &Output,
    i: usize,
    k: usize,
    Ghost(row): Ghost<Seq<Allocation>>,
) -> (r: bool)
    requires
        p@.wf(),
        allocs_shaped(p@, out),
        i < p.insts.len(),
        k < p@.insts[i as int].operands.len(),
        pins@.len() == p@.num_vregs,
        forall|id: int| 0 <= id < p@.num_vregs ==> #[trigger] pins@[id] == p@.pin_of(id as usize),
        reftype@.len() == p@.num_vregs,
        forall|id: int|
            0 <= id < p@.num_vregs ==> #[trigger] reftype@[id] == p@.is_reftype(id as usize),
        cand@.len() == 128,
        forall|x: int|
            0 <= x < 128 ==> #[trigger] cand@[x] == p@.candidate(env, crate::demand::class_at(x), x),
        row == out.allocs@.subrange(p@.operand_offset(i as int), p@.operand_offset(i as int + 1)),
    ensures
        r == operand_alloc_ok(p@, env, out.num_spillslots as int, i as int, k as int, row),
{
    let ghost m = p@;
    proof {
        crate::engine::lemma_offsets_grow(m, i as int + 1, m.insts.len() as int);
        crate::engine::lemma_offsets_grow(m, i as int, i as int + 1);
    }
    assert(m.insts[i as int] == p.insts@[i as int]@);
    let inst = &p.insts[i];
    let start = out.inst_alloc_offsets[i] as usize;
    let op = inst.operands[k];
    let a = out.allocs[start + k];
    assert(a == row[k as int]);
    assert(m.insts[i as int].operands[k as int].spec_vreg().spec_vreg() < m.num_vregs);
    assert(m.reuse_wf_at(i as int, k as int));
    let id = op.vreg().vreg();
    proof {
        use_type_invariant(&a);
    }
    if !(a.is_reg() || a.is_stack()) {
        return false;
    }
    let fits = match op.constraint() {
        OperandConstraint::Any => true,
        OperandConstraint::Reg => match a.as_reg() {
            Some(r) => r.class() == op.class(),
            None => false,
        },
        OperandConstraint::Stack => a.is_stack(),
        OperandConstraint::FixedReg(r) => a == Allocation::reg(r),
        OperandConstraint::Reuse(j) => {
            let other = out.allocs[start + j];
            assert(other == row[j as int]);
            a == other
        },
    };
    if !fits {
        return false;
    }
    match pins[id] {
        Some(pin) => {
            if a != Allocation::reg(pin) {
                return false;
            }
        },
        None => {
            let wants = match op.constraint() {
                OperandConstraint::Reg => true,
                _ => false,
            };
            if wants {
                let x = a.index();
                let ci: usize = op.class().bit() as usize;
                if !(cand[x] && x / 64 == ci) {
                    return false;
                }
            }
        },
    }
    if inst.requires_refs_on_stack && reftype[id] && !a.is_stack() {
        return false;
    }
    match a.as_stack() {
        Some(slot) => slot.index() < out.num_spillslots,
        None => true,
    }
}

/// Whether operand `k` of the instruction is allocated to a register
/// whatever becomes of its vreg elsewhere.
fn operand_in_reg(p: &Program, pins: &Vec<Option<PReg>>, i: usize, k: usize) -> (r: bool)
    requires
        p@.wf(),
        i < p.insts.len(),
        k < p@.insts[i as int].operands.len(),
        pins@.len() == p@.num_vregs,
        forall|id: int| 0 <= id < p@.num_vregs ==> #[trigger] pins@[id] == p@.pin_of(id as usize),
    ensures
        r == p@.in_reg(i as int, k as int),
{
    assert(p@.insts[i as int] == p.insts@[i as int]@);
    let op = p.insts[i].operands[k];
    assert(p@.insts[i as int].operands[k as int].spec_vreg().spec_vreg() < p@.num_vregs);
    pins[op.vreg().vreg()].is_some() || match op.constraint() {
        OperandConstraint::Reg => true,
        OperandConstraint::FixedReg(_) => true,
        OperandConstraint::Reuse(_) => true,
        _ => false,
    }
}

/// Whether operand `k1` of the instruction reuses the location of operand `k2`.
fn operand_reuses(p: &Program, i: usize, k1: usize, k2: usize) -> (r: bool)
    requires
        i < p.insts.len(),
        k1 < p@.insts[i as int].operands.len(),
    ensures
        r == p@.reuses(i as int, k1 as int, k2 as int),
{
    assert(p@.insts[i as int] == p.insts@[i as int]@);
    match p.insts[i].operands[k1].constraint() {
        OperandConstraint::Reuse(j) => j == k2,
        _ => false,
    }
}

/// Whether the allocations of instruction `i` are right for it.
fn check_inst(
    p: &Program,
    env: &MachineEnv,
    pins: &Vec<Option<PReg>>,
    reftype: &Vec<bool>,
    cand: &Vec<bool>,
    out: &Output,
    i: usize,
) -> (r: bool)
    requires
        p@.wf(),
        allocs_shaped(p@, out),
        i < p.insts.len(),
        pins@.len() == p@.num_vregs,
        forall|id: int| 0 <= id < p@.num_vregs ==> #[trigger] pins@[id] == p@.pin_of(id as usize),
        reftype@.len() == p@.num_vregs,
        forall|id: int|
            0 <= id < p@.num_vregs ==> #[trigger] reftype@[id] == p@.is_reftype(id as usize),
        cand@.len() == 128,
        forall|x: int|
            0 <= x < 128 ==> #[trigger] cand@[x] == p@.candidate(env, crate::demand::class_at(x), x),
    ensures
        r == inst_allocs_ok(
            p@,
            env,
            out.num_spillslots as int,
            i as int,
            out.allocs@.subrange(p@.operand_offset(i as int), p@.operand_offset(i as int + 1)),
        ),
{
    let ghost m = p@;
    let ghost ii = i as int;
    let ghost slots = out.num_spillslots as int;
    proof {
        crate::engine::lemma_offsets_grow(m, ii + 1, m.insts.len() as int);
        crate::engine::lemma_offsets_grow(m, ii, ii + 1);
    }
    let ghost row = out.allocs@.subrange(m.operand_offset(ii), m.operand_offset(ii + 1));
    assert(m.insts[ii] == p.insts@[ii]@);
    let n = p.insts[i].operands.len();
    let start = out.inst_alloc_offsets[i] as usize;
    let mut k: usize = 0;
    while k < n
        invariant
            p@.wf(),
            m == p@,
            ii == i as int,
            slots == out.num_spillslots as int,
            allocs_shaped(m, out),
            i < p.insts.len(),
            n == m.insts[ii].operands.len(),
            pins@.len() == m.num_vregs,
            forall|id: int|
                0 <= id < m.num_vregs ==> #[trigger] pins@[id] == m.pin_of(id as usize),
            reftype@.len() == m.num_vregs,
            forall|id: int|
                0 <= id < m.num_vregs ==> #[trigger] reftype@[id] == m.is_reftype(id as usize),
            cand@.len() == 128,
            forall|x: int|
                0 <= x < 128 ==> #[trigger] cand@[x] == m.candidate(
                    env,
                    crate::demand::class_at(x),
                    x,
                ),
            row == out.allocs@.subrange(m.operand_offset(ii), m.operand_offset(ii + 1)),
            row.len() == n,
            k <= n,
            forall|j: int| 0 <= j < k ==> #[trigger] operand_alloc_ok(m, env, slots, ii, j, row),
        decreases n - k,
    {
        if !check_operand(p, env, pins, reftype, cand, out, i, k, Ghost(row)) {
            return false;
        }
        k += 1;
    }
    let reused = crate::assign::reused_flags(p, i);
    let total = out.allocs.len();
    let mut k1: usize = 0;
    while k1 < n
        invariant
            p@.wf(),
            m == p@,
            ii == i as int,
            i < p.insts.len(),
            n == m.insts[ii].operands.len(),
            start == m.operand_offset(ii),
            total == out.allocs@.len(),
            start + n <= total,
            pins@.len() == m.num_vregs,
            forall|id: int|
                0 <= id < m.num_vregs ==> #[trigger] pins@[id] == m.pin_of(id as usize),
            reused@.len() == n,
            forall|j: int| 0 <= j < n ==> #[trigger] reused@[j] == m.is_reused(ii, j),
            row == out.allocs@.subrange(m.operand_offset(ii), m.operand_offset(ii + 1)),
            row.len() == n,
            forall|j: int| 0 <= j < n ==> #[trigger] operand_alloc_ok(m, env, slots, ii, j, row),
            k1 <= n,
            forall|a: int, b: int|
                0 <= a < k1 && a < b < n && m.in_reg(ii, a) && m.in_reg(ii, b) && m.overlap(
                    ii,
                    a,
                    b,
                ) && #[trigger] row[a] == #[trigger] row[b] ==> m.reuses(ii, a, b) || m.reuses(
                    ii,
                    b,
                    a,
                ),
        decreases n - k1,
    {
        if operand_in_reg(p, pins, i, k1) {
            let op1 = p.insts[i].operands[k1];
            let e1 = crate::assign::operand_holds_early(op1);
            let l1 = crate::assign::operand_holds_late(op1) || reused[k1];
            let a1 = out.allocs[start + k1];
            assert(a1 == row[k1 as int]);
            let mut k2: usize = k1 + 1;
            while k2 < n
                invariant
                    p@.wf(),
                    m == p@,
                    ii == i as int,
                    i < p.insts.len(),
                    n == m.insts[ii].operands.len(),
                    start == m.operand_offset(ii),
                    total == out.allocs@.len(),
                    start + n <= total,
                    pins@.len() == m.num_vregs,
                    forall|id: int|
                        0 <= id < m.num_vregs ==> #[trigger] pins@[id] == m.pin_of(id as usize),
                    reused@.len() == n,
                    forall|j: int| 0 <= j < n ==> #[trigger] reused@[j] == m.is_reused(ii, j),
                    row == out.allocs@.subrange(m.operand_offset(ii), m.operand_offset(ii + 1)),
                    row.len() == n,
                    k1 < n,
                    k1 < k2 <= n,
                    m.in_reg(ii, k1 as int),
                    e1 == m.op_early(ii, k1 as int),
                    l1 == m.op_late(ii, k1 as int),
                    a1 == row[k1 as int],
                    forall|b: int|
                        k1 < b < k2 && m.in_reg(ii, b) && m.overlap(ii, k1 as int, b)
                            && row[k1 as int] == #[trigger] row[b] ==> m.reuses(ii, k1 as int, b)
                            || m.reuses(ii, b, k1 as int),
                decreases n - k2,
            {
                if operand_in_reg(p, pins, i, k2) {
                    let op2 = p.insts[i].operands[k2];
                    let e2 = crate::assign::operand_holds_early(op2);
                    let l2 = crate::assign::operand_holds_late(op2) || reused[k2];
                    let a2 = out.allocs[start + k2];
                    assert(a2 == row[k2 as int]);
                    if ((e1 && e2) || (l1 && l2)) && a1 == a2 && !operand_reuses(p, i, k1, k2)
                        && !operand_reuses(p, i, k2, k1) {
                        return false;
                    }
                }
                k2 += 1;
            }
        }
        k1 += 1;
    }
    true
}

/// Whether the edits are in order and avoid moves from stack to stack.
fn check_edits(out: &Output) -> (r: bool)
    ensures
        r == (edits_sorted(out.edits@) && edits_avoid_stack_to_stack(out.edits@)),
{
    let n = out.edits.len();
    let mut k: usize = 0;
    while k < n
        invariant
            n == out.edits@.len(),
            k <= n,
            forall|a: int, b: int|
                0 <= a <= b < k ==> (#[trigger] out.edits@[a]).0.spec_to_index() <= (
                #[trigger] out.edits@[b]).0.spec_to_index(),
            forall|a: int| 0 <= a < k ==> !(#[trigger] out.edits@[a]).1.spec_is_stack_to_stack(),
        decreases n - k,
    {
        let e = out.edits[k];
        if e.1.is_stack_to_stack() {
            return false;
        }
        if k > 0 {
            let before = out.edits[k - 1];
            if before.0.to_index() > e.0.to_index() {
                return false;
            }
            assert forall|a: int, b: int| 0 <= a <= b < k + 1 implies (
            #[trigger] out.edits@[a]).0.spec_to_index() <= (
            #[trigger] out.edits@[b]).0.spec_to_index() by {
                if b == k && a < k {
                    assert(out.edits@[a].0.spec_to_index() <= out.edits@[k as int - 1].0.spec_to_index());
                }
            }
        }
        k += 1;
    }
    true
}

/// Whether the safepoint records are in the order of their points.
fn check_safepoints(out: &Output) -> (r: bool)
    ensures
        r == safepoints_sorted(out.safepoint_slots@),
{
    let n = out.safepoint_slots.len();
    let mut k: usize = 1;
    while k < n
        invariant
            n == out.safepoint_slots@.len(),
            1 <= k,
            forall|a: int, b: int|
                0 <= a <= b < k && b < n ==> (
                #[trigger] out.safepoint_slots@[a]).0.spec_to_index() <= (
                #[trigger] out.safepoint_slots@[b]).0.spec_to_index(),
        decreases n - k,
    {
        let before = out.safepoint_slots[k - 1];
        let here = out.safepoint_slots[k];
        if before.0.to_index() > here.0.to_index() {
            return false;
        }
        assert forall|a: int, b: int| 0 <= a <= b < k + 1 && b < n implies (
        #[trigger] out.safepoint_slots@[a]).0.spec_to_index() <= (
        #[trigger] out.safepoint_slots@[b]).0.spec_to_index() by {
            if b == k && a < k {
                assert(out.safepoint_slots@[a].0.spec_to_index() <= out.safepoint_slots@[k as int
                    - 1].0.spec_to_index());
            }
        }
        k += 1;
    }
    true
}

/// Whether the debug locations are in order and keep apart.
fn check_debug(out: &Output) -> (r: bool)
    ensures
        r == debug_sorted(out.debug_locations@),
{
    let n = out.debug_locations.len();
    let mut k: usize = 0;
    while k < n
        invariant
            n == out.debug_locations@.len(),
            k <= n,
            forall|a: int|
                0 <= a < k ==> (#[trigger] out.debug_locations@[a]).1.spec_to_index()
                    < out.debug_locations@[a].2.spec_to_index(),
            forall|a: int, b: int|
                0 <= a < b < k ==> (#[trigger] out.debug_locations@[a]).0 < (
                #[trigger] out.debug_locations@[b]).0 || (out.debug_locations@[a].0
                    == out.debug_locations@[b].0 && out.debug_locations@[a].2.spec_to_index()
                    <= out.debug_locations@[b].1.spec_to_index()),
        decreases n - k,
    {
        let here = out.debug_locations[k];
        if here.1.to_index() >= here.2.to_index() {
            return false;
        }
        if k > 0 {
            let before = out.debug_locations[k - 1];
            if !(before.0 < here.0 || (before.0 == here.0 && before.2.to_index()
                <= here.1.to_index())) {
                return false;
            }
            assert forall|a: int, b: int| 0 <= a < b < k + 1 implies (
            #[trigger] out.debug_locations@[a]).0 < (#[trigger] out.debug_locations@[b]).0 || (
            out.debug_locations@[a].0 == out.debug_locations@[b].0
                && out.debug_locations@[a].2.spec_to_index()
                <= out.debug_locations@[b].1.spec_to_index()) by {
                let z = out.debug_locations@[k as int - 1];
                if b == k && a < k - 1 {
                    let x = out.debug_locations@[a];
                    assert(x.0 < z.0 || (x.0 == z.0 && x.2.spec_to_index() <= z.1.spec_to_index()));
                    assert(z.1.spec_to_index() < z.2.spec_to_index());
                }
            }
        }
        k += 1;
    }
    true
}

/// Check a result against its program: whether the allocations of
/// every instruction are what its operands ask for, no two operands
/// that are in registers at the same time share a register, the edits
/// are in order and never move from stack to stack, and the safepoint
/// records and debug locations are in order.
///
/// The check reads the program, the machine and the result, and
/// nothing that the allocator knew while it worked.
pub fn check(p: &Program, env: &MachineEnv, out: &Output) -> (r: bool)
    requires
        p@.wf(),
    ensures
        r == output_ok(p@, env, out),
{
    if !check_shape(p, out) {
        return false;
    }
    let pins = crate::ssa::pin_table(p);
    let reftype = crate::assign::reftype_table(p);
    let cand = crate::assign::candidate_table(p, env);
    let n = p.insts.len();
    let mut i: usize = 0;
    while i < n
        invariant
            p@.wf(),
            allocs_shaped(p@, out),
            n == p.insts.len(),
            i <= n,
            pins@.len() == p@.num_vregs,
            forall|id: int|
                0 <= id < p@.num_vregs ==> #[trigger] pins@[id] == p@.pin_of(id as usize),
            reftype@.len() == p@.num_vregs,
            forall|id: int|
                0 <= id < p@.num_vregs ==> #[trigger] reftype@[id] == p@.is_reftype(id as usize),
            cand@.len() == 128,
            forall|x: int|
                0 <= x < 128 ==> #[trigger] cand@[x] == p@.candidate(
                    env,
                    crate::demand::class_at(x),
                    x,
                ),
            forall|j: int|
                0 <= j < i ==> #[trigger] inst_allocs_ok(
                    p@,
                    env,
                    out.num_spillslots as int,
                    j,
                    out.allocs@.subrange(p@.operand_offset(j), p@.operand_offset(j + 1)),
                ),
        decreases n - i,
    {
        if !check_inst(p, env, &pins, &reftype, &cand, out, i) {
            return false;
        }
        i += 1;
    }
    check_edits(out) && check_safepoints(out) && check_debug(out)
}

} // verus!
