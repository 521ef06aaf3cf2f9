//! The allocator: from a program and a machine to allocations and edits.

use vstd::prelude::*;
use crate::allocation::Allocation;
use crate::assign::{assign_inst, local_ok, Memory};
use crate::cfg::first_such;
use crate::checker::{
    allocs_of, edits_avoid_stack_to_stack, edits_sorted, inst_allocs_ok, output_ok, rests_at_home,
};
use crate::demand::{class_at, holds_early, holds_late};
use crate::function::{Function, Program, ProgramModel};
use crate::homes::{homes_ok, Homes};
use crate::index::Inst;
use crate::machine::MachineEnv;
use crate::moves::{well_posed, ParallelMove};
use crate::edits::{
    away_from_home, build_edits, edits_exact, load_edit, store_edit, wants_load, wants_store,
};
use crate::operand::OperandKind;
use crate::output::{Edit, Output, RegAllocError, RegallocOptions, Stats};
use crate::point::ProgPoint;
use crate::liveness::{closed, out_row, sound, table_ok, walk};
use crate::regs::{PReg, RegClass, SpillSlot, VReg};
use crate::ssa::filled;

verus! {

/// The registers of the operands of every instruction, if every
/// instruction can have its registers. The memory is left with the
/// register that each vreg was last given.
pub(crate) fn assign_all(
    p: &Program,
    env: &MachineEnv,
    pins: &Vec<Option<PReg>>,
    reftype: &Vec<bool>,
    cand: &Vec<bool>,
    memory: &mut Memory,
) -> (r: Option<Vec<Vec<Option<PReg>>>>)
    requires
        p@.wf(),
        pins@.len() == p@.num_vregs,
        forall|id: int| 0 <= id < p@.num_vregs ==> #[trigger] pins@[id] == p@.pin_of(id as usize),
        reftype@.len() == p@.num_vregs,
        forall|id: int|
            0 <= id < p@.num_vregs ==> #[trigger] reftype@[id] == p@.is_reftype(id as usize),
        cand@.len() == 128,
        forall|x: int| 0 <= x < 128 ==> #[trigger] cand@[x] == p@.candidate(env, class_at(x), x),
        old(memory).shaped(p@),
    ensures
        final(memory).shaped(p@),
        r is Some == p@.feasible(env),
        r is Some ==> r.unwrap()@.len() == p@.insts.len(),
        r is Some ==> forall|i: int|
            0 <= i < p@.insts.len() ==> local_ok(p@, env, i, (#[trigger] r.unwrap()@[i])@),
{
    let ghost f = |i: int| !p@.inst_feasible(env, i);
    let n = p.insts.len();
    let mut all: Vec<Vec<Option<PReg>>> = Vec::new();
    let mut i: usize = 0;
    while i < n
        invariant
            p@.wf(),
            n == p.insts.len(),
            i <= n,
            pins@.len() == p@.num_vregs,
            forall|id: int|
                0 <= id < p@.num_vregs ==> #[trigger] pins@[id] == p@.pin_of(id as usize),
            reftype@.len() == p@.num_vregs,
            forall|id: int|
                0 <= id < p@.num_vregs ==> #[trigger] reftype@[id] == p@.is_reftype(id as usize),
            cand@.len() == 128,
            forall|x: int|
                0 <= x < 128 ==> #[trigger] cand@[x] == p@.candidate(env, class_at(x), x),
            memory.shaped(p@),
            f == |i: int| !p@.inst_feasible(env, i),
            p@.first_infeasible(env) == first_such(i as int, n as int, f),
            all@.len() == i,
            forall|i2: int| 0 <= i2 < i ==> local_ok(p@, env, i2, (#[trigger] all@[i2])@),
        decreases n - i,
    {
        match assign_inst(p, env, pins, reftype, cand, memory, i) {
            None => {
                assert(f(i as int));
                return None;
            },
            Some(regs) => {
                assert(!f(i as int));
                all.push(regs);
            },
        }
        i += 1;
    }
    Some(all)
}

/// The number of operands before an instruction grows with the instruction.
pub proof fn lemma_offsets_grow(m: ProgramModel, i: int, j: int)
    requires
        0 <= i <= j,
    ensures
        0 <= m.operand_offset(i) <= m.operand_offset(j),
    decreases j,
{
    if i < j {
        lemma_offsets_grow(m, i, j - 1);
    } else if 0 < i {
        lemma_offsets_grow(m, 0, i - 1);
        lemma_offsets_grow(m, i - 1, i - 1);
    }
}

/// The allocations of all operands, in the order of the instructions,
/// and for every instruction the place at which its allocations begin.
pub(crate) fn build_allocs(
    p: &Program,
    regs: &Vec<Vec<Option<PReg>>>,
    homes: &Vec<Allocation>,
) -> (r: (Vec<Allocation>, Vec<u32>))
    requires
        p@.wf(),
        regs@.len() == p@.insts.len(),
        forall|i: int|
            0 <= i < regs@.len() ==> (#[trigger] regs@[i])@.len() == p@.insts[i].operands.len(),
        homes@.len() == p@.num_vregs,
    ensures
        r.1@.len() == p@.insts.len(),
        r.0@.len() == p@.operand_offset(p@.insts.len() as int),
        forall|i: int| 0 <= i < p@.insts.len() ==> #[trigger] r.1@[i] == p@.operand_offset(i),
        forall|i: int|
            0 <= i < p@.insts.len() ==> #[trigger] r.0@.subrange(
                p@.operand_offset(i),
                p@.operand_offset(i + 1),
            ) == allocs_of(p@, i, regs@[i]@, homes@),
{
    let ghost m = p@;
    let n = p.insts.len();
    let mut allocs: Vec<Allocation> = Vec::new();
    let mut offsets: Vec<u32> = Vec::new();
    let mut i: usize = 0;
    while i < n
        invariant
            p@.wf(),
            m == p@,
            n == p.insts.len(),
            i <= n,
            regs@.len() == n,
            forall|i2: int|
                0 <= i2 < regs@.len() ==> (#[trigger] regs@[i2])@.len()
                    == m.insts[i2].operands.len(),
            homes@.len() == m.num_vregs,
            offsets@.len() == i,
            allocs@.len() == m.operand_offset(i as int),
            forall|i2: int| 0 <= i2 < i ==> #[trigger] offsets@[i2] == m.operand_offset(i2),
            forall|i2: int|
                0 <= i2 < i ==> #[trigger] allocs@.subrange(
                    m.operand_offset(i2),
                    m.operand_offset(i2 + 1),
                ) == allocs_of(m, i2, regs@[i2]@, homes@),
        decreases n - i,
    {
        proof {
            lemma_offsets_grow(m, i as int, n as int);
            lemma_offsets_grow(m, i as int + 1, n as int);
        }
        assert(p@.insts[i as int] == p.insts@[i as int]@);
        offsets.push(allocs.len() as u32);
        let ops = &p.insts[i].operands;
        let row_regs = &regs[i];
        let mut row: Vec<Allocation> = Vec::new();
        let mut k: usize = 0;
        while k < ops.len()
            invariant
                p@.wf(),
                m == p@,
                i < n,
                n == p.insts.len(),
                ops@ == m.insts[i as int].operands,
                row_regs@ == regs@[i as int]@,
                row_regs@.len() == ops.len(),
                homes@.len() == m.num_vregs,
                k <= ops.len(),
                row@.len() == k,
                forall|k2: int|
                    0 <= k2 < k ==> #[trigger] row@[k2] == allocs_of(
                        m,
                        i as int,
                        row_regs@,
                        homes@,
                    )[k2],
            decreases ops.len() - k,
        {
            assert(m.insts[i as int].operands[k as int].spec_vreg().spec_vreg() < m.num_vregs);
            let a = match row_regs[k] {
                Some(r) => Allocation::reg(r),
                None => homes[ops[k].vreg().vreg()],
            };
            row.push(a);
            k += 1;
        }
        let ghost before = allocs@;
        let ghost added = row@;
        assert(added =~= allocs_of(m, i as int, regs@[i as int]@, homes@));
        allocs.append(&mut row);
        proof {
            assert(allocs@ == before + added);
            assert(allocs@.subrange(m.operand_offset(i as int), m.operand_offset(i as int + 1))
                =~= added);
            assert forall|i2: int| 0 <= i2 < i implies #[trigger] allocs@.subrange(
                m.operand_offset(i2),
                m.operand_offset(i2 + 1),
            ) == allocs_of(m, i2, regs@[i2]@, homes@) by {
                lemma_offsets_grow(m, i2 + 1, i as int);
                lemma_offsets_grow(m, i2, i2 + 1);
                assert(allocs@.subrange(m.operand_offset(i2), m.operand_offset(i2 + 1))
                    =~= before.subrange(m.operand_offset(i2), m.operand_offset(i2 + 1)));
            }
        }
        i += 1;
    }
    (allocs, offsets)
}

/// Whether the result owes a safepoint record for vreg `id` at
/// instruction `i` of block `b`: the instruction wants references on
/// the stack, and the vreg holds a reference and is live both before
/// and after the instruction.
pub open spec fn wants_record(m: ProgramModel, b: int, i: int, id: int) -> bool {
    &&& 0 <= b < m.blocks.len()
    &&& m.blocks[b].insns.contains(i)
    &&& 0 <= id < m.num_vregs
    &&& m.insts[i].requires_refs_on_stack
    &&& m.is_reftype(id as usize)
    &&& m.live_across(b, i, id as usize)
}

/// The safepoint record for vreg `id` at instruction `i`: the point
/// before the instruction, and the spill slot that is the vreg's home.
pub open spec fn record_of(homes: Seq<Allocation>, i: int, id: int) -> (ProgPoint, SpillSlot) {
    (ProgPoint::spec_before(Inst(i as u32)), homes[id].spec_as_stack().unwrap())
}

/// Whether a safepoint record is one that the result owes.
pub open spec fn safepoint_true(
    m: ProgramModel,
    homes: Seq<Allocation>,
    record: (ProgPoint, SpillSlot),
) -> bool {
    exists|b: int, i: int, id: int| #[trigger]
        wants_record(m, b, i, id) && record == record_of(homes, i, id)
}

/// The safepoint records are in the order of their points; each is one
/// that the result owes; and every record that the result owes is
/// among them, the home of its vreg being a spill slot.
pub open spec fn safepoints_ok(
    m: ProgramModel,
    homes: Seq<Allocation>,
    records: Seq<(ProgPoint, SpillSlot)>,
) -> bool {
    &&& forall|a: int, c: int|
        0 <= a <= c < records.len() ==> (#[trigger] records[a]).0.spec_to_index() <= (
        #[trigger] records[c]).0.spec_to_index()
    &&& forall|a: int| 0 <= a < records.len() ==> safepoint_true(m, homes, #[trigger] records[a])
    &&& forall|b: int, i: int, id: int| #[trigger]
        wants_record(m, b, i, id) ==> homes[id].spec_is_stack() && records.contains(
            record_of(homes, i, id),
        )
}

/// A copy of a table of flags.
fn copy_flags(v: &Vec<bool>) -> (r: Vec<bool>)
    ensures
        r@ == v@,
{
    let mut r: Vec<bool> = Vec::new();
    let mut k: usize = 0;
    while k < v.len()
        invariant
            k <= v.len(),
            r@.len() == k,
            forall|j: int| 0 <= j < k ==> #[trigger] r@[j] == v@[j],
        decreases v.len() - k,
    {
        r.push(v[k]);
        k += 1;
    }
    assert(r@ =~= v@);
    r
}

/// What is known of the vregs as far as the safepoint records need it.
pub open spec fn refs_rest_on_stack(
    m: ProgramModel,
    env: &MachineEnv,
    homes: Seq<Allocation>,
) -> bool {
    exists|mentioned: Seq<bool>, on_stack: Seq<bool>, slots: int|
        {
            &&& #[trigger] homes_ok(m, env, mentioned, on_stack, homes, slots)
            &&& mentioned.len() == m.num_vregs
            &&& on_stack.len() == m.num_vregs
            &&& forall|i: int, k: int|
                0 <= i < m.insts.len() && 0 <= k < m.insts[i].operands.len()
                    ==> mentioned[#[trigger] m.op_vreg(i, k) as int]
            &&& forall|id: int|
                0 <= id < m.num_vregs && m.is_reftype(id as usize) ==> #[trigger] on_stack[id]
        }
}

/// The home of a reference that is live somewhere is a spill slot.
proof fn lemma_ref_home_is_slot(
    m: ProgramModel,
    env: &MachineEnv,
    homes: Seq<Allocation>,
    b: int,
    i: int,
    id: int,
)
    requires
        m.wf(),
        m.block_error() is None,
        refs_rest_on_stack(m, env, homes),
        0 <= b < m.blocks.len(),
        m.blocks[b].insns.0.0 <= i < m.blocks[b].insns.1.0,
        0 <= id < m.num_vregs,
        m.is_reftype(id as usize),
        m.live_at(b, i, id as usize),
    ensures
        homes[id].spec_is_stack(),
        homes[id].spec_as_stack() is Some,
{
    let uid = id as usize;
    let fuel = choose|fuel: nat| m.live_before(b, i, uid, fuel);
    let w = crate::liveness::lemma_live_is_read(m, b, i, uid, fuel);
    let (mentioned, on_stack, slots) = choose|mentioned: Seq<bool>, on_stack: Seq<bool>, slots: int|
        {
            &&& #[trigger] homes_ok(m, env, mentioned, on_stack, homes, slots)
            &&& mentioned.len() == m.num_vregs
            &&& on_stack.len() == m.num_vregs
            &&& forall|i: int, k: int|
                0 <= i < m.insts.len() && 0 <= k < m.insts[i].operands.len()
                    ==> mentioned[#[trigger] m.op_vreg(i, k) as int]
            &&& forall|id: int|
                0 <= id < m.num_vregs && m.is_reftype(id as usize) ==> #[trigger] on_stack[id]
        };
    assert(m.op_vreg(w.0, w.1) == uid);
    assert(mentioned[m.op_vreg(w.0, w.1) as int]);
    assert(on_stack[id]);
    assert(m.pin_of(uid) is None);
}

/// The safepoint records of one block, the last instruction first, and
/// for one instruction the vreg with the greatest id first.
fn block_safepoints(
    p: &Program,
    env: &MachineEnv,
    pins: &Vec<Option<PReg>>,
    reftype: &Vec<bool>,
    t: &Vec<Vec<bool>>,
    homes: &Vec<Allocation>,
    b: usize,
) -> (r: Vec<(ProgPoint, SpillSlot)>)
    requires
        p@.wf(),
        p@.block_error() is None,
        table_ok(p@, t@),
        sound(p@, t@),
        closed(p@, t@),
        pins@.len() == p@.num_vregs,
        forall|id: int| 0 <= id < p@.num_vregs ==> #[trigger] pins@[id] == p@.pin_of(id as usize),
        reftype@.len() == p@.num_vregs,
        forall|id: int|
            0 <= id < p@.num_vregs ==> #[trigger] reftype@[id] == p@.is_reftype(id as usize),
        homes@.len() == p@.num_vregs,
        refs_rest_on_stack(p@, env, homes@),
        b < p.blocks.len(),
    ensures
        forall|a: int|
            0 <= a < r@.len() ==> 2 * p@.blocks[b as int].insns.0.0 <= (
            #[trigger] r@[a]).0.spec_to_index() < 2 * p@.blocks[b as int].insns.1.0,
        forall|a: int, c: int|
            0 <= a <= c < r@.len() ==> (#[trigger] r@[a]).0.spec_to_index() >= (
            #[trigger] r@[c]).0.spec_to_index(),
        forall|a: int| 0 <= a < r@.len() ==> safepoint_true(p@, homes@, #[trigger] r@[a]),
        forall|i: int, id: int| #[trigger]
            wants_record(p@, b as int, i, id) ==> homes@[id].spec_is_stack() && r@.contains(
                record_of(homes@, i, id),
            ),
{
    let ghost m = p@;
    let ghost bb = b as int;
    proof {
        crate::cfg::lemma_blocks_well_formed(m, bb);
    }
    assert(m.blocks[bb] == p.blocks@[bb]@);
    let v = p.num_vregs;
    let first = p.blocks[b].insns.0.0 as usize;
    let end = p.blocks[b].insns.1.0 as usize;
    let mut cur = crate::liveness::out_set(p, t, b);
    let ghost out = cur@;
    let mut r: Vec<(ProgPoint, SpillSlot)> = Vec::new();
    let mut i: usize = end;
    while i > first
        invariant
            p@.wf(),
            p@.block_error() is None,
            m == p@,
            bb == b as int,
            table_ok(m, t@),
            sound(m, t@),
            closed(m, t@),
            pins@.len() == m.num_vregs,
            forall|id: int|
                0 <= id < m.num_vregs ==> #[trigger] pins@[id] == m.pin_of(id as usize),
            reftype@.len() == m.num_vregs,
            forall|id: int|
                0 <= id < m.num_vregs ==> #[trigger] reftype@[id] == m.is_reftype(id as usize),
            homes@.len() == m.num_vregs,
            refs_rest_on_stack(m, env, homes@),
            b < p.blocks.len(),
            v == m.num_vregs,
            first == m.blocks[bb].insns.0.0,
            end == m.blocks[bb].insns.1.0,
            first <= i <= end <= p.insts.len(),
            first < end,
            out == out_row(m, t@, bb),
            cur@.len() == v,
            forall|id: int|
                0 <= id < v ==> #[trigger] cur@[id] == if i < end {
                    walk(m, out, bb, i as int, id)
                } else {
                    out[id]
                },
            forall|a: int|
                0 <= a < r@.len() ==> 2 * i <= (#[trigger] r@[a]).0.spec_to_index() < 2 * end,
            forall|a: int, c: int|
                0 <= a <= c < r@.len() ==> (#[trigger] r@[a]).0.spec_to_index() >= (
                #[trigger] r@[c]).0.spec_to_index(),
            forall|a: int| 0 <= a < r@.len() ==> safepoint_true(m, homes@, #[trigger] r@[a]),
            forall|i2: int, id: int|
                i <= i2 && #[trigger] wants_record(m, bb, i2, id) ==> homes@[id].spec_is_stack()
                    && r@.contains(record_of(homes@, i2, id)),
        decreases i,
    {
        i -= 1;
        let after = copy_flags(&cur);
        crate::liveness::step_inst(p, pins, i, &mut cur);
        assert(m.insts[i as int] == p.insts@[i as int]@);
        if p.insts[i].requires_refs_on_stack {
            let point = ProgPoint::before(Inst::new(i));
            let mut id: usize = v;
            while id > 0
                invariant
                    p@.wf(),
                    p@.block_error() is None,
                    m == p@,
                    bb == b as int,
                    table_ok(m, t@),
                    sound(m, t@),
                    closed(m, t@),
                    reftype@.len() == m.num_vregs,
                    forall|id: int|
                        0 <= id < m.num_vregs ==> #[trigger] reftype@[id] == m.is_reftype(
                            id as usize,
                        ),
                    homes@.len() == m.num_vregs,
                    refs_rest_on_stack(m, env, homes@),
                    b < p.blocks.len(),
                    v == m.num_vregs,
                    first == m.blocks[bb].insns.0.0,
                    end == m.blocks[bb].insns.1.0,
                    first <= i < end <= p.insts.len(),
                    m.insts[i as int].requires_refs_on_stack,
                    out == out_row(m, t@, bb),
                    cur@.len() == v,
                    after@.len() == v,
                    forall|id: int|
                        0 <= id < v ==> #[trigger] cur@[id] == walk(m, out, bb, i as int, id),
                    forall|id: int|
                        0 <= id < v ==> #[trigger] after@[id] == crate::liveness::walk_after(
                            m,
                            out,
                            bb,
                            i as int,
                            id,
                        ),
                    point == ProgPoint::spec_before(Inst(i as u32)),
                    point.spec_to_index() == 2 * i,
                    id <= v,
                    forall|a: int|
                        0 <= a < r@.len() ==> 2 * i <= (#[trigger] r@[a]).0.spec_to_index() < 2
                            * end,
                    forall|a: int, c: int|
                        0 <= a <= c < r@.len() ==> (#[trigger] r@[a]).0.spec_to_index() >= (
                        #[trigger] r@[c]).0.spec_to_index(),
                    forall|a: int|
                        0 <= a < r@.len() ==> safepoint_true(m, homes@, #[trigger] r@[a]),
                    forall|i2: int, id2: int|
                        (i < i2 || (i == i2 && id <= id2)) && #[trigger] wants_record(
                            m,
                            bb,
                            i2,
                            id2,
                        ) ==> homes@[id2].spec_is_stack() && r@.contains(
                            record_of(homes@, i2, id2),
                        ),
                decreases id,
            {
                id -= 1;
                proof {
                    crate::liveness::lemma_walk_exact(m, t@, bb, i as int, id as int);
                }
                let ghost before = r@;
                if reftype[id] && after[id] && cur[id] {
                    proof {
                        lemma_ref_home_is_slot(m, env, homes@, bb, i as int, id as int);
                    }
                    match homes[id].as_stack() {
                        Some(slot) => {
                            r.push((point, slot));
                            proof {
                                assert(wants_record(m, bb, i as int, id as int));
                                assert((point, slot) == record_of(homes@, i as int, id as int));
                                assert forall|a: int| 0 <= a < r@.len() implies safepoint_true(
                                    m,
                                    homes@,
                                    #[trigger] r@[a],
                                ) by {
                                    if a < before.len() {
                                        assert(r@[a] == before[a]);
                                    }
                                }
                                assert forall|a: int, c: int| 0 <= a <= c < r@.len() implies (
                                #[trigger] r@[a]).0.spec_to_index() >= (
                                #[trigger] r@[c]).0.spec_to_index() by {
                                    if c < before.len() {
                                        assert(r@[a] == before[a]);
                                        assert(r@[c] == before[c]);
                                    } else if a < before.len() {
                                        assert(r@[a] == before[a]);
                                    }
                                }
                                assert forall|a: int| 0 <= a < r@.len() implies 2 * i <= (
                                #[trigger] r@[a]).0.spec_to_index() < 2 * end by {
                                    if a < before.len() {
                                        assert(r@[a] == before[a]);
                                    }
                                }
                            }
                        },
                        None => {},
                    }
                }
                proof {
                    assert forall|i2: int, id2: int|
                        (i < i2 || (i == i2 && id <= id2)) && #[trigger] wants_record(
                            m,
                            bb,
                            i2,
                            id2,
                        ) implies homes@[id2].spec_is_stack() && r@.contains(
                        record_of(homes@, i2, id2),
                    ) by {
                        let rec = record_of(homes@, i2, id2);
                        if i2 == i && id2 == id {
                            assert(r@[r@.len() - 1] == rec);
                        } else {
                            assert(before.contains(rec));
                            let at = choose|at: int| 0 <= at < before.len() && before[at] == rec;
                            assert(r@[at] == rec);
                        }
                    }
                }
            }
        }
    }
    r
}

/// The safepoint records of the program: for every instruction that
/// wants references on the stack, the slots of the vregs that hold a
/// reference and are live before and after it.
pub(crate) fn build_safepoints(
    p: &Program,
    env: &MachineEnv,
    pins: &Vec<Option<PReg>>,
    reftype: &Vec<bool>,
    t: &Vec<Vec<bool>>,
    homes: &Vec<Allocation>,
) -> (r: Vec<(ProgPoint, SpillSlot)>)
    requires
        p@.wf(),
        p@.block_error() is None,
        table_ok(p@, t@),
        sound(p@, t@),
        closed(p@, t@),
        pins@.len() == p@.num_vregs,
        forall|id: int| 0 <= id < p@.num_vregs ==> #[trigger] pins@[id] == p@.pin_of(id as usize),
        reftype@.len() == p@.num_vregs,
        forall|id: int|
            0 <= id < p@.num_vregs ==> #[trigger] reftype@[id] == p@.is_reftype(id as usize),
        homes@.len() == p@.num_vregs,
        refs_rest_on_stack(p@, env, homes@),
    ensures
        safepoints_ok(p@, homes@, r@),
{
    let ghost m = p@;
    let mut r: Vec<(ProgPoint, SpillSlot)> = Vec::new();
    let nb = p.blocks.len();
    let mut b: usize = 0;
    while b < nb
        invariant
            p@.wf(),
            p@.block_error() is None,
            m == p@,
            table_ok(m, t@),
            sound(m, t@),
            closed(m, t@),
            pins@.len() == m.num_vregs,
            forall|id: int|
                0 <= id < m.num_vregs ==> #[trigger] pins@[id] == m.pin_of(id as usize),
            reftype@.len() == m.num_vregs,
            forall|id: int|
                0 <= id < m.num_vregs ==> #[trigger] reftype@[id] == m.is_reftype(id as usize),
            homes@.len() == m.num_vregs,
            refs_rest_on_stack(m, env, homes@),
            nb == p.blocks.len(),
            b <= nb,
            forall|a: int, c: int|
                0 <= a <= c < r@.len() ==> (#[trigger] r@[a]).0.spec_to_index() <= (
                #[trigger] r@[c]).0.spec_to_index(),
            forall|a: int| 0 <= a < r@.len() ==> safepoint_true(m, homes@, #[trigger] r@[a]),
            forall|b2: int, i: int, id: int|
                b2 < b && #[trigger] wants_record(m, b2, i, id) ==> homes@[id].spec_is_stack()
                    && r@.contains(record_of(homes@, i, id)),
            forall|a: int|
                0 <= a < r@.len() ==> (#[trigger] r@[a]).0.spec_to_index() < if b < nb {
                    2 * m.blocks[b as int].insns.0.0 as int
                } else {
                    2 * m.insts.len() as int
                },
        decreases nb - b,
    {
        let tmp = block_safepoints(p, env, pins, reftype, t, homes, b);
        let mut j: usize = tmp.len();
        while j > 0
            invariant
                m == p@,
                p@.wf(),
                b < nb,
                nb == p.blocks.len(),
                j <= tmp@.len(),
                forall|a: int, c: int|
                    0 <= a <= c < r@.len() ==> (#[trigger] r@[a]).0.spec_to_index() <= (
                    #[trigger] r@[c]).0.spec_to_index(),
                forall|a: int| 0 <= a < r@.len() ==> safepoint_true(m, homes@, #[trigger] r@[a]),
                forall|b2: int, i: int, id: int|
                    b2 < b && #[trigger] wants_record(m, b2, i, id) ==> homes@[id].spec_is_stack()
                        && r@.contains(record_of(homes@, i, id)),
                forall|a: int| j <= a < tmp@.len() ==> r@.contains(#[trigger] tmp@[a]),
                forall|a: int|
                    0 <= a < tmp@.len() ==> 2 * m.blocks[b as int].insns.0.0 <= (
                    #[trigger] tmp@[a]).0.spec_to_index() < 2 * m.blocks[b as int].insns.1.0,
                forall|a: int, c: int|
                    0 <= a <= c < tmp@.len() ==> (#[trigger] tmp@[a]).0.spec_to_index() >= (
                    #[trigger] tmp@[c]).0.spec_to_index(),
                forall|a: int|
                    0 <= a < tmp@.len() ==> safepoint_true(m, homes@, #[trigger] tmp@[a]),
                forall|a: int|
                    0 <= a < r@.len() ==> (#[trigger] r@[a]).0.spec_to_index() < 2
                        * m.blocks[b as int].insns.1.0,
                forall|a: int|
                    0 <= a < r@.len() && j > 0 ==> (#[trigger] r@[a]).0.spec_to_index()
                        <= tmp@[j - 1].0.spec_to_index(),
            decreases j,
        {
            j -= 1;
            let ghost before = r@;
            r.push(tmp[j]);
            proof {
                assert forall|a: int, c: int| 0 <= a <= c < r@.len() implies (
                #[trigger] r@[a]).0.spec_to_index() <= (#[trigger] r@[c]).0.spec_to_index() by {
                    if c < before.len() {
                        assert(r@[a] == before[a]);
                        assert(r@[c] == before[c]);
                    } else if a < before.len() {
                        assert(r@[a] == before[a]);
                    }
                }
                assert forall|a: int| 0 <= a < r@.len() implies safepoint_true(
                    m,
                    homes@,
                    #[trigger] r@[a],
                ) by {
                    if a < before.len() {
                        assert(r@[a] == before[a]);
                    }
                }
                assert forall|a: int| 0 <= a < r@.len() && j > 0 implies (
                #[trigger] r@[a]).0.spec_to_index() <= tmp@[j - 1].0.spec_to_index() by {
                    if a < before.len() {
                        assert(r@[a] == before[a]);
                        assert(before[a].0.spec_to_index() <= tmp@[j as int].0.spec_to_index());
                    }
                    assert(tmp@[j as int - 1].0.spec_to_index() >= tmp@[j as int].0.spec_to_index());
                }
                assert forall|a: int| 0 <= a < r@.len() implies (
                #[trigger] r@[a]).0.spec_to_index() < 2 * m.blocks[b as int].insns.1.0 by {
                    if a < before.len() {
                        assert(r@[a] == before[a]);
                    }
                }
                assert forall|b2: int, i: int, id: int|
                    b2 < b && #[trigger] wants_record(m, b2, i, id) implies homes@[id].spec_is_stack()
                    && r@.contains(record_of(homes@, i, id)) by {
                    let rec = record_of(homes@, i, id);
                    assert(before.contains(rec));
                    let at = choose|at: int| 0 <= at < before.len() && before[at] == rec;
                    assert(r@[at] == rec);
                }
                assert forall|a: int| j <= a < tmp@.len() implies r@.contains(
                    #[trigger] tmp@[a],
                ) by {
                    if a == j {
                        assert(r@[r@.len() - 1] == tmp@[a]);
                    } else {
                        assert(before.contains(tmp@[a]));
                        let at = choose|at: int| 0 <= at < before.len() && before[at] == tmp@[a];
                        assert(r@[at] == tmp@[a]);
                    }
                }
            }
        }
        proof {
            assert forall|b2: int, i: int, id: int|
                b2 < b + 1 && #[trigger] wants_record(m, b2, i, id) implies homes@[id].spec_is_stack()
                && r@.contains(record_of(homes@, i, id)) by {
                if b2 == b {
                    let rec = record_of(homes@, i, id);
                    assert(tmp@.contains(rec));
                    let at = choose|at: int| 0 <= at < tmp@.len() && tmp@[at] == rec;
                    assert(r@.contains(tmp@[at]));
                }
            }
        }
        b += 1;
    }
    r
}

impl ProgramModel {
    /// The first thing that is wrong with the program itself: with the
    /// shape of its control-flow graph, else with single assignment,
    /// else with a vreg that is live at the start of the entry block:
    /// one that nothing defines, or one that is read where its
    /// definition need not have come before.
    pub open spec fn validation_error(self) -> Option<RegAllocError> {
        if self.cfg_error() is Some {
            self.cfg_error()
        } else if self.ssa_error() is Some {
            self.ssa_error()
        } else if self.entry_livein() {
            Some(self.entry_error())
        } else {
            None
        }
    }

    /// The error that the allocator answers the program with, if any:
    /// what is wrong with the program itself, or else that some
    /// instruction cannot have its registers on this machine.
    pub open spec fn run_error(self, env: &MachineEnv) -> Option<RegAllocError> {
        if self.validation_error() is Some {
            self.validation_error()
        } else if !self.feasible(env) {
            Some(RegAllocError::TooManyLiveRegs)
        } else {
            None
        }
    }
}

/// The allocation of operand `k` of instruction `i` in the result.
pub open spec fn operand_alloc(m: ProgramModel, out: &Output, i: int, k: int) -> Allocation {
    out.allocs@[m.operand_offset(i) + k]
}

/// Whether the edits hold the moves between homes and registers: where
/// an operand is in a register that is not the home of its vreg, a move
/// from the home into the register before the instruction if the
/// operand reads the vreg, and a move from the register to the home
/// after the instruction if it writes the vreg.
pub open spec fn transfers_present(m: ProgramModel, out: &Output, homes: Seq<Allocation>) -> bool {
    forall|i: int, k: int|
        0 <= i < m.insts.len() && 0 <= k < m.insts[i].operands.len() && m.in_reg(i, k)
            && !homes[m.op_vreg(i, k) as int].spec_is_none() && homes[m.op_vreg(i, k) as int]
            != #[trigger] operand_alloc(m, out, i, k) ==> {
            let op = m.insts[i].operands[k];
            let home = homes[m.op_vreg(i, k) as int];
            let here = operand_alloc(m, out, i, k);
            &&& op.spec_kind() != OperandKind::Def ==> out.edits@.contains(
                (
                    ProgPoint::spec_before(Inst(i as u32)),
                    Edit::Move { from: home, to: here, to_vreg: Some(op.spec_vreg()) },
                ),
            )
            &&& op.spec_kind() != OperandKind::Use ==> out.edits@.contains(
                (
                    ProgPoint::spec_after(Inst(i as u32)),
                    Edit::Move { from: here, to: home, to_vreg: Some(op.spec_vreg()) },
                ),
            )
        }
}

/// What a result owes the program through the homes of the vregs: a
/// pinned vreg rests in the register it is pinned to, every other vreg
/// that an operand names in a register that may be allocated or in a
/// spill slot of its own below the number of slots, not in a register
/// if it holds a reference or an operand wants it on the stack, and a
/// vreg that no operand names has no home; every operand that need not be in a register is in the
/// home of its vreg, and the edits hold the moves between the home and
/// every other operand; the safepoint records are those that the result
/// owes; and the debug locations answer the requests of the program.
pub open spec fn placement_ok(
    m: ProgramModel,
    env: &MachineEnv,
    out: &Output,
    homes: Seq<Allocation>,
) -> bool {
    &&& homes.len() == m.num_vregs
    &&& forall|id: int|
        0 <= id < m.num_vregs ==> match m.pin_of(id as usize) {
            Some(pin) => #[trigger] homes[id] == Allocation::spec_reg(pin),
            None => {
                &&& crate::homes::named(m, id) ==> homes[id].spec_is_reg()
                    || homes[id].spec_is_stack()
                &&& !crate::homes::named(m, id) ==> homes[id].spec_is_none()
                &&& crate::homes::stack_bound(m, id) ==> !homes[id].spec_is_reg()
                &&& homes[id].spec_is_reg() ==> m.candidate(
                    env,
                    class_at(homes[id].spec_index() as int),
                    homes[id].spec_index() as int,
                )
                &&& homes[id].spec_is_stack() ==> homes[id].spec_as_stack().unwrap().spec_index()
                    < out.num_spillslots
                &&& m.is_reftype(id as usize) ==> !homes[id].spec_is_reg()
            },
        }
    &&& forall|id1: int, id2: int|
        0 <= id1 < id2 < m.num_vregs && (#[trigger] homes[id1]).spec_is_stack() && (
        #[trigger] homes[id2]).spec_is_stack() ==> homes[id1] != homes[id2]
    &&& forall|i: int|
        0 <= i < m.insts.len() ==> rests_at_home(
            m,
            i,
            #[trigger] out.allocs@.subrange(m.operand_offset(i), m.operand_offset(i + 1)),
            homes,
        )
    &&& transfers_present(m, out, homes)
    &&& safepoints_ok(m, homes, out.safepoint_slots@)
    &&& crate::debuginfo::debug_ok(m, homes, out.debug_locations@)
}

/// Whether the vreg `w` rests in the register at `x` while the point
/// `pt` of the program lies within its hull.
pub open spec fn rests_in(
    m: ProgramModel,
    homes: Seq<Allocation>,
    lo: Seq<usize>,
    hi: Seq<usize>,
    w: int,
    x: int,
    pt: int,
) -> bool {
    &&& 0 <= w < m.num_vregs
    &&& m.pin_of(w as usize) is None
    &&& homes[w].spec_is_reg()
    &&& homes[w].spec_index() == x
    &&& lo[w] <= pt <= hi[w]
    &&& 0 <= pt < 2 * m.insts.len()
}

/// Whether operand `k` of instruction `i` is allocated to the
/// register at `x` and holds it at the point `pt`: the point before the
/// instruction for the early half, the point after it for the late half.
pub open spec fn operand_holds(m: ProgramModel, out: &Output, i: int, k: int, x: int, pt: int) -> bool {
    let a = out.allocs@[m.operand_offset(i) + k];
    let op = m.insts[i].operands[k];
    &&& 0 <= i < m.insts.len()
    &&& 0 <= k < m.insts[i].operands.len()
    &&& a.spec_is_reg()
    &&& a.spec_index() == x
    &&& (pt == 2 * i && holds_early(op)) || (pt == 2 * i + 1 && holds_late(op))
}

/// Whether the hull of the vreg reaches over both points.
pub open spec fn spans(lo: Seq<usize>, hi: Seq<usize>, id: int, pt1: int, pt2: int) -> bool {
    lo[id] <= pt1 <= hi[id] && lo[id] <= pt2 <= hi[id]
}

/// Whether instruction `i` clobbers the register at `x`, and `pt` is
/// the point after the instruction.
pub open spec fn clobbers_at(m: ProgramModel, i: int, c: int, x: int, pt: int) -> bool {
    &&& 0 <= i < m.insts.len()
    &&& 0 <= c < m.insts[i].clobbers.len()
    &&& m.insts[i].clobbers[c].spec_index() == x
    &&& pt == 2 * i + 1
}

/// What a result owes the program through the hulls of the vregs, the
/// stretch of points over which each vreg has its home to itself: the
/// hull of a vreg reaches over the start of every block that the vreg
/// is live into or of which it is a parameter, over the end of every
/// block that it is live out of, over every half of an instruction in
/// which an operand names it, and, for the parameters and arguments of
/// an edge, over the points before and after the branch and the start
/// of the successor, where the moves of the edge may stand;
/// no two vregs rest in one register at a point of both their hulls;
/// no operand is in the register of another vreg at a point of that
/// vreg's hull; and no instruction clobbers the register of a vreg
/// whose hull reaches over the point after it.
pub open spec fn homes_apart(
    m: ProgramModel,
    out: &Output,
    homes: Seq<Allocation>,
    lo: Seq<usize>,
    hi: Seq<usize>,
) -> bool {
    &&& lo.len() == m.num_vregs
    &&& hi.len() == m.num_vregs
    &&& forall|b: int, id: int|
        0 <= b < m.blocks.len() && 0 <= id < m.num_vregs && #[trigger] m.live_in(b, id as usize)
            ==> lo[id] <= 2 * m.blocks[b].insns.0.0 <= hi[id]
    &&& forall|b: int, id: int|
        0 <= b < m.blocks.len() && 0 <= id < m.num_vregs && #[trigger] m.live_out(b, id as usize)
            ==> lo[id] <= 2 * m.last_inst(b) + 1 <= hi[id]
    &&& forall|i: int, k: int|
        0 <= i < m.insts.len() && 0 <= k < m.insts[i].operands.len() && holds_early(
            #[trigger] m.insts[i].operands[k],
        ) ==> lo[m.op_vreg(i, k) as int] <= 2 * i <= hi[m.op_vreg(i, k) as int]
    &&& forall|i: int, k: int|
        0 <= i < m.insts.len() && 0 <= k < m.insts[i].operands.len() && holds_late(
            #[trigger] m.insts[i].operands[k],
        ) ==> lo[m.op_vreg(i, k) as int] <= 2 * i + 1 <= hi[m.op_vreg(i, k) as int]
    &&& forall|b: int, k: int|
        0 <= b < m.blocks.len() && 0 <= k < m.blocks[b].params.len() ==> lo[(
        #[trigger] m.blocks[b].params[k]).spec_vreg() as int] <= 2 * m.blocks[b].insns.0.0
            <= hi[m.blocks[b].params[k].spec_vreg() as int]
    &&& forall|b: int, k: int, q: int|
        0 <= b < m.blocks.len() && 0 <= k < m.blocks[b].params.len() && 0 <= q
            < m.blocks[b].preds.len() ==> spans(
            lo,
            hi,
            (#[trigger] m.blocks[b].params[k]).spec_vreg() as int,
            2 * m.last_inst((#[trigger] m.blocks[b].preds[q]).0 as int),
            2 * m.last_inst(m.blocks[b].preds[q].0 as int) + 1,
        )
    &&& forall|b: int, k: int, s: int|
        0 <= b < m.blocks.len() && 0 <= k < m.insts[m.last_inst(b)].operands.len() && 0 <= s
            < m.blocks[b].succs.len() ==> spans(
            lo,
            hi,
            (#[trigger] m.insts[m.last_inst(b)].operands[k]).spec_vreg().spec_vreg() as int,
            2 * m.last_inst(b) + 1,
            2 * m.blocks[(#[trigger] m.blocks[b].succs[s]).0 as int].insns.0.0,
        )
    &&& forall|w1: int, w2: int, x: int, pt: int| #[trigger]
        rests_in(m, homes, lo, hi, w1, x, pt) && #[trigger] rests_in(m, homes, lo, hi, w2, x, pt)
            ==> w1 == w2
    &&& forall|i: int, k: int, w: int, x: int, pt: int| #[trigger]
        operand_holds(m, out, i, k, x, pt) && #[trigger] rests_in(m, homes, lo, hi, w, x, pt)
            ==> w == m.op_vreg(i, k)
    &&& forall|i: int, c: int, w: int, x: int, pt: int|
        !(#[trigger] clobbers_at(m, i, c, x, pt) && #[trigger] rests_in(
            m,
            homes,
            lo,
            hi,
            w,
            x,
            pt,
        ))
}

/// Hulls that cover the table of live vregs, with an occupancy in
/// which every operand and every home holds its register, keep the
/// homes apart.
proof fn lemma_apart(
    m: ProgramModel,
    env: &MachineEnv,
    out: &Output,
    regs: Seq<Vec<Option<PReg>>>,
    homes: Seq<Allocation>,
    mentioned: Seq<bool>,
    on_stack: Seq<bool>,
    t: Seq<Vec<bool>>,
    hulls: crate::homes::Hulls,
    occ: crate::homes::Occupancy,
    cand: Seq<bool>,
)
    requires
        m.wf(),
        m.block_error() is None,
        table_ok(m, t),
        sound(m, t),
        closed(m, t),
        hulls.shaped(m),
        crate::homes::hulls_cover(m, t, hulls),
        crate::homes::params_covered(m, hulls),
        crate::homes::args_covered(m, hulls),
        occ.shaped(2 * m.insts.len()),
        cand.len() == 128,
        forall|x: int| 0 <= x < 128 ==> #[trigger] cand[x] == m.candidate(env, class_at(x), x),
        forall|x: int| 0 <= x < 128 && cand[x] && m.insts.len() > 0 ==> #[trigger] occ.has_row(x),
        crate::homes::operands_marked(m, regs, occ, m.insts.len() as int),
        crate::homes::clobbers_marked(m, occ, m.insts.len() as int),
        crate::homes::homes_held(m, homes, hulls, occ, 2 * m.insts.len()),
        homes_ok(m, env, mentioned, on_stack, homes, out.num_spillslots as int),
        regs.len() == m.insts.len(),
        forall|i: int| 0 <= i < m.insts.len() ==> local_ok(m, env, i, (#[trigger] regs[i])@),
        out.allocs@.len() == m.operand_offset(m.insts.len() as int),
        forall|i: int|
            0 <= i < m.insts.len() ==> #[trigger] out.allocs@.subrange(
                m.operand_offset(i),
                m.operand_offset(i + 1),
            ) == allocs_of(m, i, regs[i]@, homes),
    ensures
        homes_apart(m, out, homes, hulls.lo@, hulls.hi@),
{
    let lo = hulls.lo@;
    let hi = hulls.hi@;
    let points = 2 * m.insts.len();
    assert forall|b: int, id: int|
        0 <= b < m.blocks.len() && 0 <= id < m.num_vregs && #[trigger] m.live_in(
            b,
            id as usize,
        ) implies lo[id] <= 2 * m.blocks[b].insns.0.0 <= hi[id] by {
        crate::liveness::lemma_table_exact(m, t, b, id);
        assert(t[b]@[id]);
        assert(hulls.covers(id, 2 * m.blocks[b].insns.0.0));
    }
    assert forall|b: int, id: int|
        0 <= b < m.blocks.len() && 0 <= id < m.num_vregs && #[trigger] m.live_out(
            b,
            id as usize,
        ) implies lo[id] <= 2 * m.last_inst(b) + 1 <= hi[id] by {
        let uid = id as usize;
        let n = m.blocks[b].succs.len() as int;
        let fuel = choose|fuel: nat| m.live_out_upto(b, n, uid, fuel);
        crate::liveness::lemma_out_complete(m, t, b, n, id, fuel);
        assert(out_row(m, t, b)[id]);
        assert(hulls.covers(id, 2 * m.last_inst(b) + 1));
    }
    assert forall|i: int, k: int|
        0 <= i < m.insts.len() && 0 <= k < m.insts[i].operands.len() && holds_early(
            #[trigger] m.insts[i].operands[k],
        ) implies lo[m.op_vreg(i, k) as int] <= 2 * i <= hi[m.op_vreg(i, k) as int] by {
        assert(hulls.covers(m.op_vreg(i, k) as int, 2 * i));
    }
    assert forall|i: int, k: int|
        0 <= i < m.insts.len() && 0 <= k < m.insts[i].operands.len() && holds_late(
            #[trigger] m.insts[i].operands[k],
        ) implies lo[m.op_vreg(i, k) as int] <= 2 * i + 1 <= hi[m.op_vreg(i, k) as int] by {
        assert(hulls.covers(m.op_vreg(i, k) as int, 2 * i + 1));
    }
    assert forall|b: int, k: int|
        0 <= b < m.blocks.len() && 0 <= k < m.blocks[b].params.len() implies lo[(
    #[trigger] m.blocks[b].params[k]).spec_vreg() as int] <= 2 * m.blocks[b].insns.0.0
        <= hi[m.blocks[b].params[k].spec_vreg() as int] by {
        assert(hulls.covers(m.blocks[b].params[k].spec_vreg() as int, 2 * m.blocks[b].insns.0.0));
    }
    assert forall|b: int, k: int, q: int|
        0 <= b < m.blocks.len() && 0 <= k < m.blocks[b].params.len() && 0 <= q
            < m.blocks[b].preds.len() implies spans(
        lo,
        hi,
        (#[trigger] m.blocks[b].params[k]).spec_vreg() as int,
        2 * m.last_inst((#[trigger] m.blocks[b].preds[q]).0 as int),
        2 * m.last_inst(m.blocks[b].preds[q].0 as int) + 1,
    ) by {
        assert(crate::homes::covers_branch(
            m,
            hulls,
            m.blocks[b].params[k].spec_vreg() as int,
            m.blocks[b].preds[q].0 as int,
        ));
    }
    assert forall|b: int, k: int, s: int|
        0 <= b < m.blocks.len() && 0 <= k < m.insts[m.last_inst(b)].operands.len() && 0 <= s
            < m.blocks[b].succs.len() implies spans(
        lo,
        hi,
        (#[trigger] m.insts[m.last_inst(b)].operands[k]).spec_vreg().spec_vreg() as int,
        2 * m.last_inst(b) + 1,
        2 * m.blocks[(#[trigger] m.blocks[b].succs[s]).0 as int].insns.0.0,
    ) by {
        assert(crate::homes::covers_edge(
            m,
            hulls,
            m.insts[m.last_inst(b)].operands[k].spec_vreg().spec_vreg() as int,
            b,
            m.blocks[b].succs[s].0 as int,
        ));
    }
    // a vreg that rests in a register holds its cell
    assert forall|w: int, x: int, pt: int| #[trigger]
        rests_in(m, homes, lo, hi, w, x, pt) && 0 <= pt < points implies occ.held(x, pt) == w
        + 1 by {
        assert(hulls.covers(w, pt));
        assert(occ.held(homes[w].spec_index() as int, pt) == w + 1);
    }
    assert forall|w1: int, w2: int, x: int, pt: int| #[trigger]
        rests_in(m, homes, lo, hi, w1, x, pt) && #[trigger] rests_in(
            m,
            homes,
            lo,
            hi,
            w2,
            x,
            pt,
        ) implies w1 == w2 by {
        assert(occ.held(x, pt) == w1 + 1);
        assert(occ.held(x, pt) == w2 + 1);
    }
    assert forall|i: int, c: int, w: int, x: int, pt: int|
        !(#[trigger] clobbers_at(m, i, c, x, pt) && #[trigger] rests_in(
            m,
            homes,
            lo,
            hi,
            w,
            x,
            pt,
        )) by {
        if clobbers_at(m, i, c, x, pt) && rests_in(m, homes, lo, hi, w, x, pt) {
            assert(occ.held(x, pt) == w + 1);
            assert(m.candidate(env, class_at(x), x));
            assert(occ.has_row(x));
            assert(occ.has_row(m.insts[i].clobbers[c].spec_index() as int));
            assert(occ.held(x, pt) == crate::homes::BLOCKED);
        }
    }
    assert forall|i: int, k: int, w: int, x: int, pt: int| #[trigger]
        operand_holds(m, out, i, k, x, pt) && #[trigger] rests_in(
            m,
            homes,
            lo,
            hi,
            w,
            x,
            pt,
        ) implies w == m.op_vreg(i, k) by {
        let id = m.op_vreg(i, k) as int;
        let row = allocs_of(m, i, regs[i]@, homes);
        crate::engine::lemma_offsets_grow(m, i + 1, m.insts.len() as int);
        crate::engine::lemma_offsets_grow(m, i, i + 1);
        assert(out.allocs@.subrange(m.operand_offset(i), m.operand_offset(i + 1)) == row);
        assert(out.allocs@[m.operand_offset(i) + k] == row[k]);
        assert(m.insts[i].operands[k].spec_vreg().spec_vreg() < m.num_vregs);
        assert(local_ok(m, env, i, regs[i]@));
        assert(0 <= pt < points);
        assert(occ.held(x, pt) == w + 1);
        assert(m.candidate(env, class_at(x), x));
        assert(occ.has_row(x));
        if regs[i]@[k] is Some {
            let r = regs[i]@[k].unwrap();
            crate::regs::lemma_preg_determined(r);
            crate::allocation::lemma_allocation_new_fields(
                crate::allocation::AllocationKind::Reg,
                r.spec_index() as nat,
            );
            assert(row[k] == Allocation::spec_reg(r));
            assert(r.spec_index() == x);
            assert(occ.has_row(regs[i]@[k].unwrap().spec_index() as int));
            assert(crate::homes::kept_for(occ.held(x, pt), id));
        } else {
            assert(row[k] == homes[id]);
            assert(m.pin_of(id as usize) is None) by {
                assert(!m.in_reg(i, k));
            }
            assert(rests_in(m, homes, lo, hi, id, x, pt));
        }
    }
}

/// What a result owes the program through the registers of the
/// operands: the allocation of every operand is its register, or the
/// home of its vreg if it has none; the edits are exactly what homes
/// and registers ask for, the moves of the edges being `ins` and
/// `outs`; and the two spare slots are the home of no vreg.
pub open spec fn edits_placed(
    m: ProgramModel,
    env: &MachineEnv,
    out: &Output,
    regs: Seq<Vec<Option<PReg>>>,
    homes: Seq<Allocation>,
    ins: Seq<Seq<Edit>>,
    outs: Seq<Seq<Edit>>,
    spare_int: SpillSlot,
    spare_float: SpillSlot,
) -> bool {
    &&& regs.len() == m.insts.len()
    &&& forall|i: int|
        0 <= i < m.insts.len() ==> #[trigger] out.allocs@.subrange(
            m.operand_offset(i),
            m.operand_offset(i + 1),
        ) == allocs_of(m, i, regs[i]@, homes)
    &&& edits_exact(m, env, out.edits@, regs, homes, ins, outs, spare_int, spare_float)
    &&& crate::homes::spares_apart(homes, spare_int, spare_float)
    &&& spare_int.wf() && spare_int.spec_is_valid()
    &&& spare_float.wf() && spare_float.spec_is_valid()
}

/// Whether the location is the home of one of the first `j`
/// parameters of block `b`.
pub open spec fn param_home(
    m: ProgramModel,
    homes: Seq<Allocation>,
    b: int,
    j: int,
    a: Allocation,
) -> bool {
    exists|k: int| 0 <= k < j && a == homes[(#[trigger] m.blocks[b].params[k]).spec_vreg() as int]
}

/// The home of a vreg that is not pinned is neither the scratch
/// register of a class, where that is a register of its class, nor a
/// slot that is the home of no vreg.
proof fn lemma_home_is_no_temp(
    m: ProgramModel,
    env: &MachineEnv,
    out: &Output,
    homes: Seq<Allocation>,
    spare: SpillSlot,
    class: RegClass,
    w: int,
)
    requires
        placement_ok(m, env, out, homes),
        forall|id: int| 0 <= id < homes.len() ==> #[trigger] homes[id] != Allocation::spec_stack(spare),
        env.scratch(class).wf(),
        class_at(env.scratch(class).spec_index() as int) == class,
        0 <= w < m.num_vregs,
        !m.is_pinned(w as usize),
    ensures
        homes[w] != Allocation::spec_reg(env.scratch(class)),
        homes[w] != Allocation::spec_stack(spare),
{
    let te = Allocation::spec_reg(env.scratch(class));
    crate::regs::lemma_preg_determined(env.scratch(class));
    crate::allocation::lemma_allocation_new_fields(
        crate::allocation::AllocationKind::Reg,
        env.scratch(class).spec_index() as nat,
    );
    if homes[w] == te {
        assert(m.candidate(
            env,
            class_at(homes[w].spec_index() as int),
            homes[w].spec_index() as int,
        ));
    }
}

/// Two parameters of a block that are not pinned and have homes do not
/// share a home.
proof fn lemma_param_homes_differ(
    m: ProgramModel,
    env: &MachineEnv,
    out: &Output,
    homes: Seq<Allocation>,
    lo: Seq<usize>,
    hi: Seq<usize>,
    b: int,
    k1: int,
    k2: int,
)
    requires
        m.wf(),
        m.validation_error() is None,
        placement_ok(m, env, out, homes),
        homes_apart(m, out, homes, lo, hi),
        0 <= b < m.blocks.len(),
        0 <= k1 < k2 < m.blocks[b].params.len(),
        !m.is_pinned(m.blocks[b].params[k1].spec_vreg()),
        !m.is_pinned(m.blocks[b].params[k2].spec_vreg()),
        !homes[m.blocks[b].params[k2].spec_vreg() as int].spec_is_none(),
    ensures
        homes[m.blocks[b].params[k1].spec_vreg() as int] != homes[m.blocks[b].params[k2].spec_vreg() as int],
{
    let kid = m.blocks[b].params[k1].spec_vreg() as int;
    let pid = m.blocks[b].params[k2].spec_vreg() as int;
    assert(m.blocks[b].params[k1].spec_vreg() < m.num_vregs);
    assert(m.blocks[b].params[k2].spec_vreg() < m.num_vregs);
    crate::ssa::lemma_params_distinct(m, b, k1, k2);
    crate::cfg::lemma_blocks_well_formed(m, b);
    if homes[kid] == homes[pid] {
        if homes[pid].spec_is_reg() {
            let x = homes[pid].spec_index() as int;
            let pt = 2 * m.blocks[b].insns.0.0;
            assert(rests_in(m, homes, lo, hi, kid, x, pt));
            assert(rests_in(m, homes, lo, hi, pid, x, pt));
        } else {
            assert(homes[pid].spec_is_stack());
            if kid < pid {
                assert(homes[kid] != homes[pid]);
            } else {
                assert(homes[pid] != homes[kid]);
            }
        }
    }
}

/// The moves of an edge can be made at once with the help of the
/// scratch register and the spare slot of their class: no two of them
/// go into one location, and none reads or writes the scratch register
/// or the spare slot.
///
/// This holds of the homes of a result for every edge on which no
/// parameter and no operand of the branch is pinned, where the scratch
/// register of the class is a register of the class and the spare slot
/// is a slot that is the home of no vreg.
pub proof fn lemma_edge_well_posed(
    m: ProgramModel,
    env: &MachineEnv,
    out: &Output,
    homes: Seq<Allocation>,
    lo: Seq<usize>,
    hi: Seq<usize>,
    spare: SpillSlot,
    q: int,
    t: int,
    class: RegClass,
    j: int,
)
    requires
        m.wf(),
        m.validation_error() is None,
        placement_ok(m, env, out, homes),
        homes_apart(m, out, homes, lo, hi),
        forall|id: int| 0 <= id < homes.len() ==> #[trigger] homes[id] != Allocation::spec_stack(spare),
        0 <= q < m.blocks.len(),
        0 <= t < m.blocks[q].succs.len(),
        0 <= j <= m.blocks[m.blocks[q].succs[t].0 as int].params.len(),
        spare.wf(),
        spare.spec_is_valid(),
        env.scratch(class).wf(),
        class_at(env.scratch(class).spec_index() as int) == class,
        forall|k: int|
            0 <= k < m.blocks[m.blocks[q].succs[t].0 as int].params.len() ==> !m.is_pinned(
                (#[trigger] m.blocks[m.blocks[q].succs[t].0 as int].params[k]).spec_vreg(),
            ),
        forall|k: int|
            0 <= k < m.insts[m.last_inst(q)].operands.len() ==> !m.is_pinned(
                #[trigger] m.op_vreg(m.last_inst(q), k),
            ),
    ensures
        well_posed(
            crate::edits::edge_list(m, homes, q, t, class, j),
            Allocation::spec_reg(env.scratch(class)),
            Allocation::spec_stack(spare),
        ),
        forall|x: int|
            0 <= x < crate::edits::edge_list(m, homes, q, t, class, j).len() ==> param_home(
                m,
                homes,
                m.blocks[q].succs[t].0 as int,
                j,
                (#[trigger] crate::edits::edge_list(m, homes, q, t, class, j)[x]).to,
            ),
    decreases j,
{
    let te = Allocation::spec_reg(env.scratch(class));
    let ee = Allocation::spec_stack(spare);
    let b = m.blocks[q].succs[t].0 as int;
    let list = crate::edits::edge_list(m, homes, q, t, class, j);
    crate::allocation::lemma_allocation_none_distinct(env.scratch(class), spare);
    assert(m.blocks[q].succs[t].0 < m.blocks.len());
    if j > 0 {
        lemma_edge_well_posed(m, env, out, homes, lo, hi, spare, q, t, class, j - 1);
        let before = crate::edits::edge_list(m, homes, q, t, class, j - 1);
        assert forall|x: int| 0 <= x < before.len() implies param_home(
            m,
            homes,
            b,
            j,
            (#[trigger] before[x]).to,
        ) by {
            assert(param_home(m, homes, b, j - 1, before[x].to));
            let k = choose|k: int|
                0 <= k < j - 1 && before[x].to == homes[(
                #[trigger] m.blocks[b].params[k]).spec_vreg() as int];
            assert(0 <= k < j && before[x].to == homes[m.blocks[b].params[k].spec_vreg() as int]);
        }
        if list != before {
            let param = m.blocks[b].params[j - 1];
            let pid = param.spec_vreg() as int;
            let at = crate::edits::edge_start(m, q, t) + j - 1;
            let ops = m.insts[m.last_inst(q)].operands;
            crate::cfg::lemma_succ_param_count_nonneg(m, q, t);
            crate::cfg::lemma_blocks_well_formed(m, q);
            assert(0 <= at < ops.len());
            let aid = ops[at].spec_vreg().spec_vreg() as int;
            let mv = ParallelMove { from: homes[aid], to: homes[pid], vreg: param };
            assert(list == before.push(mv));
            assert(m.blocks[b].params[j - 1].spec_vreg() < m.num_vregs);
            assert(m.insts[m.last_inst(q)].operands[at].spec_vreg().spec_vreg() < m.num_vregs);
            assert(m.op_vreg(m.last_inst(q), at) == aid);
            lemma_home_is_no_temp(m, env, out, homes, spare, class, pid);
            lemma_home_is_no_temp(m, env, out, homes, spare, class, aid);
            assert forall|x: int| 0 <= x < before.len() implies (#[trigger] before[x]).to
                != homes[pid] by {
                assert(param_home(m, homes, b, j - 1, before[x].to));
                let k = choose|k: int|
                    0 <= k < j - 1 && before[x].to == homes[(
                    #[trigger] m.blocks[b].params[k]).spec_vreg() as int];
                lemma_param_homes_differ(m, env, out, homes, lo, hi, b, k, j - 1);
            }
            assert forall|x: int| 0 <= x < list.len() implies param_home(
                m,
                homes,
                b,
                j,
                (#[trigger] list[x]).to,
            ) by {
                if x < before.len() {
                    assert(list[x] == before[x]);
                } else {
                    assert(list[x].to == homes[m.blocks[b].params[j - 1].spec_vreg() as int]);
                }
            }
            assert forall|x: int, y: int| 0 <= x < y < list.len() implies (#[trigger] list[x]).to != (
            #[trigger] list[y]).to by {
                if y < before.len() {
                    assert(list[x] == before[x] && list[y] == before[y]);
                } else {
                    assert(list[x] == before[x]);
                }
            }
            assert forall|x: int| 0 <= x < list.len() implies (#[trigger] list[x]).from != te
                && list[x].from != ee && list[x].to != te && list[x].to != ee by {
                if x < before.len() {
                    assert(list[x] == before[x]);
                }
            }
        }
    }
}

/// Check the program itself: the shape of its control-flow graph,
/// single assignment, and that no vreg is live at the entry. Where nothing is
/// wrong, the table of the vregs live into each block comes back.
pub fn validate(p: &Program, pins: &Vec<Option<PReg>>) -> (r: Result<
    (Vec<Vec<bool>>, usize),
    RegAllocError,
>)
    requires
        p@.wf(),
        pins@.len() == p@.num_vregs,
        forall|id: int| 0 <= id < p@.num_vregs ==> #[trigger] pins@[id] == p@.pin_of(id as usize),
    ensures
        match r {
            Ok(t) => {
                &&& p@.validation_error() is None
                &&& table_ok(p@, t.0@)
                &&& sound(p@, t.0@)
                &&& closed(p@, t.0@)
            },
            Err(e) => p@.validation_error() == Some(e),
        },
{
    match crate::cfg::check_cfg(p) {
        Some(e) => {
            return Err(e);
        },
        None => {},
    }
    let t = crate::liveness::live_in_table(p, pins);
    match crate::ssa::check_ssa(p, pins, &t.0) {
        Some(e) => {
            return Err(e);
        },
        None => {},
    }
    match crate::exposure::check_entry(p, &t.0) {
        Some(e) => {
            return Err(e);
        },
        None => {},
    }
    Ok(t)
}

/// Give every vreg its home, in an occupancy that knows of every
/// operand that has a register.
fn settle(
    p: &Program,
    env: &MachineEnv,
    pins: &Vec<Option<PReg>>,
    cand: &Vec<bool>,
    facts: &crate::homes::VregFacts,
    hulls: &crate::homes::Hulls,
    regs: &Vec<Vec<Option<PReg>>>,
    last_reg: &Vec<usize>,
) -> (r: (Homes, crate::homes::Occupancy))
    requires
        p@.wf(),
        pins@.len() == p@.num_vregs,
        forall|id: int| 0 <= id < p@.num_vregs ==> #[trigger] pins@[id] == p@.pin_of(id as usize),
        cand@.len() == 128,
        forall|x: int| 0 <= x < 128 ==> #[trigger] cand@[x] == p@.candidate(env, class_at(x), x),
        facts.mentioned@.len() == p@.num_vregs,
        facts.on_stack@.len() == p@.num_vregs,
        facts.class@.len() == p@.num_vregs,
        facts.covers(p@),
        hulls.shaped(p@),
        last_reg@.len() == p@.num_vregs,
        regs@.len() == p@.insts.len(),
        forall|i: int| 0 <= i < p@.insts.len() ==> local_ok(p@, env, i, (#[trigger] regs@[i])@),
    ensures
        homes_ok(
            p@,
            env,
            facts.mentioned@,
            facts.on_stack@,
            r.0.homes@,
            r.0.num_spillslots as int,
        ),
        r.0.spare_int.spec_is_valid(),
        r.0.spare_float.spec_is_valid(),
        r.0.spare_int.wf(),
        r.0.spare_float.wf(),
        crate::homes::spares_apart(r.0.homes@, r.0.spare_int, r.0.spare_float),
        r.1.shaped(2 * p@.insts.len()),
        forall|x: int| 0 <= x < 128 && cand@[x] && p@.insts.len() > 0 ==> #[trigger] r.1.has_row(x),
        crate::homes::operands_marked(p@, regs@, r.1, p@.insts.len() as int),
        crate::homes::clobbers_marked(p@, r.1, p@.insts.len() as int),
        crate::homes::homes_held(p@, r.0.homes@, *hulls, r.1, 2 * p@.insts.len()),
        crate::homes::slots_exact(
            p@,
            r.0.homes@,
            r.0.num_spillslots as int,
            r.0.spare_int,
            r.0.spare_float,
        ),
        crate::homes::stack_forced(
            p@,
            env,
            regs@,
            facts.on_stack@,
            r.0.homes@,
            hulls.lo@,
            hulls.hi@,
            p@.num_vregs as int,
        ),
        r.0.spilled == crate::homes::stack_homes(r.0.homes@, p@.num_vregs as int),
        r.0.in_registers == crate::homes::register_homes(p@, r.0.homes@, p@.num_vregs as int),
{
    let ghost m = p@;
    assert forall|i: int| 0 <= i < m.insts.len() implies (#[trigger] regs@[i])@.len()
        == m.insts[i].operands.len() by {
        assert(local_ok(m, env, i, regs@[i]@));
    }
    assert forall|i: int, k: int|
        0 <= i < regs@.len() && 0 <= k < regs@[i]@.len() && (
        #[trigger] regs@[i]@[k]) is Some implies regs@[i]@[k].unwrap().spec_index() < 128 by {
        assert(local_ok(m, env, i, regs@[i]@));
    }
    let mut occ = crate::homes::Occupancy::new(cand, 2 * p.insts.len());
    let ghost occ0 = occ;
    crate::homes::clobbers_checked(p);
    crate::homes::mark_operands(p, regs, &mut occ, Ghost(hulls.lo@), Ghost(hulls.hi@));
    let ghost occ1 = occ;
    let homes = crate::homes::choose_homes(
        p,
        env,
        pins,
        cand,
        facts,
        hulls,
        last_reg,
        &mut occ,
        Ghost(regs@),
    );
    assert forall|x: int| 0 <= x < 128 && cand@[x] && m.insts.len() > 0 implies #[trigger] occ.has_row(
        x,
    ) by {
        assert(occ0.has_row(x));
        assert(occ1.rows@[x]@.len() == occ0.rows@[x]@.len());
        assert(occ.rows@[x]@.len() == occ1.rows@[x]@.len());
    }
    (homes, occ)
}

/// What the counts of a result owe: the number of vregs that rest on
/// the stack, the number of vregs that are not pinned and rest in a
/// register, and the number of edits.
pub open spec fn stats_ok(m: ProgramModel, out: &Output, homes: Seq<Allocation>) -> bool {
    &&& out.stats.vregs_spilled == crate::homes::stack_homes(homes, m.num_vregs as int)
    &&& out.stats.vregs_in_registers == crate::homes::register_homes(m, homes, m.num_vregs as int)
    &&& out.stats.edits_count == out.edits@.len()
}

/// What the allocator owes for a program: an error exactly where
/// `run_error` names one, and that error. Otherwise a result in which
/// every operand has the allocation that it asks for, no two operands
/// that are in registers at the same time share a register, the edits
/// are in the order of their points and never move from stack to
/// stack, the safepoint records are true of the program, and the debug
/// locations show every labelled vreg in its home wherever it rests
/// there within the instructions that were asked for. Every vreg that
/// an operand names has a home; it rests on the stack only if it has
/// to, or if every register of its class is taken from it at some
/// point of its hull by an operand, a clobber or a vreg with a lesser
/// id, and no hull is wider than it has to be; the slots are taken in
/// the order of the ids, and their number is zero where no vreg rests
/// on the stack; the counts of the result are those of the homes and
/// the edits.
pub open spec fn answer_ok(m: ProgramModel, env: &MachineEnv, r: Result<Output, RegAllocError>) -> bool {
    match r {
        Ok(out) => {
            &&& m.run_error(env) is None
            &&& output_ok(m, env, &out)
            &&& exists|
                homes: Seq<Allocation>,
                lo: Seq<usize>,
                hi: Seq<usize>,
                regs: Seq<Vec<Option<PReg>>>,
                ins: Seq<Seq<Edit>>,
                outs: Seq<Seq<Edit>>,
                spare_int: SpillSlot,
                spare_float: SpillSlot,
            |
                #[trigger] placement_ok(m, env, &out, homes) && #[trigger] homes_apart(
                    m,
                    &out,
                    homes,
                    lo,
                    hi,
                ) && #[trigger] edits_placed(
                    m,
                    env,
                    &out,
                    regs,
                    homes,
                    ins,
                    outs,
                    spare_int,
                    spare_float,
                ) && crate::debuginfo::debug_exact(
                    crate::debuginfo::wanted(
                        m,
                        homes,
                        lo,
                        hi,
                        m.debug_value_labels.len() as int,
                    ),
                    out.debug_locations@,
                ) && crate::homes::slots_exact(
                    m,
                    homes,
                    out.num_spillslots as int,
                    spare_int,
                    spare_float,
                ) && crate::homes::spills_forced(m, env, regs, homes, lo, hi) && stats_ok(
                    m,
                    &out,
                    homes,
                ) && crate::homes::hulls_tight(m, lo, hi)
        },
        Err(e) => m.run_error(env) == Some(e),
    }
}

/// A program with one vreg that need not rest on the stack, and with no
/// clobbers, takes no spill slot on a machine that has a register to
/// allocate in each class: the vreg rests in a register.
pub proof fn lemma_lone_vreg_takes_no_slot(m: ProgramModel, env: &MachineEnv, out: Output)
    requires
        m.wf(),
        answer_ok(m, env, Ok(out)),
        m.num_vregs == 1,
        m.pin_of(0) is None,
        crate::homes::named(m, 0),
        !crate::homes::stack_bound(m, 0),
        forall|i: int| 0 <= i < m.insts.len() ==> (#[trigger] m.insts[i]).clobbers.len() == 0,
        exists|x: int| 0 <= x < 64 && #[trigger] m.candidate(env, RegClass::Int, x),
        exists|x: int| 64 <= x < 128 && #[trigger] m.candidate(env, RegClass::Float, x),
    ensures
        out.num_spillslots == 0,
{
    let (homes, lo, hi, regs, ins, outs, spare_int, spare_float) = choose|
        homes: Seq<Allocation>,
        lo: Seq<usize>,
        hi: Seq<usize>,
        regs: Seq<Vec<Option<PReg>>>,
        ins: Seq<Seq<Edit>>,
        outs: Seq<Seq<Edit>>,
        spare_int: SpillSlot,
        spare_float: SpillSlot,
    |
        #[trigger] placement_ok(m, env, &out, homes) && #[trigger] homes_apart(
            m,
            &out,
            homes,
            lo,
            hi,
        ) && #[trigger] edits_placed(
            m,
            env,
            &out,
            regs,
            homes,
            ins,
            outs,
            spare_int,
            spare_float,
        ) && crate::debuginfo::debug_exact(
            crate::debuginfo::wanted(m, homes, lo, hi, m.debug_value_labels.len() as int),
            out.debug_locations@,
        ) && crate::homes::slots_exact(m, homes, out.num_spillslots as int, spare_int, spare_float)
            && crate::homes::spills_forced(m, env, regs, homes, lo, hi) && stats_ok(m, &out, homes)
            && crate::homes::hulls_tight(m, lo, hi);
    let home = homes[0];
    assert(home.spec_is_reg() || home.spec_is_stack());
    if home.spec_is_stack() {
        assert(crate::homes::forced(m, env, regs, homes, lo, hi, 0));
        let xi = choose|x: int| 0 <= x < 64 && #[trigger] m.candidate(env, RegClass::Int, x);
        let xf = choose|x: int| 64 <= x < 128 && #[trigger] m.candidate(env, RegClass::Float, x);
        let x = if home.spec_class() == RegClass::Int {
            xi
        } else {
            xf
        };
        assert(class_at(x) == home.spec_class());
        assert(crate::homes::contested(m, regs, homes.take(0), lo, hi, x, 0));
        let pt = choose|pt: int|
            lo[0] <= pt <= hi[0] && 0 <= pt < 2 * m.insts.len() && #[trigger] crate::homes::taken_from(
                m,
                regs,
                homes.take(0),
                lo,
                hi,
                x,
                pt,
                0,
            );
        if crate::homes::clobbered_at(m, x, pt) {
            let (i, c) = choose|i: int, c: int| #[trigger] crate::homes::clobber_at(m, i, c, x, pt);
            assert(m.insts[i].clobbers.len() == 0);
        } else {
            let w = choose|w: int|
                w != 0 && #[trigger] crate::homes::occupies(m, regs, homes.take(0), lo, hi, x, pt, w);
            let (i, k) = choose|i: int, k: int| #[trigger]
                crate::homes::operand_holds_at(m, regs, i, k, x, pt, w);
            assert(m.insts[i].operands[k].spec_vreg().spec_vreg() < m.num_vregs);
        }
        assert(false);
    }
    assert(crate::homes::slots_taken(m, homes, 1) == 0) by {
        assert(crate::homes::slots_taken(m, homes, 0) == 0);
    }
}

/// Run the allocator on a program given as plain data: the answer is
/// what `answer_ok` says of the program.
pub fn run_program(p: &Program, env: &MachineEnv) -> (r: Result<Output, RegAllocError>)
    requires
        p@.wf(),
    ensures
        answer_ok(p@, env, r),
{
    let ghost m = p@;
    let pins = crate::ssa::pin_table(p);
    let (table, passes) = match validate(p, &pins) {
        Ok(t) => t,
        Err(e) => {
            return Err(e);
        },
    };
    let reftype = crate::assign::reftype_table(p);
    let cand = crate::assign::candidate_table(p, env);
    let hulls = crate::homes::compute_hulls(p, &pins, &table);
    let mut memory = Memory::new(p, crate::homes::copy_points(&hulls.hi));
    let regs = match assign_all(p, env, &pins, &reftype, &cand, &mut memory) {
        Some(regs) => regs,
        None => {
            return Err(RegAllocError::TooManyLiveRegs);
        },
    };
    assert forall|i: int| 0 <= i < m.insts.len() implies (#[trigger] regs@[i])@.len()
        == m.insts[i].operands.len() by {
        assert(local_ok(m, env, i, regs@[i]@));
    }
    let facts = crate::homes::scan_vregs(p, &reftype);
    let (homes, occ) = settle(p, env, &pins, &cand, &facts, &hulls, &regs, &memory.last_reg);
    let (allocs, offsets) = build_allocs(p, &regs, &homes.homes);
    let (edits, Ghost(ins), Ghost(outs)) = build_edits(p, env, &regs, &homes);
    assert(refs_rest_on_stack(m, env, homes.homes@)) by {
        assert(homes_ok(
            m,
            env,
            facts.mentioned@,
            facts.on_stack@,
            homes.homes@,
            homes.num_spillslots as int,
        ));
    }
    let safepoint_slots = build_safepoints(p, env, &pins, &reftype, &table, &homes.homes);
    let debug_locations = crate::debuginfo::build_debug_locations(p, &homes.homes, &hulls);
    let stats = Stats {
        livein_iterations: passes,
        vregs_in_registers: homes.in_registers,
        vregs_spilled: homes.spilled,
        edits_count: edits.len(),
    };
    let out = Output {
        num_spillslots: homes.num_spillslots,
        edits,
        allocs,
        inst_alloc_offsets: offsets,
        safepoint_slots,
        debug_locations,
        stats,
    };
    proof {
        let f = |i: int| !m.inst_feasible(env, i);
        crate::cfg::lemma_first_such(0, m.insts.len() as int, f);
        assert forall|i: int| 0 <= i < m.insts.len() implies #[trigger] inst_allocs_ok(
            m,
            env,
            out.num_spillslots as int,
            i,
            out.allocs@.subrange(m.operand_offset(i), m.operand_offset(i + 1)),
        ) && rests_at_home(
            m,
            i,
            out.allocs@.subrange(m.operand_offset(i), m.operand_offset(i + 1)),
            homes.homes@,
        ) by {
            assert(!f(i));
            assert(local_ok(m, env, i, regs@[i]@));
            crate::checker::lemma_inst_allocs(
                m,
                env,
                i,
                regs@[i]@,
                homes.homes@,
                facts.mentioned@,
                facts.on_stack@,
                out.num_spillslots as int,
            );
        }
        assert(transfers_present(m, &out, homes.homes@)) by {
            let hs = homes.homes@;
            assert forall|i: int, k: int|
                0 <= i < m.insts.len() && 0 <= k < m.insts[i].operands.len() && m.in_reg(i, k)
                    && !hs[m.op_vreg(i, k) as int].spec_is_none() && hs[m.op_vreg(i, k) as int]
                    != #[trigger] operand_alloc(m, &out, i, k) implies {
                let op = m.insts[i].operands[k];
                let home = hs[m.op_vreg(i, k) as int];
                let here = operand_alloc(m, &out, i, k);
                &&& op.spec_kind() != OperandKind::Def ==> out.edits@.contains(
                    (
                        ProgPoint::spec_before(Inst(i as u32)),
                        Edit::Move { from: home, to: here, to_vreg: Some(op.spec_vreg()) },
                    ),
                )
                &&& op.spec_kind() != OperandKind::Use ==> out.edits@.contains(
                    (
                        ProgPoint::spec_after(Inst(i as u32)),
                        Edit::Move { from: here, to: home, to_vreg: Some(op.spec_vreg()) },
                    ),
                )
            } by {
                let row = allocs_of(m, i, regs@[i]@, hs);
                lemma_offsets_grow(m, i + 1, m.insts.len() as int);
                lemma_offsets_grow(m, i, i + 1);
                assert(out.allocs@.subrange(m.operand_offset(i), m.operand_offset(i + 1)) == row);
                assert(out.allocs@[m.operand_offset(i) + k] == row[k]);
                assert(local_ok(m, env, i, regs@[i]@));
                assert(regs@[i]@[k] is Some);
                assert(away_from_home(m, regs@, hs, i, k));
                if m.insts[i].operands[k].spec_kind() != OperandKind::Def {
                    assert(wants_load(m, regs@, hs, i, k));
                    assert(out.edits@.contains(load_edit(m, regs@, hs, i, k)));
                }
                if m.insts[i].operands[k].spec_kind() != OperandKind::Use {
                    assert(wants_store(m, regs@, hs, i, k));
                    assert(out.edits@.contains(store_edit(m, regs@, hs, i, k)));
                }
            }
        }
        assert(placement_ok(m, env, &out, homes.homes@));
        assert(crate::homes::spills_forced(m, env, regs@, homes.homes@, hulls.lo@, hulls.hi@));
        assert(stats_ok(m, &out, homes.homes@));
        assert(crate::homes::hulls_tight(m, hulls.lo@, hulls.hi@)) by {
            assert forall|id: int| 0 <= id < m.num_vregs implies #[trigger] crate::homes::hull_tight(
                m,
                hulls.lo@,
                hulls.hi@,
                id,
            ) by {
                assert(hulls.tight_at(m, id));
            }
        }
        lemma_apart(
            m,
            env,
            &out,
            regs@,
            homes.homes@,
            facts.mentioned@,
            facts.on_stack@,
            table@,
            hulls,
            occ,
            cand@,
        );
        assert(edits_placed(
            m,
            env,
            &out,
            regs@,
            homes.homes@,
            ins,
            outs,
            homes.spare_int,
            homes.spare_float,
        ));
    }
    Ok(out)
}

/// Run the allocator.
///
/// The program is read once through the `Function` interface, and what
/// `run_program` answers for it is the answer. The options do not
/// change it.
pub fn run<F: Function>(func: &F, env: &MachineEnv, options: &RegallocOptions) -> (r: Result<
    Output,
    RegAllocError,
>)
    requires
        func.model().wf(),
    ensures
        answer_ok(func.model(), env, r),
{
    let p = Program::capture(func);
    run_program(&p, env)
}

/// Run the allocator on a program of which nothing is known yet: the
/// program is read through the `Function` interface and tested while
/// it is read, and the allocator runs if the program is what every
/// client owes it. The answer is none exactly where it is not.
pub fn try_run<F: Function>(func: &F, env: &MachineEnv, options: &RegallocOptions) -> (r: Option<
    Result<Output, RegAllocError>,
>)
    requires
        func.model().normal(),
    ensures
        r is Some <==> func.model().wf(),
        r is Some ==> answer_ok(func.model(), env, r.unwrap()),
{
    match Program::try_capture(func) {
        Some(p) => {
            if p.is_wf() {
                Some(run_program(&p, env))
            } else {
                None
            }
        },
        None => None,
    }
}

} // verus!
