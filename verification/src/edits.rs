//! The edits: the moves that the client is to make between the
//! instructions, so that every operand finds its vreg in its allocation.

use vstd::prelude::*;
use crate::allocation::Allocation;
use crate::cfg::first_such;
use crate::checker::{edits_avoid_stack_to_stack, edits_sorted};
use crate::function::{Program, ProgramModel};
use crate::homes::Homes;
use crate::index::Inst;
use crate::machine::MachineEnv;
use crate::moves::{no_stack_to_stack, resolve, value_after, value_parallel, well_posed, ParallelMove};
use crate::operand::OperandKind;
use crate::output::Edit;
use crate::point::ProgPoint;
use crate::regs::{PReg, RegClass, SpillSlot};

verus! {

/// Whether every edit of the list stands at or before the point with
/// the given index.
pub open spec fn edits_upto(edits: Seq<(ProgPoint, Edit)>, index: int) -> bool {
    forall|a: int| 0 <= a < edits.len() ==> (#[trigger] edits[a]).0.spec_to_index() <= index
}

/// Whether operand `k` of instruction `i` is in a register that is
/// not the home of its vreg.
pub open spec fn away_from_home(
    m: ProgramModel,
    regs: Seq<Vec<Option<PReg>>>,
    homes: Seq<Allocation>,
    i: int,
    k: int,
) -> bool {
    &&& 0 <= i < m.insts.len()
    &&& 0 <= k < m.insts[i].operands.len()
    &&& regs[i]@[k] is Some
    &&& !homes[m.op_vreg(i, k) as int].spec_is_none()
    &&& homes[m.op_vreg(i, k) as int] != Allocation::spec_reg(regs[i]@[k].unwrap())
}

/// Whether operand `k` of instruction `i` reads its vreg in a
/// register that is not the home of the vreg.
pub open spec fn wants_load(
    m: ProgramModel,
    regs: Seq<Vec<Option<PReg>>>,
    homes: Seq<Allocation>,
    i: int,
    k: int,
) -> bool {
    away_from_home(m, regs, homes, i, k) && m.insts[i].operands[k].spec_kind() != OperandKind::Def
}

/// Whether operand `k` of instruction `i` writes its vreg in a
/// register that is not the home of the vreg.
pub open spec fn wants_store(
    m: ProgramModel,
    regs: Seq<Vec<Option<PReg>>>,
    homes: Seq<Allocation>,
    i: int,
    k: int,
) -> bool {
    away_from_home(m, regs, homes, i, k) && m.insts[i].operands[k].spec_kind() != OperandKind::Use
}

/// The edit that brings the vreg of operand `k` of instruction `i`
/// from its home into the register of the operand, before the
/// instruction.
pub open spec fn load_edit(
    m: ProgramModel,
    regs: Seq<Vec<Option<PReg>>>,
    homes: Seq<Allocation>,
    i: int,
    k: int,
) -> (ProgPoint, Edit) {
    (
        ProgPoint::spec_before(Inst(i as u32)),
        Edit::Move {
            from: homes[m.op_vreg(i, k) as int],
            to: Allocation::spec_reg(regs[i]@[k].unwrap()),
            to_vreg: Some(m.insts[i].operands[k].spec_vreg()),
        },
    )
}

/// The edit that brings the vreg of operand `k` of instruction `i`
/// from the register of the operand to its home, after the instruction.
pub open spec fn store_edit(
    m: ProgramModel,
    regs: Seq<Vec<Option<PReg>>>,
    homes: Seq<Allocation>,
    i: int,
    k: int,
) -> (ProgPoint, Edit) {
    (
        ProgPoint::spec_after(Inst(i as u32)),
        Edit::Move {
            from: Allocation::spec_reg(regs[i]@[k].unwrap()),
            to: homes[m.op_vreg(i, k) as int],
            to_vreg: Some(m.insts[i].operands[k].spec_vreg()),
        },
    )
}

/// Whether the edits hold, for the operands before operand `k` of
/// instruction `i`, every move between a home and a register that a
/// read asks for.
pub open spec fn loads_upto(
    m: ProgramModel,
    regs: Seq<Vec<Option<PReg>>>,
    homes: Seq<Allocation>,
    edits: Seq<(ProgPoint, Edit)>,
    i: int,
    k: int,
) -> bool {
    forall|i2: int, k2: int|
        (i2 < i || (i2 == i && k2 < k)) && #[trigger] wants_load(m, regs, homes, i2, k2)
            ==> edits.contains(load_edit(m, regs, homes, i2, k2))
}

/// Whether the edits hold, for the operands before operand `k` of
/// instruction `i`, every move between a register and a home that a
/// write asks for.
pub open spec fn stores_upto(
    m: ProgramModel,
    regs: Seq<Vec<Option<PReg>>>,
    homes: Seq<Allocation>,
    edits: Seq<(ProgPoint, Edit)>,
    i: int,
    k: int,
) -> bool {
    forall|i2: int, k2: int|
        (i2 < i || (i2 == i && k2 < k)) && #[trigger] wants_store(m, regs, homes, i2, k2)
            ==> edits.contains(store_edit(m, regs, homes, i2, k2))
}

/// Whether every edit of one list is in the other.
pub open spec fn edits_kept(before: Seq<(ProgPoint, Edit)>, after: Seq<(ProgPoint, Edit)>) -> bool {
    forall|x: (ProgPoint, Edit)| #[trigger] before.contains(x) ==> after.contains(x)
}

/// Edits that are kept stay where they were asked for.
proof fn lemma_transfers_kept(
    m: ProgramModel,
    regs: Seq<Vec<Option<PReg>>>,
    homes: Seq<Allocation>,
    before: Seq<(ProgPoint, Edit)>,
    after: Seq<(ProgPoint, Edit)>,
    i: int,
    k: int,
    i_s: int,
    k_s: int,
)
    requires
        edits_kept(before, after),
        loads_upto(m, regs, homes, before, i, k),
        stores_upto(m, regs, homes, before, i_s, k_s),
    ensures
        loads_upto(m, regs, homes, after, i, k),
        stores_upto(m, regs, homes, after, i_s, k_s),
{
    assert forall|i2: int, k2: int|
        (i2 < i || (i2 == i && k2 < k)) && #[trigger] wants_load(
            m,
            regs,
            homes,
            i2,
            k2,
        ) implies after.contains(load_edit(m, regs, homes, i2, k2)) by {
        assert(before.contains(load_edit(m, regs, homes, i2, k2)));
    }
    assert forall|i2: int, k2: int|
        (i2 < i_s || (i2 == i_s && k2 < k_s)) && #[trigger] wants_store(
            m,
            regs,
            homes,
            i2,
            k2,
        ) implies after.contains(store_edit(m, regs, homes, i2, k2)) by {
        assert(before.contains(store_edit(m, regs, homes, i2, k2)));
    }
}

/// The edits of a list, each at the given point.
pub open spec fn at_point(point: ProgPoint, list: Seq<Edit>) -> Seq<(ProgPoint, Edit)> {
    Seq::new(list.len(), |j: int| (point, list[j]))
}

/// The moves from home to register that the first `k` operands of
/// instruction `i` ask for, in the order of the operands.
pub open spec fn loads_seq(
    m: ProgramModel,
    regs: Seq<Vec<Option<PReg>>>,
    homes: Seq<Allocation>,
    i: int,
    k: int,
) -> Seq<(ProgPoint, Edit)>
    decreases k,
{
    if k <= 0 {
        Seq::empty()
    } else if wants_load(m, regs, homes, i, k - 1) {
        loads_seq(m, regs, homes, i, k - 1).push(load_edit(m, regs, homes, i, k - 1))
    } else {
        loads_seq(m, regs, homes, i, k - 1)
    }
}

/// The moves from register to home that the first `k` operands of
/// instruction `i` ask for, in the order of the operands.
pub open spec fn stores_seq(
    m: ProgramModel,
    regs: Seq<Vec<Option<PReg>>>,
    homes: Seq<Allocation>,
    i: int,
    k: int,
) -> Seq<(ProgPoint, Edit)>
    decreases k,
{
    if k <= 0 {
        Seq::empty()
    } else if wants_store(m, regs, homes, i, k - 1) {
        stores_seq(m, regs, homes, i, k - 1).push(store_edit(m, regs, homes, i, k - 1))
    } else {
        stores_seq(m, regs, homes, i, k - 1)
    }
}

/// The operand index at which the arguments for successor number `t`
/// of block `q` begin in the branch of the block.
pub open spec fn edge_start(m: ProgramModel, q: int, t: int) -> int {
    m.insts[m.last_inst(q)].branch_arg_offset + m.succ_param_count(q, t)
}

/// The moves of one class that carry the arguments of the branch of
/// block `q` into the first `j` parameters of its successor number
/// `t`: for every parameter that has a home and an argument that has
/// one, the move from the home of the argument to the home of the
/// parameter.
pub open spec fn edge_list(
    m: ProgramModel,
    homes: Seq<Allocation>,
    q: int,
    t: int,
    class: RegClass,
    j: int,
) -> Seq<ParallelMove>
    decreases j,
{
    if j <= 0 {
        Seq::empty()
    } else {
        let before = edge_list(m, homes, q, t, class, j - 1);
        let b = m.blocks[q].succs[t].0 as int;
        let param = m.blocks[b].params[j - 1];
        let at = edge_start(m, q, t) + j - 1;
        let ops = m.insts[m.last_inst(q)].operands;
        if at < ops.len() && param.spec_class() == class
            && !homes[ops[at].spec_vreg().spec_vreg() as int].spec_is_none()
            && !homes[param.spec_vreg() as int].spec_is_none() {
            before.push(
                ParallelMove {
                    from: homes[ops[at].spec_vreg().spec_vreg() as int],
                    to: homes[param.spec_vreg() as int],
                    vreg: param,
                },
            )
        } else {
            before
        }
    }
}

/// The moves of one class on the edge from block `q` into its
/// successor number `t`.
pub open spec fn edge_moves_of(
    m: ProgramModel,
    homes: Seq<Allocation>,
    q: int,
    t: int,
    class: RegClass,
) -> Seq<ParallelMove> {
    edge_list(m, homes, q, t, class, m.blocks[m.blocks[q].succs[t].0 as int].params.len() as int)
}

/// Whether the edits carry out the moves: none of them moves from
/// stack to stack, every one is a move that names the vreg of one of
/// the moves, and, where the moves can be made at once with the help of
/// `t` and `e`, every other location holds after the edits what the
/// moves made at once leave in it.
pub open spec fn carries_out(
    edits: Seq<Edit>,
    moves: Seq<ParallelMove>,
    t: Allocation,
    e: Allocation,
) -> bool {
    &&& no_stack_to_stack(edits)
    &&& crate::moves::all_named(moves, edits)
    &&& well_posed(moves, t, e) ==> forall|s: spec_fn(Allocation) -> int, a: Allocation|
        a != t && a != e ==> #[trigger] value_after(s, edits, a) == value_parallel(
            s,
            moves,
            moves.len() as int,
            a,
        )
}

/// Whether the edits are those of the edge from block `q` into its
/// successor number `t`: first edits that carry out the moves of the
/// integer class, then edits that carry out those of the float class,
/// each with the scratch register and the spare slot of its class.
pub open spec fn edge_edits_ok(
    m: ProgramModel,
    env: &MachineEnv,
    homes: Seq<Allocation>,
    spare_int: SpillSlot,
    spare_float: SpillSlot,
    q: int,
    t: int,
    list: Seq<Edit>,
) -> bool {
    exists|ints: Seq<Edit>, floats: Seq<Edit>|
        {
            &&& list == #[trigger] (ints + floats)
            &&& carries_out(
                ints,
                edge_moves_of(m, homes, q, t, RegClass::Int),
                Allocation::spec_reg(env.scratch(RegClass::Int)),
                Allocation::spec_stack(spare_int),
            )
            &&& carries_out(
                floats,
                edge_moves_of(m, homes, q, t, RegClass::Float),
                Allocation::spec_reg(env.scratch(RegClass::Float)),
                Allocation::spec_stack(spare_float),
            )
        }
}

/// The edge whose moves stand at the start of block `b`, if there is
/// one: the block has parameters and one way in, from a block `q` of
/// which it is successor number `t`.
pub open spec fn edge_in(m: ProgramModel, b: int) -> Option<(int, int)> {
    let q = m.blocks[b].preds[0].0 as int;
    let t = first_such(
        0,
        m.blocks[q].succs.len() as int,
        |t: int| m.blocks[q].succs[t].0 == b,
    );
    if m.blocks[b].preds.len() == 1 && m.blocks[b].params.len() > 0 && b != m.entry.0 && t
        < m.blocks[q].succs.len() {
        Some((q, t))
    } else {
        None
    }
}

/// The edge whose moves stand before the branch of block `b`, if
/// there is one: the block has one successor, and that has several
/// ways in.
pub open spec fn edge_out(m: ProgramModel, b: int) -> Option<(int, int)> {
    if m.blocks[b].succs.len() == 1 && m.pred_count(m.blocks[b].succs[0].0 as int) > 1 {
        Some((b, 0int))
    } else {
        None
    }
}

/// Whether the edits are those of the edge, or none if there is no edge.
pub open spec fn segment_ok(
    m: ProgramModel,
    env: &MachineEnv,
    homes: Seq<Allocation>,
    spare_int: SpillSlot,
    spare_float: SpillSlot,
    edge: Option<(int, int)>,
    list: Seq<Edit>,
) -> bool {
    match edge {
        Some((q, t)) => edge_edits_ok(m, env, homes, spare_int, spare_float, q, t, list),
        None => list == Seq::<Edit>::empty(),
    }
}

/// The edits at instruction `i` of block `b`: before it the moves of
/// the edge into the block, if it is the first instruction, and those
/// of the edge out of the block, if it is the last; then the moves from
/// home to register; and after it the moves from register to home.
pub open spec fn inst_edits(
    m: ProgramModel,
    regs: Seq<Vec<Option<PReg>>>,
    homes: Seq<Allocation>,
    ins: Seq<Seq<Edit>>,
    outs: Seq<Seq<Edit>>,
    b: int,
    i: int,
) -> Seq<(ProgPoint, Edit)> {
    let before = ProgPoint::spec_before(Inst(i as u32));
    let n = m.insts[i].operands.len() as int;
    (if i == m.blocks[b].insns.0.0 {
        at_point(before, ins[b])
    } else {
        Seq::empty()
    }) + (if i == m.last_inst(b) {
        at_point(before, outs[b])
    } else {
        Seq::empty()
    }) + loads_seq(m, regs, homes, i, n) + stores_seq(m, regs, homes, i, n)
}

/// The edits at the instructions of block `b` before instruction `i`.
pub open spec fn block_edits(
    m: ProgramModel,
    regs: Seq<Vec<Option<PReg>>>,
    homes: Seq<Allocation>,
    ins: Seq<Seq<Edit>>,
    outs: Seq<Seq<Edit>>,
    b: int,
    i: int,
) -> Seq<(ProgPoint, Edit)>
    decreases i - m.blocks[b].insns.0.0,
{
    if i <= m.blocks[b].insns.0.0 {
        Seq::empty()
    } else {
        block_edits(m, regs, homes, ins, outs, b, i - 1) + inst_edits(
            m,
            regs,
            homes,
            ins,
            outs,
            b,
            i - 1,
        )
    }
}

/// The edits at the instructions of the blocks before block `b`.
pub open spec fn all_edits(
    m: ProgramModel,
    regs: Seq<Vec<Option<PReg>>>,
    homes: Seq<Allocation>,
    ins: Seq<Seq<Edit>>,
    outs: Seq<Seq<Edit>>,
    b: int,
) -> Seq<(ProgPoint, Edit)>
    decreases b,
{
    if b <= 0 {
        Seq::empty()
    } else {
        all_edits(m, regs, homes, ins, outs, b - 1) + block_edits(
            m,
            regs,
            homes,
            ins,
            outs,
            b - 1,
            m.blocks[b - 1].insns.1.0 as int,
        )
    }
}

/// Whether the edits are exactly what the homes and the registers of
/// the operands ask for: block by block and instruction by
/// instruction, the moves of the edges and the moves between homes and
/// registers, and nothing else.
pub open spec fn edits_exact(
    m: ProgramModel,
    env: &MachineEnv,
    edits: Seq<(ProgPoint, Edit)>,
    regs: Seq<Vec<Option<PReg>>>,
    homes: Seq<Allocation>,
    ins: Seq<Seq<Edit>>,
    outs: Seq<Seq<Edit>>,
    spare_int: SpillSlot,
    spare_float: SpillSlot,
) -> bool {
    &&& ins.len() == m.blocks.len()
    &&& outs.len() == m.blocks.len()
    &&& edits == all_edits(m, regs, homes, ins, outs, m.blocks.len() as int)
    &&& forall|b: int|
        0 <= b < m.blocks.len() ==> segment_ok(
            m,
            env,
            homes,
            spare_int,
            spare_float,
            edge_in(m, b),
            #[trigger] ins[b],
        )
    &&& forall|b: int|
        0 <= b < m.blocks.len() ==> segment_ok(
            m,
            env,
            homes,
            spare_int,
            spare_float,
            edge_out(m, b),
            #[trigger] outs[b],
        )
}

/// Append one edit at a point that no earlier edit lies beyond.
fn push_edit(edits: &mut Vec<(ProgPoint, Edit)>, point: ProgPoint, edit: Edit)
    requires
        edits_sorted(old(edits)@),
        edits_avoid_stack_to_stack(old(edits)@),
        edits_upto(old(edits)@, point.spec_to_index() as int),
        !edit.spec_is_stack_to_stack(),
    ensures
        edits_sorted(final(edits)@),
        edits_avoid_stack_to_stack(final(edits)@),
        edits_upto(final(edits)@, point.spec_to_index() as int),
        final(edits)@ == old(edits)@.push((point, edit)),
        edits_kept(old(edits)@, final(edits)@),
        final(edits)@.contains((point, edit)),
{
    let ghost before = edits@;
    edits.push((point, edit));
    proof {
        assert(edits@[before.len() as int] == (point, edit));
        assert forall|x: (ProgPoint, Edit)| #[trigger] before.contains(x) implies edits@.contains(
            x,
        ) by {
            let at = choose|at: int| 0 <= at < before.len() && before[at] == x;
            assert(edits@[at] == x);
        }
        assert forall|a: int, b: int| 0 <= a <= b < edits@.len() implies (
        #[trigger] edits@[a]).0.spec_to_index() <= (#[trigger] edits@[b]).0.spec_to_index() by {
            if b < before.len() {
                assert(edits@[a] == before[a]);
                assert(edits@[b] == before[b]);
            } else if a < before.len() {
                assert(edits@[a] == before[a]);
            }
        }
        assert forall|a: int| 0 <= a < edits@.len() implies !(
        #[trigger] edits@[a]).1.spec_is_stack_to_stack() by {
            if a < before.len() {
                assert(edits@[a] == before[a]);
            }
        }
        assert forall|a: int| 0 <= a < edits@.len() implies (
        #[trigger] edits@[a]).0.spec_to_index() <= point.spec_to_index() by {
            if a < before.len() {
                assert(edits@[a] == before[a]);
            }
        }
    }
}

/// Append a list of edits at one point that no earlier edit lies beyond.
fn push_edits(edits: &mut Vec<(ProgPoint, Edit)>, point: ProgPoint, list: &Vec<Edit>)
    requires
        edits_sorted(old(edits)@),
        edits_avoid_stack_to_stack(old(edits)@),
        edits_upto(old(edits)@, point.spec_to_index() as int),
        no_stack_to_stack(list@),
    ensures
        edits_sorted(final(edits)@),
        edits_avoid_stack_to_stack(final(edits)@),
        edits_upto(final(edits)@, point.spec_to_index() as int),
        edits_kept(old(edits)@, final(edits)@),
        final(edits)@ == old(edits)@ + at_point(point, list@),
{
    let mut k: usize = 0;
    while k < list.len()
        invariant
            k <= list.len(),
            edits_sorted(edits@),
            edits_avoid_stack_to_stack(edits@),
            edits_upto(edits@, point.spec_to_index() as int),
            edits_kept(old(edits)@, edits@),
            no_stack_to_stack(list@),
            edits@ == old(edits)@ + at_point(point, list@.subrange(0, k as int)),
        decreases list.len() - k,
    {
        let ghost before = edits@;
        push_edit(edits, point, list[k]);
        proof {
            assert(edits@ =~= old(edits)@ + at_point(point, list@.subrange(0, k as int + 1)));
        }
        k += 1;
    }
    proof {
        assert(list@.subrange(0, list@.len() as int) =~= list@);
    }
}

/// The moves that carry the arguments of the branch of block `q` into
/// the parameters of its successor number `t`, in an order in which
/// they can be made one after the other.
fn edge_moves(p: &Program, env: &MachineEnv, homes: &Homes, q: usize, t: usize) -> (r: Vec<Edit>)
    requires
        p@.wf(),
        p@.block_error() is None,
        homes.homes@.len() == p@.num_vregs,
        homes.spare_int.spec_is_valid(),
        homes.spare_float.spec_is_valid(),
        q < p.blocks.len(),
        t < p@.blocks[q as int].succs.len(),
    ensures
        no_stack_to_stack(r@),
        edge_edits_ok(
            p@,
            env,
            homes.homes@,
            homes.spare_int,
            homes.spare_float,
            q as int,
            t as int,
            r@,
        ),
{
    let ghost m = p@;
    let ghost hs = homes.homes@;
    proof {
        crate::cfg::lemma_blocks_well_formed(m, q as int);
    }
    assert(m.blocks[q as int] == p.blocks@[q as int]@);
    let from = &p.blocks[q];
    let last = from.insns.1.0 as usize - 1;
    assert(m.insts[last as int] == p.insts@[last as int]@);
    let ops = &p.insts[last].operands;
    let mut start: usize = p.insts[last].branch_arg_offset;
    let mut s: usize = 0;
    while s < t
        invariant
            p@.wf(),
            m == p@,
            q < p.blocks.len(),
            from@ == m.blocks[q as int],
            t < from.succs.len(),
            s <= t,
            last == m.last_inst(q as int),
            start == if m.insts[last as int].branch_arg_offset + m.succ_param_count(
                q as int,
                s as int,
            ) <= usize::MAX {
                m.insts[last as int].branch_arg_offset + m.succ_param_count(q as int, s as int)
            } else {
                usize::MAX as int
            },
        decreases t - s,
    {
        let sb = from.succs[s].0 as usize;
        assert(m.blocks[q as int].succs[s as int].0 < m.blocks.len());
        assert(m.blocks[sb as int] == p.blocks@[sb as int]@);
        let count = p.blocks[sb].params.len();
        proof {
            crate::cfg::lemma_succ_param_count_nonneg(m, q as int, s as int);
        }
        start = if start <= usize::MAX - count {
            start + count
        } else {
            usize::MAX
        };
        s += 1;
    }
    let b = from.succs[t].0 as usize;
    assert(m.blocks[q as int].succs[t as int].0 < m.blocks.len());
    assert(m.blocks[b as int] == p.blocks@[b as int]@);
    let params = &p.blocks[b].params;
    let mut ints: Vec<ParallelMove> = Vec::new();
    let mut floats: Vec<ParallelMove> = Vec::new();
    let mut j: usize = 0;
    while j < params.len()
        invariant
            p@.wf(),
            m == p@,
            hs == homes.homes@,
            q < p.blocks.len(),
            t < m.blocks[q as int].succs.len(),
            b == m.blocks[q as int].succs[t as int].0,
            b < p.blocks.len(),
            last < p.insts.len(),
            last == m.last_inst(q as int),
            ops@ == m.insts[last as int].operands,
            params@ == m.blocks[b as int].params,
            hs.len() == m.num_vregs,
            j <= params.len(),
            start == if edge_start(m, q as int, t as int) <= usize::MAX {
                edge_start(m, q as int, t as int)
            } else {
                usize::MAX as int
            },
            ints@ == edge_list(m, hs, q as int, t as int, RegClass::Int, j as int),
            floats@ == edge_list(m, hs, q as int, t as int, RegClass::Float, j as int),
        decreases params.len() - j,
    {
        if start <= usize::MAX - j && start + j < ops.len() {
            let arg = ops[start + j];
            let param = params[j];
            assert(m.insts[last as int].operands[start + j].spec_vreg().spec_vreg()
                < m.num_vregs);
            assert(m.blocks[b as int].params[j as int].spec_vreg() < m.num_vregs);
            let src = homes.homes[arg.vreg().vreg()];
            let dst = homes.homes[param.vreg()];
            if src.is_some() && dst.is_some() {
                let mv = ParallelMove { from: src, to: dst, vreg: param };
                match param.class() {
                    RegClass::Int => ints.push(mv),
                    RegClass::Float => floats.push(mv),
                }
            }
        }
        proof {
            let at = edge_start(m, q as int, t as int) + j;
            let len = ops.len();
            assert(len == ops@.len());
            if edge_start(m, q as int, t as int) <= usize::MAX {
                assert(start == edge_start(m, q as int, t as int));
            } else {
                assert(start == usize::MAX);
            }
            assert((start <= usize::MAX - j && start + j < len) == (at < len));
            if at < ops@.len() {
                assert(start + j == at);
            }
            assert(m.blocks[m.blocks[q as int].succs[t as int].0 as int].params[j as int]
                == params@[j as int]);
        }
        j += 1;
    }
    let ghost int_moves = ints@;
    let ghost float_moves = floats@;
    let mut out = resolve(ints, env.scratch_by_class[0], homes.spare_int);
    let mut more = resolve(floats, env.scratch_by_class[1], homes.spare_float);
    let ghost first = out@;
    let ghost second = more@;
    out.append(&mut more);
    proof {
        assert forall|k: int| 0 <= k < out@.len() implies !(
        #[trigger] out@[k]).spec_is_stack_to_stack() by {
            if k < first.len() {
                assert(out@[k] == first[k]);
            } else {
                assert(out@[k] == second[k - first.len()]);
            }
        }
        assert(out@ == first + second);
        assert(int_moves == edge_moves_of(m, hs, q as int, t as int, RegClass::Int));
        assert(float_moves == edge_moves_of(m, hs, q as int, t as int, RegClass::Float));
        assert(carries_out(
            first,
            int_moves,
            Allocation::spec_reg(env.scratch(RegClass::Int)),
            Allocation::spec_stack(homes.spare_int),
        ));
        assert(carries_out(
            second,
            float_moves,
            Allocation::spec_reg(env.scratch(RegClass::Float)),
            Allocation::spec_stack(homes.spare_float),
        ));
    }
    out
}

/// Whether block `b` has more than one way in.
fn joins(p: &Program, b: usize) -> (r: bool)
    requires
        p@.wf(),
        b < p.blocks.len(),
    ensures
        r == (p@.pred_count(b as int) > 1),
{
    assert(p@.blocks[b as int] == p.blocks@[b as int]@);
    let n = p.blocks[b].preds.len();
    n >= 2 || (n == 1 && b == p.entry.0 as usize)
}

/// The edits of a block do not depend on the edge moves of other blocks.
proof fn lemma_block_edits_same(
    m: ProgramModel,
    regs: Seq<Vec<Option<PReg>>>,
    homes: Seq<Allocation>,
    ins: Seq<Seq<Edit>>,
    outs: Seq<Seq<Edit>>,
    ins2: Seq<Seq<Edit>>,
    outs2: Seq<Seq<Edit>>,
    b: int,
    i: int,
)
    requires
        ins[b] == ins2[b],
        outs[b] == outs2[b],
    ensures
        block_edits(m, regs, homes, ins, outs, b, i) == block_edits(
            m,
            regs,
            homes,
            ins2,
            outs2,
            b,
            i,
        ),
    decreases i - m.blocks[b].insns.0.0,
{
    if i > m.blocks[b].insns.0.0 {
        lemma_block_edits_same(m, regs, homes, ins, outs, ins2, outs2, b, i - 1);
    }
}

/// The edits of the blocks before a block do not depend on the edge
/// moves of that block and those after it.
proof fn lemma_all_edits_same(
    m: ProgramModel,
    regs: Seq<Vec<Option<PReg>>>,
    homes: Seq<Allocation>,
    ins: Seq<Seq<Edit>>,
    outs: Seq<Seq<Edit>>,
    ins2: Seq<Seq<Edit>>,
    outs2: Seq<Seq<Edit>>,
    b: int,
)
    requires
        forall|c: int| 0 <= c < b ==> #[trigger] ins[c] == ins2[c],
        forall|c: int| 0 <= c < b ==> #[trigger] outs[c] == outs2[c],
    ensures
        all_edits(m, regs, homes, ins, outs, b) == all_edits(m, regs, homes, ins2, outs2, b),
    decreases b,
{
    if b > 0 {
        lemma_all_edits_same(m, regs, homes, ins, outs, ins2, outs2, b - 1);
        assert(ins[b - 1] == ins2[b - 1]);
        assert(outs[b - 1] == outs2[b - 1]);
        lemma_block_edits_same(
            m,
            regs,
            homes,
            ins,
            outs,
            ins2,
            outs2,
            b - 1,
            m.blocks[b - 1].insns.1.0 as int,
        );
    }
}

/// The moves of the edge into block `b`, if its moves stand at the
/// start of the block.
fn moves_into(p: &Program, env: &MachineEnv, homes: &Homes, b: usize) -> (r: Vec<Edit>)
    requires
        p@.wf(),
        p@.block_error() is None,
        homes.homes@.len() == p@.num_vregs,
        homes.spare_int.spec_is_valid(),
        homes.spare_float.spec_is_valid(),
        b < p.blocks.len(),
    ensures
        no_stack_to_stack(r@),
        segment_ok(
            p@,
            env,
            homes.homes@,
            homes.spare_int,
            homes.spare_float,
            edge_in(p@, b as int),
            r@,
        ),
{
    let ghost m = p@;
    assert(m.blocks[b as int] == p.blocks@[b as int]@);
    let block = &p.blocks[b];
    if block.preds.len() == 1 && block.params.len() > 0 && b != p.entry.0 as usize {
        let q = block.preds[0].0 as usize;
        assert(m.blocks[b as int].preds[0].0 < m.blocks.len());
        assert(m.blocks[q as int] == p.blocks@[q as int]@);
        let succs = &p.blocks[q].succs;
        let ghost f = |t: int| m.blocks[q as int].succs[t].0 == b;
        let mut t: usize = 0;
        while t < succs.len()
            invariant
                p@.wf(),
                p@.block_error() is None,
                m == p@,
                homes.homes@.len() == m.num_vregs,
                homes.spare_int.spec_is_valid(),
                homes.spare_float.spec_is_valid(),
                b < p.blocks.len(),
                q < p.blocks.len(),
                q == m.blocks[b as int].preds[0].0,
                m.blocks[b as int].preds.len() == 1,
                m.blocks[b as int].params.len() > 0,
                b != m.entry.0,
                succs@ == m.blocks[q as int].succs,
                t <= succs.len(),
                f == |t: int| m.blocks[q as int].succs[t].0 == b,
                first_such(0, succs.len() as int, f) == first_such(
                    t as int,
                    succs.len() as int,
                    f,
                ),
            decreases succs.len() - t,
        {
            if succs[t].0 as usize == b {
                assert(f(t as int));
                return edge_moves(p, env, homes, q, t);
            }
            assert(!f(t as int));
            t += 1;
        }
    }
    Vec::new()
}

/// The moves of the edge out of block `b`, if its moves stand before
/// the branch of the block.
fn moves_out_of(p: &Program, env: &MachineEnv, homes: &Homes, b: usize) -> (r: Vec<Edit>)
    requires
        p@.wf(),
        p@.block_error() is None,
        homes.homes@.len() == p@.num_vregs,
        homes.spare_int.spec_is_valid(),
        homes.spare_float.spec_is_valid(),
        b < p.blocks.len(),
    ensures
        no_stack_to_stack(r@),
        segment_ok(
            p@,
            env,
            homes.homes@,
            homes.spare_int,
            homes.spare_float,
            edge_out(p@, b as int),
            r@,
        ),
{
    let ghost m = p@;
    assert(m.blocks[b as int] == p.blocks@[b as int]@);
    let block = &p.blocks[b];
    if block.succs.len() == 1 {
        let sb = block.succs[0].0 as usize;
        assert(m.blocks[b as int].succs[0].0 < m.blocks.len());
        if joins(p, sb) {
            return edge_moves(p, env, homes, b, 0);
        }
    }
    Vec::new()
}

/// The moves between homes and registers at one instruction: before
/// it from the home into the register of every operand that reads its
/// vreg away from home, after it from the register to the home of
/// every operand that writes its vreg away from home.
fn push_transfers(
    p: &Program,
    regs: &Vec<Vec<Option<PReg>>>,
    homes: &Homes,
    i: usize,
    edits: &mut Vec<(ProgPoint, Edit)>,
)
    requires
        p@.wf(),
        i < p.insts.len(),
        regs@.len() == p@.insts.len(),
        forall|i2: int|
            0 <= i2 < regs@.len() ==> (#[trigger] regs@[i2])@.len() == p@.insts[i2].operands.len(),
        homes.homes@.len() == p@.num_vregs,
        edits_sorted(old(edits)@),
        edits_avoid_stack_to_stack(old(edits)@),
        edits_upto(old(edits)@, 2 * i as int),
        loads_upto(p@, regs@, homes.homes@, old(edits)@, i as int, 0),
        stores_upto(p@, regs@, homes.homes@, old(edits)@, i as int, 0),
    ensures
        edits_sorted(final(edits)@),
        edits_avoid_stack_to_stack(final(edits)@),
        edits_upto(final(edits)@, 2 * i as int + 1),
        loads_upto(p@, regs@, homes.homes@, final(edits)@, i as int + 1, 0),
        stores_upto(p@, regs@, homes.homes@, final(edits)@, i as int + 1, 0),
        final(edits)@ == old(edits)@ + loads_seq(
            p@,
            regs@,
            homes.homes@,
            i as int,
            p@.insts[i as int].operands.len() as int,
        ) + stores_seq(
            p@,
            regs@,
            homes.homes@,
            i as int,
            p@.insts[i as int].operands.len() as int,
        ),
{
    let ghost m = p@;
    let ghost hs = homes.homes@;
    let ghost start = edits@;
    let before = ProgPoint::before(Inst::new(i));
    let after = ProgPoint::after(Inst::new(i));
    assert(m.insts[i as int] == p.insts@[i as int]@);
    let ops = &p.insts[i].operands;
    let row = &regs[i];
    let mut k: usize = 0;
    while k < ops.len()
        invariant
            p@.wf(),
            m == p@,
            i < p.insts.len(),
            ops@ == m.insts[i as int].operands,
            row@.len() == ops.len(),
            homes.homes@.len() == m.num_vregs,
            k <= ops.len(),
            before.spec_to_index() == 2 * i,
            before == ProgPoint::spec_before(Inst(i as u32)),
            edits_sorted(edits@),
            edits_avoid_stack_to_stack(edits@),
            edits_upto(edits@, 2 * i as int),
            hs == homes.homes@,
            row@ == regs@[i as int]@,
            loads_upto(m, regs@, hs, edits@, i as int, k as int),
            stores_upto(m, regs@, hs, edits@, i as int, 0),
            edits@ == start + loads_seq(m, regs@, hs, i as int, k as int),
        decreases ops.len() - k,
    {
        let op = ops[k];
        assert(m.insts[i as int].operands[k as int].spec_vreg().spec_vreg() < m.num_vregs);
        let v = op.vreg();
        let ghost was = edits@;
        match row[k] {
            Some(r) => {
                let here = Allocation::reg(r);
                let home = homes.homes[v.vreg()];
                if op.kind() != OperandKind::Def && home.is_some() && home != here {
                    push_edit(edits, before, Edit::Move { from: home, to: here, to_vreg: Some(v) });
                }
            },
            None => {},
        }
        proof {
            if edits@ != was {
                lemma_transfers_kept(m, regs@, hs, was, edits@, i as int, k as int, i as int, 0);
            }
            assert forall|i2: int, k2: int|
                (i2 < i || (i2 == i && k2 < k + 1)) && #[trigger] wants_load(
                    m,
                    regs@,
                    hs,
                    i2,
                    k2,
                ) implies edits@.contains(load_edit(m, regs@, hs, i2, k2)) by {
                if i2 == i && k2 == k {
                } else {
                    assert(i2 < i || (i2 == i && k2 < k));
                }
            }
            assert(edits@ =~= start + loads_seq(m, regs@, hs, i as int, k as int + 1));
        }
        k += 1;
    }
    let ghost loaded = edits@;
    let mut k: usize = 0;
    while k < ops.len()
        invariant
            p@.wf(),
            m == p@,
            i < p.insts.len(),
            ops@ == m.insts[i as int].operands,
            row@.len() == ops.len(),
            homes.homes@.len() == m.num_vregs,
            k <= ops.len(),
            after.spec_to_index() == 2 * i + 1,
            after == ProgPoint::spec_after(Inst(i as u32)),
            edits_sorted(edits@),
            edits_avoid_stack_to_stack(edits@),
            edits_upto(edits@, 2 * i as int + 1),
            hs == homes.homes@,
            row@ == regs@[i as int]@,
            loads_upto(m, regs@, hs, edits@, i as int + 1, 0),
            stores_upto(m, regs@, hs, edits@, i as int, k as int),
            edits@ == loaded + stores_seq(m, regs@, hs, i as int, k as int),
        decreases ops.len() - k,
    {
        let op = ops[k];
        assert(m.insts[i as int].operands[k as int].spec_vreg().spec_vreg() < m.num_vregs);
        let v = op.vreg();
        let ghost was = edits@;
        match row[k] {
            Some(r) => {
                let here = Allocation::reg(r);
                let home = homes.homes[v.vreg()];
                if op.kind() != OperandKind::Use && home.is_some() && home != here {
                    push_edit(edits, after, Edit::Move { from: here, to: home, to_vreg: Some(v) });
                }
            },
            None => {},
        }
        proof {
            if edits@ != was {
                lemma_transfers_kept(
                    m,
                    regs@,
                    hs,
                    was,
                    edits@,
                    i as int + 1,
                    0,
                    i as int,
                    k as int,
                );
            }
            assert forall|i2: int, k2: int|
                (i2 < i || (i2 == i && k2 < k + 1)) && #[trigger] wants_store(
                    m,
                    regs@,
                    hs,
                    i2,
                    k2,
                ) implies edits@.contains(store_edit(m, regs@, hs, i2, k2)) by {
                if i2 == i && k2 == k {
                } else {
                    assert(i2 < i || (i2 == i && k2 < k));
                }
            }
            assert(edits@ =~= loaded + stores_seq(m, regs@, hs, i as int, k as int + 1));
        }
        k += 1;
    }
    proof {
        assert forall|i2: int, k2: int|
            (i2 < i + 1 || (i2 == i + 1 && k2 < 0)) && #[trigger] wants_store(
                m,
                regs@,
                hs,
                i2,
                k2,
            ) implies edits@.contains(store_edit(m, regs@, hs, i2, k2)) by {
            assert(i2 < i || (i2 == i && k2 < ops.len()));
        }
    }
}

/// The edits at one instruction of block `b`: the moves of the edge
/// into the block before its first instruction, those of the edge out
/// of it before its last, and the moves between homes and registers.
fn push_inst(
    p: &Program,
    regs: &Vec<Vec<Option<PReg>>>,
    homes: &Homes,
    b: usize,
    i: usize,
    into: &Vec<Edit>,
    out_of: &Vec<Edit>,
    edits: &mut Vec<(ProgPoint, Edit)>,
    Ghost(ins): Ghost<Seq<Seq<Edit>>>,
    Ghost(outs): Ghost<Seq<Seq<Edit>>>,
)
    requires
        p@.wf(),
        b < p.blocks.len(),
        p@.blocks[b as int].insns.0.0 <= i < p@.blocks[b as int].insns.1.0,
        i < p.insts.len(),
        regs@.len() == p@.insts.len(),
        forall|i2: int|
            0 <= i2 < regs@.len() ==> (#[trigger] regs@[i2])@.len() == p@.insts[i2].operands.len(),
        homes.homes@.len() == p@.num_vregs,
        no_stack_to_stack(into@),
        no_stack_to_stack(out_of@),
        ins.len() > b,
        outs.len() > b,
        ins[b as int] == into@,
        outs[b as int] == out_of@,
        edits_sorted(old(edits)@),
        edits_avoid_stack_to_stack(old(edits)@),
        edits_upto(old(edits)@, 2 * i as int),
        loads_upto(p@, regs@, homes.homes@, old(edits)@, i as int, 0),
        stores_upto(p@, regs@, homes.homes@, old(edits)@, i as int, 0),
    ensures
        edits_sorted(final(edits)@),
        edits_avoid_stack_to_stack(final(edits)@),
        edits_upto(final(edits)@, 2 * i as int + 1),
        loads_upto(p@, regs@, homes.homes@, final(edits)@, i as int + 1, 0),
        stores_upto(p@, regs@, homes.homes@, final(edits)@, i as int + 1, 0),
        final(edits)@ == old(edits)@ + inst_edits(
            p@,
            regs@,
            homes.homes@,
            ins,
            outs,
            b as int,
            i as int,
        ),
{
    let ghost m = p@;
    let ghost hs = homes.homes@;
    assert(m.blocks[b as int] == p.blocks@[b as int]@);
    let first = p.blocks[b].insns.0.0 as usize;
    let end = p.blocks[b].insns.1.0 as usize;
    let before = ProgPoint::before(Inst::new(i));
    let ghost start = edits@;
    if i == first {
        push_edits(edits, before, into);
    }
    let ghost middle = edits@;
    if i + 1 == end {
        push_edits(edits, before, out_of);
    }
    let ghost edged = edits@;
    proof {
        assert(edits_kept(start, edits@)) by {
            assert forall|x: (ProgPoint, Edit)| #[trigger] start.contains(x) implies edits@.contains(
                x,
            ) by {
                assert(middle.contains(x));
            }
        }
        lemma_transfers_kept(m, regs@, hs, start, edits@, i as int, 0, i as int, 0);
    }
    push_transfers(p, regs, homes, i, edits);
    proof {
        let n = m.insts[i as int].operands.len() as int;
        let a = if i == first {
            at_point(before, into@)
        } else {
            Seq::empty()
        };
        let c = if i + 1 == end {
            at_point(before, out_of@)
        } else {
            Seq::empty()
        };
        assert(middle =~= start + a);
        assert(edged =~= middle + c);
        assert(inst_edits(m, regs@, hs, ins, outs, b as int, i as int) == a + c + loads_seq(
            m,
            regs@,
            hs,
            i as int,
            n,
        ) + stores_seq(m, regs@, hs, i as int, n));
        assert(edits@ =~= start + inst_edits(m, regs@, hs, ins, outs, b as int, i as int));
    }
}

/// The edits, in the order of their program points: before an
/// instruction the moves into the parameters of its block, or of the
/// block that its branch leads to, and the moves that bring a vreg from
/// its home into the register of a use; after it the moves that bring a
/// definition from its register to the home of its vreg. With the edits
/// come the moves of the edge into each block and of the edge out of it.
pub(crate) fn build_edits(
    p: &Program,
    env: &MachineEnv,
    regs: &Vec<Vec<Option<PReg>>>,
    homes: &Homes,
) -> (r: (Vec<(ProgPoint, Edit)>, Ghost<Seq<Seq<Edit>>>, Ghost<Seq<Seq<Edit>>>))
    requires
        p@.wf(),
        p@.block_error() is None,
        regs@.len() == p@.insts.len(),
        forall|i: int|
            0 <= i < regs@.len() ==> (#[trigger] regs@[i])@.len() == p@.insts[i].operands.len(),
        homes.homes@.len() == p@.num_vregs,
        homes.spare_int.spec_is_valid(),
        homes.spare_float.spec_is_valid(),
    ensures
        edits_sorted(r.0@),
        edits_avoid_stack_to_stack(r.0@),
        edits_upto(r.0@, 2 * p@.insts.len() as int),
        loads_upto(p@, regs@, homes.homes@, r.0@, p@.insts.len() as int, 0),
        stores_upto(p@, regs@, homes.homes@, r.0@, p@.insts.len() as int, 0),
        edits_exact(
            p@,
            env,
            r.0@,
            regs@,
            homes.homes@,
            r.1@,
            r.2@,
            homes.spare_int,
            homes.spare_float,
        ),
{
    let ghost m = p@;
    let ghost hs = homes.homes@;
    let mut edits: Vec<(ProgPoint, Edit)> = Vec::new();
    let ghost mut ins: Seq<Seq<Edit>> = Seq::empty();
    let ghost mut outs: Seq<Seq<Edit>> = Seq::empty();
    let nb = p.blocks.len();
    let mut b: usize = 0;
    while b < nb
        invariant
            p@.wf(),
            p@.block_error() is None,
            m == p@,
            nb == p.blocks.len(),
            b <= nb,
            regs@.len() == m.insts.len(),
            forall|i: int|
                0 <= i < regs@.len() ==> (#[trigger] regs@[i])@.len() == m.insts[i].operands.len(),
            homes.homes@.len() == m.num_vregs,
            homes.spare_int.spec_is_valid(),
            homes.spare_float.spec_is_valid(),
            edits_sorted(edits@),
            edits_avoid_stack_to_stack(edits@),
            edits_upto(
                edits@,
                if b < nb {
                    2 * m.blocks[b as int].insns.0.0 as int
                } else {
                    2 * m.insts.len() as int
                },
            ),
            hs == homes.homes@,
            loads_upto(
                m,
                regs@,
                hs,
                edits@,
                if b < nb {
                    m.blocks[b as int].insns.0.0 as int
                } else {
                    m.insts.len() as int
                },
                0,
            ),
            stores_upto(
                m,
                regs@,
                hs,
                edits@,
                if b < nb {
                    m.blocks[b as int].insns.0.0 as int
                } else {
                    m.insts.len() as int
                },
                0,
            ),
            ins.len() == b,
            outs.len() == b,
            edits@ == all_edits(m, regs@, hs, ins, outs, b as int),
            forall|c: int|
                0 <= c < b ==> segment_ok(
                    m,
                    env,
                    hs,
                    homes.spare_int,
                    homes.spare_float,
                    edge_in(m, c),
                    #[trigger] ins[c],
                ),
            forall|c: int|
                0 <= c < b ==> segment_ok(
                    m,
                    env,
                    hs,
                    homes.spare_int,
                    homes.spare_float,
                    edge_out(m, c),
                    #[trigger] outs[c],
                ),
        decreases nb - b,
    {
        proof {
            crate::cfg::lemma_blocks_well_formed(m, b as int);
        }
        assert(m.blocks[b as int] == p.blocks@[b as int]@);
        let block = &p.blocks[b];
        let first = block.insns.0.0 as usize;
        let end = block.insns.1.0 as usize;
        let into = moves_into(p, env, homes, b);
        let out_of = moves_out_of(p, env, homes, b);
        let ghost ins2 = ins.push(into@);
        let ghost outs2 = outs.push(out_of@);
        let ghost base = edits@;
        proof {
            lemma_all_edits_same(m, regs@, hs, ins, outs, ins2, outs2, b as int);
        }
        let mut i: usize = first;
        while i < end
            invariant
                p@.wf(),
                p@.block_error() is None,
                m == p@,
                b < p.blocks.len(),
                block@ == m.blocks[b as int],
                first == block.insns.0.0,
                end == block.insns.1.0,
                first <= i <= end <= p.insts.len(),
                first < end,
                regs@.len() == m.insts.len(),
                forall|i2: int|
                    0 <= i2 < regs@.len() ==> (#[trigger] regs@[i2])@.len()
                        == m.insts[i2].operands.len(),
                homes.homes@.len() == m.num_vregs,
                no_stack_to_stack(into@),
                no_stack_to_stack(out_of@),
                edits_sorted(edits@),
                edits_avoid_stack_to_stack(edits@),
                edits_upto(edits@, 2 * i as int),
                hs == homes.homes@,
                loads_upto(m, regs@, hs, edits@, i as int, 0),
                stores_upto(m, regs@, hs, edits@, i as int, 0),
                ins2.len() == b + 1,
                outs2.len() == b + 1,
                ins2[b as int] == into@,
                outs2[b as int] == out_of@,
                edits@ == base + block_edits(m, regs@, hs, ins2, outs2, b as int, i as int),
            decreases end - i,
        {
            let ghost start = edits@;
            push_inst(p, regs, homes, b, i, &into, &out_of, &mut edits, Ghost(ins2), Ghost(outs2));
            proof {
                assert(edits@ =~= base + block_edits(
                    m,
                    regs@,
                    hs,
                    ins2,
                    outs2,
                    b as int,
                    i as int + 1,
                ));
            }
            i += 1;
        }
        proof {
            ins = ins2;
            outs = outs2;
        }
        b += 1;
    }
    (edits, Ghost(ins), Ghost(outs))
}

} // verus!
