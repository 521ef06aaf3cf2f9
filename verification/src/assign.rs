//! Registers for the operands of one instruction.

use vstd::prelude::*;
use crate::cfg::first_such;
use crate::demand::{
    class_at, count_upto, holds_early, holds_late, lemma_count_less, lemma_count_same,
    lemma_count_zero,
};
use crate::function::{Program, ProgramModel};
use crate::machine::{listed_upto, MachineEnv};
use crate::operand::{Operand, OperandConstraint, OperandKind, OperandPos};
use crate::regs::{PReg, RegClass};
use crate::ssa::filled;

verus! {

/// For every vreg id, whether the vreg holds a reference.
pub fn reftype_table(p: &Program) -> (r: Vec<bool>)
    requires
        p@.wf(),
    ensures
        r@.len() == p@.num_vregs,
        forall|id: int| 0 <= id < p@.num_vregs ==> #[trigger] r@[id] == p@.is_reftype(id as usize),
{
    let mut r: Vec<bool> = filled(p.num_vregs, false);
    let mut k: usize = 0;
    while k < p.reftype_vregs.len()
        invariant
            p@.wf(),
            k <= p.reftype_vregs.len(),
            r@.len() == p@.num_vregs,
            forall|id: int|
                0 <= id < p@.num_vregs ==> #[trigger] r@[id] == p@.reftype_upto(
                    k as int,
                    id as usize,
                ),
        decreases p.reftype_vregs.len() - k,
    {
        assert(p@.reftype_vregs[k as int].spec_vreg() < p@.num_vregs);
        r.set(p.reftype_vregs[k].vreg(), true);
        k += 1;
    }
    r
}

/// Whether the operand holds its location in the early half of its instruction.
pub fn operand_holds_early(op: Operand) -> (r: bool)
    ensures
        r == holds_early(op),
{
    !(op.kind() == OperandKind::Def && op.pos() == OperandPos::Late)
}

/// Whether the operand holds its location in the late half of its
/// instruction by its kind and position.
pub fn operand_holds_late(op: Operand) -> (r: bool)
    ensures
        r == holds_late(op),
{
    !(op.kind() == OperandKind::Use && op.pos() == OperandPos::Early)
}

/// For every operand of instruction `i`, whether a definition reuses its location.
pub fn reused_flags(p: &Program, i: usize) -> (r: Vec<bool>)
    requires
        p@.wf(),
        i < p.insts.len(),
    ensures
        r@.len() == p@.insts[i as int].operands.len(),
        forall|j: int| 0 <= j < r@.len() ==> #[trigger] r@[j] == p@.is_reused(i as int, j),
{
    assert(p@.insts[i as int] == p.insts@[i as int]@);
    let ops = &p.insts[i].operands;
    let n = ops.len();
    let mut r: Vec<bool> = filled(n, false);
    let mut k: usize = 0;
    while k < n
        invariant
            p@.wf(),
            i < p.insts.len(),
            ops@ == p@.insts[i as int].operands,
            n == ops.len(),
            k <= n,
            r@.len() == n,
            forall|j: int| 0 <= j < n ==> #[trigger] r@[j] == p@.reused_upto(i as int, k as int, j),
        decreases n - k,
    {
        assert(p@.reuse_wf_at(i as int, k as int));
        match ops[k].constraint() {
            OperandConstraint::Reuse(j) => {
                r.set(j, true);
            },
            _ => {},
        }
        k += 1;
    }
    r
}

/// What the registers bound so far owe: every operand that has a
/// register holds it in the tables for the halves in which it holds
/// its location, and no two operands that hold their locations at the
/// same time have the same register.
pub open spec fn placed_ok(
    m: ProgramModel,
    i: int,
    regs: Seq<Option<PReg>>,
    busy_e: Seq<bool>,
    busy_l: Seq<bool>,
) -> bool {
    &&& regs.len() == m.insts[i].operands.len()
    &&& busy_e.len() == 128
    &&& busy_l.len() == 128
    &&& forall|k: int|
        0 <= k < regs.len() && (#[trigger] regs[k]) is Some ==> {
            &&& regs[k].unwrap().wf()
            &&& regs[k].unwrap().spec_index() < 128
            &&& m.op_early(i, k) ==> busy_e[regs[k].unwrap().spec_index() as int]
            &&& m.op_late(i, k) ==> busy_l[regs[k].unwrap().spec_index() as int]
        }
    &&& forall|k1: int, k2: int|
        0 <= k1 < k2 < regs.len() && (#[trigger] regs[k1]) is Some && (#[trigger] regs[k2]) is Some
            && m.overlap(i, k1, k2) ==> regs[k1].unwrap().spec_index()
            != regs[k2].unwrap().spec_index()
}

/// Give every operand of instruction `i` that is bound to a register
/// that register, unless the instruction asks for what cannot be.
pub fn bind_fixed(
    p: &Program,
    pins: &Vec<Option<PReg>>,
    reftype: &Vec<bool>,
    reused: &Vec<bool>,
    i: usize,
    regs: &mut Vec<Option<PReg>>,
    busy_e: &mut Vec<bool>,
    busy_l: &mut Vec<bool>,
) -> (ok: bool)
    requires
        p@.wf(),
        i < p.insts.len(),
        pins@.len() == p@.num_vregs,
        forall|id: int| 0 <= id < p@.num_vregs ==> #[trigger] pins@[id] == p@.pin_of(id as usize),
        reftype@.len() == p@.num_vregs,
        forall|id: int|
            0 <= id < p@.num_vregs ==> #[trigger] reftype@[id] == p@.is_reftype(id as usize),
        reused@.len() == p@.insts[i as int].operands.len(),
        forall|j: int| 0 <= j < reused@.len() ==> #[trigger] reused@[j] == p@.is_reused(i as int, j),
        old(regs)@.len() == p@.insts[i as int].operands.len(),
        forall|k: int| 0 <= k < old(regs)@.len() ==> (#[trigger] old(regs)@[k]) is None,
        old(busy_e)@.len() == 128,
        old(busy_l)@.len() == 128,
        forall|x: int| 0 <= x < 128 ==> !#[trigger] old(busy_e)@[x],
        forall|x: int| 0 <= x < 128 ==> !#[trigger] old(busy_l)@[x],
    ensures
        ok == !p@.inst_impossible(i as int),
        ok ==> placed_ok(p@, i as int, final(regs)@, final(busy_e)@, final(busy_l)@),
        ok ==> forall|k: int|
            0 <= k < final(regs)@.len() ==> #[trigger] final(regs)@[k] == p@.bound_reg(i as int, k),
        ok ==> forall|x: int|
            0 <= x < 128 ==> #[trigger] final(busy_e)@[x] == p@.taken(i as int, false, x),
        ok ==> forall|x: int|
            0 <= x < 128 ==> #[trigger] final(busy_l)@[x] == p@.taken(i as int, true, x),
{
    assert(p@.insts[i as int] == p.insts@[i as int]@);
    let inst = &p.insts[i];
    let ops = &inst.operands;
    let n = ops.len();
    let mut c: usize = 0;
    while c < inst.clobbers.len()
        invariant
            inst@ == p@.insts[i as int],
            c <= inst.clobbers.len(),
            busy_l@.len() == 128,
            forall|x: int|
                0 <= x < 128 ==> #[trigger] busy_l@[x] == p@.clobbered_upto(i as int, c as int, x),
        decreases inst.clobbers.len() - c,
    {
        let r = inst.clobbers[c];
        busy_l.set(r.index(), true);
        c += 1;
    }
    let ghost bad = |k: int| p@.op_impossible(i as int, k) || p@.op_clashes(i as int, k);
    let mut k: usize = 0;
    while k < n
        invariant
            p@.wf(),
            i < p.insts.len(),
            inst@ == p@.insts[i as int],
            ops@ == p@.insts[i as int].operands,
            n == ops.len(),
            k <= n,
            pins@.len() == p@.num_vregs,
            forall|id: int|
                0 <= id < p@.num_vregs ==> #[trigger] pins@[id] == p@.pin_of(id as usize),
            reftype@.len() == p@.num_vregs,
            forall|id: int|
                0 <= id < p@.num_vregs ==> #[trigger] reftype@[id] == p@.is_reftype(id as usize),
            reused@.len() == n,
            forall|j: int| 0 <= j < n ==> #[trigger] reused@[j] == p@.is_reused(i as int, j),
            bad == |k: int| p@.op_impossible(i as int, k) || p@.op_clashes(i as int, k),
            first_such(0, n as int, bad) == first_such(k as int, n as int, bad),
            placed_ok(p@, i as int, regs@, busy_e@, busy_l@),
            forall|k2: int| 0 <= k2 < k ==> #[trigger] regs@[k2] == p@.bound_reg(i as int, k2),
            forall|k2: int| k <= k2 < n ==> (#[trigger] regs@[k2]) is None,
            forall|x: int|
                0 <= x < 128 ==> #[trigger] busy_e@[x] == p@.bound_upto(i as int, k as int, false, x),
            forall|x: int|
                0 <= x < 128 ==> #[trigger] busy_l@[x] == (p@.bound_upto(
                    i as int,
                    k as int,
                    true,
                    x,
                ) || p@.clobbered(i as int, x)),
        decreases n - k,
    {
        let op = ops[k];
        let id = op.vreg().vreg();
        assert(p@.insts[i as int].operands[k as int].spec_vreg().spec_vreg() < p@.num_vregs);
        assert(p@.reuse_wf_at(i as int, k as int));
        let pin = pins[id];
        let con = op.constraint();
        let pinned_wrong = match pin {
            Some(pr) => match con {
                OperandConstraint::Any => false,
                OperandConstraint::Reg => pr.class() != op.class(),
                OperandConstraint::Stack => true,
                OperandConstraint::FixedReg(r) => r.index() != pr.index(),
                OperandConstraint::Reuse(_) => true,
            },
            None => false,
        };
        let reuses_pinned = match con {
            OperandConstraint::Reuse(j) => {
                assert(p@.insts[i as int].operands[j as int].spec_vreg().spec_vreg()
                    < p@.num_vregs);
                pins[ops[j].vreg().vreg()].is_some() || reused_before(p, i, k, j)
            },
            _ => false,
        };
        let bound: Option<PReg> = match pin {
            Some(pr) => Some(pr),
            None => match con {
                OperandConstraint::FixedReg(r) => Some(r),
                _ => None,
            },
        };
        assert(bound == p@.bound_reg(i as int, k as int));
        let in_reg = bound.is_some() || (match con {
            OperandConstraint::Reg => true,
            OperandConstraint::Reuse(_) => true,
            _ => false,
        });
        assert(in_reg == p@.in_reg(i as int, k as int));
        let ref_in_reg = inst.requires_refs_on_stack && reftype[id] && in_reg;
        if pinned_wrong || reuses_pinned || ref_in_reg {
            assert(bad(k as int));
            return false;
        }
        assert(!p@.op_impossible(i as int, k as int));
        match bound {
            Some(r) => {
                proof {
                    use_type_invariant(&r);
                    crate::regs::lemma_preg_determined(r);
                }
                let x = r.index();
                let early = operand_holds_early(op);
                let late = operand_holds_late(op) || reused[k];
                if (early && busy_e[x]) || (late && busy_l[x]) {
                    assert(bad(k as int));
                    return false;
                }
                let ghost regs0 = regs@;
                let ghost e0 = busy_e@;
                let ghost l0 = busy_l@;
                if early {
                    busy_e.set(x, true);
                }
                if late {
                    busy_l.set(x, true);
                }
                regs.set(k, Some(r));
                assert(!bad(k as int));
                proof {
                    assert forall|k1: int, k2: int|
                        0 <= k1 < k2 < regs@.len() && (#[trigger] regs@[k1]) is Some && (
                        #[trigger] regs@[k2]) is Some && p@.overlap(
                            i as int,
                            k1,
                            k2,
                        ) implies regs@[k1].unwrap().spec_index()
                        != regs@[k2].unwrap().spec_index() by {
                        if k2 == k {
                            assert(regs0[k1] is Some);
                            let x1 = regs0[k1].unwrap().spec_index() as int;
                            if p@.op_early(i as int, k1) && p@.op_early(i as int, k2) {
                                assert(e0[x1]);
                            } else {
                                assert(l0[x1]);
                            }
                        } else {
                            assert(regs0[k1] is Some && regs0[k2] is Some);
                        }
                    }
                    assert forall|k2: int|
                        0 <= k2 < regs@.len() && (#[trigger] regs@[k2]) is Some implies {
                        &&& regs@[k2].unwrap().wf()
                        &&& regs@[k2].unwrap().spec_index() < 128
                        &&& p@.op_early(i as int, k2) ==> busy_e@[regs@[k2].unwrap().spec_index() as int]
                        &&& p@.op_late(i as int, k2) ==> busy_l@[regs@[k2].unwrap().spec_index() as int]
                    } by {
                        if k2 != k {
                            assert(regs0[k2] is Some);
                        }
                    }
                }
            },
            None => {
                assert(!bad(k as int));
            },
        }
        k += 1;
    }
    true
}

/// Whether one of the operands of instruction `i` before operand `k`
/// reuses the location of operand `j`.
fn reused_before(p: &Program, i: usize, k: usize, j: usize) -> (r: bool)
    requires
        i < p.insts.len(),
        k <= p@.insts[i as int].operands.len(),
    ensures
        r == p@.reused_upto(i as int, k as int, j as int),
{
    assert(p@.insts[i as int] == p.insts@[i as int]@);
    let ops = &p.insts[i].operands;
    let mut k2: usize = 0;
    while k2 < k
        invariant
            i < p.insts.len(),
            ops@ == p@.insts[i as int].operands,
            k <= ops.len(),
            k2 <= k,
            !p@.reused_upto(i as int, k2 as int, j as int),
        decreases k - k2,
    {
        match ops[k2].constraint() {
            OperandConstraint::Reuse(j2) => {
                if j2 == j {
                    assert(p@.reuses(i as int, k2 as int, j as int));
                    proof {
                        lemma_reused_more(p@, i as int, k2 as int + 1, k as int, j as int);
                    }
                    return true;
                }
            },
            _ => {},
        }
        k2 += 1;
    }
    false
}

/// An operand that is reused among the first operands is reused among more of them.
proof fn lemma_reused_more(m: ProgramModel, i: int, k: int, more: int, j: int)
    requires
        k <= more,
        m.reused_upto(i, k, j),
    ensures
        m.reused_upto(i, more, j),
    decreases more - k,
{
    if k < more {
        lemma_reused_more(m, i, k + 1, more, j);
    }
}

/// For every place of the register index space, whether the register
/// there may be given to an operand of its class.
pub fn candidate_table(p: &Program, env: &MachineEnv) -> (r: Vec<bool>)
    requires
        p@.wf(),
    ensures
        r@.len() == 128,
        forall|x: int| 0 <= x < 128 ==> #[trigger] r@[x] == p@.candidate(env, class_at(x), x),
{
    let mut r: Vec<bool> = filled(128, false);
    let mut ci: usize = 0;
    while ci < 2
        invariant
            ci <= 2,
            r@.len() == 128,
            forall|x: int|
                0 <= x < 128 ==> #[trigger] r@[x] == (x / 64 < ci && env.allocatable(
                    class_at(x),
                    x,
                )),
        decreases 2 - ci,
    {
        let class = if ci == 0 {
            RegClass::Int
        } else {
            RegClass::Float
        };
        let scratch = env.scratch_by_class[ci].index();
        let first = &env.preferred_regs_by_class[ci];
        let second = &env.non_preferred_regs_by_class[ci];
        let ghost list = env.listed(class);
        let ghost r0 = r@;
        let mut j: usize = 0;
        while j < first.len()
            invariant
                ci < 2,
                class.spec_bit() == ci,
                list == env.listed(class),
                list == first@ + second@,
                j <= first.len(),
                scratch == env.scratch(class).spec_index(),
                r@.len() == 128,
                r0.len() == 128,
                forall|x: int|
                    0 <= x < 128 ==> #[trigger] r@[x] == (r0[x] || (x / 64 == ci && x != scratch
                        && listed_upto(list, j as int, x))),
            decreases first.len() - j,
        {
            let reg = first[j];
            assert(list[j as int] == first@[j as int]);
            let x = reg.index();
            if x / 64 == ci && x != scratch {
                r.set(x, true);
            }
            j += 1;
        }
        let mut j: usize = 0;
        while j < second.len()
            invariant
                ci < 2,
                class.spec_bit() == ci,
                list == env.listed(class),
                list == first@ + second@,
                j <= second.len(),
                scratch == env.scratch(class).spec_index(),
                r@.len() == 128,
                r0.len() == 128,
                forall|x: int|
                    0 <= x < 128 ==> #[trigger] r@[x] == (r0[x] || (x / 64 == ci && x != scratch
                        && listed_upto(list, first.len() + j, x))),
            decreases second.len() - j,
        {
            let reg = second[j];
            assert(list[first.len() + j] == second@[j as int]);
            let x = reg.index();
            if x / 64 == ci && x != scratch {
                r.set(x, true);
            }
            j += 1;
        }
        ci += 1;
    }
    let mut k: usize = 0;
    while k < p.pinned_pregs.len()
        invariant
            k <= p.pinned_pregs.len(),
            p.pinned_pregs@ == p@.pinned_pregs,
            r@.len() == 128,
            forall|x: int|
                0 <= x < 128 ==> #[trigger] r@[x] == (env.allocatable(class_at(x), x)
                    && !p@.pin_reserved_upto(k as int, x)),
        decreases p.pinned_pregs.len() - k,
    {
        match p.pinned_pregs[k] {
            Some(pr) => {
                r.set(pr.index(), false);
            },
            None => {},
        }
        k += 1;
    }
    r
}

/// Whether the register at `x` is free in the halves asked for.
pub open spec fn is_free(busy_e: Seq<bool>, busy_l: Seq<bool>, early: bool, late: bool, x: int) -> bool {
    (early ==> !busy_e[x]) && (late ==> !busy_l[x])
}

/// How many registers an operand of the given class can still choose
/// from, for the given halves of the instruction.
pub open spec fn free_count(
    m: ProgramModel,
    env: &MachineEnv,
    class: RegClass,
    busy_e: Seq<bool>,
    busy_l: Seq<bool>,
    early: bool,
    late: bool,
) -> int {
    count_upto(
        |x: int| m.candidate(env, class, x) && is_free(busy_e, busy_l, early, late, x),
        128,
    )
}

/// A register of the class that is free in the halves asked for. The
/// hinted one comes before all others, then those in which no other
/// vreg is kept, then the rest, each in the order of the machine's lists.
fn pick(
    p: &Program,
    env: &MachineEnv,
    cand: &Vec<bool>,
    class: RegClass,
    busy_e: &Vec<bool>,
    busy_l: &Vec<bool>,
    early: bool,
    late: bool,
    hint: usize,
    kept: &Vec<bool>,
) -> (r: Option<PReg>)
    requires
        p@.wf(),
        cand@.len() == 128,
        forall|x: int| 0 <= x < 128 ==> #[trigger] cand@[x] == p@.candidate(env, class_at(x), x),
        busy_e@.len() == 128,
        busy_l@.len() == 128,
        kept@.len() == 128,
    ensures
        match r {
            Some(reg) => {
                &&& reg.wf()
                &&& reg.spec_index() < 128
                &&& p@.candidate(env, class, reg.spec_index() as int)
                &&& is_free(busy_e@, busy_l@, early, late, reg.spec_index() as int)
            },
            None => forall|x: int|
                0 <= x < 128 ==> !(#[trigger] p@.candidate(env, class, x) && is_free(
                    busy_e@,
                    busy_l@,
                    early,
                    late,
                    x,
                )),
        },
{
    let ci: usize = class.bit() as usize;
    if hint < 128 && hint / 64 == ci && cand[hint] && !(early && busy_e[hint]) && !(late
        && busy_l[hint]) {
        let reg = PReg::from_index(hint);
        return Some(reg);
    }
    let first = &env.preferred_regs_by_class[ci];
    let second = &env.non_preferred_regs_by_class[ci];
    // first the registers that no other vreg is kept in
    let mut round: usize = 0;
    while round < 2
        invariant
            ci < 2,
            class.spec_bit() == ci,
            round <= 2,
            cand@.len() == 128,
            forall|x: int|
                0 <= x < 128 ==> #[trigger] cand@[x] == p@.candidate(env, class_at(x), x),
            busy_e@.len() == 128,
            busy_l@.len() == 128,
            kept@.len() == 128,
        decreases 2 - round,
    {
        let list = if round == 0 {
            first
        } else {
            second
        };
        let mut j: usize = 0;
        while j < list.len()
            invariant
                ci < 2,
                class.spec_bit() == ci,
                j <= list.len(),
                cand@.len() == 128,
                forall|x: int|
                    0 <= x < 128 ==> #[trigger] cand@[x] == p@.candidate(env, class_at(x), x),
                busy_e@.len() == 128,
                busy_l@.len() == 128,
                kept@.len() == 128,
            decreases list.len() - j,
        {
            let reg = list[j];
            proof {
                use_type_invariant(&reg);
                crate::regs::lemma_preg_determined(reg);
            }
            let x = reg.index();
            if x / 64 == ci && cand[x] && !kept[x] && !(early && busy_e[x]) && !(late
                && busy_l[x]) {
                return Some(reg);
            }
            j += 1;
        }
        round += 1;
    }
    let ghost list = env.listed(class);
    let mut j: usize = 0;
    while j < first.len()
        invariant
            ci < 2,
            class.spec_bit() == ci,
            list == first@ + second@,
            j <= first.len(),
            cand@.len() == 128,
            forall|x: int|
                0 <= x < 128 ==> #[trigger] cand@[x] == p@.candidate(env, class_at(x), x),
            busy_e@.len() == 128,
            busy_l@.len() == 128,
            forall|x: int|
                0 <= x < 128 && listed_upto(list, j as int, x) ==> !(#[trigger] p@.candidate(
                    env,
                    class,
                    x,
                ) && is_free(busy_e@, busy_l@, early, late, x)),
        decreases first.len() - j,
    {
        let reg = first[j];
        assert(list[j as int] == first@[j as int]);
        proof {
            use_type_invariant(&reg);
            crate::regs::lemma_preg_determined(reg);
        }
        let x = reg.index();
        if x / 64 == ci && cand[x] && !(early && busy_e[x]) && !(late && busy_l[x]) {
            return Some(reg);
        }
        j += 1;
    }
    let mut j: usize = 0;
    while j < second.len()
        invariant
            ci < 2,
            class.spec_bit() == ci,
            list == first@ + second@,
            j <= second.len(),
            cand@.len() == 128,
            forall|x: int|
                0 <= x < 128 ==> #[trigger] cand@[x] == p@.candidate(env, class_at(x), x),
            busy_e@.len() == 128,
            busy_l@.len() == 128,
            forall|x: int|
                0 <= x < 128 && listed_upto(list, first.len() + j, x) ==> !(
                #[trigger] p@.candidate(env, class, x) && is_free(
                    busy_e@,
                    busy_l@,
                    early,
                    late,
                    x,
                )),
        decreases second.len() - j,
    {
        let reg = second[j];
        assert(list[first.len() + j] == second@[j as int]);
        proof {
            use_type_invariant(&reg);
            crate::regs::lemma_preg_determined(reg);
        }
        let x = reg.index();
        if x / 64 == ci && cand[x] && !(early && busy_e[x]) && !(late && busy_l[x]) {
            return Some(reg);
        }
        j += 1;
    }
    None
}

/// What the allocator remembers from instruction to instruction to
/// choose well: for every vreg the register it was last given, for
/// every register the vreg that was last given it, and for every vreg
/// the last point at which its value is needed.
pub struct Memory {
    pub last_reg: Vec<usize>,
    pub last_vreg: Vec<usize>,
    pub ends: Vec<usize>,
}

impl Memory {
    pub open spec fn shaped(&self, m: ProgramModel) -> bool {
        &&& self.last_reg@.len() == m.num_vregs
        &&& self.last_vreg@.len() == 128
        &&& self.ends@.len() == m.num_vregs
    }

    /// Whether a vreg other than `id` was last given the register at `x`
    /// and is still needed after the point `point`.
    pub open spec fn keeps(&self, x: int, id: usize, point: usize) -> bool {
        let v = self.last_vreg@[x];
        v != id && v < self.ends@.len() && self.ends@[v as int] > point
    }

    /// Nothing is remembered yet.
    pub fn new(p: &Program, ends: Vec<usize>) -> (r: Memory)
        requires
            ends@.len() == p@.num_vregs,
        ensures
            r.shaped(p@),
            r.ends@ == ends@,
            forall|id: int| 0 <= id < p@.num_vregs ==> #[trigger] r.last_reg@[id] == 128,
            forall|x: int| 0 <= x < 128 ==> #[trigger] r.last_vreg@[x] == usize::MAX,
    {
        Memory {
            last_reg: filled(p.num_vregs, 128),
            last_vreg: filled(128, usize::MAX),
            ends,
        }
    }

    /// For every register, whether a vreg other than `id` was last given
    /// it and is still needed after the point `point`.
    fn kept(&self, Ghost(m): Ghost<ProgramModel>, id: usize, point: usize) -> (r: Vec<bool>)
        requires
            self.shaped(m),
        ensures
            r@.len() == 128,
            forall|x: int| 0 <= x < 128 ==> #[trigger] r@[x] == self.keeps(x, id, point),
    {
        let mut r: Vec<bool> = Vec::new();
        let mut x: usize = 0;
        while x < 128
            invariant
                self.shaped(m),
                x <= 128,
                r@.len() == x,
                forall|y: int| 0 <= y < x ==> #[trigger] r@[y] == self.keeps(y, id, point),
            decreases 128 - x,
        {
            let v = self.last_vreg[x];
            r.push(v != id && v < self.ends.len() && self.ends[v] > point);
            x += 1;
        }
        r
    }

    /// Remember that the vreg was given the register.
    fn note(&mut self, Ghost(m): Ghost<ProgramModel>, id: usize, x: usize)
        requires
            old(self).shaped(m),
            id < m.num_vregs,
            x < 128,
        ensures
            final(self).shaped(m),
            final(self).last_reg@ == old(self).last_reg@.update(id as int, x),
            final(self).last_vreg@ == old(self).last_vreg@.update(x as int, id),
            final(self).ends@ == old(self).ends@,
    {
        self.last_reg.set(id, x);
        self.last_vreg.set(x, id);
    }
}

/// Taking one free candidate lowers the count of free candidates by one.
proof fn lemma_free_count_less(
    m: ProgramModel,
    env: &MachineEnv,
    class: RegClass,
    e0: Seq<bool>,
    l0: Seq<bool>,
    e1: Seq<bool>,
    l1: Seq<bool>,
    early: bool,
    late: bool,
    at: int,
)
    requires
        0 <= at < 128,
        m.candidate(env, class, at),
        is_free(e0, l0, early, late, at),
        !is_free(e1, l1, early, late, at),
        forall|x: int|
            0 <= x < 128 && x != at ==> #[trigger] is_free(e0, l0, early, late, x) == is_free(
                e1,
                l1,
                early,
                late,
                x,
            ),
    ensures
        free_count(m, env, class, e1, l1, early, late) == free_count(
            m,
            env,
            class,
            e0,
            l0,
            early,
            late,
        ) - 1,
{
    let f = |x: int| m.candidate(env, class, x) && is_free(e0, l0, early, late, x);
    let g = |x: int| m.candidate(env, class, x) && is_free(e1, l1, early, late, x);
    assert forall|x: int| 0 <= x < 128 && x != at implies #[trigger] f(x) == g(x) by {
        assert(is_free(e0, l0, early, late, x) == is_free(e1, l1, early, late, x));
    }
    lemma_count_less(f, g, 128, at);
}

/// Tables that agree on the candidates of a class count the same for it.
proof fn lemma_free_count_same(
    m: ProgramModel,
    env: &MachineEnv,
    class: RegClass,
    e0: Seq<bool>,
    l0: Seq<bool>,
    e1: Seq<bool>,
    l1: Seq<bool>,
    early: bool,
    late: bool,
)
    requires
        forall|x: int|
            0 <= x < 128 && m.candidate(env, class, x) ==> #[trigger] is_free(
                e0,
                l0,
                early,
                late,
                x,
            ) == is_free(e1, l1, early, late, x),
    ensures
        free_count(m, env, class, e1, l1, early, late) == free_count(
            m,
            env,
            class,
            e0,
            l0,
            early,
            late,
        ),
{
    let f = |x: int| m.candidate(env, class, x) && is_free(e0, l0, early, late, x);
    let g = |x: int| m.candidate(env, class, x) && is_free(e1, l1, early, late, x);
    assert forall|x: int| 0 <= x < 128 implies #[trigger] f(x) == g(x) by {
        if m.candidate(env, class, x) {
            assert(is_free(e0, l0, early, late, x) == is_free(e1, l1, early, late, x));
        }
    }
    lemma_count_same(f, g, 128);
}

/// Where no candidate is free, none is counted; and no count is negative.
proof fn lemma_free_count_zero(
    m: ProgramModel,
    env: &MachineEnv,
    class: RegClass,
    e: Seq<bool>,
    l: Seq<bool>,
    early: bool,
    late: bool,
)
    ensures
        free_count(m, env, class, e, l, early, late) >= 0,
        (forall|x: int|
            0 <= x < 128 ==> !(#[trigger] m.candidate(env, class, x) && is_free(
                e,
                l,
                early,
                late,
                x,
            ))) ==> free_count(m, env, class, e, l, early, late) == 0,
{
    let f = |x: int| m.candidate(env, class, x) && is_free(e, l, early, late, x);
    lemma_count_zero(f, 128);
    crate::demand::lemma_count_bounds(f, 128);
    if forall|x: int|
        0 <= x < 128 ==> !(#[trigger] m.candidate(env, class, x) && is_free(e, l, early, late, x)) {
        assert forall|x: int| 0 <= x < 128 implies !#[trigger] f(x) by {
            assert(!(m.candidate(env, class, x) && is_free(e, l, early, late, x)));
        }
    }
}

/// A count over a prefix is at most the count over the whole.
proof fn lemma_count_monotone(f: spec_fn(int) -> bool, k: int, n: int)
    requires
        k <= n,
    ensures
        count_upto(f, k) <= count_upto(f, n),
    decreases n - k,
{
    if k < n {
        lemma_count_monotone(f, k, n - 1);
    }
}

/// Give every operand of instruction `i` that needs a register of its
/// own, of the given class and for the given halves, the first free
/// one, as long as there is one.
fn place_free(
    p: &Program,
    env: &MachineEnv,
    pins: &Vec<Option<PReg>>,
    cand: &Vec<bool>,
    reused: &Vec<bool>,
    i: usize,
    class: RegClass,
    early: bool,
    late: bool,
    regs: &mut Vec<Option<PReg>>,
    busy_e: &mut Vec<bool>,
    busy_l: &mut Vec<bool>,
    memory: &mut Memory,
) -> (ok: bool)
    requires
        p@.wf(),
        i < p.insts.len(),
        early || late,
        pins@.len() == p@.num_vregs,
        forall|id: int| 0 <= id < p@.num_vregs ==> #[trigger] pins@[id] == p@.pin_of(id as usize),
        cand@.len() == 128,
        forall|x: int| 0 <= x < 128 ==> #[trigger] cand@[x] == p@.candidate(env, class_at(x), x),
        reused@.len() == p@.insts[i as int].operands.len(),
        forall|j: int| 0 <= j < reused@.len() ==> #[trigger] reused@[j] == p@.is_reused(i as int, j),
        old(memory).shaped(p@),
        placed_ok(p@, i as int, old(regs)@, old(busy_e)@, old(busy_l)@),
        forall|k: int|
            0 <= k < old(regs)@.len() && p@.asks(i as int, k, class, early, late) ==> (
            #[trigger] old(regs)@[k]) is None,
    ensures
        final(memory).shaped(p@),
        ok == (p@.demand(i as int, class, early, late) <= free_count(
            p@,
            env,
            class,
            old(busy_e)@,
            old(busy_l)@,
            early,
            late,
        )),
        ok ==> placed_ok(p@, i as int, final(regs)@, final(busy_e)@, final(busy_l)@),
        ok ==> forall|k: int|
            0 <= k < final(regs)@.len() ==> if p@.asks(i as int, k, class, early, late) {
                (#[trigger] final(regs)@[k]) is Some && p@.candidate(
                    env,
                    class,
                    final(regs)@[k].unwrap().spec_index() as int,
                )
            } else {
                final(regs)@[k] == old(regs)@[k]
            },
        ok ==> forall|x: int|
            0 <= x < 128 && !p@.candidate(env, class, x) ==> #[trigger] final(busy_e)@[x] == old(
                busy_e,
            )@[x],
        ok ==> forall|x: int|
            0 <= x < 128 && !p@.candidate(env, class, x) ==> #[trigger] final(busy_l)@[x] == old(
                busy_l,
            )@[x],
        ok && !early ==> final(busy_e)@ == old(busy_e)@,
        ok && !late ==> final(busy_l)@ == old(busy_l)@,
        ok && early ==> free_count(p@, env, class, final(busy_e)@, final(busy_l)@, true, false)
            == free_count(p@, env, class, old(busy_e)@, old(busy_l)@, true, false) - p@.demand(
            i as int,
            class,
            early,
            late,
        ),
        ok && late ==> free_count(p@, env, class, final(busy_e)@, final(busy_l)@, false, true)
            == free_count(p@, env, class, old(busy_e)@, old(busy_l)@, false, true) - p@.demand(
            i as int,
            class,
            early,
            late,
        ),
{
    assert(p@.insts[i as int] == p.insts@[i as int]@);
    let ops = &p.insts[i].operands;
    let n = ops.len();
    let ghost want = |k: int| p@.asks(i as int, k, class, early, late);
    let ghost regs0 = regs@;
    let ghost e0 = busy_e@;
    let ghost l0 = busy_l@;
    let mut k: usize = 0;
    while k < n
        invariant
            p@.wf(),
            i < p.insts.len(),
            early || late,
            ops@ == p@.insts[i as int].operands,
            n == ops.len(),
            k <= n,
            pins@.len() == p@.num_vregs,
            forall|id: int|
                0 <= id < p@.num_vregs ==> #[trigger] pins@[id] == p@.pin_of(id as usize),
            cand@.len() == 128,
            forall|x: int|
                0 <= x < 128 ==> #[trigger] cand@[x] == p@.candidate(env, class_at(x), x),
            reused@.len() == n,
            forall|j: int| 0 <= j < n ==> #[trigger] reused@[j] == p@.is_reused(i as int, j),
            memory.shaped(p@),
            want == |k: int| p@.asks(i as int, k, class, early, late),
            regs0.len() == n,
            e0.len() == 128,
            l0.len() == 128,
            e0 == old(busy_e)@,
            l0 == old(busy_l)@,
            regs0 == old(regs)@,
            placed_ok(p@, i as int, regs@, busy_e@, busy_l@),
            forall|k2: int|
                0 <= k2 < n ==> if p@.asks(i as int, k2, class, early, late) {
                    if k2 < k {
                        (#[trigger] regs@[k2]) is Some && p@.candidate(
                            env,
                            class,
                            regs@[k2].unwrap().spec_index() as int,
                        )
                    } else {
                        regs@[k2] is None
                    }
                } else {
                    regs@[k2] == regs0[k2]
                },
            forall|x: int|
                0 <= x < 128 && !p@.candidate(env, class, x) ==> #[trigger] busy_e@[x] == e0[x],
            forall|x: int|
                0 <= x < 128 && !p@.candidate(env, class, x) ==> #[trigger] busy_l@[x] == l0[x],
            !early ==> busy_e@ == e0,
            !late ==> busy_l@ == l0,
            free_count(p@, env, class, busy_e@, busy_l@, early, late) == free_count(
                p@,
                env,
                class,
                e0,
                l0,
                early,
                late,
            ) - count_upto(want, k as int),
            early ==> free_count(p@, env, class, busy_e@, busy_l@, true, false) == free_count(
                p@,
                env,
                class,
                e0,
                l0,
                true,
                false,
            ) - count_upto(want, k as int),
            late ==> free_count(p@, env, class, busy_e@, busy_l@, false, true) == free_count(
                p@,
                env,
                class,
                e0,
                l0,
                false,
                true,
            ) - count_upto(want, k as int),
        decreases n - k,
    {
        let op = ops[k];
        let id = op.vreg().vreg();
        assert(p@.insts[i as int].operands[k as int].spec_vreg().spec_vreg() < p@.num_vregs);
        let asks = (match op.constraint() {
            OperandConstraint::Reg => true,
            _ => false,
        }) && pins[id].is_none() && op.class() == class && operand_holds_early(op) == early && (
        operand_holds_late(op) || reused[k]) == late;
        assert(asks == want(k as int));
        if asks {
            let kept = memory.kept(Ghost(p@), id, 2 * i);
            match pick(
                p,
                env,
                cand,
                class,
                busy_e,
                busy_l,
                early,
                late,
                memory.last_reg[id],
                &kept,
            ) {
                None => {
                    proof {
                        lemma_free_count_zero(p@, env, class, busy_e@, busy_l@, early, late);
                        lemma_count_monotone(want, k as int + 1, n as int);
                        assert(count_upto(want, k as int + 1) == count_upto(want, k as int) + 1);
                        assert(p@.demand(i as int, class, early, late) == count_upto(
                            want,
                            n as int,
                        ));
                    }
                    return false;
                },
                Some(reg) => {
                    let x = reg.index();
                    let ghost regs1 = regs@;
                    let ghost e1 = busy_e@;
                    let ghost l1 = busy_l@;
                    if early {
                        busy_e.set(x, true);
                    }
                    if late {
                        busy_l.set(x, true);
                    }
                    regs.set(k, Some(reg));
                    memory.note(Ghost(p@), id, x);
                    proof {
                        lemma_free_count_less(
                            p@,
                            env,
                            class,
                            e1,
                            l1,
                            busy_e@,
                            busy_l@,
                            early,
                            late,
                            x as int,
                        );
                        if early {
                            lemma_free_count_less(
                                p@,
                                env,
                                class,
                                e1,
                                l1,
                                busy_e@,
                                busy_l@,
                                true,
                                false,
                                x as int,
                            );
                        }
                        if late {
                            lemma_free_count_less(
                                p@,
                                env,
                                class,
                                e1,
                                l1,
                                busy_e@,
                                busy_l@,
                                false,
                                true,
                                x as int,
                            );
                        }
                        assert forall|k1: int, k2: int|
                            0 <= k1 < k2 < regs@.len() && (#[trigger] regs@[k1]) is Some && (
                            #[trigger] regs@[k2]) is Some && p@.overlap(
                                i as int,
                                k1,
                                k2,
                            ) implies regs@[k1].unwrap().spec_index()
                            != regs@[k2].unwrap().spec_index() by {
                            if k1 == k {
                                assert(regs1[k2] is Some);
                                let x2 = regs1[k2].unwrap().spec_index() as int;
                                if p@.op_early(i as int, k1) && p@.op_early(i as int, k2) {
                                    assert(e1[x2]);
                                } else {
                                    assert(l1[x2]);
                                }
                            } else if k2 == k {
                                assert(regs1[k1] is Some);
                                let x1 = regs1[k1].unwrap().spec_index() as int;
                                if p@.op_early(i as int, k1) && p@.op_early(i as int, k2) {
                                    assert(e1[x1]);
                                } else {
                                    assert(l1[x1]);
                                }
                            } else {
                                assert(regs1[k1] is Some && regs1[k2] is Some);
                            }
                        }
                        assert forall|k2: int|
                            0 <= k2 < regs@.len() && (#[trigger] regs@[k2]) is Some implies {
                            &&& regs@[k2].unwrap().wf()
                            &&& regs@[k2].unwrap().spec_index() < 128
                            &&& p@.op_early(i as int, k2) ==> busy_e@[regs@[k2].unwrap().spec_index() as int]
                            &&& p@.op_late(i as int, k2) ==> busy_l@[regs@[k2].unwrap().spec_index() as int]
                        } by {
                            if k2 != k {
                                assert(regs1[k2] is Some);
                            }
                        }
                    }
                },
            }
        }
        k += 1;
    }
    proof {
        lemma_free_count_zero(p@, env, class, busy_e@, busy_l@, early, late);
        assert(p@.demand(i as int, class, early, late) == count_upto(want, n as int));
    }
    true
}

/// What the registers of instruction `i` owe: every operand that is to
/// be in a register has one, a bound operand the one it is bound to, an
/// operand that needs one of its own a register that may be given to
/// its class, a reusing definition the register of the input it names;
/// and no two operands that hold their locations at the same time share
/// a register, but a reusing definition and its input.
pub open spec fn local_ok(m: ProgramModel, env: &MachineEnv, i: int, regs: Seq<Option<PReg>>) -> bool {
    &&& regs.len() == m.insts[i].operands.len()
    &&& forall|k: int| 0 <= k < regs.len() ==> (#[trigger] regs[k]) is Some == m.in_reg(i, k)
    &&& forall|k: int|
        0 <= k < regs.len() && (#[trigger] regs[k]) is Some ==> regs[k].unwrap().wf()
            && regs[k].unwrap().spec_index() < 128
    &&& forall|k: int|
        0 <= k < regs.len() && m.bound_reg(i, k) is Some ==> #[trigger] regs[k] == m.bound_reg(i, k)
    &&& forall|k: int|
        0 <= k < regs.len() && m.wants_reg(i, k) ==> m.candidate(
            env,
            m.insts[i].operands[k].spec_class(),
            (#[trigger] regs[k]).unwrap().spec_index() as int,
        )
    &&& forall|k: int, j: int|
        0 <= k < regs.len() && 0 <= j < regs.len() && #[trigger] m.reuses(i, k, j) ==> regs[k]
            == regs[j]
    &&& forall|k1: int, k2: int|
        0 <= k1 < regs.len() && 0 <= k2 < regs.len() && k1 != k2 && (#[trigger] regs[k1]) is Some
            && (#[trigger] regs[k2]) is Some && m.overlap(i, k1, k2) && regs[k1].unwrap().spec_index()
            == regs[k2].unwrap().spec_index() ==> m.reuses(i, k1, k2) || m.reuses(i, k2, k1)
}

/// A definition that reuses an input makes the input reused.
proof fn lemma_reused(m: ProgramModel, i: int, k: int, j: int, n: int)
    requires
        m.reuses(i, k, j),
        0 <= k < n,
    ensures
        m.reused_upto(i, n, j),
    decreases n - k,
{
    if k < n - 1 {
        lemma_reused(m, i, k, j, n - 1);
    }
}

/// Give every definition of instruction `i` that reuses an input the
/// register of that input.
fn copy_reused(p: &Program, env: &MachineEnv, i: usize, regs: &mut Vec<Option<PReg>>)
    requires
        p@.wf(),
        i < p.insts.len(),
        old(regs)@.len() == p@.insts[i as int].operands.len(),
        forall|k: int|
            0 <= k < old(regs)@.len() ==> (#[trigger] old(regs)@[k]) is Some == (p@.bound_reg(
                i as int,
                k,
            ) is Some || p@.wants_reg(i as int, k)),
        forall|k: int|
            0 <= k < old(regs)@.len() && (#[trigger] old(regs)@[k]) is Some ==> old(
                regs,
            )@[k].unwrap().wf() && old(regs)@[k].unwrap().spec_index() < 128,
        forall|k: int|
            0 <= k < old(regs)@.len() && p@.bound_reg(i as int, k) is Some ==> #[trigger] old(
                regs,
            )@[k] == p@.bound_reg(i as int, k),
        forall|k: int|
            0 <= k < old(regs)@.len() && p@.wants_reg(i as int, k) ==> p@.candidate(
                env,
                p@.insts[i as int].operands[k].spec_class(),
                (#[trigger] old(regs)@[k]).unwrap().spec_index() as int,
            ),
        forall|k1: int, k2: int|
            0 <= k1 < k2 < old(regs)@.len() && (#[trigger] old(regs)@[k1]) is Some && (
            #[trigger] old(regs)@[k2]) is Some && p@.overlap(i as int, k1, k2) ==> old(
                regs,
            )@[k1].unwrap().spec_index() != old(regs)@[k2].unwrap().spec_index(),
        forall|k: int|
            0 <= k < old(regs)@.len() ==> !p@.op_impossible(i as int, k),
    ensures
        local_ok(p@, env, i as int, final(regs)@),
{
    assert(p@.insts[i as int] == p.insts@[i as int]@);
    let ops = &p.insts[i].operands;
    let n = ops.len();
    let ghost regs0 = regs@;
    let ghost m = p@;
    let ghost ii = i as int;
    let mut k: usize = 0;
    while k < n
        invariant
            p@.wf(),
            m == p@,
            ii == i as int,
            i < p.insts.len(),
            ops@ == p@.insts[i as int].operands,
            n == ops.len(),
            k <= n,
            regs@.len() == n,
            regs0.len() == n,
            forall|k2: int|
                0 <= k2 < n ==> #[trigger] regs@[k2] == match m.insts[ii].operands[k2].spec_constraint() {
                    OperandConstraint::Reuse(j) => if k2 < k {
                        regs0[j as int]
                    } else {
                        regs0[k2]
                    },
                    _ => regs0[k2],
                },
        decreases n - k,
    {
        assert(p@.reuse_wf_at(i as int, k as int));
        match ops[k].constraint() {
            OperandConstraint::Reuse(j) => {
                let r = regs[j];
                assert(r == regs0[j as int]) by {
                    assert(m.insts[ii].operands[j as int].spec_constraint() == OperandConstraint::Reg
                        || m.insts[ii].operands[j as int].spec_constraint() is FixedReg);
                }
                regs.set(k, r);
            },
            _ => {},
        }
        k += 1;
    }
    proof {
        let regs2 = regs@;
        // what every operand that reuses an input knows of that input
        assert forall|k2: int, j: int|
            0 <= k2 < n && 0 <= j < n && #[trigger] m.reuses(ii, k2, j) implies {
            &&& regs2[k2] == regs0[j]
            &&& regs2[j] == regs0[j]
            &&& regs0[j] is Some
            &&& m.op_early(ii, j)
            &&& m.op_late(ii, j)
            &&& regs0[k2] is None
        } by {
            assert(m.reuse_wf_at(ii, k2));
            lemma_reused(m, ii, k2, j, n as int);
            assert(!m.op_impossible(ii, k2));
            assert(!m.op_impossible(ii, j));
            assert(m.bound_reg(ii, j) is Some || m.wants_reg(ii, j));
        }
        assert forall|k2: int| 0 <= k2 < n implies (#[trigger] regs2[k2]) is Some == m.in_reg(
            ii,
            k2,
        ) by {
            assert(m.reuse_wf_at(ii, k2));
            match m.insts[ii].operands[k2].spec_constraint() {
                OperandConstraint::Reuse(j) => {
                    assert(m.reuses(ii, k2, j as int));
                },
                _ => {},
            }
        }
        assert forall|k2: int| 0 <= k2 < n && (#[trigger] regs2[k2]) is Some implies regs2[k2].unwrap().wf()
            && regs2[k2].unwrap().spec_index() < 128 by {
            assert(m.reuse_wf_at(ii, k2));
            match m.insts[ii].operands[k2].spec_constraint() {
                OperandConstraint::Reuse(j) => {
                    assert(m.reuses(ii, k2, j as int));
                    assert(regs0[j as int] is Some);
                },
                _ => {
                    assert(regs0[k2] is Some);
                },
            }
        }
        assert forall|k2: int| 0 <= k2 < n && m.bound_reg(ii, k2) is Some implies #[trigger] regs2[k2]
            == m.bound_reg(ii, k2) by {
            assert(!m.op_impossible(ii, k2));
            assert(regs0[k2] == m.bound_reg(ii, k2));
        }
        assert forall|k2: int| 0 <= k2 < n && m.wants_reg(ii, k2) implies m.candidate(
            env,
            m.insts[ii].operands[k2].spec_class(),
            (#[trigger] regs2[k2]).unwrap().spec_index() as int,
        ) by {
            assert(regs2[k2] == regs0[k2]);
        }
        assert forall|k1: int, k2: int|
            0 <= k1 < n && 0 <= k2 < n && k1 != k2 && (#[trigger] regs2[k1]) is Some && (
            #[trigger] regs2[k2]) is Some && m.overlap(ii, k1, k2) && regs2[k1].unwrap().spec_index()
                == regs2[k2].unwrap().spec_index() implies m.reuses(ii, k1, k2) || m.reuses(
            ii,
            k2,
            k1,
        ) by {
            assert(m.reuse_wf_at(ii, k1));
            assert(m.reuse_wf_at(ii, k2));
            let c1 = m.insts[ii].operands[k1].spec_constraint();
            let c2 = m.insts[ii].operands[k2].spec_constraint();
            let r1: int = match c1 {
                OperandConstraint::Reuse(j) => j as int,
                _ => k1,
            };
            let r2: int = match c2 {
                OperandConstraint::Reuse(j) => j as int,
                _ => k2,
            };
            if c1 is Reuse {
                assert(m.reuses(ii, k1, r1));
            }
            if c2 is Reuse {
                assert(m.reuses(ii, k2, r2));
            }
            assert(regs2[k1] == regs0[r1]);
            assert(regs2[k2] == regs0[r2]);
            if r1 == r2 {
                if c1 is Reuse && c2 is Reuse {
                    if k1 < k2 {
                        assert(m.reused_upto(ii, k1 + 1, r2));
                        lemma_reused_more(m, ii, k1 + 1, k2, r2);
                        assert(m.op_impossible(ii, k2));
                    } else {
                        assert(m.reused_upto(ii, k2 + 1, r1));
                        lemma_reused_more(m, ii, k2 + 1, k1, r1);
                        assert(m.op_impossible(ii, k1));
                    }
                }
            } else {
                assert(regs0[r1] is Some && regs0[r2] is Some);
                assert(m.overlap(ii, r1, r2)) by {
                    if c1 is Reuse {
                        assert(m.op_early(ii, r1) && m.op_late(ii, r1));
                    }
                    if c2 is Reuse {
                        assert(m.op_early(ii, r2) && m.op_late(ii, r2));
                    }
                }
                if r1 < r2 {
                    assert(regs0[r1].unwrap().spec_index() != regs0[r2].unwrap().spec_index());
                } else {
                    assert(regs0[r2].unwrap().spec_index() != regs0[r1].unwrap().spec_index());
                }
            }
        }
    }
}

/// Before any operand has a register of its own, the free candidates
/// are the supply of the instruction.
proof fn lemma_supply(
    m: ProgramModel,
    env: &MachineEnv,
    i: int,
    class: RegClass,
    e: Seq<bool>,
    l: Seq<bool>,
    early: bool,
    late: bool,
)
    requires
        forall|x: int|
            0 <= x < 128 && m.candidate(env, class, x) ==> #[trigger] e[x] == m.taken(i, false, x),
        forall|x: int|
            0 <= x < 128 && m.candidate(env, class, x) ==> #[trigger] l[x] == m.taken(i, true, x),
    ensures
        free_count(m, env, class, e, l, early, late) == m.supply(env, i, class, early, late),
{
    let f = |x: int| m.candidate(env, class, x) && is_free(e, l, early, late, x);
    let g = |index: int|
        m.candidate(env, class, index) && (early ==> !m.taken(i, false, index)) && (late
            ==> !m.taken(i, true, index));
    assert forall|x: int| 0 <= x < 128 implies #[trigger] f(x) == g(x) by {
        if m.candidate(env, class, x) {
            assert(e[x] == m.taken(i, false, x));
            assert(l[x] == m.taken(i, true, x));
        }
    }
    lemma_count_same(f, g, 128);
}

/// The place of an operand's request among the six rounds in which
/// registers are given out: by class, and within a class first the
/// operands that span both halves, then the early, then the late ones.
pub open spec fn round_of(m: ProgramModel, i: int, k: int) -> int {
    m.insts[i].operands[k].spec_class().spec_bit() * 3 + if m.op_early(i, k) && m.op_late(i, k) {
        0int
    } else if m.op_early(i, k) {
        1int
    } else {
        2int
    }
}

/// What the registers owe after the first `round` rounds: an operand
/// that needs a register of its own and whose round has come has one;
/// every other operand has the register it is bound to, or none.
pub open spec fn rounds_done(
    m: ProgramModel,
    env: &MachineEnv,
    i: int,
    regs: Seq<Option<PReg>>,
    round: int,
) -> bool {
    forall|k: int|
        0 <= k < regs.len() ==> if m.wants_reg(i, k) && round_of(m, i, k) < round {
            (#[trigger] regs[k]) is Some && m.candidate(
                env,
                m.insts[i].operands[k].spec_class(),
                regs[k].unwrap().spec_index() as int,
            )
        } else {
            regs[k] == m.bound_reg(i, k)
        }
}

/// The registers of the operands of instruction `i`, if the
/// instruction can have its registers.
pub fn assign_inst(
    p: &Program,
    env: &MachineEnv,
    pins: &Vec<Option<PReg>>,
    reftype: &Vec<bool>,
    cand: &Vec<bool>,
    memory: &mut Memory,
    i: usize,
) -> (r: Option<Vec<Option<PReg>>>)
    requires
        p@.wf(),
        i < p.insts.len(),
        pins@.len() == p@.num_vregs,
        forall|id: int| 0 <= id < p@.num_vregs ==> #[trigger] pins@[id] == p@.pin_of(id as usize),
        reftype@.len() == p@.num_vregs,
        forall|id: int|
            0 <= id < p@.num_vregs ==> #[trigger] reftype@[id] == p@.is_reftype(id as usize),
        cand@.len() == 128,
        forall|x: int| 0 <= x < 128 ==> #[trigger] cand@[x] == p@.candidate(env, class_at(x), x),
        old(memory).shaped(p@),
    ensures
        final(memory).shaped(p@),
        r is Some == p@.inst_feasible(env, i as int),
        r is Some ==> local_ok(p@, env, i as int, r.unwrap()@),
{
    let ghost m = p@;
    let ghost ii = i as int;
    assert(p@.insts[i as int] == p.insts@[i as int]@);
    let n = p.insts[i].operands.len();
    let reused = reused_flags(p, i);
    let mut regs: Vec<Option<PReg>> = filled(n, None);
    let mut busy_e: Vec<bool> = filled(128, false);
    let mut busy_l: Vec<bool> = filled(128, false);
    if !bind_fixed(p, pins, reftype, &reused, i, &mut regs, &mut busy_e, &mut busy_l) {
        return None;
    }
    proof {
        crate::cfg::lemma_first_such(
            0,
            n as int,
            |k: int| m.op_impossible(ii, k) || m.op_clashes(ii, k),
        );
    }
    let ghost bad = |k: int| m.op_impossible(ii, k) || m.op_clashes(ii, k);
    assert(forall|k: int| 0 <= k < n ==> !#[trigger] bad(k));
    assert forall|k: int| 0 <= k < n implies !m.op_impossible(ii, k) by {
        assert(!bad(k));
    }
    let mut ci: usize = 0;
    while ci < 2
        invariant
            p@.wf(),
            m == p@,
            ii == i as int,
            i < p.insts.len(),
            n == m.insts[ii].operands.len(),
            ci <= 2,
            pins@.len() == p@.num_vregs,
            forall|id: int|
                0 <= id < p@.num_vregs ==> #[trigger] pins@[id] == p@.pin_of(id as usize),
            cand@.len() == 128,
            forall|x: int|
                0 <= x < 128 ==> #[trigger] cand@[x] == p@.candidate(env, class_at(x), x),
            reused@.len() == n,
            forall|j: int| 0 <= j < n ==> #[trigger] reused@[j] == p@.is_reused(i as int, j),
            memory.shaped(p@),
            !m.inst_impossible(ii),
            placed_ok(m, ii, regs@, busy_e@, busy_l@),
            rounds_done(m, env, ii, regs@, 3 * ci),
            forall|x: int|
                0 <= x < 128 && x / 64 >= ci ==> #[trigger] busy_e@[x] == m.taken(ii, false, x),
            forall|x: int|
                0 <= x < 128 && x / 64 >= ci ==> #[trigger] busy_l@[x] == m.taken(ii, true, x),
            ci >= 1 ==> m.class_fits(env, ii, RegClass::Int),
            ci >= 2 ==> m.class_fits(env, ii, RegClass::Float),
        decreases 2 - ci,
    {
        let class = if ci == 0 {
            RegClass::Int
        } else {
            RegClass::Float
        };
        let ghost e0 = busy_e@;
        let ghost l0 = busy_l@;
        proof {
            lemma_supply(m, env, ii, class, e0, l0, true, true);
            lemma_supply(m, env, ii, class, e0, l0, true, false);
            lemma_supply(m, env, ii, class, e0, l0, false, true);
        }
        let ghost regs0 = regs@;
        assert forall|k: int|
            0 <= k < regs@.len() && m.asks(ii, k, class, true, true) implies (
        #[trigger] regs@[k]) is None by {
            assert(round_of(m, ii, k) == 3 * ci);
        }
        let ok = place_free(
            p,
            env,
            pins,
            cand,
            &reused,
            i,
            class,
            true,
            true,
            &mut regs,
            &mut busy_e,
            &mut busy_l,
            memory,
        );
        if !ok {
            return None;
        }
        let ghost e1 = busy_e@;
        let ghost l1 = busy_l@;
        let ghost regs1 = regs@;
        assert forall|k: int|
            0 <= k < regs@.len() && m.asks(ii, k, class, true, false) implies (
        #[trigger] regs@[k]) is None by {
            assert(round_of(m, ii, k) == 3 * ci + 1);
            assert(!m.asks(ii, k, class, true, true));
            assert(regs1[k] == regs0[k]);
        }
        let ok = place_free(
            p,
            env,
            pins,
            cand,
            &reused,
            i,
            class,
            true,
            false,
            &mut regs,
            &mut busy_e,
            &mut busy_l,
            memory,
        );
        if !ok {
            return None;
        }
        let ghost e2 = busy_e@;
        let ghost l2 = busy_l@;
        let ghost regs2 = regs@;
        proof {
            lemma_free_count_same(m, env, class, e1, l1, e2, l2, false, true);
        }
        assert forall|k: int|
            0 <= k < regs@.len() && m.asks(ii, k, class, false, true) implies (
        #[trigger] regs@[k]) is None by {
            assert(round_of(m, ii, k) == 3 * ci + 2);
            assert(!m.asks(ii, k, class, true, true));
            assert(!m.asks(ii, k, class, true, false));
            assert(regs2[k] == regs1[k]);
            assert(regs1[k] == regs0[k]);
        }
        let ok = place_free(
            p,
            env,
            pins,
            cand,
            &reused,
            i,
            class,
            false,
            true,
            &mut regs,
            &mut busy_e,
            &mut busy_l,
            memory,
        );
        if !ok {
            return None;
        }
        proof {
            let regs3 = regs@;
            assert(m.class_fits(env, ii, class));
            assert forall|k: int| 0 <= k < regs3.len() implies if m.wants_reg(ii, k) && round_of(
                m,
                ii,
                k,
            ) < 3 * (ci + 1) {
                (#[trigger] regs3[k]) is Some && m.candidate(
                    env,
                    m.insts[ii].operands[k].spec_class(),
                    regs3[k].unwrap().spec_index() as int,
                )
            } else {
                regs3[k] == m.bound_reg(ii, k)
            } by {
                let a = m.asks(ii, k, class, true, true);
                let b = m.asks(ii, k, class, true, false);
                let c = m.asks(ii, k, class, false, true);
                assert(m.op_early(ii, k) || m.op_late(ii, k));
                if a {
                    assert(regs1[k] is Some);
                    assert(regs2[k] == regs1[k]);
                    assert(regs3[k] == regs2[k]);
                } else if b {
                    assert(regs2[k] is Some);
                    assert(regs3[k] == regs2[k]);
                } else if c {
                    assert(regs3[k] is Some);
                } else {
                    assert(regs1[k] == regs0[k]);
                    assert(regs2[k] == regs1[k]);
                    assert(regs3[k] == regs2[k]);
                }
            }
            assert forall|x: int| 0 <= x < 128 && x / 64 >= ci + 1 implies #[trigger] busy_e@[x]
                == m.taken(ii, false, x) by {
                assert(!m.candidate(env, class, x));
                assert(e1[x] == e0[x]);
                assert(e2[x] == e1[x]);
                assert(busy_e@[x] == e2[x]);
            }
            assert forall|x: int| 0 <= x < 128 && x / 64 >= ci + 1 implies #[trigger] busy_l@[x]
                == m.taken(ii, true, x) by {
                assert(!m.candidate(env, class, x));
                assert(l1[x] == l0[x]);
                assert(l2[x] == l1[x]);
                assert(busy_l@[x] == l2[x]);
            }
        }
        ci += 1;
    }
    proof {
        assert forall|k: int| 0 <= k < regs@.len() implies (#[trigger] regs@[k]) is Some == (
        m.bound_reg(ii, k) is Some || m.wants_reg(ii, k)) by {
            if m.wants_reg(ii, k) {
                assert(round_of(m, ii, k) < 6);
            }
        }
        assert forall|k: int| 0 <= k < regs@.len() && m.wants_reg(ii, k) implies m.candidate(
            env,
            m.insts[ii].operands[k].spec_class(),
            (#[trigger] regs@[k]).unwrap().spec_index() as int,
        ) by {
            assert(round_of(m, ii, k) < 6);
        }
        assert forall|k: int| 0 <= k < regs@.len() && m.bound_reg(ii, k) is Some implies #[trigger] regs@[k]
            == m.bound_reg(ii, k) by {
            assert(!m.wants_reg(ii, k));
        }
    }
    copy_reused(p, env, i, &mut regs);
    Some(regs)
}

} // verus!
