use regalloc2::checker::check;
use regalloc2::{
    run, run_program, try_run, Allocation, Block, BlockData, Edit, Function, Inst, InstData, InstRange,
    MachineEnv, Operand, OperandConstraint, OperandKind, OperandPos, Output, PReg, ProgPoint,
    Program, RegAllocError, RegClass, RegallocOptions, SpillSlot, VReg,
};

fn vi(id: usize) -> VReg {
    VReg::new(id, RegClass::Int)
}

fn ri(hw: usize) -> PReg {
    PReg::new(hw, RegClass::Int)
}

fn op(v: VReg, c: OperandConstraint, k: OperandKind, p: OperandPos) -> Operand {
    Operand::new(v, c, k, p)
}

fn any_use(v: VReg) -> Operand {
    op(v, OperandConstraint::Any, OperandKind::Use, OperandPos::Early)
}

fn any_def(v: VReg) -> Operand {
    op(v, OperandConstraint::Any, OperandKind::Def, OperandPos::Late)
}

fn inst(operands: Vec<Operand>) -> InstData {
    InstData {
        operands,
        clobbers: vec![],
        is_ret: false,
        is_branch: false,
        branch_arg_offset: 0,
        requires_refs_on_stack: false,
        is_move: None,
    }
}

fn ret(operands: Vec<Operand>) -> InstData {
    let mut i = inst(operands);
    i.is_ret = true;
    i
}

/// One block that holds the given instructions and a return.
fn straight(mut insts: Vec<InstData>, num_vregs: usize) -> Program {
    insts.push(ret(vec![]));
    let n = insts.len();
    Program {
        insts,
        blocks: vec![BlockData {
            insns: InstRange::forward(Inst::new(0), Inst::new(n)),
            succs: vec![],
            preds: vec![],
            params: vec![],
        }],
        entry: Block::new(0),
        num_vregs,
        reftype_vregs: vec![],
        debug_value_labels: vec![],
        pinned_vregs: vec![],
        pinned_pregs: vec![],
        spillslot_size_int: 1,
        spillslot_size_float: 1,
        multi_spillslot_named_by_last_slot: false,
    }
}

fn machine(ints: usize) -> MachineEnv {
    let int_regs: Vec<PReg> = (0..ints).map(ri).collect();
    let scratch = [PReg::new(63, RegClass::Int), PReg::new(63, RegClass::Float)];
    let floats: Vec<PReg> = (0..ints).map(|i| PReg::new(i, RegClass::Float)).collect();
    MachineEnv {
        regs: int_regs.iter().chain(floats.iter()).chain(scratch.iter()).copied().collect(),
        preferred_regs_by_class: [int_regs, floats],
        non_preferred_regs_by_class: [vec![], vec![]],
        scratch_by_class: scratch,
    }
}

fn allocs(out: &Output, i: usize) -> Vec<Allocation> {
    out.inst_allocs(Inst::new(i)).to_vec()
}

fn ok(p: &Program, env: &MachineEnv) -> Output {
    assert!(p.is_wf());
    let out = run_program(p, env).unwrap();
    assert!(check(p, env, &out));
    out
}

#[test]
fn fixed_registers_are_exact() {
    let p = straight(
        vec![
            inst(vec![Operand::reg_fixed_def(vi(0), ri(2))]),
            inst(vec![Operand::reg_fixed_use(vi(0), ri(1)), Operand::reg_fixed_def(vi(1), ri(1))]),
            inst(vec![Operand::reg_fixed_use(vi(1), ri(0))]),
        ],
        2,
    );
    let out = ok(&p, &machine(3));
    assert_eq!(allocs(&out, 0), vec![Allocation::reg(ri(2))]);
    assert_eq!(allocs(&out, 1), vec![Allocation::reg(ri(1)), Allocation::reg(ri(1))]);
    assert_eq!(allocs(&out, 2), vec![Allocation::reg(ri(0))]);
}

#[test]
fn reuse_takes_the_allocation_of_its_input() {
    let p = straight(
        vec![
            inst(vec![Operand::reg_def(vi(0))]),
            inst(vec![Operand::reg_def(vi(1))]),
            inst(vec![
                Operand::reg_use(vi(0)),
                Operand::reg_use(vi(1)),
                Operand::reg_reuse_def(vi(2), 0),
            ]),
            inst(vec![Operand::reg_use(vi(0)), Operand::reg_use(vi(2))]),
        ],
        3,
    );
    let out = ok(&p, &machine(3));
    let a = allocs(&out, 2);
    assert_eq!(a[2], a[0]);
    assert_ne!(a[1], a[0]);
    let b = allocs(&out, 3);
    assert_ne!(b[0], b[1]);
}

#[test]
fn stack_constraint_gets_a_slot_below_the_count() {
    let stack_use = op(vi(0), OperandConstraint::Stack, OperandKind::Use, OperandPos::Early);
    let p = straight(vec![inst(vec![Operand::reg_def(vi(0))]), inst(vec![stack_use])], 1);
    let out = ok(&p, &machine(2));
    let a = allocs(&out, 1)[0];
    assert!(a.is_stack());
    assert!(a.as_stack().unwrap().index() < out.num_spillslots);
    assert_eq!(
        out.edits,
        vec![(
            ProgPoint::after(Inst::new(0)),
            Edit::Move { from: allocs(&out, 0)[0], to: a, to_vreg: Some(vi(0)) }
        )]
    );
}

#[test]
fn slots_of_two_are_aligned_and_named_by_first_or_last() {
    let f = VReg::new(1, RegClass::Float);
    let insts = vec![
        inst(vec![op(vi(0), OperandConstraint::Stack, OperandKind::Def, OperandPos::Late)]),
        inst(vec![op(f, OperandConstraint::Stack, OperandKind::Def, OperandPos::Late)]),
        inst(vec![any_use(vi(0)), any_use(f)]),
    ];
    let mut p = straight(insts, 2);
    p.spillslot_size_float = 2;
    let out = ok(&p, &machine(2));
    assert_eq!(allocs(&out, 0), vec![Allocation::stack(SpillSlot::new(0, RegClass::Int))]);
    assert_eq!(allocs(&out, 1), vec![Allocation::stack(SpillSlot::new(2, RegClass::Float))]);
    p.multi_spillslot_named_by_last_slot = true;
    let out = ok(&p, &machine(2));
    assert_eq!(allocs(&out, 0), vec![Allocation::stack(SpillSlot::new(0, RegClass::Int))]);
    assert_eq!(allocs(&out, 1), vec![Allocation::stack(SpillSlot::new(3, RegClass::Float))]);
    assert!(out.num_spillslots >= 4);
}

#[test]
fn clobbered_register_holds_nothing_across_the_instruction() {
    let mut call = inst(vec![]);
    call.clobbers = vec![ri(0)];
    let p = straight(
        vec![inst(vec![Operand::reg_def(vi(0))]), call, inst(vec![Operand::reg_use(vi(0))])],
        1,
    );
    let out = ok(&p, &machine(2));
    // the vreg rests in the register that is not clobbered, or on the stack
    let home = out
        .edits
        .iter()
        .find_map(|(_, e)| match e {
            Edit::Move { to, .. } if *to != Allocation::reg(ri(0)) => Some(*to),
            _ => None,
        })
        .unwrap_or(allocs(&out, 2)[0]);
    assert_ne!(home, Allocation::reg(ri(0)));
}

#[test]
fn definition_into_a_clobbered_register_cannot_be() {
    let mut i = inst(vec![Operand::reg_fixed_def(vi(0), ri(0))]);
    i.clobbers = vec![ri(0)];
    let p = straight(vec![i], 1);
    assert!(p.is_wf());
    assert_eq!(run_program(&p, &machine(2)).unwrap_err(), RegAllocError::TooManyLiveRegs);
}

#[test]
fn two_operands_fixed_to_one_register_cannot_be() {
    let p = straight(
        vec![
            inst(vec![Operand::reg_def(vi(0))]),
            inst(vec![Operand::reg_def(vi(1))]),
            inst(vec![Operand::reg_fixed_use(vi(0), ri(1)), Operand::reg_fixed_use(vi(1), ri(1))]),
        ],
        2,
    );
    assert!(p.is_wf());
    assert_eq!(run_program(&p, &machine(3)).unwrap_err(), RegAllocError::TooManyLiveRegs);
}

#[test]
fn early_use_and_late_definition_share_the_one_register() {
    let p = straight(
        vec![
            inst(vec![Operand::reg_def(vi(0))]),
            inst(vec![Operand::reg_use(vi(0)), Operand::reg_def(vi(1))]),
            inst(vec![Operand::reg_use(vi(1))]),
        ],
        2,
    );
    let out = ok(&p, &machine(1));
    assert_eq!(allocs(&out, 1), vec![Allocation::reg(ri(0)), Allocation::reg(ri(0))]);
    assert_eq!(out.num_spillslots, 0);
    // a use that lasts to the end of the instruction cannot share
    let p = straight(
        vec![
            inst(vec![Operand::reg_def(vi(0))]),
            inst(vec![Operand::reg_use_at_end(vi(0)), Operand::reg_def(vi(1))]),
        ],
        2,
    );
    assert_eq!(run_program(&p, &machine(1)).unwrap_err(), RegAllocError::TooManyLiveRegs);
    let out = ok(&p, &machine(2));
    assert_ne!(allocs(&out, 1)[0], allocs(&out, 1)[1]);
}

#[test]
fn scratch_register_is_never_allocated() {
    let mut env = machine(1);
    env.preferred_regs_by_class[0].insert(0, env.scratch_by_class[0]);
    let p = straight(
        vec![inst(vec![Operand::reg_def(vi(0))]), inst(vec![Operand::reg_use(vi(0))])],
        1,
    );
    let out = ok(&p, &env);
    assert_eq!(allocs(&out, 0), vec![Allocation::reg(ri(0))]);
    // with the scratch register alone there is nothing to allocate
    env.preferred_regs_by_class[0].truncate(1);
    assert_eq!(run_program(&p, &env).unwrap_err(), RegAllocError::TooManyLiveRegs);
}

#[test]
fn non_preferred_registers_come_after_preferred_ones() {
    let mut env = machine(1);
    env.non_preferred_regs_by_class[0] = vec![ri(5)];
    let p = straight(
        vec![
            inst(vec![Operand::reg_def(vi(0))]),
            inst(vec![Operand::reg_def(vi(1))]),
            inst(vec![Operand::reg_use(vi(0)), Operand::reg_use(vi(1))]),
        ],
        2,
    );
    let out = ok(&p, &env);
    assert_eq!(allocs(&out, 0), vec![Allocation::reg(ri(0))]);
    assert_eq!(allocs(&out, 2), vec![Allocation::reg(ri(0)), Allocation::reg(ri(5))]);
}

#[test]
fn pinned_vreg_is_always_in_its_register() {
    let sp = vi(0);
    let insts = vec![
        inst(vec![any_use(sp), Operand::reg_def(vi(1))]),
        inst(vec![
            op(sp, OperandConstraint::Reg, OperandKind::Use, OperandPos::Early),
            op(sp, OperandConstraint::Any, OperandKind::Def, OperandPos::Late),
        ]),
        inst(vec![Operand::reg_use(vi(1)), Operand::reg_fixed_use(sp, ri(9))]),
    ];
    let mut p = straight(insts, 2);
    p.pinned_vregs = vec![sp];
    p.pinned_pregs = vec![Some(ri(9))];
    let mut env = machine(2);
    env.preferred_regs_by_class[0].push(ri(9));
    let out = ok(&p, &env);
    let pin = Allocation::reg(ri(9));
    assert_eq!(allocs(&out, 0)[0], pin);
    assert_eq!(allocs(&out, 1), vec![pin, pin]);
    assert_eq!(allocs(&out, 2)[1], pin);
    // no other vreg gets the register, though the machine lists it
    assert_ne!(allocs(&out, 0)[1], pin);
    // pinned to one register, fixed to another: that cannot be
    let mut q = straight(vec![inst(vec![Operand::reg_fixed_use(sp, ri(1))])], 1);
    q.pinned_vregs = vec![sp];
    q.pinned_pregs = vec![Some(ri(9))];
    assert!(q.is_wf());
    assert_eq!(run_program(&q, &env).unwrap_err(), RegAllocError::TooManyLiveRegs);
}

#[test]
fn modification_of_a_vreg_that_is_not_pinned_breaks_single_assignment() {
    let p = straight(
        vec![
            inst(vec![Operand::reg_def(vi(0))]),
            inst(vec![op(vi(0), OperandConstraint::Reg, OperandKind::Mod, OperandPos::Early)]),
        ],
        1,
    );
    assert_eq!(
        run_program(&p, &machine(2)).unwrap_err(),
        RegAllocError::SSA(vi(0), Inst::new(1))
    );
}

#[test]
fn references_are_on_the_stack_at_safepoints() {
    let mut call = inst(vec![any_use(vi(1))]);
    call.requires_refs_on_stack = true;
    let insts = vec![
        inst(vec![any_def(vi(0))]),
        inst(vec![any_def(vi(1))]),
        inst(vec![Operand::reg_def(vi(2))]),
        call,
        inst(vec![any_use(vi(0)), Operand::reg_use(vi(2))]),
    ];
    let mut p = straight(insts, 3);
    p.reftype_vregs = vec![vi(0), vi(1)];
    let out = ok(&p, &machine(4));
    let r0 = allocs(&out, 0)[0];
    let r1 = allocs(&out, 1)[0];
    assert!(r0.is_stack() && r1.is_stack() && r0 != r1);
    assert_eq!(allocs(&out, 3), vec![r1]);
    // the first reference is live across the call, the second ends at it
    assert_eq!(
        out.safepoint_slots,
        vec![(ProgPoint::before(Inst::new(3)), r0.as_stack().unwrap())]
    );
    // a reference in a register at the call cannot be
    let mut call = inst(vec![Operand::reg_use(vi(0))]);
    call.requires_refs_on_stack = true;
    let mut q = straight(vec![inst(vec![any_def(vi(0))]), call], 1);
    q.reftype_vregs = vec![vi(0)];
    assert!(q.is_wf());
    assert_eq!(run_program(&q, &machine(4)).unwrap_err(), RegAllocError::TooManyLiveRegs);
}

#[test]
fn debug_locations_answer_the_requests_in_order() {
    let insts = vec![
        inst(vec![Operand::reg_def(vi(0))]),
        inst(vec![Operand::reg_def(vi(1))]),
        inst(vec![Operand::reg_use(vi(0))]),
        inst(vec![Operand::reg_use(vi(1))]),
    ];
    let mut p = straight(insts, 2);
    p.debug_value_labels = vec![
        (Inst::new(0), Inst::new(5), vi(1), 9),
        (Inst::new(0), Inst::new(2), vi(0), 4),
        (Inst::new(1), Inst::new(5), vi(0), 4),
    ];
    let out = ok(&p, &machine(2));
    let a0 = allocs(&out, 0)[0];
    let a1 = allocs(&out, 1)[0];
    let pt = ProgPoint::from_index;
    assert_eq!(
        out.debug_locations,
        vec![(4, pt(1), pt(4), a0), (4, pt(4), pt(5), a0), (9, pt(3), pt(7), a1)]
    );
}

struct Wrapped(Program);

impl Function for Wrapped {
    fn num_insts(&self) -> usize {
        self.0.insts.len()
    }
    fn num_blocks(&self) -> usize {
        self.0.blocks.len()
    }
    fn entry_block(&self) -> Block {
        self.0.entry
    }
    fn block_insns(&self, block: Block) -> InstRange {
        self.0.blocks[block.index()].insns
    }
    fn block_succs(&self, block: Block) -> &[Block] {
        &self.0.blocks[block.index()].succs
    }
    fn block_preds(&self, block: Block) -> &[Block] {
        &self.0.blocks[block.index()].preds
    }
    fn block_params(&self, block: Block) -> &[VReg] {
        &self.0.blocks[block.index()].params
    }
    fn is_ret(&self, insn: Inst) -> bool {
        self.0.insts[insn.index()].is_ret
    }
    fn is_branch(&self, insn: Inst) -> bool {
        self.0.insts[insn.index()].is_branch
    }
    fn branch_blockparam_arg_offset(&self, _: Block, insn: Inst) -> usize {
        self.0.insts[insn.index()].branch_arg_offset
    }
    fn requires_refs_on_stack(&self, insn: Inst) -> bool {
        self.0.insts[insn.index()].requires_refs_on_stack
    }
    fn is_move(&self, insn: Inst) -> Option<(Operand, Operand)> {
        self.0.insts[insn.index()].is_move
    }
    fn inst_operands(&self, insn: Inst) -> &[Operand] {
        &self.0.insts[insn.index()].operands
    }
    fn inst_clobbers(&self, insn: Inst) -> &[PReg] {
        &self.0.insts[insn.index()].clobbers
    }
    fn num_vregs(&self) -> usize {
        self.0.num_vregs
    }
    fn reftype_vregs(&self) -> &[VReg] {
        &self.0.reftype_vregs
    }
    fn debug_value_labels(&self) -> &[(Inst, Inst, VReg, u32)] {
        &self.0.debug_value_labels
    }
    fn is_pinned_vreg(&self, vreg: VReg) -> Option<PReg> {
        let at = self.0.pinned_vregs.iter().position(|v| v.vreg() == vreg.vreg())?;
        self.0.pinned_pregs[at]
    }
    fn pinned_vregs(&self) -> &[VReg] {
        &self.0.pinned_vregs
    }
    fn spillslot_size(&self, regclass: RegClass) -> usize {
        match regclass {
            RegClass::Int => self.0.spillslot_size_int,
            RegClass::Float => self.0.spillslot_size_float,
        }
    }
    fn multi_spillslot_named_by_last_slot(&self) -> bool {
        self.0.multi_spillslot_named_by_last_slot
    }
}

#[test]
fn a_client_of_its_own_gets_what_its_program_gets() {
    let mut call = inst(vec![]);
    call.requires_refs_on_stack = true;
    call.clobbers = vec![ri(0)];
    let insts = vec![
        inst(vec![any_def(vi(0))]),
        inst(vec![Operand::reg_def(vi(1))]),
        call,
        inst(vec![any_use(vi(0)), Operand::reg_use(vi(1)), any_use(vi(2))]),
    ];
    let mut p = straight(insts, 3);
    p.reftype_vregs = vec![vi(0)];
    p.pinned_vregs = vec![vi(2)];
    p.pinned_pregs = vec![Some(ri(7))];
    p.debug_value_labels = vec![(Inst::new(0), Inst::new(4), vi(1), 1)];
    let env = machine(2);
    let direct = run_program(&p, &env).unwrap();
    let through = run(&Wrapped(p.clone()), &env, &RegallocOptions { verbose_log: true }).unwrap();
    assert_eq!(format!("{direct:?}"), format!("{through:?}"));
    let captured = Program::capture(&Wrapped(p.clone()));
    assert_eq!(format!("{captured:?}"), format!("{p:?}"));
    // the same input gives the same output
    let again = run_program(&p, &env).unwrap();
    assert_eq!(format!("{direct:?}"), format!("{again:?}"));
}

#[test]
fn programs_that_are_not_well_formed_are_told() {
    let good = straight(vec![inst(vec![Operand::reg_def(vi(0))])], 1);
    assert!(good.is_wf());
    let mut p = good.clone();
    p.num_vregs = 0;
    assert!(!p.is_wf());
    let mut p = good.clone();
    p.blocks[0].insns = InstRange::forward(Inst::new(0), Inst::new(1));
    assert!(!p.is_wf());
    let mut p = good.clone();
    p.blocks[0].succs = vec![Block::new(1)];
    assert!(!p.is_wf());
    let mut p = good.clone();
    p.entry = Block::new(3);
    assert!(!p.is_wf());
    let mut p = good.clone();
    p.insts[0].branch_arg_offset = 1;
    assert!(!p.is_wf());
    let mut p = good.clone();
    p.spillslot_size_int = 0;
    assert!(!p.is_wf());
    let mut p = good.clone();
    p.pinned_vregs = vec![vi(0)];
    assert!(!p.is_wf());
    let mut p = good.clone();
    p.pinned_vregs = vec![vi(0), vi(0)];
    p.pinned_pregs = vec![Some(ri(1)), Some(ri(2))];
    assert!(!p.is_wf());
    let mut p = good.clone();
    p.reftype_vregs = vec![vi(1)];
    assert!(!p.is_wf());
    // a reuse has to name a use that is in a register
    let reuse = |input: Operand| {
        straight(
            vec![inst(vec![Operand::reg_def(vi(0))]), inst(vec![input, Operand::reg_reuse_def(vi(1), 0)])],
            2,
        )
    };
    assert!(reuse(Operand::reg_use(vi(0))).is_wf());
    assert!(reuse(Operand::reg_fixed_use(vi(0), ri(0))).is_wf());
    assert!(!reuse(any_use(vi(0))).is_wf());
    assert!(!reuse(Operand::reg_def(vi(0))).is_wf());
    let p = straight(vec![inst(vec![Operand::reg_reuse_def(vi(0), 1)])], 1);
    assert!(!p.is_wf());
    let p = straight(
        vec![
            inst(vec![Operand::reg_def(vi(0))]),
            inst(vec![
                Operand::reg_use(vi(0)),
                Operand::reg_reuse_def(vi(1), 0),
                Operand::reg_reuse_def(vi(2), 0),
            ]),
        ],
        3,
    );
    // two definitions cannot both have the register of the one input
    assert!(p.is_wf());
    assert_eq!(run_program(&p, &machine(4)).unwrap_err(), RegAllocError::TooManyLiveRegs);
}

#[test]
fn the_checker_tells_a_wrong_result() {
    let p = straight(
        vec![
            inst(vec![Operand::reg_def(vi(0))]),
            inst(vec![Operand::reg_def(vi(1))]),
            inst(vec![Operand::reg_use(vi(1)), Operand::reg_fixed_use(vi(0), ri(1))]),
            inst(vec![op(vi(0), OperandConstraint::Stack, OperandKind::Use, OperandPos::Early)]),
        ],
        2,
    );
    let env = machine(2);
    let good = ok(&p, &env);
    assert!(good.edits.len() >= 2);
    let slot = Allocation::stack(SpillSlot::new(0, RegClass::Int));
    let spoil = |f: &dyn Fn(&mut Output)| {
        let mut out = good.clone();
        f(&mut out);
        check(&p, &env, &out)
    };
    assert!(spoil(&|_| {}));
    // two operands of one instruction in one register
    assert!(!spoil(&|o| o.allocs[2] = o.allocs[3]));
    // a fixed register missed
    assert!(!spoil(&|o| o.allocs[3] = Allocation::reg(ri(0))));
    // a register of the wrong class, the scratch register, a slot for a register
    assert!(!spoil(&|o| o.allocs[0] = Allocation::reg(PReg::new(0, RegClass::Float))));
    assert!(!spoil(&|o| o.allocs[0] = Allocation::reg(ri(63))));
    assert!(!spoil(&|o| o.allocs[0] = slot));
    // a register for the stack, no allocation at all, a slot beyond the count
    assert!(!spoil(&|o| o.allocs[4] = Allocation::reg(ri(0))));
    assert!(!spoil(&|o| o.allocs[4] = Allocation::none()));
    assert!(!spoil(&|o| o.num_spillslots = 0));
    // the shape of the allocations
    assert!(!spoil(&|o| o.inst_alloc_offsets[1] = 0));
    assert!(!spoil(&|o| o.allocs.push(slot)));
    assert!(!spoil(&|o| {
        o.inst_alloc_offsets.pop();
    }));
    // the edits out of order, or from stack to stack
    assert!(!spoil(&|o| o.edits.reverse()));
    assert!(!spoil(&|o| {
        let point = o.edits.last().unwrap().0;
        let other = Allocation::stack(SpillSlot::new(1, RegClass::Int));
        o.edits.push((point, Edit::Move { from: slot, to: other, to_vreg: None }));
    }));
    assert!(Edit::Move { from: slot, to: slot, to_vreg: None }.is_stack_to_stack());
    assert!(!Edit::DefAlloc { alloc: slot, vreg: vi(0) }.is_stack_to_stack());
}

/// Whether some range of the list has the label and holds the point.
fn shown(list: &[(u32, ProgPoint, ProgPoint, Allocation)], label: u32, pt: u32) -> bool {
    list.iter().any(|r| r.0 == label && r.1.to_index() <= pt && pt < r.2.to_index())
}

#[test]
fn debug_locations_leave_out_nothing_that_was_asked_for() {
    let insts = vec![
        inst(vec![Operand::reg_def(vi(0))]),
        inst(vec![Operand::reg_def(vi(1))]),
        inst(vec![Operand::reg_use(vi(0))]),
        inst(vec![Operand::reg_use(vi(1))]),
    ];
    let mut p = straight(insts, 2);
    p.debug_value_labels = vec![
        (Inst::new(0), Inst::new(5), vi(0), 7),
        (Inst::new(0), Inst::new(5), vi(1), 7),
        (Inst::new(2), Inst::new(4), vi(0), 7),
        (Inst::new(1), Inst::new(2), vi(1), 3),
    ];
    let out = ok(&p, &machine(2));
    let h0 = allocs(&out, 0)[0];
    let h1 = allocs(&out, 1)[0];
    let pt = ProgPoint::from_index;
    assert_eq!(
        out.debug_locations,
        vec![(3, pt(3), pt(4), h1), (7, pt(1), pt(5), h0), (7, pt(5), pt(7), h1)]
    );
    // The first vreg rests in its home at the points 1 to 4, the second
    // at the points 3 to 6: under the label 7 all of them are shown.
    for at in 1..7 {
        assert!(shown(&out.debug_locations, 7, at));
    }
    assert!(!shown(&out.debug_locations, 7, 0));
    assert!(!shown(&out.debug_locations, 7, 7));
    assert!(shown(&out.debug_locations, 3, 3));
    assert!(!shown(&out.debug_locations, 3, 2));
    assert!(!shown(&out.debug_locations, 3, 4));
}

#[test]
fn requests_that_reach_nothing_give_no_debug_location() {
    let insts = vec![
        inst(vec![Operand::reg_def(vi(0))]),
        inst(vec![Operand::reg_use(vi(0))]),
    ];
    let mut p = straight(insts, 2);
    p.debug_value_labels = vec![
        // A vreg that no instruction names has no home.
        (Inst::new(0), Inst::new(3), vi(1), 1),
        // The vreg is gone before these instructions begin.
        (Inst::new(2), Inst::new(3), vi(0), 2),
        // No instruction lies between the two.
        (Inst::new(1), Inst::new(1), vi(0), 3),
    ];
    let out = ok(&p, &machine(2));
    assert_eq!(out.debug_locations, vec![]);
}

#[test]
fn a_vreg_comes_back_to_the_register_it_was_last_in() {
    let insts = vec![
        inst(vec![Operand::reg_def(vi(0)), Operand::reg_def(vi(1))]),
        inst(vec![Operand::reg_use(vi(1))]),
        inst(vec![Operand::reg_use(vi(1)), Operand::reg_use(vi(0))]),
    ];
    let p = straight(insts, 2);
    let out = ok(&p, &machine(3));
    let first = allocs(&out, 0);
    assert_ne!(first[0], first[1]);
    assert_eq!(allocs(&out, 1), vec![first[1]]);
    assert_eq!(allocs(&out, 2), vec![first[1], first[0]]);
}

#[test]
fn slots_are_taken_in_the_order_of_the_ids_and_counted_with_the_spare_ones() {
    let f = VReg::new(1, RegClass::Float);
    let insts = vec![
        inst(vec![op(vi(0), OperandConstraint::Stack, OperandKind::Def, OperandPos::Late)]),
        inst(vec![op(f, OperandConstraint::Stack, OperandKind::Def, OperandPos::Late)]),
        inst(vec![any_use(vi(0)), any_use(f)]),
    ];
    let mut p = straight(insts, 2);
    p.spillslot_size_int = 2;
    p.spillslot_size_float = 3;
    let out = ok(&p, &machine(2));
    // slots 0 and 1 for the first vreg, 3 to 5 for the second, then
    // 6 and 7 for the spare slot of integers and 9 to 11 for that of floats
    assert_eq!(allocs(&out, 0), vec![Allocation::stack(SpillSlot::new(0, RegClass::Int))]);
    assert_eq!(allocs(&out, 1), vec![Allocation::stack(SpillSlot::new(3, RegClass::Float))]);
    assert_eq!(out.num_spillslots, 12);
    p.multi_spillslot_named_by_last_slot = true;
    let out = ok(&p, &machine(2));
    assert_eq!(allocs(&out, 0), vec![Allocation::stack(SpillSlot::new(1, RegClass::Int))]);
    assert_eq!(allocs(&out, 1), vec![Allocation::stack(SpillSlot::new(5, RegClass::Float))]);
    assert_eq!(out.num_spillslots, 12);
}

#[test]
fn a_vreg_rests_in_a_register_where_one_is_free() {
    let insts = vec![inst(vec![any_def(vi(0))]), inst(vec![any_use(vi(0))])];
    let p = straight(insts, 1);
    let out = ok(&p, &machine(1));
    assert_eq!(allocs(&out, 0), vec![Allocation::reg(ri(0))]);
    assert_eq!(allocs(&out, 1), vec![Allocation::reg(ri(0))]);
    assert_eq!(out.num_spillslots, 0);
    assert_eq!(out.edits, vec![]);
}

#[test]
fn a_vreg_rests_on_the_stack_where_another_takes_the_only_register() {
    // the operand of the second vreg holds the register within the
    // hull of the first, which has to give way
    let insts = vec![
        inst(vec![any_def(vi(0))]),
        inst(vec![Operand::reg_def(vi(1))]),
        inst(vec![any_use(vi(0)), any_use(vi(1))]),
    ];
    let p = straight(insts, 2);
    let out = ok(&p, &machine(1));
    assert_eq!(allocs(&out, 0), vec![Allocation::stack(SpillSlot::new(0, RegClass::Int))]);
    assert_eq!(allocs(&out, 1), vec![Allocation::reg(ri(0))]);
    assert_eq!(
        allocs(&out, 2),
        vec![Allocation::stack(SpillSlot::new(0, RegClass::Int)), Allocation::reg(ri(0))]
    );
    assert_eq!(out.num_spillslots, 3);
    assert_eq!(out.stats.vregs_spilled, 1);
    assert_eq!(out.stats.vregs_in_registers, 1);
    assert_eq!(out.stats.edits_count, out.edits.len());
}

#[test]
fn a_program_is_tested_while_it_is_read() {
    let good = straight(vec![inst(vec![Operand::reg_def(vi(0))])], 1);
    let env = machine(2);
    let options = RegallocOptions { verbose_log: false };
    let direct = run_program(&good, &env);
    let tried = try_run(&Wrapped(good.clone()), &env, &options).unwrap();
    assert_eq!(format!("{direct:?}"), format!("{tried:?}"));
    let read = Program::try_capture(&Wrapped(good.clone())).unwrap();
    assert_eq!(format!("{read:?}"), format!("{good:?}"));
    // a block that reaches beyond the instructions
    let mut p = good.clone();
    p.blocks[0].insns = InstRange::forward(Inst::new(0), Inst::new(9));
    assert!(Program::try_capture(&Wrapped(p.clone())).is_none());
    assert!(try_run(&Wrapped(p), &env, &options).is_none());
    // a block whose range is not in order
    let mut p = good.clone();
    p.blocks[0].insns = InstRange(Inst::new(2), Inst::new(1));
    assert!(Program::try_capture(&Wrapped(p)).is_none());
    // a program that can be read, and is still not well formed
    let mut p = good.clone();
    p.num_vregs = 0;
    assert!(Program::try_capture(&Wrapped(p.clone())).is_some());
    assert!(try_run(&Wrapped(p), &env, &options).is_none());
    // an answer that is an error is an answer
    let mut p = good.clone();
    p.insts[0].operands = vec![Operand::reg_use(vi(0))];
    assert!(matches!(try_run(&Wrapped(p), &env, &options), Some(Err(_))));
}
