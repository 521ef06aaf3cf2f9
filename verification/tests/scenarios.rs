use regalloc2::{
    run, run_program, Allocation, Block, BlockData, Edit, Inst, InstData, InstRange, MachineEnv,
    Operand, OperandConstraint, OperandKind, OperandPos, Output, PReg, Program, RegAllocError,
    RegClass, RegallocOptions, VReg,
};

fn vi(id: usize) -> VReg {
    VReg::new(id, RegClass::Int)
}

fn inst(operands: Vec<Operand>) -> InstData {
    InstData {
        operands,
        clobbers: vec![],
        is_ret: false,
        is_branch: false,
        branch_arg_offset: 0,
        requires_refs_on_stack: false,
        is_move: None,
    }
}

fn ret(operands: Vec<Operand>) -> InstData {
    let mut i = inst(operands);
    i.is_ret = true;
    i
}

fn branch(operands: Vec<Operand>, arg_offset: usize) -> InstData {
    let mut i = inst(operands);
    i.is_branch = true;
    i.branch_arg_offset = arg_offset;
    i
}

fn any_use(v: VReg) -> Operand {
    Operand::new(v, OperandConstraint::Any, OperandKind::Use, OperandPos::Early)
}

/// Blocks as (instructions, successors, parameters); predecessors and
/// instruction ranges are worked out here.
fn program(blocks: Vec<(Vec<InstData>, Vec<usize>, Vec<VReg>)>, num_vregs: usize) -> Program {
    let mut insts = vec![];
    let mut data = vec![];
    let mut preds: Vec<Vec<Block>> = vec![vec![]; blocks.len()];
    for (b, (_, succs, _)) in blocks.iter().enumerate() {
        for s in succs {
            preds[*s].push(Block::new(b));
        }
    }
    for (b, (is, succs, params)) in blocks.into_iter().enumerate() {
        let first = insts.len();
        insts.extend(is);
        data.push(BlockData {
            insns: InstRange::forward(Inst::new(first), Inst::new(insts.len())),
            succs: succs.into_iter().map(Block::new).collect(),
            preds: preds[b].clone(),
            params,
        });
    }
    Program {
        insts,
        blocks: data,
        entry: Block::new(0),
        num_vregs,
        reftype_vregs: vec![],
        debug_value_labels: vec![],
        pinned_vregs: vec![],
        pinned_pregs: vec![],
        spillslot_size_int: 1,
        spillslot_size_float: 1,
        multi_spillslot_named_by_last_slot: false,
    }
}

/// A machine with the first `ints` integer and `floats` float registers
/// to allocate, and register 63 of each class as scratch.
fn machine(ints: usize, floats: usize) -> MachineEnv {
    let int_regs: Vec<PReg> = (0..ints).map(|i| PReg::new(i, RegClass::Int)).collect();
    let float_regs: Vec<PReg> = (0..floats).map(|i| PReg::new(i, RegClass::Float)).collect();
    let scratch = [PReg::new(63, RegClass::Int), PReg::new(63, RegClass::Float)];
    let mut regs = int_regs.clone();
    regs.extend(float_regs.clone());
    regs.extend(scratch);
    MachineEnv {
        regs,
        preferred_regs_by_class: [int_regs, float_regs],
        non_preferred_regs_by_class: [vec![], vec![]],
        scratch_by_class: scratch,
    }
}

fn allocs_of(out: &Output, inst: usize) -> Vec<Allocation> {
    out.inst_allocs(Inst::new(inst)).to_vec()
}

fn moves(out: &Output) -> usize {
    out.edits.iter().filter(|(_, e)| matches!(e, Edit::Move { from, to, .. } if from != to)).count()
}

#[test]
fn one_vreg_across_two_blocks_stays_in_the_one_register() {
    let p = program(
        vec![
            (vec![inst(vec![Operand::reg_def(vi(0))]), branch(vec![], 0)], vec![1], vec![]),
            (vec![inst(vec![Operand::reg_use(vi(0))]), ret(vec![])], vec![], vec![]),
        ],
        1,
    );
    let out = run_program(&p, &machine(1, 0)).unwrap();
    let r0 = Allocation::reg(PReg::new(0, RegClass::Int));
    assert_eq!(allocs_of(&out, 0), vec![r0]);
    assert_eq!(allocs_of(&out, 2), vec![r0]);
    assert_eq!(out.num_spillslots, 0);
    assert_eq!(moves(&out), 0);
    assert_eq!(out.inst_alloc_offsets, vec![0, 1, 1, 2]);
}

#[test]
fn two_vregs_and_one_register_spill_exactly_one() {
    let p = program(
        vec![
            (
                vec![
                    inst(vec![Operand::reg_def(vi(0))]),
                    inst(vec![Operand::reg_def(vi(1))]),
                    branch(vec![], 0),
                ],
                vec![1],
                vec![],
            ),
            (
                vec![
                    inst(vec![Operand::reg_use(vi(1))]),
                    inst(vec![Operand::reg_use(vi(0))]),
                    ret(vec![]),
                ],
                vec![],
                vec![],
            ),
        ],
        2,
    );
    let out = run_program(&p, &machine(1, 0)).unwrap();
    let r0 = Allocation::reg(PReg::new(0, RegClass::Int));
    for i in [0, 1, 3, 4] {
        assert_eq!(allocs_of(&out, i), vec![r0]);
    }
    // the slots in use: one for the spilled vreg, one spare per class
    let stack_homes: Vec<Allocation> = out
        .edits
        .iter()
        .flat_map(|(_, e)| match e {
            Edit::Move { from, to, .. } => vec![*from, *to],
            Edit::DefAlloc { alloc, .. } => vec![*alloc],
        })
        .filter(|a| a.is_stack())
        .collect();
    assert!(!stack_homes.is_empty());
    assert!(stack_homes.iter().all(|a| *a == stack_homes[0]));
    assert_eq!(out.stats.vregs_spilled, 1);
    assert_eq!(out.stats.vregs_in_registers, 1);
    assert!(moves(&out) >= 1);
    assert!(out.edits.iter().all(|(_, e)| !e.is_stack_to_stack()));
    assert!(out.edits.windows(2).all(|w| w[0].0 <= w[1].0));
}

#[test]
fn unsplit_critical_edge_is_named() {
    // block 0 branches to 1 and 2; block 1 jumps to 2: the edge 0 -> 2
    // leaves a block with two ways out and enters one with two ways in
    let p = program(
        vec![
            (vec![branch(vec![], 0)], vec![1, 2], vec![]),
            (vec![branch(vec![], 0)], vec![2], vec![]),
            (vec![ret(vec![])], vec![], vec![]),
        ],
        0,
    );
    let r = run_program(&p, &machine(1, 0));
    assert_eq!(r.unwrap_err(), RegAllocError::CritEdge(Block::new(0), Block::new(2)));
    let r = run(&p, &machine(1, 0), &RegallocOptions::default());
    assert_eq!(r.unwrap_err(), RegAllocError::CritEdge(Block::new(0), Block::new(2)));
}

#[test]
fn block_without_terminator_is_named() {
    let p = program(vec![(vec![inst(vec![])], vec![], vec![])], 0);
    assert_eq!(run_program(&p, &machine(1, 0)).unwrap_err(), RegAllocError::BB(Block::new(0)));
    let p = program(
        vec![(vec![ret(vec![]), ret(vec![])], vec![], vec![])],
        0,
    );
    assert_eq!(run_program(&p, &machine(1, 0)).unwrap_err(), RegAllocError::BB(Block::new(0)));
    let p = program(vec![(vec![branch(vec![], 0)], vec![1], vec![]), (vec![], vec![], vec![])], 0);
    assert_eq!(run_program(&p, &machine(1, 0)).unwrap_err(), RegAllocError::BB(Block::new(1)));
}

#[test]
fn entry_block_with_parameters_is_malformed() {
    let p = program(vec![(vec![ret(vec![])], vec![], vec![vi(0)])], 1);
    assert_eq!(run_program(&p, &machine(1, 0)).unwrap_err(), RegAllocError::BB(Block::new(0)));
}

#[test]
fn branch_with_wrong_argument_count_is_named() {
    let p = program(
        vec![
            (vec![inst(vec![Operand::reg_def(vi(0))]), branch(vec![], 0)], vec![1], vec![]),
            (vec![ret(vec![])], vec![], vec![vi(1)]),
        ],
        2,
    );
    assert_eq!(run_program(&p, &machine(1, 0)).unwrap_err(), RegAllocError::Branch(Inst::new(1)));
}

#[test]
fn branch_argument_before_a_join_is_disallowed() {
    // blocks 0 and 2 both jump to 1; the branch of block 2 reads a
    // vreg that is no block parameter argument
    let p = program(
        vec![
            (vec![branch(vec![], 0)], vec![1], vec![]),
            (vec![inst(vec![Operand::reg_def(vi(0))]), branch(vec![], 0)], vec![2], vec![]),
            (vec![branch(vec![any_use(vi(0))], 1)], vec![1], vec![]),
        ],
        1,
    );
    assert_eq!(
        run_program(&p, &machine(1, 0)).unwrap_err(),
        RegAllocError::DisallowedBranchArg(Inst::new(3))
    );
}

#[test]
fn second_definition_breaks_single_assignment() {
    let p = program(
        vec![(
            vec![
                inst(vec![Operand::reg_def(vi(0))]),
                inst(vec![Operand::reg_def(vi(0))]),
                ret(vec![]),
            ],
            vec![],
            vec![],
        )],
        1,
    );
    assert_eq!(
        run_program(&p, &machine(1, 0)).unwrap_err(),
        RegAllocError::SSA(vi(0), Inst::new(1))
    );
}

#[test]
fn repeated_block_parameter_breaks_single_assignment() {
    let p = program(
        vec![
            (
                vec![
                    inst(vec![Operand::reg_def(vi(0))]),
                    branch(vec![any_use(vi(0)), any_use(vi(0))], 0),
                ],
                vec![1],
                vec![],
            ),
            (vec![ret(vec![])], vec![], vec![vi(1), vi(1)]),
        ],
        2,
    );
    assert_eq!(
        run_program(&p, &machine(1, 0)).unwrap_err(),
        RegAllocError::SSA(vi(1), Inst::invalid())
    );
}

#[test]
fn a_vreg_that_nothing_defines_is_live_at_entry() {
    let p = program(
        vec![(vec![inst(vec![Operand::reg_use(vi(0))]), ret(vec![])], vec![], vec![])],
        1,
    );
    assert_eq!(run_program(&p, &machine(1, 0)).unwrap_err(), RegAllocError::EntryLivein);
}

#[test]
fn use_of_a_vreg_that_nothing_defines_where_nothing_leads_breaks_single_assignment() {
    // no path leads from the entry into the second block
    let p = program(
        vec![
            (vec![ret(vec![])], vec![], vec![]),
            (vec![inst(vec![Operand::reg_use(vi(0))]), ret(vec![])], vec![], vec![]),
        ],
        1,
    );
    assert_eq!(
        run_program(&p, &machine(1, 0)).unwrap_err(),
        RegAllocError::SSA(vi(0), Inst::new(1))
    );
}

#[test]
fn use_before_the_definition_breaks_single_assignment() {
    let p = program(
        vec![(
            vec![
                inst(vec![Operand::reg_use(vi(0))]),
                inst(vec![Operand::reg_def(vi(0))]),
                ret(vec![]),
            ],
            vec![],
            vec![],
        )],
        1,
    );
    assert_eq!(
        run_program(&p, &machine(1, 0)).unwrap_err(),
        RegAllocError::SSA(vi(0), Inst::new(0))
    );
}

#[test]
fn use_that_its_definition_does_not_dominate_breaks_single_assignment() {
    // the definition stands on one of two ways to the use
    let diamond = |first: VReg| {
        program(
            vec![
                (vec![inst(vec![Operand::reg_def(vi(1))]), branch(vec![], 0)], vec![1, 2], vec![]),
                (vec![inst(vec![Operand::reg_def(vi(0))]), branch(vec![], 0)], vec![3], vec![]),
                (vec![branch(vec![], 0)], vec![3], vec![]),
                (
                    vec![inst(vec![any_use(vi(1))]), inst(vec![any_use(first), any_use(vi(0))]), ret(vec![])],
                    vec![],
                    vec![],
                ),
            ],
            2,
        )
    };
    assert_eq!(
        run_program(&diamond(vi(1)), &machine(2, 0)).unwrap_err(),
        RegAllocError::SSA(vi(0), Inst::new(6))
    );
    // with the definition on both ways there is nothing wrong with the use,
    // but with the second definition
    let mut p = diamond(vi(1));
    p.insts[4] = inst(vec![Operand::reg_def(vi(0))]);
    p.insts.insert(5, branch(vec![], 0));
    p.blocks[2].insns = InstRange::forward(Inst::new(4), Inst::new(6));
    p.blocks[3].insns = InstRange::forward(Inst::new(6), Inst::new(9));
    assert_eq!(
        run_program(&p, &machine(2, 0)).unwrap_err(),
        RegAllocError::SSA(vi(0), Inst::new(4))
    );
    // a definition in the first block is before every use
    let mut p = diamond(vi(1));
    p.insts[2] = inst(vec![]);
    p.insts[0] = inst(vec![Operand::reg_def(vi(1)), Operand::reg_def(vi(0))]);
    assert!(run_program(&p, &machine(2, 0)).is_ok());
}

#[test]
fn use_in_a_loop_before_the_definition_breaks_single_assignment() {
    // entry -> head; head -> body, out; body -> back to head through a block of its own
    let p = program(
        vec![
            (vec![branch(vec![], 0)], vec![1], vec![]),
            (vec![inst(vec![any_use(vi(0))]), branch(vec![], 0)], vec![2, 3], vec![]),
            (vec![inst(vec![Operand::reg_def(vi(0))]), branch(vec![], 0)], vec![4], vec![]),
            (vec![ret(vec![])], vec![], vec![]),
            (vec![branch(vec![], 0)], vec![1], vec![]),
        ],
        1,
    );
    assert_eq!(
        run_program(&p, &machine(1, 0)).unwrap_err(),
        RegAllocError::SSA(vi(0), Inst::new(1))
    );
}

#[test]
fn more_register_operands_than_registers_is_exhaustion() {
    let p = program(
        vec![(
            vec![
                inst(vec![Operand::reg_def(vi(0))]),
                inst(vec![Operand::reg_def(vi(1))]),
                inst(vec![Operand::reg_use(vi(0)), Operand::reg_use(vi(1))]),
                ret(vec![]),
            ],
            vec![],
            vec![],
        )],
        2,
    );
    assert_eq!(run_program(&p, &machine(1, 0)).unwrap_err(), RegAllocError::TooManyLiveRegs);
    assert!(run_program(&p, &machine(2, 0)).is_ok());
}
