use regalloc2::{
    run_program, Allocation, Block, BlockData, Edit, Inst, InstData, InstPosition, InstRange,
    MachineEnv, Operand, OperandConstraint, OperandKind, OperandPos, Output, PReg, Program,
    RegClass, VReg,
};
use std::collections::HashMap;

// ---- a small deterministic generator of numbers ----

struct Rng(u64);

impl Rng {
    fn next(&mut self) -> u64 {
        self.0 = self.0.wrapping_mul(6364136223846793005).wrapping_add(1442695040888963407);
        self.0 >> 33
    }

    fn below(&mut self, n: usize) -> usize {
        (self.next() % n as u64) as usize
    }

    fn chance(&mut self, percent: usize) -> bool {
        self.below(100) < percent
    }
}

// ---- building programs ----

struct Builder {
    blocks: Vec<(Vec<InstData>, Vec<usize>, Vec<VReg>)>,
    next_vreg: usize,
    classes: Vec<RegClass>,
    refs: Vec<VReg>,
}

fn plain(operands: Vec<Operand>) -> InstData {
    InstData {
        operands,
        clobbers: vec![],
        is_ret: false,
        is_branch: false,
        branch_arg_offset: 0,
        requires_refs_on_stack: false,
        is_move: None,
    }
}

impl Builder {
    fn new() -> Builder {
        Builder { blocks: vec![], next_vreg: 0, classes: vec![], refs: vec![] }
    }

    fn fresh(&mut self, class: RegClass) -> VReg {
        let v = VReg::new(self.next_vreg, class);
        self.next_vreg += 1;
        self.classes.push(class);
        v
    }

    fn block(&mut self, params: Vec<VReg>) -> usize {
        self.blocks.push((vec![], vec![], params));
        self.blocks.len() - 1
    }

    fn push(&mut self, b: usize, i: InstData) {
        self.blocks[b].0.push(i);
    }

    fn jump(&mut self, b: usize, targets: Vec<usize>, args: Vec<VReg>) {
        let mut i = plain(
            args.into_iter()
                .map(|v| {
                    Operand::new(v, OperandConstraint::Any, OperandKind::Use, OperandPos::Early)
                })
                .collect(),
        );
        i.is_branch = true;
        self.blocks[b].0.push(i);
        self.blocks[b].1 = targets;
    }

    /// A branch into blocks that have this one way in: it may write a
    /// vreg of its own and clobber registers.
    fn split(&mut self, rng: &mut Rng, b: usize, targets: Vec<usize>, regs: usize) -> Option<VReg> {
        let mut i = plain(vec![]);
        i.is_branch = true;
        let mut made = None;
        if rng.chance(30) {
            let class = if rng.chance(30) { RegClass::Float } else { RegClass::Int };
            let d = self.fresh(class);
            let constraint =
                if rng.chance(50) { OperandConstraint::Reg } else { OperandConstraint::Any };
            i.operands.push(Operand::new(d, constraint, OperandKind::Def, OperandPos::Late));
            i.branch_arg_offset = 1;
            made = Some(d);
        }
        for r in 0..regs {
            if rng.chance(20) {
                i.clobbers.push(PReg::new(r, RegClass::Int));
            }
        }
        self.blocks[b].0.push(i);
        self.blocks[b].1 = targets;
        made
    }

    fn ret(&mut self, b: usize, uses: Vec<VReg>) {
        let mut i = plain(
            uses.into_iter()
                .map(|v| {
                    Operand::new(v, OperandConstraint::Any, OperandKind::Use, OperandPos::Early)
                })
                .collect(),
        );
        i.is_ret = true;
        self.blocks[b].0.push(i);
    }

    fn finish(self) -> Program {
        let reftypes = self.refs.clone();
        let mut insts = vec![];
        let mut data = vec![];
        let mut preds: Vec<Vec<Block>> = vec![vec![]; self.blocks.len()];
        for (b, (_, succs, _)) in self.blocks.iter().enumerate() {
            for s in succs {
                preds[*s].push(Block::new(b));
            }
        }
        for (b, (is, succs, params)) in self.blocks.into_iter().enumerate() {
            let first = insts.len();
            insts.extend(is);
            data.push(BlockData {
                insns: InstRange::forward(Inst::new(first), Inst::new(insts.len())),
                succs: succs.into_iter().map(Block::new).collect(),
                preds: preds[b].clone(),
                params,
            });
        }
        Program {
            insts,
            blocks: data,
            entry: Block::new(0),
            num_vregs: self.next_vreg,
            reftype_vregs: reftypes,
            debug_value_labels: vec![],
            pinned_vregs: vec![],
            pinned_pregs: vec![],
            spillslot_size_int: 1,
            spillslot_size_float: 2,
            multi_spillslot_named_by_last_slot: false,
        }
    }
}

fn machine(ints: usize, floats: usize) -> MachineEnv {
    let int_regs: Vec<PReg> = (0..ints).map(|i| PReg::new(i, RegClass::Int)).collect();
    let float_regs: Vec<PReg> = (0..floats).map(|i| PReg::new(i, RegClass::Float)).collect();
    let scratch = [PReg::new(63, RegClass::Int), PReg::new(63, RegClass::Float)];
    let mut regs = int_regs.clone();
    regs.extend(float_regs.clone());
    regs.extend(scratch);
    let split_i = int_regs.len() / 2;
    let split_f = float_regs.len() / 2;
    MachineEnv {
        regs,
        preferred_regs_by_class: [int_regs[..split_i].to_vec(), float_regs[..split_f].to_vec()],
        non_preferred_regs_by_class: [int_regs[split_i..].to_vec(), float_regs[split_f..].to_vec()],
        scratch_by_class: scratch,
    }
}

/// One instruction that defines a new vreg from some of the vregs at hand.
fn random_inst(rng: &mut Rng, b: &mut Builder, at_hand: &mut Vec<VReg>, regs: usize) -> InstData {
    if rng.chance(12) {
        // a call: references have to be on the stack while it runs
        let mut call = plain(vec![]);
        call.requires_refs_on_stack = true;
        for r in 0..regs {
            if rng.chance(50) {
                call.clobbers.push(PReg::new(r, RegClass::Int));
            }
        }
        return call;
    }
    if rng.chance(15) {
        // a reference: made and read wherever the allocator likes
        let mut operands = vec![];
        let refs: Vec<VReg> = at_hand.iter().copied().filter(|v| b.refs.contains(v)).collect();
        if !refs.is_empty() {
            let v = refs[rng.below(refs.len())];
            operands.push(Operand::new(v, OperandConstraint::Any, OperandKind::Use, OperandPos::Early));
        }
        let def = b.fresh(RegClass::Int);
        b.refs.push(def);
        operands.push(Operand::new(def, OperandConstraint::Any, OperandKind::Def, OperandPos::Late));
        at_hand.push(def);
        return plain(operands);
    }
    let class = if rng.chance(30) { RegClass::Float } else { RegClass::Int };
    let mut operands = vec![];
    let mut reg_early = 0;
    let mut reg_late = 0;
    let same: Vec<VReg> = at_hand
        .iter()
        .copied()
        .filter(|v| v.class() == class && !b.refs.contains(v))
        .collect();
    let uses = if same.is_empty() { 0 } else { rng.below(4) };
    let mut fixed_used = vec![];
    for _ in 0..uses {
        let v = same[rng.below(same.len())];
        let late = rng.chance(20);
        let pos = if late { OperandPos::Late } else { OperandPos::Early };
        let room = reg_early < regs && (!late || reg_late < regs);
        let constraint = match rng.below(5) {
            0 | 1 if room => OperandConstraint::Reg,
            2 if room => {
                let r = rng.below(regs + 1);
                if fixed_used.contains(&r) {
                    OperandConstraint::Any
                } else {
                    fixed_used.push(r);
                    OperandConstraint::FixedReg(PReg::new(r, class))
                }
            }
            3 => OperandConstraint::Stack,
            _ => OperandConstraint::Any,
        };
        if matches!(constraint, OperandConstraint::Reg | OperandConstraint::FixedReg(_)) {
            reg_early += 1;
            if late {
                reg_late += 1;
            }
        }
        operands.push(Operand::new(v, constraint, OperandKind::Use, pos));
    }
    let def = b.fresh(class);
    let early = rng.chance(15);
    let pos = if early { OperandPos::Early } else { OperandPos::Late };
    let reusable = operands.iter().position(|o| {
        o.constraint() == OperandConstraint::Reg
            && o.pos() == OperandPos::Early
            && reg_late < regs
    });
    let room = reg_late < regs && (!early || reg_early < regs);
    let constraint = match rng.below(6) {
        0 if reusable.is_some() && !early => OperandConstraint::Reuse(reusable.unwrap()),
        1 | 2 if room => OperandConstraint::Reg,
        3 if room => {
            let r = rng.below(regs + 1);
            if fixed_used.contains(&r) {
                OperandConstraint::Any
            } else {
                OperandConstraint::FixedReg(PReg::new(r, class))
            }
        }
        4 => OperandConstraint::Stack,
        _ => OperandConstraint::Any,
    };
    operands.push(Operand::new(def, constraint, OperandKind::Def, pos));
    let mut inst = plain(operands);
    if rng.chance(10) {
        // clobber a register that no operand of this instruction is fixed to
        let r = rng.below(regs + 1);
        if !fixed_used.contains(&r)
            && !inst.operands.iter().any(|o| o.constraint() == OperandConstraint::FixedReg(PReg::new(r, class)))
        {
            inst.clobbers.push(PReg::new(r, class));
        }
    }
    at_hand.push(def);
    inst
}

fn straight(rng: &mut Rng, b: &mut Builder, blk: usize, at_hand: &mut Vec<VReg>, regs: usize) {
    for _ in 0..1 + rng.below(5) {
        let i = random_inst(rng, b, at_hand, regs);
        b.push(blk, i);
    }
}

/// A program of straight runs, diamonds and loops, in which every use
/// is dominated by its definition and no edge is critical.
fn random_program(seed: u64, regs: usize) -> Program {
    let mut rng = Rng(seed);
    let mut b = Builder::new();
    let mut at_hand: Vec<VReg> = vec![];
    let mut cur = b.block(vec![]);
    straight(&mut rng, &mut b, cur, &mut at_hand, regs);
    for _ in 0..1 + rng.below(4) {
        match rng.below(3) {
            0 => {
                let next = b.block(vec![]);
                if let Some(d) = b.split(&mut rng, cur, vec![next], regs) {
                    at_hand.push(d);
                }
                cur = next;
                straight(&mut rng, &mut b, cur, &mut at_hand, regs);
            }
            1 => {
                // a diamond: two arms that each make a value, joined by a parameter
                let left = b.block(vec![]);
                let right = b.block(vec![]);
                if let Some(d) = b.split(&mut rng, cur, vec![left, right], regs) {
                    at_hand.push(d);
                }
                let mut l_hand = at_hand.clone();
                straight(&mut rng, &mut b, left, &mut l_hand, regs);
                let mut r_hand = at_hand.clone();
                straight(&mut rng, &mut b, right, &mut r_hand, regs);
                let lv = *l_hand.last().unwrap();
                let l_ref = b.refs.contains(&lv);
                let rv = r_hand
                    .iter()
                    .rev()
                    .find(|v| v.class() == lv.class() && b.refs.contains(v) == l_ref)
                    .copied();
                match rv {
                    Some(rv) => {
                        let p = b.fresh(lv.class());
                        if l_ref {
                            b.refs.push(p);
                        }
                        let join = b.block(vec![p]);
                        b.jump(left, vec![join], vec![lv]);
                        b.jump(right, vec![join], vec![rv]);
                        at_hand.push(p);
                        cur = join;
                    }
                    None => {
                        let join = b.block(vec![]);
                        b.jump(left, vec![join], vec![]);
                        b.jump(right, vec![join], vec![]);
                        cur = join;
                    }
                }
                straight(&mut rng, &mut b, cur, &mut at_hand, regs);
            }
            _ => {
                // a loop whose two parameters change places on the way back
                let plain_ones: Vec<VReg> =
                    at_hand.iter().copied().filter(|v| !b.refs.contains(v)).collect();
                if plain_ones.is_empty() {
                    continue;
                }
                let class = plain_ones.last().unwrap().class();
                let same: Vec<VReg> =
                    plain_ones.iter().copied().filter(|v| v.class() == class).collect();
                let a0 = same[rng.below(same.len())];
                let a1 = same[rng.below(same.len())];
                let p0 = b.fresh(class);
                let p1 = b.fresh(class);
                let header = b.block(vec![p0, p1]);
                b.jump(cur, vec![header], vec![a0, a1]);
                at_hand.push(p0);
                at_hand.push(p1);
                straight(&mut rng, &mut b, header, &mut at_hand, regs);
                let body = b.block(vec![]);
                let exit = b.block(vec![]);
                if let Some(d) = b.split(&mut rng, header, vec![body, exit], regs) {
                    at_hand.push(d);
                }
                let mut body_hand = at_hand.clone();
                straight(&mut rng, &mut b, body, &mut body_hand, regs);
                if rng.chance(50) {
                    b.jump(body, vec![header], vec![p1, p0]);
                    if rng.chance(30) {
                        let branch = b.blocks[body].0.last_mut().unwrap();
                        branch.clobbers.push(PReg::new(rng.below(regs), class));
                    }
                } else {
                    let n = body_hand
                        .iter()
                        .rev()
                        .find(|v| v.class() == class && !b.refs.contains(v))
                        .copied()
                        .unwrap();
                    b.jump(body, vec![header], vec![n, p0]);
                }
                cur = exit;
                straight(&mut rng, &mut b, cur, &mut at_hand, regs);
            }
        }
    }
    let uses: Vec<VReg> = at_hand.iter().rev().take(3).copied().collect();
    b.ret(cur, uses);
    b.finish()
}

// ---- replaying a result ----

#[derive(Clone, Copy, PartialEq, Eq, Debug)]
enum Held {
    Vreg(usize),
    Unknown,
}

type State = HashMap<Allocation, Held>;

fn merge(into: &mut Option<State>, from: &State) -> bool {
    match into {
        None => {
            *into = Some(from.clone());
            true
        }
        Some(s) => {
            let mut changed = false;
            let keys: Vec<Allocation> = s.keys().copied().collect();
            for k in keys {
                let theirs = from.get(&k).copied().unwrap_or(Held::Unknown);
                if s[&k] != Held::Unknown && s[&k] != theirs {
                    s.insert(k, Held::Unknown);
                    changed = true;
                }
            }
            changed
        }
    }
}

fn edits_at(out: &Output, inst: usize, pos: InstPosition) -> Vec<Edit> {
    let point = regalloc2::ProgPoint::new(Inst::new(inst), pos);
    out.edits.iter().filter(|(p, _)| *p == point).map(|(_, e)| *e).collect()
}

/// The argument vreg that feeds each parameter on the edge from `q` into its successor number `t`.
fn edge_args(p: &Program, q: usize, t: usize) -> HashMap<usize, usize> {
    let last = p.blocks[q].insns.1 .0 as usize - 1;
    let inst = &p.insts[last];
    let mut start = inst.branch_arg_offset;
    for s in 0..t {
        start += p.blocks[p.blocks[q].succs[s].0 as usize].params.len();
    }
    let b = p.blocks[q].succs[t].0 as usize;
    let mut map = HashMap::new();
    for (j, param) in p.blocks[b].params.iter().enumerate() {
        map.insert(param.vreg(), inst.operands[start + j].vreg().vreg());
    }
    map
}

fn apply(
    state: &mut State,
    edits: &[Edit],
    args: &HashMap<usize, usize>,
    what: &str,
) -> Result<(), String> {
    for e in edits {
        if let Edit::Move { from, to, to_vreg } = e {
            let held = state.get(from).copied().unwrap_or(Held::Unknown);
            let v = to_vreg.expect("every move names its vreg").vreg();
            let ok = held == Held::Vreg(v)
                || args.get(&v).map_or(false, |a| held == Held::Vreg(*a));
            if !ok {
                return Err(format!("{what}: move {from:?} -> {to:?} for v{v} finds {held:?}"));
            }
            state.insert(*to, Held::Vreg(v));
        }
    }
    Ok(())
}

/// Follow the values through the program as allocated and edited: every
/// use must find its own vreg in its allocation.
fn replay(p: &Program, out: &Output) -> Result<(), String> {
    let n = p.blocks.len();
    let mut entry: Vec<Option<State>> = vec![None; n];
    entry[0] = Some(State::new());
    let mut work = vec![0usize];
    let mut rounds = 0;
    while let Some(b) = work.pop() {
        rounds += 1;
        assert!(rounds < 10_000, "the replay does not settle");
        let mut state = entry[b].clone().unwrap();
        let block = &p.blocks[b];
        let first = block.insns.0 .0 as usize;
        let end = block.insns.1 .0 as usize;
        for i in first..end {
            let mut args = HashMap::new();
            if i == first && block.preds.len() == 1 && b != 0 {
                let q = block.preds[0].0 as usize;
                let t = p.blocks[q].succs.iter().position(|s| s.0 as usize == b).unwrap();
                args.extend(edge_args(p, q, t));
            }
            if i + 1 == end && block.succs.len() == 1 {
                let s = block.succs[0].0 as usize;
                if p.blocks[s].preds.len() > 1 {
                    args.extend(edge_args(p, b, 0));
                }
            }
            apply(&mut state, &edits_at(out, i, InstPosition::Before), &args, "before")?;
            let inst = &p.insts[i];
            let allocs = out.inst_allocs(Inst::new(i));
            assert_eq!(allocs.len(), inst.operands.len());
            for (k, op) in inst.operands.iter().enumerate() {
                if op.kind() == OperandKind::Use {
                    let held = state.get(&allocs[k]).copied().unwrap_or(Held::Unknown);
                    if held != Held::Vreg(op.vreg().vreg()) {
                        return Err(format!(
                            "inst {i} operand {k} in {:?} finds {held:?}",
                            allocs[k]
                        ));
                    }
                }
            }
            for c in &inst.clobbers {
                state.insert(Allocation::reg(*c), Held::Unknown);
            }
            for (k, op) in inst.operands.iter().enumerate() {
                if op.kind() == OperandKind::Def {
                    state.insert(allocs[k], Held::Vreg(op.vreg().vreg()));
                }
            }
            apply(&mut state, &edits_at(out, i, InstPosition::After), &HashMap::new(), "after")?;
        }
        for s in &block.succs {
            let s = s.0 as usize;
            if merge(&mut entry[s], &state) {
                work.push(s);
            }
        }
    }
    Ok(())
}

/// What every result owes its program, checked on the result itself.
fn check_constraints(p: &Program, env: &MachineEnv, out: &Output) {
    let scratch: Vec<Allocation> = env.scratch_by_class.iter().map(|r| Allocation::reg(*r)).collect();
    for (i, inst) in p.insts.iter().enumerate() {
        let allocs = out.inst_allocs(Inst::new(i));
        for (k, op) in inst.operands.iter().enumerate() {
            let a = allocs[k];
            assert!(a.is_reg() || a.is_stack());
            assert!(!scratch.contains(&a));
            match op.constraint() {
                OperandConstraint::Any => {}
                OperandConstraint::Reg => {
                    assert_eq!(a.as_reg().unwrap().class(), op.class());
                }
                OperandConstraint::Stack => assert!(a.is_stack()),
                OperandConstraint::FixedReg(r) => assert_eq!(a, Allocation::reg(r)),
                OperandConstraint::Reuse(j) => assert_eq!(a, allocs[j]),
            }
            if a.is_stack() {
                assert!(a.as_stack().unwrap().index() < out.num_spillslots);
            }
            for (k2, op2) in inst.operands.iter().enumerate().skip(k + 1) {
                if a == allocs[k2] && a.is_reg() {
                    let reused = |x: &Operand, y: usize| x.constraint() == OperandConstraint::Reuse(y);
                    let early = |o: &Operand| !(o.kind() == OperandKind::Def && o.pos() == OperandPos::Late);
                    let late = |o: &Operand, at: usize| {
                        !(o.kind() == OperandKind::Use && o.pos() == OperandPos::Early)
                            || inst.operands.iter().any(|d| reused(d, at))
                    };
                    let overlap = (early(op) && early(op2)) || (late(op, k) && late(op2, k2));
                    let in_reg = |o: &Operand| {
                        !matches!(o.constraint(), OperandConstraint::Any | OperandConstraint::Stack)
                    };
                    if overlap && in_reg(op) && in_reg(op2) {
                        assert!(reused(op, k2) || reused(op2, k), "inst {i}: {k} and {k2} share {a:?}");
                    }
                }
            }
        }
    }
    assert!(out.edits.windows(2).all(|w| w[0].0 <= w[1].0));
    assert!(out.edits.iter().all(|(_, e)| !e.is_stack_to_stack()));
    for (point, e) in &out.edits {
        assert!((point.to_index() as usize) < 2 * p.insts.len());
        if let Edit::Move { from, to, .. } = e {
            for a in [from, to] {
                assert!(!a.is_none());
                if let Some(slot) = a.as_stack() {
                    assert!(slot.index() < out.num_spillslots);
                }
            }
        }
    }
}

/// For every instruction, the vregs that are live before and after it,
/// worked out here from the blocks and their operands.
fn live_across(p: &Program) -> Vec<Vec<usize>> {
    let nb = p.blocks.len();
    let mut live_in: Vec<Vec<bool>> = vec![vec![false; p.num_vregs]; nb];
    let mut result = vec![vec![]; p.insts.len()];
    loop {
        let mut changed = false;
        for b in (0..nb).rev() {
            let block = &p.blocks[b];
            let mut live = vec![false; p.num_vregs];
            for s in &block.succs {
                let s = s.0 as usize;
                for v in 0..p.num_vregs {
                    if live_in[s][v] && !p.blocks[s].params.iter().any(|q| q.vreg() == v) {
                        live[v] = true;
                    }
                }
            }
            for i in (block.insns.0 .0 as usize..block.insns.1 .0 as usize).rev() {
                let after = live.clone();
                for op in &p.insts[i].operands {
                    if op.kind() == OperandKind::Def {
                        live[op.vreg().vreg()] = false;
                    }
                }
                for op in &p.insts[i].operands {
                    if op.kind() == OperandKind::Use {
                        live[op.vreg().vreg()] = true;
                    }
                }
                result[i] = (0..p.num_vregs).filter(|v| after[*v] && live[*v]).collect();
            }
            for v in 0..p.num_vregs {
                if live[v] && !live_in[b][v] {
                    live_in[b][v] = true;
                    changed = true;
                }
            }
        }
        if !changed {
            return result;
        }
    }
}

/// The safepoint records are, for every instruction that wants
/// references on the stack, one slot for each reference that is live
/// across it, all different, in the order of the instructions.
fn check_safepoints(p: &Program, out: &Output) {
    let live = live_across(p);
    let mut expected = vec![];
    for (i, inst) in p.insts.iter().enumerate() {
        if inst.requires_refs_on_stack {
            for v in &live[i] {
                if p.reftype_vregs.iter().any(|r| r.vreg() == *v) {
                    expected.push((i, *v));
                }
            }
        }
    }
    assert_eq!(out.safepoint_slots.len(), expected.len());
    let mut slot_of: HashMap<usize, regalloc2::SpillSlot> = HashMap::new();
    for (k, (point, slot)) in out.safepoint_slots.iter().enumerate() {
        let (i, v) = expected[k];
        assert_eq!(*point, regalloc2::ProgPoint::before(Inst::new(i)));
        assert!(slot.index() < out.num_spillslots);
        assert_eq!(*slot_of.entry(v).or_insert(*slot), *slot);
    }
    let mut slots: Vec<regalloc2::SpillSlot> = slot_of.values().copied().collect();
    slots.sort();
    slots.dedup();
    assert_eq!(slots.len(), slot_of.len());
}

#[test]
fn random_programs_keep_their_values() {
    let mut allocated = 0;
    let mut safepoints = 0;
    let mut spilled = 0;
    let mut in_registers = 0;
    let mut edits = 0;
    let mut operands = 0;
    for seed in 0..400u64 {
        let regs = 2 + (seed % 4) as usize;
        let p = random_program(seed * 7919 + 13, regs);
        let env = machine(regs + 1, regs + 1);
        assert!(p.is_wf());
        match run_program(&p, &env) {
            Ok(out) => {
                check_constraints(&p, &env, &out);
                assert!(regalloc2::checker::check(&p, &env, &out));
                check_safepoints(&p, &out);
                safepoints += out.safepoint_slots.len();
                if let Err(e) = replay(&p, &out) {
                    panic!("seed {seed}: {e}");
                }
                allocated += 1;
                spilled += out.stats.vregs_spilled;
                in_registers += out.stats.vregs_in_registers;
                edits += out.edits.len();
                operands += out.allocs.len();
            }
            Err(e) => panic!("seed {seed}: {e:?}"),
        }
    }
    assert_eq!(allocated, 400);
    println!("{operands} operands, {in_registers} vregs in registers, {spilled} spilled, {edits} edits");
    assert!(operands > 5000);
    assert!(spilled > 500);
    assert!(in_registers > 500);
    assert!(edits > 1000);
    assert!(safepoints > 100);
}

#[test]
fn the_replay_notices_a_wrong_allocation() {
    let mut noticed = 0;
    let mut tried = 0;
    for seed in 0..60u64 {
        let regs = 3;
        let p = random_program(seed * 104_729 + 5, regs);
        let env = machine(regs + 1, regs + 1);
        let mut out = run_program(&p, &env).unwrap();
        assert_eq!(replay(&p, &out), Ok(()));
        // put the first use that is in a register into another register
        let mut g = 0;
        let mut done = false;
        for inst in &p.insts {
            for op in &inst.operands {
                if !done && op.kind() == OperandKind::Use && out.allocs[g].is_reg() {
                    let r = out.allocs[g].as_reg().unwrap();
                    out.allocs[g] =
                        Allocation::reg(PReg::new((r.hw_enc() + 1) % (regs + 1), r.class()));
                    done = true;
                }
                g += 1;
            }
        }
        if done {
            tried += 1;
            if replay(&p, &out).is_err() {
                noticed += 1;
            }
        }
    }
    assert!(tried > 30);
    // a vreg may rest in the other register as well: not every change is wrong
    assert!(noticed * 2 >= tried, "{noticed} of {tried}");
}

#[test]
fn values_on_an_edge_outlast_what_the_branch_writes() {
    // the blocks are not in the order of the flow: 0 -> 2 -> 1
    for regs in 1..4 {
        let mut b = Builder::new();
        let a = b.fresh(RegClass::Int);
        let p = b.fresh(RegClass::Int);
        let d = b.fresh(RegClass::Int);
        let entry = b.block(vec![]);
        let last = b.block(vec![p]);
        let middle = b.block(vec![]);
        b.jump(entry, vec![middle], vec![]);
        b.push(middle, plain(vec![Operand::reg_def(a)]));
        let mut branch = plain(vec![
            Operand::new(d, OperandConstraint::Any, OperandKind::Def, OperandPos::Late),
            Operand::new(a, OperandConstraint::Any, OperandKind::Use, OperandPos::Early),
        ]);
        branch.is_branch = true;
        branch.branch_arg_offset = 1;
        branch.clobbers = vec![PReg::new(0, RegClass::Int)];
        b.push(middle, branch);
        b.blocks[middle].1 = vec![last];
        b.push(last, plain(vec![Operand::reg_use(p), Operand::reg_use(d)]));
        b.ret(last, vec![p, d]);
        let program = b.finish();
        assert!(program.is_wf());
        let env = machine(regs, 0);
        match run_program(&program, &env) {
            Ok(out) => {
                check_constraints(&program, &env, &out);
                assert_eq!(replay(&program, &out), Ok(()));
            }
            Err(e) => assert!(regs < 2, "{e:?}"),
        }
    }
}

#[test]
fn parameters_of_a_loop_outlast_what_the_branch_clobbers() {
    for regs in 1..4 {
        let mut b = Builder::new();
        let v0 = b.fresh(RegClass::Int);
        let p = b.fresh(RegClass::Int);
        let n = b.fresh(RegClass::Int);
        let entry = b.block(vec![]);
        b.push(entry, plain(vec![Operand::reg_def(v0)]));
        let header = b.block(vec![p]);
        b.jump(entry, vec![header], vec![v0]);
        b.push(header, plain(vec![Operand::reg_use(p)]));
        let body = b.block(vec![]);
        let exit = b.block(vec![]);
        b.jump(header, vec![body, exit], vec![]);
        b.push(body, plain(vec![Operand::reg_use(p), Operand::reg_def(n)]));
        let mut back = plain(vec![Operand::new(
            n,
            OperandConstraint::Any,
            OperandKind::Use,
            OperandPos::Early,
        )]);
        back.is_branch = true;
        back.clobbers = (0..regs).map(|r| PReg::new(r, RegClass::Int)).collect();
        b.push(body, back);
        b.blocks[body].1 = vec![header];
        b.ret(exit, vec![p]);
        let program = b.finish();
        assert!(program.is_wf());
        let env = machine(regs, 0);
        let out = run_program(&program, &env).unwrap();
        check_constraints(&program, &env, &out);
        assert_eq!(replay(&program, &out), Ok(()));
    }
}

#[test]
fn swapped_loop_parameters_keep_their_values() {
    let mut b = Builder::new();
    let v0 = b.fresh(RegClass::Int);
    let v1 = b.fresh(RegClass::Int);
    let p0 = b.fresh(RegClass::Int);
    let p1 = b.fresh(RegClass::Int);
    let entry = b.block(vec![]);
    b.push(entry, plain(vec![Operand::reg_def(v0)]));
    b.push(entry, plain(vec![Operand::reg_def(v1)]));
    let header = b.block(vec![p0, p1]);
    b.jump(entry, vec![header], vec![v0, v1]);
    b.push(header, plain(vec![Operand::reg_use(p0)]));
    let body = b.block(vec![]);
    let exit = b.block(vec![]);
    b.jump(header, vec![body, exit], vec![]);
    b.push(body, plain(vec![Operand::reg_use(p1)]));
    b.jump(body, vec![header], vec![p1, p0]);
    b.ret(exit, vec![p0, p1]);
    let p = b.finish();
    for regs in 1..4 {
        let env = machine(regs, 0);
        let out = run_program(&p, &env).unwrap();
        check_constraints(&p, &env, &out);
        assert_eq!(replay(&p, &out), Ok(()));
    }
}
