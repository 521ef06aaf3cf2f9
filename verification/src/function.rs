//! The client's program: the interface through which the allocator reads
//! it, and the plain copy of it that the allocator works on.

use vstd::prelude::*;
use vstd::slice::slice_to_vec;
use crate::index::{Block, Inst, InstRange};
use crate::operand::Operand;
use crate::regs::{PReg, RegClass, VReg};

verus! {

/// What the allocator knows of one instruction.
pub struct InstModel {
    pub operands: Seq<Operand>,
    pub clobbers: Seq<PReg>,
    pub is_ret: bool,
    pub is_branch: bool,
    /// For a branch: the operand index at which the arguments for the
    /// successors' block parameters begin. Zero for every other instruction.
    pub branch_arg_offset: usize,
    pub requires_refs_on_stack: bool,
    pub is_move: Option<(Operand, Operand)>,
}

/// What the allocator knows of one block.
pub struct BlockModel {
    pub insns: InstRange,
    pub succs: Seq<Block>,
    pub preds: Seq<Block>,
    pub params: Seq<VReg>,
}

/// The client's program as the allocator sees it.
pub struct ProgramModel {
    pub insts: Seq<InstModel>,
    pub blocks: Seq<BlockModel>,
    pub entry: Block,
    pub num_vregs: usize,
    pub reftype_vregs: Seq<VReg>,
    pub debug_value_labels: Seq<(Inst, Inst, VReg, u32)>,
    /// The pinned vregs, and for each of them the register it is pinned to.
    pub pinned_vregs: Seq<VReg>,
    pub pinned_pregs: Seq<Option<PReg>>,
    pub spillslot_size_int: usize,
    pub spillslot_size_float: usize,
    pub multi_spillslot_named_by_last_slot: bool,
}

/// The register that the first entry for vreg id `id` at or after place
/// `k` of the pinned list pins it to, if there is such an entry.
pub open spec fn pin_from(
    vregs: Seq<VReg>,
    pregs: Seq<Option<PReg>>,
    id: usize,
    k: int,
) -> Option<PReg>
    decreases vregs.len() - k,
{
    if k < 0 || k >= vregs.len() || k >= pregs.len() {
        None
    } else if vregs[k].spec_vreg() == id {
        pregs[k]
    } else {
        pin_from(vregs, pregs, id, k + 1)
    }
}

impl ProgramModel {
    /// The register that the vreg with the given id is pinned to, if any.
    pub open spec fn pin_of(self, id: usize) -> Option<PReg> {
        pin_from(self.pinned_vregs, self.pinned_pregs, id, 0)
    }

    /// Every entry of the pinned list agrees with the first entry for its vreg.
    pub open spec fn pins_consistent(self) -> bool {
        forall|k: int|
            0 <= k < self.pinned_vregs.len() ==> #[trigger] self.pinned_pregs[k] == self.pin_of(
                self.pinned_vregs[k].spec_vreg(),
            )
    }

    /// The sizes within which every index of the program can be encoded:
    /// fewer than 2^30 instructions, and fewer than 2^21 vregs.
    pub open spec fn within_limits(self) -> bool {
        &&& self.insts.len() < 0x4000_0000
        &&& self.blocks.len() < 0x4000_0000
        &&& self.num_vregs <= VReg::MAX
        &&& self.pinned_pregs.len() == self.pinned_vregs.len()
    }

    /// The block ranges are in order and lie within the instructions.
    pub open spec fn ranges_in_bounds(self) -> bool {
        forall|b: int|
            0 <= b < self.blocks.len() ==> (#[trigger] self.blocks[b]).insns.wf()
                && self.blocks[b].insns.1.0 <= self.insts.len()
    }

    /// Whether instruction `i` is the last one of block `b`.
    pub open spec fn is_last_of(self, b: int, i: int) -> bool {
        &&& 0 <= b < self.blocks.len()
        &&& self.blocks[b].insns.spec_len() > 0
        &&& i == self.blocks[b].insns.1.0 - 1
    }

    /// Whether instruction `i` is a branch that ends some block.
    pub open spec fn is_block_end_branch(self, i: int) -> bool {
        &&& 0 <= i < self.insts.len()
        &&& self.insts[i].is_branch
        &&& exists|b: int| self.is_last_of(b, i)
    }

    /// An offset for block-parameter arguments is recorded only for
    /// branches that end a block.
    pub open spec fn offsets_normal(self) -> bool {
        forall|i: int|
            0 <= i < self.insts.len() && !self.is_block_end_branch(i) ==> (
            #[trigger] self.insts[i]).branch_arg_offset == 0
    }

    /// The form in which a program is written down: every pinned vreg
    /// of the list has its entry, the entries of one vreg agree, and an
    /// offset for block-parameter arguments is recorded only where the
    /// interface hands one out. This is a matter of how `model` is
    /// written, which no call through the interface can tell.
    pub open spec fn normal(self) -> bool {
        &&& self.pinned_pregs.len() == self.pinned_vregs.len()
        &&& self.offsets_normal()
        &&& self.pins_consistent()
    }

    /// What it takes to read the program through the `Function` interface.
    pub open spec fn readable(self) -> bool {
        &&& self.within_limits()
        &&& self.ranges_in_bounds()
        &&& self.offsets_normal()
        &&& self.pins_consistent()
    }
}

/// One instruction of a program, as plain data.
#[derive(Clone, Debug)]
pub struct InstData {
    pub operands: Vec<Operand>,
    pub clobbers: Vec<PReg>,
    pub is_ret: bool,
    pub is_branch: bool,
    pub branch_arg_offset: usize,
    pub requires_refs_on_stack: bool,
    pub is_move: Option<(Operand, Operand)>,
}

impl View for InstData {
    type V = InstModel;

    open spec fn view(&self) -> InstModel {
        InstModel {
            operands: self.operands@,
            clobbers: self.clobbers@,
            is_ret: self.is_ret,
            is_branch: self.is_branch,
            branch_arg_offset: self.branch_arg_offset,
            requires_refs_on_stack: self.requires_refs_on_stack,
            is_move: self.is_move,
        }
    }
}

/// One block of a program, as plain data.
#[derive(Clone, Debug)]
pub struct BlockData {
    pub insns: InstRange,
    pub succs: Vec<Block>,
    pub preds: Vec<Block>,
    pub params: Vec<VReg>,
}

impl View for BlockData {
    type V = BlockModel;

    open spec fn view(&self) -> BlockModel {
        BlockModel {
            insns: self.insns,
            succs: self.succs@,
            preds: self.preds@,
            params: self.params@,
        }
    }
}

/// A program as plain data: what the allocator works on.
#[derive(Clone, Debug)]
pub struct Program {
    pub insts: Vec<InstData>,
    pub blocks: Vec<BlockData>,
    pub entry: Block,
    pub num_vregs: usize,
    pub reftype_vregs: Vec<VReg>,
    pub debug_value_labels: Vec<(Inst, Inst, VReg, u32)>,
    pub pinned_vregs: Vec<VReg>,
    pub pinned_pregs: Vec<Option<PReg>>,
    pub spillslot_size_int: usize,
    pub spillslot_size_float: usize,
    pub multi_spillslot_named_by_last_slot: bool,
}

impl View for Program {
    type V = ProgramModel;

    open spec fn view(&self) -> ProgramModel {
        ProgramModel {
            insts: Seq::new(self.insts@.len(), |i: int| self.insts@[i]@),
            blocks: Seq::new(self.blocks@.len(), |b: int| self.blocks@[b]@),
            entry: self.entry,
            num_vregs: self.num_vregs,
            reftype_vregs: self.reftype_vregs@,
            debug_value_labels: self.debug_value_labels@,
            pinned_vregs: self.pinned_vregs@,
            pinned_pregs: self.pinned_pregs@,
            spillslot_size_int: self.spillslot_size_int,
            spillslot_size_float: self.spillslot_size_float,
            multi_spillslot_named_by_last_slot: self.multi_spillslot_named_by_last_slot,
        }
    }
}

/// The interface through which the allocator reads the client's program.
///
/// `model` says what program an implementation stands for, and every
/// method answers from it. An implementation that Verus has not read is
/// taken at its word.
pub trait Function {
    /// The program that this value stands for.
    open spec fn model(&self) -> ProgramModel {
        arbitrary()
    }

    /// How many instructions are there?
    fn num_insts(&self) -> (r: usize)
        ensures
            r == self.model().insts.len(),
    ;

    /// How many blocks are there?
    fn num_blocks(&self) -> (r: usize)
        ensures
            r == self.model().blocks.len(),
    ;

    /// Get the index of the entry block.
    fn entry_block(&self) -> (r: Block)
        ensures
            r == self.model().entry,
    ;

    /// Provide the range of instruction indices contained in each block.
    fn block_insns(&self, block: Block) -> (r: InstRange)
        requires
            block.0 < self.model().blocks.len(),
        ensures
            r == self.model().blocks[block.0 as int].insns,
    ;

    /// Get CFG successors for a given block.
    fn block_succs(&self, block: Block) -> (r: &[Block])
        requires
            block.0 < self.model().blocks.len(),
        ensures
            r@ == self.model().blocks[block.0 as int].succs,
    ;

    /// Get the CFG predecessors for a given block.
    fn block_preds(&self, block: Block) -> (r: &[Block])
        requires
            block.0 < self.model().blocks.len(),
        ensures
            r@ == self.model().blocks[block.0 as int].preds,
    ;

    /// Get the block parameters for a given block.
    fn block_params(&self, block: Block) -> (r: &[VReg])
        requires
            block.0 < self.model().blocks.len(),
        ensures
            r@ == self.model().blocks[block.0 as int].params,
    ;

    /// Determine whether an instruction is a return instruction.
    fn is_ret(&self, insn: Inst) -> (r: bool)
        requires
            insn.0 < self.model().insts.len(),
        ensures
            r == self.model().insts[insn.0 as int].is_ret,
    ;

    /// Determine whether an instruction is the end-of-block branch. If so,
    /// its operands from `branch_blockparam_arg_offset()` on are the
    /// arguments for the block parameters of the successors, in order.
    fn is_branch(&self, insn: Inst) -> (r: bool)
        requires
            insn.0 < self.model().insts.len(),
        ensures
            r == self.model().insts[insn.0 as int].is_branch,
    ;

    /// For the branch `insn` at the end of `block`: the operand index at
    /// which the outgoing blockparam arguments begin.
    fn branch_blockparam_arg_offset(&self, block: Block, insn: Inst) -> (r: usize)
        requires
            self.model().is_last_of(block.0 as int, insn.0 as int),
            insn.0 < self.model().insts.len(),
            self.model().insts[insn.0 as int].is_branch,
        ensures
            r == self.model().insts[insn.0 as int].branch_arg_offset,
    ;

    /// Determine whether an instruction requires all reference-typed
    /// values to be placed onto the stack.
    fn requires_refs_on_stack(&self, insn: Inst) -> (r: bool)
        requires
            insn.0 < self.model().insts.len(),
        ensures
            r == self.model().insts[insn.0 as int].requires_refs_on_stack,
    ;

    /// Determine whether an instruction is a move; if so, return the
    /// Operands for (src, dst).
    fn is_move(&self, insn: Inst) -> (r: Option<(Operand, Operand)>)
        requires
            insn.0 < self.model().insts.len(),
        ensures
            r == self.model().insts[insn.0 as int].is_move,
    ;

    /// Get the Operands for an instruction.
    fn inst_operands(&self, insn: Inst) -> (r: &[Operand])
        requires
            insn.0 < self.model().insts.len(),
        ensures
            r@ == self.model().insts[insn.0 as int].operands,
    ;

    /// Get the clobbers for an instruction: the registers that hold
    /// arbitrary values once the instruction has executed, apart from its
    /// outputs. No value that lives across the instruction is kept in one.
    fn inst_clobbers(&self, insn: Inst) -> (r: &[PReg])
        requires
            insn.0 < self.model().insts.len(),
        ensures
            r@ == self.model().insts[insn.0 as int].clobbers,
    ;

    /// Get the number of `VReg` in use in this function.
    fn num_vregs(&self) -> (r: usize)
        ensures
            r == self.model().num_vregs,
    ;

    /// Get the VRegs that are pointer/reference types. At every
    /// instruction that requires references on the stack, such a vreg is
    /// in a spill slot, and the slot is listed in the output.
    fn reftype_vregs(&self) -> (r: &[VReg])
        ensures
            r@ == self.model().reftype_vregs,
    ;

    /// Get the VRegs for which value-location metadata is wanted, each as
    /// (first instruction, end instruction, vreg, label).
    fn debug_value_labels(&self) -> (r: &[(Inst, Inst, VReg, u32)])
        ensures
            r@ == self.model().debug_value_labels,
    ;

    /// Is the given vreg pinned to a preg? If so, every mention of the
    /// vreg is allocated to that preg, and no other vreg gets it.
    fn is_pinned_vreg(&self, vreg: VReg) -> (r: Option<PReg>)
        requires
            self.model().pinned_pregs.len() == self.model().pinned_vregs.len(),
        ensures
            r == self.model().pin_of(vreg.spec_vreg()),
    ;

    /// Return a list of all pinned vregs.
    fn pinned_vregs(&self) -> (r: &[VReg])
        ensures
            r@ == self.model().pinned_vregs,
    ;

    /// How many logical spill slots does a value of the given class take?
    fn spillslot_size(&self, regclass: RegClass) -> (r: usize)
        ensures
            r == match regclass {
                RegClass::Int => self.model().spillslot_size_int,
                RegClass::Float => self.model().spillslot_size_float,
            },
    ;

    /// When a value takes several spill slots, is it named by the last of
    /// them rather than the first?
    fn multi_spillslot_named_by_last_slot(&self) -> (r: bool)
        ensures
            r == self.model().multi_spillslot_named_by_last_slot,
    ;
}

impl Function for Program {
    open spec fn model(&self) -> ProgramModel {
        self@
    }

    fn num_insts(&self) -> (r: usize) {
        self.insts.len()
    }

    fn num_blocks(&self) -> (r: usize) {
        self.blocks.len()
    }

    fn entry_block(&self) -> (r: Block) {
        self.entry
    }

    fn block_insns(&self, block: Block) -> (r: InstRange) {
        self.blocks[block.0 as usize].insns
    }

    fn block_succs(&self, block: Block) -> (r: &[Block]) {
        self.blocks[block.0 as usize].succs.as_slice()
    }

    fn block_preds(&self, block: Block) -> (r: &[Block]) {
        self.blocks[block.0 as usize].preds.as_slice()
    }

    fn block_params(&self, block: Block) -> (r: &[VReg]) {
        self.blocks[block.0 as usize].params.as_slice()
    }

    fn is_ret(&self, insn: Inst) -> (r: bool) {
        self.insts[insn.0 as usize].is_ret
    }

    fn is_branch(&self, insn: Inst) -> (r: bool) {
        self.insts[insn.0 as usize].is_branch
    }

    fn branch_blockparam_arg_offset(&self, block: Block, insn: Inst) -> (r: usize) {
        self.insts[insn.0 as usize].branch_arg_offset
    }

    fn requires_refs_on_stack(&self, insn: Inst) -> (r: bool) {
        self.insts[insn.0 as usize].requires_refs_on_stack
    }

    fn is_move(&self, insn: Inst) -> (r: Option<(Operand, Operand)>) {
        self.insts[insn.0 as usize].is_move
    }

    fn inst_operands(&self, insn: Inst) -> (r: &[Operand]) {
        self.insts[insn.0 as usize].operands.as_slice()
    }

    fn inst_clobbers(&self, insn: Inst) -> (r: &[PReg]) {
        self.insts[insn.0 as usize].clobbers.as_slice()
    }

    fn num_vregs(&self) -> (r: usize) {
        self.num_vregs
    }

    fn reftype_vregs(&self) -> (r: &[VReg]) {
        self.reftype_vregs.as_slice()
    }

    fn debug_value_labels(&self) -> (r: &[(Inst, Inst, VReg, u32)]) {
        self.debug_value_labels.as_slice()
    }

    fn is_pinned_vreg(&self, vreg: VReg) -> (r: Option<PReg>) {
        let id = vreg.vreg();
        let mut k: usize = 0;
        while k < self.pinned_vregs.len()
            invariant
                k <= self.pinned_vregs.len(),
                self.pinned_pregs.len() == self.pinned_vregs.len(),
                id == vreg.spec_vreg(),
                self@.pin_of(id) == pin_from(self.pinned_vregs@, self.pinned_pregs@, id, k as int),
            decreases self.pinned_vregs.len() - k,
        {
            if self.pinned_vregs[k].vreg() == id {
                return self.pinned_pregs[k];
            }
            k += 1;
        }
        None
    }

    fn pinned_vregs(&self) -> (r: &[VReg]) {
        self.pinned_vregs.as_slice()
    }

    fn spillslot_size(&self, regclass: RegClass) -> (r: usize) {
        match regclass {
            RegClass::Int => self.spillslot_size_int,
            RegClass::Float => self.spillslot_size_float,
        }
    }

    fn multi_spillslot_named_by_last_slot(&self) -> (r: bool) {
        self.multi_spillslot_named_by_last_slot
    }
}

impl Program {
    /// Read a program through the `Function` interface into plain data.
    pub fn capture<F: Function>(func: &F) -> (p: Program)
        requires
            func.model().readable(),
        ensures
            p@ == func.model(),
    {
        let ghost m = func.model();
        let num_insts = func.num_insts();
        let num_blocks = func.num_blocks();
        let mut insts: Vec<InstData> = Vec::new();
        let mut i: usize = 0;
        while i < num_insts
            invariant
                m == func.model(),
                m.readable(),
                num_insts == m.insts.len(),
                i <= num_insts,
                insts@.len() == i,
                forall|j: int|
                    0 <= j < i ==> (#[trigger] insts@[j])@ == (InstModel {
                        branch_arg_offset: 0,
                        ..m.insts[j]
                    }),
            decreases num_insts - i,
        {
            let insn = Inst::new(i);
            let data = InstData {
                operands: slice_to_vec(func.inst_operands(insn)),
                clobbers: slice_to_vec(func.inst_clobbers(insn)),
                is_ret: func.is_ret(insn),
                is_branch: func.is_branch(insn),
                branch_arg_offset: 0,
                requires_refs_on_stack: func.requires_refs_on_stack(insn),
                is_move: func.is_move(insn),
            };
            insts.push(data);
            i += 1;
        }
        let mut blocks: Vec<BlockData> = Vec::new();
        let mut b: usize = 0;
        while b < num_blocks
            invariant
                m == func.model(),
                m.readable(),
                num_insts == m.insts.len(),
                num_blocks == m.blocks.len(),
                b <= num_blocks,
                blocks@.len() == b,
                insts@.len() == num_insts,
                forall|c: int| 0 <= c < b ==> (#[trigger] blocks@[c])@ == m.blocks[c],
                forall|j: int|
                    0 <= j < num_insts ==> (#[trigger] insts@[j])@ == (InstModel {
                        branch_arg_offset: if exists|c: int| 0 <= c < b && m.is_last_of(c, j) {
                            m.insts[j].branch_arg_offset
                        } else {
                            0
                        },
                        ..m.insts[j]
                    }),
            decreases num_blocks - b,
        {
            let block = Block::new(b);
            let insns = func.block_insns(block);
            let data = BlockData {
                insns,
                succs: slice_to_vec(func.block_succs(block)),
                preds: slice_to_vec(func.block_preds(block)),
                params: slice_to_vec(func.block_params(block)),
            };
            let ghost before = insts@;
            if insns.len() > 0 {
                let last = insns.last();
                let li = last.0 as usize;
                assert(m.is_last_of(b as int, li as int));
                if insts[li].is_branch {
                    let offset = func.branch_blockparam_arg_offset(block, last);
                    let old_data = &insts[li];
                    let new_data = InstData {
                        operands: slice_to_vec(func.inst_operands(last)),
                        clobbers: slice_to_vec(func.inst_clobbers(last)),
                        is_ret: old_data.is_ret,
                        is_branch: old_data.is_branch,
                        branch_arg_offset: offset,
                        requires_refs_on_stack: old_data.requires_refs_on_stack,
                        is_move: old_data.is_move,
                    };
                    insts.set(li, new_data);
                } else {
                    assert(!m.is_block_end_branch(li as int));
                }
            }
            blocks.push(data);
            proof {
                assert forall|j: int| 0 <= j < num_insts implies (#[trigger] insts@[j])@ == (
                InstModel {
                    branch_arg_offset: if exists|c: int| 0 <= c < b + 1 && m.is_last_of(c, j) {
                        m.insts[j].branch_arg_offset
                    } else {
                        0
                    },
                    ..m.insts[j]
                }) by {
                    let had = exists|c: int| 0 <= c < b && m.is_last_of(c, j);
                    let has = exists|c: int| 0 <= c < b + 1 && m.is_last_of(c, j);
                    if m.is_last_of(b as int, j) {
                        assert(has);
                        if !m.insts[j].is_branch {
                            assert(!m.is_block_end_branch(j));
                        }
                    } else {
                        assert(insts@[j] == before[j]);
                        if has {
                            let c = choose|c: int| 0 <= c < b + 1 && m.is_last_of(c, j);
                            assert(0 <= c < b && m.is_last_of(c, j));
                        }
                        if had {
                            let c = choose|c: int| 0 <= c < b && m.is_last_of(c, j);
                            assert(0 <= c < b + 1 && m.is_last_of(c, j));
                        }
                    }
                }
            }
            b += 1;
        }
        let pinned_list = func.pinned_vregs();
        let mut pinned_pregs: Vec<Option<PReg>> = Vec::new();
        let mut k: usize = 0;
        while k < pinned_list.len()
            invariant
                m == func.model(),
                m.readable(),
                pinned_list@ == m.pinned_vregs,
                k <= pinned_list@.len(),
                pinned_pregs@.len() == k,
                forall|j: int| 0 <= j < k ==> #[trigger] pinned_pregs@[j] == m.pinned_pregs[j],
            decreases pinned_list@.len() - k,
        {
            let pin = func.is_pinned_vreg(pinned_list[k]);
            pinned_pregs.push(pin);
            k += 1;
        }
        let p = Program {
            insts,
            blocks,
            entry: func.entry_block(),
            num_vregs: func.num_vregs(),
            reftype_vregs: slice_to_vec(func.reftype_vregs()),
            debug_value_labels: slice_to_vec(func.debug_value_labels()),
            pinned_vregs: slice_to_vec(pinned_list),
            pinned_pregs,
            spillslot_size_int: func.spillslot_size(RegClass::Int),
            spillslot_size_float: func.spillslot_size(RegClass::Float),
            multi_spillslot_named_by_last_slot: func.multi_spillslot_named_by_last_slot(),
        };
        proof {
            assert forall|j: int| 0 <= j < num_insts implies (#[trigger] p.insts@[j])@
                == m.insts[j] by {
                if !(exists|c: int| 0 <= c < num_blocks && m.is_last_of(c, j)) {
                    assert(!m.is_block_end_branch(j));
                }
            }
            assert(p@.insts =~= m.insts);
            assert(p@.blocks =~= m.blocks);
            assert(p@.pinned_pregs =~= m.pinned_pregs);
        }
        p
    }

    /// Read a program through the `Function` interface into plain data,
    /// after testing what the reading takes: that the numbers of
    /// instructions, blocks and vregs are within the limits, and that
    /// the range of every block is in order and within the instructions.
    pub fn try_capture<F: Function>(func: &F) -> (r: Option<Program>)
        requires
            func.model().normal(),
        ensures
            r is Some <==> func.model().readable(),
            r is Some ==> r.unwrap()@ == func.model(),
    {
        let ghost m = func.model();
        let n = func.num_insts();
        let nb = func.num_blocks();
        if n >= 0x4000_0000 || nb >= 0x4000_0000 || func.num_vregs() > VReg::MAX {
            return None;
        }
        let mut b: usize = 0;
        while b < nb
            invariant
                m == func.model(),
                n == m.insts.len(),
                nb == m.blocks.len(),
                nb < 0x4000_0000,
                b <= nb,
                forall|c: int|
                    0 <= c < b ==> (#[trigger] m.blocks[c]).insns.wf() && m.blocks[c].insns.1.0 <= n,
            decreases nb - b,
        {
            let range = func.block_insns(Block::new(b));
            if range.0.0 > range.1.0 || range.1.0 as usize > n {
                assert(!(m.blocks[b as int].insns.wf() && m.blocks[b as int].insns.1.0 <= n));
                return None;
            }
            b += 1;
        }
        Some(Program::capture(func))
    }
}

} // verus!
