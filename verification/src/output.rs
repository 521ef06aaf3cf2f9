//! What the allocator hands back: allocations, edits, and errors.

use vstd::prelude::*;
use vstd::slice::slice_subrange;
use crate::allocation::Allocation;
use crate::index::{Block, Inst};
use crate::point::ProgPoint;
use crate::regs::{SpillSlot, VReg};

verus! {

/// An instruction to insert into the program to perform some data movement.
#[derive(Clone, Copy, Debug, PartialEq, Eq, Structural)]
pub enum Edit {
    /// Move one allocation to another. Each allocation may be a
    /// register or a stack slot, but never both are stack slots.
    ///
    /// `to_vreg`, if defined, says which vreg the moved value belongs to.
    Move { from: Allocation, to: Allocation, to_vreg: Option<VReg> },
    /// Define a particular Allocation to contain a particular VReg.
    DefAlloc { alloc: Allocation, vreg: VReg },
}

impl Edit {
    /// Whether the edit is a move from one stack slot to another.
    pub open spec fn spec_is_stack_to_stack(self) -> bool {
        match self {
            Edit::Move { from, to, .. } => from.spec_is_stack() && to.spec_is_stack(),
            Edit::DefAlloc { .. } => false,
        }
    }

    /// Whether the edit is a move from one stack slot to another.
    #[verifier::when_used_as_spec(spec_is_stack_to_stack)]
    pub fn is_stack_to_stack(self) -> (r: bool)
        ensures
            r == self.spec_is_stack_to_stack(),
    {
        match self {
            Edit::Move { from, to, .. } => from.is_stack() && to.is_stack(),
            Edit::DefAlloc { .. } => false,
        }
    }
}

/// Counts that the allocator keeps of its own work.
#[derive(Clone, Copy, Debug, PartialEq, Eq, Default, Structural)]
pub struct Stats {
    /// How many passes over the blocks the liveness analysis took.
    pub livein_iterations: usize,
    /// How many vregs live in a physical register.
    pub vregs_in_registers: usize,
    /// How many vregs live in a spill slot.
    pub vregs_spilled: usize,
    /// How many edits were made.
    pub edits_count: usize,
}

/// The output of the register allocator.
#[derive(Clone, Debug)]
pub struct Output {
    /// How many spillslots are needed in the frame?
    pub num_spillslots: usize,
    /// Edits (insertions or removals). Guaranteed to be sorted by
    /// program point.
    pub edits: Vec<(ProgPoint, Edit)>,
    /// Allocations for each operand. Mapping from instruction to
    /// allocations provided by `inst_alloc_offsets` below.
    pub allocs: Vec<Allocation>,
    /// Allocation offset in `allocs` for each instruction.
    pub inst_alloc_offsets: Vec<u32>,
    /// Safepoint records: at a given program point, a reference-typed
    /// value lives in the given SpillSlot.
    pub safepoint_slots: Vec<(ProgPoint, SpillSlot)>,
    /// Debug info: a labeled value is located in the given allocation
    /// from the first program point (inclusive) to the second
    /// (exclusive). Sorted by label and program point, and the ranges of
    /// one label are disjoint.
    pub debug_locations: Vec<(u32, ProgPoint, ProgPoint, Allocation)>,
    /// Internal stats from the allocator.
    pub stats: Stats,
}

impl Output {
    /// Where the allocations of instruction `i` begin in `allocs`.
    pub open spec fn alloc_start(&self, i: int) -> int {
        self.inst_alloc_offsets@[i] as int
    }

    /// Where the allocations of instruction `i` end in `allocs`: at the
    /// start of the next instruction, or at the end for the last one.
    pub open spec fn alloc_end(&self, i: int) -> int {
        if i + 1 == self.inst_alloc_offsets@.len() {
            self.allocs@.len() as int
        } else {
            self.inst_alloc_offsets@[i + 1] as int
        }
    }

    /// The allocations of instruction `i`, one for each of its operands.
    pub open spec fn spec_inst_allocs(&self, i: int) -> Seq<Allocation> {
        self.allocs@.subrange(self.alloc_start(i), self.alloc_end(i))
    }

    /// Get the allocations assigned to a given instruction.
    pub fn inst_allocs(&self, inst: Inst) -> (r: &[Allocation])
        requires
            inst.0 < self.inst_alloc_offsets@.len(),
            self.alloc_start(inst.0 as int) <= self.alloc_end(inst.0 as int) <= self.allocs@.len(),
        ensures
            r@ == self.spec_inst_allocs(inst.0 as int),
    {
        let index = inst.0 as usize;
        let start = self.inst_alloc_offsets[index] as usize;
        let end = if index == self.inst_alloc_offsets.len() - 1 {
            self.allocs.len()
        } else {
            self.inst_alloc_offsets[index + 1] as usize
        };
        slice_subrange(self.allocs.as_slice(), start, end)
    }
}

/// An error that prevents allocation.
#[derive(Clone, Copy, Debug, PartialEq, Eq, Structural)]
pub enum RegAllocError {
    /// Critical edge is not split between given blocks.
    CritEdge(Block, Block),
    /// Invalid SSA for given vreg at given inst: multiple defs or
    /// illegal use. `inst` is `Inst::invalid()` if this concerns
    /// a block param.
    SSA(VReg, Inst),
    /// Invalid basic block: does not end in branch/ret, or contains a
    /// branch/ret in the middle.
    BB(Block),
    /// Invalid branch: operand count does not match sum of block
    /// params of successor blocks.
    Branch(Inst),
    /// A VReg is live-in on entry; this is not allowed.
    EntryLivein,
    /// A branch has non-blockparam arg(s) and at least one of the
    /// successor blocks has more than one predecessor, forcing
    /// edge-moves before this branch.
    DisallowedBranchArg(Inst),
    /// Too many pinned VRegs + Reg-constrained Operands are live at
    /// once, making allocation impossible.
    TooManyLiveRegs,
}

/// Options for allocation.
#[derive(Clone, Copy, Debug, Default)]
pub struct RegallocOptions {
    /// Add extra verbosity to debug logs. It changes nothing in the result.
    pub verbose_log: bool,
}

} // verus!
