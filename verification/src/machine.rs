//! The machine environment: which registers the allocator may use.

use vstd::prelude::*;
use crate::regs::{PReg, RegClass};

verus! {

/// A machine environment tells the register allocator which registers
/// are available to allocate and what register may be used as a
/// scratch register for each class.
#[derive(Clone, Debug)]
pub struct MachineEnv {
    /// Physical registers. Every register that a constraint may mention
    /// is listed here, allocatable or not.
    pub regs: Vec<PReg>,
    /// Preferred physical registers for each class: the ones that are
    /// allocated first, if free.
    pub preferred_regs_by_class: [Vec<PReg>; 2],
    /// Non-preferred physical registers for each class: allocated if no
    /// preferred register is free, and still better than a spill.
    pub non_preferred_regs_by_class: [Vec<PReg>; 2],
    /// One scratch register per class, used to carry out cyclic moves.
    /// The allocator never allocates it, whether or not a list names it,
    /// and uses it only between instructions.
    pub scratch_by_class: [PReg; 2],
}

/// Whether one of the first `j` registers of the list is the one at `index`.
pub open spec fn listed_upto(list: Seq<PReg>, j: int, index: int) -> bool
    decreases j,
{
    j > 0 && (listed_upto(list, j - 1, index) || list[j - 1].spec_index() == index)
}

/// A register that is found among the first `j` of a list stands at some place of it.
pub proof fn lemma_listed_upto(list: Seq<PReg>, j: int, index: int) -> (at: int)
    requires
        listed_upto(list, j, index),
    ensures
        0 <= at < j,
        list[at].spec_index() == index,
    decreases j,
{
    if list[j - 1].spec_index() == index {
        j - 1
    } else {
        lemma_listed_upto(list, j - 1, index)
    }
}

impl MachineEnv {
    /// The registers listed for a class, preferred ones first.
    pub open spec fn listed(&self, class: RegClass) -> Seq<PReg> {
        self.preferred_regs_by_class[class.spec_bit() as int]@
            + self.non_preferred_regs_by_class[class.spec_bit() as int]@
    }

    /// The scratch register of a class.
    pub open spec fn scratch(&self, class: RegClass) -> PReg {
        self.scratch_by_class[class.spec_bit() as int]
    }

    /// Whether the register at `index` of the index space may be
    /// allocated to a value of the given class: it is of that class,
    /// listed for it, and not its scratch register.
    pub open spec fn allocatable(&self, class: RegClass, index: int) -> bool {
        &&& 0 <= index < 128
        &&& index / 64 == class.spec_bit()
        &&& index != self.scratch(class).spec_index()
        &&& listed_upto(self.listed(class), self.listed(class).len() as int, index)
    }
}

} // verus!
