//! Allocations: where the allocator puts an operand, packed into 32 bits.

use vstd::prelude::*;
use crate::regs::{lemma_spillslot_bits, PReg, RegClass, SpillSlot};

verus! {

/// An allocation is one of two kinds, register or stack, or it is the
/// "none" allocation, whose kind is `Unassigned`.
#[derive(Clone, Copy, Debug, PartialEq, Eq, PartialOrd, Ord, Hash, Structural)]
pub enum AllocationKind {
    Unassigned,
    Reg,
    Stack,
}

impl AllocationKind {
    pub open spec fn spec_code(self) -> nat {
        match self {
            AllocationKind::Unassigned => 0,
            AllocationKind::Reg => 1,
            AllocationKind::Stack => 2,
        }
    }

    pub open spec fn spec_from_code(code: nat) -> AllocationKind {
        if code == 0 {
            AllocationKind::Unassigned
        } else if code == 1 {
            AllocationKind::Reg
        } else {
            AllocationKind::Stack
        }
    }

    fn code(self) -> (r: u32)
        ensures
            r == self.spec_code(),
            r <= 2,
    {
        match self {
            AllocationKind::Unassigned => 0,
            AllocationKind::Reg => 1,
            AllocationKind::Stack => 2,
        }
    }
}

/// Which index goes with which kind: none has index 0, a register its
/// index below 128, a stack slot its packed value below 2^25.
pub open spec fn index_fits(kind: AllocationKind, index: nat) -> bool {
    match kind {
        AllocationKind::Unassigned => index == 0,
        AllocationKind::Reg => index < 128,
        AllocationKind::Stack => index < 0x200_0000,
    }
}

/// The end result of allocation for one operand: a physical register, a
/// spill slot, or nothing.
///
/// Packed into 32 bits as `kind:3 unused:1 index:28`.
#[derive(Clone, Copy, Debug, PartialEq, Eq, PartialOrd, Ord, Hash, Structural)]
pub struct Allocation {
    bits: u32,
}

impl Allocation {
    /// Which 32-bit values encode an allocation.
    pub open spec fn spec_valid_bits(bits: u32) -> bool {
        &&& bits / 0x2000_0000 <= 2
        &&& index_fits(
            AllocationKind::spec_from_code((bits / 0x2000_0000) as nat),
            (bits % 0x2000_0000) as nat,
        )
    }

    #[verifier::type_invariant]
    pub closed spec fn wf(self) -> bool {
        Self::spec_valid_bits(self.bits)
    }

    pub closed spec fn spec_bits(self) -> u32 {
        self.bits
    }

    pub closed spec fn spec_from_bits(bits: u32) -> Allocation {
        Allocation { bits }
    }

    pub closed spec fn spec_kind(self) -> AllocationKind {
        AllocationKind::spec_from_code((self.bits / 0x2000_0000) as nat)
    }

    pub closed spec fn spec_index(self) -> usize {
        (self.bits % 0x1000_0000) as usize
    }

    /// The allocation of the given kind and index.
    pub closed spec fn spec_new(kind: AllocationKind, index: nat) -> Allocation {
        Allocation { bits: (kind.spec_code() * 0x2000_0000 + index) as u32 }
    }

    pub open spec fn spec_none() -> Allocation {
        Self::spec_new(AllocationKind::Unassigned, 0)
    }

    pub open spec fn spec_reg(preg: PReg) -> Allocation {
        Self::spec_new(AllocationKind::Reg, preg.spec_index() as nat)
    }

    pub open spec fn spec_stack(slot: SpillSlot) -> Allocation {
        Self::spec_new(AllocationKind::Stack, slot.spec_bits() as nat)
    }

    pub open spec fn spec_is_none(self) -> bool {
        self.spec_kind() == AllocationKind::Unassigned
    }

    pub open spec fn spec_is_some(self) -> bool {
        self.spec_kind() != AllocationKind::Unassigned
    }

    pub open spec fn spec_is_reg(self) -> bool {
        self.spec_kind() == AllocationKind::Reg
    }

    pub open spec fn spec_is_stack(self) -> bool {
        self.spec_kind() == AllocationKind::Stack
    }

    pub open spec fn spec_as_reg(self) -> Option<PReg> {
        if self.spec_kind() == AllocationKind::Reg {
            Some(PReg::spec_from_index(self.spec_index() as nat))
        } else {
            None
        }
    }

    pub open spec fn spec_as_stack(self) -> Option<SpillSlot> {
        if self.spec_kind() == AllocationKind::Stack {
            Some(SpillSlot::spec_from_bits(self.spec_index() as u32))
        } else {
            None
        }
    }

    /// The class of the register or slot of an allocation that is not none.
    pub open spec fn spec_class(self) -> RegClass {
        match self.spec_kind() {
            AllocationKind::Stack => self.spec_as_stack().unwrap().spec_class(),
            _ => self.spec_as_reg().unwrap().spec_class(),
        }
    }

    /// Construct a new Allocation.
    pub(crate) fn new(kind: AllocationKind, index: usize) -> (r: Self)
        requires
            index_fits(kind, index as nat),
        ensures
            r == Self::spec_new(kind, index as nat),
            r.wf(),
            r.spec_kind() == kind,
            r.spec_index() == index,
            r.spec_bits() == kind.spec_code() * 0x2000_0000 + index,
    {
        let k: u32 = kind.code();
        let i: u32 = index as u32;
        assert((k << 29) | i == k * 0x2000_0000 + i && ((k << 29) | i) / 0x2000_0000 == k && ((k
            << 29) | i) % 0x2000_0000 == i && ((k << 29) | i) % 0x1000_0000 == i) by (bit_vector)
            requires
                k <= 2,
                i < 0x200_0000,
        ;
        Self { bits: (k << 29) | i }
    }

    /// The "none" allocation, which differs from every register and stack allocation.
    pub fn none() -> (r: Allocation)
        ensures
            r == Self::spec_none(),
            r.wf(),
            r.spec_kind() == AllocationKind::Unassigned,
            r.spec_index() == 0,
            r.spec_bits() == 0,
    {
        Allocation::new(AllocationKind::Unassigned, 0)
    }

    /// Create an allocation into a register.
    pub fn reg(preg: PReg) -> (r: Allocation)
        ensures
            r == Self::spec_reg(preg),
            r.wf(),
            r.spec_kind() == AllocationKind::Reg,
            r.spec_index() == preg.spec_index(),
            r.spec_as_reg() == Some(preg),
            r.spec_bits() == 0x2000_0000 + preg.spec_index(),
    {
        proof {
            use_type_invariant(&preg);
            crate::regs::lemma_preg_from_index_inverts_index(preg);
        }
        Allocation::new(AllocationKind::Reg, preg.index())
    }

    /// Create an allocation into a spillslot. The slot must be a valid one.
    pub fn stack(slot: SpillSlot) -> (r: Allocation)
        requires
            slot.spec_is_valid(),
        ensures
            r == Self::spec_stack(slot),
            r.wf(),
            r.spec_kind() == AllocationKind::Stack,
            r.spec_index() == slot.spec_bits(),
            r.spec_as_stack() == Some(slot),
            r.spec_bits() == 0x4000_0000 + slot.spec_bits(),
    {
        proof {
            lemma_spillslot_bits(slot, 0);
        }
        Allocation::new(AllocationKind::Stack, slot.to_bits() as usize)
    }

    /// Get the allocation's "kind": none, register, or stack (spillslot).
    #[verifier::when_used_as_spec(spec_kind)]
    pub fn kind(self) -> (r: AllocationKind)
        ensures
            r == self.spec_kind(),
    {
        proof {
            use_type_invariant(&self);
        }
        let b: u32 = self.bits;
        let k: u32 = (b >> 29) & 7;
        assert(k == b / 0x2000_0000) by (bit_vector)
            requires
                k == (b >> 29) & 7,
        ;
        if k == 0 {
            AllocationKind::Unassigned
        } else if k == 1 {
            AllocationKind::Reg
        } else {
            AllocationKind::Stack
        }
    }

    /// Is the allocation "none"?
    #[verifier::when_used_as_spec(spec_is_none)]
    pub fn is_none(self) -> (r: bool)
        ensures
            r == self.spec_is_none(),
    {
        self.kind() == AllocationKind::Unassigned
    }

    /// Is the allocation not "none"?
    #[verifier::when_used_as_spec(spec_is_some)]
    pub fn is_some(self) -> (r: bool)
        ensures
            r == self.spec_is_some(),
    {
        self.kind() != AllocationKind::Unassigned
    }

    /// Is the allocation a register?
    #[verifier::when_used_as_spec(spec_is_reg)]
    pub fn is_reg(self) -> (r: bool)
        ensures
            r == self.spec_is_reg(),
    {
        self.kind() == AllocationKind::Reg
    }

    /// Is the allocation on the stack (a spillslot)?
    #[verifier::when_used_as_spec(spec_is_stack)]
    pub fn is_stack(self) -> (r: bool)
        ensures
            r == self.spec_is_stack(),
    {
        self.kind() == AllocationKind::Stack
    }

    /// The index of the register, as `PReg::from_index` takes it, or the
    /// packed value of the spillslot.
    #[verifier::when_used_as_spec(spec_index)]
    pub fn index(self) -> (r: usize)
        ensures
            r == self.spec_index(),
            index_fits(self.spec_kind(), r as nat),
    {
        proof {
            use_type_invariant(&self);
        }
        let b: u32 = self.bits;
        let i: u32 = b & 0x0fff_ffff;
        assert(i == b % 0x1000_0000 && (b % 0x2000_0000 < 0x1000_0000 ==> i == b % 0x2000_0000))
            by (bit_vector)
            requires
                i == b & 0x0fff_ffff,
        ;
        i as usize
    }

    /// Get the allocation as a physical register, if any.
    #[verifier::when_used_as_spec(spec_as_reg)]
    pub fn as_reg(self) -> (r: Option<PReg>)
        ensures
            r == self.spec_as_reg(),
            r is Some <==> self.spec_kind() == AllocationKind::Reg,
            r is Some ==> r.unwrap().wf() && r.unwrap().spec_index() == self.spec_index(),
    {
        if self.kind() == AllocationKind::Reg {
            Some(PReg::from_index(self.index()))
        } else {
            None
        }
    }

    /// Get the allocation as a spillslot, if any.
    #[verifier::when_used_as_spec(spec_as_stack)]
    pub fn as_stack(self) -> (r: Option<SpillSlot>)
        ensures
            r == self.spec_as_stack(),
            r is Some <==> self.spec_kind() == AllocationKind::Stack,
            r is Some ==> r.unwrap().wf() && r.unwrap().spec_is_valid() && r.unwrap().spec_bits()
                == self.spec_index(),
    {
        if self.kind() == AllocationKind::Stack {
            let index = self.index();
            proof {
                lemma_spillslot_bits(SpillSlot::spec_invalid(), index as u32);
            }
            Some(SpillSlot::from_bits(index as u32))
        } else {
            None
        }
    }

    /// Get the raw bits for the packed encoding of this allocation.
    #[verifier::when_used_as_spec(spec_bits)]
    pub fn bits(self) -> (r: u32)
        ensures
            r == self.spec_bits(),
            Self::spec_valid_bits(r),
            Self::spec_from_bits(r) == self,
    {
        proof {
            use_type_invariant(&self);
        }
        self.bits
    }

    /// Construct an allocation from its packed encoding.
    pub fn from_bits(bits: u32) -> (r: Self)
        requires
            Self::spec_valid_bits(bits),
        ensures
            r == Self::spec_from_bits(bits),
            r.wf(),
            r.spec_bits() == bits,
    {
        Self { bits }
    }

    /// Get the register class of an allocation's value. "None" has no class.
    #[verifier::when_used_as_spec(spec_class)]
    pub fn class(self) -> (r: RegClass)
        requires
            self.spec_kind() != AllocationKind::Unassigned,
        ensures
            r == self.spec_class(),
    {
        match self.kind() {
            AllocationKind::Stack => self.as_stack().unwrap().class(),
            _ => self.as_reg().unwrap().class(),
        }
    }
}

/// An allocation built from a kind and an index that fits it gives back
/// both, and its packed value is the index with the kind from bit 29 on.
pub proof fn lemma_allocation_new_fields(kind: AllocationKind, index: nat)
    requires
        index_fits(kind, index),
    ensures
        Allocation::spec_new(kind, index).wf(),
        Allocation::spec_new(kind, index).spec_kind() == kind,
        Allocation::spec_new(kind, index).spec_index() == index,
        Allocation::spec_new(kind, index).spec_bits() == kind.spec_code() * 0x2000_0000 + index,
{
}

/// A well-formed allocation is the one built from its kind and index, and the index fits the kind.
pub proof fn lemma_allocation_determined(a: Allocation)
    requires
        a.wf(),
    ensures
        a == Allocation::spec_new(a.spec_kind(), a.spec_index() as nat),
        index_fits(a.spec_kind(), a.spec_index() as nat),
{
}

/// An allocation goes through its bit encoding and back unchanged, and the
/// encoding of a well-formed allocation is a valid one.
pub proof fn lemma_allocation_bits_round_trip(a: Allocation)
    ensures
        Allocation::spec_from_bits(a.spec_bits()) == a,
        a.wf() ==> Allocation::spec_valid_bits(a.spec_bits()),
{
}

/// A valid bit pattern goes through an allocation and back unchanged.
pub proof fn lemma_allocation_from_bits_round_trip(bits: u32)
    ensures
        Allocation::spec_from_bits(bits).spec_bits() == bits,
        Allocation::spec_valid_bits(bits) ==> Allocation::spec_from_bits(bits).wf(),
{
}

/// The "none" allocation differs from every register and every stack allocation.
pub proof fn lemma_allocation_none_distinct(preg: PReg, slot: SpillSlot)
    requires
        preg.wf(),
        slot.wf(),
        slot.spec_is_valid(),
    ensures
        Allocation::spec_none() != Allocation::spec_reg(preg),
        Allocation::spec_none() != Allocation::spec_stack(slot),
        Allocation::spec_reg(preg) != Allocation::spec_stack(slot),
        Allocation::spec_none().spec_kind() == AllocationKind::Unassigned,
        Allocation::spec_reg(preg).spec_kind() == AllocationKind::Reg,
        Allocation::spec_stack(slot).spec_kind() == AllocationKind::Stack,
{
    crate::regs::lemma_preg_determined(preg);
    lemma_spillslot_bits(slot, 0);
    lemma_allocation_new_fields(AllocationKind::Unassigned, 0);
    lemma_allocation_new_fields(AllocationKind::Reg, preg.spec_index() as nat);
    lemma_allocation_new_fields(AllocationKind::Stack, slot.spec_bits() as nat);
}

/// A register allocation gives back its register, and a stack allocation its slot.
pub proof fn lemma_allocation_reg_stack_round_trip(preg: PReg, slot: SpillSlot)
    requires
        preg.wf(),
        slot.wf(),
        slot.spec_is_valid(),
    ensures
        Allocation::spec_reg(preg).wf(),
        Allocation::spec_reg(preg).spec_as_reg() == Some(preg),
        Allocation::spec_reg(preg).spec_as_stack() == None::<SpillSlot>,
        Allocation::spec_stack(slot).wf(),
        Allocation::spec_stack(slot).spec_as_stack() == Some(slot),
        Allocation::spec_stack(slot).spec_as_reg() == None::<PReg>,
{
    crate::regs::lemma_preg_determined(preg);
    crate::regs::lemma_preg_from_index_inverts_index(preg);
    lemma_spillslot_bits(slot, 0);
    lemma_allocation_new_fields(AllocationKind::Reg, preg.spec_index() as nat);
    lemma_allocation_new_fields(AllocationKind::Stack, slot.spec_bits() as nat);
}

} // verus!
