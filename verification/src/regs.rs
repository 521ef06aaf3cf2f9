//! Register classes, physical and virtual registers, and spill slots.

use vstd::prelude::*;

verus! {

/// Register classes. Every value belongs to exactly one of the two.
#[derive(Clone, Copy, Debug, PartialEq, Eq, PartialOrd, Ord, Hash, Structural)]
pub enum RegClass {
    Int,
    Float,
}

impl RegClass {
    /// The bit that stands for the class in every packed encoding.
    pub open spec fn spec_bit(self) -> nat {
        match self {
            RegClass::Int => 0,
            RegClass::Float => 1,
        }
    }

    /// The class that a bit value stands for: zero is `Int`, anything else `Float`.
    pub open spec fn spec_from_bit(bit: nat) -> RegClass {
        if bit == 0 {
            RegClass::Int
        } else {
            RegClass::Float
        }
    }

    pub(crate) fn bit(self) -> (r: u32)
        ensures
            r == self.spec_bit(),
            r <= 1,
    {
        match self {
            RegClass::Int => 0,
            RegClass::Float => 1,
        }
    }

    pub(crate) fn from_bit(bit: u32) -> (r: RegClass)
        ensures
            r == Self::spec_from_bit(bit as nat),
    {
        if bit == 0 {
            RegClass::Int
        } else {
            RegClass::Float
        }
    }
}

/// A physical register: a hardware encoding below 64 and a class.
///
/// `hw_enc` lives in an index space per class; `index` puts both classes
/// into one dense space of 128 entries, the class being the high bit.
#[derive(Clone, Copy, Debug, PartialEq, Eq, PartialOrd, Ord, Hash, Structural)]
pub struct PReg {
    hw_enc: u8,
    class: RegClass,
}

impl PReg {
    pub const MAX_BITS: usize = 6;

    pub const MAX: usize = 63;

    pub const MAX_INDEX: usize = 128;

    /// Every physical register that executable code holds has an encoding below 64.
    #[verifier::type_invariant]
    pub closed spec fn wf(self) -> bool {
        self.hw_enc < 64
    }

    pub closed spec fn spec_hw_enc(self) -> usize {
        self.hw_enc as usize
    }

    pub closed spec fn spec_class(self) -> RegClass {
        self.class
    }

    /// `class * 64 + hw_enc`.
    pub open spec fn spec_index(self) -> usize {
        (self.spec_class().spec_bit() * 64 + self.spec_hw_enc()) as usize
    }

    /// The register with the given encoding and class.
    pub closed spec fn spec_new(hw_enc: nat, class: RegClass) -> PReg {
        PReg { hw_enc: hw_enc as u8, class }
    }

    /// The register at a place of the dense index space.
    pub open spec fn spec_from_index(index: nat) -> PReg {
        Self::spec_new(index % 64, RegClass::spec_from_bit(index / 64))
    }

    /// Create a new PReg. The encoding must fit in 6 bits.
    pub fn new(hw_enc: usize, class: RegClass) -> (r: Self)
        requires
            hw_enc <= Self::MAX,
        ensures
            r == Self::spec_new(hw_enc as nat, class),
            r.wf(),
            r.spec_hw_enc() == hw_enc,
            r.spec_class() == class,
    {
        PReg { hw_enc: hw_enc as u8, class }
    }

    /// The physical register number, as the ISA encodes it within its class.
    #[verifier::when_used_as_spec(spec_hw_enc)]
    pub fn hw_enc(self) -> (r: usize)
        ensures
            r == self.spec_hw_enc(),
            r < 64,
    {
        proof {
            use_type_invariant(&self);
        }
        self.hw_enc as usize
    }

    /// The register class.
    #[verifier::when_used_as_spec(spec_class)]
    pub fn class(self) -> (r: RegClass)
        ensures
            r == self.spec_class(),
    {
        self.class
    }

    /// The place of this register in the index space shared by both classes.
    #[verifier::when_used_as_spec(spec_index)]
    pub fn index(self) -> (r: usize)
        ensures
            r == self.spec_index(),
            r < Self::MAX_INDEX,
    {
        proof {
            use_type_invariant(&self);
        }
        let c: usize = self.class.bit() as usize;
        let h: usize = self.hw_enc as usize;
        assert((c << 6) | h == c * 64 + h) by (bit_vector)
            requires
                c <= 1,
                h < 64,
        ;
        (c << 6) | h
    }

    /// Construct a PReg from the value returned from `.index()`.
    pub fn from_index(index: usize) -> (r: Self)
        requires
            index < Self::MAX_INDEX,
        ensures
            r == Self::spec_from_index(index as nat),
            r.wf(),
            r.spec_index() == index,
    {
        let c: usize = (index >> 6) & 1;
        let h: usize = index & Self::MAX;
        assert(c == index / 64 && h == index % 64 && h <= 63) by (bit_vector)
            requires
                index < 128,
                c == (index >> 6) & 1,
                h == index & 63,
        ;
        let class = RegClass::from_bit(c as u32);
        PReg::new(h, class)
    }

    /// The "invalid PReg": a reserved pattern to fill data structures with.
    pub fn invalid() -> (r: Self)
        ensures
            r == Self::spec_new(63, RegClass::Int),
            r.wf(),
    {
        PReg::new(Self::MAX, RegClass::Int)
    }
}

/// Decoding a register built from an encoding below 64 gives back the
/// encoding, the class, and `class * 64 + hw_enc` as its index.
pub proof fn lemma_preg_new_fields(hw_enc: nat, class: RegClass)
    requires
        hw_enc < 64,
    ensures
        PReg::spec_new(hw_enc, class).wf(),
        PReg::spec_new(hw_enc, class).spec_hw_enc() == hw_enc,
        PReg::spec_new(hw_enc, class).spec_class() == class,
        PReg::spec_new(hw_enc, class).spec_index() == class.spec_bit() * 64 + hw_enc,
        PReg::spec_new(hw_enc, class).spec_index() < 128,
{
}

/// `from_index` inverts `index`: a well-formed register is the one found at its own index.
pub proof fn lemma_preg_from_index_inverts_index(p: PReg)
    requires
        p.wf(),
    ensures
        PReg::spec_from_index(p.spec_index() as nat) == p,
{
}

/// `index` inverts `from_index` on the whole index space.
pub proof fn lemma_preg_index_inverts_from_index(index: nat)
    requires
        index < 128,
    ensures
        PReg::spec_from_index(index).wf(),
        PReg::spec_from_index(index).spec_index() == index,
{
}

/// A well-formed register is determined by its encoding and class.
pub proof fn lemma_preg_determined(p: PReg)
    requires
        p.wf(),
    ensures
        p == PReg::spec_new(p.spec_hw_enc() as nat, p.spec_class()),
        p.spec_hw_enc() < 64,
        p.spec_index() < 128,
{
}

/// Two well-formed registers with the same index are the same register.
pub proof fn lemma_preg_index_injective(p: PReg, q: PReg)
    requires
        p.wf(),
        q.wf(),
        p.spec_index() == q.spec_index(),
    ensures
        p == q,
{
}

/// A virtual register: an id of 21 bits and a class, packed into 32 bits.
///
/// All dataflow of the client's program goes through virtual registers.
#[derive(Clone, Copy, Debug, PartialEq, Eq, PartialOrd, Ord, Hash, Structural)]
pub struct VReg {
    bits: u32,
}

impl VReg {
    pub const MAX_BITS: usize = 21;

    pub const MAX: usize = 0x1f_ffff;

    /// The packed value holds an id of 21 bits above the class bit, and nothing else.
    #[verifier::type_invariant]
    pub closed spec fn wf(self) -> bool {
        self.bits < 0x40_0000
    }

    pub closed spec fn spec_vreg(self) -> usize {
        (self.bits / 2) as usize
    }

    pub closed spec fn spec_class(self) -> RegClass {
        RegClass::spec_from_bit((self.bits % 2) as nat)
    }

    /// The virtual register with the given id and class.
    pub closed spec fn spec_new(virt_reg: nat, class: RegClass) -> VReg {
        VReg { bits: (virt_reg * 2 + class.spec_bit()) as u32 }
    }

    /// The reserved virtual register: the largest id, class `Int`.
    pub open spec fn spec_invalid() -> VReg {
        Self::spec_new(Self::MAX as nat, RegClass::Int)
    }

    /// Create a virtual register. The id must fit in 21 bits.
    pub fn new(virt_reg: usize, class: RegClass) -> (r: Self)
        requires
            virt_reg <= Self::MAX,
        ensures
            r == Self::spec_new(virt_reg as nat, class),
            r.wf(),
            r.spec_vreg() == virt_reg,
            r.spec_class() == class,
    {
        let v: u32 = virt_reg as u32;
        let c: u32 = class.bit();
        assert((v << 1) | c == v * 2 + c && v * 2 + c < 0x40_0000) by (bit_vector)
            requires
                v <= 0x1f_ffff,
                c <= 1,
        ;
        VReg { bits: (v << 1) | c }
    }

    /// The id of this virtual register.
    #[verifier::when_used_as_spec(spec_vreg)]
    pub fn vreg(self) -> (r: usize)
        ensures
            r == self.spec_vreg(),
            r <= Self::MAX,
    {
        proof {
            use_type_invariant(&self);
        }
        let b: u32 = self.bits;
        assert(b >> 1 == b / 2) by (bit_vector);
        (b >> 1) as usize
    }

    /// The register class.
    #[verifier::when_used_as_spec(spec_class)]
    pub fn class(self) -> (r: RegClass)
        ensures
            r == self.spec_class(),
    {
        let b: u32 = self.bits;
        assert(b & 1 == b % 2) by (bit_vector);
        RegClass::from_bit(b & 1)
    }

    /// The reserved "invalid" virtual register.
    pub fn invalid() -> (r: Self)
        ensures
            r == Self::spec_invalid(),
            r.wf(),
            r.spec_vreg() == Self::MAX,
            r.spec_class() == RegClass::Int,
    {
        VReg::new(Self::MAX, RegClass::Int)
    }
}

/// Decoding a virtual register built from an id of at most 21 bits gives back id and class.
pub proof fn lemma_vreg_new_fields(virt_reg: nat, class: RegClass)
    requires
        virt_reg <= VReg::MAX,
    ensures
        VReg::spec_new(virt_reg, class).wf(),
        VReg::spec_new(virt_reg, class).spec_vreg() == virt_reg,
        VReg::spec_new(virt_reg, class).spec_class() == class,
{
}

/// A well-formed virtual register is determined by its id and class.
pub proof fn lemma_vreg_determined(v: VReg)
    requires
        v.wf(),
    ensures
        v == VReg::spec_new(v.spec_vreg() as nat, v.spec_class()),
        v.spec_vreg() <= VReg::MAX,
{
}

/// A spill slot: a place in the stack frame where the allocator keeps a value.
///
/// A slot index of 24 bits and a class; the all-ones pattern is the
/// "invalid" slot, which differs from every slot that `new` makes.
#[derive(Clone, Copy, Debug, PartialEq, Eq, PartialOrd, Ord, Hash, Structural)]
pub struct SpillSlot {
    bits: u32,
}

impl SpillSlot {
    /// Either a slot index of 24 bits below a class bit, or the all-ones pattern.
    #[verifier::type_invariant]
    pub closed spec fn wf(self) -> bool {
        self.bits < 0x200_0000 || self.bits == 0xffff_ffff
    }

    pub closed spec fn spec_index(self) -> usize {
        (self.bits % 0x100_0000) as usize
    }

    /// The class of a valid slot.
    pub closed spec fn spec_class(self) -> RegClass {
        RegClass::spec_from_bit((self.bits / 0x100_0000) as nat)
    }

    pub closed spec fn spec_is_valid(self) -> bool {
        self.bits != 0xffff_ffff
    }

    pub open spec fn spec_is_invalid(self) -> bool {
        !self.spec_is_valid()
    }

    /// The slot with the given index and class.
    pub closed spec fn spec_new(slot: nat, class: RegClass) -> SpillSlot {
        SpillSlot { bits: (slot + class.spec_bit() * 0x100_0000) as u32 }
    }

    pub closed spec fn spec_invalid() -> SpillSlot {
        SpillSlot { bits: 0xffff_ffff }
    }

    /// The packed value: for a valid slot, `class * 2^24 + index`.
    pub closed spec fn spec_bits(self) -> u32 {
        self.bits
    }

    pub closed spec fn spec_from_bits(bits: u32) -> SpillSlot {
        SpillSlot { bits }
    }

    pub(crate) fn to_bits(self) -> (r: u32)
        ensures
            r == self.spec_bits(),
            self.spec_is_valid() ==> r < 0x200_0000,
    {
        proof {
            use_type_invariant(&self);
        }
        self.bits
    }

    pub(crate) fn from_bits(bits: u32) -> (r: SpillSlot)
        requires
            bits < 0x200_0000,
        ensures
            r == Self::spec_from_bits(bits),
            r.wf(),
            r.spec_is_valid(),
    {
        SpillSlot { bits }
    }

    /// Create a new SpillSlot of a given class. The index must fit in 24 bits.
    pub fn new(slot: usize, class: RegClass) -> (r: Self)
        requires
            slot < 0x100_0000,
        ensures
            r == Self::spec_new(slot as nat, class),
            r.wf(),
            r.spec_is_valid(),
            r.spec_index() == slot,
            r.spec_class() == class,
            r.spec_bits() == slot + class.spec_bit() * 0x100_0000,
    {
        let s: u32 = slot as u32;
        let c: u32 = class.bit();
        assert(s | (c << 24) == s + c * 0x100_0000 && s + c * 0x100_0000 < 0x200_0000) by (bit_vector)
            requires
                s < 0x100_0000,
                c <= 1,
        ;
        SpillSlot { bits: s | (c << 24) }
    }

    /// Get the spillslot index for this spillslot.
    #[verifier::when_used_as_spec(spec_index)]
    pub fn index(self) -> (r: usize)
        ensures
            r == self.spec_index(),
            r < 0x100_0000,
    {
        let b: u32 = self.bits;
        assert(b & 0x00ff_ffff == b % 0x100_0000) by (bit_vector);
        (b & 0x00ff_ffff) as usize
    }

    /// Get the class for this spillslot. The invalid slot has none.
    #[verifier::when_used_as_spec(spec_class)]
    pub fn class(self) -> (r: RegClass)
        requires
            self.spec_is_valid(),
        ensures
            r == self.spec_class(),
    {
        proof {
            use_type_invariant(&self);
        }
        let b: u32 = self.bits;
        assert(b >> 24 == b / 0x100_0000) by (bit_vector);
        RegClass::from_bit(b >> 24)
    }

    /// Get the spillslot `offset` slots away.
    pub fn plus(self, offset: usize) -> (r: Self)
        requires
            self.spec_is_valid(),
            self.spec_index() + offset < 0x100_0000,
        ensures
            r == Self::spec_new((self.spec_index() + offset) as nat, self.spec_class()),
            r.spec_is_valid(),
            r.spec_index() == self.spec_index() + offset,
            r.spec_class() == self.spec_class(),
    {
        SpillSlot::new(self.index() + offset, self.class())
    }

    /// Get the invalid spillslot, used for initializing data structures.
    pub fn invalid() -> (r: Self)
        ensures
            r == Self::spec_invalid(),
            r.wf(),
            !r.spec_is_valid(),
            r.spec_bits() == 0xffff_ffff,
    {
        SpillSlot { bits: 0xffff_ffff }
    }

    /// Is this the invalid spillslot?
    #[verifier::when_used_as_spec(spec_is_invalid)]
    pub fn is_invalid(self) -> (r: bool)
        ensures
            r == !self.spec_is_valid(),
            r == (self == Self::spec_invalid()),
    {
        self.bits == 0xffff_ffff
    }

    /// Is this a valid spillslot (not `SpillSlot::invalid()`)?
    #[verifier::when_used_as_spec(spec_is_valid)]
    pub fn is_valid(self) -> (r: bool)
        ensures
            r == self.spec_is_valid(),
            r == (self != Self::spec_invalid()),
    {
        self.bits != 0xffff_ffff
    }
}

/// Decoding a slot built from an index of 24 bits gives back index and class,
/// the slot is not the invalid one, and its packed value is the index
/// with the class at bit 24.
pub proof fn lemma_spillslot_new_fields(slot: nat, class: RegClass)
    requires
        slot < 0x100_0000,
    ensures
        SpillSlot::spec_new(slot, class).spec_bits() == slot + class.spec_bit() * 0x100_0000,
        SpillSlot::spec_invalid().spec_bits() == 0xffff_ffff,
        SpillSlot::spec_new(slot, class).wf(),
        SpillSlot::spec_new(slot, class).spec_is_valid(),
        SpillSlot::spec_new(slot, class).spec_index() == slot,
        SpillSlot::spec_new(slot, class).spec_class() == class,
        SpillSlot::spec_new(slot, class) != SpillSlot::spec_invalid(),
{
}

/// The packed value of a valid slot is below 2^25 and determines the slot;
/// every value below 2^25 is the packed value of a valid slot.
pub proof fn lemma_spillslot_bits(s: SpillSlot, bits: u32)
    ensures
        SpillSlot::spec_from_bits(s.spec_bits()) == s,
        SpillSlot::spec_from_bits(bits).spec_bits() == bits,
        s.wf() && s.spec_is_valid() ==> s.spec_bits() < 0x200_0000,
        bits < 0x200_0000 ==> SpillSlot::spec_from_bits(bits).wf() && SpillSlot::spec_from_bits(
            bits,
        ).spec_is_valid(),
{
}

/// A valid well-formed slot is determined by its index and class.
pub proof fn lemma_spillslot_determined(s: SpillSlot)
    requires
        s.wf(),
        s.spec_is_valid(),
    ensures
        s == SpillSlot::spec_new(s.spec_index() as nat, s.spec_class()),
{
}

} // verus!
