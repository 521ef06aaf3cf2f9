//! Operands: one mention of a virtual register by an instruction, packed into 32 bits.

use vstd::prelude::*;
use crate::regs::{lemma_preg_determined, lemma_preg_new_fields, lemma_vreg_determined, lemma_vreg_new_fields, PReg, RegClass, VReg};

verus! {

/// Where the value of a virtual register must be at one mention of it.
#[derive(Clone, Copy, Debug, PartialEq, Eq, Structural)]
pub enum OperandConstraint {
    /// Any location is fine (register or stack slot).
    Any,
    /// Operand must be in a register. Register is read-only for Uses.
    Reg,
    /// Operand must be on the stack.
    Stack,
    /// Operand must be in a fixed register.
    FixedReg(PReg),
    /// On defs only: reuse the location of the use with this operand index.
    Reuse(usize),
}

/// Whether an operand reads a vreg (Use), writes it (Def), or reads and then writes (Mod).
#[derive(Clone, Copy, Debug, PartialEq, Eq, Structural)]
pub enum OperandKind {
    Def,
    Mod,
    Use,
}

impl OperandKind {
    pub open spec fn spec_code(self) -> nat {
        match self {
            OperandKind::Def => 0,
            OperandKind::Mod => 1,
            OperandKind::Use => 2,
        }
    }

    pub open spec fn spec_from_code(code: nat) -> OperandKind {
        if code == 0 {
            OperandKind::Def
        } else if code == 1 {
            OperandKind::Mod
        } else {
            OperandKind::Use
        }
    }

    fn code(self) -> (r: u32)
        ensures
            r == self.spec_code(),
            r <= 2,
    {
        match self {
            OperandKind::Def => 0,
            OperandKind::Mod => 1,
            OperandKind::Use => 2,
        }
    }
}

/// Where in the instruction an operand has its effect: before the
/// instruction's work (Early) or after it (Late).
#[derive(Clone, Copy, Debug, PartialEq, Eq, Structural)]
pub enum OperandPos {
    Early,
    Late,
}

impl OperandPos {
    pub open spec fn spec_code(self) -> nat {
        match self {
            OperandPos::Early => 0,
            OperandPos::Late => 1,
        }
    }

    pub open spec fn spec_from_code(code: nat) -> OperandPos {
        if code == 0 {
            OperandPos::Early
        } else {
            OperandPos::Late
        }
    }

    fn code(self) -> (r: u32)
        ensures
            r == self.spec_code(),
            r <= 1,
    {
        match self {
            OperandPos::Early => 0,
            OperandPos::Late => 1,
        }
    }
}

/// What `Operand::new` asks of a constraint: a fixed register has the class
/// of the vreg, and a reuse index is below 32.
pub open spec fn constraint_fits(vreg: VReg, constraint: OperandConstraint) -> bool {
    match constraint {
        OperandConstraint::FixedReg(preg) => preg.wf() && preg.spec_class() == vreg.spec_class(),
        OperandConstraint::Reuse(which) => which <= 31,
        _ => true,
    }
}

/// The 7-bit field that encodes a constraint.
///
/// - 1xxxxxx: FixedReg, the low six bits being the hardware encoding
/// - 01xxxxx: Reuse, the low five bits being the operand index
/// - 0000000: Any, 0000001: Reg, 0000010: Stack
pub open spec fn constraint_field(constraint: OperandConstraint) -> nat {
    match constraint {
        OperandConstraint::Any => 0,
        OperandConstraint::Reg => 1,
        OperandConstraint::Stack => 2,
        OperandConstraint::FixedReg(preg) => (64 + preg.spec_hw_enc()) as nat,
        OperandConstraint::Reuse(which) => (32 + which) as nat,
    }
}

/// One mention of a virtual register in an instruction: the vreg, and the
/// constraint, kind and position that hold at this mention.
///
/// Packed into 32 bits as `constraint:7 kind:2 pos:1 class:1 vreg:21`.
#[derive(Clone, Copy, Debug, PartialEq, Eq, PartialOrd, Ord, Hash, Structural)]
pub struct Operand {
    bits: u32,
}

impl Operand {
    /// Which 32-bit values encode an operand: the kind field is not 3, and the
    /// constraint field is one of the five forms.
    pub open spec fn spec_valid_bits(bits: u32) -> bool {
        &&& (bits / 0x80_0000) % 4 <= 2
        &&& (bits / 0x200_0000 <= 2 || bits / 0x200_0000 >= 32)
    }

    #[verifier::type_invariant]
    pub closed spec fn wf(self) -> bool {
        Self::spec_valid_bits(self.bits)
    }

    pub closed spec fn spec_bits(self) -> u32 {
        self.bits
    }

    pub closed spec fn spec_from_bits(bits: u32) -> Operand {
        Operand { bits }
    }

    pub closed spec fn spec_class(self) -> RegClass {
        RegClass::spec_from_bit(((self.bits / 0x20_0000) % 2) as nat)
    }

    pub closed spec fn spec_vreg(self) -> VReg {
        VReg::spec_new((self.bits % 0x20_0000) as nat, self.spec_class())
    }

    pub closed spec fn spec_pos(self) -> OperandPos {
        OperandPos::spec_from_code(((self.bits / 0x40_0000) % 2) as nat)
    }

    pub closed spec fn spec_kind(self) -> OperandKind {
        OperandKind::spec_from_code(((self.bits / 0x80_0000) % 4) as nat)
    }

    pub closed spec fn spec_constraint(self) -> OperandConstraint {
        let field = self.bits / 0x200_0000;
        if field >= 64 {
            OperandConstraint::FixedReg(PReg::spec_new((field % 64) as nat, self.spec_class()))
        } else if field >= 32 {
            OperandConstraint::Reuse((field % 32) as usize)
        } else if field == 0 {
            OperandConstraint::Any
        } else if field == 1 {
            OperandConstraint::Reg
        } else {
            OperandConstraint::Stack
        }
    }

    /// The operand with the given fields.
    pub closed spec fn spec_new(
        vreg: VReg,
        constraint: OperandConstraint,
        kind: OperandKind,
        pos: OperandPos,
    ) -> Operand {
        Operand {
            bits: (vreg.spec_vreg() + vreg.spec_class().spec_bit() * 0x20_0000 + pos.spec_code()
                * 0x40_0000 + kind.spec_code() * 0x80_0000 + constraint_field(constraint)
                * 0x200_0000) as u32,
        }
    }

    /// Construct a new operand.
    pub fn new(vreg: VReg, constraint: OperandConstraint, kind: OperandKind, pos: OperandPos) -> (r:
        Self)
        requires
            constraint_fits(vreg, constraint),
        ensures
            r == Self::spec_new(vreg, constraint, kind, pos),
            r.wf(),
            r.spec_vreg() == vreg,
            r.spec_class() == vreg.spec_class(),
            r.spec_constraint() == constraint,
            r.spec_kind() == kind,
            r.spec_pos() == pos,
            r.spec_bits() == vreg.spec_vreg() + vreg.spec_class().spec_bit() * 0x20_0000
                + pos.spec_code() * 0x40_0000 + kind.spec_code() * 0x80_0000 + constraint_field(
                constraint,
            ) * 0x200_0000,
    {
        let constraint_field: u32 = match constraint {
            OperandConstraint::Any => 0,
            OperandConstraint::Reg => 1,
            OperandConstraint::Stack => 2,
            OperandConstraint::FixedReg(preg) => {
                let h: u32 = preg.hw_enc() as u32;
                assert(0b100_0000u32 | h == 64 + h) by (bit_vector)
                    requires
                        h < 64,
                ;
                0b100_0000 | h
            },
            OperandConstraint::Reuse(which) => {
                let w: u32 = which as u32;
                assert(0b010_0000u32 | w == 32 + w) by (bit_vector)
                    requires
                        w < 32,
                ;
                0b010_0000 | w
            },
        };
        let id: u32 = vreg.vreg() as u32;
        let class_field: u32 = vreg.class().bit();
        let pos_field: u32 = pos.code();
        let kind_field: u32 = kind.code();
        let bits: u32 = id | (class_field << 21) | (pos_field << 22) | (kind_field << 23) | (
        constraint_field << 25);
        assert(bits == id + class_field * 0x20_0000 + pos_field * 0x40_0000 + kind_field * 0x80_0000
            + constraint_field * 0x200_0000) by (bit_vector)
            requires
                bits == id | (class_field << 21) | (pos_field << 22) | (kind_field << 23) | (
                constraint_field << 25),
                id <= 0x1f_ffff,
                class_field <= 1,
                pos_field <= 1,
                kind_field <= 2,
                constraint_field < 128,
        ;
        proof {
            use_type_invariant(&vreg);
            lemma_operand_new_fields(vreg, constraint, kind, pos);
        }
        Operand { bits }
    }

    /// A use of a vreg that must be in a register, read before the
    /// instruction's work, so that a result may overwrite it.
    pub fn reg_use(vreg: VReg) -> (r: Self)
        ensures
            r == Self::spec_new(vreg, OperandConstraint::Reg, OperandKind::Use, OperandPos::Early),
            r.spec_vreg() == vreg,
            r.spec_constraint() == OperandConstraint::Reg,
            r.spec_kind() == OperandKind::Use,
            r.spec_pos() == OperandPos::Early,
    {
        Operand::new(vreg, OperandConstraint::Reg, OperandKind::Use, OperandPos::Early)
    }

    /// A use of a vreg that must be in a register and is read until the end
    /// of the instruction, so that it conflicts with every result.
    pub fn reg_use_at_end(vreg: VReg) -> (r: Self)
        ensures
            r == Self::spec_new(vreg, OperandConstraint::Reg, OperandKind::Use, OperandPos::Late),
            r.spec_vreg() == vreg,
            r.spec_constraint() == OperandConstraint::Reg,
            r.spec_kind() == OperandKind::Use,
            r.spec_pos() == OperandPos::Late,
    {
        Operand::new(vreg, OperandConstraint::Reg, OperandKind::Use, OperandPos::Late)
    }

    /// A definition of a vreg that must be in a register, written after the
    /// instruction's work, so that it may take the register of an input.
    pub fn reg_def(vreg: VReg) -> (r: Self)
        ensures
            r == Self::spec_new(vreg, OperandConstraint::Reg, OperandKind::Def, OperandPos::Late),
            r.spec_vreg() == vreg,
            r.spec_constraint() == OperandConstraint::Reg,
            r.spec_kind() == OperandKind::Def,
            r.spec_pos() == OperandPos::Late,
    {
        Operand::new(vreg, OperandConstraint::Reg, OperandKind::Def, OperandPos::Late)
    }

    /// A definition of a vreg that must be in a register and is written at
    /// the start of the instruction, so that it conflicts with every input.
    pub fn reg_def_at_start(vreg: VReg) -> (r: Self)
        ensures
            r == Self::spec_new(vreg, OperandConstraint::Reg, OperandKind::Def, OperandPos::Early),
            r.spec_vreg() == vreg,
            r.spec_constraint() == OperandConstraint::Reg,
            r.spec_kind() == OperandKind::Def,
            r.spec_pos() == OperandPos::Early,
    {
        Operand::new(vreg, OperandConstraint::Reg, OperandKind::Def, OperandPos::Early)
    }

    /// A temporary within the instruction: a register that the instruction
    /// writes and that conflicts with every input and output. It is the same
    /// operand as a definition at the start.
    pub fn reg_temp(vreg: VReg) -> (r: Self)
        ensures
            r == Self::spec_new(vreg, OperandConstraint::Reg, OperandKind::Def, OperandPos::Early),
            r.spec_vreg() == vreg,
            r.spec_constraint() == OperandConstraint::Reg,
            r.spec_kind() == OperandKind::Def,
            r.spec_pos() == OperandPos::Early,
    {
        Operand::new(vreg, OperandConstraint::Reg, OperandKind::Def, OperandPos::Early)
    }

    /// A definition of a vreg that must take the location of the input
    /// that is the `idx`th operand of the instruction.
    pub fn reg_reuse_def(vreg: VReg, idx: usize) -> (r: Self)
        requires
            idx <= 31,
        ensures
            r == Self::spec_new(
                vreg,
                OperandConstraint::Reuse(idx),
                OperandKind::Def,
                OperandPos::Late,
            ),
            r.spec_vreg() == vreg,
            r.spec_constraint() == OperandConstraint::Reuse(idx),
            r.spec_kind() == OperandKind::Def,
            r.spec_pos() == OperandPos::Late,
    {
        Operand::new(vreg, OperandConstraint::Reuse(idx), OperandKind::Def, OperandPos::Late)
    }

    /// A use of a vreg that is placed in the given physical register at the use.
    pub fn reg_fixed_use(vreg: VReg, preg: PReg) -> (r: Self)
        requires
            preg.spec_class() == vreg.spec_class(),
        ensures
            r == Self::spec_new(
                vreg,
                OperandConstraint::FixedReg(preg),
                OperandKind::Use,
                OperandPos::Early,
            ),
            r.spec_vreg() == vreg,
            r.spec_constraint() == OperandConstraint::FixedReg(preg),
            r.spec_kind() == OperandKind::Use,
            r.spec_pos() == OperandPos::Early,
    {
        proof {
            use_type_invariant(&preg);
        }
        Operand::new(vreg, OperandConstraint::FixedReg(preg), OperandKind::Use, OperandPos::Early)
    }

    /// A definition of a vreg that is placed in the given physical register at the def.
    pub fn reg_fixed_def(vreg: VReg, preg: PReg) -> (r: Self)
        requires
            preg.spec_class() == vreg.spec_class(),
        ensures
            r == Self::spec_new(
                vreg,
                OperandConstraint::FixedReg(preg),
                OperandKind::Def,
                OperandPos::Late,
            ),
            r.spec_vreg() == vreg,
            r.spec_constraint() == OperandConstraint::FixedReg(preg),
            r.spec_kind() == OperandKind::Def,
            r.spec_pos() == OperandPos::Late,
    {
        proof {
            use_type_invariant(&preg);
        }
        Operand::new(vreg, OperandConstraint::FixedReg(preg), OperandKind::Def, OperandPos::Late)
    }

    /// The virtual register that the operand names.
    #[verifier::when_used_as_spec(spec_vreg)]
    pub fn vreg(self) -> (r: VReg)
        ensures
            r == self.spec_vreg(),
            r.wf(),
            r.spec_class() == self.spec_class(),
    {
        let b: u32 = self.bits;
        let id: u32 = b & 0x1f_ffff;
        assert(id == b % 0x20_0000 && id <= 0x1f_ffff) by (bit_vector)
            requires
                id == b & 0x1f_ffff,
        ;
        VReg::new(id as usize, self.class())
    }

    /// The register class of the operand's vreg.
    #[verifier::when_used_as_spec(spec_class)]
    pub fn class(self) -> (r: RegClass)
        ensures
            r == self.spec_class(),
    {
        let b: u32 = self.bits;
        let class_field: u32 = (b >> 21) & 1;
        assert(class_field == (b / 0x20_0000) % 2) by (bit_vector)
            requires
                class_field == (b >> 21) & 1,
        ;
        RegClass::from_bit(class_field)
    }

    /// The kind of the operand: a definition, a use, or a modification.
    #[verifier::when_used_as_spec(spec_kind)]
    pub fn kind(self) -> (r: OperandKind)
        ensures
            r == self.spec_kind(),
    {
        proof {
            use_type_invariant(&self);
        }
        let b: u32 = self.bits;
        let kind_field: u32 = (b >> 23) & 3;
        assert(kind_field == (b / 0x80_0000) % 4) by (bit_vector)
            requires
                kind_field == (b >> 23) & 3,
        ;
        if kind_field == 0 {
            OperandKind::Def
        } else if kind_field == 1 {
            OperandKind::Mod
        } else {
            OperandKind::Use
        }
    }

    /// The position of the operand: where its read or write takes place.
    #[verifier::when_used_as_spec(spec_pos)]
    pub fn pos(self) -> (r: OperandPos)
        ensures
            r == self.spec_pos(),
    {
        let b: u32 = self.bits;
        let pos_field: u32 = (b >> 22) & 1;
        assert(pos_field == (b / 0x40_0000) % 2) by (bit_vector)
            requires
                pos_field == (b >> 22) & 1,
        ;
        if pos_field == 0 {
            OperandPos::Early
        } else {
            OperandPos::Late
        }
    }

    /// The constraint of the operand: what its allocation must fulfil.
    #[verifier::when_used_as_spec(spec_constraint)]
    pub fn constraint(self) -> (r: OperandConstraint)
        ensures
            r == self.spec_constraint(),
            constraint_fits(self.spec_vreg(), r),
    {
        proof {
            use_type_invariant(&self);
            lemma_operand_fields_fit(self);
        }
        let b: u32 = self.bits;
        let field: u32 = (b >> 25) & 127;
        let hw: u32 = field & 0b011_1111;
        let which: u32 = field & 0b001_1111;
        assert(field == b / 0x200_0000 && hw == field % 64 && which == field % 32 && ((field
            & 0b100_0000) != 0 <==> field >= 64) && ((field & 0b010_0000) != 0 <==> field % 64
            >= 32)) by (bit_vector)
            requires
                field == (b >> 25) & 127,
                hw == field & 0b011_1111,
                which == field & 0b001_1111,
        ;
        if field & 0b100_0000 != 0 {
            OperandConstraint::FixedReg(PReg::new(hw as usize, self.class()))
        } else if field & 0b010_0000 != 0 {
            OperandConstraint::Reuse(which as usize)
        } else if field == 0 {
            OperandConstraint::Any
        } else if field == 1 {
            OperandConstraint::Reg
        } else {
            OperandConstraint::Stack
        }
    }

    /// The raw 32-bit encoding of this operand's fields.
    #[verifier::when_used_as_spec(spec_bits)]
    pub fn bits(self) -> (r: u32)
        ensures
            r == self.spec_bits(),
            Self::spec_valid_bits(r),
            Self::spec_from_bits(r) == self,
    {
        proof {
            use_type_invariant(&self);
        }
        self.bits
    }

    /// Construct an `Operand` from the raw 32-bit encoding that `bits()` returns.
    pub fn from_bits(bits: u32) -> (r: Self)
        requires
            Self::spec_valid_bits(bits),
        ensures
            r == Self::spec_from_bits(bits),
            r.wf(),
            r.spec_bits() == bits,
    {
        Operand { bits }
    }
}

/// An operand built from a vreg and a constraint that fits it gives back,
/// through its accessors, every field it was built from, and its packed
/// value is the sum of the fields, each at its place: the vreg's number,
/// the class at bit 21, the position at bit 22, the kind at bit 23 and
/// the field of the constraint from bit 25 on.
pub proof fn lemma_operand_new_fields(
    vreg: VReg,
    constraint: OperandConstraint,
    kind: OperandKind,
    pos: OperandPos,
)
    requires
        vreg.wf(),
        constraint_fits(vreg, constraint),
    ensures
        Operand::spec_new(vreg, constraint, kind, pos).wf(),
        Operand::spec_new(vreg, constraint, kind, pos).spec_vreg() == vreg,
        Operand::spec_new(vreg, constraint, kind, pos).spec_class() == vreg.spec_class(),
        Operand::spec_new(vreg, constraint, kind, pos).spec_constraint() == constraint,
        Operand::spec_new(vreg, constraint, kind, pos).spec_kind() == kind,
        Operand::spec_new(vreg, constraint, kind, pos).spec_pos() == pos,
        Operand::spec_new(vreg, constraint, kind, pos).spec_bits() == vreg.spec_vreg()
            + vreg.spec_class().spec_bit() * 0x20_0000 + pos.spec_code() * 0x40_0000
            + kind.spec_code() * 0x80_0000 + constraint_field(constraint) * 0x200_0000,
{
    lemma_vreg_determined(vreg);
    let id = vreg.spec_vreg() as int;
    let c = vreg.spec_class().spec_bit() as int;
    let p = pos.spec_code() as int;
    let k = kind.spec_code() as int;
    let f = constraint_field(constraint) as int;
    match constraint {
        OperandConstraint::FixedReg(preg) => {
            lemma_preg_determined(preg);
        },
        _ => {},
    }
    assert(0 <= f < 128);
    let total = id + c * 0x20_0000 + p * 0x40_0000 + k * 0x80_0000 + f * 0x200_0000;
    assert(0 <= total < 0x1_0000_0000);
    let bits = total as u32;
    assert(Operand::spec_new(vreg, constraint, kind, pos).spec_bits() == bits);
    assert(bits % 0x20_0000 == id);
    assert((bits / 0x20_0000) % 2 == c);
    assert((bits / 0x40_0000) % 2 == p);
    assert((bits / 0x80_0000) % 4 == k);
    assert(bits / 0x200_0000 == f);
}

/// The fields of a well-formed operand are a well-formed vreg and a
/// constraint that fits it, and the operand is the one built from its fields.
pub proof fn lemma_operand_fields_fit(op: Operand)
    requires
        op.wf(),
    ensures
        op.spec_vreg().wf(),
        op.spec_vreg().spec_class() == op.spec_class(),
        constraint_fits(op.spec_vreg(), op.spec_constraint()),
        op == Operand::spec_new(op.spec_vreg(), op.spec_constraint(), op.spec_kind(), op.spec_pos()),
{
    let bits = op.spec_bits();
    let id = bits % 0x20_0000;
    let c = (bits / 0x20_0000) % 2;
    let p = (bits / 0x40_0000) % 2;
    let k = (bits / 0x80_0000) % 4;
    let f = bits / 0x200_0000;
    assert(bits == id + c * 0x20_0000 + p * 0x40_0000 + k * 0x80_0000 + f * 0x200_0000 && f < 128
        && (f >= 64 ==> f == 64 + f % 64) && (32 <= f < 64 ==> f == 32 + f % 32)) by (bit_vector)
        requires
            id == bits % 0x20_0000,
            c == (bits / 0x20_0000) % 2,
            p == (bits / 0x40_0000) % 2,
            k == (bits / 0x80_0000) % 4,
            f == bits / 0x200_0000,
    ;
    lemma_vreg_new_fields(id as nat, op.spec_class());
    if f >= 64 {
        lemma_preg_new_fields((f % 64) as nat, op.spec_class());
    }
    assert(op.spec_vreg().spec_vreg() == id);
    assert(op.spec_vreg().spec_class().spec_bit() == c);
    assert(op.spec_pos().spec_code() == p);
    assert(op.spec_kind().spec_code() == k);
    assert(constraint_field(op.spec_constraint()) == f);
}

/// An operand goes through its bit encoding and back unchanged.
pub proof fn lemma_operand_bits_round_trip(op: Operand)
    ensures
        Operand::spec_from_bits(op.spec_bits()) == op,
        op.wf() ==> Operand::spec_valid_bits(op.spec_bits()),
{
}

/// A valid bit pattern goes through an operand and back unchanged.
pub proof fn lemma_operand_from_bits_round_trip(bits: u32)
    ensures
        Operand::spec_from_bits(bits).spec_bits() == bits,
        Operand::spec_valid_bits(bits) ==> Operand::spec_from_bits(bits).wf(),
{
}

} // verus!
