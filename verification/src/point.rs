//! Program points: the places before and after each instruction.

use vstd::prelude::*;
use crate::index::Inst;

verus! {

/// A position before or after an instruction at which an edit can be made.
#[derive(Clone, Copy, Debug, PartialEq, Eq, PartialOrd, Ord, Hash, Structural)]
pub enum InstPosition {
    Before,
    After,
}

impl InstPosition {
    pub open spec fn spec_code(self) -> nat {
        match self {
            InstPosition::Before => 0,
            InstPosition::After => 1,
        }
    }

    fn code(self) -> (r: u32)
        ensures
            r == self.spec_code(),
            r <= 1,
    {
        match self {
            InstPosition::Before => 0,
            InstPosition::After => 1,
        }
    }
}

/// A program point: a single point before or after a given instruction.
///
/// The points are ordered by their index, which is twice the instruction's
/// index, plus one for the point after it: every instruction has two
/// adjacent points, and the point after an instruction comes just before
/// the point before the next one.
#[derive(Clone, Copy, Debug, PartialEq, Eq, PartialOrd, Ord, Hash, Structural)]
pub struct ProgPoint {
    bits: u32,
}

impl ProgPoint {
    pub closed spec fn spec_to_index(self) -> u32 {
        self.bits
    }

    pub closed spec fn spec_from_index(index: u32) -> ProgPoint {
        ProgPoint { bits: index }
    }

    /// The point at the given position of the given instruction. Of the
    /// instruction's index the low 31 bits count.
    pub open spec fn spec_new(inst: Inst, pos: InstPosition) -> ProgPoint {
        Self::spec_from_index(((inst.0 % 0x8000_0000) * 2 + pos.spec_code()) as u32)
    }

    pub open spec fn spec_before(inst: Inst) -> ProgPoint {
        Self::spec_new(inst, InstPosition::Before)
    }

    pub open spec fn spec_after(inst: Inst) -> ProgPoint {
        Self::spec_new(inst, InstPosition::After)
    }

    /// The instruction of a point: half its index, with the top bit kept, so
    /// that the points of the invalid instruction give the invalid instruction.
    pub open spec fn spec_inst(self) -> Inst {
        if self.spec_to_index() < 0x8000_0000 {
            Inst(self.spec_to_index() / 2)
        } else {
            Inst((self.spec_to_index() / 2 + 0x8000_0000) as u32)
        }
    }

    pub open spec fn spec_pos(self) -> InstPosition {
        if self.spec_to_index() % 2 == 0 {
            InstPosition::Before
        } else {
            InstPosition::After
        }
    }

    pub open spec fn spec_next(self) -> ProgPoint {
        Self::spec_from_index((self.spec_to_index() + 1) as u32)
    }

    pub open spec fn spec_prev(self) -> ProgPoint {
        Self::spec_from_index((self.spec_to_index() - 1) as u32)
    }

    /// Create a new ProgPoint before or after the given instruction.
    pub fn new(inst: Inst, pos: InstPosition) -> (r: Self)
        ensures
            r == Self::spec_new(inst, pos),
            inst.0 < 0x8000_0000 ==> r.spec_to_index() == inst.0 * 2 + pos.spec_code(),
            inst.0 < 0x4000_0000 || inst.spec_is_invalid() ==> r.spec_inst() == inst,
            r.spec_pos() == pos,
    {
        let i: u32 = inst.0;
        let p: u32 = pos.code();
        let bits: u32 = (i << 1) | p;
        assert(bits == (i % 0x8000_0000) * 2 + p && bits % 2 == p && (i == 0xffff_ffff ==> bits
            >= 0x8000_0000 && bits / 2 + 0x8000_0000 == i)) by (bit_vector)
            requires
                bits == (i << 1) | p,
                p <= 1,
        ;
        Self { bits }
    }

    /// Create a new ProgPoint before the given instruction.
    pub fn before(inst: Inst) -> (r: Self)
        ensures
            r == Self::spec_before(inst),
            inst.0 < 0x8000_0000 ==> r.spec_to_index() == inst.0 * 2,
            inst.0 < 0x4000_0000 || inst.spec_is_invalid() ==> r.spec_inst() == inst,
            r.spec_pos() == InstPosition::Before,
    {
        Self::new(inst, InstPosition::Before)
    }

    /// Create a new ProgPoint after the given instruction.
    pub fn after(inst: Inst) -> (r: Self)
        ensures
            r == Self::spec_after(inst),
            inst.0 < 0x8000_0000 ==> r.spec_to_index() == inst.0 * 2 + 1,
            inst.0 < 0x4000_0000 || inst.spec_is_invalid() ==> r.spec_inst() == inst,
            r.spec_pos() == InstPosition::After,
    {
        Self::new(inst, InstPosition::After)
    }

    /// Get the instruction that this ProgPoint is before or after.
    #[verifier::when_used_as_spec(spec_inst)]
    pub fn inst(self) -> (r: Inst)
        ensures
            r == self.spec_inst(),
    {
        let b: u32 = self.bits;
        let i: u32 = (b >> 1) | (b & 0x8000_0000);
        assert((b < 0x8000_0000 ==> i == b / 2) && (b >= 0x8000_0000 ==> i == b / 2 + 0x8000_0000))
            by (bit_vector)
            requires
                i == (b >> 1) | (b & 0x8000_0000),
        ;
        Inst(i)
    }

    /// Get the "position" (Before or After) relative to the instruction.
    #[verifier::when_used_as_spec(spec_pos)]
    pub fn pos(self) -> (r: InstPosition)
        ensures
            r == self.spec_pos(),
    {
        let b: u32 = self.bits;
        assert(b & 1 == b % 2) by (bit_vector);
        if b & 1 == 0 {
            InstPosition::Before
        } else {
            InstPosition::After
        }
    }

    /// Get the "next" program point: for After, this is the Before of
    /// the next instruction, while for Before, this is After of the
    /// same instruction.
    pub fn next(self) -> (r: ProgPoint)
        requires
            self.spec_to_index() < 0xffff_ffff,
        ensures
            r == self.spec_next(),
            r.spec_to_index() == self.spec_to_index() + 1,
    {
        Self { bits: self.bits + 1 }
    }

    /// Get the "previous" program point, the inverse of `.next()` above.
    pub fn prev(self) -> (r: ProgPoint)
        requires
            self.spec_to_index() > 0,
        ensures
            r == self.spec_prev(),
            r.spec_to_index() == self.spec_to_index() - 1,
    {
        Self { bits: self.bits - 1 }
    }

    /// Convert to a raw encoding in 32 bits.
    #[verifier::when_used_as_spec(spec_to_index)]
    pub fn to_index(self) -> (r: u32)
        ensures
            r == self.spec_to_index(),
            Self::spec_from_index(r) == self,
    {
        self.bits
    }

    /// Construct from the raw 32-bit encoding.
    pub fn from_index(index: u32) -> (r: Self)
        ensures
            r == Self::spec_from_index(index),
            r.spec_to_index() == index,
    {
        Self { bits: index }
    }
}

/// A point is its index: through `to_index` and `from_index` and back nothing changes.
pub proof fn lemma_progpoint_index_round_trip(p: ProgPoint, index: u32)
    ensures
        ProgPoint::spec_from_index(p.spec_to_index()) == p,
        ProgPoint::spec_from_index(index).spec_to_index() == index,
{
}

/// For an instruction index `i` below 2^31 - 1, the points are ordered as
/// `before(i) < after(i) < before(i + 1)`, each the `next` of the one before
/// it, and each gives back its position; below 2^30 each gives back its
/// instruction too.
pub proof fn lemma_progpoint_order(i: u32)
    requires
        i < 0x7fff_ffff,
    ensures
        ProgPoint::spec_before(Inst(i)).spec_to_index() < ProgPoint::spec_after(
            Inst(i),
        ).spec_to_index(),
        ProgPoint::spec_after(Inst(i)).spec_to_index() < ProgPoint::spec_before(
            Inst((i + 1) as u32),
        ).spec_to_index(),
        ProgPoint::spec_before(Inst(i)).spec_next() == ProgPoint::spec_after(Inst(i)),
        ProgPoint::spec_after(Inst(i)).spec_next() == ProgPoint::spec_before(Inst((i + 1) as u32)),
        i < 0x4000_0000 ==> ProgPoint::spec_before(Inst(i)).spec_inst() == Inst(i),
        i < 0x4000_0000 ==> ProgPoint::spec_after(Inst(i)).spec_inst() == Inst(i),
        ProgPoint::spec_before(Inst(i)).spec_pos() == InstPosition::Before,
        ProgPoint::spec_after(Inst(i)).spec_pos() == InstPosition::After,
{
}

/// `next` and `prev` are inverses of each other wherever both are defined.
pub proof fn lemma_progpoint_next_prev(p: ProgPoint)
    ensures
        p.spec_to_index() < 0xffff_ffff ==> p.spec_next().spec_prev() == p,
        p.spec_to_index() > 0 ==> p.spec_prev().spec_next() == p,
{
}

} // verus!
