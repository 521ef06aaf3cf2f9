//! Indices of instructions and blocks, and ranges of instructions.

use vstd::prelude::*;

verus! {

/// The index of an instruction. The all-ones value is the "invalid" instruction.
#[derive(Clone, Copy, Debug, PartialEq, Eq, PartialOrd, Ord, Hash, Structural)]
pub struct Inst(pub u32);

impl Inst {
    pub open spec fn spec_new(index: usize) -> Inst {
        Inst(index as u32)
    }

    pub open spec fn spec_index(self) -> usize {
        self.0 as usize
    }

    pub open spec fn spec_invalid() -> Inst {
        Inst(0xffff_ffff)
    }

    pub open spec fn spec_is_valid(self) -> bool {
        self.0 != 0xffff_ffff
    }

    pub open spec fn spec_is_invalid(self) -> bool {
        self.0 == 0xffff_ffff
    }

    /// The instruction with the given index, which is kept modulo 2^32.
    pub fn new(index: usize) -> (r: Self)
        ensures
            r == Self::spec_new(index),
            index <= 0xffff_ffff ==> r.0 == index,
    {
        Inst(#[verifier::truncate] (index as u32))
    }

    /// The index of a valid instruction.
    #[verifier::when_used_as_spec(spec_index)]
    pub fn index(self) -> (r: usize)
        requires
            self.spec_is_valid(),
        ensures
            r == self.spec_index(),
            r == self.0,
    {
        self.0 as usize
    }

    pub fn invalid() -> (r: Self)
        ensures
            r == Self::spec_invalid(),
    {
        Inst(0xffff_ffff)
    }

    #[verifier::when_used_as_spec(spec_is_invalid)]
    pub fn is_invalid(self) -> (r: bool)
        ensures
            r == self.spec_is_invalid(),
    {
        self.0 == 0xffff_ffff
    }

    #[verifier::when_used_as_spec(spec_is_valid)]
    pub fn is_valid(self) -> (r: bool)
        ensures
            r == self.spec_is_valid(),
    {
        self.0 != 0xffff_ffff
    }

    /// The instruction after this one.
    pub fn next(self) -> (r: Self)
        requires
            self.0 < 0xffff_fffe,
        ensures
            r == Inst((self.0 + 1) as u32),
    {
        Inst(self.0 + 1)
    }

    /// The instruction before this one.
    pub fn prev(self) -> (r: Self)
        requires
            self.spec_is_valid(),
            self.0 > 0,
        ensures
            r == Inst((self.0 - 1) as u32),
    {
        Inst(self.0 - 1)
    }

    pub fn raw_u32(self) -> (r: u32)
        ensures
            r == self.0,
    {
        self.0
    }
}

/// The index of a basic block. The all-ones value is the "invalid" block.
#[derive(Clone, Copy, Debug, PartialEq, Eq, PartialOrd, Ord, Hash, Structural)]
pub struct Block(pub u32);

impl Block {
    pub open spec fn spec_new(index: usize) -> Block {
        Block(index as u32)
    }

    pub open spec fn spec_index(self) -> usize {
        self.0 as usize
    }

    pub open spec fn spec_invalid() -> Block {
        Block(0xffff_ffff)
    }

    pub open spec fn spec_is_valid(self) -> bool {
        self.0 != 0xffff_ffff
    }

    pub open spec fn spec_is_invalid(self) -> bool {
        self.0 == 0xffff_ffff
    }

    /// The block with the given index, which is kept modulo 2^32.
    pub fn new(index: usize) -> (r: Self)
        ensures
            r == Self::spec_new(index),
            index <= 0xffff_ffff ==> r.0 == index,
    {
        Block(#[verifier::truncate] (index as u32))
    }

    /// The index of a valid block.
    #[verifier::when_used_as_spec(spec_index)]
    pub fn index(self) -> (r: usize)
        requires
            self.spec_is_valid(),
        ensures
            r == self.spec_index(),
            r == self.0,
    {
        self.0 as usize
    }

    pub fn invalid() -> (r: Self)
        ensures
            r == Self::spec_invalid(),
    {
        Block(0xffff_ffff)
    }

    #[verifier::when_used_as_spec(spec_is_invalid)]
    pub fn is_invalid(self) -> (r: bool)
        ensures
            r == self.spec_is_invalid(),
    {
        self.0 == 0xffff_ffff
    }

    #[verifier::when_used_as_spec(spec_is_valid)]
    pub fn is_valid(self) -> (r: bool)
        ensures
            r == self.spec_is_valid(),
    {
        self.0 != 0xffff_ffff
    }

    pub fn raw_u32(self) -> (r: u32)
        ensures
            r == self.0,
    {
        self.0
    }
}

/// A range of instructions: those with an index from `first` up to, and
/// not including, `end`.
#[derive(Clone, Copy, Debug, PartialEq, Eq, Structural)]
pub struct InstRange(pub Inst, pub Inst);

impl InstRange {
    /// A range is in order when its first index is not beyond its end.
    pub open spec fn wf(self) -> bool {
        self.0.0 <= self.1.0
    }

    pub open spec fn spec_len(self) -> usize {
        (self.1.0 - self.0.0) as usize
    }

    /// Whether an instruction index lies in the range.
    pub open spec fn contains(self, index: int) -> bool {
        self.0.0 <= index < self.1.0
    }

    /// The range from `from` up to, and not including, `to`.
    pub fn forward(from: Inst, to: Inst) -> (r: Self)
        requires
            from.0 <= to.0,
        ensures
            r == InstRange(from, to),
            r.wf(),
    {
        InstRange(from, to)
    }

    /// The first instruction of a range that is not empty.
    pub fn first(self) -> (r: Inst)
        requires
            self.wf(),
            self.spec_len() > 0,
        ensures
            r == self.0,
    {
        self.0
    }

    /// The last instruction of a range that is not empty.
    pub fn last(self) -> (r: Inst)
        requires
            self.wf(),
            self.spec_len() > 0,
        ensures
            r == Inst((self.1.0 - 1) as u32),
            self.contains(r.0 as int),
    {
        Inst(self.1.0 - 1)
    }

    /// The range without its first instruction.
    pub fn rest(self) -> (r: Self)
        requires
            self.wf(),
            self.spec_len() > 0,
        ensures
            r == InstRange(Inst((self.0.0 + 1) as u32), self.1),
            r.wf(),
            r.spec_len() == self.spec_len() - 1,
    {
        InstRange(Inst(self.0.0 + 1), self.1)
    }

    /// The number of instructions in the range.
    #[verifier::when_used_as_spec(spec_len)]
    pub fn len(self) -> (r: usize)
        requires
            self.wf(),
        ensures
            r == self.spec_len(),
    {
        (self.1.0 - self.0.0) as usize
    }
}

} // verus!
