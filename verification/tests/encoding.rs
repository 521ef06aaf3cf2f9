use regalloc2::{
    Allocation, AllocationKind, Block, Inst, InstPosition, InstRange, Operand, OperandConstraint,
    OperandKind, OperandPos, PReg, ProgPoint, RegClass, SpillSlot, VReg,
};

const CLASSES: [RegClass; 2] = [RegClass::Int, RegClass::Float];

#[test]
fn preg_fields_round_trip() {
    for hw in 0..64usize {
        for class in CLASSES {
            let p = PReg::new(hw, class);
            assert_eq!(p.hw_enc(), hw);
            assert_eq!(p.class(), class);
            let bit = if class == RegClass::Float { 1 } else { 0 };
            assert_eq!(p.index(), bit * 64 + hw);
            assert_eq!(PReg::from_index(p.index()), p);
        }
    }
}

#[test]
fn preg_index_space_is_dense() {
    let mut seen = vec![false; PReg::MAX_INDEX];
    for index in 0..PReg::MAX_INDEX {
        let p = PReg::from_index(index);
        assert_eq!(p.index(), index);
        assert!(!seen[index]);
        seen[index] = true;
    }
    assert_eq!(PReg::from_index(0), PReg::new(0, RegClass::Int));
    assert_eq!(PReg::from_index(64), PReg::new(0, RegClass::Float));
    assert_eq!(PReg::from_index(127), PReg::new(63, RegClass::Float));
    assert_eq!(PReg::invalid(), PReg::new(PReg::MAX, RegClass::Int));
    assert_eq!(PReg::MAX, 63);
    assert_eq!(PReg::MAX_BITS, 6);
}

#[test]
fn vreg_fields_round_trip() {
    for id in [0usize, 1, 2, 1000, VReg::MAX - 1, VReg::MAX] {
        for class in CLASSES {
            let v = VReg::new(id, class);
            assert_eq!(v.vreg(), id);
            assert_eq!(v.class(), class);
        }
    }
    assert_eq!(VReg::MAX, (1 << 21) - 1);
    assert_eq!(VReg::invalid(), VReg::new(VReg::MAX, RegClass::Int));
    assert_ne!(VReg::new(3, RegClass::Int), VReg::new(3, RegClass::Float));
}

#[test]
fn spillslot_fields_round_trip() {
    for index in [0usize, 1, 77, (1 << 24) - 1] {
        for class in CLASSES {
            let s = SpillSlot::new(index, class);
            assert_eq!(s.index(), index);
            assert_eq!(s.class(), class);
            assert!(s.is_valid());
            assert!(!s.is_invalid());
            assert_ne!(s, SpillSlot::invalid());
        }
    }
    assert!(SpillSlot::invalid().is_invalid());
    assert!(!SpillSlot::invalid().is_valid());
    assert_eq!(SpillSlot::new(5, RegClass::Float).plus(7), SpillSlot::new(12, RegClass::Float));
    assert_eq!(SpillSlot::new(5, RegClass::Int).plus(0), SpillSlot::new(5, RegClass::Int));
}

fn constraints(class: RegClass) -> Vec<OperandConstraint> {
    let mut all = vec![OperandConstraint::Any, OperandConstraint::Reg, OperandConstraint::Stack];
    for hw in 0..64 {
        all.push(OperandConstraint::FixedReg(PReg::new(hw, class)));
    }
    for index in 0..32 {
        all.push(OperandConstraint::Reuse(index));
    }
    all
}

#[test]
fn operand_new_followed_by_accessors_gives_back_every_field() {
    for id in [0usize, 1, 4097, VReg::MAX] {
        for class in CLASSES {
            let vreg = VReg::new(id, class);
            for constraint in constraints(class) {
                for kind in [OperandKind::Def, OperandKind::Mod, OperandKind::Use] {
                    for pos in [OperandPos::Early, OperandPos::Late] {
                        let op = Operand::new(vreg, constraint, kind, pos);
                        assert_eq!(op.vreg(), vreg);
                        assert_eq!(op.class(), class);
                        assert_eq!(op.constraint(), constraint);
                        assert_eq!(op.kind(), kind);
                        assert_eq!(op.pos(), pos);
                        assert_eq!(Operand::from_bits(op.bits()), op);
                    }
                }
            }
        }
    }
}

#[test]
fn operand_bits_are_laid_out_as_documented() {
    let v = VReg::new(5, RegClass::Float);
    let op = Operand::new(
        v,
        OperandConstraint::FixedReg(PReg::new(9, RegClass::Float)),
        OperandKind::Use,
        OperandPos::Late,
    );
    assert_eq!(op.bits(), 5 | (1 << 21) | (1 << 22) | (2 << 23) | ((0b100_0000 | 9) << 25));
    let op = Operand::new(v, OperandConstraint::Reuse(3), OperandKind::Def, OperandPos::Early);
    assert_eq!(op.bits(), 5 | (1 << 21) | ((0b010_0000 | 3) << 25));
    let op = Operand::new(v, OperandConstraint::Stack, OperandKind::Mod, OperandPos::Early);
    assert_eq!(op.bits(), 5 | (1 << 21) | (1 << 23) | (2 << 25));
}

#[test]
fn operand_shorthands() {
    let v = VReg::new(7, RegClass::Int);
    let p = PReg::new(3, RegClass::Int);
    let new = Operand::new;
    let reg = OperandConstraint::Reg;
    let (def, used) = (OperandKind::Def, OperandKind::Use);
    let (early, late) = (OperandPos::Early, OperandPos::Late);
    assert_eq!(Operand::reg_use(v), new(v, reg, used, early));
    assert_eq!(Operand::reg_use_at_end(v), new(v, reg, used, late));
    assert_eq!(Operand::reg_def(v), new(v, reg, def, late));
    assert_eq!(Operand::reg_def_at_start(v), new(v, reg, def, early));
    assert_eq!(Operand::reg_temp(v), new(v, reg, def, early));
    assert_eq!(Operand::reg_reuse_def(v, 2), new(v, OperandConstraint::Reuse(2), def, late));
    assert_eq!(Operand::reg_fixed_use(v, p), new(v, OperandConstraint::FixedReg(p), used, early));
    assert_eq!(Operand::reg_fixed_def(v, p), new(v, OperandConstraint::FixedReg(p), def, late));
}

#[test]
fn allocation_round_trips() {
    let none = Allocation::none();
    assert_eq!(none.kind(), AllocationKind::Unassigned);
    assert!(none.is_none() && !none.is_some() && !none.is_reg() && !none.is_stack());
    assert_eq!(none.as_reg(), None);
    assert_eq!(none.as_stack(), None);
    assert_eq!(none.bits(), 0);
    assert_eq!(Allocation::from_bits(none.bits()), none);
    for hw in 0..64 {
        for class in CLASSES {
            let p = PReg::new(hw, class);
            let a = Allocation::reg(p);
            assert_eq!(a.kind(), AllocationKind::Reg);
            assert!(a.is_reg() && a.is_some() && !a.is_none() && !a.is_stack());
            assert_eq!(a.index(), p.index());
            assert_eq!(a.as_reg(), Some(p));
            assert_eq!(a.as_stack(), None);
            assert_eq!(a.class(), class);
            assert_eq!(a.bits(), (1 << 29) | p.index() as u32);
            assert_eq!(Allocation::from_bits(a.bits()), a);
            assert_ne!(a, none);
        }
    }
    for index in [0usize, 1, 1234, (1 << 24) - 1] {
        for class in CLASSES {
            let s = SpillSlot::new(index, class);
            let a = Allocation::stack(s);
            assert_eq!(a.kind(), AllocationKind::Stack);
            assert!(a.is_stack() && a.is_some() && !a.is_none() && !a.is_reg());
            assert_eq!(a.as_stack(), Some(s));
            assert_eq!(a.as_reg(), None);
            assert_eq!(a.class(), class);
            assert_eq!(Allocation::from_bits(a.bits()), a);
            assert_ne!(a, none);
            assert_ne!(a, Allocation::reg(PReg::from_index(index % 128)));
        }
    }
}

#[test]
fn program_points_are_ordered() {
    for i in [0usize, 1, 2, 500, (1 << 30) - 2] {
        let before = ProgPoint::before(Inst::new(i));
        let after = ProgPoint::after(Inst::new(i));
        let next = ProgPoint::before(Inst::new(i + 1));
        assert!(before < after && after < next);
        assert_eq!(before.next(), after);
        assert_eq!(after.next(), next);
        assert_eq!(next.prev(), after);
        assert_eq!(after.prev(), before);
        assert_eq!(before.next().prev(), before);
        assert_eq!(after.prev().next(), after);
        assert_eq!(before.inst(), Inst::new(i));
        assert_eq!(after.inst(), Inst::new(i));
        assert_eq!(before.pos(), InstPosition::Before);
        assert_eq!(after.pos(), InstPosition::After);
        assert_eq!(before.to_index() as usize, 2 * i);
        assert_eq!(after.to_index() as usize, 2 * i + 1);
        assert_eq!(ProgPoint::from_index(before.to_index()), before);
        assert_eq!(ProgPoint::new(Inst::new(i), InstPosition::After), after);
    }
    assert_eq!(ProgPoint::before(Inst::invalid()).inst(), Inst::invalid());
    assert_eq!(ProgPoint::after(Inst::invalid()).inst(), Inst::invalid());
}

#[test]
fn indices_and_ranges() {
    assert_eq!(Inst::new(5).index(), 5);
    assert_eq!(Inst::new(5).next(), Inst::new(6));
    assert_eq!(Inst::new(5).prev(), Inst::new(4));
    assert_eq!(Inst::new(5).raw_u32(), 5);
    assert!(Inst::new(5).is_valid());
    assert!(Inst::invalid().is_invalid());
    assert_eq!(Block::new(9).index(), 9);
    assert!(Block::invalid().is_invalid() && !Block::invalid().is_valid());
    let r = InstRange::forward(Inst::new(3), Inst::new(7));
    assert_eq!(r.len(), 4);
    assert_eq!(r.first(), Inst::new(3));
    assert_eq!(r.last(), Inst::new(6));
    assert_eq!(r.rest(), InstRange::forward(Inst::new(4), Inst::new(7)));
    assert_eq!(InstRange::forward(Inst::new(3), Inst::new(3)).len(), 0);
}
