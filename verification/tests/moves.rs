use regalloc2::moves::{resolve, ParallelMove};
use regalloc2::{Allocation, Edit, PReg, RegClass, SpillSlot, VReg};
use std::collections::HashMap;

fn r(hw: usize) -> Allocation {
    Allocation::reg(PReg::new(hw, RegClass::Int))
}

fn s(index: usize) -> Allocation {
    Allocation::stack(SpillSlot::new(index, RegClass::Int))
}

fn scratch() -> PReg {
    PReg::new(63, RegClass::Int)
}

fn spare() -> SpillSlot {
    SpillSlot::new(1000, RegClass::Int)
}

fn mv(from: Allocation, to: Allocation) -> ParallelMove {
    ParallelMove { from, to, vreg: VReg::new(0, RegClass::Int) }
}

/// Make the edits one after the other on a machine in which every
/// location holds its own name.
fn run(edits: &[Edit]) -> HashMap<Allocation, Allocation> {
    let mut state: HashMap<Allocation, Allocation> = HashMap::new();
    for e in edits {
        if let Edit::Move { from, to, .. } = e {
            assert!(!(from.is_stack() && to.is_stack()), "{from:?} -> {to:?}");
            let v = *state.get(from).unwrap_or(from);
            state.insert(*to, v);
        }
    }
    state
}

/// The edits have the effect of the moves made at once, on every
/// location but the scratch register and the spare slot.
fn agrees(moves: &[ParallelMove]) -> Vec<Edit> {
    let edits = resolve(moves.to_vec(), scratch(), spare());
    let state = run(&edits);
    let keep = [Allocation::reg(scratch()), Allocation::stack(spare())];
    for m in moves {
        assert_eq!(*state.get(&m.to).unwrap_or(&m.to), m.from, "into {:?}", m.to);
    }
    for (place, held) in &state {
        if !keep.contains(place) && !moves.iter().any(|m| m.to == *place) {
            assert_eq!(place, held);
        }
    }
    edits
}

fn moved(edits: &[Edit]) -> Vec<(Allocation, Allocation)> {
    edits
        .iter()
        .map(|e| match e {
            Edit::Move { from, to, .. } => (*from, *to),
            Edit::DefAlloc { alloc, .. } => (*alloc, *alloc),
        })
        .collect()
}

#[test]
fn a_chain_is_moved_from_its_end() {
    let edits = agrees(&[mv(r(0), r(1)), mv(r(1), r(2)), mv(r(2), r(3))]);
    assert_eq!(moved(&edits), vec![(r(2), r(3)), (r(1), r(2)), (r(0), r(1))]);
}

#[test]
fn two_registers_change_places_through_the_scratch_register() {
    let edits = agrees(&[mv(r(0), r(1)), mv(r(1), r(0))]);
    let t = Allocation::reg(scratch());
    assert_eq!(moved(&edits), vec![(r(0), t), (r(1), r(0)), (t, r(1))]);
}

#[test]
fn a_cycle_of_three_takes_four_moves() {
    let edits = agrees(&[mv(r(0), r(1)), mv(r(1), r(2)), mv(r(2), r(0))]);
    assert_eq!(edits.len(), 4);
    assert!(moved(&edits).iter().any(|(_, to)| *to == Allocation::reg(scratch())));
}

#[test]
fn a_move_from_stack_to_stack_goes_through_the_scratch_register() {
    let edits = agrees(&[mv(s(0), s(1))]);
    let t = Allocation::reg(scratch());
    assert_eq!(moved(&edits), vec![(s(0), t), (t, s(1))]);
}

#[test]
fn stack_slots_change_places_through_the_spare_slot() {
    let edits = agrees(&[mv(s(0), s(1)), mv(s(1), s(0))]);
    let t = Allocation::reg(scratch());
    let e = Allocation::stack(spare());
    assert_eq!(
        moved(&edits),
        vec![(s(0), t), (t, e), (s(1), t), (t, s(0)), (e, t), (t, s(1))]
    );
    agrees(&[mv(s(0), r(1)), mv(r(1), s(2)), mv(s(2), s(0))]);
}

#[test]
fn one_source_may_feed_several_destinations() {
    agrees(&[mv(r(0), r(1)), mv(r(0), r(2)), mv(r(1), r(0))]);
    agrees(&[mv(r(0), r(1)), mv(r(0), r(2)), mv(r(2), r(3)), mv(r(3), r(0))]);
}

#[test]
fn a_move_onto_itself_changes_nothing() {
    let edits = agrees(&[mv(r(0), r(0)), mv(s(3), s(3))]);
    assert_eq!(moved(&edits), vec![(r(0), r(0))]);
    assert!(resolve(vec![], scratch(), spare()).is_empty());
}

#[test]
fn every_permutation_of_five_locations_is_carried_out() {
    let places = [r(0), s(0), r(1), s(1), r(2)];
    let mut perm = [0usize, 1, 2, 3, 4];
    let mut count = 0;
    // all permutations, by Heap's method
    let mut c = [0usize; 5];
    let mut i = 0;
    loop {
        let moves: Vec<ParallelMove> =
            (0..5).map(|k| mv(places[perm[k]], places[k])).collect();
        agrees(&moves);
        for skip in 0..5 {
            let fewer: Vec<ParallelMove> =
                moves.iter().enumerate().filter(|(k, _)| *k != skip).map(|(_, m)| *m).collect();
            agrees(&fewer);
        }
        count += 1;
        while i < 5 && c[i] >= i {
            c[i] = 0;
            i += 1;
        }
        if i == 5 {
            break;
        }
        if i % 2 == 0 {
            perm.swap(0, i);
        } else {
            perm.swap(c[i], i);
        }
        c[i] += 1;
        i = 0;
    }
    assert_eq!(count, 120);
}

#[test]
fn every_edit_names_the_vreg_of_one_of_the_moves() {
    let v = |id: usize| VReg::new(id, RegClass::Int);
    let moves = vec![
        ParallelMove { from: r(0), to: r(1), vreg: v(10) },
        ParallelMove { from: r(1), to: r(0), vreg: v(11) },
        ParallelMove { from: s(0), to: s(1), vreg: v(12) },
        ParallelMove { from: r(2), to: r(3), vreg: v(13) },
    ];
    let edits = resolve(moves.clone(), scratch(), spare());
    assert!(edits.len() >= 5);
    for e in &edits {
        match e {
            Edit::Move { to_vreg, .. } => {
                let named = to_vreg.expect("a move names its vreg");
                assert!(moves.iter().any(|m| m.vreg == named));
            }
            Edit::DefAlloc { .. } => panic!("the moves ask for no other edit"),
        }
    }
    // the move into a location names the vreg that was to get there
    for m in &moves {
        assert!(edits.iter().any(|e| matches!(e,
            Edit::Move { to, to_vreg, .. } if *to == m.to && *to_vreg == Some(m.vreg))));
    }
}
