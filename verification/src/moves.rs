//! Moves that are to happen at once, put into an order in which they
//! can happen one after the other.

use vstd::prelude::*;
use vstd::set_lib::{lemma_int_range, lemma_len_subset, set_int_range};
use crate::allocation::Allocation;
use crate::demand::{count_upto, lemma_count_bounds, lemma_count_less};
use crate::output::Edit;
use crate::regs::{PReg, SpillSlot, VReg};

verus! {

/// One of several moves that are to happen at once: every move reads
/// its source before any of them writes its destination.
#[derive(Clone, Copy, Debug, PartialEq, Eq, Structural)]
pub struct ParallelMove {
    pub from: Allocation,
    pub to: Allocation,
    pub vreg: VReg,
}

/// No edit of the list moves from one stack slot to another.
pub open spec fn no_stack_to_stack(edits: Seq<Edit>) -> bool {
    forall|k: int| 0 <= k < edits.len() ==> !(#[trigger] edits[k]).spec_is_stack_to_stack()
}

/// What the location `a` holds once the edits have been made, one
/// after the other, on a machine in which every location `x` held `s(x)`.
pub open spec fn value_after(s: spec_fn(Allocation) -> int, edits: Seq<Edit>, a: Allocation) -> int
    decreases edits.len(),
{
    if edits.len() == 0 {
        s(a)
    } else {
        match edits.last() {
            Edit::Move { from, to, .. } => if a == to {
                value_after(s, edits.drop_last(), from)
            } else {
                value_after(s, edits.drop_last(), a)
            },
            Edit::DefAlloc { .. } => value_after(s, edits.drop_last(), a),
        }
    }
}

/// What the location `a` holds once the first `k` of the moves have
/// been made at once on a machine in which every location `x` held
/// `s(x)`: what the source of the move into `a` held, or what `a` held
/// if no move goes into it.
pub open spec fn value_parallel(
    s: spec_fn(Allocation) -> int,
    moves: Seq<ParallelMove>,
    k: int,
    a: Allocation,
) -> int
    decreases k,
{
    if k <= 0 {
        s(a)
    } else if moves[k - 1].to == a {
        s(moves[k - 1].from)
    } else {
        value_parallel(s, moves, k - 1, a)
    }
}

/// Whether the moves can be made at once, and with the help of the two
/// locations `t` and `e`: no two of them go into one location, and
/// none reads or writes `t` or `e`.
pub open spec fn well_posed(moves: Seq<ParallelMove>, t: Allocation, e: Allocation) -> bool {
    &&& t != e
    &&& forall|j: int, k: int|
        0 <= j < k < moves.len() ==> (#[trigger] moves[j]).to != (#[trigger] moves[k]).to
    &&& forall|k: int|
        0 <= k < moves.len() ==> (#[trigger] moves[k]).from != t && moves[k].from != e
            && moves[k].to != t && moves[k].to != e
}

/// A move onto the end of a list of edits writes its destination and
/// leaves every other location as it was.
proof fn lemma_after_move(
    s: spec_fn(Allocation) -> int,
    edits: Seq<Edit>,
    from: Allocation,
    to: Allocation,
    to_vreg: Option<VReg>,
    a: Allocation,
)
    ensures
        value_after(s, edits.push(Edit::Move { from, to, to_vreg }), a) == if a == to {
            value_after(s, edits, from)
        } else {
            value_after(s, edits, a)
        },
{
    let e = Edit::Move { from, to, to_vreg };
    assert(edits.push(e).drop_last() =~= edits);
    assert(edits.push(e).last() == e);
}

/// The moves made at once leave a location that none goes into as it was.
proof fn lemma_parallel_untouched(
    s: spec_fn(Allocation) -> int,
    moves: Seq<ParallelMove>,
    k: int,
    a: Allocation,
)
    requires
        0 <= k <= moves.len(),
        forall|j: int| 0 <= j < k ==> (#[trigger] moves[j]).to != a,
    ensures
        value_parallel(s, moves, k, a) == s(a),
    decreases k,
{
    if k > 0 {
        lemma_parallel_untouched(s, moves, k - 1, a);
    }
}

/// The moves made at once leave in the destination of each what its
/// source held.
proof fn lemma_parallel_at(
    s: spec_fn(Allocation) -> int,
    moves: Seq<ParallelMove>,
    k: int,
    j: int,
)
    requires
        0 <= j < k <= moves.len(),
        forall|i: int, i2: int|
            0 <= i < i2 < moves.len() ==> (#[trigger] moves[i]).to != (#[trigger] moves[i2]).to,
    ensures
        value_parallel(s, moves, k, moves[j].to) == s(moves[j].from),
    decreases k,
{
    if j < k - 1 {
        assert(moves[j].to != moves[k - 1].to);
        lemma_parallel_at(s, moves, k - 1, j);
    }
}

/// Whether the edit is a move that names the vreg as the one whose
/// value it brings.
pub open spec fn is_move_of(edit: Edit, vreg: VReg) -> bool {
    match edit {
        Edit::Move { to_vreg, .. } => to_vreg == Some(vreg),
        Edit::DefAlloc { .. } => false,
    }
}

/// Whether one of the moves is a move of the vreg.
pub open spec fn vreg_asked(moves: Seq<ParallelMove>, vreg: VReg) -> bool {
    exists|j: int| 0 <= j < moves.len() && (#[trigger] moves[j]).vreg == vreg
}

/// Whether the edit is a move that names the vreg of one of the moves.
pub open spec fn names_vreg(moves: Seq<ParallelMove>, edit: Edit) -> bool {
    match edit {
        Edit::Move { to_vreg, .. } => to_vreg is Some && vreg_asked(moves, to_vreg.unwrap()),
        Edit::DefAlloc { .. } => false,
    }
}

/// Whether every edit is a move that names the vreg of one of the moves.
pub open spec fn all_named(moves: Seq<ParallelMove>, edits: Seq<Edit>) -> bool {
    forall|k: int| 0 <= k < edits.len() ==> names_vreg(moves, #[trigger] edits[k])
}

/// Append the move from `from` to `to`. A move between two stack slots
/// goes through the scratch register; a move of a stack slot to itself
/// is left out. Every edit that is added names the vreg.
fn emit(out: &mut Vec<Edit>, from: Allocation, to: Allocation, vreg: VReg, scratch: PReg)
    requires
        no_stack_to_stack(old(out)@),
    ensures
        no_stack_to_stack(final(out)@),
        final(out)@.len() >= old(out)@.len(),
        forall|k: int| 0 <= k < old(out)@.len() ==> #[trigger] final(out)@[k] == old(out)@[k],
        forall|k: int|
            old(out)@.len() <= k < final(out)@.len() ==> is_move_of(#[trigger] final(out)@[k], vreg),
        forall|s: spec_fn(Allocation) -> int, a: Allocation| #[trigger]
            value_after(s, final(out)@, a) == if from == to {
                value_after(s, old(out)@, a)
            } else if a == to || (from.spec_is_stack() && to.spec_is_stack() && a
                == Allocation::spec_reg(scratch)) {
                value_after(s, old(out)@, from)
            } else {
                value_after(s, old(out)@, a)
            },
{
    let ghost before = out@;
    if from.is_stack() && to.is_stack() {
        if from != to {
            let via = Allocation::reg(scratch);
            out.push(Edit::Move { from, to: via, to_vreg: Some(vreg) });
            let ghost middle = out@;
            out.push(Edit::Move { from: via, to, to_vreg: Some(vreg) });
            proof {
                assert forall|s: spec_fn(Allocation) -> int, a: Allocation| #[trigger]
                    value_after(s, out@, a) == if a == to || a == via {
                        value_after(s, before, from)
                    } else {
                        value_after(s, before, a)
                    } by {
                    lemma_after_move(s, middle, via, to, Some(vreg), a);
                    lemma_after_move(s, before, from, via, Some(vreg), a);
                    lemma_after_move(s, before, from, via, Some(vreg), via);
                }
            }
        }
    } else {
        out.push(Edit::Move { from, to, to_vreg: Some(vreg) });
        proof {
            assert forall|s: spec_fn(Allocation) -> int, a: Allocation| #[trigger]
                value_after(s, out@, a) == if a == to {
                    value_after(s, before, from)
                } else {
                    value_after(s, before, a)
                } by {
                lemma_after_move(s, before, from, to, Some(vreg), a);
            }
        }
    }
    proof {
        assert forall|k: int| 0 <= k < out@.len() implies !(
        #[trigger] out@[k]).spec_is_stack_to_stack() by {
            if k < before.len() {
                assert(out@[k] == before[k]);
            }
        }
    }
}

/// Whether the move at `k` still reads a location of the program, and
/// not one of the two that are kept for the moves themselves.
pub open spec fn reads_program(
    pending: Seq<ParallelMove>,
    scratch: Allocation,
    spare: Allocation,
    k: int,
) -> bool {
    pending[k].from != scratch && pending[k].from != spare
}

/// How many of the pending moves still read a location of the program.
pub open spec fn program_reads(
    pending: Seq<ParallelMove>,
    scratch: Allocation,
    spare: Allocation,
) -> int {
    count_upto(|k: int| reads_program(pending, scratch, spare, k), pending.len() as int)
}

/// Whether no other pending move reads the destination of the move at `k`.
pub open spec fn is_ready(pending: Seq<ParallelMove>, k: int) -> bool {
    forall|j: int| 0 <= j < pending.len() && j != k ==> (#[trigger] pending[j]).from != pending[k].to
}

/// Whether some other pending move reads the destination of the move at `k`.
pub open spec fn is_read(pending: Seq<ParallelMove>, k: int) -> bool {
    exists|j: int| 0 <= j < pending.len() && j != k && (#[trigger] pending[j]).from == pending[k].to
}

/// The index of a pending move whose destination no other pending move
/// reads, if there is one.
fn find_ready(pending: &Vec<ParallelMove>) -> (r: Option<usize>)
    ensures
        match r {
            Some(k) => k < pending@.len() && is_ready(pending@, k as int),
            None => forall|k: int| 0 <= k < pending@.len() ==> #[trigger] is_read(pending@, k),
        },
{
    let n = pending.len();
    let mut k: usize = 0;
    while k < n
        invariant
            n == pending@.len(),
            k <= n,
            forall|k2: int| 0 <= k2 < k ==> #[trigger] is_read(pending@, k2),
        decreases n - k,
    {
        let to = pending[k].to;
        let mut read = false;
        let mut j: usize = 0;
        while j < n
            invariant
                n == pending@.len(),
                k < n,
                j <= n,
                to == pending@[k as int].to,
                read ==> is_read(pending@, k as int),
                !read ==> forall|j2: int|
                    0 <= j2 < j && j2 != k ==> (#[trigger] pending@[j2]).from != to,
            decreases n - j,
        {
            if j != k && pending[j].from == to {
                read = true;
            }
            j += 1;
        }
        if !read {
            return Some(k);
        }
        k += 1;
    }
    None
}

/// Indices below `n` of which no two are the same are at most `n`.
proof fn lemma_pigeonhole(xs: Seq<int>, n: int)
    requires
        0 <= n,
        xs.no_duplicates(),
        forall|i: int| 0 <= i < xs.len() ==> 0 <= #[trigger] xs[i] < n,
    ensures
        xs.len() <= n,
{
    xs.unique_seq_to_set();
    lemma_int_range(0, n);
    assert(xs.to_set().subset_of(set_int_range(0, n))) by {
        assert forall|x: int| xs.to_set().contains(x) implies set_int_range(0, n).contains(x) by {
            let i = choose|i: int| 0 <= i < xs.len() && xs[i] == x;
        }
    }
    lemma_len_subset(xs.to_set(), set_int_range(0, n));
}

/// A chain of pending moves, each reading the destination of the one
/// before it, that begins with a move reading `t` or `e` and in which
/// no move comes twice.
spec fn is_chain(pending: Seq<ParallelMove>, t: Allocation, e: Allocation, xs: Seq<int>) -> bool {
    &&& xs.len() >= 1
    &&& xs.no_duplicates()
    &&& forall|i: int| 0 <= i < xs.len() ==> 0 <= #[trigger] xs[i] < pending.len()
    &&& pending[xs[0]].from == t || pending[xs[0]].from == e
    &&& forall|i: int|
        0 <= i < xs.len() - 1 ==> pending[#[trigger] xs[i + 1]].from == pending[xs[i]].to
}

/// Where every pending move has its destination read by another, a
/// chain can always be made longer.
proof fn lemma_chain_grows(
    pending: Seq<ParallelMove>,
    t: Allocation,
    e: Allocation,
    xs: Seq<int>,
    len: nat,
) -> (ys: Seq<int>)
    requires
        is_chain(pending, t, e, xs),
        xs.len() <= len,
        forall|k: int| 0 <= k < pending.len() ==> #[trigger] is_read(pending, k),
        forall|j: int, k: int|
            0 <= j < k < pending.len() ==> (#[trigger] pending[j]).to != (#[trigger] pending[k]).to,
        forall|k: int|
            0 <= k < pending.len() ==> (#[trigger] pending[k]).to != t && pending[k].to != e,
    ensures
        is_chain(pending, t, e, ys),
        ys.len() == len,
    decreases len - xs.len(),
{
    if xs.len() == len {
        xs
    } else {
        let last = xs[xs.len() - 1];
        assert(is_read(pending, last));
        let next = choose|j: int|
            0 <= j < pending.len() && j != last && (#[trigger] pending[j]).from == pending[last].to;
        let ys = xs.push(next);
        assert forall|i: int, i2: int|
            0 <= i < ys.len() && 0 <= i2 < ys.len() && i != i2 implies ys[i] != ys[i2] by {
            if i < xs.len() && i2 < xs.len() {
                assert(xs[i] != xs[i2]);
            } else {
                // the new move is none of the chain
                let a = if i < xs.len() {
                    i
                } else {
                    i2
                };
                if xs[a] == next {
                    if a == 0 {
                        assert(pending[last].to != t && pending[last].to != e);
                    } else {
                        assert(pending[xs[a - 1 + 1]].from == pending[xs[a - 1]].to);
                        let u = xs[a - 1];
                        assert(pending[u].to == pending[last].to);
                        if u < last {
                            assert(pending[u].to != pending[last].to);
                        } else if last < u {
                            assert(pending[last].to != pending[u].to);
                        } else {
                            assert(xs[a - 1] != xs[xs.len() - 1]);
                        }
                    }
                }
            }
        }
        assert forall|i: int| 0 <= i < ys.len() - 1 implies pending[#[trigger] ys[i + 1]].from
            == pending[ys[i]].to by {
            if i < xs.len() - 1 {
                assert(pending[xs[i + 1]].from == pending[xs[i]].to);
            }
        }
        lemma_chain_grows(pending, t, e, ys, len)
    }
}

/// Where every pending move has its destination read by another, none
/// of them reads `t` or `e`.
proof fn lemma_stuck_reads_program(
    pending: Seq<ParallelMove>,
    t: Allocation,
    e: Allocation,
    k: int,
)
    requires
        0 <= k < pending.len(),
        forall|k2: int| 0 <= k2 < pending.len() ==> #[trigger] is_read(pending, k2),
        forall|j: int, k2: int|
            0 <= j < k2 < pending.len() ==> (#[trigger] pending[j]).to != (
            #[trigger] pending[k2]).to,
        forall|k2: int|
            0 <= k2 < pending.len() ==> (#[trigger] pending[k2]).to != t && pending[k2].to != e,
    ensures
        pending[k].from != t && pending[k].from != e,
{
    if pending[k].from == t || pending[k].from == e {
        let xs = seq![k];
        assert(is_chain(pending, t, e, xs));
        let ys = lemma_chain_grows(pending, t, e, xs, pending.len() + 1);
        lemma_pigeonhole(ys, pending.len() as int);
    }
}

/// Whether one of the moves goes from `from` into `to`.
spec fn asked_for(moves: Seq<ParallelMove>, to: Allocation, from: Allocation) -> bool {
    exists|j: int| 0 <= j < moves.len() && (#[trigger] moves[j]).to == to && moves[j].from == from
}

/// What is known of the pending moves while the moves are put in order:
/// each still goes into the destination of one of the moves that were
/// asked for, and reads the source of that move or one of the two
/// saved values; no two go into one location.
spec fn pending_ok(
    moves: Seq<ParallelMove>,
    pending: Seq<ParallelMove>,
    orig: Seq<Allocation>,
    t: Allocation,
    e: Allocation,
) -> bool {
    &&& orig.len() == pending.len()
    &&& forall|j: int, k: int|
        0 <= j < k < pending.len() ==> (#[trigger] pending[j]).to != (#[trigger] pending[k]).to
    &&& forall|k: int|
        0 <= k < pending.len() ==> {
            &&& (#[trigger] pending[k]).to != t
            &&& pending[k].to != e
            &&& orig[k] != t
            &&& orig[k] != e
            &&& pending[k].from == orig[k] || pending[k].from == t || pending[k].from == e
            &&& asked_for(moves, pending[k].to, orig[k])
        }
    &&& (exists|k: int| 0 <= k < pending.len() && (#[trigger] pending[k]).from == t) ==> forall|
        k: int,
    |
        0 <= k < pending.len() ==> !(#[trigger] pending[k]).from.spec_is_stack()
            && !pending[k].to.spec_is_stack()
}

/// What is known of the edits made so far: every pending move finds in
/// its source what it is to move, and every location that no pending
/// move goes into holds what the moves made at once leave in it.
spec fn edits_ok(
    moves: Seq<ParallelMove>,
    pending: Seq<ParallelMove>,
    orig: Seq<Allocation>,
    t: Allocation,
    e: Allocation,
    out: Seq<Edit>,
) -> bool {
    &&& forall|s: spec_fn(Allocation) -> int, k: int|
        0 <= k < pending.len() ==> #[trigger] value_after(s, out, pending[k].from) == s(orig[k])
    &&& forall|s: spec_fn(Allocation) -> int, a: Allocation|
        a != t && a != e && (forall|k: int|
            0 <= k < pending.len() ==> (#[trigger] pending[k]).to != a) ==> #[trigger] value_after(
            s,
            out,
            a,
        ) == value_parallel(s, moves, moves.len() as int, a)
}

/// Put moves that are to happen at once into an order in which they
/// have the same effect one after the other.
///
/// A move whose destination no other pending move reads is made first.
/// Where every destination is still read, the moves form cycles: the
/// source of one of them is saved, in the scratch register, or in the
/// spare stack slot if a stack slot takes part, and the move reads the
/// saved value from then on.
///
/// Every edit is a move, and names the vreg of one of the given moves.
/// Where no two moves go into one location, and none reads or writes
/// the scratch register or the spare slot, every other location holds
/// after the edits what the moves made at once leave in it.
pub fn resolve(moves: Vec<ParallelMove>, scratch: PReg, spare: SpillSlot) -> (out: Vec<Edit>)
    requires
        spare.spec_is_valid(),
    ensures
        no_stack_to_stack(out@),
        all_named(moves@, out@),
        well_posed(moves@, Allocation::spec_reg(scratch), Allocation::spec_stack(spare))
            ==> forall|s: spec_fn(Allocation) -> int, a: Allocation|
            a != Allocation::spec_reg(scratch) && a != Allocation::spec_stack(spare)
                ==> #[trigger] value_after(s, out@, a) == value_parallel(
                s,
                moves@,
                moves@.len() as int,
                a,
            ),
{
    let t = Allocation::reg(scratch);
    let e = Allocation::stack(spare);
    let ghost asked = moves@;
    let ghost wp = well_posed(asked, t, e);
    let mut pending = moves;
    let ghost mut orig: Seq<Allocation> = Seq::new(asked.len(), |k: int| asked[k].from);
    let mut out: Vec<Edit> = Vec::new();
    proof {
        if wp {
            assert forall|s: spec_fn(Allocation) -> int, a: Allocation|
                a != t && a != e && (forall|k: int|
                    0 <= k < pending@.len() ==> (#[trigger] pending@[k]).to
                        != a) implies #[trigger] value_after(s, out@, a) == value_parallel(
                s,
                asked,
                asked.len() as int,
                a,
            ) by {
                lemma_parallel_untouched(s, asked, asked.len() as int, a);
            }
            assert(pending_ok(asked, pending@, orig, t, e)) by {
                assert forall|k: int| 0 <= k < pending@.len() implies asked_for(
                    asked,
                    (#[trigger] pending@[k]).to,
                    orig[k],
                ) by {
                    assert(asked[k].to == pending@[k].to && asked[k].from == orig[k]);
                }
            }
        }
    }
    assert forall|k: int| 0 <= k < pending@.len() implies vreg_asked(
        asked,
        (#[trigger] pending@[k]).vreg,
    ) by {
        assert(asked[k].vreg == pending@[k].vreg);
    }
    while pending.len() > 0
        invariant
            no_stack_to_stack(out@),
            t == Allocation::spec_reg(scratch),
            e == Allocation::spec_stack(spare),
            t.spec_is_reg(),
            e.spec_is_stack(),
            wp == well_posed(asked, t, e),
            wp ==> pending_ok(asked, pending@, orig, t, e),
            wp ==> edits_ok(asked, pending@, orig, t, e, out@),
            all_named(asked, out@),
            forall|k: int| 0 <= k < pending@.len() ==> vreg_asked(asked, (#[trigger] pending@[k]).vreg),
        decreases pending@.len(), program_reads(pending@, t, e),
    {
        let ghost before = pending@;
        let ghost orig0 = orig;
        let ghost out0 = out@;
        proof {
            lemma_count_bounds(|k: int| reads_program(before, t, e, k), before.len() as int);
        }
        match find_ready(&pending) {
            Some(k) => {
                let m = pending[k];
                emit(&mut out, m.from, m.to, m.vreg, scratch);
                let last = pending[pending.len() - 1];
                pending.set(k, last);
                pending.pop();
                proof {
                    lemma_named_more(asked, out0, out@, m.vreg);
                    assert forall|i: int| 0 <= i < pending@.len() implies vreg_asked(
                        asked,
                        (#[trigger] pending@[i]).vreg,
                    ) by {
                        if i == k {
                            assert(pending@[i] == before[before.len() - 1]);
                        } else {
                            assert(pending@[i] == before[i]);
                        }
                    }
                    let z = before.len() - 1;
                    orig = orig0.update(k as int, orig0[z]).drop_last();
                    if wp {
                        lemma_ready_done(asked, before, orig0, t, e, out0, out@, k as int, pending@, orig);
                    }
                }
            },
            None => {
                let n = pending.len();
                let mut any_stack = false;
                let mut c: usize = n;
                let mut j: usize = 0;
                while j < n
                    invariant
                        n == pending@.len(),
                        j <= n,
                        c <= n,
                        c < n ==> reads_program(pending@, t, e, c as int),
                        c == n ==> forall|j2: int|
                            0 <= j2 < j ==> !#[trigger] reads_program(pending@, t, e, j2),
                        !any_stack ==> forall|j2: int|
                            0 <= j2 < j ==> !(#[trigger] pending@[j2]).from.spec_is_stack()
                                && !pending@[j2].to.spec_is_stack(),
                    decreases n - j,
                {
                    let m = pending[j];
                    if m.from.is_stack() || m.to.is_stack() {
                        any_stack = true;
                    }
                    if c == n && m.from != t && m.from != e {
                        c = j;
                    }
                    j += 1;
                }
                if c < n {
                    let save = if any_stack {
                        e
                    } else {
                        t
                    };
                    let m = pending[c];
                    emit(&mut out, m.from, save, m.vreg, scratch);
                    pending.set(c, ParallelMove { from: save, to: m.to, vreg: m.vreg });
                    proof {
                        lemma_named_more(asked, out0, out@, m.vreg);
                        assert forall|i: int| 0 <= i < pending@.len() implies vreg_asked(
                            asked,
                            (#[trigger] pending@[i]).vreg,
                        ) by {
                            assert(pending@[i].vreg == before[i].vreg);
                        }
                        let f = |k: int| reads_program(before, t, e, k);
                        let g = |k: int| reads_program(pending@, t, e, k);
                        assert forall|k: int| 0 <= k < n && k != c implies #[trigger] f(k) == g(
                            k,
                        ) by {
                            assert(pending@[k] == before[k]);
                        }
                        lemma_count_less(f, g, n as int, c as int);
                        lemma_count_bounds(g, n as int);
                        if wp {
                            lemma_saved(asked, before, orig0, t, e, out0, out@, c as int, save, pending@);
                        }
                    }
                } else {
                    proof {
                        if wp {
                            lemma_stuck_reads_program(before, t, e, 0);
                            assert(reads_program(before, t, e, 0));
                        }
                    }
                    // every pending move reads a saved value: nothing
                    // of the program is read any more
                    let mut j: usize = 0;
                    while j < n
                        invariant
                            n == pending@.len(),
                            j <= n,
                            no_stack_to_stack(out@),
                            all_named(asked, out@),
                            forall|k: int|
                                0 <= k < pending@.len() ==> vreg_asked(
                                    asked,
                                    (#[trigger] pending@[k]).vreg,
                                ),
                        decreases n - j,
                    {
                        let m = pending[j];
                        let ghost out1 = out@;
                        emit(&mut out, m.from, m.to, m.vreg, scratch);
                        proof {
                            lemma_named_more(asked, out1, out@, m.vreg);
                        }
                        j += 1;
                    }
                    pending.clear();
                    proof {
                        orig = Seq::empty();
                    }
                }
            },
        }
    }
    out
}

/// Edits that name vregs of the moves still do so when edits that name
/// one more vreg of the moves come after them.
proof fn lemma_named_more(moves: Seq<ParallelMove>, before: Seq<Edit>, after: Seq<Edit>, vreg: VReg)
    requires
        all_named(moves, before),
        vreg_asked(moves, vreg),
        before.len() <= after.len(),
        forall|k: int| 0 <= k < before.len() ==> #[trigger] after[k] == before[k],
        forall|k: int| before.len() <= k < after.len() ==> is_move_of(#[trigger] after[k], vreg),
    ensures
        all_named(moves, after),
{
    assert forall|k: int| 0 <= k < after.len() implies names_vreg(moves, #[trigger] after[k]) by {
        if k < before.len() {
            assert(after[k] == before[k]);
        } else {
            assert(is_move_of(after[k], vreg));
        }
    }
}

/// A pending move whose destination no other pending move reads can
/// be made: what was known of the pending moves and the edits is known
/// of the moves that are left and the edits with that move.
proof fn lemma_ready_done(
    asked: Seq<ParallelMove>,
    before: Seq<ParallelMove>,
    orig0: Seq<Allocation>,
    t: Allocation,
    e: Allocation,
    out0: Seq<Edit>,
    out: Seq<Edit>,
    k: int,
    pending: Seq<ParallelMove>,
    orig: Seq<Allocation>,
)
    requires
        well_posed(asked, t, e),
        t.spec_is_reg(),
        pending_ok(asked, before, orig0, t, e),
        edits_ok(asked, before, orig0, t, e, out0),
        0 <= k < before.len(),
        is_ready(before, k),
        pending == before.update(k, before[before.len() - 1]).drop_last(),
        orig == orig0.update(k, orig0[before.len() - 1]).drop_last(),
        forall|s: spec_fn(Allocation) -> int, a: Allocation| #[trigger]
            value_after(s, out, a) == if before[k].from == before[k].to {
                value_after(s, out0, a)
            } else if a == before[k].to || (before[k].from.spec_is_stack()
                && before[k].to.spec_is_stack() && a == t) {
                value_after(s, out0, before[k].from)
            } else {
                value_after(s, out0, a)
            },
    ensures
        pending_ok(asked, pending, orig, t, e),
        edits_ok(asked, pending, orig, t, e, out),
{
    let z = before.len() - 1;
    let m = before[k];
    // where each move that is left stood before
    assert forall|i: int| 0 <= i < pending.len() implies {
        let was = if i == k {
            z
        } else {
            i
        };
        &&& #[trigger] pending[i] == before[was]
        &&& orig[i] == orig0[was]
        &&& was != k
    } by {}
    assert forall|j: int, i: int| 0 <= j < i < pending.len() implies (#[trigger] pending[j]).to != (
    #[trigger] pending[i]).to by {
        let wj = if j == k {
            z
        } else {
            j
        };
        let wi = if i == k {
            z
        } else {
            i
        };
        assert(pending[j] == before[wj] && pending[i] == before[wi]);
        if wj < wi {
            assert(before[wj].to != before[wi].to);
        } else {
            assert(before[wi].to != before[wj].to);
        }
    }
    assert forall|i: int| 0 <= i < pending.len() implies {
        &&& (#[trigger] pending[i]).to != t
        &&& pending[i].to != e
        &&& orig[i] != t
        &&& orig[i] != e
        &&& pending[i].from == orig[i] || pending[i].from == t || pending[i].from == e
        &&& asked_for(asked, pending[i].to, orig[i])
    } by {
        let was = if i == k {
            z
        } else {
            i
        };
        assert(pending[i] == before[was]);
        assert(asked_for(asked, before[was].to, orig0[was]));
    }
    if exists|i: int| 0 <= i < pending.len() && (#[trigger] pending[i]).from == t {
        let i = choose|i: int| 0 <= i < pending.len() && (#[trigger] pending[i]).from == t;
        let was = if i == k {
            z
        } else {
            i
        };
        assert(before[was].from == t);
        assert forall|i2: int| 0 <= i2 < pending.len() implies !(
        #[trigger] pending[i2]).from.spec_is_stack() && !pending[i2].to.spec_is_stack() by {
            let was2 = if i2 == k {
                z
            } else {
                i2
            };
            assert(pending[i2] == before[was2]);
        }
    }
    // the scratch register is written only where no pending move reads it
    let through = m.from != m.to && m.from.spec_is_stack() && m.to.spec_is_stack();
    if through {
        assert forall|i: int| 0 <= i < before.len() implies (#[trigger] before[i]).from != t by {
            if before[i].from == t {
                assert(!before[k].from.spec_is_stack());
            }
        }
    }
    assert forall|s: spec_fn(Allocation) -> int, i: int|
        0 <= i < pending.len() implies #[trigger] value_after(s, out, pending[i].from) == s(
        orig[i],
    ) by {
        let was = if i == k {
            z
        } else {
            i
        };
        assert(pending[i] == before[was]);
        assert(before[was].from != m.to);
        assert(value_after(s, out0, before[was].from) == s(orig0[was]));
    }
    assert forall|s: spec_fn(Allocation) -> int, a: Allocation|
        a != t && a != e && (forall|i: int|
            0 <= i < pending.len() ==> (#[trigger] pending[i]).to != a) implies #[trigger] value_after(
        s,
        out,
        a,
    ) == value_parallel(s, asked, asked.len() as int, a) by {
        if a == m.to {
            assert(asked_for(asked, before[k].to, orig0[k]));
            let j = choose|j: int|
                0 <= j < asked.len() && (#[trigger] asked[j]).to == before[k].to && asked[j].from
                    == orig0[k];
            lemma_parallel_at(s, asked, asked.len() as int, j);
            assert(value_after(s, out0, before[k].from) == s(orig0[k]));
        } else {
            assert forall|i: int| 0 <= i < before.len() implies (#[trigger] before[i]).to != a by {
                if i == k {
                } else if i == z {
                    assert(pending[k] == before[z]);
                } else {
                    assert(pending[i] == before[i]);
                }
            }
        }
    }
}

/// The source of a pending move can be saved where no pending move
/// reads a saved value: what was known of the pending moves and the
/// edits is known once the move reads the saved value.
proof fn lemma_saved(
    asked: Seq<ParallelMove>,
    before: Seq<ParallelMove>,
    orig: Seq<Allocation>,
    t: Allocation,
    e: Allocation,
    out0: Seq<Edit>,
    out: Seq<Edit>,
    c: int,
    save: Allocation,
    pending: Seq<ParallelMove>,
)
    requires
        well_posed(asked, t, e),
        t.spec_is_reg(),
        e.spec_is_stack(),
        pending_ok(asked, before, orig, t, e),
        edits_ok(asked, before, orig, t, e, out0),
        0 <= c < before.len(),
        forall|k: int| 0 <= k < before.len() ==> #[trigger] is_read(before, k),
        save == t || save == e,
        save == t ==> forall|k: int|
            0 <= k < before.len() ==> !(#[trigger] before[k]).from.spec_is_stack()
                && !before[k].to.spec_is_stack(),
        pending == before.update(
            c,
            ParallelMove { from: save, to: before[c].to, vreg: before[c].vreg },
        ),
        forall|s: spec_fn(Allocation) -> int, a: Allocation| #[trigger]
            value_after(s, out, a) == if before[c].from == save {
                value_after(s, out0, a)
            } else if a == save || (before[c].from.spec_is_stack() && save.spec_is_stack() && a
                == t) {
                value_after(s, out0, before[c].from)
            } else {
                value_after(s, out0, a)
            },
    ensures
        pending_ok(asked, pending, orig, t, e),
        edits_ok(asked, pending, orig, t, e, out),
{
    assert forall|k: int| 0 <= k < before.len() implies (#[trigger] before[k]).from != t
        && before[k].from != e by {
        lemma_stuck_reads_program(before, t, e, k);
    }
    assert forall|j: int, i: int| 0 <= j < i < pending.len() implies (#[trigger] pending[j]).to != (
    #[trigger] pending[i]).to by {
        assert(pending[j].to == before[j].to && pending[i].to == before[i].to);
    }
    assert forall|i: int| 0 <= i < pending.len() implies {
        &&& (#[trigger] pending[i]).to != t
        &&& pending[i].to != e
        &&& orig[i] != t
        &&& orig[i] != e
        &&& pending[i].from == orig[i] || pending[i].from == t || pending[i].from == e
        &&& asked_for(asked, pending[i].to, orig[i])
    } by {
        assert(pending[i].to == before[i].to);
        if i != c {
            assert(pending[i] == before[i]);
        }
        assert(asked_for(asked, before[i].to, orig[i]));
    }
    if exists|i: int| 0 <= i < pending.len() && (#[trigger] pending[i]).from == t {
        let i = choose|i: int| 0 <= i < pending.len() && (#[trigger] pending[i]).from == t;
        if i != c {
            assert(pending[i] == before[i]);
        }
        assert(save == t);
        assert forall|i2: int| 0 <= i2 < pending.len() implies !(
        #[trigger] pending[i2]).from.spec_is_stack() && !pending[i2].to.spec_is_stack() by {
            assert(pending[i2].to == before[i2].to);
            if i2 != c {
                assert(pending[i2] == before[i2]);
            }
        }
    }
    assert forall|s: spec_fn(Allocation) -> int, i: int|
        0 <= i < pending.len() implies #[trigger] value_after(s, out, pending[i].from) == s(
        orig[i],
    ) by {
        assert(value_after(s, out0, before[i].from) == s(orig[i]));
        assert(before[i].from != t && before[i].from != e);
        if i != c {
            assert(pending[i] == before[i]);
        } else {
            assert(value_after(s, out0, before[c].from) == s(orig[c]));
        }
    }
    assert forall|s: spec_fn(Allocation) -> int, a: Allocation|
        a != t && a != e && (forall|i: int|
            0 <= i < pending.len() ==> (#[trigger] pending[i]).to != a) implies #[trigger] value_after(
        s,
        out,
        a,
    ) == value_parallel(s, asked, asked.len() as int, a) by {
        assert forall|i: int| 0 <= i < before.len() implies (#[trigger] before[i]).to != a by {
            assert(pending[i].to == before[i].to);
        }
    }
}

} // verus!
