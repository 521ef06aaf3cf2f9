//! Where the labelled values of the client are to be found.

use vstd::prelude::*;
use crate::allocation::Allocation;
use crate::function::{Program, ProgramModel};
use crate::homes::Hulls;
use crate::point::ProgPoint;

verus! {

/// A labelled value in a location from one point up to another.
pub type DebugRange = (u32, ProgPoint, ProgPoint, Allocation);

/// Whether a range answers a request of the program: it has the label
/// of the request, lies within the instructions of the request, and its
/// location is the home of the vreg of the request.
pub open spec fn answers(m: ProgramModel, homes: Seq<Allocation>, range: DebugRange, r: int) -> bool {
    let request = m.debug_value_labels[r];
    &&& 0 <= r < m.debug_value_labels.len()
    &&& request.3 == range.0
    &&& request.2.spec_vreg() < homes.len()
    &&& range.3 == homes[request.2.spec_vreg() as int]
    &&& !range.3.spec_is_none()
    &&& 2 * request.0.0 <= range.1.spec_to_index()
    &&& range.2.spec_to_index() <= 2 * request.1.0
}

/// Whether a range answers some request of the program.
pub open spec fn answered(m: ProgramModel, homes: Seq<Allocation>, range: DebugRange) -> bool {
    exists|r: int| answers(m, homes, range, r)
}

/// What the debug locations owe: every range is not empty and answers
/// a request; the ranges are in the order of their labels, and those of
/// one label in the order of their points, none reaching into the next.
pub open spec fn debug_ok(m: ProgramModel, homes: Seq<Allocation>, list: Seq<DebugRange>) -> bool {
    &&& forall|a: int|
        0 <= a < list.len() ==> (#[trigger] list[a]).1.spec_to_index() < list[a].2.spec_to_index()
    &&& forall|a: int, b: int|
        0 <= a < b < list.len() ==> (#[trigger] list[a]).0 < (#[trigger] list[b]).0 || (list[a].0
            == list[b].0 && list[a].2.spec_to_index() <= list[b].1.spec_to_index())
    &&& forall|a: int| 0 <= a < list.len() ==> answered(m, homes, #[trigger] list[a])
}

/// A range that is still to be put in its place: label, first point,
/// end point, location.
pub type Pending = (u32, u32, u32, Allocation);

spec fn as_range(c: Pending) -> DebugRange {
    (c.0, ProgPoint::spec_from_index(c.1), ProgPoint::spec_from_index(c.2), c.3)
}

spec fn pending_ok(m: ProgramModel, homes: Seq<Allocation>, c: Pending) -> bool {
    c.1 < c.2 && answered(m, homes, as_range(c))
}

/// For every request the range in which its vreg rests in its home,
/// as far as the request reaches.
fn collect(p: &Program, homes: &Vec<Allocation>, hulls: &Hulls) -> (r: Vec<Pending>)
    requires
        p@.within_limits(),
        homes@.len() == p@.num_vregs,
        hulls.shaped(p@),
    ensures
        r@ == wanted(p@, homes@, hulls.lo@, hulls.hi@, p@.debug_value_labels.len() as int),
        forall|a: int| 0 <= a < r@.len() ==> pending_ok(p@, homes@, #[trigger] r@[a]),
{
    let ghost m = p@;
    let n = p.insts.len();
    let mut out: Vec<Pending> = Vec::new();
    let mut k: usize = 0;
    while k < p.debug_value_labels.len()
        invariant
            m == p@,
            m.within_limits(),
            n == p.insts.len(),
            homes@.len() == m.num_vregs,
            hulls.shaped(m),
            k <= p.debug_value_labels.len(),
            out@ == wanted(m, homes@, hulls.lo@, hulls.hi@, k as int),
            forall|a: int| 0 <= a < out@.len() ==> pending_ok(m, homes@, #[trigger] out@[a]),
        decreases p.debug_value_labels.len() - k,
    {
        let ghost so_far = out@;
        let (start, end, vreg, label) = p.debug_value_labels[k];
        let id = vreg.vreg();
        if id < p.num_vregs && (start.0 as usize) < n && (end.0 as usize) <= n {
            let home = homes[id];
            let lo = hulls.lo[id];
            let hi = hulls.hi[id];
            let from = if lo > 2 * (start.0 as usize) {
                lo
            } else {
                2 * (start.0 as usize)
            };
            let to = if hi + 1 < 2 * (end.0 as usize) {
                hi + 1
            } else {
                2 * (end.0 as usize)
            };
            if home.is_some() && from < to {
                let c: Pending = (label, from as u32, to as u32, home);
                proof {
                    crate::point::lemma_progpoint_index_round_trip(
                        ProgPoint::spec_from_index(0),
                        from as u32,
                    );
                    crate::point::lemma_progpoint_index_round_trip(
                        ProgPoint::spec_from_index(0),
                        to as u32,
                    );
                    assert(answers(m, homes@, as_range(c), k as int));
                }
                let ghost before = out@;
                out.push(c);
                assert forall|a: int| 0 <= a < out@.len() implies pending_ok(
                    m,
                    homes@,
                    #[trigger] out@[a],
                ) by {
                    if a < before.len() {
                        assert(out@[a] == before[a]);
                    }
                }
            }
        }
        assert(out@ == match wanted_at(m, homes@, hulls.lo@, hulls.hi@, k as int) {
            Some(c) => so_far.push(c),
            None => so_far,
        });
        k += 1;
    }
    out
}

/// The index of a pending range with the least label, and among those
/// with the least first point.
fn least(pending: &Vec<Pending>) -> (r: usize)
    requires
        pending@.len() > 0,
    ensures
        r < pending@.len(),
        forall|a: int| 0 <= a < pending@.len() ==> not_after(pending@[r as int], #[trigger] pending@[a]),
{
    let mut best: usize = 0;
    let mut k: usize = 1;
    while k < pending.len()
        invariant
            1 <= k <= pending@.len(),
            best < k,
            forall|a: int| 0 <= a < k ==> not_after(pending@[best as int], #[trigger] pending@[a]),
        decreases pending.len() - k,
    {
        let c = pending[k];
        let b = pending[best];
        if c.0 < b.0 || (c.0 == b.0 && c.1 < b.1) {
            best = k;
        }
        k += 1;
    }
    best
}

/// The debug locations of the program: for every request the range in
/// which its vreg rests in its home, cut down where ranges of one label
/// would reach into each other, in the order of labels and points.
/// Every range is a part of one that was asked for, and every point
/// that was asked for under a label lies in a range of that label.
pub(crate) fn build_debug_locations(p: &Program, homes: &Vec<Allocation>, hulls: &Hulls) -> (list: Vec<
    DebugRange,
>)
    requires
        p@.within_limits(),
        homes@.len() == p@.num_vregs,
        hulls.shaped(p@),
    ensures
        debug_ok(p@, homes@, list@),
        debug_exact(
            wanted(p@, homes@, hulls.lo@, hulls.hi@, p@.debug_value_labels.len() as int),
            list@,
        ),
{
    let ghost m = p@;
    let mut pending = collect(p, homes, hulls);
    let ghost asked = pending@;
    let ghost mut base: int = 0;
    let mut list: Vec<DebugRange> = Vec::new();
    assert forall|k: int| 0 <= k < asked.len() implies pending@.contains(#[trigger] asked[k]) by {
        assert(pending@[k] == asked[k]);
    }
    while pending.len() > 0
        invariant
            forall|a: int| 0 <= a < pending@.len() ==> pending_ok(m, homes@, #[trigger] pending@[a]),
            debug_ok(m, homes@, list@),
            forall|a: int, c: int|
                0 <= a < list@.len() && 0 <= c < pending@.len() ==> (#[trigger] list@[a]).0 <= (
                #[trigger] pending@[c]).0,
            forall|a: int| 0 <= a < pending@.len() ==> asked.contains(#[trigger] pending@[a]),
            forall|a: int| 0 <= a < list@.len() ==> taken(asked, #[trigger] list@[a]),
            forall|k: int|
                0 <= k < asked.len() ==> pending@.contains(#[trigger] asked[k]) || shows_all(
                    list@,
                    asked[k],
                ),
            list@.len() > 0 ==> run_shown(list@, pending@, base),
        decreases pending@.len(),
    {
        let at = least(&pending);
        let c = pending[at];
        let ghost before = pending@;
        let ghost old_list = list@;
        let last = pending[pending.len() - 1];
        pending.set(at, last);
        pending.pop();
        assert forall|a: int| 0 <= a < pending@.len() implies pending_ok(
            m,
            homes@,
            #[trigger] pending@[a],
        ) && c.0 <= pending@[a].0 && not_after(c, pending@[a]) && asked.contains(pending@[a])
            && before.contains(pending@[a]) by {
            if a == at {
                assert(pending@[a] == before[before.len() - 1]);
            } else {
                assert(pending@[a] == before[a]);
            }
        }
        assert(pending_ok(m, homes@, c) && asked.contains(c)) by {
            assert(c == before[at as int]);
        }
        assert forall|k: int| 0 <= k < asked.len() implies asked[k] == c || pending@.contains(
            #[trigger] asked[k],
        ) || shows_all(old_list, asked[k]) by {
            if before.contains(asked[k]) {
                let i = choose|i: int| 0 <= i < before.len() && before[i] == asked[k];
                if i == at {
                } else if i == before.len() - 1 {
                    assert(pending@[at as int] == asked[k]);
                } else {
                    assert(pending@[i] == asked[k]);
                }
            }
        }
        let mut from = c.1;
        if list.len() > 0 {
            let prev = list[list.len() - 1];
            if prev.0 == c.0 && prev.2.to_index() > from {
                from = prev.2.to_index();
                assert(base <= before[at as int].1);
            }
        }
        assert(c.1 <= from);
        assert(from != c.1 ==> old_list.len() > 0 && old_list[old_list.len() - 1].0 == c.0
            && old_list[old_list.len() - 1].2.spec_to_index() == from && base <= c.1);
        if from < c.2 {
            let range: DebugRange = (c.0, ProgPoint::from_index(from), ProgPoint::from_index(c.2), c.3);
            list.push(range);
            proof {
                let r = choose|r: int| answers(m, homes@, as_range(c), r);
                crate::point::lemma_progpoint_index_round_trip(range.1, c.1);
                crate::point::lemma_progpoint_index_round_trip(range.2, c.2);
                assert(answers(m, homes@, range, r));
                assert forall|a: int| 0 <= a < list@.len() implies (
                #[trigger] list@[a]).1.spec_to_index() < list@[a].2.spec_to_index() by {
                    if a < old_list.len() {
                        assert(list@[a] == old_list[a]);
                    }
                }
                assert forall|a: int| 0 <= a < list@.len() implies answered(
                    m,
                    homes@,
                    #[trigger] list@[a],
                ) by {
                    if a < old_list.len() {
                        assert(list@[a] == old_list[a]);
                    } else {
                        assert(list@[a] == range);
                        assert(answers(m, homes@, list@[a], r));
                    }
                }
                assert forall|a: int, b: int| 0 <= a < b < list@.len() implies (
                #[trigger] list@[a]).0 < (#[trigger] list@[b]).0 || (list@[a].0 == list@[b].0
                    && list@[a].2.spec_to_index() <= list@[b].1.spec_to_index()) by {
                    assert(list@[a] == old_list[a]);
                    if b < old_list.len() {
                        assert(list@[b] == old_list[b]);
                    } else {
                        let z = old_list.len() - 1;
                        assert(old_list[a].0 <= c.0) by {
                            assert(old_list[a].0 <= before[at as int].0);
                        }
                        if old_list[a].0 == c.0 {
                            assert(old_list[z].0 <= before[at as int].0);
                            if a < z {
                                assert(old_list[a].0 < old_list[z].0 || (old_list[a].0
                                    == old_list[z].0 && old_list[a].2.spec_to_index()
                                    <= old_list[z].1.spec_to_index()));
                                assert(old_list[z].1.spec_to_index() < old_list[z].2.spec_to_index());
                            }
                        }
                    }
                }
                assert forall|a: int, d: int|
                    0 <= a < list@.len() && 0 <= d < pending@.len() implies (
                #[trigger] list@[a]).0 <= (#[trigger] pending@[d]).0 by {
                    if a < old_list.len() {
                        assert(list@[a] == old_list[a]);
                        if d == at {
                            assert(pending@[d] == before[before.len() - 1]);
                        } else {
                            assert(pending@[d] == before[d]);
                        }
                    }
                }
                assert(list@ == old_list.push(range));
                assert forall|a: int| 0 <= a < list@.len() implies taken(
                    asked,
                    #[trigger] list@[a],
                ) by {
                    if a < old_list.len() {
                        assert(list@[a] == old_list[a]);
                    } else {
                        let k = choose|k: int| 0 <= k < asked.len() && asked[k] == c;
                        assert(cut_from(list@[a], asked[k]));
                    }
                }
                lemma_span_last(old_list, range);
                if from != c.1 {
                    lemma_span_push(old_list, range, c.0, base, from as int);
                } else {
                    base = c.1 as int;
                }
                assert(shows_span(list@, c.0, base, c.2 as int));
                assert(shows_all(list@, c));
                assert forall|k: int| 0 <= k < asked.len() implies pending@.contains(
                    #[trigger] asked[k],
                ) || shows_all(list@, asked[k]) by {
                    if asked[k] != c && !pending@.contains(asked[k]) {
                        lemma_span_push(
                            old_list,
                            range,
                            asked[k].0,
                            asked[k].1 as int,
                            asked[k].2 as int,
                        );
                    }
                }
                assert(run_shown(list@, pending@, base));
            }
        } else {
            assert forall|a: int, d: int|
                0 <= a < list@.len() && 0 <= d < pending@.len() implies (#[trigger] list@[a]).0 <= (
            #[trigger] pending@[d]).0 by {
                if d == at {
                    assert(pending@[d] == before[before.len() - 1]);
                } else {
                    assert(pending@[d] == before[d]);
                }
            }
            assert(shows_all(list@, c));
            assert(run_shown(list@, pending@, base));
        }
    }
    list
}

/// Whether the first of two pending ranges does not come after the
/// second: its label is less, or the labels are one and its first point
/// is not beyond the other's.
pub open spec fn not_after(c: Pending, d: Pending) -> bool {
    c.0 < d.0 || (c.0 == d.0 && c.1 <= d.1)
}

/// What one request asks for, if anything: its label, the points from
/// which and up to which the vreg of the request rests in its home
/// within the instructions of the request, and that home. A request
/// whose vreg or instructions the program does not have, whose vreg
/// has no home, or that leaves no point asks for nothing.
pub open spec fn wanted_at(
    m: ProgramModel,
    homes: Seq<Allocation>,
    lo: Seq<usize>,
    hi: Seq<usize>,
    k: int,
) -> Option<Pending> {
    let request = m.debug_value_labels[k];
    let id = request.2.spec_vreg() as int;
    let from = if lo[id] > 2 * request.0.0 {
        lo[id] as int
    } else {
        2 * request.0.0
    };
    let to = if hi[id] + 1 < 2 * request.1.0 {
        hi[id] + 1
    } else {
        2 * request.1.0
    };
    if id < m.num_vregs && request.0.0 < m.insts.len() && request.1.0 <= m.insts.len()
        && homes[id].spec_is_some() && from < to {
        Some((request.3, from as u32, to as u32, homes[id]))
    } else {
        None
    }
}

/// What the first `k` requests of the program ask for, in their order.
pub open spec fn wanted(
    m: ProgramModel,
    homes: Seq<Allocation>,
    lo: Seq<usize>,
    hi: Seq<usize>,
    k: int,
) -> Seq<Pending>
    decreases k,
{
    if k <= 0 {
        Seq::empty()
    } else {
        match wanted_at(m, homes, lo, hi, k - 1) {
            Some(c) => wanted(m, homes, lo, hi, k - 1).push(c),
            None => wanted(m, homes, lo, hi, k - 1),
        }
    }
}

/// Whether a range is a part of what was asked for with `c`: the label
/// and the location are those of `c`, and the range lies within it.
pub open spec fn cut_from(range: DebugRange, c: Pending) -> bool {
    &&& range.0 == c.0
    &&& range.3 == c.3
    &&& c.1 <= range.1.spec_to_index()
    &&& range.2.spec_to_index() <= c.2
}

/// Whether a range is a part of something that was asked for.
pub open spec fn taken(asked: Seq<Pending>, range: DebugRange) -> bool {
    exists|k: int| 0 <= k < asked.len() && cut_from(range, #[trigger] asked[k])
}

/// Whether some range of the list has the label and holds the point.
pub open spec fn shown(list: Seq<DebugRange>, label: u32, pt: int) -> bool {
    exists|a: int|
        0 <= a < list.len() && (#[trigger] list[a]).0 == label && list[a].1.spec_to_index() <= pt
            < list[a].2.spec_to_index()
}

/// Whether every point from `from` up to `to` lies in a range of the
/// list with the label.
pub open spec fn shows_span(list: Seq<DebugRange>, label: u32, from: int, to: int) -> bool {
    forall|pt: int| from <= pt < to ==> #[trigger] shown(list, label, pt)
}

/// Whether every point that was asked for with `c` lies in a range of
/// the list with the label of `c`.
pub open spec fn shows_all(list: Seq<DebugRange>, c: Pending) -> bool {
    shows_span(list, c.0, c.1 as int, c.2 as int)
}

/// What the debug locations owe to what was asked for: every range is
/// a part of something asked for, with its label and its location, and
/// nothing asked for is left out: every point of it lies in a range
/// with its label.
pub open spec fn debug_exact(asked: Seq<Pending>, list: Seq<DebugRange>) -> bool {
    &&& forall|a: int| 0 <= a < list.len() ==> taken(asked, #[trigger] list[a])
    &&& forall|k: int| 0 <= k < asked.len() ==> shows_all(list, #[trigger] asked[k])
}

/// While the ranges are put in their places: the points from `base` up
/// to the end of the last range are shown under its label, and what is
/// still pending does not begin before `base` under that label, nor
/// under a lesser one.
spec fn run_shown(list: Seq<DebugRange>, pending: Seq<Pending>, base: int) -> bool {
    let last = list[list.len() - 1];
    &&& shows_span(list, last.0, base, last.2.spec_to_index() as int)
    &&& forall|j: int|
        0 <= j < pending.len() ==> last.0 < (#[trigger] pending[j]).0 || (last.0 == pending[j].0
            && base <= pending[j].1)
}

/// What a list shows, it shows with one more range at its end.
proof fn lemma_span_push(list: Seq<DebugRange>, range: DebugRange, label: u32, from: int, to: int)
    requires
        shows_span(list, label, from, to),
    ensures
        shows_span(list.push(range), label, from, to),
{
    let longer = list.push(range);
    assert forall|pt: int| from <= pt < to implies #[trigger] shown(longer, label, pt) by {
        assert(shown(list, label, pt));
        let a = choose|a: int|
            0 <= a < list.len() && (#[trigger] list[a]).0 == label && list[a].1.spec_to_index()
                <= pt < list[a].2.spec_to_index();
        assert(longer[a] == list[a]);
    }
}

/// A list shows the points of its last range.
proof fn lemma_span_last(list: Seq<DebugRange>, range: DebugRange)
    ensures
        shows_span(
            list.push(range),
            range.0,
            range.1.spec_to_index() as int,
            range.2.spec_to_index() as int,
        ),
{
    let longer = list.push(range);
    assert forall|pt: int|
        range.1.spec_to_index() <= pt < range.2.spec_to_index() implies #[trigger] shown(
        longer,
        range.0,
        pt,
    ) by {
        assert(longer[list.len() as int] == range);
    }
}

} // verus!
