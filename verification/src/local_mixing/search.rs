//! The selection of a convex chain of gates and the permutation that moves
//! it into one block.
use super::convex::{
    blocked, convex, is_candidate, is_chain, is_selection, lemma_extend_convex, lemma_single_convex,
    lemma_tainted_after_first, meets_selected, selected, tainted, touches_blocked,
};
use super::marks::WireMarks;
use super::permute::{
    block_start, chosen, lemma_permuted_equivalent, lemma_permuted_shape, part, permuted, Place,
};
use crate::circuit::circuit::{collides, Circuit, Gate};
use crate::circuit::semantics::equivalent;
use crate::random::RandomSource;
use vstd::prelude::*;

verus! {

/// Whether gate `i` collides with a selected gate that stands before it.
fn collides_with_selected(circuit: &Circuit, sel: &Vec<usize>, i: usize) -> (r: bool)
    requires
        is_selection(sel@, circuit.gates.len() as int),
        i < circuit.gates.len(),
    ensures
        r == meets_selected(circuit.gates@, sel@, i as int),
{
    let mut r = false;
    let mut j: usize = 0;
    while j < sel.len()
        invariant
            j <= sel.len(),
            i < circuit.gates.len(),
            is_selection(sel@, circuit.gates.len() as int),
            r == exists|k: int|
                0 <= k < j && sel[k] < i && collides(
                    circuit.gates[#[trigger] sel[k] as int],
                    circuit.gates[i as int],
                ),
        decreases sel.len() - j,
    {
        let hit = sel[j] < i && circuit.gates[sel[j]].collides_with(&circuit.gates[i]);
        proof {
            if hit {
                assert(0 <= j < j + 1 && sel[j as int] < i && collides(
                    circuit.gates[sel[j as int] as int],
                    circuit.gates[i as int],
                ));
            }
        }
        r = r || hit;
        j += 1;
    }
    r
}

/// The gates that may be selected next after the gates of `sel`: those
/// behind the last selected gate that collide with it and with no gate that
/// the scan has counted as connected to the selection.  The scan begins
/// behind the first selected gate and ends early once every wire is a
/// target, or every wire a control, of a gate it has counted.
pub fn candidate_next_gates(circuit: &Circuit, sel: &Vec<usize>) -> (cands: Vec<usize>)
    requires
        circuit.wf(),
        is_selection(sel@, circuit.gates.len() as int),
    ensures
        forall|a: int, b: int| 0 <= a < b < cands.len() ==> cands[a] < cands[b],
        forall|j: usize| cands@.contains(j) <==> is_candidate(circuit.gates@, sel@, j as int),
        cands.len() <= circuit.gates.len(),
        cands@ == candidates(circuit.gates@, sel@),
{
    let num_gates = circuit.gates.len();
    let latest = sel[sel.len() - 1];
    let ghost gates = circuit.gates@;
    let ghost member = |d: int| blocked(circuit.gates@, sel@, d);
    let mut marks = WireMarks::new(circuit.num_wires);
    let mut cands: Vec<usize> = Vec::new();
    let mut seen: usize = 1;
    let mut i: usize = sel[0] + 1;
    let mut full = false;
    proof {
        assert(marks.covers(gates, member, 0));
        lemma_nothing_blocked_early(gates, sel@, member, marks, i as int);
    }
    while i < num_gates && !full
        invariant
            circuit.wf(),
            is_selection(sel@, num_gates as int),
            num_gates == circuit.gates.len(),
            gates == circuit.gates@,
            member == (|d: int| blocked(circuit.gates@, sel@, d)),
            latest == sel@.last(),
            sel[0] < i <= num_gates,
            1 <= seen <= sel.len(),
            forall|k: int| 0 <= k < seen ==> sel[k] < i,
            seen < sel.len() ==> i <= sel[seen as int],
            marks.targets.len() == circuit.num_wires,
            marks.covers(gates, member, i as int),
            cands.len() <= i,
            forall|a: int, b: int| 0 <= a < b < cands.len() ==> cands[a] < cands[b],
            forall|a: int| 0 <= a < cands.len() ==> cands[a] < i,
            forall|j: usize| cands@.contains(j) <==> j < i && is_candidate(gates, sel@, j as int),
            full ==> forall|j: int| i <= j < num_gates ==> !is_candidate(gates, sel@, j),
        decreases num_gates - i, !full as int,
    {
        let ghost cands_before = cands@;
        let ghost mut now_candidate = false;
        if seen < sel.len() && i == sel[seen] {
            proof {
                assert(selected(sel@, i as int));
                assert(!blocked(gates, sel@, i as int));
                marks.lemma_skip(gates, member, i as int);
                assert(!is_candidate(gates, sel@, i as int)) by {
                    assert(sel@.last() >= sel[seen as int]);
                }
            }
            seen += 1;
        } else {
            proof {
                assert(!selected(sel@, i as int)) by {
                    if selected(sel@, i as int) {
                        let k = choose|k: int| 0 <= k < sel.len() && #[trigger] sel[k] == i;
                        if k < seen {
                        } else if k == seen {
                        } else {
                            assert(sel[seen as int] < sel[k]);
                        }
                    }
                }
                assert(circuit.gates[i as int].fits(circuit.num_wires as int));
            }
            let g = &circuit.gates[i];
            let meets = collides_with_selected(circuit, sel, i);
            let touches = marks.touches(g);
            proof {
                marks.lemma_hit(gates, member, i as int, *g);
                assert(touches == touches_blocked(gates, sel@, i as int)) by {
                    if touches {
                        let d = choose|d: int|
                            0 <= d < i && member(d) && #[trigger] collides(gates[d], *g);
                        assert(blocked(gates, sel@, d) && collides(gates[d], gates[i as int]));
                    }
                    if touches_blocked(gates, sel@, i as int) {
                        let d = choose|d: int|
                            0 <= d < i && blocked(gates, sel@, d) && #[trigger] collides(
                                gates[d],
                                gates[i as int],
                            );
                        assert(member(d) && collides(gates[d], *g));
                    }
                }
            }
            if touches {
                marks.add(g, Ghost(gates), Ghost(member), Ghost(i as int));
            } else if latest < i && circuit.gates[latest].collides_with(g) {
                cands.push(i);
                proof {
                    now_candidate = true;
                    assert(is_candidate(gates, sel@, i as int));
                }
                marks.add(g, Ghost(gates), Ghost(member), Ghost(i as int));
            } else if meets {
                marks.add(g, Ghost(gates), Ghost(member), Ghost(i as int));
            } else {
                proof {
                    assert(!blocked(gates, sel@, i as int));
                    marks.lemma_skip(gates, member, i as int);
                }
            }
        }
        proof {
            assert(now_candidate == is_candidate(gates, sel@, i as int));
            assert forall|j: usize| cands@.contains(j) <==> j < i + 1 && is_candidate(
                gates,
                sel@,
                j as int,
            ) by {
                if cands_before.contains(j) {
                    let k = choose|k: int| 0 <= k < cands_before.len() && cands_before[k] == j;
                    assert(cands@[k] == j);
                }
                if now_candidate && j == i {
                    assert(cands@[cands.len() - 1] == j);
                }
                if cands@.contains(j) {
                    let k = choose|k: int| 0 <= k < cands.len() && cands@[k] == j;
                    if k < cands_before.len() {
                        assert(cands_before[k] == j);
                        assert(cands_before.contains(j));
                    }
                }
            }
        }
        if marks.target_count == circuit.num_wires || marks.control_count == circuit.num_wires {
            full = true;
            proof {
                assert forall|j: int| i + 1 <= j < num_gates implies !is_candidate(
                    gates,
                    sel@,
                    j,
                ) by {
                    let h = gates[j];
                    assert(h.fits(circuit.num_wires as int));
                    marks.lemma_full(gates, member, i + 1, h);
                    marks.lemma_hit(gates, member, i + 1, h);
                    let d = choose|d: int|
                        0 <= d < i + 1 && member(d) && #[trigger] collides(gates[d], h);
                    assert(blocked(gates, sel@, d) && collides(gates[d], gates[j]));
                    assert(touches_blocked(gates, sel@, j));
                }
            }
        }
        i += 1;
    }
    proof {
        assert forall|j: usize| cands@.contains(j) <==> is_candidate(
            circuit.gates@,
            sel@,
            j as int,
        ) by {
            if is_candidate(gates, sel@, j as int) {
                assert(sel[0] <= sel@.last());
                if j >= i {
                    assert(full);
                }
            }
        }
        lemma_listing(cands@, |j: int| is_candidate(gates, sel@, j), num_gates as int);
    }
    cands
}

/// The numbers below `n` of which `wanted` holds, in increasing order.
pub open spec fn listing(wanted: spec_fn(int) -> bool, n: int) -> Seq<usize>
    decreases n,
{
    if n <= 0 {
        Seq::empty()
    } else if wanted(n - 1) {
        listing(wanted, n - 1).push((n - 1) as usize)
    } else {
        listing(wanted, n - 1)
    }
}

/// The gates that may be selected next after the gates of `sel`, in
/// increasing order.
pub open spec fn candidates(gates: Seq<Gate>, sel: Seq<usize>) -> Seq<usize> {
    listing(|j: int| is_candidate(gates, sel, j), gates.len() as int)
}

/// A listing of numbers below `n` has `n` items at most.
pub proof fn lemma_listing_len(wanted: spec_fn(int) -> bool, n: int)
    requires
        n >= 0,
    ensures
        listing(wanted, n).len() <= n,
    decreases n,
{
    if n > 0 {
        lemma_listing_len(wanted, n - 1);
    }
}

/// An increasing list that holds exactly the numbers below `n` of which
/// `wanted` holds is their listing.
pub proof fn lemma_listing(list: Seq<usize>, wanted: spec_fn(int) -> bool, n: int)
    requires
        0 <= n <= usize::MAX,
        forall|a: int, b: int| 0 <= a < b < list.len() ==> list[a] < list[b],
        forall|j: usize| list.contains(j) <==> (j < n && wanted(j as int)),
    ensures
        list == listing(wanted, n),
    decreases n,
{
    if n == 0 {
        if list.len() > 0 {
            assert(list.contains(list[0]));
        }
        assert(list =~= Seq::<usize>::empty());
    } else {
        let last = (n - 1) as usize;
        if wanted(n - 1) {
            assert(list.contains(last));
            let p = choose|p: int| 0 <= p < list.len() && list[p] == last;
            assert(p == list.len() - 1) by {
                if p < list.len() - 1 {
                    assert(list.contains(list[list.len() - 1]));
                }
            }
            let front = list.drop_last();
            assert forall|j: usize| front.contains(j) <==> (j < n - 1 && wanted(j as int)) by {
                if front.contains(j) {
                    let q = choose|q: int| 0 <= q < front.len() && front[q] == j;
                    assert(list[q] == j);
                    assert(list.contains(j));
                    assert(list[q] < list[p]);
                }
                if j < n - 1 && wanted(j as int) {
                    assert(list.contains(j));
                    let q = choose|q: int| 0 <= q < list.len() && list[q] == j;
                    assert(front[q] == j);
                }
            }
            lemma_listing(front, wanted, n - 1);
            assert(list =~= front.push(last));
        } else {
            assert forall|j: usize| list.contains(j) <==> (j < n - 1 && wanted(j as int)) by {
            }
            lemma_listing(list, wanted, n - 1);
        }
    }
}

/// No gate at or before the first selected gate is counted as connected.
proof fn lemma_nothing_blocked_early(
    gates: Seq<Gate>,
    sel: Seq<usize>,
    member: spec_fn(int) -> bool,
    marks: WireMarks,
    upto: int,
)
    requires
        sel.len() >= 1,
        upto == sel[0] + 1,
        marks.covers(gates, member, 0),
        member == (|d: int| blocked(gates, sel, d)),
    ensures
        marks.covers(gates, member, upto),
{
    assert forall|w: int| 0 <= w < marks.targets.len() implies (#[trigger] marks.targets[w]
        <==> exists|d: int|
        0 <= d < upto && member(d) && (#[trigger] gates[d]).wires[0] == w) by {
        if exists|d: int| 0 <= d < upto && member(d) && (#[trigger] gates[d]).wires[0] == w {
            let d = choose|d: int|
                0 <= d < upto && member(d) && (#[trigger] gates[d]).wires[0] == w;
            assert(blocked(gates, sel, d));
        }
    }
    assert forall|w: int| 0 <= w < marks.controls.len() implies (#[trigger] marks.controls[w]
        <==> exists|d: int|
        0 <= d < upto && member(d) && ((#[trigger] gates[d]).wires[1] == w || gates[d].wires[2]
            == w)) by {
        if exists|d: int|
            0 <= d < upto && member(d) && ((#[trigger] gates[d]).wires[1] == w
                || gates[d].wires[2] == w) {
            let d = choose|d: int|
                0 <= d < upto && member(d) && ((#[trigger] gates[d]).wires[1] == w
                    || gates[d].wires[2] == w);
            assert(blocked(gates, sel, d));
        }
    }
}

/// `base` to the power `e`.
pub open spec fn power(base: int, e: nat) -> int
    decreases e,
{
    if e == 0 {
        1
    } else {
        base * power(base, (e - 1) as nat)
    }
}

/// What is left to try of a search with the open lists `frames`: the list
/// for place `k` counts `base` times as much per gate as the list for place
/// `k + 1`.
pub open spec fn frames_weight(frames: Seq<Vec<usize>>, n_out: int, base: int) -> int
    decreases frames.len(),
{
    if frames.len() == 0 {
        0
    } else {
        frames_weight(frames.drop_last(), n_out, base) + frames.last().len() * power(
            base,
            (n_out - frames.len()) as nat,
        )
    }
}

proof fn lemma_power_positive(base: int, e: nat)
    requires
        base >= 1,
    ensures
        power(base, e) >= 1,
    decreases e,
{
    if e > 0 {
        lemma_power_positive(base, (e - 1) as nat);
        assert(base * power(base, (e - 1) as nat) >= 1) by (nonlinear_arith)
            requires
                base >= 1,
                power(base, (e - 1) as nat) >= 1,
        ;
    }
}

proof fn lemma_weight_nonnegative(frames: Seq<Vec<usize>>, n_out: int, base: int)
    requires
        base >= 1,
    ensures
        frames_weight(frames, n_out, base) >= 0,
    decreases frames.len(),
{
    if frames.len() > 0 {
        lemma_weight_nonnegative(frames.drop_last(), n_out, base);
        lemma_power_positive(base, (n_out - frames.len()) as nat);
        let a = frames.last().len() as int;
        let p = power(base, (n_out - frames.len()) as nat);
        assert(a * p >= 0) by (nonlinear_arith)
            requires
                a >= 0,
                p >= 1,
        ;
    }
}

/// Taking a gate from the last list and opening a list for the next place
/// leaves less to try.
proof fn lemma_weight_pick(
    frames: Seq<Vec<usize>>,
    shorter: Vec<usize>,
    opened: Vec<usize>,
    n_out: int,
    base: int,
)
    requires
        1 <= frames.len() < n_out - 1,
        shorter.len() + 1 == frames.last().len(),
        opened.len() < base,
    ensures
        frames_weight(frames.drop_last().push(shorter).push(opened), n_out, base) < frames_weight(
            frames,
            n_out,
            base,
        ),
{
    let rest = frames.drop_last();
    let mid = rest.push(shorter);
    let after = mid.push(opened);
    assert(after.drop_last() == mid);
    assert(mid.drop_last() == rest);
    let e = (n_out - frames.len() - 1) as nat;
    let q = power(base, e);
    let p = power(base, (n_out - frames.len()) as nat);
    assert((n_out - frames.len()) as nat == e + 1);
    assert(p == base * q);
    lemma_power_positive(base, e);
    let a = frames.last().len() as int;
    let b = opened.len() as int;
    assert((a - 1) * p + b * q < a * p) by (nonlinear_arith)
        requires
            p == base * q,
            q >= 1,
            0 <= b < base,
    ;
    assert(after.last() == opened);
    assert(mid.last() == shorter);
    assert(after.len() == frames.len() + 1);
    assert(mid.len() == frames.len());
    assert(frames_weight(mid, n_out, base) == frames_weight(rest, n_out, base) + (a - 1) * p);
    assert(frames_weight(after, n_out, base) == frames_weight(mid, n_out, base) + b * q);
    assert(frames_weight(frames, n_out, base) == frames_weight(rest, n_out, base) + a * p);
}

/// The open lists of a search: the list at `k` holds gates that may be
/// selected at place `k + 1` after the first `k + 1` gates of `sel`, in
/// increasing order.
pub open spec fn frames_fit(frames: Seq<Vec<usize>>, gates: Seq<Gate>, sel: Seq<usize>) -> bool {
    &&& frames.len() <= sel.len()
    &&& forall|k: int, a: int|
        0 <= k < frames.len() && 0 <= a < frames[k].len() ==> is_candidate(
            gates,
            sel.take(k + 1),
            #[trigger] frames[k][a] as int,
        )
    &&& forall|k: int, a: int, b: int|
        0 <= k < frames.len() && 0 <= a < b < frames[k].len() ==> #[trigger] frames[k][a]
            < #[trigger] frames[k][b]
    &&& forall|k: int| 0 <= k < frames.len() ==> (#[trigger] frames[k]).len() <= gates.len()
}

/// What is left to try of a search with the open lists `frames`; see
/// `frames_weight`.
pub open spec fn lists_weight(frames: Seq<Seq<usize>>, n_out: int, base: int) -> int
    decreases frames.len(),
{
    if frames.len() == 0 {
        0
    } else {
        lists_weight(frames.drop_last(), n_out, base) + frames.last().len() * power(
            base,
            (n_out - frames.len()) as nat,
        )
    }
}

proof fn lemma_lists_nonnegative(frames: Seq<Seq<usize>>, n_out: int, base: int)
    requires
        base >= 1,
    ensures
        lists_weight(frames, n_out, base) >= 0,
    decreases frames.len(),
{
    if frames.len() > 0 {
        lemma_lists_nonnegative(frames.drop_last(), n_out, base);
        lemma_power_positive(base, (n_out - frames.len()) as nat);
        let a = frames.last().len() as int;
        let p = power(base, (n_out - frames.len()) as nat);
        assert(a * p >= 0) by (nonlinear_arith)
            requires
                a >= 0,
                p >= 1,
        ;
    }
}

proof fn lemma_lists_pop(frames: Seq<Seq<usize>>, n_out: int, base: int)
    requires
        frames.len() >= 1,
        frames.last().len() == 0,
    ensures
        lists_weight(frames.drop_last(), n_out, base) == lists_weight(frames, n_out, base),
{
    let p = power(base, (n_out - frames.len()) as nat);
    assert(0 * p == 0) by (nonlinear_arith);
}

proof fn lemma_lists_pick(
    frames: Seq<Seq<usize>>,
    shorter: Seq<usize>,
    opened: Seq<usize>,
    n_out: int,
    base: int,
)
    requires
        1 <= frames.len() < n_out - 1,
        shorter.len() + 1 == frames.last().len(),
        opened.len() < base,
    ensures
        lists_weight(frames.drop_last().push(shorter).push(opened), n_out, base) < lists_weight(
            frames,
            n_out,
            base,
        ),
{
    let rest = frames.drop_last();
    let mid = rest.push(shorter);
    let after = mid.push(opened);
    assert(after.drop_last() == mid);
    assert(mid.drop_last() == rest);
    let e = (n_out - frames.len() - 1) as nat;
    let q = power(base, e);
    let p = power(base, (n_out - frames.len()) as nat);
    assert((n_out - frames.len()) as nat == e + 1);
    assert(p == base * q);
    lemma_power_positive(base, e);
    let a = frames.last().len() as int;
    let b = opened.len() as int;
    assert((a - 1) * p + b * q < a * p) by (nonlinear_arith)
        requires
            p == base * q,
            q >= 1,
            0 <= b < base,
    ;
    assert(after.last() == opened);
    assert(mid.last() == shorter);
    assert(after.len() == frames.len() + 1);
    assert(mid.len() == frames.len());
    assert(lists_weight(mid, n_out, base) == lists_weight(rest, n_out, base) + (a - 1) * p);
    assert(lists_weight(after, n_out, base) == lists_weight(mid, n_out, base) + b * q);
    assert(lists_weight(frames, n_out, base) == lists_weight(rest, n_out, base) + a * p);
}

/// What the open lists hold.
pub open spec fn views(frames: Seq<Vec<usize>>) -> Seq<Seq<usize>> {
    Seq::new(frames.len(), |k: int| frames[k]@)
}

/// The walk of a search with a replayable source from the selection `sel`
/// with the open lists `frames`: where the last list is empty the walk
/// goes back one gate; else the source picks a gate of the last list,
/// which leaves the list and joins the selection, and the list of the
/// candidates after the longer selection is opened.  The walk ends with
/// the selection when it has `n_out` gates, and with nothing when no list
/// is open.  With the selection comes the distance from its first gate to
/// the farthest candidate for its last.
pub open spec fn walked<R: RandomSource>(
    gates: Seq<Gate>,
    n_out: int,
    sel: Seq<usize>,
    frames: Seq<Seq<usize>>,
    rng: R,
) -> (Option<(Seq<usize>, int)>, R)
    decreases lists_weight(frames, n_out, (gates.len() + 1) as int), frames.len(),
    via walked_decreases::<R>
{
    if frames.len() == 0 || frames.len() != sel.len() || sel.len() >= n_out {
        (None, rng)
    } else if frames.last().len() == 0 {
        walked(gates, n_out, sel.drop_last(), frames.drop_last(), rng)
    } else {
        let top = frames.last();
        let pick = rng.next_draw(top.len() as usize) as int;
        let next = rng.after_draw(top.len() as usize);
        let more = sel.push(top[pick]);
        if pick >= top.len() {
            (None, next)
        } else if more.len() >= n_out {
            (Some((more, top.last() - sel[0])), next)
        } else {
            walked(
                gates,
                n_out,
                more,
                frames.drop_last().push(top.remove(pick)).push(candidates(gates, more)),
                next,
            )
        }
    }
}

#[via_fn]
proof fn walked_decreases<R: RandomSource>(
    gates: Seq<Gate>,
    n_out: int,
    sel: Seq<usize>,
    frames: Seq<Seq<usize>>,
    rng: R,
) {
    let base = (gates.len() + 1) as int;
    if !(frames.len() == 0 || frames.len() != sel.len() || sel.len() >= n_out) {
        if frames.last().len() == 0 {
            lemma_lists_pop(frames, n_out, base);
            lemma_lists_nonnegative(frames.drop_last(), n_out, base);
        } else {
            let top = frames.last();
            let pick = rng.next_draw(top.len() as usize) as int;
            let more = sel.push(top[pick]);
            if pick < top.len() && more.len() < n_out {
                let opened = candidates(gates, more);
                lemma_listing_len(|j: int| is_candidate(gates, more, j), gates.len() as int);
                lemma_lists_pick(frames, top.remove(pick), opened, n_out, base);
                lemma_lists_nonnegative(
                    frames.drop_last().push(top.remove(pick)).push(opened),
                    n_out,
                    base,
                );
            }
        }
    }
}

/// A walk with an empty last list goes on from the selection without its
/// last gate.
proof fn lemma_walk_back<R: RandomSource>(
    gates: Seq<Gate>,
    n_out: int,
    sel: Seq<usize>,
    frames: Seq<Seq<usize>>,
    rng: R,
)
    requires
        frames.len() == sel.len(),
        frames.len() >= 1,
        sel.len() < n_out,
        frames.last().len() == 0,
    ensures
        walked(gates, n_out, sel, frames, rng) == walked(
            gates,
            n_out,
            sel.drop_last(),
            frames.drop_last(),
            rng,
        ),
{
}

/// A walk with a gate in its last list goes on with what the source picks
/// of that list, or ends with the selection that the pick completes.
proof fn lemma_walk_on<R: RandomSource>(
    gates: Seq<Gate>,
    n_out: int,
    sel: Seq<usize>,
    frames: Seq<Seq<usize>>,
    rng: R,
    pick: int,
)
    requires
        frames.len() == sel.len(),
        frames.len() >= 1,
        sel.len() < n_out,
        frames.last().len() > 0,
        pick == rng.next_draw(frames.last().len() as usize),
        0 <= pick < frames.last().len(),
    ensures
        walked(gates, n_out, sel, frames, rng) == (if sel.len() + 1 >= n_out {
            (
                Some((sel.push(frames.last()[pick]), frames.last().last() - sel[0])),
                rng.after_draw(frames.last().len() as usize),
            )
        } else {
            walked(
                gates,
                n_out,
                sel.push(frames.last()[pick]),
                frames.drop_last().push(frames.last().remove(pick)).push(
                    candidates(gates, sel.push(frames.last()[pick])),
                ),
                rng.after_draw(frames.last().len() as usize),
            )
        }),
{
}

/// The search with a replayable source that may begin `restarts` times:
/// the source picks the first gate among those that leave room for
/// `n_out` gates; one gate asked for is that gate; else the walk from it
/// gives the selection, or the search begins again.
pub open spec fn searched_chain<R: RandomSource>(
    gates: Seq<Gate>,
    n_out: int,
    restarts: nat,
    rng: R,
) -> (Option<(Seq<usize>, int)>, R)
    decreases restarts,
{
    if restarts == 0 {
        (None, rng)
    } else {
        let first = rng.next_draw((gates.len() - n_out + 1) as usize);
        let next = rng.after_draw((gates.len() - n_out + 1) as usize);
        if n_out == 1 {
            (Some((seq![first], 0)), next)
        } else {
            let found = walked(gates, n_out, seq![first], seq![candidates(gates, seq![first])], next);
            if found.0 is Some {
                found
            } else {
                searched_chain(gates, n_out, (restarts - 1) as nat, found.1)
            }
        }
    }
}

/// What a search returned: the selection and the distance.
pub open spec fn chain_view(res: Option<(Vec<usize>, usize)>) -> Option<(Seq<usize>, int)> {
    match res {
        Some(found) => Some((found.0@, found.1 as int)),
        None => None,
    }
}

/// Each gate of the selection but the first is a candidate after the gates
/// before it.
pub open spec fn each_candidate(gates: Seq<Gate>, sel: Seq<usize>) -> bool {
    forall|k: int| 1 <= k < sel.len() ==> is_candidate(gates, sel.take(k), #[trigger] sel[k] as int)
}

/// The selection can be completed to `n_out` gates, each further gate a
/// candidate after those before it.
pub open spec fn completes(gates: Seq<Gate>, sel: Seq<usize>, n_out: int) -> bool
    decreases n_out - sel.len(),
{
    sel.len() >= n_out || exists|c: usize| #[trigger]
        is_candidate(gates, sel, c as int) && completes(gates, sel.push(c), n_out)
}

/// A selection of `n_out` gates begins at gate `first` in which each
/// further gate is a candidate after those before it.
pub open spec fn chain_from(gates: Seq<Gate>, first: int, n_out: int) -> bool {
    completes(gates, seq![first as usize], n_out)
}

/// What the search has tried in vain: a candidate for a place that is
/// neither in the open list of that place nor selected there cannot be
/// completed.
pub open spec fn tried_out(
    frames: Seq<Vec<usize>>,
    gates: Seq<Gate>,
    sel: Seq<usize>,
    n_out: int,
) -> bool {
    forall|k: int, c: usize|
        0 <= k < frames.len() && #[trigger] is_candidate(gates, sel.take(k + 1), c as int)
            && !frames[k]@.contains(c) && !(k + 1 < sel.len() && sel[k + 1] == c) ==> !completes(
            gates,
            sel.take(k + 1).push(c),
            n_out,
        )
}

/// With the list of all candidates open, nothing has been tried in vain.
proof fn lemma_tried_start(opened: Vec<usize>, gates: Seq<Gate>, sel: Seq<usize>, n_out: int)
    requires
        sel.len() == 1,
        forall|j: usize| opened@.contains(j) <==> is_candidate(gates, sel, j as int),
    ensures
        tried_out(seq![opened], gates, sel, n_out),
{
    assert(sel.take(1) == sel);
}

/// Where the last open list is empty, the selection cannot be completed,
/// and what was selected last has been tried in vain.
proof fn lemma_tried_pop(frames: Seq<Vec<usize>>, gates: Seq<Gate>, sel: Seq<usize>, n_out: int)
    requires
        frames.len() == sel.len(),
        frames.len() >= 1,
        sel.len() < n_out,
        frames.last().len() == 0,
        tried_out(frames, gates, sel, n_out),
    ensures
        !completes(gates, sel, n_out),
        tried_out(frames.drop_last(), gates, sel.drop_last(), n_out),
{
    let n = frames.len() - 1;
    assert(sel.take(n + 1) == sel);
    assert(!completes(gates, sel, n_out)) by {
        if completes(gates, sel, n_out) {
            let c = choose|c: usize| #[trigger]
                is_candidate(gates, sel, c as int) && completes(gates, sel.push(c), n_out);
            assert(is_candidate(gates, sel.take(n + 1), c as int));
            assert(!frames[n]@.contains(c));
        }
    }
    let fewer = frames.drop_last();
    let short = sel.drop_last();
    assert forall|k: int, c: usize|
        0 <= k < fewer.len() && #[trigger] is_candidate(gates, short.take(k + 1), c as int)
            && !fewer[k]@.contains(c) && !(k + 1 < short.len() && short[k + 1] == c) implies !completes(
        gates,
        short.take(k + 1).push(c),
        n_out,
    ) by {
        assert(short.take(k + 1) == sel.take(k + 1));
        assert(fewer[k] == frames[k]);
        if k + 1 < sel.len() && sel[k + 1] == c {
            assert(k + 1 == n);
            assert(sel.take(k + 1).push(c) == sel);
        } else {
            assert(is_candidate(gates, sel.take(k + 1), c as int));
        }
    }
}

/// Once a gate is taken from the last list and a list of all candidates
/// opened for the next place, what was tried in vain is what it was.
proof fn lemma_tried_pick(
    frames: Seq<Vec<usize>>,
    gates: Seq<Gate>,
    sel: Seq<usize>,
    pick: int,
    shorter: Vec<usize>,
    opened: Vec<usize>,
    n_out: int,
)
    requires
        frames.len() == sel.len(),
        frames.len() >= 1,
        tried_out(frames, gates, sel, n_out),
        0 <= pick < frames.last().len(),
        shorter@ == frames.last()@.remove(pick),
        forall|j: usize|
            opened@.contains(j) <==> is_candidate(
                gates,
                sel.push(frames.last()@[pick]),
                j as int,
            ),
    ensures
        tried_out(
            frames.drop_last().push(shorter).push(opened),
            gates,
            sel.push(frames.last()@[pick]),
            n_out,
        ),
{
    let n = frames.len() - 1;
    let whole = frames.last()@;
    let picked = whole[pick];
    let more = sel.push(picked);
    let after = frames.drop_last().push(shorter).push(opened);
    assert forall|k: int, c: usize|
        0 <= k < after.len() && #[trigger] is_candidate(gates, more.take(k + 1), c as int)
            && !after[k]@.contains(c) && !(k + 1 < more.len() && more[k + 1] == c) implies !completes(
        gates,
        more.take(k + 1).push(c),
        n_out,
    ) by {
        if k < n {
            assert(more.take(k + 1) == sel.take(k + 1));
            assert(after[k] == frames[k]);
            assert(more[k + 1] == sel[k + 1]);
            assert(is_candidate(gates, sel.take(k + 1), c as int));
        } else if k == n {
            assert(more.take(k + 1) == sel.take(k + 1));
            assert(after[k] == shorter);
            assert(more[k + 1] == picked);
            assert(!whole.contains(c)) by {
                if whole.contains(c) {
                    let a = choose|a: int| 0 <= a < whole.len() && whole[a] == c;
                    if a < pick {
                        assert(shorter@[a] == c);
                    } else {
                        assert(a > pick);
                        assert(shorter@[a - 1] == c);
                    }
                }
            }
            assert(frames[k] == frames.last());
            assert(is_candidate(gates, sel.take(k + 1), c as int));
        } else {
            assert(more.take(k + 1) == more);
            assert(after[k] == opened);
        }
    }
}

/// A selection keeps its candidates when a candidate is added to it.
proof fn lemma_each_candidate_push(gates: Seq<Gate>, sel: Seq<usize>, c: usize)
    requires
        each_candidate(gates, sel),
        is_candidate(gates, sel, c as int),
    ensures
        each_candidate(gates, sel.push(c)),
{
    let more = sel.push(c);
    assert forall|k: int| 1 <= k < more.len() implies is_candidate(
        gates,
        more.take(k),
        #[trigger] more[k] as int,
    ) by {
        if k < sel.len() {
            assert(more.take(k) == sel.take(k));
            assert(more[k] == sel[k]);
        } else {
            assert(more.take(k) == sel);
        }
    }
}

/// A selection keeps its candidates when its last gate is given up.
proof fn lemma_each_candidate_pop(gates: Seq<Gate>, sel: Seq<usize>)
    requires
        each_candidate(gates, sel),
        sel.len() >= 1,
    ensures
        each_candidate(gates, sel.drop_last()),
{
    let short = sel.drop_last();
    assert forall|k: int| 1 <= k < short.len() implies is_candidate(
        gates,
        short.take(k),
        #[trigger] short[k] as int,
    ) by {
        assert(short.take(k) == sel.take(k));
        assert(short[k] == sel[k]);
    }
}

/// Selects `n_out` gates of `circuit` that form a convex chain: each
/// collides with the one before it, and no dependency leads out of the
/// selection and back into it.
///
/// The first gate is picked at random; each further gate is picked at
/// random among the candidates that follow the last one.  Where no
/// candidate is left the search goes back one gate, and where none is left
/// for the second gate it begins again with a new first gate, at most
/// `max_restarts` times in all.
///
/// Returns the indices in increasing order, and the distance from the
/// first gate to the farthest candidate for the last.
pub fn find_convex_gate_ids<R: RandomSource>(
    circuit: &Circuit,
    n_out: usize,
    max_restarts: usize,
    rng: &mut R,
) -> (res: Option<(Vec<usize>, usize)>)
    requires
        circuit.wf(),
        1 <= n_out <= circuit.gates.len(),
    ensures
        max_restarts == 0 ==> res is None,
        n_out == 1 && max_restarts > 0 ==> res is Some,
        res matches Some(found) ==> {
            &&& found.0.len() == n_out
            &&& is_selection(found.0@, circuit.gates.len() as int)
            &&& is_chain(circuit.gates@, found.0@)
            &&& convex(circuit.gates@, found.0@)
            &&& found.0@.last() - found.0[0] <= found.1 < circuit.gates.len()
            &&& found.0[0] <= circuit.gates.len() - n_out
            &&& each_candidate(circuit.gates@, found.0@)
        },
        res is None && max_restarts > 0 ==> exists|first: int|
            0 <= first <= circuit.gates.len() - n_out && !#[trigger] chain_from(
                circuit.gates@,
                first,
                n_out as int,
            ),
        final(rng).replayable() == old(rng).replayable(),
        old(rng).replayable() ==> (chain_view(res), *final(rng)) == searched_chain(
            circuit.gates@,
            n_out as int,
            max_restarts as nat,
            *old(rng),
        ),
{
    let num_gates = circuit.gates.len();
    let ghost gates = circuit.gates@;
    let ghost base = num_gates + 1;
    let mut restarts: usize = 0;
    while restarts < max_restarts
        invariant
            circuit.wf(),
            1 <= n_out <= num_gates,
            num_gates == circuit.gates.len(),
            gates == circuit.gates@,
            base == num_gates + 1,
            restarts <= max_restarts,
            n_out == 1 ==> restarts == 0,
            rng.replayable() == old(rng).replayable(),
            restarts > 0 ==> exists|first: int|
                0 <= first <= num_gates - n_out && !#[trigger] chain_from(gates, first, n_out as int),
            old(rng).replayable() ==> searched_chain(
                gates,
                n_out as int,
                max_restarts as nat,
                *old(rng),
            ) == searched_chain(gates, n_out as int, (max_restarts - restarts) as nat, *rng),
        decreases max_restarts - restarts,
    {
        let ghost source = *rng;
        let ghost left = (max_restarts - restarts) as nat;
        restarts += 1;
        let first = rng.below(num_gates - n_out + 1);
        let ghost begun = *rng;
        let mut sel: Vec<usize> = Vec::new();
        sel.push(first);
        proof {
            lemma_single_convex(gates, first);
            assert(sel@ == seq![first]);
        }
        if n_out == 1 {
            proof {
                if old(rng).replayable() {
                    assert(searched_chain(gates, n_out as int, left, source) == (
                        Some((seq![first], 0int)),
                        begun,
                    ));
                }
            }
            return Some((sel, 0));
        }
        let mut frames: Vec<Vec<usize>> = Vec::new();
        let opened = candidate_next_gates(circuit, &sel);
        let ghost whole = walked(gates, n_out as int, seq![first], seq![opened@], begun);
        frames.push(opened);
        proof {
            assert(views(frames@) =~= seq![opened@]);
            if old(rng).replayable() {
                assert(searched_chain(gates, n_out as int, left, source) == (if whole.0 is Some {
                    whole
                } else {
                    searched_chain(gates, n_out as int, (left - 1) as nat, whole.1)
                }));
            }
            assert(sel@.take(1) == sel@);
            assert forall|k: int, a: int|
                0 <= k < frames.len() && 0 <= a < frames[k].len() implies is_candidate(
                gates,
                sel@.take(k + 1),
                #[trigger] frames[k][a] as int,
            ) by {
                assert(frames@[k] == opened);
                assert(opened@.contains(opened@[a]));
            }
            lemma_tried_start(opened, gates, sel@, n_out as int);
            assert(frames@ =~= seq![opened]);
        }
        while frames.len() > 0
            invariant
                circuit.wf(),
                max_restarts > 0,
                first <= num_gates - n_out,
                rng.replayable() == old(rng).replayable(),
                frames.len() > 0 ==> sel@[0] == first,
                frames.len() == 0 ==> !completes(gates, seq![first], n_out as int),
                tried_out(frames@, gates, sel@, n_out as int),
                each_candidate(gates, sel@),
                restarts <= max_restarts,
                old(rng).replayable() ==> whole == walked(
                    gates,
                    n_out as int,
                    sel@,
                    views(frames@),
                    *rng,
                ),
                old(rng).replayable() ==> searched_chain(
                    gates,
                    n_out as int,
                    max_restarts as nat,
                    *old(rng),
                ) == (if whole.0 is Some {
                    whole
                } else {
                    searched_chain(gates, n_out as int, (max_restarts - restarts) as nat, whole.1)
                }),
                2 <= n_out <= num_gates,
                num_gates == circuit.gates.len(),
                gates == circuit.gates@,
                base == num_gates + 1,
                frames.len() == sel.len(),
                sel.len() < n_out,
                frames.len() > 0 ==> is_selection(sel@, num_gates as int),
                frames.len() > 0 ==> is_chain(gates, sel@),
                frames.len() > 0 ==> convex(gates, sel@),
                frames_fit(frames@, gates, sel@),
            decreases frames_weight(frames@, n_out as int, base), frames.len(),
        {
            let ghost frames_before = frames@;
            let ghost sel_before = sel@;
            let ghost source_before = *rng;
            let mut top = frames.pop().unwrap();
            let ghost top_whole = top;
            proof {
                assert(frames@ == frames_before.drop_last());
                assert(top == frames_before.last());
                lemma_weight_nonnegative(frames@, n_out as int, base);
            }
            if top.len() == 0 {
                sel.pop();
                proof {
                    lemma_weight_pop(frames_before, n_out as int, base);
                    lemma_frames_after_pop(frames_before, gates, sel_before);
                    if frames.len() > 0 {
                        lemma_shorter_selection(gates, sel_before);
                    }
                    lemma_tried_pop(frames_before, gates, sel_before, n_out as int);
                    lemma_each_candidate_pop(gates, sel_before);
                    if frames.len() == 0 {
                        assert(sel_before =~= seq![first]);
                    }
                    assert(views(frames_before).last() == top@);
                    assert(views(frames@) =~= views(frames_before).drop_last());
                    if old(rng).replayable() {
                        lemma_walk_back(
                            gates,
                            n_out as int,
                            sel_before,
                            views(frames_before),
                            source_before,
                        );
                    }
                }
            } else {
                let farthest = top[top.len() - 1];
                let pick = rng.below(top.len());
                let c = top.remove(pick);
                proof {
                    lemma_pick_is_candidate(frames_before, gates, sel_before, pick as int);
                    lemma_pick_is_candidate(
                        frames_before,
                        gates,
                        sel_before,
                        top_whole@.len() - 1,
                    );
                    lemma_extend_convex(gates, sel_before, c);
                    lemma_each_candidate_push(gates, sel_before, c);
                }
                let span = farthest - sel[0];
                sel.push(c);
                frames.push(top);
                proof {
                    assert(views(frames_before).last() == top_whole@);
                    assert(top@ == top_whole@.remove(pick as int));
                    assert(c == top_whole@[pick as int]);
                    assert(farthest == top_whole@.last());
                    if old(rng).replayable() {
                        lemma_walk_on(
                            gates,
                            n_out as int,
                            sel_before,
                            views(frames_before),
                            source_before,
                            pick as int,
                        );
                    }
                }
                if sel.len() == n_out {
                    proof {
                        assert(sel@[0] == sel_before[0]);
                    }
                    return Some((sel, span));
                }
                let opened = candidate_next_gates(circuit, &sel);
                frames.push(opened);
                proof {
                    assert(frames@ == frames_before.drop_last().push(top).push(opened));
                    lemma_weight_pick(frames_before, top, opened, n_out as int, base);
                    lemma_weight_nonnegative(frames@, n_out as int, base);
                    lemma_frames_after_pick(
                        frames_before,
                        gates,
                        sel_before,
                        pick as int,
                        top,
                        opened,
                    );
                    lemma_tried_pick(
                        frames_before,
                        gates,
                        sel_before,
                        pick as int,
                        top,
                        opened,
                        n_out as int,
                    );
                    assert(views(frames@) =~= views(frames_before).drop_last().push(top@).push(
                        opened@,
                    ));
                }
            }
        }
        proof {
            assert(!chain_from(gates, first as int, n_out as int));
            assert(views(frames@) =~= Seq::<Seq<usize>>::empty());
        }
    }
    None
}

/// A convex chain without its last gate is a convex chain.
proof fn lemma_shorter_selection(gates: Seq<Gate>, sel: Seq<usize>)
    requires
        sel.len() >= 2,
        is_selection(sel, gates.len() as int),
        is_chain(gates, sel),
        convex(gates, sel),
    ensures
        is_selection(sel.drop_last(), gates.len() as int),
        is_chain(gates, sel.drop_last()),
        convex(gates, sel.drop_last()),
{
    let short = sel.drop_last();
    let c = sel.last();
    assert(short.push(c) == sel);
    assert(is_selection(short, gates.len() as int));
    assert(short.last() < c) by {
        assert(sel[sel.len() - 2] < sel[sel.len() - 1]);
    }
    assert(is_chain(gates, short)) by {
        assert forall|k: int| 1 <= k < short.len() implies collides(
            gates[short[k - 1] as int],
            gates[#[trigger] short[k] as int],
        ) by {
            assert(short[k] == sel[k]);
            assert(short[k - 1] == sel[k - 1]);
            assert(collides(gates[sel[k - 1] as int], gates[sel[k] as int]));
        }
    }
    assert forall|k: int, i: int|
        0 <= k < short.len() && 0 <= i < short[k] && tainted(gates, short, i) implies !#[trigger] collides(
        gates[short[k] as int],
        gates[i],
    ) by {
        assert(short[k] == sel[k]);
        assert(sel[k] <= short.last());
        super::convex::lemma_tainted_prefix(gates, short, c, i);
        assert(!collides(gates[sel[k] as int], gates[i]));
    }
}

/// Closing an empty list leaves as much to try.
proof fn lemma_weight_pop(frames: Seq<Vec<usize>>, n_out: int, base: int)
    requires
        frames.len() >= 1,
        frames.last().len() == 0,
    ensures
        frames_weight(frames.drop_last(), n_out, base) == frames_weight(frames, n_out, base),
{
    let p = power(base, (n_out - frames.len()) as nat);
    assert(0 * p == 0) by (nonlinear_arith);
}

/// The gates of the last open list are candidates after the whole
/// selection, and none lies behind the last of them.
proof fn lemma_pick_is_candidate(
    frames: Seq<Vec<usize>>,
    gates: Seq<Gate>,
    sel: Seq<usize>,
    pick: int,
)
    requires
        frames.len() == sel.len(),
        frames.len() >= 1,
        frames_fit(frames, gates, sel),
        0 <= pick < frames.last().len(),
    ensures
        is_candidate(gates, sel, frames.last()@[pick] as int),
        frames.last()@[pick] <= frames.last()@[frames.last().len() - 1],
{
    let k = frames.len() - 1;
    assert(frames.last() == frames[k]);
    assert(sel.take(k + 1) == sel);
    assert(is_candidate(gates, sel.take(k + 1), frames[k][pick] as int));
    if pick < frames[k].len() - 1 {
        assert(frames[k][pick] < frames[k][frames[k].len() - 1]);
    }
}

/// Once the last list is closed and the last gate given up, the open lists
/// are those of the shorter selection.
proof fn lemma_frames_after_pop(frames: Seq<Vec<usize>>, gates: Seq<Gate>, sel: Seq<usize>)
    requires
        frames.len() == sel.len(),
        frames.len() >= 1,
        frames_fit(frames, gates, sel),
    ensures
        frames_fit(frames.drop_last(), gates, sel.drop_last()),
{
    let fewer = frames.drop_last();
    let short = sel.drop_last();
    assert forall|k: int, a: int|
        0 <= k < fewer.len() && 0 <= a < fewer[k].len() implies is_candidate(
        gates,
        short.take(k + 1),
        #[trigger] fewer[k][a] as int,
    ) by {
        assert(fewer[k] == frames[k]);
        assert(short.take(k + 1) == sel.take(k + 1));
        assert(is_candidate(gates, sel.take(k + 1), frames[k][a] as int));
    }
    assert forall|k: int, a: int, b: int|
        0 <= k < fewer.len() && 0 <= a < b < fewer[k].len() implies #[trigger] fewer[k][a]
        < #[trigger] fewer[k][b] by {
        assert(fewer[k] == frames[k]);
        assert(frames[k][a] < frames[k][b]);
    }
    assert forall|k: int| 0 <= k < fewer.len() implies (#[trigger] fewer[k]).len()
        <= gates.len() by {
        assert(fewer[k] == frames[k]);
    }
}

/// Once a gate is taken from the last list and a list opened for the next
/// place, the open lists are those of the longer selection.
proof fn lemma_frames_after_pick(
    frames: Seq<Vec<usize>>,
    gates: Seq<Gate>,
    sel: Seq<usize>,
    pick: int,
    shorter: Vec<usize>,
    opened: Vec<usize>,
)
    requires
        frames.len() == sel.len(),
        frames.len() >= 1,
        frames_fit(frames, gates, sel),
        0 <= pick < frames.last().len(),
        shorter@ == frames.last()@.remove(pick),
        forall|a: int, b: int| 0 <= a < b < opened.len() ==> opened[a] < opened[b],
        forall|j: usize|
            opened@.contains(j) <==> is_candidate(
                gates,
                sel.push(frames.last()@[pick]),
                j as int,
            ),
        opened.len() <= gates.len(),
    ensures
        frames_fit(
            frames.drop_last().push(shorter).push(opened),
            gates,
            sel.push(frames.last()@[pick]),
        ),
{
    let n = frames.len() - 1;
    let whole = frames.last()@;
    let c = whole[pick];
    let after = frames.drop_last().push(shorter).push(opened);
    let more = sel.push(c);
    assert(frames.last() == frames[n]);
    assert forall|k: int, a: int|
        0 <= k < after.len() && 0 <= a < after[k].len() implies is_candidate(
        gates,
        more.take(k + 1),
        #[trigger] after[k][a] as int,
    ) by {
        if k < n {
            assert(after[k] == frames[k]);
            assert(more.take(k + 1) == sel.take(k + 1));
            assert(is_candidate(gates, sel.take(k + 1), frames[k][a] as int));
        } else if k == n {
            assert(after[k] == shorter);
            assert(more.take(k + 1) == sel.take(k + 1));
            let ia = if a < pick {
                a
            } else {
                a + 1
            };
            assert(shorter@[a] == whole[ia]);
            assert(is_candidate(gates, sel.take(n + 1), frames[n][ia] as int));
        } else {
            assert(after[k] == opened);
            assert(more.take(k + 1) == more);
            assert(opened@.contains(opened@[a]));
        }
    }
    assert forall|k: int, a: int, b: int|
        0 <= k < after.len() && 0 <= a < b < after[k].len() implies #[trigger] after[k][a]
        < #[trigger] after[k][b] by {
        if k < n {
            assert(after[k] == frames[k]);
            assert(frames[k][a] < frames[k][b]);
        } else if k == n {
            assert(after[k] == shorter);
            let ia = if a < pick {
                a
            } else {
                a + 1
            };
            let ib = if b < pick {
                b
            } else {
                b + 1
            };
            assert(shorter@[a] == whole[ia]);
            assert(shorter@[b] == whole[ib]);
            assert(frames[n][ia] < frames[n][ib]);
        } else {
            assert(after[k] == opened);
        }
    }
    assert forall|k: int| 0 <= k < after.len() implies (#[trigger] after[k]).len()
        <= gates.len() by {
        if k < n {
            assert(after[k] == frames[k]);
        } else if k == n {
            assert(after[k] == shorter);
            assert(frames[n].len() <= gates.len());
        } else {
            assert(after[k] == opened);
        }
    }
}

/// Whether gate `i` collides with one of the first `seen` selected
/// gates.
fn collides_with_earlier(circuit: &Circuit, sel: &Vec<usize>, seen: usize, i: usize) -> (r: bool)
    requires
        is_selection(sel@, circuit.gates.len() as int),
        seen <= sel.len(),
        i < circuit.gates.len(),
    ensures
        r == exists|k: int|
            0 <= k < seen && collides(circuit.gates[#[trigger] sel[k] as int], circuit.gates[i as int]),
{
    let mut r = false;
    let mut k: usize = 0;
    while k < seen
        invariant
            k <= seen <= sel.len(),
            i < circuit.gates.len(),
            is_selection(sel@, circuit.gates.len() as int),
            r == exists|j: int|
                0 <= j < k && collides(
                    circuit.gates[#[trigger] sel[j] as int],
                    circuit.gates[i as int],
                ),
        decreases seen - k,
    {
        let hit = circuit.gates[sel[k]].collides_with(&circuit.gates[i]);
        proof {
            if hit {
                assert(0 <= k < k + 1 && collides(
                    circuit.gates[sel[k as int] as int],
                    circuit.gates[i as int],
                ));
            }
        }
        r = r || hit;
        k += 1;
    }
    r
}

/// A gate that is not selected depends on the selection exactly if it
/// collides with an earlier selected gate or with an earlier gate that
/// depends on the selection.
proof fn lemma_tainted_cases(
    gates: Seq<Gate>,
    sel: Seq<usize>,
    seen: int,
    i: int,
    meets: bool,
    touches: bool,
)
    requires
        is_selection(sel, gates.len() as int),
        0 <= i < gates.len(),
        !selected(sel, i),
        0 <= seen <= sel.len(),
        forall|k: int| 0 <= k < seen ==> sel[k] < i,
        forall|k: int| seen <= k < sel.len() ==> i < sel[k],
        meets == exists|k: int| 0 <= k < seen && collides(gates[#[trigger] sel[k] as int], gates[i]),
        touches == exists|d: int|
            0 <= d < i && tainted(gates, sel, d) && #[trigger] collides(gates[d], gates[i]),
    ensures
        tainted(gates, sel, i) == (meets || touches),
{
    if meets {
        let k = choose|k: int|
            0 <= k < seen && collides(gates[#[trigger] sel[k] as int], gates[i]);
        let d = sel[k] as int;
        assert(selected(sel, d));
        assert(0 <= d < i && (selected(sel, d) || tainted(gates, sel, d)) && collides(
            gates[d],
            gates[i],
        ));
    }
    if touches {
        let d = choose|d: int|
            0 <= d < i && tainted(gates, sel, d) && #[trigger] collides(gates[d], gates[i]);
        assert(0 <= d < i && (selected(sel, d) || tainted(gates, sel, d)) && collides(
            gates[d],
            gates[i],
        ));
    }
    if tainted(gates, sel, i) {
        let d = choose|d: int|
            0 <= d < i && (selected(sel, d) || tainted(gates, sel, d)) && #[trigger] collides(
                gates[d],
                gates[i],
            );
        if selected(sel, d) {
            let k = choose|k: int| 0 <= k < sel.len() && #[trigger] sel[k] == d;
            assert(k < seen);
            assert(collides(gates[sel[k] as int], gates[i]));
        }
    }
}

/// Adds the gates of `src` from `from` up to `to` at the end of `dst`.
fn append_gates(dst: &mut Vec<Gate>, src: &Vec<Gate>, from: usize, to: usize)
    requires
        from <= to <= src.len(),
    ensures
        final(dst)@ == old(dst)@ + src@.subrange(from as int, to as int),
{
    let mut k = from;
    while k < to
        invariant
            from <= k <= to <= src.len(),
            dst@ == old(dst)@ + src@.subrange(from as int, k as int),
        decreases to - k,
    {
        dst.push(src[k]);
        proof {
            assert(src@.subrange(from as int, k + 1) == src@.subrange(from as int, k as int).push(
                src@[k as int],
            ));
        }
        k += 1;
    }
}

/// The gates from the first to the last selected gate, sorted by where
/// they go.
struct Sorted {
    ahead: Vec<Gate>,
    block: Vec<Gate>,
    behind: Vec<Gate>,
}

/// Sorts the gates from the first to the last selected gate by where they
/// go when the selection is moved into one block.
fn sort_by_place(circuit: &Circuit, sel: &Vec<usize>) -> (sorted: Sorted)
    requires
        circuit.wf(),
        is_selection(sel@, circuit.gates.len() as int),
    ensures
        sorted.ahead@ == part(
            circuit.gates@,
            sel@,
            sel[0] as int,
            sel@.last() + 1,
            Place::Ahead,
        ),
        sorted.block@ == part(
            circuit.gates@,
            sel@,
            sel[0] as int,
            sel@.last() + 1,
            Place::Block,
        ),
        sorted.behind@ == part(
            circuit.gates@,
            sel@,
            sel[0] as int,
            sel@.last() + 1,
            Place::Behind,
        ),
{
    let ghost gates = circuit.gates@;
    let ghost member = |d: int| tainted(circuit.gates@, sel@, d);
    let first = sel[0];
    let last = sel[sel.len() - 1];
    let mut sorted = Sorted { ahead: Vec::new(), block: Vec::new(), behind: Vec::new() };
    let mut marks = WireMarks::new(circuit.num_wires);
    let mut seen: usize = 0;
    let mut i: usize = first;
    proof {
        assert(sel[0] <= sel@.last());
        assert forall|d: int| 0 <= d < first implies !#[trigger] member(d) by {
            if tainted(gates, sel@, d) {
                lemma_tainted_after_first(gates, sel@, d);
            }
        }
        marks.lemma_skip_many(gates, member, first as int);
    }
    while i <= last
        invariant
            circuit.wf(),
            is_selection(sel@, circuit.gates.len() as int),
            gates == circuit.gates@,
            member == (|d: int| tainted(circuit.gates@, sel@, d)),
            first == sel[0],
            last == sel@.last(),
            first <= i <= last + 1,
            seen <= sel.len(),
            i <= last ==> seen < sel.len(),
            forall|k: int| 0 <= k < seen ==> sel[k] < i,
            seen < sel.len() ==> i <= sel[seen as int],
            marks.targets.len() == circuit.num_wires,
            marks.covers(gates, member, i as int),
            sorted.ahead@ == part(gates, sel@, first as int, i as int, Place::Ahead),
            sorted.block@ == part(gates, sel@, first as int, i as int, Place::Block),
            sorted.behind@ == part(gates, sel@, first as int, i as int, Place::Behind),
        decreases last + 1 - i,
    {
        let g = circuit.gates[i];
        proof {
            assert(circuit.gates[i as int].fits(circuit.num_wires as int));
        }
        if i == sel[seen] {
            proof {
                assert(selected(sel@, i as int));
                assert(!member(i as int));
                marks.lemma_skip(gates, member, i as int);
                if seen + 1 < sel.len() {
                    assert(sel[seen as int] < sel[seen + 1]);
                }
            }
            sorted.block.push(g);
            seen += 1;
        } else {
            proof {
                assert(!selected(sel@, i as int)) by {
                    if selected(sel@, i as int) {
                        let k = choose|k: int| 0 <= k < sel.len() && #[trigger] sel[k] == i;
                        if k > seen {
                            assert(sel[seen as int] < sel[k]);
                        }
                    }
                }
                assert forall|k: int| seen <= k < sel.len() implies i < sel[k] by {
                    if k > seen {
                        assert(sel[seen as int] < sel[k]);
                    }
                }
            }
            let meets = collides_with_earlier(circuit, sel, seen, i);
            let touches = marks.touches(&g);
            proof {
                marks.lemma_hit(gates, member, i as int, g);
                let touched = exists|d: int|
                    0 <= d < i && tainted(gates, sel@, d) && #[trigger] collides(
                        gates[d],
                        gates[i as int],
                    );
                assert(touches == touched) by {
                    if touches {
                        let d = choose|d: int|
                            0 <= d < i && member(d) && #[trigger] collides(gates[d], g);
                        assert(tainted(gates, sel@, d) && collides(gates[d], gates[i as int]));
                    }
                    if touched {
                        let d = choose|d: int|
                            0 <= d < i && tainted(gates, sel@, d) && #[trigger] collides(
                                gates[d],
                                gates[i as int],
                            );
                        assert(member(d) && collides(gates[d], g));
                    }
                }
                lemma_tainted_cases(gates, sel@, seen as int, i as int, meets, touches);
            }
            if meets || touches {
                sorted.behind.push(g);
                marks.add(&g, Ghost(gates), Ghost(member), Ghost(i as int));
            } else {
                sorted.ahead.push(g);
                proof {
                    marks.lemma_skip(gates, member, i as int);
                }
            }
        }
        i += 1;
    }
    sorted
}

/// Moves the selected gates into one block.  Of the gates between them,
/// those that depend on a selected gate go behind the block and the others
/// ahead of it, each group in its order; the gates outside stay.  Returns
/// the place where the block begins.
///
/// The circuit computes what it did if the selection is convex.
pub fn permute_circuit(circuit: &mut Circuit, sel: &Vec<usize>) -> (c_out_start: usize)
    requires
        old(circuit).wf(),
        is_selection(sel@, old(circuit).gates.len() as int),
    ensures
        final(circuit).num_wires == old(circuit).num_wires,
        final(circuit).gates@ == permuted(old(circuit).gates@, sel@),
        final(circuit).gates.len() == old(circuit).gates.len(),
        final(circuit).wf(),
        c_out_start == block_start(old(circuit).gates@, sel@),
        c_out_start + sel.len() <= final(circuit).gates.len(),
        final(circuit).gates@.subrange(c_out_start as int, c_out_start + sel.len()) == chosen(
            old(circuit).gates@,
            sel@,
        ),
        convex(old(circuit).gates@, sel@) ==> equivalent(
            old(circuit).gates@,
            final(circuit).gates@,
            old(circuit).num_wires as int,
        ),
{
    let first = sel[0];
    let last = sel[sel.len() - 1];
    let sorted = sort_by_place(circuit, sel);
    proof {
        lemma_permuted_shape(circuit.gates@, sel@, circuit.num_wires as int);
    }
    let mut gates: Vec<Gate> = Vec::new();
    append_gates(&mut gates, &circuit.gates, 0, first);
    let c_out_start = first + sorted.ahead.len();
    append_gates(&mut gates, &sorted.ahead, 0, sorted.ahead.len());
    append_gates(&mut gates, &sorted.block, 0, sorted.block.len());
    append_gates(&mut gates, &sorted.behind, 0, sorted.behind.len());
    append_gates(&mut gates, &circuit.gates, last + 1, circuit.gates.len());
    proof {
        let old_gates = circuit.gates@;
        lemma_permuted_shape(old_gates, sel@, circuit.num_wires as int);
        assert(sorted.ahead@.subrange(0, sorted.ahead.len() as int) == sorted.ahead@);
        assert(sorted.block@.subrange(0, sorted.block.len() as int) == sorted.block@);
        assert(sorted.behind@.subrange(0, sorted.behind.len() as int) == sorted.behind@);
        assert(old_gates.subrange(0, first as int) == old_gates.take(first as int));
        assert(old_gates.subrange(last + 1, old_gates.len() as int) == old_gates.skip(last + 1));
        assert(gates@ =~= permuted(old_gates, sel@));
        if convex(old_gates, sel@) {
            lemma_permuted_equivalent(old_gates, sel@, circuit.num_wires as int);
        }
    }
    circuit.gates = gates;
    c_out_start
}

/// Whether the selection is convex in `circuit`: whether no selected gate
/// collides with an earlier gate that depends on the selection.
pub fn is_convex(circuit: &Circuit, sel: &Vec<usize>) -> (r: bool)
    requires
        circuit.wf(),
        is_selection(sel@, circuit.gates.len() as int),
    ensures
        r == convex(circuit.gates@, sel@),
{
    let ghost gates = circuit.gates@;
    let ghost member = |d: int| tainted(circuit.gates@, sel@, d);
    let first = sel[0];
    let last = sel[sel.len() - 1];
    let mut marks = WireMarks::new(circuit.num_wires);
    let mut seen: usize = 0;
    let mut i: usize = first;
    proof {
        assert(sel[0] <= sel@.last());
        assert forall|d: int| 0 <= d < first implies !#[trigger] member(d) by {
            if tainted(gates, sel@, d) {
                lemma_tainted_after_first(gates, sel@, d);
            }
        }
        marks.lemma_skip_many(gates, member, first as int);
    }
    while i <= last
        invariant
            circuit.wf(),
            is_selection(sel@, circuit.gates.len() as int),
            gates == circuit.gates@,
            member == (|d: int| tainted(circuit.gates@, sel@, d)),
            first == sel[0],
            last == sel@.last(),
            first <= i <= last + 1,
            seen <= sel.len(),
            i <= last ==> seen < sel.len(),
            forall|k: int| 0 <= k < seen ==> sel[k] < i,
            seen < sel.len() ==> i <= sel[seen as int],
            marks.targets.len() == circuit.num_wires,
            marks.covers(gates, member, i as int),
            forall|k: int, j: int|
                0 <= k < seen && 0 <= j < sel[k] && tainted(gates, sel@, j) ==> !#[trigger] collides(
                    gates[sel[k] as int],
                    gates[j],
                ),
        decreases last + 1 - i,
    {
        let g = circuit.gates[i];
        proof {
            assert(circuit.gates[i as int].fits(circuit.num_wires as int));
            marks.lemma_hit(gates, member, i as int, g);
        }
        let touches = marks.touches(&g);
        if i == sel[seen] {
            if touches {
                proof {
                    let d = choose|d: int|
                        0 <= d < i && member(d) && #[trigger] collides(gates[d], g);
                    assert(tainted(gates, sel@, d));
                    assert(collides(gates[d], gates[i as int]));
                    assert(collides(gates[sel[seen as int] as int], gates[d]));
                    assert(0 <= seen < sel.len() && 0 <= d < sel[seen as int]);
                    assert(!convex(gates, sel@));
                }
                return false;
            }
            proof {
                assert(selected(sel@, i as int));
                assert(!member(i as int));
                marks.lemma_skip(gates, member, i as int);
                if seen + 1 < sel.len() {
                    assert(sel[seen as int] < sel[seen + 1]);
                }
                assert forall|k: int, j: int|
                    0 <= k < seen + 1 && 0 <= j < sel[k] && tainted(gates, sel@, j) implies !#[trigger] collides(
                    gates[sel[k] as int],
                    gates[j],
                ) by {
                    if k == seen && collides(gates[sel[k] as int], gates[j]) {
                        assert(member(j) && collides(gates[j], g));
                    }
                }
            }
            seen += 1;
        } else {
            proof {
                assert(!selected(sel@, i as int)) by {
                    if selected(sel@, i as int) {
                        let k = choose|k: int| 0 <= k < sel.len() && #[trigger] sel[k] == i;
                        if k > seen {
                            assert(sel[seen as int] < sel[k]);
                        }
                    }
                }
                assert forall|k: int| seen <= k < sel.len() implies i < sel[k] by {
                    if k > seen {
                        assert(sel[seen as int] < sel[k]);
                    }
                }
            }
            let meets = collides_with_earlier(circuit, sel, seen, i);
            proof {
                let touched = exists|d: int|
                    0 <= d < i && tainted(gates, sel@, d) && #[trigger] collides(
                        gates[d],
                        gates[i as int],
                    );
                assert(touches == touched) by {
                    if touches {
                        let d = choose|d: int|
                            0 <= d < i && member(d) && #[trigger] collides(gates[d], g);
                        assert(tainted(gates, sel@, d) && collides(gates[d], gates[i as int]));
                    }
                    if touched {
                        let d = choose|d: int|
                            0 <= d < i && tainted(gates, sel@, d) && #[trigger] collides(
                                gates[d],
                                gates[i as int],
                            );
                        assert(member(d) && collides(gates[d], g));
                    }
                }
                lemma_tainted_cases(gates, sel@, seen as int, i as int, meets, touches);
            }
            if meets || touches {
                marks.add(&g, Ghost(gates), Ghost(member), Ghost(i as int));
            } else {
                proof {
                    marks.lemma_skip(gates, member, i as int);
                }
            }
        }
        i += 1;
    }
    proof {
        assert(seen == sel.len()) by {
            if seen < sel.len() {
                assert(sel[seen as int] <= sel@.last());
            }
        }
    }
    true
}

} // verus!
