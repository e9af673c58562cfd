//! Convex sets of gates: sets that can be moved into one block without
//! changing what the circuit computes.
use crate::circuit::circuit::{collides, Gate};
use vstd::prelude::*;

verus! {

/// A selection is a list of gate indices in increasing order.
pub open spec fn is_selection(sel: Seq<usize>, num_gates: int) -> bool {
    &&& sel.len() >= 1
    &&& forall|a: int, b: int| 0 <= a < b < sel.len() ==> sel[a] < sel[b]
    &&& forall|a: int| 0 <= a < sel.len() ==> sel[a] < num_gates
}

/// Gate `i` is one of the selected gates.
pub open spec fn selected(sel: Seq<usize>, i: int) -> bool {
    exists|k: int| 0 <= k < sel.len() && #[trigger] sel[k] == i
}

/// Gate `i` is not selected and depends on a selected gate before it: it
/// collides with an earlier gate that is selected or depends on one.
pub open spec fn tainted(gates: Seq<Gate>, sel: Seq<usize>, i: int) -> bool
    decreases i,
{
    &&& 0 <= i < gates.len()
    &&& !selected(sel, i)
    &&& exists|d: int|
        0 <= d < i && (selected(sel, d) || tainted(gates, sel, d)) && #[trigger] collides(
            gates[d],
            gates[i],
        )
}

/// No selected gate collides with an earlier gate that depends on the
/// selection: no dependency leads out of the selection and back into it.
pub open spec fn convex(gates: Seq<Gate>, sel: Seq<usize>) -> bool {
    forall|k: int, i: int|
        0 <= k < sel.len() && 0 <= i < sel[k] && tainted(gates, sel, i) ==> !#[trigger] collides(
            gates[sel[k] as int],
            gates[i],
        )
}

/// Each selected gate collides with the one selected before it.
pub open spec fn is_chain(gates: Seq<Gate>, sel: Seq<usize>) -> bool {
    forall|k: int|
        1 <= k < sel.len() ==> collides(gates[sel[k - 1] as int], gates[#[trigger] sel[k] as int])
}

/// Gate `j` is counted as connected to the selection by the scan for the
/// next gate: it lies behind the first selected gate, is not selected, and
/// collides with an earlier gate so counted, with the last selected gate
/// before it, or with another selected gate before it.
pub open spec fn blocked(gates: Seq<Gate>, sel: Seq<usize>, j: int) -> bool
    decreases j,
{
    &&& sel.len() >= 1
    &&& sel[0] < j < gates.len()
    &&& !selected(sel, j)
    &&& (touches_blocked(gates, sel, j) || follows_last(gates, sel, j) || meets_selected(
        gates,
        sel,
        j,
    ))
}

/// Gate `j` collides with an earlier gate that is counted as connected.
pub open spec fn touches_blocked(gates: Seq<Gate>, sel: Seq<usize>, j: int) -> bool
    decreases j, 0int,
{
    exists|d: int|
        0 <= d < j && blocked(gates, sel, d) && #[trigger] collides(gates[d], gates[j])
}

/// Gate `j` lies behind the last selected gate and collides with it.
pub open spec fn follows_last(gates: Seq<Gate>, sel: Seq<usize>, j: int) -> bool {
    sel.last() < j && collides(gates[sel.last() as int], gates[j])
}

/// Gate `j` collides with a selected gate that stands before it.
pub open spec fn meets_selected(gates: Seq<Gate>, sel: Seq<usize>, j: int) -> bool {
    exists|k: int|
        0 <= k < sel.len() && sel[k] < j && collides(gates[#[trigger] sel[k] as int], gates[j])
}

/// Gate `j` may be selected next: it follows the last selected gate,
/// collides with it, and with no earlier gate that is counted as connected.
pub open spec fn is_candidate(gates: Seq<Gate>, sel: Seq<usize>, j: int) -> bool {
    &&& sel.len() >= 1
    &&& j < gates.len()
    &&& follows_last(gates, sel, j)
    &&& !touches_blocked(gates, sel, j)
}

/// Nothing before the first selected gate depends on the selection.
pub proof fn lemma_tainted_after_first(gates: Seq<Gate>, sel: Seq<usize>, i: int)
    requires
        is_selection(sel, gates.len() as int),
        tainted(gates, sel, i),
    ensures
        sel[0] < i,
    decreases i,
{
    let d = choose|d: int|
        0 <= d < i && (selected(sel, d) || tainted(gates, sel, d)) && #[trigger] collides(
            gates[d],
            gates[i],
        );
    if selected(sel, d) {
        let k = choose|k: int| 0 <= k < sel.len() && #[trigger] sel[k] == d;
        assert(sel[0] <= sel[k]);
    } else {
        lemma_tainted_after_first(gates, sel, d);
    }
}

/// A selected gate stands at a place of the selection that is not above
/// its index.
pub proof fn lemma_place_below_index(sel: Seq<usize>, num_gates: int, k: int)
    requires
        is_selection(sel, num_gates),
        0 <= k < sel.len(),
    ensures
        k <= sel[k],
    decreases k,
{
    if k > 0 {
        lemma_place_below_index(sel, num_gates, k - 1);
    }
}

/// Every gate that depends on the selection is counted as connected by the
/// scan.
pub proof fn lemma_tainted_is_blocked(gates: Seq<Gate>, sel: Seq<usize>, i: int)
    requires
        is_selection(sel, gates.len() as int),
        tainted(gates, sel, i),
    ensures
        blocked(gates, sel, i),
    decreases i,
{
    lemma_tainted_after_first(gates, sel, i);
    let d = choose|d: int|
        0 <= d < i && (selected(sel, d) || tainted(gates, sel, d)) && #[trigger] collides(
            gates[d],
            gates[i],
        );
    if selected(sel, d) {
        let k = choose|k: int| 0 <= k < sel.len() && #[trigger] sel[k] == d;
        lemma_place_below_index(sel, gates.len() as int, k);
        assert(meets_selected(gates, sel, i));
    } else {
        lemma_tainted_is_blocked(gates, sel, d);
        assert(touches_blocked(gates, sel, i));
    }
}

/// Whether a gate before `bound` depends on the selection is the same for
/// a selection and for that selection with a gate at or behind `bound`
/// added at its end.
pub proof fn lemma_tainted_prefix(gates: Seq<Gate>, sel: Seq<usize>, c: usize, i: int)
    requires
        is_selection(sel, gates.len() as int),
        sel.last() < c,
        i < c,
    ensures
        tainted(gates, sel.push(c), i) == tainted(gates, sel, i),
        selected(sel.push(c), i) == selected(sel, i),
    decreases i,
{
    let more = sel.push(c);
    assert(selected(more, i) == selected(sel, i)) by {
        if selected(more, i) {
            let k = choose|k: int| 0 <= k < more.len() && #[trigger] more[k] == i;
            assert(k < sel.len());
            assert(sel[k] == i);
        }
        if selected(sel, i) {
            let k = choose|k: int| 0 <= k < sel.len() && #[trigger] sel[k] == i;
            assert(more[k] == i);
        }
    }
    if 0 <= i < gates.len() {
        if tainted(gates, more, i) {
            let d = choose|d: int|
                0 <= d < i && (selected(more, d) || tainted(gates, more, d)) && #[trigger] collides(
                    gates[d],
                    gates[i],
                );
            lemma_tainted_prefix(gates, sel, c, d);
            assert(collides(gates[d], gates[i]));
        }
        if tainted(gates, sel, i) {
            let d = choose|d: int|
                0 <= d < i && (selected(sel, d) || tainted(gates, sel, d)) && #[trigger] collides(
                    gates[d],
                    gates[i],
                );
            lemma_tainted_prefix(gates, sel, c, d);
            assert(collides(gates[d], gates[i]));
        }
    }
}

/// A convex chain with a candidate added is a convex chain.
pub proof fn lemma_extend_convex(gates: Seq<Gate>, sel: Seq<usize>, c: usize)
    requires
        is_selection(sel, gates.len() as int),
        convex(gates, sel),
        is_chain(gates, sel),
        is_candidate(gates, sel, c as int),
    ensures
        is_selection(sel.push(c), gates.len() as int),
        convex(gates, sel.push(c)),
        is_chain(gates, sel.push(c)),
{
    let more = sel.push(c);
    assert(is_selection(more, gates.len() as int)) by {
        assert forall|a: int, b: int| 0 <= a < b < more.len() implies more[a] < more[b] by {
            if b == sel.len() {
                assert(sel[a] <= sel.last());
            }
        }
    }
    assert(is_chain(gates, more)) by {
        assert forall|k: int| 1 <= k < more.len() implies collides(
            gates[more[k - 1] as int],
            gates[#[trigger] more[k] as int],
        ) by {
            if k < sel.len() {
                assert(more[k] == sel[k]);
                assert(more[k - 1] == sel[k - 1]);
                assert(collides(gates[sel[k - 1] as int], gates[sel[k] as int]));
            }
        }
    }
    assert forall|k: int, i: int|
        0 <= k < more.len() && 0 <= i < more[k] && tainted(gates, more, i) implies !#[trigger] collides(
        gates[more[k] as int],
        gates[i],
    ) by {
        if k < sel.len() {
            assert(more[k] == sel[k]);
            assert(sel[k] <= sel.last());
            lemma_tainted_prefix(gates, sel, c, i);
            assert(!collides(gates[sel[k] as int], gates[i]));
        } else {
            lemma_tainted_prefix(gates, sel, c, i);
            lemma_tainted_is_blocked(gates, sel, i);
            if collides(gates[c as int], gates[i]) {
                assert(collides(gates[i], gates[c as int]));
                assert(touches_blocked(gates, sel, c as int));
            }
        }
    }
}

/// A selection of one gate is a convex chain.
pub proof fn lemma_single_convex(gates: Seq<Gate>, first: usize)
    requires
        first < gates.len(),
    ensures
        is_selection(seq![first], gates.len() as int),
        convex(gates, seq![first]),
        is_chain(gates, seq![first]),
{
    let sel = seq![first];
    assert(is_selection(sel, gates.len() as int));
    assert forall|k: int, i: int|
        0 <= k < sel.len() && 0 <= i < sel[k] && tainted(gates, sel, i) implies !#[trigger] collides(
        gates[sel[k] as int],
        gates[i],
    ) by {
        lemma_tainted_after_first(gates, sel, i);
    }
}

} // verus!
