//! The permutation that moves a selection into one block, and why it
//! leaves the function of the circuit as it is.
use super::convex::{convex, is_selection, selected, tainted};
use crate::circuit::circuit::{collides, gates_fit, run_gates, Gate};
use crate::circuit::semantics::{
    clear_of, equivalent, lemma_fit_parts, lemma_move_gate_ahead, lemma_run_gates_concat,
};
use vstd::prelude::*;

verus! {

/// Where a gate goes when a selection is moved into one block.
#[derive(Clone, Copy, Debug, PartialEq, Eq, Structural)]
pub enum Place {
    /// Ahead of the block, for a gate that depends on no selected gate.
    Ahead,
    /// Into the block, for a selected gate.
    Block,
    /// Behind the block, for a gate that depends on a selected gate.
    Behind,
}

/// Where gate `i` goes.
pub open spec fn place_of(gates: Seq<Gate>, sel: Seq<usize>, i: int) -> Place {
    if selected(sel, i) {
        Place::Block
    } else if tainted(gates, sel, i) {
        Place::Behind
    } else {
        Place::Ahead
    }
}

/// The gates from `lo` up to `hi` that go to `place`, in their order.
pub open spec fn part(gates: Seq<Gate>, sel: Seq<usize>, lo: int, hi: int, place: Place) -> Seq<
    Gate,
>
    decreases hi - lo,
{
    if hi <= lo {
        Seq::empty()
    } else if place_of(gates, sel, hi - 1) == place {
        part(gates, sel, lo, hi - 1, place).push(gates[hi - 1])
    } else {
        part(gates, sel, lo, hi - 1, place)
    }
}

/// The gates from the first selected gate up to `hi`, those that go ahead
/// first, then the selected ones, then those that go behind.
pub open spec fn regrouped(gates: Seq<Gate>, sel: Seq<usize>, hi: int) -> Seq<Gate> {
    part(gates, sel, sel[0] as int, hi, Place::Ahead) + part(
        gates,
        sel,
        sel[0] as int,
        hi,
        Place::Block,
    ) + part(gates, sel, sel[0] as int, hi, Place::Behind)
}

/// The circuit with the selection moved into one block: the gates between
/// the first and the last selected gate are regrouped, the others stay.
pub open spec fn permuted(gates: Seq<Gate>, sel: Seq<usize>) -> Seq<Gate> {
    gates.take(sel[0] as int) + regrouped(gates, sel, sel.last() + 1) + gates.skip(sel.last() + 1)
}

/// The selected gates in their order.
pub open spec fn chosen(gates: Seq<Gate>, sel: Seq<usize>) -> Seq<Gate> {
    Seq::new(sel.len(), |k: int| gates[sel[k] as int])
}

/// `g` is a gate from `lo` up to `hi` that goes to `place`.
pub open spec fn goes_to(
    gates: Seq<Gate>,
    sel: Seq<usize>,
    lo: int,
    hi: int,
    place: Place,
    g: Gate,
) -> bool {
    exists|j: int| lo <= j < hi && place_of(gates, sel, j) == place && #[trigger] gates[j] == g
}

/// Every gate of a part is a gate of the range that goes to its place.
pub proof fn lemma_part_members(
    gates: Seq<Gate>,
    sel: Seq<usize>,
    lo: int,
    hi: int,
    place: Place,
)
    requires
        0 <= lo,
        hi <= gates.len(),
    ensures
        forall|a: int|
            0 <= a < part(gates, sel, lo, hi, place).len() ==> goes_to(
                gates,
                sel,
                lo,
                hi,
                place,
                #[trigger] part(gates, sel, lo, hi, place)[a],
            ),
        part(gates, sel, lo, hi, place).len() <= if hi > lo {
            hi - lo
        } else {
            0
        },
    decreases hi - lo,
{
    if hi > lo {
        lemma_part_members(gates, sel, lo, hi - 1, place);
        let rest = part(gates, sel, lo, hi - 1, place);
        let all = part(gates, sel, lo, hi, place);
        assert forall|a: int| 0 <= a < all.len() implies goes_to(
            gates,
            sel,
            lo,
            hi,
            place,
            #[trigger] all[a],
        ) by {
            if a < rest.len() {
                assert(goes_to(gates, sel, lo, hi - 1, place, rest[a]));
                let j = choose|j: int|
                    lo <= j < hi - 1 && place_of(gates, sel, j) == place && #[trigger] gates[j]
                        == rest[a];
                assert(lo <= j < hi && gates[j] == all[a]);
            } else {
                assert(gates[hi - 1] == all[a]);
            }
        }
    }
}

/// The three parts of a range hold each of its gates once.
pub proof fn lemma_parts_len(gates: Seq<Gate>, sel: Seq<usize>, lo: int, hi: int)
    requires
        lo <= hi,
    ensures
        part(gates, sel, lo, hi, Place::Ahead).len() + part(gates, sel, lo, hi, Place::Block).len()
            + part(gates, sel, lo, hi, Place::Behind).len() == hi - lo,
    decreases hi - lo,
{
    if hi > lo {
        lemma_parts_len(gates, sel, lo, hi - 1);
    }
}

/// The part that goes into the block, up to a selected gate, holds the
/// selected gates before it in their order.
pub proof fn lemma_block_part(gates: Seq<Gate>, sel: Seq<usize>, k: int)
    requires
        is_selection(sel, gates.len() as int),
        0 <= k <= sel.len(),
    ensures
        part(
            gates,
            sel,
            sel[0] as int,
            if k < sel.len() {
                sel[k] as int
            } else {
                sel.last() + 1
            },
            Place::Block,
        ) == chosen(gates, sel).take(k),
    decreases k,
{
    let lo = sel[0] as int;
    let hi = if k < sel.len() {
        sel[k] as int
    } else {
        sel.last() + 1
    };
    if k == 0 {
        assert(chosen(gates, sel).take(0) =~= Seq::<Gate>::empty());
    } else {
        lemma_block_part(gates, sel, k - 1);
        let from = sel[k - 1] as int;
        // from the selected gate k - 1 up to hi, only that gate is selected
        lemma_gap(gates, sel, k - 1, hi);
        assert(chosen(gates, sel).take(k) =~= chosen(gates, sel).take(k - 1).push(
            gates[sel[k - 1] as int],
        ));
    }
}

/// Between two neighbours of the selection no gate is selected: the part
/// that goes into the block grows by the first of them alone.
proof fn lemma_gap(gates: Seq<Gate>, sel: Seq<usize>, k: int, hi: int)
    requires
        is_selection(sel, gates.len() as int),
        0 <= k < sel.len(),
        sel[k] < hi,
        k + 1 < sel.len() ==> hi <= sel[k + 1],
        k + 1 == sel.len() ==> hi <= sel.last() + 1,
    ensures
        part(gates, sel, sel[0] as int, hi, Place::Block) == part(
            gates,
            sel,
            sel[0] as int,
            sel[k] as int,
            Place::Block,
        ).push(gates[sel[k] as int]),
    decreases hi - sel[k],
{
    let lo = sel[0] as int;
    assert(sel[0] <= sel[k]);
    if hi - 1 == sel[k] {
        assert(selected(sel, hi - 1));
    } else {
        lemma_gap(gates, sel, k, hi - 1);
        assert(!selected(sel, hi - 1)) by {
            if selected(sel, hi - 1) {
                let j = choose|j: int| 0 <= j < sel.len() && #[trigger] sel[j] == hi - 1;
                if j <= k {
                    assert(sel[j] <= sel[k]);
                } else {
                    assert(sel[k + 1] <= sel[j]);
                }
            }
        }
    }
}

/// A part consists of gates that fit.
proof fn lemma_part_fits(
    gates: Seq<Gate>,
    sel: Seq<usize>,
    lo: int,
    hi: int,
    place: Place,
    num_wires: int,
)
    requires
        0 <= lo,
        hi <= gates.len(),
        gates_fit(gates, num_wires),
    ensures
        gates_fit(part(gates, sel, lo, hi, place), num_wires),
{
    lemma_part_members(gates, sel, lo, hi, place);
    let p = part(gates, sel, lo, hi, place);
    assert forall|a: int| 0 <= a < p.len() implies (#[trigger] p[a]).fits(num_wires) by {
        assert(goes_to(gates, sel, lo, hi, place, p[a]));
        let j = choose|j: int|
            lo <= j < hi && place_of(gates, sel, j) == place && #[trigger] gates[j] == p[a];
        assert(gates[j].fits(num_wires));
    }
}

/// Up to any gate, the regrouped gates do what the gates in their own order
/// do, if the selection is convex.
proof fn lemma_regrouped_runs(gates: Seq<Gate>, sel: Seq<usize>, hi: int, s: Seq<bool>)
    requires
        is_selection(sel, gates.len() as int),
        convex(gates, sel),
        gates_fit(gates, s.len() as int),
        sel[0] <= hi <= sel.last() + 1,
    ensures
        run_gates(gates.take(sel[0] as int) + regrouped(gates, sel, hi), s) == run_gates(
            gates.take(hi),
            s,
        ),
    decreases hi - sel[0],
{
    let lo = sel[0] as int;
    let n = s.len() as int;
    let pre = gates.take(lo);
    if hi == lo {
        assert(pre + regrouped(gates, sel, hi) =~= gates.take(hi));
    } else {
        let i = hi - 1;
        lemma_regrouped_runs(gates, sel, i, s);
        let g = gates[i];
        let a = part(gates, sel, lo, i, Place::Ahead);
        let b = part(gates, sel, lo, i, Place::Block);
        let c = part(gates, sel, lo, i, Place::Behind);
        lemma_part_members(gates, sel, lo, i, Place::Ahead);
        lemma_part_members(gates, sel, lo, i, Place::Block);
        lemma_part_members(gates, sel, lo, i, Place::Behind);
        lemma_part_fits(gates, sel, lo, i, Place::Ahead, n);
        lemma_part_fits(gates, sel, lo, i, Place::Block, n);
        lemma_part_fits(gates, sel, lo, i, Place::Behind, n);
        assert(gates_fit(pre, n)) by {
            assert forall|k: int| 0 <= k < pre.len() implies (#[trigger] pre[k]).fits(n) by {
                assert(pre[k] == gates[k]);
            }
        }
        assert(g.fits(n));
        assert(gates.take(hi) =~= gates.take(i).push(g));
        let before_all = pre + (a + b + c);
        assert(pre + regrouped(gates, sel, i) == before_all);
        // the gates in their own order: the regrouped ones, then g
        assert(gates.take(hi).drop_last() == gates.take(i));
        assert(before_all.push(g).drop_last() == before_all);
        assert(run_gates(before_all.push(g), s) == run_gates(gates.take(hi), s));
        let place = place_of(gates, sel, i);
        if place == Place::Behind {
            assert(pre + regrouped(gates, sel, hi) =~= before_all.push(g));
        } else if place == Place::Block {
            assert(clear_of(g, c)) by {
                assert forall|k: int| 0 <= k < c.len() implies !collides(g, #[trigger] c[k]) by {
                    assert(goes_to(gates, sel, lo, i, Place::Behind, c[k]));
                    let j = choose|j: int|
                        lo <= j < i && place_of(gates, sel, j) == Place::Behind
                            && #[trigger] gates[j] == c[k];
                    let m = choose|m: int| 0 <= m < sel.len() && #[trigger] sel[m] == i;
                    assert(tainted(gates, sel, j));
                    assert(!collides(gates[sel[m] as int], gates[j]));
                }
            }
            lemma_fit_parts(pre, a, n);
            lemma_fit_parts(pre + a, b, n);
            lemma_move_gate_ahead(pre + a + b, c, g, s);
            assert(before_all.push(g) =~= (pre + a + b) + c.push(g));
            assert(pre + regrouped(gates, sel, hi) =~= (pre + a + b) + (seq![g] + c));
        } else {
            assert(clear_of(g, b + c)) by {
                assert forall|k: int| 0 <= k < (b + c).len() implies !collides(
                    g,
                    #[trigger] (b + c)[k],
                ) by {
                    if k < b.len() {
                        assert(goes_to(gates, sel, lo, i, Place::Block, b[k]));
                        let j = choose|j: int|
                            lo <= j < i && place_of(gates, sel, j) == Place::Block
                                && #[trigger] gates[j] == b[k];
                        if collides(gates[j], gates[i]) {
                            assert(tainted(gates, sel, i));
                        }
                        assert(collides(g, gates[j]) == collides(gates[j], g));
                    } else {
                        assert(goes_to(gates, sel, lo, i, Place::Behind, c[k - b.len()]));
                        let j = choose|j: int|
                            lo <= j < i && place_of(gates, sel, j) == Place::Behind
                                && #[trigger] gates[j] == c[k - b.len()];
                        if collides(gates[j], gates[i]) {
                            assert(tainted(gates, sel, i));
                        }
                        assert(collides(g, gates[j]) == collides(gates[j], g));
                    }
                }
            }
            lemma_fit_parts(pre, a, n);
            lemma_fit_parts(b, c, n);
            lemma_move_gate_ahead(pre + a, b + c, g, s);
            assert(before_all.push(g) =~= (pre + a) + (b + c).push(g));
            assert(pre + regrouped(gates, sel, hi) =~= (pre + a) + (seq![g] + (b + c)));
        }
    }
}

/// Moving a convex selection into one block leaves the function of the
/// circuit as it is.
pub proof fn lemma_permuted_equivalent(gates: Seq<Gate>, sel: Seq<usize>, num_wires: int)
    requires
        is_selection(sel, gates.len() as int),
        convex(gates, sel),
        gates_fit(gates, num_wires),
    ensures
        equivalent(gates, permuted(gates, sel), num_wires),
{
    let hi = sel.last() + 1;
    assert(sel[0] <= sel.last());
    assert forall|s: Seq<bool>| s.len() == num_wires implies #[trigger] run_gates(gates, s)
        == run_gates(permuted(gates, sel), s) by {
        lemma_regrouped_runs(gates, sel, hi, s);
        let front = gates.take(sel[0] as int) + regrouped(gates, sel, hi);
        lemma_run_gates_concat(front, gates.skip(hi), s);
        lemma_run_gates_concat(gates.take(hi), gates.skip(hi), s);
        assert(gates.take(hi) + gates.skip(hi) =~= gates);
    }
}

/// The permuted circuit has the gates of the circuit: as many, and each of
/// them fits.  The selected gates stand in one block behind those that go
/// ahead.
pub proof fn lemma_permuted_shape(gates: Seq<Gate>, sel: Seq<usize>, num_wires: int)
    requires
        is_selection(sel, gates.len() as int),
        gates_fit(gates, num_wires),
    ensures
        permuted(gates, sel).len() == gates.len(),
        gates_fit(permuted(gates, sel), num_wires),
        permuted(gates, sel).subrange(
            block_start(gates, sel),
            block_start(gates, sel) + sel.len(),
        ) == chosen(gates, sel),
        block_start(gates, sel) + sel.len() <= gates.len(),
{
    let lo = sel[0] as int;
    let hi = sel.last() + 1;
    assert(sel[0] <= sel.last());
    lemma_parts_len(gates, sel, lo, hi);
    lemma_block_part(gates, sel, sel.len() as int);
    assert(chosen(gates, sel).take(sel.len() as int) == chosen(gates, sel));
    lemma_part_fits(gates, sel, lo, hi, Place::Ahead, num_wires);
    lemma_part_fits(gates, sel, lo, hi, Place::Block, num_wires);
    lemma_part_fits(gates, sel, lo, hi, Place::Behind, num_wires);
    let p = permuted(gates, sel);
    let a = part(gates, sel, lo, hi, Place::Ahead);
    let b = part(gates, sel, lo, hi, Place::Block);
    let c = part(gates, sel, lo, hi, Place::Behind);
    assert forall|k: int| 0 <= k < p.len() implies (#[trigger] p[k]).fits(num_wires) by {
        if k < lo {
            assert(p[k] == gates[k]);
        } else if k < lo + a.len() {
            assert(p[k] == a[k - lo]);
        } else if k < lo + a.len() + b.len() {
            assert(p[k] == b[k - lo - a.len()]);
        } else if k < hi {
            assert(p[k] == c[k - lo - a.len() - b.len()]);
        } else {
            assert(p[k] == gates[k]);
        }
    }
    assert(p.subrange(block_start(gates, sel), block_start(gates, sel) + sel.len()) =~= b);
}

/// Where the block of the selected gates begins in the permuted circuit.
pub open spec fn block_start(gates: Seq<Gate>, sel: Seq<usize>) -> int {
    sel[0] + part(gates, sel, sel[0] as int, sel.last() + 1, Place::Ahead).len()
}

} // verus!
