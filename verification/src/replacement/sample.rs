//! Sampling of candidate blocks over the local wires.
use super::strategy::ControlFnChoice;
use crate::circuit::circuit::Gate;
use crate::flags::{
    cleared, count_free, count_set, lemma_count_free_bounds, lemma_count_free_step,
    lemma_count_set_monotone, mark,
};
use crate::random::{draw_free, drawn_free, RandomSource};
use vstd::prelude::*;

verus! {

/// How often the placement of the active control wires is begun again
/// before a sample is given up.
pub const PLACEMENT_ROUNDS: usize = 16;

/// A gate as the samplers make it: three distinct wires below `n_proj_wires`
/// and a control function of `cf_choice`.
pub open spec fn sampled_gate(g: Gate, n_proj_wires: int, cf_choice: ControlFnChoice) -> bool {
    &&& g.distinct_wires()
    &&& g.fits(n_proj_wires)
    &&& cf_choice.codes().contains(g.control_func)
}

/// Every gate of `gates` is as the samplers make it.
pub open spec fn sampled_block(gates: Seq<Gate>, n_proj_wires: int, cf_choice: ControlFnChoice) -> bool {
    forall|g: int| 0 <= g < gates.len() ==> sampled_gate(#[trigger] gates[g], n_proj_wires, cf_choice)
}

/// Some gate of `gates` has `w` as its target.
pub open spec fn has_target(gates: Seq<Gate>, w: usize) -> bool {
    exists|g: int| 0 <= g < gates.len() && (#[trigger] gates[g]).wires[0] == w
}

/// Some gate of `gates` has `w` as a control.
pub open spec fn has_control(gates: Seq<Gate>, w: usize) -> bool {
    exists|g: int|
        0 <= g < gates.len() && ((#[trigger] gates[g]).wires[1] == w || gates[g].wires[2] == w)
}

/// Every wire flagged in `active_target` is the target of some gate, and
/// every wire flagged in `active_control` is a control of some gate.
pub open spec fn covers_active(
    gates: Seq<Gate>,
    active_target: Seq<bool>,
    active_control: Seq<bool>,
) -> bool {
    &&& forall|w: usize|
        w < active_target.len() && #[trigger] active_target[w as int] ==> has_target(gates, w)
    &&& forall|w: usize|
        w < active_control.len() && #[trigger] active_control[w as int] ==> has_control(gates, w)
}

/// The wire in `slot` is below `n` and differs from those in `o1` and `o2`.
pub open spec fn slot_ok(slot: Option<usize>, o1: Option<usize>, o2: Option<usize>, n: int) -> bool {
    slot matches Some(x) ==> x < n && o1 != Some(x) && o2 != Some(x)
}

/// `used` with the wire of `slot` marked, if it holds one.
pub open spec fn with_slot(used: Seq<bool>, slot: Option<usize>) -> Seq<bool> {
    match slot {
        Some(x) => used.update(x as int, true),
        None => used,
    }
}

/// The wire for a slot, the wires that are used then, and the source: the
/// wire that the slot holds, or else a free one that the source draws.
pub open spec fn slot_filled<R: RandomSource>(slot: Option<usize>, used: Seq<bool>, rng: R) -> (
    usize,
    Seq<bool>,
    R,
) {
    match slot {
        Some(x) => (x, used, rng),
        None => {
            let drawn = drawn_free(used, rng);
            (drawn.0->0, used.update(drawn.0->0 as int, true), drawn.1)
        },
    }
}

/// What `fill_slots` gives with a replayable source, and the source after
/// it.
pub open spec fn filled_slots<R: RandomSource>(
    target: Option<usize>,
    control0: Option<usize>,
    control1: Option<usize>,
    n_proj_wires: usize,
    rng: R,
) -> ((usize, usize, usize), R) {
    let none = Seq::new(n_proj_wires as nat, |i: int| false);
    let given = with_slot(with_slot(with_slot(none, target), control0), control1);
    let t = slot_filled(target, given, rng);
    let c0 = slot_filled(control0, t.1, t.2);
    let c1 = slot_filled(control1, c0.1, c0.2);
    ((t.0, c0.0, c1.0), c1.2)
}

/// Three distinct wires below `n_proj_wires`: those that are given, and a
/// random one in each place where none is given.
pub fn fill_slots<R: RandomSource>(
    target: Option<usize>,
    control0: Option<usize>,
    control1: Option<usize>,
    n_proj_wires: usize,
    rng: &mut R,
) -> (wires: (usize, usize, usize))
    requires
        n_proj_wires >= 3,
        slot_ok(target, control0, control1, n_proj_wires as int),
        slot_ok(control0, target, control1, n_proj_wires as int),
        slot_ok(control1, target, control0, n_proj_wires as int),
    ensures
        wires.0 < n_proj_wires && wires.1 < n_proj_wires && wires.2 < n_proj_wires,
        wires.0 != wires.1 && wires.0 != wires.2 && wires.1 != wires.2,
        target matches Some(x) ==> wires.0 == x,
        control0 matches Some(x) ==> wires.1 == x,
        control1 matches Some(x) ==> wires.2 == x,
        final(rng).replayable() == old(rng).replayable(),
        old(rng).replayable() ==> (wires, *final(rng)) == filled_slots(
            target,
            control0,
            control1,
            n_proj_wires,
            *old(rng),
        ),
{
    let mut used = cleared(n_proj_wires);
    proof {
        assert(used@ =~= Seq::new(n_proj_wires as nat, |i: int| false));
    }
    if let Some(x) = target {
        mark(&mut used, x);
    }
    if let Some(x) = control0 {
        mark(&mut used, x);
    }
    if let Some(x) = control1 {
        mark(&mut used, x);
    }
    let ghost given = (if target is Some {
        1int
    } else {
        0int
    }) + (if control0 is Some {
        1int
    } else {
        0int
    }) + (if control1 is Some {
        1int
    } else {
        0int
    });
    assert(count_free(used@) == n_proj_wires - given);
    let t = match target {
        Some(x) => x,
        None => {
            let pick = draw_free(&used, rng);
            let x = pick.unwrap();
            mark(&mut used, x);
            x
        },
    };
    assert(used[t as int]);
    let c0 = match control0 {
        Some(x) => x,
        None => {
            let pick = draw_free(&used, rng);
            let x = pick.unwrap();
            mark(&mut used, x);
            x
        },
    };
    assert(used[t as int] && used[c0 as int]);
    let c1 = match control1 {
        Some(x) => x,
        None => {
            let pick = draw_free(&used, rng);
            let x = pick.unwrap();
            x
        },
    };
    (t, c0, c1)
}

/// `g` with the wires `wires`.
pub open spec fn rewired(g: Gate, wires: (usize, usize, usize)) -> Gate {
    Gate { wires: [wires.0, wires.1, wires.2], control_func: g.control_func, generation: g.generation }
}

/// `g` with the control function `cf`.
pub open spec fn refunctioned(g: Gate, cf: u8) -> Gate {
    Gate { wires: g.wires, control_func: cf, generation: g.generation }
}

/// The block after the first `upto` gates have been given random wires
/// from a replayable source, and the source after it.
pub open spec fn unguided_wires<R: RandomSource>(
    circuit: Seq<Gate>,
    n_proj_wires: usize,
    rng: R,
    upto: nat,
) -> (Seq<Gate>, R)
    decreases upto,
{
    if upto == 0 {
        (circuit, rng)
    } else {
        let before = unguided_wires(circuit, n_proj_wires, rng, (upto - 1) as nat);
        let filled = filled_slots(None, None, None, n_proj_wires, before.1);
        (before.0.update(upto - 1, rewired(before.0[upto - 1], filled.0)), filled.1)
    }
}

/// The block after the first `upto` gates have been given random control
/// functions from a replayable source, and the source after it.
pub open spec fn random_functions<R: RandomSource>(
    circuit: Seq<Gate>,
    cf_choice: ControlFnChoice,
    rng: R,
    upto: nat,
) -> (Seq<Gate>, R)
    decreases upto,
{
    if upto == 0 {
        (circuit, rng)
    } else {
        let before = random_functions(circuit, cf_choice, rng, (upto - 1) as nat);
        let drawn = cf_choice.drawn_cf(before.1);
        (before.0.update(upto - 1, refunctioned(before.0[upto - 1], drawn.0)), drawn.1)
    }
}

/// What `sample_random_circuit_unguided` makes of a block with a
/// replayable source, and the source after it.
pub open spec fn sampled_unguided<R: RandomSource>(
    circuit: Seq<Gate>,
    n_proj_wires: usize,
    cf_choice: ControlFnChoice,
    rng: R,
) -> (Seq<Gate>, R) {
    let wired = unguided_wires(circuit, n_proj_wires, rng, circuit.len());
    random_functions(wired.0, cf_choice, wired.1, circuit.len())
}

/// Fills `circuit` with random gates: three distinct wires below
/// `n_proj_wires` each, and control functions of `cf_choice`.
pub fn sample_random_circuit_unguided<R: RandomSource>(
    circuit: &mut Vec<Gate>,
    n_proj_wires: usize,
    cf_choice: ControlFnChoice,
    rng: &mut R,
)
    requires
        n_proj_wires >= 3,
    ensures
        final(circuit).len() == old(circuit).len(),
        sampled_block(final(circuit)@, n_proj_wires as int, cf_choice),
        forall|g: int|
            0 <= g < old(circuit).len() ==> (#[trigger] final(circuit)[g]).generation == old(
                circuit,
            )[g].generation,
        final(rng).replayable() == old(rng).replayable(),
        old(rng).replayable() ==> (final(circuit)@, *final(rng)) == sampled_unguided(
            old(circuit)@,
            n_proj_wires,
            cf_choice,
            *old(rng),
        ),
{
    let n = circuit.len();
    let mut g: usize = 0;
    while g < n
        invariant
            g <= n,
            n_proj_wires >= 3,
            circuit.len() == n,
            n == old(circuit).len(),
            rng.replayable() == old(rng).replayable(),
            old(rng).replayable() ==> (circuit@, *rng) == unguided_wires(
                old(circuit)@,
                n_proj_wires,
                *old(rng),
                g as nat,
            ),
            forall|k: int|
                0 <= k < g ==> {
                    &&& (#[trigger] circuit[k]).distinct_wires()
                    &&& circuit[k].wires[0] < n_proj_wires
                    &&& circuit[k].wires[1] < n_proj_wires
                    &&& circuit[k].wires[2] < n_proj_wires
                },
            forall|k: int|
                0 <= k < n ==> (#[trigger] circuit[k]).generation == old(circuit)[k].generation,
        decreases n - g,
    {
        let (t, c0, c1) = fill_slots(None, None, None, n_proj_wires, rng);
        let before = circuit[g];
        circuit[g] = Gate {
            wires: [t, c0, c1],
            control_func: before.control_func,
            generation: before.generation,
        };
        proof {
            assert(circuit[g as int].wires =~= rewired(before, (t, c0, c1)).wires);
        }
        g += 1;
    }
    let ghost wired = circuit@;
    let ghost rng_wired = *rng;
    let mut g: usize = 0;
    while g < n
        invariant
            g <= n,
            circuit.len() == n,
            n == old(circuit).len(),
            wired.len() == n,
            rng.replayable() == old(rng).replayable(),
            old(rng).replayable() ==> (wired, rng_wired) == unguided_wires(
                old(circuit)@,
                n_proj_wires,
                *old(rng),
                n as nat,
            ),
            old(rng).replayable() ==> (circuit@, *rng) == random_functions(
                wired,
                cf_choice,
                rng_wired,
                g as nat,
            ),
            forall|k: int|
                0 <= k < n ==> {
                    &&& (#[trigger] circuit[k]).distinct_wires()
                    &&& circuit[k].wires[0] < n_proj_wires
                    &&& circuit[k].wires[1] < n_proj_wires
                    &&& circuit[k].wires[2] < n_proj_wires
                },
            forall|k: int| 0 <= k < g ==> sampled_gate(#[trigger] circuit[k], n_proj_wires as int, cf_choice),
            forall|k: int|
                0 <= k < n ==> (#[trigger] circuit[k]).generation == old(circuit)[k].generation,
        decreases n - g,
    {
        let cf = cf_choice.random_cf(rng);
        let before = circuit[g];
        circuit[g] = Gate { wires: before.wires, control_func: cf, generation: before.generation };
        g += 1;
    }
}

/// `slots` holds every wire flagged in `active`.
pub open spec fn holds_flagged(slots: Seq<Option<usize>>, active: Seq<bool>, upto: int) -> bool {
    forall|w: usize|
        w < upto && #[trigger] active[w as int] ==> exists|g: int|
            0 <= g < slots.len() && #[trigger] slots[g] == Some(w)
}

/// Where the placement of the active targets stands, with a replayable
/// source, after the wires below `upto`: whether every wire found a gate,
/// the gates that are taken, the wire placed in each gate, and the source.
pub open spec fn targets_placed<R: RandomSource>(
    active_target: Seq<bool>,
    n_in: usize,
    rng: R,
    upto: nat,
) -> (bool, Seq<bool>, Seq<Option<usize>>, R)
    decreases upto,
{
    if upto == 0 {
        (
            true,
            Seq::new(n_in as nat, |i: int| false),
            Seq::new(n_in as nat, |i: int| None::<usize>),
            rng,
        )
    } else {
        let before = targets_placed(active_target, n_in, rng, (upto - 1) as nat);
        if !before.0 || !active_target[upto - 1] {
            before
        } else {
            let drawn = drawn_free(before.1, before.3);
            match drawn.0 {
                None => (false, before.1, before.2, drawn.1),
                Some(g) => (
                    true,
                    before.1.update(g as int, true),
                    before.2.update(g as int, Some((upto - 1) as usize)),
                    drawn.1,
                ),
            }
        }
    }
}

/// Once a wire has found no gate, the placement stays as it is.
pub proof fn lemma_targets_failed<R: RandomSource>(
    active_target: Seq<bool>,
    n_in: usize,
    rng: R,
    at: nat,
    upto: nat,
)
    requires
        at <= upto,
        !targets_placed(active_target, n_in, rng, at).0,
    ensures
        targets_placed(active_target, n_in, rng, upto) == targets_placed(
            active_target,
            n_in,
            rng,
            at,
        ),
    decreases upto,
{
    if at < upto {
        lemma_targets_failed(active_target, n_in, rng, at, (upto - 1) as nat);
    }
}

/// Gives each wire flagged in `active_target` a gate of its own, picked at
/// random, of which it is to be the target.  There is no such placement
/// where more wires are flagged than there are gates.
pub fn place_active_targets<R: RandomSource>(
    active_target: &Vec<bool>,
    n_in: usize,
    rng: &mut R,
) -> (res: Option<Vec<Option<usize>>>)
    ensures
        res is None <==> count_set(active_target@) > n_in,
        res matches Some(targets) ==> {
            &&& targets.len() == n_in
            &&& holds_flagged(targets@, active_target@, active_target.len() as int)
            &&& forall|g: int|
                0 <= g < n_in ==> (#[trigger] targets[g] matches Some(w) ==> w < active_target.len())
        },
        final(rng).replayable() == old(rng).replayable(),
        old(rng).replayable() ==> {
            let placed = targets_placed(
                active_target@,
                n_in,
                *old(rng),
                active_target.len() as nat,
            );
            &&& res is Some == placed.0
            &&& res matches Some(targets) ==> targets@ == placed.2
            &&& *final(rng) == placed.3
        },
{
    let mut taken = cleared(n_in);
    let mut targets: Vec<Option<usize>> = vec![None; n_in];
    let mut w: usize = 0;
    proof {
        assert(taken@ =~= Seq::new(n_in as nat, |i: int| false));
        assert(targets@ =~= Seq::new(n_in as nat, |i: int| None::<usize>));
    }
    while w < active_target.len()
        invariant
            w <= active_target.len(),
            taken.len() == n_in,
            targets.len() == n_in,
            rng.replayable() == old(rng).replayable(),
            old(rng).replayable() ==> (true, taken@, targets@, *rng) == targets_placed(
                active_target@,
                n_in,
                *old(rng),
                w as nat,
            ),
            count_set(active_target@.take(w as int)) == n_in - count_free(taken@),
            holds_flagged(targets@, active_target@, w as int),
            forall|g: int| 0 <= g < n_in ==> (taken[g] <==> #[trigger] targets[g] is Some),
            forall|g: int| 0 <= g < n_in ==> (#[trigger] targets[g] matches Some(v) ==> v < w),
        decreases active_target.len() - w,
    {
        proof {
            lemma_count_free_step(active_target@, w as int);
        }
        if active_target[w] {
            match draw_free(&taken, rng) {
                None => {
                    proof {
                        lemma_count_set_monotone(
                            active_target@,
                            w as int + 1,
                            active_target.len() as int,
                        );
                        assert(active_target@.take(active_target.len() as int) == active_target@);
                        if old(rng).replayable() {
                            lemma_targets_failed(
                                active_target@,
                                n_in,
                                *old(rng),
                                (w + 1) as nat,
                                active_target.len() as nat,
                            );
                        }
                    }
                    return None;
                },
                Some(g) => {
                    let ghost before = targets@;
                    mark(&mut taken, g);
                    targets[g] = Some(w);
                    proof {
                        assert forall|v: usize| v < w + 1 && #[trigger] active_target[v as int] implies exists|
                            k: int,
                        |
                            0 <= k < targets.len() && #[trigger] targets[k] == Some(v) by {
                            if v < w {
                                let k = choose|k: int|
                                    0 <= k < before.len() && #[trigger] before[k] == Some(v);
                                assert(targets[k] == Some(v));
                            } else {
                                assert(targets[g as int] == Some(v));
                            }
                        }
                    }
                },
            }
        }
        w += 1;
    }
    proof {
        assert(active_target@.take(active_target.len() as int) == active_target@);
        lemma_count_free_bounds(taken@);
    }
    Some(targets)
}

/// Each placed control wire is below `bound` and differs from the target
/// placed in its gate.
pub open spec fn controls_compatible(
    targets: Seq<Option<usize>>,
    first: Seq<Option<usize>>,
    second: Seq<Option<usize>>,
    bound: int,
) -> bool {
    &&& first.len() == targets.len()
    &&& second.len() == targets.len()
    &&& forall|g: int|
        0 <= g < targets.len() ==> (#[trigger] first[g] matches Some(x) ==> x < bound && targets[g]
            != Some(x))
    &&& forall|g: int|
        0 <= g < targets.len() ==> (#[trigger] second[g] matches Some(x) ==> x < bound
            && targets[g] != Some(x))
}

/// Every wire flagged in `active` up to `upto` is in one of the two lists.
pub open spec fn controls_hold_flagged(
    first: Seq<Option<usize>>,
    second: Seq<Option<usize>>,
    active: Seq<bool>,
    upto: int,
) -> bool {
    forall|w: usize|
        w < upto && #[trigger] active[w as int] ==> exists|g: int|
            0 <= g < first.len() && (#[trigger] first[g] == Some(w) || second[g] == Some(w))
}

/// Where the placement of the control wire `w` stands, with a replayable
/// source, when `tries_left` tries are left: whether it was placed, the
/// wires in the first and in the second control position of each gate, and
/// the source.
pub open spec fn control_tried<R: RandomSource>(
    targets: Seq<Option<usize>>,
    first: Seq<Option<usize>>,
    second: Seq<Option<usize>>,
    w: usize,
    rng: R,
    tries_left: nat,
) -> (bool, Seq<Option<usize>>, Seq<Option<usize>>, R)
    decreases tries_left,
{
    if tries_left == 0 {
        (false, first, second, rng)
    } else {
        let positions = (2 * targets.len()) as usize;
        let index = rng.next_draw(positions);
        let rest = rng.after_draw(positions);
        let gate_idx = index / 2;
        if targets[gate_idx as int] == Some(w) {
            control_tried(targets, first, second, w, rest, (tries_left - 1) as nat)
        } else if index % 2 == 1 && second[gate_idx as int] is None {
            (true, first, second.update(gate_idx as int, Some(w)), rest)
        } else if index % 2 == 0 && first[gate_idx as int] is None {
            (true, first.update(gate_idx as int, Some(w)), second, rest)
        } else {
            control_tried(targets, first, second, w, rest, (tries_left - 1) as nat)
        }
    }
}

/// Where one round of placing the active controls stands, with a
/// replayable source, after the wires below `upto`.
pub open spec fn controls_placed_once<R: RandomSource>(
    active_control: Seq<bool>,
    targets: Seq<Option<usize>>,
    rng: R,
    upto: nat,
) -> (bool, Seq<Option<usize>>, Seq<Option<usize>>, R)
    decreases upto,
{
    if upto == 0 {
        (
            true,
            Seq::new(targets.len(), |i: int| None::<usize>),
            Seq::new(targets.len(), |i: int| None::<usize>),
            rng,
        )
    } else {
        let before = controls_placed_once(active_control, targets, rng, (upto - 1) as nat);
        if !before.0 || !active_control[upto - 1] {
            before
        } else {
            control_tried(
                targets,
                before.1,
                before.2,
                (upto - 1) as usize,
                before.3,
                3 * targets.len(),
            )
        }
    }
}

/// Once a wire has found no position, the round stays as it is.
pub proof fn lemma_controls_failed<R: RandomSource>(
    active_control: Seq<bool>,
    targets: Seq<Option<usize>>,
    rng: R,
    at: nat,
    upto: nat,
)
    requires
        at <= upto,
        !controls_placed_once(active_control, targets, rng, at).0,
    ensures
        controls_placed_once(active_control, targets, rng, upto) == controls_placed_once(
            active_control,
            targets,
            rng,
            at,
        ),
    decreases upto,
{
    if at < upto {
        lemma_controls_failed(active_control, targets, rng, at, (upto - 1) as nat);
    }
}

/// One round of placing the wires flagged in `active_control` at random
/// control positions of the gates: a wire is tried at up to three times as
/// many positions as there are gates, and never in a gate of which it is
/// the target.  The round fails where a wire finds no position.
pub fn place_active_controls_once<R: RandomSource>(
    active_control: &Vec<bool>,
    targets: &Vec<Option<usize>>,
    rng: &mut R,
) -> (res: Option<(Vec<Option<usize>>, Vec<Option<usize>>)>)
    requires
        1 <= targets.len() <= usize::MAX / 3,
    ensures
        res matches Some(placed) ==> {
            &&& controls_compatible(targets@, placed.0@, placed.1@, active_control.len() as int)
            &&& controls_hold_flagged(
                placed.0@,
                placed.1@,
                active_control@,
                active_control.len() as int,
            )
            &&& forall|g: int|
                0 <= g < targets.len() ==> (#[trigger] placed.0[g] is None || placed.0[g]
                    != placed.1[g])
        },
        final(rng).replayable() == old(rng).replayable(),
        old(rng).replayable() ==> {
            let round = controls_placed_once(
                active_control@,
                targets@,
                *old(rng),
                active_control.len() as nat,
            );
            &&& res is Some == round.0
            &&& res matches Some(placed) ==> placed.0@ == round.1 && placed.1@ == round.2
            &&& *final(rng) == round.3
        },
{
    let n_in = targets.len();
    let mut first: Vec<Option<usize>> = vec![None; n_in];
    let mut second: Vec<Option<usize>> = vec![None; n_in];
    let mut w: usize = 0;
    proof {
        assert(first@ =~= Seq::new(targets@.len(), |i: int| None::<usize>));
        assert(second@ =~= Seq::new(targets@.len(), |i: int| None::<usize>));
    }
    while w < active_control.len()
        invariant
            w <= active_control.len(),
            n_in == targets.len(),
            1 <= n_in <= usize::MAX / 3,
            rng.replayable() == old(rng).replayable(),
            old(rng).replayable() ==> (true, first@, second@, *rng) == controls_placed_once(
                active_control@,
                targets@,
                *old(rng),
                w as nat,
            ),
            controls_compatible(targets@, first@, second@, w as int),
            controls_hold_flagged(first@, second@, active_control@, w as int),
            forall|g: int| 0 <= g < n_in ==> (#[trigger] first[g] is None || first[g] != second[g]),
        decreases active_control.len() - w,
    {
        if active_control[w] {
            let mut placed = false;
            let mut tries: usize = 0;
            let ghost first_before = first@;
            let ghost second_before = second@;
            let ghost rng_before = *rng;
            while tries < 3 * n_in && !placed
                invariant
                    rng.replayable() == old(rng).replayable(),
                    old(rng).replayable() ==> control_tried(
                        targets@,
                        first_before,
                        second_before,
                        w,
                        rng_before,
                        3 * targets@.len(),
                    ) == (if placed {
                        (true, first@, second@, *rng)
                    } else {
                        control_tried(
                            targets@,
                            first_before,
                            second_before,
                            w,
                            *rng,
                            (3 * n_in - tries) as nat,
                        )
                    }),
                    w < active_control.len(),
                    active_control[w as int],
                    n_in == targets.len(),
                    1 <= n_in <= usize::MAX / 3,
                    tries <= 3 * n_in,
                    first.len() == n_in,
                    second.len() == n_in,
                    !placed ==> first@ == first_before && second@ == second_before,
                    controls_compatible(targets@, first_before, second_before, w as int),
                    controls_hold_flagged(first_before, second_before, active_control@, w as int),
                    placed ==> controls_compatible(targets@, first@, second@, w as int + 1),
                    placed ==> controls_hold_flagged(first@, second@, active_control@, w as int + 1),
                    forall|g: int|
                        0 <= g < n_in ==> (#[trigger] first[g] is None || first[g] != second[g]),
                decreases 3 * n_in - tries,
            {
                let index = rng.below(2 * n_in);
                let gate_idx = index / 2;
                let is_second = index % 2 == 1;
                tries += 1;
                let target_here = match targets[gate_idx] {
                    Some(x) => x == w,
                    None => false,
                };
                if !target_here {
                    let free = if is_second {
                        second[gate_idx].is_none()
                    } else {
                        first[gate_idx].is_none()
                    };
                    if free {
                        if is_second {
                            second[gate_idx] = Some(w);
                        } else {
                            first[gate_idx] = Some(w);
                        }
                        placed = true;
                        proof {
                            assert forall|v: usize|
                                v < w + 1 && #[trigger] active_control[v as int] implies exists|g: int|
                                0 <= g < first.len() && (#[trigger] first[g] == Some(v)
                                    || second[g] == Some(v)) by {
                                if v < w {
                                    let g = choose|g: int|
                                        0 <= g < first_before.len() && (
                                        #[trigger] first_before[g] == Some(v)
                                            || second_before[g] == Some(v));
                                    assert(first[g] == Some(v) || second[g] == Some(v));
                                } else {
                                    assert(first[gate_idx as int] == Some(v) || second[gate_idx as int]
                                        == Some(v));
                                }
                            }
                        }
                    }
                }
            }
            if !placed {
                proof {
                    if old(rng).replayable() {
                        lemma_controls_failed(
                            active_control@,
                            targets@,
                            *old(rng),
                            (w + 1) as nat,
                            active_control.len() as nat,
                        );
                    }
                }
                return None;
            }
        }
        w += 1;
    }
    Some((first, second))
}

/// Where the placement of the active controls stands, with a replayable
/// source, when `rounds_left` rounds are left.
pub open spec fn controls_placed<R: RandomSource>(
    active_control: Seq<bool>,
    targets: Seq<Option<usize>>,
    rng: R,
    rounds_left: nat,
) -> (bool, Seq<Option<usize>>, Seq<Option<usize>>, R)
    decreases rounds_left,
{
    if rounds_left == 0 {
        (false, Seq::empty(), Seq::empty(), rng)
    } else {
        let round = controls_placed_once(active_control, targets, rng, active_control.len());
        if round.0 {
            round
        } else {
            controls_placed(active_control, targets, round.3, (rounds_left - 1) as nat)
        }
    }
}

/// Places the wires flagged in `active_control`, beginning again, up to
/// `PLACEMENT_ROUNDS` times, where a round fails.
pub fn place_active_controls<R: RandomSource>(
    active_control: &Vec<bool>,
    targets: &Vec<Option<usize>>,
    rng: &mut R,
) -> (res: Option<(Vec<Option<usize>>, Vec<Option<usize>>)>)
    requires
        1 <= targets.len() <= usize::MAX / 3,
    ensures
        res matches Some(placed) ==> {
            &&& controls_compatible(targets@, placed.0@, placed.1@, active_control.len() as int)
            &&& controls_hold_flagged(
                placed.0@,
                placed.1@,
                active_control@,
                active_control.len() as int,
            )
            &&& forall|g: int|
                0 <= g < targets.len() ==> (#[trigger] placed.0[g] is None || placed.0[g]
                    != placed.1[g])
        },
        final(rng).replayable() == old(rng).replayable(),
        old(rng).replayable() ==> {
            let all = controls_placed(
                active_control@,
                targets@,
                *old(rng),
                PLACEMENT_ROUNDS as nat,
            );
            &&& res is Some == all.0
            &&& res matches Some(placed) ==> placed.0@ == all.1 && placed.1@ == all.2
            &&& *final(rng) == all.3
        },
{
    let mut round: usize = 0;
    while round < PLACEMENT_ROUNDS
        invariant
            1 <= targets.len() <= usize::MAX / 3,
            round <= PLACEMENT_ROUNDS,
            rng.replayable() == old(rng).replayable(),
            old(rng).replayable() ==> controls_placed(
                active_control@,
                targets@,
                *old(rng),
                PLACEMENT_ROUNDS as nat,
            ) == controls_placed(
                active_control@,
                targets@,
                *rng,
                (PLACEMENT_ROUNDS - round) as nat,
            ),
        decreases PLACEMENT_ROUNDS - round,
    {
        let res = place_active_controls_once(active_control, targets, rng);
        if res.is_some() {
            return res;
        }
        round += 1;
    }
    None
}

/// The block after the first `upto` gates have been completed with a
/// replayable source: each gate keeps the wires that were placed in it and
/// is given random wires elsewhere and a random control function.
pub open spec fn guided_filled<R: RandomSource>(
    circuit: Seq<Gate>,
    targets: Seq<Option<usize>>,
    first: Seq<Option<usize>>,
    second: Seq<Option<usize>>,
    n_proj_wires: usize,
    cf_choice: ControlFnChoice,
    rng: R,
    upto: nat,
) -> (Seq<Gate>, R)
    decreases upto,
{
    if upto == 0 {
        (circuit, rng)
    } else {
        let before = guided_filled(
            circuit,
            targets,
            first,
            second,
            n_proj_wires,
            cf_choice,
            rng,
            (upto - 1) as nat,
        );
        let g = upto - 1;
        let filled = filled_slots(targets[g], first[g], second[g], n_proj_wires, before.1);
        let drawn = cf_choice.drawn_cf(filled.1);
        (before.0.update(g, refunctioned(rewired(before.0[g], filled.0), drawn.0)), drawn.1)
    }
}

/// What `sample_random_circuit` gives and makes of a block with a
/// replayable source, and the source after it.
pub open spec fn sampled_guided<R: RandomSource>(
    circuit: Seq<Gate>,
    active_target: Seq<bool>,
    active_control: Seq<bool>,
    cf_choice: ControlFnChoice,
    rng: R,
) -> (bool, Seq<Gate>, R) {
    let targets = targets_placed(active_target, circuit.len() as usize, rng, active_target.len());
    if !targets.0 {
        (false, circuit, targets.3)
    } else {
        let controls = controls_placed(
            active_control,
            targets.2,
            targets.3,
            PLACEMENT_ROUNDS as nat,
        );
        if !controls.0 {
            (false, circuit, controls.3)
        } else {
            let filled = guided_filled(
                circuit,
                targets.2,
                controls.1,
                controls.2,
                active_target.len() as usize,
                cf_choice,
                controls.3,
                circuit.len(),
            );
            (true, filled.0, filled.1)
        }
    }
}

/// Fills `circuit` with random gates such that every wire flagged in
/// `active_target` is the target of a gate and every wire flagged in
/// `active_control` is a control of a gate.  The other wires are random,
/// the three wires of a gate distinct and below the number of flags; the
/// control functions are drawn from `cf_choice`.
///
/// Returns whether the wires could be placed.  They cannot where more
/// targets are flagged than there are gates; the controls are placed by
/// random tries, which may all fail.  Where they could not, `circuit` is
/// as it was.
pub fn sample_random_circuit<R: RandomSource>(
    circuit: &mut Vec<Gate>,
    active_target: &Vec<bool>,
    active_control: &Vec<bool>,
    cf_choice: ControlFnChoice,
    rng: &mut R,
) -> (placed: bool)
    requires
        1 <= old(circuit).len() <= usize::MAX / 3,
        active_target.len() == active_control.len(),
        active_target.len() >= 3,
    ensures
        final(circuit).len() == old(circuit).len(),
        placed ==> sampled_block(final(circuit)@, active_target.len() as int, cf_choice),
        placed ==> covers_active(final(circuit)@, active_target@, active_control@),
        !placed ==> final(circuit)@ == old(circuit)@,
        count_set(active_target@) > old(circuit).len() ==> !placed,
        forall|g: int|
            0 <= g < old(circuit).len() ==> (#[trigger] final(circuit)[g]).generation == old(
                circuit,
            )[g].generation,
        final(rng).replayable() == old(rng).replayable(),
        old(rng).replayable() ==> (placed, final(circuit)@, *final(rng)) == sampled_guided(
            old(circuit)@,
            active_target@,
            active_control@,
            cf_choice,
            *old(rng),
        ),
{
    let n_in = circuit.len();
    let n_proj_wires = active_target.len();
    let targets = match place_active_targets(active_target, n_in, rng) {
        Some(t) => t,
        None => {
            return false;
        },
    };
    let (first, second) = match place_active_controls(active_control, &targets, rng) {
        Some(c) => c,
        None => {
            return false;
        },
    };
    let ghost rng_placed = *rng;
    let mut g: usize = 0;
    while g < n_in
        invariant
            g <= n_in,
            n_proj_wires >= 3,
            rng.replayable() == old(rng).replayable(),
            old(rng).replayable() ==> (circuit@, *rng) == guided_filled(
                old(circuit)@,
                targets@,
                first@,
                second@,
                n_proj_wires,
                cf_choice,
                rng_placed,
                g as nat,
            ),
            n_proj_wires == active_target.len(),
            active_target.len() == active_control.len(),
            circuit.len() == n_in,
            n_in == old(circuit).len(),
            targets.len() == n_in,
            forall|k: int|
                0 <= k < n_in ==> (#[trigger] targets[k] matches Some(w) ==> w < n_proj_wires),
            controls_compatible(targets@, first@, second@, n_proj_wires as int),
            forall|k: int|
                0 <= k < n_in ==> (#[trigger] first[k] is None || first[k] != second[k]),
            forall|k: int|
                0 <= k < g ==> {
                    &&& sampled_gate(#[trigger] circuit[k], n_proj_wires as int, cf_choice)
                    &&& targets[k] matches Some(w) ==> circuit[k].wires[0] == w
                    &&& first[k] matches Some(w) ==> circuit[k].wires[1] == w
                    &&& second[k] matches Some(w) ==> circuit[k].wires[2] == w
                },
            forall|k: int|
                0 <= k < n_in ==> (#[trigger] circuit[k]).generation == old(circuit)[k].generation,
        decreases n_in - g,
    {
        assert(first[g as int] is None || first[g as int] != second[g as int]);
        let (t, c0, c1) = fill_slots(targets[g], first[g], second[g], n_proj_wires, rng);
        let cf = cf_choice.random_cf(rng);
        let before = circuit[g];
        circuit[g] = Gate { wires: [t, c0, c1], control_func: cf, generation: before.generation };
        proof {
            assert(circuit[g as int].wires =~= refunctioned(rewired(before, (t, c0, c1)), cf).wires);
        }
        g += 1;
    }
    proof {
        assert forall|w: usize|
            w < active_target.len() && #[trigger] active_target[w as int] implies has_target(
            circuit@,
            w,
        ) by {
            let k = choose|k: int| 0 <= k < targets.len() && #[trigger] targets[k] == Some(w);
            assert(circuit[k].wires[0] == w);
        }
        assert forall|w: usize|
            w < active_control.len() && #[trigger] active_control[w as int] implies has_control(
            circuit@,
            w,
        ) by {
            let k = choose|k: int|
                0 <= k < first.len() && (#[trigger] first[k] == Some(w) || second[k] == Some(w));
            assert(circuit[k].wires[1] == w || circuit[k].wires[2] == w);
        }
    }
    true
}

} // verus!
