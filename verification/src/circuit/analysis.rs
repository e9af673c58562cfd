//! Analysis of a small block of gates: its projection onto a dense range of
//! wires, its truth table, and the wires on which the table depends.
use super::cf::{control_value, Base2GateControlFunc};
use super::circuit::{gates_fit, Gate};
use crate::flags::{flagged, lists_exactly};
use vstd::arithmetic::power2::pow2;
use vstd::prelude::*;

verus! {

/// The largest number of wires that a truth table can range over: its
/// entries hold one bit for each wire.
pub const MAX_TABLE_WIRES: usize = 31;

/// The wires of `gates` in the order in which they occur.
pub open spec fn wire_seq(gates: Seq<Gate>) -> Seq<usize>
    decreases gates.len(),
{
    if gates.len() == 0 {
        Seq::empty()
    } else {
        wire_seq(gates.drop_last()).push(gates.last().wires[0]).push(gates.last().wires[1]).push(
            gates.last().wires[2],
        )
    }
}

/// The distinct elements of `ws`, each where it first occurs.
pub open spec fn first_occurrences(ws: Seq<usize>) -> Seq<usize>
    decreases ws.len(),
{
    if ws.len() == 0 {
        Seq::empty()
    } else {
        note_wire(first_occurrences(ws.drop_last()), ws.last())
    }
}

/// `seen` with `wire` added at the end unless it is already there.
pub open spec fn note_wire(seen: Seq<usize>, wire: usize) -> Seq<usize> {
    if seen.contains(wire) {
        seen
    } else {
        seen.push(wire)
    }
}

/// The distinct wires of `gates` in the order of their first occurrence.
pub open spec fn distinct_wires(gates: Seq<Gate>) -> Seq<usize> {
    first_occurrences(wire_seq(gates))
}

/// `local` is `global` with each wire replaced by its position in `map`.
pub open spec fn is_projection(local: Seq<Gate>, global: Seq<Gate>, map: Seq<usize>) -> bool {
    &&& local.len() == global.len()
    &&& forall|i: int, w: int|
        0 <= i < local.len() && 0 <= w < 3 ==> {
            &&& (#[trigger] local[i].wires[w]) < map.len()
            &&& map[local[i].wires[w] as int] == global[i].wires[w]
        }
    &&& forall|i: int|
        0 <= i < local.len() ==> (#[trigger] local[i]).control_func == global[i].control_func
}

pub proof fn lemma_first_occurrences_push(ws: Seq<usize>, wire: usize)
    ensures
        first_occurrences(ws.push(wire)) == note_wire(first_occurrences(ws), wire),
{
    assert(ws.push(wire).drop_last() == ws);
}

pub proof fn lemma_wire_seq_push(gates: Seq<Gate>, g: Gate)
    ensures
        wire_seq(gates.push(g)) == wire_seq(gates).push(g.wires[0]).push(g.wires[1]).push(
            g.wires[2],
        ),
{
    assert(gates.push(g).drop_last() == gates);
}

/// No wire occurs twice among the first occurrences.
pub proof fn lemma_first_occurrences_distinct(ws: Seq<usize>)
    ensures
        first_occurrences(ws).no_duplicates(),
        forall|x: usize| first_occurrences(ws).contains(x) <==> ws.contains(x),
        first_occurrences(ws).len() <= ws.len(),
    decreases ws.len(),
{
    if ws.len() > 0 {
        let front = ws.drop_last();
        lemma_first_occurrences_distinct(front);
        let seen = first_occurrences(front);
        let all = first_occurrences(ws);
        assert forall|x: usize| all.contains(x) <==> ws.contains(x) by {
            if ws.contains(x) {
                let k = choose|k: int| 0 <= k < ws.len() && ws[k] == x;
                if k < ws.len() - 1 {
                    assert(front[k] == x);
                    assert(front.contains(x));
                    assert(seen.contains(x));
                    let j = choose|j: int| 0 <= j < seen.len() && seen[j] == x;
                    assert(all[j] == x);
                } else {
                    if seen.contains(x) {
                        let j = choose|j: int| 0 <= j < seen.len() && seen[j] == x;
                        assert(all[j] == x);
                    } else {
                        assert(all[all.len() - 1] == x);
                    }
                }
            }
            if all.contains(x) {
                let j = choose|j: int| 0 <= j < all.len() && all[j] == x;
                if j < seen.len() {
                    assert(seen[j] == x);
                    assert(seen.contains(x));
                    assert(front.contains(x));
                    let k = choose|k: int| 0 <= k < front.len() && front[k] == x;
                    assert(ws[k] == x);
                } else {
                    assert(ws[ws.len() - 1] == x);
                }
            }
        }
    }
}

/// The first position of `x` in `v`, if it occurs there.
pub fn position_of(v: &Vec<usize>, x: usize) -> (p: Option<usize>)
    ensures
        match p {
            Some(k) => k < v.len() && v[k as int] == x && forall|j: int|
                0 <= j < k ==> v[j] != x,
            None => !v@.contains(x),
        },
{
    let mut k: usize = 0;
    while k < v.len()
        invariant
            k <= v.len(),
            forall|j: int| 0 <= j < k ==> v[j] != x,
        decreases v.len() - k,
    {
        if v[k] == x {
            return Some(k);
        }
        k += 1;
    }
    None
}

/// Looks `wire` up in `map`, adding it at the end if it is new, and returns
/// its position.
fn project_wire(map: &mut Vec<usize>, wire: usize) -> (local: usize)
    requires
        old(map)@.no_duplicates(),
    ensures
        final(map)@ == note_wire(old(map)@, wire),
        final(map)@.no_duplicates(),
        local < final(map).len(),
        final(map)[local as int] == wire,
{
    match position_of(map, wire) {
        Some(pos) => pos,
        None => {
            map.push(wire);
            map.len() - 1
        },
    }
}

/// Renumbers the wires of `circuit` by their first occurrence.  The second
/// component lists, for each new number, the wire that it stands for.
pub fn projection_circuit(circuit: &Vec<Gate>) -> (res: (Vec<Gate>, Vec<usize>))
    ensures
        res.1@ == distinct_wires(circuit@),
        res.1@.no_duplicates(),
        is_projection(res.0@, circuit@, res.1@),
        forall|i: int| 0 <= i < res.0.len() ==> (#[trigger] res.0[i]).generation == 0,
{
    let mut proj_circuit: Vec<Gate> = Vec::new();
    let mut proj_map: Vec<usize> = Vec::new();
    let mut i: usize = 0;
    while i < circuit.len()
        invariant
            i <= circuit.len(),
            proj_circuit.len() == i,
            proj_map@ == distinct_wires(circuit@.take(i as int)),
            proj_map@.no_duplicates(),
            is_projection(proj_circuit@, circuit@.take(i as int), proj_map@),
            forall|k: int| 0 <= k < i ==> (#[trigger] proj_circuit[k]).generation == 0,
        decreases circuit.len() - i,
    {
        let g = circuit[i];
        let ghost before = proj_map@;
        let ghost done = proj_circuit@;
        let t = project_wire(&mut proj_map, g.wires[0]);
        let c0 = project_wire(&mut proj_map, g.wires[1]);
        let c1 = project_wire(&mut proj_map, g.wires[2]);
        proj_circuit.push(Gate { wires: [t, c0, c1], control_func: g.control_func, generation: 0 });
        proof {
            let prev = circuit@.take(i as int);
            assert(circuit@.take(i + 1) == prev.push(g));
            lemma_wire_seq_push(prev, g);
            let ws = wire_seq(prev);
            lemma_first_occurrences_push(ws, g.wires[0]);
            lemma_first_occurrences_push(ws.push(g.wires[0]), g.wires[1]);
            lemma_first_occurrences_push(ws.push(g.wires[0]).push(g.wires[1]), g.wires[2]);
            let m1 = note_wire(before, g.wires[0]);
            let m2 = note_wire(m1, g.wires[1]);
            assert(m1[t as int] == g.wires[0]);
            assert(m2[t as int] == g.wires[0]);
            assert(m2[c0 as int] == g.wires[1]);
            assert(proj_map@[t as int] == g.wires[0]);
            assert(proj_map@[c0 as int] == g.wires[1]);
            assert forall|k: int, w: int| 0 <= k < i + 1 && 0 <= w < 3 implies {
                &&& (#[trigger] proj_circuit@[k].wires[w]) < proj_map@.len()
                &&& proj_map@[proj_circuit@[k].wires[w] as int] == circuit@.take(i + 1)[k].wires[w]
            } by {
                if k < i {
                    assert(proj_circuit@[k] == done[k]);
                    let x = done[k].wires[w];
                    assert(x < before.len() && before[x as int] == prev[k].wires[w]);
                    assert(m1[x as int] == before[x as int]);
                    assert(m2[x as int] == before[x as int]);
                    assert(proj_map@[x as int] == before[x as int]);
                }
            }
        }
        i += 1;
    }
    proof {
        assert(circuit@.take(i as int) == circuit@);
    }
    (proj_circuit, proj_map)
}

/// Whether the bit of `x` at `w` is set.
pub open spec fn bit_of(x: u32, w: usize) -> bool {
    x & (1u32 << (w as u32)) != 0
}

/// `x` with the bit at `w` flipped.
pub open spec fn flip_bit(x: u32, w: usize) -> u32 {
    x ^ (1u32 << (w as u32))
}

/// The bits after `g` has acted on the bits `x`, a wire being a bit position.
pub open spec fn apply_gate_bits(g: Gate, x: u32) -> u32 {
    if control_value(g.control_func, bit_of(x, g.wires[1]), bit_of(x, g.wires[2])) {
        flip_bit(x, g.wires[0])
    } else {
        x
    }
}

/// The bits after the gates of `gates` have acted on the bits `x`.
pub open spec fn run_bits(gates: Seq<Gate>, x: u32) -> u32
    decreases gates.len(),
{
    if gates.len() == 0 {
        x
    } else {
        apply_gate_bits(gates.last(), run_bits(gates.drop_last(), x))
    }
}

/// `tt` is the truth table of `gates` over `num_wires` wires: it holds the
/// output bits for each of the `2^num_wires` inputs.
pub open spec fn is_truth_table(tt: Seq<u32>, gates: Seq<Gate>, num_wires: nat) -> bool {
    &&& tt.len() == pow2(num_wires)
    &&& forall|i: int| 0 <= i < tt.len() ==> #[trigger] tt[i] == run_bits(gates, i as u32)
}

/// The truth table of `gates` over `num_wires` wires.
pub open spec fn table_of(gates: Seq<Gate>, num_wires: nat) -> Seq<u32> {
    Seq::new(pow2(num_wires), |i: int| run_bits(gates, i as u32))
}

/// A sequence is the truth table of `gates` exactly if it is `table_of`.
pub proof fn lemma_table_of(tt: Seq<u32>, gates: Seq<Gate>, num_wires: nat)
    ensures
        is_truth_table(tt, gates, num_wires) <==> tt == table_of(gates, num_wires),
{
    if is_truth_table(tt, gates, num_wires) {
        assert(tt =~= table_of(gates, num_wires));
    }
}

/// The bits after the gates of `gates` have acted on the bits `x`.
pub fn eval_bits(gates: &Vec<Gate>, x: u32) -> (out: u32)
    requires
        gates_fit(gates@, 32),
    ensures
        out == run_bits(gates@, x),
{
    let mut bits = x;
    let mut k: usize = 0;
    while k < gates.len()
        invariant
            k <= gates.len(),
            gates_fit(gates@, 32),
            bits == run_bits(gates@.take(k as int), x),
        decreases gates.len() - k,
    {
        let g = &gates[k];
        proof {
            assert(gates@.take(k + 1).drop_last() == gates@.take(k as int));
            assert(gates@[k as int].fits(32));
        }
        let a = (bits & (1u32 << (g.wires[1] as u32))) != 0;
        let b = (bits & (1u32 << (g.wires[2] as u32))) != 0;
        if g.evaluate_cf(a, b) {
            bits = bits ^ (1u32 << (g.wires[0] as u32));
        }
        k += 1;
    }
    proof {
        assert(gates@.take(k as int) == gates@);
    }
    bits
}

/// The number of inputs over `num_wires` wires.
pub fn table_size(num_wires: usize) -> (size: u32)
    requires
        num_wires <= MAX_TABLE_WIRES,
    ensures
        size == pow2(num_wires as nat),
        size == 1u32 << (num_wires as u32),
{
    proof {
        vstd::bits::lemma_u32_pow2_no_overflow(num_wires as nat);
        vstd::bits::lemma_u32_shl_is_mul(1u32, num_wires as u32);
    }
    1u32 << (num_wires as u32)
}

/// The truth table of `proj_circuit` over `num_wires` wires.
pub fn truth_table(num_wires: usize, proj_circuit: &Vec<Gate>) -> (tt: Vec<u32>)
    requires
        num_wires <= MAX_TABLE_WIRES,
        gates_fit(proj_circuit@, 32),
    ensures
        is_truth_table(tt@, proj_circuit@, num_wires as nat),
{
    let size = table_size(num_wires);
    let mut tt: Vec<u32> = Vec::new();
    let mut i: u32 = 0;
    while i < size
        invariant
            i <= size,
            tt.len() == i,
            gates_fit(proj_circuit@, 32),
            forall|k: int| 0 <= k < i ==> #[trigger] tt[k] == run_bits(proj_circuit@, k as u32),
        decreases size - i,
    {
        tt.push(eval_bits(proj_circuit, i));
        i += 1;
    }
    tt
}

/// Over some input of the table, the output differs from the input at `w`.
pub open spec fn target_active(tt: Seq<u32>, w: usize) -> bool {
    exists|i: int| 0 <= i < tt.len() && #[trigger] target_differs(tt, w, i)
}

/// On input `i`, the output differs from the input at `w`.
pub open spec fn target_differs(tt: Seq<u32>, w: usize, i: int) -> bool {
    (tt[i] & (1u32 << (w as u32))) != ((i as u32) & (1u32 << (w as u32)))
}

/// Over some input of the table, flipping the input at `w` changes the
/// output at another wire.
pub open spec fn control_active(tt: Seq<u32>, w: usize) -> bool {
    exists|i: int| 0 <= i < tt.len() && #[trigger] control_differs(tt, w, i)
}

/// Flipping input `i` at `w` changes the output at another wire.
pub open spec fn control_differs(tt: Seq<u32>, w: usize, i: int) -> bool {
    (tt[i] ^ tt[flip_bit(i as u32, w) as int]) & !(1u32 << (w as u32)) != 0
}

proof fn lemma_flip_in_table(i: u32, w: u32, n: u32)
    requires
        w < n < 32,
        i < (1u32 << n),
    ensures
        (i ^ (1u32 << w)) < (1u32 << n),
{
    assert(w < n < 32 && i < (1u32 << n) ==> (i ^ (1u32 << w)) < (1u32 << n)) by (bit_vector);
}

/// The wires below `num_wires` that are active as a target, and those that
/// are active as a control, each list in increasing order.
pub fn compute_active_wires(num_wires: usize, tt: &Vec<u32>) -> (res: (Vec<usize>, Vec<usize>))
    requires
        num_wires <= MAX_TABLE_WIRES,
        tt.len() == pow2(num_wires as nat),
    ensures
        lists_exactly(res.0@, num_wires as int, |w: usize| target_active(tt@, w)),
        lists_exactly(res.1@, num_wires as int, |w: usize| control_active(tt@, w)),
{
    let size = table_size(num_wires);
    let mut as_target: Vec<bool> = vec![false; num_wires];
    let mut as_control: Vec<bool> = vec![false; num_wires];
    let mut i: usize = 0;
    while i < tt.len()
        invariant
            i <= tt.len(),
            num_wires <= MAX_TABLE_WIRES,
            tt.len() == size,
            size == (1u32 << (num_wires as u32)),
            as_target.len() == num_wires,
            as_control.len() == num_wires,
            forall|w: usize|
                w < num_wires ==> (#[trigger] as_target[w as int] <==> exists|k: int|
                    0 <= k < i && #[trigger] target_differs(tt@, w, k)),
            forall|w: usize|
                w < num_wires ==> (#[trigger] as_control[w as int] <==> exists|k: int|
                    0 <= k < i && #[trigger] control_differs(tt@, w, k)),
        decreases tt.len() - i,
    {
        let eval_i = tt[i];
        let mut w: usize = 0;
        while w < num_wires
            invariant
                w <= num_wires <= MAX_TABLE_WIRES,
                i < tt.len(),
                tt.len() == size,
                size == (1u32 << (num_wires as u32)),
                eval_i == tt[i as int],
                as_target.len() == num_wires,
                as_control.len() == num_wires,
                forall|v: usize|
                    v < num_wires ==> (#[trigger] as_target[v as int] <==> exists|k: int|
                        0 <= k < (if v < w {
                            i + 1
                        } else {
                            i as int
                        }) && #[trigger] target_differs(tt@, v, k)),
                forall|v: usize|
                    v < num_wires ==> (#[trigger] as_control[v as int] <==> exists|k: int|
                        0 <= k < (if v < w {
                            i + 1
                        } else {
                            i as int
                        }) && #[trigger] control_differs(tt@, v, k)),
            decreases num_wires - w,
        {
            let bit_mask: u32 = 1u32 << (w as u32);
            proof {
                lemma_flip_in_table(i as u32, w as u32, num_wires as u32);
            }
            let differs = (eval_i & bit_mask) != ((i as u32) & bit_mask);
            let i_flipped = (i as u32) ^ bit_mask;
            let eval_i_flipped = tt[i_flipped as usize];
            let disagreement_bits = (eval_i ^ eval_i_flipped) & !bit_mask;
            let depends = disagreement_bits != 0;
            let ghost old_target = as_target@;
            let ghost old_control = as_control@;
            if differs {
                as_target[w] = true;
            }
            if depends {
                as_control[w] = true;
            }
            proof {
                assert(differs == target_differs(tt@, w, i as int));
                assert(depends == control_differs(tt@, w, i as int));
                assert forall|v: usize| v < num_wires implies (#[trigger] as_target[v as int]
                    <==> exists|k: int|
                    0 <= k < (if v < w + 1 {
                        i + 1
                    } else {
                        i as int
                    }) && #[trigger] target_differs(tt@, v, k)) by {
                    if v == w {
                        if old_target[w as int] {
                            let k = choose|k: int| 0 <= k < i && #[trigger] target_differs(tt@, w, k);
                            assert(0 <= k < i + 1 && target_differs(tt@, w, k));
                        }
                        if exists|k: int| 0 <= k < i + 1 && #[trigger] target_differs(tt@, w, k) {
                            let k = choose|k: int|
                                0 <= k < i + 1 && #[trigger] target_differs(tt@, w, k);
                            if k < i {
                                assert(old_target[w as int]);
                            }
                        }
                    } else {
                        assert(as_target[v as int] == old_target[v as int]);
                    }
                }
                assert forall|v: usize| v < num_wires implies (#[trigger] as_control[v as int]
                    <==> exists|k: int|
                    0 <= k < (if v < w + 1 {
                        i + 1
                    } else {
                        i as int
                    }) && #[trigger] control_differs(tt@, v, k)) by {
                    if v == w {
                        if old_control[w as int] {
                            let k = choose|k: int|
                                0 <= k < i && #[trigger] control_differs(tt@, w, k);
                            assert(0 <= k < i + 1 && control_differs(tt@, w, k));
                        }
                        if exists|k: int| 0 <= k < i + 1 && #[trigger] control_differs(tt@, w, k) {
                            let k = choose|k: int|
                                0 <= k < i + 1 && #[trigger] control_differs(tt@, w, k);
                            if k < i {
                                assert(old_control[w as int]);
                            }
                        }
                    } else {
                        assert(as_control[v as int] == old_control[v as int]);
                    }
                }
            }
            w += 1;
        }
        i += 1;
    }
    let active_target = flagged(&as_target);
    let active_control = flagged(&as_control);
    proof {
        assert forall|w: usize| active_target@.contains(w) <==> (w < num_wires && target_active(
            tt@,
            w,
        )) by {
            if w < num_wires {
                assert(as_target[w as int] <==> target_active(tt@, w));
            }
        }
        assert forall|w: usize| active_control@.contains(w) <==> (w < num_wires
            && control_active(tt@, w)) by {
            if w < num_wires {
                assert(as_control[w as int] <==> control_active(tt@, w));
            }
        }
    }
    (active_target, active_control)
}

/// The truth table of `proj_circuit` over the inputs below `TT_SIZE`.
pub fn truth_table_sized<const TT_SIZE: usize>(proj_circuit: &Vec<Gate>) -> (tt: [u32; TT_SIZE])
    requires
        TT_SIZE <= u32::MAX,
        gates_fit(proj_circuit@, 32),
    ensures
        forall|i: int| 0 <= i < TT_SIZE ==> #[trigger] tt@[i] == run_bits(proj_circuit@, i as u32),
{
    let mut tt: [u32; TT_SIZE] = [0u32; TT_SIZE];
    let mut i: usize = 0;
    while i < TT_SIZE
        invariant
            i <= TT_SIZE <= u32::MAX,
            gates_fit(proj_circuit@, 32),
            forall|k: int| 0 <= k < i ==> #[trigger] tt@[k] == run_bits(proj_circuit@, k as u32),
        decreases TT_SIZE - i,
    {
        tt[i] = eval_bits(proj_circuit, i as u32);
        i += 1;
    }
    tt
}

/// The wires of `wires` at the positions where `flags` is `want`, in their
/// order.
pub open spec fn pick_wires(wires: Seq<usize>, flags: Seq<bool>, want: bool) -> Seq<usize>
    decreases wires.len(),
{
    if wires.len() == 0 || flags.len() != wires.len() {
        Seq::empty()
    } else if flags.last() == want {
        pick_wires(wires.drop_last(), flags.drop_last(), want).push(wires.last())
    } else {
        pick_wires(wires.drop_last(), flags.drop_last(), want)
    }
}

/// Each wire is picked once, by its flag or by the lack of it.
pub proof fn lemma_pick_wires_len(wires: Seq<usize>, flags: Seq<bool>)
    requires
        flags.len() == wires.len(),
    ensures
        pick_wires(wires, flags, true).len() + pick_wires(wires, flags, false).len()
            == wires.len(),
    decreases wires.len(),
{
    if wires.len() > 0 {
        lemma_pick_wires_len(wires.drop_last(), flags.drop_last());
    }
}

/// The flags of the local wires on which the table depends, as a target or
/// as a control.
pub open spec fn active_flags(tt: Seq<u32>, num_wires: nat) -> Seq<bool> {
    Seq::new(num_wires, |w: int| target_active(tt, w as usize) || control_active(tt, w as usize))
}

/// Two renumberings of a block by one list of wires, in which no wire
/// stands twice, compute the same on bits.
pub proof fn lemma_projection_bits(
    one: Seq<Gate>,
    two: Seq<Gate>,
    gates: Seq<Gate>,
    map: Seq<usize>,
    x: u32,
)
    requires
        is_projection(one, gates, map),
        is_projection(two, gates, map),
        map.no_duplicates(),
    ensures
        run_bits(one, x) == run_bits(two, x),
    decreases gates.len(),
{
    if gates.len() > 0 {
        let n = gates.len() - 1;
        assert(is_projection(one.drop_last(), gates.drop_last(), map)) by {
            assert forall|i: int, w: int| 0 <= i < n && 0 <= w < 3 implies {
                &&& (#[trigger] one.drop_last()[i].wires[w]) < map.len()
                &&& map[one.drop_last()[i].wires[w] as int] == gates.drop_last()[i].wires[w]
            } by {
                assert(one[i].wires[w] < map.len());
            }
            assert forall|i: int| 0 <= i < n implies (#[trigger] one.drop_last()[i]).control_func
                == gates.drop_last()[i].control_func by {
                assert(one[i].control_func == gates[i].control_func);
            }
        }
        assert(is_projection(two.drop_last(), gates.drop_last(), map)) by {
            assert forall|i: int, w: int| 0 <= i < n && 0 <= w < 3 implies {
                &&& (#[trigger] two.drop_last()[i].wires[w]) < map.len()
                &&& map[two.drop_last()[i].wires[w] as int] == gates.drop_last()[i].wires[w]
            } by {
                assert(two[i].wires[w] < map.len());
            }
            assert forall|i: int| 0 <= i < n implies (#[trigger] two.drop_last()[i]).control_func
                == gates.drop_last()[i].control_func by {
                assert(two[i].control_func == gates[i].control_func);
            }
        }
        lemma_projection_bits(one.drop_last(), two.drop_last(), gates.drop_last(), map, x);
        assert forall|w: int| 0 <= w < 3 implies one[n].wires[w] == two[n].wires[w] by {
            assert(one[n].wires[w] < map.len() && two[n].wires[w] < map.len());
            assert(map[one[n].wires[w] as int] == gates[n].wires[w]);
            assert(map[two[n].wires[w] as int] == gates[n].wires[w]);
        }
        assert(one[n].control_func == gates[n].control_func);
        assert(two[n].control_func == gates[n].control_func);
        assert(one.last() == one[n] && two.last() == two[n]);
    }
}

/// The truth table over `num_wires` wires of `gates` with each wire
/// replaced by its place in `map`.
pub open spec fn table_by(gates: Seq<Gate>, map: Seq<usize>, num_wires: nat) -> Seq<u32> {
    table_of(choose|local: Seq<Gate>| is_projection(local, gates, map), num_wires)
}

/// Every renumbering of a block by a list of wires has the table that
/// `table_by` gives.
pub proof fn lemma_table_by(local: Seq<Gate>, gates: Seq<Gate>, map: Seq<usize>, num_wires: nat)
    requires
        is_projection(local, gates, map),
        map.no_duplicates(),
    ensures
        table_of(local, num_wires) == table_by(gates, map, num_wires),
{
    let other = choose|other: Seq<Gate>| is_projection(other, gates, map);
    assert forall|i: int| 0 <= i < pow2(num_wires) implies #[trigger] table_of(local, num_wires)[i]
        == table_of(other, num_wires)[i] by {
        lemma_projection_bits(local, other, gates, map, i as u32);
    }
    assert(table_of(local, num_wires) =~= table_of(other, num_wires));
}

/// The wires of a block with those first on which its function depends:
/// the distinct wires on which it depends in the order of their first
/// occurrence, then the others in that order.
pub open spec fn optimal_map(gates: Seq<Gate>) -> Seq<usize> {
    let wires = distinct_wires(gates);
    let flags = active_flags(table_by(gates, wires, wires.len()), wires.len());
    pick_wires(wires, flags, true) + pick_wires(wires, flags, false)
}

/// The number of wires on which the function of a block depends.
pub open spec fn active_count(gates: Seq<Gate>) -> nat {
    let wires = distinct_wires(gates);
    let flags = active_flags(table_by(gates, wires, wires.len()), wires.len());
    pick_wires(wires, flags, true).len()
}

/// The wires of a block with those first on which its function depends:
/// the distinct wires on which it depends in the order of their first
/// occurrence, then the others in that order.
pub open spec fn active_first(gates: Seq<Gate>, projected: Seq<Gate>) -> Seq<usize> {
    let wires = distinct_wires(gates);
    let flags = active_flags(table_of(projected, wires.len()), wires.len());
    pick_wires(wires, flags, true) + pick_wires(wires, flags, false)
}

/// Renumbers the wires of `circuit` such that the wires on which its
/// function depends come first.  Returns the block over the new numbers,
/// the wire for each new number, the truth table of the block as
/// `projection_circuit` numbers it, and the number of wires on which the
/// function depends.
pub fn optimal_projection_circuit(circuit: &Vec<Gate>) -> (res: (
    Vec<Gate>,
    Vec<usize>,
    Vec<u32>,
    usize,
))
    requires
        distinct_wires(circuit@).len() <= MAX_TABLE_WIRES,
        forall|i: int|
            0 <= i < circuit.len() ==> (#[trigger] circuit[i]).control_func
                < Base2GateControlFunc::COUNT,
    ensures
        exists|projected: Seq<Gate>|
            {
                &&& #[trigger] is_projection(projected, circuit@, distinct_wires(circuit@))
                &&& res.2@ == table_of(projected, distinct_wires(circuit@).len())
                &&& res.1@ == active_first(circuit@, projected)
                &&& res.3 == pick_wires(
                    distinct_wires(circuit@),
                    active_flags(res.2@, distinct_wires(circuit@).len()),
                    true,
                ).len()
            },
        res.1@.no_duplicates(),
        res.1.len() == distinct_wires(circuit@).len(),
        forall|a: int| 0 <= a < res.1.len() ==> distinct_wires(circuit@).contains(#[trigger] res.1[a]),
        is_projection(res.0@, circuit@, res.1@),
        forall|i: int| 0 <= i < res.0.len() ==> (#[trigger] res.0[i]).generation == 0,
        res.1@ == optimal_map(circuit@),
        res.2@ == table_by(
            circuit@,
            distinct_wires(circuit@),
            distinct_wires(circuit@).len() as nat,
        ),
        res.3 == active_count(circuit@),
{
    let (proj_circuit, proj_map) = projection_circuit(circuit);
    let num_wires = proj_map.len();
    proof {
        assert forall|i: int| 0 <= i < proj_circuit.len() implies (#[trigger] proj_circuit[i]).fits(
            32,
        ) by {
            assert(proj_circuit[i].wires[0] < proj_map.len());
            assert(proj_circuit[i].wires[1] < proj_map.len());
            assert(proj_circuit[i].wires[2] < proj_map.len());
            assert(proj_circuit[i].control_func == circuit[i].control_func);
        }
    }
    let tt = truth_table(num_wires, &proj_circuit);
    let active_wires = compute_active_wires(num_wires, &tt);
    let mut flags: Vec<bool> = Vec::new();
    let mut w: usize = 0;
    while w < num_wires
        invariant
            w <= num_wires,
            flags.len() == w,
            lists_exactly(active_wires.0@, num_wires as int, |v: usize| target_active(tt@, v)),
            lists_exactly(active_wires.1@, num_wires as int, |v: usize| control_active(tt@, v)),
            forall|v: int|
                0 <= v < w ==> #[trigger] flags[v] == (target_active(tt@, v as usize)
                    || control_active(tt@, v as usize)),
        decreases num_wires - w,
    {
        let as_target = position_of(&active_wires.0, w).is_some();
        let as_control = position_of(&active_wires.1, w).is_some();
        proof {
            assert(as_target == active_wires.0@.contains(w));
            assert(as_control == active_wires.1@.contains(w));
        }
        flags.push(as_target || as_control);
        w += 1;
    }
    proof {
        assert(flags@ =~= active_flags(tt@, num_wires as nat));
        lemma_table_of(tt@, proj_circuit@, num_wires as nat);
    }
    let mut updated_map: Vec<usize> = Vec::new();
    let mut new_index: Vec<usize> = vec![0usize; num_wires];
    let ghost mut src: Seq<int> = Seq::empty();
    let mut w: usize = 0;
    while w < num_wires
        invariant
            w <= num_wires,
            num_wires == proj_map.len(),
            flags.len() == num_wires,
            new_index.len() == num_wires,
            updated_map@ == pick_wires(proj_map@.take(w as int), flags@.take(w as int), true),
            src.len() == updated_map.len(),
            forall|a: int|
                0 <= a < src.len() ==> 0 <= #[trigger] src[a] < w && flags[src[a]]
                    && updated_map[a] == proj_map[src[a]] && new_index[src[a]] == a,
            forall|v: int|
                0 <= v < w && flags[v] ==> (#[trigger] new_index[v]) < updated_map.len() && src[new_index[v] as int]
                    == v,
        decreases num_wires - w,
    {
        proof {
            assert(proj_map@.take(w + 1).drop_last() == proj_map@.take(w as int));
            assert(flags@.take(w + 1).drop_last() == flags@.take(w as int));
        }
        if flags[w] {
            new_index[w] = updated_map.len();
            updated_map.push(proj_map[w]);
            proof {
                src = src.push(w as int);
            }
        }
        w += 1;
    }
    let num_active_wires = updated_map.len();
    proof {
        assert(proj_map@.take(num_wires as int) == proj_map@);
        assert(flags@.take(num_wires as int) == flags@);
    }
    let ghost active_part = updated_map@;
    let mut w: usize = 0;
    while w < num_wires
        invariant
            w <= num_wires,
            num_wires == proj_map.len(),
            flags.len() == num_wires,
            new_index.len() == num_wires,
            active_part == pick_wires(proj_map@, flags@, true),
            updated_map@ == active_part + pick_wires(
                proj_map@.take(w as int),
                flags@.take(w as int),
                false,
            ),
            src.len() == updated_map.len(),
            forall|a: int|
                0 <= a < src.len() ==> 0 <= #[trigger] src[a] < num_wires && (flags[src[a]]
                    || src[a] < w) && updated_map[a] == proj_map[src[a]] && new_index[src[a]]
                    == a,
            forall|v: int|
                0 <= v < num_wires && (flags[v] || v < w) ==> (#[trigger] new_index[v])
                    < updated_map.len() && src[new_index[v] as int] == v,
        decreases num_wires - w,
    {
        proof {
            assert(proj_map@.take(w + 1).drop_last() == proj_map@.take(w as int));
            assert(flags@.take(w + 1).drop_last() == flags@.take(w as int));
        }
        if !flags[w] {
            new_index[w] = updated_map.len();
            updated_map.push(proj_map[w]);
            proof {
                src = src.push(w as int);
            }
        }
        w += 1;
    }
    proof {
        assert(proj_map@.take(num_wires as int) == proj_map@);
        assert(flags@.take(num_wires as int) == flags@);
        assert forall|a: int, b: int|
            0 <= a < updated_map.len() && 0 <= b < updated_map.len() && a != b implies updated_map[a]
            != updated_map[b] by {
            assert(src[a] != src[b]);
            assert(proj_map@[src[a]] != proj_map@[src[b]]);
        }
        lemma_pick_wires_len(proj_map@, flags@);
        assert forall|a: int| 0 <= a < updated_map.len() implies proj_map@.contains(
            #[trigger] updated_map[a],
        ) by {
            assert(proj_map@[src[a]] == updated_map[a]);
        }
    }
    let mut updated: Vec<Gate> = Vec::new();
    let mut i: usize = 0;
    while i < proj_circuit.len()
        invariant
            i <= proj_circuit.len(),
            proj_circuit.len() == circuit.len(),
            updated.len() == i,
            num_wires == proj_map.len(),
            new_index.len() == num_wires,
            src.len() == updated_map.len(),
            is_projection(proj_circuit@, circuit@, proj_map@),
            forall|v: int|
                0 <= v < num_wires ==> (#[trigger] new_index[v]) < updated_map.len() && src[new_index[v] as int]
                    == v,
            forall|a: int|
                0 <= a < src.len() ==> 0 <= #[trigger] src[a] < num_wires && updated_map[a]
                    == proj_map[src[a]],
            is_projection(updated@, circuit@.take(i as int), updated_map@),
            forall|k: int| 0 <= k < i ==> (#[trigger] updated[k]).generation == 0,
        decreases proj_circuit.len() - i,
    {
        let g = proj_circuit[i];
        proof {
            assert(proj_circuit[i as int].wires[0] < num_wires);
            assert(proj_circuit[i as int].wires[1] < num_wires);
            assert(proj_circuit[i as int].wires[2] < num_wires);
        }
        let ghost done = updated@;
        updated.push(
            Gate {
                wires: [new_index[g.wires[0]], new_index[g.wires[1]], new_index[g.wires[2]]],
                control_func: g.control_func,
                generation: 0,
            },
        );
        proof {
            let now = circuit@.take(i + 1);
            assert forall|j: int, k: int| 0 <= j < i + 1 && 0 <= k < 3 implies {
                &&& (#[trigger] updated@[j].wires[k]) < updated_map@.len()
                &&& updated_map@[updated@[j].wires[k] as int] == now[j].wires[k]
            } by {
                if j < i {
                    assert(updated@[j] == done[j]);
                    assert(now[j] == circuit@.take(i as int)[j]);
                } else {
                    let v = proj_circuit[i as int].wires[k];
                    assert(proj_map@[v as int] == circuit[i as int].wires[k]);
                    assert(src[new_index[v as int] as int] == v);
                }
            }
            assert forall|j: int| 0 <= j < i + 1 implies (#[trigger] updated@[j]).control_func
                == now[j].control_func by {
                if j < i {
                    assert(updated@[j] == done[j]);
                    assert(now[j] == circuit@.take(i as int)[j]);
                } else {
                    assert(proj_circuit[i as int].control_func == circuit[i as int].control_func);
                }
            }
        }
        i += 1;
    }
    proof {
        assert(circuit@.take(i as int) == circuit@);
        assert(is_projection(proj_circuit@, circuit@, distinct_wires(circuit@)));
        lemma_table_by(proj_circuit@, circuit@, proj_map@, num_wires as nat);
    }
    (updated, updated_map, tt, num_active_wires)
}

} // verus!
