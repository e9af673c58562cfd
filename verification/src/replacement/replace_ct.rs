//! The search for a replacement with the help of a table of small
//! circuits: gates are added behind the block for as long as the table
//! knows the whole to be simpler, until nothing is left of it; the gates
//! that were added, in reverse, are the replacement.
use super::equivalence::{
    agrees, lemma_block_simulates, lemma_replacement_equivalent, lemma_untargeted_wire_kept,
};
use super::find::{least_generation, min_generation, next_generation};
use super::remap::{injective, is_image, maps_into, remap_to_global};
use super::sample::has_target;
use super::search::{blank_block, matches_table};
use crate::circuit::analysis::{
    bit_of, distinct_wires, lemma_table_of, projection_circuit, run_bits, table_of,
    MAX_TABLE_WIRES,
};
use crate::circuit::cf::Base2GateControlFunc;
use crate::circuit::circuit::{apply_gate, gates_fit, random_wires, run_gates, Gate};
use crate::circuit::semantics::{
    equivalent, lemma_fit_parts, lemma_run_gates_concat, lemma_run_gates_len, lemma_run_single,
};
use crate::compression::ct::{lemma_compressed_stands_for, stands_for, CompressionTable};
use crate::local_mixing::tracer::ReplacementTraceFields;
use crate::random::RandomSource;
use vstd::prelude::*;

verus! {

/// How many gates are sampled for one place of the replacement before the
/// search is given up.
pub const MAX_GATE_SAMPLES: usize = 100000;

/// The largest replacement that the search builds.
pub const MAX_REPLACEMENT_SIZE: usize = 4;

/// A gate undoes itself.
pub proof fn lemma_gate_twice(g: Gate, s: Seq<bool>)
    requires
        g.distinct_wires(),
        g.fits(s.len() as int),
    ensures
        apply_gate(g, apply_gate(g, s)) == s,
{
    assert(apply_gate(g, apply_gate(g, s)) =~= s);
}

/// Every gate of `gates` has three distinct wires.
pub open spec fn all_distinct(gates: Seq<Gate>) -> bool {
    forall|i: int| 0 <= i < gates.len() ==> (#[trigger] gates[i]).distinct_wires()
}

/// Gates in reverse undo the gates.
pub proof fn lemma_reverse_undoes(gates: Seq<Gate>, s: Seq<bool>)
    requires
        all_distinct(gates),
        gates_fit(gates, s.len() as int),
    ensures
        run_gates(gates.reverse(), run_gates(gates, s)) == s,
    decreases gates.len(),
{
    if gates.len() == 0 {
        assert(gates.reverse() =~= gates);
    } else {
        let front = gates.drop_last();
        let g = gates.last();
        assert(gates == front.push(g));
        assert(g == gates[gates.len() - 1]);
        assert(all_distinct(front)) by {
            assert forall|i: int| 0 <= i < front.len() implies (#[trigger] front[i]).distinct_wires() by {
                assert(front[i] == gates[i]);
            }
        }
        assert(gates_fit(front, s.len() as int)) by {
            assert forall|i: int| 0 <= i < front.len() implies (#[trigger] front[i]).fits(
                s.len() as int,
            ) by {
                assert(front[i] == gates[i]);
            }
        }
        let mid = run_gates(front, s);
        lemma_run_gates_len(front, s);
        let end = run_gates(gates, s);
        assert(end == apply_gate(g, mid));
        assert(gates.reverse() =~= seq![g] + front.reverse());
        lemma_run_gates_concat(seq![g], front.reverse(), end);
        lemma_run_single(g, end);
        lemma_gate_twice(g, mid);
        lemma_reverse_undoes(front, s);
    }
}

/// Where gates added behind a block leave nothing of it, the gates in
/// reverse compute what the block computes.
pub proof fn lemma_reverse_of_completion(
    block: Seq<Gate>,
    added: Seq<Gate>,
    num_wires: int,
)
    requires
        gates_fit(block, num_wires),
        gates_fit(added, num_wires),
        all_distinct(added),
        equivalent(block + added, Seq::<Gate>::empty(), num_wires),
    ensures
        equivalent(block, added.reverse(), num_wires),
{
    assert forall|s: Seq<bool>| s.len() == num_wires implies #[trigger] run_gates(block, s)
        == run_gates(added.reverse(), s) by {
        let mid = run_gates(block, s);
        lemma_run_gates_len(block, s);
        lemma_run_gates_concat(block, added, s);
        assert(run_gates(block + added, s) == run_gates(Seq::<Gate>::empty(), s));
        assert(run_gates(added, mid) == s);
        lemma_reverse_undoes(added, mid);
    }
}

/// The state whose wires are the first `num_wires` bits of `x`.
pub open spec fn unpacked(x: u32, num_wires: nat) -> Seq<bool> {
    Seq::new(num_wires, |w: int| bit_of(x, w as usize))
}

/// Two numbers with the same bits are the same.
proof fn lemma_same_bits(a: u32, b: u32)
    requires
        forall|w: int| 0 <= w < 32 ==> #[trigger] bit_of(a, w as usize) == bit_of(b, w as usize),
    ensures
        a == b,
{
    let d = a ^ b;
    if d != 0 {
        let w = first_set(d);
        assert(0 <= w < 32 && (d & (1u32 << w)) != 0) by {
            lemma_first_set(d);
        }
        assert(bit_of(a, w as usize) == bit_of(b, w as usize));
        assert(w < 32 && d == a ^ b && (d & (1u32 << w)) != 0 ==> ((a & (1u32 << w)) != 0) != ((b
            & (1u32 << w)) != 0)) by (bit_vector);
    }
    assert(d == a ^ b && d == 0 ==> a == b) by (bit_vector);
}

/// The place of a bit that is set in `d`, if there is one.
spec fn first_set(d: u32) -> u32 {
    choose|w: u32| w < 32 && (d & (1u32 << w)) != 0
}

proof fn lemma_first_set(d: u32)
    requires
        d != 0,
    ensures
        first_set(d) < 32,
        (d & (1u32 << first_set(d))) != 0,
{
    assert(d != 0 ==> ((d & (1u32 << 0u32)) != 0 || (d & (1u32 << 1u32)) != 0 || (d & (1u32
        << 2u32)) != 0 || (d & (1u32 << 3u32)) != 0 || (d & (1u32 << 4u32)) != 0 || (d & (1u32
        << 5u32)) != 0 || (d & (1u32 << 6u32)) != 0 || (d & (1u32 << 7u32)) != 0 || (d & (1u32
        << 8u32)) != 0 || (d & (1u32 << 9u32)) != 0 || (d & (1u32 << 10u32)) != 0 || (d & (1u32
        << 11u32)) != 0 || (d & (1u32 << 12u32)) != 0 || (d & (1u32 << 13u32)) != 0 || (d & (1u32
        << 14u32)) != 0 || (d & (1u32 << 15u32)) != 0 || (d & (1u32 << 16u32)) != 0 || (d & (1u32
        << 17u32)) != 0 || (d & (1u32 << 18u32)) != 0 || (d & (1u32 << 19u32)) != 0 || (d & (1u32
        << 20u32)) != 0 || (d & (1u32 << 21u32)) != 0 || (d & (1u32 << 22u32)) != 0 || (d & (1u32
        << 23u32)) != 0 || (d & (1u32 << 24u32)) != 0 || (d & (1u32 << 25u32)) != 0 || (d & (1u32
        << 26u32)) != 0 || (d & (1u32 << 27u32)) != 0 || (d & (1u32 << 28u32)) != 0 || (d & (1u32
        << 29u32)) != 0 || (d & (1u32 << 30u32)) != 0 || (d & (1u32 << 31u32)) != 0))
        by (bit_vector);
    let w = choose|w: u32| w < 32 && (d & (1u32 << w)) != 0;
}

/// Blocks that compute the same on the states of `num_wires` wires have
/// the same truth table over these wires.
pub proof fn lemma_same_function_same_table(a: Seq<Gate>, b: Seq<Gate>, num_wires: nat)
    requires
        num_wires <= MAX_TABLE_WIRES,
        gates_fit(a, num_wires as int),
        gates_fit(b, num_wires as int),
        equivalent(a, b, num_wires as int),
    ensures
        table_of(a, num_wires) == table_of(b, num_wires),
{
    let map = Seq::new(num_wires, |w: int| Some(w as usize));
    assert(injective(map));
    assert(maps_into(map, num_wires as int));
    assert(is_image(a, a, map));
    assert(is_image(b, b, map));
    lemma_fit_more_wires(a, num_wires as int);
    lemma_fit_more_wires(b, num_wires as int);
    assert forall|i: int| 0 <= i < table_of(a, num_wires).len() implies table_of(a, num_wires)[i]
        == table_of(b, num_wires)[i] by {
        let x = i as u32;
        let s = unpacked(x, num_wires);
        assert(agrees(s, x, map));
        lemma_block_simulates(a, a, map, s, x);
        lemma_block_simulates(b, b, map, s, x);
        assert(run_gates(a, s) == run_gates(b, s));
        let ya = run_bits(a, x);
        let yb = run_bits(b, x);
        assert forall|w: int| 0 <= w < 32 implies #[trigger] bit_of(ya, w as usize) == bit_of(
            yb,
            w as usize,
        ) by {
            if w < num_wires {
                assert(map[w] == Some(w as usize));
                assert(run_gates(a, s)[w] == bit_of(ya, w as usize));
                assert(run_gates(b, s)[w] == bit_of(yb, w as usize));
            } else {
                assert(!has_target(a, w as usize)) by {
                    if has_target(a, w as usize) {
                        let g = choose|g: int| 0 <= g < a.len() && (#[trigger] a[g]).wires[0] == w;
                        assert(a[g].fits(num_wires as int));
                    }
                }
                assert(!has_target(b, w as usize)) by {
                    if has_target(b, w as usize) {
                        let g = choose|g: int| 0 <= g < b.len() && (#[trigger] b[g]).wires[0] == w;
                        assert(b[g].fits(num_wires as int));
                    }
                }
                lemma_untargeted_wire_kept(a, w as usize, x);
                lemma_untargeted_wire_kept(b, w as usize, x);
            }
        }
        lemma_same_bits(ya, yb);
    }
    assert(table_of(a, num_wires) =~= table_of(b, num_wires));
}

/// Gates that fit up to thirty-one wires fit thirty-two.
proof fn lemma_fit_more_wires(gates: Seq<Gate>, num_wires: int)
    requires
        gates_fit(gates, num_wires),
        num_wires <= 32,
    ensures
        gates_fit(gates, 32),
{
    assert forall|i: int| 0 <= i < gates.len() implies (#[trigger] gates[i]).fits(32) by {
        assert(gates[i].fits(num_wires));
    }
}

/// A random gate over `num_wires` wires: the first three of the wires in a
/// random order, and a control function picked from `cf_choice`.
pub fn sample_gate<R: RandomSource>(num_wires: usize, cf_choice: &Vec<u8>, rng: &mut R) -> (g: Gate)
    requires
        num_wires >= 3,
        cf_choice.len() > 0,
    ensures
        g.distinct_wires(),
        g.wires[0] < num_wires && g.wires[1] < num_wires && g.wires[2] < num_wires,
        cf_choice@.contains(g.control_func),
        g.generation == 0,
        final(rng).replayable() == old(rng).replayable(),
{
    let mut wires: Vec<usize> = Vec::new();
    let mut w: usize = 0;
    while w < num_wires
        invariant
            w <= num_wires,
            wires.len() == w,
            forall|k: int| 0 <= k < w ==> wires[k] == k,
        decreases num_wires - w,
    {
        wires.push(w);
        w += 1;
    }
    let ghost all = wires@;
    rng.shuffle(&mut wires);
    proof {
        broadcast use vstd::seq_lib::to_multiset_len, vstd::seq_lib::to_multiset_contains;

        assert(all.no_duplicates());
        all.lemma_multiset_has_no_duplicates();
        wires@.lemma_multiset_has_no_duplicates_conv();
        assert(wires@.len() == wires@.to_multiset().len());
        assert(all.len() == all.to_multiset().len());
        assert forall|k: int| 0 <= k < wires.len() implies wires[k] < num_wires by {
            let x = wires[k];
            assert(wires@.contains(x));
            assert(wires@.to_multiset().count(x) > 0);
            assert(all.contains(x));
        }
    }
    let control_func = cf_choice[rng.below(cf_choice.len())];
    Gate { wires: [wires[0], wires[1], wires[2]], control_func, generation: 0 }
}

/// The table knows `circuit` to be nothing: to compute what a circuit
/// without gates computes.
proof fn lemma_known_to_be_nothing(ct: &CompressionTable, circuit: Seq<Gate>)
    requires
        ct.wf(),
        gates_fit(circuit, ct.max_wires_supported as int),
        ct.in_cache(circuit, 0) || ct.holds_for(circuit, 0),
    ensures
        equivalent(circuit, Seq::<Gate>::empty(), ct.max_wires_supported as int),
{
    let max_wires = ct.max_wires_supported as nat;
    if ct.in_cache(circuit, 0) {
        let i = choose|i: int|
            0 <= i < ct.cache.len() && (#[trigger] ct.cache[i]).circuit@ == circuit
                && ct.cache[i].compressed.len() == 0;
        assert(stands_for(ct.cache[i].compressed@, ct.cache[i].circuit@));
        assert(gates_fit(circuit, max_wires as int));
        assert(ct.cache[i].compressed@ =~= Seq::<Gate>::empty());
    } else {
        let (i, projected, map) = choose|i: int, projected: Seq<Gate>, map: Seq<usize>|
            0 <= i < ct.ct.len() && (#[trigger] ct.ct[i]).circuit.len() == 0
                && #[trigger] crate::compression::ct::renumbers(projected, circuit, map)
                && map.len() <= ct.max_wires_supported && ct.ct[i].table@ == table_of(
                projected,
                ct.max_wires_supported as nat,
            );
        assert(ct.ct[i].sound(ct.max_gates_supported as int, max_wires));
        let held = ct.ct[i].circuit@;
        assert(held =~= Seq::<Gate>::empty());
        lemma_compressed_stands_for(circuit, projected, map, ct.ct[i].table@, held, held, max_wires);
        assert(gates_fit(circuit, max_wires as int));
    }
}

/// The circuit `lhs` with `g` behind it, and the number of gates that the
/// table gives for it, where that number is `left` at most; nothing where
/// the table gives no number for it, or a larger one.
pub fn kept_with(ct: &CompressionTable, lhs: &Vec<Gate>, g: Gate, left: usize) -> (res: Option<
    (Vec<Gate>, usize),
>)
    requires
        ct.wf(),
        g.control_func < Base2GateControlFunc::COUNT,
        forall|i: int|
            0 <= i < lhs.len() ==> (#[trigger] lhs[i]).control_func < Base2GateControlFunc::COUNT,
    ensures
        res is Some <==> (ct.complexity(lhs@.push(g)) matches Some(n) && n <= left),
        res matches Some(kept) ==> {
            &&& kept.0@ == lhs@.push(g)
            &&& ct.complexity(lhs@.push(g)) == Some(kept.1)
            &&& ct.in_cache(kept.0@, kept.1) || ct.holds_for(kept.0@, kept.1)
        },
{
    let mut longer = lhs.clone();
    longer.push(g);
    proof {
        assert forall|i: int| 0 <= i < longer.len() implies (#[trigger] longer[i]).control_func
            < Base2GateControlFunc::COUNT by {
            if i < lhs.len() {
                assert(longer[i] == lhs@[i]);
            }
        }
    }
    match ct.lookup_cxity(&longer) {
        Some(n) => {
            if n <= left {
                Some((longer, n))
            } else {
                None
            }
        },
        None => None,
    }
}

/// Searches for a block of `replacement_size` gates that can replace
/// `circuit` in a circuit of `num_wires` wires, with the help of `ct`.
///
/// Random gates are added behind the block, over the wires that the table
/// supports: a gate is kept if the table knows the block with the gates
/// kept so far and this gate to have a circuit of as many gates as are
/// still to be added, at most.  When as many gates are kept as were asked
/// for, the table knows the whole to be nothing, and the gates in reverse
/// compute what the block computes.  They are then given the wires of the
/// block, and random other wires of the circuit for those that the block
/// has not.
///
/// There is no result where the block has more wires than the table
/// supports, where more gates are asked for than `MAX_REPLACEMENT_SIZE`,
/// where `MAX_GATE_SAMPLES` gates were sampled for one place in vain, or
/// where the circuit has too few wires.
pub fn find_replacement<R: RandomSource>(
    circuit: &Vec<Gate>,
    num_wires: usize,
    replacement_size: usize,
    cf_choice: &Vec<u8>,
    ct: &CompressionTable,
    rng: &mut R,
) -> (res: Option<(Vec<Gate>, ReplacementTraceFields)>)
    requires
        ct.wf(),
        ct.max_wires_supported >= 3,
        gates_fit(circuit@, num_wires as int),
        replacement_size >= 1,
        cf_choice.len() > 0,
        forall|k: int| 0 <= k < cf_choice.len() ==> cf_choice[k] < Base2GateControlFunc::COUNT,
    ensures
        distinct_wires(circuit@).len() > ct.max_wires_supported ==> res is None,
        replacement_size > MAX_REPLACEMENT_SIZE ==> res is None,
        res matches Some(out) ==> {
            &&& out.0.len() == replacement_size
            &&& gates_fit(out.0@, num_wires as int)
            &&& all_distinct(out.0@)
            &&& equivalent(circuit@, out.0@, num_wires as int)
            &&& forall|i: int|
                0 <= i < out.0.len() ==> (#[trigger] out.0[i]).generation == next_generation(
                    least_generation(circuit@),
                )
            &&& out.1.input_circuit@ == circuit@
            &&& out.1.output_circuit@ == out.0@
            &&& out.1.num_input_wires == 0 && out.1.num_output_wires == 0
            &&& out.1.num_active_wires == 0 && out.1.min_generation == 0
            &&& out.1.num_circuits_sampled == 0
        },
{
    let max_wires = ct.max_wires_supported;
    let (proj_circuit, proj_map) = projection_circuit(circuit);
    let circuit_num_wires = proj_map.len();
    if circuit_num_wires > max_wires {
        return None;
    }
    if replacement_size > MAX_REPLACEMENT_SIZE {
        return None;
    }
    proof {
        assert forall|i: int| 0 <= i < proj_circuit.len() implies (#[trigger] proj_circuit[i]).fits(
            max_wires as int,
        ) by {
            assert(proj_circuit[i].wires[0] < proj_map.len());
            assert(proj_circuit[i].wires[1] < proj_map.len());
            assert(proj_circuit[i].wires[2] < proj_map.len());
            assert(proj_circuit[i].control_func == circuit[i].control_func);
            assert(circuit[i].fits(num_wires as int));
        }
    }
    let mut lhs_circuit = proj_circuit.clone();
    let mut replacement_circuit = blank_block(replacement_size);
    let ghost mut added: Seq<Gate> = Seq::empty();
    let ghost mut known: usize = 0;
    let mut replacement_idx: usize = 0;
    proof {
        assert(lhs_circuit@ =~= proj_circuit@ + added);
    }
    while replacement_idx < replacement_size
        invariant
            replacement_idx <= replacement_size,
            ct.wf(),
            max_wires == ct.max_wires_supported,
            3 <= max_wires,
            cf_choice.len() > 0,
            forall|k: int| 0 <= k < cf_choice.len() ==> cf_choice[k] < Base2GateControlFunc::COUNT,
            gates_fit(proj_circuit@, max_wires as int),
            replacement_circuit.len() == replacement_size,
            added.len() == replacement_idx,
            lhs_circuit@ == proj_circuit@ + added,
            gates_fit(added, max_wires as int),
            all_distinct(added),
            forall|j: int|
                0 <= j < replacement_idx ==> replacement_circuit[replacement_size - 1 - j]
                    == #[trigger] added[j],
            replacement_idx >= 1 ==> known <= replacement_size - replacement_idx && (ct.in_cache(
                lhs_circuit@,
                known,
            ) || ct.holds_for(lhs_circuit@, known)),
        decreases replacement_size - replacement_idx,
    {
        let mut num_samples: usize = 0;
        let mut kept = false;
        while !kept
            invariant
                num_samples <= MAX_GATE_SAMPLES,
                replacement_idx < replacement_size,
                ct.wf(),
                max_wires == ct.max_wires_supported,
                3 <= max_wires,
                cf_choice.len() > 0,
                forall|k: int|
                    0 <= k < cf_choice.len() ==> cf_choice[k] < Base2GateControlFunc::COUNT,
                gates_fit(proj_circuit@, max_wires as int),
                replacement_circuit.len() == replacement_size,
                added.len() == if kept {
                    replacement_idx + 1
                } else {
                    replacement_idx as int
                },
                lhs_circuit@ == proj_circuit@ + added,
                gates_fit(added, max_wires as int),
                all_distinct(added),
                forall|j: int|
                    0 <= j < added.len() ==> replacement_circuit[replacement_size - 1 - j]
                        == #[trigger] added[j],
                kept ==> known <= replacement_size - replacement_idx - 1 && (ct.in_cache(
                    lhs_circuit@,
                    known,
                ) || ct.holds_for(lhs_circuit@, known)),
            decreases MAX_GATE_SAMPLES - num_samples, !kept as int,
        {
            if num_samples >= MAX_GATE_SAMPLES {
                return None;
            }
            let g = sample_gate(max_wires, cf_choice, rng);
            num_samples += 1;
            proof {
                let k = choose|k: int| 0 <= k < cf_choice.len() && cf_choice@[k] == g.control_func;
                assert(g.fits(max_wires as int));
                lemma_fit_parts(proj_circuit@, added, max_wires as int);
                assert forall|i: int| 0 <= i < lhs_circuit.len() implies (
                #[trigger] lhs_circuit[i]).control_func < Base2GateControlFunc::COUNT by {
                    assert(lhs_circuit@[i].fits(max_wires as int));
                }
            }
            match kept_with(ct, &lhs_circuit, g, replacement_size - replacement_idx - 1) {
                Some((new_lhs, res)) => {
                    let ghost before = added;
                    lhs_circuit = new_lhs;
                    replacement_circuit[replacement_size - replacement_idx - 1] = g;
                    kept = true;
                    proof {
                        added = added.push(g);
                        assert(lhs_circuit@ =~= proj_circuit@ + added);
                        assert forall|i: int| 0 <= i < added.len() implies (
                        #[trigger] added[i]).fits(max_wires as int) && added[i].distinct_wires() by {
                            if i < before.len() {
                                assert(added[i] == before[i]);
                            }
                        }
                        assert forall|j: int| 0 <= j < added.len() implies replacement_circuit[replacement_size
                            - 1 - j] == #[trigger] added[j] by {
                            if j < before.len() {
                                assert(added[j] == before[j]);
                            }
                        }
                        known = res;
                    }
                },
                None => {},
            }
        }
        replacement_idx += 1;
    }
    proof {
        assert(known == 0);
        lemma_fit_parts(proj_circuit@, added, max_wires as int);
        lemma_known_to_be_nothing(ct, lhs_circuit@);
        lemma_reverse_of_completion(proj_circuit@, added, max_wires as int);
        assert(replacement_circuit@ =~= added.reverse());
        assert(gates_fit(added.reverse(), max_wires as int)) by {
            assert forall|i: int| 0 <= i < added.reverse().len() implies (
            #[trigger] added.reverse()[i]).fits(max_wires as int) by {
                assert(added.reverse()[i] == added[added.len() - 1 - i]);
            }
        }
        lemma_same_function_same_table(proj_circuit@, replacement_circuit@, max_wires as nat);
        assert forall|i: int, k: int| 0 <= i < replacement_circuit.len() && 0 <= k < 3 implies (
        #[trigger] replacement_circuit[i].wires[k]) < max_wires by {
            assert(replacement_circuit@[i].fits(max_wires as int));
        }
        crate::circuit::analysis::lemma_first_occurrences_distinct(
            crate::circuit::analysis::wire_seq(circuit@),
        );
        super::find::lemma_wires_of(circuit@);
        assert forall|w: int| 0 <= w < proj_map.len() implies proj_map[w] < num_wires by {
            let x = proj_map[w];
            assert(proj_map@.contains(x));
            assert(crate::circuit::analysis::wire_seq(circuit@).contains(x));
        }
    }
    // map back to original num_wires
    let (mapped, map) = match remap_to_global(
        &replacement_circuit,
        &proj_map,
        max_wires,
        num_wires,
        rng,
    ) {
        Some(out) => out,
        None => {
            return None;
        },
    };
    // update gate generation
    let least = min_generation(circuit);
    let new_generation = if least < usize::MAX {
        least + 1
    } else {
        least
    };
    let mut output_circuit: Vec<Gate> = Vec::new();
    let mut i: usize = 0;
    while i < mapped.len()
        invariant
            i <= mapped.len(),
            output_circuit.len() == i,
            forall|j: int|
                0 <= j < i ==> {
                    &&& (#[trigger] output_circuit[j]).wires == mapped[j].wires
                    &&& output_circuit[j].control_func == mapped[j].control_func
                    &&& output_circuit[j].generation == new_generation
                },
        decreases mapped.len() - i,
    {
        let g = mapped[i];
        output_circuit.push(
            Gate { wires: g.wires, control_func: g.control_func, generation: new_generation },
        );
        i += 1;
    }
    proof {
        assert(is_image(output_circuit@, replacement_circuit@, map@)) by {
            assert forall|j: int, k: int|
                0 <= j < replacement_circuit.len() && 0 <= k < 3 implies {
                &&& (#[trigger] replacement_circuit@[j].wires[k]) < map@.len()
                &&& map@[replacement_circuit@[j].wires[k] as int] == Some(
                    output_circuit@[j].wires[k],
                )
            } by {
                assert(output_circuit[j].wires == mapped[j].wires);
                assert(replacement_circuit@[j].wires[k] < map@.len());
                assert(map@[replacement_circuit@[j].wires[k] as int] == Some(
                    mapped@[j].wires[k],
                ));
            }
            assert forall|j: int| 0 <= j < replacement_circuit.len() implies (
            #[trigger] output_circuit@[j]).control_func == replacement_circuit@[j].control_func by {
                assert(mapped@[j].control_func == replacement_circuit@[j].control_func);
            }
        }
        lemma_table_of(
            table_of(proj_circuit@, max_wires as nat),
            proj_circuit@,
            max_wires as nat,
        );
        assert(matches_table(
            replacement_circuit@,
            table_of(proj_circuit@, max_wires as nat),
        ));
        lemma_replacement_equivalent(
            circuit@,
            proj_circuit@,
            proj_map@,
            table_of(proj_circuit@, max_wires as nat),
            replacement_circuit@,
            output_circuit@,
            map@,
            num_wires as int,
        );
        assert forall|j: int| 0 <= j < output_circuit.len() implies (
        #[trigger] output_circuit[j]).fits(num_wires as int) && output_circuit[j].distinct_wires() by {
            assert(replacement_circuit@[j] == added[added.len() - 1 - j]);
            assert(added[added.len() - 1 - j].distinct_wires());
            assert(replacement_circuit@[j].fits(max_wires as int));
            super::find::lemma_image_gates(
                output_circuit@,
                replacement_circuit@,
                map@,
                num_wires as int,
                j,
            );
        }
    }
    let fields = ReplacementTraceFields {
        input_circuit: circuit.clone(),
        output_circuit: output_circuit.clone(),
        num_input_wires: 0,
        num_output_wires: 0,
        num_active_wires: 0,
        min_generation: 0,
        num_circuits_sampled: 0,
    };
    Some((output_circuit, fields))
}

} // verus!
