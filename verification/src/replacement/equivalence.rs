//! Why an accepted candidate may stand in for the block: a block and a
//! candidate with the same truth table over the local wires compute the same
//! function on the wires of the circuit.
use super::remap::{extends, in_image, injective, is_image, maps_into};
use super::sample::{has_control, has_target};
use super::search::matches_table;
use crate::circuit::analysis::{
    apply_gate_bits, bit_of, control_active, control_differs, flip_bit, is_projection,
    is_truth_table, run_bits, target_active, target_differs,
};
use crate::circuit::circuit::{apply_gate, gates_fit, run_gates, Gate};
use crate::circuit::semantics::equivalent;
use vstd::arithmetic::power2::pow2;
use vstd::prelude::*;

verus! {

/// The state `s` of the circuit and the bits `x` hold the same value at
/// each local wire that stands for a wire of the circuit.
pub open spec fn agrees(s: Seq<bool>, x: u32, map: Seq<Option<usize>>) -> bool {
    forall|w: int|
        0 <= w < map.len() ==> (#[trigger] map[w] matches Some(g) ==> s[g as int] == bit_of(
            x,
            w as usize,
        ))
}

/// The bits that hold, at each of the first `k` local wires, the value of
/// `s` at the wire it stands for, and zero elsewhere.
pub open spec fn pack(s: Seq<bool>, map: Seq<Option<usize>>, k: nat) -> u32
    decreases k,
{
    if k == 0 {
        0
    } else {
        let rest = pack(s, map, (k - 1) as nat);
        if holds_at(s, map, k - 1) {
            rest | (1u32 << ((k - 1) as u32))
        } else {
            rest
        }
    }
}

/// The local wire `w` stands for a wire at which `s` holds.
pub open spec fn holds_at(s: Seq<bool>, map: Seq<Option<usize>>, w: int) -> bool {
    map[w] matches Some(g) && s[g as int]
}

proof fn lemma_flip_bits(x: u32, t: u32, w: u32)
    requires
        t < 32,
        w < 32,
    ensures
        ((x ^ (1u32 << t)) & (1u32 << w) != 0) == (if w == t {
            !(x & (1u32 << w) != 0)
        } else {
            x & (1u32 << w) != 0
        }),
{
    assert(t < 32 && w < 32 ==> (((x ^ (1u32 << t)) & (1u32 << w) != 0) == (if w == t {
        !(x & (1u32 << w) != 0)
    } else {
        x & (1u32 << w) != 0
    }))) by (bit_vector);
}

proof fn lemma_set_bit(y: u32, k: u32, w: u32)
    requires
        k < 31,
        w < 32,
        y < (1u32 << k),
    ensures
        (y | (1u32 << k)) < (1u32 << ((k + 1) as u32)),
        y < (1u32 << ((k + 1) as u32)),
        ((y | (1u32 << k)) & (1u32 << w) != 0) == ((y & (1u32 << w) != 0) || w == k),
        w >= k ==> !(y & (1u32 << w) != 0),
{
    assert(k < 31 && y < (1u32 << k) ==> (y | (1u32 << k)) < (1u32 << ((k + 1) as u32)) && y < (1u32
        << ((k + 1) as u32))) by (bit_vector);
    assert(w < 32 && k < 31 ==> (((y | (1u32 << k)) & (1u32 << w) != 0) == ((y & (1u32 << w) != 0)
        || w == k))) by (bit_vector);
    assert(k < 31 && w < 32 && w >= k && y < (1u32 << k) ==> !(y & (1u32 << w) != 0))
        by (bit_vector);
}

/// `pack` holds what it is said to hold, and is an input of the table over
/// `k` wires.
proof fn lemma_pack(s: Seq<bool>, map: Seq<Option<usize>>, k: nat)
    requires
        k <= 31,
        k <= map.len(),
    ensures
        pack(s, map, k) < (1u32 << (k as u32)),
        forall|w: int|
            0 <= w < 32 ==> #[trigger] bit_of(pack(s, map, k), w as usize) == (w < k && holds_at(
                s,
                map,
                w,
            )),
    decreases k,
{
    if k == 0 {
        assert(0u32 < (1u32 << 0u32)) by (bit_vector);
        assert forall|w: int| 0 <= w < 32 implies #[trigger] bit_of(0u32, w as usize) == false by {
            let wu = w as u32;
            assert(wu < 32 ==> (0u32 & (1u32 << wu)) == 0) by (bit_vector);
        }
    } else {
        let rest = pack(s, map, (k - 1) as nat);
        lemma_pack(s, map, (k - 1) as nat);
        assert forall|w: int| 0 <= w < 32 implies #[trigger] bit_of(pack(s, map, k), w as usize)
            == (w < k && holds_at(s, map, w)) by {
            lemma_set_bit(rest, (k - 1) as u32, w as u32);
            assert(bit_of(rest, w as usize) == (w < k - 1 && holds_at(s, map, w)));
        }
        lemma_set_bit(rest, (k - 1) as u32, 0);
    }
}

/// A gate on the wires of the circuit does to the state what its local
/// gate does to the bits, and leaves alone every wire
/// for which no local wire stands.
proof fn lemma_gate_simulates(
    l: Gate,
    g: Gate,
    map: Seq<Option<usize>>,
    s: Seq<bool>,
    x: u32,
)
    requires
        map.len() <= 32,
        injective(map),
        maps_into(map, s.len() as int),
        is_image(seq![g], seq![l], map),
        agrees(s, x, map),
    ensures
        agrees(apply_gate(g, s), apply_gate_bits(l, x), map),
        apply_gate(g, s).len() == s.len(),
        forall|j: int|
            0 <= j < s.len() && !in_image(map, j) ==> #[trigger] apply_gate(g, s)[j] == s[j],
{
    let one_l = seq![l];
    let one_g = seq![g];
    assert(one_l[0].wires[0] < map.len() && map[one_l[0].wires[0] as int] == Some(
        one_g[0].wires[0],
    ));
    assert(one_l[0].wires[1] < map.len() && map[one_l[0].wires[1] as int] == Some(
        one_g[0].wires[1],
    ));
    assert(one_l[0].wires[2] < map.len() && map[one_l[0].wires[2] as int] == Some(
        one_g[0].wires[2],
    ));
    assert(one_g[0].control_func == one_l[0].control_func);
    let t = l.wires[0] as int;
    let after = apply_gate(g, s);
    let bits = apply_gate_bits(l, x);
    assert(map[t] == Some(g.wires[0]));
    assert(map[l.wires[1] as int] == Some(g.wires[1]));
    assert(map[l.wires[2] as int] == Some(g.wires[2]));
    assert(s[g.wires[1] as int] == bit_of(x, l.wires[1]));
    assert(s[g.wires[2] as int] == bit_of(x, l.wires[2]));
    assert(g.wires[0] < s.len());
    assert forall|w: int| 0 <= w < map.len() implies (#[trigger] map[w] matches Some(
        v,
    ) ==> after[v as int] == bit_of(bits, w as usize)) by {
        if map[w] is Some {
            let v = map[w]->0;
            lemma_flip_bits(x, t as u32, w as u32);
            assert(s[v as int] == bit_of(x, w as usize));
            if w != t {
                assert(map[t] != map[w]);
            }
        }
    }
    assert forall|j: int| 0 <= j < s.len() && !in_image(map, j) implies #[trigger] after[j]
        == s[j] by {
        if j == g.wires[0] {
            assert(map[t] matches Some(v) && v == j);
        }
    }
}

/// A block on the wires of the circuit does to the state what the block
/// that it is the image of does to the bits.
pub proof fn lemma_block_simulates(
    local: Seq<Gate>,
    global: Seq<Gate>,
    map: Seq<Option<usize>>,
    s: Seq<bool>,
    x: u32,
)
    requires
        map.len() <= 32,
        injective(map),
        maps_into(map, s.len() as int),
        is_image(global, local, map),
        agrees(s, x, map),
    ensures
        agrees(run_gates(global, s), run_bits(local, x), map),
        run_gates(global, s).len() == s.len(),
        forall|j: int|
            0 <= j < s.len() && !in_image(map, j) ==> #[trigger] run_gates(global, s)[j] == s[j],
    decreases local.len(),
{
    if local.len() > 0 {
        let lf = local.drop_last();
        let gf = global.drop_last();
        assert(is_image(gf, lf, map)) by {
            assert forall|i: int, k: int| 0 <= i < lf.len() && 0 <= k < 3 implies {
                &&& (#[trigger] lf[i].wires[k]) < map.len()
                &&& map[lf[i].wires[k] as int] == Some(gf[i].wires[k])
            } by {
                assert(lf[i] == local[i]);
                assert(gf[i] == global[i]);
                assert(local[i].wires[k] < map.len());
            }
            assert forall|i: int| 0 <= i < lf.len() implies (#[trigger] gf[i]).control_func
                == lf[i].control_func by {
                assert(lf[i] == local[i]);
                assert(gf[i] == global[i]);
            }
        }
        lemma_block_simulates(lf, gf, map, s, x);
        let l = local.last();
        let g = global.last();
        let n = local.len() - 1;
        assert(is_image(seq![g], seq![l], map)) by {
            assert forall|i: int, k: int| 0 <= i < 1 && 0 <= k < 3 implies {
                &&& (#[trigger] seq![l][i].wires[k]) < map.len()
                &&& map[seq![l][i].wires[k] as int] == Some(seq![g][i].wires[k])
            } by {
                assert(seq![l][i] == local[n]);
                assert(seq![g][i] == global[n]);
                assert(local[n].wires[k] < map.len());
            }
            assert(global[n].control_func == local[n].control_func);
        }
        lemma_gate_simulates(l, g, map, run_gates(gf, s), run_bits(lf, x));
    }
}

/// A candidate that has the truth table of a block over the local wires
/// computes, once its wires are mapped back, the function of the block on
/// the wires of the circuit.
///
/// Here `block` is the block on the circuit's wires, `projected` its
/// projection with the wires `proj_map`, `table` the truth table of
/// `projected` over `n_proj_wires` wires, `candidate` a block over the local
/// wires with that table, and `replacement` its image under `map`, which
/// gives each of the `n_proj_wires` local wires at most one wire of the
/// circuit, no wire twice, and the wires of `proj_map` first.
pub proof fn lemma_replacement_equivalent(
    block: Seq<Gate>,
    projected: Seq<Gate>,
    proj_map: Seq<usize>,
    table: Seq<u32>,
    candidate: Seq<Gate>,
    replacement: Seq<Gate>,
    map: Seq<Option<usize>>,
    num_wires: int,
)
    requires
        map.len() <= 31,
        is_projection(projected, block, proj_map),
        is_truth_table(table, projected, map.len()),
        matches_table(candidate, table),
        injective(map),
        extends(map, proj_map),
        maps_into(map, num_wires),
        is_image(replacement, candidate, map),
    ensures
        equivalent(block, replacement, num_wires),
{
    assert(is_image(block, projected, map)) by {
        assert forall|i: int, k: int| 0 <= i < projected.len() && 0 <= k < 3 implies {
            &&& (#[trigger] projected[i].wires[k]) < map.len()
            &&& map[projected[i].wires[k] as int] == Some(block[i].wires[k])
        } by {
            let w = projected[i].wires[k];
            assert(w < proj_map.len());
            assert(map[w as int] == Some(proj_map[w as int]));
        }
        assert forall|i: int| 0 <= i < projected.len() implies (#[trigger] block[i]).control_func
            == projected[i].control_func by {
            assert(projected[i].control_func == block[i].control_func);
        }
    }
    assert forall|s: Seq<bool>| s.len() == num_wires implies #[trigger] run_gates(block, s)
        == run_gates(replacement, s) by {
        let x = pack(s, map, map.len());
        lemma_pack(s, map, map.len());
        assert(agrees(s, x, map)) by {
            assert forall|w: int| 0 <= w < map.len() implies (#[trigger] map[w] matches Some(
                g,
            ) ==> s[g as int] == bit_of(x, w as usize)) by {
                assert(bit_of(x, w as usize) == (w < map.len() && holds_at(s, map, w)));
            }
        }
        lemma_block_simulates(projected, block, map, s, x);
        lemma_block_simulates(candidate, replacement, map, s, x);
        vstd::bits::lemma_u32_pow2_no_overflow(map.len());
        vstd::bits::lemma_u32_shl_is_mul(1u32, map.len() as u32);
        assert(x < table.len());
        assert(table[x as int] == run_bits(projected, (x as int) as u32));
        assert(run_bits(candidate, (x as int) as u32) == table[x as int]);
        let a = run_gates(block, s);
        let b = run_gates(replacement, s);
        assert forall|j: int| 0 <= j < num_wires implies a[j] == b[j] by {
            if in_image(map, j) {
                let w = choose|w: int|
                    0 <= w < map.len() && (#[trigger] map[w] matches Some(v) && v == j);
                assert(a[j] == bit_of(run_bits(projected, x), w as usize));
                assert(b[j] == bit_of(run_bits(candidate, x), w as usize));
            }
        }
        assert(a =~= b);
    }
}

proof fn lemma_flip_commutes(x: u32, t: u32, w: u32)
    requires
        t < 32,
        w < 32,
    ensures
        (x ^ (1u32 << w)) ^ (1u32 << t) == (x ^ (1u32 << t)) ^ (1u32 << w),
        ((x ^ (x ^ (1u32 << w))) & !(1u32 << w)) == 0,
        ((x ^ (1u32 << w)) ^ (x ^ (1u32 << w) ^ (1u32 << w))) & !(1u32 << w) == 0,
{
    assert((x ^ (1u32 << w)) ^ (1u32 << t) == (x ^ (1u32 << t)) ^ (1u32 << w)) by (bit_vector);
    assert(((x ^ (x ^ (1u32 << w))) & !(1u32 << w)) == 0) by (bit_vector);
    assert(((x ^ (1u32 << w)) ^ (x ^ (1u32 << w) ^ (1u32 << w))) & !(1u32 << w) == 0)
        by (bit_vector);
}

proof fn lemma_masked_differs(a: u32, b: u32, w: u32)
    requires
        w < 32,
    ensures
        ((a & (1u32 << w)) != (b & (1u32 << w))) == ((a & (1u32 << w) != 0) != (b & (1u32 << w)
            != 0)),
{
    assert(w < 32 ==> (((a & (1u32 << w)) != (b & (1u32 << w))) == ((a & (1u32 << w) != 0) != (b & (
    1u32 << w) != 0)))) by (bit_vector);
}

/// Gates of which none has `w` as its target leave the bit at `w` alone.
pub proof fn lemma_untargeted_wire_kept(gates: Seq<Gate>, w: usize, x: u32)
    requires
        gates_fit(gates, 32),
        w < 32,
        !has_target(gates, w),
    ensures
        bit_of(run_bits(gates, x), w) == bit_of(x, w),
    decreases gates.len(),
{
    if gates.len() > 0 {
        let front = gates.drop_last();
        let g = gates.last();
        assert(g == gates[gates.len() - 1]);
        assert(g.fits(32));
        assert(gates_fit(front, 32)) by {
            assert forall|i: int| 0 <= i < front.len() implies (#[trigger] front[i]).fits(32) by {
                assert(front[i] == gates[i]);
            }
        }
        if has_target(front, w) {
            let k = choose|k: int| 0 <= k < front.len() && (#[trigger] front[k]).wires[0] == w;
            assert(gates[k].wires[0] == w);
        }
        lemma_untargeted_wire_kept(front, w, x);
        lemma_flip_bits(run_bits(front, x), g.wires[0] as u32, w as u32);
    }
}

/// Gates of which none has `w` as a control do the same whether the bit at
/// `w` is set or not.
pub proof fn lemma_uncontrolled_wire_ignored(gates: Seq<Gate>, w: usize, x: u32)
    requires
        gates_fit(gates, 32),
        w < 32,
        !has_control(gates, w),
    ensures
        run_bits(gates, flip_bit(x, w)) == flip_bit(run_bits(gates, x), w),
    decreases gates.len(),
{
    if gates.len() > 0 {
        let front = gates.drop_last();
        let g = gates.last();
        assert(g == gates[gates.len() - 1]);
        assert(g.fits(32));
        assert(gates_fit(front, 32)) by {
            assert forall|i: int| 0 <= i < front.len() implies (#[trigger] front[i]).fits(32) by {
                assert(front[i] == gates[i]);
            }
        }
        if has_control(front, w) {
            let k = choose|k: int|
                0 <= k < front.len() && ((#[trigger] front[k]).wires[1] == w || front[k].wires[2]
                    == w);
            assert(gates[k].wires[1] == w || gates[k].wires[2] == w);
        }
        lemma_uncontrolled_wire_ignored(front, w, x);
        let y = run_bits(front, x);
        lemma_flip_bits(y, w as u32, g.wires[1] as u32);
        lemma_flip_bits(y, w as u32, g.wires[2] as u32);
        lemma_flip_commutes(y, g.wires[0] as u32, w as u32);
    }
}

/// A block with the table `table` over `num_wires` wires has every wire on
/// which the table depends in the matching place: a wire that the table
/// changes is the target of a gate, and a wire on which its changes depend
/// is a control of a gate.
pub proof fn lemma_active_wires_covered(
    gates: Seq<Gate>,
    table: Seq<u32>,
    num_wires: nat,
    w: usize,
)
    requires
        num_wires <= 31,
        w < num_wires,
        table.len() == pow2(num_wires),
        gates_fit(gates, 32),
        matches_table(gates, table),
    ensures
        target_active(table, w) ==> has_target(gates, w),
        control_active(table, w) ==> has_control(gates, w),
{
    vstd::bits::lemma_u32_pow2_no_overflow(num_wires);
    vstd::bits::lemma_u32_shl_is_mul(1u32, num_wires as u32);
    if target_active(table, w) && !has_target(gates, w) {
        let i = choose|i: int| 0 <= i < table.len() && #[trigger] target_differs(table, w, i);
        lemma_untargeted_wire_kept(gates, w, i as u32);
        lemma_masked_differs(table[i], i as u32, w as u32);
        assert(run_bits(gates, i as u32) == table[i]);
        assert(false);
    }
    if control_active(table, w) && !has_control(gates, w) {
        let i = choose|i: int| 0 <= i < table.len() && #[trigger] control_differs(table, w, i);
        let x = i as u32;
        let n = num_wires as u32;
        let wu = w as u32;
        assert(wu < n && n < 32 && x < (1u32 << n) ==> (x ^ (1u32 << wu)) < (1u32 << n))
            by (bit_vector);
        let f = flip_bit(x, w);
        lemma_uncontrolled_wire_ignored(gates, w, x);
        assert(run_bits(gates, x) == table[i]);
        assert(run_bits(gates, (f as int) as u32) == table[f as int]);
        lemma_flip_commutes(table[i], 0, wu);
        assert(false);
    }
}

} // verus!
