//! The replacement of a block: projection, search, and the way back.
use super::connectivity::{connected_to_first, is_collision_path, weakly_connected};
use super::coordinator::parallel_search;
use super::equivalence::lemma_replacement_equivalent;
use super::remap::{count_new, extends, injective, is_image, maps_into, remap_to_global};
use super::sample::{covers_active, has_control, has_target, sampled_block, sampled_gate};
use super::search::{accepted, lemma_accepted_covers_active, SearchTask};
use super::strategy::{ControlFnChoice, ReplacementStrategy};
use crate::circuit::analysis::{
    compute_active_wires, control_active, control_differs, distinct_wires, flip_bit, is_projection,
    lemma_first_occurrences_distinct, lemma_table_by, lemma_table_of, projection_circuit, table_by,
    table_of, target_active,
    target_differs, truth_table, wire_seq, MAX_TABLE_WIRES,
};
use crate::circuit::cf::Base2GateControlFunc;
use crate::circuit::circuit::{collides, gates_fit, Gate};
use crate::circuit::semantics::equivalent;
use crate::flags::flags_of;
use crate::local_mixing::tracer::ReplacementTraceFields;
use crate::random::RandomSource;
use vstd::prelude::*;

verus! {

/// The number of positions at which one of the two lists of flags holds.
pub open spec fn count_either(a: Seq<bool>, b: Seq<bool>) -> int
    decreases a.len(),
{
    if a.len() == 0 || b.len() != a.len() {
        0
    } else {
        count_either(a.drop_last(), b.drop_last()) + if a.last() || b.last() {
            1int
        } else {
            0int
        }
    }
}

/// The number of wires that are flagged in `a` or in `b`.
pub fn count_flagged(a: &Vec<bool>, b: &Vec<bool>) -> (n: usize)
    requires
        a.len() == b.len(),
    ensures
        n == count_either(a@, b@),
        n <= a.len(),
{
    let mut n: usize = 0;
    let mut w: usize = 0;
    while w < a.len()
        invariant
            w <= a.len(),
            a.len() == b.len(),
            n <= w,
            n == count_either(a@.take(w as int), b@.take(w as int)),
        decreases a.len() - w,
    {
        proof {
            assert(a@.take(w + 1).drop_last() == a@.take(w as int));
            assert(b@.take(w + 1).drop_last() == b@.take(w as int));
        }
        if a[w] || b[w] {
            n += 1;
        }
        w += 1;
    }
    proof {
        assert(a@.take(w as int) == a@);
        assert(b@.take(w as int) == b@);
    }
    n
}

/// The least generation among `gates`, and 0 where there is no gate.
pub open spec fn least_generation(gates: Seq<Gate>) -> usize
    decreases gates.len(),
{
    if gates.len() == 0 {
        0
    } else if gates.len() == 1 {
        gates[0].generation
    } else {
        let rest = least_generation(gates.drop_last());
        if gates.last().generation < rest {
            gates.last().generation
        } else {
            rest
        }
    }
}

/// The least generation among `gates`, and 0 where there is no gate.
pub fn min_generation(gates: &Vec<Gate>) -> (m: usize)
    ensures
        m == least_generation(gates@),
{
    if gates.len() == 0 {
        return 0;
    }
    let mut m = gates[0].generation;
    let mut k: usize = 1;
    proof {
        assert(gates@.take(1).len() == 1);
    }
    while k < gates.len()
        invariant
            1 <= k <= gates.len(),
            m == least_generation(gates@.take(k as int)),
        decreases gates.len() - k,
    {
        proof {
            assert(gates@.take(k + 1).drop_last() == gates@.take(k as int));
        }
        if gates[k].generation < m {
            m = gates[k].generation;
        }
        k += 1;
    }
    proof {
        assert(gates@.take(k as int) == gates@);
    }
    m
}

/// The generation after `generation`; the last generation is its own
/// successor.
pub open spec fn next_generation(generation: usize) -> usize {
    if generation < usize::MAX {
        (generation + 1) as usize
    } else {
        generation
    }
}

/// Gates that collide still collide when their wires are renamed.
pub proof fn lemma_image_connected(global: Seq<Gate>, local: Seq<Gate>, map: Seq<Option<usize>>)
    requires
        is_image(global, local, map),
        weakly_connected(local),
    ensures
        weakly_connected(global),
{
    assert forall|i: int| 0 <= i < global.len() implies connected_to_first(global, i) by {
        assert(connected_to_first(local, i));
        let path = choose|path: Seq<int>|
            #[trigger] is_collision_path(local, path) && path[0] == 0 && path.last() == i;
        assert(is_collision_path(global, path)) by {
            assert forall|k: int| 0 <= k < path.len() - 1 implies collides(
                global[#[trigger] path[k]],
                global[path[k + 1]],
            ) by {
                let a = path[k];
                let b = path[k + 1];
                assert(collides(local[a], local[b]));
                assert(map[local[a].wires[0] as int] == Some(global[a].wires[0]));
                assert(map[local[a].wires[1] as int] == Some(global[a].wires[1]));
                assert(map[local[a].wires[2] as int] == Some(global[a].wires[2]));
                assert(map[local[b].wires[0] as int] == Some(global[b].wires[0]));
                assert(map[local[b].wires[1] as int] == Some(global[b].wires[1]));
                assert(map[local[b].wires[2] as int] == Some(global[b].wires[2]));
            }
        }
    }
}

/// A gate with distinct wires has distinct wires when they are renamed, no
/// wire standing for two, and its wires are wires of the circuit.
pub proof fn lemma_image_gates(
    global: Seq<Gate>,
    local: Seq<Gate>,
    map: Seq<Option<usize>>,
    num_wires: int,
    i: int,
)
    requires
        is_image(global, local, map),
        injective(map),
        maps_into(map, num_wires),
        0 <= i < local.len(),
        local[i].distinct_wires(),
        local[i].control_func < Base2GateControlFunc::COUNT,
    ensures
        global[i].distinct_wires(),
        global[i].fits(num_wires),
{
    assert(map[local[i].wires[0] as int] == Some(global[i].wires[0]));
    assert(map[local[i].wires[1] as int] == Some(global[i].wires[1]));
    assert(map[local[i].wires[2] as int] == Some(global[i].wires[2]));
    assert(global[i].control_func == local[i].control_func);
}

/// What a replacement of `circuit` over `num_wires` wires is: as many gates
/// as asked for, with distinct wires of the circuit, weakly connected, of
/// one generation more than the block, and with the function of the block.
pub open spec fn is_replacement(
    replacement: Seq<Gate>,
    circuit: Seq<Gate>,
    num_wires: int,
    n_in: int,
) -> bool {
    &&& replacement.len() == n_in
    &&& gates_fit(replacement, num_wires)
    &&& forall|i: int| 0 <= i < replacement.len() ==> (#[trigger] replacement[i]).distinct_wires()
    &&& forall|i: int|
        0 <= i < replacement.len() ==> (#[trigger] replacement[i]).generation == next_generation(
            least_generation(circuit),
        )
    &&& weakly_connected(replacement)
    &&& equivalent(circuit, replacement, num_wires)
}

/// What is to be known of a block before a search for its replacement.
pub struct Projection {
    /// The block over its local wires.
    pub circuit: Vec<Gate>,
    /// The wire of the circuit for each local wire of the block.
    pub proj_map: Vec<usize>,
    /// What the search looks for.
    pub task: SearchTask,
    /// The number of local wires on which the block's function depends.
    pub num_active_wires: usize,
}

impl Projection {
    /// The projection of `block`, for a search over `n_proj_wires` wires:
    /// the table is that of the block over all local wires, and the flags
    /// are those of the wires on which the block's own table depends.
    pub open spec fn describes(&self, block: Seq<Gate>, n_proj_wires: int) -> bool {
        &&& self.task.wf()
        &&& self.task.n_proj_wires() == n_proj_wires
        &&& self.proj_map@ == distinct_wires(block)
        &&& self.proj_map@.no_duplicates()
        &&& self.proj_map.len() <= n_proj_wires
        &&& is_projection(self.circuit@, block, self.proj_map@)
        &&& self.task.table@ == table_of(self.circuit@, n_proj_wires as nat)
        &&& forall|w: int|
            0 <= w < n_proj_wires ==> (#[trigger] self.task.active_target[w] <==> w
                < self.proj_map.len() && target_active(
                table_of(self.circuit@, self.proj_map.len() as nat),
                w as usize,
            ))
        &&& forall|w: int|
            0 <= w < n_proj_wires ==> (#[trigger] self.task.active_control[w] <==> w
                < self.proj_map.len() && control_active(
                table_of(self.circuit@, self.proj_map.len() as nat),
                w as usize,
            ))
        &&& self.num_active_wires == count_either(
            self.task.active_target@,
            self.task.active_control@,
        )
    }
}

/// Projects `circuit` onto its own wires and works out what a search for
/// its replacement needs.  There is no result where the block has more
/// distinct wires than `n_proj_wires`: no replacement over so few wires can
/// have its function.
pub fn prepare_search(
    circuit: &Vec<Gate>,
    n_in: usize,
    n_proj_wires: usize,
    strategy: ReplacementStrategy,
    cf_choice: ControlFnChoice,
) -> (res: Option<Projection>)
    requires
        forall|i: int|
            0 <= i < circuit.len() ==> (#[trigger] circuit[i]).control_func
                < Base2GateControlFunc::COUNT,
        1 <= n_in <= usize::MAX / 3,
        3 <= n_proj_wires <= MAX_TABLE_WIRES,
        strategy != ReplacementStrategy::Dummy,
    ensures
        res is None <==> distinct_wires(circuit@).len() > n_proj_wires,
        res matches Some(p) ==> {
            &&& p.describes(circuit@, n_proj_wires as int)
            &&& p.task.n_in == n_in
            &&& p.task.strategy == strategy
            &&& p.task.cf_choice == cf_choice
        },
{
    let (proj_circuit, proj_map) = projection_circuit(circuit);
    if proj_map.len() > n_proj_wires {
        return None;
    }
    proof {
        assert forall|i: int| 0 <= i < proj_circuit.len() implies (#[trigger] proj_circuit[i]).fits(
            32,
        ) by {
            assert(proj_circuit[i].wires[0] < proj_map.len());
            assert(proj_circuit[i].wires[1] < proj_map.len());
            assert(proj_circuit[i].wires[2] < proj_map.len());
            assert(proj_circuit[i].control_func == circuit[i].control_func);
        }
    }
    let tt = truth_table(proj_map.len(), &proj_circuit);
    let active = compute_active_wires(proj_map.len(), &tt);
    let active_target = flags_of(&active.0, n_proj_wires);
    let active_control = flags_of(&active.1, n_proj_wires);
    let num_active_wires = count_flagged(&active_target, &active_control);
    let table = truth_table(n_proj_wires, &proj_circuit);
    proof {
        lemma_table_of(tt@, proj_circuit@, proj_map.len() as nat);
        lemma_table_of(table@, proj_circuit@, n_proj_wires as nat);
        assert forall|w: int|
            0 <= w < n_proj_wires && #[trigger] active_target[w] implies target_active(
            table@,
            w as usize,
        ) by {
            lemma_active_in_wider_table(proj_circuit@, proj_map.len() as nat, n_proj_wires as nat, w as usize);
        }
        assert forall|w: int|
            0 <= w < n_proj_wires && #[trigger] active_control[w] implies control_active(
            table@,
            w as usize,
        ) by {
            lemma_active_in_wider_table(proj_circuit@, proj_map.len() as nat, n_proj_wires as nat, w as usize);
        }
    }
    Some(
        Projection {
            circuit: proj_circuit,
            proj_map,
            task: SearchTask { table, active_target, active_control, n_in, strategy, cf_choice },
            num_active_wires,
        },
    )
}

/// `replacement` is `candidate`, a block over local wires, put on the wires
/// of a circuit of `num_wires` wires: the local wires of `proj_map` stand
/// for its wires, in its order, and no two local wires for the same wire.
pub open spec fn put_back(
    replacement: Seq<Gate>,
    candidate: Seq<Gate>,
    map: Seq<Option<usize>>,
    proj_map: Seq<usize>,
    num_wires: int,
) -> bool {
    &&& injective(map)
    &&& extends(map, proj_map)
    &&& maps_into(map, num_wires)
    &&& is_image(replacement, candidate, map)
}

/// Each wire of `proj_map` whose place is flagged as a target is the
/// target of a gate of `replacement`, and each whose place is flagged as a
/// control is a control of one.
pub open spec fn covers_flagged(
    replacement: Seq<Gate>,
    proj_map: Seq<usize>,
    active_target: Seq<bool>,
    active_control: Seq<bool>,
) -> bool {
    &&& forall|w: int|
        0 <= w < proj_map.len() && w < active_target.len() && #[trigger] active_target[w]
            ==> has_target(replacement, proj_map[w])
    &&& forall|w: int|
        0 <= w < proj_map.len() && w < active_control.len() && #[trigger] active_control[w]
            ==> has_control(replacement, proj_map[w])
}

/// For each of `n_proj_wires` local wires, whether the function of
/// `block` changes it, and whether its changes depend on it: the wires of
/// the block are numbered by their first occurrence.
pub open spec fn block_flags(block: Seq<Gate>, n_proj_wires: int) -> (Seq<bool>, Seq<bool>) {
    let wires = distinct_wires(block);
    let table = table_by(block, wires, wires.len());
    (
        Seq::new(
            n_proj_wires as nat,
            |w: int| w < wires.len() && target_active(table, w as usize),
        ),
        Seq::new(
            n_proj_wires as nat,
            |w: int| w < wires.len() && control_active(table, w as usize),
        ),
    )
}

/// Maps an accepted candidate back to the wires of the circuit and gives
/// its gates the generation after that of the block.  There is no result
/// where the circuit has fewer wires than the block and the new wires of
/// the candidate together.
pub fn finish_replacement<R: RandomSource>(
    circuit: &Vec<Gate>,
    projection: &Projection,
    candidate: Vec<Gate>,
    num_sampled: usize,
    num_wires: usize,
    rng: &mut R,
) -> (res: Option<(Vec<Gate>, ReplacementTraceFields)>)
    requires
        gates_fit(circuit@, num_wires as int),
        projection.describes(circuit@, projection.task.n_proj_wires()),
        sampled_block(candidate@, projection.task.n_proj_wires(), projection.task.cf_choice),
        accepted(candidate@, projection.task.table@),
    ensures
        res is None <==> distinct_wires(circuit@).len() + count_new(
            wire_seq(candidate@),
            distinct_wires(circuit@).len() as int,
        ) > num_wires,
        projection.task.n_proj_wires() <= num_wires ==> res is Some,
        res matches Some(out) ==> {
            &&& is_replacement(out.0@, circuit@, num_wires as int, candidate.len() as int)
            &&& out.1.input_circuit@ == circuit@
            &&& out.1.output_circuit@ == out.0@
            &&& out.1.num_input_wires == distinct_wires(circuit@).len()
            &&& out.1.num_output_wires == distinct_wires(out.0@).len()
            &&& out.1.num_active_wires == projection.num_active_wires
            &&& out.1.min_generation == least_generation(circuit@)
            &&& out.1.num_circuits_sampled == num_sampled
            &&& exists|map: Seq<Option<usize>>| #[trigger]
                put_back(out.0@, candidate@, map, projection.proj_map@, num_wires as int)
                    && map.len() == projection.task.n_proj_wires()
            &&& covers_flagged(
                out.0@,
                projection.proj_map@,
                projection.task.active_target@,
                projection.task.active_control@,
            )
        },
{
    let n_proj_wires = projection.task.active_target.len();
    proof {
        lemma_first_occurrences_distinct(wire_seq(circuit@));
        lemma_wires_of(circuit@);
        assert forall|w: int| 0 <= w < projection.proj_map.len() implies projection.proj_map[w]
            < num_wires by {
            let x = projection.proj_map[w];
            assert(projection.proj_map@.contains(x));
            assert(wire_seq(circuit@).contains(x));
        }
        assert forall|i: int, k: int| 0 <= i < candidate.len() && 0 <= k < 3 implies (
        #[trigger] candidate[i].wires[k]) < n_proj_wires by {
            assert(sampled_gate(candidate[i], n_proj_wires as int, projection.task.cf_choice));
        }
    }
    let (mapped, map) = match remap_to_global(
        &candidate,
        &projection.proj_map,
        n_proj_wires,
        num_wires,
        rng,
    ) {
        Some(out) => out,
        None => {
            return None;
        },
    };
    let least = min_generation(circuit);
    let generation = if least < usize::MAX {
        least + 1
    } else {
        least
    };
    let mut replacement: Vec<Gate> = Vec::new();
    let mut i: usize = 0;
    while i < mapped.len()
        invariant
            i <= mapped.len(),
            replacement.len() == i,
            forall|j: int|
                0 <= j < i ==> {
                    &&& (#[trigger] replacement[j]).wires == mapped[j].wires
                    &&& replacement[j].control_func == mapped[j].control_func
                    &&& replacement[j].generation == generation
                },
        decreases mapped.len() - i,
    {
        let g = mapped[i];
        replacement.push(Gate { wires: g.wires, control_func: g.control_func, generation });
        i += 1;
    }
    proof {
        assert(is_image(replacement@, candidate@, map@)) by {
            assert forall|j: int, k: int| 0 <= j < candidate.len() && 0 <= k < 3 implies {
                &&& (#[trigger] candidate@[j].wires[k]) < map@.len()
                &&& map@[candidate@[j].wires[k] as int] == Some(replacement@[j].wires[k])
            } by {
                assert(replacement[j].wires == mapped[j].wires);
                assert(candidate@[j].wires[k] < map@.len());
                assert(map@[candidate@[j].wires[k] as int] == Some(mapped@[j].wires[k]));
            }
            assert forall|j: int| 0 <= j < candidate.len() implies (
            #[trigger] replacement@[j]).control_func == candidate@[j].control_func by {
                assert(mapped@[j].control_func == candidate@[j].control_func);
            }
        }
        lemma_image_connected(replacement@, candidate@, map@);
        projection.task.cf_choice.lemma_codes();
        assert forall|j: int| 0 <= j < replacement.len() implies (#[trigger] replacement[j]).fits(
            num_wires as int,
        ) && replacement[j].distinct_wires() by {
            assert(sampled_gate(candidate[j], n_proj_wires as int, projection.task.cf_choice));
            lemma_image_gates(replacement@, candidate@, map@, num_wires as int, j);
        }
        lemma_table_of(
            projection.task.table@,
            projection.circuit@,
            n_proj_wires as nat,
        );
        lemma_replacement_equivalent(
            circuit@,
            projection.circuit@,
            projection.proj_map@,
            projection.task.table@,
            candidate@,
            replacement@,
            map@,
            num_wires as int,
        );
        assert(put_back(replacement@, candidate@, map@, projection.proj_map@, num_wires as int));
        assert(gates_fit(candidate@, 32)) by {
            assert forall|j: int| 0 <= j < candidate.len() implies (#[trigger] candidate[j]).fits(
                32,
            ) by {
                assert(sampled_gate(candidate[j], n_proj_wires as int, projection.task.cf_choice));
                let cf = candidate[j].control_func;
                let k = choose|k: int|
                    0 <= k < projection.task.cf_choice.codes().len()
                        && projection.task.cf_choice.codes()[k] == cf;
            }
        }
        lemma_accepted_covers_active(&projection.task, candidate@);
        assert forall|w: int|
            0 <= w < projection.proj_map.len() && w < projection.task.active_target.len()
                && #[trigger] projection.task.active_target@[w] implies has_target(
            replacement@,
            projection.proj_map@[w],
        ) by {
            assert(projection.task.active_target@[w as usize as int]);
            assert(has_target(candidate@, w as usize));
            let g = choose|g: int| 0 <= g < candidate.len() && (#[trigger] candidate@[g]).wires[0]
                == w as usize;
            assert(map@[candidate@[g].wires[0] as int] == Some(replacement@[g].wires[0]));
            assert(map@[w] == Some(projection.proj_map@[w]));
        }
        assert forall|w: int|
            0 <= w < projection.proj_map.len() && w < projection.task.active_control.len()
                && #[trigger] projection.task.active_control@[w] implies has_control(
            replacement@,
            projection.proj_map@[w],
        ) by {
            assert(projection.task.active_control@[w as usize as int]);
            assert(has_control(candidate@, w as usize));
            let g = choose|g: int|
                0 <= g < candidate.len() && ((#[trigger] candidate@[g]).wires[1] == w as usize
                    || candidate@[g].wires[2] == w as usize);
            assert(map@[candidate@[g].wires[1] as int] == Some(replacement@[g].wires[1]));
            assert(map@[candidate@[g].wires[2] as int] == Some(replacement@[g].wires[2]));
            assert(map@[w] == Some(projection.proj_map@[w]));
        }
    }
    let ghost shown = map@;
    proof {
        assert(covers_flagged(
            replacement@,
            projection.proj_map@,
            projection.task.active_target@,
            projection.task.active_control@,
        ));
    }
    let num_output_wires = projection_circuit(&replacement).1.len();
    proof {
        assert(put_back(replacement@, candidate@, shown, projection.proj_map@, num_wires as int));
    }
    let fields = ReplacementTraceFields {
        input_circuit: circuit.clone(),
        output_circuit: replacement.clone(),
        num_input_wires: projection.proj_map.len(),
        num_output_wires,
        num_active_wires: projection.num_active_wires,
        min_generation: least,
        num_circuits_sampled: num_sampled,
    };
    Some((replacement, fields))
}

/// Every wire in the list of a block's wires is a wire of one of its gates.
pub proof fn lemma_wires_of(gates: Seq<Gate>)
    ensures
        forall|x: usize|
            wire_seq(gates).contains(x) ==> exists|i: int, k: int|
                0 <= i < gates.len() && 0 <= k < 3 && #[trigger] gates[i].wires[k] == x,
    decreases gates.len(),
{
    if gates.len() > 0 {
        let front = gates.drop_last();
        let g = gates.last();
        lemma_wires_of(front);
        let ws = wire_seq(gates);
        let fs = wire_seq(front);
        assert forall|x: usize| ws.contains(x) implies exists|i: int, k: int|
            0 <= i < gates.len() && 0 <= k < 3 && #[trigger] gates[i].wires[k] == x by {
            let p = choose|p: int| 0 <= p < ws.len() && ws[p] == x;
            if p < fs.len() {
                assert(fs[p] == x);
                assert(fs.contains(x));
                let (i, k) = choose|i: int, k: int|
                    0 <= i < front.len() && 0 <= k < 3 && #[trigger] front[i].wires[k] == x;
                assert(gates[i].wires[k] == x);
            } else {
                let n = gates.len() - 1;
                assert(gates[n] == g);
                if p == fs.len() {
                    assert(gates[n].wires[0] == x);
                } else if p == fs.len() + 1 {
                    assert(gates[n].wires[1] == x);
                } else {
                    assert(gates[n].wires[2] == x);
                }
            }
        }
    }
}

/// Searches for a block of `n_in` gates that can replace `circuit` in a
/// circuit of `num_wires` wires: a block that computes the same function
/// and is weakly connected.  Candidates range over `n_proj_wires` local
/// wires; up to `num_attempts` of them are sampled, shared out over the
/// worker threads.  Returns the block and a record of the search, or
/// nothing where no candidate was accepted.
pub fn find_replacement_circuit<R: RandomSource + Send>(
    circuit: &Vec<Gate>,
    num_wires: usize,
    n_in: usize,
    n_proj_wires: usize,
    num_attempts: usize,
    strategy: ReplacementStrategy,
    cf_choice: ControlFnChoice,
    rng: &mut R,
) -> (res: Option<(Vec<Gate>, ReplacementTraceFields)>)
    requires
        gates_fit(circuit@, num_wires as int),
        1 <= n_in <= usize::MAX / 3,
        3 <= n_proj_wires <= MAX_TABLE_WIRES,
        strategy != ReplacementStrategy::Dummy,
    ensures
        num_attempts == 0 ==> res is None,
        distinct_wires(circuit@).len() > n_proj_wires ==> res is None,
        res matches Some(out) ==> {
            &&& is_replacement(out.0@, circuit@, num_wires as int, n_in as int)
            &&& out.1.input_circuit@ == circuit@
            &&& out.1.output_circuit@ == out.0@
            &&& out.1.num_input_wires == distinct_wires(circuit@).len()
            &&& out.1.num_output_wires == distinct_wires(out.0@).len()
            &&& out.1.min_generation == least_generation(circuit@)
            &&& 1 <= out.1.num_circuits_sampled <= num_attempts
            &&& exists|candidate: Seq<Gate>, map: Seq<Option<usize>>| #[trigger]
                put_back(out.0@, candidate, map, distinct_wires(circuit@), num_wires as int)
                    && sampled_block(candidate, n_proj_wires as int, cf_choice) && map.len()
                    == n_proj_wires
            &&& covers_flagged(
                out.0@,
                distinct_wires(circuit@),
                block_flags(circuit@, n_proj_wires as int).0,
                block_flags(circuit@, n_proj_wires as int).1,
            )
            &&& out.1.num_active_wires == count_either(
                block_flags(circuit@, n_proj_wires as int).0,
                block_flags(circuit@, n_proj_wires as int).1,
            )
        },
{
    let projection = match prepare_search(circuit, n_in, n_proj_wires, strategy, cf_choice) {
        Some(p) => p,
        None => {
            return None;
        },
    };
    proof {
        lemma_table_by(
            projection.circuit@,
            circuit@,
            projection.proj_map@,
            projection.proj_map.len() as nat,
        );
        assert(projection.task.active_target@ =~= block_flags(circuit@, n_proj_wires as int).0);
        assert(projection.task.active_control@ =~= block_flags(circuit@, n_proj_wires as int).1);
    }
    match parallel_search(&projection.task, num_attempts, rng) {
        None => None,
        Some((candidate, num_sampled)) => {
            let ghost sampled = candidate@;
            let res = finish_replacement(
                circuit,
                &projection,
                candidate,
                num_sampled,
                num_wires,
                rng,
            );
            proof {
                if res is Some {
                    let out = res->Some_0;
                    let map = choose|map: Seq<Option<usize>>| #[trigger]
                        put_back(out.0@, sampled, map, projection.proj_map@, num_wires as int)
                            && map.len() == projection.task.n_proj_wires();
                    assert(put_back(out.0@, sampled, map, distinct_wires(circuit@), num_wires as int));
                }
            }
            res
        },
    }
}

/// A wire on which the table of a block over its own wires depends is one
/// on which its table over more wires depends.
pub proof fn lemma_active_in_wider_table(gates: Seq<Gate>, narrow: nat, wide: nat, w: usize)
    requires
        w < narrow <= wide <= MAX_TABLE_WIRES,
    ensures
        target_active(table_of(gates, narrow), w) ==> target_active(table_of(gates, wide), w),
        control_active(table_of(gates, narrow), w) ==> control_active(table_of(gates, wide), w),
{
    let small = table_of(gates, narrow);
    let large = table_of(gates, wide);
    vstd::bits::lemma_u32_pow2_no_overflow(narrow);
    vstd::bits::lemma_u32_shl_is_mul(1u32, narrow as u32);
    vstd::bits::lemma_u32_pow2_no_overflow(wide);
    if narrow < wide {
        vstd::arithmetic::power2::lemma_pow2_strictly_increases(narrow, wide);
    }
    if target_active(small, w) {
        let i = choose|i: int| 0 <= i < small.len() && #[trigger] target_differs(small, w, i);
        assert(small[i] == large[i]);
        assert(target_differs(large, w, i));
    }
    if control_active(small, w) {
        let i = choose|i: int| 0 <= i < small.len() && #[trigger] control_differs(small, w, i);
        let x = i as u32;
        let n = narrow as u32;
        let wu = w as u32;
        assert(wu < n && n < 32 && x < (1u32 << n) ==> (x ^ (1u32 << wu)) < (1u32 << n))
            by (bit_vector);
        let f = flip_bit(x, w) as int;
        assert(small[i] == large[i]);
        assert(small[f] == large[f]);
        assert(control_differs(large, w, i));
    }
}

} // verus!
