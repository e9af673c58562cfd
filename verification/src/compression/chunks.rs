//! The split of a circuit into parts that are worked on apart from each
//! other, and the circuit that the parts give when they are put together.
use super::runner::{agree_in_parts, StrategyOneRunner, CHUNK_SIZE, SHUFFLE_PASSES};
use super::subgraph::shuffled_pairwise;
use crate::circuit::circuit::{gates_fit, run_gates, Circuit, Gate};
use crate::circuit::semantics::{
    equivalent, lemma_fit_parts, lemma_run_gates_concat, lemma_run_gates_len,
};
use crate::random::RandomSource;
use crate::replacement::coordinator::worker_count;
use rayon::iter::{IndexedParallelIterator, IntoParallelIterator, ParallelIterator};
use vstd::prelude::*;

verus! {

/// The gates of the parts, one part after the other.
pub open spec fn joined(parts: Seq<Vec<Gate>>) -> Seq<Gate>
    decreases parts.len(),
{
    if parts.len() == 0 {
        Seq::empty()
    } else {
        joined(parts.drop_last()) + parts.last()@
    }
}

/// The parts of gates that fit fit as well.
pub proof fn lemma_parts_fit(parts: Seq<Vec<Gate>>, num_wires: int)
    requires
        gates_fit(joined(parts), num_wires),
    ensures
        forall|i: int| 0 <= i < parts.len() ==> gates_fit(#[trigger] parts[i]@, num_wires),
    decreases parts.len(),
{
    if parts.len() > 0 {
        let front = parts.drop_last();
        lemma_fit_parts(joined(front), parts.last()@, num_wires);
        lemma_parts_fit(front, num_wires);
        assert forall|i: int| 0 <= i < parts.len() implies gates_fit(
            #[trigger] parts[i]@,
            num_wires,
        ) by {
            if i < front.len() {
                assert(front[i] == parts[i]);
            } else {
                assert(parts.last() == parts[i]);
            }
        }
    }
}

/// Parts that fit give gates that fit.
pub proof fn lemma_parts_fit_together(parts: Seq<Vec<Gate>>, num_wires: int)
    requires
        forall|i: int| 0 <= i < parts.len() ==> gates_fit(#[trigger] parts[i]@, num_wires),
    ensures
        gates_fit(joined(parts), num_wires),
    decreases parts.len(),
{
    if parts.len() > 0 {
        let front = parts.drop_last();
        assert forall|i: int| 0 <= i < front.len() implies gates_fit(
            #[trigger] front[i]@,
            num_wires,
        ) by {
            assert(front[i] == parts[i]);
        }
        lemma_parts_fit_together(front, num_wires);
        assert(parts.last() == parts[parts.len() - 1]);
        lemma_fit_parts(joined(front), parts.last()@, num_wires);
    }
}

/// Where each part of one list computes what the part at its place in the
/// other list computes, the two lists put together compute the same.
pub proof fn lemma_joined_equivalent(a: Seq<Vec<Gate>>, b: Seq<Vec<Gate>>, num_wires: int)
    requires
        a.len() == b.len(),
        forall|i: int| 0 <= i < a.len() ==> gates_fit(#[trigger] a[i]@, num_wires),
        forall|i: int| 0 <= i < a.len() ==> equivalent(#[trigger] a[i]@, b[i]@, num_wires),
    ensures
        gates_fit(joined(a), num_wires),
        equivalent(joined(a), joined(b), num_wires),
    decreases a.len(),
{
    if a.len() > 0 {
        let front_a = a.drop_last();
        let front_b = b.drop_last();
        assert forall|i: int| 0 <= i < front_a.len() implies gates_fit(
            #[trigger] front_a[i]@,
            num_wires,
        ) && equivalent(front_a[i]@, front_b[i]@, num_wires) by {
            assert(front_a[i] == a[i] && front_b[i] == b[i]);
            assert(gates_fit(a[i]@, num_wires));
            assert(equivalent(a[i]@, b[i]@, num_wires));
        }
        lemma_joined_equivalent(front_a, front_b, num_wires);
        let last = a.len() - 1;
        assert(a.last() == a[last] && b.last() == b[last]);
        assert(gates_fit(a[last]@, num_wires));
        assert(equivalent(a[last]@, b[last]@, num_wires));
        lemma_fit_parts(joined(front_a), a.last()@, num_wires);
        assert forall|s: Seq<bool>| s.len() == num_wires implies #[trigger] run_gates(
            joined(a),
            s,
        ) == run_gates(joined(b), s) by {
            lemma_run_gates_concat(joined(front_a), a.last()@, s);
            lemma_run_gates_concat(joined(front_b), b.last()@, s);
            lemma_run_gates_len(joined(front_a), s);
        }
    }
}

/// The gates in `parts` parts, in their order: each part has the share of
/// the gates that are left that falls to it among the parts that are left,
/// so that no part has more than one gate more than another.
pub fn split_into_chunks(gates: &Vec<Gate>, parts: usize) -> (chunks: Vec<Vec<Gate>>)
    requires
        parts > 0,
    ensures
        chunks.len() == parts,
        joined(chunks@) == gates@,
        forall|i: int|
            0 <= i < chunks.len() ==> gates.len() / parts <= (#[trigger] chunks[i]).len()
                <= gates.len() / parts + 1,
{
    let share = gates.len() / parts;
    let mut chunks: Vec<Vec<Gate>> = Vec::new();
    let mut index: usize = 0;
    let mut i: usize = 0;
    proof {
        assert(parts * share <= gates.len() <= parts * (share + 1)) by (nonlinear_arith)
            requires
                parts > 0,
                share == gates.len() / parts,
        ;
    }
    while i < parts
        invariant
            i <= parts,
            index <= gates.len(),
            chunks.len() == i,
            share == gates.len() / parts,
            joined(chunks@) == gates@.take(index as int),
            i == parts ==> index == gates.len(),
            (parts - i) * share <= gates.len() - index <= (parts - i) * (share + 1),
            forall|k: int| 0 <= k < chunks.len() ==> share <= (#[trigger] chunks[k]).len() <= share + 1,
        decreases parts - i,
    {
        let left = gates.len() - index;
        let size = left / (parts - i);
        proof {
            let m: int = parts - i;
            let left: int = left as int;
            let size: int = size as int;
            let share: int = share as int;
            assert(share <= size <= share + 1 && (m - 1) * share <= left - size <= (m - 1) * (share
                + 1) && (m == 1 ==> size == left)) by (nonlinear_arith)
                requires
                    m > 0,
                    size == left / m,
                    m * share <= left <= m * (share + 1),
                    share >= 0,
            ;
        }
        let mut chunk: Vec<Gate> = Vec::new();
        let mut k: usize = 0;
        while k < size
            invariant
                k <= size,
                index + size <= gates.len(),
                chunk@ == gates@.subrange(index as int, index + k),
            decreases size - k,
        {
            chunk.push(gates[index + k]);
            proof {
                assert(chunk@ == gates@.subrange(index as int, index + k + 1));
            }
            k += 1;
        }
        proof {
            let before = chunks@;
            let after = before.push(chunk);
            assert(after.drop_last() == before);
            assert(after.last() == chunk);
            assert(gates@.take(index as int) + gates@.subrange(index as int, index + size)
                == gates@.take(index + size));
        }
        chunks.push(chunk);
        index += size;
        i += 1;
    }
    proof {
        assert(gates@.take(gates.len() as int) == gates@);
    }
    chunks
}

/// The gates of the parts, one part after the other.
pub fn join_chunks(chunks: &Vec<Vec<Gate>>) -> (gates: Vec<Gate>)
    ensures
        gates@ == joined(chunks@),
{
    let mut gates: Vec<Gate> = Vec::new();
    let mut i: usize = 0;
    while i < chunks.len()
        invariant
            i <= chunks.len(),
            gates@ == joined(chunks@.take(i as int)),
        decreases chunks.len() - i,
    {
        let chunk = &chunks[i];
        let ghost front = gates@;
        let mut k: usize = 0;
        while k < chunk.len()
            invariant
                k <= chunk.len(),
                gates@ == front + chunk@.take(k as int),
            decreases chunk.len() - k,
        {
            gates.push(chunk[k]);
            proof {
                assert(chunk@.take(k + 1) == chunk@.take(k as int).push(chunk@[k as int]));
                assert(gates@ == front + chunk@.take(k + 1));
            }
            k += 1;
        }
        proof {
            assert(chunk@.take(chunk.len() as int) == chunk@);
            let next = chunks@.take(i + 1);
            assert(next.drop_last() == chunks@.take(i as int));
            assert(next.last() == chunks@[i as int]);
        }
        i += 1;
    }
    proof {
        assert(chunks@.take(chunks.len() as int) == chunks@);
    }
    gates
}

/// Parts of equal lengths, place by place, give circuits of equal length.
pub proof fn lemma_joined_len(a: Seq<Vec<Gate>>, b: Seq<Vec<Gate>>)
    requires
        a.len() == b.len(),
        forall|i: int| 0 <= i < a.len() ==> (#[trigger] a[i]).len() == b[i].len(),
    ensures
        joined(a).len() == joined(b).len(),
    decreases a.len(),
{
    if a.len() > 0 {
        let front_a = a.drop_last();
        let front_b = b.drop_last();
        assert forall|i: int| 0 <= i < front_a.len() implies (#[trigger] front_a[i]).len()
            == front_b[i].len() by {
            assert(front_a[i] == a[i] && front_b[i] == b[i]);
        }
        lemma_joined_len(front_a, front_b);
        assert(a.last() == a[a.len() - 1] && b.last() == b[a.len() - 1]);
    }
}

/// The gates of one part after a runner has rearranged them: after its
/// passes of exchanges, and with each of its own parts made into blocks.
pub fn rearranged<R: RandomSource>(
    worker_id: usize,
    chunk: Vec<Gate>,
    num_wires: usize,
    rng: &mut R,
) -> (out: Vec<Gate>)
    requires
        gates_fit(chunk@, num_wires as int),
    ensures
        out.len() == chunk.len(),
        gates_fit(out@, num_wires as int),
        equivalent(chunk@, out@, num_wires as int),
        final(rng).replayable() == old(rng).replayable(),
        old(rng).replayable() ==> {
            let passed = shuffled_pairwise(chunk@, SHUFFLE_PASSES as nat, *old(rng));
            &&& *final(rng) == passed.1
            &&& agree_in_parts(passed.0, out@, CHUNK_SIZE as int, num_wires as int)
        },
{
    let mut runner = StrategyOneRunner::init(worker_id, chunk, num_wires);
    runner.run(rng);
    runner.gates
}

/// Rayon's `into_par_iter` on the parts, zipped with the sources and
/// numbered, `map` and `collect`: each part is handed with its number and
/// its source to one call of `rearranged`, and the results stand in the
/// order of the parts.  What is claimed of each result is what `rearranged`
/// is proved to return.
#[verifier::external_body]
fn run_parts<R: RandomSource + Send>(
    chunks: Vec<Vec<Gate>>,
    sources: Vec<R>,
    num_wires: usize,
) -> (out: Vec<Vec<Gate>>)
    requires
        chunks.len() == sources.len(),
        forall|i: int| 0 <= i < chunks.len() ==> gates_fit(#[trigger] chunks[i]@, num_wires as int),
    ensures
        out.len() == chunks.len(),
        forall|i: int| 0 <= i < out.len() ==> (#[trigger] out[i]).len() == chunks[i].len(),
        forall|i: int| 0 <= i < out.len() ==> gates_fit(#[trigger] out[i]@, num_wires as int),
        forall|i: int|
            0 <= i < out.len() ==> equivalent(chunks[i]@, #[trigger] out[i]@, num_wires as int),
{
    chunks.into_par_iter().zip(sources).enumerate().map(
        |(id, (chunk, mut rng))| rearranged(id, chunk, num_wires, &mut rng),
    ).collect()
}

/// The circuit with its gates rearranged: the gates are split into as many
/// parts as the pool has threads, a runner rearranges each part with a
/// source of its own, forked from `rng`, and the parts are put together
/// again.  The circuit that comes out computes what `circuit` computes.
pub fn run_compression_strategy_one<R: RandomSource + Send>(circuit: &Circuit, rng: &mut R) -> (out:
    Circuit)
    requires
        circuit.wf(),
    ensures
        out.wf(),
        out.num_wires == circuit.num_wires,
        out.gates.len() == circuit.gates.len(),
        equivalent(circuit.gates@, out.gates@, circuit.num_wires as int),
        final(rng).replayable() == old(rng).replayable(),
{
    let threads = worker_count();
    let parts = if threads == 0 {
        1
    } else {
        threads
    };
    let chunks = split_into_chunks(&circuit.gates, parts);
    let mut sources: Vec<R> = Vec::new();
    let mut k: usize = 0;
    while k < parts
        invariant
            k <= parts,
            sources.len() == k,
            rng.replayable() == old(rng).replayable(),
        decreases parts - k,
    {
        sources.push(rng.fork());
        k += 1;
    }
    let ghost before = chunks@;
    proof {
        lemma_parts_fit(before, circuit.num_wires as int);
    }
    let done = run_parts(chunks, sources, circuit.num_wires);
    let gates = join_chunks(&done);
    proof {
        lemma_joined_equivalent(before, done@, circuit.num_wires as int);
        lemma_joined_len(before, done@);
        lemma_parts_fit_together(done@, circuit.num_wires as int);
    }
    Circuit { num_wires: circuit.num_wires, gates }
}

} // verus!
