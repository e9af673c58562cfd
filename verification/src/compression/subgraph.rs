//! Which gates depend on which, and the permutation around a set of gates
//! that the dependencies allow.
use crate::circuit::analysis::position_of;
use crate::circuit::circuit::{collides, gates_fit, run_gates, Gate};
use crate::circuit::semantics::{
    equivalent, lemma_commute, lemma_run_gates_concat, lemma_run_gates_len, lemma_run_single,
};
use crate::flags::lists_exactly;
use crate::local_mixing::convex::{is_selection, selected, tainted};
use crate::local_mixing::permute::{block_start, chosen, part, permuted, Place};
use crate::random::RandomSource;
use vstd::prelude::*;

verus! {

/// Gate `j` depends on gate `i`: a chain of collisions leads from `i`
/// through later and later gates to `j`.
pub open spec fn depends(gates: Seq<Gate>, i: int, j: int) -> bool
    decreases j,
{
    &&& 0 <= i < j < gates.len()
    &&& (collides(gates[i], gates[j]) || exists|k: int|
        i < k < j && depends(gates, i, k) && #[trigger] collides(gates[k], gates[j]))
}

/// For each gate, the gates that depend on it and those on which it
/// depends.
pub struct DependencyData {
    pub successors: Vec<Vec<usize>>,
    pub predecessors: Vec<Vec<usize>>,
}

impl DependencyData {
    /// The lists are those of `gates`, each in increasing order.
    pub open spec fn describes(&self, gates: Seq<Gate>) -> bool {
        &&& self.successors.len() == gates.len()
        &&& self.predecessors.len() == gates.len()
        &&& forall|i: int|
            0 <= i < gates.len() ==> lists_exactly(
                (#[trigger] self.successors[i])@,
                gates.len() as int,
                |j: usize| depends(gates, i, j as int),
            )
        &&& forall|j: int|
            0 <= j < gates.len() ==> lists_exactly(
                (#[trigger] self.predecessors[j])@,
                gates.len() as int,
                |i: usize| depends(gates, i as int, j),
            )
    }
}

/// Whether `gates[j]` collides with one of the gates at the places `list`.
fn collides_with_listed(gates: &[Gate], list: &Vec<usize>, j: usize) -> (r: bool)
    requires
        j < gates.len(),
        forall|a: int| 0 <= a < list.len() ==> list[a] < gates.len(),
    ensures
        r == exists|a: int|
            0 <= a < list.len() && collides(gates@[#[trigger] list[a] as int], gates@[j as int]),
{
    let mut a: usize = 0;
    while a < list.len()
        invariant
            a <= list.len(),
            j < gates.len(),
            forall|b: int| 0 <= b < list.len() ==> list[b] < gates.len(),
            forall|b: int|
                0 <= b < a ==> !collides(gates@[#[trigger] list[b] as int], gates@[j as int]),
        decreases list.len() - a,
    {
        if gates[list[a]].collides_with(&gates[j]) {
            return true;
        }
        a += 1;
    }
    false
}

/// The gates that depend on gate `i`, in increasing order.
fn successors_of(gates: &[Gate], i: usize) -> (list: Vec<usize>)
    requires
        i < gates.len(),
    ensures
        lists_exactly(list@, gates.len() as int, |j: usize| depends(gates@, i as int, j as int)),
{
    let n = gates.len();
    let mut list: Vec<usize> = Vec::new();
    let mut j: usize = i + 1;
    while j < n
        invariant
            i < j <= n,
            n == gates.len(),
            forall|a: int, b: int| 0 <= a < b < list.len() ==> list[a] < list[b],
            forall|a: int| 0 <= a < list.len() ==> list[a] < j,
            forall|k: usize| list@.contains(k) <==> k < j && depends(gates@, i as int, k as int),
        decreases n - j,
    {
        let direct = gates[i].collides_with(&gates[j]);
        let through = collides_with_listed(gates, &list, j);
        let ghost before = list@;
        proof {
            if through {
                let a = choose|a: int|
                    0 <= a < list.len() && collides(
                        gates@[#[trigger] list[a] as int],
                        gates@[j as int],
                    );
                assert(list@.contains(list@[a]));
                assert(depends(gates@, i as int, list[a] as int));
            }
            if depends(gates@, i as int, j as int) && !direct {
                let k = choose|k: int|
                    i < k < j && depends(gates@, i as int, k) && #[trigger] collides(
                        gates@[k],
                        gates@[j as int],
                    );
                assert(list@.contains(k as usize));
                let a = choose|a: int| 0 <= a < list.len() && list@[a] == k as usize;
                assert(collides(gates@[list[a] as int], gates@[j as int]));
            }
        }
        if direct || through {
            list.push(j);
        }
        proof {
            assert forall|k: usize| list@.contains(k) <==> k < j + 1 && depends(
                gates@,
                i as int,
                k as int,
            ) by {
                if before.contains(k) {
                    let a = choose|a: int| 0 <= a < before.len() && before[a] == k;
                    assert(list@[a] == k);
                }
                if (direct || through) && k == j {
                    assert(list@[list.len() - 1] == k);
                }
                if list@.contains(k) {
                    let a = choose|a: int| 0 <= a < list.len() && list@[a] == k;
                    if a < before.len() {
                        assert(before[a] == k);
                        assert(before.contains(k));
                    }
                }
            }
        }
        j += 1;
    }
    list
}

/// For each gate of `gates`, the gates that depend on it and the gates on
/// which it depends.
pub fn dependency_data(gates: &[Gate]) -> (data: DependencyData)
    ensures
        data.describes(gates@),
{
    let n = gates.len();
    let mut successors: Vec<Vec<usize>> = Vec::new();
    let mut i: usize = 0;
    while i < n
        invariant
            i <= n,
            n == gates.len(),
            successors.len() == i,
            forall|k: int|
                0 <= k < i ==> lists_exactly(
                    (#[trigger] successors[k])@,
                    n as int,
                    |j: usize| depends(gates@, k, j as int),
                ),
        decreases n - i,
    {
        successors.push(successors_of(gates, i));
        i += 1;
    }
    let mut predecessors: Vec<Vec<usize>> = Vec::new();
    let mut j: usize = 0;
    while j < n
        invariant
            j <= n,
            n == gates.len(),
            successors.len() == n,
            predecessors.len() == j,
            forall|k: int|
                0 <= k < n ==> lists_exactly(
                    (#[trigger] successors[k])@,
                    n as int,
                    |m: usize| depends(gates@, k, m as int),
                ),
            forall|k: int|
                0 <= k < j ==> lists_exactly(
                    (#[trigger] predecessors[k])@,
                    n as int,
                    |m: usize| depends(gates@, m as int, k),
                ),
        decreases n - j,
    {
        let mut list: Vec<usize> = Vec::new();
        let mut i: usize = 0;
        while i < j
            invariant
                i <= j < n,
                n == gates.len(),
                successors.len() == n,
                forall|k: int|
                    0 <= k < n ==> lists_exactly(
                        (#[trigger] successors[k])@,
                        n as int,
                        |m: usize| depends(gates@, k, m as int),
                    ),
                forall|a: int, b: int| 0 <= a < b < list.len() ==> list[a] < list[b],
                forall|a: int| 0 <= a < list.len() ==> list[a] < i,
                forall|k: usize| list@.contains(k) <==> k < i && depends(gates@, k as int, j as int),
            decreases j - i,
        {
            let ghost before = list@;
            let found = position_of(&successors[i], j);
            let on = found.is_some();
            proof {
                let wanted = |m: usize| depends(gates@, i as int, m as int);
                assert(lists_exactly(successors[i as int]@, n as int, wanted));
                assert(successors[i as int]@.contains(j) <==> (j < n && wanted(j)));
                if found is Some {
                    assert(successors[i as int]@[found->0 as int] == j);
                }
                assert(on == depends(gates@, i as int, j as int));
            }
            if on {
                list.push(i);
            }
            proof {
                assert forall|k: usize| list@.contains(k) <==> k < i + 1 && depends(
                    gates@,
                    k as int,
                    j as int,
                ) by {
                    if before.contains(k) {
                        let a = choose|a: int| 0 <= a < before.len() && before[a] == k;
                        assert(list@[a] == k);
                    }
                    if on && k == i {
                        assert(list@[list.len() - 1] == k);
                    }
                    if list@.contains(k) {
                        let a = choose|a: int| 0 <= a < list.len() && list@[a] == k;
                        if a < before.len() {
                            assert(before[a] == k);
                            assert(before.contains(k));
                        }
                    }
                }
            }
            i += 1;
        }
        predecessors.push(list);
        j += 1;
    }
    DependencyData { successors, predecessors }
}

/// A gate that is not selected depends on the selection exactly if it
/// depends on a selected gate.
pub proof fn lemma_tainted_depends(gates: Seq<Gate>, sel: Seq<usize>, j: int)
    requires
        0 <= j < gates.len(),
        !selected(sel, j),
    ensures
        tainted(gates, sel, j) <==> exists|k: int|
            0 <= k < sel.len() && depends(gates, #[trigger] sel[k] as int, j),
    decreases j,
{
    if tainted(gates, sel, j) {
        let d = choose|d: int|
            0 <= d < j && (selected(sel, d) || tainted(gates, sel, d)) && #[trigger] collides(
                gates[d],
                gates[j],
            );
        if selected(sel, d) {
            let k = choose|k: int| 0 <= k < sel.len() && #[trigger] sel[k] == d;
            assert(depends(gates, sel[k] as int, j));
        } else {
            lemma_tainted_depends(gates, sel, d);
            let k = choose|k: int|
                0 <= k < sel.len() && depends(gates, #[trigger] sel[k] as int, d);
            assert(depends(gates, sel[k] as int, j));
        }
    }
    if exists|k: int| 0 <= k < sel.len() && depends(gates, #[trigger] sel[k] as int, j) {
        let k = choose|k: int| 0 <= k < sel.len() && depends(gates, #[trigger] sel[k] as int, j);
        let s = sel[k] as int;
        assert(selected(sel, s));
        if collides(gates[s], gates[j]) {
        } else {
            let m = choose|m: int|
                s < m < j && depends(gates, s, m) && #[trigger] collides(gates[m], gates[j]);
            if !selected(sel, m) {
                lemma_tainted_depends(gates, sel, m);
                assert(tainted(gates, sel, m));
            }
        }
    }
}

/// Whether gate `j` depends on one of the first `seen` selected gates.
fn depends_on_selected(
    gates: &[Gate],
    subgraph: &Vec<usize>,
    dependency_data: &DependencyData,
    seen: usize,
    j: usize,
) -> (r: bool)
    requires
        dependency_data.describes(gates@),
        seen <= subgraph.len(),
        j < gates.len(),
    ensures
        r == exists|k: int| 0 <= k < seen && depends(gates@, #[trigger] subgraph[k] as int, j as int),
{
    let mut k: usize = 0;
    while k < seen
        invariant
            k <= seen <= subgraph.len(),
            j < gates.len(),
            dependency_data.describes(gates@),
            forall|m: int| 0 <= m < k ==> !depends(gates@, #[trigger] subgraph[m] as int, j as int),
        decreases seen - k,
    {
        let found = position_of(&dependency_data.predecessors[j], subgraph[k]);
        proof {
            let wanted = |i: usize| depends(gates@, i as int, j as int);
            let list = dependency_data.predecessors[j as int]@;
            assert(lists_exactly(list, gates@.len() as int, wanted));
            assert(list.contains(subgraph[k as int]) <==> (subgraph[k as int] < gates@.len()
                && wanted(subgraph[k as int])));
            if found is Some {
                assert(list[found->0 as int] == subgraph[k as int]);
            }
        }
        if found.is_some() {
            return true;
        }
        k += 1;
    }
    false
}

/// The gates with the gates of `subgraph` moved into one block: of the
/// gates between them, those that depend on a selected gate go behind the
/// block and the others ahead of it.  Returns the gates and the place
/// where the block begins.
pub fn permute_around_subgraph(
    gates: &[Gate],
    subgraph: &Vec<usize>,
    dependency_data: &DependencyData,
) -> (res: (Vec<Gate>, usize))
    requires
        is_selection(subgraph@, gates.len() as int),
        dependency_data.describes(gates@),
    ensures
        res.0@ == permuted(gates@, subgraph@),
        res.1 == block_start(gates@, subgraph@),
{
    let first = subgraph[0];
    let last = subgraph[subgraph.len() - 1];
    let mut to_before: Vec<Gate> = Vec::new();
    let mut selected_gates: Vec<Gate> = Vec::new();
    let mut to_after: Vec<Gate> = Vec::new();
    let mut seen: usize = 0;
    let mut j: usize = first;
    proof {
        assert(subgraph[0] <= subgraph@.last());
    }
    while j <= last
        invariant
            is_selection(subgraph@, gates.len() as int),
            dependency_data.describes(gates@),
            first == subgraph[0],
            last == subgraph@.last(),
            first <= j <= last + 1,
            seen <= subgraph.len(),
            j <= last ==> seen < subgraph.len(),
            forall|k: int| 0 <= k < seen ==> subgraph[k] < j,
            seen < subgraph.len() ==> j <= subgraph[seen as int],
            to_before@ == part(gates@, subgraph@, first as int, j as int, Place::Ahead),
            selected_gates@ == part(gates@, subgraph@, first as int, j as int, Place::Block),
            to_after@ == part(gates@, subgraph@, first as int, j as int, Place::Behind),
        decreases last + 1 - j,
    {
        if j == subgraph[seen] {
            proof {
                assert(selected(subgraph@, j as int));
                if seen + 1 < subgraph.len() {
                    assert(subgraph[seen as int] < subgraph[seen + 1]);
                }
            }
            selected_gates.push(gates[j]);
            seen += 1;
        } else {
            proof {
                assert(!selected(subgraph@, j as int)) by {
                    if selected(subgraph@, j as int) {
                        let k = choose|k: int| 0 <= k < subgraph.len() && #[trigger] subgraph[k] == j;
                        if k > seen {
                            assert(subgraph[seen as int] < subgraph[k]);
                        }
                    }
                }
                lemma_tainted_depends(gates@, subgraph@, j as int);
            }
            let after = depends_on_selected(gates, subgraph, dependency_data, seen, j);
            proof {
                if tainted(gates@, subgraph@, j as int) {
                    let k = choose|k: int|
                        0 <= k < subgraph.len() && depends(
                            gates@,
                            #[trigger] subgraph[k] as int,
                            j as int,
                        );
                    if k >= seen {
                        assert(subgraph[seen as int] <= subgraph[k]);
                    }
                }
            }
            if after {
                to_after.push(gates[j]);
            } else {
                to_before.push(gates[j]);
            }
        }
        j += 1;
    }
    let mut permuted_gates: Vec<Gate> = Vec::new();
    let mut k: usize = 0;
    while k < first
        invariant
            k <= first < gates.len(),
            permuted_gates@ == gates@.take(k as int),
        decreases first - k,
    {
        permuted_gates.push(gates[k]);
        proof {
            assert(gates@.take(k + 1) == gates@.take(k as int).push(gates@[k as int]));
        }
        k += 1;
    }
    proof {
        crate::local_mixing::permute::lemma_part_members(
            gates@,
            subgraph@,
            first as int,
            last + 1,
            Place::Ahead,
        );
    }
    let start = first + to_before.len();
    let ghost front = permuted_gates@;
    permuted_gates.append(&mut to_before);
    permuted_gates.append(&mut selected_gates);
    permuted_gates.append(&mut to_after);
    let ghost middle = permuted_gates@;
    let mut k: usize = last + 1;
    while k < gates.len()
        invariant
            last < k <= gates.len(),
            permuted_gates@ == middle + gates@.subrange(last + 1, k as int),
        decreases gates.len() - k,
    {
        permuted_gates.push(gates[k]);
        proof {
            assert(gates@.subrange(last + 1, k + 1) == gates@.subrange(last + 1, k as int).push(
                gates@[k as int],
            ));
        }
        k += 1;
    }
    proof {
        assert(gates@.subrange(last + 1, gates.len() as int) == gates@.skip(last + 1));
        assert(permuted_gates@ =~= permuted(gates@, subgraph@));
    }
    (permuted_gates, start)
}

/// The sequence with the items at `i` and `i + 1` exchanged.
pub open spec fn exchanged_neighbours<T>(s: Seq<T>, i: int) -> Seq<T> {
    s.update(i, s[i + 1]).update(i + 1, s[i])
}

/// Two gates next to each other that do not collide may change places:
/// the circuit computes what it did.
pub proof fn lemma_exchange_keeps_function(gates: Seq<Gate>, i: int, num_wires: int)
    requires
        0 <= i < gates.len() - 1,
        gates_fit(gates, num_wires),
        !collides(gates[i], gates[i + 1]),
    ensures
        equivalent(gates, exchanged_neighbours(gates, i), num_wires),
        gates_fit(exchanged_neighbours(gates, i), num_wires),
{
    let other = exchanged_neighbours(gates, i);
    let before = gates.take(i);
    let after = gates.skip(i + 2);
    let g = gates[i];
    let h = gates[i + 1];
    assert(gates =~= before + seq![g] + seq![h] + after);
    assert(other =~= before + seq![h] + seq![g] + after);
    assert(gates_fit(before, num_wires)) by {
        assert forall|k: int| 0 <= k < before.len() implies (#[trigger] before[k]).fits(
            num_wires,
        ) by {
            assert(before[k] == gates[k]);
        }
    }
    assert forall|s: Seq<bool>| s.len() == num_wires implies #[trigger] run_gates(gates, s)
        == run_gates(other, s) by {
        lemma_run_gates_len(before, s);
        let mid = run_gates(before, s);
        lemma_run_gates_concat(before, seq![g], s);
        lemma_run_gates_concat(before + seq![g], seq![h], s);
        lemma_run_gates_concat(before + seq![g] + seq![h], after, s);
        lemma_run_gates_concat(before, seq![h], s);
        lemma_run_gates_concat(before + seq![h], seq![g], s);
        lemma_run_gates_concat(before + seq![h] + seq![g], after, s);
        lemma_run_single(g, mid);
        lemma_run_single(h, mid);
        lemma_run_single(h, run_gates(seq![g], mid));
        lemma_run_single(g, run_gates(seq![h], mid));
        lemma_commute(g, h, mid);
    }
    assert forall|k: int| 0 <= k < other.len() implies (#[trigger] other[k]).fits(num_wires) by {
        if k == i {
            assert(other[k] == gates[i + 1]);
        } else if k == i + 1 {
            assert(other[k] == gates[i]);
        } else {
            assert(other[k] == gates[k]);
        }
    }
}

/// The gates after one pass from place `i` on, with a replayable source,
/// and the source after it: at each place the source draws a coin, and two
/// neighbours that do not collide change places where it shows one.
pub open spec fn passed_over<R: RandomSource>(gates: Seq<Gate>, i: int, rng: R) -> (Seq<Gate>, R)
    decreases gates.len() - i,
{
    if i < 0 || i + 1 >= gates.len() {
        (gates, rng)
    } else if rng.next_draw(2) == 1 && !collides(gates[i], gates[i + 1]) {
        passed_over(exchanged_neighbours(gates, i), i + 1, rng.after_draw(2))
    } else {
        passed_over(gates, i + 1, rng.after_draw(2))
    }
}

/// The gates after `iterations` passes with a replayable source, and the
/// source after them.  Fewer than two gates are left as they are.
pub open spec fn shuffled_pairwise<R: RandomSource>(gates: Seq<Gate>, iterations: nat, rng: R) -> (
    Seq<Gate>,
    R,
)
    decreases iterations,
{
    if iterations == 0 || gates.len() < 2 {
        (gates, rng)
    } else {
        let once = passed_over(gates, 0, rng);
        shuffled_pairwise(once.0, (iterations - 1) as nat, once.1)
    }
}

/// Passes `iterations` times over the gates and, at each place, tosses a
/// coin on whether two neighbours that do not collide change places.  The
/// gates compute what they did.  With a replayable source the gates and
/// the source are left as `shuffled_pairwise` says.
pub fn shuffle_gates_pairwise<R: RandomSource>(
    gates: &mut Vec<Gate>,
    iterations: usize,
    num_wires: usize,
    rng: &mut R,
)
    requires
        gates_fit(old(gates)@, num_wires as int),
    ensures
        final(gates).len() == old(gates).len(),
        gates_fit(final(gates)@, num_wires as int),
        final(gates)@.to_multiset() == old(gates)@.to_multiset(),
        equivalent(old(gates)@, final(gates)@, num_wires as int),
        iterations == 0 ==> final(gates)@ == old(gates)@,
        final(rng).replayable() == old(rng).replayable(),
        old(rng).replayable() ==> (final(gates)@, *final(rng)) == shuffled_pairwise(
            old(gates)@,
            iterations as nat,
            *old(rng),
        ),
{
    proof {
        crate::circuit::semantics::lemma_equivalent_is_equivalence(
            gates@,
            gates@,
            gates@,
            num_wires as int,
        );
    }
    if gates.len() < 2 {
        return ;
    }
    let mut pass: usize = 0;
    while pass < iterations
        invariant
            pass <= iterations,
            gates.len() == old(gates).len(),
            gates.len() >= 2,
            gates_fit(gates@, num_wires as int),
            gates@.to_multiset() == old(gates)@.to_multiset(),
            equivalent(old(gates)@, gates@, num_wires as int),
            pass == 0 ==> gates@ == old(gates)@,
            rng.replayable() == old(rng).replayable(),
            old(rng).replayable() ==> shuffled_pairwise(old(gates)@, iterations as nat, *old(rng))
                == shuffled_pairwise(gates@, (iterations - pass) as nat, *rng),
        decreases iterations - pass,
    {
        let ghost start = gates@;
        let ghost source = *rng;
        let mut i: usize = 0;
        while i < gates.len() - 1
            invariant
                i <= gates.len() - 1,
                gates.len() == old(gates).len(),
                gates.len() >= 2,
                gates_fit(gates@, num_wires as int),
                gates@.to_multiset() == old(gates)@.to_multiset(),
                equivalent(old(gates)@, gates@, num_wires as int),
                rng.replayable() == old(rng).replayable(),
                old(rng).replayable() ==> passed_over(start, 0, source) == passed_over(
                    gates@,
                    i as int,
                    *rng,
                ),
            decreases gates.len() - 1 - i,
        {
            let coin = rng.below(2) == 1;
            if coin && !gates[i].collides_with(&gates[i + 1]) {
                let ghost before = gates@;
                let g = gates[i];
                let h = gates[i + 1];
                gates[i] = h;
                gates[i + 1] = g;
                proof {
                    assert(gates@ =~= exchanged_neighbours(before, i as int));
                    lemma_exchange_keeps_function(before, i as int, num_wires as int);
                    crate::circuit::semantics::lemma_equivalent_is_equivalence(
                        old(gates)@,
                        before,
                        gates@,
                        num_wires as int,
                    );
                    crate::replacement::permutations::lemma_switched_keeps_items(
                        before,
                        true,
                        i as int,
                        i + 1,
                    );
                    assert(gates@ =~= crate::replacement::permutations::switched(
                        before,
                        true,
                        i as int,
                        i + 1,
                    ));
                }
            }
            i += 1;
        }
        pass += 1;
    }
}

/// The list is in increasing order and its items are below `bound`.
pub open spec fn increasing_below(list: Seq<usize>, bound: int) -> bool {
    &&& forall|a: int, b: int| 0 <= a < b < list.len() ==> list[a] < list[b]
    &&& forall|a: int| 0 <= a < list.len() ==> list[a] < bound
}

/// Every item of the list is below `bound`.
pub open spec fn all_below(list: Seq<usize>, bound: int) -> bool {
    forall|a: int| 0 <= a < list.len() ==> list[a] < bound
}

/// The list with `v` at its place in the order, unless it is there
/// already.
fn insert_sorted(list: &Vec<usize>, v: usize) -> (out: Vec<usize>)
    ensures
        forall|bound: int|
            increasing_below(list@, bound) && v < bound ==> increasing_below(out@, bound),
        list.len() <= out.len() <= list.len() + 1,
{
    let mut p: usize = 0;
    while p < list.len() && list[p] < v
        invariant
            p <= list.len(),
            forall|a: int| 0 <= a < p ==> list[a] < v,
        decreases list.len() - p,
    {
        p += 1;
    }
    let mut out = list.clone();
    if p < list.len() && list[p] == v {
        return out;
    }
    out.insert(p, v);
    proof {
        assert forall|bound: int| increasing_below(list@, bound) && v < bound implies increasing_below(
            out@,
            bound,
        ) by {
            assert forall|a: int, b: int| 0 <= a < b < out.len() implies out[a] < out[b] by {
                if b < p {
                    assert(out[a] == list[a] && out[b] == list[b]);
                } else if b == p {
                    assert(out[a] == list[a]);
                } else if a < p {
                    assert(out[a] == list[a] && out[b] == list[b - 1]);
                    if p < list.len() {
                        assert(list[p as int] <= list[b - 1]);
                    }
                } else if a == p {
                    assert(out[b] == list[b - 1]);
                    assert(list[p as int] <= list[b - 1]);
                } else {
                    assert(out[a] == list[a - 1] && out[b] == list[b - 1]);
                }
            }
            assert forall|a: int| 0 <= a < out.len() implies out[a] < bound by {
                if a < p {
                    assert(out[a] == list[a]);
                } else if a > p {
                    assert(out[a] == list[a - 1]);
                }
            }
        }
    }
    out
}

/// The list without the first place at which `v` stands.
fn without(list: &Vec<usize>, v: usize) -> (out: Vec<usize>)
    ensures
        out.len() == list.len() || out.len() + 1 == list.len(),
        forall|bound: int| all_below(list@, bound) ==> all_below(out@, bound),
{
    let mut out = list.clone();
    match position_of(list, v) {
        Some(p) => {
            out.remove(p);
            proof {
                assert forall|bound: int| all_below(list@, bound) implies all_below(out@, bound) by {
                    assert forall|a: int| 0 <= a < out.len() implies out[a] < bound by {
                        if a < p {
                            assert(out[a] == list[a]);
                        } else {
                            assert(out[a] == list[a + 1]);
                        }
                    }
                }
            }
        },
        None => {},
    }
    out
}

/// The items of `list` that are not in `dropped`, in their order.
pub open spec fn kept(list: Seq<usize>, dropped: Seq<usize>) -> Seq<usize>
    decreases list.len(),
{
    if list.len() == 0 {
        Seq::empty()
    } else if dropped.contains(list.last()) {
        kept(list.drop_last(), dropped)
    } else {
        kept(list.drop_last(), dropped).push(list.last())
    }
}

/// The items of `list` that are not in `dropped`, in their order.
fn without_listed(list: &Vec<usize>, dropped: &Vec<usize>) -> (out: Vec<usize>)
    ensures
        out@ == kept(list@, dropped@),
        out.len() <= list.len(),
        forall|bound: int| all_below(list@, bound) ==> all_below(out@, bound),
{
    let mut out: Vec<usize> = Vec::new();
    let mut i: usize = 0;
    while i < list.len()
        invariant
            i <= list.len(),
            out.len() <= i,
            out@ == kept(list@.take(i as int), dropped@),
            forall|a: int| 0 <= a < out.len() ==> list@.contains(#[trigger] out[a]),
        decreases list.len() - i,
    {
        proof {
            assert(list@.take(i + 1).drop_last() == list@.take(i as int));
            assert(list@.take(i + 1).last() == list@[i as int]);
        }
        if position_of(dropped, list[i]).is_none() {
            let ghost before = out@;
            out.push(list[i]);
            proof {
                assert forall|a: int| 0 <= a < out.len() implies list@.contains(#[trigger] out[a]) by {
                    if a < before.len() {
                        assert(out[a] == before[a]);
                    } else {
                        assert(list@[i as int] == out[a]);
                    }
                }
            }
        }
        i += 1;
    }
    proof {
        assert(list@.take(list.len() as int) == list@);
        assert forall|bound: int| all_below(list@, bound) implies all_below(out@, bound) by {
            assert forall|a: int| 0 <= a < out.len() implies out[a] < bound by {
                assert(list@.contains(out[a]));
                let k = choose|k: int| 0 <= k < list.len() && list@[k] == out[a];
            }
        }
    }
    out
}

/// The gates of `gates` at the places `ids`.
fn gates_at(gates: &[Gate], ids: &Vec<usize>) -> (block: Vec<Gate>)
    requires
        all_below(ids@, gates.len() as int),
    ensures
        block@ == chosen(gates@, ids@),
{
    let mut block: Vec<Gate> = Vec::new();
    let mut k: usize = 0;
    while k < ids.len()
        invariant
            k <= ids.len(),
            all_below(ids@, gates.len() as int),
            block@ == chosen(gates@, ids@).take(k as int),
        decreases ids.len() - k,
    {
        block.push(gates[ids[k]]);
        proof {
            assert(chosen(gates@, ids@).take(k + 1) == chosen(gates@, ids@).take(k as int).push(
                gates@[ids[k as int] as int],
            ));
        }
        k += 1;
    }
    proof {
        assert(chosen(gates@, ids@).take(k as int) == chosen(gates@, ids@));
    }
    block
}

/// Whether an item of `x` before `v` collides with gate `v`: an item of
/// the run of items below `v` with which the list begins.
fn follows_member(gates: &[Gate], x: &Vec<usize>, v: usize) -> (r: bool)
    requires
        all_below(x@, gates.len() as int),
        v < gates.len(),
    ensures
        r == exists|j: int|
            0 <= j < x.len() && (forall|k: int| 0 <= k <= j ==> x[k] < v) && collides(
                gates@[#[trigger] x[j] as int],
                gates@[v as int],
            ),
{
    let mut j: usize = 0;
    while j < x.len()
        invariant
            j <= x.len(),
            all_below(x@, gates.len() as int),
            v < gates.len(),
            forall|k: int| 0 <= k < j ==> x[k] < v,
            forall|k: int|
                0 <= k < j ==> !collides(gates@[#[trigger] x[k] as int], gates@[v as int]),
        decreases x.len() - j,
    {
        if x[j] >= v {
            return false;
        }
        if gates[x[j]].collides_with(&gates[v]) {
            return true;
        }
        j += 1;
    }
    false
}

/// Whether an item of `x` behind `v` collides with gate `other`: an item
/// of the run of items above `v` with which the list ends.  It does not
/// where there is no gate `other`.
fn precedes_member(gates: &[Gate], x: &Vec<usize>, v: usize, other: usize) -> (r: bool)
    requires
        all_below(x@, gates.len() as int),
    ensures
        r == (other < gates.len() && exists|j: int|
            0 <= j < x.len() && (forall|k: int| j <= k < x.len() ==> x[k] > v) && collides(
                gates@[#[trigger] x[j] as int],
                gates@[other as int],
            )),
{
    let mut j: usize = x.len();
    while j > 0
        invariant
            j <= x.len(),
            all_below(x@, gates.len() as int),
            forall|k: int| j <= k < x.len() ==> x[k] > v,
            other < gates.len() ==> forall|k: int|
                j <= k < x.len() ==> !collides(gates@[#[trigger] x[k] as int], gates@[other as int]),
        decreases j,
    {
        j -= 1;
        if x[j] <= v {
            return false;
        }
        if other < gates.len() && gates[x[j]].collides_with(&gates[other]) {
            return true;
        }
    }
    false
}

/// Grows the set `x` of gates to `subset_size` gates, by gates of `y` that
/// collide with a gate of the set: first by gates behind such a gate, then
/// by gates ahead of one.  A gate that was tried in vain is not tried
/// again, nor are the gates that depend on it, or on which it depends.
/// Returns the first set that is found, in increasing order, with its
/// gates.
fn df(
    gates: &[Gate],
    dependency_data: &DependencyData,
    x: &Vec<usize>,
    y: &Vec<usize>,
    subset_size: usize,
    slice_size: usize,
) -> (res: Option<(Vec<usize>, Vec<Gate>)>)
    requires
        dependency_data.describes(gates@),
        x.len() >= 1,
        increasing_below(x@, gates.len() as int),
        all_below(y@, gates.len() as int),
    ensures
        x.len() == subset_size ==> res is Some,
        x.len() == subset_size ==> (res matches Some(found) && found.0@ == x@),
        res matches Some(found) ==> {
            &&& found.0.len() == subset_size
            &&& is_selection(found.0@, gates.len() as int)
            &&& found.1@ == chosen(gates@, found.0@)
        },
    decreases y.len(),
{
    if x.len() == subset_size {
        let ids = x.clone();
        let block = gates_at(gates, &ids);
        return Some((ids, block));
    }
    let mut rest = y.clone();

    let mut a: Vec<usize> = Vec::new();
    let mut i: usize = 0;
    while i < rest.len()
        invariant
            i <= rest.len(),
            all_below(x@, gates.len() as int),
            all_below(rest@, gates.len() as int),
            rest.len() <= y.len(),
            all_below(a@, gates.len() as int),
        decreases rest.len() - i,
    {
        if follows_member(gates, x, rest[i]) {
            a.push(rest[i]);
        }
        i += 1;
    }
    let mut a_ctr: usize = 0;
    while a_ctr < a.len()
        invariant
            dependency_data.describes(gates@),
            x.len() >= 1,
            x.len() != subset_size,
            increasing_below(x@, gates.len() as int),
            all_below(rest@, gates.len() as int),
            rest.len() <= y.len(),
            all_below(a@, gates.len() as int),
        decreases
                (if a_ctr < a.len() {
                    a.len() - a_ctr
                } else {
                    0
                }),
    {
        let v = a[a_ctr];
        let eval_x = insert_sorted(x, v);
        let fewer = without(&rest, v);
        if fewer.len() < rest.len() {
            rest = fewer;
            let res = df(gates, dependency_data, &eval_x, &rest, subset_size, slice_size);
            if res.is_some() {
                return res;
            }
        }
        a = without_listed(&a, &dependency_data.successors[v]);
        rest = without_listed(&rest, &dependency_data.successors[v]);
        a_ctr += 1;
    }
    let mut b: Vec<usize> = Vec::new();
    let mut i: usize = rest.len();
    while i > 0
        invariant
            i <= rest.len(),
            all_below(x@, gates.len() as int),
            all_below(rest@, gates.len() as int),
            rest.len() <= y.len(),
            all_below(b@, gates.len() as int),
        decreases i,
    {
        i -= 1;
        if precedes_member(gates, x, rest[i], i) {
            b.push(rest[i]);
        }
    }
    let mut b_ctr: usize = 0;
    while b_ctr < b.len()
        invariant
            dependency_data.describes(gates@),
            x.len() >= 1,
            x.len() != subset_size,
            increasing_below(x@, gates.len() as int),
            all_below(rest@, gates.len() as int),
            rest.len() <= y.len(),
            all_below(b@, gates.len() as int),
        decreases
                (if b_ctr < b.len() {
                    b.len() - b_ctr
                } else {
                    0
                }),
    {
        let v = b[b_ctr];
        let eval_x = insert_sorted(x, v);
        let fewer = without(&rest, v);
        if fewer.len() < rest.len() {
            rest = fewer;
            let res = df(gates, dependency_data, &eval_x, &rest, subset_size, slice_size);
            if res.is_some() {
                return res;
            }
        }
        b = without_listed(&b, &dependency_data.predecessors[v]);
        rest = without_listed(&rest, &dependency_data.predecessors[v]);
        b_ctr += 1;
    }
    None
}

/// Searches for a set of `subset_size` gates that hang together by
/// collisions: for each gate in turn, the set of this gate alone is grown
/// by later gates.  Returns the first set that is found, in increasing
/// order, with its gates.  `slice_size` is the size of the parts of such a
/// set that a compression would look at.
pub fn enumerate_subgraphs(
    gates: &[Gate],
    dependency_data: &DependencyData,
    subset_size: usize,
    slice_size: usize,
) -> (res: Option<(Vec<usize>, Vec<Gate>)>)
    requires
        dependency_data.describes(gates@),
    ensures
        gates.len() == 0 ==> res is None,
        gates.len() > 0 && subset_size == 1 ==> res is Some,
        gates.len() > 0 && subset_size == 1 ==> (res matches Some(found) && found.0@
            == seq![0usize]),
        res matches Some(found) ==> {
            &&& found.0.len() == subset_size
            &&& is_selection(found.0@, gates.len() as int)
            &&& found.1@ == chosen(gates@, found.0@)
        },
{
    let n = gates.len();
    let mut i: usize = 0;
    while i < n
        invariant
            i <= n,
            n == gates.len(),
            dependency_data.describes(gates@),
            subset_size == 1 ==> i == 0,
        decreases n - i,
    {
        let mut x: Vec<usize> = Vec::new();
        x.push(i);
        let mut y: Vec<usize> = Vec::new();
        let mut j: usize = i + 1;
        while j < n
            invariant
                i < j <= n,
                all_below(y@, n as int),
            decreases n - j,
        {
            y.push(j);
            j += 1;
        }
        proof {
            assert(x@ =~= seq![i]);
        }
        let res = df(gates, dependency_data, &x, &y, subset_size, slice_size);
        if res.is_some() {
            return res;
        }
        i += 1;
    }
    None
}

} // verus!
