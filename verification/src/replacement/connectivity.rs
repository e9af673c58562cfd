//! Weak connectivity of a block of gates under the collision relation.
use crate::circuit::circuit::{collides, Gate};
use crate::flags::{count_free, lemma_all_free, lemma_count_free_bounds, lemma_count_free_update};
use vstd::prelude::*;

verus! {

/// `path` is a walk through `gates` on which each gate collides with the
/// next.
pub open spec fn is_collision_path(gates: Seq<Gate>, path: Seq<int>) -> bool {
    &&& path.len() >= 1
    &&& forall|k: int| 0 <= k < path.len() ==> 0 <= #[trigger] path[k] < gates.len()
    &&& forall|k: int|
        0 <= k < path.len() - 1 ==> collides(gates[#[trigger] path[k]], gates[path[k + 1]])
}

/// Some walk leads from the first gate to gate `i`.
pub open spec fn connected_to_first(gates: Seq<Gate>, i: int) -> bool {
    exists|path: Seq<int>|
        #[trigger] is_collision_path(gates, path) && path[0] == 0 && path.last() == i
}

/// Every gate can be reached from the first one.
pub open spec fn weakly_connected(gates: Seq<Gate>) -> bool {
    forall|i: int| 0 <= i < gates.len() ==> connected_to_first(gates, i)
}

/// `i` is among the first `top` entries of `stack`.
pub open spec fn on_stack(stack: Seq<usize>, top: int, i: int) -> bool {
    exists|k: int| 0 <= k < top && #[trigger] stack[k] == i
}

/// Every gate that collides with gate `i` is marked in `visited`.
pub open spec fn neighbours_visited(gates: Seq<Gate>, visited: Seq<bool>, i: int) -> bool {
    forall|j: int| 0 <= j < gates.len() && #[trigger] collides(gates[i], gates[j]) ==> visited[j]
}

proof fn lemma_walk_stays_visited(gates: Seq<Gate>, visited: Seq<bool>, path: Seq<int>)
    requires
        visited.len() == gates.len(),
        is_collision_path(gates, path),
        visited[path[0]],
        forall|i: int| 0 <= i < gates.len() && visited[i] ==> neighbours_visited(gates, visited, i),
    ensures
        visited[path.last()],
    decreases path.len(),
{
    if path.len() > 1 {
        let front = path.drop_last();
        assert(is_collision_path(gates, front)) by {
            assert forall|k: int| 0 <= k < front.len() - 1 implies collides(
                gates[#[trigger] front[k]],
                gates[front[k + 1]],
            ) by {
                assert(front[k] == path[k]);
                assert(front[k + 1] == path[k + 1]);
            }
        }
        lemma_walk_stays_visited(gates, visited, front);
        let a = path[path.len() - 2];
        assert(front.last() == a);
        assert(neighbours_visited(gates, visited, a));
        assert(collides(gates[path[path.len() - 2]], gates[path[path.len() - 2 + 1]]));
    }
}

proof fn lemma_extend_walk(gates: Seq<Gate>, from: int, to: int)
    requires
        connected_to_first(gates, from),
        0 <= to < gates.len(),
        0 <= from < gates.len(),
        collides(gates[from], gates[to]),
    ensures
        connected_to_first(gates, to),
{
    let path = choose|path: Seq<int>|
        #[trigger] is_collision_path(gates, path) && path[0] == 0 && path.last() == from;
    let longer = path.push(to);
    assert(is_collision_path(gates, longer)) by {
        assert forall|k: int| 0 <= k < longer.len() - 1 implies collides(
            gates[#[trigger] longer[k]],
            gates[longer[k + 1]],
        ) by {
            if k < path.len() - 1 {
                assert(longer[k] == path[k]);
                assert(longer[k + 1] == path[k + 1]);
            }
        }
    }
    assert(longer[0] == 0 && longer.last() == to);
}

/// Whether every one of the first `n` gates of `circuit` can be reached from
/// the first gate by a walk over colliding gates.
pub fn prefix_is_weakly_connected(circuit: &[Gate], n: usize) -> (r: bool)
    requires
        1 <= n <= circuit.len(),
    ensures
        r == weakly_connected(circuit@.take(n as int)),
{
    let ghost gates = circuit@.take(n as int);
    let mut visited: Vec<bool> = vec![false; n];
    let mut stack: Vec<usize> = vec![0usize; n];
    let mut stack_size: usize = 1;
    let ghost mut popped: int = 0;
    proof {
        lemma_all_free(visited@);
        lemma_count_free_update(visited@, 0);
    }
    visited[0] = true;
    proof {
        let start = seq![0int];
        assert(is_collision_path(gates, start));
        assert(start[0] == 0 && start.last() == 0);
        assert(on_stack(stack@, 1, 0)) by {
            assert(stack@[0] == 0);
        }
    }
    while stack_size > 0
        invariant
            1 <= n <= circuit.len(),
            gates == circuit@.take(n as int),
            visited.len() == n,
            stack.len() == n,
            0 <= popped,
            stack_size + popped == n - count_free(visited@),
            visited[0],
            forall|i: int| 0 <= i < n && visited[i] ==> connected_to_first(gates, i),
            forall|k: int| 0 <= k < stack_size ==> (#[trigger] stack[k]) < n && visited[stack[k] as int],
            forall|i: int|
                0 <= i < n && visited[i] && !on_stack(stack@, stack_size as int, i)
                    ==> neighbours_visited(gates, visited@, i),
        decreases n - popped,
    {
        proof {
            lemma_count_free_bounds(visited@);
        }
        stack_size -= 1;
        let current = stack[stack_size];
        proof {
            popped = popped + 1;
        }
        let mut i: usize = 0;
        while i < n
            invariant
                i <= n,
                1 <= n <= circuit.len(),
                gates == circuit@.take(n as int),
                visited.len() == n,
                stack.len() == n,
                current < n,
                visited[current as int],
                1 <= popped,
                stack_size + popped == n - count_free(visited@),
                visited[0],
                forall|i: int| 0 <= i < n && visited[i] ==> connected_to_first(gates, i),
                forall|k: int|
                    0 <= k < stack_size ==> (#[trigger] stack[k]) < n && visited[stack[k] as int],
                forall|v: int|
                    0 <= v < n && visited[v] && v != current && !on_stack(
                        stack@,
                        stack_size as int,
                        v,
                    ) ==> neighbours_visited(gates, visited@, v),
                forall|j: int|
                    0 <= j < i && #[trigger] collides(gates[current as int], gates[j])
                        ==> visited[j],
            decreases n - i,
        {
            if !visited[i] && circuit[current].collides_with(&circuit[i]) {
                let ghost old_visited = visited@;
                let ghost old_stack = stack@;
                proof {
                    lemma_count_free_update(visited@, i as int);
                    lemma_count_free_bounds(visited@.update(i as int, true));
                    lemma_extend_walk(gates, current as int, i as int);
                }
                visited[i] = true;
                stack[stack_size] = i;
                stack_size += 1;
                proof {
                    assert forall|v: int|
                        0 <= v < n && visited[v] && v != current && !on_stack(
                            stack@,
                            stack_size as int,
                            v,
                        ) implies neighbours_visited(gates, visited@, v) by {
                        assert(stack@[stack_size - 1] == i);
                        assert(v != i);
                        if on_stack(old_stack, stack_size - 1, v) {
                            let k = choose|k: int|
                                0 <= k < stack_size - 1 && #[trigger] old_stack[k] == v;
                            assert(stack@[k] == v);
                        }
                        assert(neighbours_visited(gates, old_visited, v));
                    }
                }
            }
            i += 1;
        }
        proof {
            assert(neighbours_visited(gates, visited@, current as int));
        }
    }
    let mut all = true;
    let mut k: usize = 0;
    while k < n
        invariant
            k <= n,
            visited.len() == n,
            all == forall|j: int| 0 <= j < k ==> visited[j],
        decreases n - k,
    {
        if !visited[k] {
            all = false;
        }
        k += 1;
    }
    proof {
        if all {
            assert(weakly_connected(gates));
        } else {
            let j = choose|j: int| 0 <= j < n && !visited[j];
            if connected_to_first(gates, j) {
                let path = choose|path: Seq<int>|
                    #[trigger] is_collision_path(gates, path) && path[0] == 0 && path.last() == j;
                assert forall|i: int| 0 <= i < gates.len() && visited[i] implies neighbours_visited(
                    gates,
                    visited@,
                    i,
                ) by {
                    assert(!on_stack(stack@, 0, i));
                }
                lemma_walk_stays_visited(gates, visited@, path);
            }
        }
    }
    all
}

/// Whether every one of the first `N` gates of `circuit` can be reached from
/// the first gate by a walk over colliding gates.
pub fn is_weakly_connected<const N: usize>(circuit: &[Gate]) -> (r: bool)
    requires
        1 <= N <= circuit.len(),
    ensures
        r == weakly_connected(circuit@.take(N as int)),
{
    prefix_is_weakly_connected(circuit, N)
}

} // verus!
