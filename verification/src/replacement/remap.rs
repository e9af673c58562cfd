//! The way back from the local wires of a candidate to the wires of the
//! circuit.
use crate::circuit::analysis::{lemma_wire_seq_push, wire_seq};
use crate::circuit::circuit::Gate;
use crate::flags::{cleared, count_free, lemma_count_free_bounds, lemma_count_free_update, mark};
use crate::random::{draw_free, RandomSource};
use vstd::prelude::*;

verus! {

/// No wire of the circuit stands for two local wires.
pub open spec fn injective(map: Seq<Option<usize>>) -> bool {
    forall|a: int, b: int|
        0 <= a < map.len() && 0 <= b < map.len() && a != b && (#[trigger] map[a]) is Some
            ==> map[a] != #[trigger] map[b]
}

/// The first local wires stand for the wires of `proj_map`, in its order.
pub open spec fn extends(map: Seq<Option<usize>>, proj_map: Seq<usize>) -> bool {
    &&& proj_map.len() <= map.len()
    &&& forall|w: int| 0 <= w < proj_map.len() ==> #[trigger] map[w] == Some(proj_map[w])
}

/// Every local wire stands for a wire below `num_wires`, if for any.
pub open spec fn maps_into(map: Seq<Option<usize>>, num_wires: int) -> bool {
    forall|w: int| 0 <= w < map.len() ==> (#[trigger] map[w] matches Some(x) ==> x < num_wires)
}

/// `global` is `local` with each wire replaced by the wire that it stands
/// for under `map`.
pub open spec fn is_image(global: Seq<Gate>, local: Seq<Gate>, map: Seq<Option<usize>>) -> bool {
    &&& global.len() == local.len()
    &&& forall|i: int, k: int|
        0 <= i < local.len() && 0 <= k < 3 ==> {
            &&& (#[trigger] local[i].wires[k]) < map.len()
            &&& map[local[i].wires[k] as int] == Some(global[i].wires[k])
        }
    &&& forall|i: int|
        0 <= i < local.len() ==> (#[trigger] global[i]).control_func == local[i].control_func
}

/// Some local wire stands for the wire `x`.
pub open spec fn in_image(map: Seq<Option<usize>>, x: int) -> bool {
    exists|w: int| 0 <= w < map.len() && (#[trigger] map[w] matches Some(v) && v == x)
}

/// The local wires that have a wire of the circuit, and the wires of the
/// circuit that are taken.
struct Assignment {
    map: Vec<Option<usize>>,
    assigned: Vec<bool>,
    taken: Vec<bool>,
}

impl Assignment {
    spec fn wf(&self) -> bool {
        &&& self.assigned.len() == self.map.len()
        &&& injective(self.map@)
        &&& maps_into(self.map@, self.taken.len() as int)
        &&& forall|w: int| 0 <= w < self.map.len() ==> (self.assigned[w] <==> (#[trigger] self.map[w]) is Some)
        &&& forall|x: int| 0 <= x < self.taken.len() ==> (#[trigger] self.taken[x] <==> in_image(self.map@, x))
        &&& count_free(self.taken@) - count_free(self.assigned@) == self.taken.len()
            - self.map.len()
    }

    /// The assignment in which the first local wires stand for the wires of
    /// `proj_map` and the others for none yet.
    fn start(proj_map: &Vec<usize>, n_proj_wires: usize, num_wires: usize) -> (a: Self)
        requires
            proj_map@.no_duplicates(),
            proj_map.len() <= n_proj_wires,
            forall|w: int| 0 <= w < proj_map.len() ==> proj_map[w] < num_wires,
        ensures
            a.wf(),
            a.map.len() == n_proj_wires,
            a.taken.len() == num_wires,
            extends(a.map@, proj_map@),
            forall|w: int| proj_map.len() <= w < n_proj_wires ==> a.map[w] is None,
            forall|w: int| 0 <= w < n_proj_wires ==> (a.assigned[w] <==> w < proj_map.len()),
            count_free(a.assigned@) == n_proj_wires - proj_map.len(),
    {
        let mut a = Assignment {
            map: vec![None; n_proj_wires],
            assigned: cleared(n_proj_wires),
            taken: cleared(num_wires),
        };
        let mut w: usize = 0;
        while w < proj_map.len()
            invariant
                w <= proj_map.len() <= n_proj_wires,
                proj_map@.no_duplicates(),
                forall|v: int| 0 <= v < proj_map.len() ==> proj_map[v] < num_wires,
                a.map.len() == n_proj_wires,
                a.assigned.len() == n_proj_wires,
                a.taken.len() == num_wires,
                forall|v: int| 0 <= v < w ==> #[trigger] a.map[v] == Some(proj_map[v]),
                forall|v: int| w <= v < n_proj_wires ==> (#[trigger] a.map[v]) is None,
                forall|v: int| 0 <= v < n_proj_wires ==> (a.assigned[v] <==> v < w),
                forall|x: int|
                    0 <= x < num_wires ==> (#[trigger] a.taken[x] <==> exists|v: int|
                        0 <= v < w && #[trigger] proj_map[v] == x),
                count_free(a.taken@) - count_free(a.assigned@) == num_wires - n_proj_wires,
                count_free(a.assigned@) == n_proj_wires - w,
            decreases proj_map.len() - w,
        {
            let x = proj_map[w];
            proof {
                if a.taken[x as int] {
                    let v = choose|v: int| 0 <= v < w && #[trigger] proj_map[v] == x;
                    assert(proj_map@[v] == proj_map@[w as int]);
                }
            }
            let ghost taken_before = a.taken@;
            a.map[w] = Some(x);
            mark(&mut a.assigned, w);
            mark(&mut a.taken, x);
            proof {
                assert forall|y: int| 0 <= y < num_wires implies (#[trigger] a.taken[y]
                    <==> exists|v: int| 0 <= v < w + 1 && #[trigger] proj_map[v] == y) by {
                    if taken_before[y] {
                        let v = choose|v: int| 0 <= v < w && #[trigger] proj_map[v] == y;
                        assert(0 <= v < w + 1 && proj_map[v] == y);
                    }
                    if y == x {
                        assert(proj_map[w as int] == y);
                    }
                }
            }
            w += 1;
        }
        proof {
            assert forall|x: int| 0 <= x < a.taken.len() implies (#[trigger] a.taken[x]
                <==> in_image(a.map@, x)) by {
                if a.taken[x] {
                    let v = choose|v: int| 0 <= v < w && #[trigger] proj_map[v] == x;
                    assert(a.map@[v] == Some(x as usize));
                }
                if in_image(a.map@, x) {
                    let v = choose|v: int|
                        0 <= v < a.map.len() && #[trigger] a.map@[v] == Some(x as usize);
                    assert(v < w);
                    assert(proj_map[v] == x);
                }
            }
            assert forall|c: int, d: int|
                0 <= c < a.map.len() && 0 <= d < a.map.len() && c != d && (
                #[trigger] a.map@[c]) is Some implies a.map@[c] != #[trigger] a.map@[d] by {
                if a.map@[d] is Some {
                    assert(proj_map@[c] != proj_map@[d]);
                }
            }
        }
        a
    }

    /// The wire of the circuit for which the local wire `w` stands.  A
    /// local wire that has none yet is given one that is not taken, picked
    /// by one draw; there is none where all are taken.
    fn global_of<R: RandomSource>(&mut self, w: usize, rng: &mut R) -> (res: Option<usize>)
        requires
            old(self).wf(),
            w < old(self).map.len(),
        ensures
            final(self).map.len() == old(self).map.len(),
            final(self).taken.len() == old(self).taken.len(),
            res is None ==> *final(self) == *old(self) && old(self).map.len() > old(
                self,
            ).taken.len() && !old(self).assigned[w as int] && count_free(old(self).taken@) == 0,
            res is Some ==> final(self).assigned@ == old(self).assigned@.update(w as int, true),
            res matches Some(x) ==> {
                &&& final(self).wf()
                &&& final(self).map[w as int] == Some(x)
                &&& forall|v: int|
                    0 <= v < old(self).map.len() && (old(self).map[v] is Some || v != w)
                        ==> #[trigger] final(self).map[v] == old(self).map[v]
            },
    {
        match self.map[w] {
            Some(x) => {
                proof {
                    assert(self.assigned@ =~= self.assigned@.update(w as int, true));
                }
                Some(x)
            },
            None => {
                proof {
                    lemma_count_free_update(self.assigned@, w as int);
                    lemma_count_free_bounds(self.assigned@.update(w as int, true));
                }
                match draw_free(&self.taken, rng) {
                    None => None,
                    Some(x) => {
                        let ghost before = *self;
                        self.map[w] = Some(x);
                        mark(&mut self.assigned, w);
                        mark(&mut self.taken, x);
                        proof {
                            assert(!in_image(before.map@, x as int));
                            assert forall|y: int| 0 <= y < self.taken.len() implies (
                            #[trigger] self.taken[y] <==> in_image(self.map@, y)) by {
                                if in_image(before.map@, y) {
                                    let v = choose|v: int|
                                        0 <= v < before.map.len() && #[trigger] before.map@[v]
                                            == Some(y as usize);
                                    assert(self.map@[v] == Some(y as usize));
                                }
                                if y == x {
                                    assert(self.map@[w as int] == Some(y as usize));
                                }
                                if in_image(self.map@, y) && y != x {
                                    let v = choose|v: int|
                                        0 <= v < self.map.len() && #[trigger] self.map@[v] == Some(
                                            y as usize,
                                        );
                                    assert(before.map@[v] == Some(y as usize));
                                }
                            }
                            assert forall|c: int, d: int|
                                0 <= c < self.map.len() && 0 <= d < self.map.len() && c != d && (
                                #[trigger] self.map@[c]) is Some implies self.map@[c]
                                != #[trigger] self.map@[d] by {
                                if c == w {
                                    if self.map@[d] == Some(x) {
                                        assert(before.map@[d] == Some(x));
                                        assert(in_image(before.map@, x as int));
                                    }
                                } else if d == w {
                                    if self.map@[c] == Some(x) {
                                        assert(before.map@[c] == Some(x));
                                        assert(in_image(before.map@, x as int));
                                    }
                                } else {
                                    assert(before.map@[c] == self.map@[c]);
                                    assert(before.map@[d] == self.map@[d]);
                                }
                            }
                        }
                        Some(x)
                    },
                }
            },
        }
    }
}

/// The number of distinct wires among `wires` that are not below `base`.
pub open spec fn count_new(wires: Seq<usize>, base: int) -> int
    decreases wires.len(),
{
    if wires.len() == 0 {
        0
    } else {
        count_new(wires.drop_last(), base) + if wires.last() >= base && !wires.drop_last().contains(
            wires.last(),
        ) {
            1int
        } else {
            0int
        }
    }
}

/// A part of a list has no more distinct wires than the list.
pub proof fn lemma_count_new_grows(wires: Seq<usize>, upto: int, base: int)
    requires
        0 <= upto <= wires.len(),
    ensures
        0 <= count_new(wires.take(upto), base) <= count_new(wires, base),
    decreases wires.len() - upto,
{
    if upto < wires.len() {
        lemma_count_new_grows(wires, upto + 1, base);
        assert(wires.take(upto + 1).drop_last() == wires.take(upto));
    } else {
        assert(wires.take(upto) == wires);
    }
    lemma_count_new_bounds(wires.take(upto), base);
}

proof fn lemma_count_new_bounds(wires: Seq<usize>, base: int)
    ensures
        0 <= count_new(wires, base),
    decreases wires.len(),
{
    if wires.len() > 0 {
        lemma_count_new_bounds(wires.drop_last(), base);
    }
}

impl Assignment {
    /// The local wires that have a wire of the circuit are those below
    /// `base` and those of `seen`.
    spec fn follows(&self, seen: Seq<usize>, base: int) -> bool {
        &&& forall|w: int|
            0 <= w < self.assigned.len() ==> (#[trigger] self.assigned[w] <==> (w < base
                || seen.contains(w as usize)))
        &&& count_free(self.assigned@) == self.assigned.len() - base - count_new(seen, base)
    }

    /// The wire of the circuit for the local wire `w`, which comes next
    /// after the wires `seen`.  There is none where the wires of `seen` and
    /// `w` are more than the circuit has left.
    fn next_global<R: RandomSource>(
        &mut self,
        w: usize,
        Ghost(seen): Ghost<Seq<usize>>,
        Ghost(base): Ghost<int>,
        rng: &mut R,
    ) -> (res: Option<usize>)
        requires
            old(self).wf(),
            old(self).follows(seen, base),
            w < old(self).map.len(),
            0 <= base <= old(self).map.len(),
        ensures
            final(self).map.len() == old(self).map.len(),
            final(self).taken.len() == old(self).taken.len(),
            res is None ==> old(self).map.len() > old(self).taken.len() && base + count_new(
                seen.push(w),
                base,
            ) > old(self).taken.len(),
            res matches Some(x) ==> {
                &&& final(self).wf()
                &&& final(self).follows(seen.push(w), base)
                &&& final(self).map[w as int] == Some(x)
                &&& forall|v: int|
                    0 <= v < old(self).map.len() && (old(self).map[v] is Some || v != w)
                        ==> #[trigger] final(self).map[v] == old(self).map[v]
            },
    {
        let ghost before = *self;
        let res = self.global_of(w, rng);
        proof {
            let more = seen.push(w);
            assert(more.drop_last() == seen);
            assert(more.last() == w);
            let is_new = w >= base && !seen.contains(w);
            assert(is_new == !before.assigned[w as int]);
            assert(count_new(more, base) == count_new(seen, base) + if is_new {
                1int
            } else {
                0int
            });
            if res is Some {
                assert(self.assigned@ == before.assigned@.update(w as int, true));
                if is_new {
                    lemma_count_free_update(before.assigned@, w as int);
                } else {
                    assert(self.assigned@ =~= before.assigned@);
                }
                assert forall|v: int| 0 <= v < self.assigned.len() implies (
                #[trigger] self.assigned[v] <==> (v < base || more.contains(v as usize))) by {
                    if seen.contains(v as usize) {
                        let k = choose|k: int| 0 <= k < seen.len() && seen[k] == v as usize;
                        assert(more[k] == v as usize);
                    }
                    if v == w {
                        assert(more[more.len() - 1] == v as usize);
                    }
                    if more.contains(v as usize) && v != w {
                        let k = choose|k: int| 0 <= k < more.len() && more[k] == v as usize;
                        assert(seen[k] == v as usize);
                    }
                }
            }
        }
        res
    }
}

/// Maps the gates of `local`, whose wires are local, to wires of the
/// circuit.  A local wire below the length of `proj_map` stands for the wire
/// that `proj_map` gives; each other local wire is given, where it first
/// occurs, a random wire of the circuit that stands for no local wire yet.
///
/// Returns the gates and, for each local wire, the wire that it stands for.
/// There is no result where the circuit has fewer wires than `proj_map` and
/// the other wires of `local` together.
pub fn remap_to_global<R: RandomSource>(
    local: &Vec<Gate>,
    proj_map: &Vec<usize>,
    n_proj_wires: usize,
    num_wires: usize,
    rng: &mut R,
) -> (res: Option<(Vec<Gate>, Vec<Option<usize>>)>)
    requires
        proj_map@.no_duplicates(),
        proj_map.len() <= n_proj_wires,
        forall|w: int| 0 <= w < proj_map.len() ==> proj_map[w] < num_wires,
        forall|i: int, k: int|
            0 <= i < local.len() && 0 <= k < 3 ==> (#[trigger] local[i].wires[k]) < n_proj_wires,
    ensures
        res is None <==> proj_map.len() + count_new(wire_seq(local@), proj_map.len() as int)
            > num_wires,
        n_proj_wires <= num_wires ==> res is Some,
        res matches Some(out) ==> {
            &&& out.1.len() == n_proj_wires
            &&& injective(out.1@)
            &&& extends(out.1@, proj_map@)
            &&& maps_into(out.1@, num_wires as int)
            &&& is_image(out.0@, local@, out.1@)
            &&& forall|i: int|
                0 <= i < local.len() ==> (#[trigger] out.0[i]).generation == local[i].generation
        },
{
    let ghost base = proj_map.len() as int;
    let ghost all = wire_seq(local@);
    let mut a = Assignment::start(proj_map, n_proj_wires, num_wires);
    let mut global: Vec<Gate> = Vec::new();
    let mut i: usize = 0;
    proof {
        assert(local@.take(0).len() == 0);
        lemma_count_free_bounds(a.taken@);
    }
    while i < local.len()
        invariant
            i <= local.len(),
            global.len() == i,
            base == proj_map.len(),
            all == wire_seq(local@),
            a.wf(),
            a.follows(wire_seq(local@.take(i as int)), base),
            a.map.len() == n_proj_wires,
            a.taken.len() == num_wires,
            extends(a.map@, proj_map@),
            forall|j: int, k: int|
                0 <= j < local.len() && 0 <= k < 3 ==> (#[trigger] local[j].wires[k])
                    < n_proj_wires,
            is_image(global@, local@.take(i as int), a.map@),
            forall|j: int| 0 <= j < i ==> (#[trigger] global[j]).generation == local[j].generation,
        decreases local.len() - i,
    {
        let g = local[i];
        assert(local[i as int].wires[0] < n_proj_wires);
        assert(local[i as int].wires[1] < n_proj_wires);
        assert(local[i as int].wires[2] < n_proj_wires);
        let ghost seen0 = wire_seq(local@.take(i as int));
        let ghost seen1 = seen0.push(g.wires[0]);
        let ghost seen2 = seen1.push(g.wires[1]);
        let ghost seen3 = seen2.push(g.wires[2]);
        proof {
            assert(local@.take(i + 1) == local@.take(i as int).push(g));
            lemma_wire_seq_push(local@.take(i as int), g);
            lemma_wire_seq_take(local@, i as int + 1);
            assert(seen3 == all.take(3 * (i + 1)));
            assert(seen1 =~= all.take(3 * i + 1));
            assert(seen2 =~= all.take(3 * i + 2));
            lemma_count_new_grows(all, 3 * i + 1, base);
            lemma_count_new_grows(all, 3 * i + 2, base);
            lemma_count_new_grows(all, 3 * i + 3, base);
        }
        let ghost map0 = a.map@;
        let t = match a.next_global(g.wires[0], Ghost(seen0), Ghost(base), rng) {
            Some(x) => x,
            None => {
                return None;
            },
        };
        let ghost map1 = a.map@;
        let c0 = match a.next_global(g.wires[1], Ghost(seen1), Ghost(base), rng) {
            Some(x) => x,
            None => {
                return None;
            },
        };
        let ghost map2 = a.map@;
        let c1 = match a.next_global(g.wires[2], Ghost(seen2), Ghost(base), rng) {
            Some(x) => x,
            None => {
                return None;
            },
        };
        let ghost done = global@;
        global.push(
            Gate { wires: [t, c0, c1], control_func: g.control_func, generation: g.generation },
        );
        proof {
            let prev = local@.take(i as int);
            let now = local@.take(i + 1);
            assert forall|v: int| 0 <= v < map0.len() && map0[v] is Some implies a.map@[v]
                == map0[v] by {
                assert(map1[v] == map0[v]);
                assert(map2[v] == map1[v]);
            }
            assert(map1[g.wires[0] as int] == Some(t));
            assert(map2[g.wires[0] as int] == Some(t));
            assert(a.map@[g.wires[0] as int] == Some(t));
            assert(map2[g.wires[1] as int] == Some(c0));
            assert(a.map@[g.wires[1] as int] == Some(c0));
            assert forall|j: int, k: int| 0 <= j < now.len() && 0 <= k < 3 implies {
                &&& (#[trigger] now[j].wires[k]) < a.map@.len()
                &&& a.map@[now[j].wires[k] as int] == Some(global@[j].wires[k])
            } by {
                if j < i {
                    assert(now[j] == prev[j]);
                    assert(global@[j] == done[j]);
                    let x = prev[j].wires[k];
                    assert(map0[x as int] == Some(done[j].wires[k]));
                } else {
                    assert(now[j] == g);
                }
            }
            assert forall|j: int| 0 <= j < now.len() implies (#[trigger] global@[j]).control_func
                == now[j].control_func by {
                if j < i {
                    assert(now[j] == prev[j]);
                    assert(global@[j] == done[j]);
                }
            }
            assert forall|v: int| 0 <= v < proj_map.len() implies #[trigger] a.map@[v] == Some(
                proj_map[v],
            ) by {
                assert(map0[v] == Some(proj_map[v]));
            }
        }
        i += 1;
    }
    proof {
        assert(local@.take(i as int) == local@);
        lemma_count_free_bounds(a.taken@);
        lemma_count_free_bounds(a.assigned@);
    }
    Some((global, a.map))
}

/// The wires of the first gates of a block are the first wires of the
/// block, three for each gate.
pub proof fn lemma_wire_seq_take(gates: Seq<Gate>, upto: int)
    requires
        0 <= upto <= gates.len(),
    ensures
        wire_seq(gates).len() == 3 * gates.len(),
        wire_seq(gates.take(upto)) == wire_seq(gates).take(3 * upto),
    decreases gates.len(),
{
    if gates.len() == 0 {
        assert(gates.take(upto) == gates);
        assert(wire_seq(gates).take(0) == wire_seq(gates));
    } else {
        let front = gates.drop_last();
        if upto == gates.len() {
            lemma_wire_seq_take(front, front.len() as int);
            assert(gates.take(upto) == gates);
            assert(wire_seq(gates).take(3 * upto) == wire_seq(gates));
        } else {
            lemma_wire_seq_take(front, upto);
            assert(gates.take(upto) == front.take(upto));
            assert(wire_seq(gates).take(3 * upto) == wire_seq(front).take(3 * upto));
        }
    }
}

} // verus!
