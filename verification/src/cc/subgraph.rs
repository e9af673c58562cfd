//! The dependencies of each gate of a circuit on the gates before it and
//! after it, and sets of gates that are closed under them.
use crate::circuit::circuit::{collides, Gate};
use crate::local_mixing::convex::{convex, is_selection, selected, tainted};
use crate::random::RandomSource;
use std::collections::{HashMap, HashSet};
use vstd::prelude::*;

verus! {

broadcast use vstd::std_specs::hash::group_hash_axioms;

/// Whether `w` is one of the wires of `g`.
pub open spec fn touches(g: Gate, w: usize) -> bool {
    g.wires[0] == w || g.wires[1] == w || g.wires[2] == w
}

/// Whether `later` has to stay behind `g`: it touches the target of `g`, or
/// its target is a control of `g`.
pub open spec fn held_back(g: Gate, later: Gate) -> bool {
    touches(later, g.wires[0]) || g.wires[1] == later.wires[0] || g.wires[2] == later.wires[0]
}

/// The last of the first `i` gates that touches `w`.
pub open spec fn last_touching(gates: Seq<Gate>, i: int, w: usize) -> Option<usize>
    decreases i,
{
    if i <= 0 {
        None
    } else if touches(gates[i - 1], w) {
        Some((i - 1) as usize)
    } else {
        last_touching(gates, i - 1, w)
    }
}

/// The last of the first `i` gates whose target is `w`.
pub open spec fn last_setting(gates: Seq<Gate>, i: int, w: usize) -> Option<usize>
    decreases i,
{
    if i <= 0 {
        None
    } else if gates[i - 1].wires[0] == w {
        Some((i - 1) as usize)
    } else {
        last_setting(gates, i - 1, w)
    }
}

/// The first gate from `from` on that has to stay behind gate `i`.
pub open spec fn first_held_back(gates: Seq<Gate>, i: int, from: int) -> Option<usize>
    decreases gates.len() - from,
{
    if from >= gates.len() {
        None
    } else if held_back(gates[i], gates[from]) {
        Some(from as usize)
    } else {
        first_held_back(gates, i, from + 1)
    }
}

/// The list of what `found` holds.
pub open spec fn listed(found: Option<usize>) -> Seq<usize> {
    match found {
        Some(x) => seq![x],
        None => Seq::empty(),
    }
}

/// The gates on which gate `i` depends directly: the last gate before it
/// that touches its target, and for each of its controls the last gate
/// before it that has this control as its target.
pub open spec fn earlier_of(gates: Seq<Gate>, i: int) -> Seq<usize> {
    listed(last_touching(gates, i, gates[i].wires[0])) + listed(
        last_setting(gates, i, gates[i].wires[1]),
    ) + listed(last_setting(gates, i, gates[i].wires[2]))
}

/// What one gate depends on.
#[derive(Debug)]
pub struct DependencyData {
    /// The place of this gate in the circuit.
    pub index: usize,
    /// The gates before it on which it depends directly.
    pub prev_dependencies: Vec<usize>,
    /// The first gate after it that has to stay behind it.
    pub depend_on_future: Option<usize>,
}

impl Clone for DependencyData {
    fn clone(&self) -> (out: Self)
        ensures
            out.same(self),
    {
        Self {
            index: self.index,
            prev_dependencies: self.prev_dependencies.clone(),
            depend_on_future: self.depend_on_future,
        }
    }
}

impl DependencyData {
    /// The two hold the same.
    pub open spec fn same(&self, other: &Self) -> bool {
        &&& self.index == other.index
        &&& self.prev_dependencies@ == other.prev_dependencies@
        &&& self.depend_on_future == other.depend_on_future
    }

    /// This is what gate `i` of `gates` depends on.
    pub open spec fn describes(&self, gates: Seq<Gate>, i: int) -> bool {
        &&& self.index == i
        &&& self.prev_dependencies@ == earlier_of(gates, i)
        &&& self.depend_on_future == first_held_back(gates, i, i + 1)
    }
}

/// `dg` holds for each gate of `gates` what it depends on.
pub open spec fn is_dependency_graph(dg: Seq<DependencyData>, gates: Seq<Gate>) -> bool {
    &&& dg.len() == gates.len()
    &&& forall|i: int| 0 <= i < dg.len() ==> (#[trigger] dg[i]).describes(gates, i)
}

/// What `map` holds for `w`.
pub open spec fn held(map: Map<usize, usize>, w: usize) -> Option<usize> {
    if map.contains_key(w) {
        Some(map[w])
    } else {
        None
    }
}

/// The first gate after gate `i` that has to stay behind it.
fn next_held_back(gates: &Vec<Gate>, i: usize) -> (found: Option<usize>)
    requires
        i < gates.len(),
    ensures
        found == first_held_back(gates@, i as int, i + 1),
{
    let g = gates[i];
    let mut j: usize = gates.len();
    let mut found: Option<usize> = None;
    while j > i + 1
        invariant
            i < j <= gates.len(),
            g == gates[i as int],
            found == first_held_back(gates@, i as int, j as int),
        decreases j,
    {
        j -= 1;
        let later = gates[j];
        if later.wires[0] == g.wires[0] || later.wires[1] == g.wires[0] || later.wires[2]
            == g.wires[0] || g.wires[1] == later.wires[0] || g.wires[2] == later.wires[0] {
            found = Some(j);
        }
    }
    found
}

/// For each gate of `gates` what it depends on.
pub fn create_dependency_graph(gates: &Vec<Gate>) -> (dependency_graph: Vec<DependencyData>)
    ensures
        is_dependency_graph(dependency_graph@, gates@),
{
    let mut dependency_graph: Vec<DependencyData> = Vec::new();
    let mut variable_depended_last: HashMap<usize, usize> = HashMap::new();
    let mut variable_set_last: HashMap<usize, usize> = HashMap::new();
    let mut i: usize = 0;
    while i < gates.len()
        invariant
            i <= gates.len(),
            dependency_graph.len() == i,
            forall|k: int| 0 <= k < i ==> (#[trigger] dependency_graph[k]).describes(gates@, k),
            forall|w: usize|
                held(variable_depended_last@, w) == #[trigger] last_touching(gates@, i as int, w),
            forall|w: usize|
                held(variable_set_last@, w) == #[trigger] last_setting(gates@, i as int, w),
        decreases gates.len() - i,
    {
        let g = gates[i];
        let target = g.wires[0];
        let mut prev_dependencies: Vec<usize> = Vec::new();
        match variable_depended_last.get(&target) {
            Some(t) => {
                prev_dependencies.push(*t);
            },
            None => {},
        }
        match variable_set_last.get(&g.wires[1]) {
            Some(c) => {
                prev_dependencies.push(*c);
            },
            None => {},
        }
        match variable_set_last.get(&g.wires[2]) {
            Some(c) => {
                prev_dependencies.push(*c);
            },
            None => {},
        }
        assert(prev_dependencies@ == earlier_of(gates@, i as int));
        let depend_on_future = next_held_back(gates, i);
        dependency_graph.push(DependencyData { index: i, prev_dependencies, depend_on_future });
        let ghost touched = variable_depended_last@;
        let ghost set = variable_set_last@;
        variable_depended_last.insert(g.wires[0], i);
        variable_depended_last.insert(g.wires[1], i);
        variable_depended_last.insert(g.wires[2], i);
        variable_set_last.insert(g.wires[0], i);
        proof {
            assert forall|w: usize|
                held(variable_depended_last@, w) == #[trigger] last_touching(
                    gates@,
                    i + 1,
                    w,
                ) by {
                assert(held(touched, w) == last_touching(gates@, i as int, w));
            }
            assert forall|w: usize|
                held(variable_set_last@, w) == #[trigger] last_setting(gates@, i + 1, w) by {
                assert(held(set, w) == last_setting(gates@, i as int, w));
            }
        }
        i += 1;
    }
    dependency_graph
}

/// A gate on which gate `i` depends directly stands before it, and gate `i`
/// has to stay behind it.
pub proof fn lemma_earlier_of(gates: Seq<Gate>, i: int, k: int)
    requires
        0 <= i < gates.len() <= usize::MAX,
        0 <= k < earlier_of(gates, i).len(),
    ensures
        earlier_of(gates, i)[k] < i,
        held_back(gates[earlier_of(gates, i)[k] as int], gates[i]),
{
    lemma_last_touching(gates, i, gates[i].wires[0]);
    lemma_last_setting(gates, i, gates[i].wires[1]);
    lemma_last_setting(gates, i, gates[i].wires[2]);
}

/// The last of the first `i` gates that touches `w` is one of them and
/// touches `w`.
pub proof fn lemma_last_touching(gates: Seq<Gate>, i: int, w: usize)
    requires
        0 <= i <= gates.len() <= usize::MAX,
    ensures
        last_touching(gates, i, w) matches Some(x) ==> x < i && touches(gates[x as int], w),
    decreases i,
{
    if i > 0 && !touches(gates[i - 1], w) {
        lemma_last_touching(gates, i - 1, w);
    }
}

/// The last of the first `i` gates whose target is `w` is one of them and
/// has the target `w`.
pub proof fn lemma_last_setting(gates: Seq<Gate>, i: int, w: usize)
    requires
        0 <= i <= gates.len() <= usize::MAX,
    ensures
        last_setting(gates, i, w) matches Some(x) ==> x < i && gates[x as int].wires[0] == w,
    decreases i,
{
    if i > 0 && gates[i - 1].wires[0] != w {
        lemma_last_setting(gates, i - 1, w);
    }
}

/// `index` once for each time that `j` stands among the first `upto` items
/// of `deps`.
pub open spec fn marks(deps: Seq<usize>, upto: int, j: usize, index: usize) -> Seq<usize>
    decreases upto,
{
    if upto <= 0 {
        Seq::empty()
    } else if deps[upto - 1] == j {
        marks(deps, upto - 1, j, index).push(index)
    } else {
        marks(deps, upto - 1, j, index)
    }
}

/// The gates among the first `upto` of `dg` that depend directly on gate
/// `j`, in their order, each as often as it names `j`.
pub open spec fn dependents(dg: Seq<DependencyData>, upto: int, j: usize) -> Seq<usize>
    decreases upto,
{
    if upto <= 0 {
        Seq::empty()
    } else {
        dependents(dg, upto - 1, j) + marks(
            dg[upto - 1].prev_dependencies@,
            dg[upto - 1].prev_dependencies.len() as int,
            j,
            dg[upto - 1].index,
        )
    }
}

/// The list that `map` holds for `j`, or the empty list.
pub open spec fn listed_for(map: Map<usize, Vec<usize>>, j: usize) -> Seq<usize> {
    if map.contains_key(j) {
        map[j]@
    } else {
        Seq::empty()
    }
}

/// `map` holds for each gate the gates of `dg` that depend directly on it,
/// and nothing for a gate on which none depends.
pub open spec fn is_dependency_map(map: Map<usize, Vec<usize>>, dg: Seq<DependencyData>) -> bool {
    &&& forall|j: usize| #[trigger] listed_for(map, j) == dependents(dg, dg.len() as int, j)
    &&& forall|j: usize| #[trigger] map.contains_key(j) ==> map[j].len() > 0
}

/// For each gate the gates that depend directly on it.
pub fn dependency_graph_to_map(dg: &Vec<DependencyData>) -> (d_map: HashMap<usize, Vec<usize>>)
    ensures
        is_dependency_map(d_map@, dg@),
{
    let mut d_map: HashMap<usize, Vec<usize>> = HashMap::new();
    let mut i: usize = 0;
    while i < dg.len()
        invariant
            i <= dg.len(),
            forall|j: usize| #[trigger] listed_for(d_map@, j) == dependents(dg@, i as int, j),
            forall|j: usize| #[trigger] d_map@.contains_key(j) ==> d_map@[j].len() > 0,
        decreases dg.len() - i,
    {
        let d = &dg[i];
        let mut k: usize = 0;
        while k < d.prev_dependencies.len()
            invariant
                i < dg.len(),
                *d == dg[i as int],
                k <= d.prev_dependencies.len(),
                forall|j: usize| #[trigger]
                    listed_for(d_map@, j) == dependents(dg@, i as int, j) + marks(
                        d.prev_dependencies@,
                        k as int,
                        j,
                        d.index,
                    ),
                forall|j: usize| #[trigger] d_map@.contains_key(j) ==> d_map@[j].len() > 0,
            decreases d.prev_dependencies.len() - k,
        {
            let depend = d.prev_dependencies[k];
            let mut list: Vec<usize> = match d_map.get(&depend) {
                Some(l) => l.clone(),
                None => Vec::new(),
            };
            assert(list@ == listed_for(d_map@, depend));
            list.push(d.index);
            let ghost before = d_map@;
            d_map.insert(depend, list);
            proof {
                assert forall|j: usize| #[trigger]
                    listed_for(d_map@, j) == dependents(dg@, i as int, j) + marks(
                        d.prev_dependencies@,
                        k + 1,
                        j,
                        d.index,
                    ) by {
                    assert(listed_for(before, j) == dependents(dg@, i as int, j) + marks(
                        d.prev_dependencies@,
                        k as int,
                        j,
                        d.index,
                    ));
                    if j == depend {
                        assert(listed_for(d_map@, j) == listed_for(before, j).push(d.index));
                    }
                }
            }
            k += 1;
        }
        i += 1;
    }
    d_map
}

/// The gates from `from` up to `upto` that are not in `chosen` and have to
/// stay behind gate `i`, in their order.
pub open spec fn future_dependencies(
    gates: Seq<Gate>,
    i: int,
    chosen: Set<usize>,
    from: int,
    upto: int,
) -> Seq<usize>
    decreases upto - from,
{
    if upto <= from {
        Seq::empty()
    } else if !chosen.contains((upto - 1) as usize) && held_back(gates[i], gates[upto - 1]) {
        future_dependencies(gates, i, chosen, from, upto - 1).push((upto - 1) as usize)
    } else {
        future_dependencies(gates, i, chosen, from, upto - 1)
    }
}

/// The future dependencies are the gates of the range that are not chosen
/// and have to stay behind, and no others.
pub proof fn lemma_future_dependencies(
    gates: Seq<Gate>,
    i: int,
    chosen: Set<usize>,
    from: int,
    upto: int,
)
    requires
        0 <= from,
        upto <= gates.len() <= usize::MAX,
    ensures
        forall|p: int|
            0 <= p < future_dependencies(gates, i, chosen, from, upto).len() ==> {
                let j = #[trigger] future_dependencies(gates, i, chosen, from, upto)[p];
                &&& from <= j < upto
                &&& !chosen.contains(j)
                &&& held_back(gates[i], gates[j as int])
            },
        forall|j: int|
            from <= j < upto && !chosen.contains(j as usize) && held_back(gates[i], #[trigger] gates[j])
                ==> future_dependencies(gates, i, chosen, from, upto).contains(j as usize),
    decreases upto - from,
{
    if upto > from {
        lemma_future_dependencies(gates, i, chosen, from, upto - 1);
        let front = future_dependencies(gates, i, chosen, from, upto - 1);
        let all = future_dependencies(gates, i, chosen, from, upto);
        assert forall|j: int|
            from <= j < upto && !chosen.contains(j as usize) && held_back(gates[i], #[trigger] gates[j])
            implies all.contains(j as usize) by {
            if j < upto - 1 {
                let p = choose|p: int| 0 <= p < front.len() && front[p] == j as usize;
                assert(all[p] == j as usize);
            } else {
                assert(all[all.len() - 1] == j as usize);
            }
        }
    }
}

/// No gate between gate `i` and the first that has to stay behind it has
/// to stay behind it.
pub proof fn lemma_first_held_back(gates: Seq<Gate>, i: int, from: int, j: int)
    requires
        0 <= from <= j < gates.len(),
        match first_held_back(gates, i, from) {
            Some(d) => j < d,
            None => true,
        },
    ensures
        !held_back(gates[i], gates[j]),
    decreases gates.len() - from,
{
    if from < j {
        lemma_first_held_back(gates, i, from + 1, j);
    }
}

/// The first gate that has to stay behind gate `i` stands in the range
/// that was searched.
pub proof fn lemma_first_held_back_range(gates: Seq<Gate>, i: int, from: int)
    requires
        0 <= from,
        gates.len() <= usize::MAX,
    ensures
        first_held_back(gates, i, from) matches Some(d) ==> from <= d < gates.len(),
    decreases gates.len() - from,
{
    if from < gates.len() && !held_back(gates[i], gates[from]) {
        lemma_first_held_back_range(gates, i, from + 1);
    }
}

/// The future dependencies of a gate begin with the first gate that has to
/// stay behind it.
pub proof fn lemma_future_dependencies_start(
    gates: Seq<Gate>,
    i: int,
    chosen: Set<usize>,
    from: int,
    start: int,
    upto: int,
)
    requires
        0 <= from <= start,
        upto <= gates.len(),
        forall|j: int| from <= j < start && j < gates.len() ==> !held_back(gates[i], #[trigger] gates[j]),
    ensures
        future_dependencies(gates, i, chosen, from, upto) == future_dependencies(
            gates,
            i,
            chosen,
            start,
            upto,
        ),
    decreases upto - from,
{
    if upto > from {
        lemma_future_dependencies_start(gates, i, chosen, from, start, upto - 1);
        if upto <= start {
            assert(!held_back(gates[i], gates[upto - 1]));
        }
    }
}

/// The gates from the first that has to stay behind `current_node` up to
/// `max_node_number` that are not in `subset_set` and have to stay behind
/// it.  A list that `future_depends_cache` holds for this gate is returned
/// as it is; a list that was computed is added to it.
pub fn get_all_future_dependencies(
    future_depends_cache: &mut HashMap<usize, Vec<usize>>,
    current_node: &DependencyData,
    subset_set: &HashSet<usize>,
    max_node_number: usize,
    gates: &Vec<Gate>,
) -> (depends: Vec<usize>)
    requires
        current_node.index < gates.len(),
        current_node.describes(gates@, current_node.index as int),
        max_node_number <= gates.len(),
        forall|k: usize| #[trigger]
            old(future_depends_cache)@.contains_key(k) ==> k < gates.len() && old(future_depends_cache)@[k]@
                == future_dependencies(
                gates@,
                k as int,
                subset_set@,
                k + 1,
                max_node_number as int,
            ),
    ensures
        depends@ == future_dependencies(
            gates@,
            current_node.index as int,
            subset_set@,
            current_node.index + 1,
            max_node_number as int,
        ),
        forall|k: usize| #[trigger]
            final(future_depends_cache)@.contains_key(k) ==> k < gates.len() && final(future_depends_cache)@[k]@
                == future_dependencies(
                gates@,
                k as int,
                subset_set@,
                k + 1,
                max_node_number as int,
            ),
{
    let ghost i = current_node.index as int;
    match future_depends_cache.get(&current_node.index) {
        Some(val) => {
            return val.clone();
        },
        None => {},
    }
    proof {
        lemma_first_held_back_range(gates@, i, i + 1);
        assert forall|j: int|
            i + 1 <= j < gates.len() && (match current_node.depend_on_future {
                Some(d) => j < d,
                None => true,
            }) implies !held_back(gates@[i], #[trigger] gates@[j]) by {
            lemma_first_held_back(gates@, i, i + 1, j);
        }
    }
    let depend_on_future_line = match current_node.depend_on_future {
        Some(line) => line,
        None => {
            proof {
                if i + 1 <= max_node_number {
                    lemma_future_dependencies_start(
                        gates@,
                        i,
                        subset_set@,
                        i + 1,
                        max_node_number as int,
                        max_node_number as int,
                    );
                }
            }
            return Vec::new();
        },
    };
    if depend_on_future_line >= max_node_number {
        proof {
            if i + 1 <= max_node_number {
                lemma_future_dependencies_start(
                    gates@,
                    i,
                    subset_set@,
                    i + 1,
                    max_node_number as int,
                    max_node_number as int,
                );
            }
        }
        return Vec::new();
    }
    let curr_gate = gates[current_node.index];
    let target = curr_gate.wires[0];
    let mut depends: Vec<usize> = Vec::new();
    let mut k: usize = depend_on_future_line;
    while k < max_node_number
        invariant
            depend_on_future_line <= k <= max_node_number <= gates.len(),
            current_node.index < gates.len(),
            curr_gate == gates[current_node.index as int],
            target == curr_gate.wires[0],
            depends@ == future_dependencies(
                gates@,
                current_node.index as int,
                subset_set@,
                depend_on_future_line as int,
                k as int,
            ),
        decreases max_node_number - k,
    {
        if !subset_set.contains(&k) {
            let future_gate = gates[k];
            if future_gate.wires[0] == target || future_gate.wires[1] == target
                || future_gate.wires[2] == target || curr_gate.wires[1] == future_gate.wires[0]
                || curr_gate.wires[2] == future_gate.wires[0] {
                depends.push(k);
            }
        }
        k += 1;
    }
    proof {
        lemma_future_dependencies_start(
            gates@,
            i,
            subset_set@,
            i + 1,
            depend_on_future_line as int,
            max_node_number as int,
        );
    }
    future_depends_cache.insert(current_node.index, depends.clone());
    depends
}

/// Where a walk from `node` ends that goes on, from each gate,
/// to the last of its future dependencies, as long as it has one.
pub open spec fn settled(gates: Seq<Gate>, node: int, chosen: Set<usize>, max: int) -> int
    decreases max - node,
{
    let ahead = future_dependencies(gates, node, chosen, node + 1, max);
    if ahead.len() == 0 || ahead.last() <= node || ahead.last() >= max {
        node
    } else {
        settled(gates, ahead.last() as int, chosen, max)
    }
}

/// Of the first `upto` items of `list`, those below `max` that `subset`
/// does not hold.
pub open spec fn still_to_come(list: Seq<usize>, upto: int, subset: Seq<usize>, max: usize) -> Seq<
    usize,
>
    decreases upto,
{
    if upto <= 0 {
        Seq::empty()
    } else if !subset.contains(list[upto - 1]) && list[upto - 1] < max {
        still_to_come(list, upto - 1, subset, max).push(list[upto - 1])
    } else {
        still_to_come(list, upto - 1, subset, max)
    }
}

/// Whether `list` holds `v`.
fn is_listed(list: &Vec<usize>, v: usize) -> (found: bool)
    ensures
        found == list@.contains(v),
{
    let mut k: usize = 0;
    while k < list.len()
        invariant
            k <= list.len(),
            forall|p: int| 0 <= p < k ==> list[p] != v,
        decreases list.len() - k,
    {
        if list[k] == v {
            return true;
        }
        k += 1;
    }
    false
}

/// Walks from `node` to the last of its future dependencies below
/// `max_node_number`, and on from there, until a gate has none: the gates
/// that are not in `subset_set` count.  Returns that gate, and with it the
/// gates below `max_node_number` that depend directly on it and are not in
/// `subset`.
pub fn need_to_add_as_well(
    d_map: &HashMap<usize, Vec<usize>>,
    subset: &Vec<usize>,
    subset_set: &HashSet<usize>,
    node: usize,
    max_node_number: usize,
    nodes: &Vec<DependencyData>,
    gates: &Vec<Gate>,
) -> (res: (Vec<usize>, usize))
    requires
        is_dependency_graph(nodes@, gates@),
        node < gates.len(),
        max_node_number <= gates.len(),
    ensures
        res.1 == settled(gates@, node as int, subset_set@, max_node_number as int),
        node <= res.1 < gates.len(),
        node < max_node_number ==> res.1 < max_node_number,
        res.1 != node ==> !subset_set@.contains(res.1),
        future_dependencies(gates@, res.1 as int, subset_set@, res.1 + 1, max_node_number as int).len()
            == 0,
        res.0@ == still_to_come(
            listed_for(d_map@, res.1),
            listed_for(d_map@, res.1).len() as int,
            subset@,
            max_node_number,
        ),
{
    let mut future_depends_cache: HashMap<usize, Vec<usize>> = HashMap::new();
    let mut current_node = node;
    loop
        invariant
            is_dependency_graph(nodes@, gates@),
            node <= current_node < gates.len(),
            max_node_number <= gates.len(),
            node < max_node_number ==> current_node < max_node_number,
            current_node != node ==> !subset_set@.contains(current_node),
            settled(gates@, current_node as int, subset_set@, max_node_number as int) == settled(
                gates@,
                node as int,
                subset_set@,
                max_node_number as int,
            ),
            forall|k: usize| #[trigger]
                future_depends_cache@.contains_key(k) ==> k < gates.len() && future_depends_cache@[k]@
                    == future_dependencies(
                    gates@,
                    k as int,
                    subset_set@,
                    k + 1,
                    max_node_number as int,
                ),
        decreases gates.len() - current_node,
    {
        assert(nodes[current_node as int].describes(gates@, current_node as int));
        let requirements = get_all_future_dependencies(
            &mut future_depends_cache,
            &nodes[current_node],
            subset_set,
            max_node_number,
            gates,
        );
        if requirements.len() == 0 {
            let empty: Vec<usize> = Vec::new();
            let depends: &Vec<usize> = match d_map.get(&current_node) {
                Some(list) => list,
                None => &empty,
            };
            assert(depends@ == listed_for(d_map@, current_node));
            let mut past_depend: Vec<usize> = Vec::new();
            let mut k: usize = 0;
            while k < depends.len()
                invariant
                    k <= depends.len(),
                    past_depend@ == still_to_come(depends@, k as int, subset@, max_node_number),
                decreases depends.len() - k,
            {
                let i = depends[k];
                if !is_listed(subset, i) && i < max_node_number {
                    past_depend.push(i);
                }
                k += 1;
            }
            return (past_depend, current_node);
        } else {
            let l = requirements.len();
            proof {
                lemma_future_dependencies(
                    gates@,
                    current_node as int,
                    subset_set@,
                    current_node + 1,
                    max_node_number as int,
                );
                assert(requirements@.last() == requirements@[l - 1]);
            }
            current_node = requirements[l - 1];
        }
    }
}

/// Each mark is `index`, and there is one only where `j` stands in the
/// list.
pub proof fn lemma_marks(deps: Seq<usize>, upto: int, j: usize, index: usize)
    requires
        0 <= upto <= deps.len(),
    ensures
        forall|p: int| 0 <= p < marks(deps, upto, j, index).len() ==> #[trigger] marks(
            deps,
            upto,
            j,
            index,
        )[p] == index,
        marks(deps, upto, j, index).len() > 0 ==> deps.contains(j),
    decreases upto,
{
    if upto > 0 {
        lemma_marks(deps, upto - 1, j, index);
        let front = marks(deps, upto - 1, j, index);
        let all = marks(deps, upto, j, index);
        if deps[upto - 1] == j {
            assert(deps.contains(j));
            assert forall|p: int| 0 <= p < all.len() implies #[trigger] all[p] == index by {
                if p < front.len() {
                    assert(front[p] == index);
                }
            }
        }
    }
}

/// A gate that depends directly on gate `j` stands behind it and has to
/// stay behind it.
pub proof fn lemma_dependents(
    dg: Seq<DependencyData>,
    gates: Seq<Gate>,
    upto: int,
    j: usize,
    p: int,
)
    requires
        is_dependency_graph(dg, gates),
        gates.len() <= usize::MAX,
        0 <= upto <= dg.len(),
        0 <= p < dependents(dg, upto, j).len(),
    ensures
        j < dependents(dg, upto, j)[p] < upto,
        held_back(gates[j as int], gates[dependents(dg, upto, j)[p] as int]),
    decreases upto,
{
    let front = dependents(dg, upto - 1, j);
    if p < front.len() {
        lemma_dependents(dg, gates, upto - 1, j, p);
    } else {
        let d = dg[upto - 1];
        assert(d.describes(gates, upto - 1));
        lemma_marks(d.prev_dependencies@, d.prev_dependencies.len() as int, j, d.index);
        let k = choose|k: int| 0 <= k < d.prev_dependencies@.len() && d.prev_dependencies@[k] == j;
        lemma_earlier_of(gates, upto - 1, k);
    }
}

/// Where each item of the list is in `subset` or not below `max`, none is
/// still to come.
pub proof fn lemma_none_to_come(list: Seq<usize>, upto: int, subset: Seq<usize>, max: usize)
    requires
        0 <= upto <= list.len(),
        forall|p: int| 0 <= p < upto ==> subset.contains(#[trigger] list[p]) || list[p] >= max,
    ensures
        still_to_come(list, upto, subset, max).len() == 0,
    decreases upto,
{
    if upto > 0 {
        lemma_none_to_come(list, upto - 1, subset, max);
    }
}

/// A gate without future dependencies leaves no gate behind: each gate
/// below `max` that depends directly on it is in `subset`.
pub proof fn lemma_nothing_left_behind(
    dg: Seq<DependencyData>,
    d_map: Map<usize, Vec<usize>>,
    gates: Seq<Gate>,
    subset: Seq<usize>,
    c: usize,
    max: usize,
)
    requires
        is_dependency_graph(dg, gates),
        is_dependency_map(d_map, dg),
        c < gates.len() <= usize::MAX,
        max <= gates.len(),
        future_dependencies(gates, c as int, subset.to_set(), c + 1, max as int).len() == 0,
    ensures
        still_to_come(listed_for(d_map, c), listed_for(d_map, c).len() as int, subset, max).len()
            == 0,
{
    let list = listed_for(d_map, c);
    assert(list == dependents(dg, dg.len() as int, c));
    assert forall|p: int| 0 <= p < list.len() implies subset.contains(#[trigger] list[p])
        || list[p] >= max by {
        lemma_dependents(dg, gates, dg.len() as int, c, p);
        let x = list[p];
        if x < max && !subset.contains(x) {
            lemma_future_dependencies(gates, c as int, subset.to_set(), c + 1, max as int);
            assert(future_dependencies(gates, c as int, subset.to_set(), c + 1, max as int).contains(
                x,
            ));
        }
    }
    lemma_none_to_come(list, list.len() as int, subset, max);
}

/// The first place from `from` on at which `list` holds an item that is
/// not below `v`; the length of the list where there is none.
pub open spec fn place_for(list: Seq<usize>, v: usize, from: int) -> int
    decreases list.len() - from,
{
    if from >= list.len() {
        list.len() as int
    } else if from >= 0 && list[from] >= v {
        from
    } else {
        place_for(list, v, from + 1)
    }
}

/// The list with `v` before the first item that is not below it, unless
/// that item is `v`.
pub open spec fn noted(list: Seq<usize>, v: usize) -> Seq<usize> {
    let pos = place_for(list, v, 0);
    if pos < list.len() && list[pos] == v {
        list
    } else {
        list.insert(pos, v)
    }
}

/// The list after each of the first `upto` of `items` that is not in
/// `chosen` has been noted in it, in their order.
pub open spec fn noted_each(list: Seq<usize>, items: Seq<usize>, upto: int, chosen: Set<usize>) -> Seq<
    usize,
>
    decreases upto,
{
    if upto <= 0 {
        list
    } else if chosen.contains(items[upto - 1]) {
        noted_each(list, items, upto - 1, chosen)
    } else {
        noted(noted_each(list, items, upto - 1, chosen), items[upto - 1])
    }
}

/// Puts `v` at its place in the increasing `list`, unless it is there.
fn note_dependency(list: &mut Vec<usize>, v: usize)
    ensures
        final(list)@ == noted(old(list)@, v),
        final(list).len() <= old(list).len() + 1,
        final(list)@.contains(v),
        forall|x: usize| final(list)@.contains(x) ==> x == v || old(list)@.contains(x),
        forall|x: usize| old(list)@.contains(x) ==> final(list)@.contains(x),
{
    let mut pos: usize = 0;
    while pos < list.len() && list[pos] < v
        invariant
            pos <= list.len(),
            list@ == old(list)@,
            place_for(list@, v, 0) == place_for(list@, v, pos as int),
        decreases list.len() - pos,
    {
        pos += 1;
    }
    if pos < list.len() && list[pos] == v {
        return;
    }
    list.insert(pos, v);
    proof {
        let before = old(list)@;
        let after = list@;
        assert(after[pos as int] == v);
        assert forall|x: usize| after.contains(x) implies x == v || before.contains(x) by {
            let q = choose|q: int| 0 <= q < after.len() && after[q] == x;
            if q < pos {
                assert(before[q] == x);
            } else if q > pos {
                assert(before[q - 1] == x);
            }
        }
        assert forall|x: usize| before.contains(x) implies after.contains(x) by {
            let q = choose|q: int| 0 <= q < before.len() && before[q] == x;
            if q < pos {
                assert(after[q] == x);
            } else {
                assert(after[q + 1] == x);
            }
        }
    }
}

/// The list in reverse.
fn reversed(list: &Vec<usize>) -> (out: Vec<usize>)
    ensures
        out@ == list@.reverse(),
{
    let mut out: Vec<usize> = Vec::new();
    let mut k: usize = list.len();
    while k > 0
        invariant
            k <= list.len(),
            out.len() == list.len() - k,
            forall|p: int| 0 <= p < out.len() ==> out[p] == list[list.len() - 1 - p],
        decreases k,
    {
        k -= 1;
        out.push(list[k]);
    }
    assert(out@ =~= list@.reverse());
    out
}

/// `subset` ends with gate `top` and holds, before it, gates that stand
/// before it in the circuit, none twice; and whatever stands between a
/// gate of the subset and `top` and has to stay behind that gate is in
/// the subset too, behind that gate.
pub open spec fn is_closed_chain(subset: Seq<usize>, gates: Seq<Gate>, top: usize) -> bool {
    &&& subset.len() >= 1
    &&& subset.last() == top
    &&& top < gates.len()
    &&& subset.no_duplicates()
    &&& forall|p: int| 0 <= p < subset.len() - 1 ==> #[trigger] subset[p] < top
    &&& forall|p: int, j: int|
        0 <= p < subset.len() - 1 && subset[p] < j < top && #[trigger] held_back(
            gates[subset[p] as int],
            gates[j],
        ) ==> exists|q: int| p < q < subset.len() - 1 && subset[q] == j
}

/// The same while the subset grows, with gate `top` first and each gate
/// before the gates on which it waited.
pub open spec fn is_growing_chain(subset: Seq<usize>, gates: Seq<Gate>, top: usize) -> bool {
    &&& subset.len() >= 1
    &&& subset[0] == top
    &&& top < gates.len()
    &&& subset.no_duplicates()
    &&& forall|p: int| 1 <= p < subset.len() ==> #[trigger] subset[p] < top
    &&& forall|p: int, j: int|
        1 <= p < subset.len() && subset[p] < j < top && #[trigger] held_back(
            gates[subset[p] as int],
            gates[j],
        ) ==> exists|q: int| 1 <= q < p && subset[q] == j
}

/// A growing chain in reverse is a closed chain.
pub proof fn lemma_reverse_chain(subset: Seq<usize>, gates: Seq<Gate>, top: usize)
    requires
        is_growing_chain(subset, gates, top),
    ensures
        is_closed_chain(subset.reverse(), gates, top),
{
    let r = subset.reverse();
    let n = subset.len() as int;
    assert forall|a: int, b: int| 0 <= a < r.len() && 0 <= b < r.len() && a != b implies r[a]
        != r[b] by {
        assert(r[a] == subset[n - 1 - a] && r[b] == subset[n - 1 - b]);
    }
    assert forall|p: int| 0 <= p < r.len() - 1 implies #[trigger] r[p] < top by {
        assert(r[p] == subset[n - 1 - p]);
    }
    assert forall|p: int, j: int|
        0 <= p < r.len() - 1 && r[p] < j < top && #[trigger] held_back(
            gates[r[p] as int],
            gates[j],
        ) implies exists|q: int| p < q < r.len() - 1 && r[q] == j by {
        let p0 = n - 1 - p;
        assert(r[p] == subset[p0]);
        assert(held_back(gates[subset[p0] as int], gates[j]));
        let q0 = choose|q: int| 1 <= q < p0 && subset[q] == j;
        assert(r[n - 1 - q0] == subset[q0]);
    }
}

/// A chain that grows by a gate without future dependencies is a growing
/// chain again.
pub proof fn lemma_chain_grows(subset: Seq<usize>, gates: Seq<Gate>, top: usize, add: usize)
    requires
        is_growing_chain(subset, gates, top),
        gates.len() <= usize::MAX,
        add < top,
        !subset.contains(add),
        future_dependencies(gates, add as int, subset.to_set(), add + 1, top as int).len() == 0,
    ensures
        is_growing_chain(subset.push(add), gates, top),
{
    let next = subset.push(add);
    let n = subset.len() as int;
    assert forall|a: int, b: int| 0 <= a < next.len() && 0 <= b < next.len() && a != b implies next[a]
        != next[b] by {
        if a == n {
            assert(subset[b] == next[b]);
        } else if b == n {
            assert(subset[a] == next[a]);
        }
    }
    assert forall|p: int, j: int|
        1 <= p < next.len() && next[p] < j < top && #[trigger] held_back(
            gates[next[p] as int],
            gates[j],
        ) implies exists|q: int| 1 <= q < p && next[q] == j by {
        if p < n {
            assert(next[p] == subset[p]);
            assert(held_back(gates[subset[p] as int], gates[j]));
            let q = choose|q: int| 1 <= q < p && subset[q] == j;
            assert(next[q] == j);
        } else {
            lemma_future_dependencies(gates, add as int, subset.to_set(), add + 1, top as int);
            if !subset.to_set().contains(j as usize) {
                assert(future_dependencies(
                    gates,
                    add as int,
                    subset.to_set(),
                    add + 1,
                    top as int,
                ).contains(j as usize));
            }
            assert(subset.contains(j as usize));
            let q = choose|q: int| 0 <= q < subset.len() && subset[q] == j as usize;
            assert(q != 0);
            assert(next[q] == j);
        }
    }
}

/// The list with one item more holds that item and what it held.
proof fn lemma_push_to_set(list: Seq<usize>, v: usize)
    ensures
        list.push(v).to_set() == list.to_set().insert(v),
{
    let next = list.push(v);
    assert forall|x: usize| next.to_set().contains(x) <==> list.to_set().insert(v).contains(x) by {
        if next.contains(x) {
            let q = choose|q: int| 0 <= q < next.len() && next[q] == x;
            if q < list.len() {
                assert(list[q] == x);
            }
        }
        if list.contains(x) {
            let q = choose|q: int| 0 <= q < list.len() && list[q] == x;
            assert(next[q] == x);
        }
        if x == v {
            assert(next[list.len() as int] == v);
        }
    }
    assert(next.to_set() =~= list.to_set().insert(v));
}

/// The set that grows from `subset`, which begins with gate `top`, while
/// `open` lists the gates on which it depends and that are not yet looked
/// at.  The first of them is taken from the list.  If it is not in the
/// set, the set grows by that gate at which the walk from it along the
/// future dependencies settles; the one that was taken goes back on the
/// list if the walk led away from it, and the list takes up what the new
/// member depends on.  The set is complete when the list is empty or the
/// set has `max_length` gates.
pub open spec fn grown(
    gates: Seq<Gate>,
    top: usize,
    max_length: usize,
    subset: Seq<usize>,
    open: Seq<usize>,
) -> Seq<usize>
    decreases
            (if max_length > 2 {
                max_length as int
            } else {
                2
            }) - subset.len(),
            open.len(),
{
    let bound = if max_length > 2 {
        max_length as int
    } else {
        2
    };
    if open.len() == 0 || subset.len() >= bound {
        subset
    } else if subset.contains(open[0]) {
        grown(gates, top, max_length, subset, open.skip(1))
    } else {
        let candidate = open[0];
        let add = settled(gates, candidate as int, subset.to_set(), top as int) as usize;
        let rest = if add != candidate {
            noted(open.skip(1), candidate)
        } else {
            open.skip(1)
        };
        let more = subset.push(add);
        if more.len() >= max_length {
            more
        } else {
            grown(
                gates,
                top,
                max_length,
                more,
                noted_each(
                    rest,
                    earlier_of(gates, add as int),
                    earlier_of(gates, add as int).len() as int,
                    more.to_set(),
                ),
            )
        }
    }
}

/// The set around gate `top` that `dependency_sort` gives: what grows
/// from this gate alone, in the order in which its gates may stand.
pub open spec fn set_around(gates: Seq<Gate>, top: usize, max_length: usize) -> Seq<usize> {
    grown(
        gates,
        top,
        max_length,
        seq![top],
        noted_each(
            Seq::empty(),
            earlier_of(gates, top as int),
            earlier_of(gates, top as int).len() as int,
            Set::empty(),
        ),
    ).reverse()
}

/// A set of gates around `node` that can be taken out of the circuit
/// together.  It grows from `node` backwards: of the gates on which the
/// set depends, the earliest is taken up next, or in its place the one at
/// which a walk along its future dependencies ends, so that nothing that
/// has to stay behind a gate of the set is left between that gate and
/// `node`.  The set is complete when it has `max_length` gates (two at
/// least), or when it depends on nothing more.  It is returned in the
/// order in which the gates may stand, `node` last.
pub fn dependency_sort(
    d_map: &HashMap<usize, Vec<usize>>,
    node: &DependencyData,
    max_length: usize,
    nodes: &Vec<DependencyData>,
    gates: &Vec<Gate>,
) -> (subset: Vec<usize>)
    requires
        is_dependency_graph(nodes@, gates@),
        is_dependency_map(d_map@, nodes@),
        node.index < gates.len(),
        node.describes(gates@, node.index as int),
    ensures
        subset@ == set_around(gates@, node.index, max_length),
        is_closed_chain(subset@, gates@, node.index),
        subset.len() <= max_length || subset.len() <= 2,
        node.prev_dependencies.len() == 0 ==> subset@ == seq![node.index],
        node.prev_dependencies.len() > 0 ==> subset.len() >= 2,
{
    let top = node.index;
    let bound: usize = if max_length > 2 {
        max_length
    } else {
        2
    };
    let mut current_subset: Vec<usize> = Vec::new();
    let mut current_subset_set: HashSet<usize> = HashSet::new();
    let mut non_explored_dependencies: Vec<usize> = Vec::new();
    current_subset.push(top);
    current_subset_set.insert(top);
    proof {
        lemma_push_to_set(Seq::<usize>::empty(), top);
        assert(current_subset@ == Seq::<usize>::empty().push(top));
        assert(Seq::<usize>::empty().to_set() =~= Set::<usize>::empty());
    }
    let mut k: usize = 0;
    while k < node.prev_dependencies.len()
        invariant
            k <= node.prev_dependencies.len(),
            top == node.index,
            top < gates.len(),
            node.describes(gates@, top as int),
            forall|x: usize| non_explored_dependencies@.contains(x) ==> x < top,
            k > 0 ==> non_explored_dependencies.len() > 0,
            non_explored_dependencies.len() <= k,
            non_explored_dependencies@ == noted_each(
                Seq::empty(),
                earlier_of(gates@, top as int),
                k as int,
                Set::empty(),
            ),
        decreases node.prev_dependencies.len() - k,
    {
        proof {
            lemma_earlier_of(gates@, top as int, k as int);
        }
        note_dependency(&mut non_explored_dependencies, node.prev_dependencies[k]);
        k += 1;
    }
    let ghost started = non_explored_dependencies.len() > 0;
    let ghost first = current_subset@;
    let ghost open = non_explored_dependencies@;
    proof {
        assert(first =~= seq![top]);
    }
    loop
        invariant_except_break
            current_subset.len() < bound,
            grown(gates@, top, max_length, first, open) == grown(
                gates@,
                top,
                max_length,
                current_subset@,
                non_explored_dependencies@,
            ),
        invariant
            is_dependency_graph(nodes@, gates@),
            is_dependency_map(d_map@, nodes@),
            top < gates.len(),
            bound >= 2,
            bound >= max_length,
            max_length > 2 ==> bound == max_length,
            max_length <= 2 ==> bound == 2,
            is_growing_chain(current_subset@, gates@, top),
            current_subset_set@ == current_subset@.to_set(),
            forall|x: usize| non_explored_dependencies@.contains(x) ==> x < top,
            current_subset.len() <= bound,
            current_subset.len() == 1 ==> (non_explored_dependencies.len() > 0) == started,
            current_subset.len() > 1 ==> started,
        ensures
            is_growing_chain(current_subset@, gates@, top),
            current_subset.len() <= bound,
            (current_subset.len() == 1) == !started,
            grown(gates@, top, max_length, first, open) == current_subset@,
        decreases bound - current_subset.len(), non_explored_dependencies.len(),
    {
        if non_explored_dependencies.len() == 0 {
            break;
        }
        let ghost before = non_explored_dependencies@;
        let ghost set_before = current_subset@;
        let candidate = non_explored_dependencies.remove(0);
        proof {
            assert(non_explored_dependencies@ =~= before.skip(1));
            assert(before.contains(before[0]));
            assert forall|x: usize| non_explored_dependencies@.contains(x) implies x < top by {
                let q = choose|q: int|
                    0 <= q < non_explored_dependencies@.len() && non_explored_dependencies@[q] == x;
                assert(before[q + 1] == x);
                assert(before.contains(x));
            }
        }
        if !current_subset_set.contains(&candidate) {
            let (past_depend, add_node) = need_to_add_as_well(
                d_map,
                &current_subset,
                &current_subset_set,
                candidate,
                top,
                nodes,
                gates,
            );
            proof {
                lemma_nothing_left_behind(nodes@, d_map@, gates@, current_subset@, add_node, top);
                assert(past_depend.len() == 0);
                lemma_chain_grows(current_subset@, gates@, top, add_node);
                lemma_push_to_set(current_subset@, add_node);
            }
            if add_node != candidate {
                note_dependency(&mut non_explored_dependencies, candidate);
            }
            current_subset.push(add_node);
            current_subset_set.insert(add_node);
            let ghost rest = non_explored_dependencies@;
            proof {
                assert(set_before.to_set().contains(candidate) == set_before.contains(candidate));
                assert(current_subset@ == set_before.push(add_node));
                assert(before[0] == candidate);
                assert(settled(gates@, candidate as int, set_before.to_set(), top as int) as usize
                    == add_node);
                assert(rest == if add_node != candidate {
                    noted(before.skip(1), candidate)
                } else {
                    before.skip(1)
                });
                assert(grown(gates@, top, max_length, first, open) == grown(
                    gates@,
                    top,
                    max_length,
                    set_before,
                    before,
                ));
                if current_subset.len() >= max_length {
                    assert(grown(gates@, top, max_length, set_before, before) == current_subset@);
                } else {
                    assert(grown(gates@, top, max_length, set_before, before) == grown(
                        gates@,
                        top,
                        max_length,
                        current_subset@,
                        noted_each(
                            rest,
                            earlier_of(gates@, add_node as int),
                            earlier_of(gates@, add_node as int).len() as int,
                            current_subset@.to_set(),
                        ),
                    ));
                }
            }
            if current_subset.len() >= max_length {
                break;
            }
            let earlier = &nodes[add_node].prev_dependencies;
            assert(nodes[add_node as int].describes(gates@, add_node as int));
            let mut k: usize = 0;
            while k < earlier.len()
                invariant
                    k <= earlier.len(),
                    add_node < top < gates.len(),
                    earlier@ == earlier_of(gates@, add_node as int),
                    forall|x: usize| non_explored_dependencies@.contains(x) ==> x < top,
                    non_explored_dependencies@ == noted_each(
                        rest,
                        earlier@,
                        k as int,
                        current_subset_set@,
                    ),
                decreases earlier.len() - k,
            {
                let i = earlier[k];
                proof {
                    lemma_earlier_of(gates@, add_node as int, k as int);
                }
                if !current_subset_set.contains(&i) {
                    note_dependency(&mut non_explored_dependencies, i);
                }
                k += 1;
            }
        }
    }
    proof {
        lemma_reverse_chain(current_subset@, gates@, top);
        if current_subset.len() == 1 {
            assert(current_subset@.reverse() =~= seq![top]);
        }
        assert(node.prev_dependencies@.len() == earlier_of(gates@, top as int).len());
    }
    reversed(&current_subset)
}

/// The places that a replayable source picks, one for each count from
/// `curr` down to one, each below its count.
pub open spec fn picked_places<R: RandomSource>(curr: nat, rng: R) -> Seq<usize>
    decreases curr,
{
    if curr == 0 {
        Seq::empty()
    } else {
        seq![rng.next_draw(curr as usize)] + picked_places(
            (curr - 1) as nat,
            rng.after_draw(curr as usize),
        )
    }
}

/// A replayable source after it has picked a place for each count from
/// `curr` down to one.
pub open spec fn after_picks<R: RandomSource>(curr: nat, rng: R) -> R
    decreases curr,
{
    if curr == 0 {
        rng
    } else {
        after_picks((curr - 1) as nat, rng.after_draw(curr as usize))
    }
}

/// `entry` holds what one of the first `upto` entries of `d` holds.
pub open spec fn picked_from(entry: DependencyData, d: Seq<DependencyData>, upto: int) -> bool {
    exists|i: int| 0 <= i < upto && i < d.len() && entry.same(&#[trigger] d[i])
}

/// As many entries as `d` has, each picked at random from `d`: the first
/// among all of them, each further one among one entry less, counted from
/// the front.  An entry may be picked more than once.
pub fn dependency_shuffle<R: RandomSource>(d: &Vec<DependencyData>, rng: &mut R) -> (shuffled: Vec<
    DependencyData,
>)
    ensures
        shuffled.len() == d.len(),
        forall|k: int|
            0 <= k < shuffled.len() ==> picked_from(#[trigger] shuffled[k], d@, d.len() - k),
        final(rng).replayable() == old(rng).replayable(),
        old(rng).replayable() ==> forall|k: int|
            0 <= k < shuffled.len() ==> (#[trigger] shuffled[k]).same(
                &d[picked_places(d.len() as nat, *old(rng))[k] as int],
            ) && picked_places(d.len() as nat, *old(rng))[k] < d.len() - k,
        old(rng).replayable() ==> *final(rng) == after_picks(d.len() as nat, *old(rng)),
{
    let mut shuffled: Vec<DependencyData> = Vec::new();
    let mut curr = d.len();
    let ghost mut places: Seq<usize> = Seq::empty();
    while curr != 0
        invariant
            curr <= d.len(),
            shuffled.len() == d.len() - curr,
            places.len() == shuffled.len(),
            forall|k: int| 0 <= k < shuffled.len() ==> #[trigger] places[k] < d.len() - k,
            forall|k: int|
                0 <= k < shuffled.len() ==> (#[trigger] shuffled[k]).same(&d[places[k] as int]),
            rng.replayable() == old(rng).replayable(),
            old(rng).replayable() ==> picked_places(d.len() as nat, *old(rng)) == places
                + picked_places(curr as nat, *rng),
            old(rng).replayable() ==> after_picks(d.len() as nat, *old(rng)) == after_picks(
                curr as nat,
                *rng,
            ),
        decreases curr,
    {
        let ghost before = *rng;
        let ghost done = shuffled@;
        let ghost earlier = places;
        let random_index = rng.below(curr);
        proof {
            if old(rng).replayable() {
                let rest = picked_places((curr - 1) as nat, *rng);
                assert(picked_places(curr as nat, before) == seq![random_index] + rest);
                assert(places + (seq![random_index] + rest) =~= places.push(random_index) + rest);
            }
            places = places.push(random_index);
        }
        curr -= 1;
        shuffled.push(d[random_index].clone());
        proof {
            assert forall|k: int| 0 <= k < shuffled.len() implies #[trigger] places[k] < d.len()
                - k by {
                if k < done.len() {
                    assert(places[k] == earlier[k]);
                }
            }
            assert forall|k: int| 0 <= k < shuffled.len() implies (#[trigger] shuffled[k]).same(
                &d[places[k] as int],
            ) by {
                if k < done.len() {
                    assert(shuffled[k] == done[k]);
                    assert(places[k] == earlier[k]);
                }
            }
        }
    }
    proof {
        if old(rng).replayable() {
            assert(places + picked_places(0, *rng) =~= places);
        }
        assert forall|k: int| 0 <= k < shuffled.len() implies picked_from(
            #[trigger] shuffled[k],
            d@,
            d.len() - k,
        ) by {
            assert(places[k] < d.len() - k);
            assert(shuffled[k].same(&d@[places[k] as int]));
        }
    }
    shuffled
}

/// The gates of `subset` can be taken out of the circuit together, around
/// the last of them.
pub open spec fn is_convex_subset(subset: Seq<usize>, gates: Seq<Gate>) -> bool {
    subset.len() >= 1 && is_closed_chain(subset, gates, subset.last())
}

/// No gate before the last gate of a closed chain depends on the chain
/// without being in it.
pub proof fn lemma_chain_taints_nothing(
    subset: Seq<usize>,
    gates: Seq<Gate>,
    top: usize,
    sel: Seq<usize>,
    i: int,
)
    requires
        is_closed_chain(subset, gates, top),
        forall|x: int| selected(sel, x) <==> 0 <= x <= usize::MAX && subset.contains(x as usize),
        0 <= i < top,
    ensures
        !tainted(gates, sel, i),
    decreases i,
{
    if tainted(gates, sel, i) {
        let d = choose|d: int|
            0 <= d < i && (selected(sel, d) || tainted(gates, sel, d)) && #[trigger] collides(
                gates[d],
                gates[i],
            );
        lemma_chain_taints_nothing(subset, gates, top, sel, d);
        assert(subset.contains(d as usize));
        let p = choose|p: int| 0 <= p < subset.len() && subset[p] == d as usize;
        assert(p < subset.len() - 1);
        assert(held_back(gates[subset[p] as int], gates[i]));
        let q = choose|q: int| p < q < subset.len() - 1 && subset[q] == i;
        assert(subset.contains(i as usize));
        assert(selected(sel, i));
    }
}

/// The gates of a closed chain, listed in their order in the circuit, are
/// a convex selection: no dependency leads out of them and back in.
pub proof fn lemma_closed_chain_convex(
    subset: Seq<usize>,
    gates: Seq<Gate>,
    top: usize,
    sel: Seq<usize>,
)
    requires
        is_closed_chain(subset, gates, top),
        is_selection(sel, gates.len() as int),
        forall|x: int| selected(sel, x) <==> 0 <= x <= usize::MAX && subset.contains(x as usize),
    ensures
        convex(gates, sel),
{
    assert forall|k: int, i: int|
        0 <= k < sel.len() && 0 <= i < sel[k] && tainted(gates, sel, i) implies !#[trigger] collides(
            gates[sel[k] as int],
            gates[i],
        ) by {
        assert(selected(sel, sel[k] as int));
        assert(subset.contains(sel[k]));
        let p = choose|p: int| 0 <= p < subset.len() && subset[p] == sel[k];
        assert(sel[k] <= top) by {
            if p < subset.len() - 1 {
                assert(subset[p] < top);
            }
        }
        lemma_chain_taints_nothing(subset, gates, top, sel, i);
    }
}

/// Of the sets around the first `upto` gates of `picks`, those that have
/// `subset_size` gates at least, in the order of the picks.
pub open spec fn sets_around(gates: Seq<Gate>, picks: Seq<usize>, subset_size: usize, upto: int) -> Seq<
    Seq<usize>,
>
    decreases upto,
{
    if upto <= 0 {
        Seq::empty()
    } else {
        let before = sets_around(gates, picks, subset_size, upto - 1);
        let set = set_around(gates, picks[upto - 1], subset_size);
        if set.len() >= subset_size {
            before.push(set)
        } else {
            before
        }
    }
}

/// What the lists hold.
pub open spec fn lists_of(subsets: Seq<Vec<usize>>) -> Seq<Seq<usize>> {
    Seq::new(subsets.len(), |i: int| subsets[i]@)
}

/// There are as many picked places as the count says.
pub proof fn lemma_picked_len<R: RandomSource>(curr: nat, rng: R)
    ensures
        picked_places(curr, rng).len() == curr,
    decreases curr,
{
    if curr > 0 {
        lemma_picked_len((curr - 1) as nat, rng.after_draw(curr as usize));
    }
}

/// Sets of `subset_size` gates at least that can each be taken out of
/// the circuit together: around each of as many gates as the circuit has,
/// picked at random, a set is grown; those that come to `subset_size`
/// gates are returned, in the order of the picks.  Where one gate is
/// enough there is a set for each pick, and it ends with what was picked.
pub fn find_convex_subsets<R: RandomSource>(
    subset_size: usize,
    gates: &Vec<Gate>,
    rng: &mut R,
) -> (subsets: Vec<Vec<usize>>)
    ensures
        subsets.len() <= gates.len(),
        forall|k: int|
            0 <= k < subsets.len() ==> (#[trigger] subsets[k]).len() >= subset_size
                && is_convex_subset(subsets[k]@, gates@),
        forall|k: int|
            0 <= k < subsets.len() ==> (#[trigger] subsets[k]).len() <= subset_size
                || subsets[k].len() <= 2,
        subset_size <= 1 ==> subsets.len() == gates.len(),
        subset_size <= 1 ==> forall|k: int|
            0 <= k < subsets.len() ==> (#[trigger] subsets[k])@.last() < gates.len() - k,
        subset_size <= 1 && old(rng).replayable() ==> forall|k: int|
            0 <= k < subsets.len() ==> (#[trigger] subsets[k])@.last() == picked_places(
                gates.len() as nat,
                *old(rng),
            )[k],
        final(rng).replayable() == old(rng).replayable(),
        old(rng).replayable() ==> *final(rng) == after_picks(gates.len() as nat, *old(rng)),
        exists|picks: Seq<usize>|
            {
                &&& picks.len() == gates.len()
                &&& forall|j: int| 0 <= j < picks.len() ==> #[trigger] picks[j] < gates.len() - j
                &&& lists_of(subsets@) == #[trigger] sets_around(
                    gates@,
                    picks,
                    subset_size,
                    gates.len() as int,
                )
            },
        old(rng).replayable() ==> lists_of(subsets@) == sets_around(
            gates@,
            picked_places(gates.len() as nat, *old(rng)),
            subset_size,
            gates.len() as int,
        ),
{
    let mut subsets: Vec<Vec<usize>> = Vec::new();
    let dg = create_dependency_graph(gates);
    let d_map = dependency_graph_to_map(&dg);
    let ghost source = *rng;
    let reversed = dependency_shuffle(&dg, rng);
    proof {
        if source.replayable() {
            assert forall|p: int| 0 <= p < reversed.len() implies (#[trigger] reversed[p]).same(
                &dg[picked_places(dg.len() as nat, source)[p] as int],
            ) && picked_places(dg.len() as nat, source)[p] < dg.len() - p by {
            }
        }
    }
    let ghost picks = Seq::new(reversed.len() as nat, |p: int| reversed[p].index);
    proof {
        assert(lists_of(subsets@) =~= sets_around(gates@, picks, subset_size, 0));
    }
    let mut k: usize = 0;
    while k < reversed.len()
        invariant
            k <= reversed.len(),
            reversed.len() == dg.len(),
            dg.len() == gates.len(),
            picks == Seq::new(reversed.len() as nat, |p: int| reversed[p].index),
            lists_of(subsets@) == sets_around(gates@, picks, subset_size, k as int),
            is_dependency_graph(dg@, gates@),
            is_dependency_map(d_map@, dg@),
            subsets.len() <= k,
            subset_size <= 1 ==> subsets.len() == k,
            forall|p: int|
                0 <= p < reversed.len() ==> picked_from(#[trigger] reversed[p], dg@, dg.len() - p),
            source.replayable() ==> forall|p: int|
                0 <= p < reversed.len() ==> (#[trigger] reversed[p]).same(
                    &dg[picked_places(dg.len() as nat, source)[p] as int],
                ) && picked_places(dg.len() as nat, source)[p] < dg.len() - p,
            forall|p: int|
                0 <= p < subsets.len() ==> (#[trigger] subsets[p]).len() >= subset_size
                    && is_convex_subset(subsets[p]@, gates@),
            forall|p: int|
                0 <= p < subsets.len() ==> (#[trigger] subsets[p]).len() <= subset_size
                    || subsets[p].len() <= 2,
            subset_size <= 1 ==> forall|p: int|
                0 <= p < subsets.len() ==> (#[trigger] subsets[p])@.last() == reversed[p].index,
        decreases reversed.len() - k,
    {
        let node = &reversed[k];
        proof {
            assert(picked_from(reversed[k as int], dg@, dg.len() - k));
            let i = choose|i: int|
                0 <= i < dg.len() - k && i < dg.len() && reversed[k as int].same(&#[trigger] dg@[i]);
            assert(dg[i].describes(gates@, i));
        }
        let subset = dependency_sort(&d_map, node, subset_size, &dg, gates);
        proof {
            assert(picks[k as int] == node.index);
        }
        if subset.len() >= subset_size {
            let ghost found = subsets@;
            let ghost set = subset@;
            subsets.push(subset);
            proof {
                assert(lists_of(subsets@) =~= lists_of(found).push(set));
                assert forall|p: int| 0 <= p < subsets.len() implies (#[trigger] subsets[p]).len()
                    >= subset_size && is_convex_subset(subsets[p]@, gates@) by {
                    if p < found.len() {
                        assert(subsets[p] == found[p]);
                    }
                }
                assert forall|p: int| 0 <= p < subsets.len() implies (#[trigger] subsets[p]).len()
                    <= subset_size || subsets[p].len() <= 2 by {
                    if p < found.len() {
                        assert(subsets[p] == found[p]);
                    }
                }
                if subset_size <= 1 {
                    assert forall|p: int| 0 <= p < subsets.len() implies (
                    #[trigger] subsets[p])@.last() == reversed[p].index by {
                        if p < found.len() {
                            assert(subsets[p] == found[p]);
                        }
                    }
                }
            }
        }
        k += 1;
    }
    proof {
        assert forall|j: int| 0 <= j < picks.len() implies #[trigger] picks[j] < gates.len() - j by {
            assert(picked_from(reversed[j], dg@, dg.len() - j));
            let i = choose|i: int|
                0 <= i < dg.len() - j && i < dg.len() && reversed[j].same(&#[trigger] dg@[i]);
            assert(dg[i].describes(gates@, i));
        }
        if source.replayable() {
            let picked = picked_places(gates.len() as nat, source);
            lemma_picked_len(gates.len() as nat, source);
            assert forall|j: int| 0 <= j < picks.len() implies picks[j] == picked[j] by {
                let i = picked[j] as int;
                assert(reversed[j].same(&dg[i]));
                assert(dg[i].describes(gates@, i));
            }
            assert(picks =~= picked);
        }
        if subset_size <= 1 {
            assert forall|p: int| 0 <= p < subsets.len() implies (#[trigger] subsets[p])@.last()
                < gates.len() - p by {
                assert(picked_from(reversed[p], dg@, dg.len() - p));
                let i = choose|i: int|
                    0 <= i < dg.len() - p && i < dg.len() && reversed[p].same(&#[trigger] dg@[i]);
                assert(dg[i].describes(gates@, i));
            }
            if source.replayable() {
                assert forall|p: int| 0 <= p < subsets.len() implies (
                #[trigger] subsets[p])@.last() == picked_places(gates.len() as nat, source)[p] by {
                    let i = picked_places(dg.len() as nat, source)[p] as int;
                    assert(reversed[p].same(&dg[i]));
                    assert(dg[i].describes(gates@, i));
                }
            }
        }
    }
    subsets
}

} // verus!
