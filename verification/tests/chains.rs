use local_mixing::cc::subgraph::{
    create_dependency_graph, dependency_graph_to_map, dependency_shuffle, dependency_sort,
    find_convex_subsets, get_all_future_dependencies, need_to_add_as_well,
};
use local_mixing::circuit::{Circuit, Gate};
use local_mixing::local_mixing::search::is_convex;
use local_mixing::random::ChaChaSource;
use local_mixing::replacement::lfsr::LFSR128;
use std::collections::{HashMap, HashSet};

fn gate(wires: [usize; 3]) -> Gate {
    Gate { wires, control_func: 6, generation: 0 }
}

fn five_gates() -> Vec<Gate> {
    vec![gate([0, 1, 2]), gate([3, 0, 4]), gate([5, 6, 7]), gate([0, 3, 5]), gate([1, 8, 9])]
}

#[test]
fn test_create_dependency_graph() {
    let c = Circuit::random(20, 20, &mut ChaChaSource::from_seed(71)).gates;

    let data = create_dependency_graph(&c);

    assert!(c.len() == data.len());

    for i in 0..c.len() {
        println!("{}, {:?}", i, c[i]);
        println!("{}, {:?}", i, data[i]);
        assert_eq!(data[i].index, i);
        assert!(data[i].prev_dependencies.iter().all(|&d| d < i));
        assert!(data[i].depend_on_future.map_or(true, |f| f > i && f < c.len()));
    }
}

#[test]
fn test_create_dependency_map() {
    let c = Circuit::random(20, 20, &mut ChaChaSource::from_seed(72)).gates;

    let data = create_dependency_graph(&c);
    let d_map = dependency_graph_to_map(&data);

    assert!(c.len() == data.len());

    for i in 0..c.len() {
        println!("{}, {:?}", i, c[i]);
        println!("{}, {:?}", i, data[i]);
    }
    println!("d_map: {:?}", d_map);
    let listed: usize = d_map.values().map(|l| l.len()).sum();
    let named: usize = data.iter().map(|d| d.prev_dependencies.len()).sum();
    assert_eq!(listed, named);
    for (j, list) in &d_map {
        assert!(list.iter().all(|&i| data[i].prev_dependencies.contains(j)));
    }
}

#[test]
fn test_dependency_sort() {
    let mut rng = ChaChaSource::from_seed(73);
    let c = Circuit::random(64, 1000, &mut rng).gates;

    let dg = create_dependency_graph(&c);
    let d_map = dependency_graph_to_map(&dg);

    let reversed = dependency_shuffle(&dg, &mut rng);

    let mut long = 0;
    for node in reversed {
        let subset = dependency_sort(&d_map, &node, 5, &dg, &c);
        assert_eq!(subset.last(), Some(&node.index));
        assert!(subset.len() <= 5);
        if subset.len() >= 5 {
            long += 1;
            println!("{:?}", subset);
        }
    }
    assert!(long > 0);
}

#[test]
fn dependencies_of_five_gates() {
    let gates = five_gates();
    let dg = create_dependency_graph(&gates);
    let prev: Vec<Vec<usize>> = dg.iter().map(|d| d.prev_dependencies.clone()).collect();
    assert_eq!(prev, vec![vec![], vec![0], vec![], vec![1, 1, 2], vec![0]]);
    let future: Vec<Option<usize>> = dg.iter().map(|d| d.depend_on_future).collect();
    assert_eq!(future, vec![Some(1), Some(3), Some(3), None, None]);
    assert_eq!(dg.iter().map(|d| d.index).collect::<Vec<usize>>(), vec![0, 1, 2, 3, 4]);

    let d_map = dependency_graph_to_map(&dg);
    let mut expected = HashMap::new();
    expected.insert(0, vec![1, 4]);
    expected.insert(1, vec![3, 3]);
    expected.insert(2, vec![3]);
    assert_eq!(d_map, expected);

    assert!(create_dependency_graph(&vec![]).is_empty());
    assert!(dependency_graph_to_map(&vec![]).is_empty());
}

#[test]
fn future_dependencies_skip_the_chosen_gates() {
    let gates = five_gates();
    let dg = create_dependency_graph(&gates);
    let mut cache = HashMap::new();
    let none = HashSet::new();
    assert_eq!(get_all_future_dependencies(&mut cache, &dg[0], &none, 4, &gates), vec![1, 3]);
    assert_eq!(cache.get(&0), Some(&vec![1, 3]));
    // what the cache holds is returned as it is
    assert_eq!(get_all_future_dependencies(&mut cache, &dg[0], &none, 4, &gates), vec![1, 3]);
    let mut cache = HashMap::new();
    let chosen: HashSet<usize> = [3usize].into_iter().collect();
    assert_eq!(get_all_future_dependencies(&mut cache, &dg[0], &chosen, 4, &gates), vec![1]);
    let mut cache = HashMap::new();
    assert!(get_all_future_dependencies(&mut cache, &dg[0], &none, 1, &gates).is_empty());
    assert!(get_all_future_dependencies(&mut cache, &dg[3], &none, 5, &gates).is_empty());
    assert!(cache.is_empty());

    let d_map = dependency_graph_to_map(&dg);
    let subset = vec![4];
    let set: HashSet<usize> = subset.iter().copied().collect();
    // from gate 0 the walk goes to gate 3, the last that has to stay behind it
    assert_eq!(need_to_add_as_well(&d_map, &subset, &set, 0, 4, &dg, &gates), (vec![], 3));
    let subset = vec![4, 3, 1];
    let set: HashSet<usize> = subset.iter().copied().collect();
    assert_eq!(need_to_add_as_well(&d_map, &subset, &set, 0, 4, &dg, &gates), (vec![], 0));
}

#[test]
fn sets_grow_backwards_from_a_gate() {
    let gates = five_gates();
    let dg = create_dependency_graph(&gates);
    let d_map = dependency_graph_to_map(&dg);
    assert_eq!(dependency_sort(&d_map, &dg[3], 10, &dg, &gates), vec![2, 0, 1, 3]);
    assert_eq!(dependency_sort(&d_map, &dg[3], 2, &dg, &gates), vec![1, 3]);
    assert_eq!(dependency_sort(&d_map, &dg[3], 0, &dg, &gates), vec![1, 3]);
    assert_eq!(dependency_sort(&d_map, &dg[4], 10, &dg, &gates), vec![2, 0, 1, 3, 4]);
    assert_eq!(dependency_sort(&d_map, &dg[4], 3, &dg, &gates), vec![1, 3, 4]);
    assert_eq!(dependency_sort(&d_map, &dg[0], 10, &dg, &gates), vec![0]);
    assert_eq!(dependency_sort(&d_map, &dg[2], 10, &dg, &gates), vec![2]);
}

#[test]
fn picks_are_counted_from_the_front() {
    let gates = five_gates();
    let dg = create_dependency_graph(&gates);
    let mut rng = ChaChaSource::from_seed(74);
    let shuffled = dependency_shuffle(&dg, &mut rng);
    assert_eq!(shuffled.len(), 5);
    for (k, d) in shuffled.iter().enumerate() {
        assert!(d.index < 5 - k);
        assert_eq!(d.prev_dependencies, dg[d.index].prev_dependencies);
        assert_eq!(d.depend_on_future, dg[d.index].depend_on_future);
    }
    assert_eq!(shuffled[4].index, 0);
    // a register picks the places that its states give
    let mut register = LFSR128::new(7 + 3 * 5);
    let mut states = register;
    let shuffled = dependency_shuffle(&dg, &mut register);
    for k in 0..5 {
        let state = states.next().unwrap();
        assert_eq!(shuffled[k].index, (state as usize) % (5 - k));
    }
    assert!(dependency_shuffle(&vec![], &mut rng).is_empty());
}

#[test]
fn the_sets_that_are_found_are_convex() {
    let mut rng = ChaChaSource::from_seed(75);
    let circuit = Circuit::random(30, 200, &mut rng);
    let subsets = find_convex_subsets(6, &circuit.gates, &mut rng);
    assert!(!subsets.is_empty());
    assert!(subsets.len() <= 200);
    for subset in subsets {
        assert!(subset.len() >= 6);
        let top = *subset.last().unwrap();
        assert!(subset.iter().all(|&i| i <= top));
        let mut sorted = subset.clone();
        sorted.sort();
        sorted.dedup();
        assert_eq!(sorted.len(), subset.len());
        assert!(is_convex(&circuit, &sorted));
    }
    assert!(find_convex_subsets(3, &vec![], &mut rng).is_empty());
}

#[test]
fn each_pick_gives_a_set_where_one_gate_is_enough() {
    let gates = five_gates();
    let mut register = LFSR128::new(977);
    let mut states = register;
    let subsets = find_convex_subsets(1, &gates, &mut register);
    assert_eq!(subsets.len(), 5);
    let dg = create_dependency_graph(&gates);
    let d_map = dependency_graph_to_map(&dg);
    for k in 0..5 {
        let pick = (states.next().unwrap() as usize) % (5 - k);
        assert_eq!(subsets[k].last(), Some(&pick));
        assert_eq!(subsets[k], dependency_sort(&d_map, &dg[pick], 1, &dg, &gates));
    }
    assert_eq!(register.state, states.state);
    // sets of three gates at least: those around the gates 3 and 4
    let mut register = LFSR128::new(977);
    let mut states = register;
    let subsets = find_convex_subsets(3, &gates, &mut register);
    let mut expected = Vec::new();
    for k in 0..5 {
        let pick = (states.next().unwrap() as usize) % (5 - k);
        let set = dependency_sort(&d_map, &dg[pick], 3, &dg, &gates);
        if set.len() >= 3 {
            expected.push(set);
        }
    }
    assert_eq!(subsets, expected);
}
