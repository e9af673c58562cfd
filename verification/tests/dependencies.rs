use local_mixing::circuit::{Circuit, Gate};
use local_mixing::compression::chunks::{
    join_chunks, rearranged, run_compression_strategy_one, split_into_chunks,
};
use local_mixing::compression::runner::StrategyOneRunner;
use local_mixing::compression::subgraph::{
    dependency_data, enumerate_subgraphs, permute_around_subgraph, shuffle_gates_pairwise,
};
use local_mixing::local_mixing::search::{find_convex_gate_ids, permute_circuit};
use local_mixing::random::ChaChaSource;
use local_mixing::replacement::lfsr::LFSR128;

fn gate(wires: [usize; 3]) -> Gate {
    Gate { wires, control_func: 6, generation: 0 }
}

#[test]
fn dependencies_follow_chains_of_collisions() {
    // 0 -> 1 -> 2, and 3 stands alone
    let gates = vec![gate([0, 1, 2]), gate([3, 0, 4]), gate([5, 3, 6]), gate([7, 8, 9])];
    let data = dependency_data(&gates);
    assert_eq!(data.successors, vec![vec![1, 2], vec![2], vec![], vec![]]);
    assert_eq!(data.predecessors, vec![vec![], vec![0], vec![0, 1], vec![]]);
    let none = dependency_data(&[]);
    assert!(none.successors.is_empty() && none.predecessors.is_empty());
}

#[test]
fn the_two_permutations_agree() {
    let mut rng = ChaChaSource::from_seed(51);
    let mut compared = 0;
    for _ in 0..100 {
        let circuit = Circuit::random(9, 30, &mut rng);
        if let Some((ids, _)) = find_convex_gate_ids(&circuit, 3, 100, &mut rng) {
            let data = dependency_data(&circuit.gates);
            let (gates, start) = permute_around_subgraph(&circuit.gates, &ids, &data);
            let mut other = Circuit { num_wires: 9, gates: circuit.gates.clone() };
            let other_start = permute_circuit(&mut other, &ids);
            assert_eq!(gates, other.gates);
            assert_eq!(start, other_start);
            compared += 1;
        }
    }
    assert!(compared > 0);
}

#[test]
fn pairwise_shuffles_keep_the_function() {
    let mut rng = ChaChaSource::from_seed(52);
    let circuit = Circuit::random(8, 60, &mut rng);
    let mut gates = circuit.gates.clone();
    shuffle_gates_pairwise(&mut gates, 20, 8, &mut rng);
    assert_eq!(gates.len(), 60);
    assert!(gates != circuit.gates);
    let mut sorted_before: Vec<_> = circuit.gates.iter().map(|g| (g.wires, g.control_func)).collect();
    let mut sorted_after: Vec<_> = gates.iter().map(|g| (g.wires, g.control_func)).collect();
    sorted_before.sort();
    sorted_after.sort();
    assert_eq!(sorted_before, sorted_after);
    let shuffled = Circuit { num_wires: 8, gates };
    for x in 0..(1u32 << 8) {
        let input: Vec<bool> = (0..8).map(|w| x & (1 << w) != 0).collect();
        assert_eq!(circuit.evaluate(&input), shuffled.evaluate(&input));
    }
    let mut same = circuit.gates.clone();
    shuffle_gates_pairwise(&mut same, 0, 8, &mut rng);
    assert_eq!(same, circuit.gates);
    let mut one = vec![gate([0, 1, 2])];
    shuffle_gates_pairwise(&mut one, 5, 8, &mut rng);
    assert_eq!(one, vec![gate([0, 1, 2])]);
}

#[test]
fn subgraphs_grow_along_collisions() {
    let gates = vec![gate([0, 1, 2]), gate([3, 0, 4]), gate([5, 3, 6]), gate([7, 8, 9])];
    let data = dependency_data(&gates);
    let (ids, block) = enumerate_subgraphs(&gates, &data, 3, 2).unwrap();
    assert_eq!(ids, vec![0, 1, 2]);
    assert_eq!(block, vec![gates[0], gates[1], gates[2]]);
    let (ids, block) = enumerate_subgraphs(&gates, &data, 1, 1).unwrap();
    assert_eq!((ids, block), (vec![0], vec![gates[0]]));
    // the last gate collides with none
    assert!(enumerate_subgraphs(&gates, &data, 4, 2).is_none());
    assert!(enumerate_subgraphs(&[], &dependency_data(&[]), 1, 1).is_none());
    // a set may grow by a gate ahead of it
    let gates = vec![gate([9, 10, 11]), gate([3, 0, 4]), gate([0, 1, 2])];
    let data = dependency_data(&gates);
    let found = enumerate_subgraphs(&gates, &data, 2, 2);
    if let Some((ids, block)) = found {
        assert_eq!(ids.len(), 2);
        assert!(ids[0] < ids[1]);
        assert_eq!(block, vec![gates[ids[0]], gates[ids[1]]]);
    }
}

#[test]
fn the_runner_keeps_the_function() {
    let mut rng = ChaChaSource::from_seed(53);
    let circuit = Circuit::random(8, 200, &mut rng);
    let mut runner = StrategyOneRunner::init(3, circuit.gates.clone(), 8);
    assert_eq!((runner.id, runner.num_wires), (3, 8));
    runner.run(&mut rng);
    assert_eq!(runner.gates.len(), 200);
    assert!(runner.gates != circuit.gates);
    let after = Circuit { num_wires: 8, gates: runner.gates.clone() };
    for x in 0..(1u32 << 8) {
        let input: Vec<bool> = (0..8).map(|w| x & (1 << w) != 0).collect();
        assert_eq!(circuit.evaluate(&input), after.evaluate(&input));
    }
    let part = runner.optimize_subset(3, 2, &circuit.gates[..20]);
    assert_eq!(part.len(), 20);
    let mut none = StrategyOneRunner::init(0, vec![], 8);
    none.run(&mut rng);
    assert!(none.gates.is_empty());
}

#[test]
fn gates_are_split_into_even_parts() {
    let mut rng = ChaChaSource::from_seed(77);
    let circuit = Circuit::random(6, 10, &mut rng);
    let parts = split_into_chunks(&circuit.gates, 4);
    let sizes: Vec<usize> = parts.iter().map(|p| p.len()).collect();
    assert_eq!(sizes, vec![2, 2, 3, 3]);
    assert_eq!(join_chunks(&parts), circuit.gates);
    let more = split_into_chunks(&circuit.gates, 12);
    assert_eq!(more.len(), 12);
    assert!(more.iter().all(|p| p.len() <= 1));
    assert_eq!(join_chunks(&more), circuit.gates);
    let one = split_into_chunks(&circuit.gates, 1);
    assert_eq!(one, vec![circuit.gates.clone()]);
    let none = split_into_chunks(&Vec::new(), 3);
    assert_eq!(none, vec![Vec::<Gate>::new(); 3]);
    assert!(join_chunks(&none).is_empty());
}

#[test]
fn parts_are_rearranged_on_the_pool() {
    let mut rng = ChaChaSource::from_seed(78);
    let circuit = Circuit::random(8, 400, &mut rng);
    let after = run_compression_strategy_one(&circuit, &mut rng);
    assert_eq!(after.num_wires, 8);
    assert_eq!(after.gates.len(), 400);
    assert!(after.is_well_formed());
    assert!(after.gates != circuit.gates);
    for input in 0..256u32 {
        let state: Vec<bool> = (0..8).map(|w| (input >> w) & 1 == 1).collect();
        assert_eq!(circuit.evaluate(&state), after.evaluate(&state));
    }
    let part = rearranged(5, circuit.gates[..50].to_vec(), 8, &mut rng);
    assert_eq!(part.len(), 50);
}

#[test]
fn test_enumerate_subgraph() {
    let c = Circuit::random(64, 20, &mut ChaChaSource::from_seed(93)).gates;
    let dd = dependency_data(&c);
    if let Some((ids, block)) = enumerate_subgraphs(&c, &dd, 10, 10) {
        assert_eq!(ids.len(), 10);
        assert!(ids.windows(2).all(|w| w[0] < w[1]));
        assert_eq!(block, ids.iter().map(|&i| c[i]).collect::<Vec<Gate>>());
    }
}

#[test]
fn a_register_sets_the_exchanges() {
    let gates = vec![gate([0, 1, 2]), gate([3, 4, 5]), gate([5, 6, 7]), gate([1, 6, 7])];
    let mut register = LFSR128::new(0b1011_0110_1101);
    let mut states = register;
    let mut shuffled = gates.clone();
    shuffle_gates_pairwise(&mut shuffled, 3, 8, &mut register);
    let mut expected = gates.clone();
    for _ in 0..3 {
        for i in 0..expected.len() - 1 {
            let coin = (states.next().unwrap() as usize) % 2 == 1;
            if coin && !expected[i].collides_with(&expected[i + 1]) {
                expected.swap(i, i + 1);
            }
        }
    }
    assert_eq!(shuffled, expected);
    assert_eq!(register.state, states.state);
    assert!(shuffled != gates);
}

#[test]
fn one_gate_asked_for_is_the_first() {
    let gates = vec![gate([0, 1, 2]), gate([3, 0, 4]), gate([5, 3, 6])];
    let data = dependency_data(&gates);
    let (ids, block) = enumerate_subgraphs(&gates, &data, 1, 1).unwrap();
    assert_eq!(ids, vec![0]);
    assert_eq!(block, vec![gates[0]]);
}
