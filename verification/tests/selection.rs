use local_mixing::circuit::circuit::check_equiv_probabilistic;
use local_mixing::circuit::{Circuit, Gate};
use local_mixing::local_mixing::consts::N_OUT_KND;
use local_mixing::local_mixing::search::{
    candidate_next_gates, find_convex_gate_ids, is_convex, permute_circuit,
};
use local_mixing::random::ChaChaSource;
use local_mixing::replacement::lfsr::LFSR128;

fn gate(wires: [usize; 3]) -> Gate {
    Gate { wires, control_func: 1, generation: 0 }
}

fn all_states(num_wires: usize) -> Vec<Vec<bool>> {
    (0..(1u32 << num_wires)).map(|x| (0..num_wires).map(|w| x & (1 << w) != 0).collect()).collect()
}

#[test]
fn test_find_convex() {
    let num_wires = 64;
    let num_gates = 10000;
    let mut rng = ChaChaSource::from_seed(31);
    for i in 0..1000 {
        let circuit = Circuit::random(num_wires, num_gates, &mut rng);
        let (convex_gate_ids, _) =
            find_convex_gate_ids(&circuit, N_OUT_KND, 100, &mut rng).expect("a convex chain");
        assert!(is_convex(&circuit, &convex_gate_ids), "failed at iteration {i}");
    }
}

#[test]
fn candidates_follow_the_last_gate() {
    // gate 1 depends on gate 0; gate 2 depends on gate 1 and so is counted
    // as connected; gate 3 collides with gate 0 alone
    let circuit = Circuit {
        num_wires: 12,
        gates: vec![
            gate([0, 1, 2]),
            gate([3, 0, 4]),
            gate([5, 3, 6]),
            gate([7, 0, 8]),
            gate([9, 10, 11]),
        ],
    };
    assert_eq!(candidate_next_gates(&circuit, &vec![0]), vec![1, 3]);
    assert_eq!(candidate_next_gates(&circuit, &vec![0, 1]), vec![2]);
    assert_eq!(candidate_next_gates(&circuit, &vec![0, 3]), Vec::<usize>::new());
    assert_eq!(candidate_next_gates(&circuit, &vec![4]), Vec::<usize>::new());
}

#[test]
fn convexity_is_broken_by_a_path_through_a_gate_between() {
    let circuit = Circuit {
        num_wires: 9,
        gates: vec![gate([0, 1, 2]), gate([3, 0, 4]), gate([5, 3, 6]), gate([7, 0, 8])],
    };
    assert!(is_convex(&circuit, &vec![0, 1]));
    assert!(is_convex(&circuit, &vec![0, 1, 2]));
    assert!(is_convex(&circuit, &vec![0, 3]));
    // gate 1 depends on gate 0, and gate 2 on gate 1
    assert!(!is_convex(&circuit, &vec![0, 2]));
    assert!(is_convex(&circuit, &vec![2]));
}

#[test]
fn selection_of_one_gate_always_succeeds() {
    let mut rng = ChaChaSource::from_seed(32);
    let circuit = Circuit::random(5, 7, &mut rng);
    for _ in 0..50 {
        let (ids, dist) = find_convex_gate_ids(&circuit, 1, 1, &mut rng).unwrap();
        assert_eq!(ids.len(), 1);
        assert!(ids[0] < 7);
        assert_eq!(dist, 0);
    }
    assert!(find_convex_gate_ids(&circuit, 1, 0, &mut rng).is_none());
}

#[test]
fn selection_fails_where_no_gates_collide() {
    let mut rng = ChaChaSource::from_seed(33);
    let circuit = Circuit {
        num_wires: 9,
        gates: vec![gate([0, 1, 2]), gate([3, 4, 5]), gate([6, 7, 8])],
    };
    assert!(find_convex_gate_ids(&circuit, 2, 100, &mut rng).is_none());
}

#[test]
fn selected_chains_are_convex_and_increasing() {
    let mut rng = ChaChaSource::from_seed(34);
    for _ in 0..200 {
        let circuit = Circuit::random(8, 30, &mut rng);
        if let Some((ids, dist)) = find_convex_gate_ids(&circuit, 3, 100, &mut rng) {
            assert_eq!(ids.len(), 3);
            assert!(ids[0] < ids[1] && ids[1] < ids[2] && ids[2] < 30);
            assert!(circuit.gates[ids[0]].collides_with(&circuit.gates[ids[1]]));
            assert!(circuit.gates[ids[1]].collides_with(&circuit.gates[ids[2]]));
            assert!(is_convex(&circuit, &ids));
            assert!(dist >= ids[2] - ids[0]);
        }
    }
}

#[test]
fn permutation_sorts_the_gates_between() {
    // gate 1 depends on gate 0 and goes behind; gate 2 is free and goes
    // ahead; gate 3 is selected
    let gates = vec![
        gate([9, 10, 11]),
        gate([0, 1, 2]),
        gate([3, 0, 4]),
        gate([5, 6, 7]),
        gate([8, 0, 6]),
        gate([1, 10, 11]),
    ];
    let mut circuit = Circuit { num_wires: 12, gates: gates.clone() };
    assert!(is_convex(&circuit, &vec![1, 4]));
    let start = permute_circuit(&mut circuit, &vec![1, 4]);
    assert_eq!(start, 2);
    assert_eq!(circuit.num_wires, 12);
    assert_eq!(
        circuit.gates,
        vec![gates[0], gates[3], gates[1], gates[4], gates[2], gates[5]]
    );
    let before = Circuit { num_wires: 12, gates };
    for state in all_states(12) {
        assert_eq!(before.evaluate(&state), circuit.evaluate(&state));
    }
}

#[test]
fn permutation_of_convex_chains_keeps_the_function() {
    let mut rng = ChaChaSource::from_seed(35);
    let mut moved = 0;
    for _ in 0..100 {
        let circuit = Circuit::random(10, 40, &mut rng);
        if let Some((ids, _)) = find_convex_gate_ids(&circuit, 4, 100, &mut rng) {
            let mut permuted = Circuit { num_wires: 10, gates: circuit.gates.clone() };
            let start = permute_circuit(&mut permuted, &ids);
            assert_eq!(permuted.gates.len(), 40);
            for (k, &id) in ids.iter().enumerate() {
                assert_eq!(permuted.gates[start + k], circuit.gates[id]);
            }
            assert_eq!(permuted.gates[..ids[0]], circuit.gates[..ids[0]]);
            assert_eq!(permuted.gates[ids[3] + 1..], circuit.gates[ids[3] + 1..]);
            assert_eq!(
                check_equiv_probabilistic(10, &circuit.gates, &permuted.gates, 200, &mut rng),
                Ok(())
            );
            moved += 1;
        }
    }
    assert!(moved > 0);
}

#[test]
fn two_colliding_gates_are_the_chain_of_two() {
    let circuit = Circuit {
        num_wires: 5,
        gates: vec![Gate::new(0, 1, 2, 4), Gate::new(3, 0, 4, 9)],
    };
    for seed in 0..20 {
        let mut rng = ChaChaSource::from_seed(seed);
        let (ids, dist) = find_convex_gate_ids(&circuit, 2, 1, &mut rng).expect("gates 0 and 1");
        assert_eq!(ids, vec![0, 1]);
        assert_eq!(dist, 1);
    }
    // two gates that do not collide are no chain
    let apart = Circuit {
        num_wires: 6,
        gates: vec![Gate::new(0, 1, 2, 4), Gate::new(3, 4, 5, 9)],
    };
    let mut rng = ChaChaSource::from_seed(7);
    assert_eq!(find_convex_gate_ids(&apart, 2, 5, &mut rng), None);
    assert_eq!(candidate_next_gates(&apart, &vec![0]), Vec::<usize>::new());
    assert_eq!(candidate_next_gates(&circuit, &vec![0]), vec![1]);
}

#[test]
fn a_register_sets_the_walk() {
    let mut rng = ChaChaSource::from_seed(33);
    let circuit = Circuit::random(6, 40, &mut rng);
    let mut register = LFSR128::new(0x1234_5678_9abc);
    let mut again = register;
    let found = find_convex_gate_ids(&circuit, 3, 10, &mut register);
    assert_eq!(found, find_convex_gate_ids(&circuit, 3, 10, &mut again));
    assert_eq!(register.state, again.state);
    if let Some((ids, _)) = found {
        // the first gate is the one that the first state gives
        let mut states = LFSR128::new(0x1234_5678_9abc);
        let mut firsts = Vec::new();
        for _ in 0..2000 {
            firsts.push((states.next().unwrap() as usize) % (40 - 3 + 1));
        }
        assert!(firsts.contains(&ids[0]));
        for k in 1..3 {
            assert!(candidate_next_gates(&circuit, &ids[..k].to_vec()).contains(&ids[k]));
        }
    }
}
