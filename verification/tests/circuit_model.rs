use local_mixing::circuit::cf::Base2GateControlFunc;
use local_mixing::circuit::circuit::{agree_on_inputs, check_equiv_probabilistic};
use local_mixing::circuit::{Circuit, Gate};
use local_mixing::random::ChaChaSource;

fn gate(wires: [usize; 3], control_func: u8) -> Gate {
    Gate { wires, control_func, generation: 0 }
}

#[test]
fn evaluate_applies_gates_in_order() {
    let circuit = Circuit {
        num_wires: 3,
        gates: vec![Gate::new(0, 1, 2, 1), Gate::new(1, 0, 2, 6)],
    };
    let out = circuit.evaluate(&vec![false, true, true]);
    assert_eq!(out, vec![true, true, true]);
}

#[test]
fn control_functions_follow_their_codes() {
    for code in 0..16u8 {
        let f = Base2GateControlFunc::from_u8(code);
        for (k, (a, b)) in [(true, true), (true, false), (false, true), (false, false)]
            .into_iter()
            .enumerate()
        {
            assert_eq!(f.evaluate(a, b), (code >> k) & 1 == 1, "code {code} on {a} {b}");
        }
    }
    assert_eq!(Base2GateControlFunc::from_u8(6), Base2GateControlFunc::XOR);
    assert_eq!(Base2GateControlFunc::COUNT, 16);
}

#[test]
fn collision_is_target_against_control() {
    let a = Gate::new(0, 1, 2, 3);
    assert!(a.collides_with(&Gate::new(3, 0, 4, 3)));
    assert!(a.collides_with(&Gate::new(1, 5, 6, 3)));
    assert!(!a.collides_with(&Gate::new(0, 5, 6, 3)));
    assert!(!a.collides_with(&Gate::new(7, 1, 2, 3)));
}

#[test]
fn gate_evaluate_flips_the_target() {
    let g = Gate::new(2, 0, 1, 1);
    let mut x = vec![true, true, false];
    g.evaluate(&mut x);
    assert_eq!(x, vec![true, true, true]);
    g.evaluate(&mut x);
    assert_eq!(x, vec![true, true, false]);
    assert!(g.evaluate_cf(true, true));
    assert!(!g.evaluate_cf(true, false));
}

#[test]
fn evolution_lists_every_state() {
    let circuit = Circuit {
        num_wires: 3,
        gates: vec![Gate::new(0, 1, 2, 15), Gate::new(1, 0, 2, 3)],
    };
    let states = circuit.evaluate_evolution(&vec![false, false, false]);
    assert_eq!(
        states,
        vec![
            vec![false, false, false],
            vec![true, false, false],
            vec![true, true, false],
        ]
    );
}

#[test]
fn subcircuit_copies_a_block() {
    let circuit = Circuit {
        num_wires: 5,
        gates: vec![Gate::new(0, 1, 2, 1), Gate::new(1, 2, 3, 2), Gate::new(2, 3, 4, 3)],
    };
    let block: [Gate; 2] = circuit.subcircuit::<2>(1);
    assert_eq!(block, [Gate::new(1, 2, 3, 2), Gate::new(2, 3, 4, 3)]);
}

#[test]
fn test_random_circuit() {
    let mut rng = ChaChaSource::from_seed(1);
    let circuit = Circuit::random(10, 50, &mut rng);
    assert!(circuit.gates.len() == 50);
}

#[test]
fn random_circuits_have_distinct_wires() {
    let mut rng = ChaChaSource::from_seed(7);
    let circuit = Circuit::random(5, 200, &mut rng);
    assert_eq!(circuit.num_wires, 5);
    for g in &circuit.gates {
        assert!(g.wires.iter().all(|&w| w < 5));
        assert!(g.wires[0] != g.wires[1] && g.wires[0] != g.wires[2] && g.wires[1] != g.wires[2]);
        assert!((1..16).contains(&g.control_func));
    }
    let picked = Circuit::random_with_cf(4, 100, &vec![3, 9], &mut rng);
    assert!(picked.gates.iter().all(|g| g.control_func == 3 || g.control_func == 9));
}

#[test]
fn test_check_equiv_probabilistic() {
    let mut rng = ChaChaSource::from_seed(11);
    let ckt = Circuit {
        num_wires: 64,
        gates: vec![gate([0, 1, 2], 4), gate([3, 0, 4], 9)],
    };
    let equiv_ckt = Circuit {
        num_wires: 64,
        gates: vec![
            gate([3, 4, 0], 12),
            gate([0, 2, 1], 3),
            gate([0, 2, 1], 1),
            gate([3, 0, 34], 3),
        ],
    };
    let nequiv_ckt = Circuit {
        num_wires: 64,
        gates: vec![
            gate([3, 4, 0], 12),
            gate([0, 2, 1], 7),
            gate([0, 2, 1], 1),
            gate([3, 0, 34], 3),
        ],
    };
    assert!(check_equiv_probabilistic(64, &ckt.gates, &equiv_ckt.gates, 1000, &mut rng) == Ok(()));
    assert!(check_equiv_probabilistic(64, &ckt.gates, &nequiv_ckt.gates, 1000, &mut rng) != Ok(()));
}

#[test]
fn equivalence_check_refuses_wires_out_of_range() {
    let mut rng = ChaChaSource::from_seed(3);
    let small = vec![gate([0, 1, 2], 4)];
    let large = vec![gate([0, 1, 9], 4)];
    assert_eq!(
        check_equiv_probabilistic(3, &large, &small, 10, &mut rng),
        Err("Wire labels in ckt_one exceed the number of wires".to_string())
    );
    assert_eq!(
        check_equiv_probabilistic(3, &small, &large, 10, &mut rng),
        Err("Wire labels in ckt_two exceed the number of wires".to_string())
    );
    let other = vec![gate([0, 1, 2], 15)];
    assert_eq!(
        check_equiv_probabilistic(3, &small, &other, 100, &mut rng),
        Err("Circuits produce different outputs".to_string())
    );
    assert_eq!(check_equiv_probabilistic(3, &small, &other, 0, &mut rng), Ok(()));
}

#[test]
fn circuits_pass_exactly_if_they_agree_on_each_input() {
    let one = Circuit {
        num_wires: 5,
        gates: vec![Gate::new(0, 1, 2, 4), Gate::new(3, 0, 4, 9)],
    };
    let other = Circuit { num_wires: 5, gates: vec![Gate::new(0, 1, 2, 4)] };
    // the second gate flips wire 3 exactly if wire 0 and wire 4 agree
    let same = vec![vec![true, false, false, false, false], vec![false, true, false, true, true]];
    let telling = vec![vec![false, false, false, false, false]];
    assert_eq!(agree_on_inputs(&one, &one, &same), Ok(()));
    assert_eq!(agree_on_inputs(&one, &other, &Vec::new()), Ok(()));
    let on_same = agree_on_inputs(&one, &other, &same);
    let expected = same.iter().all(|x| one.evaluate(x) == other.evaluate(x));
    assert_eq!(on_same.is_ok(), expected);
    assert_eq!(
        agree_on_inputs(&one, &other, &telling),
        Err("Circuits produce different outputs".to_string())
    );
    let mut both = same.clone();
    both.extend(telling);
    assert!(agree_on_inputs(&one, &other, &both).is_err());
}

#[test]
fn no_gates_are_cut_out_wherever() {
    let circuit = Circuit { num_wires: 5, gates: vec![Gate::new(0, 1, 2, 4)] };
    let none: [Gate; 0] = circuit.subcircuit::<0>(7);
    assert!(none.is_empty());
    let one: [Gate; 1] = circuit.subcircuit::<1>(0);
    assert_eq!(one[0], circuit.gates[0]);
}
