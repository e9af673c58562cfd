use local_mixing::circuit::analysis::{projection_circuit, truth_table};
use local_mixing::circuit::circuit::check_equiv_probabilistic;
use local_mixing::circuit::{Circuit, Gate};
use local_mixing::local_mixing::consts::{N_IN, N_PROJ_WIRES};
use local_mixing::random::{ChaChaSource, RandomSource};
use local_mixing::replacement::find::{find_replacement_circuit, prepare_search};
use local_mixing::replacement::remap::remap_to_global;
use local_mixing::replacement::lfsr::LFSR128;
use local_mixing::replacement::search::{
    agrees_with_table, examine_candidate, search_alone, search_worker,
};
use local_mixing::replacement::signal::StopSignal;
use local_mixing::replacement::strategy::{ControlFnChoice, ReplacementStrategy};
use local_mixing::replacement::{
    is_weakly_connected, sample_random_circuit, sample_random_circuit_unguided,
};

fn gate(wires: [usize; 3], control_func: u8) -> Gate {
    Gate { wires, control_func, generation: 0 }
}

fn scenario_block() -> Vec<Gate> {
    vec![gate([0, 1, 2], 4), gate([3, 0, 4], 9)]
}

fn distinct(g: &Gate) -> bool {
    g.wires[0] != g.wires[1] && g.wires[0] != g.wires[2] && g.wires[1] != g.wires[2]
}

#[test]
fn weak_connectivity_follows_collisions() {
    let chain = vec![gate([0, 1, 2], 1), gate([3, 0, 4], 1), gate([5, 3, 6], 1)];
    assert!(is_weakly_connected::<3>(&chain));
    let split = vec![gate([0, 1, 2], 1), gate([3, 4, 5], 1), gate([6, 3, 7], 1)];
    assert!(!is_weakly_connected::<3>(&split));
    assert!(is_weakly_connected::<1>(&split));
    // the second and third gate are connected, but not to the first
    assert!(!is_weakly_connected::<2>(&split));
    let star = vec![gate([1, 5, 6], 1), gate([0, 1, 2], 1), gate([3, 1, 4], 1)];
    assert!(is_weakly_connected::<3>(&star));
}

#[test]
fn strategies_and_choices_have_their_codes() {
    assert_eq!(ReplacementStrategy::from_u8(0), Some(ReplacementStrategy::SampleUnguided));
    assert_eq!(ReplacementStrategy::from_u8(1), Some(ReplacementStrategy::SampleActive0));
    assert_eq!(ReplacementStrategy::from_u8(2), Some(ReplacementStrategy::Dummy));
    assert_eq!(ReplacementStrategy::from_u8(3), None);
    assert_eq!(ReplacementStrategy::default(), ReplacementStrategy::SampleActive0);
    assert_eq!(ControlFnChoice::from_u8(0), Some(ControlFnChoice::All));
    assert_eq!(ControlFnChoice::from_u8(1), Some(ControlFnChoice::NoIdentity));
    assert_eq!(ControlFnChoice::from_u8(2), Some(ControlFnChoice::OnlyUnique));
    assert_eq!(ControlFnChoice::from_u8(3), None);
    assert_eq!(ControlFnChoice::default(), ControlFnChoice::OnlyUnique);
    assert_eq!(ControlFnChoice::All.cfs(), (0..16).collect::<Vec<u8>>());
    assert_eq!(ControlFnChoice::NoIdentity.cfs(), (1..16).collect::<Vec<u8>>());
    assert_eq!(ControlFnChoice::OnlyUnique.cfs(), vec![15, 3, 12, 1, 4, 7, 13, 6, 9, 14, 8]);
    assert_eq!(ControlFnChoice::UniqueNo0Bit.cfs(), vec![3, 12, 1, 4, 7, 13, 6, 9, 14, 8]);
    assert_eq!(ControlFnChoice::TwoBit.cfs(), vec![1, 2, 4, 6, 7, 8, 9, 11, 13, 14]);
    let mut rng = ChaChaSource::from_seed(5);
    for _ in 0..200 {
        assert!(ControlFnChoice::TwoBit.cfs().contains(&ControlFnChoice::TwoBit.random_cf(&mut rng)));
        assert!(ControlFnChoice::NoIdentity.random_cf(&mut rng) >= 1);
    }
}

#[test]
fn unguided_samples_are_well_formed() {
    let mut rng = ChaChaSource::from_seed(2);
    let mut ckt = vec![Gate::default(); 4];
    for _ in 0..200 {
        sample_random_circuit_unguided(&mut ckt, 5, ControlFnChoice::NoIdentity, &mut rng);
        assert_eq!(ckt.len(), 4);
        for g in &ckt {
            assert!(distinct(g));
            assert!(g.wires.iter().all(|&w| w < 5));
            assert!((1..16).contains(&g.control_func));
        }
    }
}

#[test]
fn guided_samples_place_the_active_wires() {
    let mut rng = ChaChaSource::from_seed(3);
    let active_target = vec![true, false, false, true, false, false, false, false, false];
    let active_control = vec![true, true, true, false, true, false, false, false, false];
    let mut placed_once = false;
    for _ in 0..200 {
        let mut ckt = vec![Gate::default(); 4];
        if sample_random_circuit(
            &mut ckt,
            &active_target,
            &active_control,
            ControlFnChoice::OnlyUnique,
            &mut rng,
        ) {
            placed_once = true;
            for g in &ckt {
                assert!(distinct(g));
                assert!(g.wires.iter().all(|&w| w < 9));
            }
            for w in [0, 3] {
                assert!(ckt.iter().any(|g| g.wires[0] == w));
            }
            for w in [0, 1, 2, 4] {
                assert!(ckt.iter().any(|g| g.wires[1] == w || g.wires[2] == w));
            }
        } else {
            assert_eq!(ckt, vec![Gate::default(); 4]);
        }
    }
    assert!(placed_once);
}

#[test]
fn guided_sampling_gives_up_on_too_many_targets() {
    let mut rng = ChaChaSource::from_seed(4);
    let active_target = vec![true, true, true, false];
    let active_control = vec![false; 4];
    let mut ckt = vec![Gate::default(); 2];
    assert!(!sample_random_circuit(
        &mut ckt,
        &active_target,
        &active_control,
        ControlFnChoice::All,
        &mut rng
    ));
}

#[test]
fn candidates_are_held_against_the_table() {
    let block = scenario_block();
    let (proj, _) = projection_circuit(&block);
    let table = truth_table(5, &proj);
    assert!(agrees_with_table(&proj, &table));
    assert!(examine_candidate(&proj, &table));
    let other = vec![gate([0, 1, 2], 4), gate([3, 0, 4], 6)];
    assert!(!agrees_with_table(&other, &table));
    // same table, but the two gates do not collide
    let apart = vec![gate([0, 1, 2], 4), gate([3, 1, 4], 9)];
    let apart_table = truth_table(5, &apart);
    assert!(agrees_with_table(&apart, &apart_table));
    assert!(!examine_candidate(&apart, &apart_table));
}

#[test]
fn remap_gives_fresh_wires_distinct_places() {
    let mut rng = ChaChaSource::from_seed(6);
    let local = vec![gate([0, 1, 5], 3), gate([5, 6, 0], 9), gate([6, 2, 1], 1)];
    let proj_map = vec![40, 7, 19];
    for _ in 0..50 {
        let (global, map) = remap_to_global(&local, &proj_map, 9, 64, &mut rng).unwrap();
        assert_eq!(map.len(), 9);
        assert_eq!(&map[..3], &[Some(40), Some(7), Some(19)]);
        assert_eq!(map[3], None);
        assert_eq!(map[4], None);
        let five = map[5].unwrap();
        let six = map[6].unwrap();
        assert!(five < 64 && six < 64 && five != six);
        assert!(!proj_map.contains(&five) && !proj_map.contains(&six));
        assert_eq!(global[0].wires, [40, 7, five]);
        assert_eq!(global[1].wires, [five, six, 40]);
        assert_eq!(global[2].wires, [six, 19, 7]);
        assert_eq!(global[1].control_func, 9);
    }
    // three wires are taken and two are new: five wires are just enough
    assert!(remap_to_global(&local, &proj_map_small(), 9, 5, &mut rng).is_some());
    assert!(remap_to_global(&local, &proj_map_small(), 9, 4, &mut rng).is_none());
}

fn proj_map_small() -> Vec<usize> {
    vec![3, 0, 1]
}

#[test]
fn search_worker_respects_its_budget() {
    let mut rng = ChaChaSource::from_seed(8);
    let p = prepare_search(
        &scenario_block(),
        N_IN,
        N_PROJ_WIRES,
        ReplacementStrategy::SampleActive0,
        ControlFnChoice::OnlyUnique,
    )
    .unwrap();
    assert_eq!(p.proj_map, vec![0, 1, 2, 3, 4]);
    assert_eq!(p.task.table, truth_table(9, &p.circuit));
    assert_eq!(p.task.active_target, vec![true, false, false, true, false, false, false, false, false]);
    assert_eq!(p.task.active_control, vec![true, true, true, false, true, false, false, false, false]);
    assert_eq!(p.num_active_wires, 5);
    let stop = StopSignal::new();
    assert!(search_worker(&p.task, 0, &stop, &mut rng).is_none());
    assert!(!stop.is_raised());
    match search_worker(&p.task, 300_000, &stop, &mut rng) {
        Some((found, n)) => {
            assert!(stop.is_raised());
            assert!(1 <= n && n <= 300_000);
            assert_eq!(found.len(), 4);
            assert!(agrees_with_table(&found, &p.task.table));
            assert!(is_weakly_connected::<4>(&found));
            for w in [0, 3] {
                assert!(found.iter().any(|g| g.wires[0] == w));
            }
            for w in [0, 1, 2, 4] {
                assert!(found.iter().any(|g| g.wires[1] == w || g.wires[2] == w));
            }
        }
        None => assert!(!stop.is_raised()),
    }
}

#[test]
fn blocks_with_too_many_wires_are_given_up() {
    let wide = vec![
        gate([0, 1, 2], 1),
        gate([3, 4, 5], 1),
        gate([6, 7, 8], 1),
        gate([9, 10, 11], 1),
    ];
    assert!(prepare_search(
        &wide,
        N_IN,
        N_PROJ_WIRES,
        ReplacementStrategy::SampleActive0,
        ControlFnChoice::OnlyUnique
    )
    .is_none());
    let mut rng = ChaChaSource::from_seed(9);
    assert!(find_replacement_circuit(
        &wide,
        64,
        N_IN,
        N_PROJ_WIRES,
        1000,
        ReplacementStrategy::SampleActive0,
        ControlFnChoice::OnlyUnique,
        &mut rng
    )
    .is_none());
}

#[test]
fn replacement_of_the_scenario_block() {
    let mut rng = ChaChaSource::from_seed(10);
    let block = scenario_block();
    let (replacement, fields) = find_replacement_circuit(
        &block,
        11,
        N_IN,
        N_PROJ_WIRES,
        1_000_000_000,
        ReplacementStrategy::SampleActive0,
        ControlFnChoice::OnlyUnique,
        &mut rng,
    )
    .expect("a replacement exists");
    assert_eq!(replacement.len(), 4);
    assert!(is_weakly_connected::<4>(&replacement));
    assert!(replacement.iter().all(|g| distinct(g) && g.wires.iter().all(|&w| w < 11)));
    assert!(replacement.iter().all(|g| g.generation == 1));
    assert_eq!(fields.num_input_wires, 5);
    assert_eq!(fields.min_generation, 0);
    assert!(fields.num_circuits_sampled >= 1);
    assert_eq!(fields.input_circuit, block);
    assert_eq!(fields.output_circuit, replacement);
    // the same function on every state of the eleven wires
    let one = Circuit { num_wires: 11, gates: block };
    let two = Circuit { num_wires: 11, gates: replacement };
    for x in 0..(1u32 << 11) {
        let input: Vec<bool> = (0..11).map(|w| x & (1 << w) != 0).collect();
        assert_eq!(one.evaluate(&input), two.evaluate(&input));
    }
}

#[test]
fn no_attempts_no_replacement() {
    let mut rng = ChaChaSource::from_seed(12);
    assert!(find_replacement_circuit(
        &scenario_block(),
        11,
        N_IN,
        N_PROJ_WIRES,
        0,
        ReplacementStrategy::SampleActive0,
        ControlFnChoice::OnlyUnique,
        &mut rng
    )
    .is_none());
}

#[test]
fn test_find_replacement_n_out_4() {
    let wires = 100;
    let mut rng = ChaChaSource::from_seed(2001);
    let mut found = 0;
    for _ in 0..10 {
        let ckt_one = Circuit::random(wires, 2, &mut rng);
        if let Some((replacement, _)) = find_replacement_circuit(
            &vec![ckt_one.gates[0], ckt_one.gates[1]],
            wires,
            4,
            9,
            800_000,
            ReplacementStrategy::SampleActive0,
            ControlFnChoice::OnlyUnique,
            &mut rng,
        ) {
            found += 1;
            assert_eq!(replacement.len(), 4);
            assert_eq!(
                check_equiv_probabilistic(wires, &ckt_one.gates, &replacement, 1000, &mut rng),
                Ok(())
            );
        }
    }
    println!("replaced {} of 10 blocks", found);
    assert!(found >= 1);
}

#[test]
fn test_replacement() {
    const WIRES: usize = 20;
    let mut rng = ChaChaSource::from_seed(14);
    let mut ckt = vec![Gate::default(); 2];
    sample_random_circuit_unguided(&mut ckt, 5, ControlFnChoice::All, &mut rng);
    let res = find_replacement_circuit(
        &ckt,
        WIRES,
        5,
        11,
        200_000,
        ReplacementStrategy::SampleUnguided,
        ControlFnChoice::All,
        &mut rng,
    );
    if let Some((replacement, _)) = res {
        assert_eq!(replacement.len(), 5);
        assert_eq!(
            check_equiv_probabilistic(WIRES, &ckt, &replacement, 1000, &mut rng),
            Ok(())
        );
    }
}

#[test]
fn equal_seeds_give_equal_searches() {
    let run = |seed: u64| {
        let mut rng = ChaChaSource::from_seed(seed);
        let p = prepare_search(
            &scenario_block(),
            N_IN,
            N_PROJ_WIRES,
            ReplacementStrategy::SampleActive0,
            ControlFnChoice::OnlyUnique,
        )
        .unwrap();
        let stop = StopSignal::new();
        let found = search_worker(&p.task, 100_000, &stop, &mut rng);
        (found, rng.below(1 << 30))
    };
    assert_eq!(run(21), run(21));
    assert_eq!(run(22), run(22));
}

#[test]
fn searches_with_a_register_can_be_replayed() {
    let p = prepare_search(
        &scenario_block(),
        N_IN,
        N_PROJ_WIRES,
        ReplacementStrategy::SampleUnguided,
        ControlFnChoice::All,
    )
    .unwrap();
    let mut one = LFSR128::new(0x1234_5678_9abc_def0_0fed_cba9_8765_4321);
    let mut two = one;
    let found_one = search_alone(&p.task, 20_000, &mut one);
    let found_two = search_alone(&p.task, 20_000, &mut two);
    assert_eq!(found_one, found_two);
    assert_eq!(one.state, two.state);
    // the search has drawn: the register has moved
    assert!(one.state != 0x1234_5678_9abc_def0_0fed_cba9_8765_4321);
    assert!(search_alone(&p.task, 0, &mut one).is_none());
}
