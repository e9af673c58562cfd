use local_mixing::flags::{cleared, flags_of, free_before, mark, pick_free};
use local_mixing::random::{draw_free, ChaChaSource, RandomSource};
use local_mixing::replacement::find::{count_flagged, min_generation};
use local_mixing::replacement::lfsr::LFSR128;
use local_mixing::replacement::permutations::{walksman_permutation_10, walksman_permutation_5};
use local_mixing::replacement::sample::{fill_slots, place_active_targets};
use local_mixing::circuit::Gate;
use rand::SeedableRng;
use rand_chacha::ChaCha8Rng;

#[test]
fn draws_stay_below_the_bound() {
    let mut rng = ChaChaSource::from_seed(61);
    let mut seen = [false; 7];
    for _ in 0..1000 {
        let r = rng.below(7);
        assert!(r < 7);
        seen[r] = true;
    }
    assert!(seen.iter().all(|&s| s));
    assert_eq!(rng.below(1), 0);
}

#[test]
fn equal_seeds_give_equal_sources() {
    let mut a = ChaChaSource::from_seed(62);
    let mut b = ChaChaSource::from_seed(62);
    let mut c = ChaChaSource::new(ChaCha8Rng::seed_from_u64(62));
    for _ in 0..100 {
        let x = a.below(1000);
        assert_eq!(x, b.below(1000));
        assert_eq!(x, c.below(1000));
    }
    let mut child_a = a.fork();
    let mut child_b = b.fork();
    assert_eq!(child_a.below(1 << 20), child_b.below(1 << 20));
    // a fork is not a copy of its parent
    let draws: Vec<usize> = (0..20).map(|_| a.below(1 << 20)).collect();
    let child_draws: Vec<usize> = (0..20).map(|_| child_a.below(1 << 20)).collect();
    assert!(draws != child_draws);
}

#[test]
fn free_indices_are_counted_and_picked() {
    let mut used = cleared(5);
    assert_eq!(used, vec![false; 5]);
    mark(&mut used, 1);
    mark(&mut used, 3);
    assert_eq!(used, vec![false, true, false, true, false]);
    assert_eq!(free_before(&used, 5), 3);
    assert_eq!(free_before(&used, 2), 1);
    assert_eq!(free_before(&used, 0), 0);
    assert_eq!(pick_free(&used, 0), 0);
    assert_eq!(pick_free(&used, 1), 2);
    assert_eq!(pick_free(&used, 2), 4);
    let mut rng = ChaChaSource::from_seed(63);
    for _ in 0..100 {
        let i = draw_free(&used, &mut rng).unwrap();
        assert!(i == 0 || i == 2 || i == 4);
    }
    assert_eq!(draw_free(&vec![true, true], &mut rng), None);
    assert_eq!(draw_free(&vec![], &mut rng), None);
    assert_eq!(flags_of(&vec![4, 0, 9], 6), vec![true, false, false, false, true, false]);
}

#[test]
fn slots_are_filled_with_distinct_wires() {
    let mut rng = ChaChaSource::from_seed(64);
    for _ in 0..300 {
        let (t, a, b) = fill_slots(Some(2), None, Some(0), 4, &mut rng);
        assert_eq!((t, b), (2, 0));
        assert!(a == 1 || a == 3);
        let (t, a, b) = fill_slots(None, None, None, 3, &mut rng);
        let mut all = [t, a, b];
        all.sort();
        assert_eq!(all, [0, 1, 2]);
    }
}

#[test]
fn targets_need_a_gate_each() {
    let mut rng = ChaChaSource::from_seed(65);
    let active = vec![false, true, true, false, true];
    let placed = place_active_targets(&active, 3, &mut rng).unwrap();
    let mut wires: Vec<usize> = placed.iter().map(|p| p.unwrap()).collect();
    wires.sort();
    assert_eq!(wires, vec![1, 2, 4]);
    assert!(place_active_targets(&active, 2, &mut rng).is_none());
    assert_eq!(place_active_targets(&vec![false; 4], 2, &mut rng), Some(vec![None, None]));
}

#[test]
fn flagged_wires_and_generations() {
    assert_eq!(count_flagged(&vec![true, false, false, true], &vec![true, true, false, false]), 3);
    assert_eq!(count_flagged(&vec![], &vec![]), 0);
    let g = |generation| Gate { wires: [0, 1, 2], control_func: 1, generation };
    assert_eq!(min_generation(&vec![g(4), g(2), g(7)]), 2);
    assert_eq!(min_generation(&vec![g(5)]), 5);
    assert_eq!(min_generation(&vec![]), 0);
}

#[test]
fn networks_of_five_and_ten() {
    let five = [0, 1, 2, 3, 4];
    assert_eq!(walksman_permutation_5(&five, &[false; 8]), five);
    let mut c = [false; 8];
    c[4] = true;
    assert_eq!(walksman_permutation_5(&five, &c), [0, 1, 2, 4, 3]);
    let mut out = walksman_permutation_5(&five, &[true; 8]).to_vec();
    out.sort();
    assert_eq!(out, five.to_vec());

    let ten = [0, 1, 2, 3, 4, 5, 6, 7, 8, 9];
    assert_eq!(walksman_permutation_10(&ten, &[false; 25]), ten);
    let mut c = [false; 25];
    c[4] = true;
    assert_eq!(walksman_permutation_10(&ten, &c), [0, 1, 2, 3, 4, 5, 6, 7, 9, 8]);
    // the first switch of the network for the even places
    let mut c = [false; 25];
    c[5] = true;
    assert_eq!(walksman_permutation_10(&ten, &c), [2, 1, 0, 3, 4, 5, 6, 7, 8, 9]);
    let mut c = [false; 25];
    c[24] = true;
    assert_eq!(walksman_permutation_10(&ten, &c), [0, 1, 2, 3, 4, 5, 7, 6, 8, 9]);
    let mut out = walksman_permutation_10(&ten, &[true; 25]).to_vec();
    out.sort();
    assert_eq!(out, ten.to_vec());
}

#[test]
fn a_generator_fills_a_buffer() {
    let mut rng = ChaChaSource::from_seed(63);
    let mut bytes = vec![0u8; 64];
    rng.fill_bytes(&mut bytes);
    assert_eq!(bytes.len(), 64);
    assert!(bytes.iter().any(|&b| b != 0));
    let mut again = vec![0u8; 64];
    ChaChaSource::from_seed(63).fill_bytes(&mut again);
    assert_eq!(bytes, again);
    let mut none: Vec<u8> = Vec::new();
    rng.fill_bytes(&mut none);
    assert!(none.is_empty());
}

#[test]
fn a_register_fills_a_buffer_with_its_states() {
    let seed: u128 = 0x0102_0304_0506_0708_090a_0b0c_0d0e_0f10;
    let mut register = LFSR128::new(seed);
    let mut bytes = vec![0u8; 20];
    register.fill_bytes(&mut bytes);
    let mut states = LFSR128::new(seed);
    let first = states.next().unwrap();
    let second = states.next().unwrap();
    assert_eq!(first, seed);
    assert_eq!(&bytes[..16], &first.to_le_bytes()[..]);
    assert_eq!(&bytes[16..], &second.to_le_bytes()[..4]);
    assert_eq!(bytes[0], 0x10);
    assert_eq!(bytes[15], 0x01);
    assert_eq!(register.state, states.state);
}

#[test]
fn a_register_forks_in_its_state() {
    let mut register = LFSR128::new(0xdead_beef_0123_4567);
    let mut states = register;
    let child = register.fork();
    assert_eq!(child.state, 0xdead_beef_0123_4567);
    states.next();
    assert_eq!(register.state, states.state);
    assert!(register.state != child.state);
}
