use local_mixing::random::RandomSource;
use local_mixing::replacement::lfsr::{
    get_128_from_u8_array, get_tap_128, get_u8_array_from_u128, LFSR128,
};
use local_mixing::circuit::Gate;
use local_mixing::random::ChaChaSource;
use local_mixing::replacement::shuffle::{GateProvider, LFSRShuffle, WireEntries};
use local_mixing::replacement::strategy::ControlFnChoice;
use local_mixing::replacement::permutations::{
    riffle_shuffle, walksman_permutation_10, walksman_permutation_4, walksman_permutation_5,
    walksman_permutation_8, LFSR16,
};
use rand::{RngCore, SeedableRng};
use rand_chacha::ChaCha8Rng;
use std::collections::{HashMap, HashSet};

#[test]
fn test_riffle() {
    let a: [usize; 4] = [1, 2, 3, 4];
    let b = riffle_shuffle(&a, false);
    println!("The actual values are {:?} -> {:?}", a, b);
    assert!(b == [3, 1, 4, 2], "There should be 24 values");

    let b = riffle_shuffle(&a, true);
    println!("The actual values are {:?} -> {:?}", a, b);
    assert!(b == [1, 3, 2, 4], "There should be 24 values");

    let mut rng = ChaCha8Rng::seed_from_u64(2024);

    let mut lfsr = LFSR16::new(rng.next_u32() as u16);

    let mut set = HashSet::new();
    let mut b = a.clone();
    set.insert(b.clone());
    for _i in 0..200 {
        b = lfsr.riffle_array(&b);
        set.insert(b.clone());
    }

    println!("The set is values are {:?}", set);
    assert!(set.len() == 24, "There should be 24 values");

    let mut map = HashMap::new();
    let mut b = a.clone();
    map.insert(b.clone(), 0);
    for _i in 0..240000 {
        b = lfsr.riffle_array(&b);
        if map.contains_key(&b) {
            map.insert(b.clone(), map.get(&b).unwrap() + 1);
        } else {
            map.insert(b.clone(), 0);
        }
    }

    println!("The map values are {:?}", map);
    assert!(map.len() == 24, "There should be 24 values");
}

#[test]
fn test_permute_4() {
    let a: [usize; 4] = [1, 2, 3, 4];
    let b = walksman_permutation_4(&a, &vec![true, false, false, false, false]);
    println!("The actual values are {:?} -> {:?}", a, b);
    assert!(b == [2, 1, 3, 4]);

    let mut rng = ChaCha8Rng::seed_from_u64(2024);

    let mut lfsr = LFSR16::new(rng.next_u32() as u16);

    let mut set = HashSet::new();
    let mut b = a.clone();
    set.insert(b.clone());
    for _i in 0..200 {
        b = lfsr.permute_4(&b);
        set.insert(b.clone());
    }

    println!("The set is values are {:?}", set);
    assert!(set.len() == 24, "There should be 24 values");

    let mut map = HashMap::new();
    let mut b = a.clone();
    map.insert(b.clone(), 0);
    for _i in 0..240000 {
        b = lfsr.permute_4(&b);
        if map.contains_key(&b) {
            map.insert(b.clone(), map.get(&b).unwrap() + 1);
        } else {
            map.insert(b.clone(), 0);
        }
    }

    println!("The lfsr map values are {:?}", map);
    assert!(map.len() == 24, "There should be 24 values");

    let mut map = HashMap::new();
    let mut b = a.clone();
    map.insert(b.clone(), 0);
    for _i in 0..240000 {
        b = walksman_permutation_4(
            &b,
            &vec![
                (rng.next_u32() % 2 == 1),
                (rng.next_u32() % 2 == 1),
                (rng.next_u32() % 2 == 1),
                (rng.next_u32() % 2 == 1),
                (rng.next_u32() % 2 == 1),
            ],
        );
        if map.contains_key(&b) {
            map.insert(b.clone(), map.get(&b).unwrap() + 1);
        } else {
            map.insert(b.clone(), 0);
        }
    }

    println!("The walksman map values are {:?}", map);
    assert!(map.len() == 24, "There should be 24 values");
}

#[test]
fn riffle_of_an_odd_number() {
    let a = [1, 2, 3, 4, 5];
    assert_eq!(riffle_shuffle(&a, true), [1, 4, 2, 5, 3]);
    assert_eq!(riffle_shuffle(&a, false), [3, 1, 4, 2, 5]);
    assert_eq!(riffle_shuffle(&[7], true), [7]);
    assert_eq!(riffle_shuffle(&[7], false), [7]);
    let none: [u8; 0] = [];
    assert_eq!(riffle_shuffle(&none, true), none);
}

#[test]
fn network_of_eight_switches_in_layers() {
    let a = [0, 1, 2, 3, 4, 5, 6, 7];
    let off = vec![false; 17];
    assert_eq!(walksman_permutation_8(&a, off.clone()), a);
    let mut first = off.clone();
    first[0] = true;
    assert_eq!(walksman_permutation_8(&a, first), [1, 0, 2, 3, 4, 5, 6, 7]);
    // the first switch of the network for the even places exchanges its
    // first two items, which stand at the places 0 and 2
    let mut inner = off.clone();
    inner[4] = true;
    assert_eq!(walksman_permutation_8(&a, inner), [2, 1, 0, 3, 4, 5, 6, 7]);
    // and that of the network for the odd places the places 1 and 3
    let mut inner_odd = off.clone();
    inner_odd[9] = true;
    assert_eq!(walksman_permutation_8(&a, inner_odd), [0, 3, 2, 1, 4, 5, 6, 7]);
    let mut last = off;
    last[16] = true;
    assert_eq!(walksman_permutation_8(&a, last), [0, 1, 2, 3, 5, 4, 6, 7]);
    let all = vec![true; 17];
    let mut out = walksman_permutation_8(&a, all).to_vec();
    out.sort();
    assert_eq!(out, a.to_vec());
}

#[test]
fn register_of_sixteen_bits_steps() {
    let mut r = LFSR16::new(0x8000);
    assert_eq!(r.state, 0x8000);
    let a = [1, 2, 3, 4];
    // lowest bit clear: the second half begins; bit 4 clear: no turn
    assert_eq!(r.riffle_array(&a), [3, 1, 4, 2]);
    // bit 15 was set, so a bit comes in at the bottom
    assert_eq!(r.state, 0x0001);
    assert_eq!(r.riffle_array(&a), [1, 3, 2, 4]);
    assert_eq!(r.state, 0x0002);
    let mut turned = LFSR16::new(0x0011);
    assert_eq!(turned.riffle_array(&a), [3, 2, 4, 1]);
}

#[test]
fn register_of_128_bits_steps() {
    let mut r = LFSR128::new(1);
    assert_eq!(r.next(), Some(1));
    assert_eq!(r.next(), Some(2));
    assert_eq!(r.state, 4);
    let mut top = LFSR128::new(1 << 127);
    assert_eq!(top.next(), Some(1 << 127));
    assert_eq!(top.state, 1);
    let mut two = LFSR128::new((1 << 127) | (1 << 126));
    two.next();
    assert_eq!(two.state, 1 << 127);
    assert_eq!(get_tap_128(0b100, 2), 1);
    assert_eq!(get_tap_128(0b100, 1), 0);
}

#[test]
fn bytes_of_a_state() {
    let mut seed = [0u8; 16];
    for (i, b) in seed.iter_mut().enumerate() {
        *b = (i as u8) * 17 + 1;
    }
    let value = get_128_from_u8_array(seed);
    assert_eq!(value, u128::from_le_bytes(seed));
    assert_eq!(get_u8_array_from_u128(value), seed);
    assert_eq!(LFSR128::from_seed(seed).state, value);
}

#[test]
fn sampling_leaves_out_the_exclusions() {
    let mut r = LFSR128::new(0xdead_beef_1234_5678_9abc_def0);
    for _ in 0..500 {
        let v = r.sample_excluding::<9>(&vec![0, 4, 8, 20]);
        assert!(v < 9 && v != 0 && v != 4 && v != 8);
    }
    let mut only = LFSR128::new(77);
    assert_eq!(only.sample_excluding::<3>(&vec![0, 2]), 1);
    // the state modulo the number of wires gives the wire
    let mut fixed = LFSR128::new(7);
    assert_eq!(fixed.sample_excluding::<5>(&vec![1]), 2);
    assert_eq!(fixed.state, 14);
    // a state that gives an excluded wire is passed over
    let mut again = LFSR128::new(5);
    assert_eq!(again.sample_excluding::<9>(&vec![5]), 1);
    assert_eq!(again.state, 20);
    // a register that stands still picks among the wires that are left
    let mut still = LFSR128::new(0);
    assert_eq!(still.sample_excluding::<4>(&vec![0, 2]), 1);
    assert_eq!(still.state, 0);
}

#[test]
fn register_as_a_random_source() {
    let mut r = LFSR128::new(1000);
    assert_eq!(r.below(7), 1000 % 7);
    assert_eq!(r.below(7), 2000 % 7);
    let child = r.fork();
    assert_eq!(child.state, 4000);
    assert_eq!(r.state, 8000);
}

#[test]
fn no_wire_by_default() {
    let e = WireEntries::default();
    assert_eq!(e.position, 0);
    assert!(!e.present);
}

#[test]
fn the_shuffle_sampler_fills_gates_around_the_active_wires() {
    let mut rng = ChaChaSource::from_seed(71);
    let mut target_flags = [false; 9];
    let mut control_flags = [false; 9];
    for w in [0, 3] {
        target_flags[w] = true;
    }
    for w in [0, 1, 2, 4, 7] {
        control_flags[w] = true;
    }
    let mut sampler = LFSRShuffle::new([target_flags, control_flags], &mut rng);
    let present = |row: &[WireEntries; 4]| -> Vec<usize> {
        let mut wires: Vec<usize> =
            row.iter().filter(|e| e.present).map(|e| e.position as usize).collect();
        wires.sort();
        wires
    };
    assert_eq!(present(&sampler.targets), vec![0, 3]);
    let mut controls = present(&sampler.first_controls);
    controls.extend(present(&sampler.second_controls));
    controls.sort();
    assert_eq!(controls, vec![0, 1, 2, 4, 7]);

    let mut made = 0;
    for _ in 0..200 {
        let mut gates = [Gate::default(); 4];
        if sampler.get_gates(&mut gates, ControlFnChoice::NoIdentity) {
            made += 1;
            for g in &gates {
                assert!(g.wires.iter().all(|&w| w < 9));
                assert!(g.wires[0] != g.wires[1] && g.wires[0] != g.wires[2]);
                assert!(g.wires[1] != g.wires[2]);
                assert!((1..16).contains(&g.control_func));
            }
            for w in [0, 3] {
                assert!(gates.iter().any(|g| g.wires[0] == w));
            }
            for w in [0, 1, 2, 4, 7] {
                assert!(gates.iter().any(|g| g.wires[1] == w || g.wires[2] == w));
            }
        } else {
            assert_eq!(gates, [Gate::default(); 4]);
        }
    }
    assert!(made > 0);
}

#[test]
fn shuffled_lists_keep_their_items() {
    let mut rng = ChaChaSource::from_seed(72);
    let mut orders = HashSet::new();
    for _ in 0..200 {
        let mut list = vec![1, 2, 3];
        rng.shuffle(&mut list);
        orders.insert(list.clone());
        list.sort();
        assert_eq!(list, vec![1, 2, 3]);
    }
    assert_eq!(orders.len(), 6);
    let mut none: Vec<usize> = vec![];
    rng.shuffle(&mut none);
    assert!(none.is_empty());

    // a register exchanges each place from the last down with the place
    // that its state gives
    let mut register = LFSR128::new(5);
    let mut states = register;
    let mut list = vec![10, 20, 30, 40];
    register.shuffle(&mut list);
    let mut expected = vec![10, 20, 30, 40];
    for i in (2..=4).rev() {
        let j = (states.next().unwrap() as usize) % i;
        expected.swap(i - 1, j);
    }
    assert_eq!(list, expected);
    assert_eq!(register.state, states.state);
    let mut orders = HashSet::new();
    for _ in 0..200 {
        let mut list = vec![1, 2, 3];
        register.shuffle(&mut list);
        orders.insert(list.clone());
        list.sort();
        assert_eq!(list, vec![1, 2, 3]);
    }
    assert!(orders.len() > 1);
}

fn controls_of(bits: u64, count: usize) -> Vec<bool> {
    (0..count).map(|index| ((bits >> index) & 1) == 1).collect()
}

#[test]
fn test_permute_5() {
    let a: [usize; 5] = [1, 2, 3, 4, 5];
    let mut b = walksman_permutation_5(
        &a,
        &vec![true, false, false, false, false, false, false, false],
    );
    println!("The actual values are {:?} -> {:?}", a, b);
    assert!(b == [2, 1, 3, 4, 5]);

    let mut rng = ChaCha8Rng::seed_from_u64(2024);

    let mut lfsr = LFSR16::new(rng.next_u32() as u16);

    let mut map: HashMap<[usize; 5], usize> = HashMap::new();
    for i in 0..(1u64 << 8) {
        let control = controls_of(i, 8);
        b = walksman_permutation_5(&a, &control);
        *map.entry(b).or_insert(0) += 1;
    }
    println!("The walksman 5 with same input map values are {:?}", map.len());
    assert!(map.len() == 120, "There should be 120 values");

    let mut map: HashMap<[usize; 5], usize> = HashMap::new();
    b = a.clone();
    for _i in 0..(1 << 11) {
        let mut control = vec![];
        for index in 0..8 {
            control.push(((rng.next_u64() as usize >> index) & 1) == 1);
        }
        b = lfsr.riffle_array(&b);
        b = walksman_permutation_5(&b, &control);
        *map.entry(b).or_insert(0) += 1;
    }
    assert!(map.len() == 120, "There should be 120 values");

    let mut occurance = [[0usize; 5]; 5];
    let mut b: [usize; 5] = [1, 2, 3, 4, 5];
    for _ in 0..(1 << 14) {
        let control = controls_of(rng.next_u64(), 8);
        b = lfsr.riffle_array(&b);
        b = walksman_permutation_5(&b, &control);
        for index in 1..=5 {
            let position = b.iter().position(|&x| x == index).unwrap();
            occurance[index - 1][position] += 1;
        }
    }
    assert!(occurance.iter().all(|row| row.iter().all(|&n| n > 0)));
}

#[test]
fn test_permute_8() {
    let a: [usize; 8] = [1, 2, 3, 4, 5, 6, 7, 8];
    let b = walksman_permutation_8(
        &a,
        vec![
            true, false, false, false, false, false, false, false, false, false, false, false,
            false, false, false, false, false,
        ],
    );
    println!("The actual values are {:?} -> {:?}", a, b);
    assert!(b == [2, 1, 3, 4, 5, 6, 7, 8]);

    let mut rng = ChaCha8Rng::seed_from_u64(2024);

    let mut lfsr = LFSR16::new(rng.next_u32() as u16);

    let mut map = HashMap::new();
    let mut b = a.clone();
    map.insert(b.clone(), 0);
    for i in 0..(1u64 << 20) {
        let control = controls_of(i, 17);
        b = lfsr.riffle_array(&b);
        b = walksman_permutation_8(&b, control);
        *map.entry(b).or_insert(0) += 1;
    }
    assert!(map.len() == 40320, "There should be 40320 values");

    let mut map: HashMap<[usize; 8], usize> = HashMap::new();
    for i in 0..(1u64 << 17) {
        let control = controls_of(i, 17);
        let b = walksman_permutation_8(&a, control);
        *map.entry(b).or_insert(0) += 1;
    }
    assert!(map.len() == 40320, "There should be 40320 values");
}

#[test]
fn test_permute_10() {
    let a: [usize; 10] = [1, 2, 3, 4, 5, 6, 7, 8, 9, 10];
    let b = walksman_permutation_10(
        &a,
        &vec![
            true, false, false, false, false, false, false, false, false, false, false, false,
            false, false, false, false, false, false, false, false, false, false, false, false,
            false,
        ],
    );
    println!("The actual values are {:?} -> {:?}", a, b);
    assert!(b == [2, 1, 3, 4, 5, 6, 7, 8, 9, 10]);

    let mut rng = ChaCha8Rng::seed_from_u64(2024);

    let mut lfsr = LFSR16::new(rng.next_u32() as u16);

    println!("The walksman 10 with riffle testing uniformity.");
    let mut occurance = [[0usize; 10]; 10];
    let mut b: [usize; 10] = [1, 2, 3, 4, 5, 6, 7, 8, 9, 10];
    for _ in 0..(1 << 16) {
        let control = controls_of(rng.next_u64(), 27);
        b = lfsr.riffle_array(&b);
        b = walksman_permutation_10(&b, &control);
        for index in 1..=10 {
            let position = b.iter().position(|&x| x == index).unwrap();
            occurance[index - 1][position] += 1;
        }
    }
    assert!(occurance.iter().all(|row| row.iter().all(|&n| n > 0)));
    assert!(occurance.iter().all(|row| row.iter().sum::<usize>() == 1 << 16));
}

#[test]
fn a_permutation_of_the_rows_steps_the_registers() {
    let mut rng = ChaChaSource::from_seed(73);
    let mut flags = [[false; 9]; 2];
    flags[0][2] = true;
    flags[1][5] = true;
    flags[1][6] = true;
    let mut sampler = LFSRShuffle::new(flags, &mut rng);
    let mut large = sampler.lfsr;
    let mut small = sampler.permutor;
    let mut entries: Vec<(u8, bool)> = sampler
        .first_controls
        .iter()
        .chain(sampler.second_controls.iter())
        .map(|e| (e.position, e.present))
        .collect();
    sampler.shuffle_permute();
    large.next();
    for _ in 0..6 {
        small.sample();
    }
    assert_eq!(sampler.lfsr.state, large.state);
    assert_eq!(sampler.permutor.state, small.state);
    let mut after: Vec<(u8, bool)> = sampler
        .first_controls
        .iter()
        .chain(sampler.second_controls.iter())
        .map(|e| (e.position, e.present))
        .collect();
    entries.sort();
    after.sort();
    assert_eq!(entries, after);
    // a candidate is made exactly if no wire stands twice in a gate
    for _ in 0..50 {
        let mut gates = [Gate::default(); 4];
        let made = sampler.get_gates(&mut gates, ControlFnChoice::All);
        assert_eq!(made, !sampler.collision_check());
        if made {
            for k in 0..4 {
                if sampler.targets[k].present {
                    assert_eq!(gates[k].wires[0], sampler.targets[k].position as usize);
                }
                if sampler.first_controls[k].present {
                    assert_eq!(gates[k].wires[1], sampler.first_controls[k].position as usize);
                }
                if sampler.second_controls[k].present {
                    assert_eq!(gates[k].wires[2], sampler.second_controls[k].position as usize);
                }
            }
        }
    }
}
