use local_mixing::circuit::analysis::truth_table;
use local_mixing::circuit::{Circuit, Gate};
use local_mixing::compression::ct::{
    build_compression_table, find_entry, other_two_wire_pos, same_gates, same_table,
    CompressionTable, TableEntry,
};
use local_mixing::local_mixing::LocalMixingJob;
use local_mixing::random::ChaChaSource;
use local_mixing::replacement::replace_ct::{find_replacement, kept_with, sample_gate};
use local_mixing::replacement::strategy::{ControlFnChoice, ReplacementStrategy};

fn gate(wires: [usize; 3], control_func: u8) -> Gate {
    Gate { wires, control_func, generation: 0 }
}

fn all_states(num_wires: usize) -> Vec<Vec<bool>> {
    (0..(1u32 << num_wires)).map(|x| (0..num_wires).map(|w| x & (1 << w) != 0).collect()).collect()
}

#[test]
fn every_entry_has_its_table() {
    let ct = build_compression_table(2, 4, &vec![1, 6]);
    assert!(ct[0].circuit.is_empty());
    assert_eq!(ct[0].table, (0..16).collect::<Vec<u32>>());
    for (i, entry) in ct.iter().enumerate() {
        assert!(entry.circuit.len() <= 2);
        assert_eq!(entry.table, truth_table(4, &entry.circuit));
        assert!(entry.circuit.iter().all(|g| g.wires.iter().all(|&w| w < 4)));
        for other in &ct[i + 1..] {
            assert!(entry.table != other.table);
        }
    }
    // the two circuits of one gate are there as they are
    for cf in [1, 6] {
        let one = vec![gate([0, 1, 2], cf)];
        let place = find_entry(&ct, &truth_table(4, &one)).unwrap();
        assert_eq!(ct[place].circuit, one);
    }
    // or is and together with exclusive or: two gates, as a first gate
    // takes its function from the choice
    let or = find_entry(&ct, &truth_table(4, &vec![gate([0, 1, 2], 7)])).unwrap();
    assert_eq!(ct[or].circuit.len(), 2);
    // two wires cannot both be flipped on every input by two gates of
    // which the first is an and or an exclusive or
    let flips = vec![gate([0, 1, 2], 15), gate([1, 0, 2], 15)];
    assert!(find_entry(&ct, &truth_table(4, &flips)).is_none());
}

#[test]
fn a_gate_twice_is_compressed_to_nothing() {
    let mut table = CompressionTable::new(2, 4, vec![1, 6]);
    assert_eq!((table.max_gates_supported, table.max_wires_supported), (2, 4));
    let twice = vec![gate([7, 3, 5], 6), gate([7, 3, 5], 6)];
    assert_eq!(table.lookup_cxity(&twice), Some(0));
    assert_eq!(table.compress_circuit(&twice), Some(vec![]));
    assert_eq!(table.cache.len(), 1);
    assert_eq!(table.compress_circuit(&twice), Some(vec![]));
    assert_eq!(table.cache.len(), 1);
    assert_eq!(table.lookup_cxity(&twice), Some(0));
}

#[test]
fn compressed_circuits_keep_the_function() {
    let mut table = CompressionTable::new(2, 4, vec![1, 6]);
    let circuits = vec![
        vec![gate([9, 2, 4], 1)],
        vec![gate([9, 2, 4], 6), gate([2, 9, 4], 3)],
        vec![gate([1, 2, 3], 6), gate([3, 1, 2], 9)],
        vec![gate([5, 6, 7], 1), gate([5, 7, 6], 1), gate([5, 6, 8], 6)],
        vec![gate([0, 1, 2], 6), gate([1, 2, 3], 6), gate([0, 1, 2], 6)],
    ];
    let mut compressed = 0;
    for circuit in circuits {
        if let Some(out) = table.compress_circuit(&circuit) {
            compressed += 1;
            assert!(out.len() <= 2);
            assert_eq!(table.lookup_cxity(&circuit), Some(out.len()));
            let one = Circuit { num_wires: 10, gates: circuit.clone() };
            let two = Circuit { num_wires: 10, gates: out };
            for state in all_states(10) {
                assert_eq!(one.evaluate(&state), two.evaluate(&state));
            }
        }
    }
    assert!(compressed >= 2);
}

#[test]
fn blocks_over_too_many_wires_are_not_compressed() {
    let mut table = CompressionTable::new(2, 4, vec![1, 6]);
    let wide = vec![gate([0, 1, 2], 6), gate([3, 4, 5], 6)];
    assert_eq!(table.compress_circuit(&wide), None);
    assert!(table.cache.is_empty());
}

#[test]
fn tables_and_blocks_are_compared_item_by_item() {
    assert!(same_table(&vec![1, 2, 3], &vec![1, 2, 3]));
    assert!(!same_table(&vec![1, 2, 3], &vec![1, 2]));
    assert!(!same_table(&vec![1, 2, 3], &vec![1, 2, 4]));
    assert!(same_gates(&vec![gate([0, 1, 2], 3)], &vec![gate([0, 1, 2], 3)]));
    assert!(!same_gates(&vec![gate([0, 1, 2], 3)], &vec![gate([0, 2, 1], 3)]));
    assert!(!same_gates(&vec![gate([0, 1, 2], 3)], &vec![]));
    let older = Gate { wires: [0, 1, 2], control_func: 3, generation: 1 };
    assert!(!same_gates(&vec![gate([0, 1, 2], 3)], &vec![older]));
    assert_eq!(other_two_wire_pos(0), [1, 2]);
    assert_eq!(other_two_wire_pos(1), [0, 2]);
    assert_eq!(other_two_wire_pos(2), [0, 1]);
}

#[test]
fn the_table_guides_a_replacement() {
    let table = CompressionTable::new(2, 4, vec![1, 3, 5, 6]);
    let block = vec![gate([7, 2, 5], 6)];
    // a search ends without a result where the first gate that it keeps
    // cannot be completed
    let (replacement, fields) = (81..101)
        .find_map(|seed| {
            let mut rng = ChaChaSource::from_seed(seed);
            find_replacement(&block, 9, 2, &vec![3, 5, 6], &table, &mut rng)
        })
        .expect("two gates");
    assert_eq!(replacement.len(), 2);
    assert_eq!(fields.input_circuit, block);
    assert_eq!(fields.output_circuit, replacement);
    for g in &replacement {
        assert!(g.wires.iter().all(|&w| w < 9));
        assert!(g.wires[0] != g.wires[1] && g.wires[0] != g.wires[2] && g.wires[1] != g.wires[2]);
        assert_eq!(g.generation, 1);
    }
    let one = Circuit { num_wires: 9, gates: block };
    let two = Circuit { num_wires: 9, gates: replacement };
    for state in all_states(9) {
        assert_eq!(one.evaluate(&state), two.evaluate(&state));
    }
}

#[test]
fn the_table_is_of_no_help_beyond_its_wires_and_sizes() {
    let table = CompressionTable::new(2, 4, vec![1, 6]);
    let mut rng = ChaChaSource::from_seed(82);
    let wide = vec![gate([0, 1, 2], 6), gate([3, 0, 4], 6)];
    assert!(find_replacement(&wide, 9, 2, &vec![6], &table, &mut rng).is_none());
    let block = vec![gate([0, 1, 2], 6)];
    assert!(find_replacement(&block, 9, 5, &vec![6], &table, &mut rng).is_none());
    let g = sample_gate(4, &vec![9], &mut rng);
    assert_eq!(g.control_func, 9);
    assert!(g.wires.iter().all(|&w| w < 4));
}

#[test]
fn a_job_steps_with_the_table() {
    let table = CompressionTable::new(2, 4, vec![1, 3, 5, 6, 7, 9]);
    let mut rng = ChaChaSource::from_seed(83);
    let circuit = Circuit::random_with_cf(4, 8, &vec![1, 6], &mut rng);
    let mut job = LocalMixingJob::new(
        4,
        10,
        0,
        0,
        10,
        ReplacementStrategy::SampleActive0,
        ControlFnChoice::All,
        circuit.clone(),
    );
    let mut steps = 0;
    for _ in 0..5 {
        let before = job.circuit.gates.len();
        match job.step_with_table(2, &table, &mut rng) {
            Ok(()) => {
                steps += 1;
                assert_eq!(job.circuit.gates.len(), before + 2);
            }
            Err(_) => assert_eq!(job.circuit.gates.len(), before),
        }
    }
    assert_eq!(job.circuit.gates.len(), 8 + 2 * steps);
    for state in all_states(4) {
        assert_eq!(circuit.evaluate(&state), job.circuit.evaluate(&state));
    }
}

#[test]
fn tables_from_outside_are_checked() {
    let mut table = CompressionTable::new(1, 3, vec![6]);
    assert!(table.is_sound());
    assert_eq!(table.ct.len(), 2);
    // a circuit under a table that is not its own
    table.ct[1].circuit[0].control_func = 1;
    assert!(!table.is_sound());
    table.ct[1].circuit[0].control_func = 6;
    assert!(table.is_sound());
    // a table twice
    let again = TableEntry { table: table.ct[0].table.clone(), circuit: vec![] };
    table.ct.push(again);
    assert!(!table.is_sound());
    table.ct.pop();
    // a circuit beyond the wires of the table
    table.ct[1].circuit[0].wires = [0, 1, 3];
    assert!(!table.is_sound());
    table.ct[1].circuit[0].wires = [0, 1, 2];
    table.max_gates_supported = 0;
    assert!(!table.is_sound());
}

#[test]
fn test_ct_real() {
    let cfs = ControlFnChoice::OnlyUnique.cfs();
    let mut ct = CompressionTable::new(2, 6, cfs.clone());

    let mut rng = ChaChaSource::from_seed(91);
    let states = all_states(6);
    let mut compressed = 0;
    for _ in 0..10000 {
        let circuit = Circuit::random_with_cf(6, 2, &cfs, &mut rng).gates;

        // there is no result where the table's circuit needs a wire that
        // the two gates have not
        if let Some(out) = ct.compress_circuit(&circuit) {
            compressed += 1;
            assert!(out.len() <= 2);
            let one = Circuit { num_wires: 6, gates: circuit };
            let two = Circuit { num_wires: 6, gates: out };
            assert!(states.iter().all(|s| one.evaluate(s) == two.evaluate(s)));
        }
    }
    println!("compressed {} of 10000 circuits", compressed);
    assert!(compressed >= 5000);
}

#[test]
fn test_replacement_with_ct() {
    let ct = CompressionTable::new(2, 4, ControlFnChoice::OnlyUnique.cfs());
    let mut rng = ChaChaSource::from_seed(92);
    let circuit = vec![
        Gate { wires: [10, 1, 2], control_func: 2, generation: 0 },
        Gate { wires: [1, 3, 4], control_func: 9, generation: 0 },
        Gate { wires: [4, 5, 6], control_func: 6, generation: 0 },
        Gate { wires: [5, 8, 7], control_func: 11, generation: 0 },
    ];
    let cf_choice = vec![1, 2, 3, 4, 5, 6, 7, 8, 9, 10, 11, 12, 13, 14, 15];
    let replacement_size = 4;

    let res = find_replacement(&circuit, 11, replacement_size, &cf_choice, &ct, &mut rng);
    // the block has more wires than the table knows of
    assert!(res.is_none());
}

#[test]
fn the_cache_answers_before_the_table() {
    let mut table = CompressionTable::new(2, 4, vec![1, 6]);
    let block = vec![gate([7, 3, 5], 6), gate([7, 3, 5], 6)];
    let wide = vec![gate([0, 1, 2], 6), gate([3, 4, 5], 6)];
    assert_eq!(table.lookup_cxity(&block), Some(0));
    assert_eq!(table.lookup_cxity(&wide), None);
    assert_eq!(table.compress_circuit(&wide), None);
    assert!(table.cache.is_empty());
    let out = table.compress_circuit(&block).unwrap();
    assert_eq!(table.cache.len(), 1);
    assert_eq!(table.cache[0].circuit, block);
    assert_eq!(table.cache[0].compressed, out);
    assert_eq!(table.lookup_cxity(&block), Some(out.len()));
    // one gate is held by the table as it is, on the wires of the block
    let one = vec![gate([9, 2, 4], 6)];
    assert_eq!(table.compress_circuit(&one), Some(vec![gate([9, 2, 4], 6)]));
    assert_eq!(table.cache.len(), 2);
}

#[test]
fn the_table_knows_every_circuit_of_the_enumeration() {
    let cfs = vec![1u8, 6];
    let ct = build_compression_table(2, 5, &cfs);
    let mut seen = 0;
    for &first_cf in &cfs {
        let first = gate([0, 1, 2], first_cf);
        // one gate
        let table = truth_table(5, &vec![first]);
        let place = find_entry(&ct, &table).expect("one gate");
        assert!(ct[place].circuit.len() <= 1);
        // a second gate with each control function but the constant false,
        // on wires that are distinct, new wires in their order
        for cf in 1..16u8 {
            for t in 0..5usize {
                for a in 0..5usize {
                    for b in 0..5usize {
                        if t == a || t == b || a == b {
                            continue;
                        }
                        let mut fresh: Vec<usize> = [t, a, b].into_iter().filter(|&w| w >= 3).collect();
                        let expect: Vec<usize> = (3..3 + fresh.len()).collect();
                        fresh.sort();
                        let in_order = {
                            let order: Vec<usize> =
                                [t, a, b].into_iter().filter(|&w| w >= 3).collect();
                            order == expect
                        };
                        if fresh != expect || !in_order {
                            continue;
                        }
                        let circuit = vec![first, gate([t, a, b], cf)];
                        let table = truth_table(5, &circuit);
                        let place = find_entry(&ct, &table).expect("two gates");
                        assert!(ct[place].circuit.len() <= 2);
                        seen += 1;
                    }
                }
            }
        }
    }
    assert!(seen > 100);
}

#[test]
fn a_sampled_gate_is_kept_by_what_the_table_gives() {
    let table = CompressionTable::new(2, 4, vec![1, 6]);
    let lhs = vec![gate([2, 0, 1], 6)];
    // the same gate again undoes the first
    let (longer, n) = kept_with(&table, &lhs, gate([2, 0, 1], 6), 0).expect("nothing is left");
    assert_eq!(longer, vec![gate([2, 0, 1], 6), gate([2, 0, 1], 6)]);
    assert_eq!(n, 0);
    assert_eq!(table.lookup_cxity(&longer), Some(0));
    // another gate leaves a circuit of two gates
    let other = gate([0, 1, 2], 1);
    let two = vec![gate([2, 0, 1], 6), other];
    let size = table.lookup_cxity(&two).expect("two gates are in the table");
    assert!(size >= 1);
    assert!(kept_with(&table, &lhs, other, size - 1).is_none());
    assert_eq!(kept_with(&table, &lhs, other, size), Some((two, size)));
    // the table has nothing for a block over more wires than it supports
    assert!(kept_with(&table, &lhs, gate([4, 5, 6], 6), 2).is_none());
}
