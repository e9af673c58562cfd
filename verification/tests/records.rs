use local_mixing::circuit::circuit::{
    control_function_counts, hamming_weight, CircuitData, GateData,
};
use local_mixing::circuit::{Circuit, Gate};
use local_mixing::local_mixing::replacement_stats::ReplacementStats;
use local_mixing::local_mixing::tracer::{ReplacementTraceFields, Stage, Tracer};
use std::time::Duration;

#[test]
fn gates_are_written_controls_first() {
    let g = Gate { wires: [7, 8, 9], control_func: 3, generation: 5 };
    let data = GateData::from(g);
    assert_eq!(data, GateData(8, 9, 7, 3));
    assert_eq!(Gate::from(data), Gate::new(7, 8, 9, 3));
    assert_eq!(data.to_gate(), Gate::new(7, 8, 9, 3));
}

#[test]
fn circuits_survive_the_way_to_a_record_and_back() {
    let circuit = Circuit {
        num_wires: 6,
        gates: vec![Gate::new(0, 1, 2, 3), Gate::new(3, 4, 5, 9)],
    };
    let data = CircuitData::of_circuit(&circuit);
    assert_eq!(data.wire_count, 6);
    assert_eq!(data.gate_count, 2);
    assert_eq!(data.gates, vec![GateData(1, 2, 0, 3), GateData(4, 5, 3, 9)]);
    let back = Circuit::from(data);
    assert_eq!(back.num_wires, 6);
    assert_eq!(back.gates, circuit.gates);
    assert_eq!(CircuitData::from(circuit).gates.len(), 2);
}

#[test]
fn statistics_count_gates_and_set_wires() {
    let circuit = Circuit {
        num_wires: 6,
        gates: vec![Gate::new(0, 1, 2, 3), Gate::new(3, 4, 5, 9), Gate::new(1, 4, 5, 3)],
    };
    let counts = control_function_counts(&circuit);
    assert_eq!(counts.len(), 16);
    assert_eq!(counts[3], 2);
    assert_eq!(counts[9], 1);
    assert_eq!(counts.iter().sum::<usize>(), 3);
    assert_eq!(hamming_weight(&vec![true, false, true, true]), 3);
    assert_eq!(hamming_weight(&vec![]), 0);
}

#[test]
fn stats_fill_up_to_their_capacity() {
    let mut stats: ReplacementStats<2> = ReplacementStats::new();
    assert!(!stats.at_capacity());
    stats.add_entry(Duration::from_millis(5));
    assert!(!stats.at_capacity());
    stats.add_entry(Duration::from_millis(7));
    assert!(stats.at_capacity());
    assert_eq!(stats.times, vec![Duration::from_millis(5), Duration::from_millis(7)]);
    stats.clear();
    assert!(stats.times.is_empty());
    assert!(ReplacementStats::<0>::new().at_capacity());
}

#[test]
fn the_tracer_hands_its_stash_on() {
    let mut tracer = Tracer::new(&"job".to_string(), 3, 4);
    assert_eq!(tracer.dir_path, "job");
    assert!(tracer.stash.search.is_none() && tracer.stash.replacement.is_none());
    let mut fields = ReplacementTraceFields::default();
    fields.num_circuits_sampled = 12;
    tracer.add_search_entry(100, 7, Duration::from_millis(3), fields);
    tracer.add_replacement_time(Duration::from_millis(2));
    let search = tracer.stash.search.as_ref().unwrap();
    assert_eq!((search.n_gates, search.max_candidate_dist), (100, 7));
    assert_eq!(search.time, Duration::from_millis(3));
    tracer.flush_stash(Stage::Kneading, 0);
    assert!(tracer.stash.search.is_none() && tracer.stash.replacement.is_none());
    assert!(tracer.replacement_times.inflationary_stage.is_empty());
    assert_eq!(tracer.replacement_times.kneading_stage, vec![Duration::from_millis(2)]);
    assert_eq!(tracer.replacement_info.kneading_stage.len(), 1);
    assert_eq!(tracer.replacement_info.kneading_stage[0].num_circuits_sampled, 12);
    assert!(tracer.replacement_info.inflationary_stage.is_empty());

    tracer.add_replacement_time(Duration::from_millis(9));
    tracer.empty_stash();
    assert!(tracer.stash.replacement.is_none());
    tracer.flush_stash(Stage::Inflationary, 1);
    assert!(tracer.replacement_times.inflationary_stage.is_empty());
    assert_eq!(Stage::Inflationary.to_string(), "Inflationary");
    assert_eq!(Stage::Kneading.to_string(), "Kneading");
}
