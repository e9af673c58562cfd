use local_mixing::circuit::circuit::check_equiv_probabilistic;
use local_mixing::circuit::{Circuit, Gate};
use local_mixing::local_mixing::config::LocalMixingConfig;
use local_mixing::local_mixing::job::{splice_gates, JobState, StepError};
use local_mixing::local_mixing::tracer::Stage;
use local_mixing::local_mixing::LocalMixingJob;
use local_mixing::random::ChaChaSource;
use local_mixing::replacement::strategy::{ControlFnChoice, ReplacementStrategy};

fn config(circuit: Circuit, num_wires: usize, attempts: usize) -> LocalMixingConfig {
    LocalMixingConfig {
        original_circuit: circuit,
        num_wires,
        num_inflationary_steps: 1,
        num_kneading_steps: 1,
        num_replacement_attempts: attempts,
        max_attempts_without_success: 10000,
        replacement_strategy: ReplacementStrategy::SampleActive0,
        cf_choice: ControlFnChoice::OnlyUnique,
        save: false,
        epoch_size: 0,
    }
}

const SMALL_JOB_SEED: u64 = 125;

fn all_states(num_wires: usize) -> Vec<Vec<bool>> {
    (0..(1u32 << num_wires)).map(|x| (0..num_wires).map(|w| x & (1 << w) != 0).collect()).collect()
}

#[test]
fn test_inflationary_step() {
    let mut rng = ChaChaSource::from_seed(322);
    let num_wires = 16;
    let num_gates = 10;
    let circuit = Circuit::random(num_wires, num_gates, &mut rng);
    let mut job = LocalMixingJob::from_config(config(circuit.clone(), num_wires, 1000000000));
    job.run_inflationary_step(&mut rng);
    assert_eq!(job.curr_inflationary_step, 1);
    assert_eq!(job.circuit.gates.len(), 12);
    assert_eq!(
        check_equiv_probabilistic(num_wires, &circuit.gates, &job.circuit.gates, 1000, &mut rng),
        Ok(())
    );
}

#[test]
fn test_kneading_step() {
    let mut rng = ChaChaSource::from_seed(42);
    let num_wires = 10;
    let num_gates = 20;
    let circuit = Circuit::random(num_wires, num_gates, &mut rng);
    let mut job = LocalMixingJob::from_config(config(circuit.clone(), num_wires, 100_000));
    job.run_kneading_step(&mut rng);
    assert_eq!(job.circuit.gates.len(), 20);
    assert_eq!(job.curr_kneading_step + job.consecutive_failures, 1);
    for state in all_states(num_wires) {
        assert_eq!(circuit.evaluate(&state), job.circuit.evaluate(&state));
    }
}

#[test]
fn new_jobs_have_done_nothing() {
    let circuit = Circuit { num_wires: 5, gates: vec![Gate::new(0, 1, 2, 3)] };
    let job = LocalMixingJob::new(
        5,
        3,
        2,
        100,
        7,
        ReplacementStrategy::SampleUnguided,
        ControlFnChoice::All,
        circuit.clone(),
    );
    assert_eq!(job.wires, 5);
    assert_eq!(job.inflationary_stage_steps, 3);
    assert_eq!(job.kneading_stage_steps, 2);
    assert_eq!(job.max_replacement_samples, 100);
    assert_eq!(job.max_attempts_without_success, 7);
    assert_eq!(job.replacement_strategy, ReplacementStrategy::SampleUnguided);
    assert_eq!(job.cf_choice, ControlFnChoice::All);
    assert_eq!(job.circuit.gates, circuit.gates);
    assert!(!job.save && !job.in_progress);
    assert_eq!((job.curr_inflationary_step, job.curr_kneading_step, job.consecutive_failures), (0, 0, 0));
    assert!(job.is_well_formed());
    assert!(job.in_inflationary_stage() && job.in_kneading_stage());
    assert_eq!(job.state(), JobState::Inflationary { step: 0, steps_target: 3 });
}

#[test]
fn states_follow_the_counters() {
    let circuit = Circuit { num_wires: 5, gates: vec![] };
    let mut job = LocalMixingJob::new(
        5,
        1,
        2,
        100,
        3,
        ReplacementStrategy::SampleActive0,
        ControlFnChoice::All,
        circuit,
    );
    job.curr_inflationary_step = 1;
    assert!(!job.in_inflationary_stage());
    assert_eq!(job.state(), JobState::Kneading { step: 0, steps_target: 2 });
    job.consecutive_failures = 2;
    assert_eq!(job.state(), JobState::Kneading { step: 0, steps_target: 2 });
    job.consecutive_failures = 3;
    assert_eq!(job.state(), JobState::Failed);
    job.consecutive_failures = 0;
    job.curr_kneading_step = 2;
    assert!(!job.in_kneading_stage());
    assert_eq!(job.state(), JobState::Done);
    job.save = true;
    job.epoch_size = 5;
    assert!(job.due_for_save(10));
    assert!(!job.due_for_save(11));
    job.epoch_size = 0;
    assert!(!job.due_for_save(10));
}

#[test]
fn a_job_that_cannot_replace_fails_after_one_step() {
    let mut rng = ChaChaSource::from_seed(43);
    let circuit = Circuit::random(16, 30, &mut rng);
    let mut job = LocalMixingJob::new(
        16,
        5,
        5,
        0,
        1,
        ReplacementStrategy::SampleActive0,
        ControlFnChoice::OnlyUnique,
        circuit.clone(),
    );
    assert!(!job.execute(&mut rng));
    assert_eq!(job.state(), JobState::Failed);
    assert_eq!(job.consecutive_failures, 1);
    assert_eq!(job.curr_inflationary_step, 0);
    assert_eq!(job.curr_kneading_step, 0);
    assert_eq!(job.circuit.gates, circuit.gates);
    // further steps do nothing
    assert_eq!(job.advance(&mut rng), JobState::Failed);
    assert_eq!(job.consecutive_failures, 1);
}

#[test]
fn a_job_gives_up_after_its_tries() {
    let mut rng = ChaChaSource::from_seed(44);
    let circuit = Circuit::random(16, 30, &mut rng);
    let mut job = LocalMixingJob::new(
        16,
        5,
        5,
        0,
        4,
        ReplacementStrategy::SampleActive0,
        ControlFnChoice::OnlyUnique,
        circuit,
    );
    for failures in 1..4 {
        assert_eq!(job.advance(&mut rng), JobState::Inflationary { step: 0, steps_target: 5 });
        assert_eq!(job.consecutive_failures, failures);
    }
    assert_eq!(job.advance(&mut rng), JobState::Failed);
    assert_eq!(job.consecutive_failures, 4);
}

#[test]
fn steps_fail_on_circuits_that_are_too_small() {
    let mut rng = ChaChaSource::from_seed(45);
    let circuit = Circuit { num_wires: 5, gates: vec![Gate::new(0, 1, 2, 3)] };
    let mut job = LocalMixingJob::new(
        5,
        1,
        0,
        1000,
        1,
        ReplacementStrategy::SampleActive0,
        ControlFnChoice::OnlyUnique,
        circuit,
    );
    assert_eq!(job.execute_step::<_, 2>(&mut rng), Err(StepError::SearchExhausted));
    assert_eq!(job.circuit.gates.len(), 1);
}

#[test]
fn steps_without_a_replacement_leave_the_circuit() {
    let mut rng = ChaChaSource::from_seed(46);
    let circuit = Circuit {
        num_wires: 11,
        gates: vec![Gate::new(0, 1, 2, 4), Gate::new(3, 0, 4, 9)],
    };
    let mut job = LocalMixingJob::new(
        11,
        1,
        0,
        0,
        1,
        ReplacementStrategy::SampleActive0,
        ControlFnChoice::OnlyUnique,
        circuit.clone(),
    );
    assert_eq!(job.execute_step::<_, 2>(&mut rng), Err(StepError::ReplacementNotFound));
    assert_eq!(job.circuit.gates, circuit.gates);
}

#[test]
fn the_dummy_strategy_puts_in_blank_gates() {
    let mut rng = ChaChaSource::from_seed(47);
    let circuit = Circuit {
        num_wires: 11,
        gates: vec![Gate::new(5, 6, 7, 1), Gate::new(0, 1, 2, 4), Gate::new(3, 0, 4, 9)],
    };
    let mut job = LocalMixingJob::new(
        11,
        1,
        0,
        0,
        1,
        ReplacementStrategy::Dummy,
        ControlFnChoice::OnlyUnique,
        circuit,
    );
    assert_eq!(job.execute_step::<_, 2>(&mut rng), Ok(()));
    assert_eq!(job.circuit.gates.len(), 5);
    assert_eq!(job.circuit.gates[0], Gate::new(5, 6, 7, 1));
    assert_eq!(job.circuit.gates[1..], vec![Gate::default(); 4][..]);
}

#[test]
fn an_inflationary_job_grows_and_keeps_its_function() {
    let mut rng = ChaChaSource::from_seed(505);
    let circuit = Circuit::random(100, 1000, &mut rng);
    let mut job = LocalMixingJob::new(
        100,
        100,
        0,
        20_000,
        1000,
        ReplacementStrategy::SampleActive0,
        ControlFnChoice::OnlyUnique,
        circuit.clone(),
    );
    let mut successes = 0;
    for _ in 0..100 {
        let before = job.circuit.gates.len();
        match job.execute_step::<_, 2>(&mut rng) {
            Ok(()) => {
                successes += 1;
                assert_eq!(job.circuit.gates.len(), before + 2);
            }
            Err(_) => assert_eq!(job.circuit.gates.len(), before),
        }
    }
    assert_eq!(job.circuit.gates.len(), 1000 + 2 * successes);
    assert!(job.is_well_formed());
    assert_eq!(
        check_equiv_probabilistic(100, &circuit.gates, &job.circuit.gates, 1000, &mut rng),
        Ok(())
    );
}

#[test]
fn a_small_job_keeps_its_function_on_every_input() {
    let mut rng = ChaChaSource::from_seed(SMALL_JOB_SEED);
    let num_wires = 12;
    let circuit = Circuit::random(num_wires, 40, &mut rng);
    let mut job = LocalMixingJob::new(
        num_wires,
        2,
        0,
        1_000_000_000,
        1000,
        ReplacementStrategy::SampleActive0,
        ControlFnChoice::OnlyUnique,
        circuit.clone(),
    );
    job.run_inflationary_step(&mut rng);
    assert_eq!(job.curr_inflationary_step, 1);
    assert_eq!(job.circuit.gates.len(), 42);
    assert_eq!(job.state(), JobState::Inflationary { step: 1, steps_target: 2 });
    assert!(job.circuit.gates.iter().all(|g| g.wires.iter().all(|&w| w < num_wires)));
    assert_eq!(job.circuit.gates.iter().filter(|g| g.generation == 1).count(), 4);
    let fields = job.last_replacement.as_ref().unwrap();
    assert_eq!(fields.input_circuit.len(), 2);
    assert_eq!(fields.output_circuit.len(), 4);
    for state in all_states(num_wires) {
        assert_eq!(circuit.evaluate(&state), job.circuit.evaluate(&state));
    }
}

#[test]
fn splice_replaces_a_block() {
    let gates: Vec<Gate> = (0..5).map(|i| Gate::new(i, i + 1, i + 2, 1)).collect();
    let block = vec![Gate::new(9, 8, 7, 2); 3];
    let out = splice_gates(&gates, 1, 2, &block);
    assert_eq!(out, vec![gates[0], block[0], block[1], block[2], gates[3], gates[4]]);
    assert_eq!(splice_gates(&gates, 5, 0, &block)[5..], block[..]);
    assert_eq!(splice_gates(&gates, 0, 5, &vec![]), vec![]);
}

fn benchmark_inflationary_step(num_wires: usize, num_gates: usize, iterations: usize) -> usize {
    let mut rng = ChaChaSource::from_seed(94);
    let mut done = 0;

    for _ in 0..iterations {
        let circuit = Circuit::random(num_wires, num_gates, &mut rng);
        let config = LocalMixingConfig {
            original_circuit: circuit.clone(),
            num_wires,
            num_inflationary_steps: 1,
            num_kneading_steps: 1,
            num_replacement_attempts: 300_000,
            max_attempts_without_success: 1,
            replacement_strategy: ReplacementStrategy::SampleActive0,
            cf_choice: ControlFnChoice::OnlyUnique,
            save: false,
            epoch_size: 0,
        };
        let mut local_mixing_job = LocalMixingJob::from_config(config);
        local_mixing_job.run_inflationary_step(&mut rng);
        let grown = local_mixing_job.circuit.gates.len() - num_gates;
        assert_eq!(grown, 2 * local_mixing_job.curr_inflationary_step);
        assert!(local_mixing_job.curr_inflationary_step <= 1);
        assert_eq!(
            check_equiv_probabilistic(
                num_wires,
                &circuit.gates,
                &local_mixing_job.circuit.gates,
                100,
                &mut rng
            ),
            Ok(())
        );
        done += local_mixing_job.curr_inflationary_step;
    }
    done
}

#[test]
fn test_benchmark_inflationary_step() {
    let jobs = [
        (100, 1000),
        (200, 1000),
        (500, 1000),
        (100, 5000),
        (200, 5000),
        (500, 5000),
        (100, 10000),
        (200, 10000),
        (500, 10000),
    ];

    let mut done = 0;
    for (num_wires, num_gates) in jobs {
        done += benchmark_inflationary_step(num_wires, num_gates, 1);
    }
    println!("steps that succeeded: {}", done);
    assert!(done >= 1);
}

#[test]
fn results_of_steps_are_counted() {
    let circuit = Circuit { num_wires: 5, gates: vec![Gate::new(0, 1, 2, 3)] };
    let mut job = LocalMixingJob::new(
        5,
        3,
        2,
        100,
        7,
        ReplacementStrategy::SampleUnguided,
        ControlFnChoice::All,
        circuit.clone(),
    );
    job.settle(Stage::Inflationary, Err(StepError::ReplacementNotFound));
    job.settle(Stage::Kneading, Err(StepError::SearchExhausted));
    assert_eq!((job.curr_inflationary_step, job.curr_kneading_step), (0, 0));
    assert_eq!(job.consecutive_failures, 2);
    job.settle(Stage::Inflationary, Ok(()));
    assert_eq!((job.curr_inflationary_step, job.curr_kneading_step), (1, 0));
    assert_eq!(job.consecutive_failures, 0);
    job.settle(Stage::Kneading, Ok(()));
    assert_eq!((job.curr_inflationary_step, job.curr_kneading_step), (1, 1));
    assert_eq!(job.circuit.gates, circuit.gates);
}

#[test]
fn an_inflationary_step_counts_its_failed_tries() {
    let mut rng = ChaChaSource::from_seed(46);
    let circuit = Circuit::random(16, 30, &mut rng);
    // no candidate may be sampled: each of the three tries fails
    let mut job = LocalMixingJob::new(
        16,
        5,
        5,
        0,
        3,
        ReplacementStrategy::SampleActive0,
        ControlFnChoice::OnlyUnique,
        circuit.clone(),
    );
    job.run_inflationary_step(&mut rng);
    assert_eq!(job.consecutive_failures, 3);
    assert_eq!(job.curr_inflationary_step, 0);
    assert_eq!(job.circuit.gates, circuit.gates);
    assert_eq!(job.state(), JobState::Failed);
    // a job that has failed as often as it may try is left as it is
    job.run_inflationary_step(&mut rng);
    assert_eq!(job.consecutive_failures, 3);
    job.run_kneading_step(&mut rng);
    assert_eq!(job.consecutive_failures, 4);
    assert_eq!(job.curr_kneading_step, 0);
}

#[test]
fn a_job_that_is_through_or_has_failed_is_left_as_it_is() {
    let mut rng = ChaChaSource::from_seed(47);
    let circuit = Circuit::random(16, 30, &mut rng);
    let mut done = LocalMixingJob::new(
        16,
        0,
        0,
        100,
        2,
        ReplacementStrategy::SampleActive0,
        ControlFnChoice::OnlyUnique,
        circuit.clone(),
    );
    done.consecutive_failures = 1;
    assert!(done.execute(&mut rng));
    assert_eq!(done.consecutive_failures, 1);
    assert_eq!(done.circuit.gates, circuit.gates);
    let mut failed = LocalMixingJob::new(
        16,
        4,
        4,
        100,
        2,
        ReplacementStrategy::SampleActive0,
        ControlFnChoice::OnlyUnique,
        circuit.clone(),
    );
    failed.consecutive_failures = 5;
    assert!(!failed.execute(&mut rng));
    assert_eq!(failed.consecutive_failures, 5);
    assert_eq!(failed.curr_inflationary_step, 0);
    assert_eq!(failed.circuit.gates, circuit.gates);
}

#[test]
fn a_step_records_what_it_put_in() {
    let mut rng = ChaChaSource::from_seed(SMALL_JOB_SEED);
    let circuit = Circuit::random(8, 12, &mut rng);
    let mut job = LocalMixingJob::new(
        8,
        1,
        0,
        2_000_000,
        50,
        ReplacementStrategy::SampleActive0,
        ControlFnChoice::OnlyUnique,
        circuit.clone(),
    );
    assert!(job.execute(&mut rng));
    assert_eq!(job.curr_inflationary_step, 1);
    assert_eq!(job.circuit.gates.len(), 14);
    let record = job.last_replacement.as_ref().expect("a record of the step");
    assert_eq!(record.input_circuit.len(), 2);
    assert_eq!(record.output_circuit.len(), 4);
    // the block stands in the circuit as the record has it, and the gates
    // that were replaced are gates of the circuit before
    let at = (0..=10usize)
        .find(|&i| job.circuit.gates[i..i + 4] == record.output_circuit[..])
        .expect("the block of the record");
    assert!(at <= 10);
    for g in &record.input_circuit {
        assert!(circuit.gates.contains(g));
    }
    let kept: Vec<Gate> = job
        .circuit
        .gates
        .iter()
        .enumerate()
        .filter(|(i, _)| *i < at || *i >= at + 4)
        .map(|(_, g)| *g)
        .collect();
    let mut before = circuit.gates.clone();
    for g in &record.input_circuit {
        let p = before.iter().position(|h| h == g).unwrap();
        before.remove(p);
    }
    let mut a: Vec<_> = kept.iter().map(|g| (g.wires, g.control_func)).collect();
    let mut b: Vec<_> = before.iter().map(|g| (g.wires, g.control_func)).collect();
    a.sort();
    b.sort();
    assert_eq!(a, b);
}
