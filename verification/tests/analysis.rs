use local_mixing::circuit::analysis::{
    compute_active_wires, eval_bits, position_of, projection_circuit, truth_table,
};
use local_mixing::circuit::Gate;

fn gate(wires: [usize; 3], control_func: u8) -> Gate {
    Gate { wires, control_func, generation: 0 }
}

#[test]
fn test_projection_circuit() {
    let non_proj_circuit = vec![gate([41, 42, 43], 3), gate([43, 40, 41], 9)];
    let expected_proj_circuit = [gate([0, 1, 2], 3), gate([2, 3, 0], 9)];
    let expected_proj_map = [41, 42, 43, 40];
    let res = projection_circuit(&non_proj_circuit);
    assert_eq!(res.0, expected_proj_circuit);
    assert_eq!(res.1, expected_proj_map);
}

#[test]
fn test_truth_table() {
    let proj_circuit = vec![gate([0, 1, 2], 3), gate([1, 3, 4], 9)];
    let expected_tt = [
        2, 3, 1, 0, 6, 7, 5, 4, 8, 9, 11, 10, 12, 13, 15, 14, 16, 17, 19, 18, 20, 21, 23, 22, 26,
        27, 25, 24, 30, 31, 29, 28, 34, 35, 33, 32, 38, 39, 37, 36, 40, 41, 43, 42, 44, 45, 47, 46,
        48, 49, 51, 50, 52, 53, 55, 54, 58, 59, 57, 56, 62, 63, 61, 60,
    ];
    let tt = truth_table(6, &proj_circuit);
    assert_eq!(tt, expected_tt);
}

#[test]
fn test_active_wires() {
    let proj_circuit = vec![gate([0, 1, 2], 3), gate([1, 3, 4], 9)];
    let expected_active_wires = (vec![0, 1], vec![1, 3, 4]);
    let tt = truth_table(6, &proj_circuit);
    let active_wires = compute_active_wires(6, &tt);
    assert_eq!(active_wires, expected_active_wires);
}

#[test]
fn projection_of_nothing_is_empty() {
    let res = projection_circuit(&vec![]);
    assert!(res.0.is_empty());
    assert!(res.1.is_empty());
}

#[test]
fn truth_table_of_no_gates_is_the_identity() {
    assert_eq!(truth_table(3, &vec![]), vec![0, 1, 2, 3, 4, 5, 6, 7]);
    assert_eq!(truth_table(0, &vec![]), vec![0]);
    assert_eq!(compute_active_wires(3, &truth_table(3, &vec![])), (vec![], vec![]));
}

#[test]
fn eval_bits_flips_the_target_bit() {
    let and = vec![gate([0, 1, 2], 1)];
    assert_eq!(eval_bits(&and, 0b110), 0b111);
    assert_eq!(eval_bits(&and, 0b111), 0b110);
    assert_eq!(eval_bits(&and, 0b010), 0b010);
}

#[test]
fn position_of_finds_the_first_occurrence() {
    assert_eq!(position_of(&vec![4, 7, 4], 4), Some(0));
    assert_eq!(position_of(&vec![4, 7, 4], 7), Some(1));
    assert_eq!(position_of(&vec![4, 7, 4], 5), None);
}

#[test]
fn test_optimal_projection_circuit() {
    let circuit = vec![
        gate([33, 22, 60], 15),
        gate([33, 2, 22], 3),
        gate([33, 22, 2], 9),
        gate([55, 12, 24], 15),
    ];
    let proj = projection_circuit(&circuit);
    assert_eq!(proj.1, vec![33, 22, 60, 2, 55, 12, 24]);

    let opt = local_mixing::circuit::analysis::optimal_projection_circuit(&circuit);
    assert_eq!(opt.2, truth_table(7, &proj.0));
    // 33 and 55 are flipped, and 33 depends on 22 alone: the second and
    // third gate together flip 33 if wire 22 is clear, whatever wire 2 holds
    assert_eq!(opt.1, vec![33, 22, 55, 60, 2, 12, 24]);
    assert_eq!(opt.3, 3);
    assert_eq!(
        opt.0,
        vec![gate([0, 1, 3], 15), gate([0, 4, 1], 3), gate([0, 1, 4], 9), gate([2, 5, 6], 15)]
    );
}

#[test]
fn sized_truth_table_agrees_with_the_other() {
    let proj_circuit = vec![gate([0, 1, 2], 3), gate([1, 3, 4], 9)];
    let sized: [u32; 64] = local_mixing::circuit::analysis::truth_table_sized::<64>(&proj_circuit);
    assert_eq!(sized.to_vec(), truth_table(6, &proj_circuit));
}
