use sortn_circuit::chip::{check_gates, Constraint, SortNChip, NUM_ADVICE, NUM_BYTES, NUM_ELEMENTS};
use sortn_circuit::circuit::SortNCircuit;
use sortn_circuit::sort::sort_with_indices;

#[test]
fn sort_with_indices_example() {
    let values = vec![5u64, 3, 8, 1, 9, 2, 7, 4];
    let (sorted, idx) = sort_with_indices(&values);
    assert_eq!(sorted, vec![1, 2, 3, 4, 5, 7, 8, 9]);
    assert_eq!(idx, vec![3, 5, 1, 7, 0, 6, 2, 4]);
    for t in 0..8 {
        assert_eq!(sorted[t], values[idx[t]]);
    }
}

#[test]
fn sort_with_indices_duplicates() {
    let values = vec![4u64, 4, 1, 1, 3, 2, 2, 3];
    let (sorted, idx) = sort_with_indices(&values);
    assert_eq!(sorted, vec![1, 1, 2, 2, 3, 3, 4, 4]);
    let mut seen = vec![false; 8];
    for t in 0..8 {
        assert_eq!(sorted[t], values[idx[t]]);
        assert!(!seen[idx[t]]);
        seen[idx[t]] = true;
    }
}

#[test]
fn configure_constraint_count() {
    let cfg = SortNCircuit::configure();
    assert_eq!(cfg.num_advice, NUM_ADVICE);
    // One master-gate term per comparator, then per comparator: boolean,
    // main identity and one range demand per difference byte.
    let comparators = NUM_ELEMENTS - 1;
    assert_eq!(cfg.constraints.len(), comparators + comparators * (2 + NUM_BYTES));
    let ranges = cfg
        .constraints
        .iter()
        .filter(|c| matches!(c, Constraint::ByteRange { .. }))
        .count();
    assert_eq!(ranges, comparators * NUM_BYTES);
    assert_eq!(cfg.selector_rows, vec![0, 2, 3, 4, 5, 6, 7, 8]);
}

#[test]
fn synthesize_expected_instance() {
    let circuit = SortNCircuit::new(vec![5, 3, 8, 1, 9, 2, 7, 4]);
    let asg = circuit.synthesize(SortNCircuit::configure());
    assert_eq!(asg.instance, vec![5, 3, 8, 1, 9, 2, 7, 4, 1, 2, 3, 4, 5, 7, 8, 9]);
    assert!(check_gates(&asg));
}

#[test]
fn synthesize_satisfies_gates_for_any_input_order() {
    let orders: Vec<Vec<u64>> = vec![
        vec![1, 2, 3, 4, 5, 7, 8, 9],
        vec![9, 8, 7, 5, 4, 3, 2, 1],
        vec![4, 9, 1, 7, 2, 8, 3, 5],
        vec![2, 1, 4, 3, 7, 5, 9, 8],
    ];
    for values in orders {
        let circuit = SortNCircuit::new(values.clone());
        let asg = circuit.synthesize(SortNCircuit::configure());
        assert_eq!(&asg.instance[..8], &values[..]);
        assert_eq!(&asg.instance[8..], &[1, 2, 3, 4, 5, 7, 8, 9]);
        assert!(check_gates(&asg), "gates should hold for input order {:?}", values);
    }
}

#[test]
fn synthesize_with_duplicate_violates_gates() {
    let circuit = SortNCircuit::new(vec![5, 3, 8, 1, 9, 2, 7, 3]);
    let asg = circuit.synthesize(SortNCircuit::configure());
    // Synthesis itself succeeds; the sortedness gate is what fails.
    assert_eq!(asg.instance[..8], [5, 3, 8, 1, 9, 2, 7, 3]);
    assert_eq!(asg.instance[8..], [1, 2, 3, 3, 5, 7, 8, 9]);
    assert!(!check_gates(&asg));
}

#[test]
fn all_equal_values_violate_gates() {
    let circuit = SortNCircuit::new(vec![6; 8]);
    let asg = circuit.synthesize(SortNCircuit::configure());
    assert!(!check_gates(&asg));
}

#[test]
fn tampered_output_cell_violates_gates() {
    let circuit = SortNCircuit::new(vec![5, 3, 8, 1, 9, 2, 7, 4]);
    let mut asg = circuit.synthesize(SortNCircuit::configure());
    assert!(check_gates(&asg));
    // Column 0, row 1 holds the first sorted output; forging it breaks the
    // first comparator's difference identity.
    asg.cells[1] += 1;
    assert!(!check_gates(&asg));
}

#[test]
fn tampered_flag_cell_violates_gates() {
    let circuit = SortNCircuit::new(vec![5, 3, 8, 1, 9, 2, 7, 4]);
    let mut asg = circuit.synthesize(SortNCircuit::configure());
    // Column 0, row 2 holds the first comparator's boolean flag.
    asg.cells[2] = 5;
    assert!(!check_gates(&asg));
}

#[test]
fn without_witnesses_zeroes_the_values() {
    let circuit = SortNCircuit::new(vec![5, 3, 8, 1, 9, 2, 7, 4]);
    let blank = circuit.without_witnesses();
    assert_eq!(blank.values, vec![0; 8]);
    let asg = blank.synthesize(SortNCircuit::configure());
    // All-zero values are duplicates, so the region cannot satisfy the
    // sortedness constraints, but synthesis still succeeds structurally.
    assert_eq!(asg.instance, vec![0; 16]);
    assert!(!check_gates(&asg));
}

#[test]
fn assign_records_permutation_copies() {
    let values = vec![5u64, 3, 8, 1, 9, 2, 7, 4];
    let (sorted, idx) = sort_with_indices(&values);
    let chip = SortNChip::construct(SortNCircuit::configure());
    let asg = chip.assign(&values, &idx, &sorted);
    assert_eq!(asg.copies.len(), 8);
    for t in 0..8 {
        assert_eq!(asg.copies[t].src_col, idx[t]);
        assert_eq!(asg.copies[t].src_row, 0);
        assert_eq!(asg.copies[t].dst_col, t);
        assert_eq!(asg.copies[t].dst_row, 1);
    }
    assert_eq!(asg.inst_copies.len(), 8);
    for t in 0..8 {
        assert_eq!(asg.inst_copies[t].inst_row, t);
        assert_eq!(asg.inst_copies[t].col, t);
        assert_eq!(asg.inst_copies[t].row, 0);
    }
}
