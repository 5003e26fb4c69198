//! Which tokens of a pass may read which.

use rkev::pass::Pass;

/// The branch mask rule, on fixed segments and indices.
#[test]
fn a_question_sees_the_state_and_itself_by_the_python_rule() {
    let ids = [0u32; 6];
    let positions = [0u32, 1, 2, 3, 2, 3];
    let segments = [0u32, 0, 1, 1, 2, 2];
    let pass = Pass::new(&ids, &positions, &segments, &[]);

    // Question 1 sees the state and itself.
    assert!(pass.attends(3, 0) && pass.attends(3, 1) && pass.attends(3, 2));
    // Not the future.
    assert!(!pass.attends(3, 4) && !pass.attends(3, 5));
    // Question 2 never sees question 1.
    assert!(pass.attends(5, 0) && pass.attends(5, 4));
    assert!(!pass.attends(5, 2) && !pass.attends(5, 3));
    // The state is causal too.
    assert!(!pass.attends(0, 1));
}

/// The tokens that rows are read from, one row after the other.
fn read(segments: &[u32], readout: &[usize]) -> Vec<u32> {
    let ids: Vec<u32> = (10..10 + segments.len() as u32).collect();
    let positions = vec![0u32; segments.len()];
    let pass = Pass::new(&ids, &positions, segments, readout);
    pass.rows()
        .iter()
        .flat_map(|row| row.readout.iter().map(|at| row.ids[*at]).collect::<Vec<_>>())
        .collect()
}

#[test]
fn rows_are_read_in_the_order_asked() {
    let segments = [0u32, 0, 1, 1, 2, 2];

    assert_eq!(read(&segments, &[3, 2, 5, 4]), [13, 12, 15, 14]);
    // Questions that do not lie in one piece are read by their tokens all the same.
    assert_eq!(read(&[1, 0, 2, 1, 0, 2], &[3, 0, 2]), [13, 10, 12]);
    // A token of the state belongs to no row.
    assert_eq!(read(&segments, &[1, 3]), [13]);
}

#[test]
fn one_question_needs_no_more_than_a_causal_mask_whatever_its_number() {
    let causal = |segments: &[u32]| {
        let ids: Vec<u32> = vec![1; segments.len()];
        Pass::new(&ids, &ids, segments, &[]).is_causal()
    };

    assert!(causal(&[0, 2, 2]) && causal(&[0, 1, 1]) && causal(&[0, 0]) && causal(&[]));
    assert!(!causal(&[0, 1, 2]) && !causal(&[3, 0, 2]));
    // What rows hands back for the second question.
    let ids = [1u32, 2, 5, 6];
    let positions = [0u32, 1, 1, 2];
    for row in Pass::new(&ids, &positions, &[0, 1, 2, 2], &[3]).rows() {
        assert!(row.as_pass().is_causal());
    }
}
