//! Token layouts, masks and padding on small numbers.

use rkev::encode::{lay_state, AskTokens, Delimiters, Encoding, Limits, OptionSlot};
use rkev::mask::{
    attention_mask, branch_batch_mask, branch_mask, causal_mask, pad_rows, prefill_batch_mask,
    real_mask,
};
use rkev::pass::Pass;

const D: Delimiters = Delimiters {
    state: 1,
    question: 2,
    option: 3,
    option_end: 4,
    decide: 5,
};

fn ask(instructions: &[u32], options: &[&[u32]]) -> AskTokens {
    AskTokens {
        instructions: instructions.to_vec(),
        options: options.iter().map(|option| option.to_vec()).collect(),
    }
}

fn laid(state: &[u32], asks: &[AskTokens], isolate: bool) -> Encoding {
    let limits = Limits::serving();
    let mut encoding = lay_state(state, &D, limits, isolate);
    let state_len = encoding.ids.len();
    for ask in asks {
        encoding
            .lay_branch(ask, &D, limits, isolate, state_len)
            .unwrap();
    }
    encoding
}

fn two_questions() -> [AskTokens; 2] {
    [
        ask(&[20], &[&[30, 31], &[32]]),
        ask(&[21, 22], &[&[33]]),
    ]
}

fn drawn(mask: &[bool], columns: usize) -> Vec<String> {
    mask.chunks(columns)
        .map(|row| row.iter().map(|yes| if *yes { 'x' } else { '.' }).collect())
        .collect()
}

#[test]
fn questions_are_laid_out_one_behind_the_other() {
    let e = laid(&[10, 11], &two_questions(), false);

    assert_eq!(
        e.ids,
        [1, 10, 11, 2, 20, 3, 30, 31, 4, 3, 32, 4, 5, 2, 21, 22, 3, 33, 4, 5]
    );
    assert_eq!(
        e.segments,
        [0, 0, 0, 1, 1, 1, 1, 1, 1, 1, 1, 1, 1, 2, 2, 2, 2, 2, 2, 2]
    );
    assert_eq!(
        e.positions,
        [0, 1, 2, 3, 4, 5, 6, 7, 8, 9, 10, 11, 12, 3, 4, 5, 6, 7, 8, 9]
    );
    assert!(e.slots.is_empty());
    assert_eq!(e.readout(), [12, 8, 11, 19, 18]);
    assert_eq!((e.readout_width(0), e.readout_width(1)), (3, 2));
}

#[test]
fn isolated_options_start_level() {
    let e = laid(&[10], &[ask(&[20], &[&[30, 31], &[32]])], true);

    // <state> 10 | <q> 20 | <opt> 30 31 </opt> | <opt> 32 </opt> | <decide>
    assert_eq!(e.positions, [0, 1, 2, 3, 4, 5, 6, 7, 4, 5, 6, 8]);
    let mut slots = vec![OptionSlot::Shared; 4];
    slots.extend([OptionSlot::Option(0); 4]);
    slots.extend([OptionSlot::Option(1); 3]);
    slots.push(OptionSlot::Decide);
    assert_eq!(e.slots, slots);
}

#[test]
fn isolated_decide_ignores_the_order() {
    let there = laid(&[10], &[ask(&[20], &[&[30, 31], &[32]])], true);
    let back = laid(&[10], &[ask(&[20], &[&[32], &[30, 31]])], true);

    assert_eq!(there.positions.last(), back.positions.last());
}

#[test]
fn a_row_of_a_packed_pass_is_the_question_alone() {
    let packed = laid(&[10, 11], &two_questions(), false);
    let readout = packed.readout();
    let pass = Pass::new(&packed.ids, &packed.positions, &packed.segments, &readout);
    let rows = pass.rows();

    for (row, question) in rows.iter().zip(two_questions()) {
        let alone = laid(&[10, 11], &[question], false);
        assert_eq!(row.ids, alone.ids);
        assert_eq!(row.positions, alone.positions);
        assert_eq!(row.readout, alone.readout());
    }
    assert_eq!(rows.len(), 2);
}

#[test]
fn a_state_is_cut_to_its_limit() {
    let limits = Limits {
        max_state: 3,
        max_branch: 8,
    };

    assert_eq!(lay_state(&[10, 11, 12], &D, limits, false).ids, [1, 10, 11]);
    assert_eq!(lay_state(&[10, 11], &D, limits, false).ids, [1, 10, 11]);
    assert_eq!(lay_state(&[], &D, limits, false).ids, [1]);
}

#[test]
fn a_question_that_just_fits_is_laid_and_one_more_token_is_refused() {
    let limits = Limits {
        max_state: 3,
        max_branch: 9,
    };
    let mut e = lay_state(&[10, 11], &D, limits, false);

    // <q> 20 <opt> 30 </opt> <decide>: six tokens behind a state of three.
    assert!(e
        .lay_branch(&ask(&[20], &[&[30]]), &D, limits, false, 3)
        .is_ok());
    let before = e.ids.clone();
    let refused = e
        .lay_branch(&ask(&[20], &[&[30, 31]]), &D, limits, false, 3)
        .unwrap_err();

    assert!(refused.is_validation());
    assert!(
        refused
            .message()
            .starts_with("the request does not fit the model context: "),
        "{refused:?}"
    );
    assert_eq!(e.ids, before, "a refused question leaves nothing behind");
}

#[test]
fn the_released_contexts() {
    let (serving, training) = (Limits::serving(), Limits::training());

    assert_eq!((serving.max_state, serving.max_branch), (8192, 8192));
    assert_eq!((training.max_state, training.max_branch), (384, 1024));
}

#[test]
fn a_packed_mask_hides_the_other_question() {
    let ids = [0u32; 6];
    let positions = [0, 1, 2, 3, 2, 3];
    let segments = [0, 0, 1, 1, 2, 2];
    let pass = Pass::new(&ids, &positions, &segments, &[]);

    assert_eq!(
        drawn(&attention_mask(&pass), 6),
        ["x.....", "xx....", "xxx...", "xxxx..", "xx..x.", "xx..xx"]
    );
}

#[test]
fn an_isolated_mask_hides_the_other_options() {
    let e = laid(&[], &[ask(&[], &[&[], &[]])], true);
    let readout = e.readout();
    let pass =
        Pass::new(&e.ids, &e.positions, &e.segments, &readout).with_options(&e.slots);

    // <state> <q> <opt> </opt> <opt> </opt> <decide>
    assert_eq!(
        drawn(&attention_mask(&pass), 7),
        ["x......", "xx.....", "xxx....", "xxxx...", "xx..x..", "xx..xx.", "xxxxxxx"]
    );
}

#[test]
fn continuing_reads_the_whole_state() {
    assert_eq!(drawn(&causal_mask(3), 3), ["x..", "xx.", "xxx"]);
    assert_eq!(drawn(&branch_mask(2, 2), 4), ["xxx.", "xxxx"]);
}

#[test]
fn a_continued_question_reads_as_in_its_row() {
    let packed = laid(&[10, 11], &two_questions(), false);
    let readout = packed.readout();
    let pass = Pass::new(&packed.ids, &packed.positions, &packed.segments, &readout);
    let whole = attention_mask(&pass);
    let state = pass.state().ids.len();

    for row in pass.rows() {
        let len = row.ids.len();
        let alone = attention_mask(&row.as_pass());
        assert_eq!(alone, causal_mask(len));
        assert_eq!(alone[state * len..], branch_mask(state, len - state));
        // The same cells of the whole pass: the state, and this question.
        let segment = row.segments[len - 1];
        let at: Vec<usize> = (0..packed.ids.len())
            .filter(|i| packed.segments[*i] == 0 || packed.segments[*i] == segment)
            .collect();
        for (q, packed_q) in at.iter().enumerate() {
            for (k, packed_k) in at.iter().enumerate() {
                assert_eq!(alone[q * len + k], whole[packed_q * packed.ids.len() + packed_k]);
            }
        }
    }
}

#[test]
fn padding_is_not_read() {
    assert_eq!(
        drawn(&branch_batch_mask(1, &[2, 1], 2), 3),
        ["xx.", "xxx", "xx.", "x.."]
    );
    assert_eq!(
        drawn(&prefill_batch_mask(&[2, 1], 2), 2),
        ["x.", "xx", "x.", ".x"]
    );
    assert_eq!(drawn(&real_mask(&[2, 0, 1], 2), 2), ["xx", "..", "x."]);
}

#[test]
fn rows_are_padded_to_the_longest() {
    let padded = pad_rows(&[(&[7, 8, 9], &[0, 1, 2]), (&[6], &[3])]);

    assert_eq!(padded.ids, [7, 8, 9, 6, 0, 0]);
    assert_eq!(padded.positions, [0, 1, 2, 3, 0, 0]);
    assert_eq!(padded.lengths, [3, 1]);
    assert_eq!(padded.padded, 3);
}
