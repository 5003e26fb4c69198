//! The pointer head: two projections and a calibration.

use rkev::error::Error;
use rkev::head::{Linear, PointerHead};
use rkev::number::Single;

fn project(row: &[f32], bias: &f32, x: &[f32]) -> f32 {
    bias + row.iter().zip(x).map(|(w, x)| w * x).sum::<f32>()
}

fn scaled_dot(key: &[f32], query: &[f32], temperature: Single) -> f32 {
    let scale = 1.0 / (query.len() as f32).sqrt();
    let score: f32 = key.iter().zip(query).map(|(k, q)| k * q).sum();
    score * scale / f32::from_bits(temperature.bits)
}

fn logits(
    head: &PointerHead<f32>,
    decide: &[f32],
    options: &[Vec<f32>],
) -> Result<Vec<f32>, Error> {
    head.logits(decide, options, &project, &scaled_dot)
}

fn single(x: f32) -> Single {
    Single { bits: x.to_bits() }
}

/// Which projection reads `<decide>` and which reads each `</opt>` is decided by
/// a checkpoint's names, and nothing about the shapes says so: swapped, the head
/// scores just as plausibly. So the swap has to be a real difference and it has to
/// be an involution, or the check built on it means nothing.
#[test]
fn swapping_the_pointer_heads_projections_changes_the_scores_and_reverses() {
    // q is the identity, k adds the second unit to the first: asymmetric, so the
    // swap cannot be hidden by symmetry.
    let head = || {
        let q = Linear::new(vec![1.0, 0.0, 0.0, 1.0], vec![0.0, 0.0], 2).unwrap();
        let k = Linear::new(vec![1.0, 1.0, 0.0, 1.0], vec![0.0, 0.0], 2).unwrap();
        PointerHead::new(q, k).unwrap()
    };
    let decide = [1.0, 2.0];
    let options = [vec![1.0, 0.0], vec![0.0, 1.0]];

    let straight = logits(&head(), &decide, &options).unwrap();
    let swapped = logits(&head().swapped(), &decide, &options).unwrap();
    let twice = logits(&head().swapped().swapped(), &decide, &options).unwrap();

    let scale = 1.0 / 2.0f32.sqrt();
    // q(decide) = [1, 2]; k(o1) = [1, 0], k(o2) = [1, 1].
    assert_eq!(straight, vec![1.0 * scale, 3.0 * scale]);
    // k(decide) = [3, 2]; q(o1) = [1, 0], q(o2) = [0, 1]. A different winner, too.
    assert_eq!(swapped, vec![3.0 * scale, 2.0 * scale]);
    assert_eq!(twice, straight, "swapping twice has to be the head itself");
}

/// The temperature divides the logits and cannot change which option wins.
#[test]
fn the_temperature_divides_the_logits_and_leaves_the_winner() {
    let hidden = 4;
    let weight: Vec<f32> = (0..3 * hidden).map(|i| (i as f32 - 5.0) / 3.0).collect();
    let bias = vec![0.1, -0.2, 0.3];
    let projection = || Linear::new(weight.clone(), bias.clone(), hidden).unwrap();
    let raw = PointerHead::new(projection(), projection()).unwrap();
    let calibrated = PointerHead::new(projection(), projection())
        .unwrap()
        .with_temperature(single(2.0), "2")
        .unwrap();

    let decide = vec![0.3, -0.7, 1.1, 0.5];
    let options = vec![vec![1.0, 0.2, -0.4, 0.8], vec![-0.6, 0.9, 0.1, -0.3]];
    let raw = logits(&raw, &decide, &options).unwrap();
    let calibrated = logits(&calibrated, &decide, &options).unwrap();

    for (raw, calibrated) in raw.iter().zip(&calibrated) {
        assert!(
            (raw / 2.0 - calibrated).abs() < 1e-6,
            "{raw} vs {calibrated}"
        );
    }
    let winner = |logits: &[f32]| {
        logits
            .iter()
            .enumerate()
            .max_by(|a, b| a.1.total_cmp(b.1))
            .map(|(index, _)| index)
    };
    assert_eq!(winner(&raw), winner(&calibrated));
}

#[test]
fn a_projection_knows_its_shape() {
    let linear = Linear::new(vec![1, 2, 3, 4, 5, 6], vec![10, 20], 3).unwrap();

    assert_eq!((linear.outputs(), linear.inputs()), (2, 3));
    assert_eq!(linear.row(1), [4, 5, 6]);
    let sum = |row: &[i32], bias: &i32, x: &[i32]| {
        bias + row.iter().zip(x).map(|(w, x)| w * x).sum::<i32>()
    };
    assert_eq!(linear.apply(&[1, 0, 2], &sum), [17, 36]);
}

#[test]
fn weights_that_do_not_fill_the_rows_are_refused() {
    let message = |weight: Vec<f32>, bias: Vec<f32>, inputs: usize| {
        Linear::new(weight, bias, inputs).unwrap_err().message()
    };

    assert_eq!(
        message(vec![1.0; 5], vec![0.0; 2], 3),
        "the local kev engine failed: a 2x3 linear needs 6 weights and 2 biases, got 5 and 2"
    );
    assert!(message(vec![], vec![0.0], 0).contains("a 1x0 linear"));
    assert!(message(vec![], vec![], 4).contains("a 0x4 linear"));
}

#[test]
fn projections_that_disagree_are_no_head() {
    let query = Linear::new(vec![1.0; 6], vec![0.0; 2], 3).unwrap();
    let key = Linear::new(vec![1.0; 4], vec![0.0; 2], 2).unwrap();

    assert_eq!(
        PointerHead::new(query, key).unwrap_err().message(),
        "the local kev engine failed: the pointer head's projections disagree: query is 2x3, key \
         is 2x2"
    );
}

#[test]
fn a_temperature_is_positive() {
    let head = || {
        let projection = || Linear::new(vec![1.0f32], vec![0.0], 1).unwrap();
        PointerHead::new(projection(), projection()).unwrap()
    };

    for good in [f32::MIN_POSITIVE, 1.0, f32::MAX] {
        assert!(head().with_temperature(single(good), "").is_ok());
    }
    for bad in [0.0, -0.0, -1.0, f32::NAN] {
        assert!(head().with_temperature(single(bad), "").is_err());
    }
    assert_eq!(
        head()
            .with_temperature(single(-2.5), "-2.5")
            .unwrap_err()
            .message(),
        "the local kev engine failed: the pointer head's temperature must be positive, got -2.5"
    );
}

#[test]
fn hidden_states_of_another_width_are_refused() {
    let projection = || Linear::new(vec![1.0f32; 6], vec![0.0; 3], 2).unwrap();
    let head = PointerHead::new(projection(), projection()).unwrap();
    assert_eq!((head.hidden_size(), head.pointer_size()), (2, 3));

    assert!(logits(&head, &[1.0], &[vec![1.0, 2.0]]).is_err());
    assert!(logits(&head, &[1.0, 2.0], &[vec![1.0, 2.0], vec![1.0]]).is_err());
    assert_eq!(
        logits(&head, &[1.0, 2.0], &[]).unwrap(),
        Vec::<f32>::new()
    );
}
