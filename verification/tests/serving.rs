//! Which states are run, and which way a pass takes.

use rkev::backend::{
    precision_for, runnable, tokenizer_source, Backend, Precision, Serving, TokenizerSource, Work,
};
use rkev::cache::PrefixCache;
use rkev::encode::OptionSlot;
use rkev::error::Error;
use rkev::pass::{OwnedPass, Pass};

/// A hidden state here is the tokens it was computed from.
type Hidden = Vec<u32>;
type Prefill = fn(&OwnedPass) -> Result<Hidden, Error>;
type PrefillBatch = fn(&[OwnedPass]) -> Result<Vec<Hidden>, Error>;
type ContinueFrom = fn(&Hidden, &[OwnedPass]) -> Result<Vec<Vec<Hidden>>, Error>;
type Run = fn(&[u32], &[u32], &[usize], &[bool]) -> Result<Vec<Hidden>, Error>;
type Toy = Backend<Hidden, Prefill, PrefillBatch, ContinueFrom, Run>;

/// A token the toy backbone cannot run.
const BROKEN: u32 = 666;

fn checked(ids: &[u32]) -> Result<Hidden, Error> {
    if ids.contains(&BROKEN) {
        return Err(Error::Model(String::from("broken")));
    }
    Ok(ids.to_vec())
}

fn prefill(state: &OwnedPass) -> Result<Hidden, Error> {
    checked(&state.ids)
}

fn prefill_batch(states: &[OwnedPass]) -> Result<Vec<Hidden>, Error> {
    states.iter().map(|state| checked(&state.ids)).collect()
}

fn continue_from(kept: &Hidden, branches: &[OwnedPass]) -> Result<Vec<Vec<Hidden>>, Error> {
    branches
        .iter()
        .map(|branch| {
            checked(&branch.ids)?;
            let read = |at: &usize| kept.iter().chain(&branch.ids[..=*at]).copied().collect();
            Ok(branch.readout.iter().map(read).collect())
        })
        .collect()
}

/// The tokens that each place of the readout may read, by the mask alone.
fn run(ids: &[u32], _: &[u32], readout: &[usize], mask: &[bool]) -> Result<Vec<Hidden>, Error> {
    checked(ids)?;
    let n = ids.len();
    let read = |at: &usize| (0..n).filter(|k| mask[at * n + k]).map(|k| ids[k]).collect();
    Ok(readout.iter().map(read).collect())
}

fn toy(hybrid: bool) -> Toy {
    Backend::new(
        hybrid,
        prefill as Prefill,
        prefill_batch as PrefillBatch,
        continue_from as ContinueFrom,
        run as Run,
    )
}

fn eager() -> Toy {
    toy(false).with_prefix_min_tokens(0)
}

const SEGMENTS: [u32; 9] = [0, 0, 0, 1, 1, 1, 1, 1, 1];
const POSITIONS: [u32; 9] = [0, 1, 2, 3, 4, 5, 6, 7, 8];
const READOUT: [usize; 2] = [8, 7];

fn pass(ids: &[u32]) -> Pass<'_> {
    Pass::new(ids, &POSITIONS, &SEGMENTS, &READOUT)
}

#[test]
fn a_repeated_state_is_prefilled_once_and_then_found() {
    let mut backend = eager();
    let ids: Vec<u32> = vec![1, 6, 7, 2, 12, 3, 14, 4, 5];

    let first = backend.hidden(&pass(&ids)).unwrap();
    assert_eq!(
        backend.prefix_hits(),
        (0, 1),
        "the first state cannot be a hit"
    );
    let second = backend.hidden(&pass(&ids)).unwrap();
    assert_eq!(
        backend.prefix_hits(),
        (1, 1),
        "the same state was run again"
    );
    assert_eq!(first, second, "the cached state answered differently");

    // A different state is a miss, and with room for one state only the first is
    // gone afterwards.
    let other: Vec<u32> = vec![1, 6, 9, 2, 12, 3, 14, 4, 5];
    let mut small = eager().with_prefix_cache(1);
    small.hidden(&pass(&ids)).unwrap();
    small.hidden(&pass(&other)).unwrap();
    small.hidden(&pass(&ids)).unwrap();
    assert_eq!(small.prefix_hits(), (0, 3), "one state was kept, not none");
}

#[test]
fn a_batch_prefills_each_state_once_however_many_requests_want_it() {
    let mut backend = eager();
    // Three passes over two states: the third repeats the first.
    let states: [&[u32]; 3] = [&[1, 6, 7], &[1, 6, 9], &[1, 6, 7]];
    let branch: [u32; 6] = [2, 12, 3, 14, 4, 5];
    let ids: Vec<Vec<u32>> = states
        .iter()
        .map(|state| state.iter().chain(&branch).copied().collect())
        .collect();
    let passes: Vec<Pass<'_>> = ids.iter().map(|ids| pass(ids)).collect();

    let batched = backend.hidden_batch(&passes).unwrap();

    assert_eq!(batched.len(), 3);
    // Two states were run, together; the third pass found one of them waiting.
    assert_eq!(backend.prefix_hits(), (1, 2));
    assert_eq!(
        batched[0], batched[2],
        "the same state answered differently"
    );
    assert_ne!(batched[0], batched[1]);

    // And a second round finds both.
    backend.hidden_batch(&passes).unwrap();
    assert_eq!(backend.prefix_hits(), (4, 2));
}

#[test]
fn a_batch_bigger_than_the_cache_runs_nothing_twice() {
    let mut backend = eager().with_prefix_cache(1);
    let ids: Vec<Vec<u32>> = (20..25)
        .map(|n| vec![1, 6, n, 2, 12, 3, 14, 4, 5])
        .collect();
    let passes: Vec<Pass<'_>> = ids.iter().map(|ids| pass(ids)).collect();

    backend.hidden_batch(&passes).unwrap();

    assert_eq!(backend.prefix_hits(), (0, 5));
    // Afterwards only the room there is stays taken, by the state used last.
    assert!(backend.cache.holds(&[1, 6, 24]));
    assert!(!backend.cache.holds(&[1, 6, 23]));
    assert_eq!(backend.cache.room(), 1);
}

#[test]
fn a_cache_without_room_keeps_nothing() {
    let mut backend = eager().with_prefix_cache(0);
    let ids: Vec<u32> = vec![1, 6, 7, 2, 12, 3, 14, 4, 5];

    let first = backend.hidden(&pass(&ids)).unwrap();
    let second = backend.hidden(&pass(&ids)).unwrap();

    assert_eq!(backend.prefix_hits(), (0, 2));
    assert_eq!(first, second);
}

#[test]
fn several_requests_share_one_prefill_and_still_answer_for_themselves() {
    let ids: Vec<Vec<u32>> = (20..23)
        .map(|n| vec![1, 6, n, 2, 12, 3, 14, 4, 5])
        .collect();
    let passes: Vec<Pass<'_>> = ids.iter().map(|ids| pass(ids)).collect();
    let mut single = eager();

    let together = eager().hidden_batch(&passes).unwrap();

    assert_eq!(together.len(), 3);
    for (index, pass) in passes.iter().enumerate() {
        assert_eq!(
            together[index],
            single.hidden(pass).unwrap(),
            "request {index} differs between the batch and the single call"
        );
    }
}

#[test]
fn running_the_state_once_gives_the_same_answers_as_running_it_per_question() {
    let ids: Vec<u32> = vec![1, 6, 2, 12, 5, 2, 13, 14, 5];
    let segments: Vec<u32> = vec![0, 0, 1, 1, 1, 2, 2, 2, 2];
    let positions: Vec<u32> = vec![0, 1, 2, 3, 4, 2, 3, 4, 5];
    let readout: Vec<usize> = vec![4, 3, 8, 7];
    let pass = Pass::new(&ids, &positions, &segments, &readout);

    let with = eager().hidden(&pass).unwrap();
    let without = eager().with_prefix(false).hidden(&pass).unwrap();
    let in_rows = toy(true).with_prefix(false).hidden(&pass).unwrap();

    assert_eq!(
        with,
        [
            vec![1, 6, 2, 12, 5],
            vec![1, 6, 2, 12],
            vec![1, 6, 2, 13, 14, 5],
            vec![1, 6, 2, 13, 14],
        ]
    );
    assert_eq!(without, with);
    assert_eq!(in_rows, with);
}

#[test]
fn a_failing_backbone_fails_the_pass_and_keeps_what_was_run() {
    let good: Vec<u32> = vec![1, 6, 7, 2, 12, 3, 14, 4, 5];
    let bad_state: Vec<u32> = vec![1, 6, BROKEN, 2, 12, 3, 14, 4, 5];
    let bad_branch: Vec<u32> = vec![1, 6, 8, 2, BROKEN, 3, 14, 4, 5];
    let mut backend = eager();

    assert!(backend.hidden(&pass(&bad_state)).is_err());
    assert_eq!(backend.prefix_hits(), (0, 1));
    assert!(backend.hidden(&pass(&bad_branch)).is_err());
    assert!(backend.cache.holds(&[1, 6, 8]));
    // In a batch, the first failure is the batch's.
    let batch = [pass(&good), pass(&bad_branch), pass(&good)];
    assert!(matches!(
        backend.hidden_batch(&batch),
        Err(Error::Model(ref m)) if m == "broken"
    ));
    let before = backend.prefix_hits();
    let batch = [pass(&bad_state), pass(&[1, 6, 9, 2, 12, 3, 14, 4, 5])];
    assert!(backend.hidden_batch(&batch).is_err());
    assert_eq!(backend.prefix_hits(), before, "nothing was run");
    assert!(!backend.is_hybrid() && toy(true).is_hybrid());
}

#[test]
fn the_state_used_longest_ago_leaves_first() {
    let mut cache = PrefixCache::new(2);
    cache.insert(vec![1], 'a');
    cache.insert(vec![2], 'b');
    assert!(cache.ask(&[1]));
    assert_eq!(*cache.latest(), 'a');
    cache.insert(vec![3], 'c');

    assert!(cache.holds(&[1]) && cache.holds(&[3]) && !cache.holds(&[2]));
    // Making other room forgets what was kept.
    let cache = cache.with_room_for(9);
    assert!(!cache.holds(&[1]));
}

#[test]
fn a_short_state_is_left_to_the_packed_pass() {
    let ids: Vec<u32> = vec![1, 6, 7, 2, 12, 3, 14, 4, 5];
    let pass = pass(&ids);

    assert!(matches!(Serving::new(false).work(&pass), Ok(Work::Packed)));
    assert!(matches!(
        Serving::new(false).with_prefix_min_tokens(4).work(&pass),
        Ok(Work::Packed)
    ));
    assert!(matches!(
        Serving::new(false).with_prefix_min_tokens(3).work(&pass),
        Ok(Work::Continue { .. })
    ));
    assert!(matches!(
        Serving::new(false)
            .with_prefix_min_tokens(0)
            .with_prefix(false)
            .work(&pass),
        Ok(Work::Packed)
    ));
}

#[test]
fn a_recurrent_base_runs_a_row_for_every_question() {
    let ids: Vec<u32> = vec![1, 6, 2, 12, 5, 2, 13, 14, 5];
    let segments: Vec<u32> = vec![0, 0, 1, 1, 1, 2, 2, 2, 2];
    let positions: Vec<u32> = vec![0, 1, 2, 3, 4, 2, 3, 4, 5];
    let readout: Vec<usize> = vec![4, 8];
    let pass = Pass::new(&ids, &positions, &segments, &readout);

    let rows = match Serving::new(true).with_prefix(false).work(&pass) {
        Ok(Work::Rows(rows)) => rows,
        other => panic!("{other:?}"),
    };

    assert_eq!(rows.len(), 2);
    assert_eq!(rows[0].ids, [1, 6, 2, 12, 5]);
    assert_eq!(rows[0].positions, [0, 1, 2, 3, 4]);
    assert_eq!(rows[0].readout, [4]);
    assert_eq!(rows[1].ids, [1, 6, 2, 13, 14, 5]);
    assert_eq!(rows[1].positions, [0, 1, 2, 3, 4, 5]);
    assert_eq!(rows[1].readout, [5]);
    assert_eq!(rows[1].segments, [0, 0, 2, 2, 2, 2]);
    assert!(rows[0].as_pass().is_causal());

    // Continuing instead: the state once, then every question's own tokens.
    match Serving::new(true).work(&pass) {
        Ok(Work::Continue { state, branches }) => {
            assert_eq!(state.ids, [1, 6]);
            assert_eq!(branches[1].ids, [2, 13, 14, 5]);
            assert_eq!(branches[1].positions, [2, 3, 4, 5]);
            assert_eq!(branches[1].readout, [3]);
        }
        other => panic!("{other:?}"),
    }
}

#[test]
fn isolated_options_need_the_packed_pass() {
    let ids: Vec<u32> = vec![1, 6, 7, 2, 12, 3, 14, 4, 5];
    let mut options = vec![OptionSlot::Shared; 5];
    options.extend([OptionSlot::Option(0); 3]);
    options.push(OptionSlot::Decide);
    let pass = pass(&ids).with_options(&options);

    assert!(matches!(
        Serving::new(false).with_prefix_min_tokens(0).work(&pass),
        Ok(Work::Packed)
    ));
    let refused = Serving::new(true).work(&pass).unwrap_err();
    assert!(refused.is_validation());
    assert_eq!(
        refused.message(),
        "invalid request: option isolation needs the packed mask, which a recurrent base cannot honour"
    );
}

#[test]
fn the_precision_follows_the_device() {
    assert_eq!(precision_for(true), Precision::F32);
    assert_eq!(precision_for(false), Precision::Bf16);
    assert!(runnable(Precision::F16, true).is_ok());
    assert!(runnable(Precision::Bf16, false).is_ok());
    assert_eq!(
        runnable(Precision::Bf16, true).unwrap_err().message(),
        "the local kev engine failed: candle has no bf16 matmul on the CPU: use f32 there, which \
         is the exact path anyway, or f16 for half the memory"
    );
}

#[test]
fn a_checkpoint_is_read_with_its_own_tokenizer() {
    assert_eq!(
        tokenizer_source(Some(true), true, "base").unwrap(),
        TokenizerSource::Adapter
    );
    assert_eq!(
        tokenizer_source(Some(false), true, "base").unwrap(),
        TokenizerSource::Base
    );
    assert_eq!(
        tokenizer_source(None, true, "base").unwrap(),
        TokenizerSource::Base
    );
    assert_eq!(
        tokenizer_source(None, false, "base").unwrap_err().message(),
        "the local kev engine failed: no tokenizer.json in the checkpoint or in base"
    );
}
