//! How a pass is run on a loaded checkpoint.
//!
//! Running layers is the backbone's business. What is here is which way a pass
//! takes: as one masked pass, as one row per question, or continuing every
//! question from a state that was run before.

use vstd::prelude::*;

use crate::cache;
use crate::cache::{CacheView, PrefixCache};
use crate::encode;
use crate::error::Error;
use crate::layout;
use crate::local;
use crate::mask;
use crate::pass;
use crate::pass::{OwnedPass, Pass, PassView};

verus! {

/// How a backbone takes its passes.
#[derive(Debug, Clone, Copy)]
pub struct Serving {
    /// The base carries recurrent layers, which cannot be masked.
    pub hybrid: bool,
    /// Run the state once per request rather than once per question. On by
    /// default; off is the slow path, kept for comparison.
    pub prefix: bool,
    /// Below this many state tokens the packed pass is left alone.
    pub prefix_min: usize,
}

/// What a pass comes down to.
#[derive(Debug)]
pub enum Work {
    /// Run the state, or find it, and continue every question from it.
    Continue { state: OwnedPass, branches: Vec<OwnedPass> },
    /// Run everything as one pass under the pass's own mask.
    Packed,
    /// Run every question behind its own copy of the state.
    Rows(Vec<OwnedPass>),
}

/// How many tokens lie in the state.
pub open spec fn state_count(segments: Seq<u32>) -> nat
    decreases segments.len(),
{
    if segments.len() == 0 {
        0
    } else {
        state_count(segments.drop_last()) + if segments.last() == 0 {
            1nat
        } else {
            0
        }
    }
}

/// What is said of isolated options on a recurrent base.
pub const ISOLATION_REFUSED: &'static str =
    "option isolation needs the packed mask, which a recurrent base cannot honour";

impl Serving {
    /// This pass is taken apart by its questions, as far as it has any.
    pub open spec fn splits(self, pass: PassView) -> bool {
        self.hybrid || (self.prefix && pass.options.len() == 0 && state_count(pass.segments) >= 1
            && state_count(pass.segments) >= self.prefix_min)
    }

    /// The state of this pass is worth running on its own.
    pub open spec fn continues(self, pass: PassView) -> bool {
        &&& self.prefix
        &&& pass.options.len() == 0
        &&& state_count(pass.segments) >= 1
        &&& state_count(pass.segments) >= self.prefix_min
        &&& pass.question_count() > 0
    }

    /// The way a checkpoint is served unless it is told otherwise. A recurrent
    /// base has to run the state per question otherwise, so continuing from it
    /// always pays there. On an attention-only base the packed pass already runs
    /// the state once, and short states are left alone.
    pub fn new(hybrid: bool) -> (out: Self)
        ensures
            out.hybrid == hybrid,
            out.prefix,
            out.prefix_min == if hybrid {
                0usize
            } else {
                384usize
            },
    {
        Serving {
            hybrid,
            prefix: true,
            prefix_min: if hybrid {
                0
            } else {
                384
            },
        }
    }

    /// Whether to run the state once per request and continue every question
    /// from it, rather than running the state again for each question.
    ///
    /// On by default, and exact either way: the state cannot see a question, so
    /// nothing of it depends on one. Turning it off is for comparing the two.
    pub fn with_prefix(self, prefix: bool) -> (out: Self)
        ensures
            out == (Serving { prefix, ..self }),
    {
        Serving { prefix, ..self }
    }

    /// The shortest state worth running on its own instead of in the packed pass:
    /// zero on a recurrent base, 384 tokens on an attention-only one.
    pub fn with_prefix_min_tokens(self, tokens: usize) -> (out: Self)
        ensures
            out == (Serving { prefix_min: tokens, ..self }),
    {
        Serving { prefix_min: tokens, ..self }
    }

    /// Which way a pass takes.
    ///
    /// Option isolation is a rule about who may read whom, and a recurrence reads
    /// everything it walked past: refusing is the only honest answer there. On an
    /// attention-only base it needs the packed pass, whose mask knows the rule. A
    /// recurrence cannot be told to skip another question's tokens either, so
    /// every question gets a row of its own.
    pub fn work(&self, pass: &Pass<'_>) -> (out: Result<Work, Error>)
        requires
            self.splits(pass@) ==> pass@.state_placed() && pass@.questions_placed(),
        ensures
            out is Err <==> pass@.options.len() > 0 && self.hybrid,
            out matches Err(e) ==> e.is_invalid(ISOLATION_REFUSED@),
            out matches Ok(work) ==> match work {
                Work::Continue { state, branches } => self.continues(pass@) && state@
                    == pass@.state_part() && pass::passes(branches@) == pass@.branch_parts(),
                Work::Packed => !self.continues(pass@) && !self.hybrid,
                Work::Rows(rows) => !self.continues(pass@) && self.hybrid && pass::passes(rows@)
                    == pass@.row_parts(),
            },
    {
        if pass.is_isolated() && self.hybrid {
            return Err(Error::Invalid(ISOLATION_REFUSED.to_owned()));
        }
        let mut state: usize = 0;
        assert(pass@.segments.take(0) == Seq::<u32>::empty());
        for i in 0..pass.segments.len()
            invariant
                state <= i,
                state == state_count(pass@.segments.take(i as int)),
        {
            proof {
                let after = pass@.segments.take(i + 1);
                assert(after.drop_last() == pass@.segments.take(i as int));
                assert(after.last() == pass@.segments[i as int]);
            }
            if pass.segments[i] == 0 {
                state = state + 1;
            }
        }
        assert(pass@.segments.take(pass@.segments.len() as int) == pass@.segments);
        if self.prefix && !pass.is_isolated() && state >= 1 && state >= self.prefix_min {
            let branches = pass.branches();
            assert(branches@.len() == pass::passes(branches@).len());
            if branches.len() > 0 {
                return Ok(Work::Continue { state: pass.state(), branches });
            }
        }
        if self.hybrid {
            Ok(Work::Rows(pass.rows()))
        } else {
            Ok(Work::Packed)
        }
    }
}

/// The precision a backbone runs in.
#[derive(Debug, Clone, Copy, PartialEq, Eq, Structural)]
pub enum Precision {
    F32,
    F16,
    Bf16,
}

/// The precision that follows the device: half precision on a GPU, where it halves
/// the memory, and full precision on a CPU, where it buys nothing.
pub fn precision_for(cpu: bool) -> (out: Precision)
    ensures
        out == if cpu {
            Precision::F32
        } else {
            Precision::Bf16
        },
{
    if cpu {
        Precision::F32
    } else {
        Precision::Bf16
    }
}

/// What is said of a precision that the CPU cannot multiply in.
pub const BF16_REFUSED: &'static str =
    "candle has no bf16 matmul on the CPU: use f32 there, which is the exact path anyway, or f16 for half the memory";

/// Refuse a precision that would fail on the first projection, several layers
/// deep, with nothing to say about what to do instead.
pub fn runnable(precision: Precision, cpu: bool) -> (out: Result<(), Error>)
    ensures
        out is Err <==> precision == Precision::Bf16 && cpu,
        out matches Err(e) ==> e.is_engine(BF16_REFUSED@),
{
    if precision == Precision::Bf16 && cpu {
        Err(Error::Engine(BF16_REFUSED.to_owned()))
    } else {
        Ok(())
    }
}

/// Where a checkpoint's tokenizer lies.
#[derive(Debug, Clone, Copy, PartialEq, Eq, Structural)]
pub enum TokenizerSource {
    Adapter,
    Base,
}

/// Which tokenizer a checkpoint is read with: its own where it has one, since that
/// is the one it was trained with, or the base's. `adapter` says whether there is a
/// checkpoint directory, and whether it holds one.
pub fn tokenizer_source(adapter: Option<bool>, base: bool, base_shown: &str) -> (out: Result<
    TokenizerSource,
    Error,
>)
    ensures
        out == Ok::<TokenizerSource, Error>(TokenizerSource::Adapter) <==> adapter == Some(true),
        out == Ok::<TokenizerSource, Error>(TokenizerSource::Base) <==> adapter != Some(true) && base,
        out matches Err(e) ==> adapter != Some(true) && !base && e.is_engine(
            "no tokenizer.json in the checkpoint or in "@ + base_shown@,
        ),
{
    match adapter {
        Some(true) => Ok(TokenizerSource::Adapter),
        _ => if base {
            Ok(TokenizerSource::Base)
        } else {
            Err(
                Error::Engine(
                    "no tokenizer.json in the checkpoint or in ".to_owned().concat(base_shown),
                ),
            )
        },
    }
}

// ---------------------------------------------------------------------------
// Running passes
// ---------------------------------------------------------------------------

/// Lists of hidden states as sequences.
pub open spec fn parts<H>(lists: Seq<Vec<H>>) -> Seq<Seq<H>> {
    Seq::new(lists.len(), |i: int| lists[i]@)
}

/// Lists of hidden states, or why there are none.
pub open spec fn parts_of<H>(out: Result<Vec<Vec<H>>, Error>) -> Result<Seq<Seq<H>>, Error> {
    match out {
        Ok(lists) => Ok(parts(lists@)),
        Err(e) => Err(e),
    }
}

/// The hidden states of several parts, one part after the other.
pub open spec fn together<H>(all: Seq<Seq<H>>) -> Seq<H>
    decreases all.len(),
{
    if all.len() == 0 {
        Seq::empty()
    } else {
        together(all.drop_last()) + all.last()
    }
}

/// The first `n` of these, or all where there are fewer.
pub open spec fn at_most<A>(all: Seq<A>, n: nat) -> Seq<A> {
    if all.len() > n {
        all.take(n as int)
    } else {
        all
    }
}

/// `prefill` may make this of a state.
pub open spec fn prefills<T, P: Fn(&OwnedPass) -> Result<T, Error>>(
    prefill: P,
    state: PassView,
    out: Result<T, Error>,
) -> bool {
    exists|given: &OwnedPass| given@ == state && #[trigger] call_ensures(prefill, (given,), out)
}

/// `prefill_batch` may make this of several states.
pub open spec fn prefills_together<T, B: Fn(&[OwnedPass]) -> Result<Vec<T>, Error>>(
    prefill_batch: B,
    states: Seq<PassView>,
    out: Result<Seq<T>, Error>,
) -> bool {
    exists|given: &[OwnedPass], made: Result<Vec<T>, Error>|
        pass::passes(given@) == states && local::states_of(made) == out
            && #[trigger] call_ensures(prefill_batch, (given,), made)
}

/// `continue_from` may make this of the branches behind a state that was run.
pub open spec fn continues_from<T, H, C: Fn(&T, &[OwnedPass]) -> Result<Vec<Vec<H>>, Error>>(
    continue_from: C,
    kept: T,
    branches: Seq<PassView>,
    out: Result<Seq<Seq<H>>, Error>,
) -> bool {
    exists|given: &[OwnedPass], made: Result<Vec<Vec<H>>, Error>|
        pass::passes(given@) == branches && parts_of(made) == out && #[trigger] call_ensures(
            continue_from,
            (&kept, given),
            made,
        )
}

/// `run` may make this of a pass under its own mask.
pub open spec fn runs<H, R: Fn(&[u32], &[u32], &[usize], &[bool]) -> Result<Vec<H>, Error>>(
    run: R,
    pass: PassView,
    out: Result<Seq<H>, Error>,
) -> bool {
    exists|
        ids: &[u32],
        positions: &[u32],
        readout: &[usize],
        allowed: &[bool],
        made: Result<Vec<H>, Error>,
    |
        {
            &&& ids@ == pass.ids
            &&& positions@ == pass.positions
            &&& encode::ints(readout@) == pass.readout
            &&& allowed@ == mask::grid(
                pass.ids.len(),
                pass.ids.len(),
                |q: int, k: int| pass.reads(q, k),
            )
            &&& local::states_of(made) == out
            &&& #[trigger] call_ensures(run, (ids, positions, readout, allowed), made)
        }
}

/// The state of every pass, by its tokens.
pub open spec fn state_ids(passes: Seq<PassView>) -> Seq<Seq<u32>> {
    Seq::new(passes.len(), |i: int| passes[i].state_part().ids)
}

/// The states of the passes at these places.
pub open spec fn states_at(passes: Seq<PassView>, at: Seq<int>) -> Seq<PassView> {
    Seq::new(at.len(), |j: int| passes[at[j]].state_part())
}

/// What was made of states, under their tokens.
pub open spec fn named<T>(states: Seq<PassView>, kept: Seq<T>) -> Seq<(Seq<u32>, T)> {
    Seq::new(
        if states.len() < kept.len() {
            states.len()
        } else {
            kept.len()
        },
        |j: int| (states[j].ids, kept[j]),
    )
}

/// A loaded checkpoint: how its backbone is run, and what is kept of the states it
/// ran.
///
/// What only the backbone can compute is handed in. `prefill` runs a state and
/// `prefill_batch` several at once, each giving what a question continues from.
/// `continue_from` gives the hidden states at the readout of every branch behind
/// such a state, and `run` those at the readout of a whole pass under a mask.
pub struct Backend<T, P, B, C, R> {
    pub serving: Serving,
    pub cache: PrefixCache<T>,
    pub prefill: P,
    pub prefill_batch: B,
    pub continue_from: C,
    pub run: R,
}

impl<
    T,
    H,
    P: Fn(&OwnedPass) -> Result<T, Error>,
    B: Fn(&[OwnedPass]) -> Result<Vec<T>, Error>,
    C: Fn(&T, &[OwnedPass]) -> Result<Vec<Vec<H>>, Error>,
    R: Fn(&[u32], &[u32], &[usize], &[bool]) -> Result<Vec<H>, Error>,
> Backend<T, P, B, C, R> {
    /// The backbone takes whatever it is given.
    pub open spec fn ready(self) -> bool {
        &&& forall|state: &OwnedPass| call_requires(self.prefill, (state,))
        &&& forall|states: &[OwnedPass]| call_requires(self.prefill_batch, (states,))
        &&& forall|kept: &T, branches: &[OwnedPass]|
            call_requires(self.continue_from, (kept, branches))
        &&& forall|ids: &[u32], positions: &[u32], readout: &[usize], allowed: &[bool]|
            call_requires(self.run, (ids, positions, readout, allowed))
    }

    /// Everything but the cache is as it is there.
    pub open spec fn set_up_as(self, other: Self) -> bool {
        &&& self.serving == other.serving
        &&& self.prefill == other.prefill
        &&& self.prefill_batch == other.prefill_batch
        &&& self.continue_from == other.continue_from
        &&& self.run == other.run
    }

    /// This pass can be taken apart and masked.
    pub open spec fn takes(self, pass: PassView) -> bool {
        &&& self.serving.splits(pass) ==> pass.state_placed() && pass.questions_placed()
        &&& pass.ids.len() <= pass.segments.len()
        &&& pass.options.len() == 0 || pass.ids.len() <= pass.options.len()
    }

    /// A pass's questions, continued from its state, may yield these hidden states.
    pub open spec fn continued(self, kept: T, pass: PassView, out: Result<Seq<H>, Error>) -> bool {
        exists|made: Result<Seq<Seq<H>>, Error>|
            #[trigger] continues_from(
                self.continue_from,
                kept,
                pass.branch_parts(),
                made,
            ) && match made {
                Ok(all) => out == Ok::<Seq<H>, Error>(
                    together(at_most(all, pass.question_count())),
                ),
                Err(e) => out == Err::<Seq<H>, Error>(e),
            }
    }

    /// Rows that are run one after the other may yield these hidden states.
    pub open spec fn in_rows(self, rows: Seq<PassView>, out: Result<Seq<H>, Error>) -> bool {
        match out {
            Ok(states) => exists|all: Seq<Seq<H>>|
                {
                    &&& all.len() == rows.len()
                    &&& states == #[trigger] together(all)
                    &&& forall|i: int|
                        0 <= i < rows.len() ==> runs(self.run, rows[i], Ok(#[trigger] all[i]))
                },
            Err(e) => exists|i: int|
                0 <= i < rows.len() && runs(self.run, #[trigger] rows[i], Err::<Seq<H>, Error>(e)),
        }
    }

    /// A pass may yield these hidden states, and leave the cache so.
    pub open spec fn answers(
        self,
        before: CacheView<T>,
        pass: PassView,
        after: CacheView<T>,
        out: Result<Seq<H>, Error>,
    ) -> bool {
        let state = pass.state_part();
        let asked = before.asked(state.ids);
        if pass.options.len() > 0 && self.serving.hybrid {
            after == before && (out matches Err(e) && e.is_invalid(ISOLATION_REFUSED@))
        } else if !self.serving.continues(pass) {
            after == before && if self.serving.hybrid {
                self.in_rows(pass.row_parts(), out)
            } else {
                runs(self.run, pass, out)
            }
        } else if before.holding(state.ids) {
            after == asked && self.continued(asked.entries.last().1, pass, out)
        } else {
            exists|made: Result<T, Error>| #[trigger]
                prefills(self.prefill, state, made) && match made {
                    Ok(kept) => after == asked.keeping(state.ids, kept) && self.continued(
                        kept,
                        pass,
                        out,
                    ),
                    Err(e) => after == asked && out == Err::<Seq<H>, Error>(e),
                }
        }
    }

    /// Passes may yield these hidden states one after the other, the cache going
    /// through these states.
    pub open spec fn answers_in_turn(
        self,
        caches: Seq<CacheView<T>>,
        passes: Seq<PassView>,
        all: Seq<Seq<H>>,
    ) -> bool {
        &&& caches.len() == all.len() + 1
        &&& all.len() <= passes.len()
        &&& forall|i: int|
            0 <= i < all.len() ==> self.answers(
                caches[i],
                passes[i],
                caches[i + 1],
                Ok(#[trigger] all[i]),
            )
    }

    /// Passes may yield these hidden states, or fail so, from this cache on.
    pub open spec fn answers_all(
        self,
        begun: CacheView<T>,
        passes: Seq<PassView>,
        after: CacheView<T>,
        out: Result<Seq<Seq<H>>, Error>,
    ) -> bool {
        match out {
            Ok(all) => all.len() == passes.len() && exists|caches: Seq<CacheView<T>>|
                #[trigger] self.answers_in_turn(caches, passes, all) && caches[0] == begun
                    && caches.last() == after,
            Err(e) => exists|caches: Seq<CacheView<T>>, all: Seq<Seq<H>>|
                {
                    &&& #[trigger] self.answers_in_turn(caches, passes, all)
                    &&& all.len() < passes.len()
                    &&& caches[0] == begun
                    &&& self.answers(
                        caches.last(),
                        passes[all.len() as int],
                        after,
                        Err::<Seq<H>, Error>(e),
                    )
                },
        }
    }

    /// The places of the passes whose states a batch runs together: none where
    /// there is nothing to share.
    pub open spec fn shared(self, before: CacheView<T>, passes: Seq<PassView>) -> Seq<int> {
        let fresh = cache::fresh_among(
            before,
            state_ids(passes),
            self.serving.prefix_min as nat,
            passes.len() as int,
        );
        if self.serving.prefix && fresh.len() > 1 {
            fresh
        } else {
            Seq::empty()
        }
    }

    /// Passes may yield these hidden states, or fail so, in a batch that begins with
    /// this cache and leaves that one.
    pub open spec fn answers_and_ends(
        self,
        begun: CacheView<T>,
        passes: Seq<PassView>,
        after: CacheView<T>,
        out: Result<Seq<Seq<H>>, Error>,
    ) -> bool {
        exists|last: CacheView<T>| #[trigger]
            self.answers_all(begun, passes, last, out) && after == last.batch_over()
    }

    /// A batch of passes may yield these hidden states, and leave the cache so.
    pub open spec fn answers_batch(
        self,
        before: CacheView<T>,
        passes: Seq<PassView>,
        after: CacheView<T>,
        out: Result<Seq<Seq<H>>, Error>,
    ) -> bool {
        let fresh = self.shared(before, passes);
        let states = states_at(passes, fresh);
        if fresh.len() == 0 {
            self.answers_and_ends(before, passes, after, out)
        } else {
            exists|made: Result<Seq<T>, Error>| #[trigger]
                prefills_together(self.prefill_batch, states, made) && match made {
                    Ok(kept) => self.answers_and_ends(
                        before.batch_begun(named(states, kept)),
                        passes,
                        after,
                        out,
                    ),
                    Err(e) => after == before && out == Err::<Seq<Seq<H>>, Error>(e),
                }
        }
    }

    /// A checkpoint served the way it is unless it is told otherwise, with room
    /// for four states.
    pub fn new(hybrid: bool, prefill: P, prefill_batch: B, continue_from: C, run: R) -> (out: Self)
        ensures
            out.serving.hybrid == hybrid,
            out.serving.prefix,
            out.serving.prefix_min == if hybrid {
                0usize
            } else {
                384usize
            },
            out.cache@ == (CacheView::<T> {
                keep: 4,
                floor: 0,
                entries: Seq::empty(),
                hits: 0,
                misses: 0,
                batched: Seq::empty(),
            }),
            out.prefill == prefill,
            out.prefill_batch == prefill_batch,
            out.continue_from == continue_from,
            out.run == run,
    {
        Backend {
            serving: Serving::new(hybrid),
            cache: PrefixCache::new(4),
            prefill,
            prefill_batch,
            continue_from,
            run,
        }
    }

    /// Whether to run the state once per request and continue every question from
    /// it; see [`Serving::with_prefix`].
    pub fn with_prefix(self, prefix: bool) -> (out: Self)
        ensures
            out.cache == self.cache,
            out.set_up_as(Backend { serving: Serving { prefix, ..self.serving }, ..self }),
    {
        Backend { serving: self.serving.with_prefix(prefix), ..self }
    }

    /// The shortest state worth running on its own; see
    /// [`Serving::with_prefix_min_tokens`].
    pub fn with_prefix_min_tokens(self, tokens: usize) -> (out: Self)
        ensures
            out.cache == self.cache,
            out.set_up_as(
                Backend { serving: Serving { prefix_min: tokens, ..self.serving }, ..self },
            ),
    {
        Backend { serving: self.serving.with_prefix_min_tokens(tokens), ..self }
    }

    /// How many states to keep across requests, keyed by their tokens. Four by
    /// default; zero keeps none, and a request still runs its own state only once.
    pub fn with_prefix_cache(self, states: usize) -> (out: Self)
        ensures
            out.cache@ == (CacheView { keep: states as nat, entries: Seq::empty(), ..self.cache@ }),
            out.set_up_as(self),
    {
        Backend { cache: self.cache.with_room_for(states), ..self }
    }

    /// How often a request's state was found already run, and how often it had to
    /// be run.
    pub fn prefix_hits(&self) -> (out: (usize, usize))
        ensures
            out.0 == self.cache@.hits,
            out.1 == self.cache@.misses,
    {
        self.cache.counts()
    }

    /// Whether the base carries recurrent layers, and so answers one question per
    /// row.
    pub fn is_hybrid(&self) -> (yes: bool)
        ensures
            yes == self.serving.hybrid,
    {
        self.serving.hybrid
    }

    /// Run one pass under its own mask.
    fn run_whole(&self, pass: &Pass<'_>) -> (out: Result<Vec<H>, Error>)
        requires
            self.ready(),
            pass@.ids.len() <= pass@.segments.len(),
            pass@.options.len() == 0 || pass@.ids.len() <= pass@.options.len(),
        ensures
            runs(self.run, pass@, local::states_of(out)),
    {
        let allowed = mask::attention_mask(pass);
        (self.run)(pass.ids, pass.positions, pass.readout, allowed.as_slice())
    }

    /// Run rows one after the other. They are independent, which makes the
    /// isolation exact rather than masked.
    fn run_rows(&self, rows: &[OwnedPass], Ghost(pass): Ghost<PassView>) -> (out: Result<
        Vec<H>,
        Error,
    >)
        requires
            self.ready(),
            pass::passes(rows@) == pass.row_parts(),
        ensures
            self.in_rows(pass.row_parts(), local::states_of(out)),
    {
        let ghost parts = pass.row_parts();
        assert(parts.len() == rows@.len());
        let mut states: Vec<H> = Vec::new();
        let ghost mut all: Seq<Seq<H>> = Seq::empty();
        for i in 0..rows.len()
            invariant
                self.ready(),
                parts == pass.row_parts(),
                pass::passes(rows@) == parts,
                parts.len() == rows@.len(),
                all.len() == i,
                states@ == together(all),
                forall|j: int| 0 <= j < i ==> runs(self.run, parts[j], Ok(#[trigger] all[j])),
        {
            proof {
                assert(parts[i as int] == rows@[i as int]@);
                assert(parts[i as int] == pass.row_part((i + 1) as u32));
            }
            match self.run_whole(&rows[i].as_pass()) {
                Ok(found) => {
                    proof {
                        let before = all;
                        all = all.push(found@);
                        assert(all.drop_last() == before);
                    }
                    push_states(&mut states, found);
                },
                Err(e) => {
                    assert(runs(self.run, parts[i as int], Err::<Seq<H>, Error>(e)));
                    return Err(e);
                },
            }
        }
        assert(states@ == together(all));
        Ok(states)
    }

    /// The hidden states of every question of a pass, continuing from its state.
    fn run_branches(
        &self,
        kept: &T,
        branches: &[OwnedPass],
        Ghost(pass): Ghost<PassView>,
    ) -> (out: Result<Vec<H>, Error>)
        requires
            self.ready(),
            pass::passes(branches@) == pass.branch_parts(),
        ensures
            self.continued(*kept, pass, local::states_of(out)),
    {
        let made = (self.continue_from)(kept, branches);
        let ghost given = parts_of(made);
        assert(continues_from(self.continue_from, *kept, pass.branch_parts(), given));
        match made {
            Ok(lists) => {
                let out = joined(lists, branches.len());
                assert(pass.branch_parts().len() == branches@.len());
                Ok(out)
            },
            Err(e) => Err(e),
        }
    }

    /// Hidden states at `pass.readout`, in that order.
    ///
    /// The state is the part every question shares. Running it once and continuing
    /// each question from it is less work than the packed pass, which computes
    /// attention across questions only to mask it away, and on a recurrent base it
    /// is the only way not to run the state per question. What was run is kept for
    /// the next request with the same state.
    pub fn hidden(&mut self, pass: &Pass<'_>) -> (out: Result<Vec<H>, Error>)
        requires
            old(self).ready(),
            old(self).takes(pass@),
            old(self).cache@.hits < usize::MAX,
            old(self).cache@.misses < usize::MAX,
        ensures
            final(self).set_up_as(*old(self)),
            old(self).answers(
                old(self).cache@,
                pass@,
                final(self).cache@,
                local::states_of(out),
            ),
    {
        let work = match self.serving.work(pass) {
            Ok(work) => work,
            Err(e) => {
                return Err(e);
            },
        };
        match work {
            Work::Packed => self.run_whole(pass),
            Work::Rows(rows) => self.run_rows(rows.as_slice(), Ghost(pass@)),
            Work::Continue { state, branches } => {
                let ghost before = self.cache@;
                let ghost ids = state.ids@;
                if self.cache.ask(state.ids.as_slice()) {
                    return self.run_branches(
                        self.cache.latest(),
                        branches.as_slice(),
                        Ghost(pass@),
                    );
                }
                let made = (self.prefill)(&state);
                assert(prefills(self.prefill, pass@.state_part(), made));
                match made {
                    Ok(kept) => {
                        if self.cache.room() == 0 {
                            return self.run_branches(&kept, branches.as_slice(), Ghost(pass@));
                        }
                        self.cache.insert(state.ids, kept);
                        assert(self.cache@.entries.last() == (ids, kept));
                        self.run_branches(self.cache.latest(), branches.as_slice(), Ghost(pass@))
                    },
                    Err(e) => Err(e),
                }
            },
        }
    }

    /// Hidden states for several passes at once.
    ///
    /// What several requests can share is the pass that runs their states: one
    /// for all of them, rather than one each, and each state once. Their questions
    /// cannot be shared, since every branch reads its own state, so those stay one
    /// batch per request.
    pub fn hidden_batch(&mut self, passes: &[Pass<'_>]) -> (out: Result<Vec<Vec<H>>, Error>)
        requires
            old(self).ready(),
            forall|i: int| 0 <= i < passes@.len() ==> old(self).takes((#[trigger] passes@[i])@),
            old(self).serving.prefix ==> forall|i: int|
                0 <= i < passes@.len() ==> (#[trigger] passes@[i])@.state_placed(),
            old(self).cache@.hits + passes@.len() <= usize::MAX,
            old(self).cache@.misses + 2 * passes@.len() <= usize::MAX,
        ensures
            final(self).set_up_as(*old(self)),
            old(self).answers_batch(
                old(self).cache@,
                local::pass_views(passes@),
                final(self).cache@,
                parts_of(out),
            ),
    {
        let ghost views = local::pass_views(passes@);
        let ghost start = *self;
        let ghost before = self.cache@;
        let fresh = if self.serving.prefix {
            self.fresh(passes)
        } else {
            Vec::new()
        };
        assert(encode::ints(fresh@) == self.shared(before, views));
        assert(fresh@.len() == encode::ints(fresh@).len());
        proof {
            cache::lemma_fresh_places(
                before,
                state_ids(views),
                self.serving.prefix_min as nat,
                views.len() as int,
            );
            assert forall|j: int| 0 <= j < fresh@.len() implies #[trigger] fresh@[j]
                < passes@.len() by {
                assert(encode::ints(fresh@)[j] == fresh@[j]);
            }
        }
        if fresh.len() > 0 {
            let wanted = states_to_run(passes, fresh.as_slice());
            let ghost states = states_at(views, encode::ints(fresh@));
            let made = (self.prefill_batch)(wanted.as_slice());
            assert(prefills_together(self.prefill_batch, states, local::states_of(made)));
            match made {
                Ok(kept) => {
                    let ghost given = kept@;
                    let run = under_tokens(wanted, kept);
                    assert(cache::entry_views(run@) == named(states, given));
                    self.cache.begin_batch(run);
                },
                Err(e) => {
                    return Err(e);
                },
            }
        }
        let ghost ahead = *self;
        let answers = self.in_turn(passes);
        proof {
            start.lemma_set_up(ahead, ahead.cache@, views, self.cache@, parts_of(answers));
        }
        self.cache.end_batch();
        answers
    }

    /// The places of the passes whose states are better run together.
    fn fresh(&self, passes: &[Pass<'_>]) -> (out: Vec<usize>)
        requires
            self.serving.prefix,
            forall|i: int| 0 <= i < passes@.len() ==> (#[trigger] passes@[i])@.state_placed(),
        ensures
            encode::ints(out@) == self.shared(self.cache@, local::pass_views(passes@)),
    {
        let ghost views = local::pass_views(passes@);
        let mut states: Vec<OwnedPass> = Vec::new();
        for i in 0..passes.len()
            invariant
                views == local::pass_views(passes@),
                forall|j: int| 0 <= j < passes@.len() ==> (#[trigger] passes@[j])@.state_placed(),
                states@.len() == i,
                forall|j: int|
                    0 <= j < i ==> (#[trigger] states@[j])@ == views[j].state_part(),
        {
            states.push(passes[i].state());
        }
        assert(cache::state_tokens(states@) == state_ids(views)) by {
            assert forall|j: int| 0 <= j < states@.len() implies #[trigger] states@[j].ids@
                == views[j].state_part().ids by {
                assert(states@[j]@ == views[j].state_part());
            }
        }
        cache::fresh_states(&self.cache, states.as_slice(), self.serving.prefix_min)
    }

    /// What passes may yield does not depend on what is in the cache of whoever is
    /// asked about it.
    proof fn lemma_set_up(
        self,
        other: Self,
        begun: CacheView<T>,
        passes: Seq<PassView>,
        after: CacheView<T>,
        out: Result<Seq<Seq<H>>, Error>,
    )
        requires
            other.set_up_as(self),
            other.answers_all(begun, passes, after, out),
        ensures
            self.answers_all(begun, passes, after, out),
    {
        match out {
            Ok(all) => {
                let caches = choose|caches: Seq<CacheView<T>>| #[trigger]
                    other.answers_in_turn(caches, passes, all) && caches[0] == begun
                        && caches.last() == after;
                assert(self.answers_in_turn(caches, passes, all));
            },
            Err(e) => {
                let (caches, all) = choose|caches: Seq<CacheView<T>>, all: Seq<Seq<H>>|
                    {
                        &&& #[trigger] other.answers_in_turn(caches, passes, all)
                        &&& all.len() < passes.len()
                        &&& caches[0] == begun
                        &&& other.answers(
                            caches.last(),
                            passes[all.len() as int],
                            after,
                            Err::<Seq<H>, Error>(e),
                        )
                    };
                assert(self.answers_in_turn(caches, passes, all));
            },
        }
    }

    /// Counting one pass moves the counts by one at most.
    proof fn lemma_counts(
        self,
        before: CacheView<T>,
        pass: PassView,
        after: CacheView<T>,
        out: Result<Seq<H>, Error>,
    )
        requires
            self.answers(before, pass, after, out),
        ensures
            after.hits <= before.hits + 1,
            after.misses <= before.misses + 1,
    {
    }

    /// One pass after the other, up to the first that fails.
    fn in_turn(&mut self, passes: &[Pass<'_>]) -> (out: Result<Vec<Vec<H>>, Error>)
        requires
            old(self).ready(),
            forall|i: int| 0 <= i < passes@.len() ==> old(self).takes((#[trigger] passes@[i])@),
            old(self).cache@.hits + passes@.len() <= usize::MAX,
            old(self).cache@.misses + passes@.len() <= usize::MAX,
        ensures
            final(self).set_up_as(*old(self)),
            old(self).answers_all(
                old(self).cache@,
                local::pass_views(passes@),
                final(self).cache@,
                parts_of(out),
            ),
    {
        let ghost start = *self;
        let ghost views = local::pass_views(passes@);
        let ghost begun = self.cache@;
        let ghost mut caches: Seq<CacheView<T>> = seq![self.cache@];
        let mut all: Vec<Vec<H>> = Vec::new();
        for i in 0..passes.len()
            invariant
                start == *old(self),
                begun == start.cache@,
                start.ready(),
                self.set_up_as(start),
                forall|j: int| 0 <= j < passes@.len() ==> start.takes((#[trigger] passes@[j])@),
                views == local::pass_views(passes@),
                begun.hits + passes@.len() <= usize::MAX,
                begun.misses + passes@.len() <= usize::MAX,
                self.cache@.hits <= begun.hits + i,
                self.cache@.misses <= begun.misses + i,
                all@.len() == i,
                caches[0] == begun,
                caches.last() == self.cache@,
                start.answers_in_turn(caches, views, parts(all@)),
        {
            assert(start.takes(passes@[i as int]@));
            let ghost held = self.cache@;
            let ghost kept = caches;
            let ghost done = parts(all@);
            let made = self.hidden(&passes[i]);
            let ghost now = self.cache@;
            assert(views[i as int] == passes@[i as int]@);
            assert(start.answers(held, views[i as int], now, local::states_of(made)));
            proof {
                start.lemma_counts(held, views[i as int], now, local::states_of(made));
            }
            match made {
                Ok(states) => {
                    proof {
                        caches = caches.push(now);
                    }
                    all.push(states);
                    proof {
                        let more = parts(all@);
                        assert(more == done.push(states@));
                        assert forall|j: int| 0 <= j < more.len() implies start.answers(
                            caches[j],
                            views[j],
                            caches[j + 1],
                            Ok(#[trigger] more[j]),
                        ) by {
                            if j < done.len() {
                                assert(done[j] == more[j]);
                                assert(caches[j] == kept[j]);
                                assert(caches[j + 1] == kept[j + 1]);
                            } else {
                                assert(caches[j] == held);
                                assert(caches[j + 1] == now);
                            }
                        }
                    }
                },
                Err(e) => {
                    assert(start.answers_in_turn(caches, views, done));
                    return Err(e);
                },
            }
        }
        assert(parts(all@).len() == views.len());
        Ok(all)
    }
}

/// Several requests share what they can and still answer for themselves: in a batch
/// that succeeds, every pass yields what it may yield on its own.
pub proof fn law_a_batch_answers_for_every_pass<
    T,
    H,
    P: Fn(&OwnedPass) -> Result<T, Error>,
    B: Fn(&[OwnedPass]) -> Result<Vec<T>, Error>,
    C: Fn(&T, &[OwnedPass]) -> Result<Vec<Vec<H>>, Error>,
    R: Fn(&[u32], &[u32], &[usize], &[bool]) -> Result<Vec<H>, Error>,
>(
    backend: Backend<T, P, B, C, R>,
    before: CacheView<T>,
    passes: Seq<PassView>,
    after: CacheView<T>,
    all: Seq<Seq<H>>,
    i: int,
)
    requires
        backend.answers_batch(before, passes, after, Ok(all)),
        0 <= i < passes.len(),
    ensures
        all.len() == passes.len(),
        exists|held: CacheView<T>, left: CacheView<T>|
            #[trigger] backend.answers(held, passes[i], left, Ok(all[i])),
{
    let caches = backend.lemma_batch_opened(before, passes, after, all);
    assert(backend.answers(caches[i], passes[i], caches[i + 1], Ok(all[i])));
}

/// A repeated state is run once and then found: with room for one state at least, a
/// pass that was continued from its state leaves that state behind, and asking again
/// runs it no second time. A state that was new is counted as run the first time and as
/// found the second, both calls continue from the one thing that was made of it, and so
/// yield the same hidden states where continuing from one thing yields one.
pub proof fn law_a_repeated_state_is_run_once<
    T,
    H,
    P: Fn(&OwnedPass) -> Result<T, Error>,
    B: Fn(&[OwnedPass]) -> Result<Vec<T>, Error>,
    C: Fn(&T, &[OwnedPass]) -> Result<Vec<Vec<H>>, Error>,
    R: Fn(&[u32], &[u32], &[usize], &[bool]) -> Result<Vec<H>, Error>,
>(
    backend: Backend<T, P, B, C, R>,
    before: CacheView<T>,
    pass: PassView,
    between: CacheView<T>,
    states: Seq<H>,
    after: CacheView<T>,
    again: Result<Seq<H>, Error>,
)
    requires
        before.keep > 0,
        backend.serving.continues(pass),
        backend.answers(before, pass, between, Ok(states)),
        backend.answers(between, pass, after, again),
    ensures
        between.holding(pass.state_part().ids),
        after.misses == between.misses,
        !between.batched.contains(pass.state_part().ids) ==> after.hits == between.hits + 1,
        !before.holding(pass.state_part().ids) ==> {
            &&& between.misses == before.misses + 1
            &&& between.hits == before.hits
            &&& exists|kept: T|
                #[trigger] backend.continued(kept, pass, Ok(states)) && backend.continued(
                    kept,
                    pass,
                    again,
                )
            &&& backend.continues_one_way() ==> again == Ok::<Seq<H>, Error>(states)
        },
{
    let ids = pass.state_part().ids;
    if before.holding(ids) {
        cache::law_asking_lets_go_of_nothing(before, ids, ids);
    } else {
        let asked = before.asked(ids);
        let made = choose|made: Result<T, Error>| #[trigger]
            prefills(backend.prefill, pass.state_part(), made) && match made {
                Ok(kept) => between == asked.keeping(ids, kept) && backend.continued(
                    kept,
                    pass,
                    Ok::<Seq<H>, Error>(states),
                ),
                Err(e) => between == asked && Ok::<Seq<H>, Error>(states) == Err::<Seq<H>, Error>(e),
            };
        let kept = made->Ok_0;
        cache::lemma_kept_is_latest(asked, ids, kept);
        assert(between.asked(ids).entries.last() == (ids, kept));
        assert(backend.continued(kept, pass, again));
        if backend.continues_one_way() {
            backend.lemma_continued_one_way(kept, pass, Ok(states), again);
        }
    }
}

/// The states of the passes at these places.
fn states_to_run(passes: &[Pass<'_>], at: &[usize]) -> (out: Vec<OwnedPass>)
    requires
        forall|i: int| 0 <= i < passes@.len() ==> (#[trigger] passes@[i])@.state_placed(),
        forall|j: int| 0 <= j < at@.len() ==> #[trigger] at@[j] < passes@.len(),
    ensures
        pass::passes(out@) == states_at(local::pass_views(passes@), encode::ints(at@)),
{
    let ghost views = local::pass_views(passes@);
    let mut out: Vec<OwnedPass> = Vec::new();
    for j in 0..at.len()
        invariant
            views == local::pass_views(passes@),
            forall|i: int| 0 <= i < passes@.len() ==> (#[trigger] passes@[i])@.state_placed(),
            forall|i: int| 0 <= i < at@.len() ==> #[trigger] at@[i] < passes@.len(),
            out@.len() == j,
            forall|i: int|
                0 <= i < j ==> (#[trigger] out@[i])@ == views[at@[i] as int].state_part(),
    {
        out.push(passes[at[j]].state());
    }
    out
}

/// What was made of states, under their tokens.
fn under_tokens<T>(states: Vec<OwnedPass>, kept: Vec<T>) -> (out: Vec<(Vec<u32>, T)>)
    ensures
        cache::entry_views(out@) == named(pass::passes(states@), kept@),
{
    let ghost views = pass::passes(states@);
    let ghost all = kept@;
    let ghost whole = named(views, all);
    let mut states = states;
    let mut kept = kept;
    let mut out: Vec<(Vec<u32>, T)> = Vec::new();
    assert(pass::passes(states@) == views.skip(0));
    assert(kept@ == all.skip(0));
    while states.len() > 0 && kept.len() > 0
        invariant
            out@.len() <= views.len(),
            out@.len() <= all.len(),
            whole == named(views, all),
            states@.len() == views.len() - out@.len(),
            pass::passes(states@) == views.skip(out@.len() as int),
            kept@ == all.skip(out@.len() as int),
            cache::entry_views(out@) == whole.take(out@.len() as int),
        decreases states@.len(),
    {
        let ghost n = out@.len() as int;
        let ghost rest = pass::passes(states@);
        let state = states.remove(0);
        let value = kept.remove(0);
        proof {
            assert(rest[0] == state@);
            assert(views[n] == state@);
            assert(all[n] == value);
            assert(pass::passes(states@) =~= rest.remove(0));
            assert(pass::passes(states@) =~= views.skip(n + 1));
            assert(kept@ =~= all.skip(n + 1));
        }
        let ghost before = cache::entry_views(out@);
        out.push((state.ids, value));
        proof {
            assert(cache::entry_views(out@) =~= before.push((state.ids@, value)));
            assert(whole[n] == (state.ids@, value));
            assert(cache::entry_views(out@) =~= whole.take(n + 1));
        }
    }
    assert(whole.take(out@.len() as int) =~= whole);
    out
}

/// Add hidden states behind those already there.
fn push_states<H>(out: &mut Vec<H>, more: Vec<H>)
    ensures
        final(out)@ == old(out)@ + more@,
{
    let mut more = more;
    out.append(&mut more);
}

/// The hidden states of the first `n` parts, one part after the other.
fn joined<H>(lists: Vec<Vec<H>>, n: usize) -> (out: Vec<H>)
    ensures
        out@ == together(at_most(parts(lists@), n as nat)),
{
    let ghost all = parts(lists@);
    let mut rest = lists;
    let mut out: Vec<H> = Vec::new();
    let mut done: usize = 0;
    assert(all.take(0) == Seq::<Seq<H>>::empty());
    assert(parts(rest@) == all.skip(0));
    while rest.len() > 0 && done < n
        invariant
            done <= n,
            done + rest@.len() == all.len(),
            parts(rest@) == all.skip(done as int),
            out@ == together(all.take(done as int)),
        decreases rest@.len(),
    {
        let ghost held = parts(rest@);
        let list = rest.remove(0);
        proof {
            assert(held[0] == list@);
            assert(all[done as int] == list@);
            assert(parts(rest@) =~= held.remove(0));
            assert(parts(rest@) =~= all.skip(done + 1));
            assert(all.take(done + 1).drop_last() == all.take(done as int));
            assert(all.take(done + 1).last() == list@);
        }
        push_states(&mut out, list);
        done = done + 1;
    }
    assert(all.take(done as int) == at_most(all, n as nat));
    out
}

// ---------------------------------------------------------------------------
// What the cache changes
// ---------------------------------------------------------------------------

impl<
    T,
    H,
    P: Fn(&OwnedPass) -> Result<T, Error>,
    B: Fn(&[OwnedPass]) -> Result<Vec<T>, Error>,
    C: Fn(&T, &[OwnedPass]) -> Result<Vec<Vec<H>>, Error>,
    R: Fn(&[u32], &[u32], &[usize], &[bool]) -> Result<Vec<H>, Error>,
> Backend<T, P, B, C, R> {
    /// What the backbone yields depends on what it is given alone, and states that are
    /// run together come out as each would alone.
    pub open spec fn steady(self) -> bool {
        &&& forall|s: PassView, t: PassView, a: Result<T, Error>, b: Result<T, Error>|
            s.ids == t.ids && s.positions == t.positions && #[trigger] prefills(self.prefill, s, a)
                && #[trigger] prefills(self.prefill, t, b) ==> a == b
        &&& self.continues_one_way()
        &&& forall|p: PassView, a: Result<Seq<H>, Error>, b: Result<Seq<H>, Error>|
            #[trigger] runs(self.run, p, a) && #[trigger] runs(self.run, p, b) ==> a == b
        &&& forall|states: Seq<PassView>, kept: Seq<T>, j: int|
            #[trigger] prefills_together(self.prefill_batch, states, Ok(kept)) && 0 <= j
                < states.len() && j < kept.len() ==> prefills(
                self.prefill,
                states[j],
                Ok(#[trigger] kept[j]),
            )
    }

    /// What is continued from one state with the same questions comes out one way.
    pub open spec fn continues_one_way(self) -> bool {
        forall|
            kept: T,
            branches: Seq<PassView>,
            a: Result<Seq<Seq<H>>, Error>,
            b: Result<Seq<Seq<H>>, Error>,
        |
            #[trigger] continues_from(self.continue_from, kept, branches, a)
                && #[trigger] continues_from(self.continue_from, kept, branches, b) ==> a == b
    }

    /// The questions of a pass, continued twice from one thing, come out one way.
    proof fn lemma_continued_one_way(
        self,
        kept: T,
        pass: PassView,
        a: Result<Seq<H>, Error>,
        b: Result<Seq<H>, Error>,
    )
        requires
            self.continues_one_way(),
            self.continued(kept, pass, a),
            self.continued(kept, pass, b),
        ensures
            a == b,
    {
        let first = choose|made: Result<Seq<Seq<H>>, Error>|
            #[trigger] continues_from(self.continue_from, kept, pass.branch_parts(), made)
                && match made {
                Ok(all) => a == Ok::<Seq<H>, Error>(together(at_most(all, pass.question_count()))),
                Err(e) => a == Err::<Seq<H>, Error>(e),
            };
        let second = choose|made: Result<Seq<Seq<H>>, Error>|
            #[trigger] continues_from(self.continue_from, kept, pass.branch_parts(), made)
                && match made {
                Ok(all) => b == Ok::<Seq<H>, Error>(together(at_most(all, pass.question_count()))),
                Err(e) => b == Err::<Seq<H>, Error>(e),
            };
        assert(first == second);
    }

    /// This is what the backbone makes of a state with these tokens, at the first
    /// positions.
    pub open spec fn made_of(self, ids: Seq<u32>, kept: T) -> bool {
        exists|s: PassView|
            s.ids == ids && s.positions == layout::from_start(ids.len()) && #[trigger] prefills(
                self.prefill,
                s,
                Ok(kept),
            )
    }

    /// Everything that is kept is what the backbone makes of the state it is kept for.
    pub open spec fn true_to(self, cache: CacheView<T>) -> bool {
        forall|i: int|
            0 <= i < cache.entries.len() ==> self.made_of(
                (#[trigger] cache.entries[i]).0,
                cache.entries[i].1,
            )
    }

    /// What the questions of a pass were continued from is what the backbone makes of
    /// its state.
    proof fn lemma_continued_from(
        self,
        before: CacheView<T>,
        pass: PassView,
        after: CacheView<T>,
        states: Seq<H>,
    ) -> (kept: T)
        requires
            self.true_to(before),
            self.serving.continues(pass),
            layout::state_at_start(pass),
            self.answers(before, pass, after, Ok(states)),
        ensures
            self.made_of(pass.state_part().ids, kept),
            self.continued(kept, pass, Ok(states)),
    {
        let state = pass.state_part();
        let asked = before.asked(state.ids);
        if before.holding(state.ids) {
            cache::law_asking_lets_go_of_nothing(before, state.ids, state.ids);
            assert(asked.entries.len() > 0) by {
                let i = choose|i: int| 0 <= i < before.keys().len() && before.keys()[i] == state.ids;
                assert(before.entries.len() > 0);
            }
            let last = asked.entries.len() - 1;
            cache::lemma_asked_entries(before, state.ids, last);
            let i = choose|i: int|
                0 <= i < before.entries.len() && before.entries[i] == asked.entries[last];
            assert(self.made_of(before.entries[i].0, before.entries[i].1));
            asked.entries.last().1
        } else {
            let made = choose|made: Result<T, Error>| #[trigger]
                prefills(self.prefill, state, made) && match made {
                    Ok(kept) => after == asked.keeping(state.ids, kept) && self.continued(
                        kept,
                        pass,
                        Ok(states),
                    ),
                    Err(e) => after == asked && Ok::<Seq<H>, Error>(states) == Err::<
                        Seq<H>,
                        Error,
                    >(e),
                };
            assert(prefills(self.prefill, state, Ok(made->Ok_0)));
            made->Ok_0
        }
    }

    proof fn lemma_rows_steady(self, rows: Seq<PassView>, a: Seq<H>, b: Seq<H>)
        requires
            self.steady(),
            self.in_rows(rows, Ok(a)),
            self.in_rows(rows, Ok(b)),
        ensures
            a == b,
    {
        let one = choose|all: Seq<Seq<H>>|
            {
                &&& all.len() == rows.len()
                &&& a == #[trigger] together(all)
                &&& forall|i: int|
                    0 <= i < rows.len() ==> runs(self.run, rows[i], Ok(#[trigger] all[i]))
            };
        let other = choose|all: Seq<Seq<H>>|
            {
                &&& all.len() == rows.len()
                &&& b == #[trigger] together(all)
                &&& forall|i: int|
                    0 <= i < rows.len() ==> runs(self.run, rows[i], Ok(#[trigger] all[i]))
            };
        assert forall|i: int| 0 <= i < rows.len() implies one[i] == other[i] by {
            assert(runs(self.run, rows[i], Ok(one[i])));
            assert(runs(self.run, rows[i], Ok(other[i])));
        }
        assert(one =~= other);
    }

    proof fn lemma_continued_steady(self, one: T, other: T, pass: PassView, a: Seq<H>, b: Seq<H>)
        requires
            self.steady(),
            self.made_of(pass.state_part().ids, one),
            self.made_of(pass.state_part().ids, other),
            self.continued(one, pass, Ok(a)),
            self.continued(other, pass, Ok(b)),
        ensures
            one == other,
            a == b,
    {
        let ids = pass.state_part().ids;
        let s = choose|s: PassView|
            s.ids == ids && s.positions == layout::from_start(ids.len()) && #[trigger] prefills(
                self.prefill,
                s,
                Ok(one),
            );
        let t = choose|s: PassView|
            s.ids == ids && s.positions == layout::from_start(ids.len()) && #[trigger] prefills(
                self.prefill,
                s,
                Ok(other),
            );
        assert(Ok::<T, Error>(one) == Ok::<T, Error>(other));
        self.lemma_continued_one_way(one, pass, Ok(a), Ok(b));
    }

    /// What a pass yields does not depend on what is kept: over a backbone that is
    /// steady, any two caches that are true to it lead to the same hidden states.
    pub proof fn law_the_cache_changes_no_answer(
        self,
        one: CacheView<T>,
        other: CacheView<T>,
        pass: PassView,
        after_one: CacheView<T>,
        after_other: CacheView<T>,
        a: Seq<H>,
        b: Seq<H>,
    )
        requires
            self.steady(),
            self.true_to(one),
            self.true_to(other),
            layout::state_at_start(pass),
            self.answers(one, pass, after_one, Ok(a)),
            self.answers(other, pass, after_other, Ok(b)),
        ensures
            a == b,
    {
        if !self.serving.continues(pass) {
            if self.serving.hybrid {
                self.lemma_rows_steady(pass.row_parts(), a, b);
            } else {
                assert(Ok::<Seq<H>, Error>(a) == Ok::<Seq<H>, Error>(b));
            }
        } else {
            let k = self.lemma_continued_from(one, pass, after_one, a);
            let l = self.lemma_continued_from(other, pass, after_other, b);
            self.lemma_continued_steady(k, l, pass, a, b);
        }
    }

    /// A cache that is true to a backbone stays so, whatever a pass yields.
    pub proof fn law_the_cache_stays_true(
        self,
        before: CacheView<T>,
        pass: PassView,
        after: CacheView<T>,
        out: Result<Seq<H>, Error>,
    )
        requires
            self.true_to(before),
            layout::state_at_start(pass),
            self.answers(before, pass, after, out),
        ensures
            self.true_to(after),
    {
        let state = pass.state_part();
        let asked = before.asked(state.ids);
        assert forall|i: int| 0 <= i < asked.entries.len() implies self.made_of(
            (#[trigger] asked.entries[i]).0,
            asked.entries[i].1,
        ) by {
            cache::lemma_asked_entries(before, state.ids, i);
            let j = choose|j: int|
                0 <= j < before.entries.len() && before.entries[j] == asked.entries[i];
            assert(self.made_of(before.entries[j].0, before.entries[j].1));
        }
        if self.serving.continues(pass) && !before.holding(state.ids) {
            let made = choose|made: Result<T, Error>| #[trigger]
                prefills(self.prefill, state, made) && match made {
                    Ok(kept) => after == asked.keeping(state.ids, kept) && self.continued(
                        kept,
                        pass,
                        out,
                    ),
                    Err(e) => after == asked && out == Err::<Seq<H>, Error>(e),
                };
            if let Ok(kept) = made {
                assert(self.made_of(state.ids, kept));
                let all = asked.entries.push((state.ids, kept));
                assert forall|i: int| 0 <= i < after.entries.len() implies self.made_of(
                    (#[trigger] after.entries[i]).0,
                    after.entries[i].1,
                ) by {
                    if asked.keep > 0 {
                        let j = i + (all.len() - after.entries.len());
                        assert(after.entries[i] == all[j]);
                        if j < asked.entries.len() {
                            assert(all[j] == asked.entries[j]);
                        }
                    }
                }
            }
        }
    }

    /// The same pass, run twice, yields the same hidden states, whether its state was
    /// kept in between or not.
    pub proof fn law_a_repeated_pass_yields_the_same(
        self,
        before: CacheView<T>,
        pass: PassView,
        between: CacheView<T>,
        first: Seq<H>,
        after: CacheView<T>,
        second: Seq<H>,
    )
        requires
            self.steady(),
            self.true_to(before),
            layout::state_at_start(pass),
            self.answers(before, pass, between, Ok(first)),
            self.answers(between, pass, after, Ok(second)),
        ensures
            first == second,
    {
        self.law_the_cache_stays_true(before, pass, between, Ok(first));
        self.law_the_cache_changes_no_answer(before, between, pass, between, after, first, second);
    }

    /// Running the whole pass, its state and all, yields these hidden states.
    pub open spec fn whole(self, pass: PassView, states: Seq<H>) -> bool {
        if self.serving.hybrid {
            self.in_rows(pass.row_parts(), Ok(states))
        } else {
            runs(self.run, pass, Ok(states))
        }
    }

    /// Continuing from a state yields what running the whole pass does.
    pub open spec fn continues_faithfully(self) -> bool {
        forall|pass: PassView, kept: T, a: Seq<H>, b: Seq<H>|
            self.made_of(pass.state_part().ids, kept) && #[trigger] self.continued(
                kept,
                pass,
                Ok(a),
            ) && #[trigger] self.whole(pass, b) ==> a == b
    }

    /// Running the state once changes no answer: over a backbone that continues
    /// faithfully, a pass yields the same hidden states with and without it.
    pub proof fn law_running_the_state_once_changes_no_answer(
        self,
        without: Self,
        cache: CacheView<T>,
        other: CacheView<T>,
        pass: PassView,
        after: CacheView<T>,
        after_other: CacheView<T>,
        a: Seq<H>,
        b: Seq<H>,
    )
        requires
            self.steady(),
            self.continues_faithfully(),
            self.true_to(cache),
            layout::state_at_start(pass),
            !without.serving.prefix,
            without.serving.hybrid == self.serving.hybrid,
            without.run == self.run,
            self.answers(cache, pass, after, Ok(a)),
            without.answers(other, pass, after_other, Ok(b)),
        ensures
            a == b,
    {
        if self.serving.hybrid {
            assert(without.in_rows(pass.row_parts(), Ok(b)));
            let all = choose|all: Seq<Seq<H>>|
                {
                    &&& all.len() == pass.row_parts().len()
                    &&& b == #[trigger] together(all)
                    &&& forall|i: int|
                        0 <= i < pass.row_parts().len() ==> runs(
                            self.run,
                            pass.row_parts()[i],
                            Ok(#[trigger] all[i]),
                        )
                };
            assert(b == together(all));
            assert(self.in_rows(pass.row_parts(), Ok(b)));
        }
        assert(self.whole(pass, b));
        if self.serving.continues(pass) {
            let kept = self.lemma_continued_from(cache, pass, after, a);
            assert(self.continued(kept, pass, Ok(a)));
        } else if self.serving.hybrid {
            self.lemma_rows_steady(pass.row_parts(), a, b);
        } else {
            assert(Ok::<Seq<H>, Error>(a) == Ok::<Seq<H>, Error>(b));
        }
    }

    /// The cache that a batch begins with, once it ran the states that it runs together,
    /// and those that it went through.
    proof fn lemma_batch_opened(
        self,
        before: CacheView<T>,
        passes: Seq<PassView>,
        after: CacheView<T>,
        all: Seq<Seq<H>>,
    ) -> (caches: Seq<CacheView<T>>)
        requires
            self.answers_batch(before, passes, after, Ok(all)),
        ensures
            all.len() == passes.len(),
            self.answers_in_turn(caches, passes, all),
            after == caches.last().batch_over(),
            ({
                let fresh = self.shared(before, passes);
                let states = states_at(passes, fresh);
                if fresh.len() == 0 {
                    caches[0] == before
                } else {
                    exists|kept: Seq<T>|
                        #[trigger] prefills_together(self.prefill_batch, states, Ok(kept))
                            && caches[0] == before.batch_begun(named(states, kept))
                }
            }),
    {
        let fresh = self.shared(before, passes);
        let states = states_at(passes, fresh);
        let begun = if fresh.len() == 0 {
            before
        } else {
            let made = choose|made: Result<Seq<T>, Error>| #[trigger]
                prefills_together(self.prefill_batch, states, made) && match made {
                    Ok(kept) => self.answers_and_ends(
                        before.batch_begun(named(states, kept)),
                        passes,
                        after,
                        Ok(all),
                    ),
                    Err(e) => after == before && Ok::<Seq<Seq<H>>, Error>(all) == Err::<
                        Seq<Seq<H>>,
                        Error,
                    >(e),
                };
            let kept = made->Ok_0;
            assert(prefills_together(self.prefill_batch, states, Ok(kept)));
            before.batch_begun(named(states, kept))
        };
        let last = choose|last: CacheView<T>| #[trigger]
            self.answers_all(begun, passes, last, Ok::<Seq<Seq<H>>, Error>(all)) && after
                == last.batch_over();
        choose|caches: Seq<CacheView<T>>| #[trigger]
            self.answers_in_turn(caches, passes, all) && caches[0] == begun && caches.last()
                == last
    }

    /// Running states together yields something for every one of them.
    pub open spec fn runs_every_state(self) -> bool {
        forall|states: Seq<PassView>, kept: Seq<T>|
            #[trigger] prefills_together(self.prefill_batch, states, Ok(kept)) ==> kept.len()
                == states.len()
    }

    /// Every one of these passes is continued from its state, and holds all of it.
    pub open spec fn all_continue(self, passes: Seq<PassView>) -> bool {
        forall|i: int|
            0 <= i < passes.len() ==> self.serving.continues(#[trigger] passes[i])
                && passes[i].state_part().ids.len() == state_count(passes[i].segments)
    }

    /// The places of the first passes with each state that is not kept.
    pub open spec fn new_states(self, before: CacheView<T>, passes: Seq<PassView>) -> Seq<int> {
        cache::fresh_among(
            before,
            state_ids(passes),
            self.serving.prefix_min as nat,
            passes.len() as int,
        )
    }

    /// The tokens of the states at these places.
    spec fn tokens_at(passes: Seq<PassView>, at: Seq<int>) -> Seq<Seq<u32>> {
        Seq::new(at.len(), |j: int| passes[at[j]].state_part().ids)
    }

    /// Once every new state of a batch stands in the cache, its passes find them all: each
    /// state is free the first time if the batch ran it ahead, and found from then on.
    proof fn lemma_new_in_turn(
        self,
        before: CacheView<T>,
        passes: Seq<PassView>,
        caches: Seq<CacheView<T>>,
        all: Seq<Seq<H>>,
        from: int,
        i: int,
    )
        requires
            self.all_continue(passes),
            all.len() == passes.len(),
            self.answers_in_turn(caches, passes, all),
            forall|k: int|
                0 <= k < passes.len() ==> !before.holding(
                    (#[trigger] passes[k]).state_part().ids,
                ),
            0 <= from <= i <= passes.len(),
            ({
                let tokens = Self::tokens_at(passes, self.new_states(before, passes));
                &&& cache::stand_last(caches[from], tokens)
                &&& caches[from].batched == tokens.skip(
                    cache::fresh_among(
                        before,
                        state_ids(passes),
                        self.serving.prefix_min as nat,
                        from,
                    ).len() as int,
                )
            }),
        ensures
            ({
                let tokens = Self::tokens_at(passes, self.new_states(before, passes));
                let min = self.serving.prefix_min as nat;
                let begun = cache::fresh_among(before, state_ids(passes), min, from).len();
                let seen = cache::fresh_among(before, state_ids(passes), min, i).len();
                &&& cache::stand_last(caches[i], tokens)
                &&& caches[i].batched == tokens.skip(seen as int)
                &&& caches[i].keep == caches[from].keep
                &&& caches[i].misses == caches[from].misses
                &&& caches[i].hits + seen - begun == caches[from].hits + i - from
            }),
        decreases i,
    {
        let states = state_ids(passes);
        let min = self.serving.prefix_min as nat;
        let fresh = self.new_states(before, passes);
        let tokens = Self::tokens_at(passes, fresh);
        if from < i {
            let at = i - 1;
            let ids = passes[at].state_part().ids;
            self.lemma_new_in_turn(before, passes, caches, all, from, at);
            let earlier = cache::fresh_among(before, states, min, at);
            let seen = cache::fresh_among(before, states, min, i);
            cache::lemma_fresh_prefix(before, states, min, i, passes.len() as int);
            cache::lemma_fresh_prefix(before, states, min, at, passes.len() as int);
            assert(states[at] == ids);
            assert(self.serving.continues(passes[at]));
            assert(!before.holding(passes[at].state_part().ids));
            let k = cache::lemma_fresh_covers(before, states, min, passes.len() as int, at);
            assert(tokens[k] == ids);
            cache::lemma_asked_stand_last(caches[at], tokens, k);
            assert(self.answers(caches[at], passes[at], caches[at + 1], Ok(all[at])));
            let held = caches[at];
            assert(caches[i] == held.asked(ids));
            if seen.len() > earlier.len() {
                let c = earlier.len() as int;
                assert(seen[c] == at);
                assert(fresh[c] == at);
                assert(tokens[c] == ids);
                assert(held.batched[0] == ids);
                assert(cache::first_at(held.batched, ids, 0));
                let mine = choose|m: int| cache::first_at(held.batched, ids, m);
                assert(mine == 0);
                assert(held.batched.contains(ids));
                assert(held.batched.remove(0) =~= tokens.skip(c + 1));
            } else {
                let j = choose|j: int|
                    0 <= j < earlier.len() && states[#[trigger] earlier[j]] == states[at];
                assert(fresh[j] == earlier[j]);
                assert(!held.batched.contains(ids)) by {
                    if held.batched.contains(ids) {
                        let m = choose|m: int|
                            0 <= m < held.batched.len() && held.batched[m] == ids;
                        let place = m + earlier.len();
                        assert(tokens[place] == ids);
                        cache::lemma_fresh_places(before, states, min, passes.len() as int);
                        assert(states[fresh[place]] == passes[fresh[place]].state_part().ids);
                        cache::lemma_fresh_differ(
                            before,
                            states,
                            min,
                            passes.len() as int,
                            j,
                            place,
                        );
                    }
                }
            }
        }
    }

    /// A batch over states that are all new runs each of them once, however many passes
    /// want it, and finds it for the others. Where there is room for them, all are kept.
    pub proof fn law_a_batch_runs_each_new_state_once(
        self,
        before: CacheView<T>,
        passes: Seq<PassView>,
        after: CacheView<T>,
        all: Seq<Seq<H>>,
    )
        requires
            self.runs_every_state(),
            self.all_continue(passes),
            before.keep > 0,
            before.batched.len() == 0,
            forall|k: int|
                0 <= k < passes.len() ==> !before.holding(
                    (#[trigger] passes[k]).state_part().ids,
                ),
            self.answers_batch(before, passes, after, Ok(all)),
        ensures
            all.len() == passes.len(),
            after.keep == before.keep,
            after.batched.len() == 0,
            after.entries.len() <= after.keep,
            after.misses == before.misses + self.new_states(before, passes).len(),
            after.hits + self.new_states(before, passes).len() == before.hits + passes.len(),
            self.new_states(before, passes).len() <= before.keep ==> forall|k: int|
                0 <= k < passes.len() ==> after.holding((#[trigger] passes[k]).state_part().ids),
    {
        let states = state_ids(passes);
        let min = self.serving.prefix_min as nat;
        let n = passes.len() as int;
        let fresh = self.new_states(before, passes);
        let tokens = Self::tokens_at(passes, fresh);
        let caches = self.lemma_batch_opened(before, passes, after, all);
        cache::lemma_fresh_places(before, states, min, n);
        if n > 0 {
            assert(self.serving.continues(passes[0]));
            assert(states[0] == passes[0].state_part().ids);
            if fresh.len() > 1 {
                let own = states_at(passes, fresh);
                let kept = choose|kept: Seq<T>|
                    #[trigger] prefills_together(self.prefill_batch, own, Ok(kept)) && caches[0]
                        == before.batch_begun(named(own, kept));
                let run = named(own, kept);
                assert forall|j: int| 0 <= j < run.len() implies !before.holding(
                    (#[trigger] run[j]).0,
                ) by {
                    assert(run[j].0 == passes[fresh[j]].state_part().ids);
                }
                cache::lemma_begun_stand_last(before, run);
                assert(Seq::new(run.len(), |j: int| run[j].0) =~= tokens);
                assert(tokens.skip(0) =~= tokens);
                self.lemma_new_in_turn(before, passes, caches, all, 0, n);
            } else {
                let ids = passes[0].state_part().ids;
                assert(self.answers(caches[0], passes[0], caches[1], Ok(all[0])));
                let asked = before.asked(ids);
                let made = choose|made: Result<T, Error>| #[trigger]
                    prefills(self.prefill, passes[0].state_part(), made) && match made {
                        Ok(kept) => caches[1] == asked.keeping(ids, kept) && self.continued(
                            kept,
                            passes[0],
                            Ok(all[0]),
                        ),
                        Err(e) => caches[1] == asked && Ok::<Seq<H>, Error>(all[0]) == Err::<
                            Seq<H>,
                            Error,
                        >(e),
                    };
                let kept = made->Ok_0;
                cache::lemma_kept_is_latest(asked, ids, kept);
                let one = cache::fresh_among(before, states, min, 1);
                assert(cache::fresh_among(before, states, min, 0) =~= Seq::<int>::empty());
                assert(one =~= seq![0int]);
                cache::lemma_fresh_prefix(before, states, min, 1, n);
                assert(fresh =~= one);
                assert(tokens =~= seq![ids]);
                assert(cache::stand_last(caches[1], tokens));
                assert(caches[1].batched =~= tokens.skip(1));
                self.lemma_new_in_turn(before, passes, caches, all, 1, n);
            }
            let last = caches[n];
            assert(caches.last() == last);
            if fresh.len() <= before.keep {
                assert forall|k: int| 0 <= k < n implies after.holding(
                    (#[trigger] passes[k]).state_part().ids,
                ) by {
                    assert(states[k] == passes[k].state_part().ids);
                    assert(self.serving.continues(passes[k]));
                    assert(!before.holding(passes[k].state_part().ids));
                    let j = cache::lemma_fresh_covers(before, states, min, n, k);
                    assert(tokens[j] == states[k]);
                    cache::lemma_batch_over_holds(last, tokens, j);
                }
            }
        }
    }

    /// A batch over states that are all kept runs none of them: every pass finds its own.
    pub proof fn law_a_batch_over_kept_states_runs_none(
        self,
        before: CacheView<T>,
        passes: Seq<PassView>,
        after: CacheView<T>,
        all: Seq<Seq<H>>,
    )
        requires
            self.all_continue(passes),
            before.batched.len() == 0,
            forall|k: int|
                0 <= k < passes.len() ==> before.holding((#[trigger] passes[k]).state_part().ids),
            self.answers_batch(before, passes, after, Ok(all)),
        ensures
            after.misses == before.misses,
            after.hits == before.hits + passes.len(),
    {
        let caches = self.lemma_batch_opened(before, passes, after, all);
        let n = passes.len() as int;
        lemma_nothing_fresh(before, passes, self.serving.prefix_min as nat, n);
        self.lemma_kept_in_turn(passes, caches, all, n);
    }

    /// Passes whose states are all kept find them one after the other.
    proof fn lemma_kept_in_turn(
        self,
        passes: Seq<PassView>,
        caches: Seq<CacheView<T>>,
        all: Seq<Seq<H>>,
        i: int,
    )
        requires
            self.all_continue(passes),
            all.len() == passes.len(),
            self.answers_in_turn(caches, passes, all),
            caches[0].batched.len() == 0,
            forall|k: int|
                0 <= k < passes.len() ==> caches[0].holding(
                    (#[trigger] passes[k]).state_part().ids,
                ),
            0 <= i <= passes.len(),
        ensures
            caches[i].batched.len() == 0,
            caches[i].misses == caches[0].misses,
            caches[i].hits == caches[0].hits + i,
            forall|k: int|
                0 <= k < passes.len() ==> caches[i].holding(
                    (#[trigger] passes[k]).state_part().ids,
                ),
        decreases i,
    {
        if i > 0 {
            let at = i - 1;
            self.lemma_kept_in_turn(passes, caches, all, at);
            let ids = passes[at].state_part().ids;
            assert(self.serving.continues(passes[at]));
            assert(self.answers(caches[at], passes[at], caches[at + 1], Ok(all[at])));
            assert(caches[at].holding(passes[at].state_part().ids));
            assert forall|k: int| 0 <= k < passes.len() implies caches[i].holding(
                (#[trigger] passes[k]).state_part().ids,
            ) by {
                cache::law_asking_lets_go_of_nothing(
                    caches[at],
                    ids,
                    passes[k].state_part().ids,
                );
            }
        }
    }

    /// The same batch, run twice over states that were new and that there is room for:
    /// the first time each state is run once, the second time none is. Over a backbone
    /// that is steady both yield the same hidden states.
    pub proof fn law_a_repeated_batch_runs_nothing(
        self,
        before: CacheView<T>,
        passes: Seq<PassView>,
        between: CacheView<T>,
        first: Seq<Seq<H>>,
        after: CacheView<T>,
        second: Seq<Seq<H>>,
    )
        requires
            self.runs_every_state(),
            self.all_continue(passes),
            before.keep > 0,
            before.batched.len() == 0,
            forall|k: int|
                0 <= k < passes.len() ==> !before.holding(
                    (#[trigger] passes[k]).state_part().ids,
                ),
            self.new_states(before, passes).len() <= before.keep,
            self.answers_batch(before, passes, between, Ok(first)),
            self.answers_batch(between, passes, after, Ok(second)),
        ensures
            between.misses == before.misses + self.new_states(before, passes).len(),
            between.hits + self.new_states(before, passes).len() == before.hits + passes.len(),
            after.misses == between.misses,
            after.hits == between.hits + passes.len(),
            self.steady() && self.true_to(before) && (forall|k: int|
                0 <= k < passes.len() ==> layout::state_at_start(#[trigger] passes[k])) ==> first
                == second,
    {
        self.law_a_batch_runs_each_new_state_once(before, passes, between, first);
        self.law_a_batch_over_kept_states_runs_none(between, passes, after, second);
        if self.steady() && self.true_to(before) && forall|k: int|
            0 <= k < passes.len() ==> layout::state_at_start(#[trigger] passes[k]) {
            self.law_a_batch_keeps_the_cache_true(before, passes, between, first);
            let caches = self.lemma_batch_in_turn(between, passes, after, second);
            assert forall|k: int| 0 <= k < passes.len() implies first[k] == second[k] by {
                assert(self.answers(caches[k], passes[k], caches[k + 1], Ok(second[k])));
                self.law_a_batch_yields_what_each_pass_yields_alone(
                    before,
                    passes,
                    between,
                    first,
                    k,
                    caches[k],
                    caches[k + 1],
                    second[k],
                );
            }
            assert(first =~= second);
        }
    }

    /// The cache is true to the backbone all through passes that are run in turn.
    proof fn lemma_true_in_turn(
        self,
        caches: Seq<CacheView<T>>,
        passes: Seq<PassView>,
        all: Seq<Seq<H>>,
        n: int,
    )
        requires
            self.answers_in_turn(caches, passes, all),
            self.true_to(caches[0]),
            forall|i: int| 0 <= i < passes.len() ==> layout::state_at_start(#[trigger] passes[i]),
            0 <= n <= all.len(),
        ensures
            self.true_to(caches[n]),
        decreases n,
    {
        if n > 0 {
            self.lemma_true_in_turn(caches, passes, all, n - 1);
            assert(self.answers(
                caches[n - 1],
                passes[n - 1],
                caches[n - 1 + 1],
                Ok(all[n - 1]),
            ));
            self.law_the_cache_stays_true(
                caches[n - 1],
                passes[n - 1],
                caches[n],
                Ok(all[n - 1]),
            );
        }
    }

    /// The cache is true to the backbone once the states of a batch are run.
    proof fn lemma_batch_begins_true(
        self,
        before: CacheView<T>,
        passes: Seq<PassView>,
        kept: Seq<T>,
    )
        requires
            self.steady(),
            self.true_to(before),
            forall|i: int| 0 <= i < passes.len() ==> layout::state_at_start(#[trigger] passes[i]),
            prefills_together(
                self.prefill_batch,
                states_at(passes, self.shared(before, passes)),
                Ok(kept),
            ),
        ensures
            self.true_to(
                before.batch_begun(named(states_at(passes, self.shared(before, passes)), kept)),
            ),
    {
        let fresh = self.shared(before, passes);
        let states = states_at(passes, fresh);
        let run = named(states, kept);
        let begun = before.batch_begun(run);
        let counted = CacheView {
            misses: before.misses + run.len(),
            floor: run.len(),
            batched: Seq::new(run.len(), |i: int| run[i].0),
            ..before
        };
        cache::lemma_fresh_places(
            before,
            state_ids(passes),
            self.serving.prefix_min as nat,
            passes.len() as int,
        );
        assert forall|j: int| 0 <= j < begun.entries.len() implies self.made_of(
            (#[trigger] begun.entries[j]).0,
            begun.entries[j].1,
        ) by {
            cache::lemma_forced_entries(counted, run, j);
            if before.entries.contains(begun.entries[j]) {
                let k = choose|k: int|
                    0 <= k < before.entries.len() && before.entries[k] == begun.entries[j];
                assert(self.made_of(before.entries[k].0, before.entries[k].1));
            } else {
                let k = choose|k: int| 0 <= k < run.len() && run[k] == begun.entries[j];
                assert(prefills(self.prefill, states[k], Ok(kept[k])));
                assert(states[k] == passes[fresh[k]].state_part());
                assert(layout::state_at_start(passes[fresh[k]]));
            }
        }
    }

    /// The caches that a batch went through, each true to the backbone.
    proof fn lemma_batch_in_turn(
        self,
        before: CacheView<T>,
        passes: Seq<PassView>,
        after: CacheView<T>,
        all: Seq<Seq<H>>,
    ) -> (caches: Seq<CacheView<T>>)
        requires
            self.steady(),
            self.true_to(before),
            forall|i: int| 0 <= i < passes.len() ==> layout::state_at_start(#[trigger] passes[i]),
            self.answers_batch(before, passes, after, Ok(all)),
        ensures
            all.len() == passes.len(),
            caches.len() == all.len() + 1,
            after == caches.last().batch_over(),
            forall|i: int| 0 <= i < caches.len() ==> self.true_to(#[trigger] caches[i]),
            forall|i: int|
                0 <= i < all.len() ==> self.answers(
                    caches[i],
                    passes[i],
                    caches[i + 1],
                    Ok(#[trigger] all[i]),
                ),
    {
        let caches = self.lemma_batch_opened(before, passes, after, all);
        let fresh = self.shared(before, passes);
        if fresh.len() > 0 {
            let states = states_at(passes, fresh);
            let kept = choose|kept: Seq<T>|
                #[trigger] prefills_together(self.prefill_batch, states, Ok(kept)) && caches[0]
                    == before.batch_begun(named(states, kept));
            self.lemma_batch_begins_true(before, passes, kept);
        }
        assert forall|i: int| 0 <= i < caches.len() implies self.true_to(#[trigger] caches[i]) by {
            self.lemma_true_in_turn(caches, passes, all, i);
        }
        caches
    }

    /// A batch yields what each of its passes yields alone.
    pub proof fn law_a_batch_yields_what_each_pass_yields_alone(
        self,
        before: CacheView<T>,
        passes: Seq<PassView>,
        after: CacheView<T>,
        all: Seq<Seq<H>>,
        i: int,
        cache: CacheView<T>,
        left: CacheView<T>,
        alone: Seq<H>,
    )
        requires
            self.steady(),
            self.true_to(before),
            self.true_to(cache),
            forall|j: int| 0 <= j < passes.len() ==> layout::state_at_start(#[trigger] passes[j]),
            self.answers_batch(before, passes, after, Ok(all)),
            0 <= i < passes.len(),
            self.answers(cache, passes[i], left, Ok(alone)),
        ensures
            all.len() == passes.len(),
            all[i] == alone,
    {
        let caches = self.lemma_batch_in_turn(before, passes, after, all);
        assert(self.answers(caches[i], passes[i], caches[i + 1], Ok(all[i])));
        self.law_the_cache_changes_no_answer(
            caches[i],
            cache,
            passes[i],
            caches[i + 1],
            left,
            all[i],
            alone,
        );
    }

    /// Equal passes of a batch yield equal hidden states.
    pub proof fn law_equal_passes_of_a_batch_yield_the_same(
        self,
        before: CacheView<T>,
        passes: Seq<PassView>,
        after: CacheView<T>,
        all: Seq<Seq<H>>,
        i: int,
        j: int,
    )
        requires
            self.steady(),
            self.true_to(before),
            forall|k: int| 0 <= k < passes.len() ==> layout::state_at_start(#[trigger] passes[k]),
            self.answers_batch(before, passes, after, Ok(all)),
            0 <= i < passes.len(),
            0 <= j < passes.len(),
            passes[i] == passes[j],
        ensures
            all[i] == all[j],
    {
        let caches = self.lemma_batch_in_turn(before, passes, after, all);
        assert(self.answers(caches[i], passes[i], caches[i + 1], Ok(all[i])));
        assert(self.answers(caches[j], passes[j], caches[j + 1], Ok(all[j])));
        self.law_the_cache_changes_no_answer(
            caches[i],
            caches[j],
            passes[i],
            caches[i + 1],
            caches[j + 1],
            all[i],
            all[j],
        );
    }

    /// A cache that is true to a backbone stays so when a batch is answered.
    pub proof fn law_a_batch_keeps_the_cache_true(
        self,
        before: CacheView<T>,
        passes: Seq<PassView>,
        after: CacheView<T>,
        all: Seq<Seq<H>>,
    )
        requires
            self.steady(),
            self.true_to(before),
            forall|k: int| 0 <= k < passes.len() ==> layout::state_at_start(#[trigger] passes[k]),
            self.answers_batch(before, passes, after, Ok(all)),
        ensures
            self.true_to(after),
    {
        let caches = self.lemma_batch_in_turn(before, passes, after, all);
        let last = caches[caches.len() - 1];
        assert forall|i: int| 0 <= i < after.entries.len() implies self.made_of(
            (#[trigger] after.entries[i]).0,
            after.entries[i].1,
        ) by {
            let j = i + (last.entries.len() - after.entries.len());
            assert(after.entries[i] == last.entries[j]);
        }
    }
}

/// Where every state is kept, none has to be run.
proof fn lemma_nothing_fresh<T>(
    before: CacheView<T>,
    passes: Seq<PassView>,
    min: nat,
    n: int,
)
    requires
        0 <= n <= passes.len(),
        forall|k: int|
            0 <= k < passes.len() ==> before.holding((#[trigger] passes[k]).state_part().ids),
    ensures
        cache::fresh_among(before, state_ids(passes), min, n).len() == 0,
    decreases n,
{
    if n > 0 {
        lemma_nothing_fresh(before, passes, min, n - 1);
        assert(before.holding(passes[n - 1].state_part().ids));
        assert(state_ids(passes)[n - 1] == passes[n - 1].state_part().ids);
    }
}

/// A pass is continued from its state where prefixes are on, its options are not isolated, its
/// state has a token and as many as it takes, and it asks a question.
pub proof fn law_a_long_enough_state_is_run_on_its_own(serving: Serving, pass: PassView)
    ensures
        !serving.prefix ==> !serving.continues(pass),
        pass.options.len() > 0 ==> !serving.continues(pass),
        pass.question_count() == 0 ==> !serving.continues(pass),
        state_count(pass.segments) == 0 ==> !serving.continues(pass),
        state_count(pass.segments) < serving.prefix_min ==> !serving.continues(pass),
        serving.prefix && pass.options.len() == 0 && pass.question_count() > 0 && state_count(
            pass.segments,
        ) >= 1 && state_count(pass.segments) >= serving.prefix_min ==> serving.continues(pass),
{
}

/// The state's tokens are those of segment zero.
pub proof fn law_the_state_is_counted_by_its_segment(segments: Seq<u32>)
    ensures
        state_count(segments) == pass::members(segments, segments.len() as int, 0).len(),
    decreases segments.len(),
{
    if segments.len() > 0 {
        let fewer = segments.drop_last();
        law_the_state_is_counted_by_its_segment(fewer);
        lemma_members_prefix(fewer, segments, fewer.len() as int);
    }
}

proof fn lemma_members_prefix(a: Seq<u32>, b: Seq<u32>, n: int)
    requires
        0 <= n <= a.len() <= b.len(),
        forall|i: int| 0 <= i < a.len() ==> a[i] == b[i],
    ensures
        pass::members(a, n, 0) == pass::members(b, n, 0),
    decreases n,
{
    if n > 0 {
        lemma_members_prefix(a, b, n - 1);
    }
}

/// What the branches or the rows of a pass yield is put together in their order.
pub proof fn law_what_is_yielded_is_put_together_in_order<H>(
    before: Seq<Seq<H>>,
    after: Seq<Seq<H>>,
    one: Seq<H>,
)
    ensures
        together(before + after) == together(before) + together(after),
        together(seq![one]) == one,
        together(Seq::<Seq<H>>::empty()).len() == 0,
    decreases after.len(),
{
    assert(seq![one].drop_last() =~= Seq::<Seq<H>>::empty());
    assert(together(Seq::<Seq<H>>::empty()) + one =~= one);
    if after.len() == 0 {
        assert(before + after =~= before);
        assert(together(before) + together(after) =~= together(before));
    } else {
        law_what_is_yielded_is_put_together_in_order(before, after.drop_last(), one);
        assert((before + after).drop_last() =~= before + after.drop_last());
        assert(together(before + after) =~= together(before) + together(after));
    }
}

/// Of what the branches yield as much is taken as there are questions, from the first on.
pub proof fn law_as_much_is_taken_as_was_asked<H>(all: Seq<Seq<H>>, n: nat)
    ensures
        all.len() <= n ==> at_most(all, n) == all,
        all.len() > n ==> at_most(all, n) == all.take(n as int),
{
}

/// What is kept of the states of a batch is kept under their own tokens.
pub proof fn law_a_kept_state_goes_under_its_own_tokens<T>(
    states: Seq<PassView>,
    kept: Seq<T>,
    j: int,
)
    requires
        states.len() == kept.len(),
        0 <= j < states.len(),
    ensures
        named(states, kept).len() == states.len(),
        named(states, kept)[j] == (states[j].ids, kept[j]),
{
}

/// A pass that is run whole is run with its own tokens and positions, read where it is read, under
/// the mask that says what each of its tokens reads.
pub proof fn law_a_whole_pass_is_run_under_its_own_mask<
    H,
    R: Fn(&[u32], &[u32], &[usize], &[bool]) -> Result<Vec<H>, Error>,
>(run: R, pass: PassView, out: Result<Seq<H>, Error>, query: int, key: int)
    requires
        runs(run, pass, out),
        0 <= query < pass.ids.len(),
        0 <= key < pass.ids.len(),
    ensures
        exists|
            ids: &[u32],
            positions: &[u32],
            readout: &[usize],
            allowed: &[bool],
            made: Result<Vec<H>, Error>,
        |
            {
                &&& #[trigger] call_ensures(run, (ids, positions, readout, allowed), made)
                &&& ids@ == pass.ids
                &&& positions@ == pass.positions
                &&& encode::ints(readout@) == pass.readout
                &&& allowed@.len() == pass.ids.len() * pass.ids.len()
                &&& allowed@[query * pass.ids.len() + key] == pass.reads(query, key)
                &&& local::states_of(made) == out
            },
{
    let cell = |q: int, k: int| pass.reads(q, k);
    let (ids, positions, readout, allowed, made) = choose|
        ids: &[u32],
        positions: &[u32],
        readout: &[usize],
        allowed: &[bool],
        made: Result<Vec<H>, Error>,
    |
        {
            &&& ids@ == pass.ids
            &&& positions@ == pass.positions
            &&& encode::ints(readout@) == pass.readout
            &&& allowed@ == mask::grid(
                pass.ids.len(),
                pass.ids.len(),
                |q: int, k: int| pass.reads(q, k),
            )
            &&& local::states_of(made) == out
            &&& #[trigger] call_ensures(run, (ids, positions, readout, allowed), made)
        };
    mask::law_a_mask_has_a_cell_for_every_pair(
        pass.ids.len(),
        pass.ids.len(),
        |q: int, k: int| pass.reads(q, k),
        query,
        key,
    );
    assert(call_ensures(run, (ids, positions, readout, allowed), made));
}

impl<
    T,
    H,
    P: Fn(&OwnedPass) -> Result<T, Error>,
    B: Fn(&[OwnedPass]) -> Result<Vec<T>, Error>,
    C: Fn(&T, &[OwnedPass]) -> Result<Vec<Vec<H>>, Error>,
    R: Fn(&[u32], &[u32], &[usize], &[bool]) -> Result<Vec<H>, Error>,
> Backend<T, P, B, C, R> {
    /// A pass is answered in the form that its backbone takes: a hybrid refuses isolated options
    /// and otherwise takes row by row; any other takes the pass whole; and either continues from
    /// the state where that is worth while, running the state only where it is not held. Nothing
    /// is kept or counted of a pass that is not continued.
    pub proof fn law_a_pass_is_answered_in_its_form(
        self,
        before: CacheView<T>,
        pass: PassView,
        after: CacheView<T>,
        out: Result<Seq<H>, Error>,
    )
        requires
            self.answers(before, pass, after, out),
        ensures
            self.serving.hybrid && pass.options.len() > 0 ==> out is Err && after == before,
            !self.serving.continues(pass) ==> after == before,
            !self.serving.continues(pass) && !self.serving.hybrid ==> runs(self.run, pass, out),
            !self.serving.continues(pass) && self.serving.hybrid && pass.options.len() == 0
                ==> self.in_rows(pass.row_parts(), out),
            self.serving.continues(pass) && before.holding(pass.state_part().ids) ==> after
                == before.asked(pass.state_part().ids) && self.continued(
                after.entries.last().1,
                pass,
                out,
            ),
            self.serving.continues(pass) && !before.holding(pass.state_part().ids) ==> (exists|
                made: Result<T, Error>,
            | #[trigger]
                prefills(self.prefill, pass.state_part(), made) && (made matches Ok(kept)
                    ==> self.continued(kept, pass, out)) && (made matches Err(e) ==> out == Err::<
                    Seq<H>,
                    Error,
                >(e))),
    {
    }
}

impl<
    T,
    H,
    P: Fn(&OwnedPass) -> Result<T, Error>,
    B: Fn(&[OwnedPass]) -> Result<Vec<T>, Error>,
    C: Fn(&T, &[OwnedPass]) -> Result<Vec<Vec<H>>, Error>,
    R: Fn(&[u32], &[u32], &[usize], &[bool]) -> Result<Vec<H>, Error>,
> Backend<T, P, B, C, R> {
    /// A pass fails only where a hybrid is asked to isolate options, or where the backbone itself
    /// fails: to run the state, to continue from it, or to run the pass or one of its rows.
    pub proof fn law_a_pass_fails_only_for_a_reason(
        self,
        before: CacheView<T>,
        pass: PassView,
        after: CacheView<T>,
        e: Error,
    )
        requires
            self.answers(before, pass, after, Err::<Seq<H>, Error>(e)),
        ensures
            (pass.options.len() > 0 && self.serving.hybrid && e is Invalid) || prefills(
                self.prefill,
                pass.state_part(),
                Err(e),
            ) || (exists|kept: T| #[trigger]
                continues_from(
                    self.continue_from,
                    kept,
                    pass.branch_parts(),
                    Err::<Seq<Seq<H>>, Error>(e),
                )) || runs(self.run, pass, Err::<Seq<H>, Error>(e)) || (exists|i: int|
                0 <= i < pass.row_parts().len() && runs(
                    self.run,
                    #[trigger] pass.row_parts()[i],
                    Err::<Seq<H>, Error>(e),
                )),
    {
        let out = Err::<Seq<H>, Error>(e);
        if self.serving.continues(pass) && !(pass.options.len() > 0 && self.serving.hybrid) {
            let state = pass.state_part();
            if before.holding(state.ids) {
                let kept = before.asked(state.ids).entries.last().1;
                self.lemma_continuing_failed(kept, pass, e);
            } else {
                let made = choose|made: Result<T, Error>| #[trigger]
                    prefills(self.prefill, state, made) && match made {
                        Ok(kept) => after == before.asked(state.ids).keeping(state.ids, kept)
                            && self.continued(kept, pass, out),
                        Err(why) => after == before.asked(state.ids) && out == Err::<
                            Seq<H>,
                            Error,
                        >(why),
                    };
                if made is Ok {
                    self.lemma_continuing_failed(made->Ok_0, pass, e);
                }
            }
        }
    }

    proof fn lemma_continuing_failed(self, kept: T, pass: PassView, e: Error)
        requires
            self.continued(kept, pass, Err::<Seq<H>, Error>(e)),
        ensures
            continues_from(
                self.continue_from,
                kept,
                pass.branch_parts(),
                Err::<Seq<Seq<H>>, Error>(e),
            ),
    {
    }
}

impl<
    T,
    H,
    P: Fn(&OwnedPass) -> Result<T, Error>,
    B: Fn(&[OwnedPass]) -> Result<Vec<T>, Error>,
    C: Fn(&T, &[OwnedPass]) -> Result<Vec<Vec<H>>, Error>,
    R: Fn(&[u32], &[u32], &[usize], &[bool]) -> Result<Vec<H>, Error>,
> Backend<T, P, B, C, R> {
    /// Where prefixes are on and a batch has several new states that are long enough, all of them
    /// are run together, each by the tokens of its own pass; otherwise none is run ahead.
    pub proof fn law_new_states_are_run_together(
        self,
        before: CacheView<T>,
        passes: Seq<PassView>,
        j: int,
    )
        ensures
            self.serving.prefix && self.new_states(before, passes).len() > 1 ==> self.shared(
                before,
                passes,
            ) == self.new_states(before, passes),
            !self.serving.prefix || self.new_states(before, passes).len() <= 1 ==> self.shared(
                before,
                passes,
            ).len() == 0,
            0 <= j < self.shared(before, passes).len() ==> states_at(
                passes,
                self.shared(before, passes),
            )[j] == passes[self.shared(before, passes)[j]].state_part(),
            states_at(passes, self.shared(before, passes)).len() == self.shared(
                before,
                passes,
            ).len(),
    {
    }
}

impl<
    T,
    H,
    P: Fn(&OwnedPass) -> Result<T, Error>,
    B: Fn(&[OwnedPass]) -> Result<Vec<T>, Error>,
    C: Fn(&T, &[OwnedPass]) -> Result<Vec<Vec<H>>, Error>,
    R: Fn(&[u32], &[u32], &[usize], &[bool]) -> Result<Vec<H>, Error>,
> Backend<T, P, B, C, R> {
    /// Row by row every row is run, and what they yield is put together in their order.
    pub proof fn law_every_row_is_run(self, rows: Seq<PassView>, states: Seq<H>) -> (all: Seq<
        Seq<H>,
    >)
        requires
            self.in_rows(rows, Ok(states)),
        ensures
            all.len() == rows.len(),
            forall|i: int|
                0 <= i < rows.len() ==> runs(
                    self.run,
                    rows[i],
                    Ok::<Seq<H>, Error>(#[trigger] all[i]),
                ),
            states == together(all),
    {
        choose|all: Seq<Seq<H>>|
            {
                &&& all.len() == rows.len()
                &&& states == #[trigger] together(all)
                &&& forall|i: int|
                    0 <= i < rows.len() ==> runs(self.run, rows[i], Ok(#[trigger] all[i]))
            }
    }

    /// Continuing goes on from what was kept with the branch of every question, and what they
    /// yield is put together in the order of the questions.
    pub proof fn law_every_branch_is_continued(self, kept: T, pass: PassView, states: Seq<H>) -> (all:
        Seq<Seq<H>>)
        requires
            self.continued(kept, pass, Ok(states)),
        ensures
            continues_from(self.continue_from, kept, pass.branch_parts(), Ok(all)),
            all.len() <= pass.question_count() ==> states == together(all),
            all.len() > pass.question_count() ==> states == together(
                all.take(pass.question_count() as int),
            ),
    {
        let out = Ok::<Seq<H>, Error>(states);
        let made = choose|made: Result<Seq<Seq<H>>, Error>|
            #[trigger] continues_from(
                self.continue_from,
                kept,
                pass.branch_parts(),
                made,
            ) && match made {
                Ok(all) => out == Ok::<Seq<H>, Error>(
                    together(at_most(all, pass.question_count())),
                ),
                Err(e) => out == Err::<Seq<H>, Error>(e),
            };
        made->Ok_0
    }
}

/// A state is run by its own pass, and so are several together; branches are continued from what
/// was kept, each by its own pass, all of them.
pub proof fn law_what_is_run_is_what_was_asked<
    T,
    H,
    P: Fn(&OwnedPass) -> Result<T, Error>,
    B: Fn(&[OwnedPass]) -> Result<Vec<T>, Error>,
    C: Fn(&T, &[OwnedPass]) -> Result<Vec<Vec<H>>, Error>,
>(
    prefill: P,
    prefill_batch: B,
    continue_from: C,
    state: PassView,
    states: Seq<PassView>,
    kept: T,
    one: Result<T, Error>,
    several: Result<Seq<T>, Error>,
    yielded: Result<Seq<Seq<H>>, Error>,
)
    ensures
        prefills(prefill, state, one) ==> exists|given: &OwnedPass|
            given@ == state && #[trigger] call_ensures(prefill, (given,), one),
        prefills_together(prefill_batch, states, several) ==> exists|
            given: &[OwnedPass],
            made: Result<Vec<T>, Error>,
        |
            given@.len() == states.len() && (forall|i: int|
                0 <= i < states.len() ==> (#[trigger] given@[i])@ == states[i])
                && local::states_of(made) == several && #[trigger] call_ensures(
                prefill_batch,
                (given,),
                made,
            ),
        continues_from(continue_from, kept, states, yielded) ==> exists|
            given: &[OwnedPass],
            made: Result<Vec<Vec<H>>, Error>,
        |
            given@.len() == states.len() && (forall|i: int|
                0 <= i < states.len() ==> (#[trigger] given@[i])@ == states[i]) && parts_of(made)
                == yielded && #[trigger] call_ensures(continue_from, (&kept, given), made),
{
    if prefills_together(prefill_batch, states, several) {
        let (given, made) = choose|given: &[OwnedPass], made: Result<Vec<T>, Error>|
            pass::passes(given@) == states && local::states_of(made) == several
                && #[trigger] call_ensures(prefill_batch, (given,), made);
        assert forall|i: int| 0 <= i < states.len() implies (#[trigger] given@[i])@
            == states[i] by {
            assert(pass::passes(given@)[i] == given@[i]@);
        }
        assert(pass::passes(given@).len() == given@.len());
        assert(call_ensures(prefill_batch, (given,), made));
    }
    if continues_from(continue_from, kept, states, yielded) {
        let (given, made) = choose|given: &[OwnedPass], made: Result<Vec<Vec<H>>, Error>|
            pass::passes(given@) == states && parts_of(made) == yielded
                && #[trigger] call_ensures(continue_from, (&kept, given), made);
        assert forall|i: int| 0 <= i < states.len() implies (#[trigger] given@[i])@
            == states[i] by {
            assert(pass::passes(given@)[i] == given@[i]@);
        }
        assert(pass::passes(given@).len() == given@.len());
        assert(call_ensures(continue_from, (&kept, given), made));
    }
}

/// What several passes yield is handed on list by list, in order, and errors as they are.
pub proof fn law_lists_are_handed_on_as_they_are<H>(out: Result<Vec<Vec<H>>, Error>)
    ensures
        out matches Ok(lists) ==> (parts_of(out) matches Ok(all) && all.len() == lists@.len()
            && forall|i: int| 0 <= i < all.len() ==> #[trigger] all[i] == lists@[i]@),
        out matches Err(e) ==> parts_of(out) == Err::<Seq<Seq<H>>, Error>(e),
{
}

} // verus!
