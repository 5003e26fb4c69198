//! A local inference engine: the model runs in this process, no HTTP.
//!
//! [`LocalEngine`] owns everything that makes a request into token layouts and
//! distributions into answers, and leaves exactly one job to an inference backend
//! behind [`Forward`]: run the backbone and hand back hidden states. The pointer
//! head reads *hidden states*, never vocabulary logits, so a backend needs to
//! expose the backbone rather than a text-generation API.

use vstd::prelude::*;
use vstd::slice::slice_subrange;

use crate::encode;
use crate::encode::{
    AskTokens, AskView, Delimiters, Encoding, EncodingView, Limits, OptionSlot, DECIDE, OPTION,
    OPTION_END, QUESTION, STATE,
};
use crate::error::Error;
use crate::layout;
use crate::number::Real;
use crate::pass::{Pass, PassView};
use crate::prompt;
use crate::prompt::{Ask, AskText, Kind, Plan, PlanView, Record};
use crate::readout;
use crate::readout::{AnswerView, Distribution};
use crate::table;
use crate::table::Table;
use crate::text;
use crate::types::{Answer, Question, SystemOneRequest, SystemOneResponse, Usage};

verus! {

/// Tokens, or why there are none.
pub open spec fn tokens_of(out: Result<Vec<u32>, Error>) -> Result<Seq<u32>, Error> {
    match out {
        Ok(tokens) => Ok(tokens@),
        Err(e) => Err(e),
    }
}

/// Hidden states, or why there are none.
pub open spec fn states_of<H>(out: Result<Vec<H>, Error>) -> Result<Seq<H>, Error> {
    match out {
        Ok(states) => Ok(states@),
        Err(e) => Err(e),
    }
}

/// The passes of a list.
pub open spec fn pass_views(passes: Seq<Pass<'_>>) -> Seq<PassView> {
    Seq::new(passes.len(), |i: int| passes[i]@)
}

/// Lists of hidden states, or why there are none.
pub open spec fn lists_of<H>(out: Result<Vec<Vec<H>>, Error>) -> Result<Seq<Seq<H>>, Error> {
    match out {
        Ok(lists) => Ok(Seq::new(lists@.len(), |i: int| lists@[i]@)),
        Err(e) => Err(e),
    }
}

/// One thing that a backend was asked, with what it answered.
pub enum Call<H> {
    /// To tokenise a text.
    Text(Seq<char>, Result<Seq<u32>, Error>),
    /// For the id of a delimiter.
    Delimiter(Seq<char>, Result<u32, Error>),
    /// To run a pass.
    Pass(PassView, Result<Seq<H>, Error>),
    /// To run several passes together.
    Batch(Seq<PassView>, Result<Seq<Seq<H>>, Error>),
}

/// Passes that were run one after the other, each with its hidden states.
pub open spec fn pass_calls<H>(passes: Seq<PassView>, done: Seq<Seq<H>>) -> Seq<Call<H>> {
    Seq::new(done.len(), |i: int| Call::Pass(passes[i], Ok(done[i])))
}

/// The account of running passes together: as one call, or one call after the other,
/// up to the first that fails.
pub open spec fn batch_calls<H>(
    passes: Seq<PassView>,
    out: Result<Seq<Seq<H>>, Error>,
    calls: Seq<Call<H>>,
) -> bool {
    calls == seq![Call::Batch(passes, out)] || match out {
        Ok(all) => all.len() == passes.len() && calls == pass_calls(passes, all),
        Err(e) => exists|done: Seq<Seq<H>>|
            done.len() < passes.len() && calls == (#[trigger] pass_calls(passes, done)).push(
                Call::Pass(passes[done.len() as int], Err(e)),
            ),
    }
}

/// Everything the engine needs from an inference backend.
///
/// Deliberately narrow, and deliberately not a generation API: nothing is
/// generated. One forward pass over a backbone (the base model with the
/// checkpoint's adapter applied, no vocabulary head), and the hidden states at the
/// positions the readout asks for.
///
/// What a backend may answer is up to the backend: [`Forward::tokenises`],
/// [`Forward::delimits`], [`Forward::computes`] and [`Forward::computes_batch`] say
/// which answers it gives to which questions. A backend that says nothing may give
/// any, and none is promised to be a success. A backend may also keep an account of
/// what it was asked and what it answered: [`Forward::keeps_account`] says whether it
/// does, and [`Forward::calls`] where. One that says nothing keeps none. [`Accounted`]
/// keeps one for any backend.
pub trait Forward: Sized {
    /// A hidden state: one vector of the backbone's hidden size.
    type State;

    /// Whether the backend keeps an account of what it was asked.
    open spec fn keeps_account() -> bool {
        false
    }

    /// What the backend was asked so far, and what it answered. Where it keeps an
    /// account, every call adds to this.
    open spec fn calls(&self) -> Seq<Call<Self::State>> {
        Seq::empty()
    }

    /// This text may be tokenised so.
    open spec fn tokenises(text: Seq<char>, out: Result<Seq<u32>, Error>) -> bool {
        true
    }

    /// This delimiter may have this token id.
    open spec fn delimits(token: Seq<char>, out: Result<u32, Error>) -> bool {
        true
    }

    /// This pass may yield these hidden states.
    open spec fn computes(pass: PassView, out: Result<Seq<Self::State>, Error>) -> bool {
        true
    }

    /// These passes, run together rather than one after the other, may yield these
    /// hidden states, or fail so for a reason that is none of any single pass.
    open spec fn computes_batch(
        passes: Seq<PassView>,
        out: Result<Seq<Seq<Self::State>>, Error>,
    ) -> bool {
        true
    }

    /// Token ids for a piece of caller text.
    ///
    /// Must never return a special token: the text is escaped before it gets
    /// here, so a tokenizer that treats `<|...|>` as ordinary text is enough.
    fn tokenise(&mut self, text: &str) -> (out: Result<Vec<u32>, Error>)
        ensures
            Self::tokenises(text@, tokens_of(out)),
            Self::keeps_account() ==> final(self).calls() == old(self).calls().push(
                Call::Text(text@, tokens_of(out)),
            ),
    ;

    /// The token id of one of the five delimiters
    /// ([`SPECIAL`](crate::encode::SPECIAL)).
    fn delimiter(&mut self, token: &str) -> (out: Result<u32, Error>)
        ensures
            Self::delimits(token@, out),
            Self::keeps_account() ==> final(self).calls() == old(self).calls().push(
                Call::Delimiter(token@, out),
            ),
    ;

    /// Hidden states at `pass.readout`, in that order.
    ///
    /// The mask is [`Pass::attends`], the position ids are `pass.positions`, and
    /// the last layer's output is what the pointer head reads, not logits over
    /// the vocabulary. A backend that cannot honour the mask runs
    /// [`Pass::rows`].
    fn hidden(&mut self, pass: &Pass<'_>) -> (out: Result<Vec<Self::State>, Error>)
        ensures
            Self::computes(pass@, states_of(out)),
            Self::keeps_account() ==> final(self).calls() == old(self).calls().push(
                Call::Pass(pass@, states_of(out)),
            ),
    ;

    /// Hidden states for several passes at once. Left alone it runs one pass
    /// after the other, yields hidden states for each of them, and stops at the first
    /// that fails; a backend that can share work between them overrides it.
    fn hidden_batch(&mut self, passes: &[Pass<'_>]) -> (out: Result<Vec<Vec<Self::State>>, Error>)
        ensures
            Self::keeps_account() ==> exists|made: Seq<Call<Self::State>>|
                #[trigger] batch_calls(pass_views(passes@), lists_of(out), made)
                    && final(self).calls() == old(self).calls() + made,
            out matches Ok(all) ==> forall|i: int|
                0 <= i < all@.len() && i < passes@.len() ==> Self::computes(
                    passes@[i]@,
                    Ok((#[trigger] all@[i])@),
                ),
            Self::computes_batch(pass_views(passes@), lists_of(out)) || match out {
                Ok(all) => all@.len() == passes@.len(),
                Err(e) => exists|i: int|
                    0 <= i < passes@.len() && Self::computes((#[trigger] passes@[i])@, Err(e)),
            },
        default_ensures
            out matches Ok(all) ==> all@.len() == passes@.len(),
            out matches Err(e) ==> exists|before: Seq<Seq<Self::State>>|
                {
                    &&& before.len() < passes@.len()
                    &&& forall|i: int|
                        0 <= i < before.len() ==> Self::computes(
                            passes@[i]@,
                            Ok(#[trigger] before[i]),
                        )
                    &&& Self::computes((#[trigger] passes@[before.len() as int])@, Err(e))
                },
    {
        let ghost views = pass_views(passes@);
        let ghost begun = self.calls();
        let mut all: Vec<Vec<Self::State>> = Vec::new();
        let ghost mut done: Seq<Seq<Self::State>> = Seq::empty();
        assert(self.calls() =~= begun + pass_calls(views, done));
        for i in 0..passes.len()
            invariant
                views == pass_views(passes@),
                begun == old(self).calls(),
                all@.len() == i,
                done == Seq::new(all@.len(), |j: int| all@[j]@),
                Self::keeps_account() ==> self.calls() == begun + pass_calls(views, done),
                forall|j: int|
                    0 <= j < i ==> Self::computes(passes@[j]@, Ok((#[trigger] all@[j])@)),
        {
            match self.hidden(&passes[i]) {
                Ok(states) => {
                    proof {
                        let before = done;
                        done = done.push(states@);
                        assert(pass_calls(views, done) =~= pass_calls(views, before).push(
                            Call::Pass(views[i as int], Ok(states@)),
                        ));
                        assert(Self::keeps_account() ==> self.calls() =~= begun + pass_calls(
                            views,
                            done,
                        ));
                    }
                    all.push(states);
                    assert(done =~= Seq::new(all@.len(), |j: int| all@[j]@));
                },
                Err(e) => {
                    proof {
                        assert(Self::computes(passes@[done.len() as int]@, Err(e)));
                        let made = pass_calls(views, done).push(
                            Call::Pass(views[done.len() as int], Err(e)),
                        );
                        assert(batch_calls(views, Err::<Seq<Seq<Self::State>>, Error>(e), made));
                        assert(Self::keeps_account() ==> self.calls() =~= begun + made);
                    }
                    return Err(e);
                },
            }
        }
        assert(batch_calls(views, Ok::<Seq<Seq<Self::State>>, Error>(done), pass_calls(views, done)));
        Ok(all)
    }
}

/// A backend with an account of what it is asked. The account is kept for proofs alone,
/// and takes nothing when the backend runs.
pub struct Accounted<F: Forward> {
    pub inner: F,
    pub log: Ghost<Seq<Call<F::State>>>,
}

impl<F: Forward> Accounted<F> {
    /// A backend that was asked nothing yet.
    pub fn new(inner: F) -> (out: Self)
        ensures
            out.inner == inner,
            out.calls() == Seq::<Call<F::State>>::empty(),
    {
        Accounted { inner, log: Ghost(Seq::empty()) }
    }
}

impl<F: Forward> Forward for Accounted<F> {
    type State = F::State;

    open spec fn keeps_account() -> bool {
        true
    }

    open spec fn calls(&self) -> Seq<Call<F::State>> {
        self.log@
    }

    open spec fn tokenises(text: Seq<char>, out: Result<Seq<u32>, Error>) -> bool {
        F::tokenises(text, out)
    }

    open spec fn delimits(token: Seq<char>, out: Result<u32, Error>) -> bool {
        F::delimits(token, out)
    }

    open spec fn computes(pass: PassView, out: Result<Seq<F::State>, Error>) -> bool {
        F::computes(pass, out)
    }

    open spec fn computes_batch(
        passes: Seq<PassView>,
        out: Result<Seq<Seq<F::State>>, Error>,
    ) -> bool {
        F::computes_batch(passes, out)
    }

    fn tokenise(&mut self, text: &str) -> (out: Result<Vec<u32>, Error>) {
        let out = self.inner.tokenise(text);
        self.log = Ghost(self.log@.push(Call::Text(text@, tokens_of(out))));
        out
    }

    fn delimiter(&mut self, token: &str) -> (out: Result<u32, Error>) {
        let out = self.inner.delimiter(token);
        self.log = Ghost(self.log@.push(Call::Delimiter(token@, out)));
        out
    }

    fn hidden(&mut self, pass: &Pass<'_>) -> (out: Result<Vec<F::State>, Error>) {
        let out = self.inner.hidden(pass);
        self.log = Ghost(self.log@.push(Call::Pass(pass@, states_of(out))));
        out
    }

    fn hidden_batch(&mut self, passes: &[Pass<'_>]) -> (out: Result<Vec<Vec<F::State>>, Error>) {
        let out = self.inner.hidden_batch(passes);
        let ghost made = seq![Call::Batch(pass_views(passes@), lists_of(out))];
        self.log = Ghost(self.log@ + made);
        assert(batch_calls(pass_views(passes@), lists_of(out), made));
        out
    }
}

// ---------------------------------------------------------------------------
// The account of calls
// ---------------------------------------------------------------------------

/// Between these two moments a backend was asked this and answered so, as far as it
/// keeps an account.
pub open spec fn accounts<F: Forward>(before: F, after: F, made: Seq<Call<F::State>>) -> bool {
    F::keeps_account() ==> after.calls() == before.calls() + made
}

/// What was asked first, and what was asked then.
pub proof fn lemma_accounts_join<F: Forward>(
    before: F,
    mid: F,
    after: F,
    first: Seq<Call<F::State>>,
    second: Seq<Call<F::State>>,
)
    requires
        accounts(before, mid, first),
        accounts(mid, after, second),
    ensures
        accounts(before, after, first + second),
{
    assert(before.calls() + first + second =~= before.calls() + (first + second));
}

/// Texts that were all read, each with its tokens.
pub open spec fn text_calls<H>(due: Seq<Seq<char>>, read: Seq<Seq<u32>>) -> Seq<Call<H>> {
    Seq::new(read.len(), |i: int| Call::Text(due[i], Ok(read[i])))
}

/// Texts up to the first that failed, and how it did.
pub open spec fn stopped_calls<H>(
    due: Seq<Seq<char>>,
    read: Seq<Seq<u32>>,
    e: Error,
) -> Seq<Call<H>> {
    text_calls(due, read).push(Call::Text(due[read.len() as int], Err(e)))
}

/// The texts of a question, as the backend is given them: escaped, the instructions
/// first, then every option.
pub open spec fn ask_due(ask: AskText) -> Seq<Seq<char>> {
    seq![encode::escaped(ask.instructions)] + Seq::new(
        ask.options.len(),
        |j: int| encode::escaped(ask.options[j]),
    )
}

/// The tokens of a question, in the order of its texts.
pub open spec fn ask_read(tokens: AskView) -> Seq<Seq<u32>> {
    seq![tokens.instructions] + tokens.options
}

/// The first of these questions, read one after the other: their texts, each with its
/// tokens.
pub open spec fn ask_calls<H>(asks: Seq<AskText>, tokens: Seq<AskView>) -> Seq<Call<H>>
    decreases tokens.len(),
{
    if tokens.len() == 0 {
        Seq::empty()
    } else {
        ask_calls(asks, tokens.drop_last()) + text_calls(
            ask_due(asks[tokens.len() - 1]),
            ask_read(tokens.last()),
        )
    }
}

/// A record, read up to some question: the state first, then every question.
pub open spec fn record_calls<H>(
    state: Seq<char>,
    asks: Seq<AskText>,
    state_tokens: Seq<u32>,
    tokens: Seq<AskView>,
) -> Seq<Call<H>> {
    seq![Call::Text(encode::escaped(state), Ok(state_tokens))] + ask_calls(asks, tokens)
}

/// The delimiters, in the order in which their ids are asked for.
pub open spec fn delimiter_texts() -> Seq<Seq<char>> {
    seq![STATE@, QUESTION@, OPTION@, OPTION_END@, DECIDE@]
}

/// The ids of the delimiters, in that order.
pub open spec fn delimiter_ids(d: Delimiters) -> Seq<u32> {
    seq![d.state, d.question, d.option, d.option_end, d.decide]
}

/// The first delimiters, each with its id.
pub open spec fn delimiter_calls<H>(ids: Seq<u32>) -> Seq<Call<H>> {
    Seq::new(ids.len(), |i: int| Call::Delimiter(delimiter_texts()[i], Ok(ids[i])))
}

// ---------------------------------------------------------------------------
// Encoding
// ---------------------------------------------------------------------------

/// The backend may give the delimiters these ids.
pub open spec fn delimited<F: Forward>(d: Delimiters) -> bool {
    forall|i: int|
        0 <= i < 5 ==> F::delimits(delimiter_texts()[i], Ok(#[trigger] delimiter_ids(d)[i]))
}

/// The backend gave the first delimiters ids, and has none for the next so.
pub open spec fn undelimited<F: Forward>(made: Seq<Call<F::State>>, e: Error) -> bool {
    exists|ids: Seq<u32>|
        {
            &&& ids.len() < 5
            &&& forall|i: int|
                0 <= i < ids.len() ==> F::delimits(delimiter_texts()[i], Ok(#[trigger] ids[i]))
            &&& F::delimits(delimiter_texts()[ids.len() as int], Err(e))
            &&& made == (#[trigger] delimiter_calls::<F::State>(ids)).push(
                Call::Delimiter(delimiter_texts()[ids.len() as int], Err(e)),
            )
        }
}

/// The backend may tokenise this text, once it is escaped, so.
pub open spec fn reads_text<F: Forward>(t: Seq<char>, out: Result<Seq<u32>, Error>) -> bool {
    F::tokenises(encode::escaped(t), out)
}

/// The backend may tokenise this question so.
pub open spec fn reads_ask<F: Forward>(ask: AskText, tokens: AskView) -> bool {
    &&& reads_text::<F>(ask.instructions, Ok(tokens.instructions))
    &&& tokens.options.len() == ask.options.len()
    &&& forall|j: int|
        0 <= j < ask.options.len() ==> reads_text::<F>(
            ask.options[j],
            Ok(#[trigger] tokens.options[j]),
        )
}

/// The backend may read the first texts of this question so, and fail so on the next.
pub open spec fn fails_ask<F: Forward>(ask: AskText, read: Seq<Seq<u32>>, e: Error) -> bool {
    let due = ask_due(ask);
    &&& read.len() < due.len()
    &&& forall|i: int| 0 <= i < read.len() ==> F::tokenises(due[i], Ok(#[trigger] read[i]))
    &&& F::tokenises(due[read.len() as int], Err(e))
}

/// The backend may tokenise the first of these questions so.
pub open spec fn reads_first<F: Forward>(asks: Seq<AskText>, tokens: Seq<AskView>) -> bool {
    tokens.len() <= asks.len() && forall|k: int|
        0 <= k < tokens.len() ==> reads_ask::<F>(asks[k], #[trigger] tokens[k])
}

/// The backend may tokenise every question so.
pub open spec fn reads_asks<F: Forward>(asks: Seq<AskText>, tokens: Seq<AskView>) -> bool {
    tokens.len() == asks.len() && reads_first::<F>(asks, tokens)
}

/// `e` is the layout of this record in the tokens that the backend gave.
pub open spec fn encodes<F: Forward>(
    state: Seq<char>,
    asks: Seq<AskText>,
    d: Delimiters,
    limits: Limits,
    isolate: bool,
    made: Seq<Call<F::State>>,
    e: EncodingView,
) -> bool {
    limits.usable() && exists|state_tokens: Seq<u32>, ask_tokens: Seq<AskView>|
        #![trigger reads_text::<F>(state, Ok(state_tokens)), reads_asks::<F>(asks, ask_tokens)]
        {
            let ids = encode::state_ids(d, limits, state_tokens);
            &&& reads_text::<F>(state, Ok(state_tokens))
            &&& reads_asks::<F>(asks, ask_tokens)
            &&& encode::all_fit(limits, isolate, ids.len() as int, ask_tokens)
            &&& e == encode::layout(d, isolate, ids, ask_tokens)
            &&& made == record_calls::<F::State>(state, asks, state_tokens, ask_tokens)
        }
}

/// The backend read the state and the first questions, which all fit, and failed so on
/// a text of the next.
pub open spec fn text_fails<F: Forward>(
    state: Seq<char>,
    asks: Seq<AskText>,
    d: Delimiters,
    limits: Limits,
    isolate: bool,
    made: Seq<Call<F::State>>,
    e: Error,
) -> bool {
    exists|state_tokens: Seq<u32>, ask_tokens: Seq<AskView>, read: Seq<Seq<u32>>|
        #![trigger reads_text::<F>(state, Ok(state_tokens)), reads_first::<F>(asks, ask_tokens), fails_ask::<F>(
            asks[ask_tokens.len() as int],
            read,
            e,
        )]
        {
            let len = encode::state_ids(d, limits, state_tokens).len() as int;
            &&& reads_text::<F>(state, Ok(state_tokens))
            &&& ask_tokens.len() < asks.len()
            &&& reads_first::<F>(asks, ask_tokens)
            &&& encode::all_fit(limits, isolate, len, ask_tokens)
            &&& fails_ask::<F>(asks[ask_tokens.len() as int], read, e)
            &&& made == record_calls::<F::State>(state, asks, state_tokens, ask_tokens)
                + stopped_calls::<F::State>(ask_due(asks[ask_tokens.len() as int]), read, e)
        }
}

/// The backend read the state and the first questions, all of which fit but the last,
/// and `e` says why that one does not.
pub open spec fn ask_refused<F: Forward>(
    state: Seq<char>,
    asks: Seq<AskText>,
    d: Delimiters,
    limits: Limits,
    isolate: bool,
    made: Seq<Call<F::State>>,
    e: Error,
) -> bool {
    exists|state_tokens: Seq<u32>, ask_tokens: Seq<AskView>|
        #![trigger reads_text::<F>(state, Ok(state_tokens)), reads_first::<F>(asks, ask_tokens)]
        {
            let len = encode::state_ids(d, limits, state_tokens).len() as int;
            &&& reads_text::<F>(state, Ok(state_tokens))
            &&& ask_tokens.len() > 0
            &&& reads_first::<F>(asks, ask_tokens)
            &&& encode::all_fit(limits, isolate, len, ask_tokens.drop_last())
            &&& !(encode::isolable(isolate, ask_tokens.last()) && encode::fits(
                limits,
                len,
                ask_tokens.last(),
            ))
            &&& encode::refusal(limits, isolate, len, ask_tokens.last(), e)
            &&& made == record_calls::<F::State>(state, asks, state_tokens, ask_tokens)
        }
}

/// `e` says why this record cannot be laid out: the limits leave no room, and the
/// backend is asked nothing; the backend fails on one of its texts; or one of its
/// questions is the first that does not fit. Nothing is asked behind that.
pub open spec fn encoding_fails<F: Forward>(
    state: Seq<char>,
    asks: Seq<AskText>,
    d: Delimiters,
    limits: Limits,
    isolate: bool,
    made: Seq<Call<F::State>>,
    e: Error,
) -> bool {
    if !limits.usable() {
        e.is_engine(encode::unusable_message(limits)) && made.len() == 0
    } else {
        ||| reads_text::<F>(state, Err(e)) && made == seq![
            Call::<F::State>::Text(encode::escaped(state), Err(e)),
        ]
        ||| text_fails::<F>(state, asks, d, limits, isolate, made, e)
        ||| ask_refused::<F>(state, asks, d, limits, isolate, made, e)
    }
}

fn delimiter<F: Forward>(
    backend: &mut F,
    token: &str,
    before: Ghost<F>,
    ids: Ghost<Seq<u32>>,
) -> (out: Result<u32, Error>)
    requires
        ids@.len() < 5,
        token@ == delimiter_texts()[ids@.len() as int],
        forall|i: int|
            0 <= i < ids@.len() ==> F::delimits(delimiter_texts()[i], Ok(#[trigger] ids@[i])),
        accounts(before@, *old(backend), delimiter_calls::<F::State>(ids@)),
    ensures
        match out {
            Ok(id) => {
                &&& F::delimits(token@, Ok(id))
                &&& accounts(before@, *final(backend), delimiter_calls::<F::State>(ids@.push(id)))
            },
            Err(e) => exists|made: Seq<Call<F::State>>|
                #[trigger] accounts(before@, *final(backend), made) && undelimited::<F>(made, e),
        },
{
    let ghost so_far = *backend;
    let out = backend.delimiter(token);
    proof {
        let first = delimiter_calls::<F::State>(ids@);
        let last = Call::Delimiter(token@, out);
        assert(so_far.calls().push(last) =~= so_far.calls() + seq![last]);
        lemma_accounts_join(before@, so_far, *backend, first, seq![last]);
        if out is Ok {
            let more = ids@.push(out->Ok_0);
            assert(first + seq![last] =~= delimiter_calls::<F::State>(more));
        } else {
            assert(first + seq![last] =~= first.push(last));
            assert(undelimited::<F>(first.push(last), out->Err_0));
        }
    }
    out
}

fn delimiters<F: Forward>(backend: &mut F) -> (out: Result<Delimiters, Error>)
    ensures
        match out {
            Ok(d) => delimited::<F>(d) && accounts(
                *old(backend),
                *final(backend),
                delimiter_calls::<F::State>(delimiter_ids(d)),
            ),
            Err(e) => exists|made: Seq<Call<F::State>>|
                #[trigger] accounts(*old(backend), *final(backend), made) && undelimited::<F>(
                    made,
                    e,
                ),
        },
{
    let ghost begun = *backend;
    let ghost none = Seq::<u32>::empty();
    assert(begun.calls() + delimiter_calls::<F::State>(none) =~= begun.calls());
    let state: u32 = match delimiter(backend, STATE, Ghost(begun), Ghost(none)) {
        Ok(id) => id,
        Err(e) => {
            return Err(e);
        },
    };
    let ghost one = none.push(state);
    let question: u32 = match delimiter(backend, QUESTION, Ghost(begun), Ghost(one)) {
        Ok(id) => id,
        Err(e) => {
            return Err(e);
        },
    };
    let ghost two = one.push(question);
    let option: u32 = match delimiter(backend, OPTION, Ghost(begun), Ghost(two)) {
        Ok(id) => id,
        Err(e) => {
            return Err(e);
        },
    };
    let ghost three = two.push(option);
    let option_end: u32 = match delimiter(backend, OPTION_END, Ghost(begun), Ghost(three)) {
        Ok(id) => id,
        Err(e) => {
            return Err(e);
        },
    };
    let ghost four = three.push(option_end);
    let decide: u32 = match delimiter(backend, DECIDE, Ghost(begun), Ghost(four)) {
        Ok(id) => id,
        Err(e) => {
            return Err(e);
        },
    };
    let d = Delimiters { state, question, option, option_end, decide };
    assert(four.push(decide) =~= delimiter_ids(d));
    Ok(d)
}

fn read_text<F: Forward>(backend: &mut F, caller: &str) -> (out: Result<Vec<u32>, Error>)
    ensures
        reads_text::<F>(caller@, tokens_of(out)),
        accounts(
            *old(backend),
            *final(backend),
            seq![Call::<F::State>::Text(encode::escaped(caller@), tokens_of(out))],
        ),
{
    let ghost begun = backend.calls();
    let out = backend.tokenise(encode::escape_specials(caller).as_str());
    proof {
        let last = Call::<F::State>::Text(encode::escaped(caller@), tokens_of(out));
        assert(begun.push(last) =~= begun + seq![last]);
    }
    out
}

/// One more text of a question is read, or the first that is not.
proof fn lemma_text_read<F: Forward>(
    before: F,
    mid: F,
    after: F,
    ask: AskText,
    read: Seq<Seq<u32>>,
    out: Result<Seq<u32>, Error>,
)
    requires
        read.len() < ask_due(ask).len(),
        forall|i: int|
            0 <= i < read.len() ==> F::tokenises(ask_due(ask)[i], Ok(#[trigger] read[i])),
        F::tokenises(ask_due(ask)[read.len() as int], out),
        accounts(before, mid, text_calls::<F::State>(ask_due(ask), read)),
        accounts(
            mid,
            after,
            seq![Call::<F::State>::Text(ask_due(ask)[read.len() as int], out)],
        ),
    ensures
        match out {
            Ok(tokens) => accounts(
                before,
                after,
                text_calls::<F::State>(ask_due(ask), read.push(tokens)),
            ),
            Err(e) => fails_ask::<F>(ask, read, e) && accounts(
                before,
                after,
                stopped_calls::<F::State>(ask_due(ask), read, e),
            ),
        },
{
    let due = ask_due(ask);
    let first = text_calls::<F::State>(due, read);
    let last = seq![Call::<F::State>::Text(due[read.len() as int], out)];
    lemma_accounts_join(before, mid, after, first, last);
    match out {
        Ok(tokens) => {
            assert(first + last =~= text_calls::<F::State>(due, read.push(tokens)));
        },
        Err(e) => {
            assert(first + last =~= stopped_calls::<F::State>(due, read, e));
        },
    }
}

fn read_ask<F: Forward>(backend: &mut F, ask: &Ask) -> (out: Result<AskTokens, Error>)
    ensures
        match out {
            Ok(tokens) => reads_ask::<F>(ask@, tokens@) && accounts(
                *old(backend),
                *final(backend),
                text_calls::<F::State>(ask_due(ask@), ask_read(tokens@)),
            ),
            Err(e) => exists|read: Seq<Seq<u32>>|
                #[trigger] fails_ask::<F>(ask@, read, e) && accounts(
                    *old(backend),
                    *final(backend),
                    stopped_calls::<F::State>(ask_due(ask@), read, e),
                ),
        },
{
    let ghost due = ask_due(ask@);
    let ghost begun = *backend;
    let ghost mut read: Seq<Seq<u32>> = Seq::empty();
    proof {
        assert(begun.calls() + text_calls::<F::State>(due, read) =~= begun.calls());
        assert(due[0] == encode::escaped(ask@.instructions));
    }
    let first = read_text(backend, ask.instructions.as_str());
    proof {
        lemma_text_read(begun, begun, *backend, ask@, read, tokens_of(first));
    }
    let instructions = match first {
        Ok(tokens) => tokens,
        Err(e) => {
            return Err(e);
        },
    };
    let mut options: Vec<Vec<u32>> = Vec::new();
    proof {
        read = read.push(instructions@);
    }
    for j in 0..ask.options.len()
        invariant
            due == ask_due(ask@),
            begun == *old(backend),
            read.len() == j + 1,
            read[0] == instructions@,
            reads_text::<F>(ask@.instructions, Ok(instructions@)),
            forall|i: int| 0 <= i < read.len() ==> F::tokenises(due[i], Ok(#[trigger] read[i])),
            accounts(begun, *backend, text_calls::<F::State>(due, read)),
            options@.len() == j,
            forall|i: int|
                0 <= i < j ==> (#[trigger] options@[i])@ == read[i + 1] && reads_text::<F>(
                    ask@.options[i],
                    Ok(options@[i]@),
                ),
    {
        let ghost so_far = *backend;
        let next = read_text(backend, ask.options[j].as_str());
        proof {
            assert(due[j + 1] == encode::escaped(ask@.options[j as int]));
            lemma_text_read(begun, so_far, *backend, ask@, read, tokens_of(next));
        }
        match next {
            Ok(tokens) => {
                proof {
                    read = read.push(tokens@);
                }
                options.push(tokens);
            },
            Err(e) => {
                return Err(e);
            },
        }
    }
    let tokens = AskTokens { instructions, options };
    assert(ask_read(tokens@) =~= read);
    Ok(tokens)
}

/// Pack one record into tokens, positions, segments and readout indices.
///
/// The texts are escaped before the backend sees them, so a tokenizer that treats
/// `<|...|>` as literal text is enough. The state is truncated to fit `limits`; a
/// question whose branch does not fit is a request error, not a silently shortened
/// prompt.
pub fn encode_record<F: Forward>(
    backend: &mut F,
    record: &Record,
    d: &Delimiters,
    limits: Limits,
    isolate: bool,
) -> (out: Result<Encoding, Error>)
    requires
        record.questions@.len() < u32::MAX,
    ensures
        exists|made: Seq<Call<F::State>>|
            #[trigger] accounts(*old(backend), *final(backend), made) && match out {
                Ok(e) => encodes::<F>(
                    record.state@,
                    prompt::ask_texts(record.questions@),
                    *d,
                    limits,
                    isolate,
                    made,
                    e@,
                ),
                Err(e) => encoding_fails::<F>(
                    record.state@,
                    prompt::ask_texts(record.questions@),
                    *d,
                    limits,
                    isolate,
                    made,
                    e,
                ),
            },
        !limits.usable() ==> *final(backend) == *old(backend),
{
    let ghost begun = *backend;
    if limits.max_state < 2 || limits.max_branch < limits.max_state {
        let mut message = "a context of ".to_owned();
        message.append(text::decimal_text(limits.max_state).as_str());
        message.append(" state tokens and ");
        message.append(text::decimal_text(limits.max_branch).as_str());
        message.append(" per row is not usable");
        proof {
            let made = Seq::<Call<F::State>>::empty();
            assert(begun.calls() + made =~= begun.calls());
            assert(accounts(begun, *backend, made));
        }
        return Err(Error::Engine(message));
    }
    let ghost asks = prompt::ask_texts(record.questions@);
    let first = read_text(backend, record.state.as_str());
    let state = match first {
        Ok(tokens) => tokens,
        Err(e) => {
            return Err(e);
        },
    };
    let mut packed = encode::lay_state(&state, d, limits, isolate);
    let state_len: usize = packed.ids.len();
    let ghost ids = encode::state_ids(*d, limits, state@);
    let ghost mut read: Seq<AskView> = Seq::empty();
    proof {
        assert(packed.decide@.len() == packed@.decide.len());
        assert(record_calls::<F::State>(record.state@, asks, state@, read) =~= seq![
            Call::<F::State>::Text(encode::escaped(record.state@), Ok(state@)),
        ]);
    }
    for k in 0..record.questions.len()
        invariant
            limits.usable(),
            begun == *old(backend),
            accounts(begun, *backend, record_calls::<F::State>(record.state@, asks, state@, read)),
            record.questions@.len() < u32::MAX,
            asks == prompt::ask_texts(record.questions@),
            ids == encode::state_ids(*d, limits, state@),
            reads_text::<F>(record.state@, Ok(state@)),
            state_len == ids.len(),
            state_len <= limits.max_branch,
            packed.decide@.len() == k,
            read.len() == k,
            reads_first::<F>(asks, read),
            encode::all_fit(limits, isolate, ids.len() as int, read),
            packed@ == encode::layout(*d, isolate, ids, read),
    {
        let ghost so_far = *backend;
        let ghost earlier = record_calls::<F::State>(record.state@, asks, state@, read);
        let tokenised = read_ask(backend, &record.questions[k]);
        let ask = match tokenised {
            Ok(tokens) => tokens,
            Err(e) => {
                proof {
                    let part = choose|part: Seq<Seq<u32>>|
                        #[trigger] fails_ask::<F>(asks[k as int], part, e) && accounts(
                            so_far,
                            *backend,
                            stopped_calls::<F::State>(ask_due(asks[k as int]), part, e),
                        );
                    let last = stopped_calls::<F::State>(ask_due(asks[k as int]), part, e);
                    lemma_accounts_join(begun, so_far, *backend, earlier, last);
                    assert(fails_ask::<F>(asks[read.len() as int], part, e));
                    assert(text_fails::<F>(
                        record.state@,
                        asks,
                        *d,
                        limits,
                        isolate,
                        earlier + last,
                        e,
                    ));
                }
                return Err(e);
            },
        };
        let ghost before = read;
        proof {
            assert(reads_ask::<F>(asks[k as int], ask@));
            let last = text_calls::<F::State>(ask_due(asks[k as int]), ask_read(ask@));
            lemma_accounts_join(begun, so_far, *backend, earlier, last);
            read = read.push(ask@);
            assert(read.drop_last() == before);
            assert(earlier + last =~= record_calls::<F::State>(
                record.state@,
                asks,
                state@,
                read,
            ));
            assert forall|j: int| 0 <= j < read.len() implies reads_ask::<F>(
                asks[j],
                #[trigger] read[j],
            ) by {
                if j < before.len() {
                    assert(before[j] == read[j]);
                }
            }
            assert(reads_first::<F>(asks, read));
        }
        match packed.lay_branch(&ask, d, limits, isolate, state_len) {
            Ok(_) => {},
            Err(e) => {
                assert(read.last() == ask@);
                assert(ask_refused::<F>(
                    record.state@,
                    asks,
                    *d,
                    limits,
                    isolate,
                    record_calls::<F::State>(record.state@, asks, state@, read),
                    e,
                ));
                return Err(e);
            },
        }
        proof {
            assert forall|j: int| 0 <= j < read.len() implies encode::isolable(
                isolate,
                #[trigger] read[j],
            ) && encode::fits(limits, ids.len() as int, read[j]) by {
                if j < before.len() {
                    assert(before[j] == read[j]);
                }
            }
            assert(packed@ == encode::layout(*d, isolate, ids, read));
            assert(packed.decide@.len() == packed@.decide.len());
        }
    }
    assert(reads_asks::<F>(asks, read));
    Ok(packed)
}

// ---------------------------------------------------------------------------
// From hidden states to distributions
// ---------------------------------------------------------------------------

/// How many readout positions the first `k` questions contribute: `<decide>` and
/// one per option each.
pub open spec fn block_at(options: Seq<Seq<int>>, k: int) -> int
    decreases k,
{
    if k <= 0 {
        0
    } else {
        block_at(options, k - 1) + 1 + options[k - 1].len()
    }
}

/// The readout holds as many positions as the questions contribute.
pub proof fn lemma_readout_len(e: EncodingView, n: int)
    requires
        0 <= n <= e.decide.len(),
        n <= e.options.len(),
    ensures
        encode::readout_of(e, n).len() == block_at(e.options, n),
    decreases n,
{
    if n > 0 {
        lemma_readout_len(e, n - 1);
    }
}

proof fn lemma_block_at(options: Seq<Seq<int>>, j: int, k: int)
    requires
        0 <= j <= k <= options.len(),
    ensures
        0 <= block_at(options, j) <= block_at(options, k),
    decreases k,
{
    if j < k {
        lemma_block_at(options, j, k - 1);
    } else if j > 0 {
        lemma_block_at(options, j - 1, j - 1);
    }
}

/// What is said of a backend that returns another number of hidden states than it
/// was asked for.
pub open spec fn states_message(got: nat, wanted: nat) -> Seq<char> {
    "the backend returned "@ + text::decimal(got) + " hidden states for "@ + text::decimal(wanted)
        + " readout positions"@
}

/// `score` may make this of the hidden states of one question, whose `<decide>`
/// stands at `at` with `n` options behind it.
pub open spec fn scores<H, S: Fn(Kind, &H, &[H]) -> Result<Distribution, Error>>(
    score: S,
    kind: Kind,
    states: Seq<H>,
    at: int,
    n: int,
    out: Result<Distribution, Error>,
) -> bool {
    exists|options: &[H]|
        options@ == states.subrange(at + 1, at + 1 + n) && #[trigger] call_ensures(
            score,
            (kind, &states[at], options),
            out,
        )
}

/// `score` may make these distributions of the hidden states of these questions.
pub open spec fn scores_all<H, S: Fn(Kind, &H, &[H]) -> Result<Distribution, Error>>(
    score: S,
    plans: Seq<PlanView>,
    options: Seq<Seq<int>>,
    states: Seq<H>,
    out: Seq<Distribution>,
) -> bool {
    out.len() == plans.len() && forall|k: int|
        0 <= k < plans.len() ==> scores(
            score,
            plans[k].kind,
            states,
            block_at(options, k),
            options[k].len() as int,
            Ok(#[trigger] out[k]),
        )
}

/// `score` may fail on one of these questions so.
pub open spec fn scoring_fails<H, S: Fn(Kind, &H, &[H]) -> Result<Distribution, Error>>(
    score: S,
    plans: Seq<PlanView>,
    options: Seq<Seq<int>>,
    states: Seq<H>,
    e: Error,
) -> bool {
    exists|k: int|
        0 <= k < plans.len() && scores(
            score,
            (#[trigger] plans[k]).kind,
            states,
            block_at(options, k),
            options[k].len() as int,
            Err(e),
        )
}

/// One distribution per question, from the hidden states that the readout asked
/// for: each question's `<decide>` first, then one `</opt>` per option.
pub fn distributions<H, S: Fn(Kind, &H, &[H]) -> Result<Distribution, Error>>(
    encoding: &Encoding,
    hidden: &Vec<H>,
    plans: &[Plan],
    score: &S,
) -> (out: Result<Vec<Distribution>, Error>)
    requires
        encoding.decide@.len() == plans@.len(),
        encoding.options@.len() == plans@.len(),
        forall|kind: Kind, decide: &H, options: &[H]|
            call_requires(*score, (kind, decide, options)),
    ensures
        ({
            let wanted = block_at(encoding@.options, plans@.len() as int);
            let views = prompt::plan_views(plans@);
            match out {
                Ok(ds) => hidden@.len() == wanted && scores_all(
                    *score,
                    views,
                    encoding@.options,
                    hidden@,
                    ds@,
                ),
                Err(e) => if hidden@.len() != wanted {
                    e.is_engine(states_message(hidden@.len(), wanted as nat))
                } else {
                    scoring_fails(*score, views, encoding@.options, hidden@, e)
                },
            }
        }),
{
    let readout = encoding.readout();
    let ghost asked = encoding@.options;
    let ghost views = prompt::plan_views(plans@);
    proof {
        lemma_readout_len(encoding@, plans@.len() as int);
        assert(readout@.len() == encode::ints(readout@).len());
    }
    if hidden.len() != readout.len() {
        let mut message = "the backend returned ".to_owned();
        message.append(text::decimal_text(hidden.len()).as_str());
        message.append(" hidden states for ");
        message.append(text::decimal_text(readout.len()).as_str());
        message.append(" readout positions");
        return Err(Error::Engine(message));
    }
    let mut out: Vec<Distribution> = Vec::new();
    let total: usize = hidden.len();
    let mut at: usize = 0;
    for k in 0..plans.len()
        invariant
            encoding.options@.len() == plans@.len(),
            asked == encoding@.options,
            views == prompt::plan_views(plans@),
            forall|kind: Kind, decide: &H, options: &[H]|
                call_requires(*score, (kind, decide, options)),
            total == hidden@.len(),
            total == block_at(asked, plans@.len() as int),
            at == block_at(asked, k as int),
            out@.len() == k,
            forall|j: int|
                0 <= j < k ==> scores(
                    *score,
                    views[j].kind,
                    hidden@,
                    block_at(asked, j),
                    asked[j].len() as int,
                    Ok(#[trigger] out@[j]),
                ),
    {
        let n: usize = encoding.options[k].len();
        proof {
            assert(asked[k as int].len() == n);
            lemma_block_at(asked, k + 1, plans@.len() as int);
            lemma_block_at(asked, k as int, k + 1);
        }
        let options = slice_subrange(hidden.as_slice(), at + 1, at + 1 + n);
        let result = score(plans[k].kind, &hidden[at], options);
        assert(scores(*score, views[k as int].kind, hidden@, at as int, n as int, result));
        match result {
            Ok(distribution) => out.push(distribution),
            Err(e) => {
                assert(scoring_fails(*score, views, asked, hidden@, e));
                return Err(e);
            },
        }
        at = at + 1 + n;
    }
    Ok(out)
}

// ---------------------------------------------------------------------------
// From distributions to answers
// ---------------------------------------------------------------------------

/// The answers to these questions, each under its id.
pub open spec fn answered(plans: Seq<PlanView>, ds: Seq<Distribution>) -> Seq<
    (Seq<char>, AnswerView),
>
    decreases plans.len(),
{
    if plans.len() == 0 {
        Seq::empty()
    } else {
        table::put(
            answered(plans.drop_last(), ds),
            plans.last().id,
            readout::answer_of(plans.last(), ds[plans.len() - 1]),
        )
    }
}

/// Every distribution has as many probabilities as its question has keys.
pub open spec fn ds_fit(plans: Seq<PlanView>, ds: Seq<Distribution>) -> bool {
    forall|k: int|
        0 <= k < plans.len() ==> (#[trigger] ds[k]).options@.len() == plans[k].keys.len()
}

/// `e` names a question whose distribution has another number of probabilities
/// than the question has keys.
pub open spec fn misfits(plans: Seq<PlanView>, ds: Seq<Distribution>, e: Error) -> bool {
    exists|k: int|
        0 <= k < plans.len() && (#[trigger] ds[k]).options@.len() != plans[k].keys.len()
            && e.is_engine(readout::misfit_message(plans[k], ds[k].options@.len()))
}

/// Every question can be answered from the options it has.
pub open spec fn all_answerable(plans: Seq<PlanView>) -> bool {
    forall|k: int|
        0 <= k < plans.len() ==> readout::answerable(
            (#[trigger] plans[k]).kind,
            plans[k].keys.len(),
        )
}

/// The answers to these questions, in the order of the questions.
pub fn answers(ds: &[Distribution], plans: &[Plan]) -> (out: Result<Table<Answer>, Error>)
    requires
        ds@.len() == plans@.len(),
        all_answerable(prompt::plan_views(plans@)),
    ensures
        ({
            let views = prompt::plan_views(plans@);
            &&& out is Ok <==> ds_fit(views, ds@)
            &&& out matches Ok(t) ==> readout::answer_views(t@) == answered(views, ds@)
            &&& out matches Err(e) ==> misfits(views, ds@, e)
        }),
{
    let mut out: Table<Answer> = Table::new();
    let ghost views = prompt::plan_views(plans@);
    let ghost shown = |a: Answer| a@;
    assert(views.take(0) == Seq::<PlanView>::empty());
    assert(readout::answer_views(out@) == answered(views.take(0), ds@));
    for k in 0..plans.len()
        invariant
            ds@.len() == plans@.len(),
            views == prompt::plan_views(plans@),
            all_answerable(views),
            shown == (|a: Answer| a@),
            ds_fit(views.take(k as int), ds@),
            readout::answer_views(out@) == answered(views.take(k as int), ds@),
    {
        assert(views[k as int] == plans@[k as int]@);
        assert(plans@[k as int]@.keys.len() == plans@[k as int].keys@.len());
        match readout::answer(&ds[k], &plans[k]) {
            Ok(answer) => {
                proof {
                    table::lemma_put_mapped(out@, plans@[k as int].id@, answer, shown);
                    assert(views.take(k + 1).drop_last() == views.take(k as int));
                    assert(views.take(k + 1).last() == views[k as int]);
                    assert forall|j: int| 0 <= j < k + 1 implies (
                    #[trigger] ds@[j]).options@.len() == views.take(k + 1)[j].keys.len() by {
                        if j < k {
                            assert(views.take(k as int)[j] == views.take(k + 1)[j]);
                        }
                    }
                }
                out = out.insert(plans[k].id.as_str(), answer);
            },
            Err(e) => {
                assert(ds@[k as int].options@.len() != views[k as int].keys.len());
                assert(misfits(views, ds@, e));
                return Err(e);
            },
        }
    }
    assert(views.take(views.len() as int) == views);
    Ok(out)
}

// ---------------------------------------------------------------------------
// The engine
// ---------------------------------------------------------------------------

/// The model that answers requests which pin none.
pub const DEFAULT_MODEL: &'static str = "kev-latest";

/// A layout, and what the backend was asked and answered for it.
pub struct Laid<H> {
    pub asked: Seq<Call<H>>,
    pub layout: EncodingView,
}

/// A layout whose pass was run, and what the pass yielded.
pub struct Ran<H> {
    pub laid: Laid<H>,
    pub yielded: Result<Seq<H>, Error>,
}

/// What the backend was asked to lay a record out and run its pass.
pub open spec fn ran_calls<H>(ran: Ran<H>) -> Seq<Call<H>> {
    ran.laid.asked.push(Call::Pass(layout::pass_of(ran.laid.layout), ran.yielded))
}

/// What the backend was asked to lay records out and run their passes, one after the
/// other.
pub open spec fn all_calls<H>(rans: Seq<Ran<H>>) -> Seq<Call<H>>
    decreases rans.len(),
{
    if rans.len() == 0 {
        Seq::empty()
    } else {
        all_calls(rans.drop_last()) + ran_calls(rans.last())
    }
}

/// What the backend was asked to lay records out, one after the other.
pub open spec fn laid_calls<H>(laid: Seq<Laid<H>>) -> Seq<Call<H>>
    decreases laid.len(),
{
    if laid.len() == 0 {
        Seq::empty()
    } else {
        laid_calls(laid.drop_last()) + laid.last().asked
    }
}

/// The passes of these layouts.
pub open spec fn passes_of<H>(laid: Seq<Laid<H>>) -> Seq<PassView> {
    Seq::new(laid.len(), |i: int| layout::pass_of(laid[i].layout))
}

/// The layouts of these runs.
pub open spec fn layouts_of<H>(rans: Seq<Ran<H>>) -> Seq<EncodingView> {
    Seq::new(rans.len(), |i: int| rans[i].laid.layout)
}

/// A layout whose pass yielded these hidden states.
pub open spec fn yielding<H>(laid: Laid<H>, states: Seq<H>) -> Ran<H> {
    Ran { laid, yielded: Ok(states) }
}

/// The backend leads to this layout for this record.
pub open spec fn lays_out<F: Forward>(
    state: Seq<char>,
    asks: Seq<AskText>,
    limits: Limits,
    isolate: bool,
    laid: Laid<F::State>,
) -> bool {
    exists|d: Delimiters, texts: Seq<Call<F::State>>|
        {
            &&& delimited::<F>(d)
            &&& #[trigger] encodes::<F>(state, asks, d, limits, isolate, texts, laid.layout)
            &&& laid.asked == delimiter_calls::<F::State>(delimiter_ids(d)) + texts
        }
}

/// `e` is why the backend leads to no layout for this record.
pub open spec fn laying_fails<F: Forward>(
    state: Seq<char>,
    asks: Seq<AskText>,
    limits: Limits,
    isolate: bool,
    made: Seq<Call<F::State>>,
    e: Error,
) -> bool {
    undelimited::<F>(made, e) || exists|d: Delimiters, texts: Seq<Call<F::State>>|
        {
            &&& delimited::<F>(d)
            &&& #[trigger] encoding_fails::<F>(state, asks, d, limits, isolate, texts, e)
            &&& made == delimiter_calls::<F::State>(delimiter_ids(d)) + texts
        }
}

/// Distributions, or why there are none.
pub open spec fn distributions_of(out: Result<Vec<Distribution>, Error>) -> Result<
    Seq<Distribution>,
    Error,
> {
    match out {
        Ok(ds) => Ok(ds@),
        Err(e) => Err(e),
    }
}

/// What comes of a layout whose pass yielded this: the distributions that `score` makes
/// of the hidden states, or why there are none: the pass failed, it yielded another
/// number of hidden states than it was asked for, or scoring fails.
pub open spec fn distributes<H, S: Fn(Kind, &H, &[H]) -> Result<Distribution, Error>>(
    score: S,
    plans: Seq<PlanView>,
    e: EncodingView,
    yielded: Result<Seq<H>, Error>,
    out: Result<Seq<Distribution>, Error>,
) -> bool {
    let wanted = block_at(e.options, plans.len() as int);
    match yielded {
        Err(why) => out == Err::<Seq<Distribution>, Error>(why),
        Ok(states) => match out {
            Ok(ds) => states.len() == wanted && scores_all(score, plans, e.options, states, ds),
            Err(err) => if states.len() != wanted {
                err.is_engine(states_message(states.len(), wanted as nat))
            } else {
                scoring_fails(score, plans, e.options, states, err)
            },
        },
    }
}

/// The backend is given these answers, serialised so, to count their tokens.
pub open spec fn bills<F: Forward, W: Fn(Real) -> String>(
    write: W,
    answers: Seq<(Seq<char>, AnswerView)>,
    json: Seq<char>,
    out: Result<Seq<u32>, Error>,
) -> bool {
    &&& forall|texts: readout::Texts|
        #[trigger] readout::writes(write, texts) ==> json == readout::answers_chars(answers, texts)
    &&& F::tokenises(json, out)
}

/// The model a response names: the one the request pins, or the engine's.
pub open spec fn model_of(pinned: Option<String>, own: Seq<char>) -> Seq<char> {
    match pinned {
        Some(model) => model@,
        None => own,
    }
}

/// Why passes that were run together come to no hidden states for each of them: the
/// backend failed, or it answered another number of passes than it was given.
pub open spec fn batch_fails<F: Forward>(
    passes: Seq<PassView>,
    yielded: Result<Seq<Seq<F::State>>, Error>,
    e: Error,
) -> bool {
    match yielded {
        Err(why) => why == e && (F::computes_batch(passes, Err(e)) || exists|i: int|
            0 <= i < passes.len() && F::computes(#[trigger] passes[i], Err(e))),
        Ok(all) => {
            &&& all.len() != passes.len()
            &&& F::computes_batch(passes, Ok(all))
            &&& e.is_engine(batch_message(all.len(), passes.len()))
        },
    }
}

/// A local engine over some [`Forward`] backend: how requests are laid out, run,
/// scored and answered.
///
/// `score` is the checkpoint's pointer head: what it makes of the hidden states of
/// one question. `write` is how numbers are written in serialised answers.
pub struct LocalEngine<F, S, W> {
    pub backend: F,
    pub score: S,
    pub write: W,
    pub model: String,
    pub limits: Limits,
    pub isolate: bool,
}

impl<
    F: Forward,
    S: Fn(Kind, &F::State, &[F::State]) -> Result<Distribution, Error>,
    W: Fn(Real) -> String,
> LocalEngine<F, S, W> {
    /// Any question can be scored, with one probability per option, and any number
    /// written.
    pub open spec fn ready(self) -> bool {
        &&& forall|kind: Kind, decide: &F::State, options: &[F::State]|
            call_requires(self.score, (kind, decide, options))
        &&& forall|kind: Kind, decide: &F::State, options: &[F::State], d: Distribution|
            #[trigger] call_ensures(self.score, (kind, decide, options), Ok(d))
                ==> d.options@.len() == options@.len()
        &&& forall|r: Real| call_requires(self.write, (r,))
    }

    /// Everything but the backend is as it is there.
    pub open spec fn set_up_as(self, other: Self) -> bool {
        &&& self.score == other.score
        &&& self.write == other.write
        &&& self.model == other.model
        &&& self.limits == other.limits
        &&& self.isolate == other.isolate
    }

    /// This record is laid out so, and its pass yields this.
    pub open spec fn runs(self, state: Seq<char>, asks: Seq<AskText>, ran: Ran<F::State>) -> bool {
        &&& lays_out::<F>(state, asks, self.limits, self.isolate, ran.laid)
        &&& F::computes(layout::pass_of(ran.laid.layout), ran.yielded)
    }

    /// What this run yielded answers these questions so.
    pub open spec fn run_answers(
        self,
        plans: Seq<PlanView>,
        ran: Ran<F::State>,
        given: Seq<(Seq<char>, AnswerView)>,
    ) -> bool {
        exists|ds: Seq<Distribution>|
            {
                &&& #[trigger] distributes(
                    self.score,
                    plans,
                    ran.laid.layout,
                    ran.yielded,
                    Ok(ds),
                )
                &&& ds_fit(plans, ds)
                &&& given == answered(plans, ds)
            }
    }

    /// Why these questions are not answered by what this run yielded.
    pub open spec fn run_fails(self, plans: Seq<PlanView>, ran: Ran<F::State>, e: Error) -> bool {
        distributes(self.score, plans, ran.laid.layout, ran.yielded, Err(e)) || exists|
            ds: Seq<Distribution>,
        |
            #[trigger] distributes(self.score, plans, ran.laid.layout, ran.yielded, Ok(ds))
                && misfits(plans, ds, e)
    }

    /// Why no answers are given to these questions in one pass, and what the backend was
    /// asked until then: the record cannot be laid out, and no pass is run; or its pass
    /// is run once, and comes to nothing.
    pub open spec fn fails_together(
        self,
        state: Seq<char>,
        asks: Seq<AskText>,
        plans: Seq<PlanView>,
        made: Seq<Call<F::State>>,
        e: Error,
    ) -> bool {
        laying_fails::<F>(state, asks, self.limits, self.isolate, made, e) || exists|
            ran: Ran<F::State>,
        |
            #[trigger] self.runs(state, asks, ran) && made == ran_calls(ran) && self.run_fails(
                plans,
                ran,
                e,
            )
    }

    /// The response names its model, counts its tokens and holds these answers.
    pub open spec fn responds(
        self,
        pinned: Option<String>,
        given: Seq<(Seq<char>, AnswerView)>,
        input: nat,
        output: nat,
        r: SystemOneResponse,
    ) -> bool {
        &&& r.model@ == model_of(pinned, self.model@)
        &&& readout::answer_views(r.answers@) == given
        &&& r.usage.input_tokens == input
        &&& r.usage.output_tokens == output
        &&& r.request_id is None
    }

    /// This request is answered so from this run, and the answers are billed so.
    pub open spec fn answers_by(
        self,
        request: SystemOneRequest,
        ran: Ran<F::State>,
        json: Seq<char>,
        billed: Seq<u32>,
        r: SystemOneResponse,
    ) -> bool {
        let given = readout::answer_views(r.answers@);
        &&& self.runs(
            prompt::rendered(request.state, Seq::empty()),
            asks_of(request.questions@),
            ran,
        )
        &&& self.run_answers(plans_of(request.questions@), ran, given)
        &&& bills::<F, W>(self.write, given, json, Ok(billed))
        &&& self.responds(request.model, given, ran.laid.layout.ids.len(), billed.len(), r)
    }

    /// This run comes to no response to this request, and what the backend was asked
    /// behind the pass: nothing where the run comes to no answers, else to count the
    /// answers' tokens.
    pub open spec fn unanswered(
        self,
        request: SystemOneRequest,
        ran: Ran<F::State>,
        last: Seq<Call<F::State>>,
        e: Error,
    ) -> bool {
        let plans = plans_of(request.questions@);
        self.run_fails(plans, ran, e) && last.len() == 0 || exists|
            given: Seq<(Seq<char>, AnswerView)>,
            json: Seq<char>,
        |
            #![trigger self.run_answers(plans, ran, given), bills::<F, W>(
                self.write,
                given,
                json,
                Err(e),
            )]
            {
                &&& self.run_answers(plans, ran, given)
                &&& bills::<F, W>(self.write, given, json, Err(e))
                &&& last == seq![Call::<F::State>::Text(json, Err(e))]
            }
    }

    /// This request is answered so in a pass of its own, which is run once, and the
    /// backend was asked this for it.
    pub open spec fn answers_request(
        self,
        request: SystemOneRequest,
        made: Seq<Call<F::State>>,
        r: SystemOneResponse,
    ) -> bool {
        exists|ran: Ran<F::State>, json: Seq<char>, billed: Seq<u32>|
            #[trigger] self.answers_by(request, ran, json, billed, r) && made == ran_calls(
                ran,
            ).push(Call::Text(json, Ok(billed)))
    }

    /// This request fails so in a pass of its own, which is run once at most, and the
    /// backend was asked this until then.
    pub open spec fn fails_request(
        self,
        request: SystemOneRequest,
        made: Seq<Call<F::State>>,
        e: Error,
    ) -> bool {
        self.lays_not(request, made, e) || exists|ran: Ran<F::State>, last: Seq<Call<F::State>>|
            {
                &&& self.runs(
                    prompt::rendered(request.state, Seq::empty()),
                    asks_of(request.questions@),
                    ran,
                )
                &&& #[trigger] self.unanswered(request, ran, last, e)
                &&& made == ran_calls(ran) + last
            }
    }

    /// This request is laid out so.
    pub open spec fn lays(self, request: SystemOneRequest, laid: Laid<F::State>) -> bool {
        lays_out::<F>(
            prompt::rendered(request.state, Seq::empty()),
            asks_of(request.questions@),
            self.limits,
            self.isolate,
            laid,
        )
    }

    /// Why this request cannot be laid out, and what the backend was asked until then.
    pub open spec fn lays_not(
        self,
        request: SystemOneRequest,
        made: Seq<Call<F::State>>,
        e: Error,
    ) -> bool {
        laying_fails::<F>(
            prompt::rendered(request.state, Seq::empty()),
            asks_of(request.questions@),
            self.limits,
            self.isolate,
            made,
            e,
        )
    }

    /// An engine over an inference backend, a checkpoint's pointer head and a way
    /// to write numbers.
    pub fn new(backend: F, score: S, write: W) -> (out: Self)
        ensures
            out.backend == backend,
            out.score == score,
            out.write == write,
            out.model@ == DEFAULT_MODEL@,
            out.limits.max_state == 8192,
            out.limits.max_branch == 8192,
            !out.isolate,
    {
        LocalEngine {
            backend,
            score,
            write,
            model: DEFAULT_MODEL.to_owned(),
            limits: Limits::serving(),
            isolate: false,
        }
    }

    /// The name reported in responses that do not pin a model themselves.
    pub fn with_model(self, model: &str) -> (out: Self)
        ensures
            out.model@ == model@,
            out.backend == self.backend,
            out.set_up_as(Self { model: out.model, ..self }),
    {
        Self { model: model.to_owned(), ..self }
    }

    /// Shorten the context. The default is [`Limits::serving`]; the released
    /// checkpoints were trained on [`Limits::training`].
    pub fn with_limits(self, limits: Limits) -> (out: Self)
        ensures
            out == (Self { limits, ..self }),
    {
        Self { limits, ..self }
    }

    /// Lay the options of every question out as sub-branches that cannot read
    /// each other, as checkpoints trained so expect.
    pub fn with_option_isolation(self, isolate: bool) -> (out: Self)
        ensures
            out == (Self { isolate, ..self }),
    {
        Self { isolate, ..self }
    }

    /// The layout of a record, in this engine's context.
    pub(crate) fn encode(&mut self, record: &Record) -> (out: Result<Encoding, Error>)
        requires
            record.questions@.len() < u32::MAX,
        ensures
            final(self).set_up_as(*old(self)),
            ({
                let asks = prompt::ask_texts(record.questions@);
                match out {
                    Ok(e) => {
                        &&& e.decide@.len() == asks.len()
                        &&& e.options@.len() == asks.len()
                        &&& exists|laid: Laid<F::State>|
                            {
                                &&& #[trigger] lays_out::<F>(
                                    record.state@,
                                    asks,
                                    old(self).limits,
                                    old(self).isolate,
                                    laid,
                                )
                                &&& laid.layout == e@
                                &&& accounts(old(self).backend, final(self).backend, laid.asked)
                            }
                    },
                    Err(e) => exists|made: Seq<Call<F::State>>|
                        #[trigger] accounts(old(self).backend, final(self).backend, made)
                            && laying_fails::<F>(
                            record.state@,
                            asks,
                            old(self).limits,
                            old(self).isolate,
                            made,
                            e,
                        ),
                }
            }),
    {
        let limits = self.limits;
        let isolate = self.isolate;
        let ghost asks = prompt::ask_texts(record.questions@);
        let ghost begun = self.backend;
        let d = match delimiters(&mut self.backend) {
            Ok(d) => d,
            Err(e) => {
                proof {
                    let made = choose|made: Seq<Call<F::State>>|
                        #[trigger] accounts(begun, self.backend, made) && undelimited::<F>(made, e);
                    assert(laying_fails::<F>(record.state@, asks, limits, isolate, made, e));
                }
                return Err(e);
            },
        };
        let ghost first = delimiter_calls::<F::State>(delimiter_ids(d));
        let ghost mid = self.backend;
        let packed = encode_record(&mut self.backend, record, &d, limits, isolate);
        let ghost texts = choose|made: Seq<Call<F::State>>|
            #[trigger] accounts(mid, self.backend, made) && match packed {
                Ok(e) => encodes::<F>(record.state@, asks, d, limits, isolate, made, e@),
                Err(e) => encoding_fails::<F>(record.state@, asks, d, limits, isolate, made, e),
            };
        proof {
            lemma_accounts_join(begun, mid, self.backend, first, texts);
        }
        match packed {
            Ok(e) => {
                proof {
                    lemma_encoded_shape::<F>(record.state@, asks, d, limits, isolate, texts, e@);
                    assert(e.decide@.len() == e@.decide.len());
                    assert(e.options@.len() == e@.options.len());
                    let laid = Laid { asked: first + texts, layout: e@ };
                    assert(encodes::<F>(
                        record.state@,
                        asks,
                        d,
                        limits,
                        isolate,
                        texts,
                        laid.layout,
                    ));
                    assert(lays_out::<F>(record.state@, asks, limits, isolate, laid));
                }
                Ok(e)
            },
            Err(e) => {
                assert(laying_fails::<F>(
                    record.state@,
                    asks,
                    limits,
                    isolate,
                    first + texts,
                    e,
                ));
                Err(e)
            },
        }
    }

    /// One forward pass, then the pointer head: a distribution per question.
    pub(crate) fn probabilities(&mut self, encoding: &Encoding, plans: &[Plan]) -> (out: Result<
        Vec<Distribution>,
        Error,
    >)
        requires
            old(self).ready(),
            encoding.decide@.len() == plans@.len(),
            encoding.options@.len() == plans@.len(),
        ensures
            final(self).set_up_as(*old(self)),
            // The one call that is made, and what comes of what it yields.
            exists|yielded: Result<Seq<F::State>, Error>|
                {
                    &&& #[trigger] F::computes(layout::pass_of(encoding@), yielded)
                    &&& accounts(
                        old(self).backend,
                        final(self).backend,
                        seq![Call::<F::State>::Pass(layout::pass_of(encoding@), yielded)],
                    )
                    &&& distributes(
                        old(self).score,
                        prompt::plan_views(plans@),
                        encoding@,
                        yielded,
                        distributions_of(out),
                    )
                },
            out matches Ok(ds) ==> ds@.len() == plans@.len() && forall|k: int|
                0 <= k < ds@.len() ==> (#[trigger] ds@[k]).options@.len()
                    == encoding@.options[k].len(),
    {
        let readout = encoding.readout();
        let pass = Pass {
            ids: &encoding.ids,
            positions: &encoding.positions,
            segments: &encoding.segments,
            readout: &readout,
            options: &encoding.slots,
        };
        assert(pass@ == layout::pass_of(encoding@));
        let ghost begun = self.backend.calls();
        let yielded = self.backend.hidden(&pass);
        proof {
            let last = Call::<F::State>::Pass(pass@, states_of(yielded));
            assert(begun.push(last) =~= begun + seq![last]);
        }
        let hidden = match yielded {
            Ok(hidden) => hidden,
            Err(e) => {
                assert(F::computes(layout::pass_of(encoding@), Err(e)));
                return Err(e);
            },
        };
        assert(F::computes(layout::pass_of(encoding@), Ok(hidden@)));
        let out = distributions(encoding, &hidden, plans, &self.score);
        proof {
            assert(encoding@.options.len() == encoding.options@.len());
            if let Ok(ref ds) = out {
                let views = prompt::plan_views(plans@);
                assert forall|k: int| 0 <= k < ds@.len() implies (
                #[trigger] ds@[k]).options@.len() == encoding@.options[k].len() by {
                    let at = block_at(encoding@.options, k);
                    let n = encoding@.options[k].len() as int;
                    assert(scores(self.score, views[k].kind, hidden@, at, n, Ok(ds@[k])));
                    lemma_block_at(encoding@.options, k, k + 1);
                    lemma_block_at(encoding@.options, k + 1, plans@.len() as int);
                    assert(hidden@.subrange(at + 1, at + 1 + n).len() == n);
                }
            }
        }
        out
    }

    /// The layout and the pass of a record, one after the other.
    pub(crate) fn run(&mut self, record: &Record, plans: &[Plan]) -> (out: Result<
        (Encoding, Vec<Distribution>),
        Error,
    >)
        requires
            old(self).ready(),
            record.questions@.len() < u32::MAX,
            record.questions@.len() == plans@.len(),
        ensures
            final(self).set_up_as(*old(self)),
            ({
                let asks = prompt::ask_texts(record.questions@);
                let views = prompt::plan_views(plans@);
                match out {
                    Ok((e, ds)) => {
                        &&& ds@.len() == plans@.len()
                        &&& exists|ran: Ran<F::State>|
                            {
                                &&& #[trigger] old(self).runs(record.state@, asks, ran)
                                &&& ran.laid.layout == e@
                                &&& distributes(old(self).score, views, e@, ran.yielded, Ok(ds@))
                                &&& accounts(
                                    old(self).backend,
                                    final(self).backend,
                                    ran_calls(ran),
                                )
                            }
                    },
                    Err(e) => exists|made: Seq<Call<F::State>>|
                        #[trigger] accounts(old(self).backend, final(self).backend, made)
                            && old(self).fails_together(record.state@, asks, views, made, e),
                }
            }),
    {
        let ghost asks = prompt::ask_texts(record.questions@);
        let ghost views = prompt::plan_views(plans@);
        let ghost begun = self.backend;
        assert(asks.len() == record.questions@.len());
        let encoding = match self.encode(record) {
            Ok(encoding) => encoding,
            Err(e) => {
                return Err(e);
            },
        };
        let ghost mid = self.backend;
        let ghost laid = choose|laid: Laid<F::State>|
            {
                &&& #[trigger] lays_out::<F>(record.state@, asks, self.limits, self.isolate, laid)
                &&& laid.layout == encoding@
                &&& accounts(begun, mid, laid.asked)
            };
        let scored = self.probabilities(&encoding, plans);
        let ghost pass = layout::pass_of(encoding@);
        let ghost yielded = choose|yielded: Result<Seq<F::State>, Error>|
            {
                &&& #[trigger] F::computes(pass, yielded)
                &&& accounts(mid, self.backend, seq![Call::<F::State>::Pass(pass, yielded)])
                &&& distributes(
                    old(self).score,
                    views,
                    encoding@,
                    yielded,
                    distributions_of(scored),
                )
            };
        let ghost ran = Ran { laid, yielded };
        proof {
            let last = seq![Call::<F::State>::Pass(pass, yielded)];
            lemma_accounts_join(begun, mid, self.backend, laid.asked, last);
            assert(laid.asked + last =~= ran_calls(ran));
            assert(old(self).runs(record.state@, asks, ran));
        }
        match scored {
            Ok(ds) => Ok((encoding, ds)),
            Err(e) => {
                assert(old(self).fails_together(record.state@, asks, views, ran_calls(ran), e));
                Err(e)
            },
        }
    }

    /// The response to a request, once its answers are there.
    fn respond<T: Fn() -> Real>(
        &mut self,
        pinned: &Option<String>,
        answers: Table<Answer>,
        input_tokens: u64,
        elapsed: &T,
    ) -> (out: Result<SystemOneResponse, Error>)
        requires
            old(self).ready(),
            call_requires(*elapsed, ()),
        ensures
            final(self).set_up_as(*old(self)),
            exists|json: Seq<char>, billed: Result<Seq<u32>, Error>|
                {
                    &&& #[trigger] bills::<F, W>(
                        old(self).write,
                        readout::answer_views(answers@),
                        json,
                        billed,
                    )
                    &&& accounts(
                        old(self).backend,
                        final(self).backend,
                        seq![Call::<F::State>::Text(json, billed)],
                    )
                    &&& match billed {
                        Ok(tokens) => out matches Ok(r) && old(self).responds(
                            *pinned,
                            readout::answer_views(answers@),
                            input_tokens as nat,
                            tokens.len(),
                            r,
                        ) && timed(*elapsed, r),
                        Err(e) => out == Err::<SystemOneResponse, Error>(e),
                    }
                },
    {
        // Not generated tokens: there are none. What is billed is the serialised
        // answers, so this counts the same string.
        let json = readout::answers_json(&answers, &self.write);
        let ghost begun = self.backend.calls();
        let billed = self.backend.tokenise(json.as_str());
        proof {
            let last = Call::<F::State>::Text(json@, tokens_of(billed));
            assert(begun.push(last) =~= begun + seq![last]);
        }
        assert(bills::<F, W>(
            old(self).write,
            readout::answer_views(answers@),
            json@,
            tokens_of(billed),
        ));
        match billed {
            Ok(tokens) => {
                let model = match pinned {
                    Some(model) => model.clone(),
                    None => self.model.clone(),
                };
                Ok(
                    SystemOneResponse {
                        model,
                        answers,
                        usage: Usage { input_tokens, output_tokens: tokens.len() as u64 },
                        latency_ms: Some(elapsed()),
                        request_id: None,
                    },
                )
            },
            Err(e) => Err(e),
        }
    }

    /// Answer a request on the calling thread.
    ///
    /// `elapsed` says how long the request has taken, in milliseconds. It is asked once
    /// the answers are there.
    pub fn system_one_blocking<T: Fn() -> Real>(
        &mut self,
        request: &SystemOneRequest,
        elapsed: &T,
    ) -> (out: Result<SystemOneResponse, Error>)
        requires
            old(self).ready(),
            call_requires(*elapsed, ()),
            request.questions@.len() < u32::MAX,
            all_answerable(plans_of(request.questions@)),
        ensures
            final(self).set_up_as(*old(self)),
            exists|made: Seq<Call<F::State>>|
                #[trigger] accounts(old(self).backend, final(self).backend, made) && match out {
                    Ok(r) => old(self).answers_request(*request, made, r) && timed(*elapsed, r),
                    Err(e) => old(self).fails_request(*request, made, e),
                },
    {
        let (record, plans) = prompt::plan(request);
        let ghost begun = self.backend;
        let ghost state = record.state@;
        let ghost asks = asks_of(request.questions@);
        let ghost views = plans_of(request.questions@);
        assert(prompt::ask_texts(record.questions@) == asks);
        assert(prompt::plan_views(plans@) == views);
        assert(record.questions@.len() == asks.len());
        assert(plans@.len() == views.len());
        let ran = self.run(&record, plans.as_slice());
        let ghost mid = self.backend;
        let (encoding, ds) = match ran {
            Ok(both) => both,
            Err(e) => {
                proof {
                    let made = choose|made: Seq<Call<F::State>>|
                        #[trigger] accounts(begun, mid, made) && old(self).fails_together(
                            state,
                            asks,
                            views,
                            made,
                            e,
                        );
                    old(self).lemma_fails_together(*request, made, e);
                }
                return Err(e);
            },
        };
        let ghost whole = choose|ran: Ran<F::State>|
            {
                &&& #[trigger] old(self).runs(state, asks, ran)
                &&& ran.laid.layout == encoding@
                &&& distributes(old(self).score, views, encoding@, ran.yielded, Ok(ds@))
                &&& accounts(begun, mid, ran_calls(ran))
            };
        let given = match answers(&ds, &plans) {
            Ok(given) => given,
            Err(e) => {
                proof {
                    let last = Seq::<Call<F::State>>::empty();
                    assert(old(self).run_fails(views, whole, e));
                    assert(old(self).unanswered(*request, whole, last, e));
                    assert(ran_calls(whole) + last =~= ran_calls(whole));
                }
                return Err(e);
            },
        };
        let ghost shown = readout::answer_views(given@);
        assert(old(self).run_answers(views, whole, shown));
        let out = self.respond(&request.model, given, encoding.ids.len() as u64, elapsed);
        proof {
            let (json, billed) = choose|json: Seq<char>, billed: Result<Seq<u32>, Error>|
                {
                    &&& #[trigger] bills::<F, W>(old(self).write, shown, json, billed)
                    &&& accounts(
                        mid,
                        self.backend,
                        seq![Call::<F::State>::Text(json, billed)],
                    )
                    &&& match billed {
                        Ok(tokens) => out matches Ok(r) && old(self).responds(
                            request.model,
                            shown,
                            encoding.ids@.len(),
                            tokens.len(),
                            r,
                        ) && timed(*elapsed, r),
                        Err(e) => out == Err::<SystemOneResponse, Error>(e),
                    }
                };
            let last = seq![Call::<F::State>::Text(json, billed)];
            lemma_accounts_join(begun, mid, self.backend, ran_calls(whole), last);
            if out is Ok {
                assert(old(self).answers_by(*request, whole, json, billed->Ok_0, out->Ok_0));
                assert(ran_calls(whole) + last =~= ran_calls(whole).push(
                    Call::Text(json, Ok(billed->Ok_0)),
                ));
            } else {
                assert(old(self).unanswered(*request, whole, last, out->Err_0));
            }
        }
        out
    }

    /// Questions that come to nothing in one pass are no response either.
    proof fn lemma_fails_together(
        self,
        request: SystemOneRequest,
        made: Seq<Call<F::State>>,
        e: Error,
    )
        requires
            self.fails_together(
                prompt::rendered(request.state, Seq::empty()),
                asks_of(request.questions@),
                plans_of(request.questions@),
                made,
                e,
            ),
        ensures
            self.fails_request(request, made, e),
    {
        let state = prompt::rendered(request.state, Seq::empty());
        let asks = asks_of(request.questions@);
        if !self.lays_not(request, made, e) {
            let ran = choose|ran: Ran<F::State>|
                #[trigger] self.runs(state, asks, ran) && made == ran_calls(ran)
                    && self.run_fails(plans_of(request.questions@), ran, e);
            let last = Seq::<Call<F::State>>::empty();
            assert(self.unanswered(request, ran, last, e));
            assert(ran_calls(ran) + last =~= made);
        }
    }

    /// Engines that are set up alike fail alike.
    pub proof fn lemma_fails_alike(
        self,
        other: Self,
        state: Seq<char>,
        asks: Seq<AskText>,
        plans: Seq<PlanView>,
        made: Seq<Call<F::State>>,
        e: Error,
    )
        requires
            self.set_up_as(other),
            self.fails_together(state, asks, plans, made, e),
        ensures
            other.fails_together(state, asks, plans, made, e),
    {
        if !laying_fails::<F>(state, asks, self.limits, self.isolate, made, e) {
            let ran = choose|ran: Ran<F::State>|
                #[trigger] self.runs(state, asks, ran) && made == ran_calls(ran)
                    && self.run_fails(plans, ran, e);
            assert(other.runs(state, asks, ran));
        }
    }

    /// The first of these questions, each asked on its own, run so and yield these
    /// distributions.
    pub open spec fn runs_apart(
        self,
        state: Seq<char>,
        asks: Seq<AskText>,
        plans: Seq<PlanView>,
        rans: Seq<Ran<F::State>>,
        ds: Seq<Distribution>,
    ) -> bool {
        &&& rans.len() == ds.len() <= plans.len()
        &&& forall|k: int|
            0 <= k < rans.len() ==> self.runs(state, seq![asks[k]], #[trigger] rans[k])
        &&& forall|k: int|
            0 <= k < ds.len() ==> distributes(
                self.score,
                seq![plans[k]],
                rans[k].laid.layout,
                rans[k].yielded,
                Ok(seq![#[trigger] ds[k]]),
            ) && ds[k].options@.len() == plans[k].keys.len()
    }

    /// This request is answered so in a pass of its own for every question, each run
    /// once, one question after the other, and the backend was asked this for it.
    pub open spec fn answers_request_apart(
        self,
        request: SystemOneRequest,
        made: Seq<Call<F::State>>,
        r: SystemOneResponse,
    ) -> bool {
        exists|
            rans: Seq<Ran<F::State>>,
            ds: Seq<Distribution>,
            json: Seq<char>,
            billed: Seq<u32>,
        |
            #[trigger] self.answers_apart_by(request, rans, ds, json, billed, r) && made
                == all_calls(rans).push(Call::Text(json, Ok(billed)))
    }

    /// This request is answered so from these runs, one for every question, and the
    /// answers are billed so.
    pub open spec fn answers_apart_by(
        self,
        request: SystemOneRequest,
        rans: Seq<Ran<F::State>>,
        ds: Seq<Distribution>,
        json: Seq<char>,
        billed: Seq<u32>,
        r: SystemOneResponse,
    ) -> bool {
        let plans = plans_of(request.questions@);
        let given = answered(plans, ds);
        &&& rans.len() == plans.len()
        &&& self.runs_apart(
            prompt::rendered(request.state, Seq::empty()),
            asks_of(request.questions@),
            plans,
            rans,
            ds,
        )
        &&& bills::<F, W>(self.write, given, json, Ok(billed))
        &&& self.responds(
            request.model,
            given,
            counted(tokens_in(layouts_of(rans))),
            billed.len(),
            r,
        )
    }

    /// This request fails so in a pass of its own for every question: one question is
    /// the first that comes to nothing, or all are answered and the answers' tokens
    /// cannot be counted. The backend was asked this until then.
    pub open spec fn fails_request_apart(
        self,
        request: SystemOneRequest,
        made: Seq<Call<F::State>>,
        e: Error,
    ) -> bool {
        let state = prompt::rendered(request.state, Seq::empty());
        let asks = asks_of(request.questions@);
        let plans = plans_of(request.questions@);
        ||| exists|rans: Seq<Ran<F::State>>, ds: Seq<Distribution>, last: Seq<Call<F::State>>|
            #![trigger self.runs_apart(state, asks, plans, rans, ds), self.fails_together(
                state,
                seq![asks[rans.len() as int]],
                seq![plans[rans.len() as int]],
                last,
                e,
            )]
            {
                &&& self.runs_apart(state, asks, plans, rans, ds)
                &&& rans.len() < plans.len()
                &&& self.fails_together(
                    state,
                    seq![asks[rans.len() as int]],
                    seq![plans[rans.len() as int]],
                    last,
                    e,
                )
                &&& made == all_calls(rans) + last
            }
        ||| exists|rans: Seq<Ran<F::State>>, ds: Seq<Distribution>, json: Seq<char>|
            #![trigger self.runs_apart(state, asks, plans, rans, ds), bills::<F, W>(
                self.write,
                answered(plans, ds),
                json,
                Err(e),
            )]
            {
                &&& self.runs_apart(state, asks, plans, rans, ds)
                &&& rans.len() == plans.len()
                &&& bills::<F, W>(self.write, answered(plans, ds), json, Err(e))
                &&& made == all_calls(rans).push(Call::Text(json, Err(e)))
            }
    }

    /// Answer a request with one forward pass per question.
    ///
    /// Each question is asked on its own, against the same state: the state is
    /// encoded once per question, so `usage.input_tokens` counts it once per
    /// question too. Questions are already isolated in the packed call; this
    /// exists to verify that.
    pub fn system_one_separate_blocking<T: Fn() -> Real>(
        &mut self,
        request: &SystemOneRequest,
        elapsed: &T,
    ) -> (out: Result<SystemOneResponse, Error>)
        requires
            old(self).ready(),
            call_requires(*elapsed, ()),
            request.questions@.len() < u32::MAX,
            all_answerable(plans_of(request.questions@)),
        ensures
            final(self).set_up_as(*old(self)),
            exists|made: Seq<Call<F::State>>|
                #[trigger] accounts(old(self).backend, final(self).backend, made) && match out {
                    Ok(r) => old(self).answers_request_apart(*request, made, r) && timed(
                        *elapsed,
                        r,
                    ),
                    Err(e) => old(self).fails_request_apart(*request, made, e),
                },
    {
        let (record, plans) = prompt::plan(request);
        let ghost begun = self.backend;
        let ghost state = record.state@;
        let ghost asks = asks_of(request.questions@);
        let ghost views = plans_of(request.questions@);
        let ghost shown = |a: Answer| a@;
        assert(prompt::ask_texts(record.questions@) == asks);
        assert(prompt::plan_views(plans@) == views);
        assert(record.questions@.len() == asks.len());
        assert(plans@.len() == views.len());
        let mut given: Table<Answer> = Table::new();
        let mut input: u128 = 0;
        let ghost mut rans: Seq<Ran<F::State>> = Seq::empty();
        let ghost mut ds: Seq<Distribution> = Seq::empty();
        proof {
            assert(views.take(0) == Seq::<PlanView>::empty());
            assert(readout::answer_views(given@) == answered(views.take(0), ds));
            assert(layouts_of(rans) =~= Seq::empty());
            assert(begun.calls() + all_calls(rans) =~= begun.calls());
        }
        for k in 0..plans.len()
            invariant
                self.ready(),
                self.set_up_as(*old(self)),
                state == record.state@,
                state == prompt::rendered(request.state, Seq::empty()),
                asks == prompt::ask_texts(record.questions@),
                asks == asks_of(request.questions@),
                views == prompt::plan_views(plans@),
                views == plans_of(request.questions@),
                asks.len() == plans@.len(),
                record.questions@.len() == plans@.len(),
                plans@.len() < u32::MAX,
                all_answerable(views),
                shown == (|a: Answer| a@),
                begun == old(self).backend,
                accounts(begun, self.backend, all_calls(rans)),
                call_requires(*elapsed, ()),
                input == tokens_in(layouts_of(rans)),
                input <= k * usize::MAX,
                rans.len() == k,
                old(self).runs_apart(state, asks, views, rans, ds),
                readout::answer_views(given@) == answered(views.take(k as int), ds),
        {
            let mut questions: Vec<Ask> = Vec::new();
            questions.push(copy_ask(&record.questions[k]));
            let alone = Record { state: record.state.clone(), questions };
            let plan = slice_subrange(plans.as_slice(), k, k + 1);
            let ghost ask1 = seq![asks[k as int]];
            let ghost plan1 = seq![views[k as int]];
            proof {
                assert(alone.state@ == state);
                assert(prompt::ask_texts(alone.questions@) == ask1);
                assert(prompt::plan_views(plan@) == plan1);
                assert(views[k as int] == plans@[k as int]@);
            }
            let ghost so_far = self.backend;
            let ghost earlier = all_calls(rans);
            let ghost now = *self;
            let run = self.run(&alone, plan);
            let (encoding, one) = match run {
                Ok(both) => both,
                Err(e) => {
                    proof {
                        let last = choose|made: Seq<Call<F::State>>|
                            #[trigger] accounts(so_far, self.backend, made)
                                && now.fails_together(state, ask1, plan1, made, e);
                        now.lemma_fails_alike(*old(self), state, ask1, plan1, last, e);
                        lemma_accounts_join(begun, so_far, self.backend, earlier, last);
                        assert(old(self).fails_together(
                            state,
                            seq![asks[rans.len() as int]],
                            seq![views[rans.len() as int]],
                            last,
                            e,
                        ));
                        assert(old(self).fails_request_apart(*request, earlier + last, e));
                    }
                    return Err(e);
                },
            };
            let ghost whole = choose|ran: Ran<F::State>|
                {
                    &&& #[trigger] now.runs(state, ask1, ran)
                    &&& ran.laid.layout == encoding@
                    &&& distributes(old(self).score, plan1, encoding@, ran.yielded, Ok(one@))
                    &&& accounts(so_far, self.backend, ran_calls(ran))
                };
            proof {
                lemma_accounts_join(begun, so_far, self.backend, earlier, ran_calls(whole));
                assert(old(self).runs(state, ask1, whole));
                assert(one@ == seq![one@[0]]);
                assert(plans@[k as int]@.keys.len() == plans@[k as int].keys@.len());
            }
            let answer = match readout::answer(&one[0], &plans[k]) {
                Ok(answer) => answer,
                Err(e) => {
                    proof {
                        assert(one@[0].options@.len() != plan1[0].keys.len());
                        assert(misfits(plan1, one@, e));
                        assert(old(self).run_fails(plan1, whole, e));
                        assert(old(self).fails_together(
                            state,
                            seq![asks[rans.len() as int]],
                            seq![views[rans.len() as int]],
                            ran_calls(whole),
                            e,
                        ));
                        assert(old(self).fails_request_apart(
                            *request,
                            earlier + ran_calls(whole),
                            e,
                        ));
                    }
                    return Err(e);
                },
            };
            proof {
                let before = rans;
                let before_ds = ds;
                let d = one@[0];
                rans = rans.push(whole);
                ds = ds.push(d);
                assert(rans.drop_last() == before);
                assert(earlier + ran_calls(whole) =~= all_calls(rans));
                assert(layouts_of(rans) =~= layouts_of(before).push(encoding@));
                assert(layouts_of(rans).drop_last() =~= layouts_of(before));
                assert(encoding.ids@.len() == encoding.ids.len());
                table::lemma_put_mapped(given@, plans@[k as int].id@, answer, shown);
                assert(views.take(k + 1).drop_last() == views.take(k as int));
                assert(views.take(k + 1).last() == views[k as int]);
                lemma_answered_prefix(views.take(k as int), before_ds, ds);
                assert forall|j: int| 0 <= j < k + 1 implies old(self).runs(
                    state,
                    seq![asks[j]],
                    #[trigger] rans[j],
                ) by {
                    if j < k {
                        assert(before[j] == rans[j]);
                    }
                }
                assert forall|j: int| 0 <= j < k + 1 implies distributes(
                    old(self).score,
                    seq![views[j]],
                    rans[j].laid.layout,
                    rans[j].yielded,
                    Ok(seq![#[trigger] ds[j]]),
                ) && ds[j].options@.len() == views[j].keys.len() by {
                    if j < k {
                        assert(before_ds[j] == ds[j]);
                        assert(before[j] == rans[j]);
                    }
                }
                assert((k + 1) * usize::MAX == k * usize::MAX + usize::MAX) by (nonlinear_arith);
                assert(k * usize::MAX + usize::MAX <= u128::MAX) by (nonlinear_arith)
                    requires
                        k <= u32::MAX,
                ;
            }
            input = input + encoding.ids.len() as u128;
            given = given.insert(plans[k].id.as_str(), answer);
        }
        assert(views.take(views.len() as int) == views);
        let counted_tokens: u64 = if input > u64::MAX as u128 {
            u64::MAX
        } else {
            input as u64
        };
        let ghost mid = self.backend;
        let ghost held = readout::answer_views(given@);
        let out = self.respond(&request.model, given, counted_tokens, elapsed);
        proof {
            let (json, billed) = choose|json: Seq<char>, billed: Result<Seq<u32>, Error>|
                {
                    &&& #[trigger] bills::<F, W>(old(self).write, held, json, billed)
                    &&& accounts(
                        mid,
                        self.backend,
                        seq![Call::<F::State>::Text(json, billed)],
                    )
                    &&& match billed {
                        Ok(tokens) => out matches Ok(r) && old(self).responds(
                            request.model,
                            held,
                            counted_tokens as nat,
                            tokens.len(),
                            r,
                        ) && timed(*elapsed, r),
                        Err(e) => out == Err::<SystemOneResponse, Error>(e),
                    }
                };
            let last = seq![Call::<F::State>::Text(json, billed)];
            lemma_accounts_join(begun, mid, self.backend, all_calls(rans), last);
            assert(all_calls(rans) + last =~= all_calls(rans).push(Call::Text(json, billed)));
            if out is Ok {
                assert(old(self).answers_apart_by(
                    *request,
                    rans,
                    ds,
                    json,
                    billed->Ok_0,
                    out->Ok_0,
                ));
            } else {
                let e = out->Err_0;
                assert(bills::<F, W>(old(self).write, answered(views, ds), json, Err(e)));
                assert(old(self).fails_request_apart(*request, all_calls(rans) + last, e));
            }
        }
        out
    }

    /// The first of these requests are laid out so.
    pub open spec fn lays_first(
        self,
        requests: Seq<SystemOneRequest>,
        laid: Seq<Laid<F::State>>,
    ) -> bool {
        laid.len() <= requests.len() && forall|i: int|
            0 <= i < laid.len() ==> self.lays(requests[i], #[trigger] laid[i])
    }

    /// These requests are answered so from layouts whose passes were run together, and
    /// the answers are billed so.
    pub open spec fn answers_batch_by(
        self,
        requests: Seq<SystemOneRequest>,
        laid: Seq<Laid<F::State>>,
        all: Seq<Seq<F::State>>,
        jsons: Seq<Seq<char>>,
        billed: Seq<Seq<u32>>,
        rs: Seq<SystemOneResponse>,
    ) -> bool {
        &&& rs.len() == jsons.len() == billed.len()
        &&& rs.len() <= laid.len() == all.len() == requests.len()
        &&& forall|i: int|
            0 <= i < rs.len() ==> self.answers_by(
                requests[i],
                yielding(laid[i], all[i]),
                jsons[i],
                billed[i],
                #[trigger] rs[i],
            )
    }

    /// These requests are answered so, and the backend was asked this for it: to lay
    /// every request out, to run their passes together, each once, and to count the
    /// tokens of every request's answers.
    pub open spec fn answers_batch(
        self,
        requests: Seq<SystemOneRequest>,
        made: Seq<Call<F::State>>,
        rs: Seq<SystemOneResponse>,
    ) -> bool {
        exists|
            laid: Seq<Laid<F::State>>,
            all: Seq<Seq<F::State>>,
            run: Seq<Call<F::State>>,
            jsons: Seq<Seq<char>>,
            billed: Seq<Seq<u32>>,
        |
            #![trigger self.answers_batch_by(requests, laid, all, jsons, billed, rs), batch_calls(
                passes_of(laid),
                Ok(all),
                run,
            )]
            {
                &&& self.answers_batch_by(requests, laid, all, jsons, billed, rs)
                &&& rs.len() == requests.len()
                &&& batch_calls(passes_of(laid), Ok(all), run)
                &&& made == laid_calls(laid) + run + text_calls(jsons, billed)
            }
    }

    /// Why these requests are not answered, and what the backend was asked until then:
    /// one request is the first that cannot be laid out, and no pass is run; the passes,
    /// run together, come to nothing; or one request is the first that comes to no
    /// response.
    pub open spec fn fails_batch(
        self,
        requests: Seq<SystemOneRequest>,
        made: Seq<Call<F::State>>,
        e: Error,
    ) -> bool {
        ||| exists|laid: Seq<Laid<F::State>>, last: Seq<Call<F::State>>|
            #![trigger self.lays_first(requests, laid), self.lays_not(
                requests[laid.len() as int],
                last,
                e,
            )]
            {
                &&& self.lays_first(requests, laid)
                &&& laid.len() < requests.len()
                &&& self.lays_not(requests[laid.len() as int], last, e)
                &&& made == laid_calls(laid) + last
            }
        ||| exists|
            laid: Seq<Laid<F::State>>,
            yielded: Result<Seq<Seq<F::State>>, Error>,
            run: Seq<Call<F::State>>,
        |
            #![trigger self.lays_first(requests, laid), batch_calls(passes_of(laid), yielded, run)]
            {
                &&& self.lays_first(requests, laid)
                &&& laid.len() == requests.len()
                &&& batch_calls(passes_of(laid), yielded, run)
                &&& batch_fails::<F>(passes_of(laid), yielded, e)
                &&& made == laid_calls(laid) + run
            }
        ||| exists|
            laid: Seq<Laid<F::State>>,
            all: Seq<Seq<F::State>>,
            run: Seq<Call<F::State>>,
            jsons: Seq<Seq<char>>,
            billed: Seq<Seq<u32>>,
            rs: Seq<SystemOneResponse>,
            last: Seq<Call<F::State>>,
        |
            #![trigger self.answers_batch_by(requests, laid, all, jsons, billed, rs), batch_calls(
                passes_of(laid),
                Ok(all),
                run,
            ), self.unanswered(
                requests[rs.len() as int],
                yielding(laid[rs.len() as int], all[rs.len() as int]),
                last,
                e,
            )]
            {
                &&& self.lays_first(requests, laid)
                &&& self.answers_batch_by(requests, laid, all, jsons, billed, rs)
                &&& rs.len() < requests.len()
                &&& batch_calls(passes_of(laid), Ok(all), run)
                &&& F::computes(
                    layout::pass_of(laid[rs.len() as int].layout),
                    Ok(all[rs.len() as int]),
                )
                &&& self.unanswered(
                    requests[rs.len() as int],
                    yielding(laid[rs.len() as int], all[rs.len() as int]),
                    last,
                    e,
                )
                &&& made == laid_calls(laid) + run + text_calls(jsons, billed) + last
            }
    }

    /// Answer several requests, whose passes the backend is given at once.
    ///
    /// Over a backend that runs them one after the other this is a sequence of
    /// requests; one that can share the work of running their states does. A
    /// request that does not fit fails the whole batch.
    pub fn system_one_batch_blocking<T: Fn() -> Real>(
        &mut self,
        requests: &[SystemOneRequest],
        elapsed: &T,
    ) -> (out: Result<Vec<SystemOneResponse>, Error>)
        requires
            old(self).ready(),
            call_requires(*elapsed, ()),
            forall|i: int|
                0 <= i < requests@.len() ==> (#[trigger] requests@[i]).questions@.len() < u32::MAX
                    && all_answerable(plans_of(requests@[i].questions@)),
        ensures
            final(self).set_up_as(*old(self)),
            exists|made: Seq<Call<F::State>>|
                #[trigger] accounts(old(self).backend, final(self).backend, made) && match out {
                    Ok(rs) => old(self).answers_batch(requests@, made, rs@),
                    Err(e) => old(self).fails_batch(requests@, made, e),
                },
            out matches Ok(rs) ==> forall|i: int|
                0 <= i < rs@.len() ==> timed(*elapsed, #[trigger] rs@[i]),
    {
        let ghost begun = self.backend;
        let mut planned: Vec<Vec<Plan>> = Vec::new();
        let mut encodings: Vec<Encoding> = Vec::new();
        let mut readouts: Vec<Vec<usize>> = Vec::new();
        let ghost mut laid: Seq<Laid<F::State>> = Seq::empty();
        assert(begun.calls() + laid_calls(laid) =~= begun.calls());
        for i in 0..requests.len()
            invariant
                self.ready(),
                self.set_up_as(*old(self)),
                forall|j: int|
                    0 <= j < requests@.len() ==> (#[trigger] requests@[j]).questions@.len()
                        < u32::MAX && all_answerable(plans_of(requests@[j].questions@)),
                begun == old(self).backend,
                accounts(begun, self.backend, laid_calls(laid)),
                planned@.len() == i,
                encodings@.len() == i,
                readouts@.len() == i,
                laid.len() == i,
                old(self).lays_first(requests@, laid),
                forall|j: int|
                    0 <= j < i ==> encoded_as(
                        #[trigger] requests@[j],
                        planned@[j]@,
                        encodings@[j],
                        readouts@[j]@,
                        laid[j],
                    ),
        {
            let request = &requests[i];
            let (record, plans) = prompt::plan(request);
            assert(prompt::ask_texts(record.questions@) == asks_of(request.questions@));
            assert(prompt::plan_views(plans@) == plans_of(request.questions@));
            assert(record.questions@.len() == request.questions@.len()) by {
                assert(record.questions@.len() == prompt::ask_texts(record.questions@).len());
            }
            assert(plans@.len() == prompt::plan_views(plans@).len());
            let ghost so_far = self.backend;
            let ghost earlier = laid_calls(laid);
            let encoding = match self.encode(&record) {
                Ok(encoding) => encoding,
                Err(e) => {
                    proof {
                        let last = choose|made: Seq<Call<F::State>>|
                            #[trigger] accounts(so_far, self.backend, made) && laying_fails::<F>(
                                record.state@,
                                asks_of(request.questions@),
                                old(self).limits,
                                old(self).isolate,
                                made,
                                e,
                            );
                        lemma_accounts_join(begun, so_far, self.backend, earlier, last);
                        assert(old(self).lays_not(requests@[laid.len() as int], last, e));
                        assert(old(self).fails_batch(requests@, earlier + last, e));
                    }
                    return Err(e);
                },
            };
            let readout = encoding.readout();
            proof {
                let one = choose|laid: Laid<F::State>|
                    {
                        &&& #[trigger] lays_out::<F>(
                            record.state@,
                            asks_of(request.questions@),
                            old(self).limits,
                            old(self).isolate,
                            laid,
                        )
                        &&& laid.layout == encoding@
                        &&& accounts(so_far, self.backend, laid.asked)
                    };
                lemma_accounts_join(begun, so_far, self.backend, earlier, one.asked);
                let before = laid;
                laid = laid.push(one);
                assert(laid.drop_last() =~= before);
                assert forall|j: int| 0 <= j < laid.len() implies old(self).lays(
                    requests@[j],
                    #[trigger] laid[j],
                ) by {
                    if j < i {
                        assert(before[j] == laid[j]);
                    }
                }
                assert(encoded_as(requests@[i as int], plans@, encoding, readout@, one));
            }
            readouts.push(readout);
            encodings.push(encoding);
            planned.push(plans);
        }
        let mut passes: Vec<Pass<'_>> = Vec::new();
        for i in 0..requests.len()
            invariant
                encodings@.len() == requests@.len(),
                readouts@.len() == requests@.len(),
                passes@.len() == i,
                forall|j: int|
                    0 <= j < requests@.len() ==> encoded_as(
                        #[trigger] requests@[j],
                        planned@[j]@,
                        encodings@[j],
                        readouts@[j]@,
                        laid[j],
                    ),
                forall|j: int|
                    0 <= j < i ==> (#[trigger] passes@[j])@ == layout::pass_of(laid[j].layout),
        {
            let e = &encodings[i];
            let pass = Pass {
                ids: &e.ids,
                positions: &e.positions,
                segments: &e.segments,
                readout: &readouts[i],
                options: &e.slots,
            };
            proof {
                assert(encoded_as(
                    requests@[i as int],
                    planned@[i as int]@,
                    encodings@[i as int],
                    readouts@[i as int]@,
                    laid[i as int],
                ));
                assert(pass@ == layout::pass_of(encodings@[i as int]@));
            }
            passes.push(pass);
        }
        let ghost views = passes_of(laid);
        assert(pass_views(passes@) =~= views);
        let ghost mid = self.backend;
        let yielded = self.backend.hidden_batch(passes.as_slice());
        let ghost run = if F::keeps_account() {
            choose|made: Seq<Call<F::State>>|
                #[trigger] batch_calls(views, lists_of(yielded), made) && self.backend.calls()
                    == mid.calls() + made
        } else {
            seq![Call::Batch(views, lists_of(yielded))]
        };
        let ghost opened = laid_calls(laid) + run;
        proof {
            assert(batch_calls(views, lists_of(yielded), run));
            assert(accounts(mid, self.backend, run));
            lemma_accounts_join(begun, mid, self.backend, laid_calls(laid), run);
        }
        let hidden = match yielded {
            Ok(hidden) => hidden,
            Err(e) => {
                proof {
                    if !F::computes_batch(views, Err(e)) {
                        let i = choose|i: int|
                            0 <= i < passes@.len() && F::computes((#[trigger] passes@[i])@, Err(e));
                        assert(views[i] == passes@[i]@);
                        assert(F::computes(views[i], Err(e)));
                    }
                    assert(batch_calls(passes_of(laid), Err::<Seq<Seq<F::State>>, Error>(e), run));
                    assert(old(self).fails_batch(requests@, opened, e));
                }
                return Err(e);
            },
        };
        let ghost all = Seq::new(hidden@.len(), |i: int| hidden@[i]@);
        assert(batch_calls(passes_of(laid), Ok::<Seq<Seq<F::State>>, Error>(all), run));
        if hidden.len() != requests.len() {
            let mut message = "the backend answered ".to_owned();
            message.append(text::decimal_text(hidden.len()).as_str());
            message.append(" passes of ");
            message.append(text::decimal_text(requests.len()).as_str());
            proof {
                assert(F::computes_batch(views, Ok(all)));
                assert(message@ == batch_message(all.len(), views.len()));
                assert(old(self).fails_batch(requests@, opened, Error::Engine(message)));
            }
            return Err(Error::Engine(message));
        }
        assert forall|j: int| 0 <= j < requests@.len() implies F::computes(
            layout::pass_of(laid[j].layout),
            Ok(#[trigger] all[j]),
        ) by {
            assert(hidden@[j]@ == all[j]);
            assert(passes@[j]@ == layout::pass_of(laid[j].layout));
        }
        let mut out: Vec<SystemOneResponse> = Vec::new();
        let ghost mut jsons: Seq<Seq<char>> = Seq::empty();
        let ghost mut billed: Seq<Seq<u32>> = Seq::empty();
        assert(opened + text_calls::<F::State>(jsons, billed) =~= opened);
        for i in 0..requests.len()
            invariant
                self.ready(),
                self.set_up_as(*old(self)),
                planned@.len() == requests@.len(),
                encodings@.len() == requests@.len(),
                readouts@.len() == requests@.len(),
                hidden@.len() == requests@.len(),
                laid.len() == requests@.len(),
                all == Seq::new(hidden@.len(), |j: int| hidden@[j]@),
                begun == old(self).backend,
                opened == laid_calls(laid) + run,
                batch_calls(passes_of(laid), Ok::<Seq<Seq<F::State>>, Error>(all), run),
                accounts(
                    begun,
                    self.backend,
                    opened + text_calls::<F::State>(jsons, billed),
                ),
                old(self).lays_first(requests@, laid),
                forall|j: int|
                    0 <= j < requests@.len() ==> all_answerable(
                        plans_of((#[trigger] requests@[j]).questions@),
                    ),
                forall|j: int|
                    0 <= j < requests@.len() ==> encoded_as(
                        #[trigger] requests@[j],
                        planned@[j]@,
                        encodings@[j],
                        readouts@[j]@,
                        laid[j],
                    ),
                forall|j: int|
                    0 <= j < requests@.len() ==> F::computes(
                        layout::pass_of(laid[j].layout),
                        Ok(#[trigger] all[j]),
                    ),
                out@.len() == i,
                call_requires(*elapsed, ()),
                old(self).answers_batch_by(requests@, laid, all, jsons, billed, out@),
                forall|j: int| 0 <= j < i ==> timed(*elapsed, #[trigger] out@[j]),
        {
            let plans = &planned[i];
            let encoding = &encodings[i];
            let ghost request = requests@[i as int];
            let ghost reading = plans_of(request.questions@);
            let ghost e = encoding@;
            let ghost ran = yielding(laid[i as int], all[i as int]);
            let ghost so_far = self.backend;
            let ghost earlier = opened + text_calls::<F::State>(jsons, billed);
            proof {
                assert(encoded_as(
                    request,
                    plans@,
                    *encoding,
                    readouts@[i as int]@,
                    laid[i as int],
                ));
                assert(all[i as int] == hidden@[i as int]@);
                assert(F::computes(layout::pass_of(laid[i as int].layout), Ok(all[i as int])));
                assert(old(self).lays(requests@[i as int], laid[i as int]));
            }
            let scored = distributions(encoding, &hidden[i], plans.as_slice(), &self.score);
            assert(distributes(old(self).score, reading, e, ran.yielded, distributions_of(scored)));
            let ds = match scored {
                Ok(ds) => ds,
                Err(err) => {
                    proof {
                        let none = Seq::<Call<F::State>>::empty();
                        assert(old(self).unanswered(requests@[out@.len() as int], ran, none, err));
                        assert(earlier + none =~= earlier);
                        assert(old(self).fails_batch(requests@, earlier, err));
                    }
                    return Err(err);
                },
            };
            let given = match answers(ds.as_slice(), plans.as_slice()) {
                Ok(given) => given,
                Err(err) => {
                    proof {
                        let none = Seq::<Call<F::State>>::empty();
                        assert(old(self).run_fails(reading, ran, err));
                        assert(old(self).unanswered(requests@[out@.len() as int], ran, none, err));
                        assert(earlier + none =~= earlier);
                        assert(old(self).fails_batch(requests@, earlier, err));
                    }
                    return Err(err);
                },
            };
            let ghost shown = readout::answer_views(given@);
            proof {
                assert(distributes(
                    old(self).score,
                    reading,
                    ran.laid.layout,
                    ran.yielded,
                    Ok(ds@),
                ));
                assert(old(self).run_answers(reading, ran, shown));
            }
            let response = self.respond(
                &requests[i].model,
                given,
                encoding.ids.len() as u64,
                elapsed,
            );
            let ghost (json, counted) = choose|json: Seq<char>, counted: Result<Seq<u32>, Error>|
                {
                    &&& #[trigger] bills::<F, W>(old(self).write, shown, json, counted)
                    &&& accounts(
                        so_far,
                        self.backend,
                        seq![Call::<F::State>::Text(json, counted)],
                    )
                    &&& match counted {
                        Ok(tokens) => response matches Ok(r) && old(self).responds(
                            request.model,
                            shown,
                            encoding.ids@.len(),
                            tokens.len(),
                            r,
                        ) && timed(*elapsed, r),
                        Err(err) => response == Err::<SystemOneResponse, Error>(err),
                    }
                };
            let ghost last = seq![Call::<F::State>::Text(json, counted)];
            proof {
                lemma_accounts_join(begun, so_far, self.backend, earlier, last);
            }
            match response {
                Ok(response) => {
                    proof {
                        let before = jsons;
                        let paid = billed;
                        jsons = jsons.push(json);
                        billed = billed.push(counted->Ok_0);
                        assert(earlier + last =~= opened + text_calls::<F::State>(jsons, billed));
                        assert(old(self).answers_by(request, ran, json, counted->Ok_0, response));
                        assert forall|j: int| 0 <= j < i + 1 implies old(self).answers_by(
                            requests@[j],
                            yielding(laid[j], all[j]),
                            jsons[j],
                            billed[j],
                            #[trigger] out@.push(response)[j],
                        ) by {
                            if j < i {
                                assert(out@[j] == out@.push(response)[j]);
                                assert(before[j] == jsons[j]);
                                assert(paid[j] == billed[j]);
                            }
                        }
                    }
                    out.push(response);
                },
                Err(err) => {
                    proof {
                        assert(old(self).unanswered(requests@[out@.len() as int], ran, last, err));
                        assert(old(self).fails_batch(requests@, earlier + last, err));
                    }
                    return Err(err);
                },
            }
        }
        assert(opened + text_calls::<F::State>(jsons, billed) =~= laid_calls(laid) + run
            + text_calls::<F::State>(jsons, billed));
        Ok(out)
    }
}

/// A request with its plans, its layout, and where the layout is read from.
spec fn encoded_as<H>(
    request: SystemOneRequest,
    plans: Seq<Plan>,
    encoding: Encoding,
    readout: Seq<usize>,
    laid: Laid<H>,
) -> bool {
    &&& prompt::plan_views(plans) == plans_of(request.questions@)
    &&& plans.len() == request.questions@.len()
    &&& encoding.decide@.len() == plans.len()
    &&& encoding.options@.len() == plans.len()
    &&& encode::ints(readout) == encode::readout_of(encoding@, plans.len() as int)
    &&& laid.layout == encoding@
}

/// What is said of a backend that answers another number of passes than it was
/// given.
pub open spec fn batch_message(got: nat, wanted: nat) -> Seq<char> {
    "the backend answered "@ + text::decimal(got) + " passes of "@ + text::decimal(wanted)
}

/// A response says how long it took, by what `elapsed` said.
pub open spec fn timed<T: Fn() -> Real>(elapsed: T, r: SystemOneResponse) -> bool {
    r.latency_ms matches Some(ms) && call_ensures(elapsed, (), ms)
}

/// How many tokens these layouts hold together.
pub open spec fn tokens_in(es: Seq<EncodingView>) -> nat
    decreases es.len(),
{
    if es.len() == 0 {
        0
    } else {
        tokens_in(es.drop_last()) + es.last().ids.len()
    }
}

/// A number of tokens as it is counted: it stops where 64 bits end.
pub open spec fn counted(n: nat) -> nat {
    if n > u64::MAX {
        u64::MAX as nat
    } else {
        n
    }
}

proof fn lemma_answered_prefix(
    plans: Seq<PlanView>,
    ds: Seq<Distribution>,
    more: Seq<Distribution>,
)
    requires
        plans.len() <= ds.len() <= more.len(),
        forall|k: int| 0 <= k < ds.len() ==> ds[k] == more[k],
    ensures
        answered(plans, ds) == answered(plans, more),
    decreases plans.len(),
{
    if plans.len() > 0 {
        lemma_answered_prefix(plans.drop_last(), ds, more);
    }
}

fn copy_ask(ask: &Ask) -> (out: Ask)
    ensures
        out@ == ask@,
{
    Ask { instructions: ask.instructions.clone(), options: text::copy_texts(&ask.options) }
}

/// The questions of a request as the encoder sees them, in order.
pub open spec fn asks_of(questions: Seq<(Seq<char>, Question)>) -> Seq<AskText> {
    Seq::new(questions.len(), |i: int| prompt::ask_of(questions[i].1))
}

/// How the answers to a request's questions are read back, in order.
pub open spec fn plans_of(questions: Seq<(Seq<char>, Question)>) -> Seq<PlanView> {
    Seq::new(questions.len(), |i: int| prompt::plan_of(questions[i].0, questions[i].1))
}

/// A layout has one `<decide>` and one list of options per question.
proof fn lemma_encoded_shape<F: Forward>(
    state: Seq<char>,
    asks: Seq<AskText>,
    d: Delimiters,
    limits: Limits,
    isolate: bool,
    made: Seq<Call<F::State>>,
    e: EncodingView,
)
    requires
        encodes::<F>(state, asks, d, limits, isolate, made, e),
    ensures
        e.decide.len() == asks.len(),
        e.options.len() == asks.len(),
{
    let (state_tokens, ask_tokens) = choose|state_tokens: Seq<u32>, ask_tokens: Seq<AskView>|
        #![trigger reads_text::<F>(state, Ok(state_tokens)), reads_asks::<F>(asks, ask_tokens)]
        {
            let ids = encode::state_ids(d, limits, state_tokens);
            &&& reads_text::<F>(state, Ok(state_tokens))
            &&& reads_asks::<F>(asks, ask_tokens)
            &&& encode::all_fit(limits, isolate, ids.len() as int, ask_tokens)
            &&& e == encode::layout(d, isolate, ids, ask_tokens)
        };
    layout::lemma_layout(d, isolate, encode::state_ids(d, limits, state_tokens), ask_tokens);
}

/// Where no two questions have one id, the answers come in the order of the
/// questions, each under its question's id.
pub proof fn law_answers_come_in_the_order_of_the_questions(
    plans: Seq<PlanView>,
    ds: Seq<Distribution>,
)
    requires
        forall|i: int, j: int|
            0 <= i < j < plans.len() ==> (#[trigger] plans[i]).id != (#[trigger] plans[j]).id,
    ensures
        answered(plans, ds) == Seq::new(
            plans.len(),
            |i: int| (plans[i].id, readout::answer_of(plans[i], ds[i])),
        ),
    decreases plans.len(),
{
    if plans.len() > 0 {
        let rest = plans.drop_last();
        law_answers_come_in_the_order_of_the_questions(rest, ds);
        let before = answered(rest, ds);
        assert forall|i: int| 0 <= i < before.len() implies (#[trigger] before[i]).0
            != plans.last().id by {
            assert(before[i].0 == plans[i].id);
            assert(plans[i].id != plans[plans.len() - 1].id);
        }
        assert(!table::holds(before, plans.last().id));
    }
    assert(answered(plans, ds) =~= Seq::new(
        plans.len(),
        |i: int| (plans[i].id, readout::answer_of(plans[i], ds[i])),
    ));
}

/// A request's questions have ids of their own, so its answers come in their order.
pub proof fn law_a_requests_answers_come_in_its_order(
    questions: Seq<(Seq<char>, Question)>,
    ds: Seq<Distribution>,
    i: int,
)
    requires
        table::distinct_keys(questions),
        0 <= i < questions.len(),
    ensures
        answered(plans_of(questions), ds).len() == questions.len(),
        answered(plans_of(questions), ds)[i].0 == questions[i].0,
        answered(plans_of(questions), ds)[i].1 == readout::answer_of(plans_of(questions)[i], ds[i]),
{
    let plans = plans_of(questions);
    assert forall|a: int, b: int| 0 <= a < b < plans.len() implies (#[trigger] plans[a]).id != (
    #[trigger] plans[b]).id by {
        if questions[a].0 == questions[b].0 {
            assert(a == b);
        }
    }
    law_answers_come_in_the_order_of_the_questions(plans, ds);
}

// ---------------------------------------------------------------------------
// Together and apart
// ---------------------------------------------------------------------------

/// What a backend makes of one row: its tokens, their positions and slots, and
/// where it is read from.
pub type RowStates<H> = spec_fn(Seq<u32>, Seq<u32>, Seq<OptionSlot>, Seq<int>) -> Seq<H>;

/// What a backend makes of the first `n` rows of a pass, one after the other.
pub open spec fn states_by_row<H>(row: RowStates<H>, p: PassView, n: int) -> Seq<H>
    decreases n,
{
    if n <= 0 {
        Seq::empty()
    } else {
        let part = p.row_part(n as u32);
        states_by_row(row, p, n - 1) + row(part.ids, part.positions, part.options, part.readout)
    }
}

/// A backend that runs every question as if it were alone: what it makes of a pass
/// is what it makes of the pass's rows, one hidden state for each place that is
/// read.
pub open spec fn isolates<F: Forward>(row: RowStates<F::State>) -> bool {
    &&& forall|p: PassView, states: Seq<F::State>|
        #[trigger] F::computes(p, Ok(states)) <==> states == states_by_row(
            row,
            p,
            p.question_count() as int,
        )
    &&& forall|ids: Seq<u32>, positions: Seq<u32>, slots: Seq<OptionSlot>, readout: Seq<int>|
        (#[trigger] row(ids, positions, slots, readout)).len() == readout.len()
}

/// The hidden states of a layout's question are those of its row.
proof fn lemma_states_of_question<F: Forward>(
    row: RowStates<F::State>,
    d: Delimiters,
    isolate: bool,
    state: Seq<u32>,
    asks: Seq<AskView>,
    k: int,
    n: int,
)
    requires
        isolates::<F>(row),
        0 <= k < n <= asks.len() < u32::MAX,
    ensures
        ({
            let e = encode::layout(d, isolate, state, asks);
            let p = layout::pass_of(e);
            let part = p.row_part((k + 1) as u32);
            let states = states_by_row(row, p, n);
            let at = block_at(e.options, k);
            let width = 1 + e.options[k].len();
            &&& 0 <= at
            &&& at + width <= states.len()
            &&& states.len() == block_at(e.options, n)
            &&& states.subrange(at, at + width) == row(
                part.ids,
                part.positions,
                part.options,
                part.readout,
            )
        }),
    decreases n,
{
    let e = encode::layout(d, isolate, state, asks);
    let p = layout::pass_of(e);
    let m = n - 1;
    let last = p.row_part(n as u32);
    layout::lemma_layout(d, isolate, state, asks);
    layout::law_a_question_is_laid_out_as_if_alone(d, isolate, state, asks, m);
    lemma_alone_readout_len(d, isolate, state, asks[m]);
    assert(layout::branch_laid(e, d, isolate, state.len() as int, asks, m));
    lemma_states_len::<F>(row, d, isolate, state, asks, m);
    lemma_states_len::<F>(row, d, isolate, state, asks, n);
    lemma_block_at(e.options, k, m);
    lemma_block_at(e.options, m, n);
    let states = states_by_row(row, p, n);
    let before = states_by_row(row, p, m);
    let at = block_at(e.options, k);
    let width = 1 + e.options[k].len();
    if k < m {
        lemma_states_of_question::<F>(row, d, isolate, state, asks, k, m);
        assert(states.subrange(at, at + width) =~= before.subrange(at, at + width));
    } else {
        let own = row(last.ids, last.positions, last.options, last.readout);
        assert(states == before + own);
        assert(states.subrange(at, at + width) =~= own);
    }
}

/// A question asked alone is read from once per option and once more.
proof fn lemma_alone_readout_len(d: Delimiters, isolate: bool, state: Seq<u32>, ask: AskView)
    ensures
        layout::pass_of(encode::layout(d, isolate, state, seq![ask])).readout.len() == 1
            + ask.options.len(),
{
    let one = seq![ask];
    let e = encode::layout(d, isolate, state, one);
    layout::lemma_layout(d, isolate, state, one);
    assert(layout::branch_laid(e, d, isolate, state.len() as int, one, 0));
    lemma_readout_len(e, 1);
    assert(block_at(e.options, 1) == block_at(e.options, 0) + 1 + e.options[0].len());
}

proof fn lemma_states_len<F: Forward>(
    row: RowStates<F::State>,
    d: Delimiters,
    isolate: bool,
    state: Seq<u32>,
    asks: Seq<AskView>,
    n: int,
)
    requires
        isolates::<F>(row),
        0 <= n <= asks.len() < u32::MAX,
    ensures
        ({
            let e = encode::layout(d, isolate, state, asks);
            states_by_row(row, layout::pass_of(e), n).len() == block_at(e.options, n)
        }),
    decreases n,
{
    if n > 0 {
        let e = encode::layout(d, isolate, state, asks);
        let p = layout::pass_of(e);
        let m = n - 1;
        lemma_states_len::<F>(row, d, isolate, state, asks, m);
        layout::lemma_layout(d, isolate, state, asks);
        layout::law_a_question_is_laid_out_as_if_alone(d, isolate, state, asks, m);
        lemma_alone_readout_len(d, isolate, state, asks[m]);
        assert(layout::branch_laid(e, d, isolate, state.len() as int, asks, m));
        let part = p.row_part(n as u32);
        assert(row(part.ids, part.positions, part.options, part.readout).len()
            == part.readout.len());
    }
}

/// These distributions may come of this layout.
pub open spec fn distributed<F: Forward, S: Fn(Kind, &F::State, &[F::State]) -> Result<
    Distribution,
    Error,
>>(score: S, plans: Seq<PlanView>, e: EncodingView, ds: Seq<Distribution>) -> bool {
    exists|yielded: Result<Seq<F::State>, Error>|
        #[trigger] F::computes(layout::pass_of(e), yielded) && distributes(
            score,
            plans,
            e,
            yielded,
            Ok(ds),
        )
}

/// Asking a question together with others gives it the distribution that asking it
/// alone may give it, on a backend that runs every question as if it were alone.
pub proof fn law_asking_together_answers_as_asking_apart<
    F: Forward,
    S: Fn(Kind, &F::State, &[F::State]) -> Result<Distribution, Error>,
>(
    row: RowStates<F::State>,
    score: S,
    d: Delimiters,
    isolate: bool,
    state: Seq<u32>,
    asks: Seq<AskView>,
    plans: Seq<PlanView>,
    ds: Seq<Distribution>,
    k: int,
)
    requires
        isolates::<F>(row),
        0 <= k < asks.len() < u32::MAX,
        plans.len() == asks.len(),
        distributed::<F, S>(score, plans, encode::layout(d, isolate, state, asks), ds),
    ensures
        distributed::<F, S>(
            score,
            seq![plans[k]],
            encode::layout(d, isolate, state, seq![asks[k]]),
            seq![ds[k]],
        ),
{
    let e = encode::layout(d, isolate, state, asks);
    let p = layout::pass_of(e);
    let one = seq![asks[k]];
    let e1 = encode::layout(d, isolate, state, one);
    let p1 = layout::pass_of(e1);
    let yielded = choose|yielded: Result<Seq<F::State>, Error>|
        #[trigger] F::computes(p, yielded) && distributes(score, plans, e, yielded, Ok(ds));
    let states = yielded->Ok_0;
    assert(F::computes(p, Ok(states)));
    layout::lemma_layout(d, isolate, state, asks);
    layout::lemma_layout(d, isolate, state, one);
    layout::law_a_question_is_laid_out_as_if_alone(d, isolate, state, asks, k);
    layout::law_a_question_is_laid_out_as_if_alone(d, isolate, state, one, 0);
    assert(layout::branch_laid(e, d, isolate, state.len() as int, asks, k));
    assert(layout::branch_laid(e1, d, isolate, state.len() as int, one, 0));
    lemma_states_of_question::<F>(row, d, isolate, state, asks, k, asks.len() as int);
    lemma_states_of_question::<F>(row, d, isolate, state, one, 0, 1);
    assert(states == states_by_row(row, p, asks.len() as int));
    let alone = states_by_row(row, p1, 1);
    assert(F::computes(p1, Ok(alone)));
    let at = block_at(e.options, k);
    let n = e.options[k].len() as int;
    let part = p.row_part((k + 1) as u32);
    let part1 = p1.row_part(1);
    assert(part.ids == part1.ids);
    assert(part.positions == part1.positions);
    assert(part.options == part1.options);
    assert(part.readout == part1.readout);
    assert(block_at(e1.options, 0) == 0);
    assert(block_at(e1.options, 1) == 1 + n);
    assert(alone.subrange(0, 1 + n) =~= alone);
    assert(states.subrange(at, at + 1 + n) =~= alone);
    assert(states[at] == alone[0]) by {
        assert(states.subrange(at, at + 1 + n)[0] == states[at]);
    }
    assert(states.subrange(at + 1, at + 1 + n) =~= states.subrange(at, at + 1 + n).subrange(
        1,
        1 + n,
    ));
    assert(scores(score, plans[k].kind, states, at, n, Ok(ds[k])));
    assert(scores(score, plans[k].kind, alone, 0, n, Ok(ds[k])));
    assert(scores_all(score, seq![plans[k]], e1.options, alone, seq![ds[k]]));
}

/// A backend that reads every text one way, and has one id for every delimiter.
pub open spec fn settled<F: Forward>() -> bool {
    &&& forall|t: Seq<char>, a: Result<Seq<u32>, Error>, b: Result<Seq<u32>, Error>|
        #[trigger] F::tokenises(t, a) && #[trigger] F::tokenises(t, b) ==> a == b
    &&& forall|t: Seq<char>, a: Result<u32, Error>, b: Result<u32, Error>|
        #[trigger] F::delimits(t, a) && #[trigger] F::delimits(t, b) ==> a == b
}

/// A head that scores the same hidden states one way.
pub open spec fn scores_one_way<H, S: Fn(Kind, &H, &[H]) -> Result<Distribution, Error>>(
    score: S,
) -> bool {
    forall|
        kind: Kind,
        decide: &H,
        x: &[H],
        y: &[H],
        a: Result<Distribution, Error>,
        b: Result<Distribution, Error>,
    |
        x@ == y@ && #[trigger] call_ensures(score, (kind, decide, x), a)
            && #[trigger] call_ensures(score, (kind, decide, y), b) ==> a == b
}

/// The delimiters, the state and the questions that a layout is made of, in tokens.
proof fn lemma_laid_out<F: Forward>(
    state: Seq<char>,
    asks: Seq<AskText>,
    limits: Limits,
    isolate: bool,
    laid: Laid<F::State>,
) -> (parts: (Delimiters, Seq<u32>, Seq<AskView>))
    requires
        lays_out::<F>(state, asks, limits, isolate, laid),
    ensures
        delimited::<F>(parts.0),
        reads_text::<F>(state, Ok(parts.1)),
        reads_asks::<F>(asks, parts.2),
        laid.asked == delimiter_calls::<F::State>(delimiter_ids(parts.0)) + record_calls::<
            F::State,
        >(state, asks, parts.1, parts.2),
        laid.layout == encode::layout(
            parts.0,
            isolate,
            encode::state_ids(parts.0, limits, parts.1),
            parts.2,
        ),
{
    let (d, texts) = choose|d: Delimiters, texts: Seq<Call<F::State>>|
        {
            &&& delimited::<F>(d)
            &&& #[trigger] encodes::<F>(state, asks, d, limits, isolate, texts, laid.layout)
            &&& laid.asked == delimiter_calls::<F::State>(delimiter_ids(d)) + texts
        };
    let (state_tokens, ask_tokens) = choose|state_tokens: Seq<u32>, ask_tokens: Seq<AskView>|
        #![trigger reads_text::<F>(state, Ok(state_tokens)), reads_asks::<F>(asks, ask_tokens)]
        {
            let ids = encode::state_ids(d, limits, state_tokens);
            &&& reads_text::<F>(state, Ok(state_tokens))
            &&& reads_asks::<F>(asks, ask_tokens)
            &&& encode::all_fit(limits, isolate, ids.len() as int, ask_tokens)
            &&& laid.layout == encode::layout(d, isolate, ids, ask_tokens)
            &&& texts == record_calls::<F::State>(state, asks, state_tokens, ask_tokens)
        };
    (d, state_tokens, ask_tokens)
}

proof fn lemma_read_one_way<F: Forward>(ask: AskText, a: AskView, b: AskView)
    requires
        settled::<F>(),
        reads_ask::<F>(ask, a),
        reads_ask::<F>(ask, b),
    ensures
        a == b,
{
    assert(Ok::<Seq<u32>, Error>(a.instructions) == Ok::<Seq<u32>, Error>(b.instructions));
    assert forall|j: int| 0 <= j < a.options.len() implies a.options[j] == b.options[j] by {
        assert(reads_text::<F>(ask.options[j], Ok(a.options[j])));
        assert(reads_text::<F>(ask.options[j], Ok(b.options[j])));
        assert(Ok::<Seq<u32>, Error>(a.options[j]) == Ok::<Seq<u32>, Error>(b.options[j]));
    }
    assert(a.options =~= b.options);
}

proof fn lemma_delimited_one_way<F: Forward>(a: Delimiters, b: Delimiters)
    requires
        settled::<F>(),
        delimited::<F>(a),
        delimited::<F>(b),
    ensures
        a == b,
{
    let x = delimiter_ids(a);
    let y = delimiter_ids(b);
    assert forall|i: int| 0 <= i < 5 implies x[i] == y[i] by {
        assert(F::delimits(delimiter_texts()[i], Ok(x[i])));
        assert(F::delimits(delimiter_texts()[i], Ok(y[i])));
        assert(Ok::<u32, Error>(x[i]) == Ok::<u32, Error>(y[i]));
    }
    assert(x[0] == y[0] && x[1] == y[1] && x[2] == y[2] && x[3] == y[3] && x[4] == y[4]);
}

/// One question, laid out alone, comes to one distribution.
proof fn lemma_distributed_one_way<
    F: Forward,
    S: Fn(Kind, &F::State, &[F::State]) -> Result<Distribution, Error>,
>(
    row: RowStates<F::State>,
    score: S,
    plan: PlanView,
    e: EncodingView,
    a: Distribution,
    b: Distribution,
)
    requires
        isolates::<F>(row),
        scores_one_way(score),
        distributed::<F, S>(score, seq![plan], e, seq![a]),
        distributed::<F, S>(score, seq![plan], e, seq![b]),
    ensures
        a == b,
{
    let one = seq![plan];
    let p = layout::pass_of(e);
    let n = block_at(e.options, 1);
    let left = choose|yielded: Result<Seq<F::State>, Error>|
        #[trigger] F::computes(p, yielded) && distributes(score, one, e, yielded, Ok(seq![a]));
    let right = choose|yielded: Result<Seq<F::State>, Error>|
        #[trigger] F::computes(p, yielded) && distributes(score, one, e, yielded, Ok(seq![b]));
    let x = left->Ok_0;
    let y = right->Ok_0;
    assert(F::computes(p, Ok(x)) && F::computes(p, Ok(y)));
    assert(x == y);
    let at = block_at(e.options, 0);
    let wide = e.options[0].len() as int;
    assert(scores(score, one[0].kind, x, at, wide, Ok(seq![a][0])));
    assert(scores(score, one[0].kind, y, at, wide, Ok(seq![b][0])));
    assert(Ok::<Distribution, Error>(a) == Ok::<Distribution, Error>(b));
}

/// Answers are written one way, and counted one way.
proof fn lemma_billed_one_way<F: Forward, W: Fn(Real) -> String>(
    write: W,
    given: Seq<(Seq<char>, AnswerView)>,
    a: (Seq<char>, Seq<u32>),
    b: (Seq<char>, Seq<u32>),
)
    requires
        settled::<F>(),
        exists|texts: readout::Texts| #[trigger] readout::writes(write, texts),
        bills::<F, W>(write, given, a.0, Ok(a.1)),
        bills::<F, W>(write, given, b.0, Ok(b.1)),
    ensures
        a == b,
{
    let texts = choose|texts: readout::Texts| #[trigger] readout::writes(write, texts);
    assert(a.0 == b.0);
    assert(Ok::<Seq<u32>, Error>(a.1) == Ok::<Seq<u32>, Error>(b.1));
}

/// Layouts of one question each hold what the questions take when each is asked
/// alone.
proof fn lemma_tokens_in(
    d: Delimiters,
    isolate: bool,
    state: Seq<u32>,
    asks: Seq<AskView>,
    es: Seq<EncodingView>,
)
    requires
        es.len() == asks.len(),
        forall|k: int|
            0 <= k < es.len() ==> #[trigger] es[k] == encode::layout(
                d,
                isolate,
                state,
                seq![asks[k]],
            ),
    ensures
        tokens_in(es) == layout::tokens_apart(state.len() as int, asks),
    decreases es.len(),
{
    if es.len() > 0 {
        let rest = asks.drop_last();
        let fewer = es.drop_last();
        assert forall|k: int| 0 <= k < fewer.len() implies #[trigger] fewer[k] == encode::layout(
            d,
            isolate,
            state,
            seq![rest[k]],
        ) by {
            assert(fewer[k] == es[k]);
        }
        lemma_tokens_in(d, isolate, state, rest, fewer);
        layout::law_asking_apart_costs_the_state_again(d, isolate, state, asks);
        assert(es[es.len() - 1] == encode::layout(d, isolate, state, seq![asks.last()]));
    }
}

impl<
    F: Forward,
    S: Fn(Kind, &F::State, &[F::State]) -> Result<Distribution, Error>,
    W: Fn(Real) -> String,
> LocalEngine<F, S, W> {
    /// The state of this request, `<state>` first and cut to the limits, in tokens that
    /// the backend may give.
    pub open spec fn state_in_tokens(self, request: SystemOneRequest, ids: Seq<u32>) -> bool {
        exists|d: Delimiters, tokens: Seq<u32>|
            #![trigger delimited::<F>(d), encode::state_ids(d, self.limits, tokens)]
            {
                &&& delimited::<F>(d)
                &&& reads_text::<F>(prompt::rendered(request.state, Seq::empty()), Ok(tokens))
                &&& ids == encode::state_ids(d, self.limits, tokens)
            }
    }

    /// A question that was asked alone has the layout and the distribution that it has
    /// among others.
    proof fn lemma_alone_as_together(
        self,
        row: RowStates<F::State>,
        parts: (Delimiters, Seq<u32>, Seq<AskView>),
        state: Seq<char>,
        asks: Seq<AskText>,
        plans: Seq<PlanView>,
        ds: Seq<Distribution>,
        k: int,
        ran: Ran<F::State>,
        alone: Distribution,
    )
        requires
            isolates::<F>(row),
            settled::<F>(),
            scores_one_way(self.score),
            0 <= k < asks.len() < u32::MAX,
            plans.len() == asks.len(),
            delimited::<F>(parts.0),
            reads_text::<F>(state, Ok(parts.1)),
            reads_asks::<F>(asks, parts.2),
            distributed::<F, S>(
                self.score,
                plans,
                encode::layout(
                    parts.0,
                    self.isolate,
                    encode::state_ids(parts.0, self.limits, parts.1),
                    parts.2,
                ),
                ds,
            ),
            self.runs(state, seq![asks[k]], ran),
            distributes(
                self.score,
                seq![plans[k]],
                ran.laid.layout,
                ran.yielded,
                Ok(seq![alone]),
            ),
        ensures
            ran.laid.layout == encode::layout(
                parts.0,
                self.isolate,
                encode::state_ids(parts.0, self.limits, parts.1),
                seq![parts.2[k]],
            ),
            ds[k] == alone,
    {
        let (d, state_tokens, ask_tokens) = parts;
        let ids = encode::state_ids(d, self.limits, state_tokens);
        let one = seq![asks[k]];
        let e = ran.laid.layout;
        let (d1, state1, ask1) = lemma_laid_out::<F>(
            state,
            one,
            self.limits,
            self.isolate,
            ran.laid,
        );
        lemma_delimited_one_way::<F>(d, d1);
        assert(Ok::<Seq<u32>, Error>(state1) == Ok::<Seq<u32>, Error>(state_tokens));
        assert(reads_ask::<F>(one[0], ask1[0]));
        assert(reads_ask::<F>(asks[k], ask_tokens[k]));
        lemma_read_one_way::<F>(asks[k], ask_tokens[k], ask1[0]);
        assert(ask1 =~= seq![ask_tokens[k]]);
        law_asking_together_answers_as_asking_apart::<F, S>(
            row,
            self.score,
            d,
            self.isolate,
            ids,
            ask_tokens,
            plans,
            ds,
            k,
        );
        assert(distributed::<F, S>(self.score, seq![plans[k]], e, seq![alone]));
        lemma_distributed_one_way::<F, S>(row, self.score, plans[k], e, ds[k], alone);
    }

    /// What a request comes to from one run of all its questions and from one run of each:
    /// the same distributions, and the state once more for every further question.
    proof fn lemma_answered_alike(
        self,
        row: RowStates<F::State>,
        request: SystemOneRequest,
        ran: Ran<F::State>,
        ds: Seq<Distribution>,
        rans: Seq<Ran<F::State>>,
        ds_apart: Seq<Distribution>,
    ) -> (ids: Seq<u32>)
        requires
            isolates::<F>(row),
            settled::<F>(),
            scores_one_way(self.score),
            request.questions@.len() < u32::MAX,
            rans.len() == request.questions@.len(),
            self.runs(
                prompt::rendered(request.state, Seq::empty()),
                asks_of(request.questions@),
                ran,
            ),
            distributes(
                self.score,
                plans_of(request.questions@),
                ran.laid.layout,
                ran.yielded,
                Ok(ds),
            ),
            self.runs_apart(
                prompt::rendered(request.state, Seq::empty()),
                asks_of(request.questions@),
                plans_of(request.questions@),
                rans,
                ds_apart,
            ),
        ensures
            ds == ds_apart,
            self.state_in_tokens(request, ids),
            tokens_in(layouts_of(rans)) == ran.laid.layout.ids.len() + request.questions@.len()
                * ids.len() - ids.len(),
    {
        let state = prompt::rendered(request.state, Seq::empty());
        let asks = asks_of(request.questions@);
        let plans = plans_of(request.questions@);
        let e = ran.laid.layout;
        assert(distributed::<F, S>(self.score, plans, e, ds));
        let es = layouts_of(rans);
        let (d, state_tokens, ask_tokens) = lemma_laid_out::<F>(
            state,
            asks,
            self.limits,
            self.isolate,
            ran.laid,
        );
        let ids = encode::state_ids(d, self.limits, state_tokens);
        let n = plans.len() as int;
        assert forall|k: int| 0 <= k < n implies #[trigger] es[k] == encode::layout(
            d,
            self.isolate,
            ids,
            seq![ask_tokens[k]],
        ) && ds[k] == ds_apart[k] by {
            assert(es[k] == rans[k].laid.layout);
            assert(self.runs(state, seq![asks[k]], rans[k]));
            assert(distributes(
                self.score,
                seq![plans[k]],
                rans[k].laid.layout,
                rans[k].yielded,
                Ok(seq![ds_apart[k]]),
            ));
            self.lemma_alone_as_together(
                row,
                (d, state_tokens, ask_tokens),
                state,
                asks,
                plans,
                ds,
                k,
                rans[k],
                ds_apart[k],
            );
        }
        assert(ds.len() == n);
        assert forall|k: int| 0 <= k < n implies ds[k] == ds_apart[k] by {
            assert(es[k] == rans[k].laid.layout);
        }
        assert(ds =~= ds_apart);
        lemma_tokens_in(d, self.isolate, ids, ask_tokens, es);
        assert(self.state_in_tokens(request, ids));
        if n > 0 {
            layout::law_asking_apart_costs_the_state_again(d, self.isolate, ids, ask_tokens);
            assert(n * ids.len() == (n - 1) * ids.len() + ids.len()) by (nonlinear_arith);
        } else {
            layout::lemma_layout(d, self.isolate, ids, ask_tokens);
            assert(n * ids.len() == 0) by (nonlinear_arith)
                requires
                    n == 0,
            ;
        }
        ids
    }

    /// Asking the questions of a request one by one gives the answers that asking them
    /// together gives, on a backend that runs every question as if it were alone, reads
    /// every text one way, and whose head scores the same hidden states one way. What
    /// differs is the price: the state is counted once per question instead of once.
    pub proof fn law_a_request_is_answered_together_as_apart(
        self,
        row: RowStates<F::State>,
        request: SystemOneRequest,
        made: Seq<Call<F::State>>,
        together: SystemOneResponse,
        made_apart: Seq<Call<F::State>>,
        apart: SystemOneResponse,
    )
        requires
            isolates::<F>(row),
            settled::<F>(),
            scores_one_way(self.score),
            exists|texts: readout::Texts| #[trigger] readout::writes(self.write, texts),
            request.questions@.len() < u32::MAX,
            self.answers_request(request, made, together),
            self.answers_request_apart(request, made_apart, apart),
        ensures
            together.model@ == apart.model@,
            readout::answer_views(together.answers@) == readout::answer_views(apart.answers@),
            together.usage.output_tokens == apart.usage.output_tokens,
            exists|ids: Seq<u32>|
                #[trigger] self.state_in_tokens(request, ids) && apart.usage.input_tokens
                    == counted(
                    (together.usage.input_tokens + request.questions@.len() * ids.len()
                        - ids.len()) as nat,
                ),
    {
        let state = prompt::rendered(request.state, Seq::empty());
        let asks = asks_of(request.questions@);
        let plans = plans_of(request.questions@);
        let (ran, json, billed) = choose|ran: Ran<F::State>, json: Seq<char>, billed: Seq<u32>|
            #[trigger] self.answers_by(request, ran, json, billed, together) && made == ran_calls(
                ran,
            ).push(Call::Text(json, Ok(billed)));
        let (rans, ds_apart, json_apart, billed_apart) = choose|
            rans: Seq<Ran<F::State>>,
            ds: Seq<Distribution>,
            json: Seq<char>,
            billed: Seq<u32>,
        |
            #[trigger] self.answers_apart_by(request, rans, ds, json, billed, apart)
                && made_apart == all_calls(rans).push(Call::Text(json, Ok(billed)));
        let e = ran.laid.layout;
        let given = readout::answer_views(together.answers@);
        let ds = choose|ds: Seq<Distribution>|
            {
                &&& #[trigger] distributes(self.score, plans, e, ran.yielded, Ok(ds))
                &&& ds_fit(plans, ds)
                &&& given == answered(plans, ds)
            };
        let ids = self.lemma_answered_alike(row, request, ran, ds, rans, ds_apart);
        assert(given == answered(plans, ds_apart));
        lemma_billed_one_way::<F, W>(
            self.write,
            given,
            (json, billed),
            (json_apart, billed_apart),
        );
        assert(self.state_in_tokens(request, ids));
    }

    /// A request that is answered runs one pass.
    pub proof fn law_a_request_runs_one_pass(
        self,
        request: SystemOneRequest,
        made: Seq<Call<F::State>>,
        r: SystemOneResponse,
    )
        requires
            self.answers_request(request, made, r),
        ensures
            passes_in(made).len() == 1,
    {
        let (ran, json, billed) = choose|ran: Ran<F::State>, json: Seq<char>, billed: Seq<u32>|
            #[trigger] self.answers_by(request, ran, json, billed, r) && made == ran_calls(
                ran,
            ).push(Call::Text(json, Ok(billed)));
        self.lemma_passes_of_run(
            prompt::rendered(request.state, Seq::empty()),
            asks_of(request.questions@),
            ran,
        );
        lemma_passes_push(ran_calls(ran), Call::Text(json, Ok(billed)));
    }

    /// Asking the questions of a request one by one runs one pass per question, each
    /// with that question alone behind the state. Where options may read each other,
    /// every one of them gets by with a causal mask.
    pub proof fn law_apart_every_pass_carries_one_question(
        self,
        request: SystemOneRequest,
        made: Seq<Call<F::State>>,
        r: SystemOneResponse,
        k: int,
    )
        requires
            self.answers_request_apart(request, made, r),
            0 <= k < request.questions@.len(),
        ensures
            ({
                let pass = passes_in(made)[k];
                &&& passes_in(made).len() == request.questions@.len()
                &&& pass.question_count() == 1
                &&& pass.ids.len() == pass.segments.len()
                &&& layout::state_first(pass)
                &&& !self.isolate ==> pass.one_question()
            }),
    {
        let (rans, ds, json, billed) = choose|
            rans: Seq<Ran<F::State>>,
            ds: Seq<Distribution>,
            json: Seq<char>,
            billed: Seq<u32>,
        |
            #[trigger] self.answers_apart_by(request, rans, ds, json, billed, r) && made
                == all_calls(rans).push(Call::Text(json, Ok(billed)));
        let state = prompt::rendered(request.state, Seq::empty());
        let asks = Seq::new(rans.len(), |i: int| seq![asks_of(request.questions@)[i]]);
        assert forall|i: int| 0 <= i < rans.len() implies self.runs(
            state,
            asks[i],
            #[trigger] rans[i],
        ) by {
            assert(asks[i] == seq![asks_of(request.questions@)[i]]);
        }
        self.lemma_passes_of_runs(state, asks, rans);
        lemma_passes_push(all_calls(rans), Call::Text(json, Ok(billed)));
        assert(passes_in(made)[k] == layout::pass_of(rans[k].laid.layout));
        self.lemma_one_question(state, asks_of(request.questions@)[k], rans[k]);
    }

    /// The pass of a question that was asked alone.
    pub proof fn lemma_one_question(self, state: Seq<char>, ask: AskText, ran: Ran<F::State>)
        requires
            self.runs(state, seq![ask], ran),
        ensures
            ({
                let pass = layout::pass_of(ran.laid.layout);
                &&& pass.question_count() == 1
                &&& pass.ids.len() == pass.segments.len()
                &&& layout::state_first(pass)
                &&& !self.isolate ==> pass.one_question()
            }),
    {
        let one = seq![ask];
        let e = ran.laid.layout;
        let (d, state_tokens, ask_tokens) = lemma_laid_out::<F>(
            state,
            one,
            self.limits,
            self.isolate,
            ran.laid,
        );
        let ids = encode::state_ids(d, self.limits, state_tokens);
        let pass = layout::pass_of(e);
        layout::lemma_layout(d, self.isolate, ids, ask_tokens);
        layout::law_a_question_is_laid_out_as_if_alone(d, self.isolate, ids, ask_tokens, 0);
        layout::law_the_state_comes_first(d, self.isolate, ids, ask_tokens);
        assert(layout::branch_laid(e, d, self.isolate, ids.len() as int, ask_tokens, 0));
        let start = ids.len() as int;
        assert(layout::branch_start(start, ask_tokens, 0) == start);
        assert(layout::branch_start(start, ask_tokens, 1) == layout::branch_start(
            start,
            ask_tokens,
            0,
        ) + encode::branch_len(ask_tokens[0]));
        assert forall|i: int| 0 <= i < pass.segments.len() implies #[trigger] pass.segments[i] == 0
            || pass.segments[i] == 1 by {
            if i < start {
                assert(e.segments[i] == 0);
            } else {
                assert(e.segments[i] == 1);
            }
        }
    }

    /// A run is one pass.
    pub proof fn lemma_passes_of_run(
        self,
        state: Seq<char>,
        asks: Seq<AskText>,
        ran: Ran<F::State>,
    )
        requires
            self.runs(state, asks, ran),
        ensures
            passes_in(ran_calls(ran)) == seq![layout::pass_of(ran.laid.layout)],
    {
        let (d, state_tokens, ask_tokens) = lemma_laid_out::<F>(
            state,
            asks,
            self.limits,
            self.isolate,
            ran.laid,
        );
        lemma_words_only_asks::<F::State>(asks, ask_tokens);
        lemma_no_passes(ran.laid.asked);
        lemma_passes_push(
            ran.laid.asked,
            Call::Pass(layout::pass_of(ran.laid.layout), ran.yielded),
        );
        assert(passes_in(ran_calls(ran)) =~= seq![layout::pass_of(ran.laid.layout)]);
    }

    /// Runs are one pass each, in their order.
    pub proof fn lemma_passes_of_runs(
        self,
        state: Seq<char>,
        asks: Seq<Seq<AskText>>,
        rans: Seq<Ran<F::State>>,
    )
        requires
            rans.len() <= asks.len(),
            forall|i: int|
                0 <= i < rans.len() ==> self.runs(state, asks[i], #[trigger] rans[i]),
        ensures
            passes_in(all_calls(rans)) == Seq::new(
                rans.len(),
                |i: int| layout::pass_of(rans[i].laid.layout),
            ),
        decreases rans.len(),
    {
        let own = Seq::new(rans.len(), |i: int| layout::pass_of(rans[i].laid.layout));
        if rans.len() > 0 {
            let fewer = rans.drop_last();
            assert forall|i: int| 0 <= i < fewer.len() implies self.runs(
                state,
                asks[i],
                #[trigger] fewer[i],
            ) by {
                assert(fewer[i] == rans[i]);
            }
            self.lemma_passes_of_runs(state, asks, fewer);
            assert(self.runs(state, asks[rans.len() - 1], rans[rans.len() - 1]));
            self.lemma_passes_of_run(state, asks[rans.len() - 1], rans.last());
            lemma_passes_join(all_calls(fewer), ran_calls(rans.last()));
            assert(own =~= Seq::new(
                fewer.len(),
                |i: int| layout::pass_of(fewer[i].laid.layout),
            ) + seq![layout::pass_of(rans.last().laid.layout)]);
        } else {
            assert(own =~= passes_in(all_calls(rans)));
        }
    }
}

/// The passes among these calls, in order.
pub open spec fn passes_in<H>(calls: Seq<Call<H>>) -> Seq<PassView>
    decreases calls.len(),
{
    if calls.len() == 0 {
        Seq::empty()
    } else {
        let before = passes_in(calls.drop_last());
        match calls.last() {
            Call::Pass(pass, _) => before.push(pass),
            Call::Batch(passes, _) => before + passes,
            _ => before,
        }
    }
}

/// One more call.
proof fn lemma_passes_push<H>(calls: Seq<Call<H>>, call: Call<H>)
    ensures
        passes_in(calls.push(call)) == match call {
            Call::Pass(pass, _) => passes_in(calls).push(pass),
            Call::Batch(passes, _) => passes_in(calls) + passes,
            _ => passes_in(calls),
        },
{
    assert(calls.push(call).drop_last() == calls);
}

/// The passes of some calls, and then those of others.
proof fn lemma_passes_join<H>(first: Seq<Call<H>>, second: Seq<Call<H>>)
    ensures
        passes_in(first + second) == passes_in(first) + passes_in(second),
    decreases second.len(),
{
    if second.len() == 0 {
        assert(first + second =~= first);
        assert(passes_in(first) + passes_in(second) =~= passes_in(first));
    } else {
        let fewer = second.drop_last();
        lemma_passes_join(first, fewer);
        assert(first + second =~= (first + fewer).push(second.last()));
        lemma_passes_push(first + fewer, second.last());
        assert(passes_in(first + second) =~= passes_in(first) + passes_in(second));
    }
}

/// Whether none of these calls is to run a pass.
spec fn words_only<H>(calls: Seq<Call<H>>) -> bool {
    forall|i: int|
        0 <= i < calls.len() ==> (#[trigger] calls[i] is Text) || (calls[i] is Delimiter)
}

/// Where no call is to run a pass, there is none.
proof fn lemma_no_passes<H>(calls: Seq<Call<H>>)
    requires
        words_only(calls),
    ensures
        passes_in(calls) == Seq::<PassView>::empty(),
    decreases calls.len(),
{
    if calls.len() > 0 {
        let fewer = calls.drop_last();
        assert forall|i: int| 0 <= i < fewer.len() implies (#[trigger] fewer[i] is Text) || (
        fewer[i] is Delimiter) by {
            assert(fewer[i] == calls[i]);
        }
        lemma_no_passes(fewer);
        assert(calls[calls.len() - 1] is Text || calls[calls.len() - 1] is Delimiter);
    }
}

/// Questions are read without a pass.
proof fn lemma_words_only_asks<H>(asks: Seq<AskText>, tokens: Seq<AskView>)
    ensures
        words_only(ask_calls::<H>(asks, tokens)),
    decreases tokens.len(),
{
    if tokens.len() > 0 {
        lemma_words_only_asks::<H>(asks, tokens.drop_last());
    }
}

// ---------------------------------------------------------------------------
// What goes where
// ---------------------------------------------------------------------------

/// Each delimiter is the id that the backend gives for its own special token.
pub proof fn law_every_delimiter_is_its_own_token<F: Forward>(d: Delimiters)
    requires
        delimited::<F>(d),
    ensures
        F::delimits("<|fim_prefix|>"@, Ok(d.state)),
        F::delimits("<|fim_middle|>"@, Ok(d.question)),
        F::delimits("<|box_start|>"@, Ok(d.option)),
        F::delimits("<|box_end|>"@, Ok(d.option_end)),
        F::delimits("<|fim_suffix|>"@, Ok(d.decide)),
{
    assert(delimiter_ids(d)[0] == d.state);
    assert(delimiter_ids(d)[1] == d.question);
    assert(delimiter_ids(d)[2] == d.option);
    assert(delimiter_ids(d)[3] == d.option_end);
    assert(delimiter_ids(d)[4] == d.decide);
}

/// Every text of a record is tokenised on its own, escaped, and laid out under its own question:
/// the state, each question's instructions and each of its options, all of them.
pub proof fn law_every_text_is_tokenised_escaped<F: Forward>(
    state: Seq<char>,
    asks: Seq<AskText>,
    d: Delimiters,
    limits: Limits,
    isolate: bool,
    made: Seq<Call<F::State>>,
    e: EncodingView,
) -> (read: (Seq<u32>, Seq<AskView>))
    requires
        encodes::<F>(state, asks, d, limits, isolate, made, e),
    ensures
        F::tokenises(encode::escaped(state), Ok(read.0)),
        read.1.len() == asks.len(),
        forall|k: int|
            0 <= k < asks.len() ==> F::tokenises(
                encode::escaped(asks[k].instructions),
                Ok((#[trigger] read.1[k]).instructions),
            ) && read.1[k].options.len() == asks[k].options.len(),
        forall|k: int, j: int|
            0 <= k < asks.len() && 0 <= j < asks[k].options.len() ==> F::tokenises(
                encode::escaped(asks[k].options[j]),
                Ok(#[trigger] read.1[k].options[j]),
            ),
        e == encode::layout(d, isolate, encode::state_ids(d, limits, read.0), read.1),
        forall|k: int|
            0 <= k < asks.len() ==> encode::state_ids(d, limits, read.0).len() + encode::branch_ids(
                d,
                #[trigger] read.1[k],
            ).len() <= limits.max_branch,
{
    let (state_tokens, ask_tokens) = choose|state_tokens: Seq<u32>, ask_tokens: Seq<AskView>|
        #![trigger reads_text::<F>(state, Ok(state_tokens)), reads_asks::<F>(asks, ask_tokens)]
        {
            let ids = encode::state_ids(d, limits, state_tokens);
            &&& reads_text::<F>(state, Ok(state_tokens))
            &&& reads_asks::<F>(asks, ask_tokens)
            &&& encode::all_fit(limits, isolate, ids.len() as int, ask_tokens)
            &&& e == encode::layout(d, isolate, ids, ask_tokens)
            &&& made == record_calls::<F::State>(state, asks, state_tokens, ask_tokens)
        };
    assert forall|k: int| 0 <= k < asks.len() implies F::tokenises(
        encode::escaped(asks[k].instructions),
        Ok((#[trigger] ask_tokens[k]).instructions),
    ) && ask_tokens[k].options.len() == asks[k].options.len() by {
        assert(reads_ask::<F>(asks[k], ask_tokens[k]));
    }
    assert forall|k: int, j: int|
        0 <= k < asks.len() && 0 <= j < asks[k].options.len() implies F::tokenises(
        encode::escaped(asks[k].options[j]),
        Ok(#[trigger] ask_tokens[k].options[j]),
    ) by {
        assert(reads_ask::<F>(asks[k], ask_tokens[k]));
        assert(reads_text::<F>(asks[k].options[j], Ok(ask_tokens[k].options[j])));
    }
    let len = encode::state_ids(d, limits, state_tokens).len();
    assert forall|k: int| 0 <= k < asks.len() implies len + encode::branch_ids(
        d,
        #[trigger] ask_tokens[k],
    ).len() <= limits.max_branch by {
        assert(encode::fits(limits, len as int, ask_tokens[k]));
        encode::lemma_branch_len(d, isolate, len as int, ask_tokens[k]);
    }
    (state_tokens, ask_tokens)
}

/// The states that a question is scored by are those that were read for it: its decision's first,
/// and then its options' in order.
pub proof fn law_a_questions_states_stand_where_it_is_read(e: EncodingView, n: int, k: int, j: int)
    requires
        0 <= k < n <= e.decide.len(),
        n <= e.options.len(),
    ensures
        encode::readout_of(e, n).len() == block_at(e.options, n),
        0 <= block_at(e.options, k),
        block_at(e.options, k) + e.options[k].len() < encode::readout_of(e, n).len(),
        encode::readout_of(e, n)[block_at(e.options, k)] == e.decide[k],
        0 <= j < e.options[k].len() ==> encode::readout_of(e, n)[block_at(e.options, k) + 1 + j]
            == e.options[k][j],
    decreases n,
{
    lemma_readout_len(e, n);
    lemma_readout_len(e, n - 1);
    lemma_block_at(e.options, 0, k);
    let before = encode::readout_of(e, n - 1);
    let after = encode::readout_of(e, n);
    assert(after == before + seq![e.decide[n - 1]] + e.options[n - 1]);
    if k < n - 1 {
        law_a_questions_states_stand_where_it_is_read(e, n - 1, k, j);
    } else {
        assert(after[before.len() as int] == e.decide[k]);
    }
}

/// Each question is scored once, by its own kind, from the state of its decision against the
/// states of all its options in their order.
pub proof fn law_each_question_is_scored_by_its_own_states<
    H,
    S: Fn(Kind, &H, &[H]) -> Result<Distribution, Error>,
>(
    score: S,
    plans: Seq<PlanView>,
    e: EncodingView,
    states: Seq<H>,
    ds: Seq<Distribution>,
    k: int,
)
    requires
        distributes(score, plans, e, Ok(states), Ok(ds)),
        plans.len() <= e.decide.len(),
        plans.len() <= e.options.len(),
        0 <= k < plans.len(),
    ensures
        ds.len() == plans.len(),
        states.len() == encode::readout_of(e, plans.len() as int).len(),
        exists|options: &[H]|
            {
                &&& #[trigger] call_ensures(
                    score,
                    (plans[k].kind, &states[block_at(e.options, k)], options),
                    Ok(ds[k]),
                )
                &&& options@.len() == e.options[k].len()
                &&& forall|j: int|
                    0 <= j < e.options[k].len() ==> #[trigger] options@[j] == states[block_at(
                        e.options,
                        k,
                    ) + 1 + j]
            },
{
    lemma_readout_len(e, plans.len() as int);
    let at = block_at(e.options, k);
    let n = e.options[k].len() as int;
    assert(scores(score, plans[k].kind, states, at, n, Ok(ds[k])));
    let options = choose|options: &[H]|
        options@ == states.subrange(at + 1, at + 1 + n) && #[trigger] call_ensures(
            score,
            (plans[k].kind, &states[at], options),
            Ok(ds[k]),
        );
    lemma_block_at(e.options, 0, k);
    lemma_block_at(e.options, k + 1, plans.len() as int);
    assert(at + 1 + n <= states.len());
    assert(call_ensures(score, (plans[k].kind, &states[at], options), Ok(ds[k])));
}

/// Each question of a request is asked by its own text and read back by its own plan, in order.
pub proof fn law_each_question_is_asked_and_read_as_itself(
    questions: Seq<(Seq<char>, Question)>,
    i: int,
)
    requires
        0 <= i < questions.len(),
    ensures
        asks_of(questions).len() == questions.len(),
        plans_of(questions).len() == questions.len(),
        asks_of(questions)[i] == prompt::ask_of(questions[i].1),
        plans_of(questions)[i] == prompt::plan_of(questions[i].0, questions[i].1),
{
}

/// A model that a request pins is the one a response names; otherwise it is the engine's own.
pub proof fn law_a_pinned_model_is_named(pinned: Option<String>, own: Seq<char>)
    ensures
        pinned matches Some(model) ==> model_of(pinned, own) == model@,
        pinned is None ==> model_of(pinned, own) == own,
{
}

/// The tokens of several passes are counted together, one encoding after the other, up to what can
/// be counted.
pub proof fn law_every_encodings_tokens_are_counted(es: Seq<EncodingView>, e: EncodingView, n: nat)
    ensures
        tokens_in(Seq::empty()) == 0,
        tokens_in(es.push(e)) == tokens_in(es) + e.ids.len(),
        n <= 0xffff_ffff_ffff_ffff ==> counted(n) == n,
        n > 0xffff_ffff_ffff_ffff ==> counted(n) == 0xffff_ffff_ffff_ffff,
{
    assert(es.push(e).drop_last() =~= es);
}

impl<
    F: Forward,
    S: Fn(Kind, &F::State, &[F::State]) -> Result<Distribution, Error>,
    W: Fn(Real) -> String,
> LocalEngine<F, S, W> {
    /// A response gives every answer under its question's id in the order asked, and is billed
    /// for the tokens of the prompt and for those of the answers as they are serialised.
    pub proof fn law_a_response_is_billed_for_prompt_and_answers(
        self,
        request: SystemOneRequest,
        ran: Ran<F::State>,
        json: Seq<char>,
        billed: Seq<u32>,
        r: SystemOneResponse,
    )
        requires
            self.answers_by(request, ran, json, billed, r),
        ensures
            r.usage.input_tokens == ran.laid.layout.ids.len(),
            r.usage.output_tokens == billed.len(),
            F::tokenises(json, Ok(billed)),
            forall|texts: readout::Texts|
                #[trigger] readout::writes(self.write, texts) ==> json == readout::answers_chars(
                    readout::answer_views(r.answers@),
                    texts,
                ),
            request.model matches Some(model) ==> r.model@ == model@,
            request.model is None ==> r.model@ == self.model@,
            r.request_id is None,
            F::computes(layout::pass_of(ran.laid.layout), ran.yielded),
    {
    }

    /// The answers of a response are what the scored distributions come to, question by question.
    pub proof fn law_a_response_answers_every_question(
        self,
        request: SystemOneRequest,
        ran: Ran<F::State>,
        json: Seq<char>,
        billed: Seq<u32>,
        r: SystemOneResponse,
    ) -> (ds: Seq<Distribution>)
        requires
            self.answers_by(request, ran, json, billed, r),
            table::distinct_keys(request.questions@),
        ensures
            distributes(
                self.score,
                plans_of(request.questions@),
                ran.laid.layout,
                ran.yielded,
                Ok(ds),
            ),
            r.answers@.len() == request.questions@.len(),
            forall|i: int|
                0 <= i < request.questions@.len() ==> (#[trigger] r.answers@[i]).0
                    == request.questions@[i].0 && r.answers@[i].1@ == readout::answer_of(
                    prompt::plan_of(request.questions@[i].0, request.questions@[i].1),
                    ds[i],
                ),
    {
        let questions = request.questions@;
        let plans = plans_of(questions);
        let given = readout::answer_views(r.answers@);
        let ds = choose|ds: Seq<Distribution>|
            {
                &&& #[trigger] distributes(
                    self.score,
                    plans,
                    ran.laid.layout,
                    ran.yielded,
                    Ok(ds),
                )
                &&& ds_fit(plans, ds)
                &&& given == answered(plans, ds)
            };
        assert(given.len() == r.answers@.len());
        if questions.len() > 0 {
            law_a_requests_answers_come_in_its_order(questions, ds, 0);
        } else {
            assert(plans.len() == 0);
        }
        assert forall|i: int| 0 <= i < questions.len() implies (#[trigger] r.answers@[i]).0
            == questions[i].0 && r.answers@[i].1@ == readout::answer_of(
            prompt::plan_of(questions[i].0, questions[i].1),
            ds[i],
        ) by {
            law_a_requests_answers_come_in_its_order(questions, ds, i);
            assert(given[i] == (r.answers@[i].0, r.answers@[i].1@));
        }
        ds
    }

    /// Asked apart, every question is run alone, over the same state, and read from its own run;
    /// the prompts of all runs are billed.
    pub proof fn law_apart_every_question_is_run_alone(
        self,
        request: SystemOneRequest,
        rans: Seq<Ran<F::State>>,
        ds: Seq<Distribution>,
        json: Seq<char>,
        billed: Seq<u32>,
        r: SystemOneResponse,
        k: int,
    )
        requires
            self.answers_apart_by(request, rans, ds, json, billed, r),
            0 <= k < request.questions@.len(),
        ensures
            rans.len() == request.questions@.len(),
            self.runs(
                prompt::rendered(request.state, Seq::empty()),
                seq![prompt::ask_of(request.questions@[k].1)],
                rans[k],
            ),
            distributes(
                self.score,
                seq![prompt::plan_of(request.questions@[k].0, request.questions@[k].1)],
                rans[k].laid.layout,
                rans[k].yielded,
                Ok(seq![ds[k]]),
            ),
            r.usage.input_tokens == counted(tokens_in(layouts_of(rans))),
            r.usage.output_tokens == billed.len(),
            readout::answer_views(r.answers@) == answered(plans_of(request.questions@), ds),
            ds[k].options@.len() == plans_of(request.questions@)[k].keys.len(),
            F::tokenises(json, Ok(billed)),
            forall|texts: readout::Texts|
                #[trigger] readout::writes(self.write, texts) ==> json == readout::answers_chars(
                    readout::answer_views(r.answers@),
                    texts,
                ),
            request.model matches Some(model) ==> r.model@ == model@,
            request.model is None ==> r.model@ == self.model@,
            r.request_id is None,
    {
        assert(self.runs(
            prompt::rendered(request.state, Seq::empty()),
            seq![asks_of(request.questions@)[k]],
            rans[k],
        ));
    }

    /// A batch answers every request as if it were asked by itself, with what its own pass
    /// yielded.
    pub proof fn law_a_batch_answers_every_request(
        self,
        requests: Seq<SystemOneRequest>,
        laid: Seq<Laid<F::State>>,
        all: Seq<Seq<F::State>>,
        jsons: Seq<Seq<char>>,
        billed: Seq<Seq<u32>>,
        rs: Seq<SystemOneResponse>,
        i: int,
    )
        requires
            self.answers_batch_by(requests, laid, all, jsons, billed, rs),
            0 <= i < rs.len(),
        ensures
            rs.len() <= requests.len() == laid.len() == all.len(),
            self.answers_by(
                requests[i],
                Ran { laid: laid[i], yielded: Ok(all[i]) },
                jsons[i],
                billed[i],
                rs[i],
            ),
            rs[i].usage.input_tokens == laid[i].layout.ids.len(),
    {
        assert(self.answers_by(
            requests[i],
            yielding(laid[i], all[i]),
            jsons[i],
            billed[i],
            rs[i],
        ));
    }
}

// ---------------------------------------------------------------------------
// Why there is no answer
// ---------------------------------------------------------------------------

/// What can be in the way of an answer.
pub enum Reason<H> {
    /// The backend has no token for a delimiter.
    Delimiter(int),
    /// The context is too small for anything.
    Limits,
    /// The state cannot be tokenised.
    State,
    /// A question's instructions cannot be tokenised.
    Instructions(int),
    /// One of a question's options cannot be tokenised.
    Option(int, int),
    /// A question does not fit, or has more options than can be told apart.
    Question(int, Delimiters, Seq<u32>, AskView),
    /// The backend did not run the pass.
    Pass(PassView),
    /// The backend yielded another number of states than were to be read.
    States(PassView, Seq<H>),
    /// A question could not be scored.
    Score(int, Seq<H>, int),
    /// A question's distribution does not fit it.
    Fit(int, Distribution),
    /// The answers cannot be tokenised.
    Bill(Seq<char>),
}

/// This is why a record with this state and these questions is not laid out.
pub open spec fn explains<F: Forward>(
    why: Reason<F::State>,
    state: Seq<char>,
    asks: Seq<AskText>,
    limits: Limits,
    isolate: bool,
    e: Error,
) -> bool {
    match why {
        Reason::Delimiter(i) => 0 <= i < 5 && F::delimits(encode::SPECIAL@[i]@, Err(e)),
        Reason::Limits => (limits.max_state < 2 || limits.max_branch < limits.max_state)
            && e is Engine,
        Reason::State => F::tokenises(encode::escaped(state), Err(e)),
        Reason::Instructions(k) => 0 <= k < asks.len() && F::tokenises(
            encode::escaped(asks[k].instructions),
            Err(e),
        ),
        Reason::Option(k, j) => 0 <= k < asks.len() && 0 <= j < asks[k].options.len()
            && F::tokenises(encode::escaped(asks[k].options[j]), Err(e)),
        Reason::Question(k, d, state_tokens, tokens) => {
            &&& 0 <= k < asks.len()
            &&& F::tokenises(encode::escaped(state), Ok(state_tokens))
            &&& F::tokenises(encode::escaped(asks[k].instructions), Ok(tokens.instructions))
            &&& tokens.options.len() == asks[k].options.len()
            &&& forall|j: int|
                0 <= j < tokens.options.len() ==> F::tokenises(
                    encode::escaped(asks[k].options[j]),
                    Ok(#[trigger] tokens.options[j]),
                )
            &&& if isolate && tokens.options.len() > 256 {
                e is Invalid
            } else {
                e is ContextOverflow && encode::state_ids(d, limits, state_tokens).len()
                    + encode::branch_ids(d, tokens).len() > limits.max_branch
            }
        },
        _ => false,
    }
}

proof fn lemma_ask_stopped<F: Forward>(ask: AskText, read: Seq<Seq<u32>>, e: Error)
    requires
        fails_ask::<F>(ask, read, e),
    ensures
        read.len() == 0 ==> F::tokenises(encode::escaped(ask.instructions), Err(e)),
        read.len() > 0 ==> read.len() <= ask.options.len() && F::tokenises(
            encode::escaped(ask.options[read.len() - 1]),
            Err(e),
        ),
{
    let due = ask_due(ask);
    if read.len() > 0 {
        assert(due[read.len() as int] == encode::escaped(ask.options[read.len() - 1]));
    }
}

/// A record is laid out wherever nothing stands in its way: where it is not, a text of it cannot
/// be tokenised, a delimiter has no token, a question does not fit its row or has more options
/// than can be told apart, or the context is no use at all.
pub proof fn law_a_record_is_refused_only_for_a_reason<F: Forward>(
    state: Seq<char>,
    asks: Seq<AskText>,
    limits: Limits,
    isolate: bool,
    made: Seq<Call<F::State>>,
    e: Error,
) -> (why: Reason<F::State>)
    requires
        laying_fails::<F>(state, asks, limits, isolate, made, e),
    ensures
        explains::<F>(why, state, asks, limits, isolate, e),
{
    if undelimited::<F>(made, e) {
        let ids = choose|ids: Seq<u32>|
            {
                &&& ids.len() < 5
                &&& forall|i: int|
                    0 <= i < ids.len() ==> F::delimits(delimiter_texts()[i], Ok(#[trigger] ids[i]))
                &&& F::delimits(delimiter_texts()[ids.len() as int], Err(e))
                &&& made == (#[trigger] delimiter_calls::<F::State>(ids)).push(
                    Call::Delimiter(delimiter_texts()[ids.len() as int], Err(e)),
                )
            };
        let i = ids.len() as int;
        assert(delimiter_texts()[i] == encode::SPECIAL@[i]@);
        Reason::Delimiter(i)
    } else {
        let (d, texts) = choose|d: Delimiters, texts: Seq<Call<F::State>>|
            {
                &&& delimited::<F>(d)
                &&& #[trigger] encoding_fails::<F>(state, asks, d, limits, isolate, texts, e)
                &&& made == delimiter_calls::<F::State>(delimiter_ids(d)) + texts
            };
        if !limits.usable() {
            Reason::Limits
        } else if reads_text::<F>(state, Err(e)) {
            Reason::State
        } else if text_fails::<F>(state, asks, d, limits, isolate, texts, e) {
            let (state_tokens, ask_tokens, read) = choose|
                state_tokens: Seq<u32>,
                ask_tokens: Seq<AskView>,
                read: Seq<Seq<u32>>,
            |
                #![trigger reads_text::<F>(state, Ok(state_tokens)), reads_first::<F>(asks, ask_tokens), fails_ask::<F>(
                    asks[ask_tokens.len() as int],
                    read,
                    e,
                )]
                {
                    let len = encode::state_ids(d, limits, state_tokens).len() as int;
                    &&& reads_text::<F>(state, Ok(state_tokens))
                    &&& ask_tokens.len() < asks.len()
                    &&& reads_first::<F>(asks, ask_tokens)
                    &&& encode::all_fit(limits, isolate, len, ask_tokens)
                    &&& fails_ask::<F>(asks[ask_tokens.len() as int], read, e)
                    &&& texts == record_calls::<F::State>(state, asks, state_tokens, ask_tokens)
                        + stopped_calls::<F::State>(ask_due(asks[ask_tokens.len() as int]), read, e)
                };
            let k = ask_tokens.len() as int;
            lemma_ask_stopped::<F>(asks[k], read, e);
            if read.len() == 0 {
                Reason::Instructions(k)
            } else {
                Reason::Option(k, read.len() - 1)
            }
        } else {
            let (state_tokens, ask_tokens) = choose|
                state_tokens: Seq<u32>,
                ask_tokens: Seq<AskView>,
            |
                #![trigger reads_text::<F>(state, Ok(state_tokens)), reads_first::<F>(asks, ask_tokens)]
                {
                    let len = encode::state_ids(d, limits, state_tokens).len() as int;
                    &&& reads_text::<F>(state, Ok(state_tokens))
                    &&& ask_tokens.len() > 0
                    &&& reads_first::<F>(asks, ask_tokens)
                    &&& encode::all_fit(limits, isolate, len, ask_tokens.drop_last())
                    &&& !(encode::isolable(isolate, ask_tokens.last()) && encode::fits(
                        limits,
                        len,
                        ask_tokens.last(),
                    ))
                    &&& encode::refusal(limits, isolate, len, ask_tokens.last(), e)
                    &&& texts == record_calls::<F::State>(state, asks, state_tokens, ask_tokens)
                };
            let k = ask_tokens.len() - 1;
            let tokens = ask_tokens[k];
            assert(reads_ask::<F>(asks[k], tokens));
            assert forall|j: int| 0 <= j < tokens.options.len() implies F::tokenises(
                encode::escaped(asks[k].options[j]),
                Ok(#[trigger] tokens.options[j]),
            ) by {
                assert(reads_text::<F>(asks[k].options[j], Ok(tokens.options[j])));
            }
            encode::lemma_branch_len(
                d,
                isolate,
                encode::state_ids(d, limits, state_tokens).len() as int,
                tokens,
            );
            Reason::Question(k, d, state_tokens, tokens)
        }
    }
}

impl<
    F: Forward,
    S: Fn(Kind, &F::State, &[F::State]) -> Result<Distribution, Error>,
    W: Fn(Real) -> String,
> LocalEngine<F, S, W> {
    /// This is why a request is not answered.
    pub open spec fn accounts_for(
        self,
        why: Reason<F::State>,
        state: Seq<char>,
        asks: Seq<AskText>,
        plans: Seq<PlanView>,
        e: Error,
    ) -> bool {
        match why {
            Reason::Pass(pass) => F::computes(pass, Err(e)),
            Reason::States(pass, states) => F::computes(pass, Ok(states)) && states.len()
                != pass.readout.len() && e is Engine,
            Reason::Score(k, states, at) => 0 <= k < plans.len() && exists|options: &[F::State]|
                #[trigger] call_ensures(self.score, (plans[k].kind, &states[at], options), Err(e)),
            Reason::Fit(k, d) => 0 <= k < plans.len() && d.options@.len() != plans[k].keys.len()
                && e is Engine,
            Reason::Bill(json) => F::tokenises(json, Err(e)),
            _ => explains::<F>(why, state, asks, self.limits, self.isolate, e),
        }
    }

    proof fn lemma_run_failed(
        self,
        state: Seq<char>,
        asks: Seq<AskText>,
        plans: Seq<PlanView>,
        ran: Ran<F::State>,
        e: Error,
    ) -> (why: Reason<F::State>)
        requires
            self.runs(state, asks, ran),
            asks.len() == plans.len(),
            self.run_fails(plans, ran, e),
        ensures
            self.accounts_for(why, state, asks, plans, e),
    {
        let layout = ran.laid.layout;
        let pass = layout::pass_of(layout);
        let (d, texts) = choose|d: Delimiters, texts: Seq<Call<F::State>>|
            {
                &&& delimited::<F>(d)
                &&& #[trigger] encodes::<F>(
                    state,
                    asks,
                    d,
                    self.limits,
                    self.isolate,
                    texts,
                    layout,
                )
                &&& ran.laid.asked == delimiter_calls::<F::State>(delimiter_ids(d)) + texts
            };
        lemma_encoded_shape::<F>(state, asks, d, self.limits, self.isolate, texts, layout);
        lemma_readout_len(layout, plans.len() as int);
        if distributes(self.score, plans, layout, ran.yielded, Err(e)) {
            match ran.yielded {
                Err(_) => Reason::Pass(pass),
                Ok(states) => {
                    if states.len() != block_at(layout.options, plans.len() as int) {
                        Reason::States(pass, states)
                    } else {
                        let k = choose|k: int|
                            0 <= k < plans.len() && scores(
                                self.score,
                                (#[trigger] plans[k]).kind,
                                states,
                                block_at(layout.options, k),
                                layout.options[k].len() as int,
                                Err(e),
                            );
                        Reason::Score(k, states, block_at(layout.options, k))
                    }
                },
            }
        } else {
            let ds = choose|ds: Seq<Distribution>|
                #[trigger] distributes(self.score, plans, layout, ran.yielded, Ok(ds)) && misfits(
                    plans,
                    ds,
                    e,
                );
            let k = choose|k: int|
                0 <= k < plans.len() && (#[trigger] ds[k]).options@.len() != plans[k].keys.len()
                    && e.is_engine(readout::misfit_message(plans[k], ds[k].options@.len()));
            Reason::Fit(k, ds[k])
        }
    }

    proof fn lemma_failed_together(
        self,
        state: Seq<char>,
        asks: Seq<AskText>,
        plans: Seq<PlanView>,
        made: Seq<Call<F::State>>,
        e: Error,
    ) -> (why: Reason<F::State>)
        requires
            asks.len() == plans.len(),
            self.fails_together(state, asks, plans, made, e),
        ensures
            self.accounts_for(why, state, asks, plans, e),
    {
        if laying_fails::<F>(state, asks, self.limits, self.isolate, made, e) {
            law_a_record_is_refused_only_for_a_reason::<F>(
                state,
                asks,
                self.limits,
                self.isolate,
                made,
                e,
            )
        } else {
            let ran = choose|ran: Ran<F::State>|
                #[trigger] self.runs(state, asks, ran) && made == ran_calls(ran) && self.run_fails(
                    plans,
                    ran,
                    e,
                );
            self.lemma_run_failed(state, asks, plans, ran, e)
        }
    }

    /// A request is answered wherever nothing stands in its way: where it is not, it could not be
    /// laid out, the backend did not run it or yielded another number of states than were to be
    /// read, a question could not be scored or its distribution does not fit it, or the answers
    /// could not be tokenised to be billed.
    pub proof fn law_a_request_fails_only_for_a_reason(
        self,
        request: SystemOneRequest,
        made: Seq<Call<F::State>>,
        e: Error,
    ) -> (why: Reason<F::State>)
        requires
            self.fails_request(request, made, e),
        ensures
            self.accounts_for(
                why,
                prompt::rendered(request.state, Seq::empty()),
                asks_of(request.questions@),
                plans_of(request.questions@),
                e,
            ),
    {
        let state = prompt::rendered(request.state, Seq::empty());
        let asks = asks_of(request.questions@);
        let plans = plans_of(request.questions@);
        if self.lays_not(request, made, e) {
            law_a_record_is_refused_only_for_a_reason::<F>(
                state,
                asks,
                self.limits,
                self.isolate,
                made,
                e,
            )
        } else {
            let (ran, last) = choose|ran: Ran<F::State>, last: Seq<Call<F::State>>|
                {
                    &&& self.runs(state, asks, ran)
                    &&& #[trigger] self.unanswered(request, ran, last, e)
                    &&& made == ran_calls(ran) + last
                };
            if self.run_fails(plans, ran, e) {
                self.lemma_run_failed(state, asks, plans, ran, e)
            } else {
                let (given, json) = choose|
                    given: Seq<(Seq<char>, AnswerView)>,
                    json: Seq<char>,
                |
                    #![trigger self.run_answers(plans, ran, given), bills::<F, W>(
                        self.write,
                        given,
                        json,
                        Err(e),
                    )]
                    {
                        &&& self.run_answers(plans, ran, given)
                        &&& bills::<F, W>(self.write, given, json, Err(e))
                        &&& last == seq![Call::<F::State>::Text(json, Err(e))]
                    };
                Reason::Bill(json)
            }
        }
    }

    /// Asked apart, a request fails for a reason of one of its questions alone, or because the
    /// answers could not be billed.
    pub proof fn law_apart_a_request_fails_only_for_a_reason(
        self,
        request: SystemOneRequest,
        made: Seq<Call<F::State>>,
        e: Error,
    ) -> (why: (int, Reason<F::State>))
        requires
            self.fails_request_apart(request, made, e),
        ensures
            why.1 matches Reason::Bill(json) ==> F::tokenises(json, Err(e)),
            !(why.1 is Bill) ==> 0 <= why.0 < request.questions@.len() && self.accounts_for(
                why.1,
                prompt::rendered(request.state, Seq::empty()),
                seq![prompt::ask_of(request.questions@[why.0].1)],
                seq![prompt::plan_of(request.questions@[why.0].0, request.questions@[why.0].1)],
                e,
            ),
    {
        let state = prompt::rendered(request.state, Seq::empty());
        let asks = asks_of(request.questions@);
        let plans = plans_of(request.questions@);
        if exists|rans: Seq<Ran<F::State>>, ds: Seq<Distribution>, last: Seq<Call<F::State>>|
            #![trigger self.runs_apart(state, asks, plans, rans, ds), self.fails_together(
                state,
                seq![asks[rans.len() as int]],
                seq![plans[rans.len() as int]],
                last,
                e,
            )]
            {
                &&& self.runs_apart(state, asks, plans, rans, ds)
                &&& rans.len() < plans.len()
                &&& self.fails_together(
                    state,
                    seq![asks[rans.len() as int]],
                    seq![plans[rans.len() as int]],
                    last,
                    e,
                )
                &&& made == all_calls(rans) + last
            } {
            let (rans, ds, last) = choose|
                rans: Seq<Ran<F::State>>,
                ds: Seq<Distribution>,
                last: Seq<Call<F::State>>,
            |
                #![trigger self.runs_apart(state, asks, plans, rans, ds), self.fails_together(
                    state,
                    seq![asks[rans.len() as int]],
                    seq![plans[rans.len() as int]],
                    last,
                    e,
                )]
                {
                    &&& self.runs_apart(state, asks, plans, rans, ds)
                    &&& rans.len() < plans.len()
                    &&& self.fails_together(
                        state,
                        seq![asks[rans.len() as int]],
                        seq![plans[rans.len() as int]],
                        last,
                        e,
                    )
                    &&& made == all_calls(rans) + last
                };
            let k = rans.len() as int;
            let why = self.lemma_failed_together(state, seq![asks[k]], seq![plans[k]], last, e);
            (k, why)
        } else {
            let (rans, ds, json) = choose|
                rans: Seq<Ran<F::State>>,
                ds: Seq<Distribution>,
                json: Seq<char>,
            |
                #![trigger self.runs_apart(state, asks, plans, rans, ds), bills::<F, W>(
                    self.write,
                    answered(plans, ds),
                    json,
                    Err(e),
                )]
                {
                    &&& self.runs_apart(state, asks, plans, rans, ds)
                    &&& rans.len() == plans.len()
                    &&& bills::<F, W>(self.write, answered(plans, ds), json, Err(e))
                    &&& made == all_calls(rans).push(Call::Text(json, Err(e)))
                };
            (0, Reason::Bill(json))
        }
    }
}

impl<
    F: Forward,
    S: Fn(Kind, &F::State, &[F::State]) -> Result<Distribution, Error>,
    W: Fn(Real) -> String,
> LocalEngine<F, S, W> {
    proof fn lemma_unanswered_for_a_reason(
        self,
        request: SystemOneRequest,
        ran: Ran<F::State>,
        last: Seq<Call<F::State>>,
        e: Error,
    ) -> (why: Reason<F::State>)
        requires
            self.runs(
                prompt::rendered(request.state, Seq::empty()),
                asks_of(request.questions@),
                ran,
            ),
            self.unanswered(request, ran, last, e),
        ensures
            self.accounts_for(
                why,
                prompt::rendered(request.state, Seq::empty()),
                asks_of(request.questions@),
                plans_of(request.questions@),
                e,
            ),
    {
        let state = prompt::rendered(request.state, Seq::empty());
        let asks = asks_of(request.questions@);
        let plans = plans_of(request.questions@);
        if self.run_fails(plans, ran, e) {
            self.lemma_run_failed(state, asks, plans, ran, e)
        } else {
            let (given, json) = choose|given: Seq<(Seq<char>, AnswerView)>, json: Seq<char>|
                #![trigger self.run_answers(plans, ran, given), bills::<F, W>(
                    self.write,
                    given,
                    json,
                    Err(e),
                )]
                {
                    &&& self.run_answers(plans, ran, given)
                    &&& bills::<F, W>(self.write, given, json, Err(e))
                    &&& last == seq![Call::<F::State>::Text(json, Err(e))]
                };
            Reason::Bill(json)
        }
    }

    /// A batch fails for a reason of one of its requests, or because the backend did not run the
    /// batch or one of its passes, or answered another number of passes than it was given.
    pub proof fn law_a_batch_fails_only_for_a_reason(
        self,
        requests: Seq<SystemOneRequest>,
        made: Seq<Call<F::State>>,
        e: Error,
    ) -> (why: (int, Option<Reason<F::State>>))
        requires
            self.fails_batch(requests, made, e),
        ensures
            why.1 matches Some(reason) ==> 0 <= why.0 < requests.len() && self.accounts_for(
                reason,
                prompt::rendered(requests[why.0].state, Seq::empty()),
                asks_of(requests[why.0].questions@),
                plans_of(requests[why.0].questions@),
                e,
            ),
            why.1 is None ==> exists|
                passes: Seq<PassView>,
                yielded: Result<Seq<Seq<F::State>>, Error>,
            |
                passes.len() == requests.len() && #[trigger] batch_fails::<F>(passes, yielded, e),
    {
        if exists|laid: Seq<Laid<F::State>>, last: Seq<Call<F::State>>|
            #![trigger self.lays_first(requests, laid), self.lays_not(
                requests[laid.len() as int],
                last,
                e,
            )]
            {
                &&& self.lays_first(requests, laid)
                &&& laid.len() < requests.len()
                &&& self.lays_not(requests[laid.len() as int], last, e)
                &&& made == laid_calls(laid) + last
            } {
            let (laid, last) = choose|laid: Seq<Laid<F::State>>, last: Seq<Call<F::State>>|
                #![trigger self.lays_first(requests, laid), self.lays_not(
                    requests[laid.len() as int],
                    last,
                    e,
                )]
                {
                    &&& self.lays_first(requests, laid)
                    &&& laid.len() < requests.len()
                    &&& self.lays_not(requests[laid.len() as int], last, e)
                    &&& made == laid_calls(laid) + last
                };
            let i = laid.len() as int;
            let reason = law_a_record_is_refused_only_for_a_reason::<F>(
                prompt::rendered(requests[i].state, Seq::empty()),
                asks_of(requests[i].questions@),
                self.limits,
                self.isolate,
                last,
                e,
            );
            (i, Some(reason))
        } else if exists|
            laid: Seq<Laid<F::State>>,
            yielded: Result<Seq<Seq<F::State>>, Error>,
            run: Seq<Call<F::State>>,
        |
            #![trigger self.lays_first(requests, laid), batch_calls(passes_of(laid), yielded, run)]
            {
                &&& self.lays_first(requests, laid)
                &&& laid.len() == requests.len()
                &&& batch_calls(passes_of(laid), yielded, run)
                &&& batch_fails::<F>(passes_of(laid), yielded, e)
                &&& made == laid_calls(laid) + run
            } {
            (0, None)
        } else {
            let (laid, all, run, jsons, billed, rs, last) = choose|
                laid: Seq<Laid<F::State>>,
                all: Seq<Seq<F::State>>,
                run: Seq<Call<F::State>>,
                jsons: Seq<Seq<char>>,
                billed: Seq<Seq<u32>>,
                rs: Seq<SystemOneResponse>,
                last: Seq<Call<F::State>>,
            |
                #![trigger self.answers_batch_by(requests, laid, all, jsons, billed, rs), batch_calls(
                    passes_of(laid),
                    Ok(all),
                    run,
                ), self.unanswered(
                    requests[rs.len() as int],
                    yielding(laid[rs.len() as int], all[rs.len() as int]),
                    last,
                    e,
                )]
                {
                    &&& self.lays_first(requests, laid)
                    &&& self.answers_batch_by(requests, laid, all, jsons, billed, rs)
                    &&& rs.len() < requests.len()
                    &&& batch_calls(passes_of(laid), Ok(all), run)
                    &&& F::computes(
                        layout::pass_of(laid[rs.len() as int].layout),
                        Ok(all[rs.len() as int]),
                    )
                    &&& self.unanswered(
                        requests[rs.len() as int],
                        yielding(laid[rs.len() as int], all[rs.len() as int]),
                        last,
                        e,
                    )
                    &&& made == laid_calls(laid) + run + text_calls(jsons, billed) + last
                };
            let i = rs.len() as int;
            assert(self.lays(requests[i], laid[i]));
            let reason = self.lemma_unanswered_for_a_reason(
                requests[i],
                yielding(laid[i], all[i]),
                last,
                e,
            );
            (i, Some(reason))
        }
    }
}

/// A batch that fails in the backend was not run by it, or one of its passes was not, or another
/// number of passes was answered than were given.
pub proof fn law_a_batch_is_answered_pass_by_pass<F: Forward>(
    passes: Seq<PassView>,
    yielded: Result<Seq<Seq<F::State>>, Error>,
    e: Error,
)
    requires
        batch_fails::<F>(passes, yielded, e),
    ensures
        yielded matches Err(why) ==> why == e && (F::computes_batch(passes, Err(e)) || exists|i: int|
            0 <= i < passes.len() && F::computes(#[trigger] passes[i], Err(e))),
        yielded matches Ok(all) ==> all.len() != passes.len() && F::computes_batch(passes, Ok(all))
            && e is Engine,
{
}

/// What is handed back is handed on as it is: lists by their items, in order, and errors as they
/// are.
pub proof fn law_results_are_handed_on_as_they_are<H>(
    tokens: Result<Vec<u32>, Error>,
    states: Result<Vec<H>, Error>,
    lists: Result<Vec<Vec<H>>, Error>,
    ds: Result<Vec<Distribution>, Error>,
)
    ensures
        tokens matches Ok(v) ==> tokens_of(tokens) == Ok::<Seq<u32>, Error>(v@),
        tokens matches Err(e) ==> tokens_of(tokens) == Err::<Seq<u32>, Error>(e),
        states matches Ok(v) ==> states_of(states) == Ok::<Seq<H>, Error>(v@),
        states matches Err(e) ==> states_of(states) == Err::<Seq<H>, Error>(e),
        lists matches Ok(v) ==> (lists_of(lists) matches Ok(all) && all.len() == v@.len()
            && forall|i: int| 0 <= i < all.len() ==> #[trigger] all[i] == v@[i]@),
        lists matches Err(e) ==> lists_of(lists) == Err::<Seq<Seq<H>>, Error>(e),
        ds matches Ok(v) ==> distributions_of(ds) == Ok::<Seq<Distribution>, Error>(v@),
        ds matches Err(e) ==> distributions_of(ds) == Err::<Seq<Distribution>, Error>(e),
{
}

/// Passes are seen one by one, in order.
pub proof fn law_passes_are_seen_in_order(passes: Seq<Pass<'_>>, i: int)
    requires
        0 <= i < passes.len(),
    ensures
        pass_views(passes).len() == passes.len(),
        pass_views(passes)[i] == passes[i]@,
{
}

/// A response is timed by the clock it was given.
pub proof fn law_a_response_is_timed<T: Fn() -> Real>(elapsed: T, r: SystemOneResponse)
    requires
        timed(elapsed, r),
    ensures
        exists|ms: Real| r.latency_ms == Some(ms) && #[trigger] call_ensures(elapsed, (), ms),
{
}

/// What the backend is asked is kept account of, call by call: nothing that was asked before is
/// lost, and nothing comes in between.
pub proof fn law_calls_are_accounted_for<F: Forward>(
    before: F,
    after: F,
    made: Seq<Call<F::State>>,
)
    requires
        accounts(before, after, made),
        F::keeps_account(),
    ensures
        after.calls().len() == before.calls().len() + made.len(),
        after.calls().take(before.calls().len() as int) == before.calls(),
        after.calls().skip(before.calls().len() as int) == made,
{
    assert((before.calls() + made).take(before.calls().len() as int) =~= before.calls());
    assert((before.calls() + made).skip(before.calls().len() as int) =~= made);
}

/// A wrong number of states or of passes is named with the number that was wanted.
pub proof fn law_a_wrong_number_is_named(got: nat, wanted: nat)
    ensures
        states_message(got, wanted) == "the backend returned "@ + text::decimal(got)
            + " hidden states for "@ + text::decimal(wanted) + " readout positions"@,
        batch_message(got, wanted) == "the backend answered "@ + text::decimal(got) + " passes of "@
            + text::decimal(wanted),
{
}

impl<
    F: Forward,
    S: Fn(Kind, &F::State, &[F::State]) -> Result<Distribution, Error>,
    W: Fn(Real) -> String,
> LocalEngine<F, S, W> {
    /// A run lays out the whole record, within the engine's limits and with its isolation, and
    /// hands the backend just that layout as one pass.
    pub proof fn law_a_run_lays_out_the_whole_record(
        self,
        state: Seq<char>,
        asks: Seq<AskText>,
        ran: Ran<F::State>,
    ) -> (laid: (Delimiters, Seq<Call<F::State>>))
        requires
            self.runs(state, asks, ran),
        ensures
            delimited::<F>(laid.0),
            encodes::<F>(
                state,
                asks,
                laid.0,
                self.limits,
                self.isolate,
                laid.1,
                ran.laid.layout,
            ),
            F::computes(layout::pass_of(ran.laid.layout), ran.yielded),
            ran_calls(ran).last() == Call::<F::State>::Pass(
                layout::pass_of(ran.laid.layout),
                ran.yielded,
            ),
    {
        choose|d: Delimiters, texts: Seq<Call<F::State>>|
            {
                &&& delimited::<F>(d)
                &&& #[trigger] encodes::<F>(
                    state,
                    asks,
                    d,
                    self.limits,
                    self.isolate,
                    texts,
                    ran.laid.layout,
                )
                &&& ran.laid.asked == delimiter_calls::<F::State>(delimiter_ids(d)) + texts
            }
    }
}

} // verus!
