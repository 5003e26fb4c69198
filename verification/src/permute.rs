//! Whether the order of a question's options moves its answer.
//!
//! One choice question is asked under several option orders. The first run keeps
//! the order as given, the rest are shuffled from a seed, and the report says how
//! far each probability travelled and whether the winner ever changed.

use vstd::prelude::*;

use crate::error;
use crate::error::Error;
use crate::local;
use crate::local::{Call, Forward, LocalEngine, Ran};
use crate::number;
use crate::number::Real;
use crate::prompt;
use crate::prompt::{Ask, AskText, Kind, Plan, PlanView, Record};
use crate::readout;
use crate::readout::{AnswerView, Distribution};
use crate::table;
use crate::table::Table;
use crate::text;
use crate::types::{Answer, Question, SystemOneRequest};

verus! {

/// The fewest and the most orders a question is asked under.
pub const MAX_ROUNDS: usize = 64;

/// A number of rounds as it is run: at least one, at most [`MAX_ROUNDS`].
pub open spec fn rounds_run(rounds: nat) -> nat {
    if rounds < 1 {
        1
    } else if rounds > MAX_ROUNDS {
        MAX_ROUNDS as nat
    } else {
        rounds
    }
}

/// A number of rounds as it is run: at least one, at most [`MAX_ROUNDS`].
pub fn clamp_rounds(rounds: usize) -> (out: usize)
    ensures
        out == rounds_run(rounds as nat),
{
    if rounds < 1 {
        1
    } else if rounds > MAX_ROUNDS {
        MAX_ROUNDS
    } else {
        rounds
    }
}

/// How far the generator steps at a time.
pub const STEP: u64 = 0x9e37_79b9_7f4a_7c15;

/// A number with its bits well mixed.
pub open spec fn mixed(n: u64) -> u64 {
    let a = (n ^ (n >> 30)).wrapping_mul(0xbf58_476d_1ce4_e5b9);
    let b = (a ^ (a >> 27)).wrapping_mul(0x94d0_49bb_1331_11eb);
    b ^ (b >> 31)
}

fn mix(n: u64) -> (out: u64)
    ensures
        out == mixed(n),
{
    let a: u64 = (n ^ (n >> 30)).wrapping_mul(0xbf58_476d_1ce4_e5b9);
    let b: u64 = (a ^ (a >> 27)).wrapping_mul(0x94d0_49bb_1331_11eb);
    b ^ (b >> 31)
}

/// The places of a list with two of them exchanged.
pub open spec fn exchanged(order: Seq<usize>, i: int, j: int) -> Seq<usize> {
    order.update(i, order[j]).update(j, order[i])
}

/// The order with the places up to `i` shuffled, from the last down.
pub open spec fn shuffled(order: Seq<usize>, state: u64, i: int) -> Seq<usize>
    decreases i,
{
    if i <= 0 {
        order
    } else {
        let next = state.wrapping_add(STEP);
        let j = mixed(next) as int % (i + 1);
        shuffled(exchanged(order, i, j), next, i - 1)
    }
}

/// The order as given.
pub open spec fn as_given(n: nat) -> Seq<usize> {
    Seq::new(n, |i: int| i as usize)
}

/// The order of the options in one round.
pub open spec fn order_of(n: nat, seed: u64, round: nat) -> Seq<usize> {
    if round == 0 {
        as_given(n)
    } else {
        shuffled(as_given(n), mixed(mixed(seed).wrapping_add(round as u64)), n - 1)
    }
}

/// Every place from zero on occurs once.
pub open spec fn permutes(order: Seq<usize>) -> bool {
    &&& forall|i: int| 0 <= i < order.len() ==> #[trigger] order[i] < order.len()
    &&& order.no_duplicates()
}

/// Exchanging two places keeps a permutation one.
proof fn lemma_exchanged(order: Seq<usize>, i: int, j: int)
    requires
        permutes(order),
        0 <= i < order.len(),
        0 <= j < order.len(),
    ensures
        permutes(exchanged(order, i, j)),
        exchanged(order, i, j).len() == order.len(),
{
}

/// Shuffling keeps a permutation one.
pub proof fn lemma_shuffled(order: Seq<usize>, state: u64, i: int)
    requires
        permutes(order),
        i < order.len(),
    ensures
        permutes(shuffled(order, state, i)),
        shuffled(order, state, i).len() == order.len(),
    decreases i,
{
    if i > 0 {
        let next = state.wrapping_add(STEP);
        let j = mixed(next) as int % (i + 1);
        lemma_exchanged(order, i, j);
        lemma_shuffled(exchanged(order, i, j), next, i - 1);
    }
}

/// Every round asks every option once, and the first round keeps the order as
/// given.
pub proof fn law_every_round_asks_every_option_once(n: nat, seed: u64, round: nat, option: int)
    requires
        n <= usize::MAX,
    ensures
        order_of(n, seed, round).len() == n,
        permutes(order_of(n, seed, round)),
        order_of(n, seed, 0) == as_given(n),
        0 <= option < n ==> exists|i: int|
            0 <= i < n && #[trigger] order_of(n, seed, round)[i] == option,
{
    let given = as_given(n);
    let order = order_of(n, seed, round);
    assert(permutes(given));
    if round > 0 {
        lemma_shuffled(given, mixed(mixed(seed).wrapping_add(round as u64)), n - 1);
    }
    if 0 <= option < n {
        lemma_permutation_reaches(order, option as usize);
    }
}

/// A permutation holds every place.
pub proof fn lemma_permutation_reaches(order: Seq<usize>, k: usize)
    requires
        permutes(order),
        k < order.len() <= usize::MAX,
    ensures
        exists|i: int| 0 <= i < order.len() && #[trigger] order[i] == k,
{
    let places = order.to_set();
    let all = Set::<usize>::new(|p: usize| p < order.len());
    order.unique_seq_to_set();
    lemma_places(order.len());
    assert(places.subset_of(all)) by {
        assert forall|p: usize| places.contains(p) implies all.contains(p) by {
            let i = choose|i: int| 0 <= i < order.len() && order[i] == p;
            assert(order[i] < order.len());
        }
    }
    vstd::set_lib::lemma_subset_equality(places, all);
    assert(places.contains(k));
    let i = choose|i: int| 0 <= i < order.len() && order[i] == k;
    assert(order[i] == k);
}

proof fn lemma_places(n: nat)
    requires
        n <= usize::MAX,
    ensures
        Set::<usize>::new(|p: usize| p < n).finite(),
        Set::<usize>::new(|p: usize| p < n).len() == n,
    decreases n,
{
    let all = Set::<usize>::new(|p: usize| p < n);
    if n == 0 {
        assert(all =~= Set::empty());
    } else {
        lemma_places((n - 1) as nat);
        let fewer = Set::<usize>::new(|p: usize| p < n - 1);
        assert(all =~= fewer.insert((n - 1) as usize));
    }
}

/// The order of the options in one round.
pub fn order_in_round(n: usize, seed: u64, round: usize) -> (out: Vec<usize>)
    ensures
        out@ == order_of(n as nat, seed, round as nat),
        permutes(out@),
        out@.len() == n,
{
    let mut order: Vec<usize> = Vec::new();
    for i in 0..n
        invariant
            order@ == as_given(i as nat),
    {
        order.push(i);
        assert(order@ == as_given((i + 1) as nat));
    }
    proof {
        law_every_round_asks_every_option_once(n as nat, seed, round as nat, 0);
    }
    if round == 0 || n == 0 {
        return order;
    }
    let mut state: u64 = mix(mix(seed).wrapping_add(round as u64));
    let ghost whole = shuffled(order@, state, n - 1);
    let mut i: usize = n - 1;
    while i > 0
        invariant
            i < n,
            order@.len() == n,
            shuffled(order@, state, i as int) == whole,
        decreases i,
    {
        state = state.wrapping_add(STEP);
        let j: usize = (mix(state) % (i as u64 + 1)) as usize;
        let ghost before = order@;
        let at_i: usize = order[i];
        let at_j: usize = order[j];
        order.set(i, at_j);
        order.set(j, at_i);
        assert(order@ == exchanged(before, i as int, j as int));
        i = i - 1;
    }
    order
}

/// The items in this order.
pub fn in_order(list: &[String], order: &[usize]) -> (out: Vec<String>)
    requires
        forall|i: int| 0 <= i < order@.len() ==> #[trigger] order@[i] < list@.len(),
    ensures
        out@.len() == order@.len(),
        forall|i: int| 0 <= i < out@.len() ==> (#[trigger] out@[i]) == list@[order@[i] as int],
{
    let mut out: Vec<String> = Vec::new();
    for i in 0..order.len()
        invariant
            forall|j: int| 0 <= j < order@.len() ==> #[trigger] order@[j] < list@.len(),
            out@.len() == i,
            forall|j: int| 0 <= j < i ==> (#[trigger] out@[j]) == list@[order@[j] as int],
    {
        out.push(list[order[i]].clone());
    }
    out
}

/// One order and what the question was answered under it.
#[derive(Debug)]
pub struct Run {
    /// The options in the order of this run.
    pub order: Vec<String>,
    /// The most likely option.
    pub choice: String,
    /// Option name to probability, in the order of this run.
    pub probabilities: Table<Real>,
    /// How long the run took, by the caller's clock.
    pub latency_ns: u64,
}

/// The lowest and the highest probability that an option had in any run.
#[derive(Debug, Clone, Copy)]
pub struct Span {
    pub lowest: Real,
    pub highest: Real,
}

/// What the orders did to a question's answer.
#[derive(Debug)]
pub struct Permuted {
    pub runs: Vec<Run>,
    /// Whether the same option won in every run.
    pub argmax_stable: bool,
    /// How far each option's probability travelled, in the order as given.
    pub spread: Table<Span>,
}

/// A question with its options in this order.
pub open spec fn reordered_ask(ask: AskText, order: Seq<usize>) -> AskText {
    AskText {
        instructions: ask.instructions,
        options: Seq::new(order.len(), |i: int| ask.options[order[i] as int]),
    }
}

/// A plan with its keys in this order.
pub open spec fn reordered_plan(plan: PlanView, order: Seq<usize>) -> PlanView {
    PlanView { keys: Seq::new(order.len(), |i: int| plan.keys[order[i] as int]), ..plan }
}

/// The probabilities that an option had in the runs.
pub open spec fn values_in(runs: Seq<Run>, key: Seq<char>) -> Seq<Real> {
    Seq::new(runs.len(), |k: int| table::value_under(runs[k].probabilities@, key))
}

/// The span reaches from the lowest to the highest of these numbers.
pub open spec fn spans(values: Seq<Real>, span: Span) -> bool {
    exists|low: int, high: int|
        #[trigger] number::first_least(values, low) && #[trigger] number::first_greatest(
            values,
            high,
        ) && span.lowest == values[low] && span.highest == values[high]
}

/// The same option won in every run.
pub open spec fn stable(runs: Seq<Run>) -> bool {
    forall|k: int| 0 <= k < runs.len() ==> (#[trigger] runs[k]).choice@ == runs[0].choice@
}

/// What is said of a question that is not there.
pub open spec fn missing_message(id: Seq<char>) -> Seq<char> {
    "the request asks no choice question "@ + error::debug_chars(id)
}

/// What is said of a question whose options have no order to change.
pub open spec fn kind_message(id: Seq<char>) -> Seq<char> {
    error::debug_chars(id) + " is not a choice question"@
}

/// Whether the same option won in every run.
pub fn is_stable(runs: &[Run]) -> (yes: bool)
    ensures
        yes == stable(runs@),
{
    for k in 0..runs.len()
        invariant
            forall|j: int| 0 <= j < k ==> (#[trigger] runs@[j]).choice@ == runs@[0].choice@,
    {
        if !text::same_text(runs[k].choice.as_str(), runs[0].choice.as_str()) {
            assert(runs@[k as int].choice@ != runs@[0].choice@);
            return false;
        }
    }
    true
}

/// How far one option's probability travelled.
pub fn span_of(runs: &[Run], key: &str) -> (out: Span)
    requires
        runs@.len() > 0,
        forall|k: int|
            0 <= k < runs@.len() ==> table::holds((#[trigger] runs@[k]).probabilities@, key@),
    ensures
        spans(values_in(runs@, key@), out),
{
    let mut values: Vec<Real> = Vec::new();
    for k in 0..runs.len()
        invariant
            forall|j: int|
                0 <= j < runs@.len() ==> table::holds((#[trigger] runs@[j]).probabilities@, key@),
            values@.len() == k,
            forall|j: int|
                0 <= j < k ==> #[trigger] values@[j] == table::value_under(
                    runs@[j].probabilities@,
                    key@,
                ),
    {
        assert(table::holds(runs@[k as int].probabilities@, key@));
        match runs[k].probabilities.get(key) {
            Some(value) => {
                proof {
                    table::lemma_value_under(runs@[k as int].probabilities@, key@, *value);
                }
                values.push(*value);
            },
            None => {
                proof {
                    assert(false);
                }
            },
        }
    }
    assert(values@ == values_in(runs@, key@));
    let low: usize = number::argmin(&values);
    let high: usize = number::argmax(&values);
    assert(number::first_least(values@, low as int) && number::first_greatest(
        values@,
        high as int,
    ));
    Span { lowest: values[low], highest: values[high] }
}

/// Every one of these runs reports every one of these options.
#[verifier::opaque]
pub open spec fn all_report(runs: Seq<Run>, keys: Seq<Seq<char>>) -> bool {
    forall|k: int, i: int|
        0 <= k < runs.len() && 0 <= i < keys.len() ==> table::holds(
            (#[trigger] runs[k]).probabilities@,
            #[trigger] keys[i],
        )
}

/// How far every option's probability travelled, in the order of the options.
pub fn spread_of(runs: &[Run], keys: &[String]) -> (out: Table<Span>)
    requires
        runs@.len() > 0,
        text::views(keys@).no_duplicates(),
        all_report(runs@, text::views(keys@)),
    ensures
        out@.len() == keys@.len(),
        forall|i: int|
            0 <= i < keys@.len() ==> (#[trigger] out@[i]).0 == keys@[i]@ && spans(
                values_in(runs@, keys@[i]@),
                out@[i].1,
            ),
{
    let mut spread: Table<Span> = Table::new();
    let ghost views = text::views(keys@);
    for i in 0..keys.len()
        invariant
            views == text::views(keys@),
            views.no_duplicates(),
            runs@.len() > 0,
            all_report(runs@, views),
            spread@.len() == i,
            forall|j: int|
                0 <= j < i ==> (#[trigger] spread@[j]).0 == keys@[j]@ && spans(
                    values_in(runs@, keys@[j]@),
                    spread@[j].1,
                ),
    {
        let key = keys[i].as_str();
        proof {
            reveal(all_report);
            assert(views[i as int] == key@);
            assert forall|j: int| 0 <= j < spread@.len() implies (#[trigger] spread@[j]).0
                != key@ by {
                assert(views[j] == keys@[j]@);
                assert(views[j] != views[i as int]);
            }
            assert(!table::holds(spread@, key@));
        }
        let span = span_of(runs, key);
        spread = spread.insert(key, span);
    }
    spread
}

impl<
    F: Forward,
    S: Fn(Kind, &F::State, &[F::State]) -> Result<Distribution, Error>,
    W: Fn(Real) -> String,
> LocalEngine<F, S, W> {
    /// This question is answered so from this run, with its options in this order.
    #[verifier::opaque]
    pub open spec fn runs_once(
        self,
        state: Seq<char>,
        ask: AskText,
        plan: PlanView,
        ran: Ran<F::State>,
        run: Run,
    ) -> bool {
        &&& self.runs(state, seq![ask], ran)
        &&& exists|d: Distribution|
            {
                &&& #[trigger] local::distributes(
                    self.score,
                    seq![plan],
                    ran.laid.layout,
                    ran.yielded,
                    Ok(seq![d]),
                )
                &&& d.options@.len() == plan.keys.len()
                &&& readout::answer_of(plan, d) matches AnswerView::Choice {
                    choice,
                    probabilities,
                    ..
                } && run.choice@ == choice && run.probabilities@ == probabilities
            }
        &&& text::views(run.order@) == plan.keys
    }

    fn permute_round<C: Fn() -> u64>(
        &mut self,
        state: &str,
        ask: &Ask,
        plan: &Plan,
        order: &[usize],
        clock: &C,
    ) -> (out: Result<Run, Error>)
        requires
            old(self).ready(),
            call_requires(*clock, ()),
            plan.kind == Kind::Choice,
            plan.legend is None,
            plan.keys@.len() > 0,
            ask.options@.len() == plan.keys@.len(),
            order@.len() == plan.keys@.len(),
            permutes(order@),
        ensures
            final(self).set_up_as(*old(self)),
            ({
                let asked = reordered_ask(ask@, order@);
                let read = reordered_plan(plan@, order@);
                match out {
                    Ok(run) => took(*clock, run) && exists|ran: Ran<F::State>|
                        #[trigger] old(self).runs_once(state@, asked, read, ran, run)
                            && local::accounts(
                            old(self).backend,
                            final(self).backend,
                            local::ran_calls(ran),
                        ),
                    Err(e) => exists|made: Seq<Call<F::State>>|
                        #[trigger] local::accounts(old(self).backend, final(self).backend, made)
                            && old(self).fails_together(state@, seq![asked], seq![read], made, e),
                }
            }),
    {
        let from: u64 = clock();
        let ghost asked = reordered_ask(ask@, order@);
        let ghost read = reordered_plan(plan@, order@);
        let mut questions: Vec<Ask> = Vec::new();
        questions.push(
            Ask {
                instructions: ask.instructions.clone(),
                options: in_order(ask.options.as_slice(), order),
            },
        );
        let record = Record { state: state.to_owned(), questions };
        let mut plans: Vec<Plan> = Vec::new();
        plans.push(
            Plan {
                id: plan.id.clone(),
                kind: Kind::Choice,
                keys: in_order(plan.keys.as_slice(), order),
                legend: None,
            },
        );
        proof {
            assert(record.questions@[0]@.options =~= asked.options);
            assert(prompt::ask_texts(record.questions@) =~= seq![asked]);
            assert(plans@[0]@.keys =~= read.keys);
            assert(prompt::plan_views(plans@) =~= seq![read]);
        }
        let ds = match self.run(&record, plans.as_slice()) {
            Ok((_, ds)) => ds,
            Err(e) => {
                return Err(e);
            },
        };
        let ghost ran = choose|ran: Ran<F::State>|
            {
                &&& #[trigger] old(self).runs(state@, seq![asked], ran)
                &&& local::distributes(
                    old(self).score,
                    seq![read],
                    ran.laid.layout,
                    ran.yielded,
                    Ok(ds@),
                )
                &&& local::accounts(old(self).backend, self.backend, local::ran_calls(ran))
            };
        assert(ds@ =~= seq![ds@[0]]);
        let answer = match readout::answer(&ds[0], &plans[0]) {
            Ok(answer) => answer,
            Err(e) => {
                proof {
                    assert(ds@[0].options@.len() != seq![read][0].keys.len());
                    assert(local::misfits(seq![read], ds@, e));
                    assert(old(self).run_fails(seq![read], ran, e));
                    assert(old(self).fails_together(
                        state@,
                        seq![asked],
                        seq![read],
                        local::ran_calls(ran),
                        e,
                    ));
                }
                return Err(e);
            },
        };
        let to: u64 = clock();
        let latency_ns: u64 = if to > from {
            to - from
        } else {
            0
        };
        let ghost d = ds@[0];
        assert(answer@ == readout::answer_of(read, d));
        match answer {
            Answer::Choice { choice, confidence: _, probabilities } => {
                let order = in_order(plan.keys.as_slice(), order);
                assert(text::views(order@) =~= read.keys);
                let run = Run { order, choice, probabilities, latency_ns };
                proof {
                    assert(call_ensures(*clock, (), from) && call_ensures(*clock, (), to));
                    assert(took(*clock, run));
                    assert(local::distributes(
                        old(self).score,
                        seq![read],
                        ran.laid.layout,
                        ran.yielded,
                        Ok(seq![d]),
                    ));
                    reveal(LocalEngine::runs_once);
                    assert(old(self).runs_once(state@, asked, read, ran, run));
                }
                Ok(run)
            },
            _ => {
                proof {
                    assert(false);
                }
                vstd::pervasive::unreached()
            },
        }
    }

    /// A run under some order reports every option.
    proof fn lemma_run_reports(
        self,
        state: Seq<char>,
        ask: AskText,
        plan: PlanView,
        order: Seq<usize>,
        ran: Ran<F::State>,
        run: Run,
        i: int,
    )
        requires
            self.runs_once(state, ask, reordered_plan(plan, order), ran, run),
            plan.kind == Kind::Choice,
            permutes(order),
            order.len() == plan.keys.len() <= usize::MAX,
            0 <= i < plan.keys.len(),
        ensures
            table::holds(run.probabilities@, plan.keys[i]),
    {
        reveal(LocalEngine::runs_once);
        let read = reordered_plan(plan, order);
        let d = choose|d: Distribution|
            {
                &&& #[trigger] local::distributes(
                    self.score,
                    seq![read],
                    ran.laid.layout,
                    ran.yielded,
                    Ok(seq![d]),
                )
                &&& d.options@.len() == read.keys.len()
                &&& readout::answer_of(read, d) matches AnswerView::Choice {
                    choice,
                    probabilities,
                    ..
                } && run.choice@ == choice && run.probabilities@ == probabilities
            };
        lemma_permutation_reaches(order, i as usize);
        let j = choose|j: int| 0 <= j < order.len() && #[trigger] order[j] == i as usize;
        assert(read.keys[j] == plan.keys[i]);
        readout::lemma_every_key_is_reported(read.keys, d.options@, j);
    }

    /// The first rounds of this question come to these runs: in every round the question
    /// is asked alone and once, with its options in the round's order.
    pub open spec fn runs_in_rounds(
        self,
        state: Seq<char>,
        ask: AskText,
        plan: PlanView,
        seed: u64,
        rans: Seq<Ran<F::State>>,
        runs: Seq<Run>,
    ) -> bool {
        let n = plan.keys.len();
        rans.len() == runs.len() && forall|k: int|
            0 <= k < runs.len() ==> self.runs_once(
                state,
                reordered_ask(ask, order_of(n, seed, k as nat)),
                reordered_plan(plan, order_of(n, seed, k as nat)),
                rans[k],
                #[trigger] runs[k],
            )
    }

    /// This question is answered so in these rounds, and the backend was asked this for
    /// it: what each round takes, one round after the other.
    pub open spec fn permutes_question<C: Fn() -> u64>(
        self,
        state: Seq<char>,
        ask: AskText,
        plan: PlanView,
        rounds: nat,
        seed: u64,
        clock: C,
        made: Seq<Call<F::State>>,
        out: Permuted,
    ) -> bool {
        let n = plan.keys.len();
        &&& out.runs@.len() == rounds
        &&& exists|rans: Seq<Ran<F::State>>|
            #[trigger] self.runs_in_rounds(state, ask, plan, seed, rans, out.runs@) && made
                == local::all_calls(rans)
        &&& forall|k: int| 0 <= k < rounds ==> took(clock, #[trigger] out.runs@[k])
        &&& out.argmax_stable == stable(out.runs@)
        &&& out.spread@.len() == n
        &&& forall|i: int|
            0 <= i < n ==> (#[trigger] out.spread@[i]).0 == plan.keys[i] && spans(
                values_in(out.runs@, plan.keys[i]),
                out.spread@[i].1,
            )
    }

    /// One round of this question is the first that comes to nothing, and the backend
    /// was asked this until then.
    pub open spec fn permuting_fails(
        self,
        state: Seq<char>,
        ask: AskText,
        plan: PlanView,
        rounds: nat,
        seed: u64,
        made: Seq<Call<F::State>>,
        e: Error,
    ) -> bool {
        let n = plan.keys.len();
        exists|rans: Seq<Ran<F::State>>, runs: Seq<Run>, last: Seq<Call<F::State>>|
            #![trigger self.runs_in_rounds(state, ask, plan, seed, rans, runs), self.fails_together(
                state,
                seq![reordered_ask(ask, order_of(n, seed, runs.len()))],
                seq![reordered_plan(plan, order_of(n, seed, runs.len()))],
                last,
                e,
            )]
            {
                &&& runs.len() < rounds
                &&& self.runs_in_rounds(state, ask, plan, seed, rans, runs)
                &&& self.fails_together(
                    state,
                    seq![reordered_ask(ask, order_of(n, seed, runs.len()))],
                    seq![reordered_plan(plan, order_of(n, seed, runs.len()))],
                    last,
                    e,
                )
                &&& made == local::all_calls(rans) + last
            }
    }

    /// One choice question of this request is answered so, and the backend was asked this
    /// for it; or it cannot be.
    pub open spec fn permutes_request<C: Fn() -> u64>(
        self,
        request: SystemOneRequest,
        question: Seq<char>,
        rounds: nat,
        seed: u64,
        clock: C,
        made: Seq<Call<F::State>>,
        out: Result<Permuted, Error>,
    ) -> bool {
        let there = table::holds(request.questions@, question);
        let q = table::value_under(request.questions@, question);
        let state = prompt::rendered(request.state, Seq::empty());
        let ask = prompt::ask_of(q);
        let plan = prompt::plan_of(question, q);
        match out {
            Ok(permuted) => there && q is Choice && self.permutes_question(
                state,
                ask,
                plan,
                rounds_run(rounds),
                seed,
                clock,
                made,
                permuted,
            ),
            Err(e) => if !there {
                e.is_invalid(missing_message(question)) && made.len() == 0
            } else if !(q is Choice) {
                e.is_invalid(kind_message(question)) && made.len() == 0
            } else {
                self.permuting_fails(state, ask, plan, rounds_run(rounds), seed, made, e)
            },
        }
    }

    /// One more round.
    proof fn lemma_round_runs(
        self,
        now: Self,
        state: Seq<char>,
        ask: AskText,
        plan: PlanView,
        seed: u64,
        rans: Seq<Ran<F::State>>,
        runs: Seq<Run>,
        ran: Ran<F::State>,
        run: Run,
    )
        requires
            now.set_up_as(self),
            self.runs_in_rounds(state, ask, plan, seed, rans, runs),
            now.runs_once(
                state,
                reordered_ask(ask, order_of(plan.keys.len(), seed, runs.len())),
                reordered_plan(plan, order_of(plan.keys.len(), seed, runs.len())),
                ran,
                run,
            ),
        ensures
            self.runs_in_rounds(state, ask, plan, seed, rans.push(ran), runs.push(run)),
            local::all_calls(rans.push(ran)) == local::all_calls(rans) + local::ran_calls(ran),
    {
        reveal(LocalEngine::runs_once);
        let n = plan.keys.len();
        let more = rans.push(ran);
        let done = runs.push(run);
        assert(more.drop_last() =~= rans);
        assert forall|k: int| 0 <= k < done.len() implies self.runs_once(
            state,
            reordered_ask(ask, order_of(n, seed, k as nat)),
            reordered_plan(plan, order_of(n, seed, k as nat)),
            more[k],
            #[trigger] done[k],
        ) by {
            if k < runs.len() {
                assert(runs[k] == done[k]);
                assert(rans[k] == more[k]);
            }
        }
    }

    /// The rounds of one question, one after the other.
    fn permute_rounds<C: Fn() -> u64>(
        &mut self,
        state: &str,
        ask: &Ask,
        plan: &Plan,
        count: usize,
        seed: u64,
        clock: &C,
    ) -> (out: Result<Vec<Run>, Error>)
        requires
            old(self).ready(),
            call_requires(*clock, ()),
            plan.kind == Kind::Choice,
            plan.legend is None,
            plan.keys@.len() > 0,
            ask.options@.len() == plan.keys@.len(),
        ensures
            final(self).set_up_as(*old(self)),
            match out {
                Ok(runs) => {
                    &&& runs@.len() == count
                    &&& forall|k: int| 0 <= k < count ==> took(*clock, #[trigger] runs@[k])
                    &&& exists|rans: Seq<Ran<F::State>>|
                        #[trigger] old(self).runs_in_rounds(state@, ask@, plan@, seed, rans, runs@)
                            && local::accounts(
                            old(self).backend,
                            final(self).backend,
                            local::all_calls(rans),
                        )
                },
                Err(e) => exists|made: Seq<Call<F::State>>|
                    #[trigger] local::accounts(old(self).backend, final(self).backend, made)
                        && old(self).permuting_fails(
                        state@,
                        ask@,
                        plan@,
                        count as nat,
                        seed,
                        made,
                        e,
                    ),
            },
    {
        let ghost begun = self.backend;
        let ghost view = plan@;
        let ghost shown = ask@;
        let options: usize = plan.keys.len();
        let ghost n = options as nat;
        let ghost mut rans: Seq<Ran<F::State>> = Seq::empty();
        proof {
            assert(view.keys.len() == n);
            assert(begun.calls() + local::all_calls(rans) =~= begun.calls());
        }
        let mut runs: Vec<Run> = Vec::new();
        for k in 0..count
            invariant
                self.ready(),
                self.set_up_as(*old(self)),
                call_requires(*clock, ()),
                view == plan@,
                shown == ask@,
                n == options,
                plan.kind == Kind::Choice,
                plan.legend is None,
                options > 0,
                plan.keys@.len() == options,
                ask.options@.len() == options,
                view.keys.len() == n,
                begun == old(self).backend,
                local::accounts(begun, self.backend, local::all_calls(rans)),
                runs@.len() == k,
                old(self).runs_in_rounds(state@, shown, view, seed, rans, runs@),
                forall|j: int| 0 <= j < k ==> took(*clock, #[trigger] runs@[j]),
        {
            let order = order_in_round(options, seed, k);
            let ghost so_far = self.backend;
            let ghost earlier = local::all_calls(rans);
            let ghost now = *self;
            let ghost asking = reordered_ask(shown, order_of(n, seed, k as nat));
            let ghost reading = reordered_plan(view, order_of(n, seed, k as nat));
            match self.permute_round(state, ask, plan, order.as_slice(), clock) {
                Ok(run) => {
                    proof {
                        let ran = choose|ran: Ran<F::State>|
                            #[trigger] now.runs_once(state@, asking, reading, ran, run)
                                && local::accounts(
                                so_far,
                                self.backend,
                                local::ran_calls(ran),
                            );
                        local::lemma_accounts_join(
                            begun,
                            so_far,
                            self.backend,
                            earlier,
                            local::ran_calls(ran),
                        );
                        old(self).lemma_round_runs(
                            now,
                            state@,
                            shown,
                            view,
                            seed,
                            rans,
                            runs@,
                            ran,
                            run,
                        );
                        rans = rans.push(ran);
                    }
                    runs.push(run);
                },
                Err(e) => {
                    proof {
                        let last = choose|made: Seq<Call<F::State>>|
                            #[trigger] local::accounts(so_far, self.backend, made)
                                && now.fails_together(
                                state@,
                                seq![asking],
                                seq![reading],
                                made,
                                e,
                            );
                        now.lemma_fails_alike(
                            *old(self),
                            state@,
                            seq![asking],
                            seq![reading],
                            last,
                            e,
                        );
                        local::lemma_accounts_join(begun, so_far, self.backend, earlier, last);
                        assert(old(self).permuting_fails(
                            state@,
                            shown,
                            view,
                            count as nat,
                            seed,
                            earlier + last,
                            e,
                        )) by {
                            assert(old(self).fails_together(
                                state@,
                                seq![reordered_ask(shown, order_of(n, seed, runs@.len()))],
                                seq![reordered_plan(view, order_of(n, seed, runs@.len()))],
                                last,
                                e,
                            ));
                        }
                    }
                    return Err(e);
                },
            }
        }
        Ok(runs)
    }

    /// Every run of every round reports every option.
    proof fn lemma_rounds_report(
        self,
        state: Seq<char>,
        ask: AskText,
        plan: PlanView,
        seed: u64,
        rans: Seq<Ran<F::State>>,
        runs: Seq<Run>,
    )
        requires
            self.runs_in_rounds(state, ask, plan, seed, rans, runs),
            plan.kind == Kind::Choice,
            0 < plan.keys.len() <= usize::MAX,
        ensures
            all_report(runs, plan.keys),
    {
        reveal(all_report);
        let n = plan.keys.len();
        assert forall|k: int, i: int|
            0 <= k < runs.len() && 0 <= i < plan.keys.len() implies table::holds(
            (#[trigger] runs[k]).probabilities@,
            #[trigger] plan.keys[i],
        ) by {
            law_every_round_asks_every_option_once(n, seed, k as nat, 0);
            self.lemma_run_reports(
                state,
                reordered_ask(ask, order_of(n, seed, k as nat)),
                plan,
                order_of(n, seed, k as nat),
                rans[k],
                runs[k],
                i,
            );
        }
    }

    /// The rounds of one choice question, and what they come to.
    fn permute_choice<C: Fn() -> u64>(
        &mut self,
        state: &str,
        ask: &Ask,
        plan: &Plan,
        count: usize,
        seed: u64,
        clock: &C,
    ) -> (out: Result<Permuted, Error>)
        requires
            old(self).ready(),
            call_requires(*clock, ()),
            plan.kind == Kind::Choice,
            plan.legend is None,
            plan.keys@.len() > 0,
            plan@.keys.no_duplicates(),
            ask.options@.len() == plan.keys@.len(),
            count > 0,
        ensures
            final(self).set_up_as(*old(self)),
            exists|made: Seq<Call<F::State>>|
                #[trigger] local::accounts(old(self).backend, final(self).backend, made)
                    && match out {
                    Ok(permuted) => old(self).permutes_question(
                        state@,
                        ask@,
                        plan@,
                        count as nat,
                        seed,
                        *clock,
                        made,
                        permuted,
                    ),
                    Err(e) => old(self).permuting_fails(
                        state@,
                        ask@,
                        plan@,
                        count as nat,
                        seed,
                        made,
                        e,
                    ),
                },
    {
        let ghost view = plan@;
        let options: usize = plan.keys.len();
        let runs = match self.permute_rounds(state, ask, plan, count, seed, clock) {
            Ok(runs) => runs,
            Err(e) => {
                return Err(e);
            },
        };
        let ghost rans = choose|rans: Seq<Ran<F::State>>|
            #[trigger] old(self).runs_in_rounds(state@, ask@, view, seed, rans, runs@)
                && local::accounts(old(self).backend, self.backend, local::all_calls(rans));
        proof {
            assert(view.keys == text::views(plan.keys@));
            assert(view.keys.len() == options);
            old(self).lemma_rounds_report(state@, ask@, view, seed, rans, runs@);
        }
        let spread = spread_of(runs.as_slice(), plan.keys.as_slice());
        let argmax_stable = is_stable(runs.as_slice());
        assert forall|i: int| 0 <= i < view.keys.len() implies (#[trigger] spread@[i]).0
            == view.keys[i] && spans(values_in(runs@, view.keys[i]), spread@[i].1) by {
            assert(view.keys[i] == plan.keys@[i]@);
        }
        let permuted = Permuted { runs, argmax_stable, spread };
        assert(old(self).runs_in_rounds(state@, ask@, view, seed, rans, permuted.runs@));
        assert(old(self).permutes_question(
            state@,
            ask@,
            view,
            count as nat,
            seed,
            *clock,
            local::all_calls(rans),
            permuted,
        ));
        Ok(permuted)
    }

    /// Ask one choice question under several option orders, and report how far
    /// each probability travelled and whether the winner ever changed.
    ///
    /// The first run keeps the order as given, the rest are shuffled from `seed`.
    /// `clock` is read before and after each run.
    pub fn permute_blocking<C: Fn() -> u64>(
        &mut self,
        request: &SystemOneRequest,
        question: &str,
        rounds: usize,
        seed: u64,
        clock: &C,
    ) -> (out: Result<Permuted, Error>)
        requires
            old(self).ready(),
            call_requires(*clock, ()),
            forall|q: Question|
                request.questions@.contains((question@, q)) ==> readout::answerable(
                    prompt::kind_of(q),
                    #[trigger] prompt::keys_of(q).len(),
                ),
        ensures
            final(self).set_up_as(*old(self)),
            exists|made: Seq<Call<F::State>>|
                #[trigger] local::accounts(old(self).backend, final(self).backend, made) && old(
                    self,
                ).permutes_request(*request, question@, rounds as nat, seed, *clock, made, out),
    {
        proof {
            let none = Seq::<Call<F::State>>::empty();
            assert(self.backend.calls() + none =~= self.backend.calls());
            assert(local::accounts(old(self).backend, self.backend, none));
        }
        let asked = match request.questions.get(question) {
            Some(asked) => asked,
            None => {
                let message = "the request asks no choice question ".to_owned().concat(
                    error::debug_text(question).as_str(),
                );
                return Err(Error::Invalid(message));
            },
        };
        proof {
            table::lemma_value_under(request.questions@, question@, *asked);
        }
        let options: usize = match asked {
            Question::Choice(choice) => choice.criteria.len(),
            _ => {
                let message = error::debug_text(question).concat(" is not a choice question");
                return Err(Error::Invalid(message));
            },
        };
        let state = prompt::render(&request.state);
        let (ask, plan) = prompt::plan_question(question, asked);
        let count: usize = clamp_rounds(rounds);
        let ghost view = plan@;
        let ghost shown = ask@;
        let ghost n = options as nat;
        proof {
            prompt::law_a_plan_has_a_key_for_every_option(question@, *asked);
            assert(view.keys.len() == n);
            assert(plan.keys@.len() == text::views(plan.keys@).len());
            assert(ask.options@.len() == text::views(ask.options@).len());
            assert(readout::answerable(
                prompt::kind_of(*asked),
                prompt::keys_of(*asked).len(),
            ));
        }
        let out = self.permute_choice(state.as_str(), &ask, &plan, count, seed, clock);
        proof {
            let made = choose|made: Seq<Call<F::State>>|
                #[trigger] local::accounts(old(self).backend, self.backend, made) && match out {
                    Ok(permuted) => old(self).permutes_question(
                        state@,
                        shown,
                        view,
                        count as nat,
                        seed,
                        *clock,
                        made,
                        permuted,
                    ),
                    Err(e) => old(self).permuting_fails(
                        state@,
                        shown,
                        view,
                        count as nat,
                        seed,
                        made,
                        e,
                    ),
                };
            assert(old(self).permutes_request(
                *request,
                question@,
                rounds as nat,
                seed,
                *clock,
                made,
                out,
            ));
        }
        out
    }

    /// Permuting runs one pass per round.
    pub proof fn law_every_round_runs_one_pass<C: Fn() -> u64>(
        self,
        state: Seq<char>,
        ask: AskText,
        plan: PlanView,
        rounds: nat,
        seed: u64,
        clock: C,
        made: Seq<Call<F::State>>,
        out: Permuted,
    )
        requires
            self.permutes_question(state, ask, plan, rounds, seed, clock, made, out),
        ensures
            local::passes_in(made).len() == rounds,
            forall|k: int|
                0 <= k < rounds ==> (#[trigger] local::passes_in(made)[k]).question_count() == 1,
    {
        reveal(LocalEngine::runs_once);
        let n = plan.keys.len();
        let rans = choose|rans: Seq<Ran<F::State>>|
            #[trigger] self.runs_in_rounds(state, ask, plan, seed, rans, out.runs@) && made
                == local::all_calls(rans);
        let asks = Seq::new(
            rans.len(),
            |k: int| seq![reordered_ask(ask, order_of(n, seed, k as nat))],
        );
        assert forall|k: int| 0 <= k < rans.len() implies self.runs(
            state,
            asks[k],
            #[trigger] rans[k],
        ) by {
            assert(self.runs_once(
                state,
                reordered_ask(ask, order_of(n, seed, k as nat)),
                reordered_plan(plan, order_of(n, seed, k as nat)),
                rans[k],
                out.runs@[k],
            ));
        }
        self.lemma_passes_of_runs(state, asks, rans);
        assert forall|k: int| 0 <= k < rounds implies (
        #[trigger] local::passes_in(made)[k]).question_count() == 1 by {
            assert(self.runs(state, asks[k], rans[k]));
            self.lemma_one_question(
                state,
                reordered_ask(ask, order_of(n, seed, k as nat)),
                rans[k],
            );
        }
    }
}

/// A run says how long it took, by two readings of the clock.
pub open spec fn took<C: Fn() -> u64>(clock: C, run: Run) -> bool {
    exists|from: u64, to: u64|
        #[trigger] call_ensures(clock, (), from) && #[trigger] call_ensures(clock, (), to)
            && run.latency_ns == elapsed(from, to)
}

/// The time between two readings of a clock that does not run backwards.
pub open spec fn elapsed(from: u64, to: u64) -> u64 {
    if to > from {
        (to - from) as u64
    } else {
        0
    }
}

/// One round moves nothing: the same option wins in every run there is, and no
/// probability travels.
pub proof fn law_one_round_moves_nothing(runs: Seq<Run>, key: Seq<char>, span: Span)
    requires
        runs.len() == 1,
        spans(values_in(runs, key), span),
    ensures
        stable(runs),
        span.lowest == span.highest,
{
    assert(values_in(runs, key).len() == 1);
}

// ---------------------------------------------------------------------------
// What the shuffling can bring about
// ---------------------------------------------------------------------------

/// The generator's state after this many steps.
pub open spec fn stepped(state: u64, steps: nat) -> u64
    decreases steps,
{
    if steps == 0 {
        state
    } else {
        stepped(state.wrapping_add(STEP), (steps - 1) as nat)
    }
}

/// The next draws of the generator.
pub open spec fn draws_from(state: u64, count: nat) -> Seq<u64> {
    Seq::new(count, |k: int| mixed(stepped(state, (k + 1) as nat)))
}

/// The state that the shuffling of a round starts from.
pub open spec fn started(seed: u64, round: nat) -> u64 {
    mixed(mixed(seed).wrapping_add(round as u64))
}

/// The order with the places up to `i` dealt anew by these draws, from the last place down: each
/// place gets what its draw picks among what is left.
pub open spec fn dealt(order: Seq<usize>, draws: Seq<u64>, i: int) -> Seq<usize>
    decreases i,
{
    if i <= 0 {
        order
    } else {
        dealt(exchanged(order, i, draws[0] as int % (i + 1)), draws.skip(1), i - 1)
    }
}

proof fn lemma_shuffling_deals(order: Seq<usize>, state: u64, i: int)
    requires
        0 <= i,
    ensures
        shuffled(order, state, i) == dealt(order, draws_from(state, i as nat), i),
    decreases i,
{
    if i > 0 {
        let next = state.wrapping_add(STEP);
        let draws = draws_from(state, i as nat);
        assert(stepped(next, 0) == next);
        assert(stepped(state, 1) == next);
        assert(draws[0] == mixed(next));
        assert(draws.skip(1) =~= draws_from(next, (i - 1) as nat)) by {
            assert forall|k: int| 0 <= k < i - 1 implies #[trigger] draws.skip(1)[k] == draws_from(
                next,
                (i - 1) as nat,
            )[k] by {
                assert(stepped(state, (k + 2) as nat) == stepped(next, (k + 1) as nat));
            }
        }
        lemma_shuffling_deals(exchanged(order, i, draws[0] as int % (i + 1)), next, i - 1);
    }
}

/// A later round's order is dealt by the draws of a generator that the seed and the round start.
pub proof fn law_a_round_is_dealt_from_its_seed(n: nat, seed: u64, round: nat)
    requires
        n > 0,
        round > 0,
    ensures
        order_of(n, seed, round) == dealt(
            as_given(n),
            draws_from(started(seed, round), (n - 1) as nat),
            n - 1,
        ),
{
    lemma_shuffling_deals(as_given(n), started(seed, round), n - 1);
}

/// The places above are left alone.
proof fn lemma_dealt_leaves(order: Seq<usize>, draws: Seq<u64>, i: int, k: int)
    requires
        i < order.len(),
        i < k < order.len(),
    ensures
        dealt(order, draws, i)[k] == order[k],
        dealt(order, draws, i).len() == order.len(),
    decreases i,
{
    if i > 0 {
        let next = exchanged(order, i, draws[0] as int % (i + 1));
        lemma_dealt_leaves(next, draws.skip(1), i - 1, k);
    }
}

/// The last place that is dealt gets what its draw picks, and the draw picks among all the places
/// from the first up to this one.
pub proof fn law_a_place_gets_what_its_draw_picks(order: Seq<usize>, draws: Seq<u64>, i: int)
    requires
        0 < i < order.len(),
        draws.len() >= i,
    ensures
        dealt(order, draws, i)[i] == order[draws[0] as int % (i + 1)],
        forall|k: int| i < k < order.len() ==> #[trigger] dealt(order, draws, i)[k] == order[k],
{
    let next = exchanged(order, i, draws[0] as int % (i + 1));
    lemma_dealt_leaves(next, draws.skip(1), i - 1, i);
    assert forall|k: int| i < k < order.len() implies #[trigger] dealt(order, draws, i)[k]
        == order[k] by {
        lemma_dealt_leaves(order, draws, i, k);
    }
}

/// Draws that lead from one permutation to another, where they agree on the places above.
proof fn lemma_draws_to(order: Seq<usize>, target: Seq<usize>, i: int) -> (draws: Seq<u64>)
    requires
        permutes(order),
        permutes(target),
        order.len() == target.len() <= usize::MAX,
        0 <= i < order.len(),
        forall|k: int| i < k < order.len() ==> order[k] == #[trigger] target[k],
    ensures
        draws.len() == i,
        dealt(order, draws, i) == target,
    decreases i,
{
    lemma_permutation_reaches(order, target[i]);
    let j = choose|j: int| 0 <= j < order.len() && #[trigger] order[j] == target[i];
    if j > i {
        assert(target[j] == target[i]);
    }
    if i == 0 {
        assert(order =~= target);
        Seq::empty()
    } else {
        let next = exchanged(order, i, j);
        lemma_exchanged(order, i, j);
        assert forall|k: int| i - 1 < k < next.len() implies next[k] == #[trigger] target[k] by {
            if k > i {
                assert(order[k] == target[k]);
            }
        }
        let rest = lemma_draws_to(next, target, i - 1);
        let draws = seq![j as u64] + rest;
        assert(draws.skip(1) =~= rest);
        assert(draws[0] as int % (i + 1) == j) by {
            vstd::arithmetic::div_mod::lemma_small_mod(j as nat, (i + 1) as nat);
        }
        draws
    }
}

/// Every order can come up: for each of them there are draws that deal it.
pub proof fn law_every_order_can_be_dealt(target: Seq<usize>)
    requires
        0 < target.len() <= usize::MAX,
        forall|i: int| 0 <= i < target.len() ==> #[trigger] target[i] < target.len(),
        target.no_duplicates(),
    ensures
        exists|draws: Seq<u64>|
            draws.len() == target.len() - 1 && #[trigger] dealt(
                as_given(target.len()),
                draws,
                target.len() - 1,
            ) == target,
{
    let given = as_given(target.len());
    assert(permutes(given));
    let draws = lemma_draws_to(given, target, target.len() - 1);
    assert(dealt(given, draws, target.len() - 1) == target);
}

/// The shuffling can bring any option to any place.
pub proof fn law_any_option_can_come_to_any_place(n: nat, option: int, place: int)
    requires
        n <= usize::MAX,
        0 <= option < n,
        0 <= place < n,
    ensures
        exists|draws: Seq<u64>|
            draws.len() == n - 1 && (#[trigger] dealt(as_given(n), draws, n - 1))[place] == option,
{
    let given = as_given(n);
    assert(permutes(given));
    let target = exchanged(given, option, place);
    lemma_exchanged(given, option, place);
    assert(target[place] == option);
    let draws = lemma_draws_to(given, target, n - 1);
    assert(dealt(given, draws, n - 1)[place] == option);
}

/// No order is favoured: an order comes of one choice of partners alone, so that two deals that
/// agree have picked the same at every place.
pub proof fn law_an_order_comes_of_one_deal(
    order: Seq<usize>,
    draws: Seq<u64>,
    others: Seq<u64>,
    i: int,
)
    requires
        permutes(order),
        i < order.len(),
        draws.len() == i,
        others.len() == i,
        dealt(order, draws, i) == dealt(order, others, i),
    ensures
        forall|k: int|
            #![trigger draws[k]]
            #![trigger others[k]]
            0 <= k < i ==> draws[k] as int % (i - k + 1) == others[k] as int % (i - k + 1),
    decreases i,
{
    if i > 0 {
        let j = draws[0] as int % (i + 1);
        let other = others[0] as int % (i + 1);
        law_a_place_gets_what_its_draw_picks(order, draws, i);
        law_a_place_gets_what_its_draw_picks(order, others, i);
        assert(order[j] == order[other]);
        assert(j == other);
        lemma_exchanged(order, i, j);
        law_an_order_comes_of_one_deal(
            exchanged(order, i, j),
            draws.skip(1),
            others.skip(1),
            i - 1,
        );
        assert forall|k: int|
            #![trigger draws[k]]
            #![trigger others[k]]
            0 <= k < i implies draws[k] as int % (i - k + 1) == others[k] as int % (i - k + 1) by {
            if k > 0 {
                assert(draws.skip(1)[k - 1] == draws[k]);
                assert(others.skip(1)[k - 1] == others[k]);
            }
        }
    }
}

proof fn lemma_multiplied_apart(x: u64, y: u64, factor: u64, inverse: u64)
    requires
        (factor as int * inverse as int) % 0x1_0000_0000_0000_0000 == 1,
        x.wrapping_mul(factor) == y.wrapping_mul(factor),
    ensures
        x == y,
{
    lemma_multiplied_back(x, factor, inverse);
    lemma_multiplied_back(y, factor, inverse);
}

proof fn lemma_multiplied_back(x: u64, factor: u64, inverse: u64)
    requires
        (factor as int * inverse as int) % 0x1_0000_0000_0000_0000 == 1,
    ensures
        x.wrapping_mul(factor).wrapping_mul(inverse) == x,
{
    let m = 0x1_0000_0000_0000_0000int;
    let (a, f, g) = (x as int, factor as int, inverse as int);
    vstd::arithmetic::div_mod::lemma_mul_mod_noop_left(a * f, g, m);
    vstd::arithmetic::mul::lemma_mul_is_associative(a, f, g);
    vstd::arithmetic::div_mod::lemma_mul_mod_noop_right(a, f * g, m);
    vstd::arithmetic::div_mod::lemma_small_mod(x as nat, 0x1_0000_0000_0000_0000nat);
    assert(a * 1 == a);
    assert(x.wrapping_mul(factor) as int == (a * f) % m);
}

/// Mixing loses nothing: different numbers are mixed into different numbers.
pub proof fn law_mixing_keeps_numbers_apart(x: u64, y: u64)
    requires
        x != y,
    ensures
        mixed(x) != mixed(y),
{
    let a = (x ^ (x >> 30)).wrapping_mul(0xbf58_476d_1ce4_e5b9);
    let b = (y ^ (y >> 30)).wrapping_mul(0xbf58_476d_1ce4_e5b9);
    let c = (a ^ (a >> 27)).wrapping_mul(0x94d0_49bb_1331_11eb);
    let d = (b ^ (b >> 27)).wrapping_mul(0x94d0_49bb_1331_11eb);
    assert(x != y ==> (x ^ (x >> 30)) != (y ^ (y >> 30))) by (bit_vector);
    assert(a != b ==> (a ^ (a >> 27)) != (b ^ (b >> 27))) by (bit_vector);
    assert(c != d ==> (c ^ (c >> 31)) != (d ^ (d >> 31))) by (bit_vector);
    assert((0xbf58_476d_1ce4_e5b9int * 0x96de_1b17_3f11_9089int) % 0x1_0000_0000_0000_0000 == 1);
    assert((0x94d0_49bb_1331_11ebint * 0x3196_42b2_d24d_8ec3int) % 0x1_0000_0000_0000_0000 == 1);
    if a == b {
        lemma_multiplied_apart(
            x ^ (x >> 30),
            y ^ (y >> 30),
            0xbf58_476d_1ce4_e5b9,
            0x96de_1b17_3f11_9089,
        );
    }
    if c == d {
        lemma_multiplied_apart(
            a ^ (a >> 27),
            b ^ (b >> 27),
            0x94d0_49bb_1331_11eb,
            0x3196_42b2_d24d_8ec3,
        );
    }
}

/// Rounds are shuffled apart: with one seed no two rounds start the generator alike, and in one
/// round no two seeds do.
pub proof fn law_rounds_and_seeds_start_apart(seed: u64, other: u64, round: nat, later: nat)
    requires
        round <= u64::MAX,
        later <= u64::MAX,
    ensures
        round != later ==> started(seed, round) != started(seed, later),
        seed != other ==> started(seed, round) != started(other, round),
{
    let (r, l) = (round as u64, later as u64);
    if round != later {
        law_mixing_keeps_numbers_apart(
            mixed(seed).wrapping_add(r),
            mixed(seed).wrapping_add(l),
        );
    }
    if seed != other {
        law_mixing_keeps_numbers_apart(seed, other);
        law_mixing_keeps_numbers_apart(
            mixed(seed).wrapping_add(r),
            mixed(other).wrapping_add(r),
        );
    }
}

proof fn lemma_stepped(state: u64, steps: nat)
    ensures
        stepped(state, steps) as int == (state + steps * STEP) % 0x1_0000_0000_0000_0000,
    decreases steps,
{
    let m = 0x1_0000_0000_0000_0000int;
    if steps == 0 {
        vstd::arithmetic::div_mod::lemma_small_mod(state as nat, 0x1_0000_0000_0000_0000nat);
    } else {
        let next = state.wrapping_add(STEP);
        let rest = (steps - 1) as int;
        lemma_stepped(next, rest as nat);
        assert(next as int == state + STEP || next as int == state + STEP - m);
        assert(steps * STEP == rest * STEP + STEP) by (nonlinear_arith)
            requires
                rest == steps - 1,
        ;
        let here = next + rest * STEP;
        let there = state + steps * STEP;
        if next as int != state + STEP {
            assert(there == m * 1 + here);
            vstd::arithmetic::div_mod::lemma_mod_multiples_vanish(1, here, m);
        }
    }
}

/// No two draws of one round are alike.
pub proof fn law_draws_of_a_round_differ(state: u64, count: nat, k: int, l: int)
    requires
        count <= u64::MAX,
        0 <= k < l < count,
    ensures
        draws_from(state, count)[k] != draws_from(state, count)[l],
{
    let m = 0x1_0000_0000_0000_0000int;
    let (a, b) = (k + 1, l + 1);
    lemma_stepped(state, a as nat);
    lemma_stepped(state, b as nat);
    if stepped(state, a as nat) == stepped(state, b as nat) {
        let (x, y) = (a as u64, b as u64);
        vstd::arithmetic::div_mod::lemma_mod_equivalence(state + b * STEP, state + a * STEP, m);
        vstd::arithmetic::div_mod::lemma_mod_equivalence(b * STEP, a * STEP, m);
        assert((b * STEP) % m == (a * STEP) % m);
        assert(x.wrapping_mul(STEP) == y.wrapping_mul(STEP));
        assert((0x9e37_79b9_7f4a_7c15int * 0xf1de_83e1_9937_733dint) % 0x1_0000_0000_0000_0000
            == 1);
        lemma_multiplied_apart(x, y, STEP, 0xf1de_83e1_9937_733d);
    }
    law_mixing_keeps_numbers_apart(stepped(state, a as nat), stepped(state, b as nat));
}

/// The rounds that are run are those asked for, or the nearest number of them from one to
/// sixty-four.
pub proof fn law_the_nearest_number_of_rounds_is_run(rounds: nat, other: nat)
    requires
        1 <= other <= 64,
    ensures
        1 <= rounds_run(rounds) <= 64,
        1 <= rounds <= 64 ==> rounds_run(rounds) == rounds,
        rounds < rounds_run(rounds) ==> rounds_run(rounds) - rounds <= other - rounds,
        rounds > rounds_run(rounds) ==> rounds - rounds_run(rounds) <= rounds - other,
{
}

/// Reordering moves an option's text and its key together and leaves the rest of the question
/// alone: at every place of the order stand the text and the key of the option that the order
/// names there.
pub proof fn law_an_option_keeps_its_key(
    ask: AskText,
    plan: PlanView,
    order: Seq<usize>,
    place: int,
)
    requires
        0 <= place < order.len(),
    ensures
        reordered_ask(ask, order).options.len() == order.len(),
        reordered_plan(plan, order).keys.len() == order.len(),
        reordered_ask(ask, order).options[place] == ask.options[order[place] as int],
        reordered_plan(plan, order).keys[place] == plan.keys[order[place] as int],
        reordered_ask(ask, order).instructions == ask.instructions,
        reordered_plan(plan, order).id == plan.id,
        reordered_plan(plan, order).kind == plan.kind,
        reordered_plan(plan, order).legend == plan.legend,
{
}

/// The winner is stable just where no two runs answered differently.
pub proof fn law_stable_means_that_no_two_runs_differ(runs: Seq<Run>)
    ensures
        stable(runs) <==> forall|k: int, l: int|
            0 <= k < runs.len() && 0 <= l < runs.len() ==> (#[trigger] runs[k]).choice@ == (
            #[trigger] runs[l]).choice@,
{
}

/// A span holds every probability that the option had, and both of its ends are among them.
pub proof fn law_a_span_holds_every_probability(values: Seq<Real>, span: Span)
    requires
        spans(values, span),
        forall|i: int| 0 <= i < values.len() ==> !(#[trigger] values[i]).nan(),
    ensures
        forall|i: int|
            0 <= i < values.len() ==> span.lowest.place() <= (#[trigger] values[i]).place()
                <= span.highest.place(),
        values.contains(span.lowest),
        values.contains(span.highest),
{
}

/// What an option had in a run is what that run reports under its key.
pub proof fn law_a_value_is_what_its_run_reports(runs: Seq<Run>, key: Seq<char>, k: int, value: Real)
    requires
        0 <= k < runs.len(),
        table::distinct_keys(runs[k].probabilities@),
        runs[k].probabilities@.contains((key, value)),
    ensures
        values_in(runs, key).len() == runs.len(),
        values_in(runs, key)[k] == value,
{
    table::lemma_value_under(runs[k].probabilities@, key, value);
}

/// A run took as long as the clock moved forward, and no time where it did not.
pub proof fn law_time_runs_forward(from: u64, to: u64)
    ensures
        from <= to ==> from + elapsed(from, to) == to,
        to < from ==> elapsed(from, to) == 0,
{
}

impl<
    F: Forward,
    S: Fn(Kind, &F::State, &[F::State]) -> Result<Distribution, Error>,
    W: Fn(Real) -> String,
> LocalEngine<F, S, W> {
    /// A run asks the question alone, names its options in the order they were asked in, and gives
    /// what the distribution of this very run comes to: the first of its most likely options, and
    /// every option's probability.
    pub proof fn law_a_run_reports_its_own_distribution(
        self,
        state: Seq<char>,
        ask: AskText,
        plan: PlanView,
        ran: Ran<F::State>,
        run: Run,
    ) -> (d: Distribution)
        requires
            self.runs_once(state, ask, plan, ran, run),
            plan.kind == Kind::Choice,
            plan.keys.no_duplicates(),
        ensures
            self.runs(state, seq![ask], ran),
            local::distributes(
                self.score,
                seq![plan],
                ran.laid.layout,
                ran.yielded,
                Ok(seq![d]),
            ),
            run.order@.len() == plan.keys.len(),
            forall|i: int| 0 <= i < plan.keys.len() ==> (#[trigger] run.order@[i])@ == plan.keys[i],
            d.options@.len() == plan.keys.len(),
            run.choice@ == readout::answer_of(plan, d)->choice,
            run.probabilities@.len() == plan.keys.len(),
            forall|i: int|
                0 <= i < plan.keys.len() ==> #[trigger] run.probabilities@[i] == (
                    plan.keys[i],
                    d.options@[i].reported,
                ),
    {
        reveal(LocalEngine::runs_once);
        let d = choose|d: Distribution|
            {
                &&& #[trigger] local::distributes(
                    self.score,
                    seq![plan],
                    ran.laid.layout,
                    ran.yielded,
                    Ok(seq![d]),
                )
                &&& d.options@.len() == plan.keys.len()
                &&& readout::answer_of(plan, d) matches AnswerView::Choice {
                    choice,
                    probabilities,
                    ..
                } && run.choice@ == choice && run.probabilities@ == probabilities
            };
        readout::law_every_option_is_reported_under_its_key(plan.keys, d.options@);
        assert(text::views(run.order@).len() == run.order@.len());
        assert forall|i: int| 0 <= i < plan.keys.len() implies (#[trigger] run.order@[i])@
            == plan.keys[i] by {
            assert(text::views(run.order@)[i] == run.order@[i]@);
        }
        d
    }

    /// A permuted question is run once for every round, in the order of that round, from the first,
    /// which keeps the order as given; it is stable where no two runs answered differently, and
    /// every option's span holds each of its probabilities.
    pub proof fn law_a_permuted_question_is_run_in_every_order<C: Fn() -> u64>(
        self,
        state: Seq<char>,
        ask: AskText,
        plan: PlanView,
        rounds: nat,
        seed: u64,
        clock: C,
        made: Seq<Call<F::State>>,
        out: Permuted,
    ) -> (rans: Seq<Ran<F::State>>)
        requires
            self.permutes_question(state, ask, plan, rounds, seed, clock, made, out),
        ensures
            out.runs@.len() == rounds,
            rans.len() == rounds,
            made == local::all_calls(rans),
            forall|k: int| 0 <= k < rounds ==> took(clock, #[trigger] out.runs@[k]),
            forall|k: int|
                0 <= k < rounds ==> self.runs_once(
                    state,
                    reordered_ask(ask, order_of(plan.keys.len(), seed, k as nat)),
                    reordered_plan(plan, order_of(plan.keys.len(), seed, k as nat)),
                    rans[k],
                    #[trigger] out.runs@[k],
                ),
            rounds > 0 ==> order_of(plan.keys.len(), seed, 0) == Seq::new(
                plan.keys.len(),
                |i: int| i as usize,
            ),
            out.argmax_stable <==> forall|k: int, l: int|
                0 <= k < rounds && 0 <= l < rounds ==> (#[trigger] out.runs@[k]).choice@ == (
                #[trigger] out.runs@[l]).choice@,
            out.spread@.len() == plan.keys.len(),
            forall|i: int|
                0 <= i < plan.keys.len() ==> (#[trigger] out.spread@[i]).0 == plan.keys[i] && spans(
                    values_in(out.runs@, plan.keys[i]),
                    out.spread@[i].1,
                ),
    {
        let rans = choose|rans: Seq<Ran<F::State>>|
            #[trigger] self.runs_in_rounds(state, ask, plan, seed, rans, out.runs@) && made
                == local::all_calls(rans);
        rans
    }

    /// Permuting is refused where the request asks no such question, or where it is no choice, and
    /// then nothing is run; of a choice it runs as many rounds as were asked for, from one to
    /// sixty-four.
    pub proof fn law_only_a_choice_is_permuted<C: Fn() -> u64>(
        self,
        request: SystemOneRequest,
        question: Seq<char>,
        rounds: nat,
        seed: u64,
        clock: C,
        made: Seq<Call<F::State>>,
        out: Result<Permuted, Error>,
    )
        requires
            self.permutes_request(request, question, rounds, seed, clock, made, out),
        ensures
            (forall|i: int|
                0 <= i < request.questions@.len() ==> (#[trigger] request.questions@[i]).0
                    != question) ==> made.len() == 0 && (out matches Err(Error::Invalid(m)) && m@
                == "the request asks no choice question "@ + error::debug_chars(question)),
            forall|i: int|
                0 <= i < request.questions@.len() && (#[trigger] request.questions@[i]).0 == question
                    && table::distinct_keys(request.questions@) && !(
                request.questions@[i].1 is Choice) ==> made.len() == 0 && (out matches Err(
                    Error::Invalid(m),
                ) && m@ == error::debug_chars(question) + " is not a choice question"@),
            out matches Ok(permuted) ==> permuted.runs@.len() == if rounds < 1 {
                1
            } else if rounds > 64 {
                64
            } else {
                rounds
            },
    {
        assert forall|i: int|
            0 <= i < request.questions@.len() && (#[trigger] request.questions@[i]).0 == question
                && table::distinct_keys(request.questions@) && !(
            request.questions@[i].1 is Choice) implies made.len() == 0 && (out matches Err(
            Error::Invalid(m),
        ) && m@ == error::debug_chars(question) + " is not a choice question"@) by {
            assert(request.questions@.contains((question, request.questions@[i].1)));
            table::lemma_value_under(request.questions@, question, request.questions@[i].1);
        }
    }

    /// A round comes to nothing only for a reason that its question has, asked alone in the order
    /// of that round; all rounds before it were run.
    pub proof fn law_permuting_fails_only_for_a_reason(
        self,
        state: Seq<char>,
        ask: AskText,
        plan: PlanView,
        rounds: nat,
        seed: u64,
        made: Seq<Call<F::State>>,
        e: Error,
    ) -> (k: nat)
        requires
            self.permuting_fails(state, ask, plan, rounds, seed, made, e),
        ensures
            k < rounds,
            exists|last: Seq<Call<F::State>>| #[trigger]
                self.fails_together(
                    state,
                    seq![reordered_ask(ask, order_of(plan.keys.len(), seed, k))],
                    seq![reordered_plan(plan, order_of(plan.keys.len(), seed, k))],
                    last,
                    e,
                ),
    {
        let n = plan.keys.len();
        let (rans, runs, last) = choose|
            rans: Seq<Ran<F::State>>,
            runs: Seq<Run>,
            last: Seq<Call<F::State>>,
        |
            #![trigger self.runs_in_rounds(state, ask, plan, seed, rans, runs), self.fails_together(
                state,
                seq![reordered_ask(ask, order_of(n, seed, runs.len()))],
                seq![reordered_plan(plan, order_of(n, seed, runs.len()))],
                last,
                e,
            )]
            {
                &&& runs.len() < rounds
                &&& self.runs_in_rounds(state, ask, plan, seed, rans, runs)
                &&& self.fails_together(
                    state,
                    seq![reordered_ask(ask, order_of(n, seed, runs.len()))],
                    seq![reordered_plan(plan, order_of(n, seed, runs.len()))],
                    last,
                    e,
                )
                &&& made == local::all_calls(rans) + last
            };
        runs.len()
    }
}

/// A run is timed by two readings of the clock it was given.
pub proof fn law_a_run_is_timed_by_the_clock<C: Fn() -> u64>(clock: C, run: Run)
    requires
        took(clock, run),
    ensures
        exists|from: u64, to: u64|
            #[trigger] call_ensures(clock, (), from) && #[trigger] call_ensures(clock, (), to) && (
            from <= to ==> from + run.latency_ns == to) && (to < from ==> run.latency_ns == 0),
{
    let (from, to) = choose|from: u64, to: u64|
        #[trigger] call_ensures(clock, (), from) && #[trigger] call_ensures(clock, (), to)
            && run.latency_ns == elapsed(from, to);
    assert(call_ensures(clock, (), from) && call_ensures(clock, (), to));
}

/// The generator steps by one odd number at a time and mixes each state by two shifted
/// multiplications and a last shift.
pub proof fn law_a_draw_is_a_mixed_step(state: u64, count: nat, k: int)
    requires
        0 <= k < count,
    ensures
        draws_from(state, count).len() == count,
        draws_from(state, count)[k] == mixed(stepped(state, (k + 1) as nat)),
        stepped(state, 0) == state,
        stepped(state, (k + 1) as nat) == stepped(
            state.wrapping_add(0x9e37_79b9_7f4a_7c15),
            k as nat,
        ),
        mixed(state) == ({
            let a = (state ^ (state >> 30)).wrapping_mul(0xbf58_476d_1ce4_e5b9);
            let b = (a ^ (a >> 27)).wrapping_mul(0x94d0_49bb_1331_11eb);
            b ^ (b >> 31)
        }),
{
}

} // verus!
