//! The engine end to end, over a backend with no model in it.
//!
//! The stub returns hidden states chosen so that the pointer head produces
//! whichever distribution a test asks for. That fixes the one thing a test
//! cannot check here, what a real backbone would say, and leaves everything
//! else under test: the prompt, the token layout, the question isolation, the
//! readout, and the answers.

use rkev::encode::{Limits, OptionSlot, DECIDE, OPTION, OPTION_END, QUESTION, STATE};
use rkev::error::Error;
use rkev::head::{Linear, PointerHead};
use rkev::local::{Accounted, Forward, LocalEngine, DEFAULT_MODEL};
use rkev::number::{Real, Single};
use rkev::pass::Pass;
use rkev::permute::Permuted;
use rkev::prompt::{render, Kind};
use rkev::readout::{Distribution, Probability};
use rkev::table::Table;
use rkev::types::{Answer, Choice, Noul, Score, SystemOneRequest, SystemOneResponse};
use rkev::value::Value;

// ---------------------------------------------------------------------------
// Numbers
// ---------------------------------------------------------------------------

fn bits(x: f64) -> Real {
    Real { bits: x.to_bits() }
}

fn float(r: Real) -> f64 {
    f64::from_bits(r.bits)
}

fn at(table: &Table<Real>, key: &str) -> f64 {
    float(*table.get(key).unwrap())
}

fn round(x: f64) -> f64 {
    (x * 10_000.0).round() / 10_000.0
}

fn project(row: &[f32], bias: &f32, x: &[f32]) -> f32 {
    bias + row.iter().zip(x).map(|(w, x)| w * x).sum::<f32>()
}

fn scaled_dot(key: &[f32], query: &[f32], temperature: Single) -> f32 {
    let scale = 1.0 / (query.len() as f32).sqrt();
    let score: f32 = key.iter().zip(query).map(|(k, q)| k * q).sum();
    score * scale / f32::from_bits(temperature.bits)
}

/// The identity pointer head: `logit(option) = h_opt . h_decide / sqrt(2)`.
fn identity_head() -> PointerHead<f32> {
    let projection = || Linear::new(vec![1.0, 0.0, 0.0, 1.0], vec![0.0, 0.0], 2).unwrap();
    PointerHead::new(projection(), projection()).unwrap()
}

fn softmax(logits: &[f32]) -> Vec<f32> {
    let max = logits.iter().copied().fold(f32::NEG_INFINITY, f32::max);
    let exp: Vec<f32> = logits.iter().map(|z| (z - max).exp()).collect();
    let total: f32 = exp.iter().sum();
    exp.iter().map(|e| e / total).collect()
}

fn confidence(kind: Kind, p: &[f64]) -> f64 {
    if p.len() == 1 {
        return 1.0;
    }
    match kind {
        Kind::Score => {
            let mut mode = 0;
            for (index, value) in p.iter().enumerate() {
                if *value > p[mode] {
                    mode = index;
                }
            }
            let spread: f64 = p
                .iter()
                .enumerate()
                .map(|(level, p)| p * (level as f64 - mode as f64).abs())
                .sum();
            1.0 - spread / (p.len() - 1) as f64
        }
        _ => {
            let k = p.len() as f64;
            let max = p.iter().copied().fold(f64::NEG_INFINITY, f64::max);
            (max - 1.0 / k) / (1.0 - 1.0 / k)
        }
    }
}

fn score(kind: Kind, decide: &Vec<f32>, options: &[Vec<f32>]) -> Result<Distribution, Error> {
    let logits = identity_head().logits(decide, options, &project, &scaled_dot)?;
    let p: Vec<f64> = softmax(&logits).iter().map(|p| *p as f64).collect();
    let mean: f64 = p.iter().enumerate().map(|(i, p)| i as f64 * p).sum();
    Ok(Distribution {
        options: p
            .iter()
            .map(|p| Probability {
                exact: bits(*p),
                reported: bits(round(*p)),
            })
            .collect(),
        confidence: bits(round(confidence(kind, &p))),
        mean: bits(round(mean)),
    })
}

fn write(r: Real) -> String {
    format!("{}", float(r))
}

// ---------------------------------------------------------------------------
// A backend with no model in it
// ---------------------------------------------------------------------------

const STATE_ID: u32 = 1;
const QUESTION_ID: u32 = 2;
const OPTION_ID: u32 = 3;
const OPTION_END_ID: u32 = 4;
const DECIDE_ID: u32 = 5;
const TEXT_BASE: u32 = 1000;

struct Recorded {
    ids: Vec<u32>,
    positions: Vec<u32>,
    segments: Vec<u32>,
    readout: Vec<usize>,
    options: Vec<OptionSlot>,
}

impl Recorded {
    fn as_pass(&self) -> Pass<'_> {
        Pass::new(&self.ids, &self.positions, &self.segments, &self.readout)
            .with_options(&self.options)
    }

    /// The token indices belonging to question `question` (1-based).
    fn branch(&self, question: u32) -> Vec<usize> {
        (0..self.ids.len())
            .filter(|index| self.segments[*index] == question)
            .collect()
    }
}

struct Stub {
    /// One target distribution per question, in the order the questions are
    /// asked; consumed as the engine works through them.
    targets: Vec<Vec<f64>>,
    served: usize,
    /// Answer through `Pass::rows`, the way a backbone that cannot honour the
    /// block-causal mask has to.
    rows: bool,
    /// Hand back one hidden state fewer than asked for.
    short: bool,
    /// Every piece of text tokenised, in order.
    texts: Vec<String>,
    passes: Vec<Recorded>,
}

impl Stub {
    fn new(targets: Vec<Vec<f64>>) -> Self {
        Stub {
            targets,
            served: 0,
            rows: false,
            short: false,
            texts: Vec::new(),
            passes: Vec::new(),
        }
    }

    /// A `<decide>` position gets `[sqrt(2), 0]`, an option's `</opt>` gets
    /// `[ln p, 0]`. With the identity pointer head that makes the head's logit
    /// for an option exactly `ln p`, so the softmax is the target distribution.
    fn states(&mut self, pass: &Pass<'_>) -> Result<Vec<Vec<f32>>, Error> {
        let mut states = Vec::with_capacity(pass.readout.len());
        let mut option = 0;
        for position in pass.readout {
            match pass.ids[*position] {
                DECIDE_ID => {
                    self.served += 1;
                    option = 0;
                    states.push(vec![2f32.sqrt(), 0.0]);
                }
                OPTION_END_ID => {
                    let target = self.targets.get(self.served - 1).ok_or_else(|| {
                        Error::Engine(format!("stub has no target for question {}", self.served))
                    })?;
                    states.push(vec![target[option].ln() as f32, 0.0]);
                    option += 1;
                }
                id => {
                    return Err(Error::Engine(format!(
                        "the readout asked for position {position}, which holds {id}, \
                         not a <decide> or </opt> token"
                    )))
                }
            }
        }
        Ok(states)
    }
}

impl Forward for Stub {
    type State = Vec<f32>;

    fn tokenise(&mut self, text: &str) -> Result<Vec<u32>, Error> {
        self.texts.push(text.to_string());
        Ok(text.bytes().map(|b| TEXT_BASE + u32::from(b)).collect())
    }

    fn delimiter(&mut self, token: &str) -> Result<u32, Error> {
        match token {
            STATE => Ok(STATE_ID),
            QUESTION => Ok(QUESTION_ID),
            OPTION => Ok(OPTION_ID),
            OPTION_END => Ok(OPTION_END_ID),
            DECIDE => Ok(DECIDE_ID),
            other => Err(Error::Engine(format!("unknown delimiter {other}"))),
        }
    }

    fn hidden(&mut self, pass: &Pass<'_>) -> Result<Vec<Vec<f32>>, Error> {
        self.passes.push(Recorded {
            ids: pass.ids.to_vec(),
            positions: pass.positions.to_vec(),
            segments: pass.segments.to_vec(),
            readout: pass.readout.to_vec(),
            options: pass.options.to_vec(),
        });
        let mut states = if self.rows {
            // One independent causal row per question, concatenated in order.
            let mut states = Vec::new();
            for row in pass.rows() {
                states.extend(self.states(&row.as_pass())?);
            }
            states
        } else {
            self.states(pass)?
        };
        if self.short {
            states.pop();
        }
        Ok(states)
    }
}

type Scorer = fn(Kind, &Vec<f32>, &[Vec<f32>]) -> Result<Distribution, Error>;
type Writer = fn(Real) -> String;
type Engine = LocalEngine<Stub, Scorer, Writer>;

/// How long every request takes here, in milliseconds.
fn took() -> Real {
    Real {
        bits: 12.5f64.to_bits(),
    }
}

fn over(stub: Stub) -> Engine {
    LocalEngine::new(stub, score as Scorer, write as Writer)
}

fn engine(targets: Vec<Vec<f64>>) -> Engine {
    over(Stub::new(targets))
}

fn text(content: &str) -> Value {
    Value::text(content)
}

fn ask(state: &str) -> SystemOneRequest {
    SystemOneRequest::new(text(state))
}

fn texts(list: &[&str]) -> Vec<String> {
    list.iter().map(|t| t.to_string()).collect()
}

// ---------------------------------------------------------------------------
// The worked example
// ---------------------------------------------------------------------------

/// The support ticket from the README, and the distributions it reports.
fn readme_request() -> SystemOneRequest {
    ask("Shoes arrived two weeks late and in the wrong size. \
         Also I see two charges on my card.")
    .ask(
        "department",
        Choice::new(text("Which team should handle this?"))
            .option("returns", "Exchanges, refunds, wrong or damaged items")
            .option("shipping", "Delivery status, delays, lost packages")
            .option("billing", "Charges, invoices, payment problems"),
    )
    .ask(
        "escalate",
        Noul::new(text("Does this need urgent human attention?")),
    )
    .ask(
        "frustration",
        Score::new(text("How frustrated is the customer?"))
            .level("Calm")
            .level("Frustrated")
            .level("Very angry"),
    )
}

/// The README's probabilities. `frustration`'s lowest level is reported as
/// `0.00` there, which is a rounded number, not a zero.
fn readme_targets() -> Vec<Vec<f64>> {
    vec![
        vec![0.47, 0.28, 0.25],
        vec![0.07, 0.93],
        vec![0.00004, 0.55996, 0.44],
    ]
}

fn shown(response: &SystemOneResponse, id: &str) -> String {
    format!("{:?}", response.answer(id).unwrap())
}

#[test]
fn the_answers_reproduce_the_worked_example_from_the_kev_readme() {
    let mut engine = engine(readme_targets());

    let response = engine.system_one_blocking(&readme_request(), &took).unwrap();

    let department = response.answer("department").unwrap();
    assert_eq!(department.as_choice(), Some("returns"));
    let probabilities = department.probabilities().unwrap();
    assert_eq!(at(probabilities, "returns"), 0.47);
    assert_eq!(at(probabilities, "shipping"), 0.28);
    assert_eq!(at(probabilities, "billing"), 0.25);
    // (p_max - 1/K) / (1 - 1/K), which the README prints as 0.21.
    assert_eq!(department.confidence().map(float), Some(0.205));

    let escalate = response.answer("escalate").unwrap();
    assert_eq!(escalate.as_noul().map(float), Some(0.93));

    let frustration = response.answer("frustration").unwrap();
    // The mean level index, and 1 - E|level - mode| / (L - 1).
    assert_eq!(frustration.as_score().map(float), Some(1.44));
    assert_eq!(frustration.confidence().map(float), Some(0.78));
    assert_eq!(at(frustration.probabilities().unwrap(), "0"), 0.0);
    assert_eq!(at(frustration.probabilities().unwrap(), "1"), 0.56);
    assert_eq!(frustration.legend().unwrap().get("2").unwrap(), "Very angry");
    let (label, p) = frustration.top().unwrap();
    assert_eq!((label, float(p)), ("1", 0.56));
}

#[test]
fn the_answers_come_back_in_the_order_the_questions_were_asked() {
    let mut engine = engine(readme_targets());

    let response = engine.system_one_blocking(&readme_request(), &took).unwrap();

    assert_eq!(
        response.answers.keys(),
        texts(&["department", "escalate", "frustration"])
    );
}

#[test]
fn the_prompt_is_the_state_then_each_question_with_its_options() {
    let mut engine = engine(readme_targets());

    engine.system_one_blocking(&readme_request(), &took).unwrap();

    assert_eq!(
        engine.backend.texts[..12],
        [
            "Shoes arrived two weeks late and in the wrong size. Also I see two charges on my card.",
            "Which team should handle this?",
            "returns: Exchanges, refunds, wrong or damaged items",
            "shipping: Delivery status, delays, lost packages",
            "billing: Charges, invoices, payment problems",
            "Does this need urgent human attention?",
            // A yes/no question is two options; its criteria would describe them.
            "no",
            "yes",
            "How frustrated is the customer?",
            "Calm",
            "Frustrated",
            "Very angry",
        ]
    );
}

fn field(name: &str, value: Value) -> (String, Value) {
    (name.to_string(), value)
}

fn number(n: u64) -> Value {
    Value::Number(serde_json::Number::from(n))
}

#[test]
fn a_structured_state_is_rendered_as_labelled_text() {
    let mut engine = engine(vec![vec![0.5, 0.5]]);
    let request = SystemOneRequest::new(Value::Object(vec![
        field("subject", text("Charged twice")),
        field(
            "order",
            Value::Object(vec![
                field("id", number(4411)),
                field("paid", Value::Bool(true)),
            ]),
        ),
        field(
            "notes",
            Value::Array(vec![text("refund one"), text("keep the other")]),
        ),
    ]))
    .ask("billing", Noul::new(text("Is this about billing?")));

    engine.system_one_blocking(&request, &took).unwrap();

    assert_eq!(
        engine.backend.texts[0],
        "subject: Charged twice\norder:\n  id: 4411\n  paid: True\nnotes:\n  - refund one\n  - keep the other"
    );
}

#[test]
fn the_readout_reads_the_decide_and_end_of_option_tokens() {
    let mut engine = engine(readme_targets());

    engine.system_one_blocking(&readme_request(), &took).unwrap();

    let pass = &engine.backend.passes[0];
    let read: Vec<u32> = pass.readout.iter().map(|index| pass.ids[*index]).collect();
    assert_eq!(
        read,
        [
            DECIDE_ID,
            OPTION_END_ID,
            OPTION_END_ID,
            OPTION_END_ID, // department
            DECIDE_ID,
            OPTION_END_ID,
            OPTION_END_ID, // escalate
            DECIDE_ID,
            OPTION_END_ID,
            OPTION_END_ID,
            OPTION_END_ID, // frustration
        ]
    );
}

#[test]
fn a_question_can_read_the_state_but_not_another_question() {
    let mut engine = engine(readme_targets());

    engine.system_one_blocking(&readme_request(), &took).unwrap();

    let recorded = &engine.backend.passes[0];
    let pass = recorded.as_pass();
    let (first, second) = (recorded.branch(1), recorded.branch(2));

    for token in &second {
        for earlier in &first {
            assert!(
                !pass.attends(*token, *earlier),
                "token {token} of question 2 can read token {earlier} of question 1"
            );
        }
        assert!(pass.attends(*token, 0), "question 2 cannot read the state");
        assert!(
            !pass.attends(*token, token + 1) || *token + 1 >= recorded.ids.len(),
            "question 2 can read a later token"
        );
    }
    assert!(!pass.is_causal(), "three questions need the branch mask");
}

#[test]
fn every_question_is_positioned_as_if_it_were_the_only_one() {
    let mut engine = engine(readme_targets());

    engine.system_one_blocking(&readme_request(), &took).unwrap();

    let recorded = &engine.backend.passes[0];
    let state_len = recorded.branch(0).len();
    for question in 1..=3 {
        let branch = recorded.branch(question);
        let positions: Vec<u32> = branch
            .iter()
            .map(|index| recorded.positions[*index])
            .collect();
        let expected: Vec<u32> =
            (state_len as u32..state_len as u32 + branch.len() as u32).collect();
        assert_eq!(
            positions, expected,
            "question {question} sits at the wrong positions"
        );
    }
}

#[test]
fn asking_separately_gives_the_same_answers_one_pass_at_a_time() {
    let mut packed = engine(readme_targets());
    let mut separate = engine(readme_targets());

    let together = packed.system_one_blocking(&readme_request(), &took).unwrap();
    let apart = separate
        .system_one_separate_blocking(&readme_request(), &took)
        .unwrap();

    assert_eq!(separate.backend.passes.len(), 3, "one pass per question");
    for id in ["department", "escalate", "frustration"] {
        assert_eq!(
            shown(&apart, id),
            shown(&together, id),
            "{id} differs between the packed and the separate call"
        );
    }
    // Each pass carries the state and exactly one question.
    for pass in &separate.backend.passes {
        assert!(
            pass.as_pass().is_causal(),
            "a separate pass needs no branch mask"
        );
    }
    // The state is encoded once per question, and billed that way.
    assert!(apart.usage.input_tokens > together.usage.input_tokens);
    let state = packed.backend.passes[0].branch(0).len() as u64;
    assert_eq!(
        apart.usage.input_tokens,
        together.usage.input_tokens + 2 * state
    );
}

#[test]
fn a_backend_that_can_only_run_causal_rows_gets_the_same_answers() {
    let mut rows = over(Stub {
        rows: true,
        ..Stub::new(readme_targets())
    });
    let mut packed = engine(readme_targets());

    let through_rows = rows.system_one_blocking(&readme_request(), &took).unwrap();
    let packed = packed.system_one_blocking(&readme_request(), &took).unwrap();

    assert_eq!(
        rows.backend.passes.len(),
        1,
        "still one call into the backend"
    );
    for id in ["department", "escalate", "frustration"] {
        assert_eq!(
            shown(&through_rows, id),
            shown(&packed, id),
            "{id} differs between the packed and the row form"
        );
    }
}

#[test]
fn the_answers_are_billed_the_way_the_server_serialises_them() {
    let mut engine = engine(readme_targets());

    let response = engine.system_one_blocking(&readme_request(), &took).unwrap();

    // `output_tokens` counts the serialised answers, not generated tokens:
    // there are none. This stub bills one token per byte.
    let serialised = engine.backend.texts.last().unwrap().clone();
    assert_eq!(
        serialised,
        "{\"department\": {\"type\": \"choice\", \"choice\": \"returns\", \"confidence\": 0.205, \
         \"probabilities\": {\"returns\": 0.47, \"shipping\": 0.28, \"billing\": 0.25}}, \
         \"escalate\": {\"type\": \"noul\", \"noul\": 0.93}, \
         \"frustration\": {\"type\": \"score\", \"score\": 1.44, \
         \"legend\": {\"0\": \"Calm\", \"1\": \"Frustrated\", \"2\": \"Very angry\"}, \
         \"probabilities\": {\"0\": 0.0, \"1\": 0.56, \"2\": 0.44}, \"confidence\": 0.78}}"
    );
    assert_eq!(response.usage.output_tokens, serialised.len() as u64);
    assert!(response.usage.input_tokens > 0);
    assert!(response.latency_ms.is_some());
    assert_eq!(response.latency_ms.unwrap().bits, took().bits);
}

#[test]
fn the_model_is_the_one_the_request_pins_or_the_engine_default() {
    let mut engine = engine(vec![vec![0.5, 0.5], vec![0.5, 0.5]]);
    let request = || ask("x").ask("q", Noul::new(text("?")));

    let default = engine.system_one_blocking(&request(), &took).unwrap();
    let pinned = engine
        .system_one_blocking(&request().model("kev-4b"), &took)
        .unwrap();

    assert_eq!(default.model, DEFAULT_MODEL);
    assert_eq!(pinned.model, "kev-4b");
}

fn long_question() -> Choice {
    Choice::new(text("Pick one")).options(
        (0..20)
            .map(|i| {
                (
                    format!("option-{i}"),
                    String::from("a description that costs tokens"),
                )
            })
            .collect(),
    )
}

#[test]
fn a_question_too_long_for_the_context_is_a_validation_error() {
    let mut engine = engine(vec![vec![0.5, 0.5]]).with_limits(Limits {
        max_state: 16,
        max_branch: 32,
    });

    let error = engine
        .system_one_blocking(&ask("a ticket").ask("q", long_question()), &took)
        .unwrap_err();

    assert!(error.is_validation(), "got {error:?}");
    assert!(error.message().contains("context"), "{error:?}");
}

#[test]
fn a_state_longer_than_the_context_is_truncated_rather_than_refused() {
    let mut engine = engine(vec![vec![0.5, 0.5]]).with_limits(Limits {
        max_state: 8,
        max_branch: 64,
    });

    let response = engine.system_one_blocking(
        &ask("a state far longer than eight tokens").ask("q", Noul::new(text("?"))),
        &took,
    );

    assert!(response.is_ok(), "{:?}", response.unwrap_err());
    let state = engine.backend.passes[0].branch(0);
    assert_eq!(state.len(), 8, "the state kept its delimiter and 7 tokens");
}

#[test]
fn a_batch_of_requests_is_answered_like_a_sequence_of_them() {
    // Over a backend that does not override `hidden_batch`, the batch API is the
    // loop it would have been, which is what keeps it usable for any backend,
    // not just the one that can share a prefill.
    let mut engine = engine(vec![vec![0.3, 0.7], vec![0.6, 0.4], vec![0.55, 0.45]]);
    let requests: Vec<SystemOneRequest> = ["a ticket", "another ticket", "a third"]
        .iter()
        .map(|state| ask(state).ask("q", Noul::new(text("about money?"))))
        .collect();

    let answers = engine.system_one_batch_blocking(&requests, &took).unwrap();

    let noul = |i: usize| answers[i].answer("q").unwrap().as_noul().map(float);
    assert_eq!(answers.len(), 3);
    assert_eq!(noul(0), Some(0.7));
    assert_eq!(noul(1), Some(0.4));
    assert_eq!(noul(2), Some(0.45));
    assert_eq!(engine.backend.passes.len(), 3, "one pass per request");
}

#[test]
fn a_request_that_does_not_fit_fails_the_whole_batch() {
    let mut engine = engine(vec![vec![0.5, 0.5]]).with_limits(Limits {
        max_state: 16,
        max_branch: 32,
    });

    let error = engine
        .system_one_batch_blocking(&[
            ask("fine").ask("q", Noul::new(text("?"))),
            ask("a ticket").ask("q", long_question()),
        ], &took)
        .unwrap_err();

    assert!(error.is_validation(), "got {error:?}");
}

// ---------------------------------------------------------------------------
// Permuting
// ---------------------------------------------------------------------------

fn still() -> u64 {
    7
}

fn team(options: &[&str]) -> SystemOneRequest {
    let mut question = Choice::new(text("which team ?"));
    for option in options {
        question = question.option_bare(option);
    }
    ask("a ticket").ask("team", question)
}

fn spread(permuted: &Permuted, key: &str) -> f64 {
    let span = permuted.spread.get(key).unwrap();
    float(span.highest) - float(span.lowest)
}

#[test]
fn permuting_runs_the_orders_and_reports_what_moved() {
    // The stub answers by option *position*, so it is a model that cares about
    // order, which is what this call exists to detect.
    let mut engine = engine(vec![vec![0.7, 0.2, 0.1]; 6]);
    let request = team(&["returns", "shipping", "billing"]);

    let permuted = engine
        .permute_blocking(&request, "team", 6, 0, &still)
        .unwrap();

    assert_eq!(permuted.runs.len(), 6);
    // The first run keeps the order as given.
    assert_eq!(
        permuted.runs[0].order,
        texts(&["returns", "shipping", "billing"])
    );
    // Every run reports a full distribution and its winner.
    for run in &permuted.runs {
        assert_eq!(run.probabilities.len(), 3);
        assert_eq!(run.choice, run.order[0], "this stub answers by position");
        assert_eq!(run.probabilities.keys(), run.order);
        assert_eq!(run.latency_ns, 0, "this clock stands still");
    }
    // A model that answers by position cannot be stable under shuffling.
    assert!(!permuted.argmax_stable);
    assert_eq!(permuted.spread.len(), 3);
    assert!(["returns", "shipping", "billing"]
        .iter()
        .any(|option| spread(&permuted, option) > 0.5));
    // Only the named question was asked, six times over the same state.
    let asked = &engine.backend.texts;
    assert_eq!(asked.iter().filter(|text| *text == "a ticket").count(), 6);
    assert!(!asked.iter().any(|text| text == "is this late ?"));
}

#[test]
fn permuting_asks_the_named_question_only() {
    let mut engine = engine(vec![vec![0.7, 0.3]; 2]);
    let request =
        team(&["returns", "billing"]).ask("late", Noul::new(text("is this late ?")));

    engine
        .permute_blocking(&request, "team", 2, 0, &still)
        .unwrap();

    let asked = &engine.backend.texts;
    assert_eq!(asked.iter().filter(|text| *text == "which team ?").count(), 2);
    assert!(!asked.iter().any(|text| text == "is this late ?"));
}

#[test]
fn one_round_of_permuting_moves_nothing() {
    let mut engine = engine(vec![vec![0.6, 0.4]]);
    let request = team(&["returns", "billing"]);

    // Zero rounds is one round: the clamp the client applies to `n_perm`.
    let permuted = engine
        .permute_blocking(&request, "team", 0, 7, &still)
        .unwrap();

    assert_eq!(permuted.runs.len(), 1);
    assert!(permuted.argmax_stable);
    for option in ["returns", "billing"] {
        assert_eq!(spread(&permuted, option), 0.0);
    }
}

#[test]
fn permuting_is_the_same_twice_from_the_same_seed() {
    let orders = |seed: u64| -> Vec<Vec<String>> {
        let mut engine = engine(vec![vec![0.5, 0.3, 0.2]; 5]);
        let permuted = engine
            .permute_blocking(
                &team(&["returns", "shipping", "billing"]),
                "team",
                5,
                seed,
                &still,
            )
            .unwrap();
        permuted.runs.into_iter().map(|run| run.order).collect()
    };

    assert_eq!(orders(3), orders(3));
    assert_ne!(orders(3), orders(4), "the seed has to change something");
}

#[test]
fn permuting_anything_but_a_choice_question_is_a_validation_error() {
    let mut engine = engine(vec![vec![0.5, 0.5]]);
    let request = ask("a ticket").ask("late", Noul::new(text("is this late ?")));

    let error = engine
        .permute_blocking(&request, "late", 4, 0, &still)
        .unwrap_err();
    assert!(error.is_validation(), "got {error:?}");
    assert!(error.message().contains("choice question"), "{error:?}");

    let missing = engine
        .permute_blocking(&request, "absent", 4, 0, &still)
        .unwrap_err();
    assert!(missing.is_validation(), "got {missing:?}");
    assert!(missing.message().contains("\"absent\""), "{missing:?}");
}

#[test]
fn a_question_is_asked_under_at_most_sixty_four_orders() {
    let mut engine = engine(vec![vec![0.6, 0.4]; 64]);

    let permuted = engine
        .permute_blocking(&team(&["returns", "billing"]), "team", 1000, 1, &still)
        .unwrap();

    assert_eq!(permuted.runs.len(), 64);
}

// ---------------------------------------------------------------------------
// Isolation
// ---------------------------------------------------------------------------

#[test]
fn isolating_the_options_puts_every_span_at_the_same_positions() {
    // Every option span restarts where the instructions end, and `<decide>` sits
    // past the longest of them, so no option can be told apart by where it sits.
    let mut engine = engine(vec![vec![0.5, 0.3, 0.2]]).with_option_isolation(true);
    let request = ask("a ticket").ask(
        "team",
        Choice::new(text("which team ?"))
            .option_bare("returns")
            .option("shipping", "a much longer description")
            .option_bare("x"),
    );

    engine.system_one_blocking(&request, &took).unwrap();

    let pass = &engine.backend.passes[0];
    assert_eq!(pass.options.len(), pass.ids.len(), "every token has a slot");

    let span = |option: u8| -> Vec<u32> {
        pass.options
            .iter()
            .zip(&pass.positions)
            .filter(|(slot, _)| **slot == OptionSlot::Option(option))
            .map(|(_, position)| *position)
            .collect()
    };
    let starts: Vec<u32> = (0..3).map(|option| span(option)[0]).collect();
    assert_eq!(starts[0], starts[1], "spans start at the same position");
    assert_eq!(starts[1], starts[2]);
    // Each span is consecutive from there.
    for option in 0..3 {
        let positions = span(option);
        let expected: Vec<u32> = (starts[0]..starts[0] + positions.len() as u32).collect();
        assert_eq!(positions, expected, "option {option}");
    }
    // `<decide>` sits one past the longest span, whichever option that was.
    let longest = (0..3).map(|option| span(option).len()).max().unwrap() as u32;
    let decide = pass
        .options
        .iter()
        .zip(&pass.positions)
        .find(|(slot, _)| **slot == OptionSlot::Decide)
        .map(|(_, position)| *position)
        .unwrap();
    assert_eq!(decide, starts[0] + longest);

    // An option reads the state, its question's instructions and itself, and no
    // other option; `<decide>` reads them all.
    let view = pass.as_pass();
    assert!(view.is_isolated() && !view.is_causal());
    let first_of = |option: u8| {
        pass.options
            .iter()
            .position(|slot| *slot == OptionSlot::Option(option))
            .unwrap()
    };
    assert!(!view.attends(first_of(1), first_of(0)));
    assert!(view.attends(first_of(1), 0));
    assert!(view.attends(first_of(1), pass.branch(1)[0]));
    assert!(view.attends(pass.ids.len() - 1, first_of(0)));
    assert!(view.attends(pass.ids.len() - 1, first_of(2)));
}

#[test]
fn without_isolation_no_token_carries_a_slot() {
    let mut engine = engine(vec![vec![0.5, 0.5]]);

    engine
        .system_one_blocking(&ask("a ticket").ask("q", Noul::new(text("late?"))), &took)
        .unwrap();

    // The usual layout costs nothing to carry: the slots stay empty, and
    // `Pass::attends` never looks at them.
    assert!(engine.backend.passes[0].options.is_empty());
    assert!(!engine.backend.passes[0].as_pass().is_isolated());
}

#[test]
fn more_options_than_can_be_told_apart_are_refused_where_they_are_isolated() {
    let mut question = Choice::new(text("i"));
    for index in 0..257 {
        question = question.option_bare(&format!("o{index}"));
    }
    let mut engine = engine(vec![vec![1.0 / 257.0; 257]]).with_option_isolation(true);

    let error = engine
        .system_one_blocking(&ask("s").ask("q", question), &took)
        .unwrap_err();

    assert!(error.is_validation());
    assert_eq!(
        error.message(),
        "invalid request: option isolation tells at most 256 options apart, got 257"
    );
}

// ---------------------------------------------------------------------------
// The mapping, the formulas and the edges
// ---------------------------------------------------------------------------

#[test]
fn render_flattens_structured_content() {
    assert_eq!(render(&text("plain")), "plain");
    assert_eq!(render(&Value::Null), "");
    assert_eq!(
        render(&Value::Object(vec![
            field("what", text("A")),
            field("not_for", text("B")),
        ])),
        "what: A\nnot_for: B"
    );
    assert_eq!(
        render(&Value::Array(vec![text("x"), text("y")])),
        "- x\n- y"
    );
    assert_eq!(
        render(&Value::Object(vec![field(
            "ticket",
            Value::Object(vec![
                field("channel", text("email")),
                field("body", text("hi")),
            ]),
        )])),
        "ticket:\n  channel: email\n  body: hi"
    );
    assert_eq!(
        render(&Value::Object(vec![field(
            "examples",
            Value::Array(vec![text("a"), text("b")]),
        )])),
        "examples:\n  - a\n  - b"
    );
}

#[test]
fn nested_arrays_and_numbers_render_as_they_are_written() {
    let half = serde_json::Number::from_f64(0.5).unwrap();
    let value = Value::Array(vec![
        Value::Array(vec![text("  deep"), Value::Number(half)]),
        Value::Object(vec![field("off", Value::Bool(false)), field("gone", Value::Null)]),
        Value::Array(vec![]),
    ]);

    assert_eq!(
        render(&value),
        "- - deep\n  - 0.5\n- off: False\n  gone: \n- "
    );
}

#[test]
fn a_request_maps_to_the_record_the_python_builds() {
    let request = SystemOneRequest::new(Value::Object(vec![field(
        "document",
        text("I was charged twice."),
    )]))
    .ask(
        "billing",
        Noul::new(text("About billing?"))
            .yes("Charges")
            .no("Not charges"),
    )
    .ask(
        "tone",
        Choice::new(text("Tone?"))
            .option_bare("calm")
            .option("angry", "Hostile"),
    )
    .ask(
        "urgency",
        Score::new(text("Urgency?")).level("can wait").level("today"),
    );
    let mut engine = engine(vec![vec![0.4, 0.6], vec![0.5, 0.5], vec![0.5, 0.5]]);

    let response = engine.system_one_blocking(&request, &took).unwrap();

    let asked = &engine.backend.texts;
    assert_eq!(asked[0], "document: I was charged twice.");
    // Per question: the instructions, then the options.
    assert_eq!(
        asked[1..4],
        ["About billing?", "no: Not charges", "yes: Charges"]
    );
    assert_eq!(asked[4..7], ["Tone?", "calm", "angry: Hostile"]);
    assert_eq!(asked[7..10], ["Urgency?", "can wait", "today"]);

    assert_eq!(
        response.answers.keys(),
        texts(&["billing", "tone", "urgency"])
    );
    let tone = response.answer("tone").unwrap();
    assert_eq!(
        tone.probabilities().unwrap().keys(),
        texts(&["calm", "angry"])
    );
    let urgency = response.answer("urgency").unwrap();
    assert_eq!(urgency.legend().unwrap().get("0").unwrap(), "can wait");
    assert_eq!(urgency.legend().unwrap().get("1").unwrap(), "today");
}

#[test]
fn answers_have_the_shapes_and_formulas_the_python_gives() {
    let request = ask("s")
        .ask("n", Noul::new(text("i")))
        .ask(
            "c",
            Choice::new(text("i"))
                .option_bare("a")
                .option_bare("b")
                .option_bare("c"),
        )
        .ask(
            "s",
            Score::new(text("i")).level("lo").level("mid").level("hi"),
        );
    let mut engine = engine(vec![
        vec![0.3, 0.7],
        vec![0.8, 0.15, 0.05],
        vec![0.1, 0.3, 0.6],
    ]);

    let response = engine.system_one_blocking(&request, &took).unwrap();

    let noul = response.answer("n").unwrap();
    assert_eq!(noul.as_noul().map(float), Some(0.7));
    let choice = response.answer("c").unwrap();
    assert_eq!(choice.as_choice(), Some("a"));
    assert_eq!(at(choice.probabilities().unwrap(), "a"), 0.8);
    assert_eq!(at(choice.probabilities().unwrap(), "b"), 0.15);
    assert_eq!(at(choice.probabilities().unwrap(), "c"), 0.05);
    // round((0.8 - 1/3) / (1 - 1/3), 4)
    assert_eq!(choice.confidence().map(float), Some(0.7));
    let score = response.answer("s").unwrap();
    assert_eq!(score.as_score().map(float), Some(1.5));
    assert_eq!(at(score.probabilities().unwrap(), "2"), 0.6);
    assert_eq!(score.legend().unwrap().get("1").unwrap(), "mid");
}

/// Four decimals keep a rounded distribution within `|sum - 1| < 0.02`, even at
/// the 255-option maximum.
#[test]
fn a_rounded_distribution_still_sums_to_one_closely_enough() {
    for probabilities in [
        std::iter::once(0.79)
            .chain(std::iter::repeat(0.21 / 39.0).take(39))
            .collect::<Vec<f64>>(),
        vec![1.0 / 255.0; 255],
    ] {
        let mut question = Choice::new(text("i"));
        for index in 0..probabilities.len() {
            question = question.option_bare(&format!("o{index}"));
        }
        let mut engine = engine(vec![probabilities.clone()]);

        let response = engine
            .system_one_blocking(&ask("s").ask("target", question), &took)
            .unwrap();

        let served = response.answer("target").unwrap().probabilities().unwrap();
        assert_eq!(served.len(), probabilities.len());
        let sum: f64 = (0..served.len()).map(|i| float(*served.value_at(i))).sum();
        assert!(
            (sum - 1.0).abs() < 0.02,
            "{} options summed to {sum}",
            probabilities.len()
        );
    }
}

/// The probabilities a stub can produce are softmaxes, so a flat zero is written
/// as very nearly zero, which is what a model would give anyway.
#[test]
fn the_confidence_edge_cases_are_the_python_ones() {
    let ask_one = |targets: Vec<f64>, options: usize, scored: bool| {
        let mut engine = engine(vec![targets]);
        let request = if scored {
            let mut question = Score::new(text("i"));
            for index in 0..options {
                question = question.level(&format!("level {index}"));
            }
            ask("s").ask("q", question)
        } else {
            let mut question = Choice::new(text("i"));
            for index in 0..options {
                question = question.option_bare(&format!("o{index}"));
            }
            ask("s").ask("q", question)
        };
        let response = engine.system_one_blocking(&request, &took).unwrap();
        float(response.answer("q").unwrap().confidence().unwrap())
    };

    // A single option is certain by construction, for a choice and for a score.
    assert_eq!(ask_one(vec![1.0], 1, false), 1.0);
    assert_eq!(ask_one(vec![1.0], 1, true), 1.0);
    // Two options, evenly split: no better than guessing.
    assert_eq!(ask_one(vec![0.5, 0.5], 2, false), 0.0);
    // All on one option, and all on one level.
    assert!((ask_one(vec![0.9999, 0.00005, 0.00005], 3, false) - 1.0).abs() < 1e-3);
    assert_eq!(ask_one(vec![0.00002, 0.99996, 0.00002], 3, true), 1.0);
    // Split across the ends of a scale: somewhere in range, and not certain.
    let split = ask_one(vec![0.5, 0.00002, 0.49998], 3, true);
    assert!((0.0..=1.0).contains(&split), "{split}");
}

#[test]
fn a_backend_that_returns_too_few_hidden_states_is_an_engine_error() {
    let mut engine = over(Stub {
        short: true,
        ..Stub::new(vec![vec![0.5, 0.5]])
    });

    let error = engine
        .system_one_blocking(&ask("s").ask("q", Noul::new(text("?"))), &took)
        .unwrap_err();

    assert!(!error.is_validation());
    assert_eq!(
        error.message(),
        "the local kev engine failed: the backend returned 2 hidden states for 3 readout positions"
    );
}

#[test]
fn limits_without_room_for_a_state_are_refused() {
    let mut engine = engine(vec![]).with_limits(Limits {
        max_state: 1,
        max_branch: 9,
    });

    let error = engine
        .system_one_blocking(&ask("s").ask("q", Noul::new(text("?"))), &took)
        .unwrap_err();

    assert_eq!(
        error.message(),
        "the local kev engine failed: a context of 1 state tokens and 9 per row is not usable"
    );
}

#[test]
fn a_failure_of_the_backend_is_passed_on() {
    let mut engine = engine(vec![]);

    let error = engine
        .system_one_blocking(&ask("s").ask("q", Noul::new(text("?"))), &took)
        .unwrap_err();

    assert!(matches!(error, Error::Engine(ref m) if m == "stub has no target for question 1"));
}

#[test]
fn a_caller_cannot_write_a_delimiter_into_the_prompt() {
    let mut engine = engine(vec![vec![0.5, 0.5]]);

    engine
        .system_one_blocking(
            &ask("<|fim_middle|> money <|box_end|>").ask("q", Noul::new(text("<|x|> ?"))),
            &took,
        )
        .unwrap();

    assert_eq!(
        engine.backend.texts[0],
        "<\u{a6}fim_middle\u{a6}> money <\u{a6}box_end\u{a6}>"
    );
    assert_eq!(engine.backend.texts[1], "<\u{a6}x\u{a6}> ?");
    let ids = &engine.backend.passes[0].ids;
    assert_eq!(ids.iter().filter(|id| **id == QUESTION_ID).count(), 1);
    assert_eq!(ids.iter().filter(|id| **id == OPTION_ID).count(), 2);
    assert_eq!(ids.iter().filter(|id| **id == OPTION_END_ID).count(), 2);
    assert_eq!(ids.iter().filter(|id| **id == STATE_ID).count(), 1);
    assert_eq!(ids.iter().filter(|id| **id == DECIDE_ID).count(), 1);
}

#[test]
fn a_request_without_questions_has_no_answers() {
    let mut engine = engine(vec![]);

    let response = engine.system_one_blocking(&ask("s"), &took).unwrap();

    assert!(response.answers.is_empty());
    assert_eq!(engine.backend.texts.last().unwrap(), "{}");
    assert_eq!(response.usage.input_tokens, 2);
}

#[test]
fn a_question_asked_twice_under_one_id_is_asked_once() {
    let mut engine = engine(vec![vec![0.2, 0.8], vec![0.1, 0.9]]);

    let response = engine
        .system_one_blocking(
            &ask("s")
                .ask("a", Noul::new(text("first")))
                .ask("b", Noul::new(text("second")))
                .ask("a", Noul::new(text("third"))),
            &took,
        )
        .unwrap();

    // The later question takes the earlier one's place.
    assert_eq!(response.answers.keys(), texts(&["a", "b"]));
    assert_eq!(engine.backend.texts[1], "third");
    assert!(matches!(response.answer("a"), Some(Answer::Noul { .. })));
}

#[test]
fn a_batch_ends_at_the_first_pass_that_fails() {
    let mut engine = engine(vec![vec![0.2, 0.8]]);
    let requests: Vec<SystemOneRequest> = ["a", "b", "c"]
        .iter()
        .map(|state| ask(state).ask("q", Noul::new(text("?"))))
        .collect();

    let error = engine
        .system_one_batch_blocking(&requests, &took)
        .unwrap_err();

    assert!(matches!(error, Error::Engine(ref m) if m == "stub has no target for question 2"));
    assert_eq!(engine.backend.passes.len(), 2, "the third pass was not run");
}

#[test]
fn the_first_question_that_does_not_fit_ends_the_reading() {
    let mut engine = engine(vec![vec![0.5, 0.5]]).with_limits(Limits {
        max_state: 16,
        max_branch: 32,
    });

    let error = engine
        .system_one_blocking(
            &ask("a ticket")
                .ask("first", Noul::new(text("late?")))
                .ask("second", long_question())
                .ask("third", Noul::new(text("money?"))),
            &took,
        )
        .unwrap_err();

    assert!(error.is_validation(), "got {error:?}");
    let asked = &engine.backend.texts;
    assert_eq!(asked[0], "a ticket");
    assert_eq!(asked[1], "late?");
    assert!(asked.contains(&String::from("Pick one")));
    assert!(!asked.contains(&String::from("money?")));
    assert!(engine.backend.passes.is_empty(), "nothing was run");
}

#[test]
fn a_request_runs_one_pass_and_is_billed_once() {
    let mut together = engine(readme_targets());
    let response = together.system_one_blocking(&readme_request(), &took).unwrap();
    assert_eq!(together.backend.passes.len(), 1);
    assert_eq!(
        response.usage.input_tokens as usize,
        together.backend.passes[0].ids.len()
    );

    let mut apart = engine(readme_targets());
    let response = apart
        .system_one_separate_blocking(&readme_request(), &took)
        .unwrap();
    assert_eq!(apart.backend.passes.len(), readme_targets().len());
    let tokens: usize = apart.backend.passes.iter().map(|pass| pass.ids.len()).sum();
    assert_eq!(response.usage.input_tokens as usize, tokens);
}

#[test]
fn every_round_of_permuting_runs_one_pass_and_says_how_long_it_took() {
    let ticks = std::cell::Cell::new(0u64);
    let clock = || {
        let now = ticks.get();
        ticks.set(now + 5);
        now
    };
    let mut engine = engine(vec![vec![0.6, 0.4]; 3]);

    let permuted = engine
        .permute_blocking(&team(&["returns", "billing"]), "team", 3, 1, &clock)
        .unwrap();

    assert_eq!(engine.backend.passes.len(), 3);
    for (run, pass) in permuted.runs.iter().zip(&engine.backend.passes) {
        assert_eq!(run.latency_ns, 5);
        assert_eq!(pass.segments.iter().max(), Some(&1), "one question per pass");
    }
    assert_eq!(ticks.get(), 30, "two readings per run");
}

#[test]
fn an_account_changes_nothing_of_a_backend() {
    let mut bare = engine(readme_targets());
    let backend = Accounted::new(Stub::new(readme_targets()));
    let mut accounted = LocalEngine::new(backend, score, write);

    let one = bare.system_one_blocking(&readme_request(), &took).unwrap();
    let other = accounted
        .system_one_blocking(&readme_request(), &took)
        .unwrap();

    assert_eq!(one.answers.keys(), other.answers.keys());
    for id in one.answers.keys() {
        assert_eq!(shown(&one, &id), shown(&other, &id));
    }
    assert_eq!(one.usage.output_tokens, other.usage.output_tokens);
    assert_eq!(bare.backend.texts, accounted.backend.inner.texts);
    assert_eq!(accounted.backend.inner.passes.len(), 1);

    let batch = accounted.backend.inner.hidden_batch(&[]).unwrap();
    assert!(batch.is_empty());
    assert!(accounted.backend.hidden_batch(&[]).unwrap().is_empty());
}
