//! The pointer head: two projections into a shared space, and a score per option.
//!
//! The numbers themselves are the caller's: what is here is which numbers meet
//! which, and what is refused.

use vstd::prelude::*;
use vstd::slice::slice_subrange;

use crate::error::Error;
use crate::number::Single;
use crate::text;

verus! {

/// A linear layer `y = W x + b`, with `W` stored row-major as
/// `[outputs][inputs]`.
#[derive(Debug)]
pub struct Linear<N> {
    weight: Vec<N>,
    bias: Vec<N>,
    inputs: usize,
}

/// A linear layer, as sequences: a row of weights and a bias per output.
pub struct LinearView<N> {
    pub weight: Seq<N>,
    pub bias: Seq<N>,
    pub inputs: nat,
}

impl<N> View for Linear<N> {
    type V = LinearView<N>;

    closed spec fn view(&self) -> LinearView<N> {
        LinearView { weight: self.weight@, bias: self.bias@, inputs: self.inputs as nat }
    }
}

impl<N> LinearView<N> {
    /// The numbers fill whole rows, and there is one at least.
    pub open spec fn whole(self) -> bool {
        self.inputs > 0 && self.bias.len() > 0 && self.weight.len() == self.bias.len()
            * self.inputs
    }

    /// The weights of output `i`.
    pub open spec fn row(self, i: int) -> Seq<N> {
        self.weight.subrange(i * self.inputs, (i + 1) * self.inputs)
    }
}

/// What is said of numbers that do not fill whole rows.
pub open spec fn shape_message(weights: nat, biases: nat, inputs: nat) -> Seq<char> {
    "a "@ + text::decimal(biases) + "x"@ + text::decimal(inputs) + " linear needs "@
        + text::decimal(biases * inputs) + " weights and "@ + text::decimal(biases)
        + " biases, got "@ + text::decimal(weights) + " and "@ + text::decimal(biases)
}

impl<N> Linear<N> {
    #[verifier::type_invariant]
    spec fn shaped(self) -> bool {
        self@.whole()
    }

    /// `weight` is `outputs * inputs` values, row-major; `bias` is one value
    /// per output, as the checkpoint stores them.
    pub fn new(weight: Vec<N>, bias: Vec<N>, inputs: usize) -> (out: Result<Self, Error>)
        requires
            bias@.len() * inputs <= usize::MAX,
        ensures
            out is Ok <==> inputs > 0 && bias@.len() > 0 && weight@.len() == bias@.len() * inputs,
            out matches Ok(linear) ==> linear@ == (LinearView {
                weight: weight@,
                bias: bias@,
                inputs: inputs as nat,
            }) && linear@.whole(),
            out matches Err(e) ==> e.is_engine(
                shape_message(weight@.len(), bias@.len(), inputs as nat),
            ),
    {
        let needed: usize = bias.len() * inputs;
        if inputs == 0 || bias.len() == 0 || weight.len() != needed {
            let mut message = "a ".to_owned();
            message.append(text::decimal_text(bias.len()).as_str());
            message.append("x");
            message.append(text::decimal_text(inputs).as_str());
            message.append(" linear needs ");
            message.append(text::decimal_text(needed).as_str());
            message.append(" weights and ");
            message.append(text::decimal_text(bias.len()).as_str());
            message.append(" biases, got ");
            message.append(text::decimal_text(weight.len()).as_str());
            message.append(" and ");
            message.append(text::decimal_text(bias.len()).as_str());
            return Err(Error::Engine(message));
        }
        Ok(Linear { weight, bias, inputs })
    }

    /// How many values come out.
    pub fn outputs(&self) -> (n: usize)
        ensures
            n == self@.bias.len(),
            self@.whole(),
    {
        proof {
            use_type_invariant(self);
        }
        self.bias.len()
    }

    /// How many values go in.
    pub fn inputs(&self) -> (n: usize)
        ensures
            n == self@.inputs,
            self@.whole(),
    {
        proof {
            use_type_invariant(self);
        }
        self.inputs
    }

    /// The weights of one output.
    pub fn row(&self, i: usize) -> (out: &[N])
        requires
            i < self@.bias.len(),
        ensures
            out@ == self@.row(i as int),
            out@.len() == self@.inputs,
    {
        proof {
            use_type_invariant(self);
            let n = self@.inputs as int;
            let rows = self@.bias.len() as int;
            assert(0 <= i * n && i * n + n == (i + 1) * n && (i + 1) * n <= rows * n)
                by (nonlinear_arith)
                requires
                    0 <= i < rows,
                    0 < n,
            ;
        }
        let total: usize = self.weight.len();
        let rows: usize = self.bias.len();
        assert((i + 1) * self.inputs <= total);
        assert(i + 1 <= rows);
        slice_subrange(self.weight.as_slice(), i * self.inputs, (i + 1) * self.inputs)
    }

    /// The layer applied to one vector: for every output, what `project` makes of
    /// its row of weights, its bias and the vector.
    pub fn apply<P: Fn(&[N], &N, &[N]) -> N>(&self, x: &[N], project: &P) -> (out: Vec<N>)
        requires
            forall|row: &[N], bias: &N| call_requires(*project, (row, bias, x)),
        ensures
            out@.len() == self@.bias.len(),
            forall|i: int|
                0 <= i < out@.len() ==> projected(*project, self@, i, x, #[trigger] out@[i]),
    {
        let mut out: Vec<N> = Vec::new();
        for i in 0..self.bias.len()
            invariant
                forall|row: &[N], bias: &N| call_requires(*project, (row, bias, x)),
                out@.len() == i,
                forall|j: int|
                    0 <= j < i ==> projected(*project, self@, j, x, #[trigger] out@[j]),
        {
            let row = self.row(i);
            let y = project(row, &self.bias[i], x);
            assert(projected(*project, self@, i as int, x, y)) by {
                assert(row@ == self@.row(i as int) && call_ensures(
                    *project,
                    (row, &self@.bias[i as int], x),
                    y,
                ));
            }
            out.push(y);
        }
        out
    }
}

/// `y` is what `project` makes of output `i` of a layer, given `x`.
pub open spec fn projected<N, P: Fn(&[N], &N, &[N]) -> N>(
    project: P,
    layer: LinearView<N>,
    i: int,
    x: &[N],
    y: N,
) -> bool {
    exists|row: &[N]|
        row@ == layer.row(i) && #[trigger] call_ensures(project, (row, &layer.bias[i], x), y)
}

/// The pointer head: the output layer of every checkpoint.
///
/// Two projections into a shared pointer space, and a score per option.
#[derive(Debug)]
pub struct PointerHead<N> {
    query: Linear<N>,
    key: Linear<N>,
    temperature: Single,
}

/// The pointer head, as sequences.
pub struct HeadView<N> {
    pub query: LinearView<N>,
    pub key: LinearView<N>,
    pub temperature: Single,
}

impl<N> View for PointerHead<N> {
    type V = HeadView<N>;

    closed spec fn view(&self) -> HeadView<N> {
        HeadView { query: self.query@, key: self.key@, temperature: self.temperature }
    }
}

/// The two projections lead from one space into one space.
pub open spec fn matched<N>(query: LinearView<N>, key: LinearView<N>) -> bool {
    query.bias.len() == key.bias.len() && query.inputs == key.inputs
}

/// The temperature that leaves scores as they are, one, by its bits.
pub const RAW: u32 = 0x3f80_0000;

/// What is said of projections that do not match.
pub open spec fn disagreement<N>(query: LinearView<N>, key: LinearView<N>) -> Seq<char> {
    "the pointer head's projections disagree: query is "@ + text::decimal(query.bias.len()) + "x"@
        + text::decimal(query.inputs) + ", key is "@ + text::decimal(key.bias.len()) + "x"@
        + text::decimal(key.inputs)
}

/// What is said of hidden states of another width than the head's.
pub open spec fn width_message(expected: nat) -> Seq<char> {
    "the pointer head takes "@ + text::decimal(expected)
        + "-dimensional hidden states, the backend returned other widths"@
}

/// Every hidden state is as wide as the head expects.
pub open spec fn fitting<N>(expected: nat, decide: Seq<N>, options: Seq<Vec<N>>) -> bool {
    decide.len() == expected && forall|i: int|
        0 <= i < options.len() ==> (#[trigger] options[i])@.len() == expected
}

/// `out` holds what `project` makes of every output of a layer, given `x`.
pub open spec fn applied<N, P: Fn(&[N], &N, &[N]) -> N>(
    project: P,
    layer: LinearView<N>,
    x: &[N],
    out: Seq<N>,
) -> bool {
    out.len() == layer.bias.len() && forall|i: int|
        0 <= i < out.len() ==> projected(project, layer, i, x, #[trigger] out[i])
}

/// `y` is a score of one option against `<decide>`: what `score` makes of the
/// projected option, the projected `<decide>` and the temperature.
pub open spec fn scored<
    N,
    P: Fn(&[N], &N, &[N]) -> N,
    S: Fn(&[N], &[N], Single) -> N,
>(project: P, score: S, head: HeadView<N>, query: &[N], option: Seq<N>, y: N) -> bool {
    exists|x: &[N], key: &[N]|
        x@ == option && #[trigger] applied(project, head.key, x, key@)
            && #[trigger] call_ensures(score, (key, query, head.temperature), y)
}

impl<N> PointerHead<N> {
    #[verifier::type_invariant]
    spec fn agreeing(self) -> bool {
        matched(self@.query, self@.key) && self@.temperature.positive()
    }

    /// The head from a checkpoint's two projections: `query` reads `<decide>`,
    /// `key` reads each `</opt>`.
    pub fn new(query: Linear<N>, key: Linear<N>) -> (out: Result<Self, Error>)
        ensures
            out is Ok <==> matched(query@, key@),
            out matches Ok(head) ==> head@ == (HeadView {
                query: query@,
                key: key@,
                temperature: Single { bits: RAW },
            }),
            out matches Ok(head) ==> head@.temperature.bits == 0x3f80_0000,
            out matches Err(e) ==> e.is_engine(disagreement(query@, key@)),
    {
        if query.outputs() != key.outputs() || query.inputs() != key.inputs() {
            let mut message = "the pointer head's projections disagree: query is ".to_owned();
            message.append(text::decimal_text(query.outputs()).as_str());
            message.append("x");
            message.append(text::decimal_text(query.inputs()).as_str());
            message.append(", key is ");
            message.append(text::decimal_text(key.outputs()).as_str());
            message.append("x");
            message.append(text::decimal_text(key.inputs()).as_str());
            return Err(Error::Engine(message));
        }
        Ok(PointerHead { query, key, temperature: Single { bits: RAW } })
    }

    /// Divide the scores by `temperature`, the calibration a checkpoint carries
    /// (about 2.1 to 2.4 for the released models; [`RAW`] is the raw head).
    /// `shown` is the temperature as it is written.
    ///
    /// It never changes which option wins, only how confident the distribution
    /// is.
    pub fn with_temperature(self, temperature: Single, shown: &str) -> (out: Result<Self, Error>)
        ensures
            out is Ok <==> temperature.positive(),
            out matches Ok(head) ==> head@ == (HeadView { temperature, ..self@ }),
            out matches Err(e) ==> e.is_engine(
                "the pointer head's temperature must be positive, got "@ + shown@,
            ),
    {
        proof {
            use_type_invariant(&self);
        }
        if !temperature.is_positive() {
            let message =
                "the pointer head's temperature must be positive, got ".to_owned().concat(shown);
            return Err(Error::Engine(message));
        }
        let PointerHead { query, key, temperature: _ } = self;
        Ok(PointerHead { query, key, temperature })
    }

    /// The same head with its two projections exchanged: deliberately the wrong
    /// way round.
    ///
    /// Which projection reads `<decide>` and which reads `</opt>` comes from the
    /// checkpoint's naming, and swapping them yields a different but perfectly
    /// plausible distribution: no shape check can tell the two apart. What *can*
    /// is a trained checkpoint, which only scores the right option highly in the
    /// orientation it was trained in.
    pub fn swapped(self) -> (out: Self)
        ensures
            out@ == self@.exchanged(),
    {
        proof {
            use_type_invariant(&self);
        }
        let PointerHead { query, key, temperature } = self;
        PointerHead { query: key, key: query, temperature }
    }

    /// The hidden size this head expects from the backbone.
    pub fn hidden_size(&self) -> (n: usize)
        ensures
            n == self@.query.inputs,
            n == self@.key.inputs,
    {
        proof {
            use_type_invariant(self);
        }
        self.query.inputs()
    }

    /// The size of the space both projections lead into.
    pub fn pointer_size(&self) -> (n: usize)
        ensures
            n == self@.query.bias.len(),
            n == self@.key.bias.len(),
    {
        proof {
            use_type_invariant(self);
        }
        self.query.outputs()
    }

    /// One logit per option, from the `<decide>` and `</opt>` hidden states: what
    /// `score` makes of the projected option, the projected `<decide>` and the
    /// temperature, where `project` is one output of a layer.
    pub fn logits<P: Fn(&[N], &N, &[N]) -> N, S: Fn(&[N], &[N], Single) -> N>(
        &self,
        decide: &[N],
        options: &[Vec<N>],
        project: &P,
        score: &S,
    ) -> (out: Result<Vec<N>, Error>)
        requires
            forall|row: &[N], bias: &N, x: &[N]| call_requires(*project, (row, bias, x)),
            forall|key: &[N], query: &[N], t: Single| call_requires(*score, (key, query, t)),
        ensures
            out is Ok <==> fitting(self@.query.inputs, decide@, options@),
            out matches Ok(logits) ==> logits@.len() == options@.len() && exists|query: &[N]|
                #[trigger] applied(*project, self@.query, decide, query@) && forall|i: int|
                    0 <= i < logits@.len() ==> scored(
                        *project,
                        *score,
                        self@,
                        query,
                        options@[i]@,
                        #[trigger] logits@[i],
                    ),
            out matches Err(e) ==> e.is_engine(width_message(self@.query.inputs)),
    {
        let expected: usize = self.hidden_size();
        let mut wrong = decide.len() != expected;
        for i in 0..options.len()
            invariant
                expected == self@.query.inputs,
                wrong == !fitting(expected as nat, decide@, options@.take(i as int)),
        {
            let narrow = options[i].len() != expected;
            proof {
                let before = options@.take(i as int);
                let after = options@.take(i + 1);
                assert(after[i as int] == options@[i as int]);
                assert(forall|j: int| 0 <= j < i ==> before[j] == after[j]);
                if fitting(expected as nat, decide@, after) {
                    assert forall|j: int| 0 <= j < i implies (#[trigger] before[j])@.len()
                        == expected by {
                        assert(after[j]@.len() == expected);
                    }
                }
            }
            wrong = wrong || narrow;
        }
        assert(options@.take(options@.len() as int) == options@);
        if wrong {
            let mut message = "the pointer head takes ".to_owned();
            message.append(text::decimal_text(expected).as_str());
            message.append("-dimensional hidden states, the backend returned other widths");
            return Err(Error::Engine(message));
        }
        let query_vec = self.query.apply(decide, project);
        let query: &[N] = query_vec.as_slice();
        assert(applied(*project, self@.query, decide, query@));
        let mut out: Vec<N> = Vec::new();
        for i in 0..options.len()
            invariant
                forall|row: &[N], bias: &N, x: &[N]| call_requires(*project, (row, bias, x)),
                forall|key: &[N], query: &[N], t: Single| call_requires(*score, (key, query, t)),
                out@.len() == i,
                forall|j: int|
                    0 <= j < i ==> scored(
                        *project,
                        *score,
                        self@,
                        query,
                        options@[j]@,
                        #[trigger] out@[j],
                    ),
        {
            let option: &[N] = options[i].as_slice();
            let key_vec = self.key.apply(option, project);
            let key: &[N] = key_vec.as_slice();
            let y = score(key, query, self.temperature);
            assert(applied(*project, self@.key, option, key@));
            assert(scored(*project, *score, self@, query, options@[i as int]@, y));
            out.push(y);
        }
        Ok(out)
    }
}

impl<N> HeadView<N> {
    /// The two projections in each other's place.
    pub open spec fn exchanged(self) -> HeadView<N> {
        HeadView { query: self.key, key: self.query, temperature: self.temperature }
    }
}

/// Swapping the projections twice gives the head itself.
pub proof fn law_swapping_twice_changes_nothing<N>(head: HeadView<N>)
    ensures
        head.exchanged().exchanged() == head,
{
}

/// Where every row of a layer stands: behind the rows before it, with none between.
pub proof fn law_rows_fill_the_weights<N>(layer: LinearView<N>, i: int, j: int)
    requires
        layer.whole(),
        0 <= i < layer.bias.len(),
        0 <= j < layer.inputs,
    ensures
        layer.row(i).len() == layer.inputs,
        0 <= i * layer.inputs + j < layer.weight.len(),
        layer.row(i)[j] == layer.weight[i * layer.inputs + j],
{
    let n = layer.inputs as int;
    let rows = layer.bias.len() as int;
    assert(0 <= i * n && i * n + n == (i + 1) * n && (i + 1) * n <= rows * n) by (nonlinear_arith)
        requires
            0 <= i < rows,
            0 < n,
    ;
}

/// Swapping exchanges the two projections and leaves the temperature alone.
pub proof fn law_swapping_exchanges_the_projections<N>(head: HeadView<N>)
    ensures
        head.exchanged().query == head.key,
        head.exchanged().key == head.query,
        head.exchanged().temperature == head.temperature,
{
}

/// Two projections match where they take states of one width and give vectors of one width.
pub proof fn law_projections_match_in_both_widths<N>(query: LinearView<N>, key: LinearView<N>)
    ensures
        matched(query, key) <==> query.inputs == key.inputs && query.bias.len() == key.bias.len(),
        matched(query, key) <==> matched(key, query),
{
}

/// A layer gives one number for each of its rows, and each comes of that row, that row's own bias
/// and what the layer is given.
pub proof fn law_a_layer_gives_a_number_for_every_row<N, P: Fn(&[N], &N, &[N]) -> N>(
    project: P,
    layer: LinearView<N>,
    x: &[N],
    out: Seq<N>,
    i: int,
)
    requires
        applied(project, layer, x, out),
        0 <= i < layer.bias.len(),
    ensures
        out.len() == layer.bias.len(),
        exists|row: &[N]|
            row@ == layer.weight.subrange(i * layer.inputs, (i + 1) * layer.inputs) && #[trigger]
                call_ensures(project, (row, &layer.bias[i], x), out[i]),
{
    assert(projected(project, layer, i, x, out[i]));
}

/// An option is scored by what the key projection makes of its state, against what the query
/// projection made of the decision, at the head's temperature.
pub proof fn law_an_option_is_scored_against_the_decision<
    N,
    P: Fn(&[N], &N, &[N]) -> N,
    S: Fn(&[N], &[N], Single) -> N,
>(project: P, score: S, head: HeadView<N>, query: &[N], option: Seq<N>, y: N)
    requires
        scored(project, score, head, query, option, y),
    ensures
        exists|x: &[N], key: &[N]|
            x@ == option && key@.len() == head.key.bias.len() && #[trigger] applied(
                project,
                head.key,
                x,
                key@,
            ) && #[trigger] call_ensures(score, (key, query, head.temperature), y),
{
}

/// States fit a head where the decision and every option have the width that it takes.
pub proof fn law_states_fit_by_their_width<N>(expected: nat, decide: Seq<N>, options: Seq<Vec<N>>, i: int)
    requires
        0 <= i < options.len(),
    ensures
        decide.len() != expected ==> !fitting(expected, decide, options),
        options[i]@.len() != expected ==> !fitting(expected, decide, options),
        decide.len() == expected && (forall|j: int|
            0 <= j < options.len() ==> (#[trigger] options[j])@.len() == expected) ==> fitting(
            expected,
            decide,
            options,
        ),
{
}

/// What is said of a head names the shapes that do not fit.
pub proof fn law_a_head_names_what_does_not_fit<N>(
    query: LinearView<N>,
    key: LinearView<N>,
    weights: nat,
    biases: nat,
    inputs: nat,
)
    ensures
        disagreement(query, key) == "the pointer head's projections disagree: query is "@
            + text::decimal(query.bias.len()) + "x"@ + text::decimal(query.inputs) + ", key is "@
            + text::decimal(key.bias.len()) + "x"@ + text::decimal(key.inputs),
        shape_message(weights, biases, inputs) == "a "@ + text::decimal(biases) + "x"@
            + text::decimal(inputs) + " linear needs "@ + text::decimal(biases * inputs)
            + " weights and "@ + text::decimal(biases) + " biases, got "@ + text::decimal(weights)
            + " and "@ + text::decimal(biases),
        width_message(inputs) == "the pointer head takes "@ + text::decimal(inputs)
            + "-dimensional hidden states, the backend returned other widths"@,
{
}

impl<N> Linear<N> {
    /// A layer is seen whole.
    proof fn law_a_layer_is_seen_whole(&self)
        ensures
            self@.weight == self.weight@,
            self@.bias == self.bias@,
            self@.inputs == self.inputs,
    {
    }
}

impl<N> PointerHead<N> {
    /// A head is seen whole.
    proof fn law_a_head_is_seen_whole(&self)
        ensures
            self@.query == self.query@,
            self@.key == self.key@,
            self@.temperature == self.temperature,
    {
    }
}

} // verus!
