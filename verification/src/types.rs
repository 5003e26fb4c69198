//! Requests and responses in the System One format.

use vstd::prelude::*;
use vstd::std_specs::convert::{FromSpec, FromSpecImpl, IntoSpec};

use crate::number::Real;
use crate::table;
use crate::table::Table;
use crate::value::Value;

verus! {

// ---------------------------------------------------------------------------
// Request
// ---------------------------------------------------------------------------

/// One System One call: a `state` to evaluate plus the questions to ask about
/// it. Questions share the state but cannot read each other.
#[derive(Debug)]
pub struct SystemOneRequest {
    /// The content to evaluate. A string, or any JSON object or array: objects
    /// and arrays are converted to labelled text.
    pub state: Value,
    /// Left empty here, the client or the engine fills in its own model.
    pub model: Option<String>,
    /// Question id to question. The id is yours; the model never sees it.
    pub questions: Table<Question>,
}

impl SystemOneRequest {
    /// Start a request for the given state.
    pub fn new(state: Value) -> (out: Self)
        ensures
            out.state == state,
            out.model is None,
            out.questions@ == Seq::<(Seq<char>, Question)>::empty(),
    {
        Self { state, model: None, questions: Table::new() }
    }

    /// Pin this request to a specific model, overriding the default.
    pub fn model(self, model: &str) -> (out: Self)
        ensures
            out.state == self.state,
            out.model matches Some(pinned) && pinned@ == model@,
            out.questions == self.questions,
    {
        Self { model: Some(model.to_owned()), ..self }
    }

    /// Add a question under the given id.
    pub fn ask<Q: Into<Question>>(self, id: &str, question: Q) -> (out: Self)
        ensures
            out.state == self.state,
            out.model == self.model,
            Q::obeys_into_spec() ==> out.questions@ == table::put(
                self.questions@,
                id@,
                question.into_spec(),
            ),
    {
        Self {
            state: self.state,
            model: self.model,
            questions: self.questions.insert(id, question.into()),
        }
    }
}

/// A single question. Build one with [`Noul`], [`Choice`] or [`Score`].
#[derive(Debug)]
pub enum Question {
    /// Yes/no. Answered with the probability of yes.
    Noul(Noul),
    /// Pick one of 1 to 255 named options.
    Choice(Choice),
    /// Rate on an ordered scale of 1 to 255 levels.
    Score(Score),
}

/// A yes/no question.
#[derive(Debug)]
pub struct Noul {
    pub instructions: Option<Value>,
    pub criteria: Option<NoulCriteria>,
}

/// Optional descriptions of what yes and no mean.
#[derive(Debug)]
pub struct NoulCriteria {
    pub yes: Option<String>,
    pub no: Option<String>,
}

impl Clone for NoulCriteria {
    fn clone(&self) -> (out: Self)
        ensures
            out == *self,
    {
        let yes = match &self.yes {
            Some(t) => Some(t.clone()),
            None => None,
        };
        let no = match &self.no {
            Some(t) => Some(t.clone()),
            None => None,
        };
        NoulCriteria { yes, no }
    }
}

impl Default for NoulCriteria {
    fn default() -> (out: Self)
        ensures
            out.yes is None,
            out.no is None,
    {
        NoulCriteria { yes: None, no: None }
    }
}

impl Default for Noul {
    fn default() -> (out: Self)
        ensures
            out.instructions is None,
            out.criteria is None,
    {
        Noul { instructions: None, criteria: None }
    }
}

impl Noul {
    /// What a yes is described as.
    pub open spec fn yes_text(self) -> Option<String> {
        match self.criteria {
            Some(criteria) => criteria.yes,
            None => None,
        }
    }

    /// What a no is described as.
    pub open spec fn no_text(self) -> Option<String> {
        match self.criteria {
            Some(criteria) => criteria.no,
            None => None,
        }
    }

    /// A yes/no question with the given instructions.
    pub fn new(instructions: Value) -> (out: Self)
        ensures
            out.instructions == Some(instructions),
            out.criteria is None,
    {
        Self { instructions: Some(instructions), criteria: None }
    }

    /// Describe what a yes means.
    pub fn yes(self, description: &str) -> (out: Self)
        ensures
            out.instructions == self.instructions,
            out.yes_text() matches Some(t) && t@ == description@,
            out.no_text() == self.no_text(),
    {
        let criteria = match self.criteria {
            Some(criteria) => criteria,
            None => NoulCriteria::default(),
        };
        Self {
            instructions: self.instructions,
            criteria: Some(NoulCriteria { yes: Some(description.to_owned()), no: criteria.no }),
        }
    }

    /// Describe what a no means.
    pub fn no(self, description: &str) -> (out: Self)
        ensures
            out.instructions == self.instructions,
            out.no_text() matches Some(t) && t@ == description@,
            out.yes_text() == self.yes_text(),
    {
        let criteria = match self.criteria {
            Some(criteria) => criteria,
            None => NoulCriteria::default(),
        };
        Self {
            instructions: self.instructions,
            criteria: Some(NoulCriteria { yes: criteria.yes, no: Some(description.to_owned()) }),
        }
    }
}

/// A multiple-choice question.
///
/// Option order is part of the request and can change the answer, so the
/// options keep the order you add them in.
#[derive(Debug)]
pub struct Choice {
    pub instructions: Option<Value>,
    /// Option name to a description of when it applies, if there is one.
    pub criteria: Table<Option<String>>,
}

/// The characters of a text that may be missing.
pub open spec fn chars(t: Option<String>) -> Option<Seq<char>> {
    match t {
        Some(t) => Some(t@),
        None => None,
    }
}

/// The options of a question: each name with its description.
pub open spec fn options_view(
    entries: Seq<(Seq<char>, Option<String>)>,
) -> Seq<(Seq<char>, Option<Seq<char>>)> {
    table::mapped(entries, |t: Option<String>| chars(t))
}

/// Several described options put in one after the other.
pub open spec fn put_described(
    entries: Seq<(Seq<char>, Option<Seq<char>>)>,
    options: Seq<(String, String)>,
) -> Seq<(Seq<char>, Option<Seq<char>>)>
    decreases options.len(),
{
    if options.len() == 0 {
        entries
    } else {
        table::put(
            put_described(entries, options.drop_last()),
            options.last().0@,
            Some(options.last().1@),
        )
    }
}

impl Default for Choice {
    fn default() -> (out: Self)
        ensures
            out.instructions is None,
            out.criteria@.len() == 0,
    {
        Choice { instructions: None, criteria: Table::new() }
    }
}

impl Choice {
    /// A multiple-choice question with the given instructions.
    pub fn new(instructions: Value) -> (out: Self)
        ensures
            out.instructions == Some(instructions),
            out.criteria@.len() == 0,
    {
        Self { instructions: Some(instructions), criteria: Table::new() }
    }

    /// Add an option together with a description of when it applies.
    pub fn option(self, name: &str, description: &str) -> (out: Self)
        ensures
            out.instructions == self.instructions,
            options_view(out.criteria@) == table::put(
                options_view(self.criteria@),
                name@,
                Some(description@),
            ),
    {
        let described = Some(description.to_owned());
        proof {
            table::lemma_put_mapped(self.criteria@, name@, described, |t: Option<String>| chars(t));
        }
        Self {
            instructions: self.instructions,
            criteria: self.criteria.insert(name, described),
        }
    }

    /// Add an option whose name has to speak for itself (serialised as `null`).
    pub fn option_bare(self, name: &str) -> (out: Self)
        ensures
            out.instructions == self.instructions,
            options_view(out.criteria@) == table::put(options_view(self.criteria@), name@, None),
    {
        proof {
            table::lemma_put_mapped(self.criteria@, name@, None, |t: Option<String>| chars(t));
        }
        Self { instructions: self.instructions, criteria: self.criteria.insert(name, None) }
    }

    /// Add several described options at once, keeping their order.
    pub fn options(self, options: Vec<(String, String)>) -> (out: Self)
        ensures
            out.instructions == self.instructions,
            options_view(out.criteria@) == put_described(options_view(self.criteria@), options@),
    {
        let ghost before = options_view(self.criteria@);
        let mut out = self;
        assert(options@.take(0) == Seq::<(String, String)>::empty());
        for i in 0..options.len()
            invariant
                out.instructions == self.instructions,
                options_view(out.criteria@) == put_described(before, options@.take(i as int)),
        {
            out = out.option(options[i].0.as_str(), options[i].1.as_str());
            assert(options@.take(i + 1).drop_last() == options@.take(i as int));
        }
        assert(options@.take(options@.len() as int) == options@);
        out
    }
}

/// A rating question over an ordered scale.
#[derive(Debug)]
pub struct Score {
    pub instructions: Option<Value>,
    /// The levels' descriptions, lowest first.
    pub criteria: Vec<String>,
}

impl Default for Score {
    fn default() -> (out: Self)
        ensures
            out.instructions is None,
            out.criteria@.len() == 0,
    {
        Score { instructions: None, criteria: Vec::new() }
    }
}

impl Score {
    /// A rating question with the given instructions.
    pub fn new(instructions: Value) -> (out: Self)
        ensures
            out.instructions == Some(instructions),
            out.criteria@.len() == 0,
    {
        Self { instructions: Some(instructions), criteria: Vec::new() }
    }

    /// Append the next level. Add them from lowest to highest.
    pub fn level(self, description: &str) -> (out: Self)
        ensures
            out.instructions == self.instructions,
            crate::text::views(out.criteria@) == crate::text::views(self.criteria@).push(
                description@,
            ),
    {
        let ghost before = self.criteria@;
        let mut criteria = self.criteria;
        criteria.push(description.to_owned());
        assert(crate::text::views(criteria@) == crate::text::views(before).push(description@));
        Self { instructions: self.instructions, criteria }
    }

    /// Append several levels, lowest first.
    pub fn levels(self, levels: Vec<String>) -> (out: Self)
        ensures
            out.instructions == self.instructions,
            out.criteria@ == self.criteria@ + levels@,
    {
        let mut criteria = self.criteria;
        let mut levels = levels;
        criteria.append(&mut levels);
        Self { instructions: self.instructions, criteria }
    }
}

impl From<Noul> for Question {
    fn from(q: Noul) -> (out: Self) {
        Question::Noul(q)
    }
}

impl FromSpecImpl<Noul> for Question {
    open spec fn obeys_from_spec() -> bool {
        true
    }

    open spec fn from_spec(q: Noul) -> Self {
        Question::Noul(q)
    }
}

impl From<Choice> for Question {
    fn from(q: Choice) -> (out: Self) {
        Question::Choice(q)
    }
}

impl FromSpecImpl<Choice> for Question {
    open spec fn obeys_from_spec() -> bool {
        true
    }

    open spec fn from_spec(q: Choice) -> Self {
        Question::Choice(q)
    }
}

impl From<Score> for Question {
    fn from(q: Score) -> (out: Self) {
        Question::Score(q)
    }
}

impl FromSpecImpl<Score> for Question {
    open spec fn obeys_from_spec() -> bool {
        true
    }

    open spec fn from_spec(q: Score) -> Self {
        Question::Score(q)
    }
}

// ---------------------------------------------------------------------------
// Response
// ---------------------------------------------------------------------------

/// The answer set for one System One call.
#[derive(Debug)]
pub struct SystemOneResponse {
    pub model: String,
    /// Same ids as the request, in the order of the answers.
    pub answers: Table<Answer>,
    pub usage: Usage,
    pub latency_ms: Option<Real>,
    /// Taken from the `x-typesafe-request-id` header, not the body.
    pub request_id: Option<String>,
}

impl SystemOneResponse {
    /// Look up one answer by the id you used in the request.
    pub fn answer(&self, id: &str) -> (out: Option<&Answer>)
        ensures
            out is Some <==> table::holds(self.answers@, id@),
            out matches Some(a) ==> self.answers@.contains((id@, *a)),
            table::distinct_keys(self.answers@),
    {
        self.answers.get(id)
    }
}

/// Token accounting. `output_tokens` counts the serialised answers, not
/// generated tokens: there are none.
#[derive(Debug, Clone, Copy)]
pub struct Usage {
    pub input_tokens: u64,
    pub output_tokens: u64,
}

impl Default for Usage {
    fn default() -> (out: Self)
        ensures
            out.input_tokens == 0,
            out.output_tokens == 0,
    {
        Usage { input_tokens: 0, output_tokens: 0 }
    }
}

/// One answer, shaped by the question type it belongs to.
#[derive(Debug)]
pub enum Answer {
    Noul {
        /// Probability of yes, 0.0 to 1.0.
        noul: Real,
    },
    Choice {
        /// The most likely option name.
        choice: String,
        confidence: Real,
        /// Option name to probability, in option order.
        probabilities: Table<Real>,
    },
    Score {
        /// Mean level index, starting at 0.
        score: Real,
        confidence: Real,
        /// Level index (as a string) to the description you sent.
        legend: Table<String>,
        /// Level index (as a string) to probability.
        probabilities: Table<Real>,
    },
}

/// `best` is the last of the entries that rank highest.
pub open spec fn last_highest(entries: Seq<(Seq<char>, Real)>, best: int) -> bool {
    &&& 0 <= best < entries.len()
    &&& forall|i: int|
        0 <= i < entries.len() ==> (#[trigger] entries[i]).1.rank() <= entries[best].1.rank() && (i
            > best ==> entries[i].1.rank() < entries[best].1.rank())
}

impl Answer {
    /// The distribution of this answer, where it has one.
    pub open spec fn distribution(self) -> Option<Table<Real>> {
        match self {
            Answer::Noul { .. } => None,
            Answer::Choice { probabilities, .. } => Some(probabilities),
            Answer::Score { probabilities, .. } => Some(probabilities),
        }
    }

    /// Probability of yes, for a `noul` answer.
    pub fn as_noul(&self) -> (out: Option<Real>)
        ensures
            out == match *self {
                Answer::Noul { noul } => Some(noul),
                _ => None,
            },
    {
        match self {
            Answer::Noul { noul } => Some(*noul),
            _ => None,
        }
    }

    /// The chosen option, for a `choice` answer.
    pub fn as_choice(&self) -> (out: Option<&str>)
        ensures
            out is Some <==> *self is Choice,
            *self matches Answer::Choice { choice, .. } ==> out matches Some(t) && t@ == choice@,
    {
        match self {
            Answer::Choice { choice, .. } => Some(choice.as_str()),
            _ => None,
        }
    }

    /// The mean level index, for a `score` answer.
    pub fn as_score(&self) -> (out: Option<Real>)
        ensures
            out == match *self {
                Answer::Score { score, .. } => Some(score),
                _ => None,
            },
    {
        match self {
            Answer::Score { score, .. } => Some(*score),
            _ => None,
        }
    }

    /// Confidence, where the answer reports one. `noul` answers have none: the
    /// probability itself is the confidence there.
    ///
    /// Confidence is a shape measure of the distribution, not a measured
    /// accuracy rate.
    pub fn confidence(&self) -> (out: Option<Real>)
        ensures
            out == match *self {
                Answer::Noul { .. } => None,
                Answer::Choice { confidence, .. } => Some(confidence),
                Answer::Score { confidence, .. } => Some(confidence),
            },
    {
        match self {
            Answer::Noul { .. } => None,
            Answer::Choice { confidence, .. } => Some(*confidence),
            Answer::Score { confidence, .. } => Some(*confidence),
        }
    }

    /// The full distribution, where the answer reports one.
    pub fn probabilities(&self) -> (out: Option<&Table<Real>>)
        ensures
            out is Some <==> self.distribution() is Some,
            out matches Some(p) ==> self.distribution() == Some(*p),
    {
        match self {
            Answer::Noul { .. } => None,
            Answer::Choice { probabilities, .. } => Some(probabilities),
            Answer::Score { probabilities, .. } => Some(probabilities),
        }
    }

    /// The highest-probability label and its probability.
    ///
    /// For `score` the label is the level index as a string; pair it with
    /// [`Answer::legend`] for the description.
    pub fn top(&self) -> (out: Option<(&str, Real)>)
        ensures
            out is Some <==> (self.distribution() matches Some(p) && p@.len() > 0),
            out matches Some(best) ==> exists|i: int|
                #[trigger] last_highest(self.distribution()->0@, i) && best.0@
                    == self.distribution()->0@[i].0 && best.1 == self.distribution()->0@[i].1,
    {
        let probabilities = match self.probabilities() {
            Some(probabilities) => probabilities,
            None => {
                return None;
            },
        };
        if probabilities.is_empty() {
            return None;
        }
        let ghost entries = probabilities@;
        let mut best: usize = 0;
        let n: usize = probabilities.len();
        for i in 1..n
            invariant
                n == entries.len(),
                entries == probabilities@,
                best < i,
                last_highest(entries.take(i as int), best as int),
        {
            let ghost was = best;
            if probabilities.value_at(i).ranks_from(probabilities.value_at(best)) {
                best = i;
            }
            proof {
                let before = entries.take(i as int);
                let after = entries.take(i + 1);
                assert(before[was as int] == entries[was as int]);
                assert forall|j: int| 0 <= j < after.len() implies (#[trigger] after[j]).1.rank()
                    <= after[best as int].1.rank() && (j > best ==> after[j].1.rank()
                    < after[best as int].1.rank()) by {
                    if j < i {
                        assert(before[j] == after[j]);
                    }
                }
            }
        }
        assert(entries.take(entries.len() as int) == entries);
        assert(last_highest(self.distribution()->0@, best as int));
        Some((probabilities.key_at(best), *probabilities.value_at(best)))
    }

    /// The level descriptions, for a `score` answer.
    pub fn legend(&self) -> (out: Option<&Table<String>>)
        ensures
            out is Some <==> *self is Score,
            *self matches Answer::Score { legend, .. } ==> out == Some(&legend),
    {
        match self {
            Answer::Score { legend, .. } => Some(legend),
            _ => None,
        }
    }
}

/// The top of a distribution is its greatest in the total order, and the last of them where there
/// are several: nothing is greater, and whatever comes behind it is smaller. There is no other.
pub proof fn law_the_top_is_the_last_of_the_greatest(
    entries: Seq<(Seq<char>, Real)>,
    best: int,
    other: int,
)
    requires
        last_highest(entries, best),
    ensures
        0 <= best < entries.len(),
        0 <= other < entries.len() ==> entries[other].1.rank() <= entries[best].1.rank(),
        best < other < entries.len() ==> entries[other].1.rank() < entries[best].1.rank(),
        last_highest(entries, other) ==> other == best,
{
    if last_highest(entries, other) {
        assert(entries[other].1.rank() <= entries[best].1.rank());
        assert(entries[best].1.rank() <= entries[other].1.rank());
    }
}

/// A choice and a score have a distribution, their own; a yes/no answer has none.
pub proof fn law_an_answer_has_its_own_distribution(a: Answer)
    ensures
        a is Noul <==> a.distribution() is None,
        a matches Answer::Choice { probabilities, .. } ==> a.distribution() == Some(probabilities),
        a matches Answer::Score { probabilities, .. } ==> a.distribution() == Some(probabilities),
{
}

/// Options that are added together are added one after the other, each with its description.
pub proof fn law_options_are_added_one_after_the_other(
    entries: Seq<(Seq<char>, Option<Seq<char>>)>,
    options: Seq<(String, String)>,
    name: String,
    description: String,
)
    ensures
        put_described(entries, Seq::empty()) == entries,
        put_described(entries, options.push((name, description))) == table::put(
            put_described(entries, options),
            name@,
            Some(description@),
        ),
{
    assert(options.push((name, description)).drop_last() =~= options);
}

/// Options are seen by their names and the characters of their descriptions, one for each.
pub proof fn law_options_are_seen_by_name_and_description(
    entries: Seq<(Seq<char>, Option<String>)>,
    i: int,
)
    requires
        0 <= i < entries.len(),
    ensures
        options_view(entries).len() == entries.len(),
        options_view(entries)[i].0 == entries[i].0,
        entries[i].1 is None <==> options_view(entries)[i].1 is None,
        entries[i].1 matches Some(t) ==> options_view(entries)[i].1 == Some(t@),
{
}

/// Each side of a yes/no question has the description that was given for it.
pub proof fn law_each_side_has_its_own_description(q: Noul)
    ensures
        q.criteria is None ==> q.yes_text() is None && q.no_text() is None,
        q.criteria matches Some(c) ==> q.yes_text() == c.yes && q.no_text() == c.no,
{
}

/// A question of each kind is asked as that kind, as it is.
pub proof fn law_a_question_is_asked_as_its_kind(n: Noul, c: Choice, s: Score)
    ensures
        <Question as FromSpec<Noul>>::obeys_from_spec(),
        <Question as FromSpec<Choice>>::obeys_from_spec(),
        <Question as FromSpec<Score>>::obeys_from_spec(),
        <Question as FromSpec<Noul>>::from_spec(n) == Question::Noul(n),
        <Question as FromSpec<Choice>>::from_spec(c) == Question::Choice(c),
        <Question as FromSpec<Score>>::from_spec(s) == Question::Score(s),
{
}

} // verus!
