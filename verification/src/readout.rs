//! The readout: a distribution per question in, answers out.
//!
//! Nothing is generated. A checkpoint is an adapter plus a small pointer head,
//! and the head is the whole output layer: it scores each option's `</opt>` hidden
//! state against its question's `<decide>` hidden state, and a softmax over those
//! scores is the answer.

use vstd::prelude::*;

use crate::error;
use crate::error::Error;
use crate::number;
use crate::number::Real;
use crate::prompt;
use crate::prompt::{Kind, Plan, PlanView};
use crate::table;
use crate::table::Table;
use crate::text;
use crate::types::Answer;

verus! {

/// One option's probability: as it was computed, and as it is reported.
#[derive(Debug, Clone, Copy)]
pub struct Probability {
    pub exact: Real,
    pub reported: Real,
}

/// What the pointer head makes of one question.
#[derive(Debug)]
pub struct Distribution {
    /// One probability per option, in option order.
    pub options: Vec<Probability>,
    /// How far the distribution stands out, by the measure of the question's kind.
    pub confidence: Real,
    /// The mean option index.
    pub mean: Real,
}

/// The probabilities as they were computed.
pub open spec fn exact(options: Seq<Probability>) -> Seq<Real> {
    Seq::new(options.len(), |i: int| options[i].exact)
}

/// An answer, by its characters.
pub enum AnswerView {
    Noul { noul: Real },
    Choice { choice: Seq<char>, confidence: Real, probabilities: Seq<(Seq<char>, Real)> },
    Score {
        score: Real,
        confidence: Real,
        legend: Seq<(Seq<char>, Seq<char>)>,
        probabilities: Seq<(Seq<char>, Real)>,
    },
}

impl View for Answer {
    type V = AnswerView;

    open spec fn view(&self) -> AnswerView {
        match *self {
            Answer::Noul { noul } => AnswerView::Noul { noul },
            Answer::Choice { choice, confidence, probabilities } => AnswerView::Choice {
                choice: choice@,
                confidence,
                probabilities: probabilities@,
            },
            Answer::Score { score, confidence, legend, probabilities } => AnswerView::Score {
                score,
                confidence,
                legend: prompt::legend_view(legend@),
                probabilities: probabilities@,
            },
        }
    }
}

/// The answers of a table.
pub open spec fn answer_views(answers: Seq<(Seq<char>, Answer)>) -> Seq<(Seq<char>, AnswerView)> {
    table::mapped(answers, |a: Answer| a@)
}

/// The reported probabilities under their keys, put in one after the other.
pub open spec fn keyed(keys: Seq<Seq<char>>, options: Seq<Probability>) -> Seq<(Seq<char>, Real)>
    decreases keys.len(),
{
    if keys.len() == 0 {
        Seq::empty()
    } else {
        table::put(
            keyed(keys.drop_last(), options),
            keys.last(),
            options[keys.len() - 1].reported,
        )
    }
}

/// Which option is answered: the first of the most likely.
pub open spec fn winner(p: Seq<Real>) -> int {
    choose|best: int| number::first_greatest(p, best)
}

/// There is one first of the most likely.
pub proof fn lemma_winner(p: Seq<Real>, best: int)
    requires
        number::first_greatest(p, best),
    ensures
        winner(p) == best,
{
    let other = winner(p);
    assert(number::first_greatest(p, other));
    if !p[0].nan() {
        assert(p[best].place() <= p[other].place());
        assert(p[other].place() <= p[best].place());
    }
}

/// The answer that a question's kind makes of its distribution.
pub open spec fn answer_of(plan: PlanView, d: Distribution) -> AnswerView {
    match plan.kind {
        Kind::Noul => AnswerView::Noul { noul: d.options@[1].reported },
        Kind::Choice => AnswerView::Choice {
            choice: plan.keys[winner(exact(d.options@))],
            confidence: d.confidence,
            probabilities: keyed(plan.keys, d.options@),
        },
        Kind::Score => AnswerView::Score {
            score: d.mean,
            confidence: d.confidence,
            legend: match plan.legend {
                Some(legend) => legend,
                None => Seq::empty(),
            },
            probabilities: keyed(plan.keys, d.options@),
        },
    }
}

/// What is said where a distribution does not fit its question.
pub open spec fn misfit_message(plan: PlanView, got: nat) -> Seq<char> {
    "question "@ + error::debug_chars(plan.id) + " has "@ + text::decimal(plan.keys.len())
        + " options but the readout produced "@ + text::decimal(got) + " probabilities"@
}

/// A question's kind has the options it is answered from: two for a yes/no
/// question, one at least for a choice.
pub open spec fn answerable(kind: Kind, options: nat) -> bool {
    match kind {
        Kind::Noul => options >= 2,
        Kind::Choice => options >= 1,
        Kind::Score => true,
    }
}

fn copy_legend(legend: &Table<String>) -> (out: Table<String>)
    ensures
        out@ == legend@,
{
    let mut out: Table<String> = Table::new();
    let n: usize = legend.len();
    let ghost whole = legend@;
    for i in 0..n
        invariant
            n == whole.len(),
            whole == legend@,
            table::distinct_keys(whole),
            out@ == whole.take(i as int),
    {
        proof {
            // No key occurs twice, so each goes behind the others.
            assert forall|j: int| 0 <= j < i implies (#[trigger] out@[j]).0 != whole[i as int].0 by {
                assert(out@[j] == whole[j]);
            }
            assert(!table::holds(out@, whole[i as int].0));
        }
        out = out.insert(legend.key_at(i), legend.value_at(i).clone());
        assert(out@ == whole.take(i + 1));
    }
    assert(whole.take(whole.len() as int) == whole);
    out
}

fn distribution_of(keys: &[String], options: &[Probability]) -> (out: Table<Real>)
    requires
        options@.len() == keys@.len(),
    ensures
        out@ == keyed(text::views(keys@), options@),
{
    let mut out: Table<Real> = Table::new();
    let ghost names = text::views(keys@);
    assert(names.take(0) == Seq::<Seq<char>>::empty());
    for i in 0..keys.len()
        invariant
            options@.len() == keys@.len(),
            names == text::views(keys@),
            out@ == keyed(names.take(i as int), options@),
    {
        out = out.insert(keys[i].as_str(), options[i].reported);
        proof {
            assert(names.take(i + 1).drop_last() == names.take(i as int));
            assert(names.take(i + 1).last() == names[i as int]);
        }
    }
    assert(names.take(names.len() as int) == names);
    out
}

/// Read one question's distribution back as the answer its type calls for.
pub fn answer(distribution: &Distribution, plan: &Plan) -> (out: Result<Answer, Error>)
    requires
        distribution.options@.len() == plan.keys@.len() ==> answerable(
            plan.kind,
            plan.keys@.len(),
        ),
    ensures
        out is Ok <==> distribution.options@.len() == plan.keys@.len(),
        out matches Ok(a) ==> a@ == answer_of(plan@, *distribution),
        out matches Err(e) ==> e.is_engine(misfit_message(plan@, distribution.options@.len())),
        out matches Ok(Answer::Choice { choice, .. }) ==> (forall|i: int|
            0 <= i < distribution.options@.len() ==> !(
            #[trigger] distribution.options@[i]).exact.nan()) ==> exists|best: int|
            #![trigger plan.keys@[best]]
            {
                &&& 0 <= best < distribution.options@.len()
                &&& choice@ == plan.keys@[best]@
                &&& forall|i: int|
                    #![trigger distribution.options@[i]]
                    0 <= i < distribution.options@.len() ==> distribution.options@[i].exact.place()
                        <= distribution.options@[best].exact.place() && (i < best
                        ==> distribution.options@[i].exact.place()
                        < distribution.options@[best].exact.place())
            },
{
    let options = &distribution.options;
    if options.len() != plan.keys.len() {
        let mut message = "question ".to_owned();
        message.append(error::debug_text(plan.id.as_str()).as_str());
        message.append(" has ");
        message.append(text::decimal_text(plan.keys.len()).as_str());
        message.append(" options but the readout produced ");
        message.append(text::decimal_text(options.len()).as_str());
        message.append(" probabilities");
        return Err(Error::Engine(message));
    }
    Ok(
        match plan.kind {
            // Two options, [no, yes]; the probability of yes is the answer, and
            // there is no confidence to report because the probability is one.
            Kind::Noul => Answer::Noul { noul: options[1].reported },
            Kind::Choice => {
                let mut p: Vec<Real> = Vec::new();
                for i in 0..options.len()
                    invariant
                        p@ == exact(options@.take(i as int)),
                {
                    p.push(options[i].exact);
                    assert(p@ == exact(options@.take(i + 1)));
                }
                assert(options@.take(options@.len() as int) == options@);
                let best: usize = number::argmax(&p);
                proof {
                    lemma_winner(p@, best as int);
                    assert(plan@.keys[best as int] == plan.keys@[best as int]@);
                    assert forall|i: int| 0 <= i < options@.len() implies p@[i] == (
                    #[trigger] options@[i]).exact by {}
                }
                Answer::Choice {
                    choice: plan.keys[best].clone(),
                    confidence: distribution.confidence,
                    probabilities: distribution_of(&plan.keys, options),
                }
            },
            // The score is the distribution's mean level index, so a bimodal
            // answer lands between its two levels: read it with the
            // probabilities, not on its own.
            Kind::Score => {
                let legend = match &plan.legend {
                    Some(legend) => copy_legend(legend),
                    None => Table::new(),
                };
                assert(plan.legend is None ==> prompt::legend_view(legend@) == Seq::<
                    (Seq<char>, Seq<char>),
                >::empty());
                Answer::Score {
                    score: distribution.mean,
                    confidence: distribution.confidence,
                    legend,
                    probabilities: distribution_of(&plan.keys, options),
                }
            },
        },
    )
}

/// A choice is answered with the key of one of the most likely options, the first of them: no
/// option of the distribution is more likely, and every one before it is less likely.
pub proof fn law_a_choice_is_the_first_of_the_most_likely(plan: PlanView, d: Distribution)
    requires
        plan.kind is Choice,
        plan.keys.len() == d.options@.len(),
        plan.keys.len() > 0,
        forall|i: int| 0 <= i < d.options@.len() ==> !(#[trigger] d.options@[i]).exact.nan(),
    ensures
        exists|best: int|
            #![trigger plan.keys[best]]
            {
                &&& 0 <= best < d.options@.len()
                &&& answer_of(plan, d) matches AnswerView::Choice { choice, .. } && choice
                    == plan.keys[best]
                &&& forall|i: int|
                    #![trigger d.options@[i]]
                    0 <= i < d.options@.len() ==> d.options@[i].exact.place()
                        <= d.options@[best].exact.place() && (i < best
                        ==> d.options@[i].exact.place() < d.options@[best].exact.place())
            },
{
    let p = exact(d.options@);
    assert forall|i: int| 0 <= i < p.len() implies !(#[trigger] p[i]).nan() by {
        assert(p[i] == d.options@[i].exact);
    }
    let best = lemma_a_first_greatest(p);
    lemma_winner(p, best);
    assert forall|i: int| #![trigger d.options@[i]] 0 <= i < d.options@.len() implies d.options@[i].exact.place()
        <= d.options@[best].exact.place() && (i < best ==> d.options@[i].exact.place()
        < d.options@[best].exact.place()) by {
        assert(p[i] == d.options@[i].exact);
        assert(p[best] == d.options@[best].exact);
    }
    assert(answer_of(plan, d)->choice == plan.keys[best]);
}

/// Probabilities are compared by their patterns: whatever option has the largest pattern of all,
/// alone, is the one that a choice answers.
pub proof fn law_the_likeliest_option_is_chosen(plan: PlanView, d: Distribution, likeliest: int)
    requires
        plan.kind is Choice,
        plan.keys.len() == d.options@.len(),
        0 <= likeliest < plan.keys.len(),
        forall|i: int|
            0 <= i < d.options@.len() ==> (#[trigger] d.options@[i]).exact.bits
                <= 0x7ff0_0000_0000_0000,
        forall|i: int|
            0 <= i < d.options@.len() && i != likeliest ==> (#[trigger] d.options@[i]).exact.bits
                < d.options@[likeliest].exact.bits,
    ensures
        answer_of(plan, d) matches AnswerView::Choice { choice, .. } && choice
            == plan.keys[likeliest],
{
    let p = exact(d.options@);
    assert(number::first_greatest(p, likeliest)) by {
        assert(p[0] == d.options@[0].exact);
        assert forall|i: int| 0 <= i < p.len() implies p[i] == (#[trigger] d.options@[i]).exact by {
        }
        assert forall|i: int| 0 <= i < p.len() && !(#[trigger] p[i]).nan() implies p[i].place()
            <= p[likeliest].place() && (i < likeliest ==> p[i].place() < p[likeliest].place()) by {
            assert(p[i] == d.options@[i].exact);
        }
    }
    lemma_winner(p, likeliest);
}

proof fn lemma_a_first_greatest(p: Seq<Real>) -> (best: int)
    requires
        p.len() > 0,
        forall|i: int| 0 <= i < p.len() ==> !(#[trigger] p[i]).nan(),
    ensures
        number::first_greatest(p, best),
    decreases p.len(),
{
    if p.len() == 1 {
        0
    } else {
        let fewer = p.drop_last();
        assert forall|i: int| 0 <= i < fewer.len() implies !(#[trigger] fewer[i]).nan() by {
            assert(fewer[i] == p[i]);
        }
        let before = lemma_a_first_greatest(fewer);
        let last = p.len() - 1;
        let best = if p[last].place() > p[before].place() {
            last
        } else {
            before
        };
        assert forall|i: int| 0 <= i < p.len() && !(#[trigger] p[i]).nan() implies p[i].place()
            <= p[best].place() && (i < best ==> p[i].place() < p[best].place()) by {
            if i < last {
                assert(fewer[i] == p[i]);
            }
            assert(fewer[before] == p[before]);
        }
        best
    }
}

/// A yes/no question is answered with the reported probability of its second option, yes, and
/// nothing else.
pub proof fn law_a_yes_no_answer_is_the_probability_of_yes(plan: PlanView, d: Distribution)
    requires
        plan.kind is Noul,
        d.options@.len() >= 2,
    ensures
        answer_of(plan, d) == (AnswerView::Noul { noul: d.options@[1].reported }),
{
}

/// A score is answered with the distribution's mean and confidence, and with the plan's legend.
pub proof fn law_a_score_answer_is_the_mean(plan: PlanView, d: Distribution)
    requires
        plan.kind is Score,
    ensures
        answer_of(plan, d) matches AnswerView::Score { score, confidence, legend, .. } && score
            == d.mean && confidence == d.confidence && (plan.legend matches Some(given)
            ==> legend == given) && (plan.legend is None ==> legend.len() == 0),
{
}

/// A choice and a score report how sure they are as the distribution says, and every option's
/// reported probability, one entry for each key, in option order.
pub proof fn law_an_answer_reports_the_whole_distribution(plan: PlanView, d: Distribution)
    requires
        plan.keys.no_duplicates(),
        plan.keys.len() == d.options@.len(),
        !(plan.kind is Noul),
    ensures
        answer_of(plan, d) matches AnswerView::Choice { confidence, probabilities, .. }
            ==> confidence == d.confidence && probabilities.len() == d.options@.len() && forall|i: int|
            0 <= i < probabilities.len() ==> #[trigger] probabilities[i] == (
                plan.keys[i],
                d.options@[i].reported,
            ),
        answer_of(plan, d) matches AnswerView::Score { probabilities, .. } ==> probabilities.len()
            == d.options@.len() && forall|i: int|
            0 <= i < probabilities.len() ==> #[trigger] probabilities[i] == (
                plan.keys[i],
                d.options@[i].reported,
            ),
        plan.kind is Choice <==> answer_of(plan, d) is Choice,
        plan.kind is Score <==> answer_of(plan, d) is Score,
{
    law_every_option_is_reported_under_its_key(plan.keys, d.options@);
}

/// A distribution that does not fit is named by its question's id and by both counts.
pub proof fn law_a_misfit_names_the_question_and_both_counts(plan: PlanView, got: nat)
    ensures
        misfit_message(plan, got) == "question "@ + error::debug_chars(plan.id) + " has "@
            + text::decimal(plan.keys.len()) + " options but the readout produced "@
            + text::decimal(got) + " probabilities"@,
{
}

/// Where no key occurs twice, every option's probability is reported under its
/// own key, in option order.
pub proof fn law_every_option_is_reported_under_its_key(
    keys: Seq<Seq<char>>,
    options: Seq<Probability>,
)
    requires
        keys.no_duplicates(),
    ensures
        keyed(keys, options) == Seq::new(keys.len(), |i: int| (keys[i], options[i].reported)),
    decreases keys.len(),
{
    if keys.len() > 0 {
        let rest = keys.drop_last();
        law_every_option_is_reported_under_its_key(rest, options);
        let before = keyed(rest, options);
        assert forall|i: int| 0 <= i < before.len() implies (#[trigger] before[i]).0
            != keys.last() by {
            assert(before[i].0 == keys[i]);
        }
        assert(!table::holds(before, keys.last()));
    }
    assert(keyed(keys, options) =~= Seq::new(
        keys.len(),
        |i: int| (keys[i], options[i].reported),
    ));
}

/// Every option is reported.
pub proof fn lemma_every_key_is_reported(
    keys: Seq<Seq<char>>,
    options: Seq<Probability>,
    i: int,
)
    requires
        0 <= i < keys.len(),
    ensures
        table::holds(keyed(keys, options), keys[i]),
    decreases keys.len(),
{
    let rest = keys.drop_last();
    let before = keyed(rest, options);
    let after = keyed(keys, options);
    if i < rest.len() {
        lemma_every_key_is_reported(rest, options, i);
        let j = choose|j: int| 0 <= j < before.len() && (#[trigger] before[j]).0 == keys[i];
        table::law_keys_keep_their_places(
            before,
            keys.last(),
            options[keys.len() - 1].reported,
            j,
        );
        assert(after[j].0 == keys[i]);
    } else {
        table::law_what_is_put_in_is_there(
            before,
            keys.last(),
            options[keys.len() - 1].reported,
            keys.last(),
            options[keys.len() - 1].reported,
        );
        let j = choose|j: int|
            0 <= j < after.len() && after[j] == (keys.last(), options[keys.len() - 1].reported);
        assert(after[j].0 == keys[i]);
    }
}

// ---------------------------------------------------------------------------
// Serialised answers
// ---------------------------------------------------------------------------

/// A character inside a JSON string as `json.dumps` writes it: quotes, backslashes
/// and control characters escaped, everything outside printable ASCII as UTF-16 code
/// units.
pub open spec fn json_char(c: char) -> Seq<char> {
    let n = c as u32 as int;
    if c == '"' {
        "\\\""@
    } else if c == '\\' {
        "\\\\"@
    } else if c == '\n' {
        "\\n"@
    } else if c == '\r' {
        "\\r"@
    } else if c == '\t' {
        "\\t"@
    } else if n == 0x08 {
        "\\b"@
    } else if n == 0x0c {
        "\\f"@
    } else if n < 0x20 {
        unit_chars(n)
    } else if n < 0x7f {
        seq![c]
    } else if n < 0x10000 {
        unit_chars(n)
    } else {
        unit_chars(0xd800 + (n - 0x10000) / 0x400) + unit_chars(0xdc00 + (n - 0x10000) % 0x400)
    }
}

/// A UTF-16 code unit as JSON escapes it.
pub open spec fn unit_chars(unit: int) -> Seq<char> {
    "\\u"@ + text::hex4(unit as nat)
}

/// The characters inside a JSON string.
pub open spec fn json_chars(s: Seq<char>) -> Seq<char>
    decreases s.len(),
{
    if s.len() == 0 {
        Seq::empty()
    } else {
        json_chars(s.drop_last()) + json_char(s.last())
    }
}

/// A text as a JSON string.
pub open spec fn quoted(s: Seq<char>) -> Seq<char> {
    seq!['"'] + json_chars(s) + seq!['"']
}

/// A number's text, never without a fractional part.
pub open spec fn float_chars(shown: Seq<char>) -> Seq<char> {
    if shown.contains('.') || shown.contains('e') {
        shown
    } else {
        shown + ".0"@
    }
}

/// Entries as a JSON object: each key with its value's text.
pub open spec fn object_chars(entries: Seq<(Seq<char>, Seq<char>)>) -> Seq<char> {
    seq!['{'] + text::joined(
        Seq::new(entries.len(), |i: int| quoted(entries[i].0) + ": "@ + entries[i].1),
        ", "@,
    ) + seq!['}']
}

/// How numbers are written.
pub type Texts = spec_fn(Real) -> Seq<char>;

/// A distribution as a JSON object.
pub open spec fn distribution_chars(entries: Seq<(Seq<char>, Real)>, texts: Texts) -> Seq<char> {
    object_chars(
        Seq::new(entries.len(), |i: int| (entries[i].0, float_chars(texts(entries[i].1)))),
    )
}

/// A legend as a JSON object.
pub open spec fn legend_chars(entries: Seq<(Seq<char>, Seq<char>)>) -> Seq<char> {
    object_chars(Seq::new(entries.len(), |i: int| (entries[i].0, quoted(entries[i].1))))
}

/// One answer as a JSON object.
pub open spec fn answer_chars(a: AnswerView, texts: Texts) -> Seq<char> {
    match a {
        AnswerView::Noul { noul } => "{\"type\": \"noul\", \"noul\": "@ + float_chars(texts(noul))
            + seq!['}'],
        AnswerView::Choice { choice, confidence, probabilities } =>
        "{\"type\": \"choice\", \"choice\": "@ + quoted(choice) + ", \"confidence\": "@
            + float_chars(texts(confidence)) + ", \"probabilities\": "@ + distribution_chars(
            probabilities,
            texts,
        ) + seq!['}'],
        AnswerView::Score { score, confidence, legend, probabilities } =>
        "{\"type\": \"score\", \"score\": "@ + float_chars(texts(score)) + ", \"legend\": "@
            + legend_chars(legend) + ", \"probabilities\": "@ + distribution_chars(
            probabilities,
            texts,
        ) + ", \"confidence\": "@ + float_chars(texts(confidence)) + seq!['}'],
    }
}

/// The answers as a JSON object, in their order.
pub open spec fn answers_chars(answers: Seq<(Seq<char>, AnswerView)>, texts: Texts) -> Seq<char> {
    object_chars(
        Seq::new(answers.len(), |i: int| (answers[i].0, answer_chars(answers[i].1, texts))),
    )
}

/// `write` writes numbers as `texts` says.
pub open spec fn writes<W: Fn(Real) -> String>(write: W, texts: Texts) -> bool {
    forall|r: Real, s: String| call_ensures(write, (r,), s) ==> s@ == texts(r)
}

fn push_unit(out: &mut String, unit: u32)
    requires
        unit < 0x10000,
    ensures
        final(out)@ == old(out)@ + unit_chars(unit as int),
{
    out.append("\\u");
    text::push_hex4(out, unit);
    assert(out@ == old(out)@ + unit_chars(unit as int));
}

fn push_char(out: &mut String, c: char)
    ensures
        final(out)@ == old(out)@ + json_char(c),
{
    let n: u32 = c as u32;
    if c == '"' {
        out.append("\\\"");
    } else if c == '\\' {
        out.append("\\\\");
    } else if c == '\n' {
        out.append("\\n");
    } else if c == '\r' {
        out.append("\\r");
    } else if c == '\t' {
        out.append("\\t");
    } else if n == 0x08 {
        out.append("\\b");
    } else if n == 0x0c {
        out.append("\\f");
    } else if n < 0x20 {
        push_unit(out, n);
    } else if n < 0x7f {
        out.push(c);
        assert(out@ == old(out)@ + seq![c]);
    } else if n < 0x10000 {
        push_unit(out, n);
    } else {
        push_unit(out, 0xd800 + (n - 0x10000) / 0x400);
        push_unit(out, 0xdc00 + (n - 0x10000) % 0x400);
        assert(out@ == old(out)@ + json_char(c));
    }
}

/// A string the way `json.dumps` writes it, non-ASCII characters included.
pub fn push_string(out: &mut String, value: &str)
    ensures
        final(out)@ == old(out)@ + quoted(value@),
{
    let ghost before = out@ + seq!['"'];
    out.push('"');
    assert(out@ == before);
    let chars = text::chars_of(value);
    assert(chars@.take(0) == Seq::<char>::empty());
    assert(before + json_chars(chars@.take(0)) == before);
    for i in 0..chars.len()
        invariant
            out@ == before + json_chars(chars@.take(i as int)),
    {
        let c: char = chars[i];
        push_char(out, c);
        proof {
            assert(chars@.take(i + 1).drop_last() == chars@.take(i as int));
            assert(out@ == before + json_chars(chars@.take(i + 1)));
        }
    }
    assert(chars@.take(chars@.len() as int) == chars@);
    out.push('"');
    assert(out@ == old(out)@ + quoted(value@));
}

/// A float the way Python's `repr` writes it: shortest round trip, but never
/// without a fractional part.
pub fn push_float(out: &mut String, shown: &str)
    ensures
        final(out)@ == old(out)@ + float_chars(shown@),
{
    out.append(shown);
    if !text::holds_char(shown, '.') && !text::holds_char(shown, 'e') {
        out.append(".0");
    }
    assert(out@ == old(out)@ + float_chars(shown@));
}

/// The members of a JSON object, as their texts.
pub open spec fn member_chars(entries: Seq<(Seq<char>, Seq<char>)>) -> Seq<Seq<char>> {
    Seq::new(entries.len(), |i: int| quoted(entries[i].0) + ": "@ + entries[i].1)
}

/// One more member in an object that is being written behind `start`.
proof fn lemma_member_added(
    start: Seq<char>,
    before: Seq<char>,
    entries: Seq<(Seq<char>, Seq<char>)>,
    key: Seq<char>,
    value: Seq<char>,
)
    requires
        before == start + text::joined(member_chars(entries), ", "@),
    ensures
        ({
            let member = quoted(key) + ": "@ + value;
            (if entries.len() == 0 {
                before + member
            } else {
                before + ", "@ + member
            }) == start + text::joined(member_chars(entries.push((key, value))), ", "@)
        }),
{
    let member = quoted(key) + ": "@ + value;
    let members = member_chars(entries);
    assert(member_chars(entries.push((key, value))) == members.push(member));
    text::lemma_joined_push(members, member, ", "@);
    let whole = text::joined(members.push(member), ", "@);
    if entries.len() == 0 {
        assert(before + member =~= start + whole);
    } else {
        assert(before + ", "@ + member =~= start + whole);
    }
}

/// A distribution's members, as their texts.
pub open spec fn float_entries(entries: Seq<(Seq<char>, Real)>, texts: Texts) -> Seq<
    (Seq<char>, Seq<char>),
> {
    Seq::new(entries.len(), |i: int| (entries[i].0, float_chars(texts(entries[i].1))))
}

fn push_distribution<W: Fn(Real) -> String>(out: &mut String, entries: &Table<Real>, write: &W)
    requires
        forall|r: Real| call_requires(*write, (r,)),
    ensures
        forall|texts: Texts|
            #[trigger] writes(*write, texts) ==> final(out)@ == old(out)@ + distribution_chars(
                entries@,
                texts,
            ),
{
    let ghost start = out@ + seq!['{'];
    out.push('{');
    let n: usize = entries.len();
    let ghost all = entries@;
    assert forall|texts: Texts| #[trigger] writes(*write, texts) implies out@ == start
        + text::joined(member_chars(float_entries(all.take(0), texts)), ", "@) by {
        assert(out@ == start);
        assert(member_chars(float_entries(all.take(0), texts)) == Seq::<Seq<char>>::empty());
        assert(start + Seq::<char>::empty() == start);
    }
    for i in 0..n
        invariant
            all == entries@,
            n == all.len(),
            forall|r: Real| call_requires(*write, (r,)),
            forall|texts: Texts|
                #[trigger] writes(*write, texts) ==> out@ == start + text::joined(
                    member_chars(float_entries(all.take(i as int), texts)),
                    ", "@,
                ),
    {
        let shown = write(*entries.value_at(i));
        let mut member = String::new();
        push_string(&mut member, entries.key_at(i));
        member.append(": ");
        push_float(&mut member, shown.as_str());
        let ghost before = out@;
        text::push_joined(out, i == 0, ", ", member.as_str());
        assert forall|texts: Texts| #[trigger] writes(*write, texts) implies out@ == start
            + text::joined(member_chars(float_entries(all.take(i + 1), texts)), ", "@) by {
            let done = float_entries(all.take(i as int), texts);
            let value = float_chars(texts(all[i as int].1));
            assert(float_entries(all.take(i + 1), texts) == done.push((all[i as int].0, value)));
            lemma_member_added(start, before, done, all[i as int].0, value);
        }
    }
    assert(all.take(all.len() as int) == all);
    out.push('}');
    assert forall|texts: Texts| #[trigger] writes(*write, texts) implies out@ == old(out)@
        + distribution_chars(all, texts) by {
        assert(out@ =~= old(out)@ + distribution_chars(all, texts));
    }
}

fn push_legend(out: &mut String, entries: &Table<String>)
    ensures
        final(out)@ == old(out)@ + legend_chars(prompt::legend_view(entries@)),
{
    let ghost start = out@ + seq!['{'];
    out.push('{');
    let n: usize = entries.len();
    let ghost all = prompt::legend_view(entries@);
    let ghost shown = Seq::new(all.len(), |i: int| (all[i].0, quoted(all[i].1)));
    assert(member_chars(shown.take(0)) == Seq::<Seq<char>>::empty());
    assert(out@ == start + text::joined(member_chars(shown.take(0)), ", "@));
    for i in 0..n
        invariant
            n == all.len(),
            all == prompt::legend_view(entries@),
            shown == Seq::new(all.len(), |i: int| (all[i].0, quoted(all[i].1))),
            out@ == start + text::joined(member_chars(shown.take(i as int)), ", "@),
    {
        let mut member = String::new();
        push_string(&mut member, entries.key_at(i));
        member.append(": ");
        push_string(&mut member, entries.value_at(i).as_str());
        proof {
            let key = all[i as int].0;
            let value = quoted(all[i as int].1);
            assert(shown.take(i + 1) == shown.take(i as int).push((key, value)));
            lemma_member_added(start, out@, shown.take(i as int), key, value);
        }
        text::push_joined(out, i == 0, ", ", member.as_str());
    }
    assert(shown.take(shown.len() as int) == shown);
    out.push('}');
    assert(out@ == old(out)@ + legend_chars(all));
}

/// One answer as a JSON object.
fn answer_json<W: Fn(Real) -> String>(answer: &Answer, write: &W) -> (out: String)
    requires
        forall|r: Real| call_requires(*write, (r,)),
    ensures
        forall|texts: Texts| #[trigger] writes(*write, texts) ==> out@ == answer_chars(answer@, texts),
{
    match answer {
        Answer::Noul { noul } => {
            let mut out = "{\"type\": \"noul\", \"noul\": ".to_owned();
            let shown = write(*noul);
            push_float(&mut out, shown.as_str());
            let ghost open = out@;
            out.push('}');
            assert(out@ == open + seq!['}']);
            out
        },
        Answer::Choice { choice, confidence, probabilities } => {
            let mut out = "{\"type\": \"choice\", \"choice\": ".to_owned();
            push_string(&mut out, choice.as_str());
            out.append(", \"confidence\": ");
            let shown = write(*confidence);
            push_float(&mut out, shown.as_str());
            out.append(", \"probabilities\": ");
            push_distribution(&mut out, probabilities, write);
            let ghost open = out@;
            out.push('}');
            assert(out@ == open + seq!['}']);
            out
        },
        Answer::Score { score, confidence, legend, probabilities } => {
            let mut out = "{\"type\": \"score\", \"score\": ".to_owned();
            let shown = write(*score);
            push_float(&mut out, shown.as_str());
            out.append(", \"legend\": ");
            push_legend(&mut out, legend);
            out.append(", \"probabilities\": ");
            push_distribution(&mut out, probabilities, write);
            out.append(", \"confidence\": ");
            let sure = write(*confidence);
            push_float(&mut out, sure.as_str());
            let ghost open = out@;
            out.push('}');
            assert(out@ == open + seq!['}']);
            out
        },
    }
}

fn push_answer<W: Fn(Real) -> String>(out: &mut String, answer: &Answer, write: &W)
    requires
        forall|r: Real| call_requires(*write, (r,)),
    ensures
        forall|texts: Texts|
            #[trigger] writes(*write, texts) ==> final(out)@ == old(out)@ + answer_chars(
                answer@,
                texts,
            ),
{
    let shown = answer_json(answer, write);
    out.append(shown.as_str());
}

/// The answers of a table, as members of a JSON object.
pub open spec fn answer_entries(answers: Seq<(Seq<char>, AnswerView)>, texts: Texts) -> Seq<
    (Seq<char>, Seq<char>),
> {
    Seq::new(answers.len(), |i: int| (answers[i].0, answer_chars(answers[i].1, texts)))
}

/// The answers as they are serialised, with numbers written by `write`.
///
/// This is what `usage.output_tokens` counts, which is why it exists and why it
/// is exact: the `", "` and `": "` separators, the `\uXXXX` escaping of
/// non-ASCII, the key order, and numbers that never lack a fractional part.
pub fn answers_json<W: Fn(Real) -> String>(answers: &Table<Answer>, write: &W) -> (out: String)
    requires
        forall|r: Real| call_requires(*write, (r,)),
    ensures
        forall|texts: Texts|
            #[trigger] writes(*write, texts) ==> out@ == answers_chars(
                answer_views(answers@),
                texts,
            ),
{
    let mut out = String::new();
    out.push('{');
    let ghost start = seq!['{'];
    assert(out@ == start);
    let n: usize = answers.len();
    let ghost all = answer_views(answers@);
    assert forall|texts: Texts| #[trigger] writes(*write, texts) implies out@ == start
        + text::joined(member_chars(answer_entries(all.take(0), texts)), ", "@) by {
        assert(member_chars(answer_entries(all.take(0), texts)) == Seq::<Seq<char>>::empty());
        assert(start + Seq::<char>::empty() == start);
    }
    for i in 0..n
        invariant
            all == answer_views(answers@),
            n == all.len(),
            forall|r: Real| call_requires(*write, (r,)),
            forall|texts: Texts|
                #[trigger] writes(*write, texts) ==> out@ == start + text::joined(
                    member_chars(answer_entries(all.take(i as int), texts)),
                    ", "@,
                ),
    {
        let mut member = String::new();
        push_string(&mut member, answers.key_at(i));
        member.append(": ");
        push_answer(&mut member, answers.value_at(i), write);
        let ghost before = out@;
        text::push_joined(&mut out, i == 0, ", ", member.as_str());
        assert forall|texts: Texts| #[trigger] writes(*write, texts) implies out@ == start
            + text::joined(member_chars(answer_entries(all.take(i + 1), texts)), ", "@) by {
            let done = answer_entries(all.take(i as int), texts);
            let value = answer_chars(all[i as int].1, texts);
            assert(answer_entries(all.take(i + 1), texts) == done.push((all[i as int].0, value)));
            lemma_member_added(start, before, done, all[i as int].0, value);
        }
    }
    assert(all.take(all.len() as int) == all);
    out.push('}');
    assert forall|texts: Texts| #[trigger] writes(*write, texts) implies out@ == answers_chars(
        all,
        texts,
    ) by {
        assert(out@ =~= answers_chars(all, texts));
    }
    out
}

/// Only printable ASCII.
pub open spec fn plain_ascii(s: Seq<char>) -> bool {
    forall|i: int| 0 <= i < s.len() ==> 0x20 <= (#[trigger] s[i]) as u32 && (s[i] as u32) < 0x7f
}

proof fn lemma_joined_plain(parts: Seq<Seq<char>>, separator: Seq<char>)
    requires
        plain_ascii(separator),
        forall|i: int| 0 <= i < parts.len() ==> plain_ascii(#[trigger] parts[i]),
    ensures
        plain_ascii(text::joined(parts, separator)),
    decreases parts.len(),
{
    if parts.len() > 1 {
        let rest = parts.drop_last();
        assert forall|i: int| 0 <= i < rest.len() implies plain_ascii(#[trigger] rest[i]) by {
            assert(rest[i] == parts[i]);
        }
        lemma_joined_plain(rest, separator);
        assert(plain_ascii(parts[parts.len() - 1]));
    }
}

proof fn lemma_unit_plain(unit: int)
    requires
        0 <= unit < 0x10000,
    ensures
        plain_ascii(unit_chars(unit)),
{
    reveal_strlit("\\u");
}

proof fn lemma_json_char_plain(c: char)
    ensures
        plain_ascii(json_char(c)),
{
    reveal_strlit("\\\"");
    reveal_strlit("\\\\");
    reveal_strlit("\\n");
    reveal_strlit("\\r");
    reveal_strlit("\\t");
    reveal_strlit("\\b");
    reveal_strlit("\\f");
    let n = c as u32 as int;
    if n < 0x20 || 0x7f <= n < 0x10000 {
        lemma_unit_plain(n);
    } else if n >= 0x10000 {
        lemma_unit_plain(0xd800 + (n - 0x10000) / 0x400);
        lemma_unit_plain(0xdc00 + (n - 0x10000) % 0x400);
    }
}

proof fn lemma_json_chars_plain(s: Seq<char>)
    ensures
        plain_ascii(json_chars(s)),
    decreases s.len(),
{
    if s.len() > 0 {
        lemma_json_chars_plain(s.drop_last());
        lemma_json_char_plain(s.last());
    }
}

/// A text as a JSON string is ASCII without control characters, whatever the text
/// holds.
pub proof fn law_a_quoted_text_is_ascii(s: Seq<char>)
    ensures
        plain_ascii(quoted(s)),
{
    lemma_json_chars_plain(s);
}

/// The number that a hexadecimal digit stands for.
pub open spec fn digit_value(c: char) -> Option<int> {
    let n = c as u32 as int;
    if 48 <= n <= 57 {
        Some(n - 48)
    } else if 97 <= n <= 102 {
        Some(n - 87)
    } else if 65 <= n <= 70 {
        Some(n - 55)
    } else {
        None
    }
}

/// The UTF-16 code unit that is written at the start of this, with its `\\u`.
pub open spec fn unit_read(t: Seq<char>) -> Option<int> {
    if t.len() < 6 || t[0] != '\\' || t[1] != 'u' {
        None
    } else {
        match (digit_value(t[2]), digit_value(t[3]), digit_value(t[4]), digit_value(t[5])) {
            (Some(a), Some(b), Some(c), Some(d)) => Some(4096 * a + 256 * b + 16 * c + d),
            _ => None,
        }
    }
}

/// The character at the start of what stands inside a JSON string, and how many
/// characters it is written with.
pub open spec fn char_read(t: Seq<char>) -> Option<(char, int)> {
    if t.len() == 0 || t[0] == '"' {
        None
    } else if t[0] != '\\' {
        Some((t[0], 1))
    } else if t.len() < 2 {
        None
    } else if t[1] == '"' || t[1] == '\\' || t[1] == '/' {
        Some((t[1], 2))
    } else if t[1] == 'b' {
        Some((0x08u8 as char, 2))
    } else if t[1] == 'f' {
        Some((0x0cu8 as char, 2))
    } else if t[1] == 'n' {
        Some(('\n', 2))
    } else if t[1] == 'r' {
        Some(('\r', 2))
    } else if t[1] == 't' {
        Some(('\t', 2))
    } else {
        match unit_read(t) {
            None => None,
            Some(unit) => if 0xd800 <= unit < 0xdc00 {
                // The first of a pair.
                match unit_read(t.skip(6)) {
                    Some(low) => if 0xdc00 <= low < 0xe000 {
                        Some(
                            (
                                (0x10000 + (unit - 0xd800) * 0x400 + (low - 0xdc00)) as char,
                                12,
                            ),
                        )
                    } else {
                        None
                    },
                    None => None,
                }
            } else if 0xdc00 <= unit < 0xe000 {
                None
            } else {
                Some((unit as char, 6))
            },
        }
    }
}

/// What stands inside a JSON string, read back.
pub open spec fn chars_read(t: Seq<char>) -> Option<Seq<char>>
    decreases t.len(),
{
    if t.len() == 0 {
        Some(Seq::empty())
    } else {
        match char_read(t) {
            Some((c, n)) => if 0 < n <= t.len() {
                match chars_read(t.skip(n)) {
                    Some(rest) => Some(seq![c] + rest),
                    None => None,
                }
            } else {
                None
            },
            None => None,
        }
    }
}

/// A JSON string, read back.
pub open spec fn literal_read(t: Seq<char>) -> Option<Seq<char>> {
    if t.len() >= 2 && t[0] == '"' && t.last() == '"' {
        chars_read(t.subrange(1, t.len() - 1))
    } else {
        None
    }
}

proof fn lemma_digit_value(d: nat)
    requires
        d < 16,
    ensures
        digit_value(text::hex_digit(d)) == Some(d as int),
{
}

proof fn lemma_four_digits(n: nat)
    requires
        n < 0x10000,
    ensures
        n == 4096 * (n / 4096 % 16) + 256 * (n / 256 % 16) + 16 * (n / 16 % 16) + n % 16,
{
    let a = n / 16;
    let b = a / 16;
    assert(n / 256 == b);
    assert(n / 4096 == b / 16);
    assert(n == 16 * a + n % 16);
    assert(a == 16 * b + a % 16);
    assert(b == 16 * (b / 16) + b % 16);
    assert(b / 16 < 16);
}

proof fn lemma_unit_read(unit: int, rest: Seq<char>)
    requires
        0 <= unit < 0x10000,
    ensures
        unit_read(unit_chars(unit) + rest) == Some(unit),
        unit_chars(unit).len() == 6,
        unit_chars(unit)[0] == '\\',
        unit_chars(unit)[1] == 'u',
        (unit_chars(unit) + rest).skip(6) == rest,
{
    reveal_strlit("\\u");
    let t = unit_chars(unit) + rest;
    let n = unit as nat;
    assert(t.skip(6) =~= rest);
    assert(t[2] == text::hex_digit(n / 4096 % 16));
    assert(t[3] == text::hex_digit(n / 256 % 16));
    assert(t[4] == text::hex_digit(n / 16 % 16));
    assert(t[5] == text::hex_digit(n % 16));
    lemma_digit_value(n / 4096 % 16);
    lemma_digit_value(n / 256 % 16);
    lemma_digit_value(n / 16 % 16);
    lemma_digit_value(n % 16);
    lemma_four_digits(n);
}

proof fn lemma_char_read(c: char, rest: Seq<char>)
    ensures
        char_read(json_char(c) + rest) == Some((c, json_char(c).len() as int)),
        json_char(c).len() > 0,
        (json_char(c) + rest).skip(json_char(c).len() as int) == rest,
{
    reveal_strlit("\\\"");
    reveal_strlit("\\\\");
    reveal_strlit("\\n");
    reveal_strlit("\\r");
    reveal_strlit("\\t");
    reveal_strlit("\\b");
    reveal_strlit("\\f");
    let n = c as u32 as int;
    let t = json_char(c) + rest;
    assert(t.skip(json_char(c).len() as int) =~= rest);
    if c == '"' || c == '\\' || c == '\n' || c == '\r' || c == '\t' || n == 0x08 || n == 0x0c {
        assert(t[0] == '\\');
        assert(t[1] == json_char(c)[1]);
    } else if n < 0x20 || 0x7f <= n < 0x10000 {
        lemma_unit_read(n, rest);
        assert(t[0] == '\\' && t[1] == 'u');
    } else if n < 0x7f {
        assert(t[0] == c);
    } else {
        let high = 0xd800 + (n - 0x10000) / 0x400;
        let low = 0xdc00 + (n - 0x10000) % 0x400;
        lemma_unit_read(high, unit_chars(low) + rest);
        lemma_unit_read(low, rest);
        assert(t =~= unit_chars(high) + (unit_chars(low) + rest));
        assert(t[0] == '\\' && t[1] == 'u');
    }
}

proof fn lemma_json_chars_first(s: Seq<char>)
    requires
        s.len() > 0,
    ensures
        json_chars(s) == json_char(s[0]) + json_chars(s.skip(1)),
    decreases s.len(),
{
    if s.len() == 1 {
        assert(s.drop_last() =~= Seq::<char>::empty());
        assert(s.skip(1) =~= Seq::<char>::empty());
        assert(json_chars(s) =~= json_char(s[0]) + json_chars(s.skip(1)));
    } else {
        lemma_json_chars_first(s.drop_last());
        assert(s.drop_last().skip(1) =~= s.skip(1).drop_last());
        assert(json_chars(s) =~= json_char(s[0]) + json_chars(s.skip(1)));
    }
}

proof fn lemma_chars_read(s: Seq<char>)
    ensures
        chars_read(json_chars(s)) == Some(s),
    decreases s.len(),
{
    if s.len() > 0 {
        lemma_json_chars_first(s);
        lemma_char_read(s[0], json_chars(s.skip(1)));
        lemma_chars_read(s.skip(1));
        assert(seq![s[0]] + s.skip(1) =~= s);
    } else {
        assert(s =~= Seq::<char>::empty());
    }
}

/// A text as a JSON string reads back as the text.
pub proof fn law_a_quoted_text_reads_back(s: Seq<char>)
    ensures
        literal_read(quoted(s)) == Some(s),
{
    lemma_chars_read(s);
    assert(quoted(s).subrange(1, quoted(s).len() - 1) =~= json_chars(s));
}

/// Different texts are different JSON strings.
pub proof fn law_different_texts_are_quoted_differently(s: Seq<char>, t: Seq<char>)
    requires
        s != t,
    ensures
        quoted(s) != quoted(t),
{
    law_a_quoted_text_reads_back(s);
    law_a_quoted_text_reads_back(t);
}

proof fn lemma_object_plain(entries: Seq<(Seq<char>, Seq<char>)>)
    requires
        forall|i: int| 0 <= i < entries.len() ==> plain_ascii((#[trigger] entries[i]).1),
    ensures
        plain_ascii(object_chars(entries)),
{
    reveal_strlit(": ");
    reveal_strlit(", ");
    let members = member_chars(entries);
    assert forall|i: int| 0 <= i < members.len() implies plain_ascii(#[trigger] members[i]) by {
        law_a_quoted_text_is_ascii(entries[i].0);
        assert(plain_ascii(entries[i].1));
    }
    lemma_joined_plain(members, ", "@);
}

proof fn lemma_distribution_plain(entries: Seq<(Seq<char>, Real)>, texts: Texts)
    requires
        forall|r: Real| plain_ascii(#[trigger] texts(r)),
    ensures
        plain_ascii(distribution_chars(entries, texts)),
{
    let shown = float_entries(entries, texts);
    assert forall|i: int| 0 <= i < shown.len() implies plain_ascii((#[trigger] shown[i]).1) by {
        lemma_float_plain(texts(entries[i].1));
    }
    lemma_object_plain(shown);
}

proof fn lemma_float_plain(shown: Seq<char>)
    requires
        plain_ascii(shown),
    ensures
        plain_ascii(float_chars(shown)),
{
    reveal_strlit(".0");
}

proof fn lemma_legend_plain(entries: Seq<(Seq<char>, Seq<char>)>)
    ensures
        plain_ascii(legend_chars(entries)),
{
    let shown = Seq::new(entries.len(), |i: int| (entries[i].0, quoted(entries[i].1)));
    assert forall|i: int| 0 <= i < shown.len() implies plain_ascii((#[trigger] shown[i]).1) by {
        law_a_quoted_text_is_ascii(entries[i].1);
    }
    lemma_object_plain(shown);
}

proof fn lemma_answer_plain(a: AnswerView, texts: Texts)
    requires
        forall|r: Real| plain_ascii(#[trigger] texts(r)),
    ensures
        plain_ascii(answer_chars(a, texts)),
{
    match a {
        AnswerView::Noul { noul } => {
            reveal_strlit("{\"type\": \"noul\", \"noul\": ");
            lemma_float_plain(texts(noul));
        },
        AnswerView::Choice { choice, confidence, probabilities } => {
            reveal_strlit("{\"type\": \"choice\", \"choice\": ");
            reveal_strlit(", \"confidence\": ");
            reveal_strlit(", \"probabilities\": ");
            law_a_quoted_text_is_ascii(choice);
            lemma_float_plain(texts(confidence));
            lemma_distribution_plain(probabilities, texts);
        },
        AnswerView::Score { score, confidence, legend, probabilities } => {
            reveal_strlit("{\"type\": \"score\", \"score\": ");
            reveal_strlit(", \"legend\": ");
            reveal_strlit(", \"confidence\": ");
            reveal_strlit(", \"probabilities\": ");
            lemma_float_plain(texts(score));
            lemma_float_plain(texts(confidence));
            lemma_legend_plain(legend);
            lemma_distribution_plain(probabilities, texts);
        },
    }
}

/// The serialised answers are ASCII without control characters, whatever the ids,
/// options and descriptions hold, as long as numbers are written so.
pub proof fn law_serialised_answers_are_ascii(
    answers: Seq<(Seq<char>, AnswerView)>,
    texts: Texts,
)
    requires
        forall|r: Real| plain_ascii(#[trigger] texts(r)),
    ensures
        plain_ascii(answers_chars(answers, texts)),
{
    let shown = answer_entries(answers, texts);
    assert forall|i: int| 0 <= i < shown.len() implies plain_ascii((#[trigger] shown[i]).1) by {
        lemma_answer_plain(answers[i].1, texts);
    }
    lemma_object_plain(shown);
}

/// A number is written with a fractional part or an exponent: as it was given where it has
/// either, and with a zero behind a point otherwise.
pub proof fn law_a_number_never_lacks_a_fraction(shown: Seq<char>)
    ensures
        float_chars(shown).contains('.') || float_chars(shown).contains('e'),
        shown.contains('.') || shown.contains('e') ==> float_chars(shown) == shown,
        !shown.contains('.') && !shown.contains('e') ==> float_chars(shown) == shown + seq!['.', '0'],
{
    reveal_strlit(".0");
    assert(".0"@ =~= seq!['.', '0']);
    if !shown.contains('.') && !shown.contains('e') {
        assert(float_chars(shown)[shown.len() as int] == '.');
    }
}

proof fn lemma_object_grows(
    before: Seq<(Seq<char>, Seq<char>)>,
    key: Seq<char>,
    value: Seq<char>,
)
    ensures
        object_chars(before.push((key, value))) == object_chars(before).drop_last() + (if before.len()
            == 0 {
            Seq::empty()
        } else {
            seq![',', ' ']
        }) + quoted(key) + seq![':', ' '] + value + seq!['}'],
{
    reveal_strlit(": ");
    reveal_strlit(", ");
    assert(": "@ =~= seq![':', ' ']);
    assert(", "@ =~= seq![',', ' ']);
    let member = quoted(key) + ": "@ + value;
    let members = member_chars(before);
    assert(member_chars(before.push((key, value))) =~= members.push(member));
    text::lemma_joined_push(members, member, ", "@);
    assert(object_chars(before.push((key, value))) =~= object_chars(before).drop_last() + (
    if before.len() == 0 {
        Seq::empty()
    } else {
        seq![',', ' ']
    }) + quoted(key) + seq![':', ' '] + value + seq!['}']);
}

proof fn lemma_answer_entries_grow(
    before: Seq<(Seq<char>, AnswerView)>,
    id: Seq<char>,
    a: AnswerView,
    texts: Texts,
)
    ensures
        answer_entries(before.push((id, a)), texts) == answer_entries(before, texts).push(
            (id, answer_chars(a, texts)),
        ),
        answers_chars(before, texts) == object_chars(answer_entries(before, texts)),
        answers_chars(before.push((id, a)), texts) == object_chars(
            answer_entries(before.push((id, a)), texts),
        ),
{
    let longer = before.push((id, a));
    assert forall|i: int| 0 <= i < longer.len() implies #[trigger] answer_entries(longer, texts)[i]
        == answer_entries(before, texts).push((id, answer_chars(a, texts)))[i] by {
        if i < before.len() {
            assert(longer[i] == before[i]);
        } else {
            assert(longer[i] == (id, a));
        }
    }
    assert(answer_entries(longer, texts) =~= answer_entries(before, texts).push(
        (id, answer_chars(a, texts)),
    ));
}

/// The answers are written as an object with one member for each, in their order: one answer more
/// goes behind the others, under its own id, and changes nothing of what stands before it.
pub proof fn law_one_answer_more_goes_behind_the_others(
    before: Seq<(Seq<char>, AnswerView)>,
    id: Seq<char>,
    a: AnswerView,
    texts: Texts,
)
    ensures
        answers_chars(Seq::empty(), texts) == seq!['{', '}'],
        answers_chars(before.push((id, a)), texts) == answers_chars(before, texts).drop_last() + (
        if before.len() == 0 {
            Seq::empty()
        } else {
            seq![',', ' ']
        }) + quoted(id) + seq![':', ' '] + answer_chars(a, texts) + seq!['}'],
{
    assert(answers_chars(Seq::empty(), texts) =~= seq!['{', '}']);
    lemma_answer_entries_grow(before, id, a, texts);
    lemma_object_grows(answer_entries(before, texts), id, answer_chars(a, texts));
}

/// A distribution is written as an object with one number for each key, in option order.
pub proof fn law_one_probability_more_goes_behind_the_others(
    before: Seq<(Seq<char>, Real)>,
    key: Seq<char>,
    p: Real,
    texts: Texts,
)
    ensures
        distribution_chars(Seq::empty(), texts) == seq!['{', '}'],
        distribution_chars(before.push((key, p)), texts) == distribution_chars(
            before,
            texts,
        ).drop_last() + (if before.len() == 0 {
            Seq::empty()
        } else {
            seq![',', ' ']
        }) + quoted(key) + seq![':', ' '] + float_chars(texts(p)) + seq!['}'],
{
    assert(distribution_chars(Seq::empty(), texts) =~= seq!['{', '}']);
    let entries = float_entries(before, texts);
    assert(float_entries(before.push((key, p)), texts) =~= entries.push(
        (key, float_chars(texts(p))),
    ));
    lemma_object_grows(entries, key, float_chars(texts(p)));
}

/// A legend is written as an object with one text for each level, in order.
pub proof fn law_one_level_more_goes_behind_the_others(
    before: Seq<(Seq<char>, Seq<char>)>,
    level: Seq<char>,
    description: Seq<char>,
)
    ensures
        legend_chars(Seq::empty()) == seq!['{', '}'],
        legend_chars(before.push((level, description))) == legend_chars(before).drop_last() + (
        if before.len() == 0 {
            Seq::empty()
        } else {
            seq![',', ' ']
        }) + quoted(level) + seq![':', ' '] + quoted(description) + seq!['}'],
{
    assert(legend_chars(Seq::empty()) =~= seq!['{', '}']);
    let entries = Seq::new(before.len(), |i: int| (before[i].0, quoted(before[i].1)));
    let longer = before.push((level, description));
    assert(Seq::new(longer.len(), |i: int| (longer[i].0, quoted(longer[i].1))) =~= entries.push(
        (level, quoted(description)),
    ));
    lemma_object_grows(entries, level, quoted(description));
}

/// An answer is written as its kind, then what it answers, then what stands behind it: a choice
/// gives its confidence before its probabilities, a score gives its legend first and its
/// confidence last.
pub proof fn law_an_answer_is_written_member_by_member(a: AnswerView, texts: Texts)
    ensures
        a matches AnswerView::Noul { noul } ==> answer_chars(a, texts)
            == "{\"type\": \"noul\", \"noul\": "@ + float_chars(texts(noul)) + seq!['}'],
        a matches AnswerView::Choice { choice, confidence, probabilities } ==> answer_chars(a, texts)
            == "{\"type\": \"choice\", \"choice\": "@ + quoted(choice) + ", \"confidence\": "@
            + float_chars(texts(confidence)) + ", \"probabilities\": "@ + distribution_chars(
            probabilities,
            texts,
        ) + seq!['}'],
        a matches AnswerView::Score { score, confidence, legend, probabilities } ==> answer_chars(
            a,
            texts,
        ) == "{\"type\": \"score\", \"score\": "@ + float_chars(texts(score)) + ", \"legend\": "@
            + legend_chars(legend) + ", \"probabilities\": "@ + distribution_chars(
            probabilities,
            texts,
        ) + ", \"confidence\": "@ + float_chars(texts(confidence)) + seq!['}'],
{
}

/// A question has to have the options it is answered from: a yes/no question two, a choice one,
/// and a score none in particular.
pub proof fn law_few_options_are_needed(n: nat)
    ensures
        answerable(Kind::Noul, n) <==> n >= 2,
        answerable(Kind::Choice, n) <==> n >= 1,
        answerable(Kind::Score, n),
{
}

/// An answer is seen whole: every part of it, as it is.
pub proof fn law_an_answer_is_seen_whole(a: Answer)
    ensures
        a matches Answer::Noul { noul } ==> a@ == (AnswerView::Noul { noul }),
        a matches Answer::Choice { choice, confidence, probabilities } ==> a@ == (
        AnswerView::Choice { choice: choice@, confidence, probabilities: probabilities@ }),
        a matches Answer::Score { score, confidence, legend, probabilities } ==> (
        a@ matches AnswerView::Score {
            score: s,
            confidence: c,
            legend: l,
            probabilities: p,
        } && s == score && c == confidence && p == probabilities@ && l.len() == legend@.len()
            && forall|i: int|
            0 <= i < l.len() ==> (#[trigger] l[i]).0 == legend@[i].0 && l[i].1 == legend@[i].1@),
{
}

/// Answers are seen under their ids, in order.
pub proof fn law_answers_are_seen_under_their_ids(answers: Seq<(Seq<char>, Answer)>, i: int)
    requires
        0 <= i < answers.len(),
    ensures
        answer_views(answers).len() == answers.len(),
        answer_views(answers)[i].0 == answers[i].0,
        answer_views(answers)[i].1 == answers[i].1@,
{
}

/// The exact probabilities are those of the options, in order.
pub proof fn law_exact_probabilities_are_the_options_own(options: Seq<Probability>, i: int)
    requires
        0 <= i < options.len(),
    ensures
        exact(options).len() == options.len(),
        exact(options)[i] == options[i].exact,
{
}

/// Inside a JSON string every printable character of ASCII but the quote and the backslash stands
/// for itself; those two are escaped by a backslash, and so are the control characters that have
/// a letter of their own. Everything else is written by its code, in six characters or, outside
/// the first plane, in twelve.
pub proof fn law_printable_characters_stand_for_themselves(s: Seq<char>, c: char)
    ensures
        0x20 <= c as u32 <= 0x7e && c != '"' && c != '\\' ==> json_char(c) == seq![c],
        c == '"' || c == '\\' ==> json_char(c) == seq!['\\', c],
        c == '\n' ==> json_char(c) == seq!['\\', 'n'],
        c == '\r' ==> json_char(c) == seq!['\\', 'r'],
        c == '\t' ==> json_char(c) == seq!['\\', 't'],
        c as u32 == 0x08 ==> json_char(c) == seq!['\\', 'b'],
        c as u32 == 0x0c ==> json_char(c) == seq!['\\', 'f'],
        0x7f <= c as u32 <= 0xffff ==> json_char(c).len() == 6 && json_char(c)[0] == '\\'
            && json_char(c)[1] == 'u',
        (c as u32) < 0x20 && c != '\n' && c != '\r' && c != '\t' && c as u32 != 0x08 && c as u32
            != 0x0c ==> json_char(c).len() == 6 && json_char(c)[0] == '\\' && json_char(c)[1]
            == 'u',
        0x10000 <= c as u32 ==> json_char(c).len() == 12,
        json_chars(Seq::empty()).len() == 0,
        json_chars(s.push(c)) == json_chars(s) + json_char(c),
        quoted(s) == seq!['"'] + json_chars(s) + seq!['"'],
{
    reveal_strlit("\\\"");
    reveal_strlit("\\\\");
    reveal_strlit("\\n");
    reveal_strlit("\\r");
    reveal_strlit("\\t");
    reveal_strlit("\\b");
    reveal_strlit("\\f");
    reveal_strlit("\\u");
    assert(s.push(c).drop_last() =~= s);
    let n = c as u32 as int;
    assert(c == '"' ==> json_char(c) =~= seq!['\\', c]);
    assert(c == '\\' ==> json_char(c) =~= seq!['\\', c]);
    assert(c == '\n' ==> json_char(c) =~= seq!['\\', 'n']);
    assert(c == '\r' ==> json_char(c) =~= seq!['\\', 'r']);
    assert(c == '\t' ==> json_char(c) =~= seq!['\\', 't']);
    assert(n == 0x08 ==> json_char(c) =~= seq!['\\', 'b']);
    assert(n == 0x0c ==> json_char(c) =~= seq!['\\', 'f']);
}

/// A code is written with digits and small letters alone.
pub proof fn law_a_code_is_written_in_small_letters(unit: int, i: int)
    requires
        0 <= unit < 0x10000,
        0 <= i < 4,
    ensures
        unit_chars(unit).len() == 6,
        '0' <= unit_chars(unit)[2 + i] <= '9' || 'a' <= unit_chars(unit)[2 + i] <= 'f',
{
    reveal_strlit("\\u");
}

} // verus!
