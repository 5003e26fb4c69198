//! From a System One request to the text the model sees.
//!
//! Every string built here goes into the prompt, so any difference in it is a
//! difference in the answers.

use vstd::prelude::*;

use crate::table;
use crate::table::Table;
use crate::text;
use crate::types;
use crate::types::{Choice, Noul, Question, Score, SystemOneRequest};
use crate::value;
use crate::value::Value;

verus! {

/// A value as the model reads it, each of its lines behind this padding.
pub open spec fn rendered(v: Value, pad: Seq<char>) -> Seq<char>
    decreases v,
{
    match v {
        Value::Null => Seq::empty(),
        Value::Bool(b) => if b {
            "True"@
        } else {
            "False"@
        },
        Value::Number(n) => value::number_chars(n),
        Value::String(s) => s@,
        Value::Array(items) => text::joined(item_lines(items@, pad), "\n"@),
        Value::Object(fields) => text::joined(field_lines(fields@, pad), "\n"@),
    }
}

/// One line per item: a dash, then the item without the space it starts with.
pub open spec fn item_lines(items: Seq<Value>, pad: Seq<char>) -> Seq<Seq<char>>
    decreases items,
{
    if items.len() == 0 {
        Seq::empty()
    } else {
        item_lines(items.drop_last(), pad).push(
            pad + "- "@ + text::trimmed_start(rendered(items.last(), pad + "  "@)),
        )
    }
}

/// One entry per field: its name as a label, then the field. Arrays and objects
/// go on lines of their own, two spaces deeper; everything else stays on the
/// label's line.
pub open spec fn field_lines(fields: Seq<(String, Value)>, pad: Seq<char>) -> Seq<Seq<char>>
    decreases fields,
{
    if fields.len() == 0 {
        Seq::empty()
    } else {
        let name = fields.last().0@;
        let field = fields.last().1;
        field_lines(fields.drop_last(), pad).push(
            if field.nested() {
                pad + name + ":\n"@ + rendered(field, pad + "  "@)
            } else {
                pad + name + ": "@ + rendered(field, Seq::empty())
            },
        )
    }
}

fn render_at(v: &Value, pad: &str) -> (out: String)
    ensures
        out@ == rendered(*v, pad@),
    decreases v,
{
    match v {
        Value::Null => String::new(),
        Value::Bool(b) => if *b {
            "True".to_owned()
        } else {
            "False".to_owned()
        },
        Value::Number(n) => value::number_text(n),
        Value::String(s) => s.clone(),
        Value::Array(items) => {
            let deeper = pad.to_owned().concat("  ");
            let mut out = String::new();
            for i in 0..items.len()
                invariant
                    deeper@ == pad@ + "  "@,
                    v matches Value::Array(all) && all == *items,
                    out@ == text::joined(item_lines(items@.take(i as int), pad@), "\n"@),
                decreases items.len() - i,
            {
                let inner = render_at(&items[i], deeper.as_str());
                let inner = text::trim_start(inner.as_str());
                let line = pad.to_owned().concat("- ").concat(inner.as_str());
                text::push_joined(&mut out, i == 0, "\n", line.as_str());
                proof {
                    let before = items@.take(i as int);
                    let after = items@.take(i + 1);
                    assert(after.drop_last() == before);
                    assert(after.last() == items@[i as int]);
                    text::lemma_joined_push(item_lines(before, pad@), line@, "\n"@);
                }
            }
            assert(items@.take(items@.len() as int) == items@);
            out
        },
        Value::Object(fields) => {
            let deeper = pad.to_owned().concat("  ");
            let mut out = String::new();
            for i in 0..fields.len()
                invariant
                    deeper@ == pad@ + "  "@,
                    v matches Value::Object(all) && all == *fields,
                    out@ == text::joined(field_lines(fields@.take(i as int), pad@), "\n"@),
                decreases fields.len() - i,
            {
                let field = &fields[i].1;
                let label = pad.to_owned().concat(fields[i].0.as_str());
                let line = if field.is_nested() {
                    label.concat(":\n").concat(render_at(field, deeper.as_str()).as_str())
                } else {
                    label.concat(": ").concat(render_at(field, "").as_str())
                };
                text::push_joined(&mut out, i == 0, "\n", line.as_str());
                proof {
                    reveal_strlit("");
                    assert(""@ == Seq::<char>::empty());
                    let before = fields@.take(i as int);
                    let after = fields@.take(i + 1);
                    assert(after.drop_last() == before);
                    assert(after.last() == fields@[i as int]);
                    assert(field_lines(after, pad@) == field_lines(before, pad@).push(line@));
                    text::lemma_joined_push(field_lines(before, pad@), line@, "\n"@);
                }
            }
            assert(fields@.take(fields@.len() as int) == fields@);
            out
        },
    }
}

/// Flatten a state or an instruction block into the text the model sees.
///
/// Field names are kept as labels, nested objects and arrays are indented two
/// spaces per level. `null` renders as the empty string.
pub fn render(v: &Value) -> (out: String)
    ensures
        out@ == rendered(*v, Seq::empty()),
{
    proof {
        reveal_strlit("");
        assert(""@ == Seq::<char>::empty());
    }
    render_at(v, "")
}

/// One option as the model reads it: the bare name, or `name: description`.
pub open spec fn option_chars(name: Seq<char>, description: Option<Seq<char>>) -> Seq<char> {
    match description {
        Some(d) => if d.len() == 0 {
            name
        } else {
            name + ": "@ + d
        },
        None => name,
    }
}

/// One option as the model reads it. A missing or empty description leaves the
/// name to speak for itself.
pub fn option_text(name: &str, description: &Option<String>) -> (out: String)
    ensures
        out@ == option_chars(name@, types::chars(*description)),
{
    match description {
        Some(d) => {
            if text::same_text(d.as_str(), "") {
                proof {
                    reveal_strlit("");
                }
                name.to_owned()
            } else {
                proof {
                    reveal_strlit("");
                    assert(d@.len() > 0) by {
                        if d@.len() == 0 {
                            assert(d@ == ""@);
                        }
                    }
                }
                name.to_owned().concat(": ").concat(d.as_str())
            }
        },
        None => name.to_owned(),
    }
}

/// What kind of question an answer has to be read back as.
#[derive(Debug, Clone, Copy, PartialEq, Eq, Structural)]
pub enum Kind {
    Noul,
    Choice,
    Score,
}

/// One question as the encoder sees it: instructions, then options in order.
#[derive(Debug)]
pub struct Ask {
    pub instructions: String,
    pub options: Vec<String>,
}

/// One question as the encoder sees it, by its characters.
pub struct AskText {
    pub instructions: Seq<char>,
    pub options: Seq<Seq<char>>,
}

impl View for Ask {
    type V = AskText;

    open spec fn view(&self) -> AskText {
        AskText { instructions: self.instructions@, options: text::views(self.options@) }
    }
}

/// A whole request as the encoder sees it.
#[derive(Debug)]
pub struct Record {
    pub state: String,
    pub questions: Vec<Ask>,
}

/// The questions of a record.
pub open spec fn ask_texts(asks: Seq<Ask>) -> Seq<AskText> {
    Seq::new(asks.len(), |i: int| asks[i]@)
}

/// How one question's distribution maps back onto an answer.
///
/// The model only ever produces a probability per option; which answer shape
/// that becomes is decided here, not by the model.
#[derive(Debug)]
pub struct Plan {
    pub id: String,
    pub kind: Kind,
    /// The keys the probabilities are reported under, in option order.
    pub keys: Vec<String>,
    /// Level index to description, for `score` questions only.
    pub legend: Option<Table<String>>,
}

/// A plan, by its characters.
pub struct PlanView {
    pub id: Seq<char>,
    pub kind: Kind,
    pub keys: Seq<Seq<char>>,
    pub legend: Option<Seq<(Seq<char>, Seq<char>)>>,
}

/// Texts under keys, by their characters.
pub open spec fn legend_view(entries: Seq<(Seq<char>, String)>) -> Seq<(Seq<char>, Seq<char>)> {
    table::mapped(entries, |t: String| t@)
}

impl View for Plan {
    type V = PlanView;

    open spec fn view(&self) -> PlanView {
        PlanView {
            id: self.id@,
            kind: self.kind,
            keys: text::views(self.keys@),
            legend: match self.legend {
                Some(legend) => Some(legend_view(legend@)),
                None => None,
            },
        }
    }
}

/// The plans of a list.
pub open spec fn plan_views(plans: Seq<Plan>) -> Seq<PlanView> {
    Seq::new(plans.len(), |i: int| plans[i]@)
}

/// The kind of a question.
pub open spec fn kind_of(q: Question) -> Kind {
    match q {
        Question::Noul(_) => Kind::Noul,
        Question::Choice(_) => Kind::Choice,
        Question::Score(_) => Kind::Score,
    }
}

/// The text of a question's instructions: empty where there are none.
pub open spec fn instruction_chars(q: Question) -> Seq<char> {
    let instructions = match q {
        Question::Noul(q) => q.instructions,
        Question::Choice(q) => q.instructions,
        Question::Score(q) => q.instructions,
    };
    match instructions {
        Some(v) => rendered(v, Seq::empty()),
        None => Seq::empty(),
    }
}

/// The options of a question as the model reads them, in order. A yes/no question
/// is two options, no and yes; a score's options are its levels' descriptions.
pub open spec fn options_of(q: Question) -> Seq<Seq<char>> {
    match q {
        Question::Noul(q) => seq![
            option_chars("no"@, types::chars(q.no_text())),
            option_chars("yes"@, types::chars(q.yes_text())),
        ],
        Question::Choice(q) => Seq::new(
            q.criteria@.len(),
            |i: int| option_chars(q.criteria@[i].0, types::chars(q.criteria@[i].1)),
        ),
        Question::Score(q) => text::views(q.criteria@),
    }
}

/// The keys a question's probabilities are reported under, in option order: a
/// choice's option names, a score's level indices.
pub open spec fn keys_of(q: Question) -> Seq<Seq<char>> {
    match q {
        Question::Noul(_) => seq!["false"@, "true"@],
        Question::Choice(q) => Seq::new(q.criteria@.len(), |i: int| q.criteria@[i].0),
        Question::Score(q) => Seq::new(q.criteria@.len(), |i: int| text::decimal(i as nat)),
    }
}

/// A score's level indices with the levels' descriptions.
pub open spec fn legend_of(levels: Seq<String>) -> Seq<(Seq<char>, Seq<char>)> {
    Seq::new(levels.len(), |i: int| (text::decimal(i as nat), levels[i]@))
}

/// A question as the encoder sees it.
pub open spec fn ask_of(q: Question) -> AskText {
    AskText { instructions: instruction_chars(q), options: options_of(q) }
}

/// How the answer to a question is read back.
pub open spec fn plan_of(id: Seq<char>, q: Question) -> PlanView {
    PlanView {
        id,
        kind: kind_of(q),
        keys: keys_of(q),
        legend: match q {
            Question::Score(q) => Some(legend_of(q.criteria@)),
            _ => None,
        },
    }
}

fn instructions_of(question: &Question) -> (out: String)
    ensures
        out@ == instruction_chars(*question),
{
    let instructions = match question {
        Question::Noul(q) => &q.instructions,
        Question::Choice(q) => &q.instructions,
        Question::Score(q) => &q.instructions,
    };
    match instructions {
        Some(v) => render(v),
        None => String::new(),
    }
}

fn plan_noul(question: &Noul) -> (out: (Vec<String>, Vec<String>))
    ensures
        text::views(out.0@) == options_of(Question::Noul(*question)),
        text::views(out.1@) == keys_of(Question::Noul(*question)),
{
    let (no, yes) = match &question.criteria {
        Some(criteria) => (
            option_text("no", &criteria.no),
            option_text("yes", &criteria.yes),
        ),
        None => ("no".to_owned(), "yes".to_owned()),
    };
    let mut options: Vec<String> = Vec::new();
    options.push(no);
    options.push(yes);
    let mut keys: Vec<String> = Vec::new();
    keys.push("false".to_owned());
    keys.push("true".to_owned());
    assert(text::views(options@) == options_of(Question::Noul(*question)));
    assert(text::views(keys@) == keys_of(Question::Noul(*question)));
    (options, keys)
}

fn plan_choice(question: &Choice) -> (out: (Vec<String>, Vec<String>))
    ensures
        text::views(out.0@) == options_of(Question::Choice(*question)),
        text::views(out.1@) == keys_of(Question::Choice(*question)),
{
    let mut options: Vec<String> = Vec::new();
    let n: usize = question.criteria.len();
    let ghost entries = question.criteria@;
    for i in 0..n
        invariant
            entries == question.criteria@,
            n == entries.len(),
            options@.len() == i,
            forall|j: int|
                0 <= j < i ==> (#[trigger] options@[j])@ == option_chars(
                    entries[j].0,
                    types::chars(entries[j].1),
                ),
    {
        options.push(option_text(question.criteria.key_at(i), question.criteria.value_at(i)));
    }
    let keys = question.criteria.keys();
    assert(text::views(options@) == options_of(Question::Choice(*question)));
    assert(text::views(keys@) == keys_of(Question::Choice(*question)));
    (options, keys)
}

fn plan_score(question: &Score) -> (out: (Vec<String>, Vec<String>, Table<String>))
    ensures
        text::views(out.0@) == options_of(Question::Score(*question)),
        text::views(out.1@) == keys_of(Question::Score(*question)),
        legend_view(out.2@) == legend_of(question.criteria@),
{
    let levels = &question.criteria;
    let mut options: Vec<String> = Vec::new();
    let mut keys: Vec<String> = Vec::new();
    let mut legend: Table<String> = Table::new();
    for i in 0..levels.len()
        invariant
            options@ == levels@.take(i as int),
            keys@.len() == i,
            forall|j: int| 0 <= j < i ==> (#[trigger] keys@[j])@ == text::decimal(j as nat),
            legend@.len() == i,
            forall|j: int|
                0 <= j < i ==> #[trigger] legend@[j] == (text::decimal(j as nat), levels@[j]),
    {
        let key = text::decimal_text(i);
        let level = levels[i].clone();
        proof {
            assert forall|j: int| 0 <= j < legend@.len() implies (#[trigger] legend@[j]).0
                != key@ by {
                if legend@[j].0 == key@ {
                    text::law_decimal_is_injective(j as nat, i as nat);
                }
            }
            assert(!table::holds(legend@, key@));
        }
        legend = legend.insert(key.as_str(), level.clone());
        keys.push(key);
        options.push(level);
        assert(options@ == levels@.take(i + 1));
    }
    assert(levels@.take(levels@.len() as int) == levels@);
    assert(text::views(keys@) == keys_of(Question::Score(*question)));
    assert(legend_view(legend@) == legend_of(question.criteria@));
    (options, keys, legend)
}

/// One question as the encoder sees it, and how its answer is read back.
pub fn plan_question(id: &str, question: &Question) -> (out: (Ask, Plan))
    ensures
        out.0@ == ask_of(*question),
        out.1@ == plan_of(id@, *question),
{
    let instructions = instructions_of(question);
    match question {
        Question::Noul(q) => {
            let (options, keys) = plan_noul(q);
            (
                Ask { instructions, options },
                Plan { id: id.to_owned(), kind: Kind::Noul, keys, legend: None },
            )
        },
        Question::Choice(q) => {
            let (options, keys) = plan_choice(q);
            (
                Ask { instructions, options },
                Plan { id: id.to_owned(), kind: Kind::Choice, keys, legend: None },
            )
        },
        Question::Score(q) => {
            let (options, keys, legend) = plan_score(q);
            (
                Ask { instructions, options },
                Plan { id: id.to_owned(), kind: Kind::Score, keys, legend: Some(legend) },
            )
        },
    }
}

/// Split a request into the text to encode and the plan to read the answers
/// back with. Question and option order is preserved throughout: it is part
/// of the prompt and can move the answer.
pub fn plan(request: &SystemOneRequest) -> (out: (Record, Vec<Plan>))
    ensures
        out.0.state@ == rendered(request.state, Seq::empty()),
        ask_texts(out.0.questions@) == Seq::new(
            request.questions@.len(),
            |i: int| ask_of(request.questions@[i].1),
        ),
        plan_views(out.1@) == Seq::new(
            request.questions@.len(),
            |i: int| plan_of(request.questions@[i].0, request.questions@[i].1),
        ),
{
    let mut questions: Vec<Ask> = Vec::new();
    let mut plans: Vec<Plan> = Vec::new();
    let n: usize = request.questions.len();
    let ghost entries = request.questions@;
    for i in 0..n
        invariant
            entries == request.questions@,
            n == entries.len(),
            questions@.len() == i,
            plans@.len() == i,
            forall|j: int| 0 <= j < i ==> (#[trigger] questions@[j])@ == ask_of(entries[j].1),
            forall|j: int|
                0 <= j < i ==> (#[trigger] plans@[j])@ == plan_of(entries[j].0, entries[j].1),
    {
        let (ask, plan) = plan_question(
            request.questions.key_at(i),
            request.questions.value_at(i),
        );
        questions.push(ask);
        plans.push(plan);
    }
    assert(ask_texts(questions@) =~= Seq::new(entries.len(), |i: int| ask_of(entries[i].1)));
    assert(plan_views(plans@) =~= Seq::new(
        entries.len(),
        |i: int| plan_of(entries[i].0, entries[i].1),
    ));
    (Record { state: render(&request.state), questions }, plans)
}

/// A plan has a key for every option of its question.
pub proof fn law_a_plan_has_a_key_for_every_option(id: Seq<char>, q: Question)
    ensures
        plan_of(id, q).keys.len() == ask_of(q).options.len(),
        q is Noul ==> ask_of(q).options.len() == 2,
{
}

/// Option order is part of the prompt: the options of a choice are read in the
/// order in which they were added, each under its own name.
pub proof fn law_choice_options_keep_their_order(q: Choice, i: int)
    requires
        0 <= i < q.criteria@.len(),
    ensures
        keys_of(Question::Choice(q))[i] == q.criteria@[i].0,
        options_of(Question::Choice(q))[i] == option_chars(
            q.criteria@[i].0,
            types::chars(q.criteria@[i].1),
        ),
        text::begins_with(options_of(Question::Choice(q))[i], q.criteria@[i].0),
{
    let name = q.criteria@[i].0;
    let whole = options_of(Question::Choice(q))[i];
    assert(whole.take(name.len() as int) == name);
}

// ---------------------------------------------------------------------------
// What the text shows of a value
// ---------------------------------------------------------------------------

/// A text with this padding behind every line break that something follows on its line:
/// every line but the first is indented.
pub open spec fn hung(t: Seq<char>, pad: Seq<char>) -> Seq<char>
    decreases t.len(),
{
    if t.len() == 0 {
        t
    } else if t.len() > 1 && t[t.len() - 2] == '\n' && t.last() != '\n' {
        hung(t.drop_last(), pad) + pad + seq![t.last()]
    } else {
        hung(t.drop_last(), pad).push(t.last())
    }
}

/// A text with this padding before every line that holds anything.
pub open spec fn indented(t: Seq<char>, pad: Seq<char>) -> Seq<char> {
    if t.len() > 0 && t[0] != '\n' {
        pad + hung(t, pad)
    } else {
        hung(t, pad)
    }
}

/// No text in this value holds a line break.
pub open spec fn single_lined(v: Value) -> bool
    decreases v,
{
    match v {
        Value::Number(n) => !value::number_chars(n).contains('\n'),
        Value::String(s) => !s@.contains('\n'),
        Value::Array(items) => items_single_lined(items@),
        Value::Object(fields) => fields_single_lined(fields@),
        _ => true,
    }
}

/// No text in these items holds a line break.
pub open spec fn items_single_lined(items: Seq<Value>) -> bool
    decreases items,
{
    items.len() == 0 || (items_single_lined(items.drop_last()) && single_lined(items.last()))
}

/// No text in these fields, and none of their names, holds a line break.
pub open spec fn fields_single_lined(fields: Seq<(String, Value)>) -> bool
    decreases fields,
{
    fields.len() == 0 || (fields_single_lined(fields.drop_last()) && single_lined(
        fields.last().1,
    ) && !fields.last().0@.contains('\n'))
}

/// Only spaces.
pub open spec fn spaces(pad: Seq<char>) -> bool {
    forall|i: int| 0 <= i < pad.len() ==> #[trigger] pad[i] == ' '
}

/// Indenting two texts, one behind the other.
proof fn lemma_hung_join(a: Seq<char>, b: Seq<char>, pad: Seq<char>)
    ensures
        hung(a + b, pad) == hung(a, pad) + if a.len() > 0 && a.last() == '\n' {
            indented(b, pad)
        } else {
            hung(b, pad)
        },
    decreases b.len(),
{
    if b.len() == 0 {
        assert(a + b =~= a);
        assert(hung(a, pad) + b =~= hung(a, pad));
    } else {
        let fewer = b.drop_last();
        lemma_hung_join(a, fewer, pad);
        assert((a + b).drop_last() =~= a + fewer);
        let whole = hung(a + b, pad);
        if b.len() == 1 {
            assert(fewer =~= Seq::<char>::empty());
            assert(hung(fewer, pad) =~= Seq::<char>::empty());
            assert(hung(b, pad) =~= b);
            if a.len() > 0 && a.last() == '\n' {
                assert(whole =~= hung(a, pad) + indented(b, pad));
            } else {
                assert(whole =~= hung(a, pad) + hung(b, pad));
            }
        } else {
            assert((a + b)[(a + b).len() - 2] == b[b.len() - 2]);
            assert(fewer[0] == b[0]);
            if a.len() > 0 && a.last() == '\n' {
                assert(whole =~= hung(a, pad) + indented(b, pad));
            } else {
                assert(whole =~= hung(a, pad) + hung(b, pad));
            }
        }
    }
}

/// A text of one line has nothing to indent behind it.
proof fn lemma_hung_line(t: Seq<char>, pad: Seq<char>)
    requires
        !t.contains('\n'),
    ensures
        hung(t, pad) == t,
    decreases t.len(),
{
    if t.len() > 0 {
        let fewer = t.drop_last();
        if fewer.contains('\n') {
            let i = choose|i: int| 0 <= i < fewer.len() && fewer[i] == '\n';
            assert(t[i] == '\n');
        }
        lemma_hung_line(fewer, pad);
        if t.len() > 1 {
            assert(t.contains(t[t.len() - 2]));
        }
        assert(hung(t, pad) =~= t);
    }
}

/// Indenting twice is indenting by both.
proof fn lemma_hung_twice(t: Seq<char>, inner: Seq<char>, outer: Seq<char>)
    requires
        !inner.contains('\n'),
        !outer.contains('\n'),
    ensures
        hung(hung(t, inner), outer) == hung(t, outer + inner),
        indented(indented(t, inner), outer) == indented(t, outer + inner),
        t.len() > 0 ==> hung(t, inner).len() > 0 && hung(t, inner)[0] == t[0] && hung(
            t,
            inner,
        ).last() == t.last(),
    decreases t.len(),
{
    if t.len() > 0 {
        let fewer = t.drop_last();
        let c = seq![t.last()];
        let before = hung(fewer, inner);
        lemma_hung_twice(fewer, inner, outer);
        lemma_hung_line(inner, outer);
        if t.len() > 1 && t[t.len() - 2] == '\n' && t.last() != '\n' {
            let more = inner + c;
            assert(hung(t, inner) =~= before + more);
            lemma_hung_join(before, more, outer);
            assert(fewer.last() == '\n');
            assert(!more.contains('\n')) by {
                if more.contains('\n') {
                    let i = choose|i: int| 0 <= i < more.len() && more[i] == '\n';
                    assert(i < inner.len());
                    assert(inner[i] == '\n');
                }
            }
            lemma_hung_line(more, outer);
            assert(more[0] != '\n') by {
                assert(more.contains(more[0]));
            }
            assert(hung(hung(t, inner), outer) =~= hung(fewer, outer + inner) + (outer + inner)
                + c);
        } else {
            assert(hung(t, inner) =~= before + c);
            lemma_hung_join(before, c, outer);
            assert(c.drop_last() =~= Seq::<char>::empty());
            assert(hung(c.drop_last(), outer) =~= Seq::<char>::empty());
            assert(hung(c, outer) =~= c);
            if t.len() > 1 && t[t.len() - 2] == '\n' {
                assert(fewer.last() == '\n');
                assert(indented(c, outer) =~= c);
            } else if t.len() > 1 {
                assert(fewer.last() == t[t.len() - 2]);
            } else {
                assert(before =~= Seq::<char>::empty());
            }
            assert(hung(hung(t, inner), outer) =~= hung(t, outer + inner));
        }
        let once = indented(t, inner);
        if t[0] != '\n' {
            lemma_hung_join(inner, hung(t, inner), outer);
            if inner.len() > 0 {
                assert(inner.contains(inner[0]));
                assert(inner.contains(inner.last()));
                assert(once[0] == inner[0]);
            } else {
                assert(once =~= hung(t, inner));
            }
            assert(indented(once, outer) =~= indented(t, outer + inner));
        }
    } else {
        assert(hung(t, inner) =~= t);
        assert(hung(t, outer + inner) =~= t);
    }
}

/// The first line of this text holds something that is no white space.
pub open spec fn led(t: Seq<char>) -> bool
    decreases t.len(),
{
    t.len() > 0 && t[0] != '\n' && (!text::white_space(t[0]) || led(t.drop_first()))
}

proof fn lemma_led(a: Seq<char>, b: Seq<char>, c: Seq<char>)
    requires
        !a.contains('\n'),
        led(b),
    ensures
        led(a + b + c),
    decreases a.len(), b.len(),
{
    let whole = a + b + c;
    if a.len() > 0 {
        assert(a.contains(a[0]));
        let fewer = a.drop_first();
        if fewer.contains('\n') {
            let i = choose|i: int| 0 <= i < fewer.len() && fewer[i] == '\n';
            assert(a[i + 1] == '\n');
        }
        lemma_led(fewer, b, c);
        assert(whole.drop_first() =~= fewer + b + c);
    } else if text::white_space(b[0]) {
        lemma_led(a, b.drop_first(), c);
        assert(whole.drop_first() =~= a + b.drop_first() + c);
    }
}

/// The white space a text begins with goes first, whatever is indented behind it.
proof fn lemma_trim_hung(t: Seq<char>, pad: Seq<char>)
    requires
        led(t),
        !pad.contains('\n'),
    ensures
        text::trimmed_start(hung(t, pad)) == hung(text::trimmed_start(t), pad),
    decreases t.len(),
{
    lemma_hung_twice(t, pad, pad);
    if text::white_space(t[0]) {
        let c = seq![t[0]];
        let rest = t.drop_first();
        assert(c + rest =~= t);
        lemma_hung_join(c, rest, pad);
        assert(!c.contains('\n'));
        lemma_hung_line(c, pad);
        lemma_trim_hung(rest, pad);
        assert((c + hung(rest, pad)).drop_first() =~= hung(rest, pad));
    }
}

proof fn lemma_trim_spaces(pad: Seq<char>, t: Seq<char>)
    requires
        spaces(pad),
    ensures
        text::trimmed_start(pad + t) == text::trimmed_start(t),
    decreases pad.len(),
{
    if pad.len() > 0 {
        let fewer = pad.drop_first();
        assert forall|i: int| 0 <= i < fewer.len() implies #[trigger] fewer[i] == ' ' by {
            assert(pad[i + 1] == ' ');
        }
        lemma_trim_spaces(fewer, t);
        assert(pad[0] == ' ');
        assert((pad + t).drop_first() =~= fewer + t);
    } else {
        assert(pad + t =~= t);
    }
}

proof fn lemma_trim_line(t: Seq<char>)
    requires
        !t.contains('\n'),
    ensures
        !text::trimmed_start(t).contains('\n'),
    decreases t.len(),
{
    if t.len() > 0 && text::white_space(t[0]) {
        let rest = t.drop_first();
        if rest.contains('\n') {
            let i = choose|i: int| 0 <= i < rest.len() && rest[i] == '\n';
            assert(t[i + 1] == '\n');
        }
        lemma_trim_line(rest);
    }
}

proof fn lemma_spaces(pad: Seq<char>)
    requires
        spaces(pad),
    ensures
        !pad.contains('\n'),
        !"  "@.contains('\n'),
        spaces("  "@),
        spaces(pad + "  "@),
        !(pad + "  "@).contains('\n'),
        Seq::<char>::empty() + "  "@ == "  "@,
        "  "@ == seq![' ', ' '],
{
    reveal_strlit("  ");
    assert("  "@ =~= seq![' ', ' ']);
    assert(Seq::<char>::empty() + "  "@ =~= "  "@);
    let more = pad + "  "@;
    assert forall|i: int| 0 <= i < more.len() implies #[trigger] more[i] == ' ' by {
        if i < pad.len() {
            assert(pad[i] == ' ');
        }
    }
}

proof fn lemma_value_lines(v: Value, pad: Seq<char>)
    requires
        single_lined(v),
        spaces(pad),
    ensures
        v.nested() ==> rendered(v, pad) == indented(rendered(v, Seq::empty()), pad) && (rendered(
            v,
            Seq::empty(),
        ).len() == 0 || led(rendered(v, Seq::empty()))),
        !v.nested() ==> rendered(v, pad) == rendered(v, Seq::empty()) && !rendered(
            v,
            Seq::empty(),
        ).contains('\n'),
    decreases v, 0int,
{
    match v {
        Value::Array(items) => {
            lemma_item_lines(items@, pad);
        },
        Value::Object(fields) => {
            lemma_field_lines(fields@, pad);
        },
        Value::Bool(_) => {
            reveal_strlit("True");
            reveal_strlit("False");
        },
        _ => {},
    }
}

/// An item's line: what the item renders as by itself, its later lines two spaces deeper.
proof fn lemma_item_line(item: Value, pad: Seq<char>)
    requires
        single_lined(item),
        spaces(pad),
    ensures
        text::trimmed_start(rendered(item, pad + "  "@)) == hung(
            text::trimmed_start(rendered(item, Seq::empty())),
            pad + "  "@,
        ),
    decreases item, 1int,
{
    lemma_spaces(pad);
    let deeper = pad + "  "@;
    let r = rendered(item, Seq::empty());
    lemma_value_lines(item, deeper);
    if item.nested() {
        if r.len() > 0 {
            lemma_trim_spaces(deeper, hung(r, deeper));
            lemma_trim_hung(r, deeper);
        }
    } else {
        lemma_trim_line(r);
        lemma_hung_line(text::trimmed_start(r), deeper);
    }
}

proof fn lemma_item_lines(items: Seq<Value>, pad: Seq<char>)
    requires
        items_single_lined(items),
        spaces(pad),
    ensures
        text::joined(item_lines(items, pad), "\n"@) == indented(
            text::joined(item_lines(items, Seq::empty()), "\n"@),
            pad,
        ),
        items.len() > 0 ==> led(text::joined(item_lines(items, Seq::empty()), "\n"@)),
    decreases items, 0int,
{
    let none = Seq::<char>::empty();
    if items.len() > 0 {
        let fewer = items.drop_last();
        let item = items.last();
        lemma_item_lines(fewer, pad);
        lemma_item_line(item, pad);
        lemma_item_line(item, none);
        lemma_spaces(pad);
        let x = text::trimmed_start(rendered(item, none));
        let line = none + "- "@ + hung(x, "  "@);
        let there = pad + "- "@ + hung(x, pad + "  "@);
        lemma_hung_twice(x, "  "@, pad);
        reveal_strlit("- ");
        assert(!"- "@.contains('\n'));
        lemma_hung_line("- "@, pad);
        lemma_hung_join("- "@, hung(x, "  "@), pad);
        assert(line =~= "- "@ + hung(x, "  "@));
        assert(indented(line, pad) =~= there);
        assert(led(line));
        text::lemma_joined_push(item_lines(fewer, pad), there, "\n"@);
        text::lemma_joined_push(item_lines(fewer, none), line, "\n"@);
        lemma_joined_lines(
            text::joined(item_lines(fewer, none), "\n"@),
            fewer.len() == 0,
            line,
            pad,
        );
        lemma_lines_len(items, pad);
        lemma_lines_len(fewer, pad);
        lemma_lines_len(fewer, none);
        if fewer.len() == 0 {
            assert(none + line =~= line);
        }
    }
}

proof fn lemma_lines_len(items: Seq<Value>, pad: Seq<char>)
    ensures
        item_lines(items, pad).len() == items.len(),
    decreases items.len(),
{
    if items.len() > 0 {
        lemma_lines_len(items.drop_last(), pad);
    }
}

proof fn lemma_field_lines_len(fields: Seq<(String, Value)>, pad: Seq<char>)
    ensures
        field_lines(fields, pad).len() == fields.len(),
    decreases fields.len(),
{
    if fields.len() > 0 {
        lemma_field_lines_len(fields.drop_last(), pad);
    }
}

/// One line more below what stands there already.
proof fn lemma_joined_lines(above: Seq<char>, first: bool, line: Seq<char>, pad: Seq<char>)
    requires
        led(line),
        first ==> above.len() == 0,
        !first ==> led(above),
    ensures
        first ==> indented(above + line, pad) == indented(above, pad) + indented(line, pad),
        !first ==> indented(above + "\n"@ + line, pad) == indented(above, pad) + "\n"@ + indented(
            line,
            pad,
        ),
        !first ==> led(above + "\n"@ + line),
{
    reveal_strlit("\n");
    if first {
        assert(above + line =~= line);
        assert(indented(above, pad) =~= Seq::<char>::empty());
        assert(indented(above, pad) + indented(line, pad) =~= indented(line, pad));
    } else {
        let n = "\n"@;
        assert(n =~= seq!['\n']);
        lemma_led(Seq::empty(), above, n + line);
        assert(Seq::<char>::empty() + above + (n + line) =~= above + n + line);
        lemma_hung_join(above + n, line, pad);
        lemma_hung_join(above, n, pad);
        assert(n.drop_last() =~= Seq::<char>::empty());
        assert(hung(n.drop_last(), pad) =~= Seq::<char>::empty());
        assert(hung(n, pad) =~= n);
        assert(indented(n, pad) =~= n);
        assert(hung(above + n, pad) =~= hung(above, pad) + n);
        assert((above + n + line)[0] == above[0]);
        assert(indented(above + n + line, pad) =~= indented(above, pad) + n + indented(line, pad));
    }
}

proof fn lemma_field_lines(fields: Seq<(String, Value)>, pad: Seq<char>)
    requires
        fields_single_lined(fields),
        spaces(pad),
    ensures
        text::joined(field_lines(fields, pad), "\n"@) == indented(
            text::joined(field_lines(fields, Seq::empty()), "\n"@),
            pad,
        ),
        fields.len() > 0 ==> led(text::joined(field_lines(fields, Seq::empty()), "\n"@)),
    decreases fields, 0int,
{
    let none = Seq::<char>::empty();
    if fields.len() > 0 {
        let fewer = fields.drop_last();
        let name = fields.last().0@;
        let field = fields.last().1;
        lemma_field_lines(fewer, pad);
        lemma_spaces(pad);
        let r = rendered(field, none);
        let line = field_lines(fields, none).last();
        let there = field_lines(fields, pad).last();
        lemma_value_lines(field, "  "@);
        lemma_value_lines(field, pad + "  "@);
        lemma_field_line(name, field.nested(), r, pad);
        assert(there =~= pad + name + if field.nested() {
            ":\n"@ + indented(r, pad + "  "@)
        } else {
            ": "@ + r
        });
        assert(line =~= name + if field.nested() {
            ":\n"@ + indented(r, "  "@)
        } else {
            ": "@ + r
        });
        text::lemma_joined_push(field_lines(fewer, pad), there, "\n"@);
        text::lemma_joined_push(field_lines(fewer, none), line, "\n"@);
        lemma_joined_lines(
            text::joined(field_lines(fewer, none), "\n"@),
            fewer.len() == 0,
            line,
            pad,
        );
        lemma_field_lines_len(fields, pad);
        lemma_field_lines_len(fewer, pad);
        lemma_field_lines_len(fewer, none);
        assert(field_lines(fields, pad) =~= field_lines(fewer, pad).push(there));
        assert(field_lines(fields, none) =~= field_lines(fewer, none).push(line));
        if fewer.len() == 0 {
            assert(none + line =~= line);
        }
    }
}

/// A label with what stands behind or below it.
proof fn lemma_field_line(name: Seq<char>, nested: bool, r: Seq<char>, pad: Seq<char>)
    requires
        !name.contains('\n'),
        spaces(pad),
        !nested ==> !r.contains('\n'),
    ensures
        nested ==> indented(name + (":\n"@ + indented(r, "  "@)), pad) == pad + name + (":\n"@
            + indented(r, pad + "  "@)) && led(name + (":\n"@ + indented(r, "  "@))),
        !nested ==> indented(name + (": "@ + r), pad) == pad + name + (": "@ + r) && led(
            name + (": "@ + r),
        ),
{
    reveal_strlit(":\n");
    reveal_strlit(": ");
    lemma_spaces(pad);
    assert(led(seq![':']));
    if nested {
        let label = name + ":\n"@;
        let inner = indented(r, "  "@);
        let line = name + (":\n"@ + inner);
        lemma_led(name, seq![':'], seq!['\n'] + inner);
        assert(name + seq![':'] + (seq!['\n'] + inner) =~= line);
        assert(line =~= label + inner);
        lemma_hung_join(label, inner, pad);
        lemma_hung_twice(r, "  "@, pad);
        let named = name + seq![':'];
        assert(label =~= named + seq!['\n']);
        lemma_no_break(name, seq![':']);
        lemma_hung_line(named, pad);
        assert(label.drop_last() =~= named);
        assert(hung(label, pad) =~= label);
        assert(line[0] == named[0]);
        assert(named.contains(named[0]));
        assert(indented(line, pad) =~= pad + name + (":\n"@ + indented(r, pad + "  "@)));
    } else {
        let line = name + (": "@ + r);
        lemma_led(name, seq![':'], seq![' '] + r);
        assert(name + seq![':'] + (seq![' '] + r) =~= line);
        lemma_no_break(": "@, r);
        lemma_no_break(name, ": "@ + r);
        lemma_hung_line(line, pad);
        assert(line.contains(line[0]));
        assert(indented(line, pad) =~= pad + name + (": "@ + r));
    }
}

proof fn lemma_no_break(a: Seq<char>, b: Seq<char>)
    requires
        !a.contains('\n'),
        !b.contains('\n'),
    ensures
        !(a + b).contains('\n'),
{
    if (a + b).contains('\n') {
        let i = choose|i: int| 0 <= i < (a + b).len() && (a + b)[i] == '\n';
        if i < a.len() {
            assert(a[i] == '\n');
        } else {
            assert(b[i - a.len()] == '\n');
        }
    }
}

/// Every line break is followed by the padding, unless the line holds nothing.
proof fn lemma_hung_breaks(t: Seq<char>, pad: Seq<char>)
    requires
        spaces(pad),
    ensures
        forall|i: int|
            1 <= i < hung(t, pad).len() && hung(t, pad)[i - 1] == '\n' && #[trigger] hung(t, pad)[i]
                != '\n' ==> i + pad.len() <= hung(t, pad).len() && hung(t, pad).subrange(
                i,
                i + pad.len(),
            ) == pad,
    decreases t.len(),
{
    if t.len() > 0 {
        let fewer = t.drop_last();
        let before = hung(fewer, pad);
        let out = hung(t, pad);
        lemma_hung_breaks(fewer, pad);
        lemma_spaces(pad);
        lemma_hung_twice(fewer, pad, pad);
        assert forall|i: int|
            1 <= i < out.len() && out[i - 1] == '\n' && #[trigger] out[i] != '\n' implies i
            + pad.len() <= out.len() && out.subrange(i, i + pad.len()) == pad by {
            if i < before.len() {
                assert(before[i] != '\n');
                assert(before[i - 1] == '\n');
                assert(out.subrange(i, i + pad.len()) =~= before.subrange(i, i + pad.len()));
            } else if i == before.len() {
                assert(before.last() == '\n');
                assert(fewer.last() == '\n');
                assert(t.len() > 1 && t[t.len() - 2] == '\n');
                if t.last() == '\n' {
                    assert(out[i] == '\n');
                }
                assert(out.subrange(i, i + pad.len()) =~= pad);
            } else {
                assert(out[i - 1] == pad[i - 1 - before.len()]);
                assert(pad.contains(pad[i - 1 - before.len()]));
            }
        }
    }
}

/// The depth of every line can be read off the text: rendering behind a padding is rendering
/// without one, with the padding put before every line that holds anything.
pub proof fn law_padding_goes_before_every_line(v: Value, pad: Seq<char>)
    requires
        v is Array || v is Object,
        single_lined(v),
        forall|i: int| 0 <= i < pad.len() ==> #[trigger] pad[i] == ' ',
    ensures
        rendered(v, pad) == indented(rendered(v, Seq::empty()), pad),
{
    lemma_value_lines(v, pad);
}

/// Each line of an array or object that is rendered behind a padding begins with that padding.
pub proof fn law_every_line_begins_with_its_padding(v: Value, pad: Seq<char>, i: int)
    requires
        v is Array || v is Object,
        single_lined(v),
        forall|i: int| 0 <= i < pad.len() ==> #[trigger] pad[i] == ' ',
        0 <= i < rendered(v, pad).len(),
        i == 0 || rendered(v, pad)[i - 1] == '\n',
        rendered(v, pad)[i] != '\n',
    ensures
        i + pad.len() <= rendered(v, pad).len(),
        rendered(v, pad).subrange(i, i + pad.len()) == pad,
{
    let r = rendered(v, Seq::empty());
    let out = rendered(v, pad);
    lemma_value_lines(v, pad);
    lemma_hung_breaks(r, pad);
    lemma_hung_twice(r, pad, pad);
    lemma_spaces(pad);
    if r[0] != '\n' {
        let deep = hung(r, pad);
        assert(out =~= pad + deep);
        if i == 0 {
            assert(out.subrange(0, pad.len() as int) =~= pad);
        } else if i <= pad.len() {
            assert(out[i - 1] == pad[i - 1]);
            assert(pad.contains(pad[i - 1]));
        } else {
            let k = i - pad.len();
            assert(deep[k - 1] == '\n' && deep[k] != '\n');
            assert(out.subrange(i, i + pad.len()) =~= deep.subrange(k, k + pad.len()));
        }
    }
}

/// An object renders field by field, in order, one below the other. A field that is an array or
/// an object stands below its label, each of its lines two spaces deeper than it renders by
/// itself; any other field stands behind its label.
pub proof fn law_a_field_stands_below_its_label(
    all: Vec<(String, Value)>,
    before: Vec<(String, Value)>,
    name: String,
    field: Value,
    pad: Seq<char>,
)
    requires
        all@ == before@.push((name, field)),
        single_lined(field),
        forall|i: int| 0 <= i < pad.len() ==> #[trigger] pad[i] == ' ',
    ensures
        rendered(Value::Object(all), pad) == rendered(Value::Object(before), pad) + (if before@.len()
            == 0 {
            Seq::empty()
        } else {
            seq!['\n']
        }) + pad + name@ + (if field is Array || field is Object {
            seq![':', '\n'] + indented(rendered(field, Seq::empty()), pad + seq![' ', ' '])
        } else {
            seq![':', ' '] + rendered(field, Seq::empty())
        }),
{
    lemma_spaces(pad);
    lemma_value_lines(field, pad + "  "@);
    reveal_strlit("\n");
    reveal_strlit(":\n");
    reveal_strlit(": ");
    assert("\n"@ =~= seq!['\n']);
    assert(":\n"@ =~= seq![':', '\n']);
    assert(": "@ =~= seq![':', ' ']);
    let lines = field_lines(before@, pad);
    assert(all@.drop_last() =~= before@);
    let line = field_lines(all@, pad).last();
    assert(field_lines(all@, pad) =~= lines.push(line));
    text::lemma_joined_push(lines, line, "\n"@);
    lemma_field_lines_len(before@, pad);
    assert(rendered(Value::Object(all), pad) =~= rendered(Value::Object(before), pad) + (
    if before@.len() == 0 {
        Seq::empty()
    } else {
        seq!['\n']
    }) + line);
    assert(line =~= pad + name@ + (if field is Array || field is Object {
        seq![':', '\n'] + indented(rendered(field, Seq::empty()), pad + seq![' ', ' '])
    } else {
        seq![':', ' '] + rendered(field, Seq::empty())
    }));
    assert(rendered(Value::Object(all), pad) =~= rendered(Value::Object(before), pad) + (
    if before@.len() == 0 {
        Seq::empty()
    } else {
        seq!['\n']
    }) + pad + name@ + (if field is Array || field is Object {
        seq![':', '\n'] + indented(rendered(field, Seq::empty()), pad + seq![' ', ' '])
    } else {
        seq![':', ' '] + rendered(field, Seq::empty())
    }));
}

/// An array renders item by item, in order, one below the other: a dash, then what the item
/// renders as by itself, its later lines two spaces deeper so that they stand below its first.
pub proof fn law_an_item_hangs_behind_its_dash(
    all: Vec<Value>,
    before: Vec<Value>,
    item: Value,
    pad: Seq<char>,
)
    requires
        all@ == before@.push(item),
        single_lined(item),
        forall|i: int| 0 <= i < pad.len() ==> #[trigger] pad[i] == ' ',
    ensures
        rendered(Value::Array(all), pad) == rendered(Value::Array(before), pad) + (if before@.len()
            == 0 {
            Seq::empty()
        } else {
            seq!['\n']
        }) + pad + seq!['-', ' '] + hung(
            text::trimmed_start(rendered(item, Seq::empty())),
            pad + seq![' ', ' '],
        ),
{
    lemma_spaces(pad);
    lemma_item_line(item, pad);
    reveal_strlit("\n");
    reveal_strlit("- ");
    assert("\n"@ =~= seq!['\n']);
    assert("- "@ =~= seq!['-', ' ']);
    let lines = item_lines(before@, pad);
    assert(all@.drop_last() =~= before@);
    let line = item_lines(all@, pad).last();
    assert(item_lines(all@, pad) =~= lines.push(line));
    text::lemma_joined_push(lines, line, "\n"@);
    lemma_lines_len(before@, pad);
    assert(rendered(Value::Array(all), pad) =~= rendered(Value::Array(before), pad) + (
    if before@.len() == 0 {
        Seq::empty()
    } else {
        seq!['\n']
    }) + pad + seq!['-', ' '] + hung(
        text::trimmed_start(rendered(item, Seq::empty())),
        pad + seq![' ', ' '],
    ));
}

/// What holds nothing else renders as itself wherever it stands: a text and a number as written,
/// a truth value by its name with a capital, and null, an empty array and an empty object as
/// nothing.
pub proof fn law_scalars_render_as_themselves(v: Value, pad: Seq<char>)
    ensures
        v matches Value::String(s) ==> rendered(v, pad) == s@,
        v matches Value::Number(n) ==> rendered(v, pad) == value::number_chars(n),
        v == Value::Bool(true) ==> rendered(v, pad) == seq!['T', 'r', 'u', 'e'],
        v == Value::Bool(false) ==> rendered(v, pad) == seq!['F', 'a', 'l', 's', 'e'],
        v is Null ==> rendered(v, pad).len() == 0,
        v matches Value::Array(items) ==> items@.len() == 0 ==> rendered(v, pad).len() == 0,
        v matches Value::Object(fields) ==> fields@.len() == 0 ==> rendered(v, pad).len() == 0,
{
    reveal_strlit("True");
    reveal_strlit("False");
    assert("True"@ =~= seq!['T', 'r', 'u', 'e']);
    assert("False"@ =~= seq!['F', 'a', 'l', 's', 'e']);
}

/// An option is read as its name alone where it has no description, or an empty one; otherwise
/// as its name, a colon, a space and the whole description.
pub proof fn law_an_option_is_its_name_and_description(
    name: Seq<char>,
    description: Option<Seq<char>>,
)
    ensures
        description is None ==> option_chars(name, description) == name,
        description matches Some(d) ==> d.len() == 0 ==> option_chars(name, description) == name,
        description matches Some(d) ==> d.len() > 0 ==> option_chars(name, description) == name
            + seq![':', ' '] + d,
{
    reveal_strlit(": ");
    assert(": "@ =~= seq![':', ' ']);
}

/// A yes/no question is two options, no before yes, whose probabilities are reported under false
/// and true. A criterion is read behind the name of the side it speaks of.
pub proof fn law_a_yes_no_question_offers_no_before_yes(q: Noul, id: Seq<char>)
    ensures
        plan_of(id, Question::Noul(q)).kind == Kind::Noul,
        plan_of(id, Question::Noul(q)).legend is None,
        plan_of(id, Question::Noul(q)).keys == seq![
            seq!['f', 'a', 'l', 's', 'e'],
            seq!['t', 'r', 'u', 'e'],
        ],
        ask_of(Question::Noul(q)).options.len() == 2,
        q.criteria is None ==> ask_of(Question::Noul(q)).options == seq![
            seq!['n', 'o'],
            seq!['y', 'e', 's'],
        ],
        q.criteria matches Some(c) ==> {
            &&& c.no matches Some(no) ==> no@.len() > 0 ==> ask_of(Question::Noul(q)).options[0]
                == seq!['n', 'o', ':', ' '] + no@
            &&& c.yes matches Some(yes) ==> yes@.len() > 0 ==> ask_of(Question::Noul(q)).options[1]
                == seq!['y', 'e', 's', ':', ' '] + yes@
            &&& c.no is None ==> ask_of(Question::Noul(q)).options[0] == seq!['n', 'o']
            &&& c.yes is None ==> ask_of(Question::Noul(q)).options[1] == seq!['y', 'e', 's']
        },
{
    reveal_strlit("no");
    reveal_strlit("yes");
    reveal_strlit("false");
    reveal_strlit("true");
    reveal_strlit(": ");
    assert("no"@ =~= seq!['n', 'o']);
    assert("yes"@ =~= seq!['y', 'e', 's']);
    assert("false"@ =~= seq!['f', 'a', 'l', 's', 'e']);
    assert("true"@ =~= seq!['t', 'r', 'u', 'e']);
    assert(keys_of(Question::Noul(q)) =~= seq![
        seq!['f', 'a', 'l', 's', 'e'],
        seq!['t', 'r', 'u', 'e'],
    ]);
    if q.criteria is None {
        assert(options_of(Question::Noul(q)) =~= seq![seq!['n', 'o'], seq!['y', 'e', 's']]);
    } else {
        let c = q.criteria->Some_0;
        if c.no is Some {
            let no = c.no->Some_0@;
            assert("no"@ + ": "@ + no =~= seq!['n', 'o', ':', ' '] + no);
        }
        if c.yes is Some {
            let yes = c.yes->Some_0@;
            assert("yes"@ + ": "@ + yes =~= seq!['y', 'e', 's', ':', ' '] + yes);
        }
    }
}

/// A choice is read under the names of its options, in the order in which they were given, each
/// with its description.
pub proof fn law_a_choice_offers_every_option_by_name(q: Choice, id: Seq<char>)
    ensures
        plan_of(id, Question::Choice(q)).kind == Kind::Choice,
        plan_of(id, Question::Choice(q)).legend is None,
        plan_of(id, Question::Choice(q)).keys.len() == q.criteria@.len(),
        ask_of(Question::Choice(q)).options.len() == q.criteria@.len(),
        forall|i: int|
            #![trigger plan_of(id, Question::Choice(q)).keys[i]]
            #![trigger ask_of(Question::Choice(q)).options[i]]
            0 <= i < q.criteria@.len() ==> {
                let (name, description) = q.criteria@[i];
                &&& plan_of(id, Question::Choice(q)).keys[i] == name
                &&& description is None ==> ask_of(Question::Choice(q)).options[i] == name
                &&& description matches Some(d) ==> ask_of(Question::Choice(q)).options[i]
                    == if d@.len() == 0 {
                    name
                } else {
                    name + seq![':', ' '] + d@
                }
            },
{
    reveal_strlit(": ");
    assert(": "@ =~= seq![':', ' ']);
}

/// A score is read as its levels' descriptions alone, lowest first; level `i` is reported under
/// the number `i`, and the legend gives each number its description.
pub proof fn law_a_score_numbers_its_levels(q: Score, id: Seq<char>)
    ensures
        plan_of(id, Question::Score(q)).kind == Kind::Score,
        plan_of(id, Question::Score(q)).keys.len() == q.criteria@.len(),
        ask_of(Question::Score(q)).options.len() == q.criteria@.len(),
        plan_of(id, Question::Score(q)).legend matches Some(legend) && legend.len()
            == q.criteria@.len() && forall|i: int|
            #![trigger legend[i]]
            0 <= i < legend.len() ==> legend[i].0 == plan_of(id, Question::Score(q)).keys[i]
                && legend[i].1 == q.criteria@[i]@,
        forall|i: int|
            0 <= i < q.criteria@.len() ==> #[trigger] ask_of(Question::Score(q)).options[i]
                == q.criteria@[i]@,
        forall|i: int|
            0 <= i < q.criteria@.len() ==> #[trigger] plan_of(id, Question::Score(q)).keys[i]
                == text::decimal(i as nat),
{
}

/// What a question asks is its own instructions, rendered as the state is; a question without
/// instructions asks nothing more than its options. Its answer is read back under its own id.
pub proof fn law_a_question_asks_its_own_instructions(q: Question, id: Seq<char>)
    ensures
        q matches Question::Noul(n) ==> ask_of(q).instructions == match n.instructions {
            Some(v) => rendered(v, Seq::empty()),
            None => Seq::empty(),
        },
        q matches Question::Choice(n) ==> ask_of(q).instructions == match n.instructions {
            Some(v) => rendered(v, Seq::empty()),
            None => Seq::empty(),
        },
        q matches Question::Score(n) ==> ask_of(q).instructions == match n.instructions {
            Some(v) => rendered(v, Seq::empty()),
            None => Seq::empty(),
        },
        plan_of(id, q).id == id,
{
}

/// A question and its plan are seen whole: every text of them, in order.
pub proof fn law_a_plan_is_seen_whole(ask: Ask, plan: Plan, i: int)
    ensures
        ask@.instructions == ask.instructions@,
        ask@.options.len() == ask.options@.len(),
        0 <= i < ask.options@.len() ==> ask@.options[i] == ask.options@[i]@,
        plan@.id == plan.id@,
        plan@.kind == plan.kind,
        plan@.keys.len() == plan.keys@.len(),
        0 <= i < plan.keys@.len() ==> plan@.keys[i] == plan.keys@[i]@,
        plan.legend is None <==> plan@.legend is None,
        plan.legend matches Some(legend) ==> plan@.legend->Some_0.len() == legend@.len() && (0 <= i
            < legend@.len() ==> plan@.legend->Some_0[i] == (legend@[i].0, legend@[i].1@)),
{
}

/// Questions and plans are seen one by one, in order.
pub proof fn law_questions_are_seen_in_order(asks: Seq<Ask>, plans: Seq<Plan>, i: int)
    ensures
        ask_texts(asks).len() == asks.len(),
        plan_views(plans).len() == plans.len(),
        0 <= i < asks.len() ==> ask_texts(asks)[i] == asks[i]@,
        0 <= i < plans.len() ==> plan_views(plans)[i] == plans[i]@,
{
}

/// A question is of the kind it was asked as.
pub proof fn law_a_question_has_its_own_kind(q: Question)
    ensures
        q is Noul <==> kind_of(q) == Kind::Noul,
        q is Choice <==> kind_of(q) == Kind::Choice,
        q is Score <==> kind_of(q) == Kind::Score,
{
}

/// Whatever texts a value holds, what it holds goes two spaces deeper than itself: one field or
/// item more goes below the others, a nested field rendered behind two spaces more of padding
/// below its label, and an item behind its dash, without the white space it begins with.
pub proof fn law_what_is_held_goes_two_spaces_deeper(
    fields: Vec<(String, Value)>,
    fewer: Vec<(String, Value)>,
    name: String,
    items: Vec<Value>,
    before: Vec<Value>,
    v: Value,
    pad: Seq<char>,
)
    requires
        fields@ == fewer@.push((name, v)),
        items@ == before@.push(v),
    ensures
        rendered(Value::Object(fields), pad) == rendered(Value::Object(fewer), pad) + (
        if fewer@.len() == 0 {
            Seq::empty()
        } else {
            seq!['\n']
        }) + (pad + name@ + (if v is Array || v is Object {
            seq![':', '\n'] + rendered(v, pad + seq![' ', ' '])
        } else {
            seq![':', ' '] + rendered(v, Seq::empty())
        })),
        rendered(Value::Array(items), pad) == rendered(Value::Array(before), pad) + (
        if before@.len() == 0 {
            Seq::empty()
        } else {
            seq!['\n']
        }) + (pad + seq!['-', ' '] + text::trimmed_start(rendered(v, pad + seq![' ', ' ']))),
{
    reveal_strlit("\n");
    reveal_strlit(":\n");
    reveal_strlit(": ");
    reveal_strlit("- ");
    reveal_strlit("  ");
    assert("\n"@ =~= seq!['\n']);
    assert(":\n"@ =~= seq![':', '\n']);
    assert(": "@ =~= seq![':', ' ']);
    assert("- "@ =~= seq!['-', ' ']);
    assert("  "@ =~= seq![' ', ' ']);
    let lines = field_lines(fewer@, pad);
    assert(fields@.drop_last() =~= fewer@);
    let line = field_lines(fields@, pad).last();
    assert(field_lines(fields@, pad) =~= lines.push(line));
    text::lemma_joined_push(lines, line, "\n"@);
    lemma_field_lines_len(fewer@, pad);
    assert(line =~= pad + name@ + (if v is Array || v is Object {
        seq![':', '\n'] + rendered(v, pad + seq![' ', ' '])
    } else {
        seq![':', ' '] + rendered(v, Seq::empty())
    }));
    assert(rendered(Value::Object(fields), pad) =~= rendered(Value::Object(fewer), pad) + (
    if fewer@.len() == 0 {
        Seq::empty()
    } else {
        seq!['\n']
    }) + line);
    let rows = item_lines(before@, pad);
    assert(items@.drop_last() =~= before@);
    let row = item_lines(items@, pad).last();
    assert(item_lines(items@, pad) =~= rows.push(row));
    text::lemma_joined_push(rows, row, "\n"@);
    lemma_lines_len(before@, pad);
    assert(rendered(Value::Array(items), pad) =~= rendered(Value::Array(before), pad) + (
    if before@.len() == 0 {
        Seq::empty()
    } else {
        seq!['\n']
    }) + row);
}

} // verus!
