//! The token layout of one request: `<state>`, then one branch per question.
//!
//! The layout is the whole interface to the model:
//!
//! ```text
//! <state> ...state...
//! <q> instructions <opt> option 1 </opt> <opt> option 2 </opt> ... <decide>
//! <q> instructions <opt> option 1 </opt> ... <decide>
//! ```
//!
//! A token may read the state and its own question, nothing else: that is what
//! keeps the questions from reading each other, and it is why a backend needs
//! [`Pass::attends`](crate::local::Pass) rather than a plain causal mask. Each
//! branch's position ids restart just after the state, so the state is processed
//! once however many questions come with it.

use vstd::prelude::*;

use crate::error::Error;
use crate::text;

verus! {

/// Kev's first delimiter; [`SPECIAL`] holds all five in layout order: state,
/// question, option, end-of-option, decide.
///
/// They are rarely-used Qwen special tokens rather than new ones, so no
/// embedding rows have to be added: the LoRA adapter gives them their meaning.
/// A backend must map these to the ids of its own tokenizer.
pub const STATE: &'static str = "<|fim_prefix|>";

/// Opens one question's branch. See [`STATE`].
pub const QUESTION: &'static str = "<|fim_middle|>";

/// Opens one option span. See [`STATE`].
pub const OPTION: &'static str = "<|box_start|>";

/// Closes one option span; its hidden state is what the pointer head scores.
pub const OPTION_END: &'static str = "<|box_end|>";

/// The position the pointer head compares the options against.
pub const DECIDE: &'static str = "<|fim_suffix|>";

/// All five delimiters in layout order.
pub const SPECIAL: [&'static str; 5] = [STATE, QUESTION, OPTION, OPTION_END, DECIDE];

/// The token ids a backend's tokenizer uses for [`SPECIAL`].
#[derive(Debug, Clone, Copy)]
pub struct Delimiters {
    pub state: u32,
    pub question: u32,
    pub option: u32,
    pub option_end: u32,
    pub decide: u32,
}

/// How many tokens a state and a single question branch may take.
///
/// [`Limits::serving`] is what a server uses. Training used 384 state tokens
/// and 1024 for state plus one question, so longer inputs are allowed but were
/// never trained on.
#[derive(Debug, Clone, Copy)]
pub struct Limits {
    /// The state is truncated to this many tokens, delimiter included.
    pub max_state: usize,
    /// A state plus one question branch may not exceed this.
    pub max_branch: usize,
}

impl Limits {
    /// Room for a delimiter and one token of state, and for a row at least as
    /// long as a state.
    pub open spec fn usable(self) -> bool {
        self.max_state >= 2 && self.max_branch >= self.max_state
    }

    /// The serving limits: 8192 tokens for the state, 8192 for state plus one
    /// question branch.
    pub fn serving() -> (limits: Self)
        ensures
            limits.max_state == 8192,
            limits.max_branch == 8192,
            limits.usable(),
    {
        Self { max_state: 8192, max_branch: 8192 }
    }

    /// The context the released checkpoints were trained on: 384 state tokens,
    /// 1024 for state plus one branch.
    pub fn training() -> (limits: Self)
        ensures
            limits.max_state == 384,
            limits.max_branch == 1024,
            limits.usable(),
    {
        Self { max_state: 384, max_branch: 1024 }
    }
}

// ---------------------------------------------------------------------------
// Caller text
// ---------------------------------------------------------------------------

/// The characters a special token's name is made of.
pub open spec fn name_char(c: char) -> bool {
    ||| '0' <= c <= '9'
    ||| 'A' <= c <= 'Z'
    ||| 'a' <= c <= 'z'
    ||| c == '_'
}

/// A `<|name|>` stands at `at` in the text, with a name of `n` characters.
pub open spec fn token_at(s: Seq<char>, at: int, n: int) -> bool {
    &&& 0 <= at
    &&& 0 < n
    &&& at + n + 4 <= s.len()
    &&& s[at] == '<'
    &&& s[at + 1] == '|'
    &&& forall|k: int| at + 2 <= k < at + 2 + n ==> name_char(#[trigger] s[k])
    &&& s[at + 2 + n] == '|'
    &&& s[at + 3 + n] == '>'
}

/// The character at `j` is one of the two bars of some `<|name|>`.
pub open spec fn bar_at(s: Seq<char>, j: int) -> bool {
    exists|at: int, n: int| #[trigger] token_at(s, at, n) && (j == at + 1 || j == at + 2 + n)
}

/// Caller text with every `<|name|>` written `<¦name¦>`: its bars are broken,
/// and every other character stays as it is.
pub open spec fn escaped(s: Seq<char>) -> Seq<char> {
    Seq::new(
        s.len(),
        |j: int|
            if bar_at(s, j) {
                '\u{a6}'
            } else {
                s[j]
            },
    )
}

/// No text with a special token in it comes out of the escaping: caller text
/// cannot forge a delimiter.
pub proof fn law_escaped_text_holds_no_special_token(s: Seq<char>, at: int, n: int)
    ensures
        !token_at(escaped(s), at, n),
{
    let e = escaped(s);
    if token_at(e, at, n) {
        assert(forall|j: int| 0 <= j < s.len() && e[j] != '\u{a6}' ==> s[j] == e[j]);
        assert forall|k: int| at + 2 <= k < at + 2 + n implies name_char(#[trigger] s[k]) by {
            assert(name_char(e[k]));
        }
        assert(token_at(s, at, n));
        assert(bar_at(s, at + 1));
        assert(e[at + 1] == '\u{a6}');
    }
}

/// Text without a special token is left alone.
pub proof fn law_plain_text_is_not_escaped(s: Seq<char>)
    requires
        forall|at: int, n: int| !token_at(s, at, n),
    ensures
        escaped(s) == s,
{
    assert(escaped(s) =~= s);
}

/// Escaping twice is escaping once.
pub proof fn law_escaping_is_idempotent(s: Seq<char>)
    ensures
        escaped(escaped(s)) == escaped(s),
{
    assert forall|at: int, n: int| !token_at(escaped(s), at, n) by {
        law_escaped_text_holds_no_special_token(s, at, n);
    }
    law_plain_text_is_not_escaped(escaped(s));
}

/// All five delimiters are special tokens, so none of them survives the
/// escaping: an escaped text holds no delimiter at any place.
pub proof fn law_escaped_text_holds_no_delimiter(s: Seq<char>, at: int, which: int)
    requires
        0 <= which < 5,
        0 <= at,
        at + SPECIAL@[which]@.len() <= s.len(),
    ensures
        escaped(s).subrange(at, at + SPECIAL@[which]@.len()) != SPECIAL@[which]@,
{
    reveal_strlit("<|fim_prefix|>");
    reveal_strlit("<|fim_middle|>");
    reveal_strlit("<|box_start|>");
    reveal_strlit("<|box_end|>");
    reveal_strlit("<|fim_suffix|>");
    let token = SPECIAL@[which]@;
    let e = escaped(s);
    let n = token.len() - 4;
    assert(token_at(token, 0, n));
    if e.subrange(at, at + token.len()) == token {
        assert forall|k: int| at + 2 <= k < at + 2 + n implies name_char(#[trigger] e[k]) by {
            assert(e[k] == token[k - at]);
        }
        assert(e[at] == token[0]);
        assert(e[at + 1] == token[1]);
        assert(e[at + 2 + n] == token[2 + n]);
        assert(e[at + 3 + n] == token[3 + n]);
        assert(token_at(e, at, n));
        law_escaped_text_holds_no_special_token(s, at, n);
    }
}

/// Whether a special token's name may hold this character.
fn is_name_char(c: char) -> (yes: bool)
    ensures
        yes == name_char(c),
{
    ('0' <= c && c <= '9') || ('A' <= c && c <= 'Z') || ('a' <= c && c <= 'z') || c == '_'
}

/// The length of the name of a `<|name|>` starting at `at`, if there is one.
pub fn special_at(chars: &[char], at: usize) -> (name: Option<usize>)
    ensures
        name matches Some(n) ==> token_at(chars@, at as int, n as int),
        name is None ==> forall|n: int| !token_at(chars@, at as int, n),
{
    let len = chars.len();
    if at >= len || len - at < 2 || chars[at] != '<' || chars[at + 1] != '|' {
        return None;
    }
    let start: usize = at + 2;
    let mut end: usize = start;
    while end < len && is_name_char(chars[end])
        invariant
            len == chars@.len(),
            start == at + 2,
            start <= end <= len,
            forall|k: int| start <= k < end ==> name_char(#[trigger] chars@[k]),
        decreases len - end,
    {
        end += 1;
    }
    if end == start || len - end < 2 || chars[end] != '|' || chars[end + 1] != '>' {
        assert forall|n: int| !token_at(chars@, at as int, n) by {
            if token_at(chars@, at as int, n) {
                // The name ends where the run of name characters ends.
                if start + n < end {
                    assert(name_char(chars@[start + n]));
                } else if start + n > end {
                    assert(name_char(chars@[end as int]));
                }
            }
        }
        return None;
    }
    Some(end - start)
}

/// Rewrite anything that looks like a special token so caller text cannot
/// produce one.
///
/// `<|name|>` becomes `<¦name¦>`: option and question boundaries have to be
/// unforgeable, or a state could pretend to be a question.
pub fn escape_specials(caller: &str) -> (out: String)
    ensures
        out@ == escaped(caller@),
{
    let chars = text::chars_of(caller);
    let mut out = String::new();
    let mut i: usize = 0;
    while i < chars.len()
        invariant
            i <= chars@.len(),
            chars@ == caller@,
            out@.len() == i,
            forall|j: int| 0 <= j < i ==> out@[j] == escaped(chars@)[j],
            forall|at: int, n: int|
                0 <= at < i && #[trigger] token_at(chars@, at, n) ==> at + n + 4 <= i,
        decreases chars@.len() - i,
    {
        match special_at(&chars, i) {
            Some(n) => {
                let ghost s = chars@;
                let ghost before = out@;
                out.push('<');
                out.push('\u{a6}');
                let name = text::slice_text(&chars, i + 2, i + 2 + n);
                out.append(name.as_str());
                out.push('\u{a6}');
                out.push('>');
                proof {
                    assert(token_at(s, i as int, n as int));
                    assert(bar_at(s, i + 1));
                    assert(bar_at(s, i + 2 + n));
                    assert forall|j: int| 0 <= j < i + n + 4 implies out@[j] == escaped(s)[j] by {
                        if j < i {
                            assert(out@[j] == before[j]);
                        } else if j == i {
                            assert(s[j] == '<');
                            lemma_bars_are_bars(s, j);
                        } else if i + 2 <= j < i + 2 + n {
                            assert(name_char(s[j]));
                            lemma_bars_are_bars(s, j);
                        } else if j == i + 3 + n {
                            assert(s[j] == '>');
                            lemma_bars_are_bars(s, j);
                        }
                    }
                    assert forall|at: int, m: int|
                        0 <= at < i + n + 4 && #[trigger] token_at(s, at, m) implies at + m + 4
                        <= i + n + 4 by {
                        if at == i {
                            // One token has one name.
                            if m < n {
                                assert(name_char(s[i + 2 + m]));
                            } else if m > n {
                                assert(name_char(s[i + 2 + n]));
                            }
                        } else if at > i {
                            assert(s[at] == '<');
                            if i + 2 <= at < i + 2 + n {
                                assert(name_char(s[at]));
                            }
                        }
                    }
                }
                i = i + n + 4;
            },
            None => {
                let ghost before = out@;
                out.push(chars[i]);
                proof {
                    assert(!bar_at(chars@, i as int)) by {
                        if bar_at(chars@, i as int) {
                            let (at, n) = choose|at: int, n: int| #[trigger]
                                token_at(chars@, at, n) && (i == at + 1 || i == at + 2 + n);
                            assert(token_at(chars@, at, n));
                        }
                    }
                    assert forall|j: int| 0 <= j < i + 1 implies out@[j] == escaped(chars@)[j] by {
                        if j < i {
                            assert(out@[j] == before[j]);
                        }
                    }
                    assert forall|at: int, m: int|
                        0 <= at < i + 1 && #[trigger] token_at(chars@, at, m) implies at + m + 4
                        <= i + 1 by {}
                }
                i += 1;
            },
        }
    }
    assert(out@ =~= escaped(caller@));
    out
}

/// Only bars are broken.
proof fn lemma_bars_are_bars(s: Seq<char>, j: int)
    ensures
        bar_at(s, j) ==> s[j] == '|',
{
}

// ---------------------------------------------------------------------------
// The layout
// ---------------------------------------------------------------------------

/// Which part of its question a token belongs to, when the options are isolated
/// from each other.
#[derive(Debug, Clone, Copy, PartialEq, Eq, Structural)]
pub enum OptionSlot {
    /// The state, or a question's delimiter and instructions: what every option
    /// of the question may read.
    Shared,
    /// A token of this option's span, counted from zero.
    Option(u8),
    /// The question's `<decide>`, which reads every option.
    Decide,
}

/// One question in tokens.
#[derive(Debug)]
pub struct AskTokens {
    pub instructions: Vec<u32>,
    /// One token list per option, in option order.
    pub options: Vec<Vec<u32>>,
}

/// One question in tokens, as sequences.
pub struct AskView {
    pub instructions: Seq<u32>,
    pub options: Seq<Seq<u32>>,
}

/// The token lists of a list.
pub open spec fn lists(v: Seq<Vec<u32>>) -> Seq<Seq<u32>> {
    Seq::new(v.len(), |i: int| v[i]@)
}

impl View for AskTokens {
    type V = AskView;

    open spec fn view(&self) -> AskView {
        AskView { instructions: self.instructions@, options: lists(self.options@) }
    }
}

/// The state's tokens behind their delimiter, cut to the limit.
pub open spec fn state_ids(d: Delimiters, limits: Limits, state: Seq<u32>) -> Seq<u32> {
    seq![d.state] + if state.len() < limits.max_state {
        state
    } else {
        state.take(limits.max_state - 1)
    }
}

/// What a branch begins with: the question's delimiter and its instructions.
pub open spec fn opening(d: Delimiters, instructions: Seq<u32>) -> Seq<u32> {
    seq![d.question] + instructions
}

/// One option between its two delimiters.
pub open spec fn span(d: Delimiters, option: Seq<u32>) -> Seq<u32> {
    seq![d.option] + option + seq![d.option_end]
}

/// The option spans of one question, one after the other.
pub open spec fn spans(d: Delimiters, options: Seq<Seq<u32>>) -> Seq<u32>
    decreases options.len(),
{
    if options.len() == 0 {
        Seq::empty()
    } else {
        spans(d, options.drop_last()) + span(d, options.last())
    }
}

/// How many tokens the option spans take.
pub open spec fn spans_len(options: Seq<Seq<u32>>) -> nat
    decreases options.len(),
{
    if options.len() == 0 {
        0
    } else {
        spans_len(options.drop_last()) + options.last().len() + 2
    }
}

/// The length of the longest option span, or zero without options.
pub open spec fn longest_span(options: Seq<Seq<u32>>) -> nat
    decreases options.len(),
{
    if options.len() == 0 {
        0
    } else {
        let before = longest_span(options.drop_last());
        let last = options.last().len() + 2;
        if before < last {
            last
        } else {
            before
        }
    }
}

/// One question's branch: instructions, option spans, `<decide>`.
pub open spec fn branch_ids(d: Delimiters, ask: AskView) -> Seq<u32> {
    opening(d, ask.instructions) + spans(d, ask.options) + seq![d.decide]
}

/// How many tokens one question's branch takes.
pub open spec fn branch_len(ask: AskView) -> nat {
    1 + ask.instructions.len() + spans_len(ask.options) + 1
}

/// Where the `</opt>` of option `k` stands in its branch.
pub open spec fn option_end_at(ask: AskView, k: int) -> int {
    (ask.instructions.len() + spans_len(ask.options.take(k + 1))) as int
}

/// The slots of the option spans.
pub open spec fn span_slots(options: Seq<Seq<u32>>) -> Seq<OptionSlot>
    decreases options.len(),
{
    if options.len() == 0 {
        Seq::empty()
    } else {
        let k = options.len() - 1;
        span_slots(options.drop_last()) + Seq::new(
            options.last().len() + 2,
            |i: int| OptionSlot::Option(k as u8),
        )
    }
}

/// The slots of one branch, where options are isolated.
pub open spec fn branch_slots(ask: AskView) -> Seq<OptionSlot> {
    Seq::new(1 + ask.instructions.len(), |i: int| OptionSlot::Shared) + span_slots(ask.options)
        + seq![OptionSlot::Decide]
}

/// The positions of isolated option spans: every span starts at `from`.
pub open spec fn span_positions(from: int, options: Seq<Seq<u32>>) -> Seq<int>
    decreases options.len(),
{
    if options.len() == 0 {
        Seq::empty()
    } else {
        span_positions(from, options.drop_last()) + Seq::new(
            options.last().len() + 2,
            |i: int| from + i,
        )
    }
}

/// The positions of one branch's tokens behind a state of `state_len` tokens.
///
/// Without isolation they run on from the state. With it, every option span
/// starts where the instructions end, and `<decide>` sits past the longest span,
/// so no option can be told apart by where it sits.
pub open spec fn branch_positions(isolate: bool, state_len: int, ask: AskView) -> Seq<int> {
    if isolate {
        let from = state_len + 1 + ask.instructions.len();
        Seq::new(1 + ask.instructions.len(), |i: int| state_len + i) + span_positions(
            from,
            ask.options,
        ) + seq![from + longest_span(ask.options)]
    } else {
        Seq::new(branch_len(ask), |i: int| state_len + i)
    }
}

/// One packed request: the tokens, where they sit, and where to read from.
#[derive(Debug)]
pub struct Encoding {
    /// The token ids, state first, then one branch per question.
    pub ids: Vec<u32>,
    /// `0` for the state, `k` for the tokens of question `k` (1-based).
    pub segments: Vec<u32>,
    /// Position ids. Each branch restarts just after the state.
    pub positions: Vec<u32>,
    /// One slot per token where the options are isolated, otherwise empty.
    pub slots: Vec<OptionSlot>,
    /// Index of each question's `<decide>` token.
    pub decide: Vec<usize>,
    /// Index of each option's `</opt>` token, per question, in option order.
    pub options: Vec<Vec<usize>>,
}

/// One packed request, as sequences.
pub struct EncodingView {
    pub ids: Seq<u32>,
    pub segments: Seq<u32>,
    pub positions: Seq<u32>,
    pub slots: Seq<OptionSlot>,
    pub decide: Seq<int>,
    pub options: Seq<Seq<int>>,
}

/// Indices as integers.
pub open spec fn ints(v: Seq<usize>) -> Seq<int> {
    Seq::new(v.len(), |i: int| v[i] as int)
}

/// Lists of indices as integers.
pub open spec fn int_lists(v: Seq<Vec<usize>>) -> Seq<Seq<int>> {
    Seq::new(v.len(), |i: int| ints(v[i]@))
}

impl View for Encoding {
    type V = EncodingView;

    open spec fn view(&self) -> EncodingView {
        EncodingView {
            ids: self.ids@,
            segments: self.segments@,
            positions: self.positions@,
            slots: self.slots@,
            decide: ints(self.decide@),
            options: int_lists(self.options@),
        }
    }
}

/// Positions as the 32-bit ids a backend takes.
pub open spec fn position_ids(positions: Seq<int>) -> Seq<u32> {
    Seq::new(positions.len(), |i: int| positions[i] as u32)
}

/// The state alone: the layout before any question.
pub open spec fn state_layout(ids: Seq<u32>, isolate: bool) -> EncodingView {
    EncodingView {
        ids,
        segments: Seq::new(ids.len(), |i: int| 0u32),
        positions: position_ids(Seq::new(ids.len(), |i: int| i)),
        slots: if isolate {
            Seq::new(ids.len(), |i: int| OptionSlot::Shared)
        } else {
            Seq::empty()
        },
        decide: Seq::empty(),
        options: Seq::empty(),
    }
}

/// The layout with one more question behind those it holds.
pub open spec fn with_branch(
    e: EncodingView,
    d: Delimiters,
    isolate: bool,
    state_len: int,
    ask: AskView,
) -> EncodingView {
    let base = e.ids.len();
    let number = e.decide.len() + 1;
    EncodingView {
        ids: e.ids + branch_ids(d, ask),
        segments: e.segments + Seq::new(branch_len(ask), |i: int| number as u32),
        positions: e.positions + position_ids(branch_positions(isolate, state_len, ask)),
        slots: if isolate {
            e.slots + branch_slots(ask)
        } else {
            e.slots
        },
        decide: e.decide.push(base + branch_len(ask) - 1),
        options: e.options.push(
            Seq::new(ask.options.len(), |k: int| base + option_end_at(ask, k)),
        ),
    }
}

/// The layout of a state and the questions about it.
pub open spec fn layout(
    d: Delimiters,
    isolate: bool,
    state: Seq<u32>,
    asks: Seq<AskView>,
) -> EncodingView
    decreases asks.len(),
{
    if asks.len() == 0 {
        state_layout(state, isolate)
    } else {
        with_branch(
            layout(d, isolate, state, asks.drop_last()),
            d,
            isolate,
            state.len() as int,
            asks.last(),
        )
    }
}

/// How many options of one question can be told apart where they are isolated.
pub open spec fn isolable(isolate: bool, ask: AskView) -> bool {
    isolate ==> ask.options.len() <= 256
}

/// The state and this one question fit into a row.
pub open spec fn fits(limits: Limits, state_len: int, ask: AskView) -> bool {
    state_len + branch_len(ask) <= limits.max_branch
}

/// What is said of limits that leave no room for a state.
pub open spec fn unusable_message(limits: Limits) -> Seq<char> {
    "a context of "@ + text::decimal(limits.max_state as nat) + " state tokens and "@
        + text::decimal(limits.max_branch as nat) + " per row is not usable"@
}

/// What is said of a question that does not fit.
pub open spec fn overflow_message(limits: Limits, state_len: int, ask: AskView) -> Seq<char> {
    "branch too long: "@ + text::decimal(branch_len(ask)) + " tokens with a "@ + text::decimal(
        state_len as nat,
    ) + "-token state (row limit "@ + text::decimal(limits.max_branch as nat) + ")"@
}

/// What is said of a question with more options than there are slots.
pub open spec fn slots_message(ask: AskView) -> Seq<char> {
    "option isolation tells at most 256 options apart, got "@ + text::decimal(ask.options.len())
}

/// Why this question cannot be laid out.
pub open spec fn refusal(
    limits: Limits,
    isolate: bool,
    state_len: int,
    ask: AskView,
    e: Error,
) -> bool {
    if !isolable(isolate, ask) {
        e.is_invalid(slots_message(ask))
    } else {
        e.is_overflow(overflow_message(limits, state_len, ask))
    }
}

/// The spans take as many tokens as they hold.
pub proof fn lemma_spans_len(d: Delimiters, options: Seq<Seq<u32>>)
    ensures
        spans(d, options).len() == spans_len(options),
        span_slots(options).len() == spans_len(options),
    decreases options.len(),
{
    if options.len() > 0 {
        lemma_spans_len(d, options.drop_last());
    }
}

/// Every token of a span has a position.
pub proof fn lemma_span_positions_len(from: int, options: Seq<Seq<u32>>)
    ensures
        span_positions(from, options).len() == spans_len(options),
    decreases options.len(),
{
    if options.len() > 0 {
        lemma_span_positions_len(from, options.drop_last());
    }
}

/// No span is longer than the longest, and the longest is among them.
pub proof fn lemma_longest_span(options: Seq<Seq<u32>>)
    ensures
        longest_span(options) <= spans_len(options),
        forall|k: int| 0 <= k < options.len() ==> #[trigger] options[k].len() + 2 <= longest_span(options),
        options.len() > 0 ==> exists|k: int|
            0 <= k < options.len() && #[trigger] options[k].len() + 2 == longest_span(options),
    decreases options.len(),
{
    if options.len() > 0 {
        let rest = options.drop_last();
        lemma_longest_span(rest);
        assert forall|k: int| 0 <= k < options.len() implies #[trigger] options[k].len() + 2
            <= longest_span(options) by {
            if k < rest.len() {
                assert(rest[k] == options[k]);
            }
        }
        if longest_span(rest) < options.last().len() + 2 {
            assert(options[options.len() - 1].len() + 2 == longest_span(options));
        } else {
            let k = choose|k: int|
                0 <= k < rest.len() && #[trigger] rest[k].len() + 2 == longest_span(rest);
            assert(options[k].len() + 2 == longest_span(options));
        }
    }
}

/// A branch has as many tokens, slots and positions as its parts.
pub proof fn lemma_branch_len(d: Delimiters, isolate: bool, state_len: int, ask: AskView)
    ensures
        branch_ids(d, ask).len() == branch_len(ask),
        branch_slots(ask).len() == branch_len(ask),
        branch_positions(isolate, state_len, ask).len() == branch_len(ask),
{
    lemma_spans_len(d, ask.options);
    lemma_span_positions_len(state_len + 1 + ask.instructions.len(), ask.options);
}

/// Copy a run of tokens behind those already there.
fn push_tokens(out: &mut Vec<u32>, tokens: &[u32], count: usize)
    requires
        count <= tokens@.len(),
    ensures
        final(out)@ == old(out)@ + tokens@.take(count as int),
{
    for i in 0..count
        invariant
            count <= tokens@.len(),
            out@ == old(out)@ + tokens@.take(i as int),
    {
        out.push(tokens[i]);
        assert(out@ == old(out)@ + tokens@.take(i + 1));
    }
}

/// The state's tokens as a layout without questions, cut to the limit.
pub fn lay_state(state: &[u32], d: &Delimiters, limits: Limits, isolate: bool) -> (out: Encoding)
    requires
        limits.usable(),
    ensures
        out@ == state_layout(state_ids(*d, limits, state@), isolate),
        out.ids@.len() <= limits.max_state,
{
    let count: usize = if state.len() < limits.max_state {
        state.len()
    } else {
        limits.max_state - 1
    };
    let mut ids: Vec<u32> = Vec::new();
    ids.push(d.state);
    push_tokens(&mut ids, state, count);
    assert(ids@ == state_ids(*d, limits, state@)) by {
        assert(state@.take(state@.len() as int) == state@);
    }

    let mut segments: Vec<u32> = Vec::new();
    let mut positions: Vec<u32> = Vec::new();
    let mut slots: Vec<OptionSlot> = Vec::new();
    for i in 0..ids.len()
        invariant
            segments@ == Seq::new(i as nat, |k: int| 0u32),
            positions@ == position_ids(Seq::new(i as nat, |k: int| k)),
            slots@ == if isolate {
                Seq::new(i as nat, |k: int| OptionSlot::Shared)
            } else {
                Seq::empty()
            },
    {
        segments.push(0);
        positions.push(i as u32);
        if isolate {
            slots.push(OptionSlot::Shared);
        }
        assert(positions@ == position_ids(Seq::new((i + 1) as nat, |k: int| k)));
    }
    let out = Encoding { ids, segments, positions, slots, decide: Vec::new(), options: Vec::new() };
    assert(out@.decide == Seq::<int>::empty());
    assert(out@.options == Seq::<Seq<int>>::empty());
    out
}

/// One question's branch, and where in it each option ends.
fn build_branch(ask: &AskTokens, d: &Delimiters) -> (out: (Vec<u32>, Vec<usize>))
    ensures
        out.0@ == branch_ids(*d, ask@),
        ints(out.1@) == Seq::new(ask@.options.len(), |k: int| option_end_at(ask@, k)),
{
    let mut branch: Vec<u32> = Vec::new();
    branch.push(d.question);
    push_tokens(&mut branch, &ask.instructions, ask.instructions.len());
    let ghost options = ask@.options;
    assert(branch@ == opening(*d, ask.instructions@)) by {
        assert(ask.instructions@.take(ask.instructions@.len() as int) == ask.instructions@);
    }

    let mut ends: Vec<usize> = Vec::new();
    assert(options.take(0) == Seq::<Seq<u32>>::empty());
    assert(branch@ == opening(*d, ask.instructions@) + spans(*d, options.take(0)));
    for k in 0..ask.options.len()
        invariant
            options == ask@.options,
            options.len() == ask.options@.len(),
            branch@ == opening(*d, ask.instructions@) + spans(*d, options.take(k as int)),
            ints(ends@) == Seq::new(k as nat, |j: int| option_end_at(ask@, j)),
    {
        let option = &ask.options[k];
        let ghost before = branch@;
        branch.push(d.option);
        push_tokens(&mut branch, option, option.len());
        branch.push(d.option_end);
        proof {
            assert(option@.take(option@.len() as int) == option@);
            assert(options[k as int] == option@);
            assert(branch@ == before + span(*d, option@));
            assert(options.take(k + 1).drop_last() == options.take(k as int));
            assert(options.take(k + 1).last() == option@);
            assert(branch@ == opening(*d, ask.instructions@) + spans(*d, options.take(k + 1)));
            lemma_spans_len(*d, options.take(k + 1));
        }
        // The `</opt>` token just pushed: the hidden state the pointer head reads
        // this option from.
        let ghost ended = ends@;
        ends.push(branch.len() - 1);
        assert(branch@.len() - 1 == option_end_at(ask@, k as int));
        assert(ints(ends@) == ints(ended).push(option_end_at(ask@, k as int)));
        assert(ints(ends@) == Seq::new((k + 1) as nat, |j: int| option_end_at(ask@, j)));
    }
    assert(options.take(options.len() as int) == options);
    branch.push(d.decide);
    assert(branch@ == branch_ids(*d, ask@));
    (branch, ends)
}

/// The positions of one branch, as the ids a backend takes.
fn build_positions(ask: &AskTokens, isolate: bool, state_len: usize) -> (out: Vec<u32>)
    requires
        state_len + branch_len(ask@) <= usize::MAX,
    ensures
        out@ == position_ids(branch_positions(isolate, state_len as int, ask@)),
{
    let mut out: Vec<u32> = Vec::new();
    let ghost options = ask@.options;
    let ghost all = branch_positions(isolate, state_len as int, ask@);
    let opening_len: usize = 1 + ask.instructions.len();
    for i in 0..opening_len
        invariant
            opening_len == 1 + ask.instructions@.len(),
            state_len + opening_len <= usize::MAX,
            out@ == position_ids(Seq::new(i as nat, |j: int| state_len + j)),
    {
        out.push((state_len + i) as u32);
        assert(out@ == position_ids(Seq::new((i + 1) as nat, |j: int| state_len + j)));
    }
    let ghost opened = Seq::new(opening_len as nat, |j: int| state_len + j);
    let from: usize = state_len + opening_len;
    let mut longest: usize = 0;
    let mut next: usize = from;
    proof {
        assert(options.take(0) == Seq::<Seq<u32>>::empty());
        assert(opened + span_positions(from as int, options.take(0)) == opened);
        assert(opened == Seq::new((next - state_len) as nat, |j: int| state_len + j));
    }
    for k in 0..ask.options.len()
        invariant
            options == ask@.options,
            options.len() == ask.options@.len(),
            opened == Seq::new(opening_len as nat, |j: int| state_len + j),
            opening_len == 1 + ask.instructions@.len(),
            from == state_len + opening_len,
            state_len + branch_len(ask@) <= usize::MAX,
            longest == longest_span(options.take(k as int)),
            next == from + spans_len(options.take(k as int)),
            isolate ==> out@ == position_ids(
                opened + span_positions(from as int, options.take(k as int)),
            ),
            !isolate ==> out@ == position_ids(
                Seq::new((next - state_len) as nat, |j: int| state_len + j),
            ),
    {
        proof {
            assert(options.take(k + 1).drop_last() == options.take(k as int));
            assert(options.take(k + 1).last() == options[k as int]);
            lemma_spans_len_monotone(options, k + 1);
        }
        let width: usize = ask.options[k].len() + 2;
        let ghost before = out@;
        for j in 0..width
            invariant
                width == options[k as int].len() + 2,
                from <= next,
                next + width <= usize::MAX,
                isolate ==> out@ == before + position_ids(Seq::new(j as nat, |i: int| from + i)),
                !isolate ==> out@ == before + position_ids(Seq::new(j as nat, |i: int| next + i)),
        {
            let at: usize = if isolate {
                from + j
            } else {
                next + j
            };
            out.push(at as u32);
            assert(isolate ==> out@ == before + position_ids(
                Seq::new((j + 1) as nat, |i: int| from + i),
            ));
            assert(!isolate ==> out@ == before + position_ids(
                Seq::new((j + 1) as nat, |i: int| next + i),
            ));
        }
        if longest < width {
            longest = width;
        }
        proof {
            if isolate {
                assert(out@ == position_ids(
                    opened + span_positions(from as int, options.take(k + 1)),
                ));
            } else {
                assert(out@ == position_ids(
                    Seq::new((next + width - state_len) as nat, |j: int| state_len + j),
                ));
            }
        }
        next = next + width;
    }
    proof {
        assert(options.take(options.len() as int) == options);
        lemma_longest_span(options);
    }
    let last: usize = if isolate {
        from + longest
    } else {
        next
    };
    out.push(last as u32);
    assert(out@ =~= position_ids(all));
    out
}

/// The slots of one branch.
fn build_slots(ask: &AskTokens) -> (out: Vec<OptionSlot>)
    requires
        ask@.options.len() <= 256,
    ensures
        out@ == branch_slots(ask@),
{
    let mut out: Vec<OptionSlot> = Vec::new();
    let ghost options = ask@.options;
    let ghost shared = Seq::new(1 + ask.instructions@.len(), |i: int| OptionSlot::Shared);
    out.push(OptionSlot::Shared);
    for i in 0..ask.instructions.len()
        invariant
            out@ == Seq::new(1 + i as nat, |j: int| OptionSlot::Shared),
    {
        out.push(OptionSlot::Shared);
    }
    assert(out@ == shared);
    assert(options.take(0) == Seq::<Seq<u32>>::empty());
    assert(shared + span_slots(options.take(0)) == shared);
    for k in 0..ask.options.len()
        invariant
            options == ask@.options,
            options.len() == ask.options@.len(),
            options.len() <= 256,
            out@ == shared + span_slots(options.take(k as int)),
    {
        let ghost before = out@;
        let width: usize = ask.options[k].len();
        for j in 0..width
            invariant
                k < 256,
                out@ == before + Seq::new(j as nat, |i: int| OptionSlot::Option(k as u8)),
        {
            out.push(OptionSlot::Option(k as u8));
            assert(out@ == before + Seq::new(
                (j + 1) as nat,
                |i: int| OptionSlot::Option(k as u8),
            ));
        }
        out.push(OptionSlot::Option(k as u8));
        out.push(OptionSlot::Option(k as u8));
        proof {
            assert(options.take(k + 1).drop_last() == options.take(k as int));
            assert(options.take(k + 1).last() == options[k as int]);
            assert(out@ == shared + span_slots(options.take(k + 1)));
        }
    }
    assert(options.take(options.len() as int) == options);
    out.push(OptionSlot::Decide);
    assert(out@ == branch_slots(ask@));
    out
}

/// A part of the spans is no longer than all of them.
pub proof fn lemma_spans_len_monotone(options: Seq<Seq<u32>>, k: int)
    requires
        0 <= k <= options.len(),
    ensures
        spans_len(options.take(k)) <= spans_len(options),
    decreases options.len() - k,
{
    if k < options.len() {
        lemma_spans_len_monotone(options, k + 1);
        assert(options.take(k + 1).drop_last() == options.take(k));
    } else {
        assert(options.take(k) == options);
    }
}

/// Every question can be laid out behind a state of this length.
pub open spec fn all_fit(
    limits: Limits,
    isolate: bool,
    state_len: int,
    asks: Seq<AskView>,
) -> bool {
    forall|k: int|
        0 <= k < asks.len() ==> isolable(isolate, #[trigger] asks[k]) && fits(
            limits,
            state_len,
            asks[k],
        )
}

impl Encoding {
    /// Lay one more question behind those already there, or say why it does not
    /// fit. A question that does not fit is an error, not a shortened prompt.
    pub fn lay_branch(
        &mut self,
        ask: &AskTokens,
        d: &Delimiters,
        limits: Limits,
        isolate: bool,
        state_len: usize,
    ) -> (out: Result<(), Error>)
        requires
            state_len <= limits.max_branch,
            old(self).decide@.len() < u32::MAX,
        ensures
            out is Ok <==> isolable(isolate, ask@) && fits(limits, state_len as int, ask@),
            out is Ok ==> final(self)@ == with_branch(
                old(self)@,
                *d,
                isolate,
                state_len as int,
                ask@,
            ),
            out matches Err(e) ==> *final(self) == *old(self) && refusal(
                limits,
                isolate,
                state_len as int,
                ask@,
                e,
            ),
    {
        if isolate && ask.options.len() > 256 {
            let mut message = "option isolation tells at most 256 options apart, got ".to_owned();
            message.append(text::decimal_text(ask.options.len()).as_str());
            return Err(Error::Invalid(message));
        }
        let (branch, ends) = build_branch(ask, d);
        proof {
            assert(ints(ends@).len() == ask@.options.len());
            lemma_branch_len(*d, isolate, state_len as int, ask@);
        }
        if branch.len() > limits.max_branch - state_len {
            let mut message = "branch too long: ".to_owned();
            message.append(text::decimal_text(branch.len()).as_str());
            message.append(" tokens with a ");
            message.append(text::decimal_text(state_len).as_str());
            message.append("-token state (row limit ");
            message.append(text::decimal_text(limits.max_branch).as_str());
            message.append(")");
            return Err(Error::ContextOverflow(message));
        }
        let ghost before = self@;
        let base: usize = self.ids.len();
        let number: u32 = self.decide.len() as u32 + 1;

        let positions = build_positions(ask, isolate, state_len);
        push_tokens(&mut self.ids, &branch, branch.len());
        push_tokens(&mut self.positions, &positions, positions.len());
        proof {
            assert(branch@.take(branch@.len() as int) == branch@);
            assert(positions@.take(positions@.len() as int) == positions@);
        }
        for i in 0..branch.len()
            invariant
                self.segments@ == before.segments + Seq::new(i as nat, |j: int| number),
                self.ids@ == before.ids + branch@,
                self.positions@ == before.positions + positions@,
                self.slots@ == before.slots,
                self.decide@ == old(self).decide@,
                self.options@ == old(self).options@,
        {
            self.segments.push(number);
            assert(self.segments@ == before.segments + Seq::new((i + 1) as nat, |j: int| number));
        }
        if isolate {
            let slots = build_slots(ask);
            for i in 0..slots.len()
                invariant
                    slots@ == branch_slots(ask@),
                    self.slots@ == before.slots + slots@.take(i as int),
                    self.segments@ == before.segments + Seq::new(
                        branch@.len(),
                        |j: int| number,
                    ),
                    self.ids@ == before.ids + branch@,
                    self.positions@ == before.positions + positions@,
                    self.decide@ == old(self).decide@,
                    self.options@ == old(self).options@,
            {
                self.slots.push(slots[i]);
                assert(self.slots@ == before.slots + slots@.take(i + 1));
            }
            assert(slots@.take(slots@.len() as int) == slots@);
        }
        assert(self.ids@.len() == base + branch@.len());
        assert forall|j: int| 0 <= j < ends@.len() implies #[trigger] ends@[j] < branch@.len() by {
            assert(ints(ends@)[j] == ends@[j] as int);
            assert(ints(ends@)[j] == option_end_at(ask@, j));
            lemma_spans_len_monotone(ask@.options, j + 1);
        }
        let ghost asked = ask@;
        let ghost listed = self.options@;
        self.decide.push(self.ids.len() - 1);
        let mut moved: Vec<usize> = Vec::new();
        for k in 0..ends.len()
            invariant
                ints(ends@) == Seq::new(asked.options.len(), |j: int| option_end_at(asked, j)),
                forall|j: int| 0 <= j < ends@.len() ==> #[trigger] ends@[j] < branch@.len(),
                base + branch@.len() <= usize::MAX,
                ints(moved@) == Seq::new(k as nat, |j: int| base + option_end_at(asked, j)),
        {
            let ghost done = moved@;
            assert(ends@.len() == ints(ends@).len());
            assert(ints(ends@)[k as int] == option_end_at(asked, k as int));
            moved.push(base + ends[k]);
            assert(ints(moved@) == ints(done).push(base + option_end_at(asked, k as int)));
            assert(ints(moved@) == Seq::new((k + 1) as nat, |j: int| base + option_end_at(asked, j)));
        }
        let ghost moved_to = ints(moved@);
        self.options.push(moved);
        proof {
            let after = with_branch(before, *d, isolate, state_len as int, ask@);
            assert(self@.decide == after.decide);
            assert(ends@.len() == ints(ends@).len());
            assert(self@.options == int_lists(listed).push(moved_to));
            assert(self@.options == after.options);
            assert(self@.ids == after.ids);
            assert(self@.segments == after.segments);
            assert(self@.positions == after.positions);
            assert(self@.slots == after.slots);
        }
        Ok(())
    }
}

/// Where the readout reads from: each question's `<decide>`, then its options,
/// for the first `n` questions.
pub open spec fn readout_of(e: EncodingView, n: int) -> Seq<int>
    decreases n,
{
    if n <= 0 {
        Seq::empty()
    } else {
        readout_of(e, n - 1) + seq![e.decide[n - 1]] + e.options[n - 1]
    }
}

impl Encoding {
    /// The positions whose hidden states the readout needs, in the order the
    /// pointer head wants them: each question's `<decide>` first, then its
    /// options.
    pub fn readout(&self) -> (out: Vec<usize>)
        ensures
            ints(out@) == readout_of(
                self@,
                if self.decide@.len() <= self.options@.len() {
                    self.decide@.len() as int
                } else {
                    self.options@.len() as int
                },
            ),
    {
        let mut out: Vec<usize> = Vec::new();
        let count: usize = if self.decide.len() <= self.options.len() {
            self.decide.len()
        } else {
            self.options.len()
        };
        for k in 0..count
            invariant
                count <= self.decide@.len(),
                count <= self.options@.len(),
                ints(out@) == readout_of(self@, k as int),
        {
            let ghost before = ints(out@);
            out.push(self.decide[k]);
            assert(ints(out@) == before + seq![self@.decide[k as int]]);
            let options = &self.options[k];
            for j in 0..options.len()
                invariant
                    ints(out@) == before + seq![self@.decide[k as int]] + ints(
                        options@.take(j as int),
                    ),
            {
                let ghost part = ints(out@);
                out.push(options[j]);
                assert(ints(out@) == part.push(options@[j as int] as int));
                assert(ints(options@.take(j + 1)) == ints(options@.take(j as int)).push(
                    options@[j as int] as int,
                ));
            }
            assert(options@.take(options@.len() as int) == options@);
            assert(self@.options[k as int] == ints(options@));
        }
        out
    }

    /// How many readout positions one question contributes: `<decide>` plus
    /// one per option.
    pub fn readout_width(&self, question: usize) -> (width: usize)
        requires
            question < self.options@.len(),
            self.options@[question as int]@.len() < usize::MAX,
        ensures
            width == 1 + self@.options[question as int].len(),
    {
        1 + self.options[question].len()
    }
}

/// A state is kept from its start: the delimiter, then its tokens in order, as many as fit. Only
/// the end of a state that is too long is left out.
pub proof fn law_a_state_is_cut_at_its_end(d: Delimiters, limits: Limits, state: Seq<u32>)
    requires
        limits.max_state >= 1,
    ensures
        state_ids(d, limits, state)[0] == d.state,
        state.len() < limits.max_state ==> state_ids(d, limits, state).len() == 1 + state.len(),
        state.len() >= limits.max_state ==> state_ids(d, limits, state).len() == limits.max_state,
        forall|i: int|
            1 <= i < state_ids(d, limits, state).len() ==> #[trigger] state_ids(d, limits, state)[i]
                == state[i - 1],
{
}

/// Escaping changes bars alone, and only within a special token: everything else in a text stays
/// where it is.
pub proof fn law_escaping_changes_only_the_bars_of_special_tokens(s: Seq<char>, j: int)
    requires
        0 <= j < s.len(),
    ensures
        escaped(s).len() == s.len(),
        s[j] != '|' ==> escaped(s)[j] == s[j],
        escaped(s)[j] == s[j] || escaped(s)[j] == '\u{a6}',
        (forall|at: int, n: int| #[trigger] token_at(s, at, n) ==> !(at <= j < at + n + 4))
            ==> escaped(s)[j] == s[j],
{
    lemma_bars_are_bars(s, j);
    if bar_at(s, j) {
        let (at, n) = choose|at: int, n: int|
            #[trigger] token_at(s, at, n) && (j == at + 1 || j == at + 2 + n);
        assert(token_at(s, at, n));
    }
}

/// Whatever stands as a name of letters, digits and underscores between `<|` and `|>`, anywhere in
/// a text, has both of its bars replaced.
pub proof fn law_every_special_token_loses_its_bars(
    before: Seq<char>,
    name: Seq<char>,
    after: Seq<char>,
)
    requires
        name.len() > 0,
        forall|i: int|
            0 <= i < name.len() ==> '0' <= #[trigger] name[i] <= '9' || 'A' <= name[i] <= 'Z' || 'a'
                <= name[i] <= 'z' || name[i] == '_',
    ensures
        ({
            let whole = before + seq!['<', '|'] + name + seq!['|', '>'] + after;
            let (at, n) = (before.len() as int, name.len() as int);
            &&& escaped(whole)[at] == '<'
            &&& escaped(whole)[at + 1] == '\u{a6}'
            &&& escaped(whole)[at + 2 + n] == '\u{a6}'
            &&& escaped(whole)[at + 3 + n] == '>'
        }),
{
    let whole = before + seq!['<', '|'] + name + seq!['|', '>'] + after;
    let at = before.len() as int;
    let n = name.len() as int;
    assert forall|k: int| at + 2 <= k < at + 2 + n implies name_char(#[trigger] whole[k]) by {
        assert(whole[k] == name[k - at - 2]);
    }
    assert(token_at(whole, at, n));
    lemma_bars_are_bars(whole, at);
    lemma_bars_are_bars(whole, at + 3 + n);
}

/// A question fits where the state and all of its tokens come within the row limit; options can
/// be told apart up to two hundred and fifty-six of them.
pub proof fn law_a_question_fits_where_its_row_does(
    d: Delimiters,
    limits: Limits,
    state_len: int,
    ask: AskView,
)
    ensures
        fits(limits, state_len, ask) <==> state_len + branch_ids(d, ask).len() <= limits.max_branch,
        isolable(false, ask),
        isolable(true, ask) <==> ask.options.len() <= 256,
{
    lemma_branch_len(d, false, state_len, ask);
}

/// One question more goes behind the others and changes nothing of what was laid before it: its
/// tokens, their segment, which is its number, and where it is read.
pub proof fn law_one_question_more_goes_behind_the_others(
    d: Delimiters,
    isolate: bool,
    state: Seq<u32>,
    asks: Seq<AskView>,
    ask: AskView,
)
    ensures
        ({
            let before = layout(d, isolate, state, asks);
            let after = layout(d, isolate, state, asks.push(ask));
            &&& after.ids == before.ids + branch_ids(d, ask)
            &&& after.segments.len() == before.segments.len() + branch_ids(d, ask).len()
            &&& after.segments.take(before.segments.len() as int) == before.segments
            &&& after.positions.take(before.positions.len() as int) == before.positions
            &&& after.slots.take(before.slots.len() as int) == before.slots
            &&& after.decide.drop_last() == before.decide
            &&& after.options.drop_last() == before.options
        }),
        layout(d, isolate, state, Seq::empty()).ids == state,
        layout(d, isolate, state, Seq::empty()).decide.len() == 0,
        layout(d, isolate, state, Seq::empty()).options.len() == 0,
{
    let before = layout(d, isolate, state, asks);
    let all = asks.push(ask);
    assert(all.drop_last() =~= asks);
    let after = layout(d, isolate, state, all);
    assert(after == with_branch(before, d, isolate, state.len() as int, ask));
    lemma_branch_len(d, isolate, state.len() as int, ask);
    assert(after.segments.take(before.segments.len() as int) =~= before.segments);
    assert(after.positions.take(before.positions.len() as int) =~= before.positions);
    assert(after.slots.take(before.slots.len() as int) =~= before.slots);
    assert(after.decide.drop_last() =~= before.decide);
    assert(after.options.drop_last() =~= before.options);
}

/// Each question is read at its decision first and then at the end of each of its options, and
/// the questions one behind the other.
pub proof fn law_a_question_is_read_decision_first(e: EncodingView, n: int)
    requires
        0 <= n,
    ensures
        readout_of(e, 0).len() == 0,
        readout_of(e, n + 1).len() == readout_of(e, n).len() + 1 + e.options[n].len(),
        readout_of(e, n + 1).take(readout_of(e, n).len() as int) == readout_of(e, n),
        readout_of(e, n + 1)[readout_of(e, n).len() as int] == e.decide[n],
        forall|j: int|
            0 <= j < e.options[n].len() ==> readout_of(e, n + 1)[readout_of(e, n).len() + 1 + j]
                == #[trigger] e.options[n][j],
{
    let before = readout_of(e, n);
    let after = readout_of(e, n + 1);
    assert(after == before + seq![e.decide[n]] + e.options[n]);
    assert(after.take(before.len() as int) =~= before);
}

/// An encoding and a question's tokens are seen whole: every list of them, in order.
pub proof fn law_an_encoding_is_seen_whole(e: Encoding, ask: AskTokens, i: int, j: int)
    ensures
        e@.ids == e.ids@,
        e@.segments == e.segments@,
        e@.positions == e.positions@,
        e@.slots == e.slots@,
        e@.decide.len() == e.decide@.len(),
        0 <= i < e.decide@.len() ==> e@.decide[i] == e.decide@[i],
        e@.options.len() == e.options@.len(),
        0 <= i < e.options@.len() ==> e@.options[i].len() == e.options@[i]@.len() && (0 <= j
            < e.options@[i]@.len() ==> e@.options[i][j] == e.options@[i]@[j]),
        ask@.instructions == ask.instructions@,
        ask@.options.len() == ask.options@.len(),
        0 <= i < ask.options@.len() ==> ask@.options[i] == ask.options@[i]@,
{
}

/// A question that is refused is refused for what is wrong with it: too many options to be told
/// apart, and otherwise its length, which is named with the state's and the limit.
pub proof fn law_a_refusal_says_what_is_wrong(
    limits: Limits,
    isolate: bool,
    state_len: int,
    ask: AskView,
    e: Error,
)
    requires
        refusal(limits, isolate, state_len, ask, e),
    ensures
        isolate && ask.options.len() > 256 ==> (e matches Error::Invalid(m) && m@
            == "option isolation tells at most 256 options apart, got "@ + text::decimal(
            ask.options.len(),
        )),
        !isolate || ask.options.len() <= 256 ==> (e matches Error::ContextOverflow(m) && m@
            == "branch too long: "@ + text::decimal(branch_len(ask)) + " tokens with a "@
            + text::decimal(state_len as nat) + "-token state (row limit "@ + text::decimal(
            limits.max_branch as nat,
        ) + ")"@),
{
}

/// A context is of use where it holds the delimiter of a state and a token of it, and a row holds
/// at least as much as a state.
pub proof fn law_a_context_holds_a_state_and_more(limits: Limits)
    ensures
        limits.usable() <==> limits.max_state >= 2 && limits.max_branch >= limits.max_state,
{
}

/// Nothing else is escaped: where a character is replaced, it stood beside a name of letters,
/// digits and underscores between `<|` and `|>`.
pub proof fn law_only_a_name_between_bars_is_escaped(s: Seq<char>, j: int) -> (token: (int, int))
    requires
        0 <= j < s.len(),
        escaped(s)[j] != s[j],
    ensures
        ({
            let (at, n) = token;
            &&& 0 <= at
            &&& 0 < n
            &&& at + n + 4 <= s.len()
            &&& s[at] == '<' && s[at + 1] == '|' && s[at + 2 + n] == '|' && s[at + 3 + n] == '>'
            &&& forall|i: int|
                at + 2 <= i < at + 2 + n ==> '0' <= #[trigger] s[i] <= '9' || 'A' <= s[i] <= 'Z'
                    || 'a' <= s[i] <= 'z' || s[i] == '_'
            &&& j == at + 1 || j == at + 2 + n
        }),
{
    let (at, n) = choose|at: int, n: int|
        #[trigger] token_at(s, at, n) && (j == at + 1 || j == at + 2 + n);
    assert forall|i: int| at + 2 <= i < at + 2 + n implies '0' <= #[trigger] s[i] <= '9' || 'A'
        <= s[i] <= 'Z' || 'a' <= s[i] <= 'z' || s[i] == '_' by {
        assert(name_char(s[i]));
    }
    (at, n)
}

} // verus!
