//! What the layout of a request promises to the questions in it.

use vstd::prelude::*;

use crate::encode;
use crate::encode::{AskView, Delimiters, EncodingView, OptionSlot};
use crate::pass;
use crate::pass::PassView;

verus! {

/// Where the branch of question `k` begins, behind a state of this length.
pub open spec fn branch_start(state_len: int, asks: Seq<AskView>, k: int) -> int
    decreases k,
{
    if k <= 0 {
        state_len
    } else {
        branch_start(state_len, asks, k - 1) + encode::branch_len(asks[k - 1])
    }
}

/// The pass that a layout is run as.
pub open spec fn pass_of(e: EncodingView) -> PassView {
    PassView {
        ids: e.ids,
        positions: e.positions,
        segments: e.segments,
        readout: encode::readout_of(e, e.decide.len() as int),
        options: e.slots,
    }
}

/// The state part of a layout is what the state gives.
pub open spec fn state_laid(e: EncodingView, isolate: bool, state: Seq<u32>) -> bool {
    forall|i: int|
        0 <= i < state.len() ==> #[trigger] e.segments[i] == 0 && e.ids[i] == state[i]
            && e.positions[i] == i as u32 && (isolate ==> e.slots[i] == OptionSlot::Shared)
}

/// The branch of question `k` is what the question gives.
pub open spec fn branch_laid(
    e: EncodingView,
    d: Delimiters,
    isolate: bool,
    state_len: int,
    asks: Seq<AskView>,
    k: int,
) -> bool {
    let start = branch_start(state_len, asks, k);
    &&& e.decide[k] == start + encode::branch_len(asks[k]) - 1
    &&& e.options[k].len() == asks[k].options.len()
    &&& forall|j: int|
        0 <= j < asks[k].options.len() ==> #[trigger] e.options[k][j] == start
            + encode::option_end_at(asks[k], j)
    &&& forall|i: int|
        #![trigger e.segments[i]]
        start <= i < start + encode::branch_len(asks[k]) ==> token_laid(
            e,
            d,
            isolate,
            state_len,
            asks[k],
            (k + 1) as u32,
            i,
            i - start,
        )
}

/// The token at `i` is the one that this question, under this number, has at `at`.
pub open spec fn token_laid(
    e: EncodingView,
    d: Delimiters,
    isolate: bool,
    state_len: int,
    ask: AskView,
    number: u32,
    i: int,
    at: int,
) -> bool {
    &&& e.segments[i] == number
    &&& e.ids[i] == encode::branch_ids(d, ask)[at]
    &&& e.positions[i] == encode::branch_positions(isolate, state_len, ask)[at] as u32
    &&& isolate ==> e.slots[i] == encode::branch_slots(ask)[at]
}

/// Whether the parts of a layout are as long as its tokens are many.
pub open spec fn evenly_laid(e: EncodingView, isolate: bool, n: int, questions: int) -> bool {
    &&& e.ids.len() == n
    &&& e.segments.len() == n
    &&& e.positions.len() == n
    &&& e.slots.len() == if isolate {
        n
    } else {
        0
    }
    &&& e.decide.len() == questions
    &&& e.options.len() == questions
}

/// One more question leaves the branches before it as they are.
proof fn lemma_branch_kept(
    before: EncodingView,
    d: Delimiters,
    isolate: bool,
    state_len: int,
    asks: Seq<AskView>,
    k: int,
)
    requires
        0 <= k < asks.len() - 1,
        0 <= state_len,
        evenly_laid(
            before,
            isolate,
            branch_start(state_len, asks, asks.len() - 1),
            asks.len() - 1,
        ),
        branch_laid(before, d, isolate, state_len, asks, k),
    ensures
        branch_laid(
            encode::with_branch(before, d, isolate, state_len, asks.last()),
            d,
            isolate,
            state_len,
            asks,
            k,
        ),
{
    let e = encode::with_branch(before, d, isolate, state_len, asks.last());
    let start = branch_start(state_len, asks, k);
    lemma_branch_start_ascends(state_len, asks, k, k + 1);
    lemma_branch_start_ascends(state_len, asks, k + 1, asks.len() - 1);
    assert(branch_start(state_len, asks, k + 1) == start + encode::branch_len(asks[k]));
    assert(e.options[k] == before.options[k]);
    assert(e.decide[k] == before.decide[k]);
    assert forall|i: int|
        #![trigger e.segments[i]]
        start <= i < start + encode::branch_len(asks[k]) implies token_laid(
        e,
        d,
        isolate,
        state_len,
        asks[k],
        (k + 1) as u32,
        i,
        i - start,
    ) by {
        assert(0 <= i < before.ids.len());
        assert(before.segments[i] == (k + 1) as u32);
    }
}

/// One more question lies behind the others, as it was given.
proof fn lemma_branch_added(
    before: EncodingView,
    d: Delimiters,
    isolate: bool,
    state_len: int,
    asks: Seq<AskView>,
)
    requires
        asks.len() > 0,
        0 <= state_len,
        evenly_laid(
            before,
            isolate,
            branch_start(state_len, asks, asks.len() - 1),
            asks.len() - 1,
        ),
    ensures
        ({
            let e = encode::with_branch(before, d, isolate, state_len, asks.last());
            &&& branch_laid(e, d, isolate, state_len, asks, asks.len() - 1)
            &&& evenly_laid(
                e,
                isolate,
                branch_start(state_len, asks, asks.len() as int),
                asks.len() as int,
            )
        }),
{
    let last = asks.last();
    let k = asks.len() - 1;
    let e = encode::with_branch(before, d, isolate, state_len, last);
    let start = branch_start(state_len, asks, k);
    encode::lemma_branch_len(d, isolate, state_len, last);
    lemma_branch_start_ascends(state_len, asks, k, k);
    assert(branch_start(state_len, asks, k + 1) == start + encode::branch_len(asks[k]));
    assert forall|i: int|
        #![trigger e.segments[i]]
        start <= i < start + encode::branch_len(asks[k]) implies token_laid(
        e,
        d,
        isolate,
        state_len,
        asks[k],
        (k + 1) as u32,
        i,
        i - start,
    ) by {
        assert(0 <= i - start < encode::branch_len(last));
    }
}

/// A layout is the state followed by one branch per question, each at its place.
pub proof fn lemma_layout(d: Delimiters, isolate: bool, state: Seq<u32>, asks: Seq<AskView>)
    ensures
        ({
            let e = encode::layout(d, isolate, state, asks);
            let n = branch_start(state.len() as int, asks, asks.len() as int);
            &&& evenly_laid(e, isolate, n, asks.len() as int)
            &&& state_laid(e, isolate, state)
            &&& forall|k: int|
                0 <= k < asks.len() ==> #[trigger] branch_laid(
                    e,
                    d,
                    isolate,
                    state.len() as int,
                    asks,
                    k,
                )
        }),
    decreases asks.len(),
{
    let e = encode::layout(d, isolate, state, asks);
    let state_len = state.len() as int;
    if asks.len() > 0 {
        let rest = asks.drop_last();
        let before = encode::layout(d, isolate, state, rest);
        let m = rest.len() as int;
        lemma_layout(d, isolate, state, rest);
        lemma_branch_start_prefix(state_len, asks, rest, m);
        assert(e == encode::with_branch(before, d, isolate, state_len, asks.last()));
        lemma_branch_added(before, d, isolate, state_len, asks);
        assert forall|k: int| 0 <= k < asks.len() implies #[trigger] branch_laid(
            e,
            d,
            isolate,
            state_len,
            asks,
            k,
        ) by {
            if k < m {
                assert(branch_laid(before, d, isolate, state_len, rest, k));
                assert(rest[k] == asks[k]);
                lemma_branch_start_prefix(state_len, asks, rest, k);
                assert(branch_laid(before, d, isolate, state_len, asks, k));
                lemma_branch_kept(before, d, isolate, state_len, asks, k);
            }
        }
        lemma_branch_start_ascends(state_len, asks, 0, m);
        assert(state_laid(e, isolate, state)) by {
            assert forall|i: int| 0 <= i < state.len() implies #[trigger] e.segments[i] == 0
                && e.ids[i] == state[i] && e.positions[i] == i as u32 && (isolate ==> e.slots[i]
                == OptionSlot::Shared) by {
                assert(before.segments[i] == 0);
            }
        }
    }
}

/// Where a branch begins depends only on the questions before it.
pub proof fn lemma_branch_start_prefix(
    state_len: int,
    asks: Seq<AskView>,
    rest: Seq<AskView>,
    k: int,
)
    requires
        0 <= k <= rest.len() <= asks.len(),
        forall|j: int| 0 <= j < k ==> rest[j] == asks[j],
    ensures
        branch_start(state_len, rest, k) == branch_start(state_len, asks, k),
    decreases k,
{
    if k > 0 {
        lemma_branch_start_prefix(state_len, asks, rest, k - 1);
    }
}

/// Later branches begin later, and none before the end of the state.
pub proof fn lemma_branch_start_ascends(state_len: int, asks: Seq<AskView>, j: int, k: int)
    requires
        0 <= j <= k <= asks.len(),
    ensures
        state_len <= branch_start(state_len, asks, j) <= branch_start(state_len, asks, k),
    decreases k,
{
    if j < k {
        lemma_branch_start_ascends(state_len, asks, j, k - 1);
    } else if j > 0 {
        lemma_branch_start_ascends(state_len, asks, j - 1, k - 1);
    }
}

/// Every token of a layout lies in the state or in the branch of one question.
pub proof fn lemma_token_has_question(state_len: int, asks: Seq<AskView>, i: int) -> (k: int)
    requires
        state_len <= i < branch_start(state_len, asks, asks.len() as int),
    ensures
        0 <= k < asks.len(),
        branch_start(state_len, asks, k) <= i < branch_start(state_len, asks, k)
            + encode::branch_len(asks[k]),
    decreases asks.len(),
{
    let m = asks.len() - 1;
    if m < 0 {
        0
    } else if branch_start(state_len, asks, m) <= i {
        assert(branch_start(state_len, asks, m + 1) == branch_start(state_len, asks, m)
            + encode::branch_len(asks[m]));
        m
    } else {
        let rest = asks.drop_last();
        lemma_branch_start_prefix(state_len, asks, rest, m);
        let k = lemma_token_has_question(state_len, rest, i);
        lemma_branch_start_prefix(state_len, asks, rest, k);
        k
    }
}

/// Branches do not overlap.
pub proof fn lemma_branches_apart(state_len: int, asks: Seq<AskView>, j: int, k: int)
    requires
        0 <= j < k < asks.len(),
    ensures
        branch_start(state_len, asks, j) + encode::branch_len(asks[j]) <= branch_start(
            state_len,
            asks,
            k,
        ),
{
    assert(branch_start(state_len, asks, j + 1) == branch_start(state_len, asks, j)
        + encode::branch_len(asks[j]));
    lemma_branch_start_ascends(state_len, asks, j + 1, k);
}

/// Which tokens of a layout lie in which segment.
pub proof fn lemma_segment_of(
    d: Delimiters,
    isolate: bool,
    state: Seq<u32>,
    asks: Seq<AskView>,
    i: int,
)
    requires
        0 <= i < encode::layout(d, isolate, state, asks).ids.len(),
        asks.len() < u32::MAX,
    ensures
        ({
            let e = encode::layout(d, isolate, state, asks);
            &&& e.segments[i] == 0 <==> i < state.len()
            &&& forall|k: int|
                0 <= k < asks.len() ==> (e.segments[i] == k + 1 <==> #[trigger] branch_start(
                    state.len() as int,
                    asks,
                    k,
                ) <= i < branch_start(state.len() as int, asks, k) + encode::branch_len(asks[k]))
        }),
{
    let e = encode::layout(d, isolate, state, asks);
    let state_len = state.len() as int;
    lemma_layout(d, isolate, state, asks);
    if i >= state_len {
        let own = lemma_token_has_question(state_len, asks, i);
        assert(branch_laid(e, d, isolate, state_len, asks, own));
        assert(e.segments[i] == (own + 1) as u32);
        assert forall|k: int| 0 <= k < asks.len() implies (e.segments[i] == k + 1
            <==> #[trigger] branch_start(state_len, asks, k) <= i < branch_start(state_len, asks, k)
            + encode::branch_len(asks[k])) by {
            if k < own {
                lemma_branches_apart(state_len, asks, k, own);
            } else if own < k {
                lemma_branches_apart(state_len, asks, own, k);
            }
        }
    } else {
        assert(e.segments[i] == 0);
        assert forall|k: int| 0 <= k < asks.len() implies (e.segments[i] == k + 1
            <==> #[trigger] branch_start(state_len, asks, k) <= i < branch_start(state_len, asks, k)
            + encode::branch_len(asks[k])) by {
            lemma_branch_start_ascends(state_len, asks, k, k);
        }
    }
}

/// A segment whose tokens stand in one run has that run as its members.
pub proof fn lemma_members_of_run(segments: Seq<u32>, n: int, s: u32, from: int, to: int)
    requires
        0 <= from <= to,
        0 <= n,
        forall|i: int| 0 <= i < n ==> (#[trigger] segments[i] == s <==> from <= i < to),
    ensures
        pass::members(segments, n, s) == Seq::new(
            (if n <= from {
                0
            } else if n < to {
                n - from
            } else {
                to - from
            }) as nat,
            |i: int| from + i,
        ),
    decreases n,
{
    if n > 0 {
        lemma_members_of_run(segments, n - 1, s, from, to);
        assert(segments[n - 1] == s <==> from <= n - 1 < to);
    }
    assert(pass::members(segments, n, s) =~= Seq::new(
        (if n <= from {
            0
        } else if n < to {
            n - from
        } else {
            to - from
        }) as nat,
        |i: int| from + i,
    ));
}

/// What is read from two runs of positions is what is read from each.
pub proof fn lemma_read_in_two(
    segments: Seq<u32>,
    a: Seq<int>,
    b: Seq<int>,
    s: u32,
    lead: int,
)
    ensures
        pass::read_in(segments, a + b, s, lead) == pass::read_in(segments, a, s, lead)
            + pass::read_in(segments, b, s, lead),
    decreases b.len(),
{
    if b.len() == 0 {
        assert(a + b == a);
        assert(pass::read_in(segments, b, s, lead) == Seq::<int>::empty());
    } else {
        lemma_read_in_two(segments, a, b.drop_last(), s, lead);
        assert((a + b).drop_last() == a + b.drop_last());
        assert((a + b).last() == b.last());
    }
}

/// Nothing is read from positions that all lie in other segments.
pub proof fn lemma_read_in_other(segments: Seq<u32>, readout: Seq<int>, s: u32, lead: int)
    requires
        forall|j: int| 0 <= j < readout.len() ==> segments[#[trigger] readout[j]] != s,
    ensures
        pass::read_in(segments, readout, s, lead) == Seq::<int>::empty(),
    decreases readout.len(),
{
    if readout.len() > 0 {
        assert(readout.last() == readout[readout.len() - 1]);
        assert forall|j: int| 0 <= j < readout.drop_last().len() implies segments[#[trigger] readout.drop_last()[j]]
            != s by {
            assert(readout.drop_last()[j] == readout[j]);
        }
        lemma_read_in_other(segments, readout.drop_last(), s, lead);
    }
}

/// Positions that all lie in one run of their segment move with the run.
pub proof fn lemma_read_in_run(
    segments: Seq<u32>,
    readout: Seq<int>,
    s: u32,
    lead: int,
    n: int,
    from: int,
    to: int,
)
    requires
        0 <= from <= to <= n,
        forall|i: int| 0 <= i < n ==> (#[trigger] segments[i] == s <==> from <= i < to),
        forall|j: int| 0 <= j < readout.len() ==> from <= #[trigger] readout[j] < to,
    ensures
        pass::read_in(segments, readout, s, lead) == Seq::new(
            readout.len(),
            |j: int| lead + readout[j] - from,
        ),
    decreases readout.len(),
{
    if readout.len() > 0 {
        let rest = readout.drop_last();
        let last = readout[readout.len() - 1];
        assert(last == readout.last());
        assert forall|j: int| 0 <= j < rest.len() implies from <= #[trigger] rest[j] < to by {
            assert(rest[j] == readout[j]);
        }
        lemma_read_in_run(segments, rest, s, lead, n, from, to);
        lemma_members_of_run(segments, last, s, from, to);
        assert(segments[last] == s);
    }
    assert(pass::read_in(segments, readout, s, lead) =~= Seq::new(
        readout.len(),
        |j: int| lead + readout[j] - from,
    ));
}

/// What the readout takes from one question: its `<decide>`, then its options.
pub open spec fn read_block(e: EncodingView, k: int) -> Seq<int> {
    seq![e.decide[k]] + e.options[k]
}

/// The readout of the first `n` questions, narrowed to question `k`.
proof fn lemma_readout_of_question(
    d: Delimiters,
    isolate: bool,
    state: Seq<u32>,
    asks: Seq<AskView>,
    k: int,
    n: int,
    lead: int,
)
    requires
        0 <= k < asks.len() < u32::MAX,
        0 <= n <= asks.len(),
    ensures
        ({
            let e = encode::layout(d, isolate, state, asks);
            let start = branch_start(state.len() as int, asks, k);
            let block = read_block(e, k);
            pass::read_in(e.segments, encode::readout_of(e, n), (k + 1) as u32, lead) == if n <= k {
                Seq::empty()
            } else {
                Seq::new(block.len(), |j: int| lead + block[j] - start)
            }
        }),
    decreases n,
{
    let e = encode::layout(d, isolate, state, asks);
    let state_len = state.len() as int;
    let s = (k + 1) as u32;
    let start = branch_start(state_len, asks, k);
    if n > 0 {
        let m = n - 1;
        let at = branch_start(state_len, asks, m);
        let block = read_block(e, m);
        lemma_layout(d, isolate, state, asks);
        lemma_readout_of_question(d, isolate, state, asks, k, m, lead);
        assert(encode::readout_of(e, n) == encode::readout_of(e, m) + block);
        lemma_read_in_two(e.segments, encode::readout_of(e, m), block, s, lead);
        assert(branch_laid(e, d, isolate, state_len, asks, m));
        lemma_block_in_branch(e, d, isolate, state_len, asks, m);
        lemma_branch_start_ascends(state_len, asks, m, n);
        lemma_branch_start_ascends(state_len, asks, n, asks.len() as int);
        assert(branch_start(state_len, asks, n) == at + encode::branch_len(asks[m]));
        if m == k {
            assert forall|i: int| 0 <= i < e.ids.len() implies (#[trigger] e.segments[i] == s
                <==> at <= i < at + encode::branch_len(asks[m])) by {
                lemma_segment_of(d, isolate, state, asks, i);
                assert(branch_start(state_len, asks, k) == at);
            }
            lemma_read_in_run(
                e.segments,
                block,
                s,
                lead,
                e.ids.len() as int,
                at,
                at + encode::branch_len(asks[m]),
            );
            assert(pass::read_in(e.segments, encode::readout_of(e, n), s, lead) =~= Seq::new(
                block.len(),
                |j: int| lead + block[j] - start,
            ));
        } else {
            assert forall|j: int| 0 <= j < block.len() implies e.segments[#[trigger] block[j]]
                != s by {
                assert(e.segments[block[j]] == (m + 1) as u32);
            }
            lemma_read_in_other(e.segments, block, s, lead);
            assert(pass::read_in(e.segments, encode::readout_of(e, n), s, lead) =~= pass::read_in(
                e.segments,
                encode::readout_of(e, m),
                s,
                lead,
            ));
        }
    }
}

/// The readout positions of a question lie in its branch.
pub proof fn lemma_block_in_branch(
    e: EncodingView,
    d: Delimiters,
    isolate: bool,
    state_len: int,
    asks: Seq<AskView>,
    k: int,
)
    requires
        branch_laid(e, d, isolate, state_len, asks, k),
    ensures
        ({
            let start = branch_start(state_len, asks, k);
            let block = read_block(e, k);
            &&& block.len() == 1 + asks[k].options.len()
            &&& forall|j: int|
                0 <= j < block.len() ==> start <= #[trigger] block[j] < start + encode::branch_len(
                    asks[k],
                )
        }),
{
    let start = branch_start(state_len, asks, k);
    let block = read_block(e, k);
    assert forall|j: int| 0 <= j < block.len() implies start <= #[trigger] block[j] < start
        + encode::branch_len(asks[k]) by {
        if j > 0 {
            assert(block[j] == e.options[k][j - 1]);
            encode::lemma_spans_len_monotone(asks[k].options, j);
        }
    }
}

/// The question numbers of a layout run from one to the number of questions.
proof fn lemma_questions_counted(
    d: Delimiters,
    isolate: bool,
    state: Seq<u32>,
    asks: Seq<AskView>,
    s: int,
)
    requires
        asks.len() < u32::MAX,
        1 <= s <= asks.len() + 1,
    ensures
        pass::questions_from(encode::layout(d, isolate, state, asks).segments, s) == asks.len() + 1
            - s,
    decreases asks.len() + 1 - s,
{
    let e = encode::layout(d, isolate, state, asks);
    let state_len = state.len() as int;
    lemma_layout(d, isolate, state, asks);
    if s <= asks.len() {
        lemma_questions_counted(d, isolate, state, asks, s + 1);
        assert(branch_laid(e, d, isolate, state_len, asks, s - 1));
        let at = branch_start(state_len, asks, s - 1);
        lemma_branch_start_ascends(state_len, asks, s - 1, s);
        lemma_branch_start_ascends(state_len, asks, s, asks.len() as int);
        assert(branch_start(state_len, asks, s) == at + encode::branch_len(asks[s - 1]));
        assert(e.segments[at] == s as u32);
        assert(e.segments.contains(s as u32));
    } else {
        assert forall|i: int| 0 <= i < e.segments.len() implies #[trigger] e.segments[i]
            != s as u32 by {
            if i < state_len {
            } else {
                let k = lemma_token_has_question(state_len, asks, i);
                assert(branch_laid(e, d, isolate, state_len, asks, k));
            }
        }
        assert(!e.segments.contains(s as u32));
    }
}

/// Every question is laid out as if it were the only one. Taken out of a packed
/// request with its state, a question has the tokens, positions, slots and
/// readout that it has when it is asked alone; only its number differs.
pub proof fn law_a_question_is_laid_out_as_if_alone(
    d: Delimiters,
    isolate: bool,
    state: Seq<u32>,
    asks: Seq<AskView>,
    k: int,
)
    requires
        0 <= k < asks.len() < u32::MAX,
    ensures
        ({
            let packed = pass_of(encode::layout(d, isolate, state, asks));
            let row = packed.row_part((k + 1) as u32);
            let alone = pass_of(encode::layout(d, isolate, state, seq![asks[k]]));
            &&& packed.question_count() == asks.len()
            &&& row.ids == alone.ids
            &&& row.positions == alone.positions
            &&& row.options == alone.options
            &&& row.readout == alone.readout
            &&& row.segments == Seq::new(
                alone.segments.len(),
                |i: int|
                    if alone.segments[i] == 0 {
                        0u32
                    } else {
                        (k + 1) as u32
                    },
            )
        }),
{
    let e = encode::layout(d, isolate, state, asks);
    let packed = pass_of(e);
    let s = (k + 1) as u32;
    let row = packed.row_part(s);
    let one = seq![asks[k]];
    let e1 = encode::layout(d, isolate, state, one);
    let alone = pass_of(e1);
    let state_len = state.len() as int;
    let n = e.ids.len() as int;
    let len = encode::branch_len(asks[k]) as int;
    let start = branch_start(state_len, asks, k);

    lemma_layout(d, isolate, state, asks);
    lemma_layout(d, isolate, state, one);
    lemma_questions_counted(d, isolate, state, asks, 1);
    assert(branch_laid(e, d, isolate, state_len, asks, k));
    assert(branch_laid(e1, d, isolate, state_len, one, 0));
    lemma_branch_start_ascends(state_len, asks, k, k + 1);
    lemma_branch_start_ascends(state_len, asks, k + 1, asks.len() as int);
    assert(branch_start(state_len, asks, k + 1) == start + len);
    assert(branch_start(state_len, one, 1) == branch_start(state_len, one, 0) + len);
    assert(branch_start(state_len, one, 0) == state_len);

    assert forall|i: int| 0 <= i < n implies (#[trigger] e.segments[i] == 0 <==> 0 <= i
        < state_len) && (e.segments[i] == s <==> start <= i < start + len) by {
        lemma_segment_of(d, isolate, state, asks, i);
        assert(branch_start(state_len, asks, k) == start);
    }
    lemma_members_of_run(e.segments, n, 0, 0, state_len);
    lemma_members_of_run(e.segments, n, s, start, start + len);
    let at = packed.segment(0) + packed.segment(s);
    assert(at == Seq::new(
        (state_len + len) as nat,
        |i: int|
            if i < state_len {
                i
            } else {
                start + i - state_len
            },
    ));
    assert forall|i: int| 0 <= i < state_len + len implies ({
        &&& row.ids[i] == alone.ids[i]
        &&& row.positions[i] == alone.positions[i]
        &&& isolate ==> row.options[i] == alone.options[i]
        &&& row.segments[i] == if alone.segments[i] == 0 {
            0u32
        } else {
            s
        }
    }) by {
        if i < state_len {
            assert(e.segments[i] == 0);
            assert(e1.segments[i] == 0);
        } else {
            assert(e.segments[start + i - state_len] == s);
            assert(e1.segments[i] == 1);
        }
    }
    assert(row.ids =~= alone.ids);
    assert(row.positions =~= alone.positions);
    assert(row.options =~= alone.options);
    assert(row.segments =~= Seq::new(
        alone.segments.len(),
        |i: int|
            if alone.segments[i] == 0 {
                0u32
            } else {
                s
            },
    ));

    lemma_readout_of_question(d, isolate, state, asks, k, asks.len() as int, state_len);
    let block = read_block(e, k);
    let block1 = read_block(e1, 0);
    assert(encode::readout_of(e1, 1) == encode::readout_of(e1, 0) + block1);
    assert(alone.readout == block1);
    assert(row.readout =~= alone.readout) by {
        assert forall|j: int| 0 <= j < block.len() implies block1[j] == state_len + block[j]
            - start by {
            if j > 0 {
                assert(block[j] == e.options[k][j - 1]);
                assert(block1[j] == e1.options[0][j - 1]);
            }
        }
    }
}

/// A token reads nothing later than itself, and nothing of another question: what
/// it reads is the state or its own question.
pub proof fn law_a_token_reads_the_state_and_its_own_question(p: PassView, query: int, key: int)
    requires
        p.reads(query, key),
    ensures
        key <= query,
        p.segments[key] == 0 || p.segments[key] == p.segments[query],
{
}

/// Questions that share a pass cannot read each other.
pub proof fn law_questions_cannot_read_each_other(p: PassView, a: int, b: int)
    requires
        p.segments[a] != 0,
        p.segments[b] != 0,
        p.segments[a] != p.segments[b],
    ensures
        !p.reads(a, b),
        !p.reads(b, a),
{
}

/// In a layout every token behind it can read every token of the state, and no
/// token of the state can read a question.
pub proof fn law_every_question_reads_the_state(
    d: Delimiters,
    isolate: bool,
    state: Seq<u32>,
    asks: Seq<AskView>,
    query: int,
    key: int,
)
    requires
        0 <= key < state.len(),
        key <= query < encode::layout(d, isolate, state, asks).ids.len(),
        asks.len() < u32::MAX,
    ensures
        ({
            let p = pass_of(encode::layout(d, isolate, state, asks));
            &&& p.reads(query, key)
            &&& p.segments[query] != 0 ==> !p.reads(key, query)
        }),
{
    lemma_segment_of(d, isolate, state, asks, key);
    lemma_segment_of(d, isolate, state, asks, query);
}

/// Where the options are not isolated, a token of a question can read everything
/// of its question that comes before it.
pub proof fn law_a_question_reads_itself(p: PassView, query: int, key: int)
    requires
        key <= query,
        p.segments[key] == p.segments[query],
        p.options.len() == 0,
    ensures
        p.reads(query, key),
{
}

/// Where the options are isolated, the options of a question cannot read each
/// other; each can read what they share, and `<decide>` can read every option.
pub proof fn law_isolated_options_cannot_read_each_other(p: PassView, a: int, b: int)
    requires
        p.options.len() > 0,
        b <= a,
        p.segments[a] == p.segments[b],
        p.segments[a] != 0,
    ensures
        p.options[a] is Option && p.options[b] is Option && p.options[a] != p.options[b]
            ==> !p.reads(a, b),
        p.options[b] == OptionSlot::Shared ==> p.reads(a, b),
        p.options[a] == OptionSlot::Decide ==> p.reads(a, b),
        p.options[a] == p.options[b] ==> p.reads(a, b),
{
}

/// A row is the state followed by the question's branch, and its readout is the
/// branch's readout behind the state.
pub proof fn law_a_row_is_the_state_and_a_branch(p: PassView, s: u32)
    requires
        p.ids.len() <= p.segments.len(),
    ensures
        p.row_part(s).ids == p.state_part().ids + p.branch_part(s).ids,
        p.row_part(s).positions == p.state_part().positions + p.branch_part(s).positions,
        p.row_part(s).segments == p.state_part().segments + p.branch_part(s).segments,
        p.row_part(s).options == p.state_part().options + p.branch_part(s).options,
        p.row_part(s).readout == Seq::new(
            p.branch_part(s).readout.len(),
            |j: int| p.state_part().ids.len() + p.branch_part(s).readout[j],
        ),
{
    pass::lemma_members(p.segments, p.ids.len() as int, 0);
    pass::lemma_members(p.segments, p.ids.len() as int, s);
    lemma_read_in_shift(p.segments, p.readout, s, p.segment(0).len() as int);
}

/// The state comes before every question.
pub open spec fn state_first(p: PassView) -> bool {
    forall|i: int, j: int|
        0 <= i <= j < p.ids.len() && #[trigger] p.segments[j] == 0 ==> #[trigger] p.segments[i]
            == 0
}

/// The first position ids, in order.
pub open spec fn from_start(n: nat) -> Seq<u32> {
    Seq::new(n, |i: int| i as u32)
}

/// The state of this pass stands at the first positions.
pub open spec fn state_at_start(pass: PassView) -> bool {
    pass.state_part().positions == from_start(pass.state_part().ids.len())
}

/// The state of a layout's pass is the state that was laid out, token by token, at the
/// first positions.
pub proof fn law_the_state_stands_at_the_start(
    d: Delimiters,
    isolate: bool,
    state: Seq<u32>,
    asks: Seq<AskView>,
)
    requires
        asks.len() < u32::MAX,
    ensures
        pass_of(encode::layout(d, isolate, state, asks)).state_part().ids == state,
        state_at_start(pass_of(encode::layout(d, isolate, state, asks))),
{
    let e = encode::layout(d, isolate, state, asks);
    let part = pass_of(e).state_part();
    let state_len = state.len() as int;
    lemma_layout(d, isolate, state, asks);
    lemma_branch_start_ascends(state_len, asks, 0, asks.len() as int);
    assert forall|i: int| 0 <= i < e.ids.len() implies (#[trigger] e.segments[i] == 0 <==> 0 <= i
        < state_len) by {
        lemma_segment_of(d, isolate, state, asks, i);
    }
    lemma_members_of_run(e.segments, e.ids.len() as int, 0, 0, state_len);
    assert forall|i: int| 0 <= i < state_len implies part.ids[i] == state[i] by {
        assert(e.segments[i] == 0);
    }
    assert forall|i: int| 0 <= i < state_len implies part.positions[i] == i as u32 by {
        assert(e.segments[i] == 0);
    }
    assert(part.ids =~= state);
    assert(part.positions =~= from_start(part.ids.len()));
}

/// In a layout the state comes before every question.
pub proof fn law_the_state_comes_first(
    d: Delimiters,
    isolate: bool,
    state: Seq<u32>,
    asks: Seq<AskView>,
)
    requires
        asks.len() < u32::MAX,
    ensures
        state_first(pass_of(encode::layout(d, isolate, state, asks))),
{
    let p = pass_of(encode::layout(d, isolate, state, asks));
    assert forall|i: int, j: int|
        0 <= i <= j < p.ids.len() && #[trigger] p.segments[j] == 0 implies #[trigger] p.segments[i]
        == 0 by {
        lemma_segment_of(d, isolate, state, asks, i);
        lemma_segment_of(d, isolate, state, asks, j);
    }
}

proof fn lemma_row_ascends(p: PassView, s: u32, a: int, b: int)
    requires
        state_first(p),
        s > 0,
        0 <= a < (p.segment(0) + p.segment(s)).len(),
        0 <= b < (p.segment(0) + p.segment(s)).len(),
    ensures
        b <= a <==> (p.segment(0) + p.segment(s))[b] <= (p.segment(0) + p.segment(s))[a],
{
    if b < a {
        lemma_row_climbs(p, s, b, a);
    } else if a < b {
        lemma_row_climbs(p, s, a, b);
    }
}

proof fn lemma_row_climbs(p: PassView, s: u32, a: int, b: int)
    requires
        state_first(p),
        s > 0,
        0 <= a < b < (p.segment(0) + p.segment(s)).len(),
    ensures
        (p.segment(0) + p.segment(s))[a] < (p.segment(0) + p.segment(s))[b],
{
    let n = p.ids.len() as int;
    let lead = p.segment(0).len() as int;
    pass::lemma_members(p.segments, n, 0);
    pass::lemma_members(p.segments, n, s);
    if b < lead {
        lemma_members_climb(p.segments, n, 0, a, b);
    } else if a >= lead {
        lemma_members_climb(p.segments, n, s, a - lead, b - lead);
    } else {
        let i = p.segment(0)[a];
        let j = p.segment(s)[b - lead];
        assert(p.segments[i] == 0 && p.segments[j] == s);
        if j <= i {
            assert(p.segments[j] == 0);
        }
    }
}

proof fn lemma_members_climb(segments: Seq<u32>, n: int, s: u32, a: int, b: int)
    requires
        0 <= a < b < pass::members(segments, n, s).len(),
    ensures
        pass::members(segments, n, s)[a] < pass::members(segments, n, s)[b],
    decreases n,
{
    if n > 0 {
        pass::lemma_members(segments, n - 1, s);
        if b < pass::members(segments, n - 1, s).len() {
            lemma_members_climb(segments, n - 1, s, a, b);
        }
    }
}

/// A token reads in its row exactly what it reads in the whole pass: running rows is
/// the mask, taken apart.
pub proof fn law_a_row_reads_as_the_pass_does(p: PassView, s: u32, query: int, key: int)
    requires
        state_first(p),
        s > 0,
        0 <= query < (p.segment(0) + p.segment(s)).len(),
        0 <= key < (p.segment(0) + p.segment(s)).len(),
    ensures
        p.row_part(s).reads(query, key) == p.reads(
            (p.segment(0) + p.segment(s))[query],
            (p.segment(0) + p.segment(s))[key],
        ),
{
    lemma_row_ascends(p, s, query, key);
}

/// A row leaves out nothing that its tokens read.
pub proof fn law_a_row_holds_all_that_is_read(p: PassView, s: u32, query: int, key: int)
    requires
        0 <= query < (p.segment(0) + p.segment(s)).len(),
        0 <= key < p.ids.len(),
        p.reads((p.segment(0) + p.segment(s))[query], key),
    ensures
        (p.segment(0) + p.segment(s)).contains(key),
{
    let n = p.ids.len() as int;
    let at = p.segment(0) + p.segment(s);
    let lead = p.segment(0).len() as int;
    pass::lemma_members(p.segments, n, 0);
    pass::lemma_members(p.segments, n, s);
    if query < lead {
        assert(at[query] == p.segment(0)[query]);
    } else {
        assert(at[query] == p.segment(s)[query - lead]);
    }
    if p.segments[key] == 0 {
        assert(at[pass::members(p.segments, key, 0).len() as int] == key);
    } else {
        assert(at[lead + pass::members(p.segments, key, s).len()] == key);
    }
}

/// A row of a question whose options may read each other needs no more than a causal
/// mask.
pub proof fn law_rows_are_causal(p: PassView, s: u32, query: int, key: int)
    requires
        p.options.len() == 0,
        0 <= query < (p.segment(0) + p.segment(s)).len(),
        0 <= key < (p.segment(0) + p.segment(s)).len(),
    ensures
        p.row_part(s).reads(query, key) <==> key <= query,
{
    let n = p.ids.len() as int;
    let at = p.segment(0) + p.segment(s);
    let lead = p.segment(0).len() as int;
    pass::lemma_members(p.segments, n, 0);
    pass::lemma_members(p.segments, n, s);
    if key < lead {
        assert(at[key] == p.segment(0)[key]);
    } else {
        assert(at[key] == p.segment(s)[key - lead]);
        if key <= query {
            assert(at[query] == p.segment(s)[query - lead]);
        }
    }
}

/// With one question behind the state, or none, and options that may read each
/// other, a plain causal mask is enough.
pub proof fn law_one_question_needs_a_causal_mask_only(p: PassView, query: int, key: int)
    requires
        p.one_question(),
        p.ids.len() <= p.segments.len(),
        state_first(p),
        0 <= query < p.ids.len(),
        0 <= key < p.ids.len(),
    ensures
        p.reads(query, key) <==> key <= query,
{
    if key <= query && p.segments[query] == 0 {
        assert(p.segments[key] == 0);
    }
}

/// A row carries one question, whatever its number.
pub proof fn law_a_row_carries_one_question(p: PassView, s: u32)
    requires
        p.options.len() == 0,
    ensures
        p.row_part(s).one_question(),
{
    let n = p.ids.len() as int;
    let at = p.segment(0) + p.segment(s);
    let lead = p.segment(0).len() as int;
    pass::lemma_members(p.segments, n, 0);
    pass::lemma_members(p.segments, n, s);
    assert forall|i: int| 0 <= i < at.len() implies #[trigger] p.row_part(s).segments[i] == 0
        || p.row_part(s).segments[i] == s by {
        if i < lead {
            assert(at[i] == p.segment(0)[i]);
        } else {
            assert(at[i] == p.segment(s)[i - lead]);
        }
    }
}

proof fn lemma_read_in_shift(segments: Seq<u32>, readout: Seq<int>, s: u32, lead: int)
    ensures
        pass::read_in(segments, readout, s, lead) == Seq::new(
            pass::read_in(segments, readout, s, 0).len(),
            |j: int| lead + pass::read_in(segments, readout, s, 0)[j],
        ),
    decreases readout.len(),
{
    if readout.len() > 0 {
        lemma_read_in_shift(segments, readout.drop_last(), s, lead);
    }
    assert(pass::read_in(segments, readout, s, lead) =~= Seq::new(
        pass::read_in(segments, readout, s, 0).len(),
        |j: int| lead + pass::read_in(segments, readout, s, 0)[j],
    ));
}

/// None of these tokens is a delimiter.
pub open spec fn plain(d: Delimiters, tokens: Seq<u32>) -> bool {
    forall|i: int|
        0 <= i < tokens.len() ==> #[trigger] tokens[i] != d.state && tokens[i] != d.question
            && tokens[i] != d.option && tokens[i] != d.option_end && tokens[i] != d.decide
}

/// No text of this question holds a delimiter.
pub open spec fn plain_ask(d: Delimiters, ask: AskView) -> bool {
    plain(d, ask.instructions) && forall|j: int|
        0 <= j < ask.options.len() ==> plain(d, #[trigger] ask.options[j])
}

/// The five delimiters are five different tokens.
pub open spec fn distinct(d: Delimiters) -> bool {
    &&& d.state != d.question && d.state != d.option && d.state != d.option_end && d.state
        != d.decide
    &&& d.question != d.option && d.question != d.option_end && d.question != d.decide
    &&& d.option != d.option_end && d.option != d.decide
    &&& d.option_end != d.decide
}

/// Where option `j` opens among the spans.
pub open spec fn span_start(options: Seq<Seq<u32>>, j: int) -> int {
    encode::spans_len(options.take(j)) as int
}

proof fn lemma_spans_hold(d: Delimiters, options: Seq<Seq<u32>>)
    ensures
        forall|j: int|
            0 <= j < options.len() ==> 0 <= #[trigger] span_start(options, j) && span_start(
                options,
                j,
            ) + options[j].len() + 2 == span_start(options, j + 1) && span_start(options, j + 1)
                <= encode::spans_len(options) && encode::spans(d, options)[span_start(options, j)]
                == d.option && encode::spans(d, options)[span_start(options, j + 1) - 1]
                == d.option_end,
    decreases options.len(),
{
    encode::lemma_spans_len(d, options);
    if options.len() > 0 {
        let rest = options.drop_last();
        lemma_spans_hold(d, rest);
        encode::lemma_spans_len(d, rest);
        assert forall|j: int| 0 <= j < options.len() implies 0 <= #[trigger] span_start(options, j)
            && span_start(options, j) + options[j].len() + 2 == span_start(options, j + 1)
            && span_start(options, j + 1) <= encode::spans_len(options) && encode::spans(
            d,
            options,
        )[span_start(options, j)] == d.option && encode::spans(d, options)[span_start(
            options,
            j + 1,
        ) - 1] == d.option_end by {
            if j < rest.len() {
                assert(options.take(j) == rest.take(j));
                assert(options.take(j + 1) == rest.take(j + 1));
                assert(span_start(rest, j) == span_start(options, j));
                assert(span_start(rest, j + 1) == span_start(options, j + 1));
            } else {
                assert(options.take(j) == rest);
                assert(options.take(j + 1) == options);
            }
        }
    }
}

proof fn lemma_spans_hold_no_other(d: Delimiters, options: Seq<Seq<u32>>, i: int)
    requires
        distinct(d),
        forall|j: int| 0 <= j < options.len() ==> plain(d, #[trigger] options[j]),
        0 <= i < encode::spans_len(options),
    ensures
        ({
            let t = encode::spans(d, options)[i];
            &&& t != d.state && t != d.question && t != d.decide
            &&& t == d.option ==> exists|j: int|
                0 <= j < options.len() && i == #[trigger] span_start(options, j)
            &&& t == d.option_end ==> exists|j: int|
                0 <= j < options.len() && i + 1 == #[trigger] span_start(options, j + 1)
        }),
    decreases options.len(),
{
    let t = encode::spans(d, options)[i];
    let rest = options.drop_last();
    let m = rest.len() as int;
    encode::lemma_spans_len(d, rest);
    encode::lemma_spans_len(d, options);
    assert(options.take(m) == rest);
    assert(options.take(m + 1) == options);
    if i < encode::spans_len(rest) {
        assert forall|j: int| 0 <= j < rest.len() implies plain(d, #[trigger] rest[j]) by {
            assert(rest[j] == options[j]);
        }
        lemma_spans_hold_no_other(d, rest, i);
        assert(t == encode::spans(d, rest)[i]);
        if t == d.option {
            let j = choose|j: int| 0 <= j < rest.len() && i == #[trigger] span_start(rest, j);
            assert(options.take(j) == rest.take(j));
            assert(i == span_start(options, j));
        }
        if t == d.option_end {
            let j = choose|j: int|
                0 <= j < rest.len() && i + 1 == #[trigger] span_start(rest, j + 1);
            assert(options.take(j + 1) == rest.take(j + 1));
            assert(i + 1 == span_start(options, j + 1));
        }
    } else {
        let last = options.last();
        assert(last == options[m]);
        let at = i - encode::spans_len(rest);
        assert(t == encode::span(d, last)[at]);
        if at == 0 {
            assert(i == span_start(options, m));
        } else if at == last.len() + 1 {
            assert(i + 1 == span_start(options, m + 1));
        } else {
            assert(t == last[at - 1]);
        }
    }
}

/// The readout reads each question's `<decide>` and then the `</opt>` of each of
/// its options, in option order.
pub proof fn law_the_readout_reads_decide_and_option_ends(
    d: Delimiters,
    isolate: bool,
    state: Seq<u32>,
    asks: Seq<AskView>,
    k: int,
    j: int,
)
    requires
        0 <= k < asks.len(),
    ensures
        ({
            let e = encode::layout(d, isolate, state, asks);
            &&& e.decide.len() == asks.len()
            &&& e.options.len() == asks.len()
            &&& e.options[k].len() == asks[k].options.len()
            &&& 0 <= e.decide[k] < e.ids.len()
            &&& e.ids[e.decide[k]] == d.decide
            &&& 0 <= j < asks[k].options.len() ==> 0 <= e.options[k][j] < e.decide[k]
                && e.ids[e.options[k][j]] == d.option_end
            &&& 0 <= j && j + 1 < asks[k].options.len() ==> e.options[k][j] < e.options[k][j + 1]
        }),
{
    let e = encode::layout(d, isolate, state, asks);
    let state_len = state.len() as int;
    let ask = asks[k];
    let start = branch_start(state_len, asks, k);
    lemma_layout(d, isolate, state, asks);
    assert(branch_laid(e, d, isolate, state_len, asks, k));
    lemma_branch_start_ascends(state_len, asks, k, k + 1);
    lemma_branch_start_ascends(state_len, asks, k + 1, asks.len() as int);
    assert(branch_start(state_len, asks, k + 1) == start + encode::branch_len(ask));
    encode::lemma_branch_len(d, isolate, state_len, ask);
    encode::lemma_spans_len(d, ask.options);
    assert(e.segments[e.decide[k]] == (k + 1) as u32);
    if 0 <= j < ask.options.len() {
        lemma_spans_hold(d, ask.options);
        assert(0 <= span_start(ask.options, j));
        let at = encode::option_end_at(ask, j);
        assert(at == ask.instructions.len() + span_start(ask.options, j + 1));
        assert(encode::branch_ids(d, ask)[at] == encode::spans(d, ask.options)[span_start(
            ask.options,
            j + 1,
        ) - 1]);
        assert(e.segments[start + at] == (k + 1) as u32);
        if j + 1 < ask.options.len() {
            assert(0 <= span_start(ask.options, j + 1));
        }
    }
}

/// Boundaries cannot be forged: where no text holds a delimiter, the delimiters of
/// a layout are exactly those that the layout put there.
pub proof fn law_delimiters_stand_only_where_they_were_laid(
    d: Delimiters,
    isolate: bool,
    state: Seq<u32>,
    asks: Seq<AskView>,
    i: int,
)
    requires
        distinct(d),
        plain(d, state),
        forall|k: int| 0 <= k < asks.len() ==> plain_ask(d, #[trigger] asks[k]),
        0 <= i < encode::layout(d, isolate, seq![d.state] + state, asks).ids.len(),
        asks.len() < u32::MAX,
    ensures
        ({
            let whole = seq![d.state] + state;
            let e = encode::layout(d, isolate, whole, asks);
            let n = whole.len() as int;
            &&& e.ids[i] == d.state <==> i == 0
            &&& e.ids[i] == d.question <==> exists|k: int|
                0 <= k < asks.len() && i == #[trigger] branch_start(n, asks, k)
            &&& e.ids[i] == d.option <==> exists|k: int, j: int|
                0 <= k < asks.len() && 0 <= j < asks[k].options.len() && i
                    == #[trigger] branch_start(n, asks, k) + 1 + asks[k].instructions.len()
                    + #[trigger] span_start(asks[k].options, j)
            &&& e.ids[i] == d.option_end <==> exists|k: int, j: int|
                0 <= k < asks.len() && 0 <= j < asks[k].options.len() && i
                    == #[trigger] e.options[k][j]
            &&& e.ids[i] == d.decide <==> exists|k: int|
                0 <= k < asks.len() && i == #[trigger] e.decide[k]
        }),
{
    let whole = seq![d.state] + state;
    let e = encode::layout(d, isolate, whole, asks);
    let n = whole.len() as int;
    let t = e.ids[i];
    lemma_layout(d, isolate, whole, asks);
    // What the layout put there is there.
    assert forall|k: int| 0 <= k < asks.len() implies e.ids[#[trigger] branch_start(n, asks, k)]
        == d.question by {
        assert(branch_laid(e, d, isolate, n, asks, k));
        assert(e.segments[branch_start(n, asks, k)] == (k + 1) as u32);
    }
    assert forall|k: int| 0 <= k < asks.len() implies e.ids[#[trigger] e.decide[k]] == d.decide by {
        law_the_readout_reads_decide_and_option_ends(d, isolate, whole, asks, k, -1);
    }
    assert forall|k: int, j: int|
        0 <= k < asks.len() && 0 <= j < asks[k].options.len() implies e.ids[#[trigger] e.options[k][j]]
        == d.option_end by {
        law_the_readout_reads_decide_and_option_ends(d, isolate, whole, asks, k, j);
    }
    assert forall|k: int, j: int|
        0 <= k < asks.len() && 0 <= j < asks[k].options.len() implies e.ids[#[trigger] branch_start(
        n,
        asks,
        k,
    ) + 1 + asks[k].instructions.len() + #[trigger] span_start(asks[k].options, j)]
        == d.option by {
        let ask = asks[k];
        let start = branch_start(n, asks, k);
        assert(branch_laid(e, d, isolate, n, asks, k));
        lemma_spans_hold(d, ask.options);
        encode::lemma_spans_len(d, ask.options);
        assert(0 <= span_start(ask.options, j));
        let at = 1 + ask.instructions.len() + span_start(ask.options, j);
        assert(encode::branch_ids(d, ask)[at] == encode::spans(d, ask.options)[span_start(
            ask.options,
            j,
        )]);
        assert(e.segments[start + at] == (k + 1) as u32);
    }
    // And nothing else is.
    if i < n {
        assert(e.segments[i] == 0);
        assert(t == whole[i]);
        if i > 0 {
            assert(t == state[i - 1]);
        }
    } else {
        let k = lemma_token_has_question(n, asks, i);
        let ask = asks[k];
        let start = branch_start(n, asks, k);
        let at = i - start;
        assert(branch_laid(e, d, isolate, n, asks, k));
        assert(e.segments[i] == (k + 1) as u32);
        assert(t == encode::branch_ids(d, ask)[at]);
        encode::lemma_spans_len(d, ask.options);
        let opened = 1 + ask.instructions.len();
        if at == 0 {
        } else if at < opened {
            assert(t == ask.instructions[at - 1]);
        } else if at < opened + encode::spans_len(ask.options) {
            lemma_spans_hold_no_other(d, ask.options, at - opened);
            assert(t == encode::spans(d, ask.options)[at - opened]);
            if t == d.option {
                let j = choose|j: int|
                    0 <= j < ask.options.len() && at - opened == #[trigger] span_start(
                        ask.options,
                        j,
                    );
                assert(i == branch_start(n, asks, k) + 1 + asks[k].instructions.len() + span_start(
                    asks[k].options,
                    j,
                ));
            }
            if t == d.option_end {
                let j = choose|j: int|
                    0 <= j < ask.options.len() && at - opened + 1 == #[trigger] span_start(
                        ask.options,
                        j + 1,
                    );
                assert(i == e.options[k][j]);
            }
        } else {
            assert(i == e.decide[k]);
        }
    }
}

proof fn lemma_span_positions(from: int, options: Seq<Seq<u32>>, j: int, i: int)
    requires
        0 <= j < options.len(),
        0 <= i < options[j].len() + 2,
    ensures
        0 <= span_start(options, j),
        span_start(options, j) + i < encode::spans_len(options),
        encode::span_positions(from, options)[span_start(options, j) + i] == from + i,
        encode::span_slots(options)[span_start(options, j) + i] == OptionSlot::Option(j as u8),
    decreases options.len(),
{
    let d = Delimiters { state: 0, question: 0, option: 0, option_end: 0, decide: 0 };
    let rest = options.drop_last();
    encode::lemma_span_positions_len(from, rest);
    encode::lemma_span_positions_len(from, options);
    encode::lemma_spans_len(d, rest);
    encode::lemma_spans_len(d, options);
    if j < rest.len() {
        assert(options.take(j) == rest.take(j));
        lemma_span_positions(from, rest, j, i);
    } else {
        assert(options.take(j) == rest);
    }
}

/// Where the options are isolated, every option span starts where the
/// instructions end and runs on from there, and `<decide>` sits just past the
/// longest of them: no option can be told apart by where it sits.
pub proof fn law_isolated_options_start_level(state_len: int, ask: AskView, j: int, i: int)
    requires
        0 <= j < ask.options.len(),
        0 <= i < ask.options[j].len() + 2,
    ensures
        ({
            let positions = encode::branch_positions(true, state_len, ask);
            let slots = encode::branch_slots(ask);
            let opened = 1 + ask.instructions.len();
            let at = opened + span_start(ask.options, j) + i;
            &&& positions.len() == encode::branch_len(ask)
            &&& slots.len() == encode::branch_len(ask)
            &&& opened <= at < positions.len() - 1
            &&& positions[at] == state_len + opened + i
            &&& slots[at] == OptionSlot::Option(j as u8)
            &&& positions.last() == state_len + opened + encode::longest_span(ask.options)
            &&& slots.last() == OptionSlot::Decide
            &&& positions[at] < positions.last()
        }),
{
    let d = Delimiters { state: 0, question: 0, option: 0, option_end: 0, decide: 0 };
    let opened = 1 + ask.instructions.len();
    encode::lemma_branch_len(d, true, state_len, ask);
    encode::lemma_span_positions_len(state_len + opened, ask.options);
    encode::lemma_spans_len(d, ask.options);
    encode::lemma_longest_span(ask.options);
    lemma_span_positions(state_len + opened, ask.options, j, i);
}

/// Where the options are not isolated, a branch's positions run on from the state.
pub proof fn law_positions_run_on_from_the_state(state_len: int, ask: AskView, i: int)
    requires
        0 <= i < encode::branch_len(ask),
    ensures
        encode::branch_positions(false, state_len, ask).len() == encode::branch_len(ask),
        encode::branch_positions(false, state_len, ask)[i] == state_len + i,
{
}

/// The tokens that the first `n` rows of a pass are read from, as their places in
/// the pass.
pub open spec fn rows_read(p: PassView, n: int) -> Seq<int>
    decreases n,
{
    if n <= 0 {
        Seq::empty()
    } else {
        rows_read(p, n - 1) + pass::picked(
            p.segment(0) + p.segment(n as u32),
            p.row_part(n as u32).readout,
        )
    }
}

proof fn lemma_rows_read(
    d: Delimiters,
    isolate: bool,
    state: Seq<u32>,
    asks: Seq<AskView>,
    n: int,
)
    requires
        0 <= n <= asks.len() < u32::MAX,
    ensures
        ({
            let e = encode::layout(d, isolate, state, asks);
            rows_read(pass_of(e), n) == encode::readout_of(e, n)
        }),
    decreases n,
{
    let e = encode::layout(d, isolate, state, asks);
    let p = pass_of(e);
    let state_len = state.len() as int;
    lemma_layout(d, isolate, state, asks);
    if n > 0 {
        let k = n - 1;
        let s = n as u32;
        let start = branch_start(state_len, asks, k);
        let len = encode::branch_len(asks[k]) as int;
        lemma_rows_read(d, isolate, state, asks, k);
        assert(branch_laid(e, d, isolate, state_len, asks, k));
        lemma_block_in_branch(e, d, isolate, state_len, asks, k);
        lemma_readout_of_question(d, isolate, state, asks, k, asks.len() as int, state_len);
        lemma_branch_start_ascends(state_len, asks, k, k + 1);
        lemma_branch_start_ascends(state_len, asks, k + 1, asks.len() as int);
        assert(branch_start(state_len, asks, k + 1) == start + len);
        let total = e.ids.len() as int;
        assert forall|i: int| 0 <= i < total implies (#[trigger] e.segments[i] == 0 <==> 0 <= i
            < state_len) && (e.segments[i] == s <==> start <= i < start + len) by {
            lemma_segment_of(d, isolate, state, asks, i);
            assert(branch_start(state_len, asks, k) == start);
        }
        lemma_members_of_run(e.segments, total, 0, 0, state_len);
        lemma_members_of_run(e.segments, total, s, start, start + len);
        let at = p.segment(0) + p.segment(s);
        let block = read_block(e, k);
        assert(pass::picked(at, p.row_part(s).readout) =~= block);
        assert(encode::readout_of(e, n) =~= encode::readout_of(e, k) + block);
    }
}

/// Running the rows of a layout one after the other reads exactly the tokens that
/// the whole pass was to be read from, in the same order.
pub proof fn law_rows_are_read_in_the_order_asked(
    d: Delimiters,
    isolate: bool,
    state: Seq<u32>,
    asks: Seq<AskView>,
)
    requires
        asks.len() < u32::MAX,
    ensures
        ({
            let p = pass_of(encode::layout(d, isolate, state, asks));
            rows_read(p, p.question_count() as int) == p.readout
        }),
{
    lemma_layout(d, isolate, state, asks);
    lemma_questions_counted(d, isolate, state, asks, 1);
    lemma_rows_read(d, isolate, state, asks, asks.len() as int);
}

/// The tokens of a readout that lie in segment `s`, in the readout's order.
spec fn read_of(segments: Seq<u32>, readout: Seq<int>, s: int) -> Seq<int>
    decreases readout.len(),
{
    if readout.len() == 0 {
        Seq::empty()
    } else if segments[readout.last()] == s {
        read_of(segments, readout.drop_last(), s).push(readout.last())
    } else {
        read_of(segments, readout.drop_last(), s)
    }
}

/// The tokens of a readout that lie in the first `n` questions, one question after
/// the other.
spec fn read_up_to(segments: Seq<u32>, readout: Seq<int>, n: int) -> Seq<int>
    decreases n,
{
    if n <= 0 {
        Seq::empty()
    } else {
        read_up_to(segments, readout, n - 1) + read_of(segments, readout, n)
    }
}

/// A readout stays in the questions and takes them in their order.
pub open spec fn question_by_question(p: PassView) -> bool {
    &&& forall|j: int|
        0 <= j < p.readout.len() ==> 0 <= #[trigger] p.readout[j] < p.ids.len() && 1
            <= p.segments[p.readout[j]] <= p.question_count()
    &&& forall|i: int, j: int|
        0 <= i <= j < p.readout.len() ==> p.segments[#[trigger] p.readout[i]]
            <= p.segments[#[trigger] p.readout[j]]
}

proof fn lemma_row_reads(p: PassView, readout: Seq<int>, s: u32)
    requires
        forall|j: int| 0 <= j < readout.len() ==> 0 <= #[trigger] readout[j] < p.ids.len(),
    ensures
        pass::picked(
            p.segment(0) + p.segment(s),
            pass::read_in(p.segments, readout, s, p.segment(0).len() as int),
        ) == read_of(p.segments, readout, s as int),
    decreases readout.len(),
{
    let at = p.segment(0) + p.segment(s);
    let lead = p.segment(0).len() as int;
    if readout.len() > 0 {
        let rest = readout.drop_last();
        assert forall|j: int| 0 <= j < rest.len() implies 0 <= #[trigger] rest[j] < p.ids.len() by {
            assert(rest[j] == readout[j]);
        }
        lemma_row_reads(p, rest, s);
        let last = readout.last();
        assert(last == readout[readout.len() - 1]);
        if p.segments[last] == s {
            pass::lemma_members(p.segments, p.ids.len() as int, s);
            let place = pass::members(p.segments, last, s).len() as int;
            assert(at[lead + place] == p.segment(s)[place]);
            assert(p.segment(s)[place] == last);
        }
        assert(pass::picked(at, pass::read_in(p.segments, readout, s, lead)) =~= read_of(
            p.segments,
            readout,
            s as int,
        ));
    } else {
        assert(pass::picked(at, pass::read_in(p.segments, readout, s, lead)) =~= read_of(
            p.segments,
            readout,
            s as int,
        ));
    }
}

proof fn lemma_rows_read_up_to(p: PassView, n: int)
    requires
        0 <= n <= u32::MAX,
        forall|j: int| 0 <= j < p.readout.len() ==> 0 <= #[trigger] p.readout[j] < p.ids.len(),
    ensures
        rows_read(p, n) == read_up_to(p.segments, p.readout, n),
    decreases n,
{
    if n > 0 {
        lemma_rows_read_up_to(p, n - 1);
        lemma_row_reads(p, p.readout, n as u32);
    }
}

proof fn lemma_read_of_none(segments: Seq<u32>, readout: Seq<int>, s: int)
    requires
        forall|j: int| 0 <= j < readout.len() ==> segments[#[trigger] readout[j]] < s,
    ensures
        read_of(segments, readout, s) == Seq::<int>::empty(),
    decreases readout.len(),
{
    if readout.len() > 0 {
        let rest = readout.drop_last();
        assert forall|j: int| 0 <= j < rest.len() implies segments[#[trigger] rest[j]] < s by {
            assert(rest[j] == readout[j]);
        }
        assert(segments[readout[readout.len() - 1]] < s);
        lemma_read_of_none(segments, rest, s);
    }
}

/// One more token in a readout that takes the questions in their order.
proof fn lemma_one_more_read(segments: Seq<u32>, readout: Seq<int>, n: int)
    requires
        readout.len() > 0,
        forall|j: int|
            0 <= j < readout.len() ==> segments[#[trigger] readout[j]]
                <= segments[readout.last()],
        segments[readout.last()] >= 1,
    ensures
        read_up_to(segments, readout, n) == if n < segments[readout.last()] {
            read_up_to(segments, readout.drop_last(), n)
        } else {
            read_up_to(segments, readout.drop_last(), n).push(readout.last())
        },
    decreases n,
{
    let rest = readout.drop_last();
    let s = segments[readout.last()] as int;
    if n > 0 {
        lemma_one_more_read(segments, readout, n - 1);
        if n > s {
            lemma_read_of_none(segments, readout, n);
            assert forall|j: int| 0 <= j < rest.len() implies segments[#[trigger] rest[j]] < n by {
                assert(rest[j] == readout[j]);
            }
            lemma_read_of_none(segments, rest, n);
        }
        assert(read_up_to(segments, readout, n) =~= if n < s {
            read_up_to(segments, rest, n)
        } else {
            read_up_to(segments, rest, n).push(readout.last())
        });
    }
}

proof fn lemma_read_in_order(segments: Seq<u32>, readout: Seq<int>, n: int)
    requires
        forall|j: int|
            0 <= j < readout.len() ==> 1 <= segments[#[trigger] readout[j]] <= n,
        forall|i: int, j: int|
            0 <= i <= j < readout.len() ==> segments[#[trigger] readout[i]]
                <= segments[#[trigger] readout[j]],
    ensures
        read_up_to(segments, readout, n) == readout,
    decreases readout.len(),
{
    if readout.len() == 0 {
        lemma_nothing_read(segments, n);
        assert(readout =~= Seq::<int>::empty());
    } else {
        let rest = readout.drop_last();
        assert forall|j: int| 0 <= j < rest.len() implies 1 <= segments[#[trigger] rest[j]]
            <= n by {
            assert(rest[j] == readout[j]);
        }
        assert forall|i: int, j: int| 0 <= i <= j < rest.len() implies segments[#[trigger] rest[i]]
            <= segments[#[trigger] rest[j]] by {
            assert(rest[i] == readout[i] && rest[j] == readout[j]);
        }
        lemma_read_in_order(segments, rest, n);
        let last = readout.len() - 1;
        assert(readout.last() == readout[last]);
        assert forall|j: int| 0 <= j < readout.len() implies segments[#[trigger] readout[j]]
            <= segments[readout.last()] by {
            assert(segments[readout[j]] <= segments[readout[last]]);
        }
        lemma_one_more_read(segments, readout, n);
        assert(rest.push(readout.last()) =~= readout);
    }
}

proof fn lemma_nothing_read(segments: Seq<u32>, n: int)
    ensures
        read_up_to(segments, Seq::<int>::empty(), n) == Seq::<int>::empty(),
    decreases n,
{
    if n > 0 {
        lemma_nothing_read(segments, n - 1);
        assert(read_up_to(segments, Seq::<int>::empty(), n) =~= Seq::<int>::empty());
    }
}

/// Running the rows of any pass one after the other reads exactly the tokens that
/// the pass is to be read from, in the same order, as long as the readout stays in
/// the questions and takes them in their order.
pub proof fn law_rows_read_what_a_pass_asks_for(p: PassView)
    requires
        p.question_count() <= u32::MAX,
        question_by_question(p),
    ensures
        rows_read(p, p.question_count() as int) == p.readout,
{
    lemma_rows_read_up_to(p, p.question_count() as int);
    lemma_read_in_order(p.segments, p.readout, p.question_count() as int);
}

/// The state is cut to the limit and keeps its delimiter: what is laid out of it is
/// the delimiter and the first of its tokens.
pub proof fn law_a_long_state_is_cut(d: Delimiters, limits: encode::Limits, state: Seq<u32>)
    requires
        limits.usable(),
    ensures
        ({
            let ids = encode::state_ids(d, limits, state);
            &&& ids[0] == d.state
            &&& ids.len() == if state.len() < limits.max_state {
                state.len() + 1
            } else {
                limits.max_state as nat
            }
            &&& forall|i: int| 1 <= i < ids.len() ==> #[trigger] ids[i] == state[i - 1]
        }),
{
}

/// Where the options are isolated, `<decide>` sits in the same place whatever order
/// they come in: it depends on which options there are, not on their order.
pub proof fn law_isolated_decide_ignores_the_order(state_len: int, a: AskView, b: AskView)
    requires
        a.instructions == b.instructions,
        forall|o: Seq<u32>| a.options.contains(o) <==> b.options.contains(o),
    ensures
        encode::branch_positions(true, state_len, a).last() == encode::branch_positions(
            true,
            state_len,
            b,
        ).last(),
{
    lemma_longest_covers(a.options, b.options);
    lemma_longest_covers(b.options, a.options);
}

proof fn lemma_longest_covers(a: Seq<Seq<u32>>, b: Seq<Seq<u32>>)
    requires
        forall|o: Seq<u32>| a.contains(o) ==> b.contains(o),
    ensures
        encode::longest_span(a) <= encode::longest_span(b),
{
    encode::lemma_longest_span(a);
    encode::lemma_longest_span(b);
    if a.len() > 0 {
        let k = choose|k: int|
            0 <= k < a.len() && #[trigger] a[k].len() + 2 == encode::longest_span(a);
        assert(a.contains(a[k]));
        let j = choose|j: int| 0 <= j < b.len() && b[j] == a[k];
        assert(b[j].len() + 2 <= encode::longest_span(b));
    }
}

/// How many tokens these questions take when each is asked alone.
pub open spec fn tokens_apart(state_len: int, asks: Seq<AskView>) -> int
    decreases asks.len(),
{
    if asks.len() == 0 {
        0
    } else {
        tokens_apart(state_len, asks.drop_last()) + state_len + encode::branch_len(asks.last())
    }
}

/// Asking questions apart costs the state once per question, where asking them
/// together costs it once.
pub proof fn law_asking_apart_costs_the_state_again(
    d: Delimiters,
    isolate: bool,
    state: Seq<u32>,
    asks: Seq<AskView>,
)
    requires
        asks.len() > 0,
    ensures
        tokens_apart(state.len() as int, asks) == encode::layout(d, isolate, state, asks).ids.len()
            + (asks.len() - 1) * state.len(),
        encode::layout(d, isolate, state, seq![asks.last()]).ids.len() == state.len()
            + encode::branch_len(asks.last()),
    decreases asks.len(),
{
    let state_len = state.len() as int;
    let n = asks.len() as int;
    let rest = asks.drop_last();
    let one = seq![asks.last()];
    lemma_layout(d, isolate, state, asks);
    lemma_layout(d, isolate, state, one);
    assert(branch_start(state_len, one, 1) == branch_start(state_len, one, 0) + encode::branch_len(
        one[0],
    ));
    assert(branch_start(state_len, asks, n) == branch_start(state_len, asks, n - 1)
        + encode::branch_len(asks[n - 1]));
    if n > 1 {
        law_asking_apart_costs_the_state_again(d, isolate, state, rest);
        lemma_layout(d, isolate, state, rest);
        lemma_branch_start_prefix(state_len, asks, rest, n - 1);
        assert((n - 1) * state_len == (n - 2) * state_len + state_len) by (nonlinear_arith);
    } else {
        assert(tokens_apart(state_len, rest) == 0);
        assert(branch_start(state_len, asks, 0) == state_len);
        assert((n - 1) * state_len == 0) by (nonlinear_arith)
            requires
                n == 1,
        ;
    }
}

/// A question that cannot be laid out is a request error, not a failure of the
/// engine.
pub proof fn law_a_question_that_does_not_fit_is_a_request_error(
    limits: encode::Limits,
    isolate: bool,
    state_len: int,
    ask: AskView,
    e: crate::error::Error,
)
    requires
        encode::refusal(limits, isolate, state_len, ask, e),
    ensures
        e.validation(),
{
}

/// Every token of a question is laid, in order: the question's delimiter, its instructions, each
/// option between its two delimiters, one behind the other, and the decision's delimiter last.
pub proof fn law_every_token_of_a_question_is_laid(d: Delimiters, ask: AskView, j: int, i: int)
    ensures
        ({
            let ids = encode::branch_ids(d, ask);
            let opened = 1 + ask.instructions.len();
            &&& ids[0] == d.question
            &&& 0 <= i < ask.instructions.len() ==> ids[1 + i] == ask.instructions[i]
            &&& span_start(ask.options, 0) == 0
            &&& 0 <= j < ask.options.len() ==> {
                let from = opened + span_start(ask.options, j);
                &&& span_start(ask.options, j + 1) == span_start(ask.options, j)
                    + ask.options[j].len() + 2
                &&& ids[from] == d.option
                &&& 0 <= i < ask.options[j].len() ==> ids[from + 1 + i] == ask.options[j][i]
                &&& ids[from + 1 + ask.options[j].len()] == d.option_end
            }
            &&& ids.len() == opened + span_start(ask.options, ask.options.len() as int) + 1
            &&& ids.last() == d.decide
        }),
{
    let ids = encode::branch_ids(d, ask);
    let spans = encode::spans(d, ask.options);
    let opened = 1 + ask.instructions.len();
    encode::lemma_branch_len(d, false, 0, ask);
    encode::lemma_spans_len(d, ask.options);
    assert(ask.options.take(0) =~= Seq::<Seq<u32>>::empty());
    assert(ask.options.take(ask.options.len() as int) =~= ask.options);
    if 0 <= j < ask.options.len() {
        let from = span_start(ask.options, j);
        lemma_one_span_holds(d, ask.options, j);
        assert(ids[opened + from] == spans[from]);
        assert(ids[opened + (from + 1 + ask.options[j].len())] == spans[from + 1
            + ask.options[j].len()]);
        if 0 <= i < ask.options[j].len() {
            lemma_option_token(d, ask.options, j, i);
            assert(ids[opened + (from + 1 + i)] == spans[from + 1 + i]);
        }
    }
}

proof fn lemma_one_span_holds(d: Delimiters, options: Seq<Seq<u32>>, j: int)
    requires
        0 <= j < options.len(),
    ensures
        0 <= span_start(options, j),
        span_start(options, j + 1) == span_start(options, j) + options[j].len() + 2,
        span_start(options, j + 1) <= encode::spans_len(options),
        encode::spans(d, options)[span_start(options, j)] == d.option,
        encode::spans(d, options)[span_start(options, j) + 1 + options[j].len()] == d.option_end,
{
    lemma_spans_hold(d, options);
    assert(span_start(options, j) >= 0);
    assert(span_start(options, j + 1) - 1 == span_start(options, j) + 1 + options[j].len());
}

proof fn lemma_option_token(d: Delimiters, options: Seq<Seq<u32>>, j: int, i: int)
    requires
        0 <= j < options.len(),
        0 <= i < options[j].len(),
    ensures
        0 <= span_start(options, j),
        span_start(options, j) + 1 + i < encode::spans_len(options),
        encode::spans(d, options)[span_start(options, j) + 1 + i] == options[j][i],
    decreases options.len(),
{
    let fewer = options.drop_last();
    encode::lemma_spans_len(d, fewer);
    encode::lemma_spans_len(d, options);
    if j == options.len() - 1 {
        assert(options.take(j) =~= fewer);
    } else {
        lemma_option_token(d, fewer, j, i);
        assert(fewer.take(j) =~= options.take(j));
        assert(fewer[j] == options[j]);
    }
}

/// A question's tokens stand together behind the state and the questions before it, under its own
/// number, and hold what the question alone is made of.
pub proof fn law_a_questions_tokens_stand_together(
    d: Delimiters,
    isolate: bool,
    state: Seq<u32>,
    asks: Seq<AskView>,
    k: int,
)
    requires
        0 <= k < asks.len() < u32::MAX,
    ensures
        ({
            let e = encode::layout(d, isolate, state, asks);
            let start = branch_start(state.len() as int, asks, k);
            let end = branch_start(state.len() as int, asks, k + 1);
            &&& branch_start(state.len() as int, asks, 0) == state.len()
            &&& end == start + encode::branch_ids(d, asks[k]).len()
            &&& branch_start(state.len() as int, asks, asks.len() as int) == e.ids.len()
            &&& e.ids.take(state.len() as int) == state
            &&& e.ids.subrange(start, end) == encode::branch_ids(d, asks[k])
            &&& forall|i: int|
                0 <= i < e.ids.len() ==> (#[trigger] e.segments[i] == k + 1 <==> start <= i < end)
            &&& forall|i: int|
                0 <= i < e.ids.len() ==> (#[trigger] e.segments[i] == 0 <==> i < state.len())
        }),
{
    let e = encode::layout(d, isolate, state, asks);
    let n = state.len() as int;
    let start = branch_start(n, asks, k);
    let end = branch_start(n, asks, k + 1);
    lemma_layout(d, isolate, state, asks);
    encode::lemma_branch_len(d, isolate, n, asks[k]);
    lemma_branch_start_ascends(n, asks, k, k + 1);
    lemma_branch_start_ascends(n, asks, k + 1, asks.len() as int);
    lemma_branch_start_ascends(n, asks, 0, k);
    assert(branch_laid(e, d, isolate, n, asks, k));
    assert forall|i: int| 0 <= i < end - start implies #[trigger] e.ids.subrange(start, end)[i]
        == encode::branch_ids(d, asks[k])[i] by {
        assert(e.segments[start + i] == k + 1);
    }
    assert(e.ids.subrange(start, end) =~= encode::branch_ids(d, asks[k]));
    assert forall|i: int| 0 <= i < n implies #[trigger] e.ids.take(n)[i] == state[i] by {
        assert(e.segments[i] == 0);
    }
    assert(e.ids.take(n) =~= state);
    assert forall|i: int| 0 <= i < e.ids.len() implies (#[trigger] e.segments[i] == k + 1 <==> start
        <= i < end) by {
        lemma_segment_of(d, isolate, state, asks, i);
        assert(branch_start(n, asks, k) == start);
    }
    assert forall|i: int| 0 <= i < e.ids.len() implies (#[trigger] e.segments[i] == 0 <==> i
        < state.len()) by {
        lemma_segment_of(d, isolate, state, asks, i);
    }
}

/// What comes before a question's options is shared by all of them and runs on from the state,
/// isolated or not.
pub proof fn law_instructions_are_shared_by_the_options(isolate: bool, state_len: int, ask: AskView, i: int)
    requires
        0 <= i <= ask.instructions.len(),
    ensures
        encode::branch_slots(ask)[i] == OptionSlot::Shared,
        encode::branch_positions(isolate, state_len, ask)[i] == state_len + i,
{
}

/// A pass is the encoding as it is: the same tokens, positions, segments and slots, read where
/// the encoding says, question by question.
pub proof fn law_a_pass_carries_the_whole_encoding(e: EncodingView)
    ensures
        pass_of(e).ids == e.ids,
        pass_of(e).positions == e.positions,
        pass_of(e).segments == e.segments,
        pass_of(e).options == e.slots,
        pass_of(e).readout == encode::readout_of(e, e.decide.len() as int),
{
}

/// Every token of a question has the position and the slot that the question alone would give it
/// behind the same state.
pub proof fn law_a_token_has_its_questions_position(
    d: Delimiters,
    isolate: bool,
    state: Seq<u32>,
    asks: Seq<AskView>,
    k: int,
    i: int,
)
    requires
        0 <= k < asks.len() < u32::MAX,
        0 <= i < encode::branch_len(asks[k]),
    ensures
        ({
            let e = encode::layout(d, isolate, state, asks);
            let at = branch_start(state.len() as int, asks, k) + i;
            &&& e.positions[at] == encode::branch_positions(
                isolate,
                state.len() as int,
                asks[k],
            )[i] as u32
            &&& isolate ==> e.slots[at] == encode::branch_slots(asks[k])[i]
            &&& !isolate ==> e.slots.len() == 0
        }),
{
    let e = encode::layout(d, isolate, state, asks);
    let n = state.len() as int;
    lemma_layout(d, isolate, state, asks);
    assert(branch_laid(e, d, isolate, n, asks, k));
    let at = branch_start(n, asks, k) + i;
    assert(e.segments[at] == k + 1);
}

} // verus!
