//! One forward pass, as a backend is told of it.

use vstd::prelude::*;

use crate::encode;
use crate::encode::OptionSlot;

verus! {

/// One forward pass, described to a backend.
///
/// The token ids, where each token sits, which question it belongs to, and
/// which positions the readout will want back. `positions` is not `0..n`: each
/// question's branch restarts just after the state, which is how one state
/// serves every question.
#[derive(Debug, Clone, Copy)]
pub struct Pass<'a> {
    /// Token ids to run.
    pub ids: &'a [u32],
    /// Position id per token.
    pub positions: &'a [u32],
    /// `0` for state tokens, `k` for the tokens of question `k`.
    pub segments: &'a [u32],
    /// The positions whose hidden states to return, in order.
    pub readout: &'a [usize],
    /// One slot per token where the options of a question may not read each
    /// other, otherwise empty.
    pub options: &'a [OptionSlot],
}

/// A [`Pass`] that owns its tokens, as [`Pass::rows`] hands them back.
#[derive(Debug)]
pub struct OwnedPass {
    pub ids: Vec<u32>,
    pub positions: Vec<u32>,
    pub segments: Vec<u32>,
    pub readout: Vec<usize>,
    pub options: Vec<OptionSlot>,
}

/// One forward pass, as sequences.
pub struct PassView {
    pub ids: Seq<u32>,
    pub positions: Seq<u32>,
    pub segments: Seq<u32>,
    pub readout: Seq<int>,
    pub options: Seq<OptionSlot>,
}

impl View for Pass<'_> {
    type V = PassView;

    open spec fn view(&self) -> PassView {
        PassView {
            ids: self.ids@,
            positions: self.positions@,
            segments: self.segments@,
            readout: encode::ints(self.readout@),
            options: self.options@,
        }
    }
}

impl View for OwnedPass {
    type V = PassView;

    open spec fn view(&self) -> PassView {
        PassView {
            ids: self.ids@,
            positions: self.positions@,
            segments: self.segments@,
            readout: encode::ints(self.readout@),
            options: self.options@,
        }
    }
}

/// The passes of a list.
pub open spec fn passes(v: Seq<OwnedPass>) -> Seq<PassView> {
    Seq::new(v.len(), |i: int| v[i]@)
}

/// The first `n` token indices that lie in segment `s`, in order.
pub open spec fn members(segments: Seq<u32>, n: int, s: u32) -> Seq<int>
    decreases n,
{
    if n <= 0 {
        Seq::empty()
    } else if segments[n - 1] == s {
        members(segments, n - 1, s).push(n - 1)
    } else {
        members(segments, n - 1, s)
    }
}

/// The items that stand at these indices.
pub open spec fn picked<T>(list: Seq<T>, at: Seq<int>) -> Seq<T> {
    Seq::new(at.len(), |i: int| list[at[i]])
}

/// The readout positions of segment `s`, as places among the segment's tokens,
/// behind `lead` other tokens.
pub open spec fn read_in(segments: Seq<u32>, readout: Seq<int>, s: u32, lead: int) -> Seq<int>
    decreases readout.len(),
{
    if readout.len() == 0 {
        Seq::empty()
    } else {
        let before = read_in(segments, readout.drop_last(), s, lead);
        if segments[readout.last()] == s {
            before.push(lead + members(segments, readout.last(), s).len())
        } else {
            before
        }
    }
}

/// How many questions follow one another from question `s` on.
pub open spec fn questions_from(segments: Seq<u32>, s: int) -> nat
    decreases u32::MAX + 1 - s,
{
    if 0 <= s <= u32::MAX && segments.contains(s as u32) {
        1 + questions_from(segments, s + 1)
    } else {
        0
    }
}

impl PassView {
    /// Whether the token at `query` may read the token at `key`: an earlier
    /// token of the state, or of the same question unless both belong to
    /// different options that are kept apart.
    pub open spec fn reads(self, query: int, key: int) -> bool {
        &&& key <= query
        &&& self.segments[key] == 0 || (self.segments[key] == self.segments[query] && (
        self.options.len() == 0 || self.options[key] == OptionSlot::Shared || self.options[key]
            == self.options[query] || self.options[query] == OptionSlot::Decide))
    }

    /// No question but one is there, if any, and its options may read each other.
    pub open spec fn one_question(self) -> bool {
        self.options.len() == 0 && forall|i: int, j: int|
            0 <= i < self.segments.len() && 0 <= j < self.segments.len()
                && #[trigger] self.segments[i] != 0 && #[trigger] self.segments[j] != 0
                ==> self.segments[i] == self.segments[j]
    }

    /// How many questions the pass carries, counted from the first up to the
    /// first number that is missing.
    pub open spec fn question_count(self) -> nat {
        questions_from(self.segments, 1)
    }

    /// The indices of the tokens in segment `s`.
    pub open spec fn segment(self, s: u32) -> Seq<int> {
        members(self.segments, self.ids.len() as int, s)
    }

    /// Every token of segment `s` has a position, and a slot where tokens have
    /// slots.
    pub open spec fn placed(self, s: u32) -> bool {
        forall|i: int|
            0 <= i < self.ids.len() && #[trigger] self.segments[i] == s ==> i
                < self.positions.len() && (self.options.len() == 0 || i < self.options.len())
    }

    /// Every token has a segment, and the state's tokens are placed.
    pub open spec fn state_placed(self) -> bool {
        self.ids.len() <= self.segments.len() && self.placed(0)
    }

    /// Every token has a segment, the tokens of every question are placed, and
    /// the readout points at tokens.
    pub open spec fn questions_placed(self) -> bool {
        &&& self.ids.len() <= self.segments.len()
        &&& self.question_count() < u32::MAX
        &&& forall|s: u32| 1 <= s <= self.question_count() ==> #[trigger] self.placed(s)
        &&& self.question_count() > 0 ==> forall|j: int|
            0 <= j < self.readout.len() ==> #[trigger] self.readout[j] < self.segments.len() && (1
                <= self.segments[self.readout[j]] <= self.question_count() ==> self.readout[j]
                < self.ids.len())
    }

    /// The slots of these tokens, or none where tokens have none.
    pub open spec fn slots_at(self, at: Seq<int>) -> Seq<OptionSlot> {
        if self.options.len() == 0 {
            Seq::empty()
        } else {
            picked(self.options, at)
        }
    }

    /// The state's tokens on their own.
    pub open spec fn state_part(self) -> PassView {
        let at = self.segment(0);
        PassView {
            ids: picked(self.ids, at),
            positions: picked(self.positions, at),
            segments: Seq::new(at.len(), |i: int| 0u32),
            readout: Seq::empty(),
            options: self.slots_at(at),
        }
    }

    /// The tokens of question `s` on their own.
    pub open spec fn branch_part(self, s: u32) -> PassView {
        let at = self.segment(s);
        PassView {
            ids: picked(self.ids, at),
            positions: picked(self.positions, at),
            segments: Seq::new(at.len(), |i: int| s),
            readout: read_in(self.segments, self.readout, s, 0),
            options: self.slots_at(at),
        }
    }

    /// The tokens of every question on their own.
    pub open spec fn branch_parts(self) -> Seq<PassView> {
        Seq::new(self.question_count(), |k: int| self.branch_part((k + 1) as u32))
    }

    /// The state followed by question `s`.
    pub open spec fn row_part(self, s: u32) -> PassView {
        let at = self.segment(0) + self.segment(s);
        PassView {
            ids: picked(self.ids, at),
            positions: picked(self.positions, at),
            segments: picked(self.segments, at),
            readout: read_in(self.segments, self.readout, s, self.segment(0).len() as int),
            options: self.slots_at(at),
        }
    }

    /// The state followed by each of the questions.
    pub open spec fn row_parts(self) -> Seq<PassView> {
        Seq::new(self.question_count(), |k: int| self.row_part((k + 1) as u32))
    }
}

/// The members of a segment: ascending, in range, and of that segment. How many
/// members come before one of them is its place among them.
pub proof fn lemma_members(segments: Seq<u32>, n: int, s: u32)
    ensures
        forall|j: int|
            0 <= j < members(segments, n, s).len() ==> {
                let i = #[trigger] members(segments, n, s)[j];
                0 <= i < n && segments[i] == s && members(segments, i, s).len() == j
            },
        forall|i: int|
            0 <= i < n && #[trigger] segments[i] == s ==> members(segments, i, s).len() < members(
                segments,
                n,
                s,
            ).len() && members(segments, n, s)[members(segments, i, s).len() as int] == i,
        members(segments, n, s).len() <= if n < 0 {
            0
        } else {
            n
        },
    decreases n,
{
    if n > 0 {
        lemma_members(segments, n - 1, s);
        assert forall|i: int| 0 <= i < n && #[trigger] segments[i] == s implies members(
            segments,
            i,
            s,
        ).len() < members(segments, n, s).len() && members(segments, n, s)[members(
            segments,
            i,
            s,
        ).len() as int] == i by {
            if i < n - 1 {
                let place = members(segments, i, s).len() as int;
                assert(members(segments, n - 1, s)[place] == i);
            }
        }
    }
}

/// Whether some token lies in segment `s`.
fn holds_segment(segments: &[u32], s: u32) -> (yes: bool)
    ensures
        yes == segments@.contains(s),
{
    for i in 0..segments.len()
        invariant
            forall|j: int| 0 <= j < i ==> segments@[j] != s,
    {
        if segments[i] == s {
            assert(segments@[i as int] == s);
            return true;
        }
    }
    false
}

impl<'a> Pass<'a> {
    /// A pass whose questions may read all of themselves.
    pub fn new(
        ids: &'a [u32],
        positions: &'a [u32],
        segments: &'a [u32],
        readout: &'a [usize],
    ) -> (out: Self)
        ensures
            out@ == (PassView {
                ids: ids@,
                positions: positions@,
                segments: segments@,
                readout: encode::ints(readout@),
                options: Seq::empty(),
            }),
    {
        let options: &'a [OptionSlot] = &[];
        assert(options@ == Seq::<OptionSlot>::empty());
        Pass { ids, positions, segments, readout, options }
    }

    /// The same pass with a slot per token: the options of a question may not
    /// read each other.
    pub fn with_options(self, options: &'a [OptionSlot]) -> (out: Self)
        ensures
            out@ == (PassView { options: options@, ..self@ }),
    {
        Pass { options, ..self }
    }
}

impl Pass<'_> {
    /// Whether the token at `query` may read the token at `key`.
    ///
    /// Causal *and* blind across questions. Questions sharing one pass must not
    /// see each other, so this is not a plain causal mask: a backend that
    /// cannot express it must run [`Pass::rows`] instead. Where tokens carry
    /// slots, the options of a question are blind to each other as well.
    pub fn attends(&self, query: usize, key: usize) -> (yes: bool)
        requires
            key <= query ==> key < self.segments@.len() && (self.segments@[key as int] != 0
                ==> query < self.segments@.len()),
            key <= query && self.segments@[key as int] != 0 && self.segments@[key as int]
                == self.segments@[query as int] ==> self.options@.len() == 0 || query
                < self.options@.len(),
        ensures
            yes == self@.reads(query as int, key as int),
    {
        if key > query {
            return false;
        }
        if self.segments[key] == 0 {
            return true;
        }
        if self.segments[key] != self.segments[query] {
            return false;
        }
        self.options.len() == 0 || self.options[key] == OptionSlot::Shared || self.options[key]
            == self.options[query] || self.options[query] == OptionSlot::Decide
    }

    /// `true` when a plain causal mask is enough: one question, or none, whose
    /// options may read each other. Which number the question has does not matter.
    pub fn is_causal(&self) -> (yes: bool)
        ensures
            yes == self@.one_question(),
    {
        if self.is_isolated() {
            return false;
        }
        let mut question: u32 = 0;
        for i in 0..self.segments.len()
            invariant
                self@.options.len() == 0,
                question == 0 ==> forall|j: int| 0 <= j < i ==> #[trigger] self@.segments[j] == 0,
                question != 0 ==> exists|j: int|
                    0 <= j < i && #[trigger] self@.segments[j] == question,
                forall|j: int|
                    0 <= j < i ==> #[trigger] self@.segments[j] == 0 || self@.segments[j]
                        == question,
        {
            let segment: u32 = self.segments[i];
            assert(self@.segments[i as int] == segment);
            if segment != 0 {
                if question != 0 && segment != question {
                    proof {
                        let j = choose|j: int|
                            0 <= j < i && #[trigger] self@.segments[j] == question;
                        assert(self@.segments[j] != self@.segments[i as int]);
                    }
                    return false;
                }
                question = segment;
            }
        }
        true
    }

    /// `true` when the options of a question may not read each other.
    pub fn is_isolated(&self) -> (yes: bool)
        ensures
            yes == (self@.options.len() > 0),
    {
        self.options.len() > 0
    }

    fn members_of(&self, s: u32) -> (out: Vec<usize>)
        requires
            self@.ids.len() <= self@.segments.len(),
        ensures
            encode::ints(out@) == self@.segment(s),
            out@.len() == self@.segment(s).len(),
    {
        let mut out: Vec<usize> = Vec::new();
        for i in 0..self.ids.len()
            invariant
                self@.ids.len() <= self@.segments.len(),
                encode::ints(out@) == members(self@.segments, i as int, s),
                out@.len() == members(self@.segments, i as int, s).len(),
        {
            if self.segments[i] == s {
                let ghost before = out@;
                out.push(i);
                assert(encode::ints(out@) == encode::ints(before).push(i as int));
            }
        }
        out
    }

    /// The tokens at these indices as a pass of their own, with nothing to read
    /// from yet.
    fn gather(&self, at: &Vec<usize>) -> (out: OwnedPass)
        requires
            self@.ids.len() <= self@.segments.len(),
            forall|j: int|
                0 <= j < at@.len() ==> #[trigger] at@[j] < self@.ids.len() && at@[j]
                    < self@.positions.len() && (self@.options.len() == 0 || at@[j]
                    < self@.options.len()),
        ensures
            out@ == (PassView {
                ids: picked(self@.ids, encode::ints(at@)),
                positions: picked(self@.positions, encode::ints(at@)),
                segments: picked(self@.segments, encode::ints(at@)),
                readout: Seq::empty(),
                options: self@.slots_at(encode::ints(at@)),
            }),
    {
        let mut ids: Vec<u32> = Vec::new();
        let mut positions: Vec<u32> = Vec::new();
        let mut segments: Vec<u32> = Vec::new();
        let mut options: Vec<OptionSlot> = Vec::new();
        for k in 0..at.len()
            invariant
                self@.ids.len() <= self@.segments.len(),
                forall|j: int|
                    0 <= j < at@.len() ==> #[trigger] at@[j] < self@.ids.len() && at@[j]
                        < self@.positions.len() && (self@.options.len() == 0 || at@[j]
                        < self@.options.len()),
                ids@ == picked(self@.ids, encode::ints(at@.take(k as int))),
                positions@ == picked(self@.positions, encode::ints(at@.take(k as int))),
                segments@ == picked(self@.segments, encode::ints(at@.take(k as int))),
                options@ == self@.slots_at(encode::ints(at@.take(k as int))),
        {
            let i: usize = at[k];
            ids.push(self.ids[i]);
            positions.push(self.positions[i]);
            segments.push(self.segments[i]);
            if self.is_isolated() {
                options.push(self.options[i]);
            }
            proof {
                let before = encode::ints(at@.take(k as int));
                let after = encode::ints(at@.take(k + 1));
                assert(after == before.push(i as int));
                assert(picked(self@.ids, after) == picked(self@.ids, before).push(
                    self@.ids[i as int],
                ));
                assert(picked(self@.positions, after) == picked(self@.positions, before).push(
                    self@.positions[i as int],
                ));
                assert(picked(self@.segments, after) == picked(self@.segments, before).push(
                    self@.segments[i as int],
                ));
                if self@.options.len() > 0 {
                    assert(picked(self@.options, after) == picked(self@.options, before).push(
                        self@.options[i as int],
                    ));
                }
            }
        }
        assert(at@.take(at@.len() as int) == at@);
        let out = OwnedPass { ids, positions, segments, readout: Vec::new(), options };
        assert(out@.readout == Seq::<int>::empty());
        out
    }

    /// Where the readout positions of question `s` went when the tokens at these
    /// indices, of which the question's come last, were laid side by side.
    fn follow(&self, at: &Vec<usize>, s: u32, lead: usize) -> (out: Vec<usize>)
        requires
            self@.ids.len() <= self@.segments.len(),
            forall|j: int| 0 <= j < at@.len() ==> #[trigger] at@[j] < self@.ids.len(),
            forall|i: int, j: int|
                0 <= i < at@.len() && 0 <= j < at@.len() && #[trigger] at@[i] == #[trigger] at@[j]
                    ==> i == j,
            lead <= at@.len(),
            self@.segment(s) == encode::ints(at@).skip(lead as int),
            forall|j: int|
                0 <= j < self@.readout.len() ==> #[trigger] self@.readout[j] < self@.segments.len()
                    && (self@.segments[self@.readout[j]] == s ==> self@.readout[j]
                    < self@.ids.len()),
        ensures
            encode::ints(out@) == read_in(self@.segments, self@.readout, s, lead as int),
    {
        let mut moved: Vec<usize> = Vec::new();
        for i in 0..self.ids.len()
            invariant
                moved@.len() == i,
        {
            moved.push(usize::MAX);
        }
        for k in 0..at.len()
            invariant
                moved@.len() == self@.ids.len(),
                forall|j: int| 0 <= j < at@.len() ==> #[trigger] at@[j] < self@.ids.len(),
                forall|i: int, j: int|
                    0 <= i < at@.len() && 0 <= j < at@.len() && #[trigger] at@[i] == #[trigger] at@[j]
                        ==> i == j,
                forall|j: int| 0 <= j < k ==> moved@[#[trigger] at@[j] as int] == j,
        {
            moved.set(at[k], k);
        }

        let mut out: Vec<usize> = Vec::new();
        assert(self@.readout.take(0) == Seq::<int>::empty());
        for k in 0..self.readout.len()
            invariant
                self@.ids.len() <= self@.segments.len(),
                moved@.len() == self@.ids.len(),
                lead <= at@.len(),
                self@.segment(s) == encode::ints(at@).skip(lead as int),
                forall|j: int| 0 <= j < at@.len() ==> moved@[#[trigger] at@[j] as int] == j,
                forall|j: int|
                    0 <= j < self@.readout.len() ==> #[trigger] self@.readout[j]
                        < self@.segments.len() && (self@.segments[self@.readout[j]] == s
                        ==> self@.readout[j] < self@.ids.len()),
                encode::ints(out@) == read_in(
                    self@.segments,
                    self@.readout.take(k as int),
                    s,
                    lead as int,
                ),
        {
            let p: usize = self.readout[k];
            proof {
                assert(self@.readout[k as int] == p);
                assert(self@.readout.take(k + 1).drop_last() == self@.readout.take(k as int));
                assert(self@.readout.take(k + 1).last() == p);
            }
            if self.segments[p] == s {
                let ghost before = out@;
                proof {
                    lemma_members(self@.segments, self@.ids.len() as int, s);
                    let place = members(self@.segments, p as int, s).len() as int;
                    assert(self@.segments[p as int] == s);
                    assert(self@.segment(s)[place] == p);
                    assert(encode::ints(at@)[lead + place] == p);
                    assert(at@[lead + place] == p);
                }
                out.push(moved[p]);
                assert(encode::ints(out@) == encode::ints(before).push(
                    lead + members(self@.segments, p as int, s).len(),
                ));
            }
        }
        assert(self@.readout.take(self@.readout.len() as int) == self@.readout);
        out
    }

    /// The state tokens on their own: the part every question shares, and the
    /// part worth computing once.
    ///
    /// Together with [`Pass::branches`] this is [`Pass::rows`] taken apart, for a
    /// backend that can run the state once and continue from it.
    pub fn state(&self) -> (out: OwnedPass)
        requires
            self@.state_placed(),
        ensures
            out@ == self@.state_part(),
    {
        let at = self.members_of(0);
        proof {
            lemma_members(self@.segments, self@.ids.len() as int, 0);
            assert forall|j: int| 0 <= j < at@.len() implies #[trigger] at@[j] < self@.ids.len()
                && at@[j] < self@.positions.len() && (self@.options.len() == 0 || at@[j]
                < self@.options.len()) by {
                assert(self@.segment(0)[j] == encode::ints(at@)[j]);
            }
        }
        let out = self.gather(&at);
        assert(out@.segments == self@.state_part().segments);
        out
    }

    /// One pass per question, holding that question's branch tokens only, with
    /// the readout positions relative to the branch.
    ///
    /// A readout position in the state belongs to no branch and is dropped, as in
    /// [`Pass::rows`]; `<decide>` and `</opt>` are never there.
    pub fn branches(&self) -> (out: Vec<OwnedPass>)
        requires
            self@.questions_placed(),
        ensures
            passes(out@) == self@.branch_parts(),
    {
        let mut out: Vec<OwnedPass> = Vec::new();
        let mut s: u32 = 1;
        let ghost all = self@.question_count();
        while holds_segment(self.segments, s)
            invariant
                self@.questions_placed(),
                all == self@.question_count(),
                1 <= s,
                all == s - 1 + questions_from(self@.segments, s as int),
                passes(out@) == Seq::new(
                    (s - 1) as nat,
                    |k: int| self@.branch_part((k + 1) as u32),
                ),
            decreases u32::MAX - s,
        {
            let at = self.members_of(s);
            proof {
                assert(self@.placed(s));
                lemma_members(self@.segments, self@.ids.len() as int, s);
                assert(encode::ints(at@).skip(0) == encode::ints(at@));
                assert forall|j: int| 0 <= j < at@.len() implies #[trigger] at@[j] < self@.ids.len()
                    && at@[j] < self@.positions.len() && (self@.options.len() == 0 || at@[j]
                    < self@.options.len()) by {
                    assert(self@.segment(s)[j] == encode::ints(at@)[j]);
                }
                assert forall|i: int, j: int|
                    0 <= i < at@.len() && 0 <= j < at@.len() && #[trigger] at@[i]
                        == #[trigger] at@[j] implies i == j by {
                    assert(self@.segment(s)[i] == encode::ints(at@)[i]);
                    assert(self@.segment(s)[j] == encode::ints(at@)[j]);
                }
            }
            let mut branch = self.gather(&at);
            branch.readout = self.follow(&at, s, 0);
            assert(branch@.segments == self@.branch_part(s).segments) by {
                assert forall|j: int| 0 <= j < at@.len() implies self@.segments[encode::ints(
                    at@,
                )[j]] == s by {
                    assert(self@.segment(s)[j] == encode::ints(at@)[j]);
                }
            }
            let ghost before = passes(out@);
            out.push(branch);
            assert(passes(out@) == before.push(self@.branch_part(s)));
            s = s + 1;
        }
        out
    }

    /// The same work as one independent causal row per question: the state
    /// tokens followed by that question's branch, at the positions they already
    /// carry.
    ///
    /// For backbones whose layers ignore attention masks, such as Gated DeltaNet
    /// layers, this is the only exact form. Concatenating the rows' hidden states
    /// in order yields exactly what a backend must return, as long as the readout
    /// stays inside the branches, which is where `<decide>` and `</opt>` always
    /// are. A readout position in the state belongs to no row and is dropped,
    /// which the engine notices as a count mismatch rather than a wrong answer.
    pub fn rows(&self) -> (out: Vec<OwnedPass>)
        requires
            self@.questions_placed(),
            self@.question_count() > 0 ==> self@.placed(0),
        ensures
            passes(out@) == self@.row_parts(),
    {
        let state = self.members_of(0);
        let mut out: Vec<OwnedPass> = Vec::new();
        let mut s: u32 = 1;
        let ghost all = self@.question_count();
        while holds_segment(self.segments, s)
            invariant
                self@.questions_placed(),
                self@.question_count() > 0 ==> self@.placed(0),
                all == self@.question_count(),
                encode::ints(state@) == self@.segment(0),
                state@.len() == self@.segment(0).len(),
                1 <= s,
                all == s - 1 + questions_from(self@.segments, s as int),
                passes(out@) == Seq::new(
                    (s - 1) as nat,
                    |k: int| self@.row_part((k + 1) as u32),
                ),
            decreases u32::MAX - s,
        {
            let branch = self.members_of(s);
            let mut at: Vec<usize> = Vec::new();
            for j in 0..state.len()
                invariant
                    at@ == state@.take(j as int),
            {
                at.push(state[j]);
                assert(at@ == state@.take(j + 1));
            }
            assert(state@.take(state@.len() as int) == state@);
            for j in 0..branch.len()
                invariant
                    at@ == state@ + branch@.take(j as int),
            {
                at.push(branch[j]);
                assert(at@ == state@ + branch@.take(j + 1));
            }
            assert(branch@.take(branch@.len() as int) == branch@);
            proof {
                assert(encode::ints(at@) == self@.segment(0) + self@.segment(s));
                assert(encode::ints(at@).skip(state@.len() as int) == self@.segment(s));
                assert(self@.placed(s));
                lemma_members(self@.segments, self@.ids.len() as int, 0);
                lemma_members(self@.segments, self@.ids.len() as int, s);
                let lead = state@.len();
                assert forall|j: int| 0 <= j < at@.len() implies #[trigger] at@[j] < self@.ids.len()
                    && at@[j] < self@.positions.len() && (self@.options.len() == 0 || at@[j]
                    < self@.options.len()) by {
                    if j < lead {
                        assert(self@.segment(0)[j] == encode::ints(at@)[j]);
                    } else {
                        assert(self@.segment(s)[j - lead] == encode::ints(at@)[j]);
                    }
                }
                assert forall|i: int, j: int|
                    0 <= i < at@.len() && 0 <= j < at@.len() && #[trigger] at@[i]
                        == #[trigger] at@[j] implies i == j by {
                    assert(encode::ints(at@)[i] == encode::ints(at@)[j]);
                    if i < lead {
                        assert(self@.segment(0)[i] == encode::ints(at@)[i]);
                    } else {
                        assert(self@.segment(s)[i - lead] == encode::ints(at@)[i]);
                    }
                    if j < lead {
                        assert(self@.segment(0)[j] == encode::ints(at@)[j]);
                    } else {
                        assert(self@.segment(s)[j - lead] == encode::ints(at@)[j]);
                    }
                }
            }
            let mut row = self.gather(&at);
            row.readout = self.follow(&at, s, state.len());
            let ghost before = passes(out@);
            out.push(row);
            assert(passes(out@) == before.push(self@.row_part(s)));
            s = s + 1;
        }
        out
    }
}

impl OwnedPass {
    /// Borrow it as a [`Pass`], to run it like any other.
    pub fn as_pass(&self) -> (out: Pass<'_>)
        ensures
            out@ == self@,
    {
        Pass {
            ids: &self.ids,
            positions: &self.positions,
            segments: &self.segments,
            readout: &self.readout,
            options: &self.options,
        }
    }
}

/// What a token reads: nothing behind itself; the state before it always; of its own question
/// everything before it, but with isolated options only what is shared, its own option, and for
/// the decision all of them; of another question nothing.
pub proof fn law_what_a_token_reads(p: PassView, query: int, key: int)
    ensures
        key > query ==> !p.reads(query, key),
        key <= query && p.segments[key] == 0 ==> p.reads(query, key),
        p.segments[key] != 0 && p.segments[key] != p.segments[query] ==> !p.reads(query, key),
        key <= query && p.segments[key] == p.segments[query] && p.options.len() == 0 ==> p.reads(
            query,
            key,
        ),
        key <= query && p.segments[key] == p.segments[query] && p.options.len() > 0
            && p.segments[key] != 0 ==> (p.reads(query, key) <==> p.options[key]
            == OptionSlot::Shared || p.options[key] == p.options[query] || p.options[query]
            == OptionSlot::Decide),
{
}

/// A pass carries one question where its options are not isolated and no two of its tokens belong
/// to different questions.
pub proof fn law_a_pass_of_one_question(p: PassView, i: int, j: int)
    requires
        0 <= i < p.segments.len(),
        0 <= j < p.segments.len(),
    ensures
        p.options.len() > 0 ==> !p.one_question(),
        p.segments[i] != 0 && p.segments[j] != 0 && p.segments[i] != p.segments[j]
            ==> !p.one_question(),
        p.options.len() == 0 && (forall|k: int|
            0 <= k < p.segments.len() ==> #[trigger] p.segments[k] == 0 || p.segments[k]
                == p.segments[i]) ==> p.one_question(),
{
}

/// The tokens of a segment are all that have its number, each once, in order.
pub proof fn law_a_segment_is_all_its_tokens_in_order(segments: Seq<u32>, n: int, s: u32, i: int)
    requires
        0 <= n,
    ensures
        members(segments, n, s).contains(i) <==> 0 <= i < n && segments[i] == s,
        forall|a: int, b: int|
            0 <= a < b < members(segments, n, s).len() ==> #[trigger] members(segments, n, s)[a]
                < #[trigger] members(segments, n, s)[b],
    decreases n,
{
    let out = members(segments, n, s);
    if n > 0 {
        let before = members(segments, n - 1, s);
        law_a_segment_is_all_its_tokens_in_order(segments, n - 1, s, i);
        lemma_members(segments, n - 1, s);
        if segments[n - 1] == s {
            assert(out[before.len() as int] == n - 1);
            if before.contains(i) {
                let k = choose|k: int| 0 <= k < before.len() && before[k] == i;
                assert(out[k] == i);
            }
            if out.contains(i) {
                let k = choose|k: int| 0 <= k < out.len() && out[k] == i;
                if k < before.len() {
                    assert(before[k] == i);
                }
            }
            assert forall|a: int, b: int| 0 <= a < b < out.len() implies #[trigger] out[a]
                < #[trigger] out[b] by {
                assert(out[a] == before[a]);
                if b < before.len() {
                    assert(out[b] == before[b]);
                }
            }
        }
    }
}

/// Questions are counted by their numbers, from one up to the first number that no token has.
pub proof fn law_questions_are_counted_up_to_the_first_gap(p: PassView, n: int)
    requires
        0 <= n < u32::MAX,
        forall|s: u32| 1 <= s <= n ==> #[trigger] p.segments.contains(s),
        !p.segments.contains((n + 1) as u32),
    ensures
        p.question_count() == n,
{
    lemma_counted_from(p.segments, 1, n);
}

proof fn lemma_counted_from(segments: Seq<u32>, from: int, n: int)
    requires
        1 <= from <= n + 1,
        n < u32::MAX,
        forall|s: u32| from <= s <= n ==> #[trigger] segments.contains(s),
        !segments.contains((n + 1) as u32),
    ensures
        questions_from(segments, from) == n + 1 - from,
    decreases n + 1 - from,
{
    if from <= n {
        assert(segments.contains(from as u32));
        lemma_counted_from(segments, from + 1, n);
    }
}

/// A branch is the tokens of one question in their order, each with the position and the slot
/// that the pass gives it, and is read where the pass reads that question.
pub proof fn law_a_branch_is_its_questions_tokens(p: PassView, s: u32, i: int)
    requires
        0 <= i < p.segment(s).len(),
    ensures
        p.branch_part(s).ids.len() == p.segment(s).len(),
        p.branch_part(s).ids[i] == p.ids[p.segment(s)[i]],
        p.branch_part(s).positions[i] == p.positions[p.segment(s)[i]],
        p.branch_part(s).segments[i] == s,
        p.options.len() > 0 ==> p.branch_part(s).options[i] == p.options[p.segment(s)[i]],
        p.options.len() == 0 ==> p.branch_part(s).options.len() == 0,
        p.segments[p.segment(s)[i]] == s,
        p.branch_parts().len() == p.question_count(),
        p.row_parts().len() == p.question_count(),
{
    lemma_members(p.segments, p.ids.len() as int, s);
}

/// A read token of a question is read in its branch at the place where it stands there: what is
/// read of the branch is what the pass reads of the question.
pub proof fn law_a_branch_is_read_where_the_pass_is(
    segments: Seq<u32>,
    readout: Seq<int>,
    at: int,
    s: u32,
    lead: int,
)
    ensures
        segments[at] == s ==> read_in(segments, readout.push(at), s, lead) == read_in(
            segments,
            readout,
            s,
            lead,
        ).push(lead + members(segments, at, s).len()),
        segments[at] != s ==> read_in(segments, readout.push(at), s, lead) == read_in(
            segments,
            readout,
            s,
            lead,
        ),
        read_in(segments, Seq::empty(), s, lead).len() == 0,
{
    assert(readout.push(at).drop_last() =~= readout);
}

/// A pass is seen whole: every list of it, in order.
pub proof fn law_a_pass_is_seen_whole(p: Pass<'_>, owned: OwnedPass, i: int)
    ensures
        p@.ids == p.ids@,
        p@.positions == p.positions@,
        p@.segments == p.segments@,
        p@.options == p.options@,
        p@.readout.len() == p.readout@.len(),
        0 <= i < p.readout@.len() ==> p@.readout[i] == p.readout@[i],
        owned@.ids == owned.ids@,
        owned@.positions == owned.positions@,
        owned@.segments == owned.segments@,
        owned@.options == owned.options@,
        owned@.readout.len() == owned.readout@.len(),
        0 <= i < owned.readout@.len() ==> owned@.readout[i] == owned.readout@[i],
{
}

/// Passes are seen one by one, in order.
pub proof fn law_owned_passes_are_seen_in_order(all: Seq<OwnedPass>, i: int)
    requires
        0 <= i < all.len(),
    ensures
        passes(all).len() == all.len(),
        passes(all)[i] == all[i]@,
{
}

/// The state of a pass is its tokens of no question, in their order, each with the position and
/// the slot that the pass gives it; nothing is read of it. A row is the state and one question.
pub proof fn law_the_state_is_the_tokens_of_no_question(p: PassView, s: u32, i: int)
    ensures
        p.state_part().ids.len() == p.segment(0).len(),
        p.state_part().readout.len() == 0,
        0 <= i < p.segment(0).len() ==> p.state_part().ids[i] == p.ids[p.segment(0)[i]]
            && p.state_part().positions[i] == p.positions[p.segment(0)[i]]
            && p.state_part().segments[i] == 0 && p.segments[p.segment(0)[i]] == 0,
        p.options.len() > 0 && 0 <= i < p.segment(0).len() ==> p.state_part().options[i]
            == p.options[p.segment(0)[i]],
        p.row_part(s).ids.len() == p.segment(0).len() + p.segment(s).len(),
        0 <= i < p.question_count() ==> p.branch_parts()[i] == p.branch_part((i + 1) as u32)
            && p.row_parts()[i] == p.row_part((i + 1) as u32),
{
    lemma_members(p.segments, p.ids.len() as int, 0);
}

} // verus!
