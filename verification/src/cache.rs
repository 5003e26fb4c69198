//! States that were run before, kept for the requests that come back to them.

use vstd::prelude::*;

use crate::pass::OwnedPass;

verus! {

/// The states kept across requests, most recently used last, keyed on the state's
/// token ids.
///
/// A repeated state then costs only its questions. What is kept of a state is the
/// caller's: whatever a backbone has to continue from.
#[derive(Debug)]
pub struct PrefixCache<T> {
    /// How many states are kept.
    keep: usize,
    /// What one batch's prefills need room for, whatever `keep` says. Without
    /// it a batch bigger than the cache would evict states it is about to ask
    /// for, and prefill them a second time, one at a time.
    floor: usize,
    entries: Vec<(Vec<u32>, T)>,
    hits: usize,
    misses: usize,
    /// States this batch prefilled itself: found in the cache afterwards, but
    /// not a hit, since they were run, just not one at a time.
    batched: Vec<Vec<u32>>,
}

/// A cache, as sequences.
pub struct CacheView<T> {
    pub keep: nat,
    pub floor: nat,
    pub entries: Seq<(Seq<u32>, T)>,
    pub hits: nat,
    pub misses: nat,
    pub batched: Seq<Seq<u32>>,
}

/// The entries by their tokens.
pub open spec fn entry_views<T>(entries: Seq<(Vec<u32>, T)>) -> Seq<(Seq<u32>, T)> {
    Seq::new(entries.len(), |i: int| (entries[i].0@, entries[i].1))
}

/// Token lists as sequences.
pub open spec fn token_lists(lists: Seq<Vec<u32>>) -> Seq<Seq<u32>> {
    Seq::new(lists.len(), |i: int| lists[i]@)
}

impl<T> View for PrefixCache<T> {
    type V = CacheView<T>;

    closed spec fn view(&self) -> CacheView<T> {
        CacheView {
            keep: self.keep as nat,
            floor: self.floor as nat,
            entries: entry_views(self.entries@),
            hits: self.hits as nat,
            misses: self.misses as nat,
            batched: token_lists(self.batched@),
        }
    }
}

/// `at` is the first place where these tokens stand.
pub open spec fn first_at(lists: Seq<Seq<u32>>, tokens: Seq<u32>, at: int) -> bool {
    &&& 0 <= at < lists.len()
    &&& lists[at] == tokens
    &&& forall|i: int| 0 <= i < at ==> #[trigger] lists[i] != tokens
}

/// The last entries, `n` of them at most.
pub open spec fn newest<T>(entries: Seq<(Seq<u32>, T)>, n: nat) -> Seq<(Seq<u32>, T)> {
    if entries.len() > n {
        entries.skip(entries.len() - n)
    } else {
        entries
    }
}

/// The larger of two numbers.
pub open spec fn larger(a: nat, b: nat) -> nat {
    if a < b {
        b
    } else {
        a
    }
}

impl<T> CacheView<T> {
    /// The tokens of the states that are kept.
    pub open spec fn keys(self) -> Seq<Seq<u32>> {
        Seq::new(self.entries.len(), |i: int| self.entries[i].0)
    }

    /// A state with these tokens is kept.
    pub open spec fn holding(self, tokens: Seq<u32>) -> bool {
        self.keys().contains(tokens)
    }

    /// The cache once it was asked for a state: one that is there is the most
    /// recently used, and counted as a hit unless this batch prefilled it; one
    /// that is not is a miss.
    pub open spec fn asked(self, tokens: Seq<u32>) -> CacheView<T> {
        if self.holding(tokens) {
            let at = choose|at: int| first_at(self.keys(), tokens, at);
            let used = CacheView {
                entries: self.entries.remove(at).push(self.entries[at]),
                ..self
            };
            if self.batched.contains(tokens) {
                let mine = choose|i: int| first_at(self.batched, tokens, i);
                CacheView { batched: self.batched.remove(mine), ..used }
            } else {
                CacheView { hits: self.hits + 1, ..used }
            }
        } else {
            CacheView { misses: self.misses + 1, ..self }
        }
    }

    /// The cache with a state that was just run.
    pub open spec fn keeping(self, tokens: Seq<u32>, value: T) -> CacheView<T> {
        if self.keep == 0 {
            self
        } else {
            CacheView { entries: newest(self.entries.push((tokens, value)), self.keep), ..self }
        }
    }

    /// The cache with states that a batch ran, room made for all of them.
    pub open spec fn forced(self, states: Seq<(Seq<u32>, T)>) -> CacheView<T>
        decreases states.len(),
    {
        if states.len() == 0 {
            self
        } else {
            let before = self.forced(states.drop_last());
            CacheView {
                entries: newest(
                    before.entries.push(states.last()),
                    larger(self.keep, self.floor),
                ),
                ..self
            }
        }
    }

    /// The cache with a batch's states run: each is a miss, and the batch's own.
    pub open spec fn batch_begun(self, states: Seq<(Seq<u32>, T)>) -> CacheView<T> {
        let counted = CacheView {
            misses: self.misses + states.len(),
            floor: states.len(),
            batched: Seq::new(states.len(), |i: int| states[i].0),
            ..self
        };
        counted.forced(states)
    }

    /// The cache once a batch is over: no bigger than it is meant to be.
    pub open spec fn batch_over(self) -> CacheView<T> {
        CacheView {
            floor: 0,
            batched: Seq::empty(),
            entries: newest(self.entries, self.keep),
            ..self
        }
    }
}

fn same_tokens(a: &[u32], b: &[u32]) -> (same: bool)
    ensures
        same == (a@ == b@),
{
    if a.len() != b.len() {
        return false;
    }
    for i in 0..a.len()
        invariant
            a@.len() == b@.len(),
            forall|j: int| 0 <= j < i ==> a@[j] == b@[j],
    {
        if a[i] != b[i] {
            return false;
        }
    }
    assert(a@ == b@);
    true
}

/// Where these tokens stand first in a list.
fn find_tokens(lists: &[Vec<u32>], tokens: &[u32]) -> (at: Option<usize>)
    ensures
        match at {
            Some(i) => first_at(token_lists(lists@), tokens@, i as int),
            None => !token_lists(lists@).contains(tokens@),
        },
{
    let ghost views = token_lists(lists@);
    for i in 0..lists.len()
        invariant
            views == token_lists(lists@),
            forall|j: int| 0 <= j < i ==> #[trigger] views[j] != tokens@,
    {
        if same_tokens(lists[i].as_slice(), tokens) {
            assert(views[i as int] == tokens@);
            return Some(i);
        }
        assert(views[i as int] != tokens@);
    }
    None
}

/// There is one first place.
proof fn lemma_first_at(lists: Seq<Seq<u32>>, tokens: Seq<u32>, a: int, b: int)
    requires
        first_at(lists, tokens, a),
        first_at(lists, tokens, b),
    ensures
        a == b,
{
    if a < b {
        assert(lists[a] != tokens);
    } else if b < a {
        assert(lists[b] != tokens);
    }
}

fn copy_tokens(tokens: &[u32]) -> (out: Vec<u32>)
    ensures
        out@ == tokens@,
{
    let mut out: Vec<u32> = Vec::new();
    for i in 0..tokens.len()
        invariant
            out@ == tokens@.take(i as int),
    {
        out.push(tokens[i]);
        assert(out@ == tokens@.take(i + 1));
    }
    assert(tokens@.take(tokens@.len() as int) == tokens@);
    out
}

/// Forcing states in changes the entries and nothing else.
proof fn lemma_forced_settings<T>(cache: CacheView<T>, states: Seq<(Seq<u32>, T)>)
    ensures
        cache.forced(states) == (CacheView { entries: cache.forced(states).entries, ..cache }),
    decreases states.len(),
{
}

impl<T> PrefixCache<T> {
    /// A cache that keeps this many states across requests. Zero keeps none.
    pub fn new(keep: usize) -> (out: Self)
        ensures
            out@ == (CacheView::<T> {
                keep: keep as nat,
                floor: 0,
                entries: Seq::empty(),
                hits: 0,
                misses: 0,
                batched: Seq::empty(),
            }),
    {
        let out = PrefixCache {
            keep,
            floor: 0,
            entries: Vec::new(),
            hits: 0,
            misses: 0,
            batched: Vec::new(),
        };
        assert(out@.entries == Seq::<(Seq<u32>, T)>::empty());
        assert(out@.batched == Seq::<Seq<u32>>::empty());
        out
    }

    /// The same cache with room for another number of states, and none kept.
    pub fn with_room_for(self, keep: usize) -> (out: Self)
        ensures
            out@ == (CacheView { keep: keep as nat, entries: Seq::empty(), ..self@ }),
    {
        let out = PrefixCache { keep, entries: Vec::new(), ..self };
        assert(out@.entries == Seq::<(Seq<u32>, T)>::empty());
        out
    }

    /// How often a state was found, and how often it had to be run.
    pub fn counts(&self) -> (out: (usize, usize))
        ensures
            out.0 == self@.hits,
            out.1 == self@.misses,
    {
        (self.hits, self.misses)
    }

    /// How many states are kept.
    pub fn room(&self) -> (keep: usize)
        ensures
            keep == self@.keep,
    {
        self.keep
    }

    fn position(&self, tokens: &[u32]) -> (at: Option<usize>)
        ensures
            match at {
                Some(i) => first_at(self@.keys(), tokens@, i as int),
                None => !self@.holding(tokens@),
            },
    {
        let ghost keys = self@.keys();
        for i in 0..self.entries.len()
            invariant
                keys == self@.keys(),
                keys.len() == self.entries@.len(),
                forall|j: int| 0 <= j < i ==> #[trigger] keys[j] != tokens@,
        {
            assert(keys[i as int] == self.entries@[i as int].0@);
            if same_tokens(self.entries[i].0.as_slice(), tokens) {
                return Some(i);
            }
        }
        None
    }

    /// Whether a state with these tokens is kept.
    pub fn holds(&self, tokens: &[u32]) -> (yes: bool)
        ensures
            yes == self@.holding(tokens@),
    {
        match self.position(tokens) {
            Some(i) => {
                assert(self@.keys()[i as int] == tokens@);
                true
            },
            None => false,
        }
    }

    /// Ask for a state. One that is there becomes the most recently used, and is
    /// what [`PrefixCache::latest`] then gives; one that is not has to be run.
    pub fn ask(&mut self, tokens: &[u32]) -> (found: bool)
        requires
            old(self)@.hits < usize::MAX,
            old(self)@.misses < usize::MAX,
        ensures
            found == old(self)@.holding(tokens@),
            final(self)@ == old(self)@.asked(tokens@),
            found ==> final(self)@.entries.len() > 0 && final(self)@.entries.last().0 == tokens@,
    {
        let ghost before = self@;
        match self.position(tokens) {
            Some(at) => {
                proof {
                    assert(before.keys()[at as int] == tokens@);
                    assert(before.holding(tokens@));
                    let chosen = choose|i: int| first_at(before.keys(), tokens@, i);
                    lemma_first_at(before.keys(), tokens@, at as int, chosen);
                }
                // Most recently used last, so eviction takes from the front.
                let entry = self.entries.remove(at);
                self.entries.push(entry);
                assert(self@.entries == before.entries.remove(at as int).push(
                    before.entries[at as int],
                ));
                match find_tokens(self.batched.as_slice(), tokens) {
                    // A state this batch prefilled is already counted as a miss;
                    // the next request to ask for it is a hit like any other.
                    Some(mine) => {
                        proof {
                            assert(before.batched[mine as int] == tokens@);
                            let chosen = choose|i: int| first_at(before.batched, tokens@, i);
                            lemma_first_at(before.batched, tokens@, mine as int, chosen);
                        }
                        let _mine = self.batched.remove(mine);
                        assert(self@.batched == before.batched.remove(mine as int));
                    },
                    None => {
                        self.hits = self.hits + 1;
                    },
                }
                true
            },
            None => {
                self.misses = self.misses + 1;
                false
            },
        }
    }

    /// What is kept of the most recently used state.
    pub fn latest(&self) -> (value: &T)
        requires
            self@.entries.len() > 0,
        ensures
            *value == self@.entries.last().1,
    {
        let n: usize = self.entries.len();
        &self.entries[n - 1].1
    }

    fn evict(&mut self, room: usize)
        ensures
            final(self)@ == (CacheView {
                entries: newest(old(self)@.entries, room as nat),
                ..old(self)@
            }),
    {
        let ghost before = self@;
        assert(self.entries@.len() == before.entries.len());
        assert(before.entries.skip(0) == before.entries);
        while self.entries.len() > room
            invariant
                self.entries@.len() <= before.entries.len(),
                self.entries@.len() == before.entries.len() || self.entries@.len() >= room,
                self@ == (CacheView {
                    entries: before.entries.skip(before.entries.len() - self.entries@.len()),
                    ..before
                }),
            decreases self.entries@.len(),
        {
            let ghost now = self@.entries;
            let ghost n = self.entries@.len();
            let _oldest = self.entries.remove(0);
            proof {
                assert(self@.entries =~= now.remove(0));
                assert(now.remove(0) =~= before.entries.skip(before.entries.len() - n + 1));
            }
        }
        assert(self@.entries =~= newest(before.entries, room as nat));
    }

    /// Keep a state that was just run, and let go of the oldest.
    pub fn insert(&mut self, tokens: Vec<u32>, value: T)
        ensures
            final(self)@ == old(self)@.keeping(tokens@, value),
    {
        if self.keep == 0 {
            return;
        }
        let ghost before = self@;
        self.entries.push((tokens, value));
        assert(self@.entries == before.entries.push((tokens@, value)));
        let room: usize = self.keep;
        self.evict(room);
    }

    /// Keep a state the cache is not otherwise meant to hold: a batch that
    /// prefilled it is about to ask for it back.
    fn insert_forced(&mut self, tokens: Vec<u32>, value: T)
        ensures
            final(self)@ == (CacheView {
                entries: newest(
                    old(self)@.entries.push((tokens@, value)),
                    larger(old(self)@.keep, old(self)@.floor),
                ),
                ..old(self)@
            }),
    {
        let ghost before = self@;
        self.entries.push((tokens, value));
        assert(self@.entries == before.entries.push((tokens@, value)));
        let room: usize = if self.keep < self.floor {
            self.floor
        } else {
            self.keep
        };
        self.evict(room);
    }

    /// Keep the states that a batch ran, however many they are, until the batch is
    /// over.
    pub fn begin_batch(&mut self, states: Vec<(Vec<u32>, T)>)
        requires
            old(self)@.misses + states@.len() <= usize::MAX,
        ensures
            final(self)@ == old(self)@.batch_begun(entry_views(states@)),
    {
        let ghost before = self@;
        let ghost all = entry_views(states@);
        self.misses = self.misses + states.len();
        self.floor = states.len();
        let mut batched: Vec<Vec<u32>> = Vec::new();
        for i in 0..states.len()
            invariant
                batched@.len() == i,
                forall|j: int| 0 <= j < i ==> (#[trigger] batched@[j])@ == states@[j].0@,
        {
            batched.push(copy_tokens(states[i].0.as_slice()));
        }
        self.batched = batched;
        let ghost counted = CacheView {
            misses: before.misses + all.len(),
            floor: all.len(),
            batched: Seq::new(all.len(), |i: int| all[i].0),
            ..before
        };
        assert(self@.batched == counted.batched);
        assert(all.take(0) == Seq::<(Seq<u32>, T)>::empty());
        let mut rest = states;
        let mut done: usize = 0;
        assert(all.skip(0) == all);
        assert(self@ == counted.forced(all.take(0)));
        while rest.len() > 0
            invariant
                done + rest@.len() == all.len(),
                all.len() <= usize::MAX,
                entry_views(rest@) == all.skip(done as int),
                self@ == counted.forced(all.take(done as int)),
            decreases rest@.len(),
        {
            let ghost held = entry_views(rest@);
            let (tokens, value) = rest.remove(0);
            proof {
                assert(held[0] == (tokens@, value));
                assert(entry_views(rest@) =~= held.remove(0));
                assert(all.skip(done as int)[0] == (tokens@, value));
                assert(entry_views(rest@) =~= all.skip(done + 1));
                assert(all.take(done + 1).drop_last() == all.take(done as int));
                assert(all.take(done + 1).last() == (tokens@, value));
                lemma_forced_settings(counted, all.take(done as int));
            }
            self.insert_forced(tokens, value);
            done = done + 1;
        }
        assert(all.take(all.len() as int) == all);
    }

    /// Be no bigger than meant to be again, once a batch is over.
    pub fn end_batch(&mut self)
        ensures
            final(self)@ == old(self)@.batch_over(),
    {
        self.batched = Vec::new();
        self.floor = 0;
        assert(self@.batched == Seq::<Seq<u32>>::empty());
        let room: usize = self.keep;
        self.evict(room);
    }
}

/// A repeated state is prefilled once and then found: with room for one state at
/// least, a state that was just kept is there, and asking for it is a hit.
pub proof fn law_a_kept_state_is_found<T>(cache: CacheView<T>, tokens: Seq<u32>, value: T)
    requires
        cache.keep > 0,
        !cache.batched.contains(tokens),
    ensures
        cache.keeping(tokens, value).holding(tokens),
        cache.keeping(tokens, value).asked(tokens).hits == cache.hits + 1,
        cache.keeping(tokens, value).asked(tokens).misses == cache.misses,
{
    let after = cache.keeping(tokens, value);
    let n = after.entries.len();
    assert(after.entries.last() == (tokens, value));
    assert(after.keys()[n - 1] == tokens);
}

/// No more states are kept than there is room for.
pub proof fn law_the_cache_stays_within_its_room<T>(
    cache: CacheView<T>,
    tokens: Seq<u32>,
    value: T,
)
    ensures
        cache.keep > 0 ==> cache.keeping(tokens, value).entries.len() <= cache.keep,
        cache.keep == 0 ==> cache.keeping(tokens, value) == cache,
        cache.batch_over().entries.len() <= cache.keep,
{
}

/// Asking for a state lets go of none and adds none; it makes the one asked for
/// the last to be let go of.
pub proof fn law_asking_lets_go_of_nothing<T>(cache: CacheView<T>, tokens: Seq<u32>, other: Seq<u32>)
    ensures
        cache.asked(tokens).entries.len() == cache.entries.len(),
        cache.asked(tokens).holding(other) <==> cache.holding(other),
        cache.holding(tokens) ==> cache.asked(tokens).entries.last().0 == tokens,
{
    if cache.holding(tokens) {
        lemma_first_exists(cache.keys(), tokens);
        let at = choose|at: int| first_at(cache.keys(), tokens, at);
        let moved = cache.entries.remove(at).push(cache.entries[at]);
        let after = cache.asked(tokens);
        assert(after.entries == moved);
        assert(after.entries.last() == cache.entries[at]);
        assert(cache.keys()[at] == cache.entries[at].0);
        if cache.holding(other) {
            let i = choose|i: int| 0 <= i < cache.keys().len() && cache.keys()[i] == other;
            let j = if i < at {
                i
            } else if i == at {
                moved.len() - 1
            } else {
                i - 1
            };
            assert(moved[j] == cache.entries[i]);
            assert(after.keys()[j] == other);
        }
        if after.holding(other) {
            let j = choose|j: int| 0 <= j < after.keys().len() && after.keys()[j] == other;
            let i = if j == moved.len() - 1 {
                at
            } else if j < at {
                j
            } else {
                j + 1
            };
            assert(moved[j] == cache.entries[i]);
            assert(cache.keys()[i] == other);
        }
    }
}

/// What is kept after asking was kept before.
pub proof fn lemma_asked_entries<T>(cache: CacheView<T>, tokens: Seq<u32>, i: int)
    requires
        0 <= i < cache.asked(tokens).entries.len(),
    ensures
        cache.entries.contains(cache.asked(tokens).entries[i]),
{
    if cache.holding(tokens) {
        lemma_first_exists(cache.keys(), tokens);
        let at = choose|at: int| first_at(cache.keys(), tokens, at);
        let after = cache.asked(tokens).entries;
        assert(after == cache.entries.remove(at).push(cache.entries[at]));
        if i == after.len() - 1 {
            assert(after[i] == cache.entries[at]);
        } else if i < at {
            assert(after[i] == cache.entries[i]);
        } else {
            assert(after[i] == cache.entries[i + 1]);
        }
    } else {
        assert(cache.asked(tokens).entries[i] == cache.entries[i]);
    }
}

/// What is kept once a batch began was kept before, or is the batch's.
pub proof fn lemma_forced_entries<T>(cache: CacheView<T>, states: Seq<(Seq<u32>, T)>, i: int)
    requires
        0 <= i < cache.forced(states).entries.len(),
    ensures
        cache.entries.contains(cache.forced(states).entries[i]) || states.contains(
            cache.forced(states).entries[i],
        ),
    decreases states.len(),
{
    let after = cache.forced(states).entries;
    if states.len() == 0 {
        assert(after[i] == cache.entries[i]);
    } else {
        let rest = states.drop_last();
        let before = cache.forced(rest).entries;
        let all = before.push(states.last());
        let j = if all.len() > larger(cache.keep, cache.floor) {
            i + (all.len() - larger(cache.keep, cache.floor))
        } else {
            i
        };
        assert(after[i] == all[j]);
        if j == before.len() {
            assert(states[states.len() - 1] == after[i]);
        } else {
            lemma_forced_entries(cache, rest, j);
            if rest.contains(before[j]) {
                let k = choose|k: int| 0 <= k < rest.len() && rest[k] == before[j];
                assert(states[k] == after[i]);
            }
        }
    }
}

/// What is there stands somewhere first.
proof fn lemma_first_exists(lists: Seq<Seq<u32>>, tokens: Seq<u32>)
    requires
        lists.contains(tokens),
    ensures
        exists|at: int| first_at(lists, tokens, at),
    decreases lists.len(),
{
    if lists.drop_last().contains(tokens) {
        lemma_first_exists(lists.drop_last(), tokens);
        let at = choose|at: int| first_at(lists.drop_last(), tokens, at);
        assert forall|i: int| 0 <= i < at implies #[trigger] lists[i] != tokens by {
            assert(lists.drop_last()[i] == lists[i]);
        }
        assert(first_at(lists, tokens, at));
    } else {
        let at = lists.len() - 1;
        let there = choose|i: int| 0 <= i < lists.len() && lists[i] == tokens;
        if there < at {
            assert(lists.drop_last()[there] == tokens);
        }
        assert forall|i: int| 0 <= i < at implies #[trigger] lists[i] != tokens by {
            assert(lists.drop_last()[i] == lists[i]);
        }
        assert(first_at(lists, tokens, at));
    }
}

/// States forced in stand last, in order, as long as there is room for them.
proof fn lemma_forced_stand_last<T>(cache: CacheView<T>, states: Seq<(Seq<u32>, T)>)
    requires
        states.len() <= larger(cache.keep, cache.floor),
    ensures
        cache.forced(states).entries.len() >= states.len(),
        forall|i: int|
            0 <= i < states.len() ==> #[trigger] states[i] == cache.forced(states).entries[
            cache.forced(states).entries.len() - states.len() + i],
    decreases states.len(),
{
    if states.len() > 0 {
        let rest = states.drop_last();
        lemma_forced_stand_last(cache, rest);
        let before = cache.forced(rest).entries;
        let after = cache.forced(states).entries;
        let all = before.push(states.last());
        assert forall|i: int| 0 <= i < states.len() implies #[trigger] states[i] == after[after.len()
            - states.len() + i] by {
            if i < rest.len() {
                assert(rest[i] == states[i]);
                assert(before[before.len() - rest.len() + i] == states[i]);
                assert(all[before.len() - rest.len() + i] == states[i]);
            } else {
                assert(all[all.len() - 1] == states[i]);
            }
        }
    }
}

/// However small the cache, a batch finds every state that it ran: none is let go
/// of before the batch is over.
pub proof fn law_a_batch_finds_every_state_it_ran<T>(
    cache: CacheView<T>,
    states: Seq<(Seq<u32>, T)>,
    i: int,
)
    requires
        0 <= i < states.len(),
    ensures
        cache.batch_begun(states).holding(states[i].0),
        cache.batch_begun(states).batched.contains(states[i].0),
        cache.batch_begun(states).misses == cache.misses + states.len(),
        cache.batch_begun(states).asked(states[i].0).hits == cache.hits,
{
    let counted = CacheView {
        misses: cache.misses + states.len(),
        floor: states.len(),
        batched: Seq::new(states.len(), |j: int| states[j].0),
        ..cache
    };
    lemma_forced_stand_last(counted, states);
    lemma_forced_settings(counted, states);
    let after = cache.batch_begun(states);
    let at = after.entries.len() - states.len() + i;
    assert(after.entries[at] == states[i]);
    assert(after.keys()[at] == states[i].0);
    assert(after.batched[i] == states[i].0);
}

// ---------------------------------------------------------------------------
// What a batch runs together
// ---------------------------------------------------------------------------

/// The places of the states that a batch has to run, among the first `n`: long
/// enough, not kept already, and each once.
pub open spec fn fresh_among<T>(
    cache: CacheView<T>,
    states: Seq<Seq<u32>>,
    min: nat,
    n: int,
) -> Seq<int>
    decreases n,
{
    if n <= 0 {
        Seq::empty()
    } else {
        let before = fresh_among(cache, states, min, n - 1);
        let state = states[n - 1];
        if state.len() >= larger(min, 1) && !cache.holding(state) && !exists|j: int|
            0 <= j < before.len() && states[#[trigger] before[j]] == state {
            before.push(n - 1)
        } else {
            before
        }
    }
}

/// The states of passes, by their tokens.
pub open spec fn state_tokens(states: Seq<OwnedPass>) -> Seq<Seq<u32>> {
    Seq::new(states.len(), |i: int| states[i].ids@)
}

/// The states that a batch is better off running together: those it has to run,
/// where they are more than one.
pub fn fresh_states<T>(cache: &PrefixCache<T>, states: &[OwnedPass], min: usize) -> (out: Vec<
    usize,
>)
    ensures
        ({
            let fresh = fresh_among(
                cache@,
                state_tokens(states@),
                min as nat,
                states@.len() as int,
            );
            crate::encode::ints(out@) == if fresh.len() > 1 {
                fresh
            } else {
                Seq::empty()
            }
        }),
{
    let floor: usize = if min < 1 {
        1
    } else {
        min
    };
    let ghost tokens = state_tokens(states@);
    let mut fresh: Vec<usize> = Vec::new();
    for i in 0..states.len()
        invariant
            floor == larger(min as nat, 1),
            tokens == state_tokens(states@),
            crate::encode::ints(fresh@) == fresh_among(cache@, tokens, min as nat, i as int),
            forall|j: int| 0 <= j < fresh@.len() ==> #[trigger] fresh@[j] < i,
    {
        let state = states[i].ids.as_slice();
        let ghost before = crate::encode::ints(fresh@);
        assert(tokens[i as int] == state@);
        let mut seen = false;
        for j in 0..fresh.len()
            invariant
                i < states@.len(),
                tokens == state_tokens(states@),
                state@ == tokens[i as int],
                before == crate::encode::ints(fresh@),
                forall|k: int| 0 <= k < fresh@.len() ==> #[trigger] fresh@[k] < i,
                seen == exists|k: int| 0 <= k < j && tokens[#[trigger] before[k]] == state@,
        {
            let same = same_tokens(states[fresh[j]].ids.as_slice(), state);
            assert(before[j as int] == fresh@[j as int]);
            assert(same == (tokens[before[j as int]] == state@));
            seen = seen || same;
        }
        if state.len() >= floor && !cache.holds(state) && !seen {
            fresh.push(i);
            assert(crate::encode::ints(fresh@) == before.push(i as int));
        }
        assert(fresh@.len() == crate::encode::ints(fresh@).len());
    }
    if fresh.len() > 1 {
        fresh
    } else {
        let none: Vec<usize> = Vec::new();
        assert(crate::encode::ints(none@) == Seq::<int>::empty());
        none
    }
}

/// No more states are run than there are, and each stands where it should.
pub proof fn lemma_fresh_places<T>(
    cache: CacheView<T>,
    states: Seq<Seq<u32>>,
    min: nat,
    n: int,
)
    requires
        0 <= n,
    ensures
        fresh_among(cache, states, min, n).len() <= n,
        forall|j: int|
            0 <= j < fresh_among(cache, states, min, n).len() ==> 0 <= #[trigger] fresh_among(
                cache,
                states,
                min,
                n,
            )[j] < n,
    decreases n,
{
    if n > 0 {
        lemma_fresh_places(cache, states, min, n - 1);
    }
}

/// A state is run once in a batch, however many requests want it.
pub proof fn law_a_batch_runs_each_state_once<T>(
    cache: CacheView<T>,
    states: Seq<Seq<u32>>,
    min: nat,
    n: int,
)
    requires
        0 <= n <= states.len(),
    ensures
        ({
            let fresh = fresh_among(cache, states, min, n);
            &&& forall|j: int|
                0 <= j < fresh.len() ==> 0 <= #[trigger] fresh[j] < n && !cache.holding(
                    states[fresh[j]],
                ) && states[fresh[j]].len() >= larger(min, 1)
            &&& forall|i: int, j: int|
                0 <= i < j < fresh.len() ==> states[#[trigger] fresh[i]]
                    != states[#[trigger] fresh[j]]
            &&& forall|i: int|
                0 <= i < n && (#[trigger] states[i]).len() >= larger(min, 1) && !cache.holding(
                    states[i],
                ) ==> exists|j: int|
                    0 <= j < fresh.len() && states[#[trigger] fresh[j]] == states[i]
        }),
    decreases n,
{
    if n > 0 {
        law_a_batch_runs_each_state_once(cache, states, min, n - 1);
        let before = fresh_among(cache, states, min, n - 1);
        let fresh = fresh_among(cache, states, min, n);
        assert forall|i: int|
            0 <= i < n && (#[trigger] states[i]).len() >= larger(min, 1) && !cache.holding(
                states[i],
            ) implies exists|j: int| 0 <= j < fresh.len() && states[#[trigger] fresh[j]]
            == states[i] by {
            if i < n - 1 || fresh == before {
                let j = choose|j: int|
                    0 <= j < before.len() && states[#[trigger] before[j]] == states[i];
                assert(fresh[j] == before[j]);
            } else {
                assert(fresh[before.len() as int] == n - 1);
            }
        }
    }
}

// ---------------------------------------------------------------------------
// What a batch leaves
// ---------------------------------------------------------------------------

/// The states with these tokens are the last that are kept, in whatever order.
pub open spec fn stand_last<T>(cache: CacheView<T>, tokens: Seq<Seq<u32>>) -> bool {
    let first = cache.entries.len() - tokens.len();
    &&& first >= 0
    &&& forall|j: int|
        0 <= j < tokens.len() ==> exists|i: int|
            first <= i < cache.entries.len() && #[trigger] cache.entries[i].0 == #[trigger] tokens[j]
    &&& forall|i: int|
        0 <= i < first ==> !tokens.contains((#[trigger] cache.entries[i]).0)
}

/// Asking for one of the states that stand last leaves them there.
pub proof fn lemma_asked_stand_last<T>(cache: CacheView<T>, tokens: Seq<Seq<u32>>, k: int)
    requires
        stand_last(cache, tokens),
        0 <= k < tokens.len(),
    ensures
        cache.holding(tokens[k]),
        stand_last(cache.asked(tokens[k]), tokens),
{
    let t = tokens[k];
    let n = cache.entries.len() as int;
    let first = n - tokens.len();
    let there = choose|i: int| first <= i < n && #[trigger] cache.entries[i].0 == tokens[k];
    assert(cache.keys()[there] == t);
    lemma_first_exists(cache.keys(), t);
    let at = choose|at: int| first_at(cache.keys(), t, at);
    assert(cache.keys()[at] == cache.entries[at].0);
    assert(at >= first) by {
        if at < first {
            assert(tokens.contains(cache.entries[at].0));
        }
    }
    let after = cache.asked(t);
    let moved = cache.entries.remove(at).push(cache.entries[at]);
    assert(after.entries == moved);
    assert forall|j: int| 0 <= j < tokens.len() implies exists|i: int|
        first <= i < after.entries.len() && #[trigger] after.entries[i].0 == #[trigger] tokens[j] by {
        let i = choose|i: int| first <= i < n && #[trigger] cache.entries[i].0 == tokens[j];
        let to = if i == at {
            n - 1
        } else if i < at {
            i
        } else {
            i - 1
        };
        assert(after.entries[to] == cache.entries[i]);
        assert(after.entries[to].0 == tokens[j]);
    }
    assert forall|i: int| 0 <= i < first implies !tokens.contains(
        (#[trigger] after.entries[i]).0,
    ) by {
        assert(after.entries[i] == cache.entries[i]);
    }
}

/// States that stand last are still kept when a batch is over, where there is room for
/// them.
pub proof fn lemma_batch_over_holds<T>(cache: CacheView<T>, tokens: Seq<Seq<u32>>, k: int)
    requires
        stand_last(cache, tokens),
        0 <= k < tokens.len() <= cache.keep,
    ensures
        cache.batch_over().holding(tokens[k]),
{
    let n = cache.entries.len() as int;
    let after = cache.batch_over();
    let i = choose|i: int|
        n - tokens.len() <= i < n && #[trigger] cache.entries[i].0 == tokens[k];
    let to = i - (n - after.entries.len());
    assert(after.entries[to] == cache.entries[i]);
    assert(after.keys()[to] == tokens[k]);
}

/// New states that a batch ran stand last.
pub proof fn lemma_begun_stand_last<T>(cache: CacheView<T>, states: Seq<(Seq<u32>, T)>)
    requires
        forall|j: int| 0 <= j < states.len() ==> !cache.holding((#[trigger] states[j]).0),
    ensures
        ({
            let begun = cache.batch_begun(states);
            let tokens = Seq::new(states.len(), |j: int| states[j].0);
            &&& stand_last(begun, tokens)
            &&& begun.batched == tokens
            &&& begun.hits == cache.hits
            &&& begun.misses == cache.misses + states.len()
            &&& begun.keep == cache.keep
        }),
{
    let counted = CacheView {
        misses: cache.misses + states.len(),
        floor: states.len(),
        batched: Seq::new(states.len(), |j: int| states[j].0),
        ..cache
    };
    let begun = cache.batch_begun(states);
    let tokens = Seq::new(states.len(), |j: int| states[j].0);
    lemma_forced_stand_last(counted, states);
    lemma_forced_settings(counted, states);
    lemma_forced_older(counted, states);
    let n = begun.entries.len() as int;
    assert forall|j: int| 0 <= j < tokens.len() implies exists|i: int|
        n - tokens.len() <= i < n && #[trigger] begun.entries[i].0 == #[trigger] tokens[j] by {
        assert(states[j] == begun.entries[n - states.len() + j]);
    }
    assert forall|i: int| 0 <= i < n - tokens.len() implies !tokens.contains(
        (#[trigger] begun.entries[i]).0,
    ) by {
        assert(cache.entries.contains(begun.entries[i]));
        let from = choose|from: int|
            0 <= from < cache.entries.len() && cache.entries[from] == begun.entries[i];
        assert(cache.keys()[from] == begun.entries[i].0);
        if tokens.contains(begun.entries[i].0) {
            let j = choose|j: int| 0 <= j < tokens.len() && tokens[j] == begun.entries[i].0;
            assert(!cache.holding(states[j].0));
        }
    }
}

/// What stands before the states that were forced in was kept before.
proof fn lemma_forced_older<T>(cache: CacheView<T>, states: Seq<(Seq<u32>, T)>)
    requires
        states.len() <= larger(cache.keep, cache.floor),
    ensures
        forall|i: int|
            0 <= i < cache.forced(states).entries.len() - states.len()
                ==> cache.entries.contains(#[trigger] cache.forced(states).entries[i]),
    decreases states.len(),
{
    let after = cache.forced(states).entries;
    if states.len() == 0 {
        assert forall|i: int| 0 <= i < after.len() implies cache.entries.contains(
            #[trigger] after[i],
        ) by {
            assert(after[i] == cache.entries[i]);
        }
    } else {
        let rest = states.drop_last();
        lemma_forced_older(cache, rest);
        let before = cache.forced(rest).entries;
        let all = before.push(states.last());
        assert forall|i: int| 0 <= i < after.len() - states.len() implies cache.entries.contains(
            #[trigger] after[i],
        ) by {
            let j = i + (all.len() - after.len());
            assert(after[i] == all[j]);
            assert(all[j] == before[j]);
        }
    }
}

/// A new state that is kept stands last, and is what asking for it gives.
pub proof fn lemma_kept_is_latest<T>(cache: CacheView<T>, tokens: Seq<u32>, value: T)
    requires
        cache.keep > 0,
        !cache.holding(tokens),
    ensures
        cache.keeping(tokens, value).holding(tokens),
        cache.keeping(tokens, value).asked(tokens).entries.last() == (tokens, value),
        stand_last(cache.keeping(tokens, value), seq![tokens]),
{
    let after = cache.keeping(tokens, value);
    let all = cache.entries.push((tokens, value));
    let n = after.entries.len() as int;
    assert(after.entries.last() == (tokens, value));
    assert(after.keys()[n - 1] == tokens);
    assert forall|i: int| 0 <= i < n - 1 implies (#[trigger] after.entries[i]).0 != tokens by {
        let from = i + (all.len() - n);
        assert(after.entries[i] == cache.entries[from]);
        assert(cache.keys()[from] == after.entries[i].0);
    }
    lemma_first_exists(after.keys(), tokens);
    let at = choose|at: int| first_at(after.keys(), tokens, at);
    assert(after.keys()[at] == after.entries[at].0);
    assert(at == n - 1);
    let one = seq![tokens];
    assert forall|j: int| 0 <= j < one.len() implies exists|i: int|
        n - 1 <= i < n && #[trigger] after.entries[i].0 == #[trigger] one[j] by {
        assert(after.entries[n - 1].0 == one[j]);
    }
}

/// A new state is among those that a batch has to run.
pub proof fn lemma_fresh_covers<T>(
    cache: CacheView<T>,
    states: Seq<Seq<u32>>,
    min: nat,
    n: int,
    i: int,
) -> (j: int)
    requires
        0 <= i < n <= states.len(),
        states[i].len() >= larger(min, 1),
        !cache.holding(states[i]),
    ensures
        0 <= j < fresh_among(cache, states, min, n).len(),
        0 <= fresh_among(cache, states, min, n)[j] < n,
        states[fresh_among(cache, states, min, n)[j]] == states[i],
{
    law_a_batch_runs_each_state_once(cache, states, min, n);
    let fresh = fresh_among(cache, states, min, n);
    choose|j: int| 0 <= j < fresh.len() && states[#[trigger] fresh[j]] == states[i]
}

/// No two of the states that a batch has to run are the same.
pub proof fn lemma_fresh_differ<T>(
    cache: CacheView<T>,
    states: Seq<Seq<u32>>,
    min: nat,
    n: int,
    i: int,
    j: int,
)
    requires
        0 <= n <= states.len(),
        0 <= i < j < fresh_among(cache, states, min, n).len(),
    ensures
        states[fresh_among(cache, states, min, n)[i]]
            != states[fresh_among(cache, states, min, n)[j]],
{
    law_a_batch_runs_each_state_once(cache, states, min, n);
}

/// The states that a batch has to run among the first ones come first among those that
/// it has to run.
pub proof fn lemma_fresh_prefix<T>(
    cache: CacheView<T>,
    states: Seq<Seq<u32>>,
    min: nat,
    m: int,
    n: int,
)
    requires
        0 <= m <= n,
    ensures
        ({
            let few = fresh_among(cache, states, min, m);
            let more = fresh_among(cache, states, min, n);
            &&& few.len() <= more.len()
            &&& forall|j: int| 0 <= j < few.len() ==> few[j] == #[trigger] more[j]
        }),
    decreases n,
{
    if m < n {
        lemma_fresh_prefix(cache, states, min, m, n - 1);
    }
}

/// The oldest states go first: what is kept is the states that were used last, in their order,
/// with the new one behind them.
pub proof fn law_the_oldest_state_goes_first<T>(cache: CacheView<T>, tokens: Seq<u32>, value: T)
    requires
        cache.keep > 0,
    ensures
        cache.keeping(tokens, value).entries.last() == (tokens, value),
        cache.entries.len() < cache.keep ==> cache.keeping(tokens, value).entries
            == cache.entries.push((tokens, value)),
        cache.entries.len() >= cache.keep ==> cache.keeping(tokens, value).entries
            == cache.entries.skip(cache.entries.len() + 1 - cache.keep).push((tokens, value)),
        cache.keeping(tokens, value).hits == cache.hits,
        cache.keeping(tokens, value).misses == cache.misses,
        cache.keeping(tokens, value).batched == cache.batched,
        cache.keeping(tokens, value).keep == cache.keep,
        cache.keeping(tokens, value).floor == cache.floor,
{
    let pushed = cache.entries.push((tokens, value));
    if cache.entries.len() >= cache.keep {
        assert(pushed.skip(pushed.len() - cache.keep) =~= cache.entries.skip(
            cache.entries.len() + 1 - cache.keep,
        ).push((tokens, value)));
    }
}

/// Asking for a state that is held moves it behind all others, with the value it was kept with,
/// and counts as a hit, but for the first time that a batch asks for what it ran itself; asking
/// for any other counts as a miss and moves nothing.
pub proof fn law_asking_counts_hits_and_misses<T>(cache: CacheView<T>, tokens: Seq<u32>)
    ensures
        !cache.holding(tokens) ==> cache.asked(tokens).misses == cache.misses + 1 && cache.asked(
            tokens,
        ).hits == cache.hits && cache.asked(tokens).entries == cache.entries && cache.asked(
            tokens,
        ).batched == cache.batched,
        cache.holding(tokens) ==> cache.asked(tokens).misses == cache.misses,
        cache.holding(tokens) && !cache.batched.contains(tokens) ==> cache.asked(tokens).hits
            == cache.hits + 1 && cache.asked(tokens).batched == cache.batched,
        cache.holding(tokens) && cache.batched.contains(tokens) ==> cache.asked(tokens).hits
            == cache.hits && cache.asked(tokens).batched.len() == cache.batched.len() - 1,
        cache.holding(tokens) ==> exists|at: int|
            0 <= at < cache.entries.len() && #[trigger] cache.entries[at].0 == tokens && cache.asked(
                tokens,
            ).entries == cache.entries.remove(at).push(cache.entries[at]) && forall|i: int|
                0 <= i < at ==> (#[trigger] cache.entries[i]).0 != tokens,
        cache.asked(tokens).keep == cache.keep,
        cache.asked(tokens).floor == cache.floor,
{
    if cache.holding(tokens) {
        lemma_first_exists(cache.keys(), tokens);
        let at = choose|at: int| first_at(cache.keys(), tokens, at);
        assert(cache.keys()[at] == cache.entries[at].0);
        assert forall|i: int| 0 <= i < at implies (#[trigger] cache.entries[i]).0 != tokens by {
            assert(cache.keys()[i] == cache.entries[i].0);
        }
        if cache.batched.contains(tokens) {
            lemma_first_exists(cache.batched, tokens);
        }
    }
}

/// A batch is over without a trace but for what is kept: nothing is set aside for it any more, the
/// newest states stay, as many as there is room for, and the counts are as they were.
pub proof fn law_a_batch_leaves_the_newest<T>(cache: CacheView<T>)
    ensures
        cache.batch_over().batched.len() == 0,
        cache.batch_over().floor == 0,
        cache.batch_over().keep == cache.keep,
        cache.batch_over().hits == cache.hits,
        cache.batch_over().misses == cache.misses,
        cache.entries.len() <= cache.keep ==> cache.batch_over().entries == cache.entries,
        cache.entries.len() > cache.keep ==> cache.batch_over().entries == cache.entries.skip(
            cache.entries.len() - cache.keep,
        ),
{
}

/// A batch begins with every state it ran at hand, each counted as a miss and none as a hit.
pub proof fn law_a_batch_counts_what_it_runs<T>(cache: CacheView<T>, states: Seq<(Seq<u32>, T)>)
    ensures
        cache.batch_begun(states).hits == cache.hits,
        cache.batch_begun(states).misses == cache.misses + states.len(),
        cache.batch_begun(states).keep == cache.keep,
        cache.batch_begun(states).batched.len() == states.len(),
        forall|i: int|
            0 <= i < states.len() ==> #[trigger] cache.batch_begun(states).batched[i] == states[i].0,
        cache.batch_begun(states).entries.len() >= states.len(),
        forall|i: int|
            0 <= i < states.len() ==> #[trigger] states[i] == cache.batch_begun(states).entries[
            cache.batch_begun(states).entries.len() - states.len() + i],
{
    let counted = CacheView {
        misses: cache.misses + states.len(),
        floor: states.len(),
        batched: Seq::new(states.len(), |i: int| states[i].0),
        ..cache
    };
    lemma_forced_settings(counted, states);
    lemma_forced_stand_last(counted, states);
}

/// A state is held just where some entry was kept under its tokens.
pub proof fn law_a_state_is_held_under_its_tokens<T>(cache: CacheView<T>, tokens: Seq<u32>)
    ensures
        cache.holding(tokens) <==> exists|i: int|
            0 <= i < cache.entries.len() && (#[trigger] cache.entries[i]).0 == tokens,
{
    if cache.holding(tokens) {
        let i = choose|i: int| 0 <= i < cache.keys().len() && cache.keys()[i] == tokens;
        assert(cache.entries[i].0 == tokens);
    }
    if exists|i: int| 0 <= i < cache.entries.len() && (#[trigger] cache.entries[i]).0 == tokens {
        let i = choose|i: int|
            0 <= i < cache.entries.len() && (#[trigger] cache.entries[i]).0 == tokens;
        assert(cache.keys()[i] == tokens);
    }
}

/// What a cache is given is seen item by item: tokens as they are, each with what is kept of it.
pub proof fn law_states_are_seen_with_their_tokens<T>(entries: Seq<(Vec<u32>, T)>, i: int)
    requires
        0 <= i < entries.len(),
    ensures
        entry_views(entries).len() == entries.len(),
        entry_views(entries)[i].0 == entries[i].0@,
        entry_views(entries)[i].1 == entries[i].1,
{
}

/// The states of passes are seen by their tokens, in order.
pub proof fn law_states_are_seen_by_their_tokens(states: Seq<OwnedPass>, i: int)
    requires
        0 <= i < states.len(),
    ensures
        state_tokens(states).len() == states.len(),
        state_tokens(states)[i] == states[i].ids@,
{
}

impl<T> PrefixCache<T> {
    /// A cache is seen whole: its settings, its counts, and every state it keeps.
    proof fn law_a_cache_is_seen_whole(&self, i: int)
        ensures
            self@.keep == self.keep,
            self@.floor == self.floor,
            self@.hits == self.hits,
            self@.misses == self.misses,
            self@.entries.len() == self.entries@.len(),
            0 <= i < self.entries@.len() ==> self@.entries[i] == (
                self.entries@[i].0@,
                self.entries@[i].1,
            ),
            self@.batched.len() == self.batched@.len(),
            0 <= i < self.batched@.len() ==> self@.batched[i] == self.batched@[i]@,
    {
    }
}

} // verus!
