//! An ordered table: entries keep the order in which their keys were first added.

use indexmap::IndexMap;
use vstd::prelude::*;

verus! {

/// `indexmap::IndexMap`: a hash map that remembers the order of its keys.
#[verifier::external_type_specification]
#[verifier::external_body]
#[verifier::reject_recursive_types(K)]
#[verifier::reject_recursive_types(V)]
#[verifier::reject_recursive_types(S)]
pub struct ExIndexMap<K, V, S>(indexmap::IndexMap<K, V, S>);

/// The entries of an index map in its iteration order.
pub uninterp spec fn slots(map: IndexMap<String, usize>) -> Seq<(Seq<char>, usize)>;

/// Where a key stands among entries, if it is there.
pub open spec fn holds<T>(entries: Seq<(Seq<char>, T)>, key: Seq<char>) -> bool {
    exists|i: int| 0 <= i < entries.len() && (#[trigger] entries[i]).0 == key
}

/// No key occurs twice.
pub open spec fn distinct_keys<T>(entries: Seq<(Seq<char>, T)>) -> bool {
    forall|i: int, j: int|
        0 <= i < entries.len() && 0 <= j < entries.len() && (#[trigger] entries[i]).0
            == (#[trigger] entries[j]).0 ==> i == j
}

/// Entries with one more put in: in the place of the entry that has its key, or
/// behind all others where none has.
pub open spec fn put<T>(
    entries: Seq<(Seq<char>, T)>,
    key: Seq<char>,
    value: T,
) -> Seq<(Seq<char>, T)> {
    if holds(entries, key) {
        Seq::new(
            entries.len(),
            |i: int|
                if entries[i].0 == key {
                    (key, value)
                } else {
                    entries[i]
                },
        )
    } else {
        entries.push((key, value))
    }
}

/// The entries with each value replaced by what `f` makes of it.
pub open spec fn mapped<T, U>(entries: Seq<(Seq<char>, T)>, f: spec_fn(T) -> U) -> Seq<
    (Seq<char>, U),
> {
    Seq::new(entries.len(), |i: int| (entries[i].0, f(entries[i].1)))
}

/// Putting in and mapping can be done in either order.
pub proof fn lemma_put_mapped<T, U>(
    entries: Seq<(Seq<char>, T)>,
    key: Seq<char>,
    value: T,
    f: spec_fn(T) -> U,
)
    ensures
        mapped(put(entries, key, value), f) == put(mapped(entries, f), key, f(value)),
{
    let shown = mapped(entries, f);
    if holds(entries, key) {
        let i = choose|i: int| 0 <= i < entries.len() && (#[trigger] entries[i]).0 == key;
        assert(shown[i].0 == key);
    }
    if holds(shown, key) {
        let i = choose|i: int| 0 <= i < shown.len() && (#[trigger] shown[i]).0 == key;
        assert(entries[i].0 == key);
    }
    assert(mapped(put(entries, key, value), f) =~= put(shown, key, f(value)));
}

/// `IndexMap::new`: a map without entries.
#[verifier::external_body]
fn index_new() -> (map: IndexMap<String, usize>)
    ensures
        slots(map) == Seq::<(Seq<char>, usize)>::empty(),
{
    IndexMap::new()
}

/// `IndexMap::insert`: the value under a key that is there is replaced where it
/// stands; a new key goes behind all others.
#[verifier::external_body]
fn index_insert(map: &mut IndexMap<String, usize>, key: String, at: usize)
    ensures
        slots(*final(map)) == put(slots(*old(map)), key@, at),
{
    map.insert(key, at);
}

/// `IndexMap::get`: the value of the entry that has the key, or nothing where no
/// entry has it.
#[verifier::external_body]
fn index_get(map: &IndexMap<String, usize>, key: &str) -> (at: Option<usize>)
    ensures
        at is Some <==> holds(slots(*map), key@),
        at matches Some(n) ==> slots(*map).contains((key@, n)),
{
    map.get(key).copied()
}

/// `IndexMap::get_index`, of which the key is kept: the key of the entry at this
/// place.
#[verifier::external_body]
fn index_key(map: &IndexMap<String, usize>, place: usize) -> (key: Option<&str>)
    ensures
        key is Some <==> place < slots(*map).len(),
        key matches Some(k) ==> k@ == slots(*map)[place as int].0,
{
    map.get_index(place).map(|entry| entry.0.as_str())
}

/// Values under text keys, in the order in which the keys were first added.
#[derive(Debug)]
pub struct Table<T> {
    index: IndexMap<String, usize>,
    values: Vec<T>,
}

impl<T> View for Table<T> {
    type V = Seq<(Seq<char>, T)>;

    closed spec fn view(&self) -> Seq<(Seq<char>, T)> {
        Seq::new(self.values@.len(), |i: int| (slots(self.index)[i].0, self.values@[i]))
    }
}

impl<T> Table<T> {
    #[verifier::type_invariant]
    spec fn indexed(self) -> bool {
        &&& slots(self.index).len() == self.values@.len()
        &&& forall|i: int|
            0 <= i < self.values@.len() ==> (#[trigger] slots(self.index)[i]).1 == i
        &&& distinct_keys(slots(self.index))
    }

    proof fn lemma_distinct(&self)
        requires
            self.indexed(),
        ensures
            distinct_keys(self@),
    {
        let was = slots(self.index);
        assert forall|i: int, j: int|
            0 <= i < self@.len() && 0 <= j < self@.len() && (#[trigger] self@[i]).0 == (
            #[trigger] self@[j]).0 implies i == j by {
            assert(self@[i].0 == was[i].0);
            assert(self@[j].0 == was[j].0);
        }
    }

    /// A table without entries.
    pub fn new() -> (out: Self)
        ensures
            out@ == Seq::<(Seq<char>, T)>::empty(),
    {
        let out = Table { index: index_new(), values: Vec::new() };
        assert(out@ == Seq::<(Seq<char>, T)>::empty());
        out
    }

    /// How many entries there are, each under a key of its own.
    pub fn len(&self) -> (n: usize)
        ensures
            n == self@.len(),
            distinct_keys(self@),
    {
        proof {
            use_type_invariant(self);
            self.lemma_distinct();
        }
        self.values.len()
    }

    /// `true` without entries.
    pub fn is_empty(&self) -> (yes: bool)
        ensures
            yes == (self@.len() == 0),
    {
        self.values.len() == 0
    }

    /// The table with this entry put in: a key that is there keeps its place and
    /// gets the new value, a new key goes behind all others.
    pub fn insert(self, key: &str, value: T) -> (out: Self)
        ensures
            out@ == put(self@, key@, value),
            distinct_keys(out@),
    {
        proof {
            use_type_invariant(&self);
        }
        let ghost before = self@;
        let Table { index, values } = self;
        let mut index = index;
        let mut values = values;
        let ghost was = slots(index);
        let ghost held = values@;
        match index_get(&index, key) {
            Some(at) => {
                proof {
                    let i = choose|i: int| 0 <= i < was.len() && was[i] == (key@, at);
                    assert(was[i].1 == i);
                    assert(before[at as int].0 == key@);
                    assert(holds(before, key@));
                }
                values.set(at, value);
                let out = Table { index, values };
                assert(out@ == put(before, key@, value)) by {
                    assert forall|i: int| 0 <= i < was.len() implies out@[i] == put(
                        before,
                        key@,
                        value,
                    )[i] by {
                        assert(before[i].0 == was[i].0);
                        if was[i].0 == key@ {
                            assert(i == at);
                        }
                    }
                }
                proof {
                    assert forall|i: int, j: int|
                        0 <= i < out@.len() && 0 <= j < out@.len() && (#[trigger] out@[i]).0
                            == (#[trigger] out@[j]).0 implies i == j by {
                        assert(out@[i].0 == was[i].0);
                        assert(out@[j].0 == was[j].0);
                    }
                }
                out
            },
            None => {
                let at: usize = values.len();
                proof {
                    assert(!holds(before, key@)) by {
                        assert forall|i: int| 0 <= i < before.len() implies (#[trigger] before[i]).0
                            != key@ by {
                            assert(before[i].0 == was[i].0);
                        }
                    }
                }
                index_insert(&mut index, key.to_owned(), at);
                values.push(value);
                proof {
                    assert(slots(index) == was.push((key@, at)));
                    assert forall|i: int, j: int|
                        0 <= i < slots(index).len() && 0 <= j < slots(index).len() && (
                        #[trigger] slots(index)[i]).0 == (#[trigger] slots(index)[j]).0 implies i
                        == j by {
                        if i < was.len() && j < was.len() {
                            assert(was[i].0 == was[j].0);
                        } else if i < was.len() {
                            assert(was[i].0 == key@);
                        } else if j < was.len() {
                            assert(was[j].0 == key@);
                        }
                    }
                }
                let out = Table { index, values };
                assert(out@ == before.push((key@, value)));
                proof {
                    assert forall|i: int, j: int|
                        0 <= i < out@.len() && 0 <= j < out@.len() && (#[trigger] out@[i]).0
                            == (#[trigger] out@[j]).0 implies i == j by {
                        assert(out@[i].0 == slots(index)[i].0);
                        assert(out@[j].0 == slots(index)[j].0);
                    }
                }
                out
            },
        }
    }

    /// The value under this key.
    pub fn get(&self, key: &str) -> (value: Option<&T>)
        ensures
            value is Some <==> holds(self@, key@),
            value matches Some(v) ==> self@.contains((key@, *v)),
            distinct_keys(self@),
    {
        proof {
            use_type_invariant(self);
            self.lemma_distinct();
            let was = slots(self.index);
            if holds(was, key@) {
                let i = choose|i: int| 0 <= i < was.len() && (#[trigger] was[i]).0 == key@;
                assert(self@[i].0 == key@);
            }
            if holds(self@, key@) {
                let i = choose|i: int| 0 <= i < self@.len() && (#[trigger] self@[i]).0 == key@;
                assert(was[i].0 == key@);
            }
        }
        match index_get(&self.index, key) {
            Some(at) => {
                proof {
                    let was = slots(self.index);
                    let i = choose|i: int| 0 <= i < was.len() && was[i] == (key@, at);
                    assert(was[i].1 == i);
                    assert(self@[i] == (key@, self.values@[i]));
                }
                Some(&self.values[at])
            },
            None => None,
        }
    }

    /// The key of the entry at this place.
    pub fn key_at(&self, place: usize) -> (key: &str)
        requires
            place < self@.len(),
        ensures
            key@ == self@[place as int].0,
    {
        proof {
            use_type_invariant(self);
        }
        match index_key(&self.index, place) {
            Some(key) => key,
            None => "",
        }
    }

    /// The value of the entry at this place.
    pub fn value_at(&self, place: usize) -> (value: &T)
        requires
            place < self@.len(),
        ensures
            *value == self@[place as int].1,
    {
        &self.values[place]
    }

    /// The keys, in order.
    pub fn keys(&self) -> (out: Vec<String>)
        ensures
            out@.len() == self@.len(),
            forall|i: int| 0 <= i < out@.len() ==> (#[trigger] out@[i])@ == self@[i].0,
    {
        let mut out: Vec<String> = Vec::new();
        let n: usize = self.len();
        for i in 0..n
            invariant
                n == self@.len(),
                out@.len() == i,
                forall|j: int| 0 <= j < i ==> (#[trigger] out@[j])@ == self@[j].0,
        {
            out.push(self.key_at(i).to_owned());
        }
        out
    }
}

/// A key that is put in is there, under the value it was put in with, and every
/// other key keeps its value.
pub proof fn law_what_is_put_in_is_there<T>(
    entries: Seq<(Seq<char>, T)>,
    key: Seq<char>,
    value: T,
    other: Seq<char>,
    held: T,
)
    ensures
        put(entries, key, value).contains((key, value)),
        other != key ==> (put(entries, key, value).contains((other, held)) <==> entries.contains(
            (other, held),
        )),
{
    let after = put(entries, key, value);
    if holds(entries, key) {
        let i = choose|i: int| 0 <= i < entries.len() && (#[trigger] entries[i]).0 == key;
        assert(after[i] == (key, value));
        if other != key && after.contains((other, held)) {
            let j = choose|j: int| 0 <= j < after.len() && after[j] == (other, held);
            assert(entries[j] == (other, held));
        }
        if other != key && entries.contains((other, held)) {
            let j = choose|j: int| 0 <= j < entries.len() && entries[j] == (other, held);
            assert(after[j] == (other, held));
        }
    } else {
        assert(after[entries.len() as int] == (key, value));
        if other != key && after.contains((other, held)) {
            let j = choose|j: int| 0 <= j < after.len() && after[j] == (other, held);
            assert(entries[j] == (other, held));
        }
        if other != key && entries.contains((other, held)) {
            let j = choose|j: int| 0 <= j < entries.len() && entries[j] == (other, held);
            assert(after[j] == (other, held));
        }
    }
}

/// Order is kept: the keys that were there keep their places, whatever is put in.
pub proof fn law_keys_keep_their_places<T>(
    entries: Seq<(Seq<char>, T)>,
    key: Seq<char>,
    value: T,
    i: int,
)
    requires
        0 <= i < entries.len(),
    ensures
        put(entries, key, value).len() >= entries.len(),
        put(entries, key, value)[i].0 == entries[i].0,
        distinct_keys(entries) ==> distinct_keys(put(entries, key, value)),
{
    let after = put(entries, key, value);
    if distinct_keys(entries) {
        assert forall|a: int, b: int|
            0 <= a < after.len() && 0 <= b < after.len() && (#[trigger] after[a]).0 == (
            #[trigger] after[b]).0 implies a == b by {
            if a < entries.len() && b < entries.len() {
                assert(entries[a].0 == after[a].0);
                assert(entries[b].0 == after[b].0);
            } else if a < entries.len() {
                assert(entries[a].0 == key);
            } else if b < entries.len() {
                assert(entries[b].0 == key);
            }
        }
    }
}

/// The value under a key.
pub open spec fn value_under<T>(entries: Seq<(Seq<char>, T)>, key: Seq<char>) -> T {
    choose|value: T| entries.contains((key, value))
}

/// Where no key occurs twice, there is one value under each.
pub proof fn lemma_value_under<T>(entries: Seq<(Seq<char>, T)>, key: Seq<char>, value: T)
    requires
        distinct_keys(entries),
        entries.contains((key, value)),
    ensures
        value_under(entries, key) == value,
{
    let other = value_under(entries, key);
    assert(entries.contains((key, other)));
    let i = choose|i: int| 0 <= i < entries.len() && entries[i] == (key, value);
    let j = choose|j: int| 0 <= j < entries.len() && entries[j] == (key, other);
    assert(entries[i].0 == entries[j].0);
}

/// Putting in a new key adds one entry, last, and changes no other; putting in one that is there
/// adds none and changes the value under it alone.
pub proof fn law_a_new_key_goes_last<T>(entries: Seq<(Seq<char>, T)>, key: Seq<char>, value: T)
    ensures
        (forall|i: int| 0 <= i < entries.len() ==> (#[trigger] entries[i]).0 != key) ==> put(
            entries,
            key,
            value,
        ) == entries.push((key, value)),
        (exists|i: int| 0 <= i < entries.len() && (#[trigger] entries[i]).0 == key) ==> put(
            entries,
            key,
            value,
        ).len() == entries.len(),
        forall|i: int|
            0 <= i < entries.len() && (#[trigger] entries[i]).0 != key ==> put(entries, key, value)[i]
                == entries[i],
        forall|i: int|
            0 <= i < entries.len() && (#[trigger] entries[i]).0 == key ==> put(entries, key, value)[i]
                == (key, value),
{
}

/// Mapping a table's values leaves its keys and their order alone.
pub proof fn law_mapping_keeps_the_keys<T, U>(entries: Seq<(Seq<char>, T)>, f: spec_fn(T) -> U)
    ensures
        mapped(entries, f).len() == entries.len(),
        forall|i: int|
            0 <= i < entries.len() ==> (#[trigger] mapped(entries, f)[i]).0 == entries[i].0
                && mapped(entries, f)[i].1 == f(entries[i].1),
{
}

/// The value under a key is that of the entry that has the key.
pub proof fn law_the_value_under_a_key_is_its_entrys<T>(entries: Seq<(Seq<char>, T)>, i: int)
    requires
        0 <= i < entries.len(),
        forall|j: int| 0 <= j < entries.len() && j != i ==> (#[trigger] entries[j]).0 != entries[i].0,
    ensures
        holds(entries, entries[i].0),
        value_under(entries, entries[i].0) == entries[i].1,
{
    let (key, value) = entries[i];
    assert(entries.contains((key, value)));
    let other = value_under(entries, key);
    assert(entries.contains((key, other)));
    let j = choose|j: int| 0 <= j < entries.len() && entries[j] == (key, other);
    assert(entries[j].0 == entries[i].0);
}

impl<T> Table<T> {
    /// A table is seen whole: every value it holds, under the key it was put in with.
    proof fn law_a_table_is_seen_whole(&self, i: int)
        requires
            0 <= i < self.values@.len(),
        ensures
            self@.len() == self.values@.len(),
            self@[i].0 == slots(self.index)[i].0,
            self@[i].1 == self.values@[i],
    {
    }
}

} // verus!
