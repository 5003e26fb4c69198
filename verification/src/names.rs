//! Sets of names, kept in order.

use vstd::prelude::*;

use crate::text;

verus! {

/// `a` comes before `b` in the order of their characters.
pub open spec fn precedes(a: Seq<char>, b: Seq<char>) -> bool
    decreases a.len(),
{
    if b.len() == 0 {
        false
    } else if a.len() == 0 {
        true
    } else {
        a[0] < b[0] || (a[0] == b[0] && precedes(a.skip(1), b.skip(1)))
    }
}

/// No name comes before itself, of two different names one comes first, and what
/// comes before an earlier name comes before a later one.
pub proof fn law_names_have_an_order(a: Seq<char>, b: Seq<char>, c: Seq<char>)
    ensures
        !precedes(a, a),
        a != b ==> precedes(a, b) || precedes(b, a),
        !(precedes(a, b) && precedes(b, a)),
        precedes(a, b) && precedes(b, c) ==> precedes(a, c),
    decreases a.len(),
{
    if a.len() > 0 {
        let b1 = if b.len() > 0 {
            b.skip(1)
        } else {
            b
        };
        let c1 = if c.len() > 0 {
            c.skip(1)
        } else {
            c
        };
        law_names_have_an_order(a.skip(1), b1, c1);
        if a != b && b.len() > 0 && a[0] == b[0] {
            assert(a.skip(1) != b.skip(1)) by {
                if a.skip(1) == b.skip(1) {
                    assert(a =~= b) by {
                        assert(a.len() == a.skip(1).len() + 1);
                        assert(b.len() == b.skip(1).len() + 1);
                        assert forall|i: int| 0 <= i < a.len() implies a[i] == b[i] by {
                            if i > 0 {
                                assert(a[i] == a.skip(1)[i - 1]);
                                assert(b[i] == b.skip(1)[i - 1]);
                            }
                        }
                    }
                }
            }
        }
    } else {
        assert(a != b ==> b.len() > 0) by {
            if b.len() == 0 {
                assert(a =~= b);
            }
        }
    }
}

/// Whether `a` comes before `b`.
pub fn comes_before(a: &str, b: &str) -> (yes: bool)
    ensures
        yes == precedes(a@, b@),
{
    let left = text::chars_of(a);
    let right = text::chars_of(b);
    let mut i: usize = 0;
    assert(left@.skip(0) == left@);
    assert(right@.skip(0) == right@);
    while i < left.len() && i < right.len()
        invariant
            i <= left@.len(),
            i <= right@.len(),
            left@ == a@,
            right@ == b@,
            precedes(a@, b@) == precedes(left@.skip(i as int), right@.skip(i as int)),
        decreases left@.len() - i,
    {
        if left[i] < right[i] {
            return true;
        }
        if left[i] > right[i] {
            return false;
        }
        proof {
            assert(left@.skip(i as int).skip(1) == left@.skip(i + 1));
            assert(right@.skip(i as int).skip(1) == right@.skip(i + 1));
        }
        i = i + 1;
    }
    i < right.len()
}

/// Every name comes before the next.
pub open spec fn ascending(list: Seq<Seq<char>>) -> bool {
    forall|i: int, j: int|
        0 <= i < j < list.len() ==> precedes(#[trigger] list[i], #[trigger] list[j])
}

/// A set of names, in order.
#[derive(Debug)]
pub struct Names {
    list: Vec<String>,
}

impl View for Names {
    type V = Seq<Seq<char>>;

    closed spec fn view(&self) -> Seq<Seq<char>> {
        text::views(self.list@)
    }
}

impl Names {
    #[verifier::type_invariant]
    spec fn ordered(self) -> bool {
        ascending(self@)
    }

    /// No names.
    pub fn new() -> (out: Self)
        ensures
            out@ == Seq::<Seq<char>>::empty(),
    {
        let list: Vec<String> = Vec::new();
        assert(text::views(list@) == Seq::<Seq<char>>::empty());
        Names { list }
    }

    /// How many names there are, in order.
    pub fn len(&self) -> (n: usize)
        ensures
            n == self@.len(),
            ascending(self@),
    {
        proof {
            use_type_invariant(self);
        }
        self.list.len()
    }

    /// The names as a list, in order.
    pub fn list(&self) -> (out: &Vec<String>)
        ensures
            text::views(out@) == self@,
            ascending(self@),
    {
        proof {
            use_type_invariant(self);
        }
        &self.list
    }

    /// Whether this name is there.
    pub fn contains(&self, name: &str) -> (yes: bool)
        ensures
            yes == self@.contains(name@),
    {
        for i in 0..self.list.len()
            invariant
                forall|j: int| 0 <= j < i ==> #[trigger] self@[j] != name@,
        {
            if text::same_text(self.list[i].as_str(), name) {
                assert(self@[i as int] == name@);
                return true;
            }
            assert(self@[i as int] != name@);
        }
        false
    }

    /// The set with this name in it.
    pub fn insert(self, name: &str) -> (out: Self)
        ensures
            forall|n: Seq<char>| #[trigger] out@.contains(n) <==> self@.contains(n) || n == name@,
            ascending(out@),
    {
        proof {
            use_type_invariant(&self);
        }
        let ghost before = self@;
        if self.contains(name) {
            return self;
        }
        let Names { list } = self;
        let mut list = list;
        let mut at: usize = 0;
        while at < list.len() && comes_before(list[at].as_str(), name)
            invariant
                at <= list@.len(),
                before == text::views(list@),
                forall|j: int| 0 <= j < at ==> precedes(#[trigger] before[j], name@),
            decreases list@.len() - at,
        {
            assert(before[at as int] == list@[at as int]@);
            at = at + 1;
        }
        let ghost was = list@;
        list.insert(at, name.to_owned());
        let ghost after = text::views(list@);
        proof {
            assert(after =~= before.insert(at as int, name@));
            if at < before.len() {
                assert(before[at as int] == was[at as int]@);
                assert(before[at as int] != name@) by {
                    if before[at as int] == name@ {
                        assert(before.contains(name@));
                    }
                }
                law_names_have_an_order(name@, before[at as int], name@);
            }
            assert forall|i: int, j: int| 0 <= i < j < after.len() implies precedes(
                #[trigger] after[i],
                #[trigger] after[j],
            ) by {
                let left = if i < at {
                    before[i]
                } else if i == at {
                    name@
                } else {
                    before[i - 1]
                };
                let right = if j < at {
                    before[j]
                } else if j == at {
                    name@
                } else {
                    before[j - 1]
                };
                assert(after[i] == left && after[j] == right);
                if i == at && j - 1 > at {
                    assert(precedes(before[at as int], before[j - 1]));
                    law_names_have_an_order(name@, before[at as int], before[j - 1]);
                }
                if i < at && j > at {
                    assert(precedes(before[i], before[j - 1]));
                }
            }
            assert forall|n: Seq<char>| #[trigger] after.contains(n) <==> before.contains(n) || n
                == name@ by {
                if after.contains(n) {
                    let i = choose|i: int| 0 <= i < after.len() && after[i] == n;
                    if i < at {
                        assert(before[i] == n);
                    } else if i > at {
                        assert(before[i - 1] == n);
                    }
                }
                if before.contains(n) {
                    let i = choose|i: int| 0 <= i < before.len() && before[i] == n;
                    if i < at {
                        assert(after[i] == n);
                    } else {
                        assert(after[i + 1] == n);
                    }
                }
                assert(after[at as int] == name@);
            }
        }
        Names { list }
    }
}

/// Two sets with the same names are the same list.
pub proof fn law_a_set_of_names_has_one_order(a: Seq<Seq<char>>, b: Seq<Seq<char>>)
    requires
        ascending(a),
        ascending(b),
        forall|n: Seq<char>| a.contains(n) <==> b.contains(n),
    ensures
        a == b,
    decreases a.len(),
{
    if a.len() == 0 {
        if b.len() > 0 {
            assert(b.contains(b[0]));
        }
        assert(a =~= b);
    } else {
        assert(a.contains(a[0]));
        let i = choose|i: int| 0 <= i < b.len() && b[i] == a[0];
        assert(b.contains(b[0]));
        let j = choose|j: int| 0 <= j < a.len() && a[j] == b[0];
        // Each list's first is in the other, so neither can come before the other.
        if i > 0 {
            assert(precedes(b[0], b[i]));
            if j > 0 {
                assert(precedes(a[0], a[j]));
                law_names_have_an_order(a[0], b[0], a[0]);
            } else {
                law_names_have_an_order(a[0], b[0], a[0]);
            }
        }
        assert(a[0] == b[0]);
        let a1 = a.skip(1);
        let b1 = b.skip(1);
        assert forall|n: Seq<char>| a1.contains(n) <==> b1.contains(n) by {
            if a1.contains(n) {
                let k = choose|k: int| 0 <= k < a1.len() && a1[k] == n;
                assert(a[k + 1] == n);
                assert(a.contains(n));
                assert(precedes(a[0], a[k + 1]));
                law_names_have_an_order(a[0], n, n);
                let m = choose|m: int| 0 <= m < b.len() && b[m] == n;
                assert(m > 0);
                assert(b1[m - 1] == n);
            }
            if b1.contains(n) {
                let k = choose|k: int| 0 <= k < b1.len() && b1[k] == n;
                assert(b[k + 1] == n);
                assert(b.contains(n));
                assert(precedes(b[0], b[k + 1]));
                law_names_have_an_order(b[0], n, n);
                let m = choose|m: int| 0 <= m < a.len() && a[m] == n;
                assert(m > 0);
                assert(a1[m - 1] == n);
            }
        }
        assert(ascending(a1)) by {
            assert forall|x: int, y: int| 0 <= x < y < a1.len() implies precedes(
                #[trigger] a1[x],
                #[trigger] a1[y],
            ) by {
                assert(precedes(a[x + 1], a[y + 1]));
            }
        }
        assert(ascending(b1)) by {
            assert forall|x: int, y: int| 0 <= x < y < b1.len() implies precedes(
                #[trigger] b1[x],
                #[trigger] b1[y],
            ) by {
                assert(precedes(b[x + 1], b[y + 1]));
            }
        }
        law_a_set_of_names_has_one_order(a1, b1);
        assert(a.len() == a1.len() + 1 && b.len() == b1.len() + 1);
        assert forall|x: int| 0 <= x < a.len() implies a[x] == b[x] by {
            if x > 0 {
                assert(a[x] == a1[x - 1]);
                assert(b[x] == b1[x - 1]);
            }
        }
        assert(a =~= b);
    }
}

/// Names are compared at the first character in which they differ, and a name comes before every
/// longer one that begins with it.
pub proof fn law_the_first_difference_decides(
    start: Seq<char>,
    a: char,
    b: char,
    x: Seq<char>,
    y: Seq<char>,
)
    ensures
        a != b ==> (precedes(start + seq![a] + x, start + seq![b] + y) <==> a < b),
        precedes(start, start + seq![a] + x),
    decreases start.len(),
{
    let left = start + seq![a] + x;
    let right = start + seq![b] + y;
    if start.len() > 0 {
        let rest = start.skip(1);
        law_the_first_difference_decides(rest, a, b, x, y);
        assert(left.skip(1) =~= rest + seq![a] + x);
        assert(right.skip(1) =~= rest + seq![b] + y);
        assert(left[0] == start[0] && right[0] == start[0]);
    } else {
        assert(left[0] == a);
        assert(right[0] == b);
    }
}

impl Names {
    /// Names are seen one by one, as they are.
    proof fn law_names_are_seen_as_they_are(&self, i: int)
        requires
            0 <= i < self.list@.len(),
        ensures
            self@.len() == self.list@.len(),
            self@[i] == self.list@[i]@,
    {
    }
}

} // verus!
