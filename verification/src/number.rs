//! Floating-point numbers by their bits.
//!
//! The library passes numbers on and compares them; it never calculates with
//! them. So a number is held as the bit pattern that IEEE 754 gives it, and the
//! comparisons are those of the patterns.

use vstd::prelude::*;

verus! {

/// A double-precision number by its bit pattern.
#[derive(Debug, Clone, Copy)]
pub struct Real {
    pub bits: u64,
}

/// A single-precision number by its bit pattern.
#[derive(Debug, Clone, Copy)]
pub struct Single {
    pub bits: u32,
}

impl Real {
    /// The sign bit is set.
    pub open spec fn negative(self) -> bool {
        self.bits >= 0x8000_0000_0000_0000
    }

    /// The pattern without its sign. Patterns of one sign are ordered as the
    /// numbers' sizes are.
    pub open spec fn size(self) -> int {
        if self.negative() {
            self.bits - 0x8000_0000_0000_0000
        } else {
            self.bits as int
        }
    }

    /// The pattern stands for no number.
    pub open spec fn nan(self) -> bool {
        self.size() > 0x7ff0_0000_0000_0000
    }

    /// Where the number stands on the line. Both zeros stand in one place.
    pub open spec fn place(self) -> int {
        if self.negative() {
            -self.size()
        } else {
            self.size()
        }
    }

    /// Where the pattern stands in the total order, in which every pattern has a
    /// place of its own.
    pub open spec fn rank(self) -> int {
        if self.negative() {
            -self.size() - 1
        } else {
            self.size()
        }
    }

    /// `true` where the pattern stands for no number.
    pub fn is_nan(&self) -> (yes: bool)
        ensures
            yes == self.nan(),
    {
        let size: u64 = self.bits % 0x8000_0000_0000_0000;
        size > 0x7ff0_0000_0000_0000
    }

    /// The greater-than of numbers: false where either stands for none.
    pub fn exceeds(&self, other: &Real) -> (yes: bool)
        ensures
            yes == (!self.nan() && !other.nan() && self.place() > other.place()),
    {
        if self.is_nan() || other.is_nan() {
            return false;
        }
        let negative = self.bits >= 0x8000_0000_0000_0000;
        let other_negative = other.bits >= 0x8000_0000_0000_0000;
        let size: u64 = self.bits % 0x8000_0000_0000_0000;
        let other_size: u64 = other.bits % 0x8000_0000_0000_0000;
        if !negative && !other_negative {
            size > other_size
        } else if negative && other_negative {
            size < other_size
        } else if negative {
            false
        } else {
            size > 0 || other_size > 0
        }
    }

    /// Whether this pattern stands at or behind the other in the total order.
    pub fn ranks_from(&self, other: &Real) -> (yes: bool)
        ensures
            yes == (self.rank() >= other.rank()),
    {
        let negative = self.bits >= 0x8000_0000_0000_0000;
        let other_negative = other.bits >= 0x8000_0000_0000_0000;
        if negative != other_negative {
            other_negative
        } else if negative {
            self.bits <= other.bits
        } else {
            self.bits >= other.bits
        }
    }
}

impl Single {
    /// A number above zero, infinity included.
    pub open spec fn positive(self) -> bool {
        0 < self.bits <= 0x7f80_0000
    }

    /// `true` for a number above zero.
    pub fn is_positive(&self) -> (yes: bool)
        ensures
            yes == self.positive(),
    {
        0 < self.bits && self.bits <= 0x7f80_0000
    }
}

/// `best` is where the comparison of each number with the best so far ends: the
/// first of the greatest numbers, or the first place where nothing stands for a
/// number there to begin with.
pub open spec fn first_greatest(p: Seq<Real>, best: int) -> bool {
    &&& 0 <= best < p.len()
    &&& if p[0].nan() {
        best == 0
    } else {
        &&& !p[best].nan()
        &&& forall|i: int|
            0 <= i < p.len() && !(#[trigger] p[i]).nan() ==> p[i].place() <= p[best].place() && (i
                < best ==> p[i].place() < p[best].place())
    }
}

/// The first index holding the largest value.
pub fn argmax(p: &[Real]) -> (best: usize)
    requires
        p@.len() > 0,
    ensures
        first_greatest(p@, best as int),
{
    let mut best: usize = 0;
    assert(first_greatest(p@.take(1), 0));
    for i in 1..p.len()
        invariant
            p@.len() > 0,
            best < i,
            first_greatest(p@.take(i as int), best as int),
    {
        let ghost before = p@.take(i as int);
        let ghost after = p@.take(i + 1);
        let ghost was = best;
        assert(forall|j: int| 0 <= j < i ==> before[j] == after[j]);
        if p[i].exceeds(&p[best]) {
            best = i;
        }
        proof {
            assert(after[0] == p@[0]);
            assert(before[0] == p@[0]);
            assert(before[was as int] == p@[was as int]);
            assert(after[best as int] == p@[best as int]);
            assert(after[i as int] == p@[i as int]);
            if !p@[0].nan() {
                assert forall|j: int| 0 <= j < after.len() && !(#[trigger] after[j]).nan() implies after[j].place()
                    <= after[best as int].place() && (j < best ==> after[j].place()
                    < after[best as int].place()) by {
                    if j < i {
                        assert(before[j] == after[j]);
                    }
                }
            }
        }
    }
    assert(p@.take(p@.len() as int) == p@);
    best
}

/// `best` is the first of the smallest numbers, or the first place where nothing
/// stands for a number there to begin with.
pub open spec fn first_least(p: Seq<Real>, best: int) -> bool {
    &&& 0 <= best < p.len()
    &&& if p[0].nan() {
        best == 0
    } else {
        &&& !p[best].nan()
        &&& forall|i: int|
            0 <= i < p.len() && !(#[trigger] p[i]).nan() ==> p[best].place() <= p[i].place() && (i
                < best ==> p[best].place() < p[i].place())
    }
}

/// The first index holding the smallest value.
pub fn argmin(p: &[Real]) -> (best: usize)
    requires
        p@.len() > 0,
    ensures
        first_least(p@, best as int),
{
    let mut best: usize = 0;
    assert(first_least(p@.take(1), 0));
    for i in 1..p.len()
        invariant
            p@.len() > 0,
            best < i,
            first_least(p@.take(i as int), best as int),
    {
        let ghost before = p@.take(i as int);
        let ghost after = p@.take(i + 1);
        let ghost was = best;
        if p[best].exceeds(&p[i]) {
            best = i;
        }
        proof {
            assert(after[0] == p@[0]);
            assert(before[0] == p@[0]);
            assert(before[was as int] == p@[was as int]);
            assert(after[best as int] == p@[best as int]);
            assert(after[i as int] == p@[i as int]);
            if !p@[0].nan() {
                assert forall|j: int| 0 <= j < after.len() && !(#[trigger] after[j]).nan() implies after[best as int].place()
                    <= after[j].place() && (j < best ==> after[best as int].place()
                    < after[j].place()) by {
                    if j < i {
                        assert(before[j] == after[j]);
                    }
                }
            }
        }
    }
    assert(p@.take(p@.len() as int) == p@);
    best
}

/// A pattern stands for no number where its exponent is full and its fraction is not zero: above
/// infinity among the patterns without the sign, and above minus infinity among those with it.
pub proof fn law_a_full_exponent_with_a_fraction_is_no_number(r: Real)
    ensures
        r.nan() <==> 0x7ff0_0000_0000_0000 < r.bits < 0x8000_0000_0000_0000 || 0xfff0_0000_0000_0000
            < r.bits,
{
}

/// Numbers are ordered as IEEE 754 orders them: those without the sign as their patterns are,
/// those with it the other way round, all of these below those without it, but for the two zeros,
/// which are equal.
pub proof fn law_numbers_are_ordered_by_sign_and_size(a: Real, b: Real)
    ensures
        a.bits < 0x8000_0000_0000_0000 && b.bits < 0x8000_0000_0000_0000 ==> (a.place() < b.place()
            <==> a.bits < b.bits),
        a.bits >= 0x8000_0000_0000_0000 && b.bits >= 0x8000_0000_0000_0000 ==> (a.place()
            < b.place() <==> a.bits > b.bits),
        a.bits >= 0x8000_0000_0000_0000 && b.bits < 0x8000_0000_0000_0000 ==> a.place() <= b.place()
            && (a.place() == b.place() <==> a.bits == 0x8000_0000_0000_0000 && b.bits == 0),
{
}

/// The total order agrees with the order of numbers wherever two numbers differ, puts minus zero
/// below zero, and gives no two patterns one place.
pub proof fn law_the_total_order_refines_the_order_of_numbers(a: Real, b: Real)
    ensures
        a.place() < b.place() ==> a.rank() < b.rank(),
        a.rank() == b.rank() <==> a.bits == b.bits,
        a.bits == 0x8000_0000_0000_0000 && b.bits == 0 ==> a.rank() < b.rank(),
{
}

/// A single-precision number is above zero where it has neither the sign nor a pattern above
/// infinity, and is not zero.
pub proof fn law_a_positive_number_has_no_sign(x: Single)
    ensures
        x.positive() <==> x.bits != 0 && x.bits < 0x8000_0000 && !(x.bits > 0x7f80_0000),
{
}

/// The first of the greatest, where everything stands for a number: nothing is greater, and
/// whatever comes before is smaller. There is no other such place.
pub proof fn law_the_first_greatest_is_the_maximum(p: Seq<Real>, best: int)
    requires
        forall|i: int| 0 <= i < p.len() ==> !(#[trigger] p[i]).nan(),
    ensures
        first_greatest(p, best) <==> {
            &&& 0 <= best < p.len()
            &&& forall|i: int| 0 <= i < p.len() ==> (#[trigger] p[i]).place() <= p[best].place()
            &&& forall|i: int| 0 <= i < best ==> (#[trigger] p[i]).place() < p[best].place()
        },
{
}

/// The first of the smallest, where everything stands for a number: nothing is smaller, and
/// whatever comes before is greater. There is no other such place.
pub proof fn law_the_first_least_is_the_minimum(p: Seq<Real>, best: int)
    requires
        forall|i: int| 0 <= i < p.len() ==> !(#[trigger] p[i]).nan(),
    ensures
        first_least(p, best) <==> {
            &&& 0 <= best < p.len()
            &&& forall|i: int| 0 <= i < p.len() ==> p[best].place() <= (#[trigger] p[i]).place()
            &&& forall|i: int| 0 <= i < best ==> p[best].place() < (#[trigger] p[i]).place()
        },
{
}

/// Where the first pattern stands for no number, nothing is greater or smaller: the first place
/// stays. Patterns further on that stand for none are passed over.
pub proof fn law_no_number_is_passed_over(p: Seq<Real>, best: int)
    requires
        p.len() > 0,
    ensures
        p[0].nan() ==> (first_greatest(p, best) <==> best == 0) && (first_least(p, best) <==> best
            == 0),
        !p[0].nan() && (first_greatest(p, best) || first_least(p, best)) ==> 0 <= best < p.len()
            && !p[best].nan(),
{
}

} // verus!
