//! Whether a pickle may be handed to the reader.
//!
//! The reader builds every value of a pickle in full. It has no room for an integer of
//! more than eight bytes, it takes values apart by recursion, and it copies whatever
//! the pickle remembers. So a pickle is walked first: its opcodes one after the other,
//! and for every value only how deep it nests and how many parts it has.

use std::collections::HashMap;

use vstd::prelude::*;

verus! {

/// How many levels a value may nest.
pub const DEEPEST: u32 = 128;

/// How many parts may be copied in all, by remembering values and recalling them.
pub const MOST: u32 = 0x40_0000;

/// How deep a value nests, and of how many parts it is made. A mark has no level.
#[derive(Debug, Clone, Copy, PartialEq, Eq, Structural)]
pub struct Shape {
    pub levels: u32,
    pub parts: u32,
}

/// What an opcode does to the values on the stack.
#[derive(Debug, Clone, Copy, PartialEq, Eq, Structural)]
pub enum Op {
    /// A value that holds no other.
    Leaf,
    Mark,
    /// A value that holds the last so many.
    Fold(u8),
    /// A value that holds all behind the last mark.
    FoldMarked,
    /// The last so many go into the value before them.
    Into(u8),
    /// All behind the last mark go into the value before it.
    IntoMarked,
    /// The value that is remembered under this number.
    Recall(u32),
    /// The last value is remembered under this number.
    Remember(u32),
    /// Nothing.
    Skip,
    Stop,
    /// What the reader has no room for.
    Unreadable,
}

/// Four bytes as a number, the lowest first.
pub open spec fn number_at(bytes: Seq<u8>, at: int) -> u32 {
    (bytes[at] + 0x100 * bytes[at + 1] + 0x1_0000 * bytes[at + 2] + 0x100_0000 * bytes[at
        + 3]) as u32
}

/// Where the line ends that goes on here.
pub open spec fn line_end(bytes: Seq<u8>, at: int) -> int
    decreases bytes.len() - at,
{
    if at >= bytes.len() {
        at
    } else if bytes[at] == 0x0a {
        at + 1
    } else {
        line_end(bytes, at + 1)
    }
}

/// An opcode with so many bytes behind it, if they are there.
pub open spec fn sized(bytes: Seq<u8>, at: int, size: int, op: Op) -> Option<(Op, int)> {
    if at + 1 + size <= bytes.len() {
        Some((op, at + 1 + size))
    } else {
        None
    }
}

/// The opcode that stands here, and where the next one does. Nothing where the reader
/// gives up: it knows no such opcode, or the bytes run out.
pub open spec fn op_at(bytes: Seq<u8>, at: int) -> Option<(Op, int)> {
    let left = bytes.len() - at;
    if left <= 0 {
        None
    } else {
        let code = bytes[at];
        if code == 0x80 {
            sized(bytes, at, 1, Op::Skip)
        } else if code == 0x63 {
            Some((Op::Leaf, line_end(bytes, line_end(bytes, at + 1))))
        } else if code == 0x4b {
            sized(bytes, at, 1, Op::Leaf)
        } else if code == 0x4d {
            sized(bytes, at, 2, Op::Leaf)
        } else if code == 0x4a {
            sized(bytes, at, 4, Op::Leaf)
        } else if code == 0x47 {
            sized(bytes, at, 8, Op::Leaf)
        } else if code == 0x58 {
            if left < 5 {
                None
            } else if number_at(bytes, at + 1) <= left - 5 {
                Some((Op::Leaf, at + 5 + number_at(bytes, at + 1)))
            } else {
                Some((Op::Unreadable, at + 5))
            }
        } else if code == 0x8a {
            if left < 2 {
                None
            } else if bytes[at + 1] > 8 {
                Some((Op::Unreadable, at + 2))
            } else {
                sized(bytes, at, 1 + bytes[at + 1], Op::Leaf)
            }
        } else if code == 0x68 {
            sized(bytes, at, 1, Op::Recall(bytes[at + 1] as u32))
        } else if code == 0x6a {
            sized(bytes, at, 4, Op::Recall(number_at(bytes, at + 1)))
        } else if code == 0x71 {
            sized(bytes, at, 1, Op::Remember(bytes[at + 1] as u32))
        } else if code == 0x72 {
            sized(bytes, at, 4, Op::Remember(number_at(bytes, at + 1)))
        } else if code == 0x29 || code == 0x7d || code == 0x64 || code == 0x5d || code == 0x4e
            || code == 0x88 || code == 0x89 {
            Some((Op::Leaf, at + 1))
        } else if code == 0x28 {
            Some((Op::Mark, at + 1))
        } else if code == 0x85 || code == 0x51 {
            Some((Op::Fold(1), at + 1))
        } else if code == 0x86 || code == 0x52 || code == 0x62 || code == 0x81 {
            Some((Op::Fold(2), at + 1))
        } else if code == 0x87 {
            Some((Op::Fold(3), at + 1))
        } else if code == 0x74 {
            Some((Op::FoldMarked, at + 1))
        } else if code == 0x61 {
            Some((Op::Into(1), at + 1))
        } else if code == 0x73 {
            Some((Op::Into(2), at + 1))
        } else if code == 0x65 || code == 0x75 {
            Some((Op::IntoMarked, at + 1))
        } else if code == 0x2e {
            Some((Op::Stop, at + 1))
        } else {
            None
        }
    }
}

/// The values on the stack and those that are remembered, by their shapes, and how many
/// parts were copied.
#[verifier::ext_equal]
pub struct Sketch {
    pub stack: Seq<Shape>,
    pub memo: Map<u32, Shape>,
    pub copied: int,
}

/// What comes of an opcode.
pub enum Next {
    On(Sketch),
    /// The reader stops here, with a value or with an error.
    Over,
    /// The reader must not be handed this.
    Refused,
}

/// A number of parts, as far as they are counted.
pub open spec fn counted(parts: int) -> u32 {
    if parts > MOST {
        (MOST + 1) as u32
    } else {
        parts as u32
    }
}

/// The deepest of these, and how many parts they have together.
pub open spec fn gathered(shapes: Seq<Shape>) -> Shape
    decreases shapes.len(),
{
    if shapes.len() == 0 {
        Shape { levels: 0, parts: 0 }
    } else {
        joined(gathered(shapes.drop_last()), shapes.last())
    }
}

/// The deeper of two, and how many parts they have together.
pub open spec fn joined(a: Shape, b: Shape) -> Shape {
    Shape {
        levels: if a.levels < b.levels {
            b.levels
        } else {
            a.levels
        },
        parts: counted(a.parts + b.parts),
    }
}

/// A value that holds these.
pub open spec fn holding(held: Shape) -> Shape {
    Shape { levels: (held.levels + 1) as u32, parts: counted(held.parts + 1) }
}

/// Where the last mark lies.
pub open spec fn mark_in(stack: Seq<Shape>) -> int
    decreases stack.len(),
{
    if stack.len() == 0 {
        -1
    } else if stack.last().levels == 0 {
        stack.len() - 1
    } else {
        mark_in(stack.drop_last())
    }
}

/// The last values become one that holds them, on top of the first `n`.
pub open spec fn folded(k: Sketch, n: int, held: Seq<Shape>) -> Next {
    let shape = holding(gathered(held));
    if shape.levels > DEEPEST {
        Next::Refused
    } else {
        Next::On(Sketch { stack: k.stack.take(n).push(shape), ..k })
    }
}

/// The last values go into the one at `n`.
pub open spec fn absorbed(k: Sketch, n: int, held: Seq<Shape>) -> Next {
    let inner = holding(gathered(held));
    let shape = joined(k.stack[n], inner);
    if shape.levels > DEEPEST {
        Next::Refused
    } else {
        Next::On(Sketch { stack: k.stack.take(n).push(shape), ..k })
    }
}

/// What an opcode makes of the values there are.
pub open spec fn applied(k: Sketch, op: Op) -> Next {
    let len = k.stack.len() as int;
    match op {
        Op::Leaf => Next::On(
            Sketch { stack: k.stack.push(Shape { levels: 1, parts: 1 }), ..k },
        ),
        Op::Mark => Next::On(
            Sketch { stack: k.stack.push(Shape { levels: 0, parts: 1 }), ..k },
        ),
        Op::Fold(n) => if len < n {
            Next::Over
        } else {
            folded(k, len - n, k.stack.skip(len - n))
        },
        Op::FoldMarked => {
            let mark = mark_in(k.stack);
            if mark < 0 {
                Next::Over
            } else {
                folded(k, mark, k.stack.skip(mark + 1))
            }
        },
        Op::Into(n) => if len <= n {
            Next::Over
        } else {
            absorbed(k, len - n - 1, k.stack.skip(len - n))
        },
        Op::IntoMarked => {
            let mark = mark_in(k.stack);
            if mark <= 0 {
                Next::Over
            } else {
                absorbed(k, mark - 1, k.stack.skip(mark + 1))
            }
        },
        Op::Recall(id) => if !k.memo.dom().contains(id) {
            Next::Over
        } else {
            let shape = k.memo[id];
            let copied = k.copied + shape.parts;
            if copied > MOST {
                Next::Refused
            } else {
                Next::On(Sketch { stack: k.stack.push(shape), copied, ..k })
            }
        },
        Op::Remember(id) => if len == 0 {
            Next::Over
        } else {
            let copied = k.copied + k.stack.last().parts;
            if copied > MOST {
                Next::Refused
            } else {
                Next::On(Sketch { memo: k.memo.insert(id, k.stack.last()), copied, ..k })
            }
        },
        Op::Skip => Next::On(k),
        Op::Stop => Next::Over,
        Op::Unreadable => Next::Refused,
    }
}

/// The reader may be handed what stands from here on.
pub open spec fn tame_from(bytes: Seq<u8>, at: int, k: Sketch) -> bool
    decreases bytes.len() - at,
{
    match op_at(bytes, at) {
        None => true,
        Some((op, next)) => match applied(k, op) {
            Next::On(then) => if at < next <= bytes.len() {
                tame_from(bytes, next, then)
            } else {
                false
            },
            Next::Over => true,
            Next::Refused => false,
        },
    }
}

/// The reader may be handed this pickle: it holds no integer of more than eight bytes,
/// no text that is longer than the pickle, nothing that nests too deep, and not too
/// much is copied, up to where the reader stops.
pub open spec fn tame(bytes: Seq<u8>) -> bool {
    tame_from(bytes, 0, Sketch { stack: Seq::empty(), memo: Map::empty(), copied: 0 })
}

fn number(bytes: &[u8], at: usize) -> (n: u32)
    requires
        at + 4 <= bytes@.len(),
    ensures
        n == number_at(bytes@, at as int),
{
    bytes[at] as u32 + 0x100 * bytes[at + 1] as u32 + 0x1_0000 * bytes[at + 2] as u32
        + 0x100_0000 * bytes[at + 3] as u32
}

fn end_of_line(bytes: &[u8], at: usize) -> (end: usize)
    requires
        at <= bytes@.len(),
    ensures
        end == line_end(bytes@, at as int),
        at <= end <= bytes@.len(),
{
    let mut end: usize = at;
    while end < bytes.len()
        invariant
            at <= end <= bytes@.len(),
            line_end(bytes@, at as int) == line_end(bytes@, end as int),
        decreases bytes@.len() - end,
    {
        if bytes[end] == 0x0a {
            return end + 1;
        }
        end = end + 1;
    }
    end
}

/// An opcode that was read.
pub open spec fn read_op(out: Option<(Op, usize)>) -> Option<(Op, int)> {
    match out {
        Some((op, next)) => Some((op, next as int)),
        None => None,
    }
}

fn with_size(bytes: &[u8], at: usize, size: usize, op: Op) -> (out: Option<(Op, usize)>)
    requires
        at < bytes@.len(),
    ensures
        read_op(out) == sized(bytes@, at as int, size as int, op),
{
    if size <= bytes.len() - at - 1 {
        Some((op, at + 1 + size))
    } else {
        None
    }
}

fn next_op(bytes: &[u8], at: usize) -> (out: Option<(Op, usize)>)
    requires
        at <= bytes@.len(),
    ensures
        read_op(out) == op_at(bytes@, at as int),
        out matches Some((_, next)) ==> at < next <= bytes@.len(),
{
    if at >= bytes.len() {
        return None;
    }
    let left: usize = bytes.len() - at;
    let code: u8 = bytes[at];
    if code == 0x80 {
        with_size(bytes, at, 1, Op::Skip)
    } else if code == 0x63 {
        let module: usize = end_of_line(bytes, at + 1);
        Some((Op::Leaf, end_of_line(bytes, module)))
    } else if code == 0x4b {
        with_size(bytes, at, 1, Op::Leaf)
    } else if code == 0x4d {
        with_size(bytes, at, 2, Op::Leaf)
    } else if code == 0x4a {
        with_size(bytes, at, 4, Op::Leaf)
    } else if code == 0x47 {
        with_size(bytes, at, 8, Op::Leaf)
    } else if code == 0x58 {
        if left < 5 {
            return None;
        }
        let n: u32 = number(bytes, at + 1);
        if n as u64 <= (left - 5) as u64 {
            Some((Op::Leaf, at + 5 + n as usize))
        } else {
            Some((Op::Unreadable, at + 5))
        }
    } else if code == 0x8a {
        if left < 2 {
            None
        } else if bytes[at + 1] > 8 {
            Some((Op::Unreadable, at + 2))
        } else {
            with_size(bytes, at, 1 + bytes[at + 1] as usize, Op::Leaf)
        }
    } else if code == 0x68 {
        if left < 2 {
            return None;
        }
        with_size(bytes, at, 1, Op::Recall(bytes[at + 1] as u32))
    } else if code == 0x6a {
        if left < 5 {
            return None;
        }
        with_size(bytes, at, 4, Op::Recall(number(bytes, at + 1)))
    } else if code == 0x71 {
        if left < 2 {
            return None;
        }
        with_size(bytes, at, 1, Op::Remember(bytes[at + 1] as u32))
    } else if code == 0x72 {
        if left < 5 {
            return None;
        }
        with_size(bytes, at, 4, Op::Remember(number(bytes, at + 1)))
    } else if code == 0x29 || code == 0x7d || code == 0x64 || code == 0x5d || code == 0x4e || code
        == 0x88 || code == 0x89 {
        Some((Op::Leaf, at + 1))
    } else if code == 0x28 {
        Some((Op::Mark, at + 1))
    } else if code == 0x85 || code == 0x51 {
        Some((Op::Fold(1), at + 1))
    } else if code == 0x86 || code == 0x52 || code == 0x62 || code == 0x81 {
        Some((Op::Fold(2), at + 1))
    } else if code == 0x87 {
        Some((Op::Fold(3), at + 1))
    } else if code == 0x74 {
        Some((Op::FoldMarked, at + 1))
    } else if code == 0x61 {
        Some((Op::Into(1), at + 1))
    } else if code == 0x73 {
        Some((Op::Into(2), at + 1))
    } else if code == 0x65 || code == 0x75 {
        Some((Op::IntoMarked, at + 1))
    } else if code == 0x2e {
        Some((Op::Stop, at + 1))
    } else {
        None
    }
}

/// The values on the stack and those that are remembered, by their shapes.
#[derive(Debug)]
struct Walk {
    stack: Vec<Shape>,
    memo: HashMap<u32, Shape>,
    copied: u32,
}

/// How a step of the walk ends.
#[derive(Debug, Clone, Copy, PartialEq, Eq, Structural)]
enum Step {
    On,
    Over,
    Refused,
}

/// Nothing nests deeper, or has more parts, than is counted.
spec fn within(shape: Shape) -> bool {
    shape.levels <= DEEPEST && shape.parts <= MOST + 1
}

proof fn lemma_gathered_within(shapes: Seq<Shape>)
    requires
        forall|i: int| 0 <= i < shapes.len() ==> within(#[trigger] shapes[i]),
    ensures
        within(gathered(shapes)),
    decreases shapes.len(),
{
    if shapes.len() > 0 {
        assert forall|i: int| 0 <= i < shapes.len() - 1 implies within(
            #[trigger] shapes.drop_last()[i],
        ) by {
            assert(shapes.drop_last()[i] == shapes[i]);
        }
        lemma_gathered_within(shapes.drop_last());
        assert(within(shapes[shapes.len() - 1]));
    }
}

fn join(a: Shape, b: Shape) -> (out: Shape)
    requires
        a.parts <= MOST + 1,
        b.parts <= MOST + 1,
    ensures
        out == joined(a, b),
{
    let levels: u32 = if a.levels < b.levels {
        b.levels
    } else {
        a.levels
    };
    Shape { levels, parts: count(a.parts + b.parts) }
}

fn count(parts: u32) -> (n: u32)
    ensures
        n == counted(parts as int),
{
    if parts > MOST {
        MOST + 1
    } else {
        parts
    }
}

/// A value that holds all from this place on.
fn hold(stack: &Vec<Shape>, from: usize) -> (out: Shape)
    requires
        from <= stack@.len(),
        forall|i: int| 0 <= i < stack@.len() ==> within(#[trigger] stack@[i]),
    ensures
        out == holding(gathered(stack@.skip(from as int))),
        out.levels <= DEEPEST + 1,
        out.parts <= MOST + 1,
{
    let ghost held = stack@.skip(from as int);
    let mut all = Shape { levels: 0, parts: 0 };
    assert(held.take(0) =~= Seq::<Shape>::empty());
    for i in from..stack.len()
        invariant
            from <= stack@.len(),
            held == stack@.skip(from as int),
            forall|j: int| 0 <= j < stack@.len() ==> within(#[trigger] stack@[j]),
            all == gathered(held.take(i - from)),
            within(all),
    {
        proof {
            assert(held.take(i + 1 - from).drop_last() =~= held.take(i - from));
            assert(held.take(i + 1 - from).last() == stack@[i as int]);
        }
        all = join(all, stack[i]);
    }
    assert(held.take(held.len() as int) =~= held);
    Shape { levels: all.levels + 1, parts: count(all.parts + 1) }
}

/// Where the last mark lies.
fn last_mark(stack: &Vec<Shape>) -> (out: Option<usize>)
    ensures
        match out {
            Some(at) => at == mark_in(stack@) && at < stack@.len(),
            None => mark_in(stack@) < 0,
        },
{
    let mut n: usize = stack.len();
    assert(stack@.take(n as int) =~= stack@);
    while n > 0
        invariant
            n <= stack@.len(),
            mark_in(stack@) == mark_in(stack@.take(n as int)),
        decreases n,
    {
        assert(stack@.take(n as int).drop_last() =~= stack@.take(n - 1));
        if stack[n - 1].levels == 0 {
            return Some(n - 1);
        }
        n = n - 1;
    }
    None
}

impl Walk {
    spec fn view(&self) -> Sketch {
        Sketch { stack: self.stack@, memo: self.memo@, copied: self.copied as int }
    }

    /// Every value that there is was counted.
    spec fn counts(self) -> bool {
        &&& forall|i: int| 0 <= i < self.stack@.len() ==> within(#[trigger] self.stack@[i])
        &&& forall|id: u32|
            self.memo@.dom().contains(id) ==> within(#[trigger] self.memo@[id])
        &&& self.copied <= MOST
    }

    fn fold(&mut self, n: usize, from: usize) -> (out: Step)
        requires
            old(self).counts(),
            n <= from <= old(self).stack@.len(),
        ensures
            final(self).counts(),
            taken(folded(old(self).view(), n as int, old(self).stack@.skip(from as int)), out, *final(self)),
    {
        let shape = hold(&self.stack, from);
        if shape.levels > DEEPEST {
            return Step::Refused;
        }
        self.stack.truncate(n);
        self.stack.push(shape);
        proof {
            assert(self.stack@ =~= old(self).stack@.take(n as int).push(shape));
        }
        Step::On
    }

    fn absorb(&mut self, n: usize, from: usize) -> (out: Step)
        requires
            old(self).counts(),
            n < from <= old(self).stack@.len(),
        ensures
            final(self).counts(),
            taken(absorbed(old(self).view(), n as int, old(self).stack@.skip(from as int)), out, *final(self)),
    {
        let inner = hold(&self.stack, from);
        assert(within(self.stack@[n as int]));
        let shape = join(self.stack[n], inner);
        if shape.levels > DEEPEST {
            return Step::Refused;
        }
        self.stack.truncate(n);
        self.stack.push(shape);
        proof {
            assert(self.stack@ =~= old(self).stack@.take(n as int).push(shape));
        }
        Step::On
    }

    fn apply(&mut self, op: Op) -> (out: Step)
        requires
            old(self).counts(),
        ensures
            final(self).counts(),
            taken(applied(old(self).view(), op), out, *final(self)),
    {
        broadcast use vstd::std_specs::hash::group_hash_axioms;

        let len: usize = self.stack.len();
        match op {
            Op::Leaf => {
                self.stack.push(Shape { levels: 1, parts: 1 });
                Step::On
            },
            Op::Mark => {
                self.stack.push(Shape { levels: 0, parts: 1 });
                Step::On
            },
            Op::Fold(n) => if len < n as usize {
                Step::Over
            } else {
                self.fold(len - n as usize, len - n as usize)
            },
            Op::FoldMarked => match last_mark(&self.stack) {
                Some(mark) => self.fold(mark, mark + 1),
                None => Step::Over,
            },
            Op::Into(n) => if len <= n as usize {
                Step::Over
            } else {
                self.absorb(len - n as usize - 1, len - n as usize)
            },
            Op::IntoMarked => match last_mark(&self.stack) {
                Some(mark) => if mark == 0 {
                    Step::Over
                } else {
                    self.absorb(mark - 1, mark + 1)
                },
                None => Step::Over,
            },
            Op::Recall(id) => match self.memo.get(&id) {
                Some(found) => {
                    let shape: Shape = *found;
                    assert(within(self.memo@[id]));
                    if shape.parts > MOST - self.copied {
                        return Step::Refused;
                    }
                    self.copied = self.copied + shape.parts;
                    self.stack.push(shape);
                    Step::On
                },
                None => Step::Over,
            },
            Op::Remember(id) => if len == 0 {
                Step::Over
            } else {
                let shape: Shape = self.stack[len - 1];
                if shape.parts > MOST - self.copied {
                    return Step::Refused;
                }
                self.copied = self.copied + shape.parts;
                self.memo.insert(id, shape);
                Step::On
            },
            Op::Skip => Step::On,
            Op::Stop => Step::Over,
            Op::Unreadable => Step::Refused,
        }
    }
}

/// A step ended so.
spec fn taken(next: Next, out: Step, walk: Walk) -> bool {
    match next {
        Next::On(k) => out == Step::On && walk.view() == k,
        Next::Over => out == Step::Over,
        Next::Refused => out == Step::Refused,
    }
}

/// Whether the reader may be handed this pickle.
pub fn is_tame(bytes: &[u8]) -> (yes: bool)
    ensures
        yes == tame(bytes@),
{
    broadcast use vstd::std_specs::hash::group_hash_axioms;

    let mut walk = Walk { stack: Vec::new(), memo: HashMap::new(), copied: 0 };
    let mut at: usize = 0;
    assert(walk.view() =~= Sketch { stack: Seq::empty(), memo: Map::empty(), copied: 0 });
    loop
        invariant
            walk.counts(),
            at <= bytes@.len(),
            tame(bytes@) == tame_from(bytes@, at as int, walk.view()),
        decreases bytes@.len() - at,
    {
        match next_op(bytes, at) {
            Some((op, next)) => {
                match walk.apply(op) {
                    Step::On => {},
                    Step::Over => {
                        return true;
                    },
                    Step::Refused => {
                        return false;
                    },
                }
                at = next;
            },
            None => {
                return true;
            },
        }
    }
}

/// A value that stands for itself is read on behind, and never refused; nor is what ends a pickle
/// or is no opcode, where the reader stops.
pub proof fn law_plain_values_are_not_refused(bytes: Seq<u8>, at: int, k: Sketch, next: int)
    requires
        0 <= at < next <= bytes.len(),
    ensures
        op_at(bytes, at) == Some((Op::Leaf, next)) ==> (tame_from(bytes, at, k) <==> tame_from(
            bytes,
            next,
            Sketch { stack: k.stack.push(Shape { levels: 1, parts: 1 }), ..k },
        )),
        op_at(bytes, at) == Some((Op::Skip, next)) ==> (tame_from(bytes, at, k) <==> tame_from(
            bytes,
            next,
            k,
        )),
        op_at(bytes, at) == Some((Op::Stop, next)) ==> tame_from(bytes, at, k),
        op_at(bytes, at) is None ==> tame_from(bytes, at, k),
        op_at(bytes, at) == Some((Op::Unreadable, next)) ==> !tame_from(bytes, at, k),
{
}

/// Numbers, texts, truth values, nothing and empty containers stand for themselves, each as long
/// as its kind is.
pub proof fn law_plain_values_are_read_by_their_length(bytes: Seq<u8>, at: int)
    requires
        0 <= at < bytes.len(),
    ensures
        bytes[at] == 0x4b && at + 2 <= bytes.len() ==> op_at(bytes, at) == Some((Op::Leaf, at + 2)),
        bytes[at] == 0x4d && at + 3 <= bytes.len() ==> op_at(bytes, at) == Some((Op::Leaf, at + 3)),
        bytes[at] == 0x4a && at + 5 <= bytes.len() ==> op_at(bytes, at) == Some((Op::Leaf, at + 5)),
        bytes[at] == 0x47 && at + 9 <= bytes.len() ==> op_at(bytes, at) == Some((Op::Leaf, at + 9)),
        bytes[at] == 0x58 && at + 5 <= bytes.len() && at + 5 + number_at(bytes, at + 1)
            <= bytes.len() ==> op_at(bytes, at) == Some(
            (Op::Leaf, at + 5 + number_at(bytes, at + 1)),
        ),
        bytes[at] == 0x88 || bytes[at] == 0x89 || bytes[at] == 0x4e || bytes[at] == 0x29 || bytes[at]
            == 0x7d || bytes[at] == 0x5d ==> op_at(bytes, at) == Some((Op::Leaf, at + 1)),
        bytes[at] == 0x2e ==> op_at(bytes, at) == Some((Op::Stop, at + 1)),
        bytes[at] == 0x8a && at + 2 <= bytes.len() && bytes[at + 1] <= 8 && at + 2 + bytes[at + 1]
            <= bytes.len() ==> op_at(bytes, at) == Some((Op::Leaf, at + 2 + bytes[at + 1])),
        bytes[at] == 0x8a && at + 2 <= bytes.len() && bytes[at + 1] > 8 ==> op_at(bytes, at) == Some(
            (Op::Unreadable, at + 2),
        ),
{
}

/// Putting values together is refused for one thing alone, that the whole would nest deeper than a
/// hundred and twenty-eight levels.
pub proof fn law_only_deep_nesting_is_refused(k: Sketch, n: u8, held: Seq<Shape>)
    requires
        n <= k.stack.len(),
        held == k.stack.skip(k.stack.len() - n),
        gathered(held).levels < u32::MAX,
    ensures
        applied(k, Op::Fold(n)) == Next::Refused <==> gathered(held).levels + 1 > 128,
        applied(k, Op::Fold(n)) is On || applied(k, Op::Fold(n)) is Refused,
{
}

/// Recalling or remembering a value is refused for one thing alone, that more would be copied than
/// four times two to the twentieth parts in all.
pub proof fn law_only_large_copies_are_refused(k: Sketch, id: u32)
    ensures
        k.memo.dom().contains(id) ==> (applied(k, Op::Recall(id)) == Next::Refused <==> k.copied
            + k.memo[id].parts > 4 * 1024 * 1024),
        !k.memo.dom().contains(id) ==> applied(k, Op::Recall(id)) == Next::Over,
        k.stack.len() > 0 ==> (applied(k, Op::Remember(id)) == Next::Refused <==> k.copied
            + k.stack.last().parts > 4 * 1024 * 1024),
        k.memo.dom().contains(id) && applied(k, Op::Recall(id)) is On ==> (applied(
            k,
            Op::Recall(id),
        ) matches Next::On(then) && then.stack == k.stack.push(k.memo[id])),
        k.stack.len() > 0 && applied(k, Op::Remember(id)) is On ==> (applied(
            k,
            Op::Remember(id),
        ) matches Next::On(then) && then.memo == k.memo.insert(id, k.stack.last()) && then.stack
            == k.stack),
{
}

proof fn lemma_gathered_levels(shapes: Seq<Shape>, most: int)
    requires
        0 <= most,
        forall|i: int| 0 <= i < shapes.len() ==> (#[trigger] shapes[i]).levels <= most,
    ensures
        gathered(shapes).levels <= most,
    decreases shapes.len(),
{
    if shapes.len() > 0 {
        let fewer = shapes.drop_last();
        assert forall|i: int| 0 <= i < fewer.len() implies (#[trigger] fewer[i]).levels <= most by {
            assert(fewer[i] == shapes[i]);
        }
        lemma_gathered_levels(fewer, most);
        assert(shapes[shapes.len() - 1].levels <= most);
    }
}

/// One opcode nests values one level deeper at most. So where nothing is nested a hundred and
/// twenty-eight levels deep, an opcode is refused only where it cannot be read or copies what is
/// remembered.
pub proof fn law_one_opcode_nests_one_level_deeper(k: Sketch, op: Op, most: int)
    requires
        0 <= most < 128,
        forall|i: int| 0 <= i < k.stack.len() ==> (#[trigger] k.stack[i]).levels <= most,
        forall|id: u32| k.memo.dom().contains(id) ==> (#[trigger] k.memo[id]).levels <= most,
    ensures
        applied(k, op) is Refused ==> op is Unreadable || op is Recall || op is Remember,
        applied(k, op) matches Next::On(next) ==> forall|i: int|
            0 <= i < next.stack.len() ==> (#[trigger] next.stack[i]).levels <= most + 1,
{
    let len = k.stack.len() as int;
    match op {
        Op::Fold(n) => {
            if len >= n {
                lemma_held_levels(k, len - n, most);
            }
        },
        Op::FoldMarked => {
            let mark = mark_in(k.stack);
            lemma_mark_within(k.stack);
            if mark >= 0 {
                lemma_held_levels(k, mark + 1, most);
            }
        },
        Op::Into(n) => {
            if len > n {
                lemma_held_levels(k, len - n, most);
            }
        },
        Op::IntoMarked => {
            let mark = mark_in(k.stack);
            lemma_mark_within(k.stack);
            if mark > 0 {
                lemma_held_levels(k, mark + 1, most);
            }
        },
        _ => {},
    }
}

proof fn lemma_held_levels(k: Sketch, from: int, most: int)
    requires
        0 <= most < 128,
        0 <= from <= k.stack.len(),
        forall|i: int| 0 <= i < k.stack.len() ==> (#[trigger] k.stack[i]).levels <= most,
    ensures
        gathered(k.stack.skip(from)).levels <= most,
        holding(gathered(k.stack.skip(from))).levels <= most + 1,
{
    let held = k.stack.skip(from);
    assert forall|i: int| 0 <= i < held.len() implies (#[trigger] held[i]).levels <= most by {
        assert(held[i] == k.stack[from + i]);
    }
    lemma_gathered_levels(held, most);
}

proof fn lemma_mark_within(stack: Seq<Shape>)
    ensures
        -1 <= mark_in(stack) < stack.len(),
    decreases stack.len(),
{
    if stack.len() > 0 {
        lemma_mark_within(stack.drop_last());
    }
}

/// An opcode that cannot be read is a text longer than what is left, or an integer of more than
/// eight bytes.
pub proof fn law_only_two_things_cannot_be_read(bytes: Seq<u8>, at: int)
    requires
        0 <= at < bytes.len(),
        op_at(bytes, at) matches Some((Op::Unreadable, _)),
    ensures
        (bytes[at] == 0x58 && number_at(bytes, at + 1) > bytes.len() - at - 5) || (bytes[at] == 0x8a
            && bytes[at + 1] > 8),
{
}

} // verus!
