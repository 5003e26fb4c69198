//! What a checkpoint's `head.pt` says: its metadata, and which of its tensors are
//! the pointer head's.
//!
//! `torch.save` writes a zip holding a pickled dict. The calibration temperature
//! and the option isolation are numbers in it. Tensor readers skip them, so the
//! pickle is walked for them here.

use candle_core::pickle::Object;
use vstd::prelude::*;

use self::Parts::{Build, Reduce};
use crate::error;
use crate::error::Error;
use crate::head;
use crate::head::{HeadView, Linear, LinearView, PointerHead};
use crate::number::{Real, Single};
use crate::opcodes;
use crate::text;
use crate::weights::ALLOW_UNUSED;

verus! {

/// `candle_core::pickle::Object`: a value out of a pickle.
#[verifier::external_type_specification]
#[verifier::external_body]
pub struct ExObject(candle_core::pickle::Object);

/// What a pickled value holds. A float is given by its bits.
pub enum Node {
    Class(Seq<char>, Seq<char>),
    Int(i32),
    Long(i64),
    Float(u64),
    Text(Seq<char>),
    Bool(bool),
    Nothing,
    Tuple(Seq<Node>),
    List(Seq<Node>),
    Mark,
    Dict(Seq<(Node, Node)>),
    Reduce(Box<Node>, Box<Node>),
    Build(Box<Node>, Box<Node>),
    Persistent(Box<Node>),
}

/// What a pickled value holds.
pub uninterp spec fn tree(object: Object) -> Node;

/// One level of a pickled value. A float is given by its bits.
pub enum Parts<'a> {
    Class(&'a str, &'a str),
    Int(&'a i32),
    Long(&'a i64),
    Float(u64),
    Text(&'a str),
    Bool(&'a bool),
    Nothing,
    Tuple(&'a [Object]),
    List(&'a [Object]),
    Mark,
    Dict(&'a [(Object, Object)]),
    Reduce(&'a Object, &'a Object),
    Build(&'a Object, &'a Object),
    Persistent(&'a Object),
}

/// What the values of a list hold.
pub open spec fn item_trees(items: Seq<Object>) -> Seq<Node> {
    Seq::new(items.len(), |i: int| tree(items[i]))
}

/// What one level of a pickled value holds.
pub open spec fn parts_tree(parts: Parts<'_>) -> Node {
    match parts {
        Parts::Class(module, name) => Node::Class(module@, name@),
        Parts::Int(n) => Node::Int(*n),
        Parts::Long(n) => Node::Long(*n),
        Parts::Float(bits) => Node::Float(bits),
        Parts::Text(t) => Node::Text(t@),
        Parts::Bool(b) => Node::Bool(*b),
        Parts::Nothing => Node::Nothing,
        Parts::Tuple(items) => Node::Tuple(item_trees(items@)),
        Parts::List(items) => Node::List(item_trees(items@)),
        Parts::Mark => Node::Mark,
        Parts::Dict(entries) => Node::Dict(
            Seq::new(
                entries@.len(),
                |i: int| (tree(entries@[i].0), tree(entries@[i].1)),
            ),
        ),
        Reduce(callable, args) => Node::Reduce(
            Box::new(tree(*callable)),
            Box::new(tree(*args)),
        ),
        Build(callable, args) => Node::Build(
            Box::new(tree(*callable)),
            Box::new(tree(*args)),
        ),
        Parts::Persistent(id) => Node::Persistent(Box::new(tree(*id))),
    }
}

/// The variants of `candle_core::pickle::Object` told apart, each with its fields: the
/// value's tree is that of its parts.
#[verifier::external_body]
fn parts(object: &Object) -> (out: Parts<'_>)
    ensures
        parts_tree(out) == tree(*object),
{
    match object {
        Object::Class { module_name, class_name } => Parts::Class(module_name, class_name),
        Object::Int(n) => Parts::Int(n),
        Object::Long(n) => Parts::Long(n),
        Object::Float(x) => Parts::Float(x.to_bits()),
        Object::Unicode(t) => Parts::Text(t),
        Object::Bool(b) => Parts::Bool(b),
        Object::Tuple(items) => Parts::Tuple(items),
        Object::List(items) => Parts::List(items),
        Object::Dict(entries) => Parts::Dict(entries),
        Object::Reduce { callable, args } => Reduce(callable, args),
        Object::Build { callable, args } => Build(callable, args),
        Object::PersistentLoad(id) => Parts::Persistent(id),
        Object::None => Parts::Nothing, Object::Mark => Parts::Mark,
    }
}

/// A number in a checkpoint's metadata, as it was saved.
#[derive(Debug, Clone, Copy, PartialEq, Eq, Structural)]
pub enum Scalar {
    /// A float, by its bits.
    Float(u64),
    Int(i64),
    Bool(bool),
}

/// The number that a value is, if it is one.
pub open spec fn number_in(node: Node) -> Option<Scalar> {
    match node {
        Node::Float(bits) => Some(Scalar::Float(bits)),
        Node::Int(n) => Some(Scalar::Int(n as i64)),
        Node::Long(n) => Some(Scalar::Int(n)),
        Node::Bool(b) => Some(Scalar::Bool(b)),
        _ => None,
    }
}

/// The first number that stands directly under a key among the first `n` entries.
pub open spec fn number_under(
    entries: Seq<(Node, Node)>,
    key: Seq<char>,
    n: int,
) -> Option<Scalar>
    decreases n,
{
    if n <= 0 {
        None
    } else {
        match number_under(entries, key, n - 1) {
            Some(found) => Some(found),
            None => if entries[n - 1].0 == Node::Text(key) {
                number_in(entries[n - 1].1)
            } else {
                None
            },
        }
    }
}

/// The number that stands directly under a key in a value.
pub open spec fn own_number(node: Node, key: Seq<char>) -> Option<Scalar> {
    match node {
        Node::Dict(entries) => number_under(entries, key, entries.len() as int),
        _ => None,
    }
}

/// The values that a value holds, in order, as far as metadata is looked for in them:
/// those of a dict, the items of a tuple or a list, and what a call or a persistent id is
/// applied to.
pub open spec fn held_in(node: Node) -> Seq<Node> {
    match node {
        Node::Dict(entries) => Seq::new(entries.len(), |i: int| entries[i].1),
        Node::Tuple(items) => items,
        Node::List(items) => items,
        Node::Reduce(_, args) => seq![*args],
        Node::Build(_, args) => seq![*args],
        Node::Persistent(id) => seq![*id],
        _ => Seq::empty(),
    }
}

/// The values that these hold, in order.
pub open spec fn held_by(nodes: Seq<Node>) -> Seq<Node>
    decreases nodes.len(),
{
    if nodes.len() == 0 {
        Seq::empty()
    } else {
        held_by(nodes.drop_last()) + held_in(nodes.last())
    }
}

/// The values that lie this deep in a value, in order.
pub open spec fn level(node: Node, depth: nat) -> Seq<Node>
    decreases depth,
{
    if depth == 0 {
        seq![node]
    } else {
        held_by(level(node, (depth - 1) as nat))
    }
}

/// The number directly under a key in the first of these that has one.
pub open spec fn first_number(nodes: Seq<Node>, key: Seq<char>) -> Option<Scalar>
    decreases nodes.len(),
{
    if nodes.len() == 0 {
        None
    } else {
        match first_number(nodes.drop_last(), key) {
            Some(found) => Some(found),
            None => own_number(nodes.last(), key),
        }
    }
}

/// A number under the key lies this deep in the value, and none any shallower.
pub open spec fn shallowest(node: Node, key: Seq<char>, depth: nat) -> bool {
    &&& first_number(level(node, depth), key) is Some
    &&& forall|d: nat| d < depth ==> first_number(#[trigger] level(node, d), key) is None
}

/// The number stored under a key, anywhere in a value. Shallower matches win, so a
/// checkpoint's own temperature beats one nested in whatever else it saved.
pub open spec fn scalar_in(node: Node, key: Seq<char>) -> Option<Scalar> {
    if exists|depth: nat| shallowest(node, key, depth) {
        first_number(level(node, choose|depth: nat| shallowest(node, key, depth)), key)
    } else {
        None
    }
}

/// How many levels a value has.
spec fn height(node: Node) -> nat
    decreases node,
{
    match node {
        Node::Dict(entries) => 1 + tallest_value(entries),
        Node::Tuple(items) => 1 + tallest_item(items),
        Node::List(items) => 1 + tallest_item(items),
        Node::Reduce(_, args) => 1 + height(*args),
        Node::Build(_, args) => 1 + height(*args),
        Node::Persistent(id) => 1 + height(*id),
        _ => 1,
    }
}

spec fn tallest_item(items: Seq<Node>) -> nat
    decreases items,
{
    if items.len() == 0 {
        0
    } else {
        larger(tallest_item(items.drop_last()), height(items.last()))
    }
}

spec fn tallest_value(entries: Seq<(Node, Node)>) -> nat
    decreases entries,
{
    if entries.len() == 0 {
        0
    } else {
        larger(tallest_value(entries.drop_last()), height(entries.last().1))
    }
}

spec fn larger(a: nat, b: nat) -> nat {
    if a < b {
        b
    } else {
        a
    }
}

proof fn lemma_value_height(entries: Seq<(Node, Node)>, i: int)
    requires
        0 <= i < entries.len(),
    ensures
        height(entries[i].1) <= tallest_value(entries),
    decreases entries.len(),
{
    if i < entries.len() - 1 {
        assert(entries.drop_last()[i] == entries[i]);
        lemma_value_height(entries.drop_last(), i);
    }
}

proof fn lemma_held_height(node: Node, i: int)
    requires
        0 <= i < held_in(node).len(),
    ensures
        height(held_in(node)[i]) < height(node),
{
    match node {
        Node::Dict(entries) => {
            lemma_value_height(entries, i);
        },
        Node::Tuple(items) => {
            lemma_item_height(items, i);
        },
        Node::List(items) => {
            lemma_item_height(items, i);
        },
        _ => {},
    }
}

proof fn lemma_item_height(items: Seq<Node>, i: int)
    requires
        0 <= i < items.len(),
    ensures
        height(items[i]) <= tallest_item(items),
    decreases items.len(),
{
    if i < items.len() - 1 {
        assert(items.drop_last()[i] == items[i]);
        lemma_item_height(items.drop_last(), i);
    }
}

/// What values hold has fewer levels than the values.
proof fn lemma_fewer_levels(nodes: Seq<Node>)
    requires
        nodes.len() > 0,
    ensures
        tallest_item(held_by(nodes)) < tallest_item(nodes),
    decreases nodes.len(),
{
    let rest = nodes.drop_last();
    let last = held_in(nodes.last());
    assert(height(nodes.last()) >= 1);
    if rest.len() > 0 {
        lemma_fewer_levels(rest);
    } else {
        assert(held_by(rest) =~= Seq::<Node>::empty());
    }
    lemma_tallest_of_both(held_by(rest), last);
    assert forall|i: int| 0 <= i < last.len() implies height(#[trigger] last[i]) < height(
        nodes.last(),
    ) by {
        lemma_held_height(nodes.last(), i);
    }
    lemma_tallest_below(last, height(nodes.last()));
}

proof fn lemma_tallest_below(items: Seq<Node>, bound: nat)
    requires
        bound > 0,
        forall|i: int| 0 <= i < items.len() ==> height(#[trigger] items[i]) < bound,
    ensures
        tallest_item(items) < bound,
    decreases items.len(),
{
    if items.len() > 0 {
        assert forall|i: int| 0 <= i < items.len() - 1 implies height(
            #[trigger] items.drop_last()[i],
        ) < bound by {
            assert(items.drop_last()[i] == items[i]);
        }
        lemma_tallest_below(items.drop_last(), bound);
    }
}

proof fn lemma_tallest_of_both(a: Seq<Node>, b: Seq<Node>)
    ensures
        tallest_item(a + b) == larger(tallest_item(a), tallest_item(b)),
    decreases b.len(),
{
    if b.len() == 0 {
        assert(a + b =~= a);
    } else {
        assert((a + b).drop_last() =~= a + b.drop_last());
        lemma_tallest_of_both(a, b.drop_last());
    }
}
/// The number that a value is, if it is one.
fn number_of(object: &Object) -> (out: Option<Scalar>)
    ensures
        out == number_in(tree(*object)),
{
    match parts(object) {
        Parts::Float(bits) => Some(Scalar::Float(bits)),
        Parts::Int(n) => Some(Scalar::Int(*n as i64)),
        Parts::Long(n) => Some(Scalar::Int(*n)),
        Parts::Bool(b) => Some(Scalar::Bool(*b)),
        _ => None,
    }
}

/// What values hold.
pub open spec fn trees(objects: Seq<&Object>) -> Seq<Node> {
    Seq::new(objects.len(), |i: int| tree(*objects[i]))
}

/// The number that stands directly under `key` in a pickled object.
fn own_scalar(object: &Object, key: &str) -> (out: Option<Scalar>)
    ensures
        out == own_number(tree(*object), key@),
{
    match parts(object) {
        Parts::Dict(entries) => {
            let ghost nodes = Seq::new(
                entries@.len(),
                |i: int| (tree(entries@[i].0), tree(entries@[i].1)),
            );
            assert(tree(*object) == Node::Dict(nodes));
            for i in 0..entries.len()
                invariant
                    nodes == Seq::new(
                        entries@.len(),
                        |i: int| (tree(entries@[i].0), tree(entries@[i].1)),
                    ),
                    tree(*object) == Node::Dict(nodes),
                    number_under(nodes, key@, i as int) is None,
                decreases entries.len() - i,
            {
                let named = match parts(&entries[i].0) {
                    Parts::Text(name) => text::same_text(name, key),
                    _ => false,
                };
                assert(named == (nodes[i as int].0 == Node::Text(key@)));
                if named {
                    let found = number_of(&entries[i].1);
                    if found.is_some() {
                        proof {
                            assert(number_under(nodes, key@, i + 1) == found);
                            lemma_number_under(nodes, key@, i + 1, nodes.len() as int);
                        }
                        return found;
                    }
                }
            }
            None
        },
        _ => None,
    }
}

/// Add the items of a list to these.
fn push_items<'a>(out: &mut Vec<&'a Object>, items: &'a [Object])
    ensures
        trees(final(out)@) == trees(old(out)@) + item_trees(items@),
{
    let ghost before = trees(out@);
    let ghost values = item_trees(items@);
    assert(before + values.take(0) =~= before);
    for i in 0..items.len()
        invariant
            values == item_trees(items@),
            trees(out@) == before + values.take(i as int),
    {
        let ghost held = out@;
        out.push(&items[i]);
        assert(trees(out@) =~= trees(held).push(values[i as int]));
        assert(values.take(i + 1) =~= values.take(i as int).push(values[i as int]));
    }
    assert(values.take(values.len() as int) == values);
}

/// Add what a pickled object holds to these.
fn push_held<'a>(out: &mut Vec<&'a Object>, object: &'a Object)
    ensures
        trees(final(out)@) == trees(old(out)@) + held_in(tree(*object)),
{
    let ghost before = trees(out@);
    match parts(object) {
        Parts::Dict(entries) => {
            let ghost values = Seq::new(entries@.len(), |i: int| tree(entries@[i].1));
            assert(held_in(tree(*object)) =~= values);
            for i in 0..entries.len()
                invariant
                    values == Seq::new(entries@.len(), |i: int| tree(entries@[i].1)),
                    trees(out@) == before + values.take(i as int),
            {
                let ghost held = out@;
                out.push(&entries[i].1);
                assert(trees(out@) =~= trees(held).push(values[i as int]));
                assert(values.take(i + 1) =~= values.take(i as int).push(values[i as int]));
            }
            assert(values.take(values.len() as int) == values);
        },
        Parts::Tuple(items) => {
            push_items(out, items);
        },
        Parts::List(items) => {
            push_items(out, items);
        },
        Reduce(_, args) => {
            out.push(args);
            assert(trees(out@) =~= before + held_in(tree(*object)));
        },
        Build(_, args) => {
            out.push(args);
            assert(trees(out@) =~= before + held_in(tree(*object)));
        },
        Parts::Persistent(id) => {
            out.push(id);
            assert(trees(out@) =~= before + held_in(tree(*object)));
        },
        _ => {
            assert(trees(out@) =~= before + held_in(tree(*object)));
        },
    }
}

/// The number stored under `key`, anywhere in a pickled object. Shallower matches
/// win, so a checkpoint's own `temperature` beats one nested in whatever else it
/// saved.
pub fn scalar(object: &Object, key: &str) -> (out: Option<Scalar>)
    ensures
        out == scalar_in(tree(*object), key@),
{
    let ghost root = tree(*object);
    let ghost mut depth: nat = 0;
    let mut reached: Vec<&Object> = Vec::new();
    reached.push(object);
    assert(trees(reached@) =~= level(root, 0));
    while reached.len() > 0
        invariant
            root == tree(*object),
            trees(reached@) == level(root, depth),
            forall|d: nat| d < depth ==> first_number(#[trigger] level(root, d), key@) is None,
        decreases tallest_item(level(root, depth)),
    {
        let ghost nodes = level(root, depth);
        let mut below: Vec<&Object> = Vec::new();
        assert(nodes.take(0) == Seq::<Node>::empty());
        assert(trees(below@) =~= held_by(nodes.take(0)));
        for i in 0..reached.len()
            invariant
                nodes == level(root, depth),
                trees(reached@) == nodes,
                reached@.len() == nodes.len(),
                first_number(nodes.take(i as int), key@) is None,
                trees(below@) == held_by(nodes.take(i as int)),
                forall|d: nat| d < depth ==> first_number(#[trigger] level(root, d), key@) is None,
                root == tree(*object),
            decreases reached.len() - i,
        {
            proof {
                assert(nodes[i as int] == tree(*reached@[i as int]));
                assert(nodes.take(i + 1).drop_last() == nodes.take(i as int));
                assert(nodes.take(i + 1).last() == nodes[i as int]);
            }
            let found = own_scalar(reached[i], key);
            if found.is_some() {
                proof {
                    lemma_first_number(nodes, key@, i + 1);
                    lemma_shallowest(root, key@, depth);
                }
                return found;
            }
            push_held(&mut below, reached[i]);
        }
        proof {
            assert(nodes.take(nodes.len() as int) == nodes);
            lemma_fewer_levels(nodes);
            assert(level(root, depth + 1) == held_by(nodes));
            depth = depth + 1;
        }
        reached = below;
    }
    proof {
        if exists|d: nat| shallowest(root, key@, d) {
            let d = choose|d: nat| shallowest(root, key@, d);
            lemma_nothing_below(root, depth, d);
        }
    }
    None
}

proof fn lemma_number_under(entries: Seq<(Node, Node)>, key: Seq<char>, m: int, n: int)
    requires
        m <= n,
        number_under(entries, key, m) is Some,
    ensures
        number_under(entries, key, n) == number_under(entries, key, m),
    decreases n - m,
{
    if m < n {
        lemma_number_under(entries, key, m, n - 1);
        assert(n > 0);
    }
}

proof fn lemma_first_number(nodes: Seq<Node>, key: Seq<char>, m: int)
    requires
        0 <= m <= nodes.len(),
        first_number(nodes.take(m), key) is Some,
    ensures
        first_number(nodes, key) == first_number(nodes.take(m), key),
    decreases nodes.len() - m,
{
    if m < nodes.len() {
        assert(nodes.take(m + 1).drop_last() == nodes.take(m));
        lemma_first_number(nodes, key, m + 1);
    } else {
        assert(nodes.take(m) == nodes);
    }
}

/// There is one depth at which a key is found first.
proof fn lemma_shallowest(node: Node, key: Seq<char>, depth: nat)
    requires
        shallowest(node, key, depth),
    ensures
        scalar_in(node, key) == first_number(level(node, depth), key),
{
    let found = choose|d: nat| shallowest(node, key, d);
    if found < depth {
        assert(first_number(level(node, found), key) is None);
    } else if depth < found {
        assert(first_number(level(node, depth), key) is None);
    }
}

proof fn lemma_nothing_below(node: Node, depth: nat, d: nat)
    requires
        level(node, depth).len() == 0,
        depth <= d,
    ensures
        level(node, d).len() == 0,
    decreases d,
{
    if depth < d {
        lemma_nothing_below(node, depth, (d - 1) as nat);
    }
}

/// A key that occurs somewhere is found, and found no deeper than there: a shallower
/// match wins.
pub proof fn law_shallower_numbers_win(node: Node, key: Seq<char>, depth: nat)
    requires
        first_number(level(node, depth), key) is Some,
    ensures
        exists|d: nat|
            d <= depth && #[trigger] shallowest(node, key, d) && scalar_in(node, key)
                == first_number(level(node, d), key),
    decreases depth,
{
    if forall|d: nat| d < depth ==> first_number(#[trigger] level(node, d), key) is None {
        assert(shallowest(node, key, depth));
        lemma_shallowest(node, key, depth);
    } else {
        let d = choose|d: nat| d < depth && first_number(#[trigger] level(node, d), key) is Some;
        law_shallower_numbers_win(node, key, d);
    }
}

/// A checkpoint's own number beats one nested in whatever else it saved.
pub proof fn law_a_checkpoints_own_number_wins(entries: Seq<(Node, Node)>, key: Seq<char>, i: int)
    requires
        0 <= i < entries.len(),
        entries[i].0 == Node::Text(key),
        number_in(entries[i].1) is Some,
    ensures
        scalar_in(Node::Dict(entries), key) == number_under(entries, key, entries.len() as int),
        scalar_in(Node::Dict(entries), key) is Some,
{
    if number_under(entries, key, i) is Some {
        lemma_number_under(entries, key, i, entries.len() as int);
    } else {
        assert(number_under(entries, key, i + 1) is Some);
        lemma_number_under(entries, key, i + 1, entries.len() as int);
    }
    let node = Node::Dict(entries);
    assert(level(node, 0).drop_last() =~= Seq::<Node>::empty());
    reveal_with_fuel(first_number, 2);
    assert(shallowest(node, key, 0));
    lemma_shallowest(node, key, 0);
}

// ---------------------------------------------------------------------------
// The archive
// ---------------------------------------------------------------------------

/// `std::io::Cursor`: bytes that are read from a place on.
#[verifier::external_type_specification]
#[verifier::external_body]
#[verifier::reject_recursive_types(T)]
pub struct ExCursor<T>(std::io::Cursor<T>);

/// `zip::ZipArchive`: an archive whose directory was read.
#[verifier::external_type_specification]
#[verifier::external_body]
#[verifier::reject_recursive_types(R)]
pub struct ExZipArchive<R>(zip::ZipArchive<R>);

/// The bytes that an archive was opened from.
pub uninterp spec fn source(archive: zip::ZipArchive<std::io::Cursor<Vec<u8>>>) -> Seq<u8>;

/// These bytes are an archive.
pub uninterp spec fn is_archive(bytes: Seq<u8>) -> bool;

/// The names of the entries of an archive with these bytes, in the order of its
/// directory.
pub uninterp spec fn names_in(bytes: Seq<u8>) -> Seq<Seq<char>>;

/// An archive with these bytes has this entry, and it can be opened.
pub uninterp spec fn opens(bytes: Seq<u8>, entry: Seq<char>) -> bool;

/// The bytes of an entry of an archive with these bytes, or nothing where they cannot
/// be read to the end.
pub uninterp spec fn entry_in(bytes: Seq<u8>, entry: Seq<char>) -> Option<Seq<u8>>;

/// `zip::ZipArchive::new`: the archive that these bytes are, where they are one. The
/// contract leaves open how a failure is worded.
#[verifier::external_body]
fn open_archive(bytes: &[u8]) -> (out: Result<
    zip::ZipArchive<std::io::Cursor<Vec<u8>>>,
    String,
>)
    ensures
        match out {
            Ok(archive) => is_archive(bytes@) && source(archive) == bytes@,
            Err(_) => !is_archive(bytes@),
        },
{
    zip::ZipArchive::new(std::io::Cursor::new(bytes.to_vec())).map_err(|e| e.to_string())
}

/// `zip::ZipArchive::file_names`: the entries that the archive's directory lists, in its
/// order.
#[verifier::external_body]
fn entry_names(archive: &zip::ZipArchive<std::io::Cursor<Vec<u8>>>) -> (out: Vec<String>)
    ensures
        text::views(out@) == names_in(source(*archive)),
{
    archive.file_names().map(String::from).collect()
}

/// `zip::ZipArchive::by_name`, and what can be read of the entry, with whether that is
/// all of it. Of an entry that cannot be read to the end the contract leaves open how
/// far it was read: that depends on how much is asked for at once. It also leaves open
/// how a failure to open the entry is worded.
#[verifier::external_body]
fn entry_bytes(
    archive: &mut zip::ZipArchive<std::io::Cursor<Vec<u8>>>,
    entry: &str,
) -> (out: Result<(Vec<u8>, bool), String>)
    ensures
        source(*final(archive)) == source(*old(archive)),
        match out {
            Ok((bytes, whole)) => opens(source(*old(archive)), entry@) && if whole {
                entry_in(source(*old(archive)), entry@) == Some(bytes@)
            } else {
                entry_in(source(*old(archive)), entry@) is None
            },
            Err(_) => !opens(source(*old(archive)), entry@),
        },
{
    match archive.by_name(entry) {
        Ok(mut reader) => {
            let mut bytes = Vec::new();
            let whole = std::io::Read::read_to_end(&mut reader, &mut bytes).is_ok();
            Ok((bytes, whole))
        },
        Err(e) => Err(e.to_string()),
    }
}

/// `candle_core::pickle::Stack`: the values that a pickle leaves.
#[verifier::external_type_specification]
#[verifier::external_body]
pub struct ExStack(candle_core::pickle::Stack);

/// The values on a stack, the last on top.
pub uninterp spec fn stacked(stack: candle_core::pickle::Stack) -> Seq<Node>;

/// The values that a pickle leaves on the stack, or nothing where it cannot be read to
/// its end.
pub uninterp spec fn left_by(bytes: Seq<u8>) -> Option<Seq<Node>>;

/// `candle_core::pickle::Stack::read_loop` on an empty stack: the values that the pickle
/// leaves there. Pickles that the reader panics on are left out. The contract leaves
/// open how a failure is worded.
#[verifier::external_body]
fn read_pickle(bytes: &[u8]) -> (out: Result<candle_core::pickle::Stack, String>)
    requires
        opcodes::tame(bytes@),
    ensures
        match out {
            Ok(stack) => left_by(bytes@) == Some(stacked(stack)),
            Err(_) => left_by(bytes@) is None,
        },
{
    let mut stack = candle_core::pickle::Stack::empty();
    let mut reader = bytes;
    match stack.read_loop(&mut reader) {
        Ok(()) => Ok(stack),
        Err(e) => Err(e.to_string()),
    }
}

/// `candle_core::pickle::Stack::finalize`: the value on top, where there is one. The
/// contract leaves open how a failure is worded.
#[verifier::external_body]
fn top_value(stack: candle_core::pickle::Stack) -> (out: Result<Object, String>)
    ensures
        match out {
            Ok(object) => stacked(stack).len() > 0 && tree(object) == stacked(stack).last(),
            Err(_) => stacked(stack).len() == 0,
        },
{
    stack.finalize().map_err(|e| e.to_string())
}

/// The value of a pickle, or nothing where it has none or cannot be read.
pub open spec fn value_of(bytes: Seq<u8>) -> Option<Node> {
    if opcodes::tame(bytes) {
        match left_by(bytes) {
            Some(values) => if values.len() > 0 {
                Some(values.last())
            } else {
                None
            },
            None => None,
        }
    } else {
        None
    }
}

/// The value of a pickle. One that the reader has no room for is refused unread.
pub fn unpickle(bytes: &[u8]) -> (out: Result<Object, Error>)
    ensures
        match out {
            Ok(object) => value_of(bytes@) == Some(tree(object)),
            Err(e) => value_of(bytes@) is None && e is Model,
        },
        !opcodes::tame(bytes@) ==> (out matches Err(Error::Model(m)) && m@ == UNTAMED@),
{
    if !opcodes::is_tame(bytes) {
        return Err(Error::Model(UNTAMED.to_owned()));
    }
    match read_pickle(bytes) {
        Ok(stack) => match top_value(stack) {
            Ok(object) => Ok(object),
            Err(e) => Err(Error::Model(e)),
        },
        Err(e) => Err(Error::Model(e)),
    }
}

/// What is said of a pickle that the reader has no room for.
pub const UNTAMED: &'static str =
    "the pickle holds an integer of more than eight bytes, or nests deeper or repeats more than can be read";

/// The first entry whose name ends in `data.pkl`.
pub open spec fn pickle_at(list: Seq<Seq<char>>, at: int) -> bool {
    &&& 0 <= at < list.len()
    &&& text::ends_in(list[at], "data.pkl"@)
    &&& forall|i: int| 0 <= i < at ==> !text::ends_in(#[trigger] list[i], "data.pkl"@)
}

/// No entry's name ends in `data.pkl`.
pub open spec fn no_pickle(list: Seq<Seq<char>>) -> bool {
    forall|i: int| 0 <= i < list.len() ==> !text::ends_in(#[trigger] list[i], "data.pkl"@)
}

/// The entry that holds a checkpoint's pickle.
pub fn pickle_entry(list: &[String]) -> (out: Option<usize>)
    ensures
        match out {
            Some(at) => pickle_at(text::views(list@), at as int),
            None => no_pickle(text::views(list@)),
        },
{
    let ghost views = text::views(list@);
    for i in 0..list.len()
        invariant
            views == text::views(list@),
            forall|j: int| 0 <= j < i ==> !text::ends_in(#[trigger] views[j], "data.pkl"@),
    {
        assert(views[i as int] == list@[i as int]@);
        if text::ends_with(list[i].as_str(), "data.pkl") {
            return Some(i);
        }
    }
    None
}

/// The message is `lead`, and then something.
pub open spec fn led_by(message: Seq<char>, lead: Seq<char>) -> bool {
    exists|rest: Seq<char>| message == #[trigger] (lead + rest)
}

/// The number that a pickle holds under a key.
pub open spec fn pickle_says(
    bytes: Seq<u8>,
    key: Seq<char>,
    out: Result<Option<Scalar>, Error>,
) -> bool {
    match value_of(bytes) {
        Some(node) => out == Ok::<Option<Scalar>, Error>(scalar_in(node, key)),
        None => out matches Err(Error::Model(_)),
    }
}

/// The number that the metadata of an archive holds under a key. An entry that cannot be
/// read to the end is taken for what was read of it.
pub open spec fn meta_says(
    archive: Seq<u8>,
    shown: Seq<char>,
    key: Seq<char>,
    out: Result<Option<Scalar>, Error>,
) -> bool {
    let list = names_in(archive);
    if !is_archive(archive) {
        out matches Err(Error::Engine(m)) && led_by(m@, shown + " is not a torch archive: "@)
    } else if no_pickle(list) {
        out matches Err(e) && e.is_engine(shown + " holds no data.pkl"@)
    } else {
        exists|at: int|
            #[trigger] pickle_at(list, at) && if opens(archive, list[at]) {
                match entry_in(archive, list[at]) {
                    Some(bytes) => pickle_says(bytes, key, out),
                    None => exists|read: Seq<u8>| #[trigger] pickle_says(read, key, out),
                }
            } else {
                out matches Err(Error::Engine(m)) && led_by(
                    m@,
                    "cannot read "@ + list[at] + ": "@,
                )
            }
    }
}

/// One number out of a pickle.
pub fn pickled(bytes: &[u8], key: &str) -> (out: Result<Option<Scalar>, Error>)
    ensures
        pickle_says(bytes@, key@, out),
        !opcodes::tame(bytes@) ==> (out matches Err(Error::Model(m)) && m@ == UNTAMED@),
{
    match unpickle(bytes) {
        Ok(object) => Ok(scalar(&object, key)),
        Err(e) => Err(e),
    }
}

/// One number out of the metadata dict of a `head.pt` with these bytes. `shown` is
/// the file's name as it is written.
pub fn meta(archive: &[u8], shown: &str, key: &str) -> (out: Result<Option<Scalar>, Error>)
    ensures
        meta_says(archive@, shown@, key@, out),
{
    let mut zip = match open_archive(archive) {
        Ok(zip) => zip,
        Err(e) => {
            let lead = shown.to_owned().concat(" is not a torch archive: ");
            let ghost start = lead@;
            let message = lead.concat(e.as_str());
            assert(message@ == start + e@);
            return Err(Error::Engine(message));
        },
    };
    let list = entry_names(&zip);
    let at: usize = match pickle_entry(list.as_slice()) {
        Some(at) => at,
        None => {
            return Err(Error::Engine(shown.to_owned().concat(" holds no data.pkl")));
        },
    };
    let ghost views = text::views(list@);
    assert(pickle_at(views, at as int));
    assert(views[at as int] == list@[at as int]@);
    assert(!no_pickle(views));
    match entry_bytes(&mut zip, list[at].as_str()) {
        Ok((bytes, _)) => pickled(bytes.as_slice(), key),
        Err(e) => {
            let lead = "cannot read ".to_owned().concat(list[at].as_str()).concat(": ");
            let ghost start = lead@;
            let message = lead.concat(e.as_str());
            assert(message@ == start + e@);
            Err(Error::Engine(message))
        },
    }
}

/// A head exported under this name holds tensors and nothing else.
pub open spec fn tensors_only(extension: Option<Seq<char>>) -> bool {
    extension == Some("safetensors"@)
}

/// A file's extension, if it has one.
pub open spec fn extension_chars(extension: Option<&str>) -> Option<Seq<char>> {
    match extension {
        Some(e) => Some(e@),
        None => None,
    }
}

/// Whether a head with this file extension holds tensors and nothing else. There is
/// then no dict to walk and no metadata to find: that is not an error, it is the
/// answer.
pub fn holds_tensors_only(extension: Option<&str>) -> (yes: bool)
    ensures
        yes == tensors_only(extension_chars(extension)),
{
    match extension {
        Some(e) => text::same_text(e, "safetensors"),
        None => false,
    }
}

/// A number in metadata is not zero.
pub open spec fn switched_on(value: Scalar) -> bool {
    match value {
        Scalar::Float(bits) => (Real { bits }).place() != 0,
        Scalar::Int(n) => n != 0,
        Scalar::Bool(b) => b,
    }
}

/// Whether a number in metadata is not zero.
pub fn is_on(value: Scalar) -> (yes: bool)
    ensures
        yes == switched_on(value),
{
    match value {
        Scalar::Float(bits) => {
            // Both zeros count as zero.
            bits != 0 && bits != 0x8000_0000_0000_0000
        },
        Scalar::Int(n) => n != 0,
        Scalar::Bool(b) => b,
    }
}

/// The number that the metadata of a head holds under a key: none where the file holds
/// tensors only, whatever is in it, and otherwise what the archive says that `read`
/// gives.
pub open spec fn head_says<R: Fn() -> Result<Vec<u8>, Error>>(
    extension: Option<Seq<char>>,
    read: R,
    shown: Seq<char>,
    key: Seq<char>,
    out: Result<Option<Scalar>, Error>,
) -> bool {
    if tensors_only(extension) {
        out == Ok::<Option<Scalar>, Error>(None)
    } else {
        exists|bytes: Result<Vec<u8>, Error>|
            #[trigger] call_ensures(read, (), bytes) && match bytes {
                Ok(archive) => meta_says(archive@, shown, key, out),
                Err(e) => out == Err::<Option<Scalar>, Error>(e),
            }
    }
}

/// One number out of the metadata of a head file with this extension, which is read
/// only where there can be any.
fn head_meta<R: Fn() -> Result<Vec<u8>, Error>>(
    extension: Option<&str>,
    read: &R,
    shown: &str,
    key: &str,
) -> (out: Result<Option<Scalar>, Error>)
    requires
        call_requires(*read, ()),
    ensures
        head_says(extension_chars(extension), *read, shown@, key@, out),
{
    if holds_tensors_only(extension) {
        return Ok(None);
    }
    let bytes = read();
    match &bytes {
        Ok(archive) => {
            let out = meta(archive.as_slice(), shown, key);
            assert(meta_says(archive@, shown@, key@, out));
            out
        },
        Err(_) => match bytes {
            Ok(_) => Ok(None),
            Err(e) => Err(e),
        },
    }
}

/// Whether a checkpoint was trained with option isolation, from its `head.pt`.
///
/// Serving a checkpoint that wants it without is a silently different prompt, not
/// an error, which is why it is worth asking. A head exported as safetensors does not
/// say, and is not read.
pub fn option_isolation<R: Fn() -> Result<Vec<u8>, Error>>(
    extension: Option<&str>,
    read: &R,
    shown: &str,
) -> (out: Result<Option<bool>, Error>)
    requires
        call_requires(*read, ()),
    ensures
        exists|found: Result<Option<Scalar>, Error>|
            #[trigger] head_says(
                extension_chars(extension),
                *read,
                shown@,
                "option_isolation"@,
                found,
            ) && match found {
                Ok(Some(value)) => out == Ok::<Option<bool>, Error>(Some(switched_on(value))),
                Ok(None) => out == Ok::<Option<bool>, Error>(None),
                Err(e) => out == Err::<Option<bool>, Error>(e),
            },
{
    let ghost e = extension_chars(extension);
    let found = head_meta(extension, read, shown, "option_isolation");
    assert(head_says(e, *read, shown@, "option_isolation"@, found));
    match found {
        Ok(Some(value)) => Ok(Some(is_on(value))),
        Ok(None) => Ok(None),
        Err(e) => Err(e),
    }
}

/// The calibration temperature a checkpoint carries in its `head.pt`, if it has
/// one. A head exported as safetensors has none, and is not read.
///
/// It never changes which option wins, only how confident the distribution looks,
/// which is exactly the kind of difference that goes unnoticed.
pub fn temperature<R: Fn() -> Result<Vec<u8>, Error>>(
    extension: Option<&str>,
    read: &R,
    shown: &str,
) -> (out: Result<Option<Scalar>, Error>)
    requires
        call_requires(*read, ()),
    ensures
        head_says(extension_chars(extension), *read, shown@, "temperature"@, out),
{
    head_meta(extension, read, shown, "temperature")
}

// ---------------------------------------------------------------------------
// The pointer head's tensors
// ---------------------------------------------------------------------------

/// A tensor of this name is a candidate for `suffix`: it is called so, or so behind
/// a dot.
pub open spec fn candidate(name: Seq<char>, suffix: Seq<char>) -> bool {
    name == suffix || text::ends_in(name, "."@ + suffix)
}

/// The candidate at `at` is the only one.
pub open spec fn only_candidate(list: Seq<Seq<char>>, suffix: Seq<char>, at: int) -> bool {
    &&& 0 <= at < list.len()
    &&& candidate(list[at], suffix)
    &&& forall|i: int| 0 <= i < list.len() && i != at ==> !candidate(#[trigger] list[i], suffix)
}

/// The candidates at `first` and `second` are the first two.
pub open spec fn first_two(
    list: Seq<Seq<char>>,
    suffix: Seq<char>,
    first: int,
    second: int,
) -> bool {
    &&& 0 <= first < second < list.len()
    &&& candidate(list[first], suffix)
    &&& candidate(list[second], suffix)
    &&& forall|i: int|
        0 <= i < second && i != first ==> !candidate(#[trigger] list[i], suffix)
}

/// Names as a list is written, each as Rust's debug formatting writes it.
pub open spec fn list_chars(list: Seq<Seq<char>>) -> Seq<char> {
    "["@ + text::joined(Seq::new(list.len(), |i: int| error::debug_chars(list[i])), ", "@) + "]"@
}

/// What is said where no tensor is a candidate.
pub open spec fn absent_message(
    list: Seq<Seq<char>>,
    suffix: Seq<char>,
    shown: Seq<char>,
) -> Seq<char> {
    shown + " has no "@ + suffix + "; it holds "@ + list_chars(list)
}

/// What is said where two tensors are candidates.
pub open spec fn ambiguous_message(
    first: Seq<char>,
    second: Seq<char>,
    suffix: Seq<char>,
    shown: Seq<char>,
) -> Seq<char> {
    shown + " holds two candidates for "@ + suffix + ", "@ + error::debug_chars(first) + " and "@
        + error::debug_chars(second)
        + ", so which projection reads which hidden state would come down to file order"@
}

/// Where the tensor is that is called `suffix`, or so behind a dot: there has to be
/// one, and one only.
pub open spec fn finds(
    list: Seq<Seq<char>>,
    suffix: Seq<char>,
    shown: Seq<char>,
    out: Result<usize, Error>,
) -> bool {
    match out {
        Ok(at) => only_candidate(list, suffix, at as int),
        Err(e) => if exists|i: int| 0 <= i < list.len() && candidate(#[trigger] list[i], suffix) {
            exists|a: int, b: int|
                #[trigger] first_two(list, suffix, a, b) && e.is_engine(
                    ambiguous_message(list[a], list[b], suffix, shown),
                )
        } else {
            e.is_engine(absent_message(list, suffix, shown))
        },
    }
}

/// Names as a list is written.
fn list_text(list: &[String]) -> (out: String)
    ensures
        out@ == list_chars(text::views(list@)),
{
    let mut shown: Vec<String> = Vec::new();
    let ghost debugged = Seq::new(
        list@.len(),
        |i: int| error::debug_chars(text::views(list@)[i]),
    );
    for i in 0..list.len()
        invariant
            debugged == Seq::new(
                list@.len(),
                |i: int| error::debug_chars(text::views(list@)[i]),
            ),
            text::views(shown@) == debugged.take(i as int),
    {
        let ghost before = text::views(shown@);
        let one = error::debug_text(list[i].as_str());
        shown.push(one);
        assert(text::views(shown@) =~= before.push(one@));
        assert(debugged.take(i + 1) =~= debugged.take(i as int).push(debugged[i as int]));
    }
    assert(debugged.take(debugged.len() as int) == debugged);
    "[".to_owned().concat(text::join(shown.as_slice(), ", ").as_str()).concat("]")
}

/// The tensor that is called `suffix`, or so behind a dot.
///
/// Which projection reads `<decide>` and which reads `</opt>` is decided by these
/// names, so an ambiguous match is not a detail: taking the first of two candidates
/// would pick the orientation by file order.
pub fn find_tensor(list: &[String], suffix: &str, shown: &str) -> (out: Result<usize, Error>)
    ensures
        finds(text::views(list@), suffix@, shown@, out),
{
    let dotted = ".".to_owned().concat(suffix);
    let ghost views = text::views(list@);
    let mut found: Option<usize> = None;
    for i in 0..list.len()
        invariant
            views == text::views(list@),
            dotted@ == "."@ + suffix@,
            match found {
                Some(at) => at < i && candidate(views[at as int], suffix@) && forall|j: int|
                    0 <= j < i && j != at ==> !candidate(#[trigger] views[j], suffix@),
                None => forall|j: int|
                    0 <= j < i ==> !candidate(#[trigger] views[j], suffix@),
            },
    {
        let name = list[i].as_str();
        assert(views[i as int] == name@);
        if text::same_text(name, suffix) || text::ends_with(name, dotted.as_str()) {
            match found {
                Some(at) => {
                    let mut message = shown.to_owned();
                    message.append(" holds two candidates for ");
                    message.append(suffix);
                    message.append(", ");
                    message.append(error::debug_text(list[at].as_str()).as_str());
                    message.append(" and ");
                    message.append(error::debug_text(name).as_str());
                    message.append(
                        ", so which projection reads which hidden state would come down to file order",
                    );
                    assert(first_two(views, suffix@, at as int, i as int));
                    return Err(Error::Engine(message));
                },
                None => {
                    found = Some(i);
                },
            }
        }
    }
    match found {
        Some(at) => Ok(at),
        None => {
            let mut message = shown.to_owned();
            message.append(" has no ");
            message.append(suffix);
            message.append("; it holds ");
            message.append(list_text(list).as_str());
            Err(Error::Engine(message))
        },
    }
}

/// Which tensor is found does not come down to file order: two files with tensors
/// of the same names, in whatever order, give tensors of one name.
pub proof fn law_the_order_of_tensors_does_not_matter(
    list: Seq<Seq<char>>,
    other: Seq<Seq<char>>,
    suffix: Seq<char>,
    shown: Seq<char>,
    a: usize,
    b: usize,
)
    requires
        forall|name: Seq<char>| #[trigger] list.contains(name) <==> other.contains(name),
        finds(list, suffix, shown, Ok(a)),
        finds(other, suffix, shown, Ok(b)),
    ensures
        list[a as int] == other[b as int],
{
    let name = list[a as int];
    assert(list.contains(name));
    let i = choose|i: int| 0 <= i < other.len() && other[i] == name;
    assert(candidate(other[i], suffix));
}

/// The names of these that are none of those.
pub open spec fn without(list: Seq<Seq<char>>, consumed: Seq<Seq<char>>) -> Seq<Seq<char>>
    decreases list.len(),
{
    if list.len() == 0 {
        Seq::empty()
    } else {
        let before = without(list.drop_last(), consumed);
        if consumed.contains(list.last()) {
            before
        } else {
            before.push(list.last())
        }
    }
}

/// What is said of tensors that the readout does not use.
pub open spec fn leftover_message(leftover: Seq<Seq<char>>, shown: Seq<char>) -> Seq<char> {
    shown + " holds "@ + text::decimal(leftover.len())
        + " tensor(s) this readout does not use: "@ + list_chars(leftover)
        + ". A Kev pointer head is two projections, `q` on the <decide> state and `k` on each </opt>; anything more is structure that would be silently dropped. Set "@
        + ALLOW_UNUSED@ + "=1 to load anyway."@
}

/// Refuse a head with more in it than was consumed, unless it is `allowed` to. What
/// comes back is what a caller should be warned of.
///
/// A tensor the readout did not use is either a head with more structure than two
/// projections, or a naming that is read wrongly. Both would answer plausibly and
/// answer wrong, so neither loads quietly.
pub fn nothing_left_over(list: &[String], consumed: &[String], shown: &str, allowed: bool) -> (out:
    Result<Option<String>, Error>)
    ensures
        ({
            let leftover = without(text::views(list@), text::views(consumed@));
            match out {
                Ok(None) => leftover.len() == 0,
                Ok(Some(warning)) => leftover.len() > 0 && allowed && warning@ == leftover_message(
                    leftover,
                    shown@,
                ),
                Err(e) => leftover.len() > 0 && !allowed && e.is_engine(
                    leftover_message(leftover, shown@),
                ),
            }
        }),
{
    let ghost views = text::views(list@);
    let ghost taken = text::views(consumed@);
    let mut leftover: Vec<String> = Vec::new();
    assert(views.take(0) == Seq::<Seq<char>>::empty());
    assert(text::views(leftover@) == Seq::<Seq<char>>::empty());
    for i in 0..list.len()
        invariant
            views == text::views(list@),
            taken == text::views(consumed@),
            text::views(leftover@) == without(views.take(i as int), taken),
    {
        let ghost before = text::views(leftover@);
        proof {
            assert(views.take(i + 1).drop_last() == views.take(i as int));
            assert(views.take(i + 1).last() == list@[i as int]@);
        }
        if !text::is_listed(consumed, list[i].as_str()) {
            leftover.push(list[i].clone());
            assert(text::views(leftover@) =~= before.push(list@[i as int]@));
        }
    }
    assert(views.take(views.len() as int) == views);
    assert(leftover@.len() == text::views(leftover@).len());
    if leftover.len() == 0 {
        return Ok(None);
    }
    let mut message = shown.to_owned();
    message.append(" holds ");
    message.append(text::decimal_text(leftover.len()).as_str());
    message.append(" tensor(s) this readout does not use: ");
    message.append(list_text(leftover.as_slice()).as_str());
    message.append(
        ". A Kev pointer head is two projections, `q` on the <decide> state and `k` on each </opt>; anything more is structure that would be silently dropped. Set ",
    );
    message.append(ALLOW_UNUSED);
    message.append("=1 to load anyway.");
    if allowed {
        Ok(Some(message))
    } else {
        Err(Error::Engine(message))
    }
}

/// One of the two projections of a head: the places of its weight and its bias, and
/// what they hold.
pub struct ProjectionView<N> {
    pub weight: int,
    pub bias: int,
    pub linear: LinearView<N>,
}

/// What comes of reading a projection whose tensors stand at these places. `matrix`
/// reads a tensor as rows with their width, `vector` as one row.
pub open spec fn projection_at<
    N,
    M: Fn(usize) -> Result<(Vec<N>, usize), Error>,
    V: Fn(usize) -> Result<Vec<N>, Error>,
>(
    matrix: M,
    vector: V,
    weight: usize,
    bias: usize,
    out: Result<ProjectionView<N>, Error>,
) -> bool {
    exists|rows: Result<(Vec<N>, usize), Error>| #[trigger]
        call_ensures(matrix, (weight,), rows) && match rows {
            Err(e) => out == Err::<ProjectionView<N>, Error>(e),
            Ok((values, inputs)) => exists|row: Result<Vec<N>, Error>| #[trigger]
                call_ensures(vector, (bias,), row) && match row {
                    Err(e) => out == Err::<ProjectionView<N>, Error>(e),
                    Ok(biases) => {
                        let linear = LinearView {
                            weight: values@,
                            bias: biases@,
                            inputs: inputs as nat,
                        };
                        if linear.whole() {
                            out == Ok::<ProjectionView<N>, Error>(
                                ProjectionView { weight: weight as int, bias: bias as int, linear },
                            )
                        } else {
                            out matches Err(e) && e.is_engine(
                                head::shape_message(values@.len(), biases@.len(), inputs as nat),
                            )
                        }
                    },
                },
        }
}

/// What comes of reading the projection of this name.
pub open spec fn reads_projection<
    N,
    M: Fn(usize) -> Result<(Vec<N>, usize), Error>,
    V: Fn(usize) -> Result<Vec<N>, Error>,
>(
    list: Seq<Seq<char>>,
    name: Seq<char>,
    shown: Seq<char>,
    matrix: M,
    vector: V,
    out: Result<ProjectionView<N>, Error>,
) -> bool {
    exists|weight: Result<usize, Error>| #[trigger]
        finds(list, name + ".weight"@, shown, weight) && match weight {
            Err(e) => out == Err::<ProjectionView<N>, Error>(e),
            Ok(weight_at) => exists|bias: Result<usize, Error>| #[trigger]
                finds(list, name + ".bias"@, shown, bias) && match bias {
                    Err(e) => out == Err::<ProjectionView<N>, Error>(e),
                    Ok(bias_at) => projection_at(matrix, vector, weight_at, bias_at, out),
                },
        }
}

/// Whatever is read of two tensors, their sizes can be multiplied.
pub open spec fn countable<
    N,
    M: Fn(usize) -> Result<(Vec<N>, usize), Error>,
    V: Fn(usize) -> Result<Vec<N>, Error>,
>(matrix: M, vector: V) -> bool {
    forall|i: usize, j: usize, rows: Result<(Vec<N>, usize), Error>, row: Result<Vec<N>, Error>|
        #[trigger] call_ensures(matrix, (i,), rows) && #[trigger] call_ensures(vector, (j,), row)
            && rows is Ok && row is Ok ==> row->Ok_0@.len() * rows->Ok_0.1 <= usize::MAX
}

fn projection<
    N,
    M: Fn(usize) -> Result<(Vec<N>, usize), Error>,
    V: Fn(usize) -> Result<Vec<N>, Error>,
>(list: &[String], name: &str, shown: &str, matrix: &M, vector: &V) -> (out: Result<
    (usize, usize, Linear<N>),
    Error,
>)
    requires
        forall|i: usize| call_requires(*matrix, (i,)),
        forall|i: usize| call_requires(*vector, (i,)),
        countable(*matrix, *vector),
    ensures
        reads_projection(
            text::views(list@),
            name@,
            shown@,
            *matrix,
            *vector,
            match out {
                Ok((weight, bias, linear)) => Ok::<ProjectionView<N>, Error>(
                    ProjectionView { weight: weight as int, bias: bias as int, linear: linear@ },
                ),
                Err(e) => Err::<ProjectionView<N>, Error>(e),
            },
        ),
        out matches Ok((weight, bias, _)) ==> weight < list@.len() && bias < list@.len(),
{
    let ghost views = text::views(list@);
    let called = name.to_owned().concat(".weight");
    let weight = find_tensor(list, called.as_str(), shown);
    assert(finds(views, name@ + ".weight"@, shown@, weight));
    let weight_at: usize = match weight {
        Ok(at) => at,
        Err(e) => {
            return Err(e);
        },
    };
    let called = name.to_owned().concat(".bias");
    let bias = find_tensor(list, called.as_str(), shown);
    assert(finds(views, name@ + ".bias"@, shown@, bias));
    let bias_at: usize = match bias {
        Ok(at) => at,
        Err(e) => {
            return Err(e);
        },
    };
    let rows = matrix(weight_at);
    assert(call_ensures(*matrix, (weight_at,), rows));
    let (values, inputs) = match rows {
        Ok(rows) => rows,
        Err(e) => {
            assert(projection_at(
                *matrix,
                *vector,
                weight_at,
                bias_at,
                Err::<ProjectionView<N>, Error>(e),
            ));
            return Err(e);
        },
    };
    let row = vector(bias_at);
    assert(call_ensures(*vector, (bias_at,), row));
    let biases = match row {
        Ok(row) => row,
        Err(e) => {
            assert(projection_at(
                *matrix,
                *vector,
                weight_at,
                bias_at,
                Err::<ProjectionView<N>, Error>(e),
            ));
            return Err(e);
        },
    };
    let ghost made = LinearView { weight: values@, bias: biases@, inputs: inputs as nat };
    match Linear::new(values, biases, inputs) {
        Ok(linear) => {
            assert(projection_at(
                *matrix,
                *vector,
                weight_at,
                bias_at,
                Ok::<ProjectionView<N>, Error>(
                    ProjectionView {
                        weight: weight_at as int,
                        bias: bias_at as int,
                        linear: made,
                    },
                ),
            ));
            Ok((weight_at, bias_at, linear))
        },
        Err(e) => {
            assert(projection_at(
                *matrix,
                *vector,
                weight_at,
                bias_at,
                Err::<ProjectionView<N>, Error>(e),
            ));
            Err(e)
        },
    }
}

/// The names of a head's tensors: its two projections' weights and biases.
pub open spec fn consumed_by<N>(
    list: Seq<Seq<char>>,
    query: ProjectionView<N>,
    key: ProjectionView<N>,
) -> Seq<Seq<char>> {
    seq![list[query.weight], list[query.bias], list[key.weight], list[key.bias]]
}

/// What comes of calibrating a head with this number. `narrow` gives it in single
/// precision, and as it is written.
pub open spec fn scales<N, C: Fn(Scalar) -> (Single, String)>(
    narrow: C,
    value: Scalar,
    raw: HeadView<N>,
    out: Result<HeadView<N>, Error>,
) -> bool {
    exists|single: (Single, String)| #[trigger]
        call_ensures(narrow, (value,), single) && if single.0.positive() {
            out == Ok::<HeadView<N>, Error>(HeadView { temperature: single.0, ..raw })
        } else {
            out matches Err(e) && e.is_engine(
                "the pointer head's temperature must be positive, got "@ + single.1@,
            )
        }
}

/// What comes of calibrating a head by the metadata of an archive.
pub open spec fn calibrates_by<N, C: Fn(Scalar) -> (Single, String)>(
    archive: Seq<u8>,
    shown: Seq<char>,
    narrow: C,
    raw: HeadView<N>,
    out: Result<HeadView<N>, Error>,
) -> bool {
    exists|found: Result<Option<Scalar>, Error>|
        #[trigger] meta_says(archive, shown, "temperature"@, found) && match found {
            Err(e) => out == Err::<HeadView<N>, Error>(e),
            Ok(None) => out == Ok::<HeadView<N>, Error>(raw),
            Ok(Some(value)) => scales(narrow, value, raw, out),
        }
}

/// What comes of calibrating a head by the metadata beside its tensors, where there
/// is any.
pub open spec fn calibrates<N, C: Fn(Scalar) -> (Single, String)>(
    archive: Option<Seq<u8>>,
    shown: Seq<char>,
    narrow: C,
    raw: HeadView<N>,
    out: Result<HeadView<N>, Error>,
) -> bool {
    match archive {
        None => out == Ok::<HeadView<N>, Error>(raw),
        Some(bytes) => calibrates_by(bytes, shown, narrow, raw, out),
    }
}

/// What comes of putting a head together from its two projections: nothing may be
/// left over unless it is allowed to, and the projections have to match.
pub open spec fn assembles<N, C: Fn(Scalar) -> (Single, String)>(
    list: Seq<Seq<char>>,
    archive: Option<Seq<u8>>,
    shown: Seq<char>,
    allowed: bool,
    narrow: C,
    query: ProjectionView<N>,
    key: ProjectionView<N>,
    out: Result<(HeadView<N>, Option<Seq<char>>), Error>,
) -> bool {
    let leftover = without(list, consumed_by(list, query, key));
    let warning = if leftover.len() > 0 {
        Some(leftover_message(leftover, shown))
    } else {
        None
    };
    if leftover.len() > 0 && !allowed {
        out matches Err(e) && e.is_engine(leftover_message(leftover, shown))
    } else if !head::matched(query.linear, key.linear) {
        out matches Err(e) && e.is_engine(head::disagreement(query.linear, key.linear))
    } else {
        exists|made: Result<HeadView<N>, Error>| #[trigger]
            calibrates(
                archive,
                shown,
                narrow,
                HeadView {
                    query: query.linear,
                    key: key.linear,
                    temperature: Single { bits: head::RAW },
                },
                made,
            ) && match made {
                Ok(head) => out == Ok::<(HeadView<N>, Option<Seq<char>>), Error>((head, warning)),
                Err(e) => out == Err::<(HeadView<N>, Option<Seq<char>>), Error>(e),
            }
    }
}

/// What comes of reading a head: `q` is the projection that reads `<decide>`, `k`
/// the one that reads each `</opt>`.
pub open spec fn reads_head<
    N,
    M: Fn(usize) -> Result<(Vec<N>, usize), Error>,
    V: Fn(usize) -> Result<Vec<N>, Error>,
    C: Fn(Scalar) -> (Single, String),
>(
    list: Seq<Seq<char>>,
    archive: Option<Seq<u8>>,
    shown: Seq<char>,
    allowed: bool,
    matrix: M,
    vector: V,
    narrow: C,
    out: Result<(HeadView<N>, Option<Seq<char>>), Error>,
) -> bool {
    exists|query: Result<ProjectionView<N>, Error>| #[trigger]
        reads_projection(list, "q"@, shown, matrix, vector, query) && match query {
            Err(e) => out == Err::<(HeadView<N>, Option<Seq<char>>), Error>(e),
            Ok(q) => exists|key: Result<ProjectionView<N>, Error>| #[trigger]
                reads_projection(list, "k"@, shown, matrix, vector, key) && match key {
                    Err(e) => out == Err::<(HeadView<N>, Option<Seq<char>>), Error>(e),
                    Ok(k) => assembles(list, archive, shown, allowed, narrow, q, k, out),
                },
        }
}

/// A head and what a caller should be warned of, or why there is none.
pub open spec fn head_of<N>(
    out: Result<(PointerHead<N>, Option<String>), Error>,
) -> Result<(HeadView<N>, Option<Seq<char>>), Error> {
    match out {
        Ok((head, Some(warning))) => Ok((head@, Some(warning@))),
        Ok((head, None)) => Ok((head@, None)),
        Err(e) => Err(e),
    }
}

fn calibrated<N, C: Fn(Scalar) -> (Single, String)>(
    head: PointerHead<N>,
    archive: &[u8],
    shown: &str,
    narrow: &C,
) -> (out: Result<PointerHead<N>, Error>)
    requires
        forall|value: Scalar| call_requires(*narrow, (value,)),
    ensures
        calibrates_by(
            archive@,
            shown@,
            *narrow,
            head@,
            match out {
                Ok(fitted) => Ok::<HeadView<N>, Error>(fitted@),
                Err(e) => Err::<HeadView<N>, Error>(e),
            },
        ),
{
    let ghost raw = head@;
    match meta(archive, shown, "temperature") {
        // The raw head is what a checkpoint without a fitted temperature has.
        Ok(None) => {
            assert(meta_says(archive@, shown@, "temperature"@, Ok(None)));
            Ok(head)
        },
        Ok(Some(value)) => {
            assert(meta_says(archive@, shown@, "temperature"@, Ok(Some(value))));
            let single = narrow(value);
            assert(call_ensures(*narrow, (value,), single));
            match head.with_temperature(single.0, single.1.as_str()) {
                Ok(fitted) => {
                    assert(scales(*narrow, value, raw, Ok::<HeadView<N>, Error>(fitted@)));
                    Ok(fitted)
                },
                Err(e) => {
                    assert(scales(*narrow, value, raw, Err::<HeadView<N>, Error>(e)));
                    Err(e)
                },
            }
        },
        Err(e) => {
            assert(meta_says(archive@, shown@, "temperature"@, Err(e)));
            Err(e)
        },
    }
}

fn assembled<N, C: Fn(Scalar) -> (Single, String)>(
    list: &[String],
    archive: Option<&[u8]>,
    shown: &str,
    allowed: bool,
    narrow: &C,
    query: (usize, usize, Linear<N>),
    key: (usize, usize, Linear<N>),
) -> (out: Result<(PointerHead<N>, Option<String>), Error>)
    requires
        forall|value: Scalar| call_requires(*narrow, (value,)),
        query.0 < list@.len(),
        query.1 < list@.len(),
        key.0 < list@.len(),
        key.1 < list@.len(),
    ensures
        assembles(
            text::views(list@),
            match archive {
                Some(bytes) => Some(bytes@),
                None => None,
            },
            shown@,
            allowed,
            *narrow,
            (ProjectionView {
                weight: query.0 as int,
                bias: query.1 as int,
                linear: query.2@,
            }),
            (ProjectionView { weight: key.0 as int, bias: key.1 as int, linear: key.2@ }),
            head_of(out),
        ),
{
    let ghost views = text::views(list@);
    let ghost q = ProjectionView {
        weight: query.0 as int,
        bias: query.1 as int,
        linear: query.2@,
    };
    let ghost k = ProjectionView { weight: key.0 as int, bias: key.1 as int, linear: key.2@ };
    let mut consumed: Vec<String> = Vec::new();
    consumed.push(list[query.0].clone());
    consumed.push(list[query.1].clone());
    consumed.push(list[key.0].clone());
    consumed.push(list[key.1].clone());
    assert(text::views(consumed@) =~= consumed_by(views, q, k));
    let warning = match nothing_left_over(list, consumed.as_slice(), shown, allowed) {
        Ok(warning) => warning,
        Err(e) => {
            return Err(e);
        },
    };
    let raw = match PointerHead::new(query.2, key.2) {
        Ok(raw) => raw,
        Err(e) => {
            return Err(e);
        },
    };
    let ghost plain = raw@;
    match archive {
        Some(bytes) => match calibrated(raw, bytes, shown, narrow) {
            Ok(head) => {
                assert(calibrates(
                    Some(bytes@),
                    shown@,
                    *narrow,
                    plain,
                    Ok::<HeadView<N>, Error>(head@),
                ));
                Ok((head, warning))
            },
            Err(e) => {
                assert(calibrates(
                    Some(bytes@),
                    shown@,
                    *narrow,
                    plain,
                    Err::<HeadView<N>, Error>(e),
                ));
                Err(e)
            },
        },
        None => {
            assert(calibrates(
                None,
                shown@,
                *narrow,
                plain,
                Ok::<HeadView<N>, Error>(plain),
            ));
            Ok((raw, warning))
        },
    }
}

/// Whether the head's tensors are read from the whole file, as a bare state dict, rather
/// than from what a `head.pt` holds under `head`.
///
/// `under_head` is how many tensors there are under `head`, or nothing where none can be
/// read there. Reading the metadata around them for tensors would find none, so what is
/// under `head` comes first.
pub fn is_bare_state_dict(under_head: Option<usize>) -> (yes: bool)
    ensures
        yes <==> !(under_head matches Some(n) && n > 0),
{
    match under_head {
        Some(n) => n == 0,
        None => true,
    }
}

/// A checkpoint's pointer head, two projections and the calibration, with what a
/// caller should be warned of.
///
/// `list` names the tensors of the file; `matrix` and `vector` read the one at an
/// index. `archive` holds the bytes of a `head.pt`, whose metadata carries the
/// temperature the head was calibrated with; a file of tensors alone carries none
/// and leaves the head raw.
pub fn pointer_head<
    N,
    M: Fn(usize) -> Result<(Vec<N>, usize), Error>,
    V: Fn(usize) -> Result<Vec<N>, Error>,
    C: Fn(Scalar) -> (Single, String),
>(
    list: &[String],
    archive: Option<&[u8]>,
    shown: &str,
    allowed: bool,
    matrix: &M,
    vector: &V,
    narrow: &C,
) -> (out: Result<(PointerHead<N>, Option<String>), Error>)
    requires
        forall|i: usize| call_requires(*matrix, (i,)),
        forall|i: usize| call_requires(*vector, (i,)),
        forall|value: Scalar| call_requires(*narrow, (value,)),
        countable(*matrix, *vector),
    ensures
        reads_head(
            text::views(list@),
            match archive {
                Some(bytes) => Some(bytes@),
                None => None,
            },
            shown@,
            allowed,
            *matrix,
            *vector,
            *narrow,
            head_of(out),
        ),
{
    let ghost views = text::views(list@);
    let (query_weight, query_bias, query) = match projection(list, "q", shown, matrix, vector) {
        Ok(read) => read,
        Err(e) => {
            assert(reads_projection(
                views,
                "q"@,
                shown@,
                *matrix,
                *vector,
                Err::<ProjectionView<N>, Error>(e),
            ));
            return Err(e);
        },
    };
    let ghost q = ProjectionView {
        weight: query_weight as int,
        bias: query_bias as int,
        linear: query@,
    };
    assert(reads_projection(
        views,
        "q"@,
        shown@,
        *matrix,
        *vector,
        Ok::<ProjectionView<N>, Error>(q),
    ));
    let (key_weight, key_bias, key) = match projection(list, "k", shown, matrix, vector) {
        Ok(read) => read,
        Err(e) => {
            assert(reads_projection(
                views,
                "k"@,
                shown@,
                *matrix,
                *vector,
                Err::<ProjectionView<N>, Error>(e),
            ));
            return Err(e);
        },
    };
    let ghost k = ProjectionView { weight: key_weight as int, bias: key_bias as int, linear: key@ };
    assert(reads_projection(
        views,
        "k"@,
        shown@,
        *matrix,
        *vector,
        Ok::<ProjectionView<N>, Error>(k),
    ));
    assembled(
        list,
        archive,
        shown,
        allowed,
        narrow,
        (query_weight, query_bias, query),
        (key_weight, key_bias, key),
    )
}

// ---------------------------------------------------------------------------
// What is read is what was saved
// ---------------------------------------------------------------------------

/// A number is read as the number it was saved as: a float by its bits, an integer of either size
/// as that integer, and a truth value as that very one. Nothing else is a number.
pub proof fn law_a_number_is_read_as_it_was_saved(node: Node)
    ensures
        node matches Node::Float(bits) ==> number_in(node) == Some(Scalar::Float(bits)),
        node matches Node::Int(n) ==> (number_in(node) matches Some(Scalar::Int(m)) && m == n),
        node matches Node::Long(n) ==> (number_in(node) matches Some(Scalar::Int(m)) && m == n),
        node matches Node::Bool(b) ==> number_in(node) == Some(Scalar::Bool(b)),
        number_in(node) is Some <==> node is Float || node is Int || node is Long || node is Bool,
{
}

/// The number read of a value determines the value: two values that are read alike were saved
/// alike.
pub proof fn law_values_that_are_read_alike_were_saved_alike(a: Node, b: Node)
    requires
        number_in(a) is Some,
        number_in(a) == number_in(b),
    ensures
        a matches Node::Float(x) ==> b == Node::Float(x),
        a matches Node::Bool(x) ==> b == Node::Bool(x),
        a matches Node::Int(x) ==> (b matches Node::Int(y) ==> x == y) && (b matches Node::Long(y)
            ==> x == y),
        a matches Node::Long(x) ==> (b matches Node::Int(y) ==> x == y) && (b matches Node::Long(y)
            ==> x == y),
        a is Int || a is Long ==> b is Int || b is Long,
{
}

proof fn lemma_no_number_yet(entries: Seq<(Node, Node)>, key: Seq<char>, n: int)
    requires
        n <= entries.len(),
        forall|j: int|
            0 <= j < n && (#[trigger] entries[j]).0 == Node::Text(key) ==> !(entries[j].1 is Float
                || entries[j].1 is Int || entries[j].1 is Long || entries[j].1 is Bool),
    ensures
        number_under(entries, key, n) is None,
    decreases n,
{
    if n > 0 {
        lemma_no_number_yet(entries, key, n - 1);
        assert(entries[n - 1].0 == Node::Text(key) ==> number_in(entries[n - 1].1) is None);
    }
}

/// What a checkpoint saved directly under a key is what is found under it: the first number that
/// stands there, as it was saved. So a flag that was saved as false is found as false, and one
/// that was saved as true as true.
pub proof fn law_the_first_number_under_a_key_is_found(
    entries: Seq<(Node, Node)>,
    key: Seq<char>,
    i: int,
)
    requires
        0 <= i < entries.len(),
        entries[i].0 == Node::Text(key),
        forall|j: int|
            0 <= j < i && (#[trigger] entries[j]).0 == Node::Text(key) ==> !(entries[j].1 is Float
                || entries[j].1 is Int || entries[j].1 is Long || entries[j].1 is Bool),
    ensures
        entries[i].1 matches Node::Bool(b) ==> scalar_in(Node::Dict(entries), key) == Some(
            Scalar::Bool(b),
        ),
        entries[i].1 matches Node::Float(bits) ==> scalar_in(Node::Dict(entries), key) == Some(
            Scalar::Float(bits),
        ),
        entries[i].1 matches Node::Int(n) ==> (scalar_in(Node::Dict(entries), key) matches Some(
            Scalar::Int(m),
        ) && m == n),
        entries[i].1 matches Node::Long(n) ==> scalar_in(Node::Dict(entries), key) == Some(
            Scalar::Int(n),
        ),
{
    lemma_no_number_yet(entries, key, i);
    law_a_number_is_read_as_it_was_saved(entries[i].1);
    if number_in(entries[i].1) is Some {
        law_a_checkpoints_own_number_wins(entries, key, i);
        assert(number_under(entries, key, i + 1) == number_in(entries[i].1));
        lemma_number_under(entries, key, i + 1, entries.len() as int);
    }
}

proof fn lemma_first_number_of_one(node: Node, key: Seq<char>)
    ensures
        first_number(seq![node], key) == own_number(node, key),
{
    assert(seq![node].drop_last() =~= Seq::<Node>::empty());
    assert(first_number(Seq::<Node>::empty(), key) is None);
}

/// One level deeper inside a value that holds one value alone.
proof fn lemma_level_through(outer: Node, inner: Node, depth: nat)
    requires
        held_in(outer) == seq![inner],
    ensures
        level(outer, depth + 1) == level(inner, depth),
    decreases depth,
{
    if depth == 0 {
        let nodes = level(outer, 0);
        assert(nodes.drop_last() =~= Seq::<Node>::empty());
        assert(held_by(nodes) =~= seq![inner]) by {
            assert(held_by(Seq::<Node>::empty()) =~= Seq::<Node>::empty());
            assert(nodes.last() == outer);
        }
    } else {
        lemma_level_through(outer, inner, (depth - 1) as nat);
    }
}

proof fn lemma_looked_through(outer: Node, inner: Node, key: Seq<char>)
    requires
        held_in(outer) == seq![inner],
        own_number(outer, key) is None,
    ensures
        scalar_in(outer, key) == scalar_in(inner, key),
{
    lemma_first_number_of_one(outer, key);
    assert(level(outer, 0) =~= seq![outer]);
    if exists|depth: nat| shallowest(inner, key, depth) {
        let depth = choose|depth: nat| shallowest(inner, key, depth);
        lemma_level_through(outer, inner, depth);
        assert forall|d: nat| d < depth + 1 implies first_number(
            #[trigger] level(outer, d),
            key,
        ) is None by {
            if d > 0 {
                lemma_level_through(outer, inner, (d - 1) as nat);
                assert(first_number(level(inner, (d - 1) as nat), key) is None);
            }
        }
        assert(shallowest(outer, key, depth + 1));
        lemma_shallowest(outer, key, depth + 1);
        lemma_shallowest(inner, key, depth);
    } else if exists|depth: nat| shallowest(outer, key, depth) {
        let depth = choose|depth: nat| shallowest(outer, key, depth);
        assert(depth > 0);
        let below = (depth - 1) as nat;
        lemma_level_through(outer, inner, below);
        assert forall|d: nat| d < below implies first_number(
            #[trigger] level(inner, d),
            key,
        ) is None by {
            lemma_level_through(outer, inner, d);
            assert(first_number(level(outer, d + 1), key) is None);
        }
        assert(shallowest(inner, key, below));
    }
}

/// A number is found through whatever a value is wrapped in: what a call or a build is applied
/// to, a persistent id, and a list, a tuple or a dict with nothing else in it. What is called is
/// not looked into.
pub proof fn law_a_number_is_found_through_what_wraps_it(
    wrapped: Node,
    called: Node,
    name: Node,
    key: Seq<char>,
)
    ensures
        scalar_in(Node::Reduce(Box::new(called), Box::new(wrapped)), key) == scalar_in(wrapped, key),
        scalar_in(Node::Build(Box::new(called), Box::new(wrapped)), key) == scalar_in(wrapped, key),
        scalar_in(Node::Persistent(Box::new(wrapped)), key) == scalar_in(wrapped, key),
        scalar_in(Node::Tuple(seq![wrapped]), key) == scalar_in(wrapped, key),
        scalar_in(Node::List(seq![wrapped]), key) == scalar_in(wrapped, key),
        name != Node::Text(key) ==> scalar_in(Node::Dict(seq![(name, wrapped)]), key) == scalar_in(
            wrapped,
            key,
        ),
{
    lemma_looked_through(Node::Reduce(Box::new(called), Box::new(wrapped)), wrapped, key);
    lemma_looked_through(Node::Build(Box::new(called), Box::new(wrapped)), wrapped, key);
    lemma_looked_through(Node::Persistent(Box::new(wrapped)), wrapped, key);
    lemma_looked_through(Node::Tuple(seq![wrapped]), wrapped, key);
    lemma_looked_through(Node::List(seq![wrapped]), wrapped, key);
    let dict = Node::Dict(seq![(name, wrapped)]);
    assert(held_in(dict) =~= seq![wrapped]);
    if name != Node::Text(key) {
        reveal_with_fuel(number_under, 2);
        assert(own_number(dict, key) is None);
        lemma_looked_through(dict, wrapped, key);
    }
}

/// Nothing is found in a value that is no container: a number, a text, a class, a mark or nothing.
pub proof fn law_a_bare_value_holds_no_number_under_a_key(node: Node, key: Seq<char>)
    requires
        node is Class || node is Int || node is Long || node is Float || node is Text || node is Bool
            || node is Nothing || node is Mark,
    ensures
        scalar_in(node, key) is None,
{
    lemma_first_number_of_one(node, key);
    assert(level(node, 0) =~= seq![node]);
    assert(seq![node].drop_last() =~= Seq::<Node>::empty());
    assert(held_by(seq![node]) =~= Seq::<Node>::empty()) by {
        assert(held_by(Seq::<Node>::empty()) =~= Seq::<Node>::empty());
    }
    assert(level(node, 1) == held_by(level(node, 0)));
    if exists|depth: nat| shallowest(node, key, depth) {
        let depth = choose|depth: nat| shallowest(node, key, depth);
        if depth > 0 {
            lemma_nothing_below(node, 1, depth);
        }
    }
}

/// A number is on where it is not zero: true and not false, any integer but zero, and any float
/// but the two zeros.
pub proof fn law_zero_is_off(value: Scalar)
    ensures
        value matches Scalar::Bool(b) ==> switched_on(value) == b,
        value matches Scalar::Int(n) ==> switched_on(value) == (n != 0),
        value matches Scalar::Float(bits) ==> switched_on(value) == (bits != 0 && bits
            != 0x8000_0000_0000_0000),
{
}

/// A flag that a checkpoint's dict holds is read of its pickle as it was saved.
pub proof fn law_a_saved_flag_is_read_back(
    bytes: Seq<u8>,
    entries: Seq<(Node, Node)>,
    key: Seq<char>,
    i: int,
    flag: bool,
    out: Result<Option<Scalar>, Error>,
)
    requires
        value_of(bytes) == Some(Node::Dict(entries)),
        0 <= i < entries.len(),
        entries[i] == (Node::Text(key), Node::Bool(flag)),
        forall|j: int| 0 <= j < i ==> (#[trigger] entries[j]).0 != Node::Text(key),
        pickle_says(bytes, key, out),
    ensures
        out matches Ok(Some(value)) && switched_on(value) == flag,
{
    law_the_first_number_under_a_key_is_found(entries, key, i);
}

/// A head holds tensors only just where its file is named as a safetensors file; it then says
/// nothing, whatever is in it.
pub proof fn law_a_safetensors_head_says_nothing<R: Fn() -> Result<Vec<u8>, Error>>(
    extension: Option<Seq<char>>,
    read: R,
    shown: Seq<char>,
    key: Seq<char>,
    out: Result<Option<Scalar>, Error>,
)
    requires
        head_says(extension, read, shown, key, out),
    ensures
        extension == Some("safetensors"@) ==> out == Ok::<Option<Scalar>, Error>(None),
        extension != Some("safetensors"@) ==> exists|bytes: Result<Vec<u8>, Error>|
            #[trigger] call_ensures(read, (), bytes) && match bytes {
                Ok(archive) => meta_says(archive@, shown, key, out),
                Err(e) => out == Err::<Option<Scalar>, Error>(e),
            },
{
}

/// The metadata of an archive is that of its first entry whose name ends in `data.pkl`.
pub proof fn law_metadata_is_read_of_the_first_pickle(
    archive: Seq<u8>,
    shown: Seq<char>,
    key: Seq<char>,
    at: int,
    bytes: Seq<u8>,
    node: Node,
    out: Result<Option<Scalar>, Error>,
)
    requires
        is_archive(archive),
        0 <= at < names_in(archive).len(),
        text::ends_in(names_in(archive)[at], "data.pkl"@),
        forall|i: int|
            0 <= i < at ==> !text::ends_in(#[trigger] names_in(archive)[i], "data.pkl"@),
        opens(archive, names_in(archive)[at]),
        entry_in(archive, names_in(archive)[at]) == Some(bytes),
        value_of(bytes) == Some(node),
        meta_says(archive, shown, key, out),
    ensures
        out == Ok::<Option<Scalar>, Error>(scalar_in(node, key)),
{
    let list = names_in(archive);
    assert(!no_pickle(list));
    let found = choose|at: int|
        #[trigger] pickle_at(list, at) && if opens(archive, list[at]) {
            match entry_in(archive, list[at]) {
                Some(bytes) => pickle_says(bytes, key, out),
                None => exists|read: Seq<u8>| #[trigger] pickle_says(read, key, out),
            }
        } else {
            out matches Err(Error::Engine(m)) && led_by(m@, "cannot read "@ + list[at] + ": "@)
        };
    if found < at {
        assert(!text::ends_in(list[found], "data.pkl"@));
    } else if at < found {
        assert(!text::ends_in(list[at], "data.pkl"@));
    }
}

/// The value of a pickle is what it leaves on top of the stack.
pub proof fn law_the_value_of_a_pickle_is_left_on_top(bytes: Seq<u8>, below: Seq<Node>, top: Node)
    requires
        opcodes::tame(bytes),
    ensures
        left_by(bytes) == Some(below.push(top)) ==> value_of(bytes) == Some(top),
        left_by(bytes) == Some(Seq::<Node>::empty()) ==> value_of(bytes) is None,
        left_by(bytes) is None ==> value_of(bytes) is None,
{
}

/// A tensor is a candidate for a name where it is called so, or where something and a dot stand
/// before the name; a longer last part of a name is another name.
pub proof fn law_a_candidate_is_named_so_or_so_behind_a_dot(
    name: Seq<char>,
    suffix: Seq<char>,
    start: Seq<char>,
)
    ensures
        candidate(suffix, suffix),
        candidate(start + seq!['.'] + suffix, suffix),
        candidate(name, suffix) && name != suffix ==> name.len() > suffix.len() && name[name.len()
            - suffix.len() - 1] == '.' && name.skip(name.len() - suffix.len()) == suffix,
{
    reveal_strlit(".");
    assert("."@ =~= seq!['.']);
    let dotted = "."@ + suffix;
    assert(start + seq!['.'] + suffix =~= start + dotted);
    text::law_what_ends_so_began_somehow(name, dotted, start);
    if candidate(name, suffix) && name != suffix {
        let tail = name.skip(name.len() - dotted.len());
        assert(tail[0] == '.');
        assert(name.skip(name.len() - suffix.len()) =~= dotted.skip(1)) by {
            assert(dotted.skip(1) =~= suffix);
            assert forall|i: int| 0 <= i < suffix.len() implies #[trigger] name.skip(
                name.len() - suffix.len(),
            )[i] == suffix[i] by {
                assert(tail[i + 1] == dotted[i + 1]);
            }
        }
        assert(dotted.skip(1) =~= suffix);
    }
}

/// One candidate is found, wherever it stands; where there are two or none, nothing is.
pub proof fn law_a_tensor_is_found_where_it_is_the_only_candidate(
    list: Seq<Seq<char>>,
    suffix: Seq<char>,
    shown: Seq<char>,
    out: Result<usize, Error>,
    at: int,
)
    requires
        finds(list, suffix, shown, out),
        0 <= at < list.len(),
    ensures
        candidate(list[at], suffix) && (forall|i: int|
            0 <= i < list.len() && i != at ==> !candidate(#[trigger] list[i], suffix)) ==> out
            == Ok::<usize, Error>(at as usize),
        candidate(list[at], suffix) && (exists|i: int|
            0 <= i < list.len() && i != at && candidate(#[trigger] list[i], suffix)) ==> out is Err,
        (forall|i: int| 0 <= i < list.len() ==> !candidate(#[trigger] list[i], suffix)) ==> out
            is Err,
{
    if out is Ok {
        let found = out->Ok_0 as int;
        assert(candidate(list[found], suffix));
    } else if candidate(list[at], suffix) {
        let e = out->Err_0;
        let (a, b) = choose|a: int, b: int|
            #[trigger] first_two(list, suffix, a, b) && e.is_engine(
                ambiguous_message(list[a], list[b], suffix, shown),
            );
        assert(candidate(list[a], suffix) && candidate(list[b], suffix));
    }
}

/// What is left over is what the file holds and the readout did not consume.
pub proof fn law_what_is_not_consumed_is_left_over(
    list: Seq<Seq<char>>,
    consumed: Seq<Seq<char>>,
    name: Seq<char>,
)
    ensures
        without(list, consumed).contains(name) <==> list.contains(name) && !consumed.contains(name),
        without(list, consumed).len() == 0 <==> (forall|i: int|
            0 <= i < list.len() ==> consumed.contains(#[trigger] list[i])),
    decreases list.len(),
{
    let out = without(list, consumed);
    if list.len() > 0 {
        let fewer = list.drop_last();
        let before = without(fewer, consumed);
        law_what_is_not_consumed_is_left_over(fewer, consumed, name);
        if list.contains(name) {
            let i = choose|i: int| 0 <= i < list.len() && list[i] == name;
            if i < fewer.len() {
                assert(fewer[i] == name);
                assert(fewer.contains(name));
            }
        }
        if fewer.contains(name) {
            let i = choose|i: int| 0 <= i < fewer.len() && fewer[i] == name;
            assert(list[i] == name);
        }
        if !consumed.contains(list.last()) {
            assert(out[out.len() - 1] == list.last());
            if before.contains(name) {
                let i = choose|i: int| 0 <= i < before.len() && before[i] == name;
                assert(out[i] == name);
            }
            if out.contains(name) {
                let i = choose|i: int| 0 <= i < out.len() && out[i] == name;
                if i < before.len() {
                    assert(before[i] == name);
                }
            }
            assert(!consumed.contains(list[list.len() - 1]));
        }
        assert(list[list.len() - 1] == list.last());
        if forall|i: int| 0 <= i < fewer.len() ==> consumed.contains(#[trigger] fewer[i]) {
            assert forall|i: int|
                0 <= i < list.len() && consumed.contains(list.last()) implies consumed.contains(
                #[trigger] list[i],
            ) by {
                if i < fewer.len() {
                    assert(fewer[i] == list[i]);
                }
            }
        } else {
            let i = choose|i: int| 0 <= i < fewer.len() && !consumed.contains(#[trigger] fewer[i]);
            assert(list[i] == fewer[i]);
        }
    }
}

/// A head is read with `q` on the decision and `k` on the options: its query comes of the tensors
/// that alone are named `q.weight` and `q.bias`, its key of those named `k.weight` and `k.bias`,
/// each as it was read.
pub proof fn law_a_head_is_its_two_projections<
    N,
    M: Fn(usize) -> Result<(Vec<N>, usize), Error>,
    V: Fn(usize) -> Result<Vec<N>, Error>,
    C: Fn(Scalar) -> (Single, String),
>(
    list: Seq<Seq<char>>,
    archive: Option<Seq<u8>>,
    shown: Seq<char>,
    allowed: bool,
    matrix: M,
    vector: V,
    narrow: C,
    head: HeadView<N>,
    warning: Option<Seq<char>>,
) -> (places: (int, int, int, int))
    requires
        reads_head(list, archive, shown, allowed, matrix, vector, narrow, Ok((head, warning))),
    ensures
        only_candidate(list, "q"@ + ".weight"@, places.0),
        only_candidate(list, "q"@ + ".bias"@, places.1),
        only_candidate(list, "k"@ + ".weight"@, places.2),
        only_candidate(list, "k"@ + ".bias"@, places.3),
        exists|rows: (Vec<N>, usize)|
            #[trigger] call_ensures(matrix, (places.0 as usize,), Ok(rows)) && head.query.weight
                == rows.0@ && head.query.inputs == rows.1,
        exists|biases: Vec<N>|
            #[trigger] call_ensures(vector, (places.1 as usize,), Ok(biases)) && head.query.bias
                == biases@,
        exists|rows: (Vec<N>, usize)|
            #[trigger] call_ensures(matrix, (places.2 as usize,), Ok(rows)) && head.key.weight
                == rows.0@ && head.key.inputs == rows.1,
        exists|biases: Vec<N>|
            #[trigger] call_ensures(vector, (places.3 as usize,), Ok(biases)) && head.key.bias
                == biases@,
        archive is None ==> head.temperature.bits == 0x3f80_0000,
        head.temperature.bits == 0x3f80_0000 || head.temperature.positive(),
        warning is None <==> without(
            list,
            seq![list[places.0], list[places.1], list[places.2], list[places.3]],
        ).len() == 0,
        warning is Some ==> allowed,
{
    let out = Ok::<(HeadView<N>, Option<Seq<char>>), Error>((head, warning));
    let query = choose|query: Result<ProjectionView<N>, Error>| #[trigger]
        reads_projection(list, "q"@, shown, matrix, vector, query) && match query {
            Err(e) => out == Err::<(HeadView<N>, Option<Seq<char>>), Error>(e),
            Ok(q) => exists|key: Result<ProjectionView<N>, Error>| #[trigger]
                reads_projection(list, "k"@, shown, matrix, vector, key) && match key {
                    Err(e) => out == Err::<(HeadView<N>, Option<Seq<char>>), Error>(e),
                    Ok(k) => assembles(list, archive, shown, allowed, narrow, q, k, out),
                },
        };
    let q = query->Ok_0;
    let key = choose|key: Result<ProjectionView<N>, Error>| #[trigger]
        reads_projection(list, "k"@, shown, matrix, vector, key) && match key {
            Err(e) => out == Err::<(HeadView<N>, Option<Seq<char>>), Error>(e),
            Ok(k) => assembles(list, archive, shown, allowed, narrow, q, k, out),
        };
    let k = key->Ok_0;
    lemma_a_projection_read(list, "q"@, shown, matrix, vector, q);
    lemma_a_projection_read(list, "k"@, shown, matrix, vector, k);
    let raw = HeadView {
        query: q.linear,
        key: k.linear,
        temperature: Single { bits: head::RAW },
    };
    assert(consumed_by(list, q, k) =~= seq![
        list[q.weight],
        list[q.bias],
        list[k.weight],
        list[k.bias],
    ]);
    let made = choose|made: Result<HeadView<N>, Error>| #[trigger]
        calibrates(archive, shown, narrow, raw, made) && match made {
            Ok(head) => out is Ok && out->Ok_0.0 == head,
            Err(e) => out == Err::<(HeadView<N>, Option<Seq<char>>), Error>(e),
        };
    assert(made == Ok::<HeadView<N>, Error>(head));
    lemma_calibrating_keeps_the_projections(archive, shown, narrow, raw, head);
    assert(head.query == q.linear && head.key == k.linear);
    let places = (q.weight, q.bias, k.weight, k.bias);
    let rows = choose|rows: (Vec<N>, usize)|
        #[trigger] call_ensures(matrix, (q.weight as usize,), Ok(rows)) && q.linear.weight
            == rows.0@ && q.linear.inputs == rows.1;
    assert(call_ensures(matrix, (places.0 as usize,), Ok(rows)));
    let row = choose|biases: Vec<N>|
        #[trigger] call_ensures(vector, (q.bias as usize,), Ok(biases)) && q.linear.bias
            == biases@;
    assert(call_ensures(vector, (places.1 as usize,), Ok(row)));
    let rows = choose|rows: (Vec<N>, usize)|
        #[trigger] call_ensures(matrix, (k.weight as usize,), Ok(rows)) && k.linear.weight
            == rows.0@ && k.linear.inputs == rows.1;
    assert(call_ensures(matrix, (places.2 as usize,), Ok(rows)));
    let row = choose|biases: Vec<N>|
        #[trigger] call_ensures(vector, (k.bias as usize,), Ok(biases)) && k.linear.bias
            == biases@;
    assert(call_ensures(vector, (places.3 as usize,), Ok(row)));
    places
}

proof fn lemma_calibrating_keeps_the_projections<N, C: Fn(Scalar) -> (Single, String)>(
    archive: Option<Seq<u8>>,
    shown: Seq<char>,
    narrow: C,
    raw: HeadView<N>,
    head: HeadView<N>,
)
    requires
        calibrates(archive, shown, narrow, raw, Ok(head)),
    ensures
        head.query == raw.query,
        head.key == raw.key,
        head.temperature == raw.temperature || head.temperature.positive(),
        archive is None ==> head.temperature == raw.temperature,
{
    if archive is Some {
        let bytes = archive->Some_0;
        let out = Ok::<HeadView<N>, Error>(head);
        assert(calibrates_by(bytes, shown, narrow, raw, out));
        let found = choose|found: Result<Option<Scalar>, Error>|
            #[trigger] meta_says(bytes, shown, "temperature"@, found) && match found {
                Err(e) => out == Err::<HeadView<N>, Error>(e),
                Ok(None) => out == Ok::<HeadView<N>, Error>(raw),
                Ok(Some(value)) => scales(narrow, value, raw, out),
            };
        if found is Ok && found->Ok_0 is Some {
            assert(scales(narrow, found->Ok_0->Some_0, raw, out));
        }
    }
}

proof fn lemma_a_projection_read<
    N,
    M: Fn(usize) -> Result<(Vec<N>, usize), Error>,
    V: Fn(usize) -> Result<Vec<N>, Error>,
>(
    list: Seq<Seq<char>>,
    name: Seq<char>,
    shown: Seq<char>,
    matrix: M,
    vector: V,
    read: ProjectionView<N>,
)
    requires
        reads_projection(list, name, shown, matrix, vector, Ok(read)),
    ensures
        only_candidate(list, name + ".weight"@, read.weight),
        only_candidate(list, name + ".bias"@, read.bias),
        exists|rows: (Vec<N>, usize)|
            #[trigger] call_ensures(matrix, (read.weight as usize,), Ok(rows)) && read.linear.weight
                == rows.0@ && read.linear.inputs == rows.1,
        exists|biases: Vec<N>|
            #[trigger] call_ensures(vector, (read.bias as usize,), Ok(biases)) && read.linear.bias
                == biases@,
{
    let out = Ok::<ProjectionView<N>, Error>(read);
    let weight = choose|weight: Result<usize, Error>| #[trigger]
        finds(list, name + ".weight"@, shown, weight) && match weight {
            Err(e) => out == Err::<ProjectionView<N>, Error>(e),
            Ok(weight_at) => exists|bias: Result<usize, Error>| #[trigger]
                finds(list, name + ".bias"@, shown, bias) && match bias {
                    Err(e) => out == Err::<ProjectionView<N>, Error>(e),
                    Ok(bias_at) => projection_at(matrix, vector, weight_at, bias_at, out),
                },
        };
    let weight_at = weight->Ok_0;
    let bias = choose|bias: Result<usize, Error>| #[trigger]
        finds(list, name + ".bias"@, shown, bias) && match bias {
            Err(e) => out == Err::<ProjectionView<N>, Error>(e),
            Ok(bias_at) => projection_at(matrix, vector, weight_at, bias_at, out),
        };
    let bias_at = bias->Ok_0;
    assert(projection_at(matrix, vector, weight_at, bias_at, out));
    let rows = choose|rows: Result<(Vec<N>, usize), Error>| #[trigger]
        call_ensures(matrix, (weight_at,), rows) && match rows {
            Err(e) => out == Err::<ProjectionView<N>, Error>(e),
            Ok((values, inputs)) => exists|row: Result<Vec<N>, Error>| #[trigger]
                call_ensures(vector, (bias_at,), row) && match row {
                    Err(e) => out == Err::<ProjectionView<N>, Error>(e),
                    Ok(biases) => {
                        let linear = LinearView {
                            weight: values@,
                            bias: biases@,
                            inputs: inputs as nat,
                        };
                        if linear.whole() {
                            out == Ok::<ProjectionView<N>, Error>(
                                ProjectionView {
                                    weight: weight_at as int,
                                    bias: bias_at as int,
                                    linear,
                                },
                            )
                        } else {
                            out matches Err(e) && e.is_engine(
                                head::shape_message(values@.len(), biases@.len(), inputs as nat),
                            )
                        }
                    },
                },
        };
    let (values, inputs) = rows->Ok_0;
    let row = choose|row: Result<Vec<N>, Error>| #[trigger]
        call_ensures(vector, (bias_at,), row) && match row {
            Err(e) => out == Err::<ProjectionView<N>, Error>(e),
            Ok(biases) => {
                let linear = LinearView { weight: values@, bias: biases@, inputs: inputs as nat };
                if linear.whole() {
                    out == Ok::<ProjectionView<N>, Error>(
                        ProjectionView { weight: weight_at as int, bias: bias_at as int, linear },
                    )
                } else {
                    out matches Err(e) && e.is_engine(
                        head::shape_message(values@.len(), biases@.len(), inputs as nat),
                    )
                }
            },
        };
    assert(read.weight == weight_at && read.bias == bias_at);
    assert(call_ensures(matrix, (read.weight as usize,), Ok(rows->Ok_0)));
    assert(call_ensures(vector, (read.bias as usize,), Ok(row->Ok_0)));
}

/// A temperature is fitted just where it is above zero, and then it is the one that was saved,
/// with the rest of the head as it was.
pub proof fn law_a_temperature_is_fitted_where_it_is_positive<N, C: Fn(Scalar) -> (Single, String)>(
    narrow: C,
    value: Scalar,
    raw: HeadView<N>,
    out: Result<HeadView<N>, Error>,
)
    requires
        scales(narrow, value, raw, out),
    ensures
        exists|single: (Single, String)| #[trigger]
            call_ensures(narrow, (value,), single) && (out is Ok <==> 0 < single.0.bits
                <= 0x7f80_0000) && (out matches Ok(head) ==> head.temperature == single.0
                && head.query == raw.query && head.key == raw.key),
{
    let single = choose|single: (Single, String)| #[trigger]
        call_ensures(narrow, (value,), single) && if single.0.positive() {
            out == Ok::<HeadView<N>, Error>(HeadView { temperature: single.0, ..raw })
        } else {
            out matches Err(e) && e.is_engine(
                "the pointer head's temperature must be positive, got "@ + single.1@,
            )
        };
    assert(call_ensures(narrow, (value,), single));
}

/// This is why a projection was not read: one of its tensors was not found or could not be read,
/// or what was read of the two is no layer.
pub open spec fn unread<
    N,
    M: Fn(usize) -> Result<(Vec<N>, usize), Error>,
    V: Fn(usize) -> Result<Vec<N>, Error>,
>(
    list: Seq<Seq<char>>,
    name: Seq<char>,
    shown: Seq<char>,
    matrix: M,
    vector: V,
    e: Error,
) -> bool {
    ||| finds(list, name + ".weight"@, shown, Err(e))
    ||| finds(list, name + ".bias"@, shown, Err(e))
    ||| exists|i: usize| #[trigger] call_ensures(matrix, (i,), Err::<(Vec<N>, usize), Error>(e))
    ||| exists|i: usize| #[trigger] call_ensures(vector, (i,), Err::<Vec<N>, Error>(e))
    ||| exists|i: usize, j: usize, rows: (Vec<N>, usize), row: Vec<N>|
        #[trigger] call_ensures(matrix, (i,), Ok::<(Vec<N>, usize), Error>(rows))
            && #[trigger] call_ensures(vector, (j,), Ok::<Vec<N>, Error>(row)) && !(rows.1 > 0
            && row@.len() > 0 && rows.0@.len() == row@.len() * rows.1) && e is Engine
}

proof fn lemma_projection_unread<
    N,
    M: Fn(usize) -> Result<(Vec<N>, usize), Error>,
    V: Fn(usize) -> Result<Vec<N>, Error>,
>(
    list: Seq<Seq<char>>,
    name: Seq<char>,
    shown: Seq<char>,
    matrix: M,
    vector: V,
    e: Error,
)
    requires
        reads_projection(list, name, shown, matrix, vector, Err::<ProjectionView<N>, Error>(e)),
    ensures
        unread::<N, M, V>(list, name, shown, matrix, vector, e),
{
    let out = Err::<ProjectionView<N>, Error>(e);
    let weight = choose|weight: Result<usize, Error>| #[trigger]
        finds(list, name + ".weight"@, shown, weight) && match weight {
            Err(e) => out == Err::<ProjectionView<N>, Error>(e),
            Ok(weight_at) => exists|bias: Result<usize, Error>| #[trigger]
                finds(list, name + ".bias"@, shown, bias) && match bias {
                    Err(e) => out == Err::<ProjectionView<N>, Error>(e),
                    Ok(bias_at) => projection_at(matrix, vector, weight_at, bias_at, out),
                },
        };
    if weight is Ok {
        let weight_at = weight->Ok_0;
        let bias = choose|bias: Result<usize, Error>| #[trigger]
            finds(list, name + ".bias"@, shown, bias) && match bias {
                Err(e) => out == Err::<ProjectionView<N>, Error>(e),
                Ok(bias_at) => projection_at(matrix, vector, weight_at, bias_at, out),
            };
        if bias is Ok {
            let bias_at = bias->Ok_0;
            lemma_tensors_unread::<N, M, V>(matrix, vector, weight_at, bias_at, e);
        }
    }
}

proof fn lemma_tensors_unread<
    N,
    M: Fn(usize) -> Result<(Vec<N>, usize), Error>,
    V: Fn(usize) -> Result<Vec<N>, Error>,
>(matrix: M, vector: V, weight: usize, bias: usize, e: Error)
    requires
        projection_at(matrix, vector, weight, bias, Err::<ProjectionView<N>, Error>(e)),
    ensures
        (exists|i: usize| #[trigger]
            call_ensures(matrix, (i,), Err::<(Vec<N>, usize), Error>(e))) || (exists|i: usize|
         #[trigger] call_ensures(vector, (i,), Err::<Vec<N>, Error>(e))) || (exists|
            i: usize,
            j: usize,
            rows: (Vec<N>, usize),
            row: Vec<N>,
        |
            #[trigger] call_ensures(matrix, (i,), Ok::<(Vec<N>, usize), Error>(rows))
                && #[trigger] call_ensures(vector, (j,), Ok::<Vec<N>, Error>(row)) && !(rows.1 > 0
                && row@.len() > 0 && rows.0@.len() == row@.len() * rows.1) && e is Engine),
{
    let out = Err::<ProjectionView<N>, Error>(e);
    let rows = choose|rows: Result<(Vec<N>, usize), Error>| #[trigger]
        call_ensures(matrix, (weight,), rows) && match rows {
            Err(e) => out == Err::<ProjectionView<N>, Error>(e),
            Ok((values, inputs)) => exists|row: Result<Vec<N>, Error>| #[trigger]
                call_ensures(vector, (bias,), row) && match row {
                    Err(e) => out == Err::<ProjectionView<N>, Error>(e),
                    Ok(biases) => {
                        let linear = LinearView {
                            weight: values@,
                            bias: biases@,
                            inputs: inputs as nat,
                        };
                        if linear.whole() {
                            out == Ok::<ProjectionView<N>, Error>(
                                ProjectionView { weight: weight as int, bias: bias as int, linear },
                            )
                        } else {
                            out matches Err(e) && e.is_engine(
                                head::shape_message(values@.len(), biases@.len(), inputs as nat),
                            )
                        }
                    },
                },
        };
    if rows is Err {
        assert(call_ensures(matrix, (weight,), Err::<(Vec<N>, usize), Error>(e)));
    } else {
        let read = rows->Ok_0;
        let row = choose|row: Result<Vec<N>, Error>| #[trigger]
            call_ensures(vector, (bias,), row) && match row {
                Err(e) => out == Err::<ProjectionView<N>, Error>(e),
                Ok(biases) => {
                    let linear = LinearView {
                        weight: read.0@,
                        bias: biases@,
                        inputs: read.1 as nat,
                    };
                    if linear.whole() {
                        out == Ok::<ProjectionView<N>, Error>(
                            ProjectionView { weight: weight as int, bias: bias as int, linear },
                        )
                    } else {
                        out matches Err(e) && e.is_engine(
                            head::shape_message(read.0@.len(), biases@.len(), read.1 as nat),
                        )
                    }
                },
            };
        assert(call_ensures(matrix, (weight,), Ok::<(Vec<N>, usize), Error>(read)));
        if row is Err {
            assert(call_ensures(vector, (bias,), Err::<Vec<N>, Error>(e)));
        } else {
            assert(call_ensures(vector, (bias,), Ok::<Vec<N>, Error>(row->Ok_0)));
        }
    }
}

/// A head is loaded wherever nothing stands in its way: where it is not, one of its projections
/// could not be read, the file holds a tensor that the readout does not use and was not allowed
/// to, the projections do not match, the metadata beside the tensors could not be read, or the
/// temperature in it is not above zero.
pub proof fn law_a_head_is_refused_only_for_a_reason<
    N,
    M: Fn(usize) -> Result<(Vec<N>, usize), Error>,
    V: Fn(usize) -> Result<Vec<N>, Error>,
    C: Fn(Scalar) -> (Single, String),
>(
    list: Seq<Seq<char>>,
    archive: Option<Seq<u8>>,
    shown: Seq<char>,
    allowed: bool,
    matrix: M,
    vector: V,
    narrow: C,
    e: Error,
)
    requires
        reads_head::<N, M, V, C>(
            list,
            archive,
            shown,
            allowed,
            matrix,
            vector,
            narrow,
            Err(e),
        ),
    ensures
        unread::<N, M, V>(list, "q"@, shown, matrix, vector, e) || unread::<N, M, V>(
            list,
            "k"@,
            shown,
            matrix,
            vector,
            e,
        ) || (!allowed && e is Engine) || (exists|q: LinearView<N>, k: LinearView<N>|
            #![trigger head::matched(q, k)]
            e.is_engine(head::disagreement(q, k)) && (q.inputs != k.inputs || q.bias.len()
                != k.bias.len())) || (archive matches Some(bytes) && (meta_says(
            bytes,
            shown,
            "temperature"@,
            Err(e),
        ) || exists|value: Scalar, single: (Single, String)|
            meta_says(bytes, shown, "temperature"@, Ok(Some(value))) && #[trigger] call_ensures(
                narrow,
                (value,),
                single,
            ) && !(0 < single.0.bits <= 0x7f80_0000) && e is Engine)),
{
    let out = Err::<(HeadView<N>, Option<Seq<char>>), Error>(e);
    let query = choose|query: Result<ProjectionView<N>, Error>| #[trigger]
        reads_projection(list, "q"@, shown, matrix, vector, query) && match query {
            Err(e) => out == Err::<(HeadView<N>, Option<Seq<char>>), Error>(e),
            Ok(q) => exists|key: Result<ProjectionView<N>, Error>| #[trigger]
                reads_projection(list, "k"@, shown, matrix, vector, key) && match key {
                    Err(e) => out == Err::<(HeadView<N>, Option<Seq<char>>), Error>(e),
                    Ok(k) => assembles(list, archive, shown, allowed, narrow, q, k, out),
                },
        };
    if query is Err {
        lemma_projection_unread::<N, M, V>(list, "q"@, shown, matrix, vector, e);
    } else {
        let q = query->Ok_0;
        let key = choose|key: Result<ProjectionView<N>, Error>| #[trigger]
            reads_projection(list, "k"@, shown, matrix, vector, key) && match key {
                Err(e) => out == Err::<(HeadView<N>, Option<Seq<char>>), Error>(e),
                Ok(k) => assembles(list, archive, shown, allowed, narrow, q, k, out),
            };
        if key is Err {
            lemma_projection_unread::<N, M, V>(list, "k"@, shown, matrix, vector, e);
        } else {
            let k = key->Ok_0;
            assert(assembles(list, archive, shown, allowed, narrow, q, k, out));
            let leftover = without(list, consumed_by(list, q, k));
            if (leftover.len() == 0 || allowed) && head::matched(q.linear, k.linear) {
                let raw = HeadView {
                    query: q.linear,
                    key: k.linear,
                    temperature: Single { bits: head::RAW },
                };
                lemma_calibrating_failed(archive, shown, narrow, raw, e);
            }
        }
    }
}

proof fn lemma_calibrating_failed<N, C: Fn(Scalar) -> (Single, String)>(
    archive: Option<Seq<u8>>,
    shown: Seq<char>,
    narrow: C,
    raw: HeadView<N>,
    e: Error,
)
    requires
        calibrates(archive, shown, narrow, raw, Err::<HeadView<N>, Error>(e)),
    ensures
        archive matches Some(bytes) && (meta_says(bytes, shown, "temperature"@, Err(e)) || exists|
            value: Scalar,
            single: (Single, String),
        |
            meta_says(bytes, shown, "temperature"@, Ok(Some(value))) && #[trigger] call_ensures(
                narrow,
                (value,),
                single,
            ) && !(0 < single.0.bits <= 0x7f80_0000) && e is Engine),
{
    let out = Err::<HeadView<N>, Error>(e);
    let bytes = archive->Some_0;
    assert(calibrates_by(bytes, shown, narrow, raw, out));
    let found = choose|found: Result<Option<Scalar>, Error>|
        #[trigger] meta_says(bytes, shown, "temperature"@, found) && match found {
            Err(e) => out == Err::<HeadView<N>, Error>(e),
            Ok(None) => out == Ok::<HeadView<N>, Error>(raw),
            Ok(Some(value)) => scales(narrow, value, raw, out),
        };
    if found is Ok {
        let value = found->Ok_0->Some_0;
        assert(scales(narrow, value, raw, out));
    }
}

/// What is said of a head's tensors names what was sought and what was found.
pub proof fn law_what_was_found_is_named(
    list: Seq<Seq<char>>,
    suffix: Seq<char>,
    shown: Seq<char>,
    first: Seq<char>,
    second: Seq<char>,
)
    ensures
        absent_message(list, suffix, shown) == shown + " has no "@ + suffix + "; it holds "@
            + list_chars(list),
        ambiguous_message(first, second, suffix, shown) == shown + " holds two candidates for "@
            + suffix + ", "@ + error::debug_chars(first) + " and "@ + error::debug_chars(second)
            + ", so which projection reads which hidden state would come down to file order"@,
        list_chars(Seq::empty()) == "["@ + "]"@,
        list_chars(list.push(first)) == "["@ + (if list.len() == 0 {
            Seq::empty()
        } else {
            text::joined(Seq::new(list.len(), |i: int| error::debug_chars(list[i])), ", "@) + ", "@
        }) + error::debug_chars(first) + "]"@,
        text::begins_with(
            leftover_message(list, shown),
            shown + " holds "@ + text::decimal(list.len())
                + " tensor(s) this readout does not use: "@ + list_chars(list),
        ),
{
    let debugged = Seq::new(list.len(), |i: int| error::debug_chars(list[i]));
    let longer = list.push(first);
    assert(Seq::new(longer.len(), |i: int| error::debug_chars(longer[i])) =~= debugged.push(
        error::debug_chars(first),
    ));
    text::lemma_joined_push(debugged, error::debug_chars(first), ", "@);
    assert(Seq::new(0, |i: int| error::debug_chars(Seq::<Seq<char>>::empty()[i])) =~= Seq::<
        Seq<char>,
    >::empty());
    assert(list_chars(Seq::empty()) =~= "["@ + "]"@);
    assert(list_chars(longer) =~= "["@ + (if list.len() == 0 {
        Seq::empty()
    } else {
        text::joined(debugged, ", "@) + ", "@
    }) + error::debug_chars(first) + "]"@);
    let start = shown + " holds "@ + text::decimal(list.len())
        + " tensor(s) this readout does not use: "@ + list_chars(list);
    let rest =
        ". A Kev pointer head is two projections, `q` on the <decide> state and `k` on each </opt>; anything more is structure that would be silently dropped. Set "@
        + ALLOW_UNUSED@ + "=1 to load anyway."@;
    assert(leftover_message(list, shown) =~= start + rest);
    text::law_what_begins_so_goes_on(leftover_message(list, shown), start, rest);
}

/// Of several values that lie equally deep the first that has the number gives it.
pub proof fn law_the_first_of_several_wins(items: Seq<Node>, key: Seq<char>, i: int)
    requires
        0 <= i < items.len(),
        own_number(items[i], key) is Some,
        forall|j: int| 0 <= j < i ==> own_number(#[trigger] items[j], key) is None,
    ensures
        scalar_in(Node::Tuple(items), key) == own_number(items[i], key),
        scalar_in(Node::List(items), key) == own_number(items[i], key),
        scalar_in(items[i], key) == own_number(items[i], key),
{
    lemma_first_among(items, key, i);
    let tuple = Node::Tuple(items);
    let list = Node::List(items);
    lemma_level_one(tuple, items);
    lemma_level_one(list, items);
    lemma_first_number_of_one(tuple, key);
    lemma_first_number_of_one(list, key);
    lemma_first_number_of_one(items[i], key);
    assert(level(tuple, 0) =~= seq![tuple]);
    assert(level(list, 0) =~= seq![list]);
    assert(level(items[i], 0) =~= seq![items[i]]);
    assert(shallowest(tuple, key, 1));
    assert(shallowest(list, key, 1));
    assert(shallowest(items[i], key, 0));
    lemma_shallowest(tuple, key, 1);
    lemma_shallowest(list, key, 1);
    lemma_shallowest(items[i], key, 0);
}

proof fn lemma_level_one(node: Node, items: Seq<Node>)
    requires
        held_in(node) == items,
    ensures
        level(node, 1) == items,
{
    let nodes = level(node, 0);
    assert(nodes.drop_last() =~= Seq::<Node>::empty());
    assert(held_by(Seq::<Node>::empty()) =~= Seq::<Node>::empty());
    assert(nodes.last() == node);
    assert(held_by(nodes) =~= items);
    assert(level(node, 1) == held_by(level(node, 0)));
}

proof fn lemma_first_among(items: Seq<Node>, key: Seq<char>, i: int)
    requires
        0 <= i < items.len(),
        own_number(items[i], key) is Some,
        forall|j: int| 0 <= j < i ==> own_number(#[trigger] items[j], key) is None,
    ensures
        first_number(items, key) == own_number(items[i], key),
{
    let upto = items.take(i + 1);
    lemma_none_among(items.take(i), key);
    assert(upto.drop_last() =~= items.take(i));
    assert(upto.last() == items[i]);
    lemma_first_number(items, key, i + 1);
}

proof fn lemma_none_among(items: Seq<Node>, key: Seq<char>)
    requires
        forall|j: int| 0 <= j < items.len() ==> own_number(#[trigger] items[j], key) is None,
    ensures
        first_number(items, key) is None,
    decreases items.len(),
{
    if items.len() > 0 {
        let fewer = items.drop_last();
        assert forall|j: int| 0 <= j < fewer.len() implies own_number(
            #[trigger] fewer[j],
            key,
        ) is None by {
            assert(fewer[j] == items[j]);
        }
        lemma_none_among(fewer, key);
        assert(own_number(items[items.len() - 1], key) is None);
    }
}

/// A head is handed on as it was read, with what a caller should be warned of, and an error as it
/// is; so is a file's extension.
pub proof fn law_a_head_is_handed_on_as_it_was_read<N>(
    out: Result<(PointerHead<N>, Option<String>), Error>,
    extension: Option<&str>,
)
    ensures
        out matches Ok((head, warning)) ==> (head_of(out) matches Ok((seen, said)) && seen == head@
            && (warning is None <==> said is None) && (warning matches Some(w) ==> said == Some(
            w@,
        ))),
        out matches Err(e) ==> (head_of(out) matches Err(seen) && seen == e),
        extension matches Some(e) ==> extension_chars(extension) == Some(e@),
        extension is None ==> extension_chars(extension) is None,
{
}

} // verus!
