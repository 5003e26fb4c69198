//! What is read of a checkpoint's tensors.
//!
//! A checkpoint is always a base model plus an adapter that is merged into it as
//! it is read. The quietest way to serve the wrong model is to pass over a part of
//! the adapter, so what was read and what was merged is kept account of here, by
//! name.

use vstd::prelude::*;

use crate::error::Error;
use crate::names;
use crate::names::Names;
use crate::text;

verus! {

// ---------------------------------------------------------------------------
// Names
// ---------------------------------------------------------------------------

/// Set to any non-empty value to turn a refusal about tensors that are not used
/// into a warning.
pub const ALLOW_UNUSED: &'static str = "KEV_ALLOW_UNUSED";

/// The base tensor a path stands for.
pub open spec fn base_name(path: Seq<char>) -> Seq<char> {
    "model."@ + path
}

/// The base tensor's weight a path stands for.
pub open spec fn weight_name(path: Seq<char>) -> Seq<char> {
    "model."@ + path + ".weight"@
}

/// What an adapter may call the module at a path: the two prefixes that wrapping
/// a text model produces, in the order they are looked for.
pub open spec fn lora_name(prefix: int, path: Seq<char>, part: Seq<char>) -> Seq<char> {
    (if prefix == 0 {
        "base_model.model."@
    } else {
        "base_model.model.model."@
    }) + path + part
}

/// The base tensor a path stands for.
pub fn base_tensor(path: &str) -> (out: String)
    ensures
        out@ == base_name(path@),
{
    "model.".to_owned().concat(path)
}

/// The names an adapter may hold its two factors for a path under, in the order
/// they are looked for.
pub fn lora_tensors(path: &str) -> (out: [(String, String); 2])
    ensures
        forall|p: int|
            0 <= p < 2 ==> (#[trigger] out@[p]).0@ == lora_name(p, path@, ".lora_A.weight"@)
                && out@[p].1@ == lora_name(p, path@, ".lora_B.weight"@),
{
    let near = "base_model.model.".to_owned().concat(path);
    let far = "base_model.model.model.".to_owned().concat(path);
    let near_a = near.clone().concat(".lora_A.weight");
    let near_b = near.concat(".lora_B.weight");
    let far_a = far.clone().concat(".lora_A.weight");
    let far_b = far.concat(".lora_B.weight");
    [(near_a, near_b), (far_a, far_b)]
}

/// The adapter's delta for a path is the pair under this prefix: the adapter holds its
/// first factor, and none under a prefix that is looked for before.
pub open spec fn merged_under(all: Seq<Seq<char>>, path: Seq<char>, p: int) -> bool {
    &&& 0 <= p < 2
    &&& all.contains(lora_name(p, path, ".lora_A.weight"@))
    &&& forall|q: int|
        0 <= q < p ==> !(#[trigger] all.contains(lora_name(q, path, ".lora_A.weight"@)))
}

/// What is left of a name without the ending of an adapter's factor.
pub open spec fn stem_of(name: Seq<char>) -> Option<Seq<char>> {
    if text::ends_in(name, ".lora_A.weight"@) {
        Some(name.take(name.len() - ".lora_A.weight"@.len()))
    } else if text::ends_in(name, ".lora_B.weight"@) {
        Some(name.take(name.len() - ".lora_B.weight"@.len()))
    } else {
        None
    }
}

/// The base tensor that an adapter's tensor is meant for, where its name is one
/// that an adapter's factor can have.
pub open spec fn target_name(name: Seq<char>) -> Option<Seq<char>> {
    match stem_of(name) {
        Some(stem) => if text::begins_with(stem, "base_model.model.model."@) {
            Some(weight_name(stem.skip("base_model.model.model."@.len() as int)))
        } else if text::begins_with(stem, "base_model.model."@) {
            Some(weight_name(stem.skip("base_model.model."@.len() as int)))
        } else {
            None
        },
        None => None,
    }
}

/// The base tensor a leftover adapter tensor would have been merged into, or
/// `None` when it is not an adapter's factor under a prefix that is known.
pub fn target_of(name: &str) -> (out: Option<String>)
    ensures
        match out {
            Some(target) => target_name(name@) == Some(target@),
            None => target_name(name@) is None,
        },
{
    let stem = match text::strip_suffix(name, ".lora_A.weight") {
        Some(stem) => stem,
        None => match text::strip_suffix(name, ".lora_B.weight") {
            Some(stem) => stem,
            None => {
                return None;
            },
        },
    };
    // The same two prefixes the merge looks under, longest first.
    let path = match text::strip_prefix(stem.as_str(), "base_model.model.model.") {
        Some(path) => path,
        None => match text::strip_prefix(stem.as_str(), "base_model.model.") {
            Some(path) => path,
            None => {
                return None;
            },
        },
    };
    Some("model.".to_owned().concat(path.as_str()).concat(".weight"))
}

/// A name that the merge looks for leads back to the weight it is merged into,
/// under the nearer prefix as long as the path itself does not begin like the
/// farther one.
pub proof fn law_an_adapter_name_leads_back_to_its_weight(path: Seq<char>, prefix: int, first: bool)
    requires
        0 <= prefix < 2,
        prefix == 0 ==> !text::begins_with(path, "model."@),
    ensures
        ({
            let part = if first {
                ".lora_A.weight"@
            } else {
                ".lora_B.weight"@
            };
            target_name(lora_name(prefix, path, part)) == Some(weight_name(path))
        }),
{
    reveal_strlit(".lora_A.weight");
    reveal_strlit(".lora_B.weight");
    reveal_strlit("base_model.model.");
    reveal_strlit("base_model.model.model.");
    reveal_strlit("model.");
    let part = if first {
        ".lora_A.weight"@
    } else {
        ".lora_B.weight"@
    };
    let name = lora_name(prefix, path, part);
    let near = "base_model.model."@;
    let far = "base_model.model.model."@;
    let stem = if prefix == 0 {
        near + path
    } else {
        far + path
    };
    assert(name =~= stem + part);
    assert(name.skip(name.len() - part.len()) =~= part);
    assert(name.take(name.len() - part.len()) =~= stem);
    if !first {
        // The endings differ in the letter of the factor.
        let other = ".lora_A.weight"@;
        let tail = name.skip(name.len() - other.len());
        assert(tail =~= part);
        assert(tail[6] != other[6]);
    }
    assert(stem_of(name) == Some(stem));
    if prefix == 0 {
        assert(stem.take(near.len() as int) =~= near);
        assert(stem.skip(near.len() as int) =~= path);
        if text::begins_with(stem, far) {
            assert(stem.take(far.len() as int) == far);
            assert(path.take(6) =~= "model."@) by {
                assert forall|i: int| 0 <= i < 6 implies path[i] == "model."@[i] by {
                    assert(stem[17 + i] == path[i]);
                    assert(stem.take(far.len() as int)[17 + i] == far[17 + i]);
                }
            }
            assert(text::begins_with(path, "model."@));
        }
    } else {
        assert(stem.take(far.len() as int) =~= far);
        assert(stem.skip(far.len() as int) =~= path);
    }
}

// ---------------------------------------------------------------------------
// Accounts
// ---------------------------------------------------------------------------

/// A few names, and then the count: enough to act on, short enough to read.
pub open spec fn shortened(names: Seq<Seq<char>>) -> Seq<char> {
    if names.len() <= 4 {
        text::joined(names, ", "@)
    } else {
        text::joined(names.take(4), ", "@) + ", and "@ + text::decimal((names.len() - 4) as nat)
            + " more"@
    }
}

/// A few names, and then the count.
pub fn shorten(list: &[String]) -> (out: String)
    ensures
        out@ == shortened(text::views(list@)),
{
    if list.len() <= 4 {
        text::join(list, ", ")
    } else {
        let shown = vstd::slice::slice_subrange(list, 0, 4);
        assert(text::views(shown@) == text::views(list@).take(4));
        let mut out = text::join(shown, ", ");
        out.append(", and ");
        out.append(text::decimal_text(list.len() - 4).as_str());
        out.append(" more");
        out
    }
}

/// What was read of a checkpoint, by name.
#[derive(Debug)]
pub struct Ledger {
    /// Every tensor the adapter holds, so that nothing in it can be passed over
    /// without saying so.
    pub all: Names,
    /// The ones the merge used.
    pub used: Names,
    /// The base tensors that were read, so an adapter's delta for one of them
    /// cannot go unnoticed.
    pub loaded: Names,
}

/// The names of these that were not used and that are, or are not, of this kind.
pub open spec fn leftovers(
    all: Seq<Seq<char>>,
    used: Seq<Seq<char>>,
    loaded: Seq<Seq<char>>,
    ignored: bool,
) -> Seq<Seq<char>>
    decreases all.len(),
{
    if all.len() == 0 {
        Seq::empty()
    } else {
        let before = leftovers(all.drop_last(), used, loaded, ignored);
        let name = all.last();
        if !used.contains(name) && reaches(name, loaded) == ignored {
            before.push(name)
        } else {
            before
        }
    }
}

/// Passing this adapter tensor over can change an answer: it is meant for a weight
/// that is run, or for nothing that is known.
pub open spec fn reaches(name: Seq<char>, loaded: Seq<Seq<char>>) -> bool {
    match target_name(name) {
        Some(target) => loaded.contains(target),
        None => true,
    }
}

/// What is said of adapter tensors that are for nothing that is run.
pub open spec fn unreachable_message(names: Seq<Seq<char>>) -> Seq<char> {
    "the adapter carries "@ + text::decimal(names.len())
        + " tensor(s) for modules this backbone does not run, so they cannot reach an answer: "@
        + shortened(names)
}

/// What is said of adapter tensors that were never applied.
pub open spec fn ignored_message(names: Seq<Seq<char>>) -> Seq<char> {
    "the adapter holds "@ + text::decimal(names.len())
        + " tensor(s) the merge never applied, which would serve a different model than the checkpoint describes: "@
        + shortened(names)
        + ". Either this crate does not implement what the adapter does, or it names its modules differently than peft's `base_model.model.<path>`. Set "@
        + ALLOW_UNUSED@
        + "=1 to load anyway, once you are satisfied those tensors cannot change an answer."@
}

impl Ledger {
    fn split(&self) -> (out: (Vec<String>, Vec<String>))
        ensures
            text::views(out.0@) == leftovers(self.all@, self.used@, self.loaded@, true),
            text::views(out.1@) == leftovers(self.all@, self.used@, self.loaded@, false),
    {
        let mut ignored: Vec<String> = Vec::new();
        let mut unreachable: Vec<String> = Vec::new();
        let all = self.all.list();
        let ghost views = self.all@;
        assert(views.take(0) == Seq::<Seq<char>>::empty());
        assert(text::views(ignored@) == Seq::<Seq<char>>::empty());
        assert(text::views(unreachable@) == Seq::<Seq<char>>::empty());
        for i in 0..all.len()
            invariant
                views == text::views(all@),
                text::views(ignored@) == leftovers(
                    views.take(i as int),
                    self.used@,
                    self.loaded@,
                    true,
                ),
                text::views(unreachable@) == leftovers(
                    views.take(i as int),
                    self.used@,
                    self.loaded@,
                    false,
                ),
        {
            let name = all[i].as_str();
            proof {
                assert(views.take(i + 1).drop_last() == views.take(i as int));
                assert(views.take(i + 1).last() == name@);
            }
            let ghost before_ignored = text::views(ignored@);
            let ghost before_unreachable = text::views(unreachable@);
            if !self.used.contains(name) {
                let runs = match target_of(name) {
                    // A weight that is run, whose delta was never applied, or a
                    // module that is not run and cannot reach an answer.
                    Some(target) => self.loaded.contains(target.as_str()),
                    // No adapter factor at all, or under a prefix nothing here
                    // knows: an adapter that does something else.
                    None => true,
                };
                if runs {
                    ignored.push(name.to_owned());
                    assert(text::views(ignored@) == before_ignored.push(name@));
                } else {
                    unreachable.push(name.to_owned());
                    assert(text::views(unreachable@) == before_unreachable.push(name@));
                }
            }
        }
        assert(views.take(views.len() as int) == views);
        (ignored, unreachable)
    }

    /// Take note that the base tensor at a path is run. What comes back is its name.
    pub fn read(&mut self, path: &str) -> (out: String)
        ensures
            out@ == base_name(path@),
            final(self).all@ == old(self).all@,
            final(self).used@ == old(self).used@,
            names::ascending(final(self).loaded@),
            forall|n: Seq<char>| #[trigger]
                final(self).loaded@.contains(n) <==> old(self).loaded@.contains(n) || n
                    == base_name(path@),
    {
        let name = base_tensor(path);
        let mut loaded = Names::new();
        std::mem::swap(&mut loaded, &mut self.loaded);
        self.loaded = loaded.insert(name.as_str());
        name
    }

    /// Which of the two pairs of names the adapter's delta for a path is merged under:
    /// the first whose first factor the adapter holds. Both names of the pair are noted
    /// as used.
    pub fn merge(&mut self, path: &str) -> (out: Option<usize>)
        ensures
            final(self).all@ == old(self).all@,
            final(self).loaded@ == old(self).loaded@,
            match out {
                Some(p) => {
                    &&& merged_under(old(self).all@, path@, p as int)
                    &&& names::ascending(final(self).used@)
                    &&& forall|n: Seq<char>| #[trigger]
                        final(self).used@.contains(n) <==> old(self).used@.contains(n) || n
                            == lora_name(p as int, path@, ".lora_A.weight"@) || n == lora_name(
                            p as int,
                            path@,
                            ".lora_B.weight"@,
                        )
                },
                None => final(self).used@ == old(self).used@ && forall|p: int|
                    0 <= p < 2 ==> !(#[trigger] old(self).all@.contains(
                        lora_name(p, path@, ".lora_A.weight"@),
                    )),
            },
    {
        let pairs = lora_tensors(path);
        for p in 0..2usize
            invariant
                *self == *old(self),
                forall|q: int|
                    0 <= q < 2 ==> (#[trigger] pairs@[q]).0@ == lora_name(
                        q,
                        path@,
                        ".lora_A.weight"@,
                    ) && pairs@[q].1@ == lora_name(q, path@, ".lora_B.weight"@),
                forall|q: int|
                    0 <= q < p ==> !(#[trigger] old(self).all@.contains(
                        lora_name(q, path@, ".lora_A.weight"@),
                    )),
        {
            assert(pairs@[p as int].0@ == lora_name(p as int, path@, ".lora_A.weight"@));
            if self.all.contains(pairs[p].0.as_str()) {
                let mut used = Names::new();
                std::mem::swap(&mut used, &mut self.used);
                self.used = used.insert(pairs[p].0.as_str()).insert(pairs[p].1.as_str());
                return Some(p);
            }
        }
        None
    }

    /// Refuse a checkpoint whose adapter holds anything the merge passed over,
    /// unless it is `allowed` to. What comes back is what a caller should be warned
    /// of.
    ///
    /// A delta for something that is never read at all cannot change an answer, so
    /// that is a warning rather than a refusal.
    pub fn adapter_fully_merged(&self, allowed: bool) -> (out: Result<Vec<String>, Error>)
        ensures
            ({
                let ignored = leftovers(self.all@, self.used@, self.loaded@, true);
                let unreachable = leftovers(self.all@, self.used@, self.loaded@, false);
                let first = if unreachable.len() > 0 {
                    seq![unreachable_message(unreachable)]
                } else {
                    Seq::empty()
                };
                match out {
                    Ok(warnings) => (ignored.len() == 0 || allowed) && text::views(warnings@)
                        == if ignored.len() > 0 {
                        first.push(ignored_message(ignored))
                    } else {
                        first
                    },
                    Err(e) => ignored.len() > 0 && !allowed && e.is_engine(
                        ignored_message(ignored),
                    ),
                }
            }),
    {
        let (ignored, unreachable) = self.split();
        let mut warnings: Vec<String> = Vec::new();
        assert(text::views(warnings@) == Seq::<Seq<char>>::empty());
        assert(unreachable@.len() == text::views(unreachable@).len());
        assert(ignored@.len() == text::views(ignored@).len());
        let ghost first = if unreachable@.len() > 0 {
            seq![unreachable_message(text::views(unreachable@))]
        } else {
            Seq::empty()
        };
        if unreachable.len() > 0 {
            let mut message = "the adapter carries ".to_owned();
            message.append(text::decimal_text(unreachable.len()).as_str());
            message.append(
                " tensor(s) for modules this backbone does not run, so they cannot reach an answer: ",
            );
            message.append(shorten(unreachable.as_slice()).as_str());
            warnings.push(message);
            assert(text::views(warnings@) == first);
        }
        if ignored.len() > 0 {
            let mut message = "the adapter holds ".to_owned();
            message.append(text::decimal_text(ignored.len()).as_str());
            message.append(
                " tensor(s) the merge never applied, which would serve a different model than the checkpoint describes: ",
            );
            message.append(shorten(ignored.as_slice()).as_str());
            message.append(
                ". Either this crate does not implement what the adapter does, or it names its modules differently than peft's `base_model.model.<path>`. Set ",
            );
            message.append(ALLOW_UNUSED);
            message.append(
                "=1 to load anyway, once you are satisfied those tensors cannot change an answer.",
            );
            if !allowed {
                return Err(Error::Engine(message));
            }
            warnings.push(message);
            assert(text::views(warnings@) == first.push(
                ignored_message(text::views(ignored@)),
            ));
        }
        Ok(warnings)
    }
}

/// Every adapter tensor is merged, passed over where that can change an answer, or
/// passed over where it cannot.
pub proof fn law_no_adapter_tensor_is_lost(
    all: Seq<Seq<char>>,
    used: Seq<Seq<char>>,
    loaded: Seq<Seq<char>>,
    name: Seq<char>,
)
    requires
        all.contains(name),
    ensures
        used.contains(name) || leftovers(all, used, loaded, true).contains(name) || leftovers(
            all,
            used,
            loaded,
            false,
        ).contains(name),
        leftovers(all, used, loaded, true).contains(name) ==> reaches(name, loaded)
            && !used.contains(name),
        leftovers(all, used, loaded, false).contains(name) ==> !reaches(name, loaded)
            && !used.contains(name),
{
    lemma_leftovers_are(all, used, loaded, true, name);
    lemma_leftovers_are(all, used, loaded, false, name);
}

proof fn lemma_leftovers_are(
    all: Seq<Seq<char>>,
    used: Seq<Seq<char>>,
    loaded: Seq<Seq<char>>,
    ignored: bool,
    name: Seq<char>,
)
    ensures
        leftovers(all, used, loaded, ignored).contains(name) <==> all.contains(name)
            && !used.contains(name) && reaches(name, loaded) == ignored,
    decreases all.len(),
{
    if all.len() > 0 {
        let rest = all.drop_last();
        let before = leftovers(rest, used, loaded, ignored);
        let after = leftovers(all, used, loaded, ignored);
        lemma_leftovers_are(rest, used, loaded, ignored, name);
        if all.contains(name) && name != all.last() {
            let i = choose|i: int| 0 <= i < all.len() && all[i] == name;
            assert(rest[i] == name);
        }
        if rest.contains(name) {
            let i = choose|i: int| 0 <= i < rest.len() && rest[i] == name;
            assert(all[i] == name);
        }
        assert(all[all.len() - 1] == all.last());
        if before.contains(name) {
            let i = choose|i: int| 0 <= i < before.len() && before[i] == name;
            assert(after[i] == name);
        }
        if after.len() > before.len() {
            assert(after[before.len() as int] == all.last());
        }
        if after.contains(name) && !before.contains(name) {
            let i = choose|i: int| 0 <= i < after.len() && after[i] == name;
            if i < before.len() {
                assert(before[i] == name);
            }
        }
    }
}

/// Whether a file is one of the shards a model is read from.
pub open spec fn is_shard(name: Seq<char>) -> bool {
    text::ends_in(name, ".safetensors"@) && name.len() > ".safetensors"@.len()
}

/// The shards among these files, in the order they are read in.
pub fn shards(files: &[String], dir_shown: &str) -> (out: Result<Names, Error>)
    ensures
        match out {
            Ok(found) => found@.len() > 0 && names::ascending(found@) && forall|n: Seq<char>|
                #[trigger] found@.contains(n) <==> text::views(files@).contains(n) && is_shard(n),
            Err(e) => (forall|i: int|
                0 <= i < files@.len() ==> !is_shard(#[trigger] text::views(files@)[i]))
                && e.is_engine("no .safetensors in "@ + dir_shown@),
        },
{
    let mut found = Names::new();
    let ghost views = text::views(files@);
    for i in 0..files.len()
        invariant
            views == text::views(files@),
            forall|n: Seq<char>|
                #[trigger] found@.contains(n) <==> views.take(i as int).contains(n) && is_shard(n),
    {
        let name = files[i].as_str();
        let ghost before = found@;
        proof {
            reveal_strlit(".safetensors");
            assert(views[i as int] == name@);
            let seen = views.take(i as int);
            let next = views.take(i + 1);
            assert forall|n: Seq<char>| #[trigger] next.contains(n) <==> seen.contains(n) || n
                == name@ by {
                if seen.contains(n) {
                    let k = choose|k: int| 0 <= k < seen.len() && seen[k] == n;
                    assert(next[k] == n);
                }
                if next.contains(n) {
                    let k = choose|k: int| 0 <= k < next.len() && next[k] == n;
                    if k < i {
                        assert(seen[k] == n);
                    }
                }
                assert(next[i as int] == name@);
            }
        }
        // A name that is nothing but the ending has no ending.
        if text::ends_with(name, ".safetensors") && !text::same_text(name, ".safetensors") {
            proof {
                assert(name@.len() > ".safetensors"@.len()) by {
                    if name@.len() == ".safetensors"@.len() {
                        assert(name@.skip(0) =~= name@);
                    }
                }
            }
            found = found.insert(name);
        }
    }
    assert(views.take(views.len() as int) == views);
    if found.len() == 0 {
        proof {
            assert forall|i: int| 0 <= i < files@.len() implies !is_shard(#[trigger] views[i]) by {
                assert(views.contains(views[i]));
                if is_shard(views[i]) {
                    assert(found@.contains(views[i]));
                }
            }
        }
        return Err(Error::Engine("no .safetensors in ".to_owned().concat(dir_shown)));
    }
    Ok(found)
}

/// What is said of an adapter that carries more than deltas.
pub const TRAINED_TOKENS: &'static str =
    "this adapter carries trained token embeddings, which are not merged here";

/// Refuse an adapter that carries trained token embeddings.
pub fn deltas_only(trained_tokens: bool) -> (out: Result<(), Error>)
    ensures
        out is Err <==> trained_tokens,
        out matches Err(e) ==> e.is_engine(TRAINED_TOKENS@),
{
    if trained_tokens {
        return Err(Error::Engine(TRAINED_TOKENS.to_owned()));
    }
    Ok(())
}

/// Dimensions as a list is written.
pub open spec fn dims_chars(dims: Seq<usize>) -> Seq<char> {
    "["@ + text::joined(Seq::new(dims.len(), |i: int| text::decimal(dims[i] as nat)), ", "@) + "]"@
}

fn dims_text(dims: &[usize]) -> (out: String)
    ensures
        out@ == dims_chars(dims@),
{
    let mut shown: Vec<String> = Vec::new();
    let ghost all = Seq::new(dims@.len(), |i: int| text::decimal(dims@[i] as nat));
    for i in 0..dims.len()
        invariant
            all == Seq::new(dims@.len(), |i: int| text::decimal(dims@[i] as nat)),
            text::views(shown@) == all.take(i as int),
    {
        let ghost before = text::views(shown@);
        let one = text::decimal_text(dims[i]);
        shown.push(one);
        assert(text::views(shown@) =~= before.push(one@));
        assert(all.take(i + 1) =~= all.take(i as int).push(all[i as int]));
    }
    assert(all.take(all.len() as int) == all);
    "[".to_owned().concat(text::join(shown.as_slice(), ", ").as_str()).concat("]")
}

/// What is said of a delta that is not of its weight's shape.
pub open spec fn delta_message(path: Seq<char>, delta: Seq<usize>, weight: Seq<usize>) -> Seq<char> {
    "the adapter's delta for "@ + path + " is "@ + dims_chars(delta) + ", the weight is "@
        + dims_chars(weight)
}

/// A delta is of its weight's shape.
pub fn delta_fits(path: &str, delta: &[usize], weight: &[usize]) -> (out: Result<(), Error>)
    ensures
        out is Ok <==> delta@ == weight@,
        out matches Err(e) ==> e.is_engine(delta_message(path@, delta@, weight@)),
{
    let mut same = delta.len() == weight.len();
    if same {
        for i in 0..delta.len()
            invariant
                delta@.len() == weight@.len(),
                same == forall|j: int| 0 <= j < i ==> delta@[j] == weight@[j],
        {
            same = same && delta[i] == weight[i];
        }
        assert(same == (delta@ =~= weight@));
    }
    if same {
        return Ok(());
    }
    let mut message = "the adapter's delta for ".to_owned();
    message.append(path);
    message.append(" is ");
    message.append(dims_text(delta).as_str());
    message.append(", the weight is ");
    message.append(dims_text(weight).as_str());
    Err(Error::Engine(message))
}

/// A base tensor is its path behind the model's prefix, and an adapter's tensors are that path
/// behind one of the two prefixes that peft writes, each with its own ending.
pub proof fn law_tensors_are_named_by_their_path(path: Seq<char>, part: Seq<char>)
    ensures
        base_name(path) == "model."@ + path,
        weight_name(path) == base_name(path) + ".weight"@,
        lora_name(0, path, part) == "base_model.model."@ + path + part,
        lora_name(1, path, part) == "base_model.model.model."@ + path + part,
{
}

/// A tensor that is no part of a low-rank pair has no weight of its own to go to.
pub proof fn law_only_low_rank_tensors_have_a_target(name: Seq<char>)
    ensures
        !text::ends_in(name, ".lora_A.weight"@) && !text::ends_in(name, ".lora_B.weight"@)
            ==> target_name(name) is None,
        !text::begins_with(name, "base_model.model."@) ==> target_name(name) is None,
{
    reveal_strlit("base_model.model.");
    reveal_strlit("base_model.model.model.");
    reveal_strlit(".lora_A.weight");
    reveal_strlit(".lora_B.weight");
    if target_name(name) is Some {
        let stem = stem_of(name)->Some_0;
        let short = "base_model.model."@;
        let long = "base_model.model.model."@;
        assert(long.take(short.len() as int) =~= short);
        assert(text::begins_with(stem, short)) by {
            if text::begins_with(stem, long) {
                assert(stem.take(short.len() as int) =~= stem.take(long.len() as int).take(
                    short.len() as int,
                ));
            }
        }
        assert(name.take(short.len() as int) =~= stem.take(short.len() as int));
    }
}

/// A tensor reaches an answer where the weight it belongs to was loaded; of one whose weight
/// cannot be told nothing is taken for granted, and it counts as reaching one.
pub proof fn law_a_tensor_reaches_an_answer_through_its_weight(
    path: Seq<char>,
    prefix: int,
    first: bool,
    loaded: Seq<Seq<char>>,
    name: Seq<char>,
)
    requires
        0 <= prefix < 2,
        prefix == 0 ==> !text::begins_with(path, "model."@),
    ensures
        reaches(
            lora_name(
                prefix,
                path,
                if first {
                    ".lora_A.weight"@
                } else {
                    ".lora_B.weight"@
                },
            ),
            loaded,
        ) <==> loaded.contains("model."@ + path + ".weight"@),
        target_name(name) is None ==> reaches(name, loaded),
{
    law_an_adapter_name_leads_back_to_its_weight(path, prefix, first);
}

/// What the merge left over is just what the adapter holds and the merge did not use: refused
/// where it could reach an answer, only warned of where it could not.
pub proof fn law_leftovers_are_what_the_merge_did_not_use(
    all: Seq<Seq<char>>,
    used: Seq<Seq<char>>,
    loaded: Seq<Seq<char>>,
    name: Seq<char>,
)
    ensures
        leftovers(all, used, loaded, true).contains(name) <==> all.contains(name) && !used.contains(
            name,
        ) && reaches(name, loaded),
        leftovers(all, used, loaded, false).contains(name) <==> all.contains(name)
            && !used.contains(name) && !reaches(name, loaded),
{
    lemma_leftovers_are(all, used, loaded, true, name);
    lemma_leftovers_are(all, used, loaded, false, name);
}

/// A pair is merged under the first prefix that the adapter has it under.
pub proof fn law_the_shorter_prefix_goes_first(all: Seq<Seq<char>>, path: Seq<char>)
    ensures
        all.contains("base_model.model."@ + path + ".lora_A.weight"@) ==> merged_under(all, path, 0)
            && !merged_under(all, path, 1),
        !all.contains("base_model.model."@ + path + ".lora_A.weight"@) && all.contains(
            "base_model.model.model."@ + path + ".lora_A.weight"@,
        ) ==> merged_under(all, path, 1) && !merged_under(all, path, 0),
{
    assert(all.contains(lora_name(0, path, ".lora_A.weight"@)) <==> all.contains(
        "base_model.model."@ + path + ".lora_A.weight"@,
    ));
}

/// A list of up to four names is written whole; of a longer one the first four are, and how many
/// more there are.
pub proof fn law_a_long_list_says_how_many_more(names: Seq<Seq<char>>)
    ensures
        names.len() <= 4 ==> shortened(names) == text::joined(names, ", "@),
        names.len() > 4 ==> shortened(names) == text::joined(names.take(4), ", "@) + ", and "@
            + text::decimal((names.len() - 4) as nat) + " more"@,
{
}

/// A shard is a file with something before the safetensors ending.
pub proof fn law_a_shard_has_a_name_before_its_ending(stem: Seq<char>, name: Seq<char>)
    ensures
        is_shard(stem + ".safetensors"@) <==> stem.len() > 0,
        is_shard(name) ==> name == name.take(name.len() - ".safetensors"@.len()) + ".safetensors"@
            && name.len() > ".safetensors"@.len(),
{
    text::law_what_ends_so_began_somehow(name, ".safetensors"@, stem);
}

/// A shape is written as its dimensions in order, between brackets: one dimension more goes behind
/// the others.
pub proof fn law_a_shape_is_written_dimension_by_dimension(dims: Seq<usize>, n: usize)
    ensures
        dims_chars(Seq::empty()) == "["@ + "]"@,
        dims_chars(dims.push(n)) == "["@ + (if dims.len() == 0 {
            Seq::empty()
        } else {
            text::joined(Seq::new(dims.len(), |i: int| text::decimal(dims[i] as nat)), ", "@)
                + ", "@
        }) + text::decimal(n as nat) + "]"@,
{
    let shown = Seq::new(dims.len(), |i: int| text::decimal(dims[i] as nat));
    let longer = dims.push(n);
    assert(Seq::new(longer.len(), |i: int| text::decimal(longer[i] as nat)) =~= shown.push(
        text::decimal(n as nat),
    ));
    text::lemma_joined_push(shown, text::decimal(n as nat), ", "@);
    assert(dims_chars(Seq::empty()) =~= "["@ + "]"@) by {
        assert(text::joined(Seq::<Seq<char>>::empty(), ", "@) =~= Seq::<char>::empty());
        assert(Seq::new(0, |i: int| text::decimal(Seq::<usize>::empty()[i] as nat)) =~= Seq::<
            Seq<char>,
        >::empty());
    }
    assert(dims_chars(longer) =~= "["@ + (if dims.len() == 0 {
        Seq::empty()
    } else {
        text::joined(shown, ", "@) + ", "@
    }) + text::decimal(n as nat) + "]"@);
}

/// What is said of an adapter's tensors counts and names them, and a delta is named with both
/// shapes.
pub proof fn law_what_is_not_merged_is_named(
    names: Seq<Seq<char>>,
    path: Seq<char>,
    delta: Seq<usize>,
    weight: Seq<usize>,
)
    ensures
        unreachable_message(names) == "the adapter carries "@ + text::decimal(names.len())
            + " tensor(s) for modules this backbone does not run, so they cannot reach an answer: "@
            + shortened(names),
        text::begins_with(
            ignored_message(names),
            "the adapter holds "@ + text::decimal(names.len())
                + " tensor(s) the merge never applied, which would serve a different model than the checkpoint describes: "@
                + shortened(names),
        ),
        delta_message(path, delta, weight) == "the adapter's delta for "@ + path + " is "@
            + dims_chars(delta) + ", the weight is "@ + dims_chars(weight),
{
    let start = "the adapter holds "@ + text::decimal(names.len())
        + " tensor(s) the merge never applied, which would serve a different model than the checkpoint describes: "@
        + shortened(names);
    let rest =
        ". Either this crate does not implement what the adapter does, or it names its modules differently than peft's `base_model.model.<path>`. Set "@
        + ALLOW_UNUSED@
        + "=1 to load anyway, once you are satisfied those tensors cannot change an answer."@;
    assert(ignored_message(names) =~= start + rest);
    text::law_what_begins_so_goes_on(ignored_message(names), start, rest);
}

} // verus!
