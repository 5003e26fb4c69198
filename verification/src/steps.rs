//! The steps that a tokenizer takes before and after its model, and which of them can be
//! taken on any text.
//!
//! A tokenizer is read from a file, and not everything that a file can say holds on every
//! text: pieces of no length, a template that names a text there is none of, a pattern
//! whose matches run backwards. So the steps are looked through first.

use tokenizers::normalizers::replace::{Replace, ReplacePattern};
use tokenizers::pre_tokenizers::split::SplitPattern;
use tokenizers::processors::template::{Piece, Sequence, Template};
use tokenizers::{NormalizerWrapper, PostProcessorWrapper, PreTokenizerWrapper};
use vstd::prelude::*;

use crate::text;

verus! {

// ---------------------------------------------------------------------------
// Before: the normalizer
// ---------------------------------------------------------------------------

/// `tokenizers::NormalizerWrapper`: how a text is rewritten.
#[verifier::external_type_specification]
#[verifier::external_body]
pub struct ExNormalizerWrapper(tokenizers::NormalizerWrapper);

/// How a text is rewritten.
pub enum Norm {
    Nfc,
    Nfd,
    Nfkc,
    Nfkd,
    Lowercase,
    ByteLevel,
    Bert,
    Strip,
    StripAccents,
    Nmt,
    Precompiled,
    /// A text is put before it.
    Prepend(Seq<char>),
    /// What is looked for, where it is a text and no regular expression, becomes this.
    Replace(Option<Seq<char>>, Seq<char>),
    /// One after the other.
    Several(Seq<Norm>),
}

/// How a text is rewritten, one level of it.
pub enum NormParts<'a> {
    Nfc,
    Nfd,
    Nfkc,
    Nfkd,
    Lowercase,
    ByteLevel,
    Bert,
    Strip,
    StripAccents,
    Nmt,
    Precompiled,
    Prepend(&'a str),
    Replace(&'a Replace),
    Several(&'a [NormalizerWrapper]),
}

/// `tokenizers::normalizers::replace::Replace`: one text for another.
#[verifier::external_type_specification]
#[verifier::external_body]
pub struct ExReplace(tokenizers::normalizers::replace::Replace);

/// What is looked for, where it is a text and no regular expression, and what it becomes.
pub uninterp spec fn replacing(r: Replace) -> (Option<Seq<char>>, Seq<char>);

/// The fields of a `tokenizers::normalizers::replace::Replace`. It hands what it looks
/// for out in no other way than written down (`serde_json::to_value`), so that is read
/// back.
#[verifier::external_body]
fn replace_parts(r: &Replace) -> (out: (Option<String>, String))
    ensures
        replacing(*r).0 == match out.0 {
            Some(sought) => Some(sought@),
            None => None,
        },
        replacing(*r).1 == out.1@,
{
    let mut written = serde_json::to_value(r).unwrap_or_default();
    let sought = match serde_json::from_value(written["pattern"].take()) {
        Ok(ReplacePattern::String(text)) => Some(text),
        Ok(ReplacePattern::Regex(_)) => None,
        Err(_) => None,
    };
    (sought, r.content.clone())
}

/// How a normalizer rewrites.
pub uninterp spec fn norm(n: NormalizerWrapper) -> Norm;

/// What one level of a normalizer says.
pub open spec fn norm_of(parts: NormParts<'_>) -> Norm {
    match parts {
        NormParts::Nfc => Norm::Nfc,
        NormParts::Nfd => Norm::Nfd,
        NormParts::Nfkc => Norm::Nfkc,
        NormParts::Nfkd => Norm::Nfkd,
        NormParts::Lowercase => Norm::Lowercase,
        NormParts::ByteLevel => Norm::ByteLevel,
        NormParts::Bert => Norm::Bert,
        NormParts::Strip => Norm::Strip,
        NormParts::StripAccents => Norm::StripAccents,
        NormParts::Nmt => Norm::Nmt,
        NormParts::Precompiled => Norm::Precompiled,
        NormParts::Prepend(text) => Norm::Prepend(text@),
        NormParts::Replace(r) => Norm::Replace(replacing(*r).0, replacing(*r).1),
        NormParts::Several(all) => Norm::Several(norms(all@)),
    }
}

/// How normalizers rewrite.
pub open spec fn norms(all: Seq<NormalizerWrapper>) -> Seq<Norm> {
    Seq::new(all.len(), |i: int| norm(all[i]))
}

/// The variants of `tokenizers::NormalizerWrapper` told apart, with what those hold that
/// are looked into: the normalizer is that of its parts.
#[verifier::external_body]
fn norm_parts<'a>(n: &'a NormalizerWrapper) -> (out: NormParts<'a>)
    ensures
        norm_of(out) == norm(*n),
{
    match n {
        NormalizerWrapper::NFC(_) => NormParts::Nfc, NormalizerWrapper::NFD(_) => NormParts::Nfd,
        NormalizerWrapper::NFKC(_) => NormParts::Nfkc,
        NormalizerWrapper::NFKD(_) => NormParts::Nfkd,
        NormalizerWrapper::Lowercase(_) => NormParts::Lowercase,
        NormalizerWrapper::ByteLevel(_) => NormParts::ByteLevel,
        NormalizerWrapper::BertNormalizer(_) => NormParts::Bert,
        NormalizerWrapper::StripNormalizer(_) => NormParts::Strip,
        NormalizerWrapper::StripAccents(_) => NormParts::StripAccents,
        NormalizerWrapper::Nmt(_) => NormParts::Nmt,
        NormalizerWrapper::Precompiled(_) => NormParts::Precompiled,
        NormalizerWrapper::Prepend(before) => NormParts::Prepend(&before.prepend),
        NormalizerWrapper::Replace(r) => NormParts::Replace(r),
        NormalizerWrapper::Sequence(all) => NormParts::Several(all.as_ref()),
    }
}

/// Rewriting so leaves something of every text that is not empty, and keeps track of
/// where it came from. What drops characters may leave nothing of an added token, which
/// would then be found between any two bytes; what looks for nothing, or puts nothing
/// before a text, loses track; and a character map may be malformed.
pub open spec fn calm_norm(n: Norm) -> bool
    decreases n,
{
    match n {
        Norm::Bert | Norm::Strip | Norm::StripAccents | Norm::Nmt | Norm::Precompiled => false,
        Norm::Prepend(text) => text.len() > 0,
        Norm::Replace(sought, becomes) => {
            becomes.len() > 0 && (sought matches Some(text) && text.len() > 0)
        },
        Norm::Several(all) => calm_norms(all),
        _ => true,
    }
}

/// All of these are calm.
pub open spec fn calm_norms(all: Seq<Norm>) -> bool
    decreases all,
{
    if all.len() == 0 {
        true
    } else {
        calm_norms(all.drop_last()) && calm_norm(all.last())
    }
}

/// Whether a normalizer leaves something of every text that is not empty.
pub fn is_calm_norm(n: &NormalizerWrapper) -> (yes: bool)
    ensures
        yes == calm_norm(norm(*n)),
    decreases norm(*n),
{
    match norm_parts(n) {
        NormParts::Prepend(text) => {
            let chars = text::chars_of(text);
            chars.len() > 0
        },
        NormParts::Several(all) => {
            let ghost whole = norms(all@);
            let mut yes = true;
            assert(whole.take(0) =~= Seq::<Norm>::empty());
            for i in 0..all.len()
                invariant
                    norm(*n) == Norm::Several(whole),
                    whole == norms(all@),
                    yes == calm_norms(whole.take(i as int)),
                decreases all@.len() - i,
            {
                proof {
                    let more = whole.take(i + 1);
                    assert(more.drop_last() =~= whole.take(i as int));
                    assert(more.last() == norm(all@[i as int]));
                    assert(decreases_to!(norm(*n) => norm(*n)->Several_0));
                    assert(decreases_to!(whole => whole[i as int]));
                }
                yes = is_calm_norm(&all[i]) && yes;
            }
            assert(whole.take(whole.len() as int) =~= whole);
            yes
        },
        NormParts::Replace(r) => {
            let (sought, becomes) = replace_parts(r);
            let room = text::chars_of(becomes.as_str()).len() > 0;
            match sought {
                Some(text) => {
                    let found = text::chars_of(text.as_str());
                    room && found.len() > 0
                },
                None => false,
            }
        },
        NormParts::Bert | NormParts::Strip | NormParts::StripAccents => false,
        NormParts::Nmt | NormParts::Precompiled => false,
        _ => true,
    }
}

// ---------------------------------------------------------------------------
// Before: the pre-tokenizer
// ---------------------------------------------------------------------------

/// `tokenizers::pre_tokenizers::split::SplitPattern`: what a text is split at.
#[verifier::external_type_specification]
#[verifier::external_body]
pub struct ExSplitPattern(tokenizers::pre_tokenizers::split::SplitPattern);

/// `tokenizers::PreTokenizerWrapper`: how a text is cut into words.
#[verifier::external_type_specification]
#[verifier::external_body]
pub struct ExPreTokenizerWrapper(tokenizers::PreTokenizerWrapper);

/// What a text is split at.
pub enum Pattern {
    Literal,
    Regex(Seq<char>),
}

/// What a text is split at.
pub enum PatternParts<'a> {
    Literal,
    Regex(&'a str),
}

/// What a pattern matches by.
pub uninterp spec fn pattern(p: SplitPattern) -> Pattern;

/// What a pattern's parts say.
pub open spec fn pattern_of(parts: PatternParts<'_>) -> Pattern {
    match parts {
        PatternParts::Literal => Pattern::Literal,
        PatternParts::Regex(r) => Pattern::Regex(r@),
    }
}

/// The variants of `tokenizers::pre_tokenizers::split::SplitPattern` told apart, with the
/// text of a regular expression.
#[verifier::external_body]
fn pattern_parts<'a>(p: &'a SplitPattern) -> (out: PatternParts<'a>)
    ensures
        pattern_of(out) == pattern(*p),
{
    match p {
        SplitPattern::String(_) => PatternParts::Literal,
        SplitPattern::Regex(r) => PatternParts::Regex(r),
    }
}

/// How a text is cut into words.
pub enum Pre {
    Bert,
    ByteLevel,
    Delimiter,
    Metaspace,
    Whitespace,
    Punctuation,
    WhitespaceSplit,
    Digits,
    UnicodeScripts,
    Split(Pattern),
    /// Into pieces of this many characters.
    FixedLength(usize),
    /// One after the other.
    Several(Seq<Pre>),
}

/// How a text is cut into words, one level of it.
pub enum PreParts<'a> {
    Bert,
    ByteLevel,
    Delimiter,
    Metaspace,
    Whitespace,
    Punctuation,
    WhitespaceSplit,
    Digits,
    UnicodeScripts,
    Split(&'a SplitPattern),
    FixedLength(usize),
    Several(&'a [PreTokenizerWrapper]),
}

/// How a pre-tokenizer cuts.
pub uninterp spec fn pre(p: PreTokenizerWrapper) -> Pre;

/// What one level of a pre-tokenizer says.
pub open spec fn pre_of(parts: PreParts<'_>) -> Pre {
    match parts {
        PreParts::Bert => Pre::Bert,
        PreParts::ByteLevel => Pre::ByteLevel,
        PreParts::Delimiter => Pre::Delimiter,
        PreParts::Metaspace => Pre::Metaspace,
        PreParts::Whitespace => Pre::Whitespace,
        PreParts::Punctuation => Pre::Punctuation,
        PreParts::WhitespaceSplit => Pre::WhitespaceSplit,
        PreParts::Digits => Pre::Digits,
        PreParts::UnicodeScripts => Pre::UnicodeScripts,
        PreParts::Split(p) => Pre::Split(pattern(*p)),
        PreParts::FixedLength(n) => Pre::FixedLength(n),
        PreParts::Several(all) => Pre::Several(pres(all@)),
    }
}

/// How pre-tokenizers cut.
pub open spec fn pres(all: Seq<PreTokenizerWrapper>) -> Seq<Pre> {
    Seq::new(all.len(), |i: int| pre(all[i]))
}

/// The variants of `tokenizers::PreTokenizerWrapper` told apart, with the pattern, the
/// length or the parts of those that have any: the pre-tokenizer is that of its parts.
#[verifier::external_body]
fn pre_parts<'a>(p: &'a PreTokenizerWrapper) -> (out: PreParts<'a>)
    ensures
        pre_of(out) == pre(*p),
{
    match p {
        PreTokenizerWrapper::BertPreTokenizer(_) => PreParts::Bert,
        PreTokenizerWrapper::ByteLevel(_) => PreParts::ByteLevel,
        PreTokenizerWrapper::Delimiter(_) => PreParts::Delimiter,
        PreTokenizerWrapper::Metaspace(_) => PreParts::Metaspace,
        PreTokenizerWrapper::Whitespace(_) => PreParts::Whitespace,
        PreTokenizerWrapper::Punctuation(_) => PreParts::Punctuation,
        PreTokenizerWrapper::WhitespaceSplit(_) => PreParts::WhitespaceSplit,
        PreTokenizerWrapper::Digits(_) => PreParts::Digits,
        PreTokenizerWrapper::UnicodeScripts(_) => PreParts::UnicodeScripts,
        PreTokenizerWrapper::Split(split) => PreParts::Split(&split.pattern),
        PreTokenizerWrapper::FixedLength(fixed) => PreParts::FixedLength(fixed.length),
        PreTokenizerWrapper::Sequence(all) => PreParts::Several(all.as_ref()),
    }
}

/// A regular expression refers back to what it matched before here, or moves the start
/// of its match.
pub open spec fn refers_at(r: Seq<char>, i: int) -> bool {
    ||| r[i] == '\\' && i + 1 < r.len() && (r[i + 1] == 'K' || r[i + 1] == 'k' || '0' <= r[i + 1]
        <= '9')
    ||| r[i] == '(' && i + 2 < r.len() && r[i + 1] == '?' && (r[i + 2] == '(' || (r[i + 2] == 'P'
        && i + 3 < r.len() && r[i + 3] == '='))
}

/// A regular expression that matches forward: it refers back nowhere, and starts its
/// match where it began to look.
pub open spec fn forward_only(r: Seq<char>) -> bool {
    forall|i: int| 0 <= i < r.len() ==> !#[trigger] refers_at(r, i)
}

fn is_forward_only(r: &str) -> (yes: bool)
    ensures
        yes == forward_only(r@),
{
    let chars = text::chars_of(r);
    let n: usize = chars.len();
    for i in 0..n
        invariant
            n == chars@.len(),
            chars@ == r@,
            forall|j: int| 0 <= j < i ==> !#[trigger] refers_at(r@, j),
    {
        let c: char = chars[i];
        let escaped = c == '\\' && n - i > 1 && (chars[i + 1] == 'K' || chars[i + 1] == 'k' || (
        '0' <= chars[i + 1] && chars[i + 1] <= '9'));
        let grouped = c == '(' && n - i > 2 && chars[i + 1] == '?' && (chars[i + 2] == '(' || (
        chars[i + 2] == 'P' && n - i > 3 && chars[i + 3] == '='));
        if escaped || grouped {
            assert(refers_at(r@, i as int));
            return false;
        }
    }
    true
}

/// A text can be cut so, whatever it holds.
pub open spec fn calm_pre(p: Pre) -> bool
    decreases p,
{
    match p {
        Pre::Split(Pattern::Regex(r)) => forward_only(r),
        Pre::FixedLength(n) => n > 0,
        Pre::Several(all) => calm_pres(all),
        _ => true,
    }
}

/// All of these are calm.
pub open spec fn calm_pres(all: Seq<Pre>) -> bool
    decreases all,
{
    if all.len() == 0 {
        true
    } else {
        calm_pres(all.drop_last()) && calm_pre(all.last())
    }
}

/// Whether a text can be cut so, whatever it holds.
pub fn is_calm_pre(p: &PreTokenizerWrapper) -> (yes: bool)
    ensures
        yes == calm_pre(pre(*p)),
    decreases pre(*p),
{
    match pre_parts(p) {
        PreParts::Split(at) => match pattern_parts(at) {
            PatternParts::Literal => true,
            PatternParts::Regex(r) => is_forward_only(r),
        },
        PreParts::FixedLength(n) => n > 0,
        PreParts::Several(all) => {
            let ghost whole = pres(all@);
            let mut yes = true;
            assert(whole.take(0) =~= Seq::<Pre>::empty());
            for i in 0..all.len()
                invariant
                    pre(*p) == Pre::Several(whole),
                    whole == pres(all@),
                    yes == calm_pres(whole.take(i as int)),
                decreases all@.len() - i,
            {
                proof {
                    let more = whole.take(i + 1);
                    assert(more.drop_last() =~= whole.take(i as int));
                    assert(more.last() == pre(all@[i as int]));
                    assert(decreases_to!(pre(*p) => pre(*p)->Several_0));
                    assert(decreases_to!(whole => whole[i as int]));
                }
                yes = is_calm_pre(&all[i]) && yes;
            }
            assert(whole.take(whole.len() as int) =~= whole);
            yes
        },
        _ => true,
    }
}

// ---------------------------------------------------------------------------
// After: the post-processor
// ---------------------------------------------------------------------------

/// `tokenizers::processors::template::Template`: what goes where.
#[verifier::external_type_specification]
#[verifier::external_body]
pub struct ExTemplate(tokenizers::processors::template::Template);

/// `tokenizers::PostProcessorWrapper`: what is done with the tokens of a text.
#[verifier::external_type_specification]
#[verifier::external_body]
pub struct ExPostProcessorWrapper(tokenizers::PostProcessorWrapper);

/// What a template puts in a place.
#[derive(Debug, Clone, Copy, PartialEq, Eq, Structural)]
pub enum Place {
    /// The first text.
    First,
    /// The second text.
    Second,
    /// A special token.
    Special,
}

/// What a template puts where, in order.
pub uninterp spec fn places(t: Template) -> Seq<Place>;

/// The pieces of a `tokenizers::processors::template::Template`, in order, each told by
/// what it stands for. A template hands its pieces out in no other way than written down
/// (`serde_json::to_value`), so they are read back from that.
#[verifier::external_body]
fn template_places(t: &Template) -> (out: Vec<Place>)
    ensures
        out@ == places(*t),
{
    let written = serde_json::to_value(t).and_then(serde_json::from_value::<Vec<Piece>>);
    let place = |piece: Piece| match piece {
        Piece::Sequence { id: Sequence::A, .. } => Place::First,
        Piece::Sequence { id: Sequence::B, .. } => Place::Second,
        Piece::SpecialToken { .. } => Place::Special,
    };
    written.unwrap_or_default().into_iter().map(place).collect()
}

/// What is done with the tokens of a text.
pub enum Post {
    Roberta,
    Bert,
    ByteLevel,
    /// They are put into a template: one for a text alone, one for two.
    Template(Seq<Place>, Seq<Place>),
    /// One after the other.
    Several(Seq<Post>),
}

/// What is done with the tokens of a text, one level of it.
pub enum PostParts<'a> {
    Roberta,
    Bert,
    ByteLevel,
    Template(&'a Template, &'a Template),
    Several(&'a [PostProcessorWrapper]),
}

/// What a post-processor does.
pub uninterp spec fn post(p: PostProcessorWrapper) -> Post;

/// What one level of a post-processor says.
pub open spec fn post_of(parts: PostParts<'_>) -> Post {
    match parts {
        PostParts::Roberta => Post::Roberta,
        PostParts::Bert => Post::Bert,
        PostParts::ByteLevel => Post::ByteLevel,
        PostParts::Template(single, pair) => Post::Template(places(*single), places(*pair)),
        PostParts::Several(all) => Post::Several(posts(all@)),
    }
}

/// What post-processors do.
pub open spec fn posts(all: Seq<PostProcessorWrapper>) -> Seq<Post> {
    Seq::new(all.len(), |i: int| post(all[i]))
}

/// The variants of `tokenizers::PostProcessorWrapper` told apart, with the templates or
/// the parts of those that have any: the post-processor is that of its parts.
#[verifier::external_body]
fn post_parts<'a>(p: &'a PostProcessorWrapper) -> (out: PostParts<'a>)
    ensures
        post_of(out) == post(*p),
{
    match p {
        PostProcessorWrapper::Roberta(_) => PostParts::Roberta,
        PostProcessorWrapper::Bert(_) => PostParts::Bert,
        PostProcessorWrapper::ByteLevel(_) => PostParts::ByteLevel,
        PostProcessorWrapper::Template(t) => PostParts::Template(&t.single, t.get_pair()),
        PostProcessorWrapper::Sequence(all) => PostParts::Several(all.as_ref()),
    }
}

/// How many texts these places hold.
pub open spec fn texts_in(places: Seq<Place>) -> nat
    decreases places.len(),
{
    if places.len() == 0 {
        0
    } else if places.last() == Place::Special {
        texts_in(places.drop_last())
    } else {
        texts_in(places.drop_last()) + 1
    }
}

/// How many texts are left of `n` once this is done, or nothing where it cannot be done:
/// a template takes one text or two, and for one text it names no second.
pub open spec fn texts_left(p: Post, n: nat) -> Option<nat>
    decreases p,
{
    match p {
        Post::Template(single, pair) => if n == 1 && !single.contains(Place::Second) {
            Some(texts_in(single))
        } else if n == 2 {
            Some(texts_in(pair))
        } else {
            None
        },
        Post::Several(all) => texts_left_by(all, n),
        _ => Some(n),
    }
}

/// How many texts are left of `n` once all of these are done, one after the other.
pub open spec fn texts_left_by(all: Seq<Post>, n: nat) -> Option<nat>
    decreases all,
{
    if all.len() == 0 {
        Some(n)
    } else {
        match texts_left_by(all.drop_last(), n) {
            Some(left) => texts_left(all.last(), left),
            None => None,
        }
    }
}

/// A number, or nothing.
pub open spec fn number(n: Option<usize>) -> Option<nat> {
    match n {
        Some(n) => Some(n as nat),
        None => None,
    }
}

fn count_texts(places: &[Place]) -> (n: usize)
    ensures
        n == texts_in(places@),
        n <= places@.len(),
{
    let mut n: usize = 0;
    assert(places@.take(0) =~= Seq::<Place>::empty());
    for i in 0..places.len()
        invariant
            n == texts_in(places@.take(i as int)),
            n <= i,
    {
        assert(places@.take(i + 1).drop_last() =~= places@.take(i as int));
        if places[i] != Place::Special {
            n = n + 1;
        }
    }
    assert(places@.take(places@.len() as int) =~= places@);
    n
}

fn names_second(places: &[Place]) -> (yes: bool)
    ensures
        yes == places@.contains(Place::Second),
{
    for i in 0..places.len()
        invariant
            forall|j: int| 0 <= j < i ==> #[trigger] places@[j] != Place::Second,
    {
        if places[i] == Place::Second {
            assert(places@[i as int] == Place::Second);
            return true;
        }
    }
    false
}

/// How many texts are left of `n` once a post-processor is through, or nothing where it
/// cannot take so many.
pub fn texts_after(p: &PostProcessorWrapper, n: usize) -> (out: Option<usize>)
    ensures
        number(out) == texts_left(post(*p), n as nat),
    decreases post(*p),
{
    match post_parts(p) {
        PostParts::Template(single, pair) => {
            let alone = template_places(single);
            let both = template_places(pair);
            if n == 1 && !names_second(alone.as_slice()) {
                Some(count_texts(alone.as_slice()))
            } else if n == 2 {
                Some(count_texts(both.as_slice()))
            } else {
                None
            }
        },
        PostParts::Several(all) => {
            let ghost whole = posts(all@);
            let mut left: usize = n;
            assert(whole.take(0) =~= Seq::<Post>::empty());
            for i in 0..all.len()
                invariant
                    post(*p) == Post::Several(whole),
                    whole == posts(all@),
                    texts_left_by(whole.take(i as int), n as nat) == Some(left as nat),
                decreases all@.len() - i,
            {
                proof {
                    let more = whole.take(i + 1);
                    assert(more.drop_last() =~= whole.take(i as int));
                    assert(more.last() == post(all@[i as int]));
                    assert(decreases_to!(post(*p) => post(*p)->Several_0));
                    assert(decreases_to!(whole => whole[i as int]));
                }
                match texts_after(&all[i], left) {
                    Some(after) => {
                        left = after;
                    },
                    None => {
                        proof {
                            lemma_none_left(whole, n as nat, i + 1);
                        }
                        return None;
                    },
                }
            }
            assert(whole.take(whole.len() as int) =~= whole);
            Some(left)
        },
        _ => Some(n),
    }
}

/// Where the first `k` cannot all be done, neither can all.
proof fn lemma_none_left(all: Seq<Post>, n: nat, k: int)
    requires
        0 <= k <= all.len(),
        texts_left_by(all.take(k), n) is None,
    ensures
        texts_left_by(all, n) is None,
    decreases all.len() - k,
{
    if k < all.len() {
        assert(all.take(k + 1).drop_last() =~= all.take(k));
        lemma_none_left(all, n, k + 1);
    } else {
        assert(all.take(k) =~= all);
    }
}

/// The steps that keep every character somewhere are calm: the Unicode forms, lower case and the
/// byte alphabet always, and a step that puts a text before or in place of another where neither
/// text is empty. The steps that drop characters are not.
pub proof fn law_steps_that_drop_nothing_are_calm(text: Seq<char>, becomes: Seq<char>)
    ensures
        calm_norm(Norm::Nfc),
        calm_norm(Norm::Nfd),
        calm_norm(Norm::Nfkc),
        calm_norm(Norm::Nfkd),
        calm_norm(Norm::Lowercase),
        calm_norm(Norm::ByteLevel),
        calm_norm(Norm::Prepend(text)) <==> text.len() > 0,
        calm_norm(Norm::Replace(Some(text), becomes)) <==> text.len() > 0 && becomes.len() > 0,
        !calm_norm(Norm::Replace(None, becomes)),
        !calm_norm(Norm::Bert),
        !calm_norm(Norm::Strip),
        !calm_norm(Norm::StripAccents),
        !calm_norm(Norm::Nmt),
        !calm_norm(Norm::Precompiled),
{
}

/// Several steps are calm where each of them is.
pub proof fn law_several_steps_are_calm_where_each_is(all: Seq<Norm>, pres: Seq<Pre>)
    ensures
        calm_norm(Norm::Several(all)) <==> forall|i: int|
            0 <= i < all.len() ==> calm_norm(#[trigger] all[i]),
        calm_pre(Pre::Several(pres)) <==> forall|i: int|
            0 <= i < pres.len() ==> calm_pre(#[trigger] pres[i]),
{
    lemma_calm_norms(all);
    lemma_calm_pres(pres);
}

proof fn lemma_calm_norms(all: Seq<Norm>)
    ensures
        calm_norms(all) <==> forall|i: int| 0 <= i < all.len() ==> calm_norm(#[trigger] all[i]),
    decreases all.len(),
{
    if all.len() > 0 {
        let fewer = all.drop_last();
        lemma_calm_norms(fewer);
        if calm_norms(all) {
            assert forall|i: int| 0 <= i < all.len() implies calm_norm(#[trigger] all[i]) by {
                if i < fewer.len() {
                    assert(fewer[i] == all[i]);
                }
            }
        }
        if forall|i: int| 0 <= i < all.len() ==> calm_norm(#[trigger] all[i]) {
            assert forall|i: int| 0 <= i < fewer.len() implies calm_norm(#[trigger] fewer[i]) by {
                assert(fewer[i] == all[i]);
            }
            assert(calm_norm(all[all.len() - 1]));
        }
    }
}

proof fn lemma_calm_pres(all: Seq<Pre>)
    ensures
        calm_pres(all) <==> forall|i: int| 0 <= i < all.len() ==> calm_pre(#[trigger] all[i]),
    decreases all.len(),
{
    if all.len() > 0 {
        let fewer = all.drop_last();
        lemma_calm_pres(fewer);
        if calm_pres(all) {
            assert forall|i: int| 0 <= i < all.len() implies calm_pre(#[trigger] all[i]) by {
                if i < fewer.len() {
                    assert(fewer[i] == all[i]);
                }
            }
        }
        if forall|i: int| 0 <= i < all.len() ==> calm_pre(#[trigger] all[i]) {
            assert forall|i: int| 0 <= i < fewer.len() implies calm_pre(#[trigger] fewer[i]) by {
                assert(fewer[i] == all[i]);
            }
            assert(calm_pre(all[all.len() - 1]));
        }
    }
}

/// A text may be split in any way but two: into pieces of no length, and by an expression that
/// refers back to what it has matched.
pub proof fn law_splitting_is_calm_but_for_two_ways(p: Pre)
    ensures
        p is Bert || p is ByteLevel || p is Delimiter || p is Metaspace || p is Whitespace || p
            is Punctuation || p is WhitespaceSplit || p is Digits || p is UnicodeScripts ==> calm_pre(
            p,
        ),
        p matches Pre::FixedLength(n) ==> (calm_pre(p) <==> n > 0),
        p == Pre::Split(Pattern::Literal) ==> calm_pre(p),
        p matches Pre::Split(Pattern::Regex(r)) ==> (calm_pre(p) <==> forward_only(r)),
{
}

/// An expression without a backslash before a digit, a `k` or a `K`, and without a condition or a
/// named reference, refers to nothing it has matched; one with any of these does.
pub proof fn law_an_expression_looks_forward_without_references(r: Seq<char>, i: int)
    requires
        0 <= i,
        i + 2 < r.len(),
    ensures
        r[i] == '\\' && (r[i + 1] == 'k' || r[i + 1] == 'K' || '0' <= r[i + 1] <= '9')
            ==> !forward_only(r),
        r[i] == '(' && r[i + 1] == '?' && r[i + 2] == '(' ==> !forward_only(r),
        (forall|j: int| 0 <= j < r.len() ==> #[trigger] r[j] != '\\' && r[j] != '?')
            ==> forward_only(r),
{
    if r[i] == '\\' && (r[i + 1] == 'k' || r[i + 1] == 'K' || '0' <= r[i + 1] <= '9') {
        assert(refers_at(r, i));
    }
    if r[i] == '(' && r[i + 1] == '?' && r[i + 2] == '(' {
        assert(refers_at(r, i));
    }
}

/// A step that comes last leaves one text as one, but for a template, which leaves as many as it
/// names, and is taken only where it names no second.
pub proof fn law_a_template_leaves_the_texts_it_names(p: Post, n: nat)
    ensures
        p is Roberta || p is Bert || p is ByteLevel ==> texts_left(p, n) == Some(n),
        p matches Post::Template(single, _) ==> (texts_left(p, 1) is Some <==> !single.contains(
            Place::Second,
        )),
        p matches Post::Template(single, _) ==> !single.contains(Place::Second) ==> texts_left(p, 1)
            == Some(texts_in(single)),
{
}

/// The texts that a template names are all its places but the special tokens.
pub proof fn law_a_template_names_texts_between_special_tokens(places: Seq<Place>, place: Place)
    ensures
        texts_in(Seq::empty()) == 0,
        texts_in(places.push(place)) == texts_in(places) + if place == Place::Special {
            0int
        } else {
            1
        },
{
    assert(places.push(place).drop_last() =~= places);
}

} // verus!
