//! The tokenizer a checkpoint is read with.

use tokenizers::{NormalizerWrapper, PostProcessorWrapper, PreTokenizerWrapper, Tokenizer};
use vstd::prelude::*;

use crate::error::Error;
use crate::steps;
use crate::steps::{Norm, Post, Pre};

verus! {

/// `tokenizers::Tokenizer`: text to token ids.
#[verifier::external_type_specification]
#[verifier::external_body]
pub struct ExTokenizer(tokenizers::Tokenizer);

/// The tokens that a tokenizer has an id for, with their ids.
pub uninterp spec fn vocabulary(t: Tokenizer) -> Map<Seq<char>, u32>;

/// A tokenizer cuts long texts.
pub uninterp spec fn truncates(t: Tokenizer) -> bool;

/// A tokenizer fills short texts up.
pub uninterp spec fn pads(t: Tokenizer) -> bool;

/// A tokenizer splits a special token in a text like other text.
pub uninterp spec fn splits(t: Tokenizer) -> bool;

/// `Tokenizer::token_to_id`: the id of this very token, where the vocabulary or the
/// tokens added to it hold it.
#[verifier::external_body]
fn token_id(t: &Tokenizer, token: &str) -> (id: Option<u32>)
    ensures
        id is Some <==> vocabulary(*t).dom().contains(token@),
        id matches Some(n) ==> n == vocabulary(*t)[token@],
{
    t.token_to_id(token)
}

/// A tokenizer's model is a byte pair encoding with a dropout: merges may be left out
/// by chance, so that two calls on one text may differ.
pub uninterp spec fn chancy(t: Tokenizer) -> bool;

/// `Tokenizer::get_model`, and whether it is a byte pair encoding that has a dropout.
/// Models of other kinds have none.
#[verifier::external_body]
fn has_dropout(t: &Tokenizer) -> (yes: bool)
    ensures
        yes == chancy(*t),
{
    match t.get_model() {
        tokenizers::ModelWrapper::BPE(model) => model.dropout.is_some(),
        _ => false,
    }
}

/// Whether a tokenizer may leave merges out by chance, so that the text alone does not
/// fix its token ids.
pub fn is_chancy(t: &Tokenizer) -> (yes: bool)
    ensures
        yes == chancy(*t),
{
    has_dropout(t)
}

// ---------------------------------------------------------------------------
// The steps of a tokenizer
// ---------------------------------------------------------------------------

/// How a tokenizer rewrites a text, if it does.
pub uninterp spec fn normalizer_in(t: Tokenizer) -> Option<Norm>;

/// How a tokenizer cuts a text into words, if it does.
pub uninterp spec fn pre_tokenizer_in(t: Tokenizer) -> Option<Pre>;

/// What a tokenizer does with the tokens of a text, if anything.
pub uninterp spec fn post_processor_in(t: Tokenizer) -> Option<Post>;

/// Of every token that was added to a tokenizer's vocabulary, whether it takes the white
/// space on its left with it, and that on its right.
pub uninterp spec fn strips(t: Tokenizer) -> Set<(bool, bool)>;

/// The added tokens are looked for as the tokenizer's own normalizer rewrites them.
pub uninterp spec fn matched(t: Tokenizer) -> bool;

/// `Tokenizer::get_normalizer`: how a text is rewritten, if it is.
#[verifier::external_body]
fn normalizer(t: &Tokenizer) -> (out: Option<&NormalizerWrapper>)
    ensures
        normalizer_in(*t) == match out {
            Some(n) => Some(steps::norm(*n)),
            None => None,
        },
{
    t.get_normalizer()
}

/// `Tokenizer::get_pre_tokenizer`: how a text is cut into words, if it is.
#[verifier::external_body]
fn pre_tokenizer(t: &Tokenizer) -> (out: Option<&PreTokenizerWrapper>)
    ensures
        pre_tokenizer_in(*t) == match out {
            Some(p) => Some(steps::pre(*p)),
            None => None,
        },
{
    t.get_pre_tokenizer()
}

/// `Tokenizer::get_post_processor`: what is done with the tokens of a text, if anything.
#[verifier::external_body]
fn post_processor(t: &Tokenizer) -> (out: Option<&PostProcessorWrapper>)
    ensures
        post_processor_in(*t) == match out {
            Some(p) => Some(steps::post(*p)),
            None => None,
        },
{
    t.get_post_processor()
}

/// `Tokenizer::get_added_tokens_decoder`, of which it is kept how each token treats the
/// white space around it. The contract leaves open in which order they come.
#[verifier::external_body]
fn added_strips(t: &Tokenizer) -> (out: Vec<(bool, bool)>)
    ensures
        forall|s: (bool, bool)|
            #![trigger strips(*t).contains(s)]
            #![trigger out@.contains(s)]
            strips(*t).contains(s) <==> out@.contains(s),
{
    t.get_added_tokens_decoder().values().map(|a| (a.lstrip, a.rstrip)).collect()
}

/// `Tokenizer::add_tokens` with none: the added tokens are rewritten anew, with the
/// normalizer that there is. Everything else stays as it is. A normalizer that may leave
/// nothing of a token, or fail on one, is left out.
#[verifier::external_body]
fn match_anew(t: &mut Tokenizer)
    requires
        normalizer_in(*old(t)) matches Some(n) ==> steps::calm_norm(n),
    ensures
        matched(*final(t)),
        same_steps(*final(t), *old(t)),
        truncates(*final(t)) == truncates(*old(t)),
        pads(*final(t)) == pads(*old(t)),
        splits(*final(t)) == splits(*old(t)),
        vocabulary(*final(t)) == vocabulary(*old(t)),
        chancy(*final(t)) == chancy(*old(t)),
{
    t.add_tokens(&[]);
}

/// Two tokenizers take the same steps.
pub open spec fn same_steps(a: Tokenizer, b: Tokenizer) -> bool {
    &&& normalizer_in(a) == normalizer_in(b)
    &&& pre_tokenizer_in(a) == pre_tokenizer_in(b)
    &&& post_processor_in(a) == post_processor_in(b)
    &&& strips(a) == strips(b)
}

/// A tokenizer's steps can be taken on any text: its normalizer and its pre-tokenizer
/// are calm, its post-processor can take a text alone, and its added tokens do not take
/// white space from each other.
pub open spec fn calm(t: Tokenizer) -> bool {
    &&& normalizer_in(t) matches Some(n) ==> steps::calm_norm(n)
    &&& pre_tokenizer_in(t) matches Some(p) ==> steps::calm_pre(p)
    &&& post_processor_in(t) matches Some(p) ==> steps::texts_left(p, 1) is Some
    &&& forall|left: (bool, bool), right: (bool, bool)|
        #[trigger] strips(t).contains(left) && #[trigger] strips(t).contains(right) ==> !(left.0
            && right.1)
}

/// A tokenizer that can be handed any text: its steps are calm, it looks for its added
/// tokens as they are rewritten, and it neither cuts texts nor fills them up.
pub open spec fn steady(t: Tokenizer) -> bool {
    calm(t) && matched(t) && !truncates(t) && !pads(t)
}

fn keeps_apart(strips: &Vec<(bool, bool)>) -> (yes: bool)
    ensures
        yes == forall|left: (bool, bool), right: (bool, bool)|
            #[trigger] strips@.contains(left) && #[trigger] strips@.contains(right) ==> !(left.0
                && right.1),
{
    let mut left: Option<usize> = None;
    let mut right: Option<usize> = None;
    for i in 0..strips.len()
        invariant
            left matches Some(at) ==> at < strips@.len() && strips@[at as int].0,
            right matches Some(at) ==> at < strips@.len() && strips@[at as int].1,
            left is None ==> forall|j: int| 0 <= j < i ==> !(#[trigger] strips@[j]).0,
            right is None ==> forall|j: int| 0 <= j < i ==> !(#[trigger] strips@[j]).1,
    {
        if strips[i].0 {
            left = Some(i);
        }
        if strips[i].1 {
            right = Some(i);
        }
    }
    match (left, right) {
        (Some(a), Some(b)) => {
            assert(strips@.contains(strips@[a as int]));
            assert(strips@.contains(strips@[b as int]));
            false
        },
        _ => true,
    }
}

/// Whether a tokenizer's steps can be taken on any text.
pub fn is_calm(t: &Tokenizer) -> (yes: bool)
    ensures
        yes == calm(*t),
{
    let rewrites = match normalizer(t) {
        Some(n) => steps::is_calm_norm(n),
        None => true,
    };
    let cuts = match pre_tokenizer(t) {
        Some(p) => steps::is_calm_pre(p),
        None => true,
    };
    let ends = match post_processor(t) {
        Some(p) => steps::texts_after(p, 1).is_some(),
        None => true,
    };
    let stripped = added_strips(t);
    rewrites && cuts && ends && keeps_apart(&stripped)
}

// ---------------------------------------------------------------------------
// Tokenising
// ---------------------------------------------------------------------------

/// The token ids of a text, without special tokens added, or nothing where the text
/// cannot be tokenised.
pub uninterp spec fn encoded(t: Tokenizer, text: Seq<char>) -> Option<Seq<u32>>;

/// `Tokenizer::encode` without special tokens added, of which the ids are kept. The
/// contract gives them a name where the tokenizer leaves nothing to chance (its
/// model has no dropout), and leaves open how a failure is worded. Of a tokenizer
/// that does, nothing is promised. Tokenizers whose steps panic on some text are left
/// out, and so are those that cut texts or fill them up, which panic where the stride is
/// not below the length or where there is more to fill up than there is room for.
#[verifier::external_body]
fn encode_ids(t: &Tokenizer, text: &str) -> (out: Result<Vec<u32>, String>)
    requires
        steady(*t),
    ensures
        !chancy(*t) ==> match out {
            Ok(ids) => encoded(*t, text@) == Some(ids@),
            Err(_) => encoded(*t, text@) is None,
        },
{
    match t.encode(text, false) {
        Ok(encoded) => Ok(encoded.get_ids().to_vec()),
        Err(e) => Err(e.to_string()),
    }
}

/// `Tokenizer::with_truncation` with nothing, which always succeeds: texts are not
/// cut. Everything else stays as it is.
#[verifier::external_body]
fn without_truncation(t: &mut Tokenizer)
    ensures
        !truncates(*final(t)),
        pads(*final(t)) == pads(*old(t)),
        splits(*final(t)) == splits(*old(t)),
        vocabulary(*final(t)) == vocabulary(*old(t)),
        same_steps(*final(t), *old(t)),
        matched(*final(t)) == matched(*old(t)),
        chancy(*final(t)) == chancy(*old(t)),
{
    t.with_truncation(None).ok();
}

/// `Tokenizer::with_padding` with nothing: texts are not filled up. Everything else
/// stays as it is.
#[verifier::external_body]
fn without_padding(t: &mut Tokenizer)
    ensures
        !pads(*final(t)),
        truncates(*final(t)) == truncates(*old(t)),
        splits(*final(t)) == splits(*old(t)),
        vocabulary(*final(t)) == vocabulary(*old(t)),
        same_steps(*final(t), *old(t)),
        matched(*final(t)) == matched(*old(t)),
        chancy(*final(t)) == chancy(*old(t)),
{
    t.with_padding(None);
}

/// `Tokenizer::set_encode_special_tokens`: whether a special token in a text is
/// split like other text rather than matched. Everything else stays as it is.
#[verifier::external_body]
fn split_special_tokens(t: &mut Tokenizer, split: bool)
    ensures
        splits(*final(t)) == split,
        truncates(*final(t)) == truncates(*old(t)),
        pads(*final(t)) == pads(*old(t)),
        vocabulary(*final(t)) == vocabulary(*old(t)),
        same_steps(*final(t), *old(t)),
        matched(*final(t)) == matched(*old(t)),
        chancy(*final(t)) == chancy(*old(t)),
{
    t.set_encode_special_tokens(split);
}

/// What is said of a tokenizer whose steps cannot be taken on every text.
pub const UNSTEADY: &'static str =
    "this tokenizer has a normalizer, a pre-tokenizer, a post-processor or added tokens that do not hold on every text, so it is not one Kev can use";

/// Make a tokenizer read text as a checkpoint was trained, whatever its file says:
/// truncation and padding are turned off, and a special token that appears in the
/// text is matched rather than split. Two of those would otherwise be inherited
/// from `tokenizer.json`, which is a difference in the token ids. A tokenizer whose steps
/// cannot be taken on every text is refused, and left as it is.
pub fn prepare(t: &mut Tokenizer) -> (out: Result<(), Error>)
    ensures
        match out {
            Ok(()) => {
                &&& calm(*old(t))
                &&& steady(*final(t))
                &&& !splits(*final(t))
                &&& same_steps(*final(t), *old(t))
            },
            Err(e) => !calm(*old(t)) && *final(t) == *old(t) && e.is_engine(UNSTEADY@),
        },
        vocabulary(*final(t)) == vocabulary(*old(t)),
        chancy(*final(t)) == chancy(*old(t)),
{
    if !is_calm(t) {
        return Err(Error::Engine(UNSTEADY.to_owned()));
    }
    match_anew(t);
    without_truncation(t);
    without_padding(t);
    split_special_tokens(t, false);
    Ok(())
}

/// What is said of a tokenizer that lacks a delimiter.
pub open spec fn unusable_message(token: Seq<char>) -> Seq<char> {
    "this tokenizer has no "@ + token + ", so it is not a Qwen tokenizer Kev can use"@
}

/// The id of one of the five delimiters.
pub fn delimiter(t: &Tokenizer, token: &str) -> (out: Result<u32, Error>)
    ensures
        match out {
            Ok(id) => vocabulary(*t).dom().contains(token@) && id == vocabulary(*t)[token@],
            Err(e) => !vocabulary(*t).dom().contains(token@) && e.is_engine(
                unusable_message(token@),
            ),
        },
{
    match token_id(t, token) {
        Some(id) => Ok(id),
        None => {
            let message = "this tokenizer has no ".to_owned().concat(token).concat(
                ", so it is not a Qwen tokenizer Kev can use",
            );
            Err(Error::Engine(message))
        },
    }
}

/// Token ids for a piece of caller text.
///
/// Never with special tokens: the delimiters are added by the layout, and caller
/// text has been escaped so it cannot produce one.
pub fn tokenise(t: &Tokenizer, text: &str) -> (out: Result<Vec<u32>, Error>)
    requires
        steady(*t),
    ensures
        !chancy(*t) ==> match out {
            Ok(ids) => encoded(*t, text@) == Some(ids@),
            Err(_) => encoded(*t, text@) is None,
        },
        out matches Err(e) ==> e matches Error::Engine(m) && crate::checkpoint::led_by(
            m@,
            "cannot tokenise: "@,
        ),
{
    match encode_ids(t, text) {
        Ok(ids) => Ok(ids),
        Err(e) => {
            let message = "cannot tokenise: ".to_owned().concat(e.as_str());
            assert(message@ == "cannot tokenise: "@ + e@);
            Err(Error::Engine(message))
        },
    }
}

/// A tokenizer is steady where nothing it does drops or joins characters unseen: every step of it
/// is calm, no added token strips what another one strips from the other side, and it neither cuts
/// nor fills.
pub proof fn law_a_steady_tokenizer_drops_nothing(t: Tokenizer)
    ensures
        steady(t) ==> !truncates(t) && !pads(t) && matched(t) && calm(t),
        calm(t) && matched(t) && !truncates(t) && !pads(t) ==> steady(t),
        calm(t) ==> (normalizer_in(t) matches Some(n) ==> steps::calm_norm(n)),
        calm(t) ==> (pre_tokenizer_in(t) matches Some(p) ==> steps::calm_pre(p)),
{
}

/// A tokenizer with calm steps, whose added tokens strip nothing, is calm.
pub proof fn law_a_tokenizer_with_calm_steps_is_calm(t: Tokenizer)
    requires
        normalizer_in(t) matches Some(n) ==> steps::calm_norm(n),
        pre_tokenizer_in(t) matches Some(p) ==> steps::calm_pre(p),
        post_processor_in(t) matches Some(p) ==> steps::texts_left(p, 1) is Some,
        forall|s: (bool, bool)| #[trigger] strips(t).contains(s) ==> !s.0 && !s.1,
    ensures
        calm(t),
{
}

} // verus!
