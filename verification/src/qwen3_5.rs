//! The hybrid Qwen3.5 bases, attention mixed with a linear recurrence: what their
//! configs must say, what their tensors are called, and how a recurrent layer's
//! channels are laid out.

use vstd::prelude::*;

use crate::error;
use crate::error::Error;
use crate::number::Real;
use crate::qwen3;
use crate::qwen3::RopeParameters;
use crate::text;

verus! {

/// How much of each head is rotated when a config does not say: a quarter, by its
/// bits.
pub const DEFAULT_PARTIAL_ROTARY_FACTOR: u64 = 0x3fd0_0000_0000_0000;

/// What a recurrent layer is called in a config.
pub const RECURRENT: &'static str = "linear_attention";

/// What an attention layer is called in a config.
pub const FULL: &'static str = "full_attention";

/// The parts of a Qwen3.5 `config.json` a backbone needs.
#[derive(Debug)]
pub struct Config {
    pub hidden_size: usize,
    pub intermediate_size: usize,
    pub num_hidden_layers: usize,
    pub num_attention_heads: usize,
    pub num_key_value_heads: usize,
    pub head_dim: Option<usize>,
    pub rms_norm_eps: Real,
    pub vocab_size: usize,
    /// One per layer. Without it there is nothing to tell the two kinds of layer
    /// apart.
    pub layer_types: Vec<String>,
    /// The shapes of the recurrent layers.
    pub linear_conv_kernel_dim: usize,
    pub linear_key_head_dim: usize,
    pub linear_value_head_dim: usize,
    pub linear_num_key_heads: usize,
    pub linear_num_value_heads: usize,
    pub rope_theta: Option<Real>,
    pub rope_parameters: Option<RopeParameters>,
    pub rope_scaling: Option<RopeParameters>,
    pub attention_bias: bool,
}

/// The length of the convolution when a config does not say.
pub fn four() -> (n: usize)
    ensures
        n == 4,
{
    4
}

/// How many key heads there are when a config does not say.
pub fn sixteen() -> (n: usize)
    ensures
        n == 16,
{
    16
}

/// How many value heads there are when a config does not say.
pub fn thirty_two() -> (n: usize)
    ensures
        n == 32,
{
    32
}

/// How wide a recurrent head is when a config does not say.
pub fn one_twenty_eight() -> (n: usize)
    ensures
        n == 128,
{
    128
}

/// Some layer is recurrent.
pub open spec fn recurrent_among(types: Seq<String>) -> bool {
    exists|i: int| 0 <= i < types.len() && (#[trigger] types[i])@ == RECURRENT@
}

/// Whether some layer is recurrent, which is what forces the row form. A config
/// that names no layer kinds has none.
pub fn any_recurrent(types: &[String]) -> (yes: bool)
    ensures
        yes == recurrent_among(types@),
{
    for i in 0..types.len()
        invariant
            forall|j: int| 0 <= j < i ==> (#[trigger] types@[j])@ != RECURRENT@,
    {
        if text::same_text(types[i].as_str(), RECURRENT) {
            assert(types@[i as int]@ == RECURRENT@);
            return true;
        }
    }
    false
}

/// A kind of layer that is implemented.
pub open spec fn known_kind(kind: Seq<char>) -> bool {
    kind == FULL@ || kind == RECURRENT@
}

/// The first layer whose kind is not implemented.
pub open spec fn first_unknown(types: Seq<String>, at: int) -> bool {
    &&& 0 <= at < types.len()
    &&& !known_kind(types[at]@)
    &&& forall|i: int| 0 <= i < at ==> known_kind((#[trigger] types[i])@)
}

/// Every layer's kind is implemented.
pub open spec fn all_known(types: Seq<String>) -> bool {
    forall|i: int| 0 <= i < types.len() ==> known_kind((#[trigger] types[i])@)
}

impl Config {
    /// Everything a config is refused for before its heads are counted.
    pub open spec fn plain(self) -> bool {
        &&& self.layer_types@.len() == self.num_hidden_layers
        &&& all_known(self.layer_types@)
        &&& qwen3::original_rope(self.rope_parameters)
        &&& qwen3::original_rope(self.rope_scaling)
        &&& !self.attention_bias
        &&& self.linear_conv_kernel_dim >= 2
    }

    /// The config is one that a backbone runs.
    pub open spec fn runs(self) -> bool {
        &&& self.plain()
        &&& self.num_attention_heads % self.num_key_value_heads == 0
        &&& self.linear_num_value_heads % self.linear_num_key_heads == 0
    }

    /// Why a config is refused, by the first thing that is wrong with it.
    pub open spec fn refused(self, e: Error) -> bool {
        if self.layer_types@.len() != self.num_hidden_layers {
            e.is_engine(
                text::decimal(self.layer_types@.len()) + " layer types for "@ + text::decimal(
                    self.num_hidden_layers as nat,
                ) + " layers"@,
            )
        } else if !all_known(self.layer_types@) {
            exists|at: int|
                #[trigger] first_unknown(self.layer_types@, at) && e.is_engine(
                    "unknown layer type "@ + error::debug_chars(self.layer_types@[at]@),
                )
        } else if !qwen3::original_rope(self.rope_parameters) {
            e.is_engine(qwen3::rope_message(self.rope_parameters->0.kind_chars()))
        } else if !qwen3::original_rope(self.rope_scaling) {
            e.is_engine(qwen3::rope_message(self.rope_scaling->0.kind_chars()))
        } else if self.attention_bias {
            e.is_engine("this backbone reads no attention bias, and the config asks for one"@)
        } else if self.linear_conv_kernel_dim < 2 {
            e.is_engine("a convolution kernel below 2 is not implemented"@)
        } else {
            e.is_engine("the heads do not divide into the key/value heads"@)
        }
    }

    /// How wide one head is.
    pub open spec fn head_width(self) -> usize {
        match self.head_dim {
            Some(dim) => dim,
            None => self.hidden_size / self.num_attention_heads,
        }
    }

    /// How wide one head is.
    pub fn head_dim(&self) -> (out: usize)
        requires
            self.num_attention_heads > 0,
        ensures
            out == self.head_width(),
    {
        match self.head_dim {
            Some(dim) => dim,
            None => self.hidden_size / self.num_attention_heads,
        }
    }

    /// The rotary base.
    pub fn rope_theta(&self) -> (out: Result<Real, Error>)
        ensures
            match qwen3::stated_theta(self.rope_theta, self.rope_parameters) {
                Some(theta) => out == Ok::<Real, Error>(theta),
                None => out matches Err(e) && e.is_engine("the config states no rope_theta"@),
            },
            self.rope_theta matches Some(theta) ==> out == Ok::<Real, Error>(theta),
            self.rope_theta is None ==> (self.rope_parameters matches Some(block) ==> (
            block.rope_theta matches Some(theta) ==> out == Ok::<Real, Error>(theta))),
            out is Err <==> self.rope_theta is None && (self.rope_parameters is None
                || self.rope_parameters->0.rope_theta is None),
    {
        qwen3::rope_theta(self.rope_theta, &self.rope_parameters)
    }

    /// What part of each head the rotary embedding covers: a quarter by default on
    /// these bases, and the rest of the head passes through unrotated.
    pub fn rotary_factor(&self) -> (out: Real)
        ensures
            out == match self.rope_parameters {
                Some(RopeParameters { partial_rotary_factor: Some(factor), .. }) => factor,
                _ => (Real { bits: DEFAULT_PARTIAL_ROTARY_FACTOR }),
            },
            self.rope_parameters is None || self.rope_parameters->0.partial_rotary_factor is None
                ==> out.bits == 0x3fd0_0000_0000_0000,
    {
        match &self.rope_parameters {
            Some(rope) => match rope.partial_rotary_factor {
                Some(factor) => factor,
                None => Real { bits: DEFAULT_PARTIAL_ROTARY_FACTOR },
            },
            None => Real { bits: DEFAULT_PARTIAL_ROTARY_FACTOR },
        }
    }

    /// How many components of each head are rotated, of those that the factor
    /// covers: they go in pairs.
    pub fn rotary_dim(covered: usize) -> (out: usize)
        ensures
            out % 2 == 0,
            out <= covered < out + 2,
    {
        covered - covered % 2
    }

    /// `true` when any layer is recurrent, which is what forces the row form.
    pub fn is_hybrid(&self) -> (yes: bool)
        ensures
            yes == recurrent_among(self.layer_types@),
    {
        any_recurrent(self.layer_types.as_slice())
    }

    /// Refuse a config that would be answered wrongly rather than not at all.
    pub fn supported(&self) -> (out: Result<(), Error>)
        requires
            self.plain() ==> self.num_key_value_heads > 0 && self.linear_num_key_heads > 0,
        ensures
            out is Ok <==> self.runs(),
            out matches Err(e) ==> self.refused(e),
    {
        if self.layer_types.len() != self.num_hidden_layers {
            let mut message = text::decimal_text(self.layer_types.len());
            message.append(" layer types for ");
            message.append(text::decimal_text(self.num_hidden_layers).as_str());
            message.append(" layers");
            return Err(Error::Engine(message));
        }
        for i in 0..self.layer_types.len()
            invariant
                self.layer_types@.len() == self.num_hidden_layers,
                forall|j: int|
                    0 <= j < i ==> known_kind((#[trigger] self.layer_types@[j])@),
        {
            let kind = self.layer_types[i].as_str();
            if !text::same_text(kind, FULL) && !text::same_text(kind, RECURRENT) {
                assert(first_unknown(self.layer_types@, i as int));
                let message = "unknown layer type ".to_owned().concat(
                    error::debug_text(kind).as_str(),
                );
                return Err(Error::Engine(message));
            }
        }
        match qwen3::supported_rope(&self.rope_parameters) {
            Ok(_) => {},
            Err(e) => {
                return Err(e);
            },
        }
        match qwen3::supported_rope(&self.rope_scaling) {
            Ok(_) => {},
            Err(e) => {
                return Err(e);
            },
        }
        if self.attention_bias {
            return Err(
                Error::Engine(
                    "this backbone reads no attention bias, and the config asks for one".to_owned(),
                ),
            );
        }
        if self.linear_conv_kernel_dim < 2 {
            return Err(Error::Engine("a convolution kernel below 2 is not implemented".to_owned()));
        }
        if self.num_attention_heads % self.num_key_value_heads != 0 || self.linear_num_value_heads
            % self.linear_num_key_heads != 0 {
            return Err(
                Error::Engine("the heads do not divide into the key/value heads".to_owned()),
            );
        }
        Ok(())
    }

    /// How a recurrent layer's channels are laid out.
    pub fn recurrence(&self) -> (out: Recurrence)
        requires
            self.linear_num_key_heads > 0,
            self.linear_conv_kernel_dim > 0,
            2 * (self.linear_num_key_heads * self.linear_key_head_dim)
                + self.linear_num_value_heads * self.linear_value_head_dim <= usize::MAX,
        ensures
            out.keys == self.linear_num_key_heads * self.linear_key_head_dim,
            out.values == self.linear_num_value_heads * self.linear_value_head_dim,
            out.window == self.linear_conv_kernel_dim - 1,
            out.group == self.linear_num_value_heads / self.linear_num_key_heads,
            out.fits(),
    {
        proof {
            let a = self.linear_num_key_heads * self.linear_key_head_dim;
            let b = self.linear_num_value_heads * self.linear_value_head_dim;
            assert(0 <= a) by (nonlinear_arith)
                requires
                    a == self.linear_num_key_heads * self.linear_key_head_dim,
                    self.linear_num_key_heads >= 0,
                    self.linear_key_head_dim >= 0,
            ;
            assert(0 <= b) by (nonlinear_arith)
                requires
                    b == self.linear_num_value_heads * self.linear_value_head_dim,
                    self.linear_num_value_heads >= 0,
                    self.linear_value_head_dim >= 0,
            ;
        }
        Recurrence {
            keys: self.linear_num_key_heads * self.linear_key_head_dim,
            values: self.linear_num_value_heads * self.linear_value_head_dim,
            window: self.linear_conv_kernel_dim - 1,
            group: self.linear_num_value_heads / self.linear_num_key_heads,
        }
    }
}

/// How a recurrent layer's channels are laid out: queries, then keys, then values,
/// which share one projection and one convolution over time.
#[derive(Debug, Clone, Copy)]
pub struct Recurrence {
    /// How many channels the queries take, and the keys.
    pub keys: usize,
    /// How many channels the values take.
    pub values: usize,
    /// How many tokens back the convolution reaches.
    pub window: usize,
    /// How many value heads each key head serves.
    pub group: usize,
}

impl Recurrence {
    /// All channels can be counted.
    pub open spec fn fits(self) -> bool {
        2 * self.keys + self.values <= usize::MAX
    }

    /// How many channels there are.
    pub fn channels(&self) -> (n: usize)
        requires
            self.fits(),
        ensures
            n == 2 * self.keys + self.values,
    {
        2 * self.keys + self.values
    }

    /// Where the queries, the keys and the values begin, with how many channels
    /// they take.
    pub fn ranges(&self) -> (out: [(usize, usize); 3])
        requires
            self.fits(),
        ensures
            out@ == seq![(0usize, self.keys), (self.keys, self.keys), ((2 * self.keys) as usize, self.values)],
    {
        let out = [(0, self.keys), (self.keys, self.keys), (2 * self.keys, self.values)];
        assert(out@ =~= seq![
            (0usize, self.keys),
            (self.keys, self.keys),
            ((2 * self.keys) as usize, self.values),
        ]);
        out
    }
}

/// Every channel is a query's, a key's or a value's, and of one of them only.
pub proof fn law_every_channel_has_one_use(shape: Recurrence, channel: int)
    requires
        shape.fits(),
        0 <= channel < 2 * shape.keys + shape.values,
    ensures
        (0 <= channel < shape.keys && !(shape.keys <= channel < shape.keys + shape.keys) && !(2
            * shape.keys <= channel)) || (!(channel < shape.keys) && shape.keys <= channel
            < shape.keys + shape.keys && !(2 * shape.keys <= channel)) || (!(channel < shape.keys)
            && !(channel < shape.keys + shape.keys) && 2 * shape.keys <= channel < 2 * shape.keys
            + shape.values),
{
}

/// The kind of a layer, and of what a prefilled state keeps of it.
#[derive(Debug, Clone, Copy, PartialEq, Eq, Structural)]
pub enum LayerKind {
    Attention,
    Recurrence,
}

/// The kind of a layer, by what its config calls it.
pub fn layer_kind(name: &str) -> (out: LayerKind)
    ensures
        out == if name@ == RECURRENT@ {
            LayerKind::Recurrence
        } else {
            LayerKind::Attention
        },
{
    if text::same_text(name, RECURRENT) {
        LayerKind::Recurrence
    } else {
        LayerKind::Attention
    }
}

/// A prefilled state has as much kept as the model has layers.
pub fn same_model(kept: usize, layers: usize) -> (out: Result<(), Error>)
    ensures
        out is Ok <==> kept == layers,
        out matches Err(e) ==> e.is_engine("this prefix was prefilled by another model"@),
{
    if kept != layers {
        return Err(Error::Engine("this prefix was prefilled by another model".to_owned()));
    }
    Ok(())
}

/// What is kept of a layer is of the layer's kind, where anything is.
pub fn same_kind(layer: LayerKind, kept: Option<LayerKind>) -> (out: Result<(), Error>)
    ensures
        out is Ok <==> kept == None::<LayerKind> || kept == Some(layer),
        out matches Err(e) ==> e.is_engine("this prefix has the layers the wrong way round"@),
{
    match kept {
        Some(kept) => {
            if kept != layer {
                return Err(
                    Error::Engine("this prefix has the layers the wrong way round".to_owned()),
                );
            }
            Ok(())
        },
        None => Ok(()),
    }
}

/// What a prefilled state keeps of one layer.
#[derive(Debug)]
pub struct Kept<K> {
    pub kind: LayerKind,
    pub value: K,
}

/// What a prefilled state keeps of the layer at `i`, where there is such a state.
pub open spec fn kept_at<K>(past: Option<&[Kept<K>]>, i: int) -> Option<&K> {
    match past {
        Some(kept) => Some(&kept@[i].value),
        None => None,
    }
}

/// What is kept of the layer at `i` is of the layer's kind, where anything is.
pub open spec fn kind_fits<K>(past: Option<&[Kept<K>]>, kinds: Seq<LayerKind>, i: int) -> bool {
    past matches Some(kept) ==> kept@[i].kind == kinds[i]
}

/// Tokens may go through these states, one per layer, while this is kept of them.
pub open spec fn walked<X, K, S: Fn(usize, &X, Option<&K>) -> Result<(X, K), Error>>(
    step: S,
    kinds: Seq<LayerKind>,
    past: Option<&[Kept<K>]>,
    states: Seq<X>,
    kept: Seq<Kept<K>>,
) -> bool {
    &&& states.len() == kept.len() + 1
    &&& kept.len() <= kinds.len()
    &&& forall|i: int|
        0 <= i < kept.len() ==> {
            &&& (#[trigger] kept[i]).kind == kinds[i]
            &&& kind_fits(past, kinds, i)
            &&& call_ensures(
                step,
                (i as usize, &states[i], kept_at(past, i)),
                Ok((states[i + 1], kept[i].value)),
            )
        }
}

/// What comes of taking tokens through all layers, one after the other.
pub open spec fn walks<X, K, S: Fn(usize, &X, Option<&K>) -> Result<(X, K), Error>>(
    step: S,
    kinds: Seq<LayerKind>,
    past: Option<&[Kept<K>]>,
    start: X,
    out: Result<(X, Seq<Kept<K>>), Error>,
) -> bool {
    if past matches Some(kept) && kept@.len() != kinds.len() {
        out matches Err(e) && e.is_engine("this prefix was prefilled by another model"@)
    } else {
        match out {
            Ok((end, kept)) => kept.len() == kinds.len() && exists|states: Seq<X>|
                #[trigger] walked(step, kinds, past, states, kept) && states[0] == start
                    && states.last() == end,
            Err(e) => exists|states: Seq<X>, kept: Seq<Kept<K>>|
                {
                    let i = kept.len() as int;
                    &&& #[trigger] walked(step, kinds, past, states, kept)
                    &&& i < kinds.len()
                    &&& states[0] == start
                    &&& if kind_fits(past, kinds, i) {
                        call_ensures(
                            step,
                            (i as usize, &states.last(), kept_at(past, i)),
                            Err::<(X, K), Error>(e),
                        )
                    } else {
                        e.is_engine("this prefix has the layers the wrong way round"@)
                    }
                },
        }
    }
}

/// Take tokens through all layers, one after the other, and keep of each what a
/// branch needs to continue from them.
///
/// `step` runs one layer: an attention layer leaves the keys and values of the
/// tokens, a recurrent one its state and the tail of its convolution. Continuing
/// from a prefilled state, every layer is given what that state kept of it, which
/// has to be of the layer's own kind.
pub fn walk<X, K, S: Fn(usize, &X, Option<&K>) -> Result<(X, K), Error>>(
    start: X,
    kinds: &[LayerKind],
    past: Option<&[Kept<K>]>,
    step: &S,
) -> (out: Result<(X, Vec<Kept<K>>), Error>)
    requires
        forall|i: usize, x: &X, kept: Option<&K>| call_requires(*step, (i, x, kept)),
    ensures
        walks(
            *step,
            kinds@,
            past,
            start,
            match out {
                Ok((end, kept)) => Ok::<(X, Seq<Kept<K>>), Error>((end, kept@)),
                Err(e) => Err::<(X, Seq<Kept<K>>), Error>(e),
            },
        ),
{
    if let Some(kept) = past {
        match same_model(kept.len(), kinds.len()) {
            Ok(_) => {},
            Err(e) => {
                return Err(e);
            },
        }
    }
    let mut x = start;
    let mut kept: Vec<Kept<K>> = Vec::new();
    let ghost mut states: Seq<X> = seq![x];
    for i in 0..kinds.len()
        invariant
            forall|i: usize, x: &X, kept: Option<&K>| call_requires(*step, (i, x, kept)),
            past matches Some(all) ==> all@.len() == kinds@.len(),
            kept@.len() == i,
            states[0] == start,
            states.last() == x,
            walked(*step, kinds@, past, states, kept@),
    {
        let kind = kinds[i];
        let (before, of_kind) = match past {
            Some(all) => (Some(&all[i].value), Some(all[i].kind)),
            None => (None, None),
        };
        match same_kind(kind, of_kind) {
            Ok(_) => {},
            Err(e) => {
                assert(!kind_fits(past, kinds@, i as int));
                return Err(e);
            },
        }
        assert(kind_fits(past, kinds@, i as int));
        assert(before == kept_at(past, i as int));
        let ghost held = kept@;
        let ghost seen = states;
        match step(i, &x, before) {
            Ok((next, value)) => {
                assert(call_ensures(
                    *step,
                    (i, &seen.last(), kept_at(past, i as int)),
                    Ok((next, value)),
                ));
                x = next;
                kept.push(Kept { kind, value });
                proof {
                    states = states.push(x);
                    assert forall|j: int| 0 <= j < kept@.len() implies {
                        &&& (#[trigger] kept@[j]).kind == kinds@[j]
                        &&& kind_fits(past, kinds@, j)
                        &&& call_ensures(
                            *step,
                            (j as usize, &states[j], kept_at(past, j)),
                            Ok((states[j + 1], kept@[j].value)),
                        )
                    } by {
                        if j < held.len() {
                            assert(kept@[j] == held[j]);
                            assert(states[j] == seen[j]);
                            assert(states[j + 1] == seen[j + 1]);
                        }
                    }
                }
            },
            Err(e) => {
                assert(walked(*step, kinds@, past, states, kept@));
                return Err(e);
            },
        }
    }
    Ok((x, kept))
}

/// How many tokens one chunk of the delta rule covers, unless told otherwise.
pub const CHUNK: usize = 64;

/// How the tokens of a recurrent layer are taken: in chunks, or one by one. What
/// comes out is the same.
#[derive(Debug, Clone, Copy)]
pub struct Chunking {
    /// Chunks or none, whatever the length. Left alone, whatever fills a chunk is
    /// taken in chunks.
    pub forced: Option<bool>,
    /// How many tokens one chunk covers.
    pub tokens: usize,
}

impl Default for Chunking {
    fn default() -> (out: Self)
        ensures
            out == (Chunking { forced: None, tokens: CHUNK }),
            out.tokens == 64,
            out.usable(),
    {
        Chunking { forced: None, tokens: CHUNK }
    }
}

impl Chunking {
    /// A chunk covers a token at least.
    pub open spec fn usable(self) -> bool {
        self.tokens > 0
    }

    /// How many of these tokens are taken at once.
    pub open spec fn at_once(self, len: nat) -> nat {
        let chunked = match self.forced {
            Some(chunked) => chunked,
            None => len >= self.tokens,
        };
        if chunked {
            self.tokens as nat
        } else {
            1
        }
    }

    /// Take chunks, or none, whatever the length.
    pub fn with_chunked_recurrence(self, chunked: bool) -> (out: Self)
        ensures
            out == (Chunking { forced: Some(chunked), ..self }),
    {
        Chunking { forced: Some(chunked), ..self }
    }

    /// Let one chunk cover this many tokens.
    pub fn with_chunk_size(self, tokens: usize) -> (out: Result<Self, Error>)
        ensures
            match out {
                Ok(sized) => tokens > 0 && sized == (Chunking { tokens, ..self }),
                Err(e) => tokens == 0 && e.is_engine("a chunk covers one token at least"@),
            },
    {
        if tokens == 0 {
            return Err(Error::Engine("a chunk covers one token at least".to_owned()));
        }
        Ok(Chunking { tokens, ..self })
    }

    /// Where the pieces begin that this many tokens are taken in, and how many tokens
    /// each covers.
    pub fn pieces(&self, len: usize) -> (out: Vec<(usize, usize)>)
        requires
            self.usable(),
        ensures
            covers(out@, len as nat),
            forall|i: int|
                0 <= i < out@.len() - 1 ==> (#[trigger] out@[i]).1 == self.at_once(len as nat),
            out@.len() > 0 ==> 0 < out@.last().1 <= self.at_once(len as nat),
    {
        let chunked = match self.forced {
            Some(chunked) => chunked,
            None => len >= self.tokens,
        };
        let size: usize = if chunked {
            self.tokens
        } else {
            1
        };
        let mut out: Vec<(usize, usize)> = Vec::new();
        let mut done: usize = 0;
        while done < len
            invariant
                done <= len,
                size > 0,
                size == self.at_once(len as nat),
                covers(out@, done as nat),
                done < len ==> forall|i: int|
                    0 <= i < out@.len() ==> (#[trigger] out@[i]).1 == size,
                forall|i: int| 0 <= i < out@.len() - 1 ==> (#[trigger] out@[i]).1 == size,
                out@.len() > 0 ==> 0 < out@.last().1 <= size,
            decreases len - done,
        {
            let left: usize = len - done;
            let taken: usize = if left < size {
                left
            } else {
                size
            };
            let ghost before = out@;
            out.push((done, taken));
            done = done + taken;
            assert(out@.drop_last() =~= before);
        }
        out
    }
}

/// These pieces are the first `len` tokens, one piece behind the other.
pub open spec fn covers(pieces: Seq<(usize, usize)>, len: nat) -> bool
    decreases pieces.len(),
{
    if pieces.len() == 0 {
        len == 0
    } else {
        let (start, taken) = pieces.last();
        start + taken == len && covers(pieces.drop_last(), start as nat)
    }
}

/// Every token is taken once: whatever the pieces are, each token stands in one of
/// them and in no other.
pub proof fn law_a_token_is_taken_once(
    pieces: Seq<(usize, usize)>,
    len: nat,
    token: int,
) -> (at: int)
    requires
        covers(pieces, len),
        0 <= token < len,
    ensures
        0 <= at < pieces.len(),
        forall|i: int|
            0 <= i < pieces.len() ==> ((#[trigger] pieces[i]).0 <= token < pieces[i].0
                + pieces[i].1 <==> i == at),
    decreases pieces.len(),
{
    let (start, taken) = pieces.last();
    let rest = pieces.drop_last();
    if token < start {
        let at = law_a_token_is_taken_once(rest, start as nat, token);
        assert forall|i: int| 0 <= i < pieces.len() implies ((#[trigger] pieces[i]).0 <= token
            < pieces[i].0 + pieces[i].1 <==> i == at) by {
            if i < rest.len() {
                assert(rest[i] == pieces[i]);
            }
        }
        at
    } else {
        assert forall|i: int| 0 <= i < pieces.len() - 1 implies (#[trigger] pieces[i]).0
            + pieces[i].1 <= token by {
            lemma_piece_within(rest, start as nat, i);
            assert(rest[i] == pieces[i]);
        }
        pieces.len() - 1
    }
}

proof fn lemma_piece_within(pieces: Seq<(usize, usize)>, len: nat, i: int)
    requires
        covers(pieces, len),
        0 <= i < pieces.len(),
    ensures
        pieces[i].0 + pieces[i].1 <= len,
    decreases pieces.len(),
{
    if i < pieces.len() - 1 {
        lemma_piece_within(pieces.drop_last(), pieces.last().0 as nat, i);
        assert(pieces.drop_last()[i] == pieces[i]);
    }
}

/// What the tensors of one recurrent layer are called.
#[derive(Debug)]
pub struct RecurrenceNames {
    pub conv1d: String,
    pub dt_bias: String,
    pub a_log: String,
    pub norm: String,
    pub in_proj_qkv: String,
    pub in_proj_z: String,
    pub in_proj_b: String,
    pub in_proj_a: String,
    pub out_proj: String,
}

impl RecurrenceNames {
    /// What the tensors of the recurrent layer at this index are called.
    pub fn at(index: usize) -> (out: Self)
        ensures
            out.conv1d@ == qwen3::layer_chars(index as nat, "linear_attn.conv1d.weight"@),
            out.dt_bias@ == qwen3::layer_chars(index as nat, "linear_attn.dt_bias"@),
            out.a_log@ == qwen3::layer_chars(index as nat, "linear_attn.A_log"@),
            out.norm@ == qwen3::layer_chars(index as nat, "linear_attn.norm.weight"@),
            out.in_proj_qkv@ == qwen3::layer_chars(index as nat, "linear_attn.in_proj_qkv"@),
            out.in_proj_z@ == qwen3::layer_chars(index as nat, "linear_attn.in_proj_z"@),
            out.in_proj_b@ == qwen3::layer_chars(index as nat, "linear_attn.in_proj_b"@),
            out.in_proj_a@ == qwen3::layer_chars(index as nat, "linear_attn.in_proj_a"@),
            out.out_proj@ == qwen3::layer_chars(index as nat, "linear_attn.out_proj"@),
    {
        RecurrenceNames {
            conv1d: qwen3::layer_path(index, "linear_attn.conv1d.weight"),
            dt_bias: qwen3::layer_path(index, "linear_attn.dt_bias"),
            a_log: qwen3::layer_path(index, "linear_attn.A_log"),
            norm: qwen3::layer_path(index, "linear_attn.norm.weight"),
            in_proj_qkv: qwen3::layer_path(index, "linear_attn.in_proj_qkv"),
            in_proj_z: qwen3::layer_path(index, "linear_attn.in_proj_z"),
            in_proj_b: qwen3::layer_path(index, "linear_attn.in_proj_b"),
            in_proj_a: qwen3::layer_path(index, "linear_attn.in_proj_a"),
            out_proj: qwen3::layer_path(index, "linear_attn.out_proj"),
        }
    }
}

/// A layer is recurrent or full attention by its name alone, and no other name is known. One
/// recurrent layer is enough to make a base a hybrid.
pub proof fn law_a_layer_is_known_by_its_name(types: Seq<String>, i: int)
    requires
        0 <= i < types.len(),
    ensures
        known_kind(types[i]@) <==> types[i]@ == "linear_attention"@ || types[i]@
            == "full_attention"@,
        types[i]@ == "linear_attention"@ ==> recurrent_among(types),
        !known_kind(types[i]@) ==> !all_known(types),
{
}

/// A base is a hybrid only where some layer is recurrent.
pub proof fn law_a_hybrid_has_a_recurrent_layer(types: Seq<String>)
    requires
        forall|i: int| 0 <= i < types.len() ==> (#[trigger] types[i])@ != "linear_attention"@,
    ensures
        !recurrent_among(types),
{
}

/// A config is refused for any one thing that the backbone does not implement.
pub proof fn law_a_config_is_refused_for_any_one_thing(c: Config, layer: int)
    requires
        c.num_key_value_heads > 0,
        c.linear_num_key_heads > 0,
    ensures
        c.layer_types@.len() != c.num_hidden_layers ==> !c.runs(),
        0 <= layer < c.layer_types@.len() && c.layer_types@[layer]@ != "linear_attention"@
            && c.layer_types@[layer]@ != "full_attention"@ ==> !c.runs(),
        c.rope_parameters matches Some(rope) ==> rope.kind_chars() != "default"@ ==> !c.runs(),
        c.rope_scaling matches Some(rope) ==> rope.kind_chars() != "default"@ ==> !c.runs(),
        c.attention_bias ==> !c.runs(),
        c.linear_conv_kernel_dim < 2 ==> !c.runs(),
        c.num_attention_heads % c.num_key_value_heads != 0 ==> !c.runs(),
        c.linear_num_value_heads % c.linear_num_key_heads != 0 ==> !c.runs(),
{
}

/// Nothing else stops a config: one with none of these is run.
pub proof fn law_a_plain_config_runs(c: Config)
    requires
        c.num_key_value_heads > 0,
        c.linear_num_key_heads > 0,
        c.layer_types@.len() == c.num_hidden_layers,
        forall|i: int|
            0 <= i < c.layer_types@.len() ==> (#[trigger] c.layer_types@[i])@ == "linear_attention"@
                || c.layer_types@[i]@ == "full_attention"@,
        c.rope_parameters matches Some(rope) ==> rope.kind_chars() == "default"@,
        c.rope_scaling matches Some(rope) ==> rope.kind_chars() == "default"@,
        !c.attention_bias,
        c.linear_conv_kernel_dim >= 2,
        c.num_attention_heads % c.num_key_value_heads == 0,
        c.linear_num_value_heads % c.linear_num_key_heads == 0,
    ensures
        c.runs(),
{
}

/// A head is as wide as the config says, and otherwise its share of the hidden size.
pub proof fn law_a_stated_head_width_counts(c: Config)
    ensures
        c.head_dim matches Some(dim) ==> c.head_width() == dim,
        c.head_dim is None && c.num_attention_heads > 0 ==> c.head_width() == c.hidden_size as int
            / c.num_attention_heads as int,
{
}

/// Tokens are taken a chunk at a time where that is forced, one by one where it is forbidden, and
/// left alone a chunk at a time just where they fill one.
pub proof fn law_what_fills_a_chunk_is_chunked(c: Chunking, len: nat)
    ensures
        c.forced == Some(true) ==> c.at_once(len) == c.tokens,
        c.forced == Some(false) ==> c.at_once(len) == 1,
        c.forced is None && len >= c.tokens ==> c.at_once(len) == c.tokens,
        c.forced is None && len < c.tokens ==> c.at_once(len) == 1,
{
}

/// The pieces that tokens are taken in stand one behind the other, from the first token on: each
/// begins where the one before it ends, and the last ends with the last token.
pub proof fn law_pieces_follow_one_another(pieces: Seq<(usize, usize)>, len: nat)
    requires
        covers(pieces, len),
        pieces.len() > 0,
    ensures
        pieces[0].0 == 0,
        pieces.last().0 + pieces.last().1 == len,
        forall|i: int|
            #![trigger pieces[i]]
            0 < i < pieces.len() ==> pieces[i - 1].0 + pieces[i - 1].1 == pieces[i].0,
    decreases pieces.len(),
{
    reveal_with_fuel(covers, 2);
    let rest = pieces.drop_last();
    if rest.len() > 0 {
        law_pieces_follow_one_another(rest, pieces.last().0 as nat);
        assert forall|i: int| #![trigger pieces[i]] 0 < i < pieces.len() implies pieces[i - 1].0
            + pieces[i - 1].1 == pieces[i].0 by {
            assert(rest[i - 1] == pieces[i - 1]);
            if i < rest.len() {
                assert(rest[i] == pieces[i]);
            }
        }
        assert(rest[0] == pieces[0]);
    }
}

/// Tokens go through every layer once, in order: the first layer is given what went in, each
/// other what came out of the one before it, and each also what the prefilled state kept of it,
/// which is of the layer's own kind. What is kept of a layer is of its kind again.
pub proof fn law_every_layer_is_walked_in_order<
    X,
    K,
    S: Fn(usize, &X, Option<&K>) -> Result<(X, K), Error>,
>(
    step: S,
    kinds: Seq<LayerKind>,
    past: Option<&[Kept<K>]>,
    start: X,
    end: X,
    kept: Seq<Kept<K>>,
) -> (states: Seq<X>)
    requires
        walks(step, kinds, past, start, Ok((end, kept))),
    ensures
        kept.len() == kinds.len(),
        states.len() == kinds.len() + 1,
        states[0] == start,
        states[kinds.len() as int] == end,
        past matches Some(all) ==> all@.len() == kinds.len(),
        forall|i: int|
            #![trigger kept[i]]
            0 <= i < kinds.len() ==> {
                &&& kept[i].kind == kinds[i]
                &&& past matches Some(all) ==> all@[i].kind == kinds[i] && call_ensures(
                    step,
                    (i as usize, &states[i], Some(&all@[i].value)),
                    Ok((states[i + 1], kept[i].value)),
                )
                &&& past is None ==> call_ensures(
                    step,
                    (i as usize, &states[i], None::<&K>),
                    Ok((states[i + 1], kept[i].value)),
                )
            },
{
    let states = choose|states: Seq<X>|
        #[trigger] walked(step, kinds, past, states, kept) && states[0] == start && states.last()
            == end;
    states
}

/// Tokens fail to go through only where the prefilled state is another model's, where it keeps
/// another kind of thing of a layer, or where a layer itself fails; every layer before it was
/// walked.
pub proof fn law_a_walk_fails_only_for_a_reason<
    X,
    K,
    S: Fn(usize, &X, Option<&K>) -> Result<(X, K), Error>,
>(step: S, kinds: Seq<LayerKind>, past: Option<&[Kept<K>]>, start: X, e: Error)
    requires
        walks(step, kinds, past, start, Err(e)),
    ensures
        (past matches Some(all) && all@.len() != kinds.len()) || (past matches Some(all) && exists|
            i: int,
        |
            0 <= i < kinds.len() && (#[trigger] all@[i]).kind != kinds[i]) || (exists|
            i: int,
            x: X,
            kept: Option<&K>,
        |
            0 <= i < kinds.len() && #[trigger] call_ensures(
                step,
                (i as usize, &x, kept),
                Err::<(X, K), Error>(e),
            )),
{
    if !(past matches Some(all) && all@.len() != kinds.len()) {
        let (states, kept) = choose|states: Seq<X>, kept: Seq<Kept<K>>|
            {
                let i = kept.len() as int;
                &&& #[trigger] walked(step, kinds, past, states, kept)
                &&& i < kinds.len()
                &&& states[0] == start
                &&& if kind_fits(past, kinds, i) {
                    call_ensures(
                        step,
                        (i as usize, &states.last(), kept_at(past, i)),
                        Err::<(X, K), Error>(e),
                    )
                } else {
                    e.is_engine("this prefix has the layers the wrong way round"@)
                }
            };
        let i = kept.len() as int;
        if kind_fits(past, kinds, i) {
            assert(call_ensures(
                step,
                (i as usize, &states.last(), kept_at(past, i)),
                Err::<(X, K), Error>(e),
            ));
        } else {
            assert(past is Some);
            let all = past->Some_0;
            assert(all@[i].kind != kinds[i]);
        }
    }
}

/// A config is refused by the first thing that is wrong with it, which is what the error says.
pub proof fn law_a_refusal_names_the_first_thing_wrong(c: Config, e: Error)
    requires
        c.refused(e),
    ensures
        e is Engine,
        c.layer_types@.len() != c.num_hidden_layers ==> (e matches Error::Engine(m) && m@
            == text::decimal(c.layer_types@.len()) + " layer types for "@ + text::decimal(
            c.num_hidden_layers as nat,
        ) + " layers"@),
        c.layer_types@.len() == c.num_hidden_layers && !all_known(c.layer_types@) ==> (exists|at: int|
            0 <= at < c.layer_types@.len() && c.layer_types@[at]@ != "full_attention"@
                && c.layer_types@[at]@ != "linear_attention"@ && e.is_engine(
                "unknown layer type "@ + error::debug_chars((#[trigger] c.layer_types@[at])@),
            )),
        c.plain() ==> e.is_engine("the heads do not divide into the key/value heads"@),
{
    if c.layer_types@.len() == c.num_hidden_layers && !all_known(c.layer_types@) {
        let at = choose|at: int|
            #[trigger] first_unknown(c.layer_types@, at) && e.is_engine(
                "unknown layer type "@ + error::debug_chars(c.layer_types@[at]@),
            );
        assert(!known_kind(c.layer_types@[at]@));
    }
}

} // verus!
