//! The attention-only Qwen3 bases: what their configs must say, and what their
//! tensors are called.

use vstd::prelude::*;

use crate::error;
use crate::error::Error;
use crate::number::Real;
use crate::text;

verus! {

/// The rope block of a config, in either of the two places it appears.
#[derive(Debug)]
pub struct RopeParameters {
    pub rope_type: Option<String>,
    /// What older configs call the rope type.
    pub kind: Option<String>,
    pub rope_theta: Option<Real>,
    pub partial_rotary_factor: Option<Real>,
}

impl RopeParameters {
    /// The kind of rotary embedding that is asked for.
    pub open spec fn kind_chars(self) -> Seq<char> {
        match (self.rope_type, self.kind) {
            (Some(kind), _) => kind@,
            (None, Some(kind)) => kind@,
            (None, None) => "default"@,
        }
    }

    /// The kind of rotary embedding that is asked for.
    pub fn kind(&self) -> (out: &str)
        ensures
            out@ == self.kind_chars(),
    {
        match &self.rope_type {
            Some(kind) => kind.as_str(),
            None => match &self.kind {
                Some(kind) => kind.as_str(),
                None => "default",
            },
        }
    }
}

/// What is said of a rotary embedding that is not implemented.
pub open spec fn rope_message(kind: Seq<char>) -> Seq<char> {
    "this backbone implements the original rotary embedding, the config asks for "@
        + error::debug_chars(kind)
}

/// This rope block asks for the original rotary embedding, or for none.
pub open spec fn original_rope(rope: Option<RopeParameters>) -> bool {
    match rope {
        Some(rope) => rope.kind_chars() == "default"@,
        None => true,
    }
}

/// Anything but the original rotary embedding changes the frequencies, and a
/// backbone computes them one way only.
pub fn supported_rope(rope: &Option<RopeParameters>) -> (out: Result<(), Error>)
    ensures
        out is Ok <==> original_rope(*rope),
        out matches Err(e) ==> e.is_engine(rope_message(rope->0.kind_chars())),
{
    match rope {
        Some(rope) => {
            if text::same_text(rope.kind(), "default") {
                Ok(())
            } else {
                let message =
                    "this backbone implements the original rotary embedding, the config asks for ".to_owned().concat(
                    error::debug_text(rope.kind()).as_str());
                Err(Error::Engine(message))
            }
        },
        None => Ok(()),
    }
}

/// The rotary base that is stated: at the top level, or in the rope block.
pub open spec fn stated_theta(top: Option<Real>, rope: Option<RopeParameters>) -> Option<Real> {
    match (top, rope) {
        (Some(theta), _) => Some(theta),
        (None, Some(rope)) => rope.rope_theta,
        (None, None) => None,
    }
}

/// The rotary base. Older configs put it at the top level, newer ones in the rope
/// block.
pub fn rope_theta(top: Option<Real>, rope: &Option<RopeParameters>) -> (out: Result<Real, Error>)
    ensures
        match stated_theta(top, *rope) {
            Some(theta) => out == Ok::<Real, Error>(theta),
            None => out matches Err(e) && e.is_engine("the config states no rope_theta"@),
        },
        top matches Some(theta) ==> out == Ok::<Real, Error>(theta),
        top is None ==> (rope matches Some(block) ==> (block.rope_theta matches Some(theta)
            ==> out == Ok::<Real, Error>(theta))),
        out is Err <==> top is None && (rope is None || rope->0.rope_theta is None),
{
    let stated: Option<Real> = match top {
        Some(theta) => Some(theta),
        None => match rope {
            Some(rope) => rope.rope_theta,
            None => None,
        },
    };
    match stated {
        Some(theta) => Ok(theta),
        None => Err(Error::Engine("the config states no rope_theta".to_owned())),
    }
}

/// The parts of a Qwen3 `config.json` a backbone needs.
#[derive(Debug)]
pub struct Config {
    pub hidden_size: usize,
    pub intermediate_size: usize,
    pub num_hidden_layers: usize,
    pub num_attention_heads: usize,
    pub num_key_value_heads: usize,
    /// Qwen3 states it rather than deriving it from the hidden size.
    pub head_dim: Option<usize>,
    pub rms_norm_eps: Real,
    /// Older configs put it at the top level, newer ones in the rope block.
    pub rope_theta: Option<Real>,
    pub rope_parameters: Option<RopeParameters>,
    pub rope_scaling: Option<RopeParameters>,
    pub vocab_size: usize,
    /// Present on the hybrid bases, whose recurrent layers are not implemented
    /// here.
    pub layer_types: Option<Vec<String>>,
    pub sliding_window: Option<usize>,
    pub use_sliding_window: bool,
    /// Qwen3's projections have no bias; a config that says otherwise is another
    /// architecture.
    pub attention_bias: bool,
}

/// Every layer is attention.
pub open spec fn attention_only(types: Seq<String>) -> bool {
    forall|i: int| 0 <= i < types.len() ==> (#[trigger] types[i])@ == "full_attention"@
}

impl Config {
    /// Every layer is attention, as far as the config says.
    pub open spec fn all_attention(self) -> bool {
        self.layer_types matches Some(types) ==> attention_only(types@)
    }

    /// Attention reaches all the way back.
    pub open spec fn unwindowed(self) -> bool {
        !(self.use_sliding_window && self.sliding_window is Some)
    }

    /// Everything a config is refused for before its heads are counted.
    pub open spec fn plain(self) -> bool {
        &&& self.all_attention()
        &&& self.unwindowed()
        &&& original_rope(self.rope_parameters)
        &&& original_rope(self.rope_scaling)
        &&& !self.attention_bias
    }

    /// The config is one that a backbone runs.
    pub open spec fn runs(self) -> bool {
        self.plain() && self.num_attention_heads % self.num_key_value_heads == 0
    }

    /// Why a config is refused, by the first thing that is wrong with it.
    pub open spec fn refused(self, e: Error) -> bool {
        if !self.all_attention() {
            e.is_engine(
                "this backbone is attention-only; the hybrid Qwen3.5 bases (Gated DeltaNet layers) are not implemented"@,
            )
        } else if !self.unwindowed() {
            e.is_engine("sliding-window attention is not implemented"@)
        } else if !original_rope(self.rope_parameters) {
            e.is_engine(rope_message(self.rope_parameters->0.kind_chars()))
        } else if !original_rope(self.rope_scaling) {
            e.is_engine(rope_message(self.rope_scaling->0.kind_chars()))
        } else if self.attention_bias {
            e.is_engine("this backbone reads no attention bias, and the config asks for one"@)
        } else {
            e.is_engine("the attention heads do not divide into the key/value heads"@)
        }
    }

    /// The rotary base.
    pub fn rope_theta(&self) -> (out: Result<Real, Error>)
        ensures
            match stated_theta(self.rope_theta, self.rope_parameters) {
                Some(theta) => out == Ok::<Real, Error>(theta),
                None => out matches Err(e) && e.is_engine("the config states no rope_theta"@),
            },
            self.rope_theta matches Some(theta) ==> out == Ok::<Real, Error>(theta),
            self.rope_theta is None ==> (self.rope_parameters matches Some(block) ==> (
            block.rope_theta matches Some(theta) ==> out == Ok::<Real, Error>(theta))),
            out is Err <==> self.rope_theta is None && (self.rope_parameters is None
                || self.rope_parameters->0.rope_theta is None),
    {
        rope_theta(self.rope_theta, &self.rope_parameters)
    }

    /// How wide one head is.
    pub fn head_dim(&self) -> (out: usize)
        requires
            self.num_attention_heads > 0,
        ensures
            out == match self.head_dim {
                Some(dim) => dim,
                None => self.hidden_size / self.num_attention_heads,
            },
    {
        match self.head_dim {
            Some(dim) => dim,
            None => self.hidden_size / self.num_attention_heads,
        }
    }

    /// Refuse a config that would be answered wrongly rather than not at all.
    pub fn supported(&self) -> (out: Result<(), Error>)
        requires
            self.plain() ==> self.num_key_value_heads > 0,
        ensures
            out is Ok <==> self.runs(),
            out matches Err(e) ==> self.refused(e),
    {
        // Recurrent layers ignore attention masks, so they need the row form and
        // their own implementation.
        if let Some(types) = &self.layer_types {
            for i in 0..types.len()
                invariant
                    self.layer_types == Some(*types),
                    forall|j: int| 0 <= j < i ==> (#[trigger] types@[j])@ == "full_attention"@,
            {
                if !text::same_text(types[i].as_str(), "full_attention") {
                    assert(types@[i as int]@ != "full_attention"@);
                    return Err(
                        Error::Engine(
                            "this backbone is attention-only; the hybrid Qwen3.5 bases (Gated DeltaNet layers) are not implemented".to_owned(),
                        ),
                    );
                }
            }
            assert(attention_only(types@));
        }
        if self.use_sliding_window && self.sliding_window.is_some() {
            return Err(Error::Engine("sliding-window attention is not implemented".to_owned()));
        }
        match supported_rope(&self.rope_parameters) {
            Ok(_) => {},
            Err(e) => {
                return Err(e);
            },
        }
        match supported_rope(&self.rope_scaling) {
            Ok(_) => {},
            Err(e) => {
                return Err(e);
            },
        }
        if self.attention_bias {
            return Err(
                Error::Engine(
                    "this backbone reads no attention bias, and the config asks for one".to_owned(),
                ),
            );
        }
        if self.num_attention_heads % self.num_key_value_heads != 0 {
            return Err(
                Error::Engine(
                    "the attention heads do not divide into the key/value heads".to_owned(),
                ),
            );
        }
        Ok(())
    }
}

/// A tensor of one layer.
pub open spec fn layer_chars(index: nat, part: Seq<char>) -> Seq<char> {
    "layers."@ + text::decimal(index) + "."@ + part
}

/// A tensor of one layer.
pub fn layer_path(index: usize, part: &str) -> (out: String)
    ensures
        out@ == layer_chars(index as nat, part@),
{
    let mut out = "layers.".to_owned();
    out.append(text::decimal_text(index).as_str());
    out.append(".");
    out.append(part);
    out
}

/// What is said of tokens that do not each have a position.
pub open spec fn positions_message(tokens: nat, positions: nat) -> Seq<char> {
    text::decimal(tokens) + " tokens but "@ + text::decimal(positions) + " position ids"@
}

/// Every token has a position.
pub fn positioned(tokens: usize, positions: usize) -> (out: Result<(), Error>)
    ensures
        out is Ok <==> tokens == positions,
        out matches Err(e) ==> e.is_engine(positions_message(tokens as nat, positions as nat)),
{
    if tokens != positions {
        let mut message = text::decimal_text(tokens);
        message.append(" tokens but ");
        message.append(text::decimal_text(positions).as_str());
        message.append(" position ids");
        return Err(Error::Engine(message));
    }
    Ok(())
}

/// What the tensors of one attention-only layer are called.
#[derive(Debug)]
pub struct LayerNames {
    pub input_norm: String,
    pub q_proj: String,
    pub k_proj: String,
    pub v_proj: String,
    pub o_proj: String,
    /// Qwen3 normalises every head's query and key before the rotary embedding.
    pub q_norm: String,
    pub k_norm: String,
    pub post_attention_norm: String,
    pub gate_proj: String,
    pub up_proj: String,
    pub down_proj: String,
}

impl LayerNames {
    /// What the tensors of the layer at this index are called.
    pub fn at(index: usize) -> (out: Self)
        ensures
            out.input_norm@ == layer_chars(index as nat, "input_layernorm"@),
            out.q_proj@ == layer_chars(index as nat, "self_attn.q_proj"@),
            out.k_proj@ == layer_chars(index as nat, "self_attn.k_proj"@),
            out.v_proj@ == layer_chars(index as nat, "self_attn.v_proj"@),
            out.o_proj@ == layer_chars(index as nat, "self_attn.o_proj"@),
            out.q_norm@ == layer_chars(index as nat, "self_attn.q_norm"@),
            out.k_norm@ == layer_chars(index as nat, "self_attn.k_norm"@),
            out.post_attention_norm@ == layer_chars(index as nat, "post_attention_layernorm"@),
            out.gate_proj@ == layer_chars(index as nat, "mlp.gate_proj"@),
            out.up_proj@ == layer_chars(index as nat, "mlp.up_proj"@),
            out.down_proj@ == layer_chars(index as nat, "mlp.down_proj"@),
    {
        LayerNames {
            input_norm: layer_path(index, "input_layernorm"),
            q_proj: layer_path(index, "self_attn.q_proj"),
            k_proj: layer_path(index, "self_attn.k_proj"),
            v_proj: layer_path(index, "self_attn.v_proj"),
            o_proj: layer_path(index, "self_attn.o_proj"),
            q_norm: layer_path(index, "self_attn.q_norm"),
            k_norm: layer_path(index, "self_attn.k_norm"),
            post_attention_norm: layer_path(index, "post_attention_layernorm"),
            gate_proj: layer_path(index, "mlp.gate_proj"),
            up_proj: layer_path(index, "mlp.up_proj"),
            down_proj: layer_path(index, "mlp.down_proj"),
        }
    }
}

/// A rotary base at the top level is the one that is used, whatever the rope block says and
/// whether or not there is one. Without it the rope block's counts, and there is none only where
/// neither place states one.
pub proof fn law_a_rotary_base_at_the_top_level_is_used(
    top: Option<Real>,
    rope: Option<RopeParameters>,
)
    ensures
        top is Some ==> stated_theta(top, rope) == top,
        top is None ==> (rope matches Some(block) ==> stated_theta(top, rope) == block.rope_theta),
        stated_theta(top, rope) is None <==> top is None && (rope is None || rope->0.rope_theta
            is None),
{
}

/// A rope block's kind is what it calls its rope type; what older configs call it counts where
/// there is no rope type, and a block that says neither asks for the original embedding.
pub proof fn law_the_rope_type_goes_before_the_older_name(rope: RopeParameters)
    ensures
        rope.rope_type matches Some(kind) ==> rope.kind_chars() == kind@,
        rope.rope_type is None ==> (rope.kind matches Some(kind) ==> rope.kind_chars() == kind@),
        rope.rope_type is None && rope.kind is None ==> original_rope(Some(rope)),
        original_rope(None),
        original_rope(Some(rope)) <==> rope.kind_chars() == seq!['d', 'e', 'f', 'a', 'u', 'l', 't'],
{
    reveal_strlit("default");
    assert("default"@ =~= seq!['d', 'e', 'f', 'a', 'u', 'l', 't']);
}

/// A config is refused for any one thing that the backbone does not implement: a layer that is
/// not full attention, a sliding window that is in use, a rope block of another kind in either
/// place, an attention bias, or heads that do not divide.
pub proof fn law_a_config_is_refused_for_any_one_thing(c: Config, layer: int)
    requires
        c.num_key_value_heads > 0,
    ensures
        c.layer_types matches Some(types) ==> 0 <= layer < types@.len() && types@[layer]@
            != "full_attention"@ ==> !c.runs(),
        c.use_sliding_window && c.sliding_window is Some ==> !c.runs(),
        c.rope_parameters matches Some(rope) ==> rope.kind_chars() != "default"@ ==> !c.runs(),
        c.rope_scaling matches Some(rope) ==> rope.kind_chars() != "default"@ ==> !c.runs(),
        c.attention_bias ==> !c.runs(),
        c.num_attention_heads % c.num_key_value_heads != 0 ==> !c.runs(),
{
}

/// Nothing else stops a config: one with none of these is run.
pub proof fn law_a_plain_config_runs(c: Config)
    requires
        c.num_key_value_heads > 0,
        c.layer_types matches Some(types) ==> forall|i: int|
            0 <= i < types@.len() ==> (#[trigger] types@[i])@ == "full_attention"@,
        !c.use_sliding_window || c.sliding_window is None,
        c.rope_parameters matches Some(rope) ==> rope.kind_chars() == "default"@,
        c.rope_scaling matches Some(rope) ==> rope.kind_chars() == "default"@,
        !c.attention_bias,
        c.num_attention_heads % c.num_key_value_heads == 0,
    ensures
        c.runs(),
{
}

/// A layer's tensor is named by the layer's number and the part: two layers never share a name,
/// and neither do two parts of one layer.
pub proof fn law_a_layer_has_names_of_its_own(
    index: nat,
    part: Seq<char>,
    other: nat,
    other_part: Seq<char>,
)
    ensures
        layer_chars(index, part) == seq!['l', 'a', 'y', 'e', 'r', 's', '.'] + text::decimal(index)
            + seq!['.'] + part,
        layer_chars(index, part) == layer_chars(other, part) ==> index == other,
        layer_chars(index, part) == layer_chars(index, other_part) ==> part == other_part,
{
    reveal_strlit("layers.");
    reveal_strlit(".");
    assert("layers."@ =~= seq!['l', 'a', 'y', 'e', 'r', 's', '.']);
    assert("."@ =~= seq!['.']);
    let (a, b) = (text::decimal(index), text::decimal(other));
    if layer_chars(index, part) == layer_chars(other, part) {
        let (s, t) = (layer_chars(index, part), layer_chars(other, part));
        assert(s.len() == 8 + a.len() + part.len());
        assert(t.len() == 8 + b.len() + part.len());
        assert(a =~= s.subrange(7, 7 + a.len() as int));
        assert(b =~= t.subrange(7, 7 + b.len() as int));
        text::law_decimal_is_injective(index, other);
    }
    if layer_chars(index, part) == layer_chars(index, other_part) {
        let (s, t) = (layer_chars(index, part), layer_chars(index, other_part));
        assert(part =~= s.skip(8 + a.len() as int));
        assert(other_part =~= t.skip(8 + a.len() as int));
    }
}

/// A config is refused by the first thing that is wrong with it, which is what the error says.
pub proof fn law_a_refusal_names_the_first_thing_wrong(c: Config, e: Error)
    requires
        c.refused(e),
        !c.plain() || c.num_key_value_heads > 0,
    ensures
        !c.all_attention() ==> (e matches Error::Engine(m) && m@
            == "this backbone is attention-only; the hybrid Qwen3.5 bases (Gated DeltaNet layers) are not implemented"@),
        c.all_attention() && c.use_sliding_window && c.sliding_window is Some ==> (
        e matches Error::Engine(m) && m@ == "sliding-window attention is not implemented"@),
        c.plain() ==> (e matches Error::Engine(m) && m@
            == "the attention heads do not divide into the key/value heads"@),
        e is Engine,
{
}

/// What is said of a rotary embedding names its kind, and what is said of positions both counts.
pub proof fn law_what_is_refused_is_named(kind: Seq<char>, tokens: nat, positions: nat)
    ensures
        rope_message(kind)
            == "this backbone implements the original rotary embedding, the config asks for "@
            + error::debug_chars(kind),
        positions_message(tokens, positions) == text::decimal(tokens) + " tokens but "@
            + text::decimal(positions) + " position ids"@,
{
}

} // verus!
