//! Which configs are run and which are refused.

use rkev::number::Real;
use rkev::qwen3;
use rkev::qwen3::{layer_path, positioned, LayerNames, RopeParameters};
use rkev::qwen3_5;
use rkev::qwen3_5::{layer_kind, same_kind, same_model, walk, Chunking, Kept, LayerKind, RecurrenceNames};
use rkev::error::Error;

fn bits(x: f64) -> Real {
    Real { bits: x.to_bits() }
}

fn rope(rope_type: Option<&str>, kind: Option<&str>) -> Option<RopeParameters> {
    Some(RopeParameters {
        rope_type: rope_type.map(String::from),
        kind: kind.map(String::from),
        rope_theta: Some(bits(1e6)),
        partial_rotary_factor: None,
    })
}

fn texts(list: &[&str]) -> Vec<String> {
    list.iter().map(|text| text.to_string()).collect()
}

fn attention() -> qwen3::Config {
    qwen3::Config {
        hidden_size: 32,
        intermediate_size: 64,
        num_hidden_layers: 2,
        num_attention_heads: 4,
        num_key_value_heads: 2,
        head_dim: None,
        rms_norm_eps: bits(1e-6),
        rope_theta: None,
        rope_parameters: None,
        rope_scaling: None,
        vocab_size: 22,
        layer_types: None,
        sliding_window: None,
        use_sliding_window: false,
        attention_bias: false,
    }
}

fn hybrid() -> qwen3_5::Config {
    qwen3_5::Config {
        hidden_size: 32,
        intermediate_size: 64,
        num_hidden_layers: 2,
        num_attention_heads: 4,
        num_key_value_heads: 2,
        head_dim: Some(16),
        rms_norm_eps: bits(1e-6),
        vocab_size: 22,
        layer_types: texts(&["linear_attention", "full_attention"]),
        linear_conv_kernel_dim: 4,
        linear_key_head_dim: 8,
        linear_value_head_dim: 6,
        linear_num_key_heads: 2,
        linear_num_value_heads: 4,
        rope_theta: None,
        rope_parameters: None,
        rope_scaling: None,
        attention_bias: false,
    }
}

fn refused(config: &qwen3::Config) -> String {
    config.supported().unwrap_err().message()
}

fn refused_hybrid(config: &qwen3_5::Config) -> String {
    config.supported().unwrap_err().message()
}

#[test]
fn a_plain_attention_config_is_run() {
    let mut config = attention();
    assert!(config.supported().is_ok());
    assert_eq!(config.head_dim(), 8);

    config.head_dim = Some(16);
    config.layer_types = Some(texts(&["full_attention", "full_attention"]));
    config.rope_scaling = rope(None, Some("default"));
    config.sliding_window = Some(4096);
    assert!(config.supported().is_ok());
    assert_eq!(config.head_dim(), 16);
}

#[test]
fn an_attention_backbone_refuses_what_it_would_answer_wrongly() {
    let engine = "the local kev engine failed: ";

    let mut config = attention();
    config.layer_types = Some(texts(&["full_attention", "linear_attention"]));
    assert_eq!(
        refused(&config),
        format!(
            "{engine}this backbone is attention-only; the hybrid Qwen3.5 bases (Gated DeltaNet \
             layers) are not implemented"
        )
    );

    let mut config = attention();
    config.use_sliding_window = true;
    config.sliding_window = Some(4096);
    assert_eq!(
        refused(&config),
        format!("{engine}sliding-window attention is not implemented")
    );

    let mut config = attention();
    config.rope_parameters = rope(Some("yarn"), Some("default"));
    assert_eq!(
        refused(&config),
        format!(
            "{engine}this backbone implements the original rotary embedding, the config asks for \
             \"yarn\""
        )
    );

    let mut config = attention();
    config.rope_scaling = rope(None, Some("linear"));
    assert!(refused(&config).ends_with("\"linear\""));

    let mut config = attention();
    config.attention_bias = true;
    assert!(refused(&config).contains("reads no attention bias"));

    let mut config = attention();
    config.num_key_value_heads = 3;
    assert_eq!(
        refused(&config),
        format!("{engine}the attention heads do not divide into the key/value heads")
    );
}

#[test]
fn the_rotary_base_is_at_the_top_or_in_the_rope_block() {
    let mut config = attention();
    assert_eq!(
        config.rope_theta().unwrap_err().message(),
        "the local kev engine failed: the config states no rope_theta"
    );
    config.rope_parameters = rope(None, None);
    assert_eq!(config.rope_theta().unwrap().bits, 1e6f64.to_bits());
    config.rope_theta = Some(bits(5e5));
    assert_eq!(config.rope_theta().unwrap().bits, 5e5f64.to_bits());
}

#[test]
fn a_plain_hybrid_config_is_run() {
    let config = hybrid();

    assert!(config.supported().is_ok());
    assert!(config.is_hybrid());
    assert_eq!(config.head_dim(), 16);
    assert_eq!(config.rotary_factor().bits, 0.25f64.to_bits());
    assert_eq!(qwen3_5::Config::rotary_dim(7), 6);
    assert_eq!(qwen3_5::Config::rotary_dim(4), 4);

    let shape = config.recurrence();
    assert_eq!((shape.keys, shape.values), (16, 24));
    assert_eq!((shape.window, shape.group), (3, 2));
    assert_eq!(shape.channels(), 56);
    assert_eq!(shape.ranges(), [(0, 16), (16, 16), (32, 24)]);
}

#[test]
fn a_hybrid_backbone_refuses_what_it_would_answer_wrongly() {
    let engine = "the local kev engine failed: ";

    let mut config = hybrid();
    config.num_hidden_layers = 3;
    assert_eq!(
        refused_hybrid(&config),
        format!("{engine}2 layer types for 3 layers")
    );

    let mut config = hybrid();
    config.layer_types = texts(&["full_attention", "mamba"]);
    assert_eq!(
        refused_hybrid(&config),
        format!("{engine}unknown layer type \"mamba\"")
    );

    let mut config = hybrid();
    config.rope_parameters = rope(Some("mrope"), None);
    assert!(refused_hybrid(&config).ends_with("\"mrope\""));

    let mut config = hybrid();
    config.rope_scaling = rope(Some("mrope"), None);
    assert!(refused_hybrid(&config).ends_with("\"mrope\""));

    let mut config = hybrid();
    config.attention_bias = true;
    assert!(refused_hybrid(&config).contains("reads no attention bias"));

    let mut config = hybrid();
    config.linear_conv_kernel_dim = 1;
    assert_eq!(
        refused_hybrid(&config),
        format!("{engine}a convolution kernel below 2 is not implemented")
    );

    let mut config = hybrid();
    config.linear_num_value_heads = 5;
    assert_eq!(
        refused_hybrid(&config),
        format!("{engine}the heads do not divide into the key/value heads")
    );
}

#[test]
fn a_hybrid_config_gets_the_hybrid_backbone() {
    let config = hybrid();
    assert!(config.is_hybrid(), "the recurrence was not noticed");
    assert!(qwen3_5::any_recurrent(&config.layer_types));
    assert_eq!(config.hidden_size, 32);
    for types in [
        vec!["linear_attention"],
        vec!["full_attention", "linear_attention"],
        vec!["full_attention", "full_attention", "linear_attention", "full_attention"],
    ] {
        assert!(qwen3_5::any_recurrent(&texts(&types)), "{types:?}");
    }
}

#[test]
fn an_attention_only_config_gets_the_attention_only_backbone() {
    // Which backbone a checkpoint needs is in its config: no `layer_types`, or none of
    // them recurrent, means every layer is attention and a whole request can run as one
    // masked pass.
    let config = attention();
    assert!(!config
        .layer_types
        .as_deref()
        .is_some_and(qwen3_5::any_recurrent));
    assert_eq!(config.hidden_size, 32);
    for types in [
        vec![],
        vec!["full_attention"],
        vec!["full_attention", "full_attention"],
        vec!["sliding_attention", "Linear_attention", "linear_attention "],
    ] {
        assert!(!qwen3_5::any_recurrent(&texts(&types)), "{types:?}");
    }
}

#[test]
fn what_a_hybrid_config_leaves_unsaid() {
    assert_eq!(qwen3_5::four(), 4);
    assert_eq!(qwen3_5::sixteen(), 16);
    assert_eq!(qwen3_5::thirty_two(), 32);
    assert_eq!(qwen3_5::one_twenty_eight(), 128);
    assert!(!qwen3_5::any_recurrent(&[]));
    let mut config = hybrid();
    config.rope_parameters = Some(RopeParameters {
        rope_type: None,
        kind: None,
        rope_theta: None,
        partial_rotary_factor: Some(bits(0.5)),
    });
    assert_eq!(config.rotary_factor().bits, 0.5f64.to_bits());
    assert!(config.rope_theta().is_err());
}

#[test]
fn tensors_are_named_by_their_layer() {
    assert_eq!(layer_path(10, "x"), "layers.10.x");
    let names = LayerNames::at(3);
    assert_eq!(names.q_proj, "layers.3.self_attn.q_proj");
    assert_eq!(names.post_attention_norm, "layers.3.post_attention_layernorm");
    assert_eq!(names.down_proj, "layers.3.mlp.down_proj");
    let names = RecurrenceNames::at(0);
    assert_eq!(names.a_log, "layers.0.linear_attn.A_log");
    assert_eq!(names.in_proj_qkv, "layers.0.linear_attn.in_proj_qkv");
}

#[test]
fn every_token_has_a_position() {
    assert!(positioned(3, 3).is_ok());
    assert_eq!(
        positioned(3, 2).unwrap_err().message(),
        "the local kev engine failed: 3 tokens but 2 position ids"
    );
}

#[test]
fn a_prefix_fits_the_model_that_made_it() {
    assert_eq!(layer_kind("linear_attention"), LayerKind::Recurrence);
    assert_eq!(layer_kind("full_attention"), LayerKind::Attention);
    assert!(same_model(2, 2).is_ok());
    assert!(same_model(1, 2)
        .unwrap_err()
        .message()
        .contains("prefilled by another model"));
    assert!(same_kind(LayerKind::Attention, None).is_ok());
    assert!(same_kind(LayerKind::Attention, Some(LayerKind::Attention)).is_ok());
    assert!(
        same_kind(LayerKind::Attention, Some(LayerKind::Recurrence))
            .unwrap_err()
            .message()
            .contains("the wrong way round")
    );
}

#[test]
fn tokens_go_through_every_layer_in_turn() {
    let kinds = [LayerKind::Recurrence, LayerKind::Attention];
    // A layer appends its index, and what a state kept of it.
    let step = |i: usize, x: &Vec<usize>, past: Option<&usize>| {
        if x.len() > 8 {
            return Err(Error::Model(String::from("too long")));
        }
        let mut next = x.clone();
        next.push(i);
        next.extend(past);
        Ok((next, 10 * i + x.len()))
    };

    let (end, kept) = walk(vec![7], &kinds, None, &step).unwrap();
    assert_eq!(end, [7, 0, 1]);
    let values: Vec<usize> = kept.iter().map(|kept| kept.value).collect();
    assert_eq!(values, [1, 12]);
    assert!(kept.iter().zip(&kinds).all(|(kept, kind)| kept.kind == *kind));

    // Continuing, every layer gets what was kept of it.
    let (end, _) = walk(vec![7], &kinds, Some(&kept), &step).unwrap();
    assert_eq!(end, [7, 0, 1, 1, 12]);

    let failed = walk(vec![7; 9], &kinds, None, &step).unwrap_err();
    assert!(matches!(failed, Error::Model(_)));
    let other = walk(vec![7], &kinds, Some(&kept[..1]), &step).unwrap_err();
    assert!(other.message().contains("prefilled by another model"));
    let swapped = [LayerKind::Attention, LayerKind::Recurrence];
    let wrong = walk(vec![7], &swapped, Some(&kept), &step).unwrap_err();
    assert!(wrong.message().contains("the wrong way round"));
    let none: [Kept<usize>; 0] = [];
    assert_eq!(walk(vec![7], &[], Some(&none), &step).unwrap().0, [7]);
}

#[test]
fn tokens_are_taken_in_chunks_or_one_by_one() {
    let alone = Chunking::default();
    assert_eq!(alone.pieces(0), []);
    assert_eq!(alone.pieces(2), [(0, 1), (1, 1)]);
    assert_eq!(alone.pieces(64), [(0, 64)]);
    assert_eq!(alone.pieces(130), [(0, 64), (64, 64), (128, 2)]);

    let small = alone.with_chunk_size(2).unwrap();
    assert_eq!(small.pieces(1), [(0, 1)]);
    assert_eq!(small.pieces(5), [(0, 2), (2, 2), (4, 1)]);

    let never = small.with_chunked_recurrence(false);
    assert_eq!(never.pieces(3), [(0, 1), (1, 1), (2, 1)]);
    let always = alone.with_chunked_recurrence(true);
    assert_eq!(always.pieces(3), [(0, 3)]);
}

#[test]
fn a_chunk_of_no_tokens_is_refused() {
    let error = Chunking::default().with_chunk_size(0).unwrap_err();

    assert!(matches!(error, Error::Engine(ref m) if m == "a chunk covers one token at least"));
}

#[test]
fn every_token_is_in_one_piece_and_no_other() {
    for size in 1..9 {
        let pieces = Chunking::default()
            .with_chunk_size(size)
            .unwrap()
            .with_chunked_recurrence(true)
            .pieces(21);
        for token in 0..21 {
            let holding = pieces
                .iter()
                .filter(|(start, taken)| (*start..start + taken).contains(&token));
            assert_eq!(holding.count(), 1);
        }
    }
}
