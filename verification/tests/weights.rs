//! Which tensors a checkpoint is made of, and what is refused of them.

use rkev::names::{comes_before, Names};
use rkev::weights::{
    base_tensor, delta_fits, deltas_only, lora_tensors, shards, shorten, target_of, Ledger,
};

fn texts(list: &[&str]) -> Vec<String> {
    list.iter().map(|text| text.to_string()).collect()
}

fn set(list: &[&str]) -> Names {
    let mut names = Names::new();
    for name in list {
        names = names.insert(name);
    }
    names
}

/// What was read of a two-layer base, with an adapter for one of its projections.
fn ledger(extra: &[&str]) -> Ledger {
    let merged = lora_tensors("layers.0.self_attn.k_proj");
    let mut all = Names::new().insert(&merged[0].0).insert(&merged[0].1);
    for module in extra {
        for part in ["lora_A", "lora_B"] {
            all = all.insert(&format!("{module}.{part}.weight"));
        }
    }
    Ledger {
        all,
        used: Names::new().insert(&merged[0].0).insert(&merged[0].1),
        loaded: set(&[
            &base_tensor("layers.0.self_attn.k_proj.weight"),
            &base_tensor("layers.0.input_layernorm.weight"),
            &base_tensor("norm.weight"),
        ]),
    }
}

/// A LoRA pair the merge never applies is the quietest way to serve the wrong
/// model, so it has to be the loudest thing on load.
#[test]
fn an_adapter_tensor_the_merge_would_pass_over_is_refused() {
    // A norm this backbone reads, and merges nothing into: applying the adapter
    // would give different numbers, so loading must not look successful.
    let refused = ledger(&["base_model.model.layers.0.input_layernorm"])
        .adapter_fully_merged(false)
        .unwrap_err();
    let message = refused.message();
    assert!(
        message.contains("input_layernorm") && message.contains("never applied"),
        "{message}"
    );

    // The same for a prefix nothing here knows: if a checkpoint ever names its
    // modules differently, every delta would be skipped, not just this one.
    let wrapped = ledger(&["base_model.wrapped.layers.0.self_attn.k_proj"]);
    let refused = wrapped.adapter_fully_merged(false).unwrap_err();
    assert!(
        refused.message().contains("base_model.wrapped"),
        "{refused:?}"
    );
    assert!(refused.message().contains("KEV_ALLOW_UNUSED"));

    // And the escape hatch, for a checkpoint whose extra tensors have been read
    // and judged harmless.
    let loaded = wrapped.adapter_fully_merged(true);
    assert!(loaded.is_ok(), "{:?}", loaded.err());
    assert_eq!(loaded.unwrap().len(), 1);
}

/// The answers come from the hidden states, so an adapter for a module the
/// backbone never runs cannot move them: that is a warning, not a refusal.
#[test]
fn an_adapter_for_a_module_the_backbone_never_runs_still_loads() {
    // A vocabulary head: the answers never pass through one.
    let warnings = ledger(&["base_model.model.lm_head"])
        .adapter_fully_merged(false)
        .unwrap();

    assert_eq!(
        warnings,
        ["the adapter carries 2 tensor(s) for modules this backbone does not run, so they cannot \
          reach an answer: base_model.model.lm_head.lora_A.weight, \
          base_model.model.lm_head.lora_B.weight"]
    );
}

#[test]
fn an_adapter_that_was_merged_whole_loads_quietly() {
    assert_eq!(
        ledger(&[]).adapter_fully_merged(false).unwrap(),
        Vec::<String>::new()
    );
}

#[test]
fn a_delta_is_merged_under_the_first_name_that_is_there() {
    let path = "layers.0.self_attn.q_proj";
    let [near, far] = lora_tensors(path);
    let with = |held: &[&String]| {
        let mut all = Names::new().insert("other");
        for name in held {
            all = all.insert(name);
        }
        Ledger {
            all,
            used: set(&["before"]),
            loaded: Names::new(),
        }
    };

    let mut both = with(&[&near.0, &near.1, &far.0, &far.1]);
    assert_eq!(both.merge(path), Some(0));
    assert!(both.used.contains("before") && both.used.contains(&near.0));
    assert!(both.used.contains(&near.1) && !both.used.contains(&far.0));
    let mut second = with(&[&far.0, &far.1]);
    assert_eq!(second.merge(path), Some(1));
    assert_eq!(second.used.len(), 3);
    // The second factor alone is no pair, and what it is for stays unmerged.
    let mut none = with(&[&near.1]);
    assert_eq!(none.merge(path), None);
    assert_eq!(none.used.len(), 1);
    assert_eq!(none.read("layers.0.self_attn.q_proj.weight"), "model.layers.0.self_attn.q_proj.weight");
    assert!(none.loaded.contains("model.layers.0.self_attn.q_proj.weight"));
    assert!(none.adapter_fully_merged(false).is_err());
}

#[test]
fn an_adapter_name_leads_back_to_its_weight() {
    let names = lora_tensors("layers.1.mlp.up_proj");

    assert_eq!(
        names[0].0,
        "base_model.model.layers.1.mlp.up_proj.lora_A.weight"
    );
    assert_eq!(
        names[1].1,
        "base_model.model.model.layers.1.mlp.up_proj.lora_B.weight"
    );
    for (a, b) in &names {
        for name in [a, b] {
            assert_eq!(
                target_of(name).as_deref(),
                Some("model.layers.1.mlp.up_proj.weight")
            );
        }
    }
    assert_eq!(target_of("base_model.model.norm.weight"), None);
    assert_eq!(target_of("norm.lora_A.weight"), None);
}

#[test]
fn long_lists_are_cut_short() {
    assert_eq!(shorten(&texts(&["a", "b"])), "a, b");
    assert_eq!(
        shorten(&texts(&["a", "b", "c", "d", "e", "f"])),
        "a, b, c, d, and 2 more"
    );
}

#[test]
fn shards_are_read_in_order() {
    let files = texts(&[
        "model-00002.safetensors",
        "config.json",
        "model-00001.safetensors",
        ".safetensors",
    ]);

    assert_eq!(
        *shards(&files, "base").unwrap().list(),
        ["model-00001.safetensors", "model-00002.safetensors"]
    );
    assert_eq!(
        shards(&files[1..2], "base").unwrap_err().message(),
        "the local kev engine failed: no .safetensors in base"
    );
}

#[test]
fn an_adapter_with_trained_tokens_is_refused() {
    assert!(deltas_only(false).is_ok());
    assert_eq!(
        deltas_only(true).unwrap_err().message(),
        "the local kev engine failed: this adapter carries trained token embeddings, which are \
         not merged here"
    );
}

#[test]
fn a_delta_has_its_weights_shape() {
    assert!(delta_fits("layers.0", &[2, 3], &[2, 3]).is_ok());
    assert_eq!(
        delta_fits("layers.0", &[3, 2], &[2, 3])
            .unwrap_err()
            .message(),
        "the local kev engine failed: the adapter's delta for layers.0 is [3, 2], the weight is \
         [2, 3]"
    );
}

#[test]
fn names_are_kept_once_and_in_order() {
    let names = set(&["b", "a", "", "ab", "b"]);

    assert_eq!(*names.list(), ["", "a", "ab", "b"]);
    assert_eq!(names.len(), 4);
    assert!(names.contains("ab") && !names.contains("c"));
    assert_eq!(*set(&["ab", "b", "", "a"]).list(), *names.list());
}

#[test]
fn names_are_ordered_as_texts_are() {
    let list = ["", "a", "ab", "b", "\u{e9}", "\u{ffff}", "\u{10000}"];
    for a in list {
        for b in list {
            assert_eq!(comes_before(a, b), a < b, "{a:?} {b:?}");
        }
    }
}
