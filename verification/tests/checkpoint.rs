//! What is read out of a checkpoint's `head.pt`, over archives written here.

use std::io::{Cursor, Write};

use rkev::checkpoint::{
    find_tensor, holds_tensors_only, is_bare_state_dict, is_on, meta, option_isolation,
    pickle_entry, pickled, pointer_head, scalar, temperature, Scalar,
};
use rkev::error::Error;
use rkev::head::{Linear, PointerHead};
use rkev::number::Single;
use rkev::opcodes::is_tame;

fn text(bytes: &mut Vec<u8>, value: &str) {
    bytes.push(b'X');
    bytes.extend((value.len() as u32).to_le_bytes());
    bytes.extend(value.as_bytes());
}

fn whole(bytes: &mut Vec<u8>, value: i32) {
    bytes.push(b'J');
    bytes.extend(value.to_le_bytes());
}

fn global(bytes: &mut Vec<u8>, module: &str, name: &str) {
    bytes.push(b'c');
    bytes.extend(format!("{module}\n{name}\n").as_bytes());
}

/// A protocol-2 pickle, which is what `torch.save` writes by default:
/// `{"base": "...", "head": {"dp": 256}, "temperature": 2.34, "lora": 16}`.
/// Hand-assembled so the walk can be tested without torch.
fn pickled_meta() -> Vec<u8> {
    let mut bytes = vec![0x80, 0x02, b'}', b'q', 0x00, b'('];
    text(&mut bytes, "base");
    text(&mut bytes, "Qwen/Qwen3-4B-Base");
    // A nested dict the walk has to step over, holding a number of its own.
    text(&mut bytes, "head");
    bytes.extend(*b"}(");
    text(&mut bytes, "dp");
    whole(&mut bytes, 256);
    bytes.push(b'u');
    text(&mut bytes, "temperature");
    bytes.push(b'G');
    bytes.extend(2.34f64.to_be_bytes()); // pickle writes floats big-endian
    text(&mut bytes, "lora");
    whole(&mut bytes, 16);
    text(&mut bytes, "option_isolation");
    bytes.push(0x88); // NEWTRUE
    bytes.extend(*b"u.");
    bytes
}

fn unpickle(bytes: &[u8]) -> candle_core::pickle::Object {
    let mut stack = candle_core::pickle::Stack::empty();
    stack
        .read_loop(&mut std::io::BufReader::new(bytes))
        .unwrap();
    stack.finalize().unwrap()
}

fn archive(entries: &[(&str, &[u8])]) -> Vec<u8> {
    let mut archive = zip::ZipWriter::new(Cursor::new(Vec::new()));
    for (name, bytes) in entries {
        archive
            .start_file(*name, zip::write::SimpleFileOptions::default())
            .unwrap();
        archive.write_all(bytes).unwrap();
    }
    archive.finish().unwrap().into_inner()
}

fn number(value: Option<Scalar>) -> Option<f64> {
    value.map(|value| match value {
        Scalar::Float(bits) => f64::from_bits(bits),
        Scalar::Int(value) => value as f64,
        Scalar::Bool(value) => f64::from(u8::from(value)),
    })
}

#[test]
fn the_temperature_is_read_out_of_a_torch_saved_dict() {
    let meta = unpickle(&pickled_meta());

    assert_eq!(number(scalar(&meta, "temperature")), Some(2.34));
    // Integers count: a checkpoint could have saved 1 rather than 1.0.
    assert_eq!(number(scalar(&meta, "lora")), Some(16.0));
    // Nested values are found, but only after the top level.
    assert_eq!(number(scalar(&meta, "dp")), Some(256.0));
    // A checkpoint without one leaves the head raw rather than guessing.
    assert_eq!(number(scalar(&meta, "holdout")), None);
    assert_eq!(
        number(scalar(&meta, "base")),
        None,
        "a string is not a number"
    );
    // Saved as a Python bool, and read as one.
    assert_eq!(number(scalar(&meta, "option_isolation")), Some(1.0));
}

#[test]
fn a_number_comes_straight_out_of_a_pickle() {
    assert_eq!(number(pickled(&pickled_meta(), "lora").unwrap()), Some(16.0));
    assert_eq!(number(pickled(&pickled_meta(), "holdout").unwrap()), None);
    assert!(matches!(pickled(b"}", "lora"), Err(Error::Model(_))));
}

#[test]
fn a_checkpoint_says_whether_it_wants_option_isolation() {
    let file = archive(&[("archive/data.pkl", &pickled_meta())]);

    assert_eq!(
        option_isolation(Some("pt"), &|| Ok(file.clone()), "kev-head-isolation.pt").unwrap(),
        Some(true)
    );
}

#[test]
fn a_head_exported_as_safetensors_carries_no_metadata() {
    // The metadata questions have to answer "none" for such a file rather than
    // "that is not a torch archive", because none is what it can hold. Decided by
    // the extension, without reading: this one is not even a valid safetensors file.
    let path = "kev-head-plain.safetensors";
    let read = || Ok(b"not really".to_vec());

    assert_eq!(temperature(Some("safetensors"), &read, path).unwrap(), None);
    assert_eq!(option_isolation(Some("safetensors"), &read, path).unwrap(), None);

    let unread = || -> Result<Vec<u8>, Error> { panic!("such a file is not read") };
    assert_eq!(temperature(Some("safetensors"), &unread, path).unwrap(), None);
    assert_eq!(option_isolation(Some("safetensors"), &unread, path).unwrap(), None);
    // Any other file is an archive, or none.
    for extension in [Some("pt"), None] {
        assert!(!holds_tensors_only(extension));
        assert!(temperature(extension, &read, path).is_err());
    }
    let missing = || Err(Error::Engine(String::from("cannot read head.pt: gone")));
    assert_eq!(
        option_isolation(Some("pt"), &missing, "head.pt").unwrap_err().message(),
        "the local kev engine failed: cannot read head.pt: gone"
    );
}

#[test]
fn the_temperature_comes_out_of_a_head_pt_file() {
    // A torch archive is a zip with the pickle at <name>/data.pkl. A real one
    // holds the head's tensors beside it, in data/0 and friends, which the
    // temperature does not depend on.
    let file = archive(&[("archive/data.pkl", &pickled_meta())]);

    let found = number(
        temperature(Some("pt"), &|| Ok(file.clone()), "kev-head-temperature.pt").unwrap(),
    );

    assert_eq!(found.map(|value| value as f32), Some(2.34));
}

/// One `torch._utils._rebuild_tensor_v2` call, as protocol 2 pickles it: the
/// storage as a persistent id, then offset, size and stride.
fn pickled_tensor(bytes: &mut Vec<u8>, storage: &str, rows: usize, columns: usize) {
    global(bytes, "torch._utils", "_rebuild_tensor_v2");
    bytes.push(b'(');
    // The storage: ("storage", torch.FloatStorage, "<file>", "cpu", numel)
    bytes.push(b'(');
    text(bytes, "storage");
    global(bytes, "torch", "FloatStorage");
    text(bytes, storage);
    text(bytes, "cpu");
    whole(bytes, (rows * columns.max(1)) as i32);
    bytes.extend(*b"tQ");
    whole(bytes, 0); // storage offset
    bytes.push(b'(');
    whole(bytes, rows as i32);
    if columns > 0 {
        whole(bytes, columns as i32);
    }
    bytes.push(b't');
    bytes.push(b'(');
    whole(bytes, columns.max(1) as i32);
    if columns > 0 {
        whole(bytes, 1);
    }
    bytes.push(b't');
    bytes.push(0x88); // requires_grad
    bytes.extend(*b"tR");
}

/// A `head.pt` as it is saved: the metadata dict, the head's state dict under
/// `head` as an OrderedDict, and one zip entry per storage.
fn head_pt(temperature: f64, tensors: &[(&str, Vec<f32>, usize, usize)]) -> Vec<u8> {
    let mut pickle = vec![0x80, 0x02, b'}', b'q', 0x00, b'('];
    text(&mut pickle, "base");
    text(&mut pickle, "Qwen/Qwen3-4B-Base");
    text(&mut pickle, "temperature");
    pickle.push(b'G');
    pickle.extend(temperature.to_be_bytes());
    text(&mut pickle, "head");
    // An OrderedDict, which is what a torch state_dict pickles as.
    global(&mut pickle, "collections", "OrderedDict");
    pickle.extend(*b")R(");
    for (index, (name, _, rows, columns)) in tensors.iter().enumerate() {
        text(&mut pickle, name);
        pickled_tensor(&mut pickle, &index.to_string(), *rows, *columns);
    }
    pickle.extend(*b"uu.");

    let mut entries: Vec<(String, Vec<u8>)> = vec![(String::from("archive/data.pkl"), pickle)];
    for (index, (_, values, _, _)) in tensors.iter().enumerate() {
        let bytes = values.iter().flat_map(|v| v.to_le_bytes()).collect();
        entries.push((format!("archive/data/{index}"), bytes));
    }
    let entries: Vec<(&str, &[u8])> = entries
        .iter()
        .map(|(name, bytes)| (name.as_str(), bytes.as_slice()))
        .collect();
    archive(&entries)
}

fn names(list: &[&str]) -> Vec<String> {
    list.iter().map(|name| name.to_string()).collect()
}

/// Tensors of a head, by name, with their values, rows and columns.
type Tensors<'a> = [(&'a str, Vec<f32>, usize, usize)];

/// The head of a file with these tensors, and of this archive where it is one.
fn read_head(
    tensors: &Tensors<'_>,
    file: Option<&[u8]>,
    shown: &str,
    allowed: bool,
) -> Result<(PointerHead<f32>, Option<String>), Error> {
    let list: Vec<String> = tensors.iter().map(|(name, ..)| name.to_string()).collect();
    let matrix = |at: usize| match &tensors[at] {
        (_, values, _, columns) if *columns > 0 => Ok((values.clone(), *columns)),
        _ => Err(Error::Model(String::from("unexpected rank"))),
    };
    let vector = |at: usize| match &tensors[at] {
        (_, values, _, 0) => Ok(values.clone()),
        _ => Err(Error::Model(String::from("unexpected rank"))),
    };
    let narrow = |value: Scalar| {
        let value = number(Some(value)).unwrap() as f32;
        (
            Single {
                bits: value.to_bits(),
            },
            value.to_string(),
        )
    };
    pointer_head(&list, file, shown, allowed, &matrix, &vector, &narrow)
}

fn four(extra: Vec<(&'static str, Vec<f32>, usize, usize)>) -> Vec<(&'static str, Vec<f32>, usize, usize)> {
    let (hidden, pointer) = (4usize, 3usize);
    let weight: Vec<f32> = (0..pointer * hidden).map(|i| i as f32 / 8.0).collect();
    let bias: Vec<f32> = (0..pointer).map(|i| i as f32 / 10.0).collect();
    let mut all = vec![
        ("q.weight", weight.clone(), pointer, hidden),
        ("q.bias", bias.clone(), pointer, 0),
        ("k.weight", weight, pointer, hidden),
        ("k.bias", bias, pointer, 0),
    ];
    all.extend(extra);
    all
}

/// A head with more in it than two projections, or with two candidates for one of
/// them, is refused rather than read half.
#[test]
fn a_head_with_tensors_this_readout_does_not_use_is_refused() {
    let (hidden, pointer) = (4usize, 3usize);
    let weight: Vec<f32> = (0..pointer * hidden).map(|i| i as f32 / 8.0).collect();
    let bias: Vec<f32> = (0..pointer).map(|i| i as f32 / 10.0).collect();

    // A third projection: structure that would be silently dropped.
    let extra = four(vec![
        ("out.weight", weight.clone(), pointer, hidden),
        ("out.bias", bias.clone(), pointer, 0),
    ]);
    let file = head_pt(1.0, &extra);
    let refused = read_head(&extra, Some(&file), "kev-head-extra.pt", false)
        .unwrap_err()
        .message();
    assert!(
        refused.contains("out.weight") && refused.contains("does not use"),
        "{refused}"
    );
    assert_eq!(
        refused,
        "the local kev engine failed: kev-head-extra.pt holds 2 tensor(s) this readout does not \
         use: [\"out.weight\", \"out.bias\"]. A Kev pointer head is two projections, `q` on the \
         <decide> state and `k` on each </opt>; anything more is structure that would be silently \
         dropped. Set KEV_ALLOW_UNUSED=1 to load anyway."
    );

    // And the same file loads once the caller has said it may.
    let allowed = read_head(&extra, Some(&file), "kev-head-extra.pt", true);
    assert!(allowed.is_ok(), "{:?}", allowed.err());
    assert!(allowed.unwrap().1.unwrap().contains("out.weight"));

    // Two candidates for `q.weight`: picking the first would decide the
    // orientation by the order the file happens to list them in.
    let ambiguous = four(vec![("pointer.q.weight", weight, pointer, hidden)]);
    let file = head_pt(1.0, &ambiguous);
    let refused = read_head(&ambiguous, Some(&file), "kev-head-ambiguous.pt", false)
        .unwrap_err()
        .message();
    assert!(
        refused.contains("two candidates") && refused.contains("file order"),
        "{refused}"
    );
}

#[test]
fn a_whole_head_is_read_by_its_names() {
    let tensors = vec![
        ("head.k.bias", vec![5.0f32], 1, 0),
        ("head.q.weight", vec![1.0, 2.0], 1, 2),
        ("head.q.bias", vec![0.0], 1, 0),
        ("head.k.weight", vec![3.0, 4.0], 1, 2),
    ];

    let (head, warning) = read_head(&tensors, None, "head.safetensors", false).unwrap();

    assert!(warning.is_none());
    assert_eq!((head.hidden_size(), head.pointer_size()), (2, 1));
    // q(1, 1) = 3; k(1, 0) = 3 + 5 = 8.
    assert_eq!(
        head.logits(&[1.0, 1.0], &[vec![1.0, 0.0]], &project, &scaled_dot)
            .unwrap(),
        [24.0]
    );
}

#[test]
fn the_order_of_a_files_tensors_changes_no_head() {
    let tensors = vec![
        ("q.weight", vec![1.0f32, 2.0], 1, 2),
        ("q.bias", vec![0.0], 1, 0),
        ("k.weight", vec![3.0, 4.0], 1, 2),
        ("k.bias", vec![5.0], 1, 0),
    ];
    let turned: Vec<_> = tensors.iter().rev().cloned().collect();

    for order in [tensors, turned] {
        let list: Vec<String> = order.iter().map(|(name, ..)| name.to_string()).collect();
        for suffix in ["q.weight", "q.bias", "k.weight", "k.bias"] {
            assert_eq!(list[find_tensor(&list, suffix, "head.pt").unwrap()], suffix);
        }
        let (head, _) = read_head(&order, None, "head.safetensors", false).unwrap();
        assert_eq!(
            head.logits(&[1.0, 1.0], &[vec![1.0, 0.0]], &project, &scaled_dot)
                .unwrap(),
            [24.0]
        );
    }
}

#[test]
fn a_head_of_other_shapes_is_refused() {
    let refused = |tensors: &Tensors<'_>| {
        read_head(tensors, None, "head.safetensors", false)
            .unwrap_err()
            .message()
    };

    // A weight of one row is no matrix, and a bias of rows no vector.
    let mut tensors = four(vec![]);
    tensors[0].3 = 0;
    assert_eq!(refused(&tensors), "the model failed: unexpected rank");
    let mut tensors = four(vec![]);
    tensors[3].3 = 1;
    assert_eq!(refused(&tensors), "the model failed: unexpected rank");
    // A bias too short for its weight.
    let mut tensors = four(vec![]);
    tensors[1].1.pop();
    assert!(refused(&tensors).contains("a 2x4 linear needs 8 weights"));
    // Projections into different spaces.
    let mut tensors = four(vec![]);
    tensors[3].1 = vec![0.0; 2];
    tensors[2].1.truncate(8);
    assert!(refused(&tensors).contains("projections disagree: query is 3x4, key is 2x4"));
}

#[test]
fn a_head_with_a_useless_temperature_is_refused() {
    let file = head_pt(-2.0, &four(vec![]));

    let refused = read_head(&four(vec![]), Some(&file), "head.pt", false).unwrap_err();

    assert_eq!(
        refused.message(),
        "the local kev engine failed: the pointer head's temperature must be positive, got -2"
    );
}

#[test]
fn a_head_without_a_projection_is_refused() {
    let list = names(&["q.weight", "seq.bias"]);

    let refused = find_tensor(&list, "q.bias", "head.pt").unwrap_err();

    // A name only ends in `.q.bias` behind a dot.
    assert_eq!(
        refused.message(),
        "the local kev engine failed: head.pt has no q.bias; it holds [\"q.weight\", \"seq.bias\"]"
    );
}

fn project(row: &[f32], bias: &f32, x: &[f32]) -> f32 {
    bias + row.iter().zip(x).map(|(w, x)| w * x).sum::<f32>()
}

fn scaled_dot(key: &[f32], query: &[f32], temperature: Single) -> f32 {
    let scale = 1.0 / (query.len() as f32).sqrt();
    let score: f32 = key.iter().zip(query).map(|(k, q)| k * q).sum();
    score * scale / f32::from_bits(temperature.bits)
}

#[test]
fn a_pointer_head_is_loaded_from_head_pt_with_its_calibration() {
    // The projections out of the state dict under `head`, and the temperature out
    // of the metadata beside it.
    let (hidden, pointer) = (4usize, 3usize);
    let weight: Vec<f32> = (0..pointer * hidden)
        .map(|i| (i as f32 - 5.0) / 4.0)
        .collect();
    let bias: Vec<f32> = (0..pointer).map(|i| i as f32 / 10.0).collect();
    let tensors = [
        ("q.weight", weight.clone(), pointer, hidden),
        ("q.bias", bias.clone(), pointer, 0),
        ("k.weight", weight.clone(), pointer, hidden),
        ("k.bias", bias.clone(), pointer, 0),
    ];
    let file = head_pt(2.34, &tensors);
    let projection = || Linear::new(weight.clone(), bias.clone(), hidden).unwrap();

    let (loaded, _) =
        read_head(&tensors, Some(&file), "kev-head-with-calibration.pt", false).unwrap();
    let expected = PointerHead::new(projection(), projection()).unwrap();

    let decide = vec![0.3, -0.7, 1.1, 0.5];
    let options = vec![vec![1.0, 0.2, -0.4, 0.8], vec![-0.6, 0.9, 0.1, -0.3]];
    let raw = expected
        .logits(&decide, &options, &project, &scaled_dot)
        .unwrap();
    let calibrated = loaded
        .logits(&decide, &options, &project, &scaled_dot)
        .unwrap();

    assert_eq!(raw.len(), 2);
    for (raw, calibrated) in raw.iter().zip(&calibrated) {
        // Same weights, and the checkpoint's temperature divided in.
        assert!(
            (raw / 2.34 - calibrated).abs() < 1e-5,
            "{raw} / 2.34 vs {calibrated}"
        );
        assert!(raw.abs() > 1e-3, "the test weights produce no signal");
    }
    // The tensors are walked over, and hold no numbers of the metadata.
    assert_eq!(
        option_isolation(Some("pt"), &|| Ok(file.clone()), "head.pt").unwrap(),
        None
    );
}

#[test]
fn a_file_that_is_not_a_torch_archive_says_so() {
    let error = temperature(
        Some("pt"),
        &|| Ok(b"this is not a zip".to_vec()),
        "kev-head-not-an-archive.pt",
    )
    .unwrap_err();

    assert!(error.message().contains("torch archive"), "{error:?}");
    assert!(error
        .message()
        .starts_with("the local kev engine failed: kev-head-not-an-archive.pt is not a torch archive: "));
}

#[test]
fn an_archive_without_a_pickle_says_so() {
    let file = archive(&[("archive/data/0", b"1234"), ("archive/version", b"3")]);

    let error = meta(&file, "head.pt", "temperature").unwrap_err();

    assert_eq!(
        error.message(),
        "the local kev engine failed: head.pt holds no data.pkl"
    );
}

#[test]
fn a_broken_pickle_is_a_model_error() {
    let file = archive(&[("archive/data.pkl", b"\x80\x02\xff")]);

    let error = meta(&file, "head.pt", "temperature").unwrap_err();

    assert!(error.message().starts_with("the model failed: "), "{error:?}");
}

/// What is said of a pickle that is refused unread.
fn refusal(pickle: &[u8]) -> Option<String> {
    let file = archive(&[("archive/data.pkl", pickle)]);
    meta(&file, "head.pt", "seed").err().map(|e| e.message())
}

#[test]
fn an_integer_too_wide_for_the_reader_is_refused() {
    // {"seed": <integer>}, of so many bytes.
    let pickle = |width: u8| {
        let mut bytes = vec![0x80, 0x02, b'}', b'('];
        text(&mut bytes, "seed");
        bytes.extend([0x8a, width]);
        bytes.extend((1..=width).collect::<Vec<u8>>());
        bytes.extend(*b"u.");
        bytes
    };

    let file = archive(&[("archive/data.pkl", &pickle(3))]);
    assert_eq!(
        meta(&file, "head.pt", "seed").unwrap(),
        Some(Scalar::Int(0x03_02_01))
    );
    assert!(is_tame(&pickle(8)) && refusal(&pickle(8)).is_none());
    for width in [9, 32, 255] {
        assert!(!is_tame(&pickle(width)));
        assert_eq!(
            refusal(&pickle(width)).unwrap(),
            "the model failed: the pickle holds an integer of more than eight bytes, or nests \
             deeper or repeats more than can be read"
        );
    }
}

#[test]
fn a_pickle_that_nests_too_deep_is_refused() {
    // One-element tuples around a number.
    let nested = |levels: usize| {
        let mut bytes = vec![0x80, 0x02, b'K', 7];
        bytes.extend(vec![0x85; levels]);
        bytes.push(b'.');
        bytes
    };

    assert!(is_tame(&nested(127)) && refusal(&nested(127)).is_none());
    assert!(!is_tame(&nested(128)) && refusal(&nested(128)).is_some());
    assert!(refusal(&nested(1_000_000)).is_some());
    // As many side by side nest no deeper: (7,), (7,), ... in one list.
    let mut flat = vec![0x80, 0x02, b']', b'('];
    for _ in 0..1000 {
        flat.extend([b'K', 7, 0x85]);
    }
    flat.extend(*b"e.");
    assert!(is_tame(&flat) && refusal(&flat).is_none());
    // And lists within lists do, whichever opcode puts them there.
    let mut lists = vec![0x80, 0x02];
    lists.extend(vec![b']'; 200]);
    lists.extend(vec![b'a'; 199]);
    lists.push(b'.');
    assert!(!is_tame(&lists));
}

#[test]
fn a_pickle_that_repeats_itself_without_end_is_refused() {
    // Each tuple holds the one before it twice.
    let mut bytes = vec![0x80, 0x02, b'K', 7];
    for _ in 0..40 {
        bytes.extend([b'q', 0, b'h', 0, 0x86]);
    }
    bytes.push(b'.');

    assert!(!is_tame(&bytes) && refusal(&bytes).is_some());
}

#[test]
fn a_text_longer_than_its_pickle_is_refused() {
    assert!(!is_tame(b"\x80\x02X\xff\xff\xff\xffab."));
    // Where the reader gives up by itself, it is left to.
    assert!(is_tame(b"\x80\x02\xff") && is_tame(b"") && is_tame(b"\x80\x02t.") && is_tame(b"J\x01"));
    assert!(refusal(b"\x80\x02t.").unwrap().contains("marker"));
}

#[test]
fn a_pickle_with_a_wrong_checksum_is_taken_for_what_it_says() {
    let mut file = archive(&[("archive/data.pkl", &pickled_meta())]);
    // The checksum stands sixteen bytes into the entry's line of the directory.
    let directory = file.windows(4).position(|four| four == b"PK\x01\x02").unwrap();
    file[directory + 16] ^= 1;

    let found = meta(&file, "head.pt", "temperature").unwrap();

    assert_eq!(number(found), Some(2.34));
}

#[test]
fn the_pickle_is_the_first_entry_that_is_called_so() {
    let list = names(&["archive/version", "archive/data.pkl", "other/data.pkl"]);

    assert_eq!(pickle_entry(&list), Some(1));
    assert_eq!(pickle_entry(&list[..1]), None);
}

#[test]
fn a_shallower_number_wins() {
    // {"head": {"temperature": 9}, "temperature": 2}, nested first.
    let mut bytes = vec![0x80, 0x02, b'}', b'('];
    text(&mut bytes, "head");
    bytes.extend(*b"}(");
    text(&mut bytes, "temperature");
    whole(&mut bytes, 9);
    bytes.push(b'u');
    text(&mut bytes, "temperature");
    whole(&mut bytes, 2);
    bytes.extend(*b"u.");

    let found = scalar(&unpickle(&bytes), "temperature");

    assert_eq!(found, Some(Scalar::Int(2)));
}

#[test]
fn the_shallower_of_two_nested_numbers_wins() {
    // {"a": [{"temperature": 9}], "b": {"temperature": 2}, "c": [{"temperature": 7}]}:
    // whichever end the entries are walked from, a deeper number comes first.
    let mut bytes = vec![0x80, 0x02, b'}', b'('];
    text(&mut bytes, "a");
    bytes.extend(*b"](}(");
    text(&mut bytes, "temperature");
    whole(&mut bytes, 9);
    bytes.extend(*b"ue");
    text(&mut bytes, "b");
    bytes.extend(*b"}(");
    text(&mut bytes, "temperature");
    whole(&mut bytes, 2);
    bytes.push(b'u');
    text(&mut bytes, "c");
    bytes.extend(*b"](}(");
    text(&mut bytes, "temperature");
    whole(&mut bytes, 7);
    bytes.extend(*b"ueu.");
    let object = unpickle(&bytes);

    assert_eq!(scalar(&object, "temperature"), Some(Scalar::Int(2)));
    // A key that nothing is stored under, at any depth, and one that holds no number.
    assert_eq!(scalar(&object, "lora"), None);
    assert_eq!(scalar(&object, "a"), None);
}

#[test]
fn a_number_deep_inside_is_found() {
    // {"a": [{"temperature": 9}]}
    let mut bytes = vec![0x80, 0x02, b'}', b'('];
    text(&mut bytes, "a");
    bytes.extend(*b"](}(");
    text(&mut bytes, "temperature");
    whole(&mut bytes, 9);
    bytes.extend(*b"ueu.");

    assert_eq!(
        scalar(&unpickle(&bytes), "temperature"),
        Some(Scalar::Int(9))
    );
}

#[test]
fn a_setting_is_on_unless_it_is_zero() {
    assert!(is_on(Scalar::Bool(true)) && !is_on(Scalar::Bool(false)));
    assert!(is_on(Scalar::Int(-1)) && !is_on(Scalar::Int(0)));
    assert!(is_on(Scalar::Float(0.5f64.to_bits())));
    assert!(!is_on(Scalar::Float(0f64.to_bits())));
    assert!(!is_on(Scalar::Float((-0f64).to_bits())));
    assert!(is_on(Scalar::Float(f64::NAN.to_bits())));
}

#[test]
fn a_head_under_its_key_is_read_before_a_bare_state_dict() {
    assert!(!is_bare_state_dict(Some(4)));
    assert!(!is_bare_state_dict(Some(1)));
    assert!(is_bare_state_dict(Some(0)));
    assert!(is_bare_state_dict(None));
}
