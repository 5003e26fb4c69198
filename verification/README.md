# rkev

Closed questions about a text, answered by a pointer head over a language model's
hidden states. A request holds a state and questions on it; every question names
its options. The library lays all of it out as one token sequence in which the
questions share the state and cannot read each other, and reads every option's
probability off the states at its end and at the question's `<decide>` token.

- `src/` is the library, verified with Verus: the request and answer types, the
  prompt and its escaping, the packed layout and the mask that follows from it, the
  prefix cache, the serving decisions, permuted asking, the reading of checkpoints,
  adapters, configurations and replies. Contracts are stated over mathematical views
  (`..View` types); what relates several functions stands beside them as public proof
  functions named `law_..`.
- `app/` is what stays outside: the tensor arithmetic of the backbones, softmax and
  rounding, files, HTTP, the async front and the serde copies of the wire types.
- `tests/` runs the library with the outside crates linked.

Calls into `indexmap`, `serde_json`, `tokenizers`, `zip` and `candle_core` that the
logic makes stand behind small functions whose doc comments say what is taken from
those crates without proof.
