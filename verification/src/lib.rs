//! Decisions from small models: a state, a set of questions about it, and
//! probabilities instead of a single label.
//!
//! A request is a state (a support ticket, a document, any text) and questions that
//! share it but cannot read each other. It becomes one layout of tokens, one forward
//! pass over a backbone, and one small pointer head that reads the hidden states at
//! a few positions. Nothing is generated.
//!
//! This crate holds everything about that which can be stated and proved: the text
//! of the prompt, the layout and who may read whom, what is run, shared and kept,
//! how hidden states become answers, how answers are written and billed, which
//! checkpoints are read and which are refused. What calculates with floating-point
//! numbers is handed in by the caller, and numbers are held by their bits.
//!
//! * [`types`], [`value`], [`table`]: requests, answers and the ordered tables in them.
//! * [`prompt`], [`encode`], [`pass`], [`layout`]: from a request to a forward pass.
//! * [`local`], [`permute`]: the engine over a [`Forward`] backend.
//! * [`backend`], [`cache`], [`mask`]: how a loaded backbone takes its passes.
//! * [`head`], [`readout`]: from hidden states to answers.
//! * [`checkpoint`], [`opcodes`], [`weights`], [`tokenizer`], [`steps`], [`qwen3`], [`qwen3_5`]: what a
//!   checkpoint has to hold.
//! * [`client`], [`error`]: talking to a server, and everything that can go wrong.
//! * [`text`], [`number`], [`names`]: what the rest is built with.

pub mod backend;
pub mod cache;
pub mod checkpoint;
pub mod client;
pub mod encode;
pub mod error;
pub mod head;
pub mod layout;
pub mod local;
pub mod mask;
pub mod names;
pub mod number;
pub mod opcodes;
pub mod pass;
pub mod permute;
pub mod prompt;
pub mod qwen3;
pub mod qwen3_5;
pub mod readout;
pub mod steps;
pub mod table;
pub mod text;
pub mod tokenizer;
pub mod types;
pub mod value;
pub mod weights;

pub use backend::Backend;
pub use checkpoint::{option_isolation, pointer_head, temperature};
pub use client::{Client, DEFAULT_BASE_URL};
pub use encode::{Limits, OptionSlot, DECIDE, OPTION, OPTION_END, QUESTION, SPECIAL, STATE};
pub use error::Error;
pub use head::{Linear, PointerHead};
pub use local::{Forward, LocalEngine, DEFAULT_MODEL};
pub use pass::{OwnedPass, Pass};
pub use prompt::render;
pub use readout::answers_json;
pub use types::{
    Answer, Choice, Noul, NoulCriteria, Question, Score, SystemOneRequest, SystemOneResponse, Usage,
};
