use vstd::prelude::*;

verus! {

/// Options of a training run.
#[derive(Debug, Default, Clone)]
pub struct TrainSpec {
    /// Target size of the whole vocabulary.
    pub vocab_size: usize,
    /// Output path prefix (`<prefix>.vocab`, `<prefix>.model`).
    pub model_prefix: String,
    /// Path of the corpus, one sentence per line.
    pub input: String,
    /// Keep leading, trailing and repeated whitespace.
    pub keep_extra_whitespaces: bool,
    /// Train with the reference trainer instead of the incremental one.
    pub slow: bool,
}

} // verus!
