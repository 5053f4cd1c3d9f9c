use vstd::prelude::*;

verus! {

/// Options of the `decode` subcommand.
#[derive(Debug, Default, Clone)]
pub struct DecodeOpts {
    /// Path of a trained model file.
    pub model_path: String,
}

} // verus!
