//! Run configuration: file locations, text preprocessing switches and the
//! match options proper.

use vstd::prelude::*;

verus! {

/// Where records are read from and where matches are written.
pub struct IoArgs {
    /// Match names from this file...
    pub from_file: String,
    /// ...to names in this file.
    pub to_file: String,
    /// Save matches to this filepath.
    pub output_file: String,
}

/// Switches of the external tokenization step.  The core treats the
/// tokenizer as opaque; these ride along for the callers that run it.
pub struct PreprocessingOptions {
    /// Do not convert unicode characters to ASCII equivalents.
    pub retain_unicode: bool,
    pub case_sensitive: bool,
    /// Retain non-alphabetic characters.
    pub retain_non_alphabetic: bool,
    /// Process words with the SoundEx algorithm.
    pub soundex: bool,
    /// Trim each word to a maximum number of characters.
    pub token_length: Option<usize>,
}

/// The scoring and selection configuration of a run.  Scores are fixed
/// point (see [`crate::fixed::SCALE`]).
pub struct MatchOptions {
    /// A candidate is kept only with a score strictly above this.
    pub minimum_score: u64,
    /// How many results to retain per from-record.
    pub num_results: usize,
    /// Also keep candidates whose score is within this of the cutoff.
    pub ties_within: Option<u64>,
}

impl MatchOptions {
    /// The number of results is a positive count.
    pub open spec fn wf(&self) -> bool {
        self.num_results >= 1
    }
}

} // verus!
