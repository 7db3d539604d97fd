//! Global alignment of token sequences by Needleman-Wunsch dynamic
//! programming, with a configurable scoring model, a deterministic
//! traceback, a derived similarity metric, and an all-pairs batch mode.

pub mod aligner;
pub mod batch;
pub mod errors;
pub mod laws;
pub mod matrix;
pub mod scoring;
pub mod similarity;
pub mod steps;

pub use crate::aligner::AlignmentResult;
pub use crate::aligner::align;
pub use crate::aligner::trace;
pub use crate::batch::align_set;
pub use crate::errors::AlignError;
pub use crate::matrix::AlignmentMatrix;
pub use crate::matrix::MAX_SEQ_LEN;
pub use crate::scoring::MAX_SCORE_MAG;
pub use crate::scoring::ScoreEntry;
pub use crate::scoring::ScoreModel;
pub use crate::scoring::Scorer;
pub use crate::steps::Step;
