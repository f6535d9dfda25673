//! Beam-search expansion for alignment decoding in three variants, the
//! backtracking of beams through their recorded parents, and Levenshtein edit
//! distance, each for one row and for a batch of rows in parallel.
//!
//! A score is an integer key that stands for a cumulative log-probability:
//! of two scores the larger is the better one, and equal scores tie. The
//! library never adds scores. A decoding table holds, for every beam, the
//! score that the beam has reached and the score that it would reach with
//! each of its branches; whoever fills the table takes those sums.
//!
//! One ply of a search expands every beam of a row into its candidates,
//! ranks the candidates of the row by score, drops repeats of one outcome,
//! and fills the row to its capacity. The reducer in `rank` is shared by the
//! three expanders in `transition`, `v2` and `tone_latent`.
pub mod batch;
pub mod edit_distance;
pub mod parallel;
pub mod rank;
pub mod tone_latent;
pub mod transition;
pub mod util;
pub mod v2;
pub mod v2_util;

pub use crate::transition::BeamSearchDecodingTable;
pub use crate::transition::DecodeResult;
pub use crate::transition::SsntTts;
pub use crate::transition::SsntTtsCpu;
