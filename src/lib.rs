//! Analytical core of a block-stacking game AI: the board evaluator, the gap
//! geometry it rests on, and the handle through which a background search
//! reports its progress.

pub mod analysis;
pub mod common;
pub mod components;
pub mod matrix;
pub mod score;

pub use analysis::{
    reconstruct_inputs, Analysis, AnalysisDone, AnalysisSink, Driver, DriverAction, Move, MoveId,
    Msg, PlacementInputs, SearchStep, Stats, Suggestion,
};
pub use common::{Color, Input, InvalidColorChar, Orientation};
pub use components::gaps_contiguous_areas;
pub use matrix::BasicMatrix;
pub use score::{covered_hole, intersecting_ranges, negative_spaces, penalty, score, ScoreParams};
