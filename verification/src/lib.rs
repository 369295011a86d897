//! Lumberjack: compilation of tree-ensemble (random forest) classifiers into a
//! compact, cache-friendly binary node layout, and prediction over that layout.

pub mod analysis;
pub mod bytes;
pub mod model;
pub mod split;
pub mod compiler;
pub mod csv_forest;
pub mod embedded;
pub mod feature_vectors;
pub mod forest_model;
pub mod problem;

use vstd::prelude::*;

verus! {

/// Errors when building, decoding or checking a model.
#[derive(Clone, Copy, Debug, PartialEq, Eq, Structural)]
pub enum Error {
    WrongProblemType,
    MalformedForest,
    MisalignedData,
    NoTargets,
    NoFeatures,
    TooManyTrees,
    CyclicTree,
}

} // verus!
