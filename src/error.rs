use vstd::prelude::*;

verus! {

/// Why a pipeline step refused its input.
#[derive(Debug, Clone)]
pub enum PipelineError {
    /// A glob pattern does not compile.
    Pattern { pattern: String },
    /// The patterns compiled one by one but could not be combined into a set.
    PatternSet,
    /// A path does not lie strictly below the tree it belongs to.
    PathConsistency { path: String },
}

} // verus!
