//! Options of the command line that the library itself knows of.
use vstd::prelude::*;

verus! {

/// How track nodes are merged before the graph is analysed.
#[derive(Clone, Copy, Debug, PartialEq, Eq, Structural)]
pub enum MergeMode {
    /// Nodes are grouped by the meaning of their names.
    Semantic,
    /// Rare nodes are merged once a node limit is reached.
    MaxNodes,
    /// Nodes are kept as they are.
    NoMerge,
}

} // verus!
