use vstd::prelude::*;

verus! {

/// A failure local to one compilation stage.  Stage errors abort only the
/// output root or partition being processed; other partitions of the same
/// graph may still compile.
#[derive(Clone, Copy, PartialEq, Eq, Structural, Debug)]
pub enum StageError {
    /// A composite node's body instantiates itself, directly or through
    /// other composites.  Carries the arena index of the offending network.
    CyclicComposition { network: usize },
    /// The flat graph has no dependency order: some node's transitive
    /// producer set includes itself.
    CycleDetected,
    /// A required input slot of the named node is not wired to anything.
    MissingInput { node: u64, slot: usize },
    /// An input slot of the named node references a node identifier that is
    /// absent from the graph.
    DanglingReference { node: u64, slot: usize },
}

/// A failure of the single-output convenience entry point.
#[derive(Clone, Copy, PartialEq, Eq, Structural, Debug)]
pub enum CompileError {
    /// `compile_single` was handed a graph that does not declare exactly one
    /// output; `compile` handles such graphs.
    MultipleOutputsUnsupported,
    /// The one declared output failed to compile; carries the first
    /// underlying stage error.
    CompilationFailed(StageError),
}

} // verus!
