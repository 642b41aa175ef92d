//! The command-line surface of the solver, as plain data: which regime
//! to run, which algorithms to use, and the operational flags. Argument
//! parsing itself happens in the embedding program, which converts its
//! parsed options into these types.

use vstd::prelude::*;

verus! {

/// Logging verbosity requested on the command line.
#[derive(Debug, Clone, Copy, PartialEq, Eq, Structural)]
pub enum Verbosity {
    Off,
    Error,
    Warn,
    Info,
    Debug,
    Trace,
}

/// The parsed command line: verbosity, the map selection, the
/// inter-step delay, and the subcommand to run.
#[derive(Debug, Clone, PartialEq, Eq)]
pub struct Args {
    pub verbosity: Verbosity,
    pub map_name: Option<String>,
    pub generate: bool,
    pub delay: u64,
    pub command: Command,
}

/// The subcommand: solve omnisciently, solve blindly, or benchmark a
/// family of algorithms.
#[derive(Debug, Clone, Copy, PartialEq, Eq, Structural)]
pub enum Command {
    Omniscient { algorithm: PathfindingAlgorithm },
    Blind { exploration: ExplorationAlgorithm, pathfinding: PathfindingAlgorithm },
    Benchmark { mode: BenchmarkMode },
}

/// Which algorithm family a benchmark run covers.
#[derive(Debug, Clone, Copy, PartialEq, Eq, Structural)]
pub enum BenchmarkMode {
    Omniscient,
    Blind,
}

/// The pathfinding algorithm selected on the command line.
#[derive(Debug, Clone, Copy, PartialEq, Eq, Structural)]
pub enum PathfindingAlgorithm {
    AStar,
    Dijkstra,
    DFS,
}

impl PathfindingAlgorithm {
    /// Every pathfinding selection, in benchmark order.
    pub fn all() -> (r: Vec<Self>)
        ensures
            r@ == seq![
                PathfindingAlgorithm::AStar,
                PathfindingAlgorithm::Dijkstra,
                PathfindingAlgorithm::DFS,
            ],
    {
        let mut v: Vec<Self> = Vec::new();
        v.push(Self::AStar);
        v.push(Self::Dijkstra);
        v.push(Self::DFS);
        proof {
            assert(v@ =~= seq![
                PathfindingAlgorithm::AStar,
                PathfindingAlgorithm::Dijkstra,
                PathfindingAlgorithm::DFS,
            ]);
        }
        v
    }

    /// The display name of the selection.
    pub fn name(&self) -> (r: &'static str)
        ensures
            self is AStar ==> r@ == "A*"@,
            self is Dijkstra ==> r@ == "Dijkstra"@,
            self is DFS ==> r@ == "DFS"@,
    {
        match self {
            Self::AStar => "A*",
            Self::Dijkstra => "Dijkstra",
            Self::DFS => "DFS",
        }
    }
}

/// The exploration algorithm selected on the command line.
#[derive(Debug, Clone, Copy, PartialEq, Eq, Structural)]
pub enum ExplorationAlgorithm {
    WallFollower,
    RecursiveBacktracker,
}

impl ExplorationAlgorithm {
    /// Every exploration selection, in benchmark order.
    pub fn all() -> (r: Vec<Self>)
        ensures
            r@ == seq![
                ExplorationAlgorithm::WallFollower,
                ExplorationAlgorithm::RecursiveBacktracker,
            ],
    {
        let mut v: Vec<Self> = Vec::new();
        v.push(Self::WallFollower);
        v.push(Self::RecursiveBacktracker);
        proof {
            assert(v@ =~= seq![
                ExplorationAlgorithm::WallFollower,
                ExplorationAlgorithm::RecursiveBacktracker,
            ]);
        }
        v
    }

    /// The display name of the selection.
    pub fn name(&self) -> (r: &'static str)
        ensures
            self is WallFollower ==> r@ == "Wall Follower"@,
            self is RecursiveBacktracker ==> r@ == "Recursive Backtracker"@,
    {
        match self {
            Self::WallFollower => "Wall Follower",
            Self::RecursiveBacktracker => "Recursive Backtracker",
        }
    }
}

} // verus!
