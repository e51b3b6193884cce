//! Tour search over points in the plane: a problem instance with exact
//! fixed-point Euclidean distances, the cost model of closed tours, and
//! solvers that search the space of permutations.

pub mod bound;
pub mod branch_and_bound;
pub mod dfs;
pub mod greedy;
pub mod hill_climbing;
pub mod moves;
pub mod optimal;
pub mod random;
pub mod stochastic_hill_climbing;
pub mod timing;
pub mod tour;
pub mod tsp;
pub mod visited;

pub use crate::branch_and_bound::BranchAndBound;
pub use crate::dfs::DFS;
pub use crate::greedy::Greedy;
pub use crate::hill_climbing::HillClimbing;
pub use crate::stochastic_hill_climbing::{StochConfig, StochasticHillClimbing};
pub use crate::timing::measure_time;
pub use crate::tour::{SearchError, Tour};
pub use crate::tsp::{Point, SCALE, TSP};
