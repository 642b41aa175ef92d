//! The two solving regimes: omniscient (full map known up front) and
//! blind (sensor-driven exploration before planning).

pub mod blind;
pub mod omniscient;

pub use blind::BlindSolver;
pub use omniscient::OmniscientSolver;
