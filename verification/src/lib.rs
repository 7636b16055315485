//! Pairing strategies of genetic algorithms on NP-hard flow assignment problems:
//! the verified core of the simulation and of the result dashboard.

pub mod text;
pub mod settings;
pub mod math;
pub mod permutation;
pub mod random;
pub mod tsp;
pub mod ga;
pub mod network;
pub mod synchronization;
pub mod results;
pub mod routing;
pub mod capacity;
pub mod rofa;
pub mod experiments;
pub mod json;
pub mod plot_settings;
pub mod dashboard;
