//! Backend selection for a load balancer: smooth weighted round-robin over a
//! fixed set of weighted nodes, with passive health tracking.
pub mod balance;
pub mod clock;
pub mod fairness;
pub mod health;
pub mod round_robin;

pub use balance::{BuildError, HealthCheckConfig, Token};
pub use round_robin::{Node, RoundRobin};
