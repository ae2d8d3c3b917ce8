//! Autonomous coordination of a drone fleet.
//!
//! Five layers decide what a fleet does, and a mission runs them tick by tick:
//!
//! - [`nav`]: each drone steers by a two-layer network with weights in {-1, 0, +1}, packed
//!   16 to a word ([`ternary`]).
//! - [`pheromone`]: targets emit pheromone and drones follow it, so that tasks are shared
//!   out without a coordinator.
//! - [`warp`]: up to 32 drones vote on a directive for the fleet.
//! - [`world`]: what the fleet knows of its drones, merged last writer wins.
//! - [`conservation`]: what must hold before and after a change of weights: targets stay
//!   accounted for, and all drones run the same weights.
//! - [`mission`]: the layers together, with [`mission_laws`] on what holds of every mission.
//!
//! What callers get of each operation, and how calls relate, is told in [`calls`].
//!
//! Positions, charges and pheromone are single-precision numbers. The library holds them
//! as bit patterns and compares them itself ([`scalar`]); for sums, products, quotients
//! and roots it asks a floating-point unit that the caller hands in ([`arith`]).
pub mod arith;
pub mod calls;
pub mod conservation;
pub mod mission;
pub mod mission_laws;
pub mod nav;
pub mod pheromone;
pub mod scalar;
pub mod ternary;
pub mod warp;
pub mod world;

pub use arith::ArithOp;
pub use conservation::{ConservationVerifier, VerificationResult};
pub use mission::{run_mission, MissionReport};
pub use nav::{DroneAction, SensorReading, TernaryNavNet};
pub use pheromone::{PheromoneField, Target};
pub use scalar::Scalar;
pub use ternary::{Trit, WeightBank};
pub use warp::{DroneVote, DroneWarp, FleetDirective};
pub use world::{DroneState, DroneWorldCRDT, Timestamp};
