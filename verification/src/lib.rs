//! An in-memory store for a hierarchical task tracker.
//!
//! The tracker models areas, projects and tasks uniformly as [`Stake`]
//! entities, kept in ordered [`StakesCollection`] stores that own id
//! issuance, lookup, hierarchy traversal, name search, and a closed
//! two-field wire encoding that round-trips exactly.

pub mod time;
pub mod wire;
pub mod codec;
pub mod text;
pub mod stake;
pub mod project;
pub mod stakes_collection;
pub mod mlw;

pub use time::Timestamp;
pub use stake::Stake;
pub use stake::StakeError;
pub use stake::StakeId;
pub use stakes_collection::StakesCollection;
pub use mlw::MLW;
pub use codec::DecodeError;
pub use project::AreaId;
pub use project::Project;
pub use project::ProjectError;
pub use project::ProjectId;
