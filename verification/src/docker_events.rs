//! Docker containers: which events to watch, who a container is, what it consumes.
pub mod filter;
pub mod identity;
pub mod requests;
pub mod stats;

pub use filter::DockerEventFilter;
pub use identity::ContainerIdentity;
pub use stats::ContainerStats;
