//! The logic of a Prometheus exporter for running Docker containers.
pub mod config;
pub mod docker_events;
pub mod http;
pub mod labels;
pub mod metrics;
pub mod order;
pub mod rfc3339;
pub mod string_map;
pub mod text;
pub mod tracking;
