//! Keeps a hosts file in step with the virtual hostnames of running containers.
//!
//! The library holds the logic: the managed block of the hosts file, the
//! derivation of hostnames from a container's environment, the registry of
//! running containers and the decisions of the event loop.

pub mod text;
pub mod hosts_block;
pub mod registry;
pub mod resolver;
pub mod event_loop;
pub mod preflight;
pub mod version_info;
