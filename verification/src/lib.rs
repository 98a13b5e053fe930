//! Configuration validation and dependency resolution for a native-project
//! build orchestrator.
//!
//! Given a declarative project description (build settings, three categories
//! of external dependencies, subprojects, optional overrides and custom build
//! rules), the library checks the description for internal consistency,
//! resolves cross-references between subprojects and dependencies, detects
//! cyclic subproject references, and computes a deterministic,
//! dependency-respecting build order.
//!
//! Everything environment-dependent (parsing the configuration text, spawning
//! toolchain and pkg-config probes, rendering diagnostics) lives outside this
//! library; probe outcomes are handed in as plain values.

pub mod build_config;
pub mod build_settings;
pub mod cli;
pub mod custom_build_rule;
pub mod dependencies;
pub mod graph;
pub mod error;
pub mod overrides;
pub mod positioned;
pub mod subproject;

pub use positioned::{Positioned, Span};
