//! Registration of MCP server integrations into the configuration files of
//! supported desktop AI clients, together with provisioning of the runtime
//! toolchain those integrations need.
//!
//! The heart of the crate is the per-client configuration store — a cached
//! JSON document per client, with its own verified renderer and parser —
//! and the provisioning state machine that detects or installs the runtime
//! toolchain at most once per process. Around them stand the template
//! engine for `${NAME}` placeholders in launch arguments, the closed client
//! registry, and the orchestrator that installs, removes and queries
//! integrations.

pub mod app;
pub mod clients;
pub mod environment;
pub mod json;
pub mod os;
pub mod template;
