//! Verified core of the Kapi plugin host: bridge validation and permissions,
//! the plugin asset protocol, install planning, the WASM ABI, and the workflow
//! graph, scheduling and run-state logic.
pub mod text;
pub mod bridge;
pub mod order;
pub mod workflow;
pub mod json;
pub mod protocol;
pub mod plugin;
pub mod error;
pub mod wasm;
pub mod store;
pub mod dock;
pub mod tray;
