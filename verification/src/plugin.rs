//! Plugins: window labels, entry-path safety, window-shape resolution and the
//! install plan.
pub mod install;
pub mod launch;
pub mod resolve;
