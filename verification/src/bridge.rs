//! The plugin bridge: payload validation, permissions, channel routing and the
//! event subscription table.
pub mod validate;
pub mod dispatch;
pub mod event_bus;
