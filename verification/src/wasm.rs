//! The plugin WASM host: the result ABI, the resource limits and the checks
//! and result interpretation around one guest run.
pub mod abi;
pub mod limits;
pub mod guest;
pub mod heap;
