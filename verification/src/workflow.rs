//! Workflows: the data model, graph validation and wave scheduling, the cron
//! schedule, node input assembly and the run-state machine.
pub mod model;
pub mod graph;
pub mod topo;
pub mod calendar;
pub mod cron;
pub mod input;
pub mod run;
pub mod trigger;
pub mod transform;
