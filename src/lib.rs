//! A priority-based, run-to-completion task executor for a single-core
//! microcontroller, modelled and verified: a static task and resource
//! registry, a dispatcher that follows the priority-ceiling protocol, the
//! monotonic-timer arithmetic behind timed suspension, the heartbeat task as
//! an explicit state machine, and the start-up sequence.
pub mod registry;
pub mod dispatcher;
pub mod timer;
pub mod heartbeat;
pub mod init;
