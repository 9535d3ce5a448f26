//! Verified core of a double-pendulum swarm simulator: pixel rendering of
//! pendulum frames, selection bookkeeping, panel navigation and the
//! decisions of the frame fan-out.
pub mod app_state;
pub mod render_export;
pub mod runner;
pub mod selector;
