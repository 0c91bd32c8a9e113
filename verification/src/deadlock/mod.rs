//! Deadlock resolution helpers: finding the edges in the way of a failed
//! route, freeing and restoring endpoint cells, and grid expansion.
pub mod expand;
pub mod rip_up;
