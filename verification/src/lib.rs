//! A miniature single-machine kernel simulation: scripts are loaded into a
//! fixed-size paged line memory, wrapped in jobs, queued, and executed line
//! by line through a command dispatcher.

pub mod errors;
pub mod interpreter;
pub mod job;
pub mod kernel;
pub mod shellmemory;
pub mod text;
