pub mod commands;
pub mod sync;
