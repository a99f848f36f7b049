pub mod types;
pub mod views;
