pub mod config;
pub mod program;
pub mod strategy;
pub mod strategy_format;
pub mod token;
