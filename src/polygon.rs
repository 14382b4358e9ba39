pub mod converter;
pub mod parser;
pub mod tests;
