pub mod expression;
pub mod parser;
