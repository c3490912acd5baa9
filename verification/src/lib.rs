pub mod number_theory;
pub mod fraction;
pub mod text;
pub mod scale;
pub mod units;
pub mod parser;
pub mod cli;
