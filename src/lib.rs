pub mod backtracker;
pub mod lexer;
pub mod ll0_parser;
pub mod nfa;
pub mod parser;
pub mod round_trip;
pub mod thompson;
