//! Grammar analysis for a small parser generator: nullability, FIRST, FOLLOW
//! and PREDICT sets for LL(1) parsers, and an LR item-set automaton.
pub mod reach;
pub mod scanner;
pub mod productions;
pub mod first_follow;
pub mod ll_processing;
pub mod lr_processing;
pub mod parser;
pub mod generator;
pub mod language;
pub mod error_handler;
pub mod order;
