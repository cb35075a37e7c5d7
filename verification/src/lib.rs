//! Verified solutions to seven puzzles: each module reads the text of one puzzle and computes
//! its two answers, with contracts that say what the answers are.

pub mod day1;
pub mod day2;
pub mod day3;
pub mod day4;
pub mod day5;
pub mod day6;
pub mod day7;
pub mod decimal;
pub mod text;
