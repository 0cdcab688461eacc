//! A solving aid for five-letter word-guessing games: grading a guess against an
//! answer, partitioning a pool of candidate words by grade, and choosing the guess
//! whose partition has the smallest mean bucket size.

pub mod error;
pub mod grade;
pub mod grading;
pub mod group;
pub mod partition;
pub mod selection;
pub mod ternary;
pub mod word;
pub mod wordle;
