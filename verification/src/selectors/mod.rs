//! CSS selectors: the parser of their text, the program that they are compiled
//! to, and what it means for a program to match an element.

pub mod matching;
pub mod parser;
pub mod program;
pub mod run;
