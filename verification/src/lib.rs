//! A roster of departments filled from commands such as
//! `Add Sally to Engineering`, with the text handling that it rests on.
//!
//! - `command` parses a command into a request, or says why it is none.
//! - `roster` holds the departments and lists them in alphabetical order.
//! - `text` splits a text into words and compares without regard to case.
//! - `order` is alphabetical order by code points, and sorting by it.
//! - `pig_latin` rewrites words and sentences into pig latin.
//! - `stats` has the sum, mean and median of a list of numbers, and the count
//!   of its most frequent one.
//! - `vectors` removes the last element of a vector, if there is one.

pub mod command;
pub mod order;
pub mod pig_latin;
pub mod roster;
pub mod stats;
pub mod text;
pub mod vectors;
