use vstd::prelude::*;

pub mod text;
pub mod seqs;
pub mod romaji_table;
pub mod options;
pub mod result;
pub mod engine;
pub mod guide;
pub mod language;
pub mod ruby;
pub mod question;
pub mod stats;
pub mod status;
pub mod progress;
pub mod mode;
pub mod simple_engine;
pub mod score;
pub mod session;
pub mod menu;
pub mod spellings;

verus! {

} // verus!
