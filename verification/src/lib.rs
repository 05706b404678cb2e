//! Token, proof-of-possession and replay checks for a relay server, plus a
//! small terminal-detection helper.
use vstd::prelude::*;

pub mod claims;
pub mod clock;
pub mod config;
pub mod error;
pub mod outside;
pub mod registration;
pub mod replay;
pub mod request;
pub mod seqs;
pub mod terminal;
pub mod text;

pub use terminal::{is, isnt, Stream};

verus! {

} // verus!
