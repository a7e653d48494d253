//! A Markov-chain chat library: a shared word table, the text rules that
//! prepare chat lines, the chain of word triples that learns lines and
//! generates new ones, and the decisions of the Discord chat that feeds it.
use vstd::prelude::*;

pub mod trusted;
pub mod words;
pub mod chain;
pub mod text;
pub mod keys;
pub mod markov;
pub mod laws;
pub mod discord;
pub mod posting;

verus! {

} // verus!
