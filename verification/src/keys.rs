//! The keys a chain knows its lines by: each text is hashed under the
//! chain's own hasher, and a record is kept of every text hashed and the
//! key it was given.
use vstd::prelude::*;
use std::collections::hash_map::RandomState;
use crate::trusted::{hash_text, new_random_state};

verus! {

/// A chain's hasher, with the texts it has hashed so far and the key each
/// was given, in order.
pub struct LineKeys {
    state: RandomState,
    given: Ghost<Seq<(Seq<char>, u64)>>,
}

impl LineKeys {
    /// Each text hashed so far, with the key it was given, in order.
    pub closed spec fn given(&self) -> Seq<(Seq<char>, u64)> {
        self.given@
    }

    /// A fresh hasher that has hashed nothing yet.
    pub fn new() -> (r: LineKeys)
        ensures
            r.given() == Seq::<(Seq<char>, u64)>::empty(),
    {
        LineKeys { state: new_random_state(), given: Ghost(Seq::empty()) }
    }

    /// The key of `text`, which joins the record.
    pub fn key(&mut self, text: &str) -> (h: u64)
        ensures
            final(self).given() == old(self).given().push((text@, h)),
    {
        let h = hash_text(&self.state, text);
        self.given = Ghost(self.given@.push((text@, h)));
        h
    }
}

} // verus!
