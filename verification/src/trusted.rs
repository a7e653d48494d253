//! Calls into std and outside crates whose behaviour Verus takes on trust.
use vstd::prelude::*;
use rand::RngCore;
use rand::SeedableRng;
use rand_isaac::Isaac64Rng;
use std::collections::hash_map::RandomState;
use std::hash::BuildHasher;
use linked_hash_map::LinkedHashMap;

verus! {

/// What `str::to_lowercase` returns for a string: the Unicode lowercase
/// mapping applied to every character.
pub uninterp spec fn spec_lowercase(s: Seq<char>) -> Seq<char>;

/// Calls `str::to_lowercase`. The contract only names the result: it is a
/// function of the input's characters alone (the mapping does not depend on
/// a locale).
#[verifier::external_body]
pub fn lowercase(s: &str) -> (r: String)
    ensures
        r@ == spec_lowercase(s@),
{
    s.to_lowercase()
}

/// Calls `String::push`, which appends one character.
#[verifier::external_body]
pub fn push_char(s: &mut String, c: char)
    ensures
        final(s)@ == old(s)@.push(c),
{
    s.push(c);
}

/// Whether `regex_syntax::is_word_character` holds of a character: the
/// Unicode word characters that `\b` in a pattern looks at.
pub uninterp spec fn spec_is_word_char(c: char) -> bool;

/// Calls `regex_syntax::is_word_character`. The contract only names the
/// result, a function of the character alone.
#[verifier::external_body]
pub fn is_word_char(c: char) -> (r: bool)
    ensures
        r == spec_is_word_char(c),
{
    regex_syntax::is_word_character(c)
}

/// What `str::to_uppercase` returns for a string: the Unicode uppercase
/// mapping of every character.
pub uninterp spec fn spec_uppercase(s: Seq<char>) -> Seq<char>;

/// Calls `str::to_uppercase`. The contract names the result, a function of
/// the characters alone, and states that it is no shorter than the input:
/// std documents every character's uppercase mapping as one or more
/// characters.
#[verifier::external_body]
pub fn uppercase(s: &str) -> (r: String)
    ensures
        r@ == spec_uppercase(s@),
        r@.len() >= s@.len(),
{
    s.to_uppercase()
}

/// Calls `BuildHasher::hash_one` on a `RandomState`, hashing `s` as a
/// `String` is hashed. Nothing is stated of the value: the state is seeded
/// at random in each process.
#[verifier::external_body]
pub fn hash_text(state: &RandomState, s: &str) -> (r: u64) {
    state.hash_one(s)
}

/// Calls `RandomState::new`. Nothing is stated of the state: its keys are
/// random.
#[verifier::external_body]
pub fn new_random_state() -> (r: RandomState) {
    RandomState::new()
}

/// Calls `rand::random::<u32>()`, which draws from the thread's generator.
/// Nothing is promised of the value: it is random.
#[verifier::external_body]
pub fn random_u32() -> (r: u32) {
    rand::random::<u32>()
}

/// The random generator that each chain draws from.
#[verifier::external_type_specification]
#[verifier::external_body]
pub struct ExIsaac64Rng(Isaac64Rng);

/// Calls `rand::random::<u64>()`, which draws from the thread's generator.
/// Nothing is promised of the value: it is random.
#[verifier::external_body]
pub fn random_seed() -> (r: u64) {
    rand::random::<u64>()
}

/// Calls `Isaac64Rng::seed_from_u64`. Nothing is stated of the generator
/// that comes back.
#[verifier::external_body]
pub fn isaac_from_seed(seed: u64) -> (r: Isaac64Rng) {
    Isaac64Rng::seed_from_u64(seed)
}

/// Calls `RngCore::next_u32` on the generator. Nothing is promised of the
/// value, nor of the generator's state afterwards.
#[verifier::external_body]
pub fn next_random(rng: &mut Isaac64Rng) -> (r: u32) {
    rng.next_u32()
}

/// The Damerau-Levenshtein distance between two texts, counted in
/// characters: the fewest insertions, deletions, substitutions and swaps of
/// neighbours that turn one into the other.
pub uninterp spec fn spec_edit_distance(s: Seq<char>, t: Seq<char>) -> usize;

/// Calls `distance::damerau_levenshtein`. The contract names the result
/// (the function reads the two texts' characters and nothing else) and
/// states the one fact the proofs need: two equal texts are no edits apart.
#[verifier::external_body]
pub fn edit_distance(s: &str, t: &str) -> (r: usize)
    ensures
        r == spec_edit_distance(s@, t@),
        s@ == t@ ==> r == 0,
{
    distance::damerau_levenshtein(s, t)
}

/// Whether a character is alphabetic, as `char::is_alphabetic` tells: the
/// Unicode `Alphabetic` property.
pub uninterp spec fn spec_is_alphabetic(c: char) -> bool;

/// Calls `char::is_alphabetic`. The contract only names the result, a
/// function of the character alone.
#[verifier::external_body]
pub fn is_alphabetic(c: char) -> (r: bool)
    ensures
        r == spec_is_alphabetic(c),
{
    c.is_alphabetic()
}

/// The map from a chain's id to the time it was last used, kept in order
/// of use.
#[verifier::external_type_specification]
#[verifier::external_body]
#[verifier::reject_recursive_types(K)]
#[verifier::reject_recursive_types(V)]
#[verifier::reject_recursive_types(S)]
pub struct ExLinkedHashMap<K, V, S>(LinkedHashMap<K, V, S>);

/// The entries of an age map, from the one used longest ago to the one
/// used last.
pub uninterp spec fn age_entries(m: LinkedHashMap<u128, u64>) -> Seq<(u128, u64)>;

/// Calls `LinkedHashMap::new`, which makes a map with no entries.
#[verifier::external_body]
pub fn ages_new() -> (r: LinkedHashMap<u128, u64>)
    ensures
        age_entries(r) == Seq::<(u128, u64)>::empty(),
{
    LinkedHashMap::new()
}

/// Calls `LinkedHashMap::insert`, which gives `k` the value `v` and moves
/// its entry to the back: any entry for `k` leaves its place, and `(k, v)`
/// comes last.
#[verifier::external_body]
pub fn ages_insert(m: &mut LinkedHashMap<u128, u64>, k: u128, v: u64)
    ensures
        age_entries(*final(m)) == age_entries(*old(m)).filter(|e: (u128, u64)| e.0 != k).push((k, v)),
{
    m.insert(k, v);
}

/// Calls `LinkedHashMap::front`: the entry used longest ago, if any.
#[verifier::external_body]
pub fn ages_front(m: &LinkedHashMap<u128, u64>) -> (r: Option<(u128, u64)>)
    ensures
        r == (if age_entries(*m).len() == 0 {
            None
        } else {
            Some(age_entries(*m)[0])
        }),
{
    m.front().map(|(k, v)| (*k, *v))
}

/// Calls `LinkedHashMap::pop_front`, which removes the entry used longest
/// ago and gives it back.
#[verifier::external_body]
pub fn ages_pop_front(m: &mut LinkedHashMap<u128, u64>) -> (r: Option<(u128, u64)>)
    ensures
        r == (if age_entries(*old(m)).len() == 0 {
            None
        } else {
            Some(age_entries(*old(m))[0])
        }),
        age_entries(*final(m)) == (if age_entries(*old(m)).len() == 0 {
            age_entries(*old(m))
        } else {
            age_entries(*old(m)).drop_first()
        }),
{
    m.pop_front()
}

} // verus!
