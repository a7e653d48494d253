//! The chat side of the Discord bridge: which chains a message goes to,
//! how bridged bots are read, and what the commands of a chat ask for.
use vstd::prelude::*;
use std::collections::HashMap;
use linked_hash_map::LinkedHashMap;
use crate::trusted::{
    age_entries, ages_front, ages_insert, ages_new, ages_pop_front, edit_distance, is_alphabetic,
    lowercase, spec_edit_distance, spec_is_alphabetic, spec_lowercase,
};
use crate::text::{
    chars_of, decimal, digit_run, digit_run_exec, is_digit, occurs_at, occurs_at_exec, occurs_in,
    parse_u64, push_decimal_u64, spec_parse_u64, split_chars, split_on, string_of, text_is, texts,
};
use crate::markov::Power;
use vstd::utf8::{decode_utf8, encode_utf8, is_char_boundary, valid_utf8};

verus! {

broadcast use vstd::std_specs::hash::group_hash_axioms;

/// What a chain belongs to: a server, a channel or a user.
#[derive(Debug, PartialEq, Eq, Structural, Clone, Copy)]
pub enum DiscordId {
    Server(u64),
    Channel(u64),
    User(u64),
}

/// The number that stands for an id: its kind in the high bits.
pub open spec fn spec_id_code(id: DiscordId) -> u128 {
    match id {
        DiscordId::Server(n) => n as u128,
        DiscordId::Channel(n) => (0x1_0000_0000_0000_0000 + n) as u128,
        DiscordId::User(n) => (0x2_0000_0000_0000_0000 + n) as u128,
    }
}

impl DiscordId {
    /// The number that stands for the id (see `spec_id_code`).
    pub fn code(&self) -> (r: u128)
        ensures
            r == spec_id_code(*self),
    {
        match *self {
            DiscordId::Server(n) => n as u128,
            DiscordId::Channel(n) => 0x1_0000_0000_0000_0000u128 + n as u128,
            DiscordId::User(n) => 0x2_0000_0000_0000_0000u128 + n as u128,
        }
    }
}

/// Two ids stand for the same number only when they are the same id.
pub proof fn law_id_codes_distinct(a: DiscordId, b: DiscordId)
    ensures
        spec_id_code(a) == spec_id_code(b) ==> a == b,
{
}

/// The keys of the age entries `e`, in order.
pub open spec fn entry_keys(e: Seq<(u128, u64)>) -> Seq<u128> {
    e.map_values(|x: (u128, u64)| x.0)
}

/// The number of entries at the front of `e` that are older than
/// `max_age` at `now`: the entries that a clean-up removes.
pub open spec fn expired_count(e: Seq<(u128, u64)>, now: u64, max_age: u64) -> nat
    decreases e.len(),
{
    if e.len() == 0 {
        0
    } else if now >= e[0].1 && now - e[0].1 > max_age {
        1 + expired_count(e.drop_first(), now, max_age)
    } else {
        0
    }
}

/// The chains of a chat, each kept for the id it belongs to, with the time
/// each id was last used, in order of use.
pub struct ChainManager<T> {
    chains: HashMap<u128, T>,
    ages: LinkedHashMap<u128, u64>,
}

/// How long, in seconds, a chain is kept after its last use.
pub const MAX_AGE: u64 = 1800u64;

impl<T> ChainManager<T> {
    /// The chain kept for each id.
    pub closed spec fn chain_map(&self) -> Map<u128, T> {
        self.chains@
    }

    /// The ids with the time each was last used, from the one used longest
    /// ago to the one used last.
    pub closed spec fn ages(&self) -> Seq<(u128, u64)> {
        age_entries(self.ages)
    }

    /// Every id is listed once among the ages, and the listed ids are the
    /// ids that chains are kept for.
    pub open spec fn wf(&self) -> bool {
        &&& entry_keys(self.ages()).no_duplicates()
        &&& entry_keys(self.ages()).to_set() == self.chain_map().dom()
    }

    /// No chains.
    pub fn new() -> (r: ChainManager<T>)
        ensures
            r.wf(),
            r.chain_map() == Map::<u128, T>::empty(),
            r.ages() == Seq::<(u128, u64)>::empty(),
    {
        let r = ChainManager { chains: HashMap::new(), ages: ages_new() };
        assert(r.chain_map() =~= Map::<u128, T>::empty());
        assert(entry_keys(r.ages()) =~= Seq::<u128>::empty());
        assert(entry_keys(r.ages()).to_set() =~= Set::<u128>::empty());
        r
    }

    /// Whether a chain is kept for `id`.
    pub fn holds(&self, id: u128) -> (r: bool)
        ensures
            r == self.chain_map().contains_key(id),
    {
        self.chains.contains_key(&id)
    }

    /// Marks `id` as used at `now`, keeping `fresh` for it when no chain is
    /// kept for it yet, and gives the chain kept for it. When there is none
    /// and `fresh` is `None`, nothing changes and nothing is given.
    pub fn get(&mut self, id: u128, now: u64, fresh: Option<T>) -> (r: Option<&T>)
        requires
            old(self).wf(),
        ensures
            final(self).wf(),
            old(self).chain_map().contains_key(id) || fresh is Some ==> {
                &&& final(self).ages() == old(self).ages().filter(|e: (u128, u64)| e.0 != id).push(
                    (id, now),
                )
                &&& final(self).chain_map() == (if old(self).chain_map().contains_key(id) {
                    old(self).chain_map()
                } else {
                    old(self).chain_map().insert(id, fresh->0)
                })
                &&& r == Some(&final(self).chain_map()[id])
            },
            !old(self).chain_map().contains_key(id) && fresh is None ==> {
                &&& final(self).ages() == old(self).ages()
                &&& final(self).chain_map() == old(self).chain_map()
                &&& r is None
            },
    {
        let present = self.chains.contains_key(&id);
        if !present {
            match fresh {
                Some(f) => {
                    self.chains.insert(id, f);
                },
                None => {
                    return None;
                },
            }
        }
        let ghost before = age_entries(self.ages);
        assert(self.chains@.dom() =~= entry_keys(before).to_set().insert(id));
        ages_insert(&mut self.ages, id, now);
        proof {
            self.lemma_insert_keys(before, id, now);
        }
        self.chains.get(&id)
    }

    proof fn lemma_insert_keys(&self, before: Seq<(u128, u64)>, id: u128, now: u64)
        requires
            entry_keys(before).no_duplicates(),
            self.ages() == before.filter(|e: (u128, u64)| e.0 != id).push((id, now)),
            self.chain_map().dom() == entry_keys(before).to_set().insert(id),
        ensures
            self.wf(),
    {
        let kept = before.filter(|e: (u128, u64)| e.0 != id);
        lemma_filter_keys(before, id);
        let ks = entry_keys(self.ages());
        assert(ks =~= entry_keys(kept).push(id));
        assert forall|i: int, j: int| 0 <= i < ks.len() && 0 <= j < ks.len() && i != j implies ks[i]
            != ks[j] by {
            if i < ks.len() - 1 && j < ks.len() - 1 {
                assert(ks[i] == entry_keys(kept)[i]);
                assert(ks[j] == entry_keys(kept)[j]);
            } else if i < ks.len() - 1 {
                assert(entry_keys(kept).contains(ks[i]));
            } else {
                assert(entry_keys(kept).contains(ks[j]));
            }
        }
        assert forall|k: u128| #[trigger] ks.to_set().contains(k) <==> self.chain_map().dom().contains(
            k,
        ) by {
            if k == id {
                assert(ks[ks.len() - 1] == id);
            } else {
                if ks.to_set().contains(k) {
                    let i = choose|i: int| 0 <= i < ks.len() && ks[i] == k;
                    assert(entry_keys(kept).contains(k)) by {
                        assert(entry_keys(kept)[i] == k);
                    }
                }
                if entry_keys(before).contains(k) {
                    assert(entry_keys(kept).contains(k));
                    let i = choose|i: int| 0 <= i < entry_keys(kept).len() && entry_keys(kept)[i] == k;
                    assert(ks[i] == k);
                }
            }
        }
        assert(ks.to_set() =~= self.chain_map().dom());
    }
}

impl<T> ChainManager<T> {
    /// Takes out the chain used longest ago, with its age entry.
    fn pop_oldest(&mut self) -> (r: Option<T>)
        requires
            old(self).wf(),
        ensures
            final(self).wf(),
            old(self).ages().len() == 0 ==> r is None && final(self).ages() == old(self).ages()
                && final(self).chain_map() == old(self).chain_map(),
            old(self).ages().len() > 0 ==> {
                &&& r == Some(old(self).chain_map()[old(self).ages()[0].0])
                &&& final(self).ages() == old(self).ages().drop_first()
                &&& final(self).chain_map() == old(self).chain_map().remove(old(self).ages()[0].0)
            },
    {
        let ghost before = age_entries(self.ages);
        match ages_pop_front(&mut self.ages) {
            None => None,
            Some((id, _)) => {
                proof {
                    let ks = entry_keys(before);
                    assert(ks[0] == id);
                    assert(ks.to_set().contains(id));
                    let rest = entry_keys(age_entries(self.ages));
                    assert(rest =~= ks.drop_first());
                    assert forall|i: int, j: int| 0 <= i < rest.len() && 0 <= j < rest.len() && i != j implies rest[i]
                        != rest[j] by {
                        assert(rest[i] == ks[i + 1] && rest[j] == ks[j + 1]);
                    }
                    assert forall|k: u128| #[trigger] rest.to_set().contains(k) <==> self.chains@.dom().remove(id).contains(k) by {
                        if rest.to_set().contains(k) {
                            let i = choose|i: int| 0 <= i < rest.len() && rest[i] == k;
                            assert(ks[i + 1] == k);
                            assert(ks.to_set().contains(k));
                        }
                        if k != id && ks.to_set().contains(k) {
                            let i = choose|i: int| 0 <= i < ks.len() && ks[i] == k;
                            assert(i != 0);
                            assert(rest[i - 1] == k);
                        }
                    }
                }
                let r = self.chains.remove(&id);
                proof {
                    assert(entry_keys(age_entries(self.ages)).to_set() =~= self.chains@.dom());
                }
                r
            },
        }
    }

    /// Takes out the chains that were last used more than `MAX_AGE` seconds
    /// before `now`, oldest first, stopping at the first that was not: the
    /// chains to stop.
    pub fn clean(&mut self, now: u64) -> (r: Vec<T>)
        requires
            old(self).wf(),
        ensures
            final(self).wf(),
            ({
                let k = expired_count(old(self).ages(), now, MAX_AGE) as int;
                &&& final(self).ages() == old(self).ages().skip(k)
                &&& final(self).chain_map() == old(self).chain_map().remove_keys(
                    entry_keys(old(self).ages().take(k)).to_set(),
                )
                &&& r@ == old(self).ages().take(k).map_values(
                    |e: (u128, u64)| old(self).chain_map()[e.0],
                )
            }),
    {
        let ghost orig = self.ages();
        let ghost chains0 = self.chain_map();
        let ghost count = expired_count(orig, now, MAX_AGE) as int;
        let mut out: Vec<T> = Vec::new();
        let ghost mut i: int = 0;
        proof {
            lemma_expired_skip(orig, now, 0);
            assert(orig.skip(0) =~= orig);
            assert(entry_keys(orig.take(0)).to_set() =~= Set::<u128>::empty());
            assert(chains0.remove_keys(Set::<u128>::empty()) =~= chains0);
            assert(orig.take(0).map_values(|e: (u128, u64)| chains0[e.0]) =~= Seq::<T>::empty());
        }
        loop
            invariant
                self.wf(),
                0 <= i <= count,
                count <= orig.len(),
                count == i + expired_count(self.ages(), now, MAX_AGE),
                self.ages() == orig.skip(i),
                entry_keys(orig).no_duplicates(),
                self.chain_map() == chains0.remove_keys(entry_keys(orig.take(i)).to_set()),
                out@ == orig.take(i).map_values(|e: (u128, u64)| chains0[e.0]),
                count == expired_count(orig, now, MAX_AGE),
                chains0.dom() == entry_keys(orig).to_set(),
            ensures
                i == count,
                self.wf(),
                self.ages() == orig.skip(i),
                self.chain_map() == chains0.remove_keys(entry_keys(orig.take(i)).to_set()),
                out@ == orig.take(i).map_values(|e: (u128, u64)| chains0[e.0]),
            decreases count - i,
        {
            let expired = match ages_front(&self.ages) {
                None => false,
                Some((_, t)) => now >= t && now - t > MAX_AGE,
            };
            if !expired {
                break;
            }
            let ghost ages_before = self.ages();
            let ghost map_before = self.chain_map();
            let c = self.pop_oldest();
            proof {
                assert(ages_before =~= orig.skip(i));
                assert(orig[i] == ages_before[0]);
                let id = orig[i].0;
                assert(orig.skip(i + 1) =~= ages_before.drop_first());
                assert(entry_keys(orig)[i] == id);
                assert(entry_keys(orig.take(i + 1)).to_set() =~= entry_keys(orig.take(i)).to_set().insert(id)) by {
                    assert(entry_keys(orig.take(i + 1)) =~= entry_keys(orig.take(i)).push(id));
                    entry_keys(orig.take(i)).lemma_push_to_set_commute(id);
                }
                assert(chains0.remove_keys(entry_keys(orig.take(i + 1)).to_set()) =~= map_before.remove(id));
                assert(!entry_keys(orig.take(i)).to_set().contains(id)) by {
                    if entry_keys(orig.take(i)).to_set().contains(id) {
                        let j = choose|j: int| 0 <= j < entry_keys(orig.take(i)).len() && entry_keys(orig.take(i))[j] == id;
                        assert(entry_keys(orig)[j] == id);
                    }
                }
                assert(entry_keys(orig).to_set().contains(id));
                assert(map_before[id] == chains0[id]);
            }
            match c {
                Some(chain) => {
                    out.push(chain);
                },
                None => {},
            }
            proof {
                assert(orig.take(i + 1).map_values(|e: (u128, u64)| chains0[e.0]) =~= orig.take(i).map_values(
                    |e: (u128, u64)| chains0[e.0],
                ).push(chains0[orig[i].0]));
                i = i + 1;
            }
        }
        out
    }

    /// Takes out every chain, oldest first: the chains to stop.
    pub fn stop(&mut self) -> (r: Vec<T>)
        requires
            old(self).wf(),
        ensures
            final(self).wf(),
            final(self).ages() == Seq::<(u128, u64)>::empty(),
            final(self).chain_map() == Map::<u128, T>::empty(),
            r@ == old(self).ages().map_values(|e: (u128, u64)| old(self).chain_map()[e.0]),
    {
        let ghost orig = self.ages();
        let ghost chains0 = self.chain_map();
        let mut out: Vec<T> = Vec::new();
        let ghost mut i: int = 0;
        proof {
            assert(orig.skip(0) =~= orig);
            assert(entry_keys(orig.take(0)).to_set() =~= Set::<u128>::empty());
            assert(chains0.remove_keys(Set::<u128>::empty()) =~= chains0);
            assert(orig.take(0).map_values(|e: (u128, u64)| chains0[e.0]) =~= Seq::<T>::empty());
        }
        while self.ages_len_positive()
            invariant
                self.wf(),
                0 <= i <= orig.len(),
                self.ages() == orig.skip(i),
                entry_keys(orig).no_duplicates(),
                self.chain_map() == chains0.remove_keys(entry_keys(orig.take(i)).to_set()),
                out@ == orig.take(i).map_values(|e: (u128, u64)| chains0[e.0]),
                chains0.dom() == entry_keys(orig).to_set(),
            decreases orig.len() - i,
        {
            let ghost ages_before = self.ages();
            let ghost map_before = self.chain_map();
            let c = self.pop_oldest();
            proof {
                assert(orig[i] == ages_before[0]);
                let id = orig[i].0;
                assert(orig.skip(i + 1) =~= ages_before.drop_first());
                assert(entry_keys(orig)[i] == id);
                assert(entry_keys(orig.take(i + 1)).to_set() =~= entry_keys(orig.take(i)).to_set().insert(id)) by {
                    assert(entry_keys(orig.take(i + 1)) =~= entry_keys(orig.take(i)).push(id));
                    entry_keys(orig.take(i)).lemma_push_to_set_commute(id);
                }
                assert(chains0.remove_keys(entry_keys(orig.take(i + 1)).to_set()) =~= map_before.remove(id));
                assert(!entry_keys(orig.take(i)).to_set().contains(id)) by {
                    if entry_keys(orig.take(i)).to_set().contains(id) {
                        let j = choose|j: int| 0 <= j < entry_keys(orig.take(i)).len() && entry_keys(orig.take(i))[j] == id;
                        assert(entry_keys(orig)[j] == id);
                    }
                }
                assert(entry_keys(orig).to_set().contains(id));
                assert(map_before[id] == chains0[id]);
            }
            match c {
                Some(chain) => {
                    out.push(chain);
                },
                None => {},
            }
            proof {
                assert(orig.take(i + 1).map_values(|e: (u128, u64)| chains0[e.0]) =~= orig.take(i).map_values(
                    |e: (u128, u64)| chains0[e.0],
                ).push(chains0[orig[i].0]));
                i = i + 1;
            }
        }
        proof {
            assert(orig.take(i) =~= orig);
            assert(self.chain_map().dom() =~= Set::<u128>::empty()) by {
                assert(entry_keys(self.ages()) =~= Seq::<u128>::empty());
            }
            assert(self.chain_map() =~= Map::<u128, T>::empty());
        }
        out
    }

    /// Whether any id is kept.
    fn ages_len_positive(&self) -> (r: bool)
        ensures
            r == (self.ages().len() > 0),
    {
        ages_front(&self.ages).is_some()
    }
}

/// Skipping the first `i` expired entries leaves the others to expire.
proof fn lemma_expired_skip(e: Seq<(u128, u64)>, now: u64, i: int)
    requires
        0 <= i <= expired_count(e, now, MAX_AGE),
    ensures
        expired_count(e, now, MAX_AGE) == i + expired_count(e.skip(i), now, MAX_AGE),
        expired_count(e, now, MAX_AGE) <= e.len(),
    decreases e.len(),
{
    if e.len() > 0 && now >= e[0].1 && now - e[0].1 > MAX_AGE {
        lemma_expired_skip(e.drop_first(), now, if i > 0 { i - 1 } else { 0 });
        if i > 0 {
            assert(e.drop_first().skip(i - 1) =~= e.skip(i));
        } else {
            assert(e.skip(0) =~= e);
        }
    } else {
        assert(e.skip(0) =~= e);
    }
}

/// The alphabetic characters of `s`, in order.
pub open spec fn letters(s: Seq<char>) -> Seq<char>
    decreases s.len(),
{
    if s.len() == 0 {
        Seq::<char>::empty()
    } else if spec_is_alphabetic(s.last()) {
        letters(s.drop_last()).push(s.last())
    } else {
        letters(s.drop_last())
    }
}

/// The letters of a message, in lowercase: its alphabetic characters, in
/// order, without anything else.
pub open spec fn spec_letters_only(s: Seq<char>) -> Seq<char> {
    spec_lowercase(letters(s))
}

/// The letters of a message, in lowercase (see `spec_letters_only`).
pub fn letters_only(s: &str) -> (r: String)
    ensures
        r@ == spec_letters_only(s@),
{
    let cs = chars_of(s);
    let mut kept = String::new();
    let mut i: usize = 0;
    assert(cs@.take(0) =~= Seq::<char>::empty());
    while i < cs.len()
        invariant
            i <= cs@.len(),
            kept@ == letters(cs@.take(i as int)),
        decreases cs@.len() - i,
    {
        let c = cs[i];
        assert(cs@.take(i + 1).drop_last() =~= cs@.take(i as int));
        if is_alphabetic(c) {
            crate::trusted::push_char(&mut kept, c);
        }
        i = i + 1;
    }
    assert(cs@.take(cs@.len() as int) =~= s@);
    lowercase(kept.as_str())
}

/// The characters of bytes `i .. i + n` of the UTF-8 form of `full`.
pub open spec fn byte_window(full: Seq<char>, i: int, n: int) -> Seq<char> {
    decode_utf8(encode_utf8(full).subrange(i, i + n))
}

/// Bytes `i .. i + n` of the UTF-8 form of `full` start and end between
/// characters.
pub open spec fn whole_window(full: Seq<char>, i: int, n: int) -> bool {
    is_char_boundary(encode_utf8(full), i) && is_char_boundary(encode_utf8(full), i + n)
}

/// Scanning the windows of `full` as many bytes long as `target`, from the
/// one at byte `i` on, never cuts a character before it meets one within
/// `limit` edits of `target` or runs out of windows.
pub open spec fn windows_whole(full: Seq<char>, target: Seq<char>, limit: usize, i: int) -> bool
    decreases encode_utf8(full).len() - encode_utf8(target).len() + 1 - i,
{
    let n = encode_utf8(target).len() as int;
    if i < 0 || i > encode_utf8(full).len() - n {
        true
    } else {
        whole_window(full, i, n) && (spec_edit_distance(byte_window(full, i, n), target) <= limit
            || windows_whole(full, target, limit, i + 1))
    }
}

/// Whether `target` stands in the letters of `message` (see
/// `spec_letters_only`) with at most `limit` edits: the whole of them when
/// they take no more bytes than `target`, otherwise some window of them as
/// many bytes long as `target`.
pub open spec fn spec_distance_contains(message: Seq<char>, target: Seq<char>, limit: usize) -> bool {
    let full = spec_letters_only(message);
    let n = encode_utf8(target).len() as int;
    if encode_utf8(full).len() <= n {
        spec_edit_distance(full, target) <= limit
    } else {
        exists|i: int|
            0 <= i <= encode_utf8(full).len() - n && whole_window(full, i, n) && #[trigger] spec_edit_distance(
                byte_window(full, i, n),
                target,
            ) <= limit
    }
}

/// A boundary between characters of `b` before `k` is one of the bytes
/// before `k` too.
proof fn lemma_boundary_prefix(b: Seq<u8>, i: int, k: int)
    requires
        valid_utf8(b),
        is_char_boundary(b, k),
        is_char_boundary(b, i),
        0 <= i <= k <= b.len(),
    ensures
        valid_utf8(b.subrange(0, k)),
        is_char_boundary(b.subrange(0, k), i),
{
    broadcast use vstd::utf8::valid_utf8_split, vstd::utf8::is_char_boundary_start_end_of_seq,
        vstd::utf8::is_char_boundary_iff_not_is_continuation_byte;

    let h = b.subrange(0, k);
    assert(valid_utf8(h));
    if i == k {
        assert(is_char_boundary(h, h.len() as int));
    } else if i > 0 {
        assert(i < b.len());
        assert(is_char_boundary(b, i) <==> !vstd::utf8::is_continuation_byte(b[i]));
        assert(h[i] == b[i]);
        assert(is_char_boundary(h, i) <==> !vstd::utf8::is_continuation_byte(h[i]));
    }
}

/// The UTF-8 form of two texts put together is their forms put together.
proof fn lemma_encode_add(a: Seq<char>, b: Seq<char>)
    ensures
        encode_utf8(a + b) == encode_utf8(a) + encode_utf8(b),
    decreases a.len(),
{
    if a.len() == 0 {
        assert(a + b =~= b);
        assert(encode_utf8(a) =~= Seq::<u8>::empty());
        assert(encode_utf8(a) + encode_utf8(b) =~= encode_utf8(b));
    } else {
        lemma_encode_add(a.drop_first(), b);
        assert((a + b).drop_first() =~= a.drop_first() + b);
        assert((a + b)[0] == a[0]);
        assert(encode_utf8(a + b) =~= vstd::utf8::encode_scalar(a[0] as u32) + (encode_utf8(a.drop_first())
            + encode_utf8(b)));
    }
}

/// Only the empty text has an empty UTF-8 form.
proof fn lemma_encode_empty(a: Seq<char>)
    ensures
        encode_utf8(a).len() == 0 <==> a.len() == 0,
{
    if a.len() > 0 {
        assert(vstd::utf8::encode_scalar(a[0] as u32).len() > 0);
    }
}

/// `target` stands as it is in the letters `full`: as a run of them.
pub open spec fn names_in(full: Seq<char>, target: Seq<char>) -> bool {
    exists|i: int| 0 <= i <= full.len() - target.len() && #[trigger] full.subrange(i, i + target.len()) == target
}

/// Where `target` stands as it is in `full`, its bytes stand too: the
/// window of its bytes holds it.
proof fn lemma_name_window(full: Seq<char>, target: Seq<char>, k: int)
    requires
        0 <= k <= full.len() - target.len(),
        full.subrange(k, k + target.len()) == target,
    ensures
        ({
            let b = encode_utf8(full.take(k)).len() as int;
            let n = encode_utf8(target).len() as int;
            &&& b + n <= encode_utf8(full).len()
            &&& byte_window(full, b, n) == target
            &&& encode_utf8(full).len() <= n ==> full == target
        }),
{
    let pre = full.take(k);
    let post = full.skip(k + target.len());
    assert(full =~= pre + target + post);
    lemma_encode_add(pre, target);
    lemma_encode_add(pre + target, post);
    let b = encode_utf8(pre).len() as int;
    let n = encode_utf8(target).len() as int;
    assert(encode_utf8(full).subrange(b, b + n) =~= encode_utf8(target));
    vstd::utf8::encode_utf8_decode_utf8(target);
    if encode_utf8(full).len() <= n {
        lemma_encode_empty(pre);
        lemma_encode_empty(post);
        assert(full =~= target);
    }
}

/// Whether looking for `target` in the letters of `message` by byte
/// windows (see `distance_contains`) cuts no character: what that search
/// needs of its input.
pub fn windows_are_whole(message: &str, target: &str, limit: usize) -> (r: bool)
    ensures
        r == (encode_utf8(spec_letters_only(message@)).len() > encode_utf8(target@).len() ==> windows_whole(
            spec_letters_only(message@),
            target@,
            limit,
            0,
        )),
{
    let full = letters_only(message);
    let fstr = full.as_str();
    let fl = fstr.as_bytes().len();
    let n = target.as_bytes().len();
    proof {
        vstd::utf8::encode_utf8_valid_utf8(full@);
    }
    if fl <= n {
        return true;
    }
    let last = fl - n;
    let mut i: usize = 0;
    loop
        invariant
            full@ == spec_letters_only(message@),
            fstr@ == full@,
            fl == encode_utf8(full@).len(),
            n == encode_utf8(target@).len(),
            fl > n,
            last == fl - n,
            i <= last,
            valid_utf8(encode_utf8(full@)),
            windows_whole(full@, target@, limit, 0) == windows_whole(full@, target@, limit, i as int),
        decreases last - i,
    {
        if !fstr.is_char_boundary(i) || !fstr.is_char_boundary(i + n) {
            return false;
        }
        let ghost fb = encode_utf8(full@);
        let (head, _) = fstr.split_at(i + n);
        proof {
            lemma_boundary_prefix(fb, i as int, i + n);
            assert(encode_utf8(head@) =~= fb.subrange(0, i + n));
        }
        let (_, win) = head.split_at(i);
        proof {
            assert(encode_utf8(win@) =~= fb.subrange(i as int, i + n));
            vstd::utf8::encode_utf8_decode_utf8(win@);
            assert(win@ == byte_window(full@, i as int, n as int));
        }
        if edit_distance(win, target) <= limit {
            return true;
        }
        if i == last {
            assert(windows_whole(full@, target@, limit, i + 1));
            return true;
        }
        i = i + 1;
    }
}

/// Whether `target` stands in the letters of `message` with at most `limit`
/// edits (see `spec_distance_contains`): how a message is found to speak
/// of the bot. Windows are taken by bytes, so none may cut a character
/// before a match is found. A message whose letters hold `target` as it
/// is always does.
pub fn distance_contains(message: &str, target: &str, limit: usize) -> (r: bool)
    requires
        encode_utf8(spec_letters_only(message@)).len() > encode_utf8(target@).len() ==> windows_whole(
            spec_letters_only(message@),
            target@,
            limit,
            0,
        ),
    ensures
        r == spec_distance_contains(message@, target@, limit),
        names_in(spec_letters_only(message@), target@) ==> r,
{
    let full = letters_only(message);
    let ghost named = names_in(spec_letters_only(message@), target@);
    let ghost at: int = 0;
    proof {
        if named {
            let k = choose|i: int|
                0 <= i <= full@.len() - target@.len() && #[trigger] full@.subrange(i, i + target@.len()) == target@;
            lemma_name_window(full@, target@, k);
            at = encode_utf8(full@.take(k)).len() as int;
        }
    }
    let fstr = full.as_str();
    let fl = fstr.as_bytes().len();
    let n = target.as_bytes().len();
    proof {
        vstd::utf8::encode_utf8_valid_utf8(full@);
    }
    if fl <= n {
        return edit_distance(fstr, target) <= limit;
    }
    let last = fl - n;
    let mut i: usize = 0;
    loop
        invariant
            named == names_in(spec_letters_only(message@), target@),
            named ==> i <= at <= last && byte_window(full@, at, n as int) == target@,
            full@ == spec_letters_only(message@),
            fstr@ == full@,
            fl == encode_utf8(full@).len(),
            n == encode_utf8(target@).len(),
            fl > n,
            last == fl - n,
            i <= last,
            valid_utf8(encode_utf8(full@)),
            windows_whole(full@, target@, limit, i as int),
            forall|j: int|
                0 <= j < i ==> !(whole_window(full@, j, n as int) && #[trigger] spec_edit_distance(
                    byte_window(full@, j, n as int),
                    target@,
                ) <= limit),
        decreases last - i,
    {
        assert(whole_window(full@, i as int, n as int));
        let ghost fb = encode_utf8(full@);
        let (head, _) = fstr.split_at(i + n);
        proof {
            lemma_boundary_prefix(fb, i as int, i + n);
            assert(encode_utf8(head@) =~= fb.subrange(0, i + n));
        }
        let (_, win) = head.split_at(i);
        proof {
            assert(encode_utf8(win@) =~= fb.subrange(i as int, i + n));
            vstd::utf8::encode_utf8_decode_utf8(win@);
            assert(win@ == byte_window(full@, i as int, n as int));
        }
        let d = edit_distance(win, target);
        if d <= limit {
            return true;
        }
        proof {
            if named && at == i {
                assert(win@ == target@);
            }
        }
        if i == last {
            return false;
        }
        i = i + 1;
    }
}

/// Where `c` first stands in `s`, or the length of `s` when it does not.
pub open spec fn first_index(s: Seq<char>, c: char) -> int {
    if s.contains(c) {
        choose|i: int| 0 <= i < s.len() && s[i] == c && forall|j: int| 0 <= j < i ==> s[j] != c
    } else {
        s.len() as int
    }
}

/// Whether the arguments of a generator command give presets: they hold a
/// `:`, and any `[` in them comes after a `?` that comes first.
pub open spec fn gives_presets(a: Seq<char>) -> bool {
    a.contains(':') && (!a.contains('[') || first_index(a, '?') < first_index(a, '['))
}

/// The index where `c` first stands in `cs`, or its length.
fn first_index_exec(cs: &Vec<char>, c: char) -> (r: usize)
    ensures
        r == first_index(cs@, c),
        r <= cs@.len(),
        r < cs@.len() ==> cs@[r as int] == c,
        r == cs@.len() <==> !cs@.contains(c),
        forall|j: int| 0 <= j < r ==> cs@[j] != c,
{
    let mut i: usize = 0;
    while i < cs.len()
        invariant
            i <= cs@.len(),
            forall|j: int| 0 <= j < i ==> cs@[j] != c,
        decreases cs@.len() - i,
    {
        if cs[i] == c {
            proof {
                assert(cs@.contains(c)) by {
                    assert(cs@[i as int] == c);
                }
                let k = choose|k: int| 0 <= k < cs@.len() && cs@[k] == c && forall|j: int| 0 <= j < k ==> cs@[j] != c;
                if k < i {
                    assert(cs@[k] != c);
                } else if k > i {
                    assert(cs@[i as int] != c);
                }
            }
            return i;
        }
        i = i + 1;
    }
    proof {
        if cs@.contains(c) {
            let k = choose|k: int| 0 <= k < cs@.len() && cs@[k] == c;
            assert(cs@[k] != c);
        }
    }
    i
}

/// The presets and the formatting that the arguments `a` of a generator
/// command give (see `gives_presets`): the pieces before the first `?`,
/// split at commas, and what follows that `?`, if there is one.
pub fn generator_presets(a: &str) -> (r: Option<(Vec<String>, Option<String>)>)
    ensures
        r is Some <==> gives_presets(a@),
        r matches Some((ps, f)) ==> {
            &&& texts(ps@) == split_on(a@.take(first_index(a@, '?')), ',')
            &&& (f is Some <==> a@.contains('?'))
            &&& f matches Some(t) ==> t@ == a@.skip(first_index(a@, '?') + 1)
        },
{
    let cs = chars_of(a);
    let colon = first_index_exec(&cs, ':');
    let bracket = first_index_exec(&cs, '[');
    let question = first_index_exec(&cs, '?');
    proof {
        assert(cs@.contains(':') <==> colon < cs@.len()) by {
            if colon < cs@.len() {
                assert(cs@[colon as int] == ':');
            }
        }
        assert(cs@.contains('[') <==> bracket < cs@.len()) by {
            if bracket < cs@.len() {
                assert(cs@[bracket as int] == '[');
            }
        }
        assert(cs@.contains('?') <==> question < cs@.len()) by {
            if question < cs@.len() {
                assert(cs@[question as int] == '?');
            }
        }
    }
    if colon == cs.len() || !(bracket == cs.len() || question < bracket) {
        return None;
    }
    let head = string_of(&cs, 0, question);
    let ps = split_chars(head.as_str(), ',');
    assert(head@ =~= a@.take(first_index(a@, '?')));
    let f = if question < cs.len() {
        let t = string_of(&cs, question + 1, cs.len());
        assert(t@ =~= a@.skip(first_index(a@, '?') + 1));
        Some(t)
    } else {
        None
    };
    Some((ps, f))
}

/// A character that chat formatting wraps names in: `_`, `*` or `~`.
pub open spec fn is_mark(c: char) -> bool {
    c == '_' || c == '*' || c == '~'
}

/// The number of formatting marks in a row from position `i` of `t`.
pub open spec fn mark_run(t: Seq<char>, i: int) -> nat
    decreases t.len() - i,
{
    if 0 <= i < t.len() && is_mark(t[i]) {
        1 + mark_run(t, i + 1)
    } else {
        0
    }
}

/// The position of the first newline from `i` on, or the end of `t`.
pub open spec fn line_end(t: Seq<char>, i: int) -> int
    decreases t.len() - i,
{
    if i < 0 || i >= t.len() || t[i] == '\n' {
        i
    } else {
        line_end(t, i + 1)
    }
}

/// At `j` of `t` stands `close`, then formatting marks, then a space: the
/// end of a bridged name.
pub open spec fn closes_at(t: Seq<char>, j: int, close: char) -> bool {
    &&& 0 <= j < t.len()
    &&& t[j] == close
    &&& j + 1 + mark_run(t, j + 1) < t.len()
    &&& t[j + 1 + mark_run(t, j + 1)] == ' '
}

/// The first position from `p` on, on the same line, where a bridged name
/// ends (see `closes_at`).
pub open spec fn first_close(t: Seq<char>, p: int, close: char) -> Option<int>
    decreases t.len() - p,
{
    if p < 0 || p >= t.len() || t[p] == '\n' {
        None
    } else if closes_at(t, p, close) {
        Some(p)
    } else {
        first_close(t, p + 1, close)
    }
}

/// The name that starts at `s` of `t` and ends at the first `close` that
/// is followed by formatting marks and a space, and the rest of that line
/// after the space.
pub open spec fn bridged(t: Seq<char>, s: int, close: char) -> Option<(Seq<char>, Seq<char>)> {
    match first_close(t, s, close) {
        Some(j) => {
            let c = j + 2 + mark_run(t, j + 1);
            Some((t.subrange(s, j), t.subrange(c, line_end(t, c))))
        },
        None => None,
    }
}

/// The author and text of a line that an IRC bridge relays: formatting
/// marks, `<`, the author, `>`, formatting marks, a space, then the text
/// (what the pattern `^[_\*~]*<(.*?)>[_\*~]* (.*)` captures).
pub open spec fn spec_irc_bridge(t: Seq<char>) -> Option<(Seq<char>, Seq<char>)> {
    let a = mark_run(t, 0) as int;
    if a < t.len() && t[a] == '<' {
        bridged(t, a + 1, '>')
    } else {
        None
    }
}

/// The author and text of a line that the PikaGirl bridge relays: one
/// character, a space, formatting marks, the author, `:`, formatting
/// marks, a space, then the text (what `^. [_\*~]*(.*?):[_\*~]* (.*)`
/// captures).
pub open spec fn spec_pikagirl_bridge(t: Seq<char>) -> Option<(Seq<char>, Seq<char>)> {
    if t.len() >= 2 && t[0] != '\n' && t[1] == ' ' {
        bridged(t, 2int + mark_run(t, 2), ':')
    } else {
        None
    }
}

fn mark_run_exec(cs: &Vec<char>, i: usize) -> (r: usize)
    requires
        i <= cs@.len(),
    ensures
        r == mark_run(cs@, i as int),
        i + r <= cs@.len(),
{
    let mut k = i;
    while k < cs.len() && (cs[k] == '_' || cs[k] == '*' || cs[k] == '~')
        invariant
            i <= k <= cs@.len(),
            mark_run(cs@, i as int) == (k - i) + mark_run(cs@, k as int),
        decreases cs@.len() - k,
    {
        k = k + 1;
    }
    k - i
}

fn line_end_exec(cs: &Vec<char>, i: usize) -> (r: usize)
    requires
        i <= cs@.len(),
    ensures
        r == line_end(cs@, i as int),
        i <= r <= cs@.len(),
{
    let mut k = i;
    while k < cs.len() && cs[k] != '\n'
        invariant
            i <= k <= cs@.len(),
            line_end(cs@, i as int) == line_end(cs@, k as int),
        decreases cs@.len() - k,
    {
        k = k + 1;
    }
    k
}

fn bridged_exec(cs: &Vec<char>, s: usize, close: char) -> (r: Option<(String, String)>)
    requires
        s <= cs@.len(),
    ensures
        match r {
            Some((a, b)) => bridged(cs@, s as int, close) == Some((a@, b@)),
            None => bridged(cs@, s as int, close) is None,
        },
{
    let mut p = s;
    while p < cs.len()
        invariant
            s <= p <= cs@.len(),
            first_close(cs@, s as int, close) == first_close(cs@, p as int, close),
        decreases cs@.len() - p,
    {
        if cs[p] == '\n' {
            return None;
        }
        if cs[p] == close {
            let m = mark_run_exec(cs, p + 1);
            if p + 1 + m < cs.len() && cs[p + 1 + m] == ' ' {
                let c = p + 2 + m;
                let e = line_end_exec(cs, c);
                let author = string_of(cs, s, p);
                let text = string_of(cs, c, e);
                return Some((author, text));
            }
        }
        p = p + 1;
    }
    None
}

/// The author and text of a line that an IRC bridge relays (see
/// `spec_irc_bridge`).
pub fn irc_bridge(content: &str) -> (r: Option<(String, String)>)
    ensures
        match r {
            Some((a, b)) => spec_irc_bridge(content@) == Some((a@, b@)),
            None => spec_irc_bridge(content@) is None,
        },
{
    let cs = chars_of(content);
    let a = mark_run_exec(&cs, 0);
    if a < cs.len() && cs[a] == '<' {
        bridged_exec(&cs, a + 1, '>')
    } else {
        None
    }
}

/// The author and text of a line that the PikaGirl bridge relays (see
/// `spec_pikagirl_bridge`).
pub fn pikagirl_bridge(content: &str) -> (r: Option<(String, String)>)
    ensures
        match r {
            Some((a, b)) => spec_pikagirl_bridge(content@) == Some((a@, b@)),
            None => spec_pikagirl_bridge(content@) is None,
        },
{
    let cs = chars_of(content);
    if cs.len() >= 2 && cs[0] != '\n' && cs[1] == ' ' {
        let m = mark_run_exec(&cs, 2);
        bridged_exec(&cs, 2 + m, ':')
    } else {
        None
    }
}

/// The bot that relays other chats' lines in the PikaGirl form.
pub const PIKAGIRL_ID: u64 = 169678500893163520u64;

/// The bot that relays IRC lines.
pub const CROCBOT_ID: u64 = 229824641160577025u64;

/// Who a message speaks for, what it says, and whether it is listened to
/// at all: a person's message as it stands; a bridge bot's relayed line as
/// the author and text it carries; any other bot's message, or a bridge
/// line that does not parse, is not listened to.
pub open spec fn spec_origin(author_id: u64, is_bot: bool, name: Seq<char>, content: Seq<char>) -> (
    bool,
    Seq<char>,
    Seq<char>,
) {
    if !is_bot {
        (true, name, content)
    } else if author_id == PIKAGIRL_ID {
        match spec_pikagirl_bridge(content) {
            Some((a, c)) => (true, a, c),
            None => (false, name, content),
        }
    } else if author_id == CROCBOT_ID {
        match spec_irc_bridge(content) {
            Some((a, c)) => (true, a, c),
            None => (false, name, content),
        }
    } else {
        (false, name, content)
    }
}

/// A person's message is listened to as it stands; a bot's message only
/// when it is a bridged line that parses: PikaGirl's in its form, the IRC
/// bridge's in its form. It then speaks for the author and text the line
/// carries; a bot's line that is not listened to keeps its sender and
/// text.
pub proof fn law_bots_listened_only_when_bridged(author_id: u64, is_bot: bool, name: Seq<char>, content: Seq<char>)
    ensures
        !is_bot ==> spec_origin(author_id, is_bot, name, content) == (true, name, content),
        is_bot ==> (spec_origin(author_id, is_bot, name, content).0 <==> {
            ||| author_id == PIKAGIRL_ID && spec_pikagirl_bridge(content) is Some
            ||| author_id == CROCBOT_ID && spec_irc_bridge(content) is Some
        }),
        is_bot && !spec_origin(author_id, is_bot, name, content).0 ==> spec_origin(
            author_id,
            is_bot,
            name,
            content,
        ) == (false, name, content),
        is_bot && author_id == PIKAGIRL_ID ==> (spec_pikagirl_bridge(content) matches Some(p)
            ==> spec_origin(author_id, is_bot, name, content) == (true, p.0, p.1)),
        is_bot && author_id == CROCBOT_ID ==> (spec_irc_bridge(content) matches Some(p)
            ==> spec_origin(author_id, is_bot, name, content) == (true, p.0, p.1)),
{
}

/// Who a message speaks for and what it says (see `spec_origin`), and
/// whether it is listened to: not when its channel is ignored or the bot
/// sent it itself.
pub fn message_origin(
    author_id: u64,
    is_bot: bool,
    name: &str,
    content: &str,
    channel_ignored: bool,
    own_id: u64,
) -> (r: (bool, String, String))
    ensures
        ({
            let o = spec_origin(author_id, is_bot, name@, content@);
            &&& r.0 == (o.0 && !channel_ignored && author_id != own_id)
            &&& r.1@ == o.1
            &&& r.2@ == o.2
        }),
{
    let bridged = if !is_bot {
        None
    } else if author_id == PIKAGIRL_ID {
        pikagirl_bridge(content)
    } else if author_id == CROCBOT_ID {
        irc_bridge(content)
    } else {
        None
    };
    let (listen, author, text) = match bridged {
        Some((a, c)) => (true, a, c),
        None => (!is_bot, name.to_string(), content.to_string()),
    };
    (listen && !channel_ignored && author_id != own_id, author, text)
}

/// The power of a message's author: cool for the owner, whose id the
/// configuration holds in decimal.
pub fn power_of(author_id: u64, owner_id: &str) -> (r: Power)
    ensures
        r == (if decimal(author_id as nat) == owner_id@ {
            Power::Cool
        } else {
            Power::Normal
        }),
{
    let mut id = String::new();
    push_decimal_u64(&mut id, author_id);
    assert(id@ =~= decimal(author_id as nat));
    if text_is(id.as_str(), owner_id) {
        Power::Cool
    } else {
        Power::Normal
    }
}

/// `t` begins with `p`.
pub open spec fn starts_with(t: Seq<char>, p: Seq<char>) -> bool {
    p.len() <= t.len() && t.subrange(0, p.len() as int) == p
}

/// A line that asks the main chain: `$m` and at least one more character.
pub open spec fn main_command(t: Seq<char>) -> bool {
    starts_with(t, seq!['$', 'm']) && t.len() >= 3
}

/// A line that asks the message's own chain: `$cm` and at least one more
/// character.
pub open spec fn chain_command(t: Seq<char>) -> bool {
    starts_with(t, seq!['$', 'c', 'm']) && t.len() >= 4
}

/// `daddy`: a line holding it, in any case, is never learned.
pub open spec fn shunned_word() -> Seq<char> {
    seq!['d', 'a', 'd', 'd', 'y']
}

/// What becomes of a chat message that is listened to.
pub enum MessageRoute {
    /// A command for the main chain: the line after `$m` and one more
    /// character.
    MainCommand(String),
    /// A command for the message's own chain: the line after `$cm` and one
    /// more character.
    ChainCommand(String),
    /// A chat line: whether the bot replies to it, and whether its chain
    /// learns it.
    Chat { reply: bool, learn: bool },
}

/// What `route_message` needs of its input: the character after `$m` or
/// `$cm` is ASCII (the command is cut there by bytes), and, for a chat line
/// that is not private, looking for the bot's name cuts no character (see
/// `windows_whole`).
pub open spec fn route_ok(content: Seq<char>, private: bool, bot_name: Seq<char>) -> bool {
    &&& main_command(content) ==> (content[2] as u32) < 128
    &&& !main_command(content) && chain_command(content) ==> (content[3] as u32) < 128
    &&& !main_command(content) && !chain_command(content) && !private && encode_utf8(
        spec_letters_only(content),
    ).len() > encode_utf8(bot_name).len() ==> windows_whole(spec_letters_only(content), bot_name, 3, 0)
}

/// `r` is where `route_message` sends the message `content`.
pub open spec fn routed(content: Seq<char>, private: bool, bot_name: Seq<char>, r: MessageRoute) -> bool {
    match r {
        MessageRoute::MainCommand(c) => main_command(content) && c@ == content.skip(3),
        MessageRoute::ChainCommand(c) => !main_command(content) && chain_command(content) && c@
            == content.skip(4),
        MessageRoute::Chat { reply, learn } => {
            &&& !main_command(content)
            &&& !chain_command(content)
            &&& reply == (private || spec_distance_contains(content, bot_name, 3))
            &&& learn == !(exists|i: int| occurs_at(spec_lowercase(content), shunned_word(), i))
        },
    }
}

/// Where a chat message goes: `$m` commands go to the main chain, `$cm`
/// commands to the message's own chain (the character after the prefix is
/// dropped with it); any other line is replied to when it is private or
/// speaks of the bot (its name within three edits, see
/// `spec_distance_contains`), and learned unless it holds `daddy` in any
/// case.
pub fn route_message(content: &str, private: bool, bot_name: &str) -> (r: MessageRoute)
    requires
        route_ok(content@, private, bot_name@),
    ensures
        routed(content@, private, bot_name@, r),
{
    let cs = chars_of(content);
    proof {
        assert(seq!['$', 'm'].len() == 2);
    }
    if cs.len() >= 3 && cs[0] == '$' && cs[1] == 'm' {
        assert(cs@.subrange(0, 2) =~= seq!['$', 'm']);
        return MessageRoute::MainCommand(string_of(&cs, 3, cs.len()));
    }
    assert(main_command(content@) ==> cs@[0] == '$' && cs@[1] == 'm' && cs@.len() >= 3) by {
        if main_command(content@) {
            assert(cs@.subrange(0, 2)[0] == cs@[0]);
            assert(cs@.subrange(0, 2)[1] == cs@[1]);
        }
    }
    if cs.len() >= 4 && cs[0] == '$' && cs[1] == 'c' && cs[2] == 'm' {
        assert(cs@.subrange(0, 3) =~= seq!['$', 'c', 'm']);
        return MessageRoute::ChainCommand(string_of(&cs, 4, cs.len()));
    }
    assert(chain_command(content@) ==> cs@[0] == '$' && cs@[1] == 'c' && cs@[2] == 'm' && cs@.len() >= 4) by {
        if chain_command(content@) {
            assert(cs@.subrange(0, 3)[0] == cs@[0]);
            assert(cs@.subrange(0, 3)[1] == cs@[1]);
            assert(cs@.subrange(0, 3)[2] == cs@[2]);
        }
    }
    let reply = private || distance_contains(content, bot_name, 3);
    let lower = lowercase(content);
    let shunned = vec!['d', 'a', 'd', 'd', 'y'];
    assert(shunned@ =~= shunned_word());
    let learn = !occurs_in(&chars_of(lower.as_str()), &shunned);
    MessageRoute::Chat { reply, learn }
}

/// Where a chat message goes, as `route_message` says, after checking what
/// it needs (see `route_ok`): nothing when the input would cut a character.
pub fn checked_route(content: &str, private: bool, bot_name: &str) -> (r: Option<MessageRoute>)
    ensures
        r is None <==> !route_ok(content@, private, bot_name@),
        r matches Some(m) ==> routed(content@, private, bot_name@, m),
{
    let cs = chars_of(content);
    let main = cs.len() >= 3 && cs[0] == '$' && cs[1] == 'm';
    let chain = !main && cs.len() >= 4 && cs[0] == '$' && cs[1] == 'c' && cs[2] == 'm';
    proof {
        assert(main == main_command(content@)) by {
            if cs@.len() >= 3 {
                assert(cs@.subrange(0, 2)[0] == cs@[0] && cs@.subrange(0, 2)[1] == cs@[1]);
                if cs@[0] == '$' && cs@[1] == 'm' {
                    assert(cs@.subrange(0, 2) =~= seq!['$', 'm']);
                }
            }
        }
        assert(chain == (!main_command(content@) && chain_command(content@))) by {
            if cs@.len() >= 4 {
                assert(cs@.subrange(0, 3)[0] == cs@[0] && cs@.subrange(0, 3)[1] == cs@[1]
                    && cs@.subrange(0, 3)[2] == cs@[2]);
                if cs@[0] == '$' && cs@[1] == 'c' && cs@[2] == 'm' {
                    assert(cs@.subrange(0, 3) =~= seq!['$', 'c', 'm']);
                }
            }
        }
    }
    if main && (cs[2] as u32) >= 128 {
        return None;
    }
    if chain && (cs[3] as u32) >= 128 {
        return None;
    }
    if !main && !chain && !private && !windows_are_whole(content, bot_name, 3) {
        return None;
    }
    Some(route_message(content, private, bot_name))
}

/// What a line typed to the Discord chat's control asks for.
#[derive(Debug, PartialEq, Eq, Structural, Clone, Copy)]
pub enum ControlCommand {
    /// Shut the connection, save the configuration and stop every chain.
    Stop,
    /// Load the tables and generators again.
    Reload,
    /// Nothing.
    Other,
}

/// What a control line asks for: `stop` or `reload`, in any case.
pub fn control_command(line: &str) -> (r: ControlCommand)
    ensures
        r == (if spec_lowercase(line@) == "stop"@ {
            ControlCommand::Stop
        } else if spec_lowercase(line@) == "reload"@ {
            ControlCommand::Reload
        } else {
            ControlCommand::Other
        }),
{
    let lower = lowercase(line);
    if text_is(lower.as_str(), "stop") {
        ControlCommand::Stop
    } else if text_is(lower.as_str(), "reload") {
        ControlCommand::Reload
    } else {
        ControlCommand::Other
    }
}

/// What the bot shows it is doing.
#[derive(Debug, PartialEq, Eq, Structural, Clone, Copy)]
pub enum GameKind {
    /// Nothing.
    Nothing,
    /// Playing a random word.
    Playing,
    /// Streaming a random word.
    Streaming,
}

/// How long, in seconds, the status shown at `now` seconds since the epoch
/// stays, and what it is: the low ten bits of `now`; nothing for 0,
/// playing for 1, streaming otherwise.
pub fn presence_step(now: u64) -> (r: (u64, GameKind))
    ensures
        r.0 == now % 1024,
        r.1 == (if r.0 == 0 {
            GameKind::Nothing
        } else if r.0 == 1 {
            GameKind::Playing
        } else {
            GameKind::Streaming
        }),
{
    let secs = now & 1023;
    assert(now & 1023 == now % 1024) by (bit_vector);
    let kind = if secs == 0 {
        GameKind::Nothing
    } else if secs == 1 {
        GameKind::Playing
    } else {
        GameKind::Streaming
    };
    (secs, kind)
}

/// What a message's channel is.
#[derive(Debug, PartialEq, Eq, Structural, Clone, Copy)]
pub enum ChannelKind {
    /// A channel of the server with this id.
    Server(u64),
    /// A group chat.
    Group,
    /// A private chat.
    Private,
    /// A channel the bot cannot see.
    Unknown,
}

/// How a channel's chain is set up.
pub struct ChannelChain {
    /// The file its lines are kept in.
    pub file: String,
    /// The strength it is given, in millionths, if not the default.
    pub strength: Option<u32>,
    /// Whether it passes what it learns on to its parent.
    pub tells_parent: bool,
    /// Whether it keeps its words apart, in the table for nsfw channels.
    pub nsfw_words: bool,
}

/// `lines/discord/`
pub open spec fn discord_dir() -> Seq<char> {
    "lines/discord/"@
}

/// The folder of a channel kind's chains under `lines/discord/`: the
/// server's id, `groups`, `private` or `unknown`.
pub open spec fn kind_dir(kind: ChannelKind) -> Seq<char> {
    match kind {
        ChannelKind::Server(id) => decimal(id as nat),
        ChannelKind::Group => "groups"@,
        ChannelKind::Private => "private"@,
        ChannelKind::Unknown => "unknown"@,
    }
}

/// The strength of a server channel's chain: 0.7.
pub const CHANNEL_STRENGTH: u32 = 700_000u32;

/// The strength of a user's chain: 0.3.
pub const USER_STRENGTH: u32 = 300_000u32;

/// The file of a server's chain: `lines/discord/<server>/server`.
pub fn server_chain_file(server_id: u64) -> (r: String)
    ensures
        r@ == discord_dir() + decimal(server_id as nat) + "/server"@,
{
    let mut r = "lines/discord/".to_string();
    push_decimal_u64(&mut r, server_id);
    r.append("/server");
    r
}

/// The file of a user's chain: `lines/discord/users/<user>`.
pub fn user_chain_file(user_id: u64) -> (r: String)
    ensures
        r@ == discord_dir() + "users/"@ + decimal(user_id as nat),
{
    let mut r = "lines/discord/".to_string();
    r.append("users/");
    push_decimal_u64(&mut r, user_id);
    r
}

/// How the chain of a channel is set up: its file is
/// `lines/discord/<kind>/<channel>`; on a server it gets the channel
/// strength; it keeps what it learns to itself in nsfw and private
/// channels, and nsfw channels keep their words apart.
pub fn channel_chain(kind: ChannelKind, channel_id: u64, nsfw: bool, private: bool) -> (r: ChannelChain)
    ensures
        r.file@ == discord_dir() + kind_dir(kind) + "/"@ + decimal(channel_id as nat),
        r.strength == (if kind is Server {
            Some(CHANNEL_STRENGTH)
        } else {
            None::<u32>
        }),
        r.tells_parent == !(nsfw || private),
        r.nsfw_words == nsfw,
{
    let mut file = "lines/discord/".to_string();
    match kind {
        ChannelKind::Server(id) => push_decimal_u64(&mut file, id),
        ChannelKind::Group => file.append("groups"),
        ChannelKind::Private => file.append("private"),
        ChannelKind::Unknown => file.append("unknown"),
    }
    file.append("/");
    push_decimal_u64(&mut file, channel_id);
    let strength = match kind {
        ChannelKind::Server(_) => Some(CHANNEL_STRENGTH),
        _ => None,
    };
    ChannelChain { file, strength, tells_parent: !(nsfw || private), nsfw_words: nsfw }
}

/// Whether a message also goes through its author's own chain: only when
/// the channel is neither private nor nsfw.
pub fn uses_user_chain(private: bool, nsfw: bool) -> (r: bool)
    ensures
        r == !(private || nsfw),
{
    !(private || nsfw)
}

/// A `$` command that the chat answers itself.
pub enum MiscCommand {
    /// Ignore the channel from now on (for a cool sender only).
    Ignore,
    /// Tell the names known for the user: the mentioned one, or the id
    /// given, when it is a number.
    Names(Option<u64>),
    /// Not such a command.
    Unhandled,
}

/// The first word of a line, after its `$`, in lowercase.
pub open spec fn command_word(t: Seq<char>) -> Seq<char> {
    spec_lowercase(split_on(t, ' ')[0].skip(1))
}

/// The rest of a line after its first space, empty when there is none.
pub open spec fn command_args(t: Seq<char>) -> Seq<char> {
    let first = split_on(t, ' ')[0];
    if first.len() < t.len() {
        t.skip(first.len() + 1int)
    } else {
        Seq::<char>::empty()
    }
}

/// The chat's own commands: `$ignore` from a cool sender, and `$names`
/// with a mention or a user id (see `MiscCommand`).
pub fn misc_command(content: &str, power: Power, mention: Option<u64>) -> (r: MiscCommand)
    ensures
        !starts_with(content@, seq!['$']) ==> r is Unhandled,
        starts_with(content@, seq!['$']) ==> match r {
            MiscCommand::Ignore => command_word(content@) == "ignore"@ && power == Power::Cool,
            MiscCommand::Names(id) => command_word(content@) == "names"@ && id == (match mention {
                Some(m) => Some(m),
                None => spec_parse_u64(command_args(content@)),
            }),
            MiscCommand::Unhandled => !(command_word(content@) == "ignore"@ && power == Power::Cool)
                && command_word(content@) != "names"@,
        },
{
    let cs = chars_of(content);
    if cs.len() == 0 || cs[0] != '$' {
        proof {
            if starts_with(content@, seq!['$']) {
                assert(cs@.subrange(0, 1)[0] == cs@[0]);
            }
        }
        return MiscCommand::Unhandled;
    }
    assert(starts_with(content@, seq!['$'])) by {
        assert(cs@.subrange(0, 1) =~= seq!['$']);
    }
    proof {
        reveal_strlit("ignore");
        reveal_strlit("names");
    }
    let end = first_stop(&cs, ' ');
    let word = string_of(&cs, 1, end);
    let lower = lowercase(word.as_str());
    let args = if end < cs.len() {
        string_of(&cs, end + 1, cs.len())
    } else {
        String::new()
    };
    proof {
        assert(word@ =~= split_on(content@, ' ')[0].skip(1));
        if end < cs.len() {
            assert(args@ =~= content@.skip(end + 1));
        } else {
            assert(args@ =~= Seq::<char>::empty());
        }
    }
    if text_is(lower.as_str(), "ignore") && power == Power::Cool {
        return MiscCommand::Ignore;
    }
    if text_is(lower.as_str(), "names") {
        return match mention {
            Some(m) => MiscCommand::Names(Some(m)),
            None => MiscCommand::Names(parse_u64(args.as_str())),
        };
    }
    MiscCommand::Unhandled
}

/// The first piece of `t` split at `sep` is `t` up to its first `sep`.
proof fn lemma_first_piece(t: Seq<char>, end: int, sep: char)
    requires
        0 <= end <= t.len(),
        forall|k: int| 0 <= k < end ==> t[k] != sep,
        end == t.len() || t[end] == sep,
    ensures
        split_on(t, sep)[0] == t.subrange(0, end),
        end < t.len() ==> split_on(t, sep).len() >= 2,
    decreases t.len(),
{
    if t.len() > 0 {
        crate::text::lemma_split_nonempty(t.drop_last(), sep);
        if end == t.len() {
            lemma_first_piece_all(t, sep);
            assert(t.subrange(0, end) =~= t);
        } else {
            if end < t.len() - 1 {
                assert(t.drop_last()[end] == sep);
                lemma_first_piece(t.drop_last(), end, sep);
                let p = split_on(t.drop_last(), sep);
                assert(p.len() >= 2);
                assert(split_on(t, sep)[0] == p[0]);
                assert(p[0] =~= t.subrange(0, end));
            } else {
                lemma_first_piece_all(t.drop_last(), sep);
                assert(split_on(t.drop_last(), sep)[0] =~= t.drop_last());
                assert(split_on(t, sep)[0] =~= t.subrange(0, end));
            }
        }
    }
}

/// A text without `sep` is its own first and only piece.
proof fn lemma_first_piece_all(t: Seq<char>, sep: char)
    requires
        forall|k: int| 0 <= k < t.len() ==> t[k] != sep,
    ensures
        split_on(t, sep)[0] == t,
        split_on(t, sep).len() == 1,
    decreases t.len(),
{
    if t.len() > 0 {
        lemma_first_piece_all(t.drop_last(), sep);
        assert(split_on(t, sep)[0] =~= t);
    }
}

/// The position of the first `sep` in `cs`, or its length when there is
/// none.
fn first_stop(cs: &Vec<char>, sep: char) -> (r: usize)
    ensures
        r <= cs@.len(),
        forall|k: int| 0 <= k < r ==> cs@[k] != sep,
        r == cs@.len() || cs@[r as int] == sep,
        split_on(cs@, sep)[0] == cs@.subrange(0, r as int),
{
    let mut end: usize = 0;
    while end < cs.len() && cs[end] != sep
        invariant
            end <= cs@.len(),
            forall|k: int| 0 <= k < end ==> cs@[k] != sep,
        decreases cs@.len() - end,
    {
        end = end + 1;
    }
    proof {
        lemma_first_piece(cs@, end as int, sep);
    }
    end
}

/// The names known for a user: the user's name, then each nickname, each
/// on a line of its own.
pub open spec fn spec_names_text(name: Seq<char>, nicks: Seq<Seq<char>>) -> Seq<char>
    decreases nicks.len(),
{
    if nicks.len() == 0 {
        name
    } else {
        spec_names_text(name, nicks.drop_last()) + seq!['\n'] + nicks.last()
    }
}

/// The answer to `$names` for a known user (see `spec_names_text`).
pub fn names_text(name: &str, nicks: &Vec<String>) -> (r: String)
    ensures
        r@ == spec_names_text(name@, crate::text::texts(nicks@)),
{
    let mut r = name.to_string();
    let mut i: usize = 0;
    while i < nicks.len()
        invariant
            i <= nicks@.len(),
            r@ == spec_names_text(name@, crate::text::texts(nicks@).take(i as int)),
        decreases nicks@.len() - i,
    {
        assert(crate::text::texts(nicks@).take(i + 1).drop_last() =~= crate::text::texts(nicks@).take(
            i as int,
        ));
        crate::trusted::push_char(&mut r, '\n');
        r.append(nicks[i].as_str());
        i = i + 1;
    }
    assert(crate::text::texts(nicks@).take(nicks@.len() as int) =~= crate::text::texts(nicks@));
    r
}

/// The answer to `$names` for a user id nothing is known of.
pub fn unknown_user_text(user_id: u64) -> (r: String)
    ensures
        r@ == "User id "@ + decimal(user_id as nat) + " is unknown"@,
{
    let mut r = "User id ".to_string();
    push_decimal_u64(&mut r, user_id);
    r.append(" is unknown");
    r
}

/// The dice at position `i` of an expression: a count of up to four
/// digits (perhaps none), `d`, and at least one digit of sides (what the
/// pattern `(?P<c>\d{0,4})d(?P<d>\d{1,16})` matches there).
pub open spec fn dice_at(t: Seq<char>, i: int) -> bool {
    let c = digit_run(t, i) as int;
    c <= 4 && i + c + 1 < t.len() && t[i + c] == 'd' && is_digit(t[i + c + 1])
}

/// At most 16: the most digits of sides that a die takes.
pub open spec fn sides_len(n: nat) -> nat {
    if n > 16 {
        16
    } else {
        n
    }
}

/// The expression `t` from position `i` on with each die `<c>d<s>`, read
/// leftmost first, written as the call `d(<c>, <s>)`.
pub open spec fn dice_from(t: Seq<char>, i: int) -> Seq<char>
    decreases (if i <= t.len() {
        t.len() - i
    } else {
        0
    }),
{
    if i < 0 || i >= t.len() {
        Seq::<char>::empty()
    } else if dice_at(t, i) {
        let c = digit_run(t, i) as int;
        let s = i + c + 1;
        let n = sides_len(digit_run(t, s)) as int;
        seq!['d', '('] + t.subrange(i, i + c) + seq![',', ' '] + t.subrange(s, s + n) + seq![')']
            + dice_from(t, s + n)
    } else {
        seq![t[i]] + dice_from(t, i + 1)
    }
}

/// `t` from position `i` on with every occurrence of `p` replaced by
/// `rep`, leftmost first, without overlaps.
pub open spec fn replace_lit_from(t: Seq<char>, p: Seq<char>, rep: Seq<char>, i: int) -> Seq<char>
    decreases t.len() - i,
{
    if i < 0 || i >= t.len() {
        Seq::<char>::empty()
    } else if p.len() > 0 && occurs_at(t, p, i) {
        rep + replace_lit_from(t, p, rep, i + p.len())
    } else {
        seq![t[i]] + replace_lit_from(t, p, rep, i + 1)
    }
}

/// The expression of a roll ready to evaluate: its dice as calls of `d`,
/// a die without a count rolled once.
pub open spec fn dice_expression(e: Seq<char>) -> Seq<char> {
    replace_lit_from(dice_from(e, 0), seq!['d', '(', ','], seq!['d', '(', '1', ','], 0)
}

/// What `$roll` asks for: the expression after the command (`d12` when
/// there is none) up to its first `:`, ready to evaluate, and what follows
/// the `:`, to be shown beside the result.
pub open spec fn spec_roll_request(t: Seq<char>) -> Option<(Seq<char>, Option<Seq<char>>)> {
    let first = split_on(t, ' ')[0];
    if first != "$roll"@ {
        None
    } else {
        let e = if first.len() < t.len() {
            t.skip(first.len() + 1int)
        } else {
            "d12"@
        };
        let head = split_on(e, ':')[0];
        let comment = if head.len() < e.len() {
            Some(e.skip(head.len() + 1int))
        } else {
            None
        };
        Some((dice_expression(head), comment))
    }
}

/// No `d` in `t` is followed by a digit: `t` holds no die `<c>d<s>` that
/// is still to be rewritten.
pub open spec fn no_die_left(t: Seq<char>) -> bool {
    forall|j: int| 0 <= j && j + 1 < t.len() && #[trigger] t[j] == 'd' ==> !is_digit(t[j + 1])
}

proof fn lemma_digit_run_digits(t: Seq<char>, j: int)
    requires
        0 <= j,
    ensures
        j + digit_run(t, j) <= t.len() || digit_run(t, j) == 0,
        forall|k: int| j <= k < j + digit_run(t, j) ==> is_digit(#[trigger] t[k]),
    decreases t.len() - j,
{
    if 0 <= j < t.len() && is_digit(t[j]) {
        lemma_digit_run_digits(t, j + 1);
    }
}

proof fn lemma_no_die_concat(x: Seq<char>, y: Seq<char>)
    requires
        no_die_left(x),
        no_die_left(y),
        x.len() > 0 && x.last() == 'd' && y.len() > 0 ==> !is_digit(y[0]),
    ensures
        no_die_left(x + y),
{
    let z = x + y;
    assert forall|j: int| 0 <= j && j + 1 < z.len() && #[trigger] z[j] == 'd' implies !is_digit(z[j + 1]) by {
        if j + 1 < x.len() {
            assert(z[j] == x[j] && z[j + 1] == x[j + 1]);
        } else if j + 1 == x.len() {
            assert(z[j] == x.last() && z[j + 1] == y[0]);
        } else {
            assert(z[j] == y[j - x.len()] && z[j + 1] == y[j + 1 - x.len()]);
        }
    }
}

proof fn lemma_dice_from_no_die(t: Seq<char>, i: int)
    ensures
        no_die_left(dice_from(t, i)),
        dice_from(t, i).len() > 0 <==> 0 <= i < t.len(),
        0 <= i < t.len() ==> dice_from(t, i)[0] == (if dice_at(t, i) {
            'd'
        } else {
            t[i]
        }),
    decreases (if i <= t.len() {
        t.len() - i
    } else {
        0
    }),
{
    if i < 0 || i >= t.len() {
    } else if dice_at(t, i) {
        let c = digit_run(t, i) as int;
        let s = i + c + 1;
        let n = sides_len(digit_run(t, s)) as int;
        lemma_digit_run_digits(t, i);
        lemma_digit_run_digits(t, s);
        lemma_dice_from_no_die(t, s + n);
        let a = seq!['d', '('] + t.subrange(i, i + c) + seq![',', ' '] + t.subrange(s, s + n) + seq![')'];
        assert forall|k: int| 1 <= k < a.len() implies #[trigger] a[k] != 'd' by {
            if 2 <= k < 2 + c {
                assert(a[k] == t[i + k - 2]);
            } else if 4 + c <= k < 4 + c + n {
                assert(a[k] == t[s + k - 4 - c]);
            }
        }
        assert(no_die_left(a));
        lemma_no_die_concat(a, dice_from(t, s + n));
        assert(dice_from(t, i) == a + dice_from(t, s + n));
    } else {
        lemma_dice_from_no_die(t, i + 1);
        let a = seq![t[i]];
        if t[i] == 'd' && i + 1 < t.len() {
            assert(digit_run(t, i) == 0);
            assert(!is_digit(t[i + 1]));
            if dice_at(t, i + 1) {
                assert(dice_from(t, i + 1)[0] == 'd');
            }
        }
        lemma_no_die_concat(a, dice_from(t, i + 1));
        assert(dice_from(t, i) == a + dice_from(t, i + 1));
    }
}

/// Every die of an expression is rewritten, not only the leftmost: what
/// `dice_from` gives has no `d` followed by a digit, so no die is left
/// anywhere in it, and this holds still after a die without a count is
/// given the count 1.
pub proof fn law_dice_all_rewritten(t: Seq<char>)
    ensures
        no_die_left(dice_from(t, 0)),
        forall|j: int| 0 <= j < dice_from(t, 0).len() ==> !#[trigger] dice_at(dice_from(t, 0), j),
        no_die_left(dice_expression(t)),
        forall|j: int| 0 <= j < dice_expression(t).len() ==> !#[trigger] dice_at(dice_expression(t), j),
{
    lemma_dice_from_no_die(t, 0);
    lemma_count_filled_no_die(dice_from(t, 0), 0);
    let o = dice_from(t, 0);
    assert forall|j: int| 0 <= j < o.len() implies !#[trigger] dice_at(o, j) by {
        let c = digit_run(o, j) as int;
        if dice_at(o, j) {
            assert(o[j + c] == 'd');
        }
    }
    let e = dice_expression(t);
    assert forall|j: int| 0 <= j < e.len() implies !#[trigger] dice_at(e, j) by {
        let c = digit_run(e, j) as int;
        if dice_at(e, j) {
            assert(e[j + c] == 'd');
        }
    }
}

proof fn lemma_dice_from_plain(t: Seq<char>, i: int)
    requires
        0 <= i <= t.len(),
        forall|j: int| 0 <= j < t.len() ==> !#[trigger] dice_at(t, j),
    ensures
        dice_from(t, i) == t.subrange(i, t.len() as int),
    decreases t.len() - i,
{
    if i < t.len() {
        lemma_dice_from_plain(t, i + 1);
        assert(!dice_at(t, i));
        assert(dice_from(t, i) =~= t.subrange(i, t.len() as int));
    } else {
        assert(dice_from(t, i) =~= t.subrange(i, t.len() as int));
    }
}

/// An expression with no die in it is left as it stands, and so is
/// rewriting it again once its dice are rewritten.
pub proof fn law_dice_plain_text_kept(t: Seq<char>)
    ensures
        (forall|j: int| 0 <= j < t.len() ==> !#[trigger] dice_at(t, j)) ==> dice_from(t, 0) == t,
        dice_from(dice_from(t, 0), 0) == dice_from(t, 0),
{
    if forall|j: int| 0 <= j < t.len() ==> !#[trigger] dice_at(t, j) {
        lemma_dice_from_plain(t, 0);
        assert(t.subrange(0, t.len() as int) =~= t);
    }
    law_dice_all_rewritten(t);
    let o = dice_from(t, 0);
    lemma_dice_from_plain(o, 0);
    assert(o.subrange(0, o.len() as int) =~= o);
}

proof fn lemma_count_filled_no_die(t: Seq<char>, i: int)
    requires
        no_die_left(t),
        0 <= i,
    ensures
        no_die_left(replace_lit_from(t, seq!['d', '(', ','], seq!['d', '(', '1', ','], i)),
        replace_lit_from(t, seq!['d', '(', ','], seq!['d', '(', '1', ','], i).len() > 0 ==> (i < t.len()
            && replace_lit_from(t, seq!['d', '(', ','], seq!['d', '(', '1', ','], i)[0] == t[i]),
    decreases t.len() - i,
{
    let p = seq!['d', '(', ','];
    let rep = seq!['d', '(', '1', ','];
    if i >= t.len() {
    } else if occurs_at(t, p, i) {
        lemma_count_filled_no_die(t, i + 3);
        assert(t[i] == t.subrange(i, i + 3)[0]);
        assert(no_die_left(rep));
        lemma_no_die_concat(rep, replace_lit_from(t, p, rep, i + 3));
    } else {
        lemma_count_filled_no_die(t, i + 1);
        let a = seq![t[i]];
        let rest = replace_lit_from(t, p, rep, i + 1);
        if t[i] == 'd' && rest.len() > 0 {
            assert(rest[0] == t[i + 1]);
            assert(t[i] == 'd');
        }
        lemma_no_die_concat(a, rest);
        assert(replace_lit_from(t, p, rep, i) == a + rest);
    }
}

fn dice_exec(cs: &Vec<char>) -> (r: String)
    ensures
        r@ == dice_from(cs@, 0),
{
    let mut out = String::new();
    let mut i: usize = 0;
    while i < cs.len()
        invariant
            i <= cs@.len(),
            out@ + dice_from(cs@, i as int) == dice_from(cs@, 0),
        decreases cs@.len() - i,
    {
        let c = digit_run_exec(cs, i);
        if c <= 4 && i + c < cs.len() && cs[i + c] == 'd' && i + c + 1 < cs.len() && cs[i + c + 1] >= '0'
            && cs[i + c + 1] <= '9' {
            let s = i + c + 1;
            let run = digit_run_exec(cs, s);
            let n = if run > 16 { 16 } else { run };
            let ghost before = out@;
            out.append("d(");
            out.append(string_of(cs, i, i + c).as_str());
            out.append(", ");
            out.append(string_of(cs, s, s + n).as_str());
            out.append(")");
            proof {
                reveal_strlit("d(");
                reveal_strlit(", ");
                reveal_strlit(")");
                assert(out@ =~= before + (seq!['d', '('] + cs@.subrange(i as int, i + c) + seq![',', ' ']
                    + cs@.subrange(s as int, s + n) + seq![')']));
                assert(dice_from(cs@, i as int) == (seq!['d', '('] + cs@.subrange(i as int, i + c) + seq![
                    ',',
                    ' ',
                ] + cs@.subrange(s as int, s + n) + seq![')']) + dice_from(cs@, s + n));
            }
            i = s + n;
        } else {
            let ghost before = out@;
            crate::trusted::push_char(&mut out, cs[i]);
            assert(dice_from(cs@, i as int) == seq![cs@[i as int]] + dice_from(cs@, i + 1));
            assert(out@ + dice_from(cs@, i + 1) =~= before + dice_from(cs@, i as int));
            i = i + 1;
        }
    }
    assert(out@ =~= out@ + dice_from(cs@, i as int));
    out
}

fn replace_lit_exec(cs: &Vec<char>, p: &Vec<char>, rep: &str) -> (r: String)
    requires
        p@.len() > 0,
    ensures
        r@ == replace_lit_from(cs@, p@, rep@, 0),
{
    let mut out = String::new();
    let mut i: usize = 0;
    while i < cs.len()
        invariant
            i <= cs@.len(),
            p@.len() > 0,
            out@ + replace_lit_from(cs@, p@, rep@, i as int) == replace_lit_from(cs@, p@, rep@, 0),
        decreases cs@.len() - i,
    {
        let ghost before = out@;
        if occurs_at_exec(cs, p, i) {
            out.append(rep);
            assert(out@ + replace_lit_from(cs@, p@, rep@, i + p@.len()) =~= before + replace_lit_from(
                cs@,
                p@,
                rep@,
                i as int,
            ));
            i = i + p.len();
        } else {
            crate::trusted::push_char(&mut out, cs[i]);
            assert(out@ + replace_lit_from(cs@, p@, rep@, i + 1) =~= before + replace_lit_from(
                cs@,
                p@,
                rep@,
                i as int,
            ));
            i = i + 1;
        }
    }
    assert(out@ =~= out@ + replace_lit_from(cs@, p@, rep@, i as int));
    out
}

/// What `$roll` asks for (see `spec_roll_request`): the expression ready
/// to evaluate and the text to show beside the result; nothing when the
/// line is no `$roll` command.
pub fn roll_request(content: &str) -> (r: Option<(String, Option<String>)>)
    ensures
        match r {
            Some((e, c)) => spec_roll_request(content@) == Some(
                (
                    e@,
                    match c {
                        Some(t) => Some(t@),
                        None => None,
                    },
                ),
            ),
            None => spec_roll_request(content@) is None,
        },
{
    let cs = chars_of(content);
    let end = first_stop(&cs, ' ');
    let first = string_of(&cs, 0, end);
    if !text_is(first.as_str(), "$roll") {
        return None;
    }
    let expr = if end < cs.len() {
        chars_of(string_of(&cs, end + 1, cs.len()).as_str())
    } else {
        chars_of("d12")
    };
    proof {
        if end < cs.len() {
            assert(expr@ =~= content@.skip(end + 1));
        }
    }
    let stop = first_stop(&expr, ':');
    let head = string_of(&expr, 0, stop);
    let comment = if stop < expr.len() {
        let t = string_of(&expr, stop + 1, expr.len());
        assert(t@ =~= expr@.skip(stop + 1));
        Some(t)
    } else {
        None
    };
    let dice = dice_exec(&chars_of(head.as_str()));
    let no_count = vec!['d', '(', ','];
    let out = replace_lit_exec(&chars_of(dice.as_str()), &no_count, "d(1,");
    proof {
        reveal_strlit("d(1,");
        assert(no_count@ =~= seq!['d', '(', ',']);
        assert("d(1,"@ =~= seq!['d', '(', '1', ',']);
    }
    Some((out, comment))
}

/// The length of the mention that starts at `i` of `t`, 0 when none does:
/// `@here`, `@everyone`, or `<@`, perhaps `!`, digits and `>` (what the
/// pattern `@here|@everyone|<@!?\d+>` matches there).
pub open spec fn mention_at(t: Seq<char>, i: int) -> nat {
    if occurs_at(t, "@here"@, i) {
        5
    } else if occurs_at(t, "@everyone"@, i) {
        9
    } else if occurs_at(t, seq!['<', '@'], i) {
        let b = if i + 2 < t.len() && t[i + 2] == '!' {
            i + 3
        } else {
            i + 2
        };
        let d = digit_run(t, b);
        if d > 0 && b + d < t.len() && t[b + d] == '>' {
            (b + d + 1 - i) as nat
        } else {
            0
        }
    } else {
        0
    }
}

/// `t` from `i` on with every mention replaced by `rep`, leftmost first.
pub open spec fn masked_from(t: Seq<char>, rep: Seq<char>, i: int) -> Seq<char>
    decreases (if i <= t.len() {
        t.len() - i
    } else {
        0
    }),
{
    if i < 0 || i >= t.len() {
        Seq::<char>::empty()
    } else if mention_at(t, i) > 0 {
        rep + masked_from(t, rep, i + mention_at(t, i))
    } else {
        seq![t[i]] + masked_from(t, rep, i + 1)
    }
}

/// Replaces every mention in a line the bot is about to say by `rep` (the
/// owner's mention), so that it pings nobody else.
pub fn mask_mentions(text: &str, rep: &str) -> (r: String)
    ensures
        r@ == masked_from(text@, rep@, 0),
{
    let cs = chars_of(text);
    let here = chars_of("@here");
    let everyone = chars_of("@everyone");
    let open = vec!['<', '@'];
    assert(open@ =~= seq!['<', '@']);
    let mut out = String::new();
    let mut i: usize = 0;
    while i < cs.len()
        invariant
            i <= cs@.len(),
            here@ == "@here"@,
            everyone@ == "@everyone"@,
            open@ == seq!['<', '@'],
            out@ + masked_from(cs@, rep@, i as int) == masked_from(cs@, rep@, 0),
        decreases cs@.len() - i,
    {
        proof {
            reveal_strlit("@here");
            reveal_strlit("@everyone");
        }
        let len: usize = if occurs_at_exec(&cs, &here, i) {
            5
        } else if occurs_at_exec(&cs, &everyone, i) {
            9
        } else if occurs_at_exec(&cs, &open, i) {
            let b = if i + 2 < cs.len() && cs[i + 2] == '!' {
                i + 3
            } else {
                i + 2
            };
            let d = digit_run_exec(&cs, b);
            if d > 0 && b + d < cs.len() && cs[b + d] == '>' {
                b + d + 1 - i
            } else {
                0
            }
        } else {
            0
        };
        assert(len == mention_at(cs@, i as int));
        let ghost before = out@;
        if len > 0 {
            out.append(rep);
            assert(out@ + masked_from(cs@, rep@, i + len) =~= before + masked_from(cs@, rep@, i as int));
            i = i + len;
        } else {
            crate::trusted::push_char(&mut out, cs[i]);
            assert(out@ + masked_from(cs@, rep@, i + 1) =~= before + masked_from(cs@, rep@, i as int));
            i = i + 1;
        }
    }
    assert(out@ =~= out@ + masked_from(cs@, rep@, i as int));
    out
}

/// The owner's mention: `<@!` + the owner's id + `>`.
pub fn owner_mention(owner_id: &str) -> (r: String)
    ensures
        r@ == "<@!"@ + owner_id@ + ">"@,
{
    let mut r = "<@!".to_string();
    r.append(owner_id);
    r.append(">");
    r
}

/// The entries of `e` other than those of `id` keep their order, hold no
/// entry of `id`, and hold every other key of `e`; keys stay distinct.
proof fn lemma_filter_keys(e: Seq<(u128, u64)>, id: u128)
    requires
        entry_keys(e).no_duplicates(),
    ensures
        entry_keys(e.filter(|x: (u128, u64)| x.0 != id)).no_duplicates(),
        !entry_keys(e.filter(|x: (u128, u64)| x.0 != id)).contains(id),
        forall|k: u128|
            k != id ==> (entry_keys(e).contains(k) <==> entry_keys(
                e.filter(|x: (u128, u64)| x.0 != id),
            ).contains(k)),
    decreases e.len(),
{
    let f = |x: (u128, u64)| x.0 != id;
    if e.len() == 0 {
        assert(e =~= Seq::<(u128, u64)>::empty().push((0u128, 0u64)).drop_last());
        Seq::<(u128, u64)>::empty().lemma_filter_len(f);
        assert(e.filter(f).len() == 0);
        assert(entry_keys(e.filter(f)) =~= Seq::<u128>::empty());
        assert(entry_keys(e) =~= Seq::<u128>::empty());
    } else {
        let init = e.drop_last();
        let last = e.last();
        assert(init.push(last) =~= e);
        init.lemma_filter_push(last, f);
        assert(entry_keys(init) =~= entry_keys(e).drop_last());
        assert(entry_keys(init).no_duplicates());
        lemma_filter_keys(init, id);
        let fi = init.filter(f);
        let ki = entry_keys(fi);
        let kf = entry_keys(e.filter(f));
        assert(entry_keys(e)[e.len() - 1] == last.0);
        assert(!entry_keys(init).contains(last.0)) by {
            if entry_keys(init).contains(last.0) {
                let i = choose|i: int| 0 <= i < entry_keys(init).len() && entry_keys(init)[i] == last.0;
                assert(entry_keys(e)[i] == last.0);
            }
        }
        if f(last) {
            assert(kf =~= ki.push(last.0));
            assert(!ki.contains(last.0));
            assert forall|i: int, j: int| 0 <= i < kf.len() && 0 <= j < kf.len() && i != j implies kf[i]
                != kf[j] by {
                if i < ki.len() && j < ki.len() {
                    assert(kf[i] == ki[i] && kf[j] == ki[j]);
                } else if i < ki.len() {
                    assert(kf[i] == ki[i]);
                    assert(ki.contains(ki[i]));
                } else if j < ki.len() {
                    assert(kf[j] == ki[j]);
                    assert(ki.contains(ki[j]));
                }
            }
            assert(!kf.contains(id)) by {
                if kf.contains(id) {
                    let j = choose|j: int| 0 <= j < kf.len() && kf[j] == id;
                    if j < ki.len() {
                        assert(ki[j] == id);
                    }
                }
            }
        } else {
            assert(kf =~= ki);
        }
        assert forall|k: u128| k != id implies (entry_keys(e).contains(k) <==> kf.contains(k)) by {
            if entry_keys(e).contains(k) {
                let i = choose|i: int| 0 <= i < entry_keys(e).len() && entry_keys(e)[i] == k;
                if i < e.len() - 1 {
                    assert(entry_keys(init)[i] == k);
                    assert(entry_keys(init).contains(k));
                    assert(ki.contains(k));
                    let j = choose|j: int| 0 <= j < ki.len() && ki[j] == k;
                    if f(last) {
                        assert(kf[j] == k);
                    } else {
                        assert(kf[j] == k);
                    }
                } else {
                    assert(last.0 == k);
                    assert(f(last));
                    assert(kf[ki.len() as int] == k);
                }
            }
            if kf.contains(k) {
                let j = choose|j: int| 0 <= j < kf.len() && kf[j] == k;
                if j < ki.len() {
                    assert(ki[j] == k);
                    assert(ki.contains(k));
                    assert(entry_keys(init).contains(k));
                    let i = choose|i: int| 0 <= i < entry_keys(init).len() && entry_keys(init)[i] == k;
                    assert(entry_keys(e)[i] == k);
                } else {
                    assert(entry_keys(e)[e.len() - 1] == k);
                }
            }
        }
    }
}

} // verus!
