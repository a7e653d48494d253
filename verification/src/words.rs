//! The word table: every distinct word (compared without case) gets a
//! stable `u32` id, the index at which it was first seen.
use vstd::prelude::*;
use vstd::hash_map::StringHashMap;
use crate::trusted::{lowercase, spec_lowercase};

verus! {

/// The words that a table has seen, in the order they were first seen, and
/// the id of each word's lowercase form.
pub struct WordMap {
    words: Vec<String>,
    ids: StringHashMap<u32>,
}

/// No two words in `ws` have the same lowercase form.
pub open spec fn keys_distinct(ws: Seq<Seq<char>>) -> bool {
    forall|i: int, j: int|
        0 <= i < ws.len() && 0 <= j < ws.len() && i != j ==> spec_lowercase(ws[i])
            != spec_lowercase(ws[j])
}

/// Some word in `ws` has the lowercase form `key`.
pub open spec fn has_key(ws: Seq<Seq<char>>, key: Seq<char>) -> bool {
    exists|i: int| 0 <= i < ws.len() && spec_lowercase(ws[i]) == key
}

/// The words of a table `ws` after `w` is looked up: unchanged when a word
/// with the same lowercase form is stored, otherwise with `w` at the end.
pub open spec fn stored_after(ws: Seq<Seq<char>>, w: Seq<char>) -> Seq<Seq<char>> {
    if has_key(ws, spec_lowercase(w)) {
        ws
    } else {
        ws.push(w)
    }
}

impl View for WordMap {
    type V = Seq<Seq<char>>;

    closed spec fn view(&self) -> Seq<Seq<char>> {
        self.words@.map_values(|w: String| w@)
    }
}

impl WordMap {
    /// The table is consistent: the id map sends the lowercase form of
    /// every stored word to its index and holds nothing else.
    pub closed spec fn wf(&self) -> bool {
        &&& self.words@.len() <= u32::MAX
        &&& forall|i: int|
            #![trigger self.words@[i]]
            0 <= i < self.words@.len() ==> self.ids@.contains_key(spec_lowercase(self.words@[i]@))
                && self.ids@[spec_lowercase(self.words@[i]@)] == i
        &&& forall|k: Seq<char>|
            #![trigger self.ids@[k]]
            self.ids@.contains_key(k) ==> self.ids@[k] < self.words@.len() && spec_lowercase(
                self.words@[self.ids@[k] as int]@,
            ) == k
    }

    proof fn lemma_wf(&self)
        requires
            self.wf(),
        ensures
            keys_distinct(self@),
            self@.len() == self.words@.len(),
            forall|i: int| 0 <= i < self@.len() ==> #[trigger] self@[i] == self.words@[i]@,
            forall|k: Seq<char>| self.ids@.contains_key(k) <==> has_key(self@, k),
    {
        assert forall|k: Seq<char>| has_key(self@, k) implies self.ids@.contains_key(k) by {
            let i = choose|i: int| 0 <= i < self@.len() && spec_lowercase(self@[i]) == k;
            assert(self.words@[i]@ == self@[i]);
        }
        assert forall|k: Seq<char>| self.ids@.contains_key(k) implies has_key(self@, k) by {
            let i = self.ids@[k] as int;
            assert(self@[i] == self.words@[i]@);
        }
        assert forall|i: int, j: int|
            0 <= i < self@.len() && 0 <= j < self@.len() && i != j implies spec_lowercase(self@[i])
            != spec_lowercase(self@[j]) by {
            assert(self@[i] == self.words@[i]@);
            assert(self@[j] == self.words@[j]@);
        }
    }

    /// An empty table.
    pub fn new() -> (r: WordMap)
        ensures
            r.wf(),
            r@ == Seq::<Seq<char>>::empty(),
    {
        let r = WordMap { words: Vec::new(), ids: StringHashMap::new() };
        assert(r@ =~= Seq::<Seq<char>>::empty());
        r
    }

    /// The id of `word`: the index of the stored word with the same
    /// lowercase form, after storing `word` at the end if there is none.
    pub fn lookup(&mut self, word: String) -> (r: u32)
        requires
            old(self).wf(),
            old(self)@.len() < u32::MAX,
        ensures
            final(self).wf(),
            keys_distinct(final(self)@),
            final(self)@ == stored_after(old(self)@, word@),
            0 <= r < final(self)@.len(),
            spec_lowercase(final(self)@[r as int]) == spec_lowercase(word@),
    {
        proof {
            self.lemma_wf();
        }
        let key = lowercase(word.as_str());
        match self.ids.get(key.as_str()) {
            Some(id) => {
                let id = *id;
                assert(self@[id as int] == self.words@[id as int]@);
                id
            },
            None => {
                let ghost old_words = self.words@;
                let id = self.words.len() as u32;
                self.words.push(word);
                self.ids.insert(key, id);
                assert(self@ =~= old(self)@.push(word@)) by {
                    assert forall|i: int| 0 <= i < self@.len() implies self@[i] == old(
                        self,
                    )@.push(word@)[i] by {
                        if i < old_words.len() {
                            assert(self.words@[i] == old_words[i]);
                        }
                    }
                }
                assert forall|i: int|
                    #![trigger self.words@[i]]
                    0 <= i < self.words@.len() implies self.ids@.contains_key(
                    spec_lowercase(self.words@[i]@),
                ) && self.ids@[spec_lowercase(self.words@[i]@)] == i by {
                    if i < old_words.len() {
                        assert(self.words@[i] == old_words[i]);
                        assert(old(self).ids@.contains_key(spec_lowercase(old_words[i]@)));
                    }
                }
                assert forall|k: Seq<char>|
                    #![trigger self.ids@[k]]
                    self.ids@.contains_key(k) implies self.ids@[k] < self.words@.len()
                    && spec_lowercase(self.words@[self.ids@[k] as int]@) == k by {
                    if k != key@ {
                        assert(old(self).ids@.contains_key(k));
                        let j = old(self).ids@[k] as int;
                        assert(self.words@[j] == old_words[j]);
                    }
                }
                proof {
                    self.lemma_wf();
                }
                id
            },
        }
    }

    /// Looks a word up as `lookup` does, without adding it: the id of the
    /// stored word with the same lowercase form as `word`.
    pub fn find(&self, word: &str) -> (r: Option<&u32>)
        requires
            self.wf(),
        ensures
            r is Some <==> has_key(self@, spec_lowercase(word@)),
            r matches Some(id) ==> 0 <= *id < self@.len() && spec_lowercase(self@[*id as int])
                == spec_lowercase(word@),
    {
        proof {
            self.lemma_wf();
        }
        let key = lowercase(word);
        let r = self.ids.get(key.as_str());
        proof {
            if let Some(id) = r {
                assert(self@[*id as int] == self.words@[*id as int]@);
            }
        }
        r
    }

    /// The word with id `id`, taking ids modulo the number of words.
    pub fn get(&self, id: u32) -> (r: String)
        requires
            self.wf(),
            self@.len() > 0,
        ensures
            r@ == self@[(id as int) % (self@.len() as int)],
    {
        proof {
            self.lemma_wf();
        }
        let i = id as usize % self.words.len();
        let r = self.words[i].clone();
        assert(self@[i as int] == self.words@[i as int]@);
        r
    }

    /// The number of distinct words.
    pub fn len(&self) -> (r: usize)
        requires
            self.wf(),
        ensures
            r == self@.len(),
    {
        proof {
            self.lemma_wf();
        }
        self.words.len()
    }

    /// Whether the table holds no word.
    pub fn is_empty(&self) -> (r: bool)
        requires
            self.wf(),
        ensures
            r == (self@.len() == 0),
    {
        proof {
            self.lemma_wf();
        }
        self.words.len() == 0
    }
}


/// A lookup only adds at the end: the ids of the words stored before stay
/// theirs.
pub proof fn law_lookup_keeps_ids(ws: Seq<Seq<char>>, w: Seq<char>)
    ensures
        stored_after(ws, w).len() >= ws.len(),
        stored_after(ws, w).subrange(0, ws.len() as int) == ws,
{
    assert(stored_after(ws, w).subrange(0, ws.len() as int) =~= ws);
}

/// Looking a word up again changes nothing: after one lookup of `w` the
/// table holds a word with its lowercase form, still holds each lowercase
/// form once, and a second lookup leaves it as it is.
pub proof fn law_lookup_idempotent(ws: Seq<Seq<char>>, w: Seq<char>)
    requires
        keys_distinct(ws),
    ensures
        has_key(stored_after(ws, w), spec_lowercase(w)),
        keys_distinct(stored_after(ws, w)),
        stored_after(stored_after(ws, w), w) == stored_after(ws, w),
{
    let after = stored_after(ws, w);
    if !has_key(ws, spec_lowercase(w)) {
        assert(after[ws.len() as int] == w);
        assert forall|i: int, j: int|
            0 <= i < after.len() && 0 <= j < after.len() && i != j implies spec_lowercase(after[i])
            != spec_lowercase(after[j]) by {
            if i < ws.len() && j < ws.len() {
                assert(after[i] == ws[i] && after[j] == ws[j]);
            } else if i < ws.len() {
                assert(after[i] == ws[i]);
            } else if j < ws.len() {
                assert(after[j] == ws[j]);
            }
        }
    }
}

/// What `find` gives back of `lookup`: in the table after `w` is looked
/// up, the id that `lookup` returned (the one whose word has the lowercase
/// form of `w`) is the only such id, so finding `w`, in any letter case,
/// gives it.
pub proof fn law_find_after_lookup(ws: Seq<Seq<char>>, w: Seq<char>, id: int, other: int)
    requires
        keys_distinct(ws),
        0 <= id < stored_after(ws, w).len(),
        spec_lowercase(stored_after(ws, w)[id]) == spec_lowercase(w),
        0 <= other < stored_after(ws, w).len(),
        spec_lowercase(stored_after(ws, w)[other]) == spec_lowercase(w),
    ensures
        has_key(stored_after(ws, w), spec_lowercase(w)),
        other == id,
{
    law_lookup_idempotent(ws, w);
}

/// Looking a second word up gives the id of the first exactly when the two
/// have the same lowercase form, and then the table stays as it was.
pub proof fn law_lookup_same_word(ws: Seq<Seq<char>>, a: Seq<char>, b: Seq<char>, ia: int, ib: int)
    requires
        keys_distinct(ws),
        0 <= ia < stored_after(ws, a).len(),
        spec_lowercase(stored_after(ws, a)[ia]) == spec_lowercase(a),
        0 <= ib < stored_after(stored_after(ws, a), b).len(),
        spec_lowercase(stored_after(stored_after(ws, a), b)[ib]) == spec_lowercase(b),
    ensures
        ib == ia <==> spec_lowercase(b) == spec_lowercase(a),
        spec_lowercase(b) == spec_lowercase(a) ==> stored_after(stored_after(ws, a), b) == stored_after(
            ws,
            a,
        ),
{
    let w1 = stored_after(ws, a);
    let w2 = stored_after(w1, b);
    law_lookup_idempotent(ws, a);
    law_lookup_idempotent(w1, b);
    law_lookup_keeps_ids(w1, b);
    assert(w2[ia] == w1[ia]) by {
        assert(w2.subrange(0, w1.len() as int)[ia] == w2[ia]);
    }
    if spec_lowercase(b) == spec_lowercase(a) {
        assert(w2 == w1);
    }
}

/// The word that a lookup's id gives back has the lowercase form of the
/// word looked up, and is that very word when it was new to the table;
/// ids are read modulo the number of words, so reading an id's remainder
/// gives the same word.
pub proof fn law_get_after_lookup(ws: Seq<Seq<char>>, w: Seq<char>, r: int, id: nat)
    requires
        keys_distinct(ws),
        0 <= r < stored_after(ws, w).len(),
        spec_lowercase(stored_after(ws, w)[r]) == spec_lowercase(w),
    ensures
        ({
            let s = stored_after(ws, w);
            &&& spec_lowercase(s[r % (s.len() as int)]) == spec_lowercase(w)
            &&& !has_key(ws, spec_lowercase(w)) ==> s[r % (s.len() as int)] == w
            &&& s[((id % s.len()) % s.len()) as int] == s[(id % s.len()) as int]
        }),
{
    let s = stored_after(ws, w);
    law_lookup_idempotent(ws, w);
    vstd::arithmetic::div_mod::lemma_small_mod(r as nat, s.len());
    vstd::arithmetic::div_mod::lemma_small_mod(id % s.len(), s.len());
    if !has_key(ws, spec_lowercase(w)) {
        assert(s[ws.len() as int] == w);
        if r != ws.len() {
            assert(spec_lowercase(s[r]) == spec_lowercase(s[ws.len() as int]));
        }
    }
}

/// The lowercase forms of the words `ws`.
pub open spec fn lowercase_forms(ws: Seq<Seq<char>>) -> Seq<Seq<char>> {
    ws.map_values(|w: Seq<char>| spec_lowercase(w))
}

/// The words of a table `ws` after each word of `words` is looked up in
/// turn.
pub open spec fn stored_all(ws: Seq<Seq<char>>, words: Seq<Seq<char>>) -> Seq<Seq<char>>
    decreases words.len(),
{
    if words.len() == 0 {
        ws
    } else {
        stored_after(stored_all(ws, words.drop_last()), words.last())
    }
}

proof fn lemma_stored_all_forms(words: Seq<Seq<char>>)
    ensures
        keys_distinct(stored_all(Seq::empty(), words)),
        lowercase_forms(stored_all(Seq::empty(), words)).to_set() == lowercase_forms(words).to_set(),
    decreases words.len(),
{
    if words.len() == 0 {
        assert(lowercase_forms(words) =~= Seq::<Seq<char>>::empty());
        assert(lowercase_forms(Seq::<Seq<char>>::empty()) =~= Seq::<Seq<char>>::empty());
        assert(Seq::<Seq<char>>::empty().to_set() =~= Set::<Seq<char>>::empty());
    } else {
        let pre = words.drop_last();
        let w = words.last();
        lemma_stored_all_forms(pre);
        let st = stored_all(Seq::empty(), pre);
        law_lookup_idempotent(st, w);
        assert(lowercase_forms(words) =~= lowercase_forms(pre).push(spec_lowercase(w)));
        lowercase_forms(pre).lemma_push_to_set_commute(spec_lowercase(w));
        if has_key(st, spec_lowercase(w)) {
            let i = choose|i: int| 0 <= i < st.len() && spec_lowercase(st[i]) == spec_lowercase(w);
            assert(lowercase_forms(st)[i] == spec_lowercase(w));
            assert(lowercase_forms(st).to_set().contains(spec_lowercase(w)));
            assert(lowercase_forms(st).to_set().insert(spec_lowercase(w)) =~= lowercase_forms(st).to_set());
        } else {
            assert(lowercase_forms(st.push(w)) =~= lowercase_forms(st).push(spec_lowercase(w)));
            lowercase_forms(st).lemma_push_to_set_commute(spec_lowercase(w));
        }
    }
}

/// Looking words up one after another in a new table leaves as many words
/// as the words looked up have distinct lowercase forms; a table is empty
/// only before any lookup.
pub proof fn law_len_counts(words: Seq<Seq<char>>)
    ensures
        stored_all(Seq::empty(), words).len() == lowercase_forms(words).to_set().len(),
        stored_all(Seq::empty(), words).len() == 0 <==> words.len() == 0,
{
    lemma_stored_all_forms(words);
    let st = stored_all(Seq::empty(), words);
    let f = lowercase_forms(st);
    assert(f.no_duplicates()) by {
        assert forall|i: int, j: int| 0 <= i < f.len() && 0 <= j < f.len() && i != j implies f[i] != f[j] by {
            assert(f[i] == spec_lowercase(st[i]) && f[j] == spec_lowercase(st[j]));
        }
    }
    f.unique_seq_to_set();
    if words.len() > 0 {
        let pre = words.drop_last();
        lemma_stored_all_forms(pre);
        law_lookup_idempotent(stored_all(Seq::empty(), pre), words.last());
    }
}

} // verus!
