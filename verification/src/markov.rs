//! One Markov chain of a chat: the lines it has learned, and the rules by
//! which it learns lines, replies and answers commands. The shared word
//! table and the chain cores are handed in by the caller, which holds them.
use vstd::prelude::*;
use std::collections::BTreeSet;
use crate::chain::{
    never_consumes, same_lists, kept_unless_consuming, generated, lemma_kept_trans, grown_from, held, best_after, candidate, consumed_from, generate_in_line, opening_key, seed_of, word_at, ChainCore,
    END, NONE,
};
use crate::text::{
    fill_from, spec_capitalize, tokens_named, lemma_fill_grow,
    decimal, parse_bool, push_decimal, spec_lowercase_nonurl,
    spec_parse_bool, text_is, join_with,
    capitalize, chars_of, fill_names, join, lowercase_nonurl, names_from, occurs_at_exec, parse_usize,
    replace_names, sentences, spec_parse_usize, spec_replace_names, split_chars, split_on,
    split_sentences, string_of, texts,
};
use vstd::hash_map::StringHashMap;
use crate::keys::LineKeys;
use crate::trusted::{lowercase, random_u32, spec_lowercase};
use crate::words::{has_key, keys_distinct, WordMap};

verus! {

broadcast use vstd::std_specs::btree::group_btree_axioms;

/// The most words the word table takes: ids stay below the `END` mark.
pub const WORD_LIMIT: usize = 0xffff_fffeusize;

/// The word table after each word of `parts` is looked up in turn.
pub open spec fn looked_up(ws: Seq<Seq<char>>, parts: Seq<Seq<char>>) -> Seq<Seq<char>>
    decreases parts.len(),
{
    if parts.len() == 0 {
        ws
    } else {
        let before = looked_up(ws, parts.drop_last());
        if has_key(before, crate::trusted::spec_lowercase(parts.last())) {
            before
        } else {
            before.push(parts.last())
        }
    }
}

/// The id of each word of `parts` in the table `ws`: the index of the word
/// with the same lowercase form.
pub open spec fn ids_match(ids: Seq<u32>, ws: Seq<Seq<char>>, parts: Seq<Seq<char>>) -> bool {
    &&& ids.len() == parts.len()
    &&& forall|i: int|
        #![trigger ids[i]]
        0 <= i < ids.len() ==> ids[i] < ws.len() && crate::trusted::spec_lowercase(ws[ids[i] as int])
            == crate::trusted::spec_lowercase(parts[i])
}

proof fn lemma_looked_up_len(ws: Seq<Seq<char>>, parts: Seq<Seq<char>>)
    ensures
        ws.len() <= looked_up(ws, parts).len() <= ws.len() + parts.len(),
        looked_up(ws, parts).subrange(0, ws.len() as int) == ws,
    decreases parts.len(),
{
    if parts.len() > 0 {
        lemma_looked_up_len(ws, parts.drop_last());
        let before = looked_up(ws, parts.drop_last());
        if !has_key(before, crate::trusted::spec_lowercase(parts.last())) {
            assert(before.push(parts.last()).subrange(0, ws.len() as int) =~= before.subrange(
                0,
                ws.len() as int,
            ));
        }
    }
}

/// Looks up every word of `parts`, in order, and gives their ids.
pub fn word_ids(words: &mut WordMap, parts: &Vec<String>) -> (ids: Vec<u32>)
    requires
        old(words).wf(),
        old(words)@.len() + parts@.len() < WORD_LIMIT,
    ensures
        final(words).wf(),
        final(words)@ == looked_up(old(words)@, texts(parts@)),
        ids_match(ids@, final(words)@, texts(parts@)),
        final(words)@.len() < WORD_LIMIT,
        grows(old(words)@, final(words)@),
        parts@.len() > 0 ==> final(words)@.len() > 0,
{
    let mut ids: Vec<u32> = Vec::new();
    let mut i: usize = 0;
    while i < parts.len()
        invariant
            i <= parts@.len(),
            words.wf(),
            old(words)@.len() + parts@.len() < WORD_LIMIT,
            words@ == looked_up(old(words)@, texts(parts@).subrange(0, i as int)),
            ids_match(ids@, words@, texts(parts@).subrange(0, i as int)),
        decreases parts@.len() - i,
    {
        proof {
            lemma_looked_up_len(old(words)@, texts(parts@).subrange(0, i as int));
        }
        let ghost w0 = words@;
        let ghost pre = texts(parts@).subrange(0, i as int);
        let id = words.lookup(parts[i].clone());
        ids.push(id);
        proof {
            let next = texts(parts@).subrange(0, i + 1);
            assert(next.drop_last() =~= pre);
            assert(next.last() == parts@[i as int]@);
            assert(words@ == looked_up(old(words)@, next));
            assert forall|k: int| #![trigger ids@[k]] 0 <= k < ids@.len() implies ids@[k] < words@.len()
                && crate::trusted::spec_lowercase(words@[ids@[k] as int])
                == crate::trusted::spec_lowercase(next[k]) by {
                if k < i {
                    assert(next[k] == pre[k]);
                    assert(w0.len() <= words@.len());
                    assert(words@[ids@[k] as int] == w0[ids@[k] as int]);
                }
            }
        }
        i = i + 1;
    }
    proof {
        assert(texts(parts@).subrange(0, parts@.len() as int) =~= texts(parts@));
        lemma_looked_up_len(old(words)@, texts(parts@));
        if parts@.len() > 0 {
            assert(ids@[0] < words@.len());
        }
    }
    ids
}

/// `new` is `old` with words added at the end.
pub open spec fn grows(old: Seq<Seq<char>>, new: Seq<Seq<char>>) -> bool {
    old.len() <= new.len() && new.subrange(0, old.len() as int) == old
}

/// The lowercase forms of `lines`, each with the key `hs` gives it, in
/// order.
pub open spec fn keyed_texts(lines: Seq<Seq<char>>, hs: Seq<u64>) -> Seq<(Seq<char>, u64)> {
    Seq::new(lines.len(), |k: int| (spec_lowercase(lines[k]), hs[k]))
}

/// Every key of `hashes` was given to some text of `given`.
pub open spec fn keys_known(hashes: Set<u64>, given: Seq<(Seq<char>, u64)>) -> bool {
    forall|h: u64| #[trigger] hashes.contains(h) ==> exists|i: int| 0 <= i < given.len() && #[trigger] given[i].1 == h
}

/// One chain of a chat, apart from its shared state: the hashes of the
/// lines it has learned (compared in lowercase), the hasher that keys
/// them, the file it keeps them in, and whether it passes what it learns
/// on to its parent.
pub struct MarkovChain {
    lines: BTreeSet<u64>,
    keys: LineKeys,
    filename: String,
    tell_parent: bool,
}

impl MarkovChain {
    /// The hashes of the lines learned so far.
    pub closed spec fn line_hashes(&self) -> Set<u64> {
        self.lines@
    }

    /// Each text the chain has hashed to know a line by, with the key it
    /// was given, in order.
    pub closed spec fn keys_given(&self) -> Seq<(Seq<char>, u64)> {
        self.keys.given()
    }

    /// The file the chain keeps its lines in.
    pub closed spec fn file(&self) -> Seq<char> {
        self.filename@
    }

    /// Whether the chain passes what it learns on to its parent.
    pub closed spec fn tells_parent(&self) -> bool {
        self.tell_parent
    }

    /// A chain that has learned nothing, kept in `filename`, which passes
    /// what it learns on to its parent.
    pub fn new(filename: &str) -> (r: MarkovChain)
        ensures
            r.line_hashes() == Set::<u64>::empty(),
            r.keys_given() == Seq::<(Seq<char>, u64)>::empty(),
            r.file() == filename@,
            r.tells_parent(),
    {
        MarkovChain {
            lines: BTreeSet::new(),
            keys: LineKeys::new(),
            filename: filename.to_string(),
            tell_parent: true,
        }
    }

    /// The file the chain keeps its lines in.
    pub fn filename(&self) -> (r: &str)
        ensures
            r@ == self.file(),
    {
        self.filename.as_str()
    }

    /// Whether the chain passes what it learns on to its parent.
    pub fn tell_parent(&self) -> (r: bool)
        ensures
            r == self.tells_parent(),
    {
        self.tell_parent
    }

    /// Sets whether the chain passes what it learns on to its parent.
    pub fn set_tell_parent(&mut self, tell: bool)
        ensures
            final(self).tells_parent() == tell,
            final(self).line_hashes() == old(self).line_hashes(),
            final(self).keys_given() == old(self).keys_given(),
            final(self).file() == old(self).file(),
    {
        self.tell_parent = tell;
    }

    /// The number of lines learned.
    pub fn line_count(&self) -> (r: usize)
        ensures
            r == self.line_hashes().len(),
    {
        self.lines.len()
    }

    /// Learns one line as it stands, unless a line with the same lowercase
    /// form was learned before: its space-separated words are looked up and
    /// the chain learns their ids. Whether the line was new. The line is
    /// known by the hash of its lowercase form under the chain's hasher
    /// (see `learn_hashed`).
    pub fn learn_line(&mut self, words: &mut WordMap, core: &mut ChainCore, line: &str) -> (r: bool)
        requires
            old(words).wf(),
            old(words)@.len() < WORD_LIMIT,
            old(core).wf(),
        ensures
            final(words).wf(),
            final(words)@.len() < WORD_LIMIT,
            final(core).wf(),
            final(core).consume_chance() == old(core).consume_chance(),
            final(core).strength_level() == old(core).strength_level(),
            final(self).file() == old(self).file(),
            final(self).tells_parent() == old(self).tells_parent(),
            old(self).line_hashes().subset_of(final(self).line_hashes()),
            r ==> exists|ids: Seq<u32>|
                {
                    &&& ids_match(ids, final(words)@, texts_of_words(line@))
                    &&& final(words)@ == looked_up(old(words)@, texts_of_words(line@))
                    &&& final(core).forward() == crate::chain::learn_forward(
                        old(core).forward(),
                        crate::chain::padded(ids),
                        ids.len() + 2int,
                    )
                    &&& final(core).backward() == crate::chain::learn_backward(
                        old(core).backward(),
                        crate::chain::padded(ids),
                        ids.len() + 2int,
                    )
                },
            !r ==> final(words)@ == old(words)@ && *final(core) == *old(core)
                && final(self).line_hashes() == old(self).line_hashes(),
            r ==> exists|h: u64|
                !old(self).line_hashes().contains(h) && #[trigger] final(self).line_hashes().contains(h),
            !line_fits(old(words)@, line@) ==> !r,
            r ==> line_fits(old(words)@, line@),
            old(self).line_hashes() == Set::<u64>::empty() && line_fits(old(words)@, line@) ==> r,
            line_fits(old(words)@, line@) ==> exists|h: u64|
                #[trigger] old(self).line_hashes().insert(h) == final(self).line_hashes()
                && (r <==> !old(self).line_hashes().contains(h)),
            exists|h: u64|
                #![trigger old(self).keys_given().push((spec_lowercase(line@), h))]
                {
                    &&& final(self).keys_given() == old(self).keys_given().push((spec_lowercase(line@), h))
                    &&& final(self).line_hashes() == if line_fits(old(words)@, line@) {
                        old(self).line_hashes().insert(h)
                    } else {
                        old(self).line_hashes()
                    }
                    &&& r == (line_fits(old(words)@, line@) && !old(self).line_hashes().contains(h))
                },
            keys_known(old(self).line_hashes(), old(self).keys_given()) ==> keys_known(
                final(self).line_hashes(),
                final(self).keys_given(),
            ),
    {
        let lower = lowercase(line);
        let hash = self.keys.key(lower.as_str());
        let r = self.learn_hashed(words, core, line, hash);
        proof {
            if line_fits(old(words)@, line@) {
                assert(old(self).line_hashes().insert(hash) == self.line_hashes());
            } else {
                assert(self.line_hashes() == old(self).line_hashes());
            }
            if r {
                assert(self.line_hashes().contains(hash));
            }
            let n = old(self).keys_given().len();
            assert(self.keys_given()[n as int].1 == hash);
            assert(self.keys_given() == old(self).keys_given().push((spec_lowercase(line@), hash)));
            if keys_known(old(self).line_hashes(), old(self).keys_given()) {
                assert forall|h: u64| #[trigger] self.line_hashes().contains(h) implies exists|i: int|
                    0 <= i < self.keys_given().len() && #[trigger] self.keys_given()[i].1 == h by {
                    if h != hash {
                        let i = choose|i: int| 0 <= i < old(self).keys_given().len() && #[trigger] old(self).keys_given()[i].1 == h;
                        assert(self.keys_given()[i] == old(self).keys_given()[i]);
                    }
                }
            }
        }
        r
    }

    /// Learns `line`, known by `hash`, unless its words do not fit the word
    /// table or a line with that hash was learned before: the hash is
    /// kept, the line's space-separated words are looked up and the chain
    /// learns their ids. Whether the line was learned.
    pub fn learn_hashed(&mut self, words: &mut WordMap, core: &mut ChainCore, line: &str, hash: u64) -> (r: bool)
        requires
            old(words).wf(),
            old(words)@.len() < WORD_LIMIT,
            old(core).wf(),
        ensures
            final(words).wf(),
            final(words)@.len() < WORD_LIMIT,
            final(core).wf(),
            final(core).consume_chance() == old(core).consume_chance(),
            final(core).strength_level() == old(core).strength_level(),
            final(self).file() == old(self).file(),
            final(self).tells_parent() == old(self).tells_parent(),
            final(self).keys_given() == old(self).keys_given(),
            r == (line_fits(old(words)@, line@) && !old(self).line_hashes().contains(hash)),
            final(self).line_hashes() == if line_fits(old(words)@, line@) {
                old(self).line_hashes().insert(hash)
            } else {
                old(self).line_hashes()
            },
            r ==> learned_line(old(words)@, final(words)@, *old(core), *final(core), line@),
            !r ==> final(words)@ == old(words)@ && *final(core) == *old(core),
    {
        let parts = split_chars(line, ' ');
        assert(parts@.len() == texts_of_words(line@).len());
        if words.len() >= WORD_LIMIT || parts.len() >= WORD_LIMIT - words.len() || parts.len()
            > usize::MAX - 4 {
            return false;
        }
        if !self.lines.insert(hash) {
            assert(old(self).line_hashes().insert(hash) =~= self.line_hashes());
            return false;
        }
        let ids = word_ids(words, &parts);
        let ghost iv = ids@;
        core.learn(ids);
        assert(ids_match(iv, words@, texts_of_words(line@)));
        true
    }
}

/// The table `ws1` and the chain `c1` are the table `ws0` and the chain
/// `c0` after learning the space-separated words of `line`: each word is
/// looked up, and the chain learns their ids.
pub open spec fn learned_line(ws0: Seq<Seq<char>>, ws1: Seq<Seq<char>>, c0: ChainCore, c1: ChainCore, line: Seq<char>) -> bool {
    exists|ids: Seq<u32>|
        {
            &&& ids_match(ids, ws1, texts_of_words(line))
            &&& ws1 == looked_up(ws0, texts_of_words(line))
            &&& c1.forward() == crate::chain::learn_forward(
                c0.forward(),
                crate::chain::padded(ids),
                ids.len() + 2int,
            )
            &&& c1.backward() == crate::chain::learn_backward(
                c0.backward(),
                crate::chain::padded(ids),
                ids.len() + 2int,
            )
        }
}

impl MarkovChain {
    /// Learns the lines a chain's file holds, in order (see `learn_line`),
    /// and gives how many of them were new.
    pub fn learn_lines(&mut self, words: &mut WordMap, core: &mut ChainCore, lines: &Vec<String>) -> (r: usize)
        requires
            old(words).wf(),
            old(words)@.len() < WORD_LIMIT,
            old(core).wf(),
        ensures
            final(words).wf(),
            final(words)@.len() < WORD_LIMIT,
            grows(old(words)@, final(words)@),
            final(core).wf(),
            final(core).consume_chance() == old(core).consume_chance(),
            final(core).strength_level() == old(core).strength_level(),
            final(self).file() == old(self).file(),
            final(self).tells_parent() == old(self).tells_parent(),
            old(self).line_hashes().subset_of(final(self).line_hashes()),
            r <= lines@.len(),
            r == 0 ==> final(words)@ == old(words)@ && *final(core) == *old(core)
                && final(self).line_hashes() == old(self).line_hashes(),
            keys_known(old(self).line_hashes(), old(self).keys_given()) ==> keys_known(
                final(self).line_hashes(),
                final(self).keys_given(),
            ),
    {
        let mut learned: usize = 0;
        let mut i: usize = 0;
        proof {
            assert(words@.subrange(0, words@.len() as int) =~= words@);
        }
        while i < lines.len()
            invariant
                i <= lines@.len(),
                learned <= i,
                words.wf(),
                words@.len() < WORD_LIMIT,
                grows(old(words)@, words@),
                core.wf(),
                core.consume_chance() == old(core).consume_chance(),
                core.strength_level() == old(core).strength_level(),
                self.file() == old(self).file(),
                self.tells_parent() == old(self).tells_parent(),
                old(self).line_hashes().subset_of(self.line_hashes()),
                learned == 0 ==> words@ == old(words)@ && *core == *old(core) && self.line_hashes()
                    == old(self).line_hashes(),
                keys_known(old(self).line_hashes(), old(self).keys_given()) ==> keys_known(
                    self.line_hashes(),
                    self.keys_given(),
                ),
            decreases lines@.len() - i,
        {
            let ghost w0 = words@;
            let ghost c0 = *core;
            if self.learn_line(words, core, lines[i].as_str()) {
                learned = learned + 1;
                proof {
                    let ids = choose|ids: Seq<u32>|
                        {
                            &&& ids_match(ids, words@, texts_of_words(lines@[i as int]@))
                            &&& words@ == looked_up(w0, texts_of_words(lines@[i as int]@))
                            &&& core.forward() == crate::chain::learn_forward(
                                c0.forward(),
                                crate::chain::padded(ids),
                                ids.len() + 2int,
                            )
                            &&& core.backward() == crate::chain::learn_backward(
                                c0.backward(),
                                crate::chain::padded(ids),
                                ids.len() + 2int,
                            )
                        };
                    lemma_looked_up_len(w0, texts_of_words(lines@[i as int]@));
                    lemma_grows_trans(old(words)@, w0, words@);
                }
            }
            i = i + 1;
        }
        learned
    }
}

/// The space-separated words of a line.
pub open spec fn texts_of_words(line: Seq<char>) -> Seq<Seq<char>> {
    split_on(line, ' ')
}

/// Whether the words of `line` fit in a word table that holds `ws`, which is
/// what learning the line asks before anything else.
pub open spec fn line_fits(ws: Seq<Seq<char>>, line: Seq<char>) -> bool {
    &&& texts_of_words(line).len() < WORD_LIMIT - ws.len()
    &&& texts_of_words(line).len() <= usize::MAX - 4
}

/// The sentences of a chat line with the names in them replaced by tokens.
pub open spec fn named_sentences(line: Seq<char>, names: Seq<Seq<char>>) -> Seq<Seq<char>> {
    split_sentences(line).map_values(|p: Seq<char>| spec_replace_names(p, names))
}

impl MarkovChain {
    /// Learns a chat line: each of its sentences, with the names in it
    /// replaced by tokens, is known by the hash of its lowercase form and
    /// learned in turn unless a sentence with that hash was learned before
    /// (see `learned_in_turn`). Gives whether any sentence was new, and the
    /// sentences to pass on to the parent: all of them when the chain tells
    /// its parent and has one.
    pub fn add_line(
        &mut self,
        words: &mut WordMap,
        core: &mut ChainCore,
        line: &str,
        names: &[String],
        has_parent: bool,
    ) -> (r: (bool, Vec<String>))
        requires
            old(words).wf(),
            old(words)@.len() < WORD_LIMIT,
            old(core).wf(),
        ensures
            final(words).wf(),
            final(words)@.len() < WORD_LIMIT,
            final(core).wf(),
            final(self).file() == old(self).file(),
            final(self).tells_parent() == old(self).tells_parent(),
            old(self).line_hashes().subset_of(final(self).line_hashes()),
            texts(r.1@) == (if old(self).tells_parent() && has_parent {
                named_sentences(line@, names@.map_values(|n: String| n@))
            } else {
                Seq::<Seq<char>>::empty()
            }),
            !r.0 ==> final(words)@ == old(words)@ && *final(core) == *old(core)
                && final(self).line_hashes() == old(self).line_hashes(),
            r.0 ==> exists|h: u64|
                !old(self).line_hashes().contains(h) && #[trigger] final(self).line_hashes().contains(h),
            exists|hs: Seq<u64>, st: Seq<LearnState>|
                {
                    &&& #[trigger] learned_in_turn(
                        old(words)@,
                        *old(core),
                        old(self).line_hashes(),
                        named_sentences(line@, texts(names@)),
                        hs,
                        st,
                        final(words)@,
                        *final(core),
                        final(self).line_hashes(),
                        r.0,
                    )
                    &&& final(self).keys_given() == old(self).keys_given() + keyed_texts(
                        named_sentences(line@, texts(names@)),
                        hs,
                    )
                },
            keys_known(old(self).line_hashes(), old(self).keys_given()) ==> keys_known(
                final(self).line_hashes(),
                final(self).keys_given(),
            ),
    {
        let pieces = sentences(line);
        let ghost mut hs: Seq<u64> = Seq::empty();
        let ghost mut st: Seq<LearnState> = seq![(words@, *core, self.line_hashes(), false)];
        let ghost named = named_sentences(line@, names@.map_values(|n: String| n@));
        let tell = self.tell_parent && has_parent;
        let mut forward: Vec<String> = Vec::new();
        let mut result = false;
        let mut i: usize = 0;
        assert(texts(forward@) =~= Seq::<Seq<char>>::empty());
        assert(self.keys_given() =~= old(self).keys_given() + keyed_texts(named.take(0), hs));
        while i < pieces.len()
            invariant
                i <= pieces@.len(),
                texts(pieces@) == split_sentences(line@),
                named == named_sentences(line@, names@.map_values(|n: String| n@)),
                tell == (old(self).tells_parent() && has_parent),
                words.wf(),
                words@.len() < WORD_LIMIT,
                core.wf(),
                self.file() == old(self).file(),
                self.tells_parent() == old(self).tells_parent(),
                old(self).line_hashes().subset_of(self.line_hashes()),
                texts(forward@) == (if tell {
                    named.subrange(0, i as int)
                } else {
                    Seq::<Seq<char>>::empty()
                }),
                !result ==> words@ == old(words)@ && *core == *old(core) && self.line_hashes()
                    == old(self).line_hashes(),
                result ==> exists|h: u64|
                    !old(self).line_hashes().contains(h) && #[trigger] self.line_hashes().contains(h),
                named.len() == pieces@.len(),
                learned_in_turn(
                    old(words)@,
                    *old(core),
                    old(self).line_hashes(),
                    named.take(i as int),
                    hs,
                    st,
                    words@,
                    *core,
                    self.line_hashes(),
                    result,
                ),
                self.keys_given() == old(self).keys_given() + keyed_texts(named.take(i as int), hs),
                keys_known(old(self).line_hashes(), old(self).keys_given()) ==> keys_known(
                    self.line_hashes(),
                    self.keys_given(),
                ),
            decreases pieces@.len() - i,
        {
            let l = replace_names(pieces[i].as_str(), names);
            proof {
                assert(named[i as int] == spec_replace_names(
                    texts(pieces@)[i as int],
                    names@.map_values(|n: String| n@),
                ));
            }
            if tell {
                let ghost f0 = texts(forward@);
                forward.push(l.clone());
                assert(texts(forward@) =~= f0.push(l@));
                assert(texts(forward@) =~= named.subrange(0, i + 1));
            }
            let ghost hashes_before = self.line_hashes();
            let ghost words_before = words@;
            let ghost core_before = *core;
            let ghost result_before = result;
            let ghost keys_before = self.keys_given();
            let lower = lowercase(l.as_str());
            let hash = self.keys.key(lower.as_str());
            let learned = self.learn_hashed(words, core, l.as_str(), hash);
            if learned {
                result = true;
            }
            proof {
                if result {
                    if learned {
                        assert(!old(self).line_hashes().contains(hash) && self.line_hashes().contains(hash));
                    } else {
                        let h = choose|h: u64| !old(self).line_hashes().contains(h) && #[trigger] hashes_before.contains(h);
                        assert(self.line_hashes().contains(h));
                    }
                }
                assert(!learned ==> self.line_hashes() == hashes_before) by {
                    if !learned && line_fits(words_before, l@) {
                        assert(hashes_before.contains(hash));
                        assert(hashes_before.insert(hash) =~= hashes_before);
                    }
                }
                let hs1 = hs.push(hash);
                let st1 = st.push((words@, *core, self.line_hashes(), result));
                let lines0 = named.take(i as int);
                let lines1 = named.take(i + 1);
                assert(learn_step(words_before, core_before, hashes_before, l@, hash, words@, *core, self.line_hashes()));
                assert(st.last() == (words_before, core_before, hashes_before, result_before));
                assert forall|k: int|
                    #![trigger hs1[k]]
                    0 <= k < lines1.len() implies {
                    &&& learn_step(st1[k].0, st1[k].1, st1[k].2, lines1[k], hs1[k], st1[k + 1].0, st1[k + 1].1, st1[k + 1].2)
                    &&& st1[k + 1].3 == (st1[k].3 || (line_fits(st1[k].0, lines1[k]) && !st1[k].2.contains(hs1[k])))
                } by {
                    if k < i {
                        assert(hs1[k] == hs[k]);
                        assert(st1[k] == st[k] && st1[k + 1] == st[k + 1]);
                        assert(lines1[k] == lines0[k]);
                    } else {
                        assert(k == i);
                        assert(st1[k] == st[k]);
                        assert(lines1[k] == l@);
                    }
                }
                assert(learned_in_turn(
                    old(words)@,
                    *old(core),
                    old(self).line_hashes(),
                    lines1,
                    hs1,
                    st1,
                    words@,
                    *core,
                    self.line_hashes(),
                    result,
                ));
                assert(keyed_texts(lines1, hs1) =~= keyed_texts(lines0, hs).push((spec_lowercase(l@), hash)));
                assert(self.keys_given() =~= old(self).keys_given() + keyed_texts(lines1, hs1));
                let n = keys_before.len();
                assert(self.keys_given()[n as int].1 == hash);
                if keys_known(old(self).line_hashes(), old(self).keys_given()) {
                    assert forall|h: u64| #[trigger] self.line_hashes().contains(h) implies exists|j: int|
                        0 <= j < self.keys_given().len() && #[trigger] self.keys_given()[j].1 == h by {
                        if h != hash {
                            assert(hashes_before.contains(h));
                            let j = choose|j: int| 0 <= j < keys_before.len() && #[trigger] keys_before[j].1 == h;
                            assert(self.keys_given()[j] == keys_before[j]);
                        }
                    }
                }
                st = st1;
                hs = hs1;
            }
            i = i + 1;
        }
        proof {
            if tell {
                assert(named.subrange(0, pieces@.len() as int) =~= named);
            }
            assert(named.take(pieces@.len() as int) =~= named);
            assert(named == named_sentences(line@, texts(names@)));
            assert(self.keys_given() == old(self).keys_given() + keyed_texts(
                named_sentences(line@, texts(names@)),
                hs,
            ));
            assert(learned_in_turn(
                old(words)@,
                *old(core),
                old(self).line_hashes(),
                named_sentences(line@, texts(names@)),
                hs,
                st,
                words@,
                *core,
                self.line_hashes(),
                result,
            ));
        }
        (result, forward)
    }
}

/// One line learned as `learn_hashed` learns it: from the table `ws`, the
/// chain `c` and the hashes `hs` to `ws1`, `c1` and `hs1`, with `line`
/// known by `h`.
pub open spec fn learn_step(
    ws: Seq<Seq<char>>,
    c: ChainCore,
    hs: Set<u64>,
    line: Seq<char>,
    h: u64,
    ws1: Seq<Seq<char>>,
    c1: ChainCore,
    hs1: Set<u64>,
) -> bool {
    &&& hs1 == if line_fits(ws, line) {
        hs.insert(h)
    } else {
        hs
    }
    &&& if line_fits(ws, line) && !hs.contains(h) {
        learned_line(ws, ws1, c, c1, line)
    } else {
        ws1 == ws && c1 == c
    }
}

/// The table, the chain and the hashes of a chain learning lines, with
/// whether a line was learned so far.
pub type LearnState = (Seq<Seq<char>>, ChainCore, Set<u64>, bool);

/// The lines `lines`, known by the hashes `hs`, learned in turn (see
/// `learn_step`) from the table `ws0`, the chain `c0` and the hashes `h0`,
/// passing through the states `st`, leaving `ws1`, `c1` and `h1`; `any` is
/// whether some line was learned (its words fit and its hash was new when
/// its turn came).
pub open spec fn learned_in_turn(
    ws0: Seq<Seq<char>>,
    c0: ChainCore,
    h0: Set<u64>,
    lines: Seq<Seq<char>>,
    hs: Seq<u64>,
    st: Seq<LearnState>,
    ws1: Seq<Seq<char>>,
    c1: ChainCore,
    h1: Set<u64>,
    any: bool,
) -> bool {
    &&& hs.len() == lines.len()
    &&& st.len() == lines.len() + 1
    &&& st[0] == (ws0, c0, h0, false)
    &&& st.last() == (ws1, c1, h1, any)
    &&& forall|k: int|
        #![trigger hs[k]]
        0 <= k < lines.len() ==> {
            &&& learn_step(st[k].0, st[k].1, st[k].2, lines[k], hs[k], st[k + 1].0, st[k + 1].1, st[k + 1].2)
            &&& st[k + 1].3 == (st[k].3 || (line_fits(st[k].0, lines[k]) && !st[k].2.contains(hs[k])))
        }
}

/// The keys of `given` tell its texts apart: two entries have the same
/// key exactly when they have the same text.
pub open spec fn keys_tell_apart(given: Seq<(Seq<char>, u64)>) -> bool {
    forall|i: int, j: int|
        0 <= i < given.len() && 0 <= j < given.len() ==> (#[trigger] given[i].0 == #[trigger] given[j].0
            <==> given[i].1 == given[j].1)
}

/// The lowercase form of `lines[k]` was learned before its turn: it is a
/// text of `given0` whose key is among the kept keys `h0`, or the lowercase
/// form of an earlier line of `lines` whose words fitted in its turn.
pub open spec fn seen_before(
    h0: Set<u64>,
    given0: Seq<(Seq<char>, u64)>,
    lines: Seq<Seq<char>>,
    st: Seq<LearnState>,
    k: int,
) -> bool {
    ||| exists|i: int|
        0 <= i < given0.len() && h0.contains(#[trigger] given0[i].1) && given0[i].0 == spec_lowercase(
            lines[k],
        )
    ||| exists|j: int|
        0 <= j < k && line_fits(st[j].0, #[trigger] lines[j]) && spec_lowercase(lines[j]) == spec_lowercase(
            lines[k],
        )
}

proof fn lemma_kept_in_turn(
    ws0: Seq<Seq<char>>,
    c0: ChainCore,
    h0: Set<u64>,
    lines: Seq<Seq<char>>,
    hs: Seq<u64>,
    st: Seq<LearnState>,
    ws1: Seq<Seq<char>>,
    c1: ChainCore,
    h1: Set<u64>,
    any: bool,
    m: int,
)
    requires
        learned_in_turn(ws0, c0, h0, lines, hs, st, ws1, c1, h1, any),
        0 <= m <= lines.len(),
    ensures
        forall|h: u64|
            #[trigger] st[m].2.contains(h) <==> (h0.contains(h) || exists|j: int|
                0 <= j < m && line_fits(st[j].0, lines[j]) && #[trigger] hs[j] == h),
        st[m].3 <==> exists|j: int|
            0 <= j < m && line_fits(st[j].0, lines[j]) && !st[j].2.contains(#[trigger] hs[j]),
    decreases m,
{
    if m > 0 {
        lemma_kept_in_turn(ws0, c0, h0, lines, hs, st, ws1, c1, h1, any, m - 1);
        let k = m - 1;
        assert(learn_step(st[k].0, st[k].1, st[k].2, lines[k], hs[k], st[k + 1].0, st[k + 1].1, st[k + 1].2));
        assert forall|h: u64|
            #[trigger] st[m].2.contains(h) <==> (h0.contains(h) || exists|j: int|
                0 <= j < m && line_fits(st[j].0, lines[j]) && #[trigger] hs[j] == h) by {
            if st[m].2.contains(h) && !h0.contains(h) {
                if st[k].2.contains(h) {
                    let j = choose|j: int| 0 <= j < k && line_fits(st[j].0, lines[j]) && #[trigger] hs[j] == h;
                    assert(0 <= j < m && line_fits(st[j].0, lines[j]) && hs[j] == h);
                } else {
                    assert(0 <= k < m && line_fits(st[k].0, lines[k]) && hs[k] == h);
                }
            }
            if exists|j: int| 0 <= j < m && line_fits(st[j].0, lines[j]) && #[trigger] hs[j] == h {
                let j = choose|j: int| 0 <= j < m && line_fits(st[j].0, lines[j]) && #[trigger] hs[j] == h;
                if j < k {
                    assert(st[k].2.contains(h));
                }
            }
        }
        if st[m].3 {
            if st[k].3 {
                let j = choose|j: int| 0 <= j < k && line_fits(st[j].0, lines[j]) && !st[j].2.contains(#[trigger] hs[j]);
                assert(0 <= j < m && line_fits(st[j].0, lines[j]) && !st[j].2.contains(hs[j]));
            } else {
                assert(0 <= k < m && line_fits(st[k].0, lines[k]) && !st[k].2.contains(hs[k]));
            }
        }
        if exists|j: int| 0 <= j < m && line_fits(st[j].0, lines[j]) && !st[j].2.contains(#[trigger] hs[j]) {
            let j = choose|j: int| 0 <= j < m && line_fits(st[j].0, lines[j]) && !st[j].2.contains(#[trigger] hs[j]);
            if j < k {
                assert(st[k].3);
            }
        }
    }
}

/// A sentence is refused as learned before only when a sentence with the
/// same lowercase form was learned before it, whether in an earlier call
/// or earlier in the same line: given that each learned key was given to
/// some text hashed before (as `add_line` and `learn_line` keep it) and
/// that the keys tell the texts apart, a sentence whose words fit is
/// learned exactly when no sentence with its lowercase form was learned
/// before, and something was learned exactly when one such sentence came.
pub proof fn law_sentence_refused_only_when_seen(
    ws0: Seq<Seq<char>>,
    c0: ChainCore,
    h0: Set<u64>,
    lines: Seq<Seq<char>>,
    hs: Seq<u64>,
    st: Seq<LearnState>,
    ws1: Seq<Seq<char>>,
    c1: ChainCore,
    h1: Set<u64>,
    any: bool,
    given0: Seq<(Seq<char>, u64)>,
)
    requires
        learned_in_turn(ws0, c0, h0, lines, hs, st, ws1, c1, h1, any),
        keys_known(h0, given0),
        keys_tell_apart(given0 + keyed_texts(lines, hs)),
    ensures
        forall|k: int|
            0 <= k < lines.len() && line_fits(st[k].0, lines[k]) ==> (st[k].2.contains(#[trigger] hs[k])
                <==> seen_before(h0, given0, lines, st, k)),
        forall|k: int|
            0 <= k < lines.len() ==> (st[k].2.contains(#[trigger] hs[k]) && line_fits(st[k].0, lines[k])
                <==> line_fits(st[k].0, lines[k]) && seen_before(h0, given0, lines, st, k)),
        any <==> exists|k: int|
            0 <= k < lines.len() && line_fits(st[k].0, #[trigger] lines[k]) && !seen_before(
                h0,
                given0,
                lines,
                st,
                k,
            ),
{
    let g = given0 + keyed_texts(lines, hs);
    let n0 = given0.len() as int;
    assert forall|k: int|
        0 <= k < lines.len() && line_fits(st[k].0, lines[k]) implies (st[k].2.contains(#[trigger] hs[k])
            <==> seen_before(h0, given0, lines, st, k)) by {
        lemma_kept_in_turn(ws0, c0, h0, lines, hs, st, ws1, c1, h1, any, k);
        assert(g[n0 + k] == (spec_lowercase(lines[k]), hs[k]));
        if st[k].2.contains(hs[k]) {
            if h0.contains(hs[k]) {
                let i = choose|i: int| 0 <= i < given0.len() && #[trigger] given0[i].1 == hs[k];
                assert(g[i] == given0[i]);
                assert(g[i].1 == g[n0 + k].1);
                assert(g[i].0 == g[n0 + k].0);
                assert(h0.contains(given0[i].1) && given0[i].0 == spec_lowercase(lines[k]));
            } else {
                let j = choose|j: int| 0 <= j < k && line_fits(st[j].0, lines[j]) && #[trigger] hs[j] == hs[k];
                assert(g[n0 + j] == (spec_lowercase(lines[j]), hs[j]));
                assert(g[n0 + j].1 == g[n0 + k].1);
                assert(g[n0 + j].0 == g[n0 + k].0);
                assert(line_fits(st[j].0, lines[j]) && spec_lowercase(lines[j]) == spec_lowercase(lines[k]));
            }
        }
        if seen_before(h0, given0, lines, st, k) {
            if exists|i: int|
                0 <= i < given0.len() && h0.contains(#[trigger] given0[i].1) && given0[i].0 == spec_lowercase(
                    lines[k],
                ) {
                let i = choose|i: int|
                    0 <= i < given0.len() && h0.contains(#[trigger] given0[i].1) && given0[i].0
                        == spec_lowercase(lines[k]);
                assert(g[i] == given0[i]);
                assert(g[i].0 == g[n0 + k].0);
                assert(g[i].1 == g[n0 + k].1);
                assert(st[k].2.contains(hs[k]));
            } else {
                let j = choose|j: int|
                    0 <= j < k && line_fits(st[j].0, #[trigger] lines[j]) && spec_lowercase(lines[j])
                        == spec_lowercase(lines[k]);
                assert(g[n0 + j] == (spec_lowercase(lines[j]), hs[j]));
                assert(g[n0 + j].0 == g[n0 + k].0);
                assert(g[n0 + j].1 == g[n0 + k].1);
                assert(0 <= j < k && line_fits(st[j].0, lines[j]) && hs[j] == hs[k]);
                assert(st[k].2.contains(hs[k]));
            }
        }
    }
    let n = lines.len() as int;
    lemma_kept_in_turn(ws0, c0, h0, lines, hs, st, ws1, c1, h1, any, n);
    assert(st[n].3 == any);
    if any {
        let k = choose|k: int| 0 <= k < n && line_fits(st[k].0, lines[k]) && !st[k].2.contains(#[trigger] hs[k]);
        assert(!seen_before(h0, given0, lines, st, k));
    }
    if exists|k: int| 0 <= k < n && line_fits(st[k].0, #[trigger] lines[k]) && !seen_before(h0, given0, lines, st, k) {
        let k = choose|k: int| 0 <= k < n && line_fits(st[k].0, #[trigger] lines[k]) && !seen_before(h0, given0, lines, st, k);
        assert(!st[k].2.contains(hs[k]));
    }
}

/// The sender that marks a random sentence: `"\0rand\0"`.
pub open spec fn rand_sender() -> Seq<char> {
    seq!['\0', 'r', 'a', 'n', 'd', '\0']
}

/// A number parsed as `usize::from_str` does, 0 when it is none.
pub open spec fn parse_or_zero(s: Seq<char>) -> nat {
    match spec_parse_usize(s) {
        Some(n) => n as nat,
        None => 0,
    }
}

/// The length a reply aims at, and whether it is a strict limit: the
/// input's number of words, unless the sender marks a random sentence;
/// then the number that `name` gives (0 for none), strict when `name` ends
/// with `!`.
pub open spec fn spec_reply_length(name: Seq<char>, sender: Seq<char>, words: nat) -> (nat, bool) {
    if sender != rand_sender() {
        (words, false)
    } else if name.len() > 0 && name.last() == '!' {
        (parse_or_zero(name.drop_last()), true)
    } else {
        (parse_or_zero(name), false)
    }
}

/// The names that a reply fills its tokens with: the given ones, or the
/// chain's name and the sender's when none is given.
pub open spec fn spec_reply_names(name: Seq<char>, sender: Seq<char>, names: Seq<Seq<char>>) -> Seq<
    Seq<char>,
> {
    if names.len() == 0 {
        seq![name, sender]
    } else {
        names
    }
}

/// The names that a reply fills its tokens with (see `spec_reply_names`).
pub fn reply_names(name: &str, sender: &str, names: &[String]) -> (r: Vec<String>)
    ensures
        texts(r@) == spec_reply_names(name@, sender@, texts(names@)),
        r@.len() > 0,
{
    let mut r: Vec<String> = Vec::new();
    let mut i: usize = 0;
    while i < names.len()
        invariant
            i <= names@.len(),
            texts(r@) == texts(names@).subrange(0, i as int),
        decreases names@.len() - i,
    {
        let ghost t0 = texts(r@);
        let n = names[i].clone();
        assert(n@ == names@[i as int]@);
        r.push(n);
        assert(texts(r@) =~= t0.push(names@[i as int]@));
        i = i + 1;
        assert(texts(r@) =~= texts(names@).subrange(0, i as int));
    }
    assert(texts(names@).subrange(0, names@.len() as int) =~= texts(names@));
    if r.len() == 0 {
        r.push(name.to_string());
        r.push(sender.to_string());
        assert(texts(r@) =~= seq![name@, sender@]);
    }
    r
}

/// The length a reply aims at, and whether it is strict (see
/// `spec_reply_length`).
pub fn reply_length(name: &str, sender: &str, words: usize) -> (r: (usize, bool))
    ensures
        (r.0 as nat, r.1) == spec_reply_length(name@, sender@, words as nat),
{
    let s = chars_of(sender);
    let mark = vec!['\0', 'r', 'a', 'n', 'd', '\0'];
    assert(mark@ =~= rand_sender());
    let random = s.len() == 6 && occurs_at_exec(&s, &mark, 0);
    proof {
        if random {
            assert(s@ =~= s@.subrange(0, 6));
        }
        if s@ == rand_sender() {
            assert(s@.subrange(0, 6) =~= mark@);
        }
    }
    if !random {
        return (words, false);
    }
    let n = chars_of(name);
    if n.len() > 0 && n[n.len() - 1] == '!' {
        let head = string_of(&n, 0, n.len() - 1);
        assert(head@ =~= name@.drop_last());
        let v = match parse_usize(head.as_str()) {
            Some(v) => v,
            None => 0,
        };
        (v, true)
    } else {
        let v = match parse_usize(name) {
            Some(v) => v,
            None => 0,
        };
        (v, false)
    }
}

/// The key a reply starts from holds a word when every word of the input
/// is one.
pub proof fn lemma_best_has_word(m: Map<u128, Seq<u32>>, input: Seq<u32>, n: int)
    requires
        input.len() > 0,
        forall|i: int| 0 <= i < input.len() ==> #[trigger] input[i] < END,
        0 <= n <= 3 * input.len(),
    ensures
        seed_of(best_after(m, input, n).0).len() > 0,
    decreases n,
{
    if n > 0 {
        lemma_best_has_word(m, input, n - 1);
        let i = (n - 1) / 3;
        let t = (n - 1) % 3;
        let c = candidate(input, i, t);
        assert(word_at(input, i) == input[i]);
        if t == 0 {
            assert(c[0] < END);
        } else if t == 1 {
            assert(c[1] < END);
        } else {
            assert(c[2] < END);
        }
    } else {
        assert(opening_key(input)[0] == input[0]);
    }
}

/// Whether the sender marks a random sentence.
fn is_rand_sender(sender: &str) -> (r: bool)
    ensures
        r == (sender@ == rand_sender()),
{
    let s = chars_of(sender);
    let mark = vec!['\0', 'r', 'a', 'n', 'd', '\0'];
    assert(mark@ =~= rand_sender());
    let r = s.len() == 6 && occurs_at_exec(&s, &mark, 0);
    proof {
        if r {
            assert(s@ =~= s@.subrange(0, 6));
        }
        if s@ == rand_sender() {
            assert(s@.subrange(0, 6) =~= mark@);
        }
    }
    r
}

/// Whether a table of the words `ws` has room for the words `parts` of a
/// line: a reply answers nothing, and learns nothing, when it has not.
pub open spec fn room_for(ws: Seq<Seq<char>>, parts: Seq<Seq<char>>) -> bool {
    parts.len() < WORD_LIMIT - ws.len()
}

/// The key a reply to the words `ids` grows its sentence from: the best
/// key of the head chain's forward lists `forward` (see `best_after`), or,
/// for a short input that does not come with a random sentence's sender,
/// its opening words.
pub open spec fn reply_key(forward: Map<u128, Seq<u32>>, ids: Seq<u32>, sender: Seq<char>) -> Seq<u32> {
    if sender != rand_sender() || ids.len() > 3 {
        best_after(forward, ids, 3 * ids.len() as int).0
    } else {
        opening_key(ids)
    }
}

/// The key a reply starts from: for any sender but a random sentence's,
/// the best of all the input's candidate keys (see `best_after` and
/// `law_best_key_smallest`), whatever the input's length; only a random
/// sentence's sender with at most three words starts from the input's
/// opening words.
pub proof fn law_reply_key(forward: Map<u128, Seq<u32>>, ids: Seq<u32>, sender: Seq<char>)
    requires
        ids.len() > 0,
    ensures
        sender != rand_sender() ==> reply_key(forward, ids, sender) == best_after(forward, ids, 3 * ids.len() as int).0,
        sender == rand_sender() && ids.len() > 3 ==> reply_key(forward, ids, sender) == best_after(
            forward,
            ids,
            3 * ids.len() as int,
        ).0,
        sender == rand_sender() && ids.len() <= 3 ==> reply_key(forward, ids, sender) == opening_key(ids),
{
}

/// `s` is the sentence a reply to the words `ids` grows with the chains
/// `cores` (leaving `cores2`): from the reply's key, aiming at the length
/// that the name and sender give (see `spec_reply_length`).
pub open spec fn reply_grown(
    s: Seq<u32>,
    ids: Seq<u32>,
    name: Seq<char>,
    sender: Seq<char>,
    cores: Seq<ChainCore>,
    cores2: Seq<ChainCore>,
) -> bool {
    generated(
        s,
        reply_key(cores[0].forward(), ids, sender),
        spec_reply_length(name, sender, ids.len()).0 as usize,
        spec_reply_length(name, sender, ids.len()).1,
        cores,
        cores2,
    )
}

/// The words of a reply's input line that the table learns: its
/// space-separated words, in lowercase unless they are links.
pub open spec fn input_words(input: Seq<char>) -> Seq<Seq<char>> {
    split_on(crate::text::spec_lowercase_nonurl(input), ' ')
}

/// The text of a reply made of the sentence of ids `s`: the word of each id
/// in the table `ws` (ids taken modulo its size), with its name tokens
/// filled in from `m`, joined by spaces, the first letter in uppercase.
pub open spec fn reply_text(ws: Seq<Seq<char>>, s: Seq<u32>, m: Map<Seq<char>, String>) -> Seq<char> {
    spec_capitalize(
        join_with(
            s.map_values(|id: u32| fill_from(ws[(id as int) % (ws.len() as int)], m, 0)),
            seq![' '],
        ),
    )
}

/// `r` is a reply made of the sentence of ids `s`, with words from `ws` and
/// tokens filled from `m`, whose names are all among `names`; each word of
/// `s` is a word of the input (`ids`) or one that some chain of `cores`
/// held.
pub open spec fn reply_from(
    r: Seq<char>,
    ws: Seq<Seq<char>>,
    s: Seq<u32>,
    m: Map<Seq<char>, String>,
    names: Seq<String>,
    ids: Seq<u32>,
    cores: Seq<ChainCore>,
) -> bool {
    &&& s.len() > 0
    &&& names_from(m, names)
    &&& r == reply_text(ws, s, m)
    &&& forall|i: int|
        0 <= i < s.len() ==> ids.contains(#[trigger] s[i]) || (s[i] != END && held(cores, s[i]))
}

/// The words of the key that a reply starts from are words of the input.
proof fn lemma_best_from_input(m: Map<u128, Seq<u32>>, input: Seq<u32>, n: int)
    requires
        input.len() > 0,
        0 <= n <= 3 * input.len(),
    ensures
        forall|j: int|
            0 <= j < 3 && #[trigger] best_after(m, input, n).0[j] < END ==> input.contains(
                best_after(m, input, n).0[j],
            ),
    decreases n,
{
    if n > 0 {
        lemma_best_from_input(m, input, n - 1);
        let i = (n - 1) / 3;
        let prev = best_after(m, input, n - 1);
        assert(0 <= i < input.len());
        assert forall|j: int| 0 <= j < 3 && #[trigger] candidate(input, i, (n - 1) % 3)[j] < END implies input.contains(
            candidate(input, i, (n - 1) % 3)[j],
        ) by {
            let c = candidate(input, i, (n - 1) % 3);
            let k = if (n - 1) % 3 == 0 {
                i
            } else if (n - 1) % 3 == 1 {
                if j == 0 { i - 1 } else { i }
            } else {
                i - 2 + j
            };
            assert(c[j] == word_at(input, k));
            assert(0 <= k < input.len());
            assert(input[k] == c[j]);
        }
        let best = best_after(m, input, n).0;
        assert(best == prev.0 || best == candidate(input, i, (n - 1) % 3));
        assert forall|j: int| 0 <= j < 3 && #[trigger] best[j] < END implies input.contains(best[j]) by {
            if best == prev.0 {
                assert(prev.0[j] < END);
            } else {
                assert(candidate(input, i, (n - 1) % 3)[j] < END);
            }
        }
    } else {
        assert forall|j: int| 0 <= j < 3 && #[trigger] opening_key(input)[j] < END implies input.contains(
            opening_key(input)[j],
        ) by {
            assert(input[j] == opening_key(input)[j]);
        }
    }
}

impl MarkovChain {
    /// Answers one sentence with the chain at the head of `cores`: looks up
    /// its words (in lowercase unless they are links), picks the key to
    /// start from (the opening words of a short input that does not come
    /// with a random sentence's sender, otherwise the best key), grows a
    /// sentence from it, turns its ids into words with the name tokens
    /// filled in from `names`, and puts the first letter in uppercase.
    /// Nothing is answered, and nothing learned, when the word table has
    /// no room for the words.
    pub fn reply_sentence(
        words: &mut WordMap,
        cores: &mut Vec<ChainCore>,
        input: &str,
        name: &str,
        sender: &str,
        names: &Vec<String>,
    ) -> (r: String)
        requires
            old(words).wf(),
            old(words)@.len() < WORD_LIMIT,
            old(cores)@.len() > 0,
            forall|j: int| 0 <= j < old(cores)@.len() ==> #[trigger] old(cores)@[j].wf(),
            names@.len() > 0,
        ensures
            final(words).wf(),
            final(words)@.len() < WORD_LIMIT,
            grows(old(words)@, final(words)@),
            final(words)@ == old(words)@ || final(words)@ == looked_up(old(words)@, input_words(input@)),
            consumed_from(old(cores)@, final(cores)@),
            never_consumes(old(cores)@) ==> same_lists(old(cores)@, final(cores)@),
            kept_unless_consuming(old(cores)@, final(cores)@),
            !room_for(old(words)@, input_words(input@)) ==> r@.len() == 0 && final(words)@ == old(
                words,
            )@ && final(cores)@ == old(cores)@,
            room_for(old(words)@, input_words(input@)) ==> ({
                exists|ids: Seq<u32>, s: Seq<u32>, m: Map<Seq<char>, String>|
                    #![trigger reply_from(r@, final(words)@, s, m, names@, ids, old(cores)@)]
                    {
                        &&& final(words)@ == looked_up(old(words)@, input_words(input@))
                        &&& ids_match(ids, final(words)@, input_words(input@))
                        &&& reply_from(r@, final(words)@, s, m, names@, ids, old(cores)@)
                        &&& reply_grown(s, ids, name@, sender@, old(cores)@, final(cores)@)
                    }
            }),
    {
        let ghost c0 = cores@;
        proof {
            assert forall|j: int| #![trigger cores@[j]] 0 <= j < cores@.len() implies {
                &&& cores@[j].wf()
                &&& crate::chain::only_removed(c0[j].lists(0u8), cores@[j].lists(0u8))
                &&& crate::chain::only_removed(c0[j].lists(1u8), cores@[j].lists(1u8))
                &&& cores@[j].consume_chance() == c0[j].consume_chance()
                &&& cores@[j].strength_level() == c0[j].strength_level()
            } by {
                assert(c0[j].wf());
            }
        }
        let lowered = lowercase_nonurl(input);
        let parts = split_chars(lowered.as_str(), ' ');
        assert(parts@.len() == input_words(input@).len());
        if words.len() >= WORD_LIMIT || parts.len() >= WORD_LIMIT - words.len() {
            proof {
                assert(old(words)@.subrange(0, old(words)@.len() as int) =~= old(words)@);
            }
            return String::new();
        }
        proof {
            crate::text::lemma_split_nonempty(lowered@, ' ');
        }
        let ids = word_ids(words, &parts);
        let (ideal, strict_limit) = reply_length(name, sender, ids.len());
        let not_random = !is_rand_sender(sender);
        proof {
            assert forall|i: int| 0 <= i < ids@.len() implies #[trigger] ids@[i] < END by {
                assert(ids@[i] < words@.len());
            }
        }
        let best: [u32; 3] = if not_random || ids.len() > 3 {
            proof {
                lemma_best_has_word(cores@[0].forward(), ids@, 3 * ids@.len() as int);
                lemma_best_from_input(cores@[0].forward(), ids@, 3 * ids@.len() as int);
            }
            cores[0].choose_best(ids.as_slice())
        } else {
            let b1 = if ids.len() > 1 { ids[1] } else { NONE };
            let b2 = if ids.len() > 2 { ids[2] } else { NONE };
            let b: [u32; 3] = [ids[0], b1, b2];
            assert(b@[0] < END);
            assert(ids@.contains(ids@[0]));
            assert(ids@.len() > 1 ==> ids@.contains(ids@[1]));
            assert(ids@.len() > 2 ==> ids@.contains(ids@[2]));
            b
        };
        let ghost seed = seed_of(best@);
        assert(forall|j: int| 0 <= j < seed.len() ==> ids@.contains(#[trigger] seed[j]));
        assert(cores@.len() > 0);
        let sentence = generate_in_line(cores, best, ideal, strict_limit);
        let ghost ws = words@;
        let mut memo: StringHashMap<String> = StringHashMap::new();
        let mut out: Vec<String> = Vec::new();
        let mut i: usize = 0;
        while i < sentence.len()
            invariant
                words.wf(),
                words@ == ws,
                ws.len() > 0,
                names@.len() > 0,
                names_from(memo@, names@),
                i <= sentence@.len(),
                out@.len() == i,
                forall|k: int|
                    #![trigger sentence@[k]]
                    0 <= k < i ==> tokens_named(
                        ws[(sentence@[k] as int) % (ws.len() as int)],
                        memo@,
                        0,
                    ) && out@[k]@ == fill_from(
                        ws[(sentence@[k] as int) % (ws.len() as int)],
                        memo@,
                        0,
                    ),
            decreases sentence@.len() - i,
        {
            let text = words.get(sentence[i]);
            let ghost m0 = memo@;
            let ghost o0 = out@;
            let filled = fill_names(text.as_str(), names, &mut memo);
            proof {
                assert forall|k: int| #![trigger sentence@[k]] 0 <= k < i implies tokens_named(
                    ws[(sentence@[k] as int) % (ws.len() as int)],
                    memo@,
                    0,
                ) && o0[k]@ == fill_from(
                    ws[(sentence@[k] as int) % (ws.len() as int)],
                    memo@,
                    0,
                ) by {
                    lemma_fill_grow(ws[(sentence@[k] as int) % (ws.len() as int)], m0, memo@, 0);
                }
            }
            out.push(filled);
            proof {
                assert forall|k: int| #![trigger sentence@[k]] 0 <= k < i + 1 implies tokens_named(
                    ws[(sentence@[k] as int) % (ws.len() as int)],
                    memo@,
                    0,
                ) && out@[k]@ == fill_from(
                    ws[(sentence@[k] as int) % (ws.len() as int)],
                    memo@,
                    0,
                ) by {
                    if k < i {
                        assert(out@[k] == o0[k]);
                    }
                }
            }
            i = i + 1;
        }
        let sep = " ";
        proof {
            reveal_strlit(" ");
        }
        assert(sep@ =~= seq![' ']);
        let joined = join(&out, sep);
        assert(texts(out@) =~= sentence@.map_values(
            |id: u32| fill_from(ws[(id as int) % (ws.len() as int)], memo@, 0),
        ));
        let r = capitalize(joined);
        proof {
            let s = sentence@;
            let front = choose|front: int| grown_from(s, seed, front, old(cores)@);
            assert forall|i: int| 0 <= i < s.len() implies ids@.contains(#[trigger] s[i]) || (s[i] != END
                && held(old(cores)@, s[i])) by {
                if front <= i < front + seed.len() {
                    assert(s.subrange(front, front + seed.len())[i - front] == s[i]);
                }
            }
            assert(reply_from(r@, words@, s, memo@, names@, ids@, old(cores)@));
        }
        r
    }
}

/// `last` answers the last sentence of the chat line `input` (after its
/// names are replaced) with the word table `ws` and the chains `mid` as
/// they were before it, leaving the table `ws2` and the chains `mid2`: it
/// is empty when the table had no room, and otherwise a reply to that
/// sentence (see `reply_from`).
pub open spec fn last_answered(
    last: Seq<char>,
    ws: Seq<Seq<char>>,
    mid: Seq<ChainCore>,
    ws2: Seq<Seq<char>>,
    mid2: Seq<ChainCore>,
    input: Seq<char>,
    name: Seq<char>,
    sender: Seq<char>,
    names: Seq<Seq<char>>,
) -> bool {
    sentence_answered(
        last,
        ws,
        mid,
        ws2,
        mid2,
        split_sentences(spec_replace_names(input, spec_reply_names(name, sender, names))).last(),
        name,
        sender,
        names,
    )
}

/// `a` answers the sentence `sentence` with the word table `ws` and the
/// chains `mid`, leaving the table `ws2` and the chains `mid2`: it is empty
/// when the table had no room for its words, and otherwise a reply to it
/// (see `reply_from`).
pub open spec fn sentence_answered(
    a: Seq<char>,
    ws: Seq<Seq<char>>,
    mid: Seq<ChainCore>,
    ws2: Seq<Seq<char>>,
    mid2: Seq<ChainCore>,
    sentence: Seq<char>,
    name: Seq<char>,
    sender: Seq<char>,
    names: Seq<Seq<char>>,
) -> bool {
    ||| !room_for(ws, input_words(sentence)) && a.len() == 0 && ws2 == ws && mid2 == mid
    ||| room_for(ws, input_words(sentence)) && exists|ids: Seq<u32>, s: Seq<u32>, m: Map<Seq<char>, String>, all: Seq<String>|
        #![trigger reply_from(a, ws2, s, m, all, ids, mid)]
        {
            &&& texts(all) == spec_reply_names(name, sender, names)
            &&& ws2 == looked_up(ws, input_words(sentence))
            &&& ids_match(ids, ws2, input_words(sentence))
            &&& reply_from(a, ws2, s, m, all, ids, mid)
            &&& reply_grown(s, ids, name, sender, mid, mid2)
        }
}

/// A word table and a line of chains, as a reply leaves them.
pub type ReplyState = (Seq<Seq<char>>, Seq<ChainCore>);

/// The answers of `each` that are not empty, in order.
pub open spec fn nonempty_only(each: Seq<Seq<char>>) -> Seq<Seq<char>>
    decreases each.len(),
{
    if each.len() == 0 {
        each
    } else if each.last().len() > 0 {
        nonempty_only(each.drop_last()).push(each.last())
    } else {
        nonempty_only(each.drop_last())
    }
}

/// The sentences `pieces` of a chat line answered in turn, each by `each`,
/// the word table and the chains passing through the states `st`: an empty
/// sentence gets an empty answer and changes nothing; any other is
/// answered with its names replaced (see `sentence_answered`).
pub open spec fn answered_in_turn(
    each: Seq<Seq<char>>,
    st: Seq<ReplyState>,
    pieces: Seq<Seq<char>>,
    name: Seq<char>,
    sender: Seq<char>,
    names: Seq<Seq<char>>,
) -> bool {
    &&& each.len() == pieces.len()
    &&& st.len() == pieces.len() + 1
    &&& forall|k: int|
        #![trigger each[k]]
        0 <= k < pieces.len() ==> if pieces[k].len() == 0 {
            each[k].len() == 0 && st[k + 1] == st[k]
        } else {
            sentence_answered(
                each[k],
                st[k].0,
                st[k].1,
                st[k + 1].0,
                st[k + 1].1,
                spec_replace_names(pieces[k], spec_reply_names(name, sender, names)),
                name,
                sender,
                names,
            )
        }
}

/// The words of a key, in order, without its `END` and `NONE` marks,
/// joined by spaces: the line that a random sentence grows from.
pub open spec fn key_text(ws: Seq<Seq<char>>, key: Seq<u32>) -> Seq<char> {
    join_with(seed_of(key).map_values(|id: u32| word_of(ws, id)), seq![' '])
}

/// `r` is the reply to the chat line `input` that takes the word table
/// from `ws` to `ws2` and the chains from `cores` to `cores2`: nothing,
/// with nothing changed, for an empty line; otherwise the line's sentences
/// but the last (names replaced, see `spec_replace_names`) are answered in
/// turn (see `answered_in_turn`), the answers that are not empty are joined
/// by `". "`, and the answer to the last sentence (see `last_answered`),
/// given with the table and chains as the others left them, follows.
pub open spec fn replied(
    r: Seq<char>,
    input: Seq<char>,
    name: Seq<char>,
    sender: Seq<char>,
    names: Seq<Seq<char>>,
    ws: Seq<Seq<char>>,
    ws2: Seq<Seq<char>>,
    cores: Seq<ChainCore>,
    cores2: Seq<ChainCore>,
) -> bool {
    &&& input.len() == 0 ==> r == Seq::<char>::empty() && ws2 == ws && cores2 == cores
    &&& input.len() > 0 ==> exists|
        each: Seq<Seq<char>>,
        st: Seq<ReplyState>,
        last: Seq<char>,
        mid_ws: Seq<Seq<char>>,
        mid: Seq<ChainCore>,
    |
        #![trigger last_answered(last, mid_ws, mid, ws2, cores2, input, name, sender, names), answered_in_turn(each, st, split_sentences(spec_replace_names(input, spec_reply_names(name, sender, names))).drop_last(), name, sender, names)]
        {
            &&& r == join_with(nonempty_only(each), seq!['.', ' ']) + last
            &&& answered_in_turn(
                each,
                st,
                split_sentences(spec_replace_names(input, spec_reply_names(name, sender, names))).drop_last(),
                name,
                sender,
                names,
            )
            &&& st[0] == (ws, cores)
            &&& st.last() == (mid_ws, mid)
            &&& grows(ws, mid_ws)
            &&& consumed_from(cores, mid)
            &&& last_answered(last, mid_ws, mid, ws2, cores2, input, name, sender, names)
        }
}

/// Two successive states of a line of chains: `b` comes from `a` by
/// generation, which only removes lists, is transitive.
pub proof fn lemma_consumed_trans(a: Seq<ChainCore>, b: Seq<ChainCore>, c: Seq<ChainCore>)
    requires
        consumed_from(a, b),
        consumed_from(b, c),
    ensures
        consumed_from(a, c),
{
    assert forall|j: int| #![trigger c[j]] 0 <= j < c.len() implies {
        &&& c[j].wf()
        &&& crate::chain::only_removed(a[j].lists(0u8), c[j].lists(0u8))
        &&& crate::chain::only_removed(a[j].lists(1u8), c[j].lists(1u8))
        &&& c[j].consume_chance() == a[j].consume_chance()
        &&& c[j].strength_level() == a[j].strength_level()
    } by {
        assert(b[j].wf());
    }
}

pub proof fn lemma_consumed_refl(a: Seq<ChainCore>)
    requires
        forall|j: int| 0 <= j < a.len() ==> #[trigger] a[j].wf(),
    ensures
        consumed_from(a, a),
{
    assert forall|j: int| #![trigger a[j]] 0 <= j < a.len() implies {
        &&& a[j].wf()
        &&& crate::chain::only_removed(a[j].lists(0u8), a[j].lists(0u8))
        &&& crate::chain::only_removed(a[j].lists(1u8), a[j].lists(1u8))
        &&& a[j].consume_chance() == a[j].consume_chance()
        &&& a[j].strength_level() == a[j].strength_level()
    } by {
        assert(a[j].wf());
    }
}

/// A step that keeps the lists of chains that never consume, after steps
/// that kept them, keeps them still.
proof fn lemma_same_lists_step(a: Seq<ChainCore>, b: Seq<ChainCore>, c: Seq<ChainCore>)
    requires
        consumed_from(a, b),
        never_consumes(a) ==> same_lists(a, b),
        never_consumes(b) ==> same_lists(b, c),
    ensures
        never_consumes(a) ==> same_lists(a, c),
{
    if never_consumes(a) {
        assert(never_consumes(b)) by {
            assert forall|j: int| 0 <= j < b.len() implies #[trigger] b[j].consume_chance() == 0 by {
                assert(b[j].consume_chance() == a[j].consume_chance());
            }
        }
        assert forall|j: int| 0 <= j < a.len() implies (#[trigger] a[j]).forward() == c[j].forward()
            && a[j].backward() == c[j].backward() by {
            assert(a[j].forward() == b[j].forward());
            assert(b[j].forward() == c[j].forward());
        }
    }
}

proof fn lemma_grows_trans(a: Seq<Seq<char>>, b: Seq<Seq<char>>, c: Seq<Seq<char>>)
    requires
        grows(a, b),
        grows(b, c),
    ensures
        grows(a, c),
{
    assert(c.subrange(0, a.len() as int) =~= b.subrange(0, a.len() as int));
}

impl MarkovChain {
    /// Replies to a chat line with the chain at the head of `cores` (its
    /// parents after it): an empty line gets an empty reply; otherwise the
    /// names in the line (the given ones, or the chain's name and the
    /// sender's) are replaced by tokens, the line is split into sentences,
    /// each sentence but the last is answered on its own (the non-empty
    /// answers joined by `". "`), and the answer to the last sentence
    /// follows.
    pub fn reply(
        words: &mut WordMap,
        cores: &mut Vec<ChainCore>,
        input: &str,
        name: &str,
        sender: &str,
        names: &[String],
    ) -> (r: String)
        requires
            old(words).wf(),
            old(words)@.len() < WORD_LIMIT,
            old(cores)@.len() > 0,
            forall|j: int| 0 <= j < old(cores)@.len() ==> #[trigger] old(cores)@[j].wf(),
        ensures
            final(words).wf(),
            final(words)@.len() < WORD_LIMIT,
            grows(old(words)@, final(words)@),
            consumed_from(old(cores)@, final(cores)@),
            replied(
                r@,
                input@,
                name@,
                sender@,
                texts(names@),
                old(words)@,
                final(words)@,
                old(cores)@,
                final(cores)@,
            ),
            never_consumes(old(cores)@) ==> same_lists(old(cores)@, final(cores)@),
            kept_unless_consuming(old(cores)@, final(cores)@),
    {
        proof {
            lemma_consumed_refl(cores@);
            assert(words@.subrange(0, words@.len() as int) =~= words@);
        }
        if input.is_empty() {
            return String::new();
        }
        let all_names = reply_names(name, sender, names);
        let replaced = replace_names(input, all_names.as_slice());
        let mut pieces = sentences(replaced.as_str());
        let ghost all = texts(pieces@);
        let ghost before_pop = pieces@;
        let last = match pieces.pop() {
            Some(l) => l,
            None => String::new(),
        };
        assert(last@ == all.last());
        assert(texts(pieces@) =~= all.drop_last()) by {
            assert(pieces@ =~= before_pop.drop_last());
        }
        assert(texts(all_names@) == all_names@.map_values(|n: String| n@));
        let ghost names_all = spec_reply_names(name@, sender@, texts(names@));
        assert(all == split_sentences(spec_replace_names(input@, names_all)));
        let ghost c0 = cores@;
        let ghost w0 = words@;
        let ghost mut each: Seq<Seq<char>> = Seq::empty();
        let ghost mut st: Seq<ReplyState> = seq![(w0, c0)];
        let mut answers: Vec<String> = Vec::new();
        let mut i: usize = 0;
        proof {
            assert(texts(answers@) =~= nonempty_only(each));
        }
        while i < pieces.len()
            invariant
                words.wf(),
                words@.len() < WORD_LIMIT,
                grows(w0, words@),
                cores@.len() == c0.len(),
                consumed_from(c0, cores@),
                c0.len() > 0,
                all_names@.len() > 0,
                texts(all_names@) == names_all,
                names_all == spec_reply_names(name@, sender@, texts(names@)),
                texts(pieces@) == all.drop_last(),
                i <= pieces@.len(),
                never_consumes(c0) ==> same_lists(c0, cores@),
                kept_unless_consuming(c0, cores@),
                each.len() == i,
                st.len() == i + 1,
                st[0] == (w0, c0),
                st[i as int] == (words@, cores@),
                answered_in_turn(each, st, all.drop_last().take(i as int), name@, sender@, texts(names@)),
                texts(answers@) == nonempty_only(each),
            decreases pieces@.len() - i,
        {
            let ghost wb = words@;
            let ghost cb = cores@;
            let ghost piece = pieces@[i as int]@;
            let ghost mut a: Seq<char> = Seq::empty();
            assert(piece == all.drop_last()[i as int]);
            if !pieces[i].as_str().is_empty() {
                let again = replace_names(pieces[i].as_str(), all_names.as_slice());
                assert(again@ == spec_replace_names(piece, names_all));
                assert forall|j: int| 0 <= j < cores@.len() implies #[trigger] cores@[j].wf() by {}
                let answer = MarkovChain::reply_sentence(
                    words,
                    cores,
                    again.as_str(),
                    name,
                    sender,
                    &all_names,
                );
                proof {
                    lemma_grows_trans(w0, wb, words@);
                    lemma_consumed_trans(c0, cb, cores@);
                    lemma_same_lists_step(c0, cb, cores@);
                    lemma_kept_trans(c0, cb, cores@);
                    a = answer@;
                    assert(sentence_answered(a, wb, cb, words@, cores@, again@, name@, sender@, texts(names@)));
                }
                let ghost ta = texts(answers@);
                if !answer.as_str().is_empty() {
                    answers.push(answer);
                    assert(texts(answers@) =~= ta.push(a));
                }
            }
            proof {
                let each1 = each.push(a);
                let st1 = st.push((words@, cores@));
                let p0 = all.drop_last().take(i as int);
                let p1 = all.drop_last().take(i + 1);
                assert(each1.drop_last() =~= each);
                assert(each1.last() == a);
                assert(texts(answers@) == nonempty_only(each1));
                assert forall|k: int| #![trigger each1[k]] 0 <= k < p1.len() implies if p1[k].len() == 0 {
                    each1[k].len() == 0 && st1[k + 1] == st1[k]
                } else {
                    sentence_answered(
                        each1[k],
                        st1[k].0,
                        st1[k].1,
                        st1[k + 1].0,
                        st1[k + 1].1,
                        spec_replace_names(p1[k], spec_reply_names(name@, sender@, texts(names@))),
                        name@,
                        sender@,
                        texts(names@),
                    )
                } by {
                    if k < i {
                        assert(each1[k] == each[k]);
                        assert(st1[k] == st[k] && st1[k + 1] == st[k + 1]);
                        assert(p1[k] == p0[k]);
                    } else {
                        assert(p1[k] == piece);
                        assert(st1[k] == (wb, cb));
                        assert(each1[k] == a);
                    }
                }
                each = each1;
                st = st1;
            }
            i = i + 1;
        }
        assert(all.drop_last().take(pieces@.len() as int) =~= all.drop_last());
        let sep = ". ";
        proof {
            reveal_strlit(". ");
        }
        assert(sep@ =~= seq!['.', ' ']);
        let earlier = join(&answers, sep);
        let ghost wb = words@;
        let ghost cb = cores@;
        assert forall|j: int| 0 <= j < cores@.len() implies #[trigger] cores@[j].wf() by {}
        let sentence = MarkovChain::reply_sentence(words, cores, last.as_str(), name, sender, &all_names);
        proof {
            lemma_grows_trans(w0, wb, words@);
            lemma_consumed_trans(c0, cb, cores@);
            lemma_same_lists_step(c0, cb, cores@);
            lemma_kept_trans(c0, cb, cores@);
        }
        let mut r = earlier;
        r.append(sentence.as_str());
        proof {
            assert(last_answered(sentence@, wb, cb, words@, cores@, input@, name@, sender@, texts(names@)));
            assert(r@ == join_with(nonempty_only(each), seq!['.', ' ']) + sentence@);
            assert(st.last() == (wb, cb));
            assert(answered_in_turn(each, st, all.drop_last(), name@, sender@, texts(names@)));
        }
        r
    }
}

/// The number of times `w` stands in `l`.
pub open spec fn occurrences(l: Seq<u32>, w: u32) -> nat
    decreases l.len(),
{
    if l.len() == 0 {
        0
    } else {
        occurrences(l.drop_last(), w) + if l.last() == w {
            1nat
        } else {
            0nat
        }
    }
}

/// The words of `l`, without `END` and `NONE` marks.
pub open spec fn real_words(l: Seq<u32>) -> Set<u32> {
    Set::new(|w: u32| w < END && l.contains(w))
}

/// Counts the words of a list: how many distinct ones there are (marks
/// left out), and one that stands most often, with its number of times;
/// `END` and 0 when there is none.
pub fn word_stats(l: &Vec<u32>) -> (r: (usize, u32, usize))
    ensures
        r.0 == real_words(l@).len(),
        r.0 == 0 ==> r.1 == END && r.2 == 0,
        r.0 > 0 ==> real_words(l@).contains(r.1) && r.2 == occurrences(l@, r.1) && forall|w: u32|
            #[trigger] real_words(l@).contains(w) ==> occurrences(l@, w) <= r.2,
{
    let mut distinct: Vec<u32> = Vec::new();
    let mut counts: Vec<usize> = Vec::new();
    let mut i: usize = 0;
    while i < l.len()
        invariant
            i <= l@.len(),
            distinct@.len() == counts@.len(),
            distinct@.no_duplicates(),
            distinct@.to_set() == real_words(l@.subrange(0, i as int)),
            forall|k: int| 0 <= k < distinct@.len() ==> #[trigger] counts@[k] == occurrences(
                l@.subrange(0, i as int),
                distinct@[k],
            ),
            forall|k: int| 0 <= k < counts@.len() ==> #[trigger] counts@[k] <= i,
        decreases l@.len() - i,
    {
        let ghost pre = l@.subrange(0, i as int);
        let ghost next = l@.subrange(0, i + 1);
        assert(next.drop_last() =~= pre);
        let x = l[i];
        let mut k: usize = 0;
        while k < distinct.len() && distinct[k] != x
            invariant
                k <= distinct@.len(),
                forall|j: int| 0 <= j < k ==> distinct@[j] != x,
            decreases distinct@.len() - k,
        {
            k = k + 1;
        }
        let ghost d0 = distinct@;
        let ghost c0 = counts@;
        if x < END {
            if k < distinct.len() {
                let c = counts[k] + 1;
                counts.set(k, c);
                proof {
                    assert(real_words(next) =~= real_words(pre)) by {
                        assert(d0.to_set().contains(x));
                        assert forall|w: u32| real_words(next).contains(w) implies real_words(pre).contains(w) by {
                            if w != x {
                                let j = choose|j: int| 0 <= j < next.len() && next[j] == w;
                                assert(pre[j] == w);
                            }
                        }
                        assert forall|w: u32| real_words(pre).contains(w) implies real_words(next).contains(w) by {
                            let j = choose|j: int| 0 <= j < pre.len() && pre[j] == w;
                            assert(next[j] == w);
                        }
                    }
                }
            } else {
                distinct.push(x);
                counts.push(1);
                proof {
                    assert(!d0.contains(x));
                    assert forall|a: int, b: int| 0 <= a < b < distinct@.len() implies distinct@[a] != distinct@[b] by {
                        if b == distinct@.len() - 1 {
                            assert(d0.contains(d0[a]));
                        }
                    }
                    assert(distinct@.to_set() =~= real_words(next)) by {
                        assert forall|w: u32| real_words(next).contains(w) implies distinct@.to_set().contains(w) by {
                            if w != x {
                                let j = choose|j: int| 0 <= j < next.len() && next[j] == w;
                                assert(pre[j] == w);
                                assert(d0.to_set().contains(w));
                                let m = choose|m: int| 0 <= m < d0.len() && d0[m] == w;
                                assert(distinct@[m] == w);
                            } else {
                                assert(distinct@[distinct@.len() - 1] == x);
                            }
                        }
                        assert forall|w: u32| distinct@.to_set().contains(w) implies real_words(next).contains(w) by {
                            let m = choose|m: int| 0 <= m < distinct@.len() && distinct@[m] == w;
                            if m < d0.len() {
                                assert(d0[m] == w);
                                assert(d0.to_set().contains(w));
                                let j = choose|j: int| 0 <= j < pre.len() && pre[j] == w;
                                assert(next[j] == w);
                            } else {
                                assert(next[i as int] == x);
                            }
                        }
                    }
                    assert(occurrences(pre, x) == 0) by {
                        assert(!d0.to_set().contains(x));
                        assert(!real_words(pre).contains(x));
                        lemma_occurrences_absent(pre, x);
                    }
                }
            }
        } else {
            proof {
                assert(real_words(next) =~= real_words(pre)) by {
                    assert forall|w: u32| real_words(next).contains(w) implies real_words(pre).contains(w) by {
                        let j = choose|j: int| 0 <= j < next.len() && next[j] == w;
                        assert(j < i);
                        assert(pre[j] == w);
                    }
                    assert forall|w: u32| real_words(pre).contains(w) implies real_words(next).contains(w) by {
                        let j = choose|j: int| 0 <= j < pre.len() && pre[j] == w;
                        assert(next[j] == w);
                    }
                }
                assert forall|j: int| 0 <= j < distinct@.len() implies distinct@[j] != x by {
                    assert(d0.to_set().contains(distinct@[j]));
                }
            }
        }
        i = i + 1;
        proof {
            assert forall|j: int| 0 <= j < distinct@.len() implies #[trigger] counts@[j] == occurrences(
                next,
                distinct@[j],
            ) by {
                if j < d0.len() {
                    assert(distinct@[j] == d0[j]);
                }
            }
        }
    }
    assert(l@.subrange(0, l@.len() as int) =~= l@);
    proof {
        distinct@.unique_seq_to_set();
    }
    if distinct.len() == 0 {
        return (0, END, 0);
    }
    let mut best: usize = 0;
    let mut k: usize = 1;
    while k < distinct.len()
        invariant
            1 <= k <= distinct@.len(),
            best < k,
            distinct@.len() == counts@.len(),
            forall|j: int| 0 <= j < k ==> #[trigger] counts@[j] <= counts@[best as int],
        decreases distinct@.len() - k,
    {
        if counts[k] > counts[best] {
            best = k;
        }
        k = k + 1;
    }
    proof {
        assert(distinct@.to_set().contains(distinct@[best as int]));
        assert forall|w: u32| #[trigger] real_words(l@).contains(w) implies occurrences(l@, w) <= counts@[best as int] by {
            assert(distinct@.to_set().contains(w));
            let m = choose|m: int| 0 <= m < distinct@.len() && distinct@[m] == w;
            assert(counts@[m] == occurrences(l@, w));
        }
    }
    (distinct.len(), distinct[best], counts[best])
}

proof fn lemma_occurrences_absent(l: Seq<u32>, w: u32)
    requires
        !l.contains(w),
    ensures
        occurrences(l, w) == 0,
    decreases l.len(),
{
    if l.len() > 0 {
        assert(!l.drop_last().contains(w)) by {
            if l.drop_last().contains(w) {
                let j = choose|j: int| 0 <= j < l.drop_last().len() && l.drop_last()[j] == w;
                assert(l[j] == w);
            }
        }
        lemma_occurrences_absent(l.drop_last(), w);
    }
}

/// How much a command's sender may change.
#[derive(Debug, PartialEq, Eq, Structural, Clone, Copy)]
pub enum Power {
    Normal,
    Cool,
}

/// What a command comes to.
pub enum CommandAnswer {
    /// The text to answer with.
    Text(String),
    /// The command to hand on to the parent chain, whose answer is the
    /// answer.
    AskParent(String),
    /// The chain's strength is to be shown, as the caller holds it.
    ShowStrength,
    /// The strength to set, still to be read as a number: the caller sets
    /// it when `value` is one, and otherwise answers with a reply to
    /// `line` (with `parts` as the names).
    SetStrength { value: String, line: String, parts: Vec<String> },
}

/// The words of a command: its space-separated words, in lowercase unless
/// they are links.
pub open spec fn command_parts(command: Seq<char>) -> Seq<Seq<char>> {
    split_on(spec_lowercase_nonurl(command), ' ')
}

/// The answer to `stats`.
pub open spec fn stats_text(forward: nat, backward: nat, words: nat, lines: nat) -> Seq<char> {
    "Forwards keys: "@ + decimal(forward) + ", Backwards keys: "@ + decimal(backward) + ", words: "@
        + decimal(words) + ", lines: "@ + decimal(lines)
}

/// `r` answers `command` as `MarkovChain::command` does, for a sender of
/// `power`, taking the chain from `chain0` to `chain1`, the word table from
/// `ws0` to `ws1` and the chains from `c0` to `c1`.
pub open spec fn answered_command(
    r: CommandAnswer,
    command: Seq<char>,
    power: Power,
    config_names: Seq<String>,
    has_parent: bool,
    chain0: MarkovChain,
    chain1: MarkovChain,
    ws0: Seq<Seq<char>>,
    ws1: Seq<Seq<char>>,
    c0: Seq<ChainCore>,
    c1: Seq<ChainCore>,
) -> bool {
    let parts = command_parts(command);
    let first = parts[0];
    &&& first == "stats"@ ==> (r matches CommandAnswer::Text(t) && t@ == stats_text(
        c0[0].forward().len(),
        c0[0].backward().len(),
        ws0.len(),
        chain0.line_hashes().len(),
    ))
    &&& first == "filename"@ ==> (r matches CommandAnswer::Text(t) && t@ == chain0.file())
    &&& first == "wordstats"@ && !all_known(ws0, asked_words(parts)) ==> (
    r matches CommandAnswer::Text(t) && replied(
        t@,
        "I don't know those words"@,
        Seq::<char>::empty(),
        Seq::<char>::empty(),
        parts,
        ws0,
        ws1,
        c0,
        c1,
    ))
    &&& first == "wordstats"@ && all_known(ws0, asked_words(parts)) ==> (
    r matches CommandAnswer::Text(t) && stats_answer(t@, ws0, c0[0], asked_words(parts))
        && ws1 == ws0 && c1 == c0)
    &&& first == "sentence"@ ==> (r matches CommandAnswer::Text(t) && exists|key: Seq<u32>|
        #![trigger c0[0].forward().contains_key(crate::chain::seq_code(key))]
        {
            &&& key.len() == 3
            &&& c0[0].forward().contains_key(crate::chain::seq_code(key))
            &&& replied(
                t@,
                key_text(ws0, key),
                if parts.len() > 1 {
                    parts[1]
                } else {
                    Seq::<char>::empty()
                },
                rand_sender(),
                texts(config_names),
                ws0,
                ws1,
                c0,
                c1,
            )
        })
    &&& first == "parent"@ && !has_parent ==> (r matches CommandAnswer::Text(t) && replied(
        t@,
        "No parent"@,
        Seq::<char>::empty(),
        Seq::<char>::empty(),
        parts,
        ws0,
        ws1,
        c0,
        c1,
    ))
    &&& (first == "strength"@ && parts.len() > 1 || first == "nsfw"@) && power != Power::Cool
        ==> (r matches CommandAnswer::Text(t) && replied(
        t@,
        "Not cool enough"@,
        Seq::<char>::empty(),
        Seq::<char>::empty(),
        parts,
        ws0,
        ws1,
        c0,
        c1,
    ))
    &&& first == "nsfw"@ && power == Power::Cool && parts.len() > 1 && spec_parse_bool(
        parts[1],
    ) is None ==> (r matches CommandAnswer::Text(t) && replied(
        t@,
        join_with(parts, " "@),
        Seq::<char>::empty(),
        Seq::<char>::empty(),
        parts,
        ws0,
        ws1,
        c0,
        c1,
    ))
    &&& first == "power"@ ==> (r matches CommandAnswer::Text(t) && t@ == (if power
        == Power::Cool {
        "Cool"@
    } else {
        "Normal"@
    }))
    &&& first == "strength"@ && parts.len() == 1 ==> r is ShowStrength
    &&& first == "strength"@ && parts.len() > 1 && power == Power::Cool ==> (
    r matches CommandAnswer::SetStrength { value, line, parts: ps } && value@
        == parts[1] && line@ == join_with(parts, " "@) && texts(ps@) == parts)
    &&& first == "parent"@ && has_parent ==> (r matches CommandAnswer::AskParent(c)
        && c@ == join_with(parts.skip(1), " "@))
    &&& first == "nsfw"@ && power == Power::Cool && parts.len() == 1 ==> (
    r matches CommandAnswer::Text(t) && t@ == bool_text(!chain0.tells_parent()))
    &&& first == "nsfw"@ && power == Power::Cool && parts.len() > 1 && spec_parse_bool(
        parts[1],
    ) is Some ==> (r matches CommandAnswer::Text(t) && t@.len() == 0
        && chain1.tells_parent() == !spec_parse_bool(parts[1])->0)
    &&& !(first == "nsfw"@ && power == Power::Cool && parts.len() > 1 && spec_parse_bool(
        parts[1],
    ) is Some) ==> chain1.tells_parent() == chain0.tells_parent()
    &&& !(first == "stats"@ || first == "wordstats"@ || first == "sentence"@ || first
        == "parent"@ || first == "strength"@ || first == "nsfw"@ || first == "filename"@
        || first == "power"@) ==> (r matches CommandAnswer::Text(t) && t@.len() == 0)
    &&& !command_replies(parts, power, has_parent, ws0) ==> ws1 == ws0 && c1 == c0
    &&& power != Power::Cool ==> !(r is SetStrength) && chain1.tells_parent()
        == chain0.tells_parent()
}

/// Whether the command of the words `parts` is answered with a reply (or a
/// random sentence), which may learn words and draw from the chains: every
/// other command leaves the word table `ws` and the chains as they are.
pub open spec fn command_replies(parts: Seq<Seq<char>>, power: Power, has_parent: bool, ws: Seq<Seq<char>>) -> bool {
    let first = parts[0];
    ||| first == "sentence"@
    ||| first == "wordstats"@ && !all_known(ws, asked_words(parts))
    ||| first == "parent"@ && !has_parent
    ||| (first == "strength"@ && parts.len() > 1 || first == "nsfw"@) && power != Power::Cool
    ||| first == "nsfw"@ && power == Power::Cool && parts.len() > 1 && spec_parse_bool(parts[1]) is None
}

/// `true` or `false`, as `bool` prints.
pub open spec fn bool_text(b: bool) -> Seq<char> {
    if b {
        "true"@
    } else {
        "false"@
    }
}

impl MarkovChain {
    /// Replies to the words of a key drawn at random from the chain at the
    /// head of `cores`, marked as a random sentence, with `ideal` as the
    /// length it aims at (see `reply_length`).
    pub fn random_sentence(
        words: &mut WordMap,
        cores: &mut Vec<ChainCore>,
        names: &[String],
        ideal: &str,
    ) -> (r: String)
        requires
            old(words).wf(),
            old(words)@.len() < WORD_LIMIT,
            old(words)@.len() > 0,
            old(cores)@.len() > 0,
            forall|j: int| 0 <= j < old(cores)@.len() ==> #[trigger] old(cores)@[j].wf(),
            old(cores)@[0].forward().len() > 0,
        ensures
            final(words).wf(),
            final(words)@.len() < WORD_LIMIT,
            grows(old(words)@, final(words)@),
            consumed_from(old(cores)@, final(cores)@),
            never_consumes(old(cores)@) ==> same_lists(old(cores)@, final(cores)@),
            kept_unless_consuming(old(cores)@, final(cores)@),
            exists|key: Seq<u32>|
                #![trigger old(cores)@[0].forward().contains_key(crate::chain::seq_code(key))]
                {
                    &&& key.len() == 3
                    &&& old(cores)@[0].forward().contains_key(crate::chain::seq_code(key))
                    &&& replied(
                        r@,
                        key_text(old(words)@, key),
                        ideal@,
                        rand_sender(),
                        texts(names@),
                        old(words)@,
                        final(words)@,
                        old(cores)@,
                        final(cores)@,
                    )
                },
    {
        let n = cores[0].forward_len();
        let offset = (random_u32() as usize) % n;
        let key: [u32; 3] = match cores[0].nth_forward_key(offset) {
            Some(k) => k,
            None => [END, END, END],
        };
        let mut parts: Vec<String> = Vec::new();
        if key[0] < END {
            parts.push(words.get(key[0]));
        }
        if key[1] < END {
            parts.push(words.get(key[1]));
        }
        if key[2] < END {
            parts.push(words.get(key[2]));
        }
        assert(texts(parts@) =~= seed_of(key@).map_values(|id: u32| word_of(words@, id)));
        let start = join(&parts, " ");
        proof {
            reveal_strlit(" ");
            reveal_strlit("\0rand\0");
            assert(key@.len() == 3);
            assert(crate::chain::seq_code(key@) == crate::chain::key_code(key));
            assert(old(cores)@[0].forward().contains_key(crate::chain::seq_code(key@)));
            assert(" "@ =~= seq![' ']);
            assert(words@ == old(words)@);
            assert(start@ == key_text(old(words)@, key@));
        }
        let r = MarkovChain::reply(words, cores, start.as_str(), ideal, "\0rand\0", names);
        assert("\0rand\0"@ =~= rand_sender());
        r
    }

    /// Answers a command given to the chain at the head of `cores` (see
    /// `CommandAnswer`), by its first word in lowercase: `stats` counts the
    /// keys, words and lines; `wordstats` tells the words most often seen
    /// around up to three words; `sentence` makes a random sentence with
    /// `config_names` for the names; `parent` hands the rest of the command
    /// to the parent, when there is one; `strength` shows the chain's
    /// strength, or, for a cool sender, sets it; `nsfw` shows or, for a
    /// cool sender, sets whether the chain keeps what it learns to itself;
    /// `filename` and `power` show the chain's file and the sender's power.
    /// Anything else is answered with nothing.
    pub fn command(
        &mut self,
        words: &mut WordMap,
        cores: &mut Vec<ChainCore>,
        command: &str,
        power: Power,
        config_names: &[String],
        has_parent: bool,
    ) -> (r: CommandAnswer)
        requires
            old(words).wf(),
            old(words)@.len() < WORD_LIMIT,
            old(cores)@.len() > 0,
            forall|j: int| 0 <= j < old(cores)@.len() ==> #[trigger] old(cores)@[j].wf(),
            command_parts(command@)[0] == "sentence"@ ==> old(words)@.len() > 0 && old(
                cores,
            )@[0].forward().len() > 0,
        ensures
            final(words).wf(),
            final(words)@.len() < WORD_LIMIT,
            grows(old(words)@, final(words)@),
            consumed_from(old(cores)@, final(cores)@),
            final(self).file() == old(self).file(),
            final(self).line_hashes() == old(self).line_hashes(),
            never_consumes(old(cores)@) ==> same_lists(old(cores)@, final(cores)@),
            kept_unless_consuming(old(cores)@, final(cores)@),
            answered_command(
                r,
                command@,
                power,
                config_names@,
                has_parent,
                *old(self),
                *final(self),
                old(words)@,
                final(words)@,
                old(cores)@,
                final(cores)@,
            ),
    {
        proof {
            lemma_consumed_refl(cores@);
            assert(words@.subrange(0, words@.len() as int) =~= words@);
        }
        let lowered = lowercase_nonurl(command);
        let parts = split_chars(lowered.as_str(), ' ');
        proof {
            crate::text::lemma_split_nonempty(lowered@, ' ');
            reveal_strlit("stats");
            reveal_strlit("wordstats");
            reveal_strlit("sentence");
            reveal_strlit("parent");
            reveal_strlit("strength");
            reveal_strlit("nsfw");
            reveal_strlit("filename");
            reveal_strlit("power");
            reveal_strlit("");
            assert(""@ =~= Seq::<char>::empty());
            assert("stats"@[0] != "power"@[0]);
            assert("strength"@[1] != "sentence"@[1]);
            assert("strength"@[0] != "filename"@[0]);
            assert("sentence"@[0] != "filename"@[0]);
        }
        let first = parts[0].as_str();
        assert(first@ == command_parts(command@)[0]);
        if text_is(first, "stats") {
            let mut t = String::new();
            t.append("Forwards keys: ");
            push_decimal(&mut t, cores[0].forward_len());
            t.append(", Backwards keys: ");
            push_decimal(&mut t, cores[0].backward_len());
            t.append(", words: ");
            push_decimal(&mut t, words.len());
            t.append(", lines: ");
            push_decimal(&mut t, self.lines.len());
            return CommandAnswer::Text(t);
        }
        if text_is(first, "wordstats") {
            return CommandAnswer::Text(MarkovChain::word_stats_text(words, cores, &parts));
        }
        if text_is(first, "sentence") {
            let ideal = if parts.len() > 1 {
                parts[1].clone()
            } else {
                String::new()
            };
            return CommandAnswer::Text(
                MarkovChain::random_sentence(words, cores, config_names, ideal.as_str()),
            );
        }
        if text_is(first, "parent") {
            if has_parent {
                let mut rest: Vec<String> = Vec::new();
                let mut i: usize = 1;
                while i < parts.len()
                    invariant
                        1 <= i <= parts@.len(),
                        texts(rest@) == texts(parts@).subrange(1, i as int),
                    decreases parts@.len() - i,
                {
                    let ghost t0 = texts(rest@);
                    let p = parts[i].clone();
                    rest.push(p);
                    assert(texts(rest@) =~= t0.push(parts@[i as int]@));
                    i = i + 1;
                    assert(texts(rest@) =~= texts(parts@).subrange(1, i as int));
                }
                assert(texts(parts@).subrange(1, parts@.len() as int) =~= texts(parts@).skip(1));
                return CommandAnswer::AskParent(join(&rest, " "));
            }
            return CommandAnswer::Text(
                MarkovChain::reply(words, cores, "No parent", "", "", parts.as_slice()),
            );
        }
        if text_is(first, "strength") {
            if parts.len() == 1 {
                return CommandAnswer::ShowStrength;
            }
            if power == Power::Cool {
                let value = parts[1].clone();
                let line = join(&parts, " ");
                return CommandAnswer::SetStrength { value, line, parts };
            }
            return CommandAnswer::Text(
                MarkovChain::reply(words, cores, "Not cool enough", "", "", parts.as_slice()),
            );
        }
        if text_is(first, "nsfw") {
            if power == Power::Cool {
                if parts.len() == 1 {
                    let t = if self.tell_parent {
                        "false".to_string()
                    } else {
                        "true".to_string()
                    };
                    return CommandAnswer::Text(t);
                }
                match parse_bool(parts[1].as_str()) {
                    Some(v) => {
                        self.tell_parent = !v;
                        return CommandAnswer::Text(String::new());
                    },
                    None => {
                        let line = join(&parts, " ");
                        return CommandAnswer::Text(
                            MarkovChain::reply(words, cores, line.as_str(), "", "", parts.as_slice()),
                        );
                    },
                }
            }
            return CommandAnswer::Text(
                MarkovChain::reply(words, cores, "Not cool enough", "", "", parts.as_slice()),
            );
        }
        if text_is(first, "filename") {
            return CommandAnswer::Text(self.filename.clone());
        }
        if text_is(first, "power") {
            let t = if power == Power::Cool {
                "Cool".to_string()
            } else {
                "Normal".to_string()
            };
            return CommandAnswer::Text(t);
        }
        CommandAnswer::Text(String::new())
    }

    /// Answers a command as `command` does, after checking what `command`
    /// asks of it: `sentence` needs a word and a key of the head chain to
    /// draw from. Nothing is answered, and nothing changed, when it has
    /// none.
    pub fn checked_command(
        &mut self,
        words: &mut WordMap,
        cores: &mut Vec<ChainCore>,
        command: &str,
        power: Power,
        config_names: &[String],
        has_parent: bool,
    ) -> (r: Option<CommandAnswer>)
        requires
            old(words).wf(),
            old(words)@.len() < WORD_LIMIT,
            old(cores)@.len() > 0,
            forall|j: int| 0 <= j < old(cores)@.len() ==> #[trigger] old(cores)@[j].wf(),
        ensures
            final(words).wf(),
            final(words)@.len() < WORD_LIMIT,
            r is None <==> command_parts(command@)[0] == "sentence"@ && (old(words)@.len() == 0
                || old(cores)@[0].forward().len() == 0),
            r is None ==> *final(self) == *old(self) && final(words)@ == old(words)@
                && final(cores)@ == old(cores)@,
            r matches Some(a) ==> answered_command(
                a,
                command@,
                power,
                config_names@,
                has_parent,
                *old(self),
                *final(self),
                old(words)@,
                final(words)@,
                old(cores)@,
                final(cores)@,
            ),
    {
        let lowered = lowercase_nonurl(command);
        let parts = split_chars(lowered.as_str(), ' ');
        proof {
            crate::text::lemma_split_nonempty(lowered@, ' ');
            reveal_strlit("sentence");
        }
        assert(parts@[0]@ == command_parts(command@)[0]);
        if text_is(parts[0].as_str(), "sentence") && (words.len() == 0 || cores[0].forward_len() == 0) {
            return None;
        }
        Some(self.command(words, cores, command, power, config_names, has_parent))
    }

    /// The answer to `wordstats` (see `spec_word_stats_text`): for the key of
    /// up to three words after the command word, how many distinct words
    /// were seen before and after it, and one seen most often each way (of
    /// the words seen after it, only when some word was seen before it).
    /// When a word is unknown, the answer is a reply to `I don't know those
    /// words`.
    pub fn word_stats_text(words: &mut WordMap, cores: &mut Vec<ChainCore>, parts: &Vec<String>) -> (r: String)
        requires
            old(words).wf(),
            old(words)@.len() < WORD_LIMIT,
            old(cores)@.len() > 0,
            forall|j: int| 0 <= j < old(cores)@.len() ==> #[trigger] old(cores)@[j].wf(),
        ensures
            final(words).wf(),
            final(words)@.len() < WORD_LIMIT,
            grows(old(words)@, final(words)@),
            consumed_from(old(cores)@, final(cores)@),
            never_consumes(old(cores)@) ==> same_lists(old(cores)@, final(cores)@),
            kept_unless_consuming(old(cores)@, final(cores)@),
            all_known(old(words)@, asked_words(texts(parts@))) ==> {
                &&& final(words)@ == old(words)@
                &&& final(cores)@ == old(cores)@
                &&& stats_answer(r@, old(words)@, old(cores)@[0], asked_words(texts(parts@)))
            },
            !all_known(old(words)@, asked_words(texts(parts@))) ==> replied(
                r@,
                "I don't know those words"@,
                Seq::<char>::empty(),
                Seq::<char>::empty(),
                texts(parts@),
                old(words)@,
                final(words)@,
                old(cores)@,
                final(cores)@,
            ),
    {
        proof {
            lemma_consumed_refl(cores@);
            assert(words@.subrange(0, words@.len() as int) =~= words@);
            reveal_strlit("");
            assert(""@ =~= Seq::<char>::empty());
        }
        let ghost asked = asked_words(texts(parts@));
        let count = if parts.len() > 4 {
            3
        } else if parts.len() > 0 {
            parts.len() - 1
        } else {
            0
        };
        assert(asked.len() == count);
        let mut ids: Vec<u32> = Vec::new();
        let mut i: usize = 0;
        while i < count
            invariant
                i <= count,
                count == asked.len(),
                count <= 3,
                asked == asked_words(texts(parts@)),
                words.wf(),
                words@ == old(words)@,
                words@.len() < WORD_LIMIT,
                cores@ == old(cores)@,
                cores@.len() > 0,
                forall|j: int| 0 <= j < cores@.len() ==> #[trigger] cores@[j].wf(),
                ids_of(ids@, words@, asked.take(i as int)),
                forall|j: int| 0 <= j < i ==> has_key(words@, spec_lowercase(#[trigger] asked[j])),
            decreases count - i,
        {
            assert(asked[i as int] == parts@[i + 1]@);
            match words.find(parts[i + 1].as_str()) {
                Some(id) => {
                    ids.push(*id);
                    assert(asked.take(i + 1).drop_last() =~= asked.take(i as int));
                },
                None => {
                    assert(!has_key(words@, spec_lowercase(asked[i as int])));
                    assert(!all_known(old(words)@, asked));
                    proof {
                        reveal_strlit("");
                        assert(""@ =~= Seq::<char>::empty());
                    }
                    return MarkovChain::reply(words, cores, "I don't know those words", "", "", parts.as_slice());
                },
            }
            i = i + 1;
        }
        assert(asked.take(count as int) =~= asked);
        let n = ids.len();
        let key: [u32; 3] = [
            if n > 0 { ids[0] } else { NONE },
            if n > 1 { ids[1] } else { NONE },
            if n > 2 { ids[2] } else { NONE },
        ];
        let back_key: [u32; 3] = [
            if n > 0 { ids[n - 1] } else { NONE },
            if n > 1 { ids[n - 2] } else { NONE },
            if n > 2 { ids[n - 3] } else { NONE },
        ];
        assert(key@ =~= pad3(ids@));
        assert(back_key@ =~= pad3(ids@.reverse()));
        let s0 = match cores[0].list_of(&back_key, 0) {
            Some(l) => word_stats(&l),
            None => (0, END, 0),
        };
        let s1 = match cores[0].list_of(&key, 1) {
            Some(l) => word_stats(&l),
            None => (0, END, 0),
        };
        let mut key_words: Vec<String> = Vec::new();
        let mut k: usize = 0;
        while k < n
            invariant
                k <= n,
                n == ids@.len(),
                words.wf(),
                words@ == old(words)@,
                ids_of(ids@, words@, asked),
                cores@ == old(cores)@,
                texts(key_words@) == ids@.take(k as int).map_values(|id: u32| word_of(words@, id)),
            decreases n - k,
        {
            let w = words.get(ids[k]);
            let ghost before = texts(key_words@);
            key_words.push(w);
            assert(texts(key_words@) =~= ids@.take(k + 1).map_values(|id: u32| word_of(words@, id))) by {
                assert(texts(key_words@) =~= before.push(w@));
            }
            k = k + 1;
        }
        assert(ids@.take(n as int) =~= ids@);
        proof {
            reveal_strlit(" ");
            reveal_strlit(" has ");
            reveal_strlit(", ");
        }
        let mut t = join(&key_words, " ");
        t.append(" has ");
        let prev_text = stats_text_part(words, s0, s0.1, " previous words, most often \"", "no previous words");
        t.append(prev_text.as_str());
        t.append(", ");
        let next_text = stats_text_part(words, s1, s0.1, " next words, most often \"", "no next words");
        t.append(next_text.as_str());
        proof {
            assert(crate::chain::seq_code(pad3(ids@)) == crate::chain::key_code(key));
            assert(crate::chain::seq_code(pad3(ids@.reverse())) == crate::chain::key_code(back_key));
            assert(stats_ok(list_at(old(cores)@[0].backward(), pad3(ids@.reverse())), s0));
            assert(stats_ok(list_at(old(cores)@[0].forward(), pad3(ids@)), s1));
            assert(t@ == spec_word_stats_text(old(words)@, ids@, s0, s1));
        }
        t
    }
}

/// `t` answers `wordstats` for the words `asked` with the word table `ws`
/// and the chain `core` (see `spec_word_stats_text`).
pub open spec fn stats_answer(t: Seq<char>, ws: Seq<Seq<char>>, core: ChainCore, asked: Seq<Seq<char>>) -> bool {
    exists|ids: Seq<u32>, s0: (usize, u32, usize), s1: (usize, u32, usize)|
        #![trigger spec_word_stats_text(ws, ids, s0, s1)]
        {
            &&& ids_of(ids, ws, asked)
            &&& stats_ok(list_at(core.backward(), pad3(ids.reverse())), s0)
            &&& stats_ok(list_at(core.forward(), pad3(ids)), s1)
            &&& t == spec_word_stats_text(ws, ids, s0, s1)
        }
}

/// Every word of `asked` is in the table `ws`.
pub open spec fn all_known(ws: Seq<Seq<char>>, asked: Seq<Seq<char>>) -> bool {
    forall|i: int| 0 <= i < asked.len() ==> has_key(ws, spec_lowercase(#[trigger] asked[i]))
}

/// The words of `parts` that `wordstats` asks about: up to three after the
/// command word.
pub open spec fn asked_words(parts: Seq<Seq<char>>) -> Seq<Seq<char>> {
    if parts.len() == 0 {
        parts
    } else if parts.len() > 4 {
        parts.subrange(1, 4)
    } else {
        parts.subrange(1, parts.len() as int)
    }
}

/// `wordstats` asks about the words after the command word, up to three of
/// them, in order.
pub proof fn law_asked_words(parts: Seq<Seq<char>>)
    requires
        parts.len() > 0,
    ensures
        asked_words(parts).len() == (if parts.len() - 1 < 3 {
            parts.len() - 1
        } else {
            3
        }),
        forall|i: int| 0 <= i < asked_words(parts).len() ==> #[trigger] asked_words(parts)[i] == parts[i + 1],
{
}

/// `ids` are the ids in the table `ws` of the words `asked`.
pub open spec fn ids_of(ids: Seq<u32>, ws: Seq<Seq<char>>, asked: Seq<Seq<char>>) -> bool {
    &&& ids.len() == asked.len()
    &&& forall|i: int|
        0 <= i < ids.len() ==> #[trigger] ids[i] < ws.len() && spec_lowercase(ws[ids[i] as int])
            == spec_lowercase(asked[i])
}

/// A key made of up to three ids, with `NONE` in the slots left over.
pub open spec fn pad3(ids: Seq<u32>) -> Seq<u32> {
    seq![
        if ids.len() > 0 { ids[0] } else { NONE },
        if ids.len() > 1 { ids[1] } else { NONE },
        if ids.len() > 2 { ids[2] } else { NONE },
    ]
}

/// The list of the key `k` in `m`, if it has one.
pub open spec fn list_at(m: Map<u128, Seq<u32>>, k: Seq<u32>) -> Option<Seq<u32>> {
    if m.contains_key(crate::chain::seq_code(k)) {
        Some(m[crate::chain::seq_code(k)])
    } else {
        None
    }
}

/// `s` is what `word_stats` may give for the list `l`: its number of
/// distinct words, one seen most often and its number of times; `END` and
/// zeros when there is no list or no word in it.
pub open spec fn stats_ok(l: Option<Seq<u32>>, s: (usize, u32, usize)) -> bool {
    match l {
        None => s.0 == 0 && s.1 == END && s.2 == 0,
        Some(l) => {
            &&& s.0 == real_words(l).len()
            &&& s.0 == 0 ==> s.1 == END && s.2 == 0
            &&& s.0 > 0 ==> real_words(l).contains(s.1) && s.2 == occurrences(l, s.1) && forall|w: u32|
                #[trigger] real_words(l).contains(w) ==> occurrences(l, w) <= s.2
        },
    }
}

/// The word of id `id` in the table `ws`, ids taken modulo its size.
pub open spec fn word_of(ws: Seq<Seq<char>>, id: u32) -> Seq<char> {
    ws[(id as int) % (ws.len() as int)]
}

/// One direction's part of the `wordstats` answer: `none` when `gate` is
/// `END` (or the table is empty); otherwise the number of distinct words,
/// `label`, the word seen most often, and its number of times.
pub open spec fn stats_part(ws: Seq<Seq<char>>, s: (usize, u32, usize), gate: u32, label: Seq<char>, none: Seq<char>) -> Seq<char> {
    if gate == END || ws.len() == 0 {
        none
    } else {
        decimal(s.0 as nat) + label + word_of(ws, s.1) + "\" ("@ + decimal(s.2 as nat) + " times)"@
    }
}

/// The answer to `wordstats` for the words of ids `ids`, with the stats
/// `s0` of the words seen before them and `s1` of those seen after them:
/// the words, ` has `, the part before and, after `, `, the part after,
/// which is left out like the first when no word was seen before.
pub open spec fn spec_word_stats_text(ws: Seq<Seq<char>>, ids: Seq<u32>, s0: (usize, u32, usize), s1: (usize, u32, usize)) -> Seq<char> {
    join_with(ids.map_values(|id: u32| word_of(ws, id)), " "@) + " has "@ + stats_part(
        ws,
        s0,
        s0.1,
        " previous words, most often \""@,
        "no previous words"@,
    ) + ", "@ + stats_part(ws, s1, s0.1, " next words, most often \""@, "no next words"@)
}

/// One direction's part of the `wordstats` answer (see `stats_part`).
fn stats_text_part(words: &WordMap, s: (usize, u32, usize), gate: u32, label: &str, none: &str) -> (r: String)
    requires
        words.wf(),
    ensures
        r@ == stats_part(words@, s, gate, label@, none@),
{
    if gate == END || words.len() == 0 {
        return none.to_string();
    }
    let mut t = String::new();
    push_decimal(&mut t, s.0);
    t.append(label);
    t.append(words.get(s.1).as_str());
    t.append("\" (");
    push_decimal(&mut t, s.2);
    t.append(" times)");
    t
}

} // verus!
