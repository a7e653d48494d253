//! The chain core: for every key of up to three consecutive words, the
//! words seen after it (forward) and before it (backward).
use vstd::prelude::*;
use std::collections::HashMap;
use rand_isaac::Isaac64Rng;
use crate::trusted::{isaac_from_seed, next_random, random_seed};

verus! {

broadcast use vstd::std_specs::hash::group_hash_axioms;

/// Fills a key slot that holds no word.
pub const NONE: u32 = 0xffff_ffffu32;

/// Marks the start or the end of a line.
pub const END: u32 = 0xffff_fffeu32;

/// Up to three consecutive word ids; unused slots hold `NONE`.
pub type Key = [u32; 3];

/// The number that stands for the key `[a, b, c]` in the chain's maps.
pub open spec fn code3(a: u32, b: u32, c: u32) -> u128 {
    (a as int * 0x1_0000_0000_0000_0000 + b as int * 0x1_0000_0000 + c as int) as u128
}

/// The number that stands for `key` in the chain's maps.
pub open spec fn key_code(key: Key) -> u128 {
    code3(key[0], key[1], key[2])
}

/// `m` after `w` is appended to the list of `code`.
pub open spec fn push_word(m: Map<u128, Seq<u32>>, code: u128, w: u32) -> Map<u128, Seq<u32>> {
    m.insert(code, if m.contains_key(code) { m[code].push(w) } else { seq![w] })
}

/// A line as the chain reads it: two `END` marks on each side.
pub open spec fn padded(words: Seq<u32>) -> Seq<u32> {
    seq![END, END] + words + seq![END, END]
}

/// The forward entries that position `i` of the padded line `k` adds: the
/// word at `i` follows the one, two and three words before it.
pub open spec fn forward_step(m: Map<u128, Seq<u32>>, k: Seq<u32>, i: int) -> Map<u128, Seq<u32>> {
    let w = k[i];
    push_word(
        push_word(push_word(m, code3(k[i - 3], k[i - 2], k[i - 1]), w), code3(k[i - 2], k[i - 1], NONE), w),
        code3(k[i - 1], NONE, NONE),
        w,
    )
}

/// The backward entries that position `i` of the padded line `k` adds: the
/// word before `i` precedes the one, two and three words from `i` on.
pub open spec fn backward_step(m: Map<u128, Seq<u32>>, k: Seq<u32>, i: int) -> Map<u128, Seq<u32>> {
    let w = k[i - 1];
    push_word(
        push_word(push_word(m, code3(k[i + 2], k[i + 1], k[i]), w), code3(k[i + 1], k[i], NONE), w),
        code3(k[i], NONE, NONE),
        w,
    )
}

/// The forward map after positions `3 .. i` of `k` are learned.
pub open spec fn learn_forward(m: Map<u128, Seq<u32>>, k: Seq<u32>, i: int) -> Map<u128, Seq<u32>>
    decreases i,
{
    if i <= 3 {
        m
    } else {
        forward_step(learn_forward(m, k, i - 1), k, i - 1)
    }
}

/// The backward map after positions `2 .. i` of `k` are learned.
pub open spec fn learn_backward(m: Map<u128, Seq<u32>>, k: Seq<u32>, i: int) -> Map<u128, Seq<u32>>
    decreases i,
{
    if i <= 2 {
        m
    } else {
        backward_step(learn_backward(m, k, i - 1), k, i - 1)
    }
}

/// Every list in `m` holds at least one word.
pub open spec fn lists_nonempty(m: Map<u128, Seq<u32>>) -> bool {
    forall|c: u128| #[trigger] m.contains_key(c) ==> m[c].len() > 0
}

/// Every key of `m` is the code of three ids.
pub open spec fn keys_coded(m: Map<u128, Seq<u32>>) -> bool {
    forall|c: u128| #[trigger] m.contains_key(c) ==> c < 0x1_0000_0000_0000_0000_0000_0000
}

/// The lists of a hash map, as sequences.
pub open spec fn lists_of(m: HashMap<u128, Vec<u32>>) -> Map<u128, Seq<u32>> {
    m@.map_values(|v: Vec<u32>| v@)
}

/// The chain of one source of lines.
pub struct ChainCore {
    next: HashMap<u128, Vec<u32>>,
    prev: HashMap<u128, Vec<u32>>,
    random: Isaac64Rng,
    consume: u32,
    strength: u32,
    drawn: Ghost<Seq<u32>>,
}

/// The number of millionths in a whole.
pub const MILLION: u32 = 1_000_000u32;

fn code_of(a: u32, b: u32, c: u32) -> (r: u128)
    ensures
        r == code3(a, b, c),
        r < 0x1_0000_0000_0000_0000_0000_0000,
{
    (a as u128) * 0x1_0000_0000_0000_0000u128 + (b as u128) * 0x1_0000_0000u128 + (c as u128)
}

/// Appends `w` to the list of `code` in `m`.
fn add_word(m: &mut HashMap<u128, Vec<u32>>, code: u128, w: u32)
    ensures
        lists_of(*final(m)) == push_word(lists_of(*old(m)), code, w),
{
    let ghost old_lists = lists_of(*m);
    match m.remove(&code) {
        Some(mut list) => {
            list.push(w);
            m.insert(code, list);
        },
        None => {
            let mut list = Vec::new();
            list.push(w);
            m.insert(code, list);
            assert(list@ =~= seq![w]);
        },
    }
    assert(lists_of(*m) =~= push_word(old_lists, code, w));
}

impl ChainCore {
    /// The forward lists: for each key, the words that followed it.
    pub closed spec fn forward(&self) -> Map<u128, Seq<u32>> {
        lists_of(self.next)
    }

    /// The backward lists: for each key, the words that preceded it.
    pub closed spec fn backward(&self) -> Map<u128, Seq<u32>> {
        lists_of(self.prev)
    }

    /// The random generator the chain draws from, as it stands.
    pub closed spec fn generator(&self) -> Isaac64Rng {
        self.random
    }

    /// The random draws the chain has made, in order.
    pub closed spec fn draws(&self) -> Seq<u32> {
        self.drawn@
    }

    /// The chance, in millionths, that a lookup removes the list it reads.
    pub closed spec fn consume_chance(&self) -> u32 {
        self.consume
    }

    /// How strongly the chain keeps to its own lists rather than its
    /// parent's, in millionths (one million keeps to them fully).
    pub closed spec fn strength_level(&self) -> u32 {
        self.strength
    }

    /// The lists of direction `dir`: backward for 0, forward otherwise.
    pub open spec fn lists(&self, dir: u8) -> Map<u128, Seq<u32>> {
        if dir == 0 {
            self.backward()
        } else {
            self.forward()
        }
    }

    /// No key holds an empty list.
    pub open spec fn wf(&self) -> bool {
        &&& lists_nonempty(self.forward())
        &&& lists_nonempty(self.backward())
        &&& self.forward().dom().finite()
        &&& self.backward().dom().finite()
        &&& keys_coded(self.forward())
        &&& keys_coded(self.backward())
    }

    /// An empty chain with a freshly seeded generator, which never
    /// consumes and keeps fully to its own lists.
    pub fn new() -> (r: ChainCore)
        ensures
            r.wf(),
            r.forward() == Map::<u128, Seq<u32>>::empty(),
            r.backward() == Map::<u128, Seq<u32>>::empty(),
            r.consume_chance() == 0,
            r.strength_level() == MILLION,
    {
        let seed = random_seed();
        let r = ChainCore {
            random: isaac_from_seed(seed),
            next: HashMap::new(),
            prev: HashMap::new(),
            consume: 0,
            strength: MILLION,
            drawn: Ghost(Seq::empty()),
        };
        assert(r.forward() =~= Map::<u128, Seq<u32>>::empty());
        assert(r.backward() =~= Map::<u128, Seq<u32>>::empty());
        r
    }

    /// Learns one line of word ids: each word is recorded after the one,
    /// two and three words before it, and before the one, two and three
    /// words from it on, with `END` marks around the line.
    pub fn learn(&mut self, keys: Vec<u32>)
        requires
            old(self).wf(),
            keys@.len() + 4 <= usize::MAX,
        ensures
            final(self).wf(),
            final(self).forward() == learn_forward(old(self).forward(), padded(keys@), keys@.len() + 2int),
            final(self).backward() == learn_backward(old(self).backward(), padded(keys@), keys@.len() + 2int),
            final(self).generator() == old(self).generator(),
            final(self).draws() == old(self).draws(),
            final(self).consume_chance() == old(self).consume_chance(),
            final(self).strength_level() == old(self).strength_level(),
    {
        let mut k: Vec<u32> = Vec::new();
        k.push(END);
        k.push(END);
        let mut j: usize = 0;
        while j < keys.len()
            invariant
                j <= keys@.len(),
                k@ == seq![END, END] + keys@.subrange(0, j as int),
            decreases keys@.len() - j,
        {
            k.push(keys[j]);
            j = j + 1;
            assert(k@ =~= seq![END, END] + keys@.subrange(0, j as int));
        }
        k.push(END);
        k.push(END);
        assert(k@ =~= padded(keys@));
        let end = k.len() - 2;
        let mut i: usize = 2;
        while i < end
            invariant
                k@ == padded(keys@),
                end == keys@.len() + 2,
                2 <= i <= end,
                lists_nonempty(self.forward()),
                lists_nonempty(self.backward()),
                self.forward().dom().finite(),
                self.backward().dom().finite(),
                keys_coded(self.forward()),
                keys_coded(self.backward()),
                self.forward() == learn_forward(old(self).forward(), k@, i as int),
                self.backward() == learn_backward(old(self).backward(), k@, i as int),
                self.consume == old(self).consume,
                self.strength == old(self).strength,
                self.random == old(self).random,
                self.drawn == old(self).drawn,
            decreases end - i,
        {
            let word = k[i];
            if i > 2 {
                let c3 = code_of(k[i - 3], k[i - 2], k[i - 1]);
                let c2 = code_of(k[i - 2], k[i - 1], NONE);
                let c1 = code_of(k[i - 1], NONE, NONE);
                add_word(&mut self.next, c3, word);
                add_word(&mut self.next, c2, word);
                add_word(&mut self.next, c1, word);
            }
            let before = k[i - 1];
            assert(i + 2 < k.len());
            let p3 = code_of(k[i + 2], k[i + 1], word);
            let p2 = code_of(k[i + 1], word, NONE);
            let p1 = code_of(word, NONE, NONE);
            add_word(&mut self.prev, p3, before);
            add_word(&mut self.prev, p2, before);
            add_word(&mut self.prev, p1, before);
            i = i + 1;
        }
    }
}

/// A random draw `r` of 32 bits falls under a chance of `ppm` millionths.
pub open spec fn spec_chance(r: u32, ppm: u32) -> bool {
    (ppm as int) * 0x1_0000_0000 > (r as int) * (MILLION as int)
}

/// The modulus against which a parent's list is weighed, for a list of
/// `len` words and a strength of `s` millionths:
/// `len * len * s + (1 - s)`, rounded down and held in 32 bits.
pub open spec fn spec_strength_bound(len: nat, s: u32) -> u32 {
    let v = (len * len * s + MILLION - s) / (MILLION as int);
    if v < 0 {
        0
    } else if v > u32::MAX {
        u32::MAX
    } else {
        v as u32
    }
}

/// Whether a draw of 32 bits falls under a chance of `ppm` millionths.
pub fn chance(r: u32, ppm: u32) -> (b: bool)
    ensures
        b == spec_chance(r, ppm),
{
    (ppm as u64) * 0x1_0000_0000u64 > (r as u64) * 1_000_000u64
}

/// The modulus against which a parent's list is weighed.
pub fn strength_bound(len: usize, s: u32) -> (r: u32)
    ensures
        r == spec_strength_bound(len as nat, s),
        len > 0 ==> r > 0,
{
    if s == 0 {
        assert(len as nat * len as nat * s == 0) by (nonlinear_arith)
            requires
                s == 0,
        ;
        return 1;
    }
    if (len as u128) > 0x1_0000_0000u128 {
        assert(len as nat * len as nat * s >= 0x1_0000_0000 * 0x1_0000_0000) by (nonlinear_arith)
            requires
                len > 0x1_0000_0000,
                s >= 1,
        ;
        return u32::MAX;
    }
    let l = len as u128;
    assert(l * l <= 0x1_0000_0000 * 0x1_0000_0000) by (nonlinear_arith)
        requires
            l <= 0x1_0000_0000,
    ;
    let sq = l * l;
    assert(sq * (s as u128) <= 0x1_0000_0000 * 0x1_0000_0000 * 0x1_0000_0000) by (nonlinear_arith)
        requires
            sq <= 0x1_0000_0000 * 0x1_0000_0000,
            s <= 0xffff_ffff,
    ;
    let prod = sq * (s as u128);
    let total: u128 = if prod + (MILLION as u128) >= (s as u128) {
        prod + (MILLION as u128) - (s as u128)
    } else {
        0
    };
    proof {
        if len > 0 {
            assert(sq >= 1) by (nonlinear_arith)
                requires
                    l >= 1,
                    sq == l * l,
            ;
            assert(prod >= s) by (nonlinear_arith)
                requires
                    sq >= 1,
                    prod == sq * (s as u128),
            ;
        }
    }
    let v = total / (MILLION as u128);
    if v > (u32::MAX as u128) {
        u32::MAX
    } else {
        v as u32
    }
}

impl ChainCore {
    /// Draws 32 random bits from the chain's generator.
    fn draw(&mut self) -> (r: u32)
        ensures
            final(self).forward() == old(self).forward(),
            final(self).backward() == old(self).backward(),
            final(self).consume_chance() == old(self).consume_chance(),
            final(self).strength_level() == old(self).strength_level(),
            final(self).draws() == old(self).draws().push(r),
    {
        let r = next_random(&mut self.random);
        self.drawn = Ghost(self.drawn@.push(r));
        r
    }

    /// The list of `code` in direction `dir`, removed from the chain when
    /// `consume` holds and copied otherwise.
    fn take_list(&mut self, code: u128, dir: u8, consume: bool) -> (r: Option<Vec<u32>>)
        ensures
            match r {
                Some(l) => old(self).lists(dir).contains_key(code) && l@ == old(self).lists(dir)[code],
                None => !old(self).lists(dir).contains_key(code),
            },
            old(self).wf() ==> final(self).wf(),
            final(self).lists(dir) == (if consume {
                old(self).lists(dir).remove(code)
            } else {
                old(self).lists(dir)
            }),
            final(self).lists(if dir == 0 { 1u8 } else { 0u8 }) == old(self).lists(
                if dir == 0 { 1u8 } else { 0u8 },
            ),
            final(self).consume_chance() == old(self).consume_chance(),
            final(self).strength_level() == old(self).strength_level(),
            final(self).draws() == old(self).draws(),
    {
        let ghost before = if dir == 0 { lists_of(self.prev) } else { lists_of(self.next) };
        let map = if dir == 0 { &mut self.prev } else { &mut self.next };
        let r = if consume {
            map.remove(&code)
        } else {
            match map.get(&code) {
                Some(l) => Some(l.clone()),
                None => None,
            }
        };
        proof {
            if consume {
                assert(lists_of(*map) =~= before.remove(code));
            }
        }
        r
    }

    /// The number of words in the list of `code` in direction `dir`.
    fn list_len(&self, code: u128, dir: u8) -> (r: usize)
        ensures
            r == (if self.lists(dir).contains_key(code) { self.lists(dir)[code].len() } else { 0 }),
    {
        let map = if dir == 0 { &self.prev } else { &self.next };
        match map.get(&code) {
            Some(l) => l.len(),
            None => 0,
        }
    }

    /// The words recorded for `key` in direction `dir` (0 for the words
    /// before it, otherwise the words after it). With the chain's chance of
    /// consuming, the list is removed from the chain as it is read.
    pub fn next(&mut self, key: &Key, dir: u8) -> (r: Option<Vec<u32>>)
        requires
            old(self).wf(),
        ensures
            final(self).wf(),
            match r {
                Some(l) => old(self).lists(dir).contains_key(key_code(*key)) && l@ == old(
                    self,
                ).lists(dir)[key_code(*key)],
                None => !old(self).lists(dir).contains_key(key_code(*key)),
            },
            final(self).lists(dir) == old(self).lists(dir) || final(self).lists(dir) == old(
                self,
            ).lists(dir).remove(key_code(*key)),
            final(self).lists(if dir == 0 { 1u8 } else { 0u8 }) == old(self).lists(
                if dir == 0 { 1u8 } else { 0u8 },
            ),
            final(self).consume_chance() == old(self).consume_chance(),
            final(self).strength_level() == old(self).strength_level(),
            old(self).consume_chance() == 0 ==> final(self).lists(dir) == old(self).lists(dir),
            old(self).consume_chance() >= MILLION ==> final(self).lists(dir) == old(self).lists(
                dir,
            ).remove(key_code(*key)),
            final(self).draws().len() == old(self).draws().len() + 1,
            final(self).draws().drop_last() == old(self).draws(),
            final(self).lists(dir) == if spec_chance(final(self).draws().last(), old(self).consume_chance()) {
                old(self).lists(dir).remove(key_code(*key))
            } else {
                old(self).lists(dir)
            },
    {
        let code = code_of(key[0], key[1], key[2]);
        let r = self.draw();
        proof {
            crate::laws::law_chance_edges(r, self.consume);
        }
        let consume = chance(r, self.consume);
        let out = self.take_list(code, dir, consume);
        out
    }
}

/// No chain of `s` ever consumes the lists it reads.
pub open spec fn never_consumes(s: Seq<ChainCore>) -> bool {
    forall|j: int| 0 <= j < s.len() ==> #[trigger] s[j].consume_chance() == 0
}

/// Each chain of `a` whose chance of consuming is zero holds the same
/// lists in `b`, in both directions.
pub open spec fn kept_unless_consuming(a: Seq<ChainCore>, b: Seq<ChainCore>) -> bool {
    &&& a.len() == b.len()
    &&& forall|j: int|
        0 <= j < a.len() && (#[trigger] a[j]).consume_chance() == 0 ==> a[j].forward() == b[j].forward()
            && a[j].backward() == b[j].backward()
}

/// Keeping the lists of the chains that do not consume is transitive.
pub proof fn lemma_kept_trans(a: Seq<ChainCore>, b: Seq<ChainCore>, c: Seq<ChainCore>)
    requires
        kept_unless_consuming(a, b),
        kept_unless_consuming(b, c),
        forall|j: int| 0 <= j < b.len() ==> (#[trigger] b[j]).consume_chance() == a[j].consume_chance(),
    ensures
        kept_unless_consuming(a, c),
{
    assert forall|j: int| 0 <= j < a.len() && (#[trigger] a[j]).consume_chance() == 0 implies a[j].forward()
        == c[j].forward() && a[j].backward() == c[j].backward() by {
        assert(b[j].consume_chance() == 0);
    }
}

/// Chains that hold the same lists keep those of the chains that do not
/// consume.
pub proof fn lemma_kept_same(a: Seq<ChainCore>, b: Seq<ChainCore>)
    requires
        same_lists(a, b),
    ensures
        kept_unless_consuming(a, b),
{
}

/// The chains of `a` and `b` hold the same lists, in both directions.
pub open spec fn same_lists(a: Seq<ChainCore>, b: Seq<ChainCore>) -> bool {
    &&& a.len() == b.len()
    &&& forall|j: int|
        0 <= j < a.len() ==> (#[trigger] a[j]).forward() == b[j].forward() && a[j].backward()
            == b[j].backward()
}

/// The lists of `c` in the direction other than `dir`.
pub open spec fn other_lists(c: ChainCore, dir: u8) -> Map<u128, Seq<u32>> {
    c.lists(if dir == 0 { 1u8 } else { 0u8 })
}

/// `new` is `old`, or `old` without the list of `code`.
pub open spec fn same_or_dropped(old: Map<u128, Seq<u32>>, new: Map<u128, Seq<u32>>, code: u128) -> bool {
    new == old || new == old.remove(code)
}

/// Whether a chain whose own list holds `len` words hands the question to
/// its parent, whose list holds `num` words, on the draws `r1` and `r2`:
/// when the first, taken modulo `num`, exceeds the second, taken modulo the
/// bound that the chain's strength gives its own list (see
/// `spec_strength_bound`).
pub open spec fn spec_prefers_parent(r1: u32, r2: u32, num: nat, len: nat, strength: u32) -> bool {
    num > 0 && (r1 as int) % (num as int) > (r2 as int) % (spec_strength_bound(len, strength) as int)
}

/// Whether a chain hands the question to its parent (see
/// `spec_prefers_parent`).
pub fn prefers_parent(r1: u32, r2: u32, num: usize, len: usize, strength: u32) -> (b: bool)
    requires
        len > 0,
    ensures
        b == spec_prefers_parent(r1, r2, num as nat, len as nat, strength),
{
    if num == 0 {
        return false;
    }
    let bound = strength_bound(len, strength);
    (r1 as u64) % (num as u64) > (r2 as u64) % (bound as u64)
}

/// A chain with a list of at least one word weighs it with a bound of at
/// least one.
pub proof fn lemma_bound_positive(len: nat, s: u32)
    requires
        len > 0,
    ensures
        spec_strength_bound(len, s) > 0,
{
    assert(len * len * s >= s) by (nonlinear_arith)
        requires
            len >= 1,
    ;
    assert((len * len * s + MILLION - s) / (MILLION as int) >= 1) by (nonlinear_arith)
        requires
            len * len * s >= s,
            MILLION == 1_000_000,
    ;
}

/// The draws a chain made going from `a` to `b`.
pub open spec fn drawn_between(a: ChainCore, b: ChainCore) -> Seq<u32> {
    b.draws().skip(a.draws().len() as int)
}

/// The draws each chain of a line made going from `a` to `b`.
pub open spec fn draws_made(a: Seq<ChainCore>, b: Seq<ChainCore>) -> Seq<Seq<u32>> {
    Seq::new(a.len(), |j: int| drawn_between(a[j], b[j]))
}

/// The words the chain at `level` of the line `cores` answers for `code`
/// in direction `dir`, each chain `j` drawing `d[j]`: its own list, unless
/// it has none or its draws hand the question to its parent (see
/// `spec_prefers_parent`), whose answer it then gives.
pub open spec fn line_answer(cores: Seq<ChainCore>, level: int, code: u128, dir: u8, d: Seq<Seq<u32>>) -> Option<
    Seq<u32>,
>
    decreases cores.len() - level,
{
    if level < 0 || level >= cores.len() {
        None
    } else if cores[level].lists(dir).contains_key(code) {
        let own = cores[level].lists(dir)[code];
        if level + 1 < cores.len() && d[level].len() >= 3 && spec_prefers_parent(
            d[level][1],
            d[level][2],
            list_size(cores[level + 1].lists(dir), code),
            own.len(),
            cores[level].strength_level(),
        ) {
            line_answer(cores, level + 1, code, dir, d)
        } else {
            Some(own)
        }
    } else {
        line_answer(cores, level + 1, code, dir, d)
    }
}

/// How many draws the chain at `level` makes answering for `code`: one,
/// for whether it consumes, and two more when it has its own list and a
/// parent with a list to weigh against it.
pub open spec fn draws_needed(cores: Seq<ChainCore>, level: int, code: u128, dir: u8) -> nat {
    if cores[level].lists(dir).contains_key(code) && level + 1 < cores.len() && list_size(
        cores[level + 1].lists(dir),
        code,
    ) > 0 {
        3
    } else {
        1
    }
}

/// The answer from `level` on depends only on the chains and draws from
/// `level` on.
proof fn lemma_line_answer_from(
    a: Seq<ChainCore>,
    b: Seq<ChainCore>,
    level: int,
    code: u128,
    dir: u8,
    da: Seq<Seq<u32>>,
    db: Seq<Seq<u32>>,
)
    requires
        a.len() == b.len(),
        forall|j: int| level <= j < a.len() ==> #[trigger] a[j].lists(dir) == b[j].lists(dir) && a[j].strength_level()
            == b[j].strength_level() && da[j] == db[j],
    ensures
        line_answer(a, level, code, dir, da) == line_answer(b, level, code, dir, db),
    decreases a.len() - level,
{
    if 0 <= level < a.len() {
        lemma_line_answer_from(a, b, level + 1, code, dir, da, db);
        if level + 1 < a.len() {
            assert(a[level + 1].lists(dir) == b[level + 1].lists(dir));
        }
    }
}

/// The words recorded for `key` in direction `dir` by the chain at `level`
/// of a line of chains, where each chain's parent stands after it. A chain
/// that holds no list for the key asks its parent; one that holds a list
/// hands the question to its parent instead when a random draw weighs the
/// parent's list above its own, its strength making its own weigh more.
pub fn next_in_line(cores: &mut Vec<ChainCore>, level: usize, key: &Key, dir: u8) -> (r: Option<Vec<u32>>)
    requires
        level < old(cores)@.len(),
        forall|j: int| 0 <= j < old(cores)@.len() ==> #[trigger] old(cores)@[j].wf(),
    ensures
        final(cores)@.len() == old(cores)@.len(),
        forall|j: int| 0 <= j < level ==> #[trigger] final(cores)@[j] == old(cores)@[j],
        forall|j: int|
            #![trigger final(cores)@[j]]
            0 <= j < final(cores)@.len() ==> {
                &&& final(cores)@[j].wf()
                &&& same_or_dropped(old(cores)@[j].lists(dir), final(cores)@[j].lists(dir), key_code(*key))
                &&& other_lists(final(cores)@[j], dir) == other_lists(old(cores)@[j], dir)
                &&& final(cores)@[j].consume_chance() == old(cores)@[j].consume_chance()
                &&& final(cores)@[j].strength_level() == old(cores)@[j].strength_level()
            },
        never_consumes(old(cores)@) ==> same_lists(old(cores)@, final(cores)@),
        kept_unless_consuming(old(cores)@, final(cores)@),
        match r {
            Some(l) => exists|j: int|
                level <= j < old(cores)@.len() && old(cores)@[j].lists(dir).contains_key(key_code(*key))
                    && l@ == #[trigger] old(cores)@[j].lists(dir)[key_code(*key)],
            None => forall|j: int|
                level <= j < old(cores)@.len() ==> !(#[trigger] old(cores)@[j].lists(dir)).contains_key(
                    key_code(*key),
                ),
        },
        old(cores)@[level as int].lists(dir).contains_key(key_code(*key)) && (level + 1 == old(
            cores,
        )@.len() || list_size(old(cores)@[level + 1].lists(dir), key_code(*key)) <= 1) ==> (r matches Some(
            l,
        ) && l@ == old(cores)@[level as int].lists(dir)[key_code(*key)]),
        match r {
            Some(l) => line_answer(old(cores)@, level as int, key_code(*key), dir, draws_made(old(cores)@, final(cores)@))
                == Some(l@),
            None => line_answer(old(cores)@, level as int, key_code(*key), dir, draws_made(old(cores)@, final(cores)@))
                is None,
        },
        drawn_between(old(cores)@[level as int], final(cores)@[level as int]).len() == draws_needed(
            old(cores)@,
            level as int,
            key_code(*key),
            dir,
        ),
        final(cores)@[level as int].lists(dir) == if spec_chance(
            drawn_between(old(cores)@[level as int], final(cores)@[level as int])[0],
            old(cores)@[level as int].consume_chance(),
        ) {
            old(cores)@[level as int].lists(dir).remove(key_code(*key))
        } else {
            old(cores)@[level as int].lists(dir)
        },
    decreases old(cores)@.len() - level,
{
    let code = code_of(key[0], key[1], key[2]);
    let ghost old_cores = cores@;
    let mut core = cores.remove(level);
    assert(core == old_cores[level as int]);
    assert(old_cores[level as int].wf());
    let r0 = core.draw();
    proof {
        crate::laws::law_chance_edges(r0, core.consume);
    }
    let consume = chance(r0, core.consume);
    let own = core.take_list(code, dir, consume);
    cores.insert(level, core);
    assert(cores@ =~= old_cores.update(level as int, core));
    let ghost mid = cores@;
    assert forall|j: int| 0 <= j < mid.len() implies #[trigger] mid[j].wf() by {
        if j != level {
            assert(mid[j] == old_cores[j]);
            assert(old_cores[j].wf());
        }
    }
    match own {
        Some(list) => {
            proof {
                assert(old_cores[level as int].lists(dir).contains_key(code));
                assert(list@ == old_cores[level as int].lists(dir)[code]);
            }
            if level < cores.len() - 1 {
                let num = cores[level + 1].list_len(code, dir);
                if num > 0 {
                    let mut core = cores.remove(level);
                    let r1 = core.draw();
                    let r2 = core.draw();
                    assert(list@.len() > 0);
                    let strength = core.strength;
                    cores.insert(level, core);
                    assert(cores@ =~= mid.update(level as int, core));
                    let ghost mid2 = cores@;
                    assert forall|j: int| 0 <= j < mid2.len() implies #[trigger] mid2[j].wf() by {
                        if j != level {
                            assert(mid2[j] == mid[j]);
                        }
                    }
                    if prefers_parent(r1, r2, num, list.len(), strength) {
                        let r = next_in_line(cores, level + 1, key, dir);
                        proof {
                            let d = draws_made(old_cores, cores@);
                            lemma_bound_positive(list@.len(), strength);
                            assert(num > 1) by {
                                let bd = spec_strength_bound(list@.len(), strength) as int;
                                if num == 1 {
                                    assert(false) by (nonlinear_arith)
                                        requires
                                            num == 1,
                                            bd > 0,
                                            (r1 as int) % (num as int) > (r2 as int) % bd,
                                    ;
                                }
                            }
                            assert(drawn_between(old_cores[level as int], cores@[level as int]) =~= seq![r0, r1, r2]);
                            assert(d[level as int] == drawn_between(old_cores[level as int], cores@[level as int]));
                            lemma_line_answer_from(old_cores, mid2, level + 1, code, dir, d, draws_made(mid2, cores@));
                        }
                        proof {
                            assert forall|j: int|
                                #![trigger cores@[j]]
                                0 <= j < cores@.len() implies same_or_dropped(
                                old_cores[j].lists(dir),
                                cores@[j].lists(dir),
                                code,
                            ) by {
                                if j != level {
                                    assert(mid2[j] == old_cores[j]);
                                } else {
                                    assert(cores@[j] == mid2[j]);
                                    assert(old_cores[j].lists(dir).remove(code).remove(code)
                                        =~= old_cores[j].lists(dir).remove(code));
                                }
                            }
                            match &r {
                                Some(l) => {
                                    let j = choose|j: int|
                                        level + 1 <= j < mid2.len() && mid2[j].lists(dir).contains_key(key_code(*key))
                                            && l@ == #[trigger] mid2[j].lists(dir)[key_code(*key)];
                                    assert(mid2[j] == old_cores[j]);
                                    assert(l@ == old_cores[j].lists(dir)[key_code(*key)]);
                                    assert(old_cores[j].lists(dir).contains_key(key_code(*key)));
                                    assert(level <= j < old_cores.len());
                                },
                                None => {
                                    assert(mid2[level + 1] == mid[level + 1]);
                                    assert(mid2[level + 1].lists(dir).contains_key(key_code(*key)));
                                },
                            }
                        }
                        return r;
                    }
                    proof {
                        assert(drawn_between(old_cores[level as int], cores@[level as int]) =~= seq![r0, r1, r2]);
                    }
                } else {
                    proof {
                        assert(drawn_between(old_cores[level as int], cores@[level as int]) =~= seq![r0]);
                    }
                }
            } else {
                proof {
                    assert(drawn_between(old_cores[level as int], cores@[level as int]) =~= seq![r0]);
                }
            }
            proof {
                let d = draws_made(old_cores, cores@);
                assert(d[level as int] == drawn_between(old_cores[level as int], cores@[level as int]));
                assert(old_cores[level as int].lists(dir).contains_key(code));
                assert(line_answer(old_cores, level as int, code, dir, d) == Some(list@));
                assert(code == key_code(*key));
                assert(line_answer(old_cores, level as int, key_code(*key), dir, d) == Some(list@));
            }
            assert(list@ == old_cores[level as int].lists(dir)[key_code(*key)]);
            Some(list)
        },
        None => {
            if level < cores.len() - 1 {
                let r = next_in_line(cores, level + 1, key, dir);
                proof {
                    let d = draws_made(old_cores, cores@);
                    assert(drawn_between(old_cores[level as int], cores@[level as int]) =~= seq![r0]);
                    assert(d[level as int] == drawn_between(old_cores[level as int], cores@[level as int]));
                    lemma_line_answer_from(old_cores, mid, level + 1, code, dir, d, draws_made(mid, cores@));
                    assert(code == key_code(*key));
                }
                proof {
                    assert forall|j: int|
                        #![trigger cores@[j]]
                        0 <= j < cores@.len() implies same_or_dropped(
                        old_cores[j].lists(dir),
                        cores@[j].lists(dir),
                        code,
                    ) by {
                        if j != level {
                            assert(mid[j] == old_cores[j]);
                        } else {
                            assert(old_cores[j].lists(dir).remove(code) =~= old_cores[j].lists(dir));
                        }
                    }
                    match &r {
                        Some(l) => {
                            let j = choose|j: int|
                                level + 1 <= j < mid.len() && mid[j].lists(dir).contains_key(code)
                                    && l@ == #[trigger] mid[j].lists(dir)[code];
                            assert(mid[j] == old_cores[j]);
                            assert(l@ == old_cores[j].lists(dir)[key_code(*key)]);
                        },
                        None => {
                            assert forall|j: int| level <= j < old_cores.len() implies !(
                            #[trigger] old_cores[j].lists(dir)).contains_key(code) by {
                                if j > level {
                                    assert(mid[j] == old_cores[j]);
                                }
                            }
                        },
                    }
                }
                r
            } else {
                proof {
                    assert(drawn_between(old_cores[level as int], cores@[level as int]) =~= seq![r0]);
                    assert(code == key_code(*key));
                }
                None
            }
        },
    }
}

/// The number of words in the list of `code`, 0 when there is none.
pub open spec fn list_size(m: Map<u128, Seq<u32>>, code: u128) -> nat {
    if m.contains_key(code) {
        m[code].len()
    } else {
        0
    }
}

/// The code of a key given as a sequence of three ids.
pub open spec fn seq_code(k: Seq<u32>) -> u128 {
    code3(k[0], k[1], k[2])
}

/// A key that holds no `END` mark.
pub open spec fn usable(k: Seq<u32>) -> bool {
    k[0] != END && k[1] != END && k[2] != END
}

/// Word `j` of `input`, `END` before its start.
pub open spec fn word_at(input: Seq<u32>, j: int) -> u32 {
    if j < 0 {
        END
    } else {
        input[j]
    }
}

/// The `t`-th key that ends at word `i` of `input`: the word alone, the
/// two words ending there, and the three words ending there.
pub open spec fn candidate(input: Seq<u32>, i: int, t: int) -> Seq<u32> {
    if t == 0 {
        seq![word_at(input, i), NONE, NONE]
    } else if t == 1 {
        seq![word_at(input, i - 1), word_at(input, i), NONE]
    } else {
        seq![word_at(input, i - 2), word_at(input, i - 1), word_at(input, i)]
    }
}

/// The key that starts a reply to `input`: its first (up to) three words.
pub open spec fn opening_key(input: Seq<u32>) -> Seq<u32> {
    seq![
        input[0],
        if input.len() > 1 { input[1] } else { NONE },
        if input.len() > 2 { input[2] } else { NONE },
    ]
}

/// The best key after the first `n` candidates have been weighed, with
/// the size of its list: a usable candidate replaces the best one when it
/// has a list, and the best one has none or a longer one.
pub open spec fn best_after(m: Map<u128, Seq<u32>>, input: Seq<u32>, n: int) -> (Seq<u32>, nat)
    decreases n,
{
    if n <= 0 {
        (opening_key(input), list_size(m, seq_code(opening_key(input))))
    } else {
        let prev = best_after(m, input, n - 1);
        let c = candidate(input, (n - 1) / 3, (n - 1) % 3);
        let size = list_size(m, seq_code(c));
        if usable(c) && size > 0 && (prev.1 == 0 || size < prev.1) {
            (c, size)
        } else {
            prev
        }
    }
}

/// The `k`-th key weighed when choosing where a reply starts: the key of
/// one, two, then three words ending at word `k / 3` of `input`.
pub open spec fn weighed(input: Seq<u32>, k: int) -> Seq<u32> {
    candidate(input, k / 3, k % 3)
}

/// The number of forward words of the `k`-th key weighed.
pub open spec fn weighed_size(m: Map<u128, Seq<u32>>, input: Seq<u32>, k: int) -> nat {
    list_size(m, seq_code(weighed(input, k)))
}

/// The `k`-th key weighed holds no `END` mark and has forward words.
pub open spec fn weighed_fits(m: Map<u128, Seq<u32>>, input: Seq<u32>, k: int) -> bool {
    usable(weighed(input, k)) && weighed_size(m, input, k) > 0
}

/// What the key a reply starts from is, after the first `n` keys are
/// weighed: either the opening words, when no fitting key has fewer
/// forward words than they have (or they have none and no key fits), or
/// the earliest fitting key with the fewest forward words, which has fewer
/// than the opening words (or they have none). The index returned is that
/// key's, or -1 for the opening words.
pub proof fn law_best_key_smallest(m: Map<u128, Seq<u32>>, input: Seq<u32>, n: int) -> (k0: int)
    requires
        0 <= n,
    ensures
        ({
            let r = best_after(m, input, n);
            let s0 = list_size(m, seq_code(opening_key(input)));
            &&& k0 == -1 ==> r.0 == opening_key(input) && r.1 == s0 && forall|k: int|
                0 <= k < n && #[trigger] weighed_fits(m, input, k) ==> s0 > 0 && weighed_size(m, input, k) >= s0
            &&& k0 != -1 ==> {
                &&& 0 <= k0 < n
                &&& r.0 == weighed(input, k0)
                &&& weighed_fits(m, input, k0)
                &&& r.1 == weighed_size(m, input, k0)
                &&& s0 == 0 || r.1 < s0
                &&& forall|k: int| 0 <= k < n && #[trigger] weighed_fits(m, input, k) ==> weighed_size(m, input, k) >= r.1
                &&& forall|k: int| 0 <= k < k0 && #[trigger] weighed_fits(m, input, k) ==> weighed_size(m, input, k) > r.1
            }
        }),
    decreases n,
{
    if n == 0 {
        -1
    } else {
        let p = law_best_key_smallest(m, input, n - 1);
        let prev = best_after(m, input, n - 1);
        let c = candidate(input, (n - 1) / 3, (n - 1) % 3);
        let size = list_size(m, seq_code(c));
        assert(weighed(input, n - 1) == c);
        if usable(c) && size > 0 && (prev.1 == 0 || size < prev.1) {
            n - 1
        } else {
            p
        }
    }
}

impl ChainCore {
    /// The key to start a reply from: among the one-, two- and three-word
    /// keys that end at each word of `input` (read in order, without `END`
    /// marks), the first with the fewest forward words; the opening words
    /// of `input` unless one of them has a shorter, non-empty list.
    pub fn choose_best(&self, input: &[u32]) -> (r: Key)
        requires
            input@.len() > 0,
        ensures
            r@ == best_after(self.forward(), input@, 3 * input@.len() as int).0,
    {
        let b1 = if input.len() > 1 { input[1] } else { NONE };
        let b2 = if input.len() > 2 { input[2] } else { NONE };
        let mut best: Key = [input[0], b1, b2];
        assert(best@ =~= opening_key(input@));
        let mut best_size = self.list_len(code_of(best[0], best[1], best[2]), 1);
        let mut w1: u32 = END;
        let mut w2: u32 = END;
        let mut i: usize = 0;
        while i < input.len()
            invariant
                0 <= i <= input@.len(),
                w1 == word_at(input@, i - 2),
                w2 == word_at(input@, i - 1),
                (best@, best_size as nat) == best_after(self.forward(), input@, 3 * i as int),
            decreases input@.len() - i,
        {
            let word = input[i];
            let mut t: usize = 0;
            while t < 3
                invariant
                    0 <= i < input@.len(),
                    t <= 3,
                    word == input@[i as int],
                    w1 == word_at(input@, i - 2),
                    w2 == word_at(input@, i - 1),
                    (best@, best_size as nat) == best_after(self.forward(), input@, 3 * i as int + t as int),
                decreases 3 - t,
            {
                let key: Key = if t == 0 {
                    [word, NONE, NONE]
                } else if t == 1 {
                    [w2, word, NONE]
                } else {
                    [w1, w2, word]
                };
                assert(key@ =~= candidate(input@, i as int, t as int));
                assert((3 * i + t) / 3 == i && (3 * i + t) % 3 == t);
                if key[0] != END && key[1] != END && key[2] != END {
                    let size = self.list_len(code_of(key[0], key[1], key[2]), 1);
                    if size > 0 && (best_size == 0 || size < best_size) {
                        best = key;
                        best_size = size;
                    }
                }
                t = t + 1;
            }
            w1 = w2;
            w2 = word;
            i = i + 1;
        }
        best
    }
}

/// The number of words in all the lists of `m`.
pub open spec fn map_mass(m: Map<u128, Seq<u32>>) -> nat
    decreases m.dom().len(),
{
    if m.dom().finite() && m.dom().len() > 0 {
        let k = m.dom().choose();
        m[k].len() + map_mass(m.remove(k))
    } else {
        0
    }
}

/// Taking one list out of a map takes its words out of the map's mass.
pub proof fn lemma_mass_remove(m: Map<u128, Seq<u32>>, k: u128)
    requires
        m.dom().finite(),
        m.contains_key(k),
    ensures
        map_mass(m) == m[k].len() + map_mass(m.remove(k)),
    decreases m.dom().len(),
{
    let c = m.dom().choose();
    if c != k {
        lemma_mass_remove(m.remove(c), k);
        lemma_mass_remove(m.remove(k), c);
        assert(m.remove(c).remove(k) =~= m.remove(k).remove(c));
    } else {
        assert(m.remove(c) =~= m.remove(k));
    }
}

/// The number of words that the chains of `s` hold in direction `dir`
/// under keys outside `cached`.
pub open spec fn stack_mass(s: Seq<ChainCore>, dir: u8, cached: Set<u128>) -> nat
    decreases s.len(),
{
    if s.len() == 0 {
        0
    } else {
        map_mass(s.last().lists(dir).remove_keys(cached)) + stack_mass(s.drop_last(), dir, cached)
    }
}

/// The number of words that the chains of `s` hold in direction `dir`
/// under the key `code`.
pub open spec fn stack_size(s: Seq<ChainCore>, dir: u8, code: u128) -> nat
    decreases s.len(),
{
    if s.len() == 0 {
        0
    } else {
        list_size(s.last().lists(dir), code) + stack_size(s.drop_last(), dir, code)
    }
}

proof fn lemma_stack_size_ge(s: Seq<ChainCore>, dir: u8, code: u128, j: int)
    requires
        0 <= j < s.len(),
    ensures
        list_size(s[j].lists(dir), code) <= stack_size(s, dir, code),
    decreases s.len(),
{
    if j < s.len() - 1 {
        lemma_stack_size_ge(s.drop_last(), dir, code, j);
        assert(s.drop_last()[j] == s[j]);
    }
}

proof fn lemma_stack_mass_ext(a: Seq<ChainCore>, b: Seq<ChainCore>, dir: u8, cached: Set<u128>)
    requires
        a.len() == b.len(),
        forall|j: int|
            0 <= j < a.len() ==> (#[trigger] a[j]).lists(dir).remove_keys(cached) == b[j].lists(
                dir,
            ).remove_keys(cached),
    ensures
        stack_mass(a, dir, cached) == stack_mass(b, dir, cached),
    decreases a.len(),
{
    if a.len() > 0 {
        assert(a.last() == a[a.len() - 1]);
        assert forall|j: int| 0 <= j < a.drop_last().len() implies (
        #[trigger] a.drop_last()[j]).lists(dir).remove_keys(cached) == b.drop_last()[j].lists(
            dir,
        ).remove_keys(cached) by {
            assert(a.drop_last()[j] == a[j]);
            assert(b.drop_last()[j] == b[j]);
        }
        lemma_stack_mass_ext(a.drop_last(), b.drop_last(), dir, cached);
    }
}

proof fn lemma_mass_uncache(m: Map<u128, Seq<u32>>, cached: Set<u128>, k: u128)
    requires
        m.dom().finite(),
        !cached.contains(k),
    ensures
        map_mass(m.remove_keys(cached)) == list_size(m, k) + map_mass(m.remove_keys(cached.insert(k))),
{
    let r = m.remove_keys(cached);
    assert(r.dom() =~= m.dom().difference(cached));
    assert(m.remove_keys(cached.insert(k)) =~= r.remove(k));
    if m.contains_key(k) {
        lemma_mass_remove(r, k);
    } else {
        assert(r.remove(k) =~= r);
    }
}

/// Caching one more key takes its words out of the stack's mass.
proof fn lemma_stack_uncache(s: Seq<ChainCore>, dir: u8, cached: Set<u128>, k: u128)
    requires
        !cached.contains(k),
        forall|j: int| 0 <= j < s.len() ==> (#[trigger] s[j]).wf(),
    ensures
        stack_mass(s, dir, cached) == stack_size(s, dir, k) + stack_mass(s, dir, cached.insert(k)),
    decreases s.len(),
{
    if s.len() > 0 {
        assert(s.last() == s[s.len() - 1]);
        assert(s.last().wf());
        lemma_mass_uncache(s.last().lists(dir), cached, k);
        assert forall|j: int| 0 <= j < s.drop_last().len() implies (#[trigger] s.drop_last()[j]).wf() by {
            assert(s.drop_last()[j] == s[j]);
        }
        lemma_stack_uncache(s.drop_last(), dir, cached, k);
    }
}

/// Some list of `m` holds the word `w`.
pub open spec fn in_lists(m: Map<u128, Seq<u32>>, w: u32) -> bool {
    exists|c: u128, i: int| m.contains_key(c) && 0 <= i < m[c].len() && #[trigger] m[c][i] == w
}

/// Some chain of `s` holds the word `w` in one of its lists.
pub open spec fn held(s: Seq<ChainCore>, w: u32) -> bool {
    exists|j: int|
        0 <= j < s.len() && (in_lists(#[trigger] s[j].lists(0u8), w) || in_lists(s[j].lists(1u8), w))
}

/// `cur` holds only lists of `orig`, unchanged: lists can only have gone.
pub open spec fn only_removed(orig: Map<u128, Seq<u32>>, cur: Map<u128, Seq<u32>>) -> bool {
    forall|c: u128| #[trigger] cur.contains_key(c) ==> orig.contains_key(c) && cur[c] == orig[c]
}

/// The words of a key, without `END` and `NONE` marks, in order.
pub open spec fn seed_of(best: Seq<u32>) -> Seq<u32> {
    (if best[0] < END { seq![best[0]] } else { Seq::<u32>::empty() }) + (if best[1] < END {
        seq![best[1]]
    } else {
        Seq::<u32>::empty()
    }) + (if best[2] < END { seq![best[2]] } else { Seq::<u32>::empty() })
}

/// A sentence grown around `seed`: the seed stands at `front`, and every
/// other word is no `END` mark and is held by some chain of `s`.
pub open spec fn grown_from(r: Seq<u32>, seed: Seq<u32>, front: int, s: Seq<ChainCore>) -> bool {
    &&& 0 <= front
    &&& front + seed.len() <= r.len()
    &&& r.subrange(front, front + seed.len()) == seed
    &&& forall|i: int|
        0 <= i < r.len() && !(front <= i < front + seed.len()) ==> #[trigger] r[i] != END && held(
            s,
            r[i],
        )
}

/// Some chain of `s` lists `w` among the words of `code` in direction `dir`.
pub open spec fn listed(s: Seq<ChainCore>, dir: u8, code: u128, w: u32) -> bool {
    exists|j: int, i: int|
        0 <= j < s.len() && s[j].lists(dir).contains_key(code) && 0 <= i < s[j].lists(dir)[code].len()
            && #[trigger] s[j].lists(dir)[code][i] == w
}

/// Some chain of `s` lists `w` in direction `dir` under the key of the
/// word `c` alone, of `b` and `c`, or of `a`, `b` and `c`, `c` being the
/// word nearest to `w`.
pub open spec fn listed_by(s: Seq<ChainCore>, dir: u8, a: u32, b: u32, c: u32, w: u32) -> bool {
    ||| listed(s, dir, code3(c, NONE, NONE), w)
    ||| listed(s, dir, code3(b, c, NONE), w)
    ||| listed(s, dir, code3(a, b, c), w)
}

/// The word at `k` of `r`, or `END` before its start.
pub open spec fn word_or_end_before(r: Seq<u32>, k: int) -> u32 {
    if k >= 0 {
        r[k]
    } else {
        END
    }
}

/// The word at `k` of `r`, or `END` from `hi` on.
pub open spec fn word_or_end_from(r: Seq<u32>, k: int, hi: int) -> u32 {
    if k < hi {
        r[k]
    } else {
        END
    }
}

/// The word at `i` of `r`, grown backwards from a seed that ends at `hi`,
/// is listed by a chain of `s` before the up to three words after it.
pub open spec fn linked_back(r: Seq<u32>, i: int, hi: int, s: Seq<ChainCore>) -> bool {
    listed_by(s, 0u8, word_or_end_from(r, i + 3, hi), word_or_end_from(r, i + 2, hi), r[i + 1], r[i])
}

/// The word at `i` of `r`, grown forwards, is listed by a chain of `s`
/// after the up to three words before it.
pub open spec fn linked_forth(r: Seq<u32>, i: int, s: Seq<ChainCore>) -> bool {
    listed_by(s, 1u8, word_or_end_before(r, i - 3), word_or_end_before(r, i - 2), r[i - 1], r[i])
}

/// Each word of `r` before `front` was grown backwards, and each from `hi`
/// on forwards, from the words next to it (see `linked_back` and
/// `linked_forth`).
pub open spec fn grown_along(r: Seq<u32>, front: int, hi: int, s: Seq<ChainCore>) -> bool {
    &&& forall|i: int| 0 <= i < front ==> #[trigger] linked_back(r, i, hi, s)
    &&& forall|i: int| hi <= i < r.len() ==> #[trigger] linked_forth(r, i, s)
}

/// A word grown before a sentence that grew only backwards so far keeps
/// it grown along its neighbours.
proof fn lemma_along_front(s0: Seq<u32>, w: u32, front: int, hi: int, orig: Seq<ChainCore>, lw: u32, lw2: u32)
    requires
        grown_along(s0, front, hi, orig),
        s0.len() == hi,
        0 <= front < hi,
        lw == word_or_end_from(s0, 1, hi),
        lw2 == word_or_end_from(s0, 2, hi),
        listed_by(orig, 0u8, lw2, lw, s0[0], w),
    ensures
        grown_along(seq![w] + s0, front + 1, hi + 1, orig),
        word_or_end_from(seq![w] + s0, 1, hi + 1) == s0[0],
        word_or_end_from(seq![w] + s0, 2, hi + 1) == lw,
{
    let r = seq![w] + s0;
    assert forall|i: int| 0 <= i < front + 1 implies #[trigger] linked_back(r, i, hi + 1, orig) by {
        if i == 0 {
            assert(r[1] == s0[0] && r[0] == w);
            assert(word_or_end_from(r, 2, hi + 1) == lw);
            assert(word_or_end_from(r, 3, hi + 1) == lw2);
        } else {
            assert(linked_back(s0, i - 1, hi, orig));
            assert(r[i + 1] == s0[i] && r[i] == s0[i - 1]);
            assert(word_or_end_from(r, i + 2, hi + 1) == word_or_end_from(s0, i + 1, hi));
            assert(word_or_end_from(r, i + 3, hi + 1) == word_or_end_from(s0, i + 2, hi));
        }
    }
}

/// A word grown after a sentence keeps it grown along its neighbours.
proof fn lemma_along_back(s0: Seq<u32>, w: u32, front: int, hi: int, orig: Seq<ChainCore>, lw: u32, lw2: u32)
    requires
        grown_along(s0, front, hi, orig),
        0 <= front < hi <= s0.len(),
        lw == word_or_end_before(s0, s0.len() - 2),
        lw2 == word_or_end_before(s0, s0.len() - 3),
        listed_by(orig, 1u8, lw2, lw, s0[s0.len() - 1], w),
    ensures
        grown_along(s0.push(w), front, hi, orig),
        word_or_end_before(s0.push(w), s0.push(w).len() - 2) == s0[s0.len() - 1],
        word_or_end_before(s0.push(w), s0.push(w).len() - 3) == lw,
{
    let r = s0.push(w);
    assert forall|i: int| 0 <= i < front implies #[trigger] linked_back(r, i, hi, orig) by {
        assert(linked_back(s0, i, hi, orig));
        assert(r[i] == s0[i] && r[i + 1] == s0[i + 1]);
        assert(word_or_end_from(r, i + 2, hi) == word_or_end_from(s0, i + 2, hi));
        assert(word_or_end_from(r, i + 3, hi) == word_or_end_from(s0, i + 3, hi));
    }
    assert forall|i: int| hi <= i < r.len() implies #[trigger] linked_forth(r, i, orig) by {
        if i == s0.len() {
            assert(r[i - 1] == s0[s0.len() - 1] && r[i] == w);
            assert(word_or_end_before(r, i - 2) == lw);
            assert(word_or_end_before(r, i - 3) == lw2);
        } else {
            assert(linked_forth(s0, i, orig));
            assert(r[i] == s0[i] && r[i - 1] == s0[i - 1]);
            assert(word_or_end_before(r, i - 2) == word_or_end_before(s0, i - 2));
            assert(word_or_end_before(r, i - 3) == word_or_end_before(s0, i - 3));
        }
    }
}

/// No chain of `b` holds a key that the same chain of `a` did not hold, in
/// either direction: lists may only have gone.
pub open spec fn no_new_keys(a: Seq<ChainCore>, b: Seq<ChainCore>) -> bool {
    &&& a.len() == b.len()
    &&& forall|j: int|
        0 <= j < b.len() ==> (#[trigger] b[j]).lists(0u8).dom().subset_of(a[j].lists(0u8).dom())
            && b[j].lists(1u8).dom().subset_of(a[j].lists(1u8).dom())
}

/// No chain of `s` holds a list for `code` in direction `dir`.
pub open spec fn absent(s: Seq<ChainCore>, dir: u8, code: u128) -> bool {
    forall|j: int| 0 <= j < s.len() ==> !(#[trigger] s[j]).lists(dir).contains_key(code)
}

/// Chain `j` of `orig` holds the list `l` for `code` in direction `dir`.
pub open spec fn from_chain(orig: Seq<ChainCore>, j: int, dir: u8, code: u128, l: Seq<u32>) -> bool {
    0 <= j < orig.len() && orig[j].lists(dir).contains_key(code) && orig[j].lists(dir)[code] == l
}

/// Chain `j` of `orig` holds a list for `code` in direction `dir`, and
/// every word of it stands in `side`.
pub open spec fn spent(orig: Seq<ChainCore>, j: int, dir: u8, code: u128, side: Seq<u32>) -> bool {
    &&& 0 <= j < orig.len()
    &&& orig[j].lists(dir).contains_key(code)
    &&& forall|i: int|
        0 <= i < orig[j].lists(dir)[code].len() ==> side.contains(#[trigger] orig[j].lists(dir)[code][i])
}

/// Nothing more can be drawn for `code` in direction `dir`: no chain of
/// `fin` holds a list for it, or the words of a chain's list for it all
/// stand in `side`, the words already grown on that side.
pub open spec fn exhausted(orig: Seq<ChainCore>, fin: Seq<ChainCore>, dir: u8, code: u128, side: Seq<u32>) -> bool {
    absent(fin, dir, code) || exists|j: int| #[trigger] spent(orig, j, dir, code, side)
}

/// Why growth in direction `dir` stopped, at an end whose nearest words
/// are `c`, then `b`, then `a`, the sentence holding `len` words and the
/// words grown on that side being `side`: a chain lists `END` there, the
/// strict limit was reached (half of `ideal` backwards, all of it
/// forwards), or nothing more could be drawn for the two words `b c`, and
/// then the sentence was already longer than `ideal` (where growth may
/// stop by chance) or nothing more could be drawn for `c` alone.
pub open spec fn stopped(
    orig: Seq<ChainCore>,
    fin: Seq<ChainCore>,
    dir: u8,
    a: u32,
    b: u32,
    c: u32,
    len: int,
    ideal: usize,
    strict: bool,
    side: Seq<u32>,
) -> bool {
    ||| listed_by(orig, dir, a, b, c, END)
    ||| strict && ideal > 0 && len >= ideal / ((2 - dir) as usize)
    ||| exhausted(orig, fin, dir, code3(b, c, NONE), side) && (ideal < len || exhausted(
        orig,
        fin,
        dir,
        code3(c, NONE, NONE),
        side,
    ))
}

/// The growth of `r` backwards, from the seed that ends at `hi`, stopped
/// (see `stopped`).
pub open spec fn front_stopped(
    r: Seq<u32>,
    front: int,
    hi: int,
    orig: Seq<ChainCore>,
    fin: Seq<ChainCore>,
    ideal: usize,
    strict: bool,
) -> bool {
    stopped(
        orig,
        fin,
        0u8,
        word_or_end_from(r, 2, hi),
        word_or_end_from(r, 1, hi),
        r[0],
        hi,
        ideal,
        strict,
        r.subrange(0, front),
    )
}

/// The growth of `r` forwards, after the seed that ends at `hi`, stopped
/// (see `stopped`).
pub open spec fn back_stopped(r: Seq<u32>, hi: int, orig: Seq<ChainCore>, fin: Seq<ChainCore>, ideal: usize, strict: bool) -> bool {
    stopped(
        orig,
        fin,
        1u8,
        word_or_end_before(r, r.len() - 3),
        word_or_end_before(r, r.len() - 2),
        r[r.len() - 1],
        r.len() as int,
        ideal,
        strict,
        r.subrange(hi, r.len() as int),
    )
}

/// `r` is a sentence grown from the words of `best` by the chains `orig`
/// (which end up as `fin`): the seed stands in it, every other word was
/// grown along its neighbours and drawn in context (see
/// `grown_in_context`), and the growth stopped at each end for one of the
/// reasons of `stopped`.
pub open spec fn generated(
    r: Seq<u32>,
    best: Seq<u32>,
    ideal: usize,
    strict: bool,
    orig: Seq<ChainCore>,
    fin: Seq<ChainCore>,
) -> bool {
    exists|front: int|
        #![trigger grown_along(r, front, front + seed_of(best).len(), orig)]
        {
            &&& grown_from(r, seed_of(best), front, orig)
            &&& grown_along(r, front, front + seed_of(best).len(), orig)
            &&& grown_in_context(r, front, front + seed_of(best).len(), orig, fin)
            &&& front_stopped(r, front, front + seed_of(best).len(), orig, fin, ideal, strict)
            &&& back_stopped(r, front + seed_of(best).len(), orig, fin, ideal, strict)
        }
}

/// The words grown so far in direction `dir` of a sentence `s` whose seed
/// stands from `front` to `hi`.
pub open spec fn grown_side(s: Seq<u32>, front: int, hi: int, dir: u8) -> Seq<u32> {
    if dir == 0 {
        s.subrange(0, front)
    } else {
        s.subrange(hi, s.len() as int)
    }
}

/// What the search in direction `dir` knows of its cache `wt`: each cached
/// list came from a chain of `orig` (`src`), and each of its words is
/// still cached or stands in `side`; each key in `tried` is cached or held
/// by no chain of `cores`.
pub open spec fn cache_tracked(
    wt: Map<u128, Seq<u32>>,
    src: Map<u128, Seq<u32>>,
    tried: Set<u128>,
    cores: Seq<ChainCore>,
    orig: Seq<ChainCore>,
    dir: u8,
    side: Seq<u32>,
) -> bool {
    &&& forall|c: u128|
        #[trigger] wt.contains_key(c) ==> src.contains_key(c) && exists|j: int| #[trigger] from_chain(orig, j, dir, c, src[c])
    &&& forall|c: u128, i: int|
        wt.contains_key(c) && 0 <= i < src[c].len() ==> wt[c].contains(#[trigger] src[c][i]) || side.contains(src[c][i])
    &&& forall|c: u128| #[trigger] tried.contains(c) ==> wt.contains_key(c) || absent(cores, dir, c)
}

proof fn lemma_nnk_refl(a: Seq<ChainCore>)
    ensures
        no_new_keys(a, a),
{
}

proof fn lemma_nnk_trans(a: Seq<ChainCore>, b: Seq<ChainCore>, c: Seq<ChainCore>)
    requires
        no_new_keys(a, b),
        no_new_keys(b, c),
    ensures
        no_new_keys(a, c),
{
    assert forall|j: int| 0 <= j < c.len() implies (#[trigger] c[j]).lists(0u8).dom().subset_of(a[j].lists(0u8).dom())
        && c[j].lists(1u8).dom().subset_of(a[j].lists(1u8).dom()) by {
        assert(b[j].lists(0u8).dom().subset_of(a[j].lists(0u8).dom()));
    }
}

proof fn lemma_nnk_same(a: Seq<ChainCore>, b: Seq<ChainCore>)
    requires
        same_lists(a, b),
    ensures
        no_new_keys(a, b),
{
    assert forall|j: int| 0 <= j < b.len() implies (#[trigger] b[j]).lists(0u8).dom().subset_of(a[j].lists(0u8).dom())
        && b[j].lists(1u8).dom().subset_of(a[j].lists(1u8).dom()) by {
        assert(a[j].forward() == b[j].forward() && a[j].backward() == b[j].backward());
    }
}

proof fn lemma_absent_keep(a: Seq<ChainCore>, b: Seq<ChainCore>, dir: u8, code: u128)
    requires
        dir <= 1,
        no_new_keys(a, b),
        absent(a, dir, code),
    ensures
        absent(b, dir, code),
{
    assert forall|j: int| 0 <= j < b.len() implies !(#[trigger] b[j]).lists(dir).contains_key(code) by {
        assert(!a[j].lists(dir).contains_key(code));
        if dir == 0 {
            assert(b[j].lists(0u8).dom().subset_of(a[j].lists(0u8).dom()));
        } else {
            assert(dir == 1u8);
            assert(b[j].lists(1u8).dom().subset_of(a[j].lists(1u8).dom()));
        }
    }
}

proof fn lemma_stopped_keep(
    orig: Seq<ChainCore>,
    f1: Seq<ChainCore>,
    f2: Seq<ChainCore>,
    dir: u8,
    a: u32,
    b: u32,
    c: u32,
    len: int,
    ideal: usize,
    strict: bool,
    side: Seq<u32>,
)
    requires
        dir <= 1,
        no_new_keys(f1, f2),
        stopped(orig, f1, dir, a, b, c, len, ideal, strict, side),
    ensures
        stopped(orig, f2, dir, a, b, c, len, ideal, strict, side),
{
    if absent(f1, dir, code3(b, c, NONE)) {
        lemma_absent_keep(f1, f2, dir, code3(b, c, NONE));
    }
    if absent(f1, dir, code3(c, NONE, NONE)) {
        lemma_absent_keep(f1, f2, dir, code3(c, NONE, NONE));
    }
}

proof fn lemma_tracked_cores(
    wt: Map<u128, Seq<u32>>,
    src: Map<u128, Seq<u32>>,
    tried: Set<u128>,
    a: Seq<ChainCore>,
    b: Seq<ChainCore>,
    orig: Seq<ChainCore>,
    dir: u8,
    side: Seq<u32>,
)
    requires
        dir <= 1,
        cache_tracked(wt, src, tried, a, orig, dir, side),
        no_new_keys(a, b),
    ensures
        cache_tracked(wt, src, tried, b, orig, dir, side),
{
    assert forall|c: u128| #[trigger] tried.contains(c) implies wt.contains_key(c) || absent(b, dir, c) by {
        if !wt.contains_key(c) {
            lemma_absent_keep(a, b, dir, c);
        }
    }
}

/// A key found with no words in the cache has nothing more to draw.
proof fn lemma_tracked_exhausted(
    wt: Map<u128, Seq<u32>>,
    src: Map<u128, Seq<u32>>,
    tried: Set<u128>,
    cores: Seq<ChainCore>,
    orig: Seq<ChainCore>,
    dir: u8,
    side: Seq<u32>,
    code: u128,
)
    requires
        cache_tracked(wt, src, tried, cores, orig, dir, side),
        tried.contains(code),
        list_size(wt, code) == 0,
    ensures
        exhausted(orig, cores, dir, code, side),
{
    if wt.contains_key(code) {
        let j = choose|j: int| #[trigger] from_chain(orig, j, dir, code, src[code]);
        assert forall|i: int| 0 <= i < orig[j].lists(dir)[code].len() implies side.contains(
            #[trigger] orig[j].lists(dir)[code][i],
        ) by {
            assert(src[code][i] == orig[j].lists(dir)[code][i]);
            assert(!wt[code].contains(src[code][i]));
        }
        assert(spent(orig, j, dir, code, side));
    }
}

/// Fetching a key keeps the cache tracked, with the key tried.
proof fn lemma_tracked_fetch(
    wt0: Map<u128, Seq<u32>>,
    wt1: Map<u128, Seq<u32>>,
    src: Map<u128, Seq<u32>>,
    tried: Set<u128>,
    a: Seq<ChainCore>,
    b: Seq<ChainCore>,
    orig: Seq<ChainCore>,
    dir: u8,
    side: Seq<u32>,
    code: u128,
) -> (src1: Map<u128, Seq<u32>>)
    requires
        dir <= 1,
        consumed_from(orig, a),
        no_new_keys(a, b),
        cache_tracked(wt0, src, tried, a, orig, dir, side),
        wt0.contains_key(code) ==> wt1 == wt0,
        !wt0.contains_key(code) ==> {
            ||| wt1 == wt0 && forall|j: int|
                0 <= j < a.len() ==> !(#[trigger] a[j].lists(dir)).contains_key(code)
            ||| exists|j: int|
                0 <= j < a.len() && a[j].lists(dir).contains_key(code) && wt1 == wt0.insert(
                    code,
                    #[trigger] a[j].lists(dir)[code],
                )
        },
    ensures
        cache_tracked(wt1, src1, tried.insert(code), b, orig, dir, side),
{
    if wt1 == wt0 {
        if !wt0.contains_key(code) {
            assert(absent(a, dir, code));
        }
        assert forall|c: u128| #[trigger] tried.insert(code).contains(c) implies wt0.contains_key(c) || absent(
            a,
            dir,
            c,
        ) by {
            if c != code {
                assert(tried.contains(c));
            }
        }
        lemma_tracked_cores(wt0, src, tried.insert(code), a, b, orig, dir, side);
        src
    } else {
        let j = choose|j: int|
            0 <= j < a.len() && a[j].lists(dir).contains_key(code) && wt1 == wt0.insert(
                code,
                #[trigger] a[j].lists(dir)[code],
            );
        let l = a[j].lists(dir)[code];
        assert(a[j].wf());
        assert(only_removed(orig[j].lists(dir), a[j].lists(dir))) by {
            if dir == 0 {
            } else {
                assert(dir == 1u8);
            }
        }
        assert(from_chain(orig, j, dir, code, l));
        let src1 = src.insert(code, l);
        assert forall|c: u128| #[trigger] wt1.contains_key(c) implies src1.contains_key(c) && exists|k: int|
            #[trigger] from_chain(orig, k, dir, c, src1[c]) by {
            if c != code {
                assert(wt0.contains_key(c));
                let k0 = choose|k: int| #[trigger] from_chain(orig, k, dir, c, src[c]);
                assert(src1[c] == src[c]);
                assert(from_chain(orig, k0, dir, c, src1[c]));
            } else {
                assert(from_chain(orig, j, dir, c, src1[c]));
            }
        }
        assert forall|c: u128, i: int| wt1.contains_key(c) && 0 <= i < src1[c].len() implies wt1[c].contains(
            #[trigger] src1[c][i],
        ) || side.contains(src1[c][i]) by {
            if c == code {
                assert(wt1[c][i] == src1[c][i]);
            } else {
                assert(wt0.contains_key(c) && src1[c] == src[c] && wt1[c] == wt0[c]);
            }
        }
        assert forall|c: u128| #[trigger] tried.insert(code).contains(c) implies wt1.contains_key(c) || absent(
            a,
            dir,
            c,
        ) by {
            if c != code {
                assert(tried.contains(c));
            }
        }
        lemma_tracked_cores(wt1, src1, tried.insert(code), a, b, orig, dir, side);
        src1
    }
}

/// Taking a word out of a cached list, the word then standing in the
/// grown side, keeps the cache tracked.
proof fn lemma_tracked_take(
    wt0: Map<u128, Seq<u32>>,
    wt1: Map<u128, Seq<u32>>,
    src: Map<u128, Seq<u32>>,
    tried: Set<u128>,
    cores: Seq<ChainCore>,
    orig: Seq<ChainCore>,
    dir: u8,
    side0: Seq<u32>,
    side1: Seq<u32>,
    code: u128,
    k: int,
)
    requires
        cache_tracked(wt0, src, tried, cores, orig, dir, side0),
        wt0.contains_key(code),
        0 <= k < wt0[code].len(),
        wt1 == wt0.insert(code, wt0[code].remove(k)),
        side1.contains(wt0[code][k]),
        forall|x: u32| side0.contains(x) ==> side1.contains(x),
    ensures
        cache_tracked(wt1, src, tried, cores, orig, dir, side1),
{
    assert forall|c: u128| #[trigger] wt1.contains_key(c) implies src.contains_key(c) && exists|j: int|
        #[trigger] from_chain(orig, j, dir, c, src[c]) by {
        assert(wt0.contains_key(c));
    }
    assert forall|c: u128, i: int| wt1.contains_key(c) && 0 <= i < src[c].len() implies wt1[c].contains(
        #[trigger] src[c][i],
    ) || side1.contains(src[c][i]) by {
        let x = src[c][i];
        assert(wt0.contains_key(c));
        if c == code && wt0[c].contains(x) && x != wt0[code][k] {
            let m = choose|m: int| 0 <= m < wt0[c].len() && wt0[c][m] == x;
            if m < k {
                assert(wt1[c][m] == x);
            } else {
                assert(wt1[c][m - 1] == x);
            }
        }
    }
    assert forall|c: u128| #[trigger] tried.contains(c) implies wt1.contains_key(c) || absent(cores, dir, c) by {
        if wt0.contains_key(c) {
            assert(wt1.contains_key(c));
        }
    }
}

/// Which context the next word of a sentence is drawn from, the two-word
/// context holding `n1` words and the three-word one `n2`, on the draw `r`:
/// 1, the word just before, when the two-word context has none; 3, the
/// three words before, when it has some and the draw passes `4 / n1` of the
/// way; otherwise 2, the two words before.
pub open spec fn spec_context(n1: nat, n2: nat, r: u32) -> u8 {
    if n1 == 0 {
        1
    } else if n2 > 0 && (r as int) * (n1 as int) > 4 * 0x1_0000_0000 {
        3
    } else {
        2
    }
}

/// Which context the next word is drawn from (see `spec_context`).
pub fn context_choice(n1: usize, n2: usize, r: u32) -> (c: u8)
    ensures
        c == spec_context(n1 as nat, n2 as nat, r),
{
    if n1 == 0 {
        1
    } else if n2 > 0 && wide_mul(r, n1) > 4u128 * 0x1_0000_0000u128 {
        3
    } else {
        2
    }
}

/// Whether growth stops by chance when the two-word context has no words,
/// for a sentence of `len` words aiming at `ideal`: when the draw `r`
/// passes `ideal / len` of the way.
pub open spec fn spec_stops_by_chance(r: u32, ideal: usize, len: usize) -> bool {
    (ideal as int) * 0x1_0000_0000 < (r as int) * (len as int)
}

/// Whether growth stops by chance (see `spec_stops_by_chance`).
pub fn stops_by_chance(r: u32, ideal: usize, len: usize) -> (b: bool)
    ensures
        b == spec_stops_by_chance(r, ideal, len),
{
    (ideal as u128) * 0x1_0000_0000u128 < wide_mul(r, len)
}

/// The word `w`, grown next to `c`, then `b`, then `a`, the words grown on
/// that side before it being `side`, came from the two-word context `b c`
/// or the three-word context `a b c`, unless nothing more could be drawn
/// for the two-word context (see `exhausted`).
pub open spec fn word_in_context(
    orig: Seq<ChainCore>,
    fin: Seq<ChainCore>,
    dir: u8,
    a: u32,
    b: u32,
    c: u32,
    w: u32,
    side: Seq<u32>,
) -> bool {
    ||| listed(orig, dir, code3(b, c, NONE), w)
    ||| listed(orig, dir, code3(a, b, c), w)
    ||| exhausted(orig, fin, dir, code3(b, c, NONE), side)
}

/// The word at `i` of `r`, grown backwards from a seed that ends at `hi`,
/// was drawn in context (see `word_in_context`).
pub open spec fn context_back(r: Seq<u32>, i: int, front: int, hi: int, orig: Seq<ChainCore>, fin: Seq<ChainCore>) -> bool {
    word_in_context(
        orig,
        fin,
        0u8,
        word_or_end_from(r, i + 3, hi),
        word_or_end_from(r, i + 2, hi),
        r[i + 1],
        r[i],
        r.subrange(i + 1, front),
    )
}

/// The word at `i` of `r`, grown forwards after a seed that ends at `hi`,
/// was drawn in context (see `word_in_context`).
pub open spec fn context_forth(r: Seq<u32>, i: int, hi: int, orig: Seq<ChainCore>, fin: Seq<ChainCore>) -> bool {
    word_in_context(
        orig,
        fin,
        1u8,
        word_or_end_before(r, i - 3),
        word_or_end_before(r, i - 2),
        r[i - 1],
        r[i],
        r.subrange(hi, i),
    )
}

/// Every word of `r` grown before `front` or from `hi` on was drawn in
/// context.
pub open spec fn grown_in_context(r: Seq<u32>, front: int, hi: int, orig: Seq<ChainCore>, fin: Seq<ChainCore>) -> bool {
    &&& forall|i: int| 0 <= i < front ==> #[trigger] context_back(r, i, front, hi, orig, fin)
    &&& forall|i: int| hi <= i < r.len() ==> #[trigger] context_forth(r, i, hi, orig, fin)
}

proof fn lemma_exhausted_keep(orig: Seq<ChainCore>, f1: Seq<ChainCore>, f2: Seq<ChainCore>, dir: u8, code: u128, side: Seq<u32>)
    requires
        dir <= 1,
        no_new_keys(f1, f2),
        exhausted(orig, f1, dir, code, side),
    ensures
        exhausted(orig, f2, dir, code, side),
{
    if absent(f1, dir, code) {
        lemma_absent_keep(f1, f2, dir, code);
    }
}

/// Lists only going keeps every grown word in context.
proof fn lemma_context_keep(r: Seq<u32>, front: int, hi: int, orig: Seq<ChainCore>, f1: Seq<ChainCore>, f2: Seq<ChainCore>)
    requires
        no_new_keys(f1, f2),
        grown_in_context(r, front, hi, orig, f1),
    ensures
        grown_in_context(r, front, hi, orig, f2),
{
    assert forall|i: int| 0 <= i < front implies #[trigger] context_back(r, i, front, hi, orig, f2) by {
        assert(context_back(r, i, front, hi, orig, f1));
        let code = code3(word_or_end_from(r, i + 2, hi), r[i + 1], NONE);
        if exhausted(orig, f1, 0u8, code, r.subrange(i + 1, front)) {
            lemma_exhausted_keep(orig, f1, f2, 0u8, code, r.subrange(i + 1, front));
        }
    }
    assert forall|i: int| hi <= i < r.len() implies #[trigger] context_forth(r, i, hi, orig, f2) by {
        assert(context_forth(r, i, hi, orig, f1));
        let code = code3(word_or_end_before(r, i - 2), r[i - 1], NONE);
        if exhausted(orig, f1, 1u8, code, r.subrange(hi, i)) {
            lemma_exhausted_keep(orig, f1, f2, 1u8, code, r.subrange(hi, i));
        }
    }
}

/// A word grown before a sentence that grew only backwards so far, in
/// context, keeps every grown word in context.
proof fn lemma_context_front(
    s0: Seq<u32>,
    w: u32,
    front: int,
    hi: int,
    orig: Seq<ChainCore>,
    fin: Seq<ChainCore>,
    lw: u32,
    lw2: u32,
)
    requires
        grown_in_context(s0, front, hi, orig, fin),
        s0.len() == hi,
        0 <= front < hi,
        lw == word_or_end_from(s0, 1, hi),
        lw2 == word_or_end_from(s0, 2, hi),
        word_in_context(orig, fin, 0u8, lw2, lw, s0[0], w, s0.subrange(0, front)),
    ensures
        grown_in_context(seq![w] + s0, front + 1, hi + 1, orig, fin),
{
    let r = seq![w] + s0;
    assert forall|i: int| 0 <= i < front + 1 implies #[trigger] context_back(r, i, front + 1, hi + 1, orig, fin) by {
        if i == 0 {
            assert(r[1] == s0[0] && r[0] == w);
            assert(word_or_end_from(r, 2, hi + 1) == lw);
            assert(word_or_end_from(r, 3, hi + 1) == lw2);
            assert(r.subrange(1, front + 1) =~= s0.subrange(0, front));
        } else {
            assert(context_back(s0, i - 1, front, hi, orig, fin));
            assert(r[i + 1] == s0[i] && r[i] == s0[i - 1]);
            assert(word_or_end_from(r, i + 2, hi + 1) == word_or_end_from(s0, i + 1, hi));
            assert(word_or_end_from(r, i + 3, hi + 1) == word_or_end_from(s0, i + 2, hi));
            assert(r.subrange(i + 1, front + 1) =~= s0.subrange(i, front));
        }
    }
}

/// A word grown after a sentence, in context, keeps every grown word in
/// context.
proof fn lemma_context_back(
    s0: Seq<u32>,
    w: u32,
    front: int,
    hi: int,
    orig: Seq<ChainCore>,
    fin: Seq<ChainCore>,
    lw: u32,
    lw2: u32,
)
    requires
        grown_in_context(s0, front, hi, orig, fin),
        0 <= front < hi <= s0.len(),
        lw == word_or_end_before(s0, s0.len() - 2),
        lw2 == word_or_end_before(s0, s0.len() - 3),
        word_in_context(orig, fin, 1u8, lw2, lw, s0[s0.len() - 1], w, s0.subrange(hi, s0.len() as int)),
    ensures
        grown_in_context(s0.push(w), front, hi, orig, fin),
{
    let r = s0.push(w);
    assert forall|i: int| 0 <= i < front implies #[trigger] context_back(r, i, front, hi, orig, fin) by {
        assert(context_back(s0, i, front, hi, orig, fin));
        assert(r[i] == s0[i] && r[i + 1] == s0[i + 1]);
        assert(word_or_end_from(r, i + 2, hi) == word_or_end_from(s0, i + 2, hi));
        assert(word_or_end_from(r, i + 3, hi) == word_or_end_from(s0, i + 3, hi));
        assert(r.subrange(i + 1, front) =~= s0.subrange(i + 1, front));
    }
    assert forall|i: int| hi <= i < r.len() implies #[trigger] context_forth(r, i, hi, orig, fin) by {
        if i == s0.len() {
            assert(r[i - 1] == s0[s0.len() - 1] && r[i] == w);
            assert(word_or_end_before(r, i - 2) == lw);
            assert(word_or_end_before(r, i - 3) == lw2);
            assert(r.subrange(hi, i) =~= s0.subrange(hi, s0.len() as int));
        } else {
            assert(context_forth(s0, i, hi, orig, fin));
            assert(r[i] == s0[i] && r[i - 1] == s0[i - 1]);
            assert(word_or_end_before(r, i - 2) == word_or_end_before(s0, i - 2));
            assert(word_or_end_before(r, i - 3) == word_or_end_before(s0, i - 3));
            assert(r.subrange(hi, i) =~= s0.subrange(hi, i));
        }
    }
}

/// A word taken from the cache and grown onto the sentence keeps the cache
/// tracked against the new grown side.
proof fn lemma_tracked_grow(
    wa: Map<u128, Seq<u32>>,
    wt1: Map<u128, Seq<u32>>,
    src: Map<u128, Seq<u32>>,
    tried: Set<u128>,
    cores: Seq<ChainCore>,
    orig: Seq<ChainCore>,
    dir: u8,
    s0: Seq<u32>,
    s1: Seq<u32>,
    front: int,
    hi: int,
    w: u32,
    code: u128,
    k: int,
)
    requires
        dir <= 1,
        0 <= front <= hi <= s0.len(),
        cache_tracked(wa, src, tried, cores, orig, dir, grown_side(s0, front, hi, dir)),
        wa.contains_key(code),
        0 <= k < wa[code].len(),
        wa[code][k] == w,
        wt1 == wa.insert(code, wa[code].remove(k)),
        dir == 0 ==> s1 == seq![w] + s0,
        dir == 1 ==> s1 == s0.push(w),
    ensures
        dir == 0 ==> cache_tracked(wt1, src, tried, cores, orig, dir, grown_side(s1, front + 1, hi + 1, dir)),
        dir == 1 ==> cache_tracked(wt1, src, tried, cores, orig, dir, grown_side(s1, front, hi, dir)),
{
    let side = grown_side(s0, front, hi, dir);
    if dir == 0 {
        let side1 = grown_side(s1, front + 1, hi + 1, dir);
        assert(side1 =~= seq![w] + side);
        assert(side1[0] == w);
        assert forall|x: u32| side.contains(x) implies side1.contains(x) by {
            let m = choose|m: int| 0 <= m < side.len() && side[m] == x;
            assert(side1[m + 1] == x);
        }
        lemma_tracked_take(wa, wt1, src, tried, cores, orig, dir, side, side1, code, k);
    } else {
        let side1 = grown_side(s1, front, hi, dir);
        assert(side1 =~= side.push(w));
        assert(side1[side.len() as int] == w);
        assert forall|x: u32| side.contains(x) implies side1.contains(x) by {
            let m = choose|m: int| 0 <= m < side.len() && side[m] == x;
            assert(side1[m] == x);
        }
        lemma_tracked_take(wa, wt1, src, tried, cores, orig, dir, side, side1, code, k);
    }
}

/// The reason growth stopped at the end being grown, read at that end.
proof fn lemma_stop_here(
    s: Seq<u32>,
    front: int,
    hi: int,
    dir: u8,
    orig: Seq<ChainCore>,
    cores: Seq<ChainCore>,
    ideal: usize,
    strict: bool,
    lw2: u32,
    lw: u32,
    cur: u32,
    len: int,
)
    requires
        dir <= 1,
        stopped(orig, cores, dir, lw2, lw, cur, len, ideal, strict, grown_side(s, front, hi, dir)),
        dir == 0 ==> lw == word_or_end_from(s, 1, hi) && lw2 == word_or_end_from(s, 2, hi) && cur == s[0]
            && len == hi,
        dir == 1 ==> lw == word_or_end_before(s, s.len() - 2) && lw2 == word_or_end_before(s, s.len() - 3)
            && cur == s[s.len() - 1] && len == s.len(),
    ensures
        dir == 0 ==> front_stopped(s, front, hi, orig, cores, ideal, strict),
        dir == 1 ==> back_stopped(s, hi, orig, cores, ideal, strict),
{
}

/// Growing a sentence forwards keeps why its backward growth stopped.
proof fn lemma_front_push(
    s0: Seq<u32>,
    w: u32,
    front: int,
    hi: int,
    orig: Seq<ChainCore>,
    cores: Seq<ChainCore>,
    ideal: usize,
    strict: bool,
)
    requires
        0 <= front < hi <= s0.len(),
        front_stopped(s0, front, hi, orig, cores, ideal, strict),
    ensures
        front_stopped(s0.push(w), front, hi, orig, cores, ideal, strict),
{
    let s1 = s0.push(w);
    assert(s1.subrange(0, front) =~= s0.subrange(0, front));
    assert(s1[0] == s0[0]);
    assert(word_or_end_from(s1, 1, hi) == word_or_end_from(s0, 1, hi));
    assert(word_or_end_from(s1, 2, hi) == word_or_end_from(s0, 2, hi));
}

/// Every word cached in `wt` is listed by a chain of `orig` under the key
/// it is cached for, in direction `dir`.
pub open spec fn cache_listed(wt: Map<u128, Seq<u32>>, orig: Seq<ChainCore>, dir: u8) -> bool {
    forall|c: u128, i: int|
        wt.contains_key(c) && 0 <= i < wt[c].len() ==> listed(orig, dir, c, #[trigger] wt[c][i])
}

/// Caching a list that a chain holds keeps every cached word listed.
proof fn lemma_cache_listed_fetch(
    wt0: Map<u128, Seq<u32>>,
    wt1: Map<u128, Seq<u32>>,
    before: Seq<ChainCore>,
    orig: Seq<ChainCore>,
    dir: u8,
    code: u128,
)
    requires
        dir <= 1,
        consumed_from(orig, before),
        cache_listed(wt0, orig, dir),
        wt1 == wt0 || exists|j: int|
            0 <= j < before.len() && before[j].lists(dir).contains_key(code) && wt1 == wt0.insert(
                code,
                #[trigger] before[j].lists(dir)[code],
            ),
    ensures
        cache_listed(wt1, orig, dir),
{
    if wt1 != wt0 {
        let j = choose|j: int|
            0 <= j < before.len() && before[j].lists(dir).contains_key(code) && wt1 == wt0.insert(
                code,
                #[trigger] before[j].lists(dir)[code],
            );
        assert(before[j].wf());
        assert(only_removed(orig[j].lists(dir), before[j].lists(dir))) by {
            if dir == 0 {
            } else {
                assert(dir == 1u8);
            }
        }
        assert(orig[j].lists(dir).contains_key(code) && orig[j].lists(dir)[code] == before[j].lists(dir)[code]);
        assert forall|c: u128, i: int| wt1.contains_key(c) && 0 <= i < wt1[c].len() implies listed(
            orig,
            dir,
            c,
            #[trigger] wt1[c][i],
        ) by {
            if c == code {
                assert(orig[j].lists(dir)[code][i] == wt1[c][i]);
            } else {
                assert(wt0[c][i] == wt1[c][i]);
            }
        }
    }
}

/// Taking a word out of a cached list keeps every cached word listed.
proof fn lemma_cache_listed_take(
    wt0: Map<u128, Seq<u32>>,
    wt1: Map<u128, Seq<u32>>,
    orig: Seq<ChainCore>,
    dir: u8,
    code: u128,
)
    requires
        cache_listed(wt0, orig, dir),
        wt1 == wt0 || (wt0.contains_key(code) && exists|i: int|
            0 <= i < wt0[code].len() && wt1 == wt0.insert(code, #[trigger] wt0[code].remove(i))),
    ensures
        cache_listed(wt1, orig, dir),
{
    if wt1 != wt0 {
        let k = choose|i: int| 0 <= i < wt0[code].len() && wt1 == wt0.insert(code, #[trigger] wt0[code].remove(i));
        assert forall|c: u128, i: int| wt1.contains_key(c) && 0 <= i < wt1[c].len() implies listed(
            orig,
            dir,
            c,
            #[trigger] wt1[c][i],
        ) by {
            if c == code {
                if i < k {
                    assert(wt1[c][i] == wt0[c][i]);
                } else {
                    assert(wt1[c][i] == wt0[c][i + 1]);
                }
            } else {
                assert(wt0[c][i] == wt1[c][i]);
            }
        }
    }
}

/// Lists and settings of every chain of `cur` come from `orig`, with lists
/// only removed.
pub open spec fn consumed_from(orig: Seq<ChainCore>, cur: Seq<ChainCore>) -> bool {
    &&& cur.len() == orig.len()
    &&& forall|j: int|
        #![trigger cur[j]]
        0 <= j < cur.len() ==> {
            &&& cur[j].wf()
            &&& only_removed(orig[j].lists(0u8), cur[j].lists(0u8))
            &&& only_removed(orig[j].lists(1u8), cur[j].lists(1u8))
            &&& cur[j].consume_chance() == orig[j].consume_chance()
            &&& cur[j].strength_level() == orig[j].strength_level()
        }
}

/// Draws 32 random bits from the generator of chain `i`.
fn draw_at(cores: &mut Vec<ChainCore>, i: usize) -> (r: u32)
    requires
        i < old(cores)@.len(),
    ensures
        final(cores)@.len() == old(cores)@.len(),
        forall|j: int|
            #![trigger final(cores)@[j]]
            0 <= j < final(cores)@.len() ==> final(cores)@[j].forward() == old(cores)@[j].forward()
                && final(cores)@[j].backward() == old(cores)@[j].backward()
                && final(cores)@[j].consume_chance() == old(cores)@[j].consume_chance()
                && final(cores)@[j].strength_level() == old(cores)@[j].strength_level(),
        same_lists(old(cores)@, final(cores)@),
{
    let ghost before = cores@;
    let mut core = cores.remove(i);
    let r = core.draw();
    cores.insert(i, core);
    assert(cores@ =~= before.update(i as int, core));
    assert forall|j: int|
        #![trigger cores@[j]]
        0 <= j < cores@.len() implies cores@[j].forward() == before[j].forward()
        && cores@[j].backward() == before[j].backward() && cores@[j].consume_chance()
        == before[j].consume_chance() && cores@[j].strength_level()
        == before[j].strength_level() by {
        if j != i {
            assert(cores@[j] == before[j]);
        }
    }
    r
}

/// The number of words cached for `code`.
fn cached_len(wt: &HashMap<u128, Vec<u32>>, code: u128) -> (r: usize)
    ensures
        r == list_size(lists_of(*wt), code),
{
    match wt.get(&code) {
        Some(l) => l.len(),
        None => 0,
    }
}

/// Every word cached in `wt` is held by some chain of `orig`.
pub open spec fn cache_held(wt: Map<u128, Seq<u32>>, orig: Seq<ChainCore>) -> bool {
    forall|c: u128, i: int|
        wt.contains_key(c) && 0 <= i < wt[c].len() ==> held(orig, #[trigger] wt[c][i])
}

/// What a search in direction `dir` still has to draw from: the words the
/// chains hold under keys not yet cached, and the words cached.
pub open spec fn search_measure(cores: Seq<ChainCore>, dir: u8, wt: Map<u128, Seq<u32>>) -> nat {
    stack_mass(cores, dir, wt.dom()) + map_mass(wt)
}

/// Caches the words of `key` in direction `dir` unless they are cached.
fn fetch(
    cores: &mut Vec<ChainCore>,
    wt: &mut HashMap<u128, Vec<u32>>,
    key: &Key,
    dir: u8,
    Ghost(orig): Ghost<Seq<ChainCore>>,
)
    requires
        old(cores)@.len() > 0,
        consumed_from(orig, old(cores)@),
        cache_held(lists_of(*old(wt)), orig),
    ensures
        consumed_from(orig, final(cores)@),
        cache_held(lists_of(*final(wt)), orig),
        search_measure(final(cores)@, dir, lists_of(*final(wt))) <= search_measure(
            old(cores)@,
            dir,
            lists_of(*old(wt)),
        ),
        never_consumes(old(cores)@) ==> same_lists(old(cores)@, final(cores)@),
        kept_unless_consuming(old(cores)@, final(cores)@),
        no_new_keys(old(cores)@, final(cores)@),
        lists_of(*old(wt)).contains_key(key_code(*key)) ==> lists_of(*final(wt)) == lists_of(
            *old(wt),
        ) && final(cores)@ == old(cores)@,
        !lists_of(*old(wt)).contains_key(key_code(*key)) ==> {
            ||| lists_of(*final(wt)) == lists_of(*old(wt)) && forall|j: int|
                0 <= j < old(cores)@.len() ==> !(#[trigger] old(cores)@[j].lists(dir)).contains_key(
                    key_code(*key),
                )
            ||| exists|j: int|
                0 <= j < old(cores)@.len() && old(cores)@[j].lists(dir).contains_key(key_code(*key))
                    && lists_of(*final(wt)) == lists_of(*old(wt)).insert(
                    key_code(*key),
                    #[trigger] old(cores)@[j].lists(dir)[key_code(*key)],
                )
        },
{
    let code = code_of(key[0], key[1], key[2]);
    if wt.contains_key(&code) {
        assert(lists_of(*wt).contains_key(code));
        return;
    }
    assert(!lists_of(*wt).contains_key(code));
    let ghost before = cores@;
    let ghost wt0 = lists_of(*wt);
    assert forall|j: int| 0 <= j < before.len() implies #[trigger] before[j].wf() by {
        assert(before[j] == cores@[j]);
    }
    let got = next_in_line(cores, 0, key, dir);
    let ghost after = cores@;
    assert(no_new_keys(before, after)) by {
        assert forall|j: int| 0 <= j < after.len() implies (#[trigger] after[j]).lists(0u8).dom().subset_of(
            before[j].lists(0u8).dom(),
        ) && after[j].lists(1u8).dom().subset_of(before[j].lists(1u8).dom()) by {
            assert(same_or_dropped(before[j].lists(dir), after[j].lists(dir), key_code(*key)));
            assert(other_lists(after[j], dir) == other_lists(before[j], dir));
            if dir == 0 {
            } else {
                assert(after[j].lists(1u8) == after[j].lists(dir) || dir == 0);
            }
        }
    }
    proof {
        assert forall|j: int|
            #![trigger after[j]]
            0 <= j < after.len() implies {
            &&& after[j].wf()
            &&& only_removed(orig[j].lists(0u8), after[j].lists(0u8))
            &&& only_removed(orig[j].lists(1u8), after[j].lists(1u8))
            &&& after[j].consume_chance() == orig[j].consume_chance()
            &&& after[j].strength_level() == orig[j].strength_level()
        } by {
            assert(before[j] == before[j]);
            let d = if dir == 0 { 1u8 } else { 0u8 };
            assert(other_lists(after[j], dir) == other_lists(before[j], dir));
            assert(same_or_dropped(before[j].lists(dir), after[j].lists(dir), code));
            assert(only_removed(orig[j].lists(0u8), before[j].lists(0u8)));
            assert(only_removed(orig[j].lists(1u8), before[j].lists(1u8)));
        }
    }
    match got {
        Some(list) => {
            wt.insert(code, list);
            proof {
                let wt1 = lists_of(*wt);
                assert(wt1 =~= wt0.insert(code, list@));
                let j0 = choose|j: int|
                    0 <= j < before.len() && before[j].lists(dir).contains_key(key_code(*key))
                        && list@ == #[trigger] before[j].lists(dir)[key_code(*key)];
                assert(before[j0].wf());
                assert(only_removed(orig[j0].lists(dir), before[j0].lists(dir))) by {
                    if dir == 0 {
                    } else {
                        assert(before[j0].lists(dir) == before[j0].lists(1u8));
                    }
                }
                assert(orig[j0].lists(dir)[code] == list@);
                assert forall|c: u128, i: int|
                    wt1.contains_key(c) && 0 <= i < wt1[c].len() implies held(orig, #[trigger] wt1[c][i]) by {
                    if c == code {
                        assert(orig[j0].lists(dir).contains_key(code));
                        assert(orig[j0].lists(dir)[code][i] == wt1[c][i]);
                        if dir == 0 {
                            assert(in_lists(orig[j0].lists(0u8), wt1[c][i]));
                        } else {
                            assert(in_lists(orig[j0].lists(1u8), wt1[c][i]));
                        }
                    } else {
                        assert(wt0.contains_key(c) && wt0[c][i] == wt1[c][i]);
                    }
                }
                // the measure
                assert(!wt0.dom().contains(code));
                assert(wt1.dom() =~= wt0.dom().insert(code));
                lemma_stack_uncache(before, dir, wt0.dom(), code);
                assert forall|j: int| 0 <= j < after.len() implies (#[trigger] after[j]).lists(dir).remove_keys(
                    wt1.dom(),
                ) == before[j].lists(dir).remove_keys(wt1.dom()) by {
                    assert(same_or_dropped(before[j].lists(dir), after[j].lists(dir), code));
                    if after[j].lists(dir) != before[j].lists(dir) {
                        assert(after[j].lists(dir).remove_keys(wt1.dom()) =~= before[j].lists(
                            dir,
                        ).remove_keys(wt1.dom()));
                    }
                }
                lemma_stack_mass_ext(after, before, dir, wt1.dom());
                lemma_stack_size_ge(before, dir, code, j0);
                assert(wt1.dom() =~= wt@.dom());
                assert(wt1.dom().finite());
                lemma_mass_remove(wt1, code);
                assert(wt1.remove(code) =~= wt0);
            }
        },
        None => {
            proof {
                assert forall|j: int| 0 <= j < after.len() implies (#[trigger] after[j]).lists(dir).remove_keys(
                    wt0.dom(),
                ) == before[j].lists(dir).remove_keys(wt0.dom()) by {
                    assert(!before[j].lists(dir).contains_key(key_code(*key)));
                    assert(before[j].lists(dir).remove(code) =~= before[j].lists(dir));
                }
                lemma_stack_mass_ext(after, before, dir, wt0.dom());
                assert(lists_of(*wt) == wt0);
            }
        },
    }
}

/// Takes one word, at a random place, out of the words cached for `code`.
/// `None` when there is none, or when `strict_limit` holds and the sentence
/// of `len` words has reached its share of `ideal`.
fn take_word(
    cores: &mut Vec<ChainCore>,
    wt: &mut HashMap<u128, Vec<u32>>,
    code: u128,
    ideal: usize,
    len: usize,
    strict_limit: bool,
    dir: u8,
    Ghost(orig): Ghost<Seq<ChainCore>>,
) -> (r: Option<u32>)
    requires
        dir <= 1,
        old(cores)@.len() > 0,
        consumed_from(orig, old(cores)@),
        cache_held(lists_of(*old(wt)), orig),
    ensures
        consumed_from(orig, final(cores)@),
        cache_held(lists_of(*final(wt)), orig),
        lists_of(*final(wt)).dom() == lists_of(*old(wt)).dom(),
        forall|j: int|
            0 <= j < final(cores)@.len() ==> (#[trigger] final(cores)@[j]).lists(dir) == old(
                cores,
            )@[j].lists(dir),
        r is Some ==> !(ideal > 0 && strict_limit && len >= ideal / ((2 - dir) as usize)),
        r is None <==> !lists_of(*old(wt)).contains_key(code) || lists_of(*old(wt))[code].len() == 0
            || (ideal > 0 && strict_limit && len >= ideal / ((2 - dir) as usize)),
        r is None ==> lists_of(*final(wt)) == lists_of(*old(wt)),
        r matches Some(w) ==> exists|i: int|
            0 <= i < lists_of(*old(wt))[code].len() && lists_of(*old(wt))[code][i] == w && lists_of(
                *final(wt),
            ) == lists_of(*old(wt)).insert(code, #[trigger] lists_of(*old(wt))[code].remove(i)),
        same_lists(old(cores)@, final(cores)@),
        match r {
            Some(w) => held(orig, w) && search_measure(final(cores)@, dir, lists_of(*final(wt)))
                < search_measure(old(cores)@, dir, lists_of(*old(wt))),
            None => search_measure(final(cores)@, dir, lists_of(*final(wt))) <= search_measure(
                old(cores)@,
                dir,
                lists_of(*old(wt)),
            ),
        },
{
    let ghost wt0 = lists_of(*wt);
    let ghost c0 = cores@;
    proof {
        assert(wt0.dom() =~= wt@.dom());
    }
    match wt.remove(&code) {
        None => {
            assert(lists_of(*wt) =~= wt0);
            assert(!wt0.contains_key(code));
            None
        },
        Some(mut list) => {
            assert(wt0.contains_key(code) && wt0[code] == list@);
            assert(lists_of(*wt) =~= wt0.remove(code));
            if list.len() == 0 {
                wt.insert(code, list);
                assert(lists_of(*wt) =~= wt0);
                return None;
            }
            let r0 = draw_at(cores, 0);
            let mut index = (r0 as usize) % list.len();
            let mut stop = false;
            if ideal > 0 {
                if strict_limit && len >= ideal / (2 - dir as usize) {
                    stop = true;
                } else {
                    let mut c = ideal;
                    while c < len
                        invariant
                            list@.len() > 0,
                            index < list@.len(),
                            cores@.len() == c0.len(),
                            c0.len() > 0,
                            forall|j: int|
                                #![trigger cores@[j]]
                                0 <= j < cores@.len() ==> cores@[j].forward() == c0[j].forward()
                                    && cores@[j].backward() == c0[j].backward()
                                    && cores@[j].consume_chance() == c0[j].consume_chance()
                                    && cores@[j].strength_level() == c0[j].strength_level(),
                        decreases len - c,
                    {
                        let r1 = draw_at(cores, 0);
                        index = (r1 as usize) % list.len();
                        if list[index] == END {
                            break;
                        }
                        c = c + 1;
                    }
                }
            }
            proof {
                assert forall|j: int| 0 <= j < cores@.len() implies (#[trigger] cores@[j]).lists(
                    dir,
                ) == c0[j].lists(dir) by {}
                assert(consumed_from(orig, cores@)) by {
                    assert forall|j: int| #![trigger cores@[j]] 0 <= j < cores@.len() implies {
                        &&& cores@[j].wf()
                        &&& only_removed(orig[j].lists(0u8), cores@[j].lists(0u8))
                        &&& only_removed(orig[j].lists(1u8), cores@[j].lists(1u8))
                        &&& cores@[j].consume_chance() == orig[j].consume_chance()
                        &&& cores@[j].strength_level() == orig[j].strength_level()
                    } by {
                        assert(c0[j].wf());
                        assert(cores@[j].lists(0u8) == c0[j].lists(0u8));
                        assert(cores@[j].lists(1u8) == c0[j].lists(1u8));
                    }
                }
                lemma_stack_mass_ext(cores@, c0, dir, wt0.dom());
            }
            if stop {
                wt.insert(code, list);
                assert(lists_of(*wt) =~= wt0);
                return None;
            }
            let ghost full = list@;
            let word = list.remove(index);
            wt.insert(code, list);
            proof {
                let wt1 = lists_of(*wt);
                assert(wt1 =~= wt0.insert(code, list@));
                assert(wt1.dom() =~= wt0.dom());
                assert(held(orig, full[index as int])) by {
                    assert(wt0[code][index as int] == full[index as int]);
                }
                assert forall|c: u128, i: int|
                    wt1.contains_key(c) && 0 <= i < wt1[c].len() implies held(orig, #[trigger] wt1[c][i]) by {
                    if c == code {
                        if i < index {
                            assert(wt1[c][i] == wt0[c][i]);
                        } else {
                            assert(wt1[c][i] == wt0[c][i + 1]);
                        }
                    } else {
                        assert(wt1[c][i] == wt0[c][i]);
                    }
                }
                assert(wt0.dom() =~= wt@.dom()) by {
                    assert(lists_of(*wt).dom() =~= wt@.dom());
                }
                lemma_mass_remove(wt0, code);
                lemma_mass_remove(wt1, code);
                assert(wt1.remove(code) =~= wt0.remove(code));
                assert(full == wt0[code]);
                assert(full[index as int] == word);
                assert(wt1 == wt0.insert(code, wt0[code].remove(index as int)));
            }
            Some(word)
        },
    }
}

/// The product of a 32-bit draw and a count, without overflow.
fn wide_mul(a: u32, b: usize) -> (r: u128)
    ensures
        r == a as int * b as int,
{
    assert((a as u128) * (b as u128) <= 0xffff_ffffu128 * 0xffff_ffff_ffff_ffffu128) by (nonlinear_arith)
        requires
            a <= 0xffff_ffffu128,
            b <= 0xffff_ffff_ffff_ffffu128,
    ;
    (a as u128) * (b as u128)
}

proof fn lemma_draw_keeps(
    before: Seq<ChainCore>,
    after: Seq<ChainCore>,
    orig: Seq<ChainCore>,
    dir: u8,
    wt: Map<u128, Seq<u32>>,
)
    requires
        consumed_from(orig, before),
        after.len() == before.len(),
        forall|j: int|
            #![trigger after[j]]
            0 <= j < after.len() ==> after[j].forward() == before[j].forward()
                && after[j].backward() == before[j].backward() && after[j].consume_chance()
                == before[j].consume_chance() && after[j].strength_level()
                == before[j].strength_level(),
    ensures
        consumed_from(orig, after),
        search_measure(after, dir, wt) == search_measure(before, dir, wt),
        kept_unless_consuming(orig, before) ==> kept_unless_consuming(orig, after),
{
    assert forall|j: int| #![trigger after[j]] 0 <= j < after.len() implies {
        &&& after[j].wf()
        &&& only_removed(orig[j].lists(0u8), after[j].lists(0u8))
        &&& only_removed(orig[j].lists(1u8), after[j].lists(1u8))
        &&& after[j].consume_chance() == orig[j].consume_chance()
        &&& after[j].strength_level() == orig[j].strength_level()
    } by {
        assert(before[j].wf());
        assert(after[j].lists(0u8) == before[j].lists(0u8));
        assert(after[j].lists(1u8) == before[j].lists(1u8));
    }
    assert forall|j: int| 0 <= j < after.len() implies (#[trigger] after[j]).lists(dir).remove_keys(
        wt.dom(),
    ) == before[j].lists(dir).remove_keys(wt.dom()) by {
        assert(after[j].lists(dir) == before[j].lists(dir));
    }
    lemma_stack_mass_ext(after, before, dir, wt.dom());
}

/// The longest a sentence grown from a seed of `seed` words may become
/// under a strict limit of `ideal` words: the larger of the two.
pub open spec fn cap_len(seed: nat, ideal: nat) -> nat {
    if seed > ideal {
        seed
    } else {
        ideal
    }
}

/// Grows a sentence from the words of `best` with the chain at the head of
/// `cores`, whose parents follow it: first backwards, taking the words seen
/// before the sentence's first one, two and three words, then forwards.
/// `ideal` is the length aimed at (0 for none); with `strict_limit` the
/// sentence stops growing in each direction at its share of it. Each word
/// grown is one that a chain lists next to the up to three words beside it
/// (see `grown_along`), and each way growth stops only for one of the
/// reasons of `stopped` (see `generated`).
#[verifier::rlimit(100)]
#[verifier::spinoff_prover]
pub fn generate_in_line(cores: &mut Vec<ChainCore>, best: Key, ideal: usize, strict_limit: bool) -> (r: Vec<u32>)
    requires
        old(cores)@.len() > 0,
        forall|j: int| 0 <= j < old(cores)@.len() ==> #[trigger] old(cores)@[j].wf(),
        seed_of(best@).len() > 0,
    ensures
        consumed_from(old(cores)@, final(cores)@),
        exists|front: int| grown_from(r@, seed_of(best@), front, old(cores)@),
        exists|front: int|
            grown_from(r@, seed_of(best@), front, old(cores)@) && #[trigger] grown_along(
                r@,
                front,
                front + seed_of(best@).len(),
                old(cores)@,
            ),
        strict_limit && ideal > 0 ==> r@.len() <= cap_len(seed_of(best@).len(), ideal as nat),
        never_consumes(old(cores)@) ==> same_lists(old(cores)@, final(cores)@),
        kept_unless_consuming(old(cores)@, final(cores)@),
        generated(r@, best@, ideal, strict_limit, old(cores)@, final(cores)@),
{
    let ghost orig = cores@;
    let ghost seed = seed_of(best@);
    let mut sentence: Vec<u32> = Vec::new();
    if best[0] < END {
        sentence.push(best[0]);
    }
    if best[1] < END {
        sentence.push(best[1]);
    }
    if best[2] < END {
        sentence.push(best[2]);
    }
    assert(sentence@ =~= seed);
    let ghost mut front: int = 0;
    assert(consumed_from(orig, cores@)) by {
        assert forall|j: int| #![trigger cores@[j]] 0 <= j < cores@.len() implies {
            &&& cores@[j].wf()
            &&& only_removed(orig[j].lists(0u8), cores@[j].lists(0u8))
            &&& only_removed(orig[j].lists(1u8), cores@[j].lists(1u8))
            &&& cores@[j].consume_chance() == orig[j].consume_chance()
            &&& cores@[j].strength_level() == orig[j].strength_level()
        } by {
            assert(orig[j].wf());
        }
    }
    assert(grown_from(sentence@, seed, front, orig)) by {
        assert(sentence@.subrange(0, seed.len() as int) =~= seed);
    }
    let mut dir: u8 = 0;
    while dir < 2
        invariant
            dir <= 2,
            orig.len() > 0,
            consumed_from(orig, cores@),
            seed == seed_of(best@),
            seed.len() > 0,
            grown_from(sentence@, seed, front, orig),
            grown_along(sentence@, front, front + seed.len(), orig),
            dir == 0 ==> sentence@.len() == front + seed.len(),
            strict_limit && ideal > 0 ==> sentence@.len() <= cap_len(seed.len(), ideal as nat),
            never_consumes(orig) ==> same_lists(orig, cores@),
            kept_unless_consuming(orig, cores@),
            dir >= 1 ==> front_stopped(sentence@, front, front + seed.len(), orig, cores@, ideal, strict_limit),
            dir >= 2 ==> back_stopped(sentence@, front + seed.len(), orig, cores@, ideal, strict_limit),
            grown_in_context(sentence@, front, front + seed.len(), orig, cores@),
        decreases 2 - dir,
    {
        let mut wt: HashMap<u128, Vec<u32>> = HashMap::new();
        assert(lists_of(wt) =~= Map::<u128, Seq<u32>>::empty());
        let len0 = sentence.len();
        let mut last_word: u32 = if dir == 0 {
            if len0 > 1 {
                sentence[1]
            } else {
                END
            }
        } else {
            if len0 >= 2 {
                sentence[len0 - 2]
            } else {
                END
            }
        };
        let mut last_word2: u32 = if dir == 0 {
            if len0 > 2 {
                sentence[2]
            } else {
                END
            }
        } else {
            if len0 >= 3 {
                sentence[len0 - 3]
            } else {
                END
            }
        };
        let ghost mut src: Map<u128, Seq<u32>> = Map::empty();
        let ghost mut tried: Set<u128> = Set::empty();
        assert(cache_tracked(lists_of(wt), src, tried, cores@, orig, dir, grown_side(sentence@, front, front + seed.len(), dir)));
        loop
            invariant_except_break
                cache_tracked(lists_of(wt), src, tried, cores@, orig, dir, grown_side(sentence@, front, front + seed.len(), dir)),
            invariant
                dir < 2,
                orig.len() > 0,
                consumed_from(orig, cores@),
                cache_held(lists_of(wt), orig),
                seed.len() > 0,
                grown_from(sentence@, seed, front, orig),
                grown_along(sentence@, front, front + seed.len(), orig),
                dir == 0 ==> sentence@.len() == front + seed.len(),
                cache_listed(lists_of(wt), orig, dir),
                dir == 0 ==> last_word == word_or_end_from(sentence@, 1, front + seed.len())
                    && last_word2 == word_or_end_from(sentence@, 2, front + seed.len()),
                dir == 1 ==> last_word == word_or_end_before(sentence@, sentence@.len() - 2)
                    && last_word2 == word_or_end_before(sentence@, sentence@.len() - 3),
                strict_limit && ideal > 0 ==> sentence@.len() <= cap_len(seed.len(), ideal as nat),
                never_consumes(orig) ==> same_lists(orig, cores@),
                kept_unless_consuming(orig, cores@),
                dir == 1 ==> front_stopped(sentence@, front, front + seed.len(), orig, cores@, ideal, strict_limit),
                grown_in_context(sentence@, front, front + seed.len(), orig, cores@),
            ensures
                dir == 0 ==> front_stopped(sentence@, front, front + seed.len(), orig, cores@, ideal, strict_limit),
                dir == 1 ==> back_stopped(sentence@, front + seed.len(), orig, cores@, ideal, strict_limit),
            decreases search_measure(cores@, dir, lists_of(wt)),
        {
            let ghost m0 = search_measure(cores@, dir, lists_of(wt));
            let ghost ci = cores@;
            let ghost side = grown_side(sentence@, front, front + seed.len(), dir);
            let ghost mut via0 = false;
            let len = sentence.len();
            let current = if dir == 0 {
                sentence[0]
            } else {
                sentence[len - 1]
            };
            let k0: Key = [current, NONE, NONE];
            let k1: Key = [last_word, current, NONE];
            let k2: Key = [last_word2, last_word, current];
            let ghost wa = lists_of(wt);
            let ghost ca = cores@;
            fetch(cores, &mut wt, &k0, dir, Ghost(orig));
            proof {
                lemma_cache_listed_fetch(wa, lists_of(wt), ca, orig, dir, key_code(k0));
                lemma_kept_trans(orig, ca, cores@);
                src = lemma_tracked_fetch(wa, lists_of(wt), src, tried, ca, cores@, orig, dir, side, key_code(k0));
                tried = tried.insert(key_code(k0));
                lemma_nnk_trans(ci, ca, cores@);
            }
            let ghost wa = lists_of(wt);
            let ghost ca = cores@;
            fetch(cores, &mut wt, &k1, dir, Ghost(orig));
            proof {
                lemma_cache_listed_fetch(wa, lists_of(wt), ca, orig, dir, key_code(k1));
                lemma_kept_trans(orig, ca, cores@);
                src = lemma_tracked_fetch(wa, lists_of(wt), src, tried, ca, cores@, orig, dir, side, key_code(k1));
                tried = tried.insert(key_code(k1));
                lemma_nnk_trans(ci, ca, cores@);
            }
            let ghost wa = lists_of(wt);
            let ghost ca = cores@;
            fetch(cores, &mut wt, &k2, dir, Ghost(orig));
            proof {
                lemma_cache_listed_fetch(wa, lists_of(wt), ca, orig, dir, key_code(k2));
                lemma_kept_trans(orig, ca, cores@);
                src = lemma_tracked_fetch(wa, lists_of(wt), src, tried, ca, cores@, orig, dir, side, key_code(k2));
                tried = tried.insert(key_code(k2));
                lemma_nnk_trans(ci, ca, cores@);
            }
            let c0 = code_of(current, NONE, NONE);
            let c1 = code_of(last_word, current, NONE);
            let c2 = code_of(last_word2, last_word, current);
            let n1 = cached_len(&wt, c1);
            let n2 = cached_len(&wt, c2);
            let mut r: u32 = 0;
            if n1 == 0 || n2 > 0 {
                let ghost before = cores@;
                r = draw_at(cores, 0);
                proof {
                    lemma_draw_keeps(before, cores@, orig, dir, lists_of(wt));
                    lemma_nnk_same(before, cores@);
                    lemma_nnk_trans(ci, before, cores@);
                    lemma_tracked_cores(lists_of(wt), src, tried, before, cores@, orig, dir, side);
                }
            }
            if n1 == 0 && stops_by_chance(r, ideal, len) {
                proof {
                    assert(ideal < len) by (nonlinear_arith)
                        requires
                            (ideal as int) * 0x1_0000_0000 < r as int * len as int,
                            r <= 0xffff_ffff,
                    ;
                    lemma_tracked_exhausted(lists_of(wt), src, tried, cores@, orig, dir, side, c1);
                    lemma_context_keep(sentence@, front, front + seed.len(), orig, ci, cores@);
                    lemma_stop_here(sentence@, front, front + seed.len(), dir, orig, cores@, ideal, strict_limit, last_word2, last_word, current, len as int);
                    if dir == 1 {
                        lemma_stopped_keep(orig, ci, cores@, 0u8, word_or_end_from(sentence@, 2, front + seed.len()), word_or_end_from(sentence@, 1, front + seed.len()), sentence@[0], front + seed.len(), ideal, strict_limit, sentence@.subrange(0, front));
                    }
                }
                break;
            }
            let ctx = context_choice(n1, n2, r);
            let code: u128 = if ctx == 1 {
                c0
            } else if ctx == 2 {
                c1
            } else {
                c2
            };
            proof {
                via0 = n1 == 0;
            }
            assert(code == code3(current, NONE, NONE) || code == code3(last_word, current, NONE)
                || code == code3(last_word2, last_word, current));
            let ghost wa = lists_of(wt);
            let ghost cb = cores@;
            let picked = take_word(cores, &mut wt, code, ideal, len, strict_limit, dir, Ghost(orig));
            proof {
                lemma_kept_same(cb, cores@);
                lemma_kept_trans(orig, cb, cores@);
                lemma_nnk_same(cb, cores@);
                lemma_nnk_trans(ci, cb, cores@);
                if dir == 1 {
                    lemma_stopped_keep(orig, ci, cores@, 0u8, word_or_end_from(sentence@, 2, front + seed.len()), word_or_end_from(sentence@, 1, front + seed.len()), sentence@[0], front + seed.len(), ideal, strict_limit, sentence@.subrange(0, front));
                }
                lemma_cache_listed_take(wa, lists_of(wt), orig, dir, code);
                if let Some(w) = picked {
                    let k = choose|i: int|
                        0 <= i < wa[code].len() && wa[code][i] == w && lists_of(wt) == wa.insert(
                            code,
                            #[trigger] wa[code].remove(i),
                        );
                    assert(wa.contains_key(code) && wa[code][k] == w);
                    assert(listed(orig, dir, code, w));
                    assert(listed_by(orig, dir, last_word2, last_word, current, w));
                    lemma_tracked_cores(wa, src, tried, cb, cores@, orig, dir, side);
                    if ctx == 1 {
                        lemma_tracked_exhausted(wa, src, tried, cores@, orig, dir, side, c1);
                    }
                    assert(word_in_context(orig, cores@, dir, last_word2, last_word, current, w, side));
                }
                lemma_context_keep(sentence@, front, front + seed.len(), orig, ci, cores@);
            }
            match picked {
                None => {
                    proof {
                        lemma_tracked_cores(wa, src, tried, cb, cores@, orig, dir, side);
                        assert(lists_of(wt) == wa);
                        if !(ideal > 0 && strict_limit && len >= ideal / ((2 - dir) as usize)) {
                            assert(list_size(wa, code) == 0);
                            assert(via0);
                            lemma_tracked_exhausted(wa, src, tried, cores@, orig, dir, side, c1);
                            lemma_tracked_exhausted(wa, src, tried, cores@, orig, dir, side, c0);
                        }
                        lemma_stop_here(sentence@, front, front + seed.len(), dir, orig, cores@, ideal, strict_limit, last_word2, last_word, current, len as int);
                    }
                    break;
                },
                Some(word) => {
                    if word == END {
                        proof {
                            lemma_stop_here(sentence@, front, front + seed.len(), dir, orig, cores@, ideal, strict_limit, last_word2, last_word, current, len as int);
                        }
                        break;
                    }
                    let ghost k = choose|i: int|
                        0 <= i < wa[code].len() && wa[code][i] == word && lists_of(wt) == wa.insert(
                            code,
                            #[trigger] wa[code].remove(i),
                        );
                    proof {
                        lemma_tracked_cores(wa, src, tried, cb, cores@, orig, dir, side);
                    }
                    let ghost s0 = sentence@;
                    if dir == 0 {
                        sentence.insert(0, word);
                        proof {
                            assert(sentence@ =~= seq![word] + s0);
                            lemma_along_front(s0, word, front, front + seed.len(), orig, last_word, last_word2);
                            lemma_context_front(s0, word, front, front + seed.len(), orig, cores@, last_word, last_word2);
                            lemma_tracked_grow(wa, lists_of(wt), src, tried, cores@, orig, dir, s0, sentence@, front, front + seed.len(), word, code, k);
                            front = front + 1;
                            assert(sentence@.subrange(front, front + seed.len()) =~= s0.subrange(
                                front - 1,
                                front - 1 + seed.len(),
                            ));
                            assert forall|i: int|
                                0 <= i < sentence@.len() && !(front <= i < front + seed.len()) implies #[trigger] sentence@[i]
                                != END && held(orig, sentence@[i]) by {
                                if i > 0 {
                                    assert(sentence@[i] == s0[i - 1]);
                                }
                            }
                        }
                    } else {
                        sentence.push(word);
                        proof {
                            lemma_along_back(s0, word, front, front + seed.len(), orig, last_word, last_word2);
                            lemma_context_back(s0, word, front, front + seed.len(), orig, cores@, last_word, last_word2);
                            lemma_tracked_grow(wa, lists_of(wt), src, tried, cores@, orig, dir, s0, sentence@, front, front + seed.len(), word, code, k);
                            lemma_front_push(s0, word, front, front + seed.len(), orig, cores@, ideal, strict_limit);
                            assert(sentence@.subrange(front, front + seed.len()) =~= s0.subrange(
                                front,
                                front + seed.len(),
                            ));
                            assert forall|i: int|
                                0 <= i < sentence@.len() && !(front <= i < front + seed.len()) implies #[trigger] sentence@[i]
                                != END && held(orig, sentence@[i]) by {
                                if i < s0.len() {
                                    assert(sentence@[i] == s0[i]);
                                }
                            }
                        }
                    }
                },
            }
            last_word2 = last_word;
            last_word = current;
        }
        dir = dir + 1;
    }
    sentence
}

impl ChainCore {
    /// Grows a sentence from the words of `best` with this chain alone:
    /// first backwards, then forwards, each way until the chain lists the
    /// end of a line, has nothing more to draw, or the limit is reached
    /// (see `generate_in_line` and `generated`).
    pub fn generate(&mut self, best: Key, ideal: usize, strict_limit: bool) -> (r: Vec<u32>)
        requires
            old(self).wf(),
            seed_of(best@).len() > 0,
        ensures
            consumed_from(seq![*old(self)], seq![*final(self)]),
            exists|front: int| grown_from(r@, seed_of(best@), front, seq![*old(self)]),
            exists|front: int|
                grown_from(r@, seed_of(best@), front, seq![*old(self)]) && #[trigger] grown_along(
                    r@,
                    front,
                    front + seed_of(best@).len(),
                    seq![*old(self)],
                ),
            strict_limit && ideal > 0 ==> r@.len() <= cap_len(seed_of(best@).len(), ideal as nat),
            old(self).consume_chance() == 0 ==> final(self).forward() == old(self).forward()
                && final(self).backward() == old(self).backward(),
            generated(r@, best@, ideal, strict_limit, seq![*old(self)], seq![*final(self)]),
    {
        let mut own = ChainCore::new();
        std::mem::swap(self, &mut own);
        let mut cores: Vec<ChainCore> = Vec::new();
        cores.push(own);
        assert(cores@ =~= seq![*old(self)]);
        let r = generate_in_line(&mut cores, best, ideal, strict_limit);
        let ghost after = cores@;
        match cores.pop() {
            Some(mut back) => {
                assert(after =~= seq![back]);
                std::mem::swap(self, &mut back);
            },
            None => {},
        }
        r
    }
}

/// The key whose code is `c`.
pub open spec fn key_of_code(c: u128) -> Seq<u32> {
    seq![
        (c / 0x1_0000_0000_0000_0000) as u32,
        ((c / 0x1_0000_0000) % 0x1_0000_0000) as u32,
        (c % 0x1_0000_0000) as u32,
    ]
}

/// The key whose code is `c`.
fn decode(c: u128) -> (r: Key)
    requires
        c < 0x1_0000_0000_0000_0000_0000_0000,
    ensures
        r@ == key_of_code(c),
        key_code(r) == c,
{
    let a = (c / 0x1_0000_0000_0000_0000u128) as u32;
    let b = ((c / 0x1_0000_0000u128) % 0x1_0000_0000u128) as u32;
    let d = (c % 0x1_0000_0000u128) as u32;
    let r: Key = [a, b, d];
    assert(r@ =~= key_of_code(c));
    r
}

impl ChainCore {
    /// The number of keys with forward words.
    pub fn forward_len(&self) -> (r: usize)
        ensures
            r == self.forward().len(),
    {
        assert(self.forward().dom() =~= self.next@.dom());
        self.next.len()
    }

    /// The number of keys with backward words.
    pub fn backward_len(&self) -> (r: usize)
        ensures
            r == self.backward().len(),
    {
        assert(self.backward().dom() =~= self.prev@.dom());
        self.prev.len()
    }

    /// The key at place `n` of the forward map, in the map's own order
    /// (which the hash map's seed decides).
    pub fn nth_forward_key(&self, n: usize) -> (r: Option<Key>)
        requires
            self.wf(),
        ensures
            r matches Some(k) ==> self.forward().contains_key(key_code(k)),
            r is Some <==> n < self.forward().len(),
    {
        assert(self.forward().dom() =~= self.next@.dom());
        let mut i: usize = 0;
        let ghost ks = vstd::std_specs::iter::IteratorSpec::remaining(&vstd::std_specs::hash::spec_keys_iter(&self.next));
        assert(ks.unref().to_set() == self.next@.dom());
        assert forall|j: int| 0 <= j < ks.len() implies self.next@.dom().contains(*#[trigger] ks[j]) by {
            assert(ks.unref()[j] == *ks[j]);
            assert(ks.unref().to_set().contains(ks.unref()[j]));
        }
        for c in it: self.next.keys()
            invariant
                i == it.index(),
                i <= n,
                self.wf(),
                self.forward().dom() == self.next@.dom(),
                ks.len() == self.next@.dom().len(),
                it.seq() == ks,
                forall|j: int| 0 <= j < ks.len() ==> self.next@.dom().contains(*#[trigger] ks[j]),
        {
            if i == n {
                let k = decode(*c);
                assert(it.index() < ks.len());
                return Some(k);
            }
            i = i + 1;
        }
        None
    }
}

impl ChainCore {
    /// How strongly the chain keeps to its own lists, in millionths.
    pub fn strength(&self) -> (r: u32)
        ensures
            r == self.strength_level(),
    {
        self.strength
    }

    /// Sets how strongly the chain keeps to its own lists, in millionths.
    pub fn set_strength(&mut self, strength: u32)
        ensures
            final(self).strength_level() == strength,
            final(self).consume_chance() == old(self).consume_chance(),
            final(self).forward() == old(self).forward(),
            final(self).backward() == old(self).backward(),
    {
        self.strength = strength;
    }

    /// The chance, in millionths, that a lookup consumes the list it reads.
    pub fn consume(&self) -> (r: u32)
        ensures
            r == self.consume_chance(),
    {
        self.consume
    }

    /// Sets the chance, in millionths, that a lookup consumes its list.
    pub fn set_consume(&mut self, consume: u32)
        ensures
            final(self).consume_chance() == consume,
            final(self).strength_level() == old(self).strength_level(),
            final(self).forward() == old(self).forward(),
            final(self).backward() == old(self).backward(),
    {
        self.consume = consume;
    }

    /// The list of `key` in direction `dir` (0 for backward), without
    /// changing anything.
    pub fn list_of(&self, key: &Key, dir: u8) -> (r: Option<Vec<u32>>)
        ensures
            match r {
                Some(l) => self.lists(dir).contains_key(key_code(*key)) && l@ == self.lists(dir)[key_code(
                    *key,
                )],
                None => !self.lists(dir).contains_key(key_code(*key)),
            },
    {
        let code = code_of(key[0], key[1], key[2]);
        let map = if dir == 0 { &self.prev } else { &self.next };
        match map.get(&code) {
            Some(l) => Some(l.clone()),
            None => None,
        }
    }
}

} // verus!
