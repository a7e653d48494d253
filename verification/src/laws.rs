//! Properties of the chain that hold across calls: what learning keeps and
//! what it makes readable, and how the chances that steer a chain behave.
use vstd::prelude::*;
use crate::chain::{
    code3, learn_backward, learn_forward, push_word, map_mass, lemma_mass_remove, forward_step, backward_step, spec_chance, spec_strength_bound, padded,
    END, MILLION, NONE,
};

verus! {

/// Every list of `a` is the start of the list of the same key in `b`: `b`
/// comes from `a` by appending words.
pub open spec fn extends(a: Map<u128, Seq<u32>>, b: Map<u128, Seq<u32>>) -> bool {
    forall|c: u128|
        #[trigger] a.contains_key(c) ==> b.contains_key(c) && a[c].len() <= b[c].len()
            && b[c].subrange(0, a[c].len() as int) == a[c]
}

/// The list of `c` in `m` holds `w`.
pub open spec fn holds(m: Map<u128, Seq<u32>>, c: u128, w: u32) -> bool {
    m.contains_key(c) && m[c].contains(w)
}

proof fn lemma_extends_refl(a: Map<u128, Seq<u32>>)
    ensures
        extends(a, a),
{
    assert forall|c: u128| #[trigger] a.contains_key(c) implies a.contains_key(c) && a[c].len()
        <= a[c].len() && a[c].subrange(0, a[c].len() as int) == a[c] by {
        assert(a[c].subrange(0, a[c].len() as int) =~= a[c]);
    }
}

proof fn lemma_extends_trans(a: Map<u128, Seq<u32>>, b: Map<u128, Seq<u32>>, c: Map<u128, Seq<u32>>)
    requires
        extends(a, b),
        extends(b, c),
    ensures
        extends(a, c),
{
    assert forall|k: u128| #[trigger] a.contains_key(k) implies c.contains_key(k) && a[k].len()
        <= c[k].len() && c[k].subrange(0, a[k].len() as int) == a[k] by {
        assert(b.contains_key(k));
        assert(c[k].subrange(0, a[k].len() as int) =~= c[k].subrange(0, b[k].len() as int).subrange(
            0,
            a[k].len() as int,
        ));
    }
}

proof fn lemma_push_extends(m: Map<u128, Seq<u32>>, code: u128, w: u32)
    ensures
        extends(m, push_word(m, code, w)),
        holds(push_word(m, code, w), code, w),
{
    let n = push_word(m, code, w);
    assert forall|c: u128| #[trigger] m.contains_key(c) implies n.contains_key(c) && m[c].len()
        <= n[c].len() && n[c].subrange(0, m[c].len() as int) == m[c] by {
        if c == code {
            assert(n[c] == m[c].push(w));
            assert(n[c].subrange(0, m[c].len() as int) =~= m[c]);
        } else {
            assert(n[c] == m[c]);
            assert(n[c].subrange(0, m[c].len() as int) =~= m[c]);
        }
    }
    if m.contains_key(code) {
        assert(n[code][m[code].len() as int] == w);
    } else {
        assert(n[code][0] == w);
    }
}

proof fn lemma_extends_holds(a: Map<u128, Seq<u32>>, b: Map<u128, Seq<u32>>, c: u128, w: u32)
    requires
        extends(a, b),
        holds(a, c, w),
    ensures
        holds(b, c, w),
{
    let j = choose|j: int| 0 <= j < a[c].len() && a[c][j] == w;
    assert(b[c].subrange(0, a[c].len() as int)[j] == b[c][j]);
}

proof fn lemma_forward_grows(m: Map<u128, Seq<u32>>, k: Seq<u32>, i0: int, i: int)
    requires
        i0 <= i,
        k.len() >= i,
    ensures
        extends(learn_forward(m, k, i0), learn_forward(m, k, i)),
    decreases i - i0,
{
    if i == i0 {
        lemma_extends_refl(learn_forward(m, k, i0));
    } else {
        lemma_forward_grows(m, k, i0, i - 1);
        if i > 3 {
            let p = i - 1;
            let a = learn_forward(m, k, p);
            let w = k[p];
            let a1 = push_word(a, code3(k[p - 3], k[p - 2], k[p - 1]), w);
            let a2 = push_word(a1, code3(k[p - 2], k[p - 1], NONE), w);
            lemma_push_extends(a, code3(k[p - 3], k[p - 2], k[p - 1]), w);
            lemma_push_extends(a1, code3(k[p - 2], k[p - 1], NONE), w);
            lemma_push_extends(a2, code3(k[p - 1], NONE, NONE), w);
            lemma_extends_trans(a, a1, a2);
            lemma_extends_trans(a, a2, learn_forward(m, k, i));
            lemma_extends_trans(learn_forward(m, k, i0), a, learn_forward(m, k, i));
        } else {
            lemma_extends_refl(learn_forward(m, k, i));
        }
    }
}

proof fn lemma_backward_grows(m: Map<u128, Seq<u32>>, k: Seq<u32>, i0: int, i: int)
    requires
        i0 <= i,
        k.len() >= i + 2,
    ensures
        extends(learn_backward(m, k, i0), learn_backward(m, k, i)),
    decreases i - i0,
{
    if i == i0 {
        lemma_extends_refl(learn_backward(m, k, i0));
    } else {
        lemma_backward_grows(m, k, i0, i - 1);
        if i > 2 {
            let p = i - 1;
            let a = learn_backward(m, k, p);
            let w = k[p - 1];
            let a1 = push_word(a, code3(k[p + 2], k[p + 1], k[p]), w);
            let a2 = push_word(a1, code3(k[p + 1], k[p], NONE), w);
            lemma_push_extends(a, code3(k[p + 2], k[p + 1], k[p]), w);
            lemma_push_extends(a1, code3(k[p + 1], k[p], NONE), w);
            lemma_push_extends(a2, code3(k[p], NONE, NONE), w);
            lemma_extends_trans(a, a1, a2);
            lemma_extends_trans(a, a2, learn_backward(m, k, i));
            lemma_extends_trans(learn_backward(m, k, i0), a, learn_backward(m, k, i));
        } else {
            lemma_extends_refl(learn_backward(m, k, i));
        }
    }
}

/// Learning only appends: after a line is learned, every list the chain
/// held before is still there, as the start of the list of its key, in
/// both directions.
pub proof fn law_learn_only_appends(m_forward: Map<u128, Seq<u32>>, m_backward: Map<u128, Seq<u32>>, keys: Seq<u32>)
    ensures
        extends(m_forward, learn_forward(m_forward, padded(keys), keys.len() + 2int)),
        extends(m_backward, learn_backward(m_backward, padded(keys), keys.len() + 2int)),
{
    let k = padded(keys);
    assert(k.len() == keys.len() + 4);
    lemma_forward_grows(m_forward, k, 0, keys.len() + 2int);
    lemma_backward_grows(m_backward, k, 0, keys.len() + 2int);
}

/// Appending a word to a list adds one word to the map.
proof fn lemma_push_mass(m: Map<u128, Seq<u32>>, code: u128, w: u32)
    requires
        m.dom().finite(),
    ensures
        push_word(m, code, w).dom().finite(),
        map_mass(push_word(m, code, w)) == map_mass(m) + 1,
{
    let n = push_word(m, code, w);
    assert(n.dom() =~= m.dom().insert(code));
    lemma_mass_remove(n, code);
    if m.contains_key(code) {
        lemma_mass_remove(m, code);
        assert(n.remove(code) =~= m.remove(code));
    } else {
        assert(n.remove(code) =~= m);
    }
}

proof fn lemma_forward_mass(m: Map<u128, Seq<u32>>, k: Seq<u32>, i: int)
    requires
        m.dom().finite(),
    ensures
        learn_forward(m, k, i).dom().finite(),
        map_mass(learn_forward(m, k, i)) == map_mass(m) + 3 * (if i > 3 { i - 3 } else { 0 }),
    decreases i,
{
    if i > 3 {
        lemma_forward_mass(m, k, i - 1);
        let a = learn_forward(m, k, i - 1);
        let j = i - 1;
        let w = k[j];
        let a1 = push_word(a, code3(k[j - 3], k[j - 2], k[j - 1]), w);
        let a2 = push_word(a1, code3(k[j - 2], k[j - 1], NONE), w);
        lemma_push_mass(a, code3(k[j - 3], k[j - 2], k[j - 1]), w);
        lemma_push_mass(a1, code3(k[j - 2], k[j - 1], NONE), w);
        lemma_push_mass(a2, code3(k[j - 1], NONE, NONE), w);
        assert(learn_forward(m, k, i) == forward_step(a, k, j));
    }
}

proof fn lemma_backward_mass(m: Map<u128, Seq<u32>>, k: Seq<u32>, i: int)
    requires
        m.dom().finite(),
    ensures
        learn_backward(m, k, i).dom().finite(),
        map_mass(learn_backward(m, k, i)) == map_mass(m) + 3 * (if i > 2 { i - 2 } else { 0 }),
    decreases i,
{
    if i > 2 {
        lemma_backward_mass(m, k, i - 1);
        let a = learn_backward(m, k, i - 1);
        let j = i - 1;
        let w = k[j - 1];
        let a1 = push_word(a, code3(k[j + 2], k[j + 1], k[j]), w);
        let a2 = push_word(a1, code3(k[j + 1], k[j], NONE), w);
        lemma_push_mass(a, code3(k[j + 2], k[j + 1], k[j]), w);
        lemma_push_mass(a1, code3(k[j + 1], k[j], NONE), w);
        lemma_push_mass(a2, code3(k[j], NONE, NONE), w);
        assert(learn_backward(m, k, i) == backward_step(a, k, j));
    }
}

/// Learning a line of `n` words adds three words to the forward lists for
/// each word of the line but the first, and three to the backward lists
/// for each word of the line: `3 * (n - 1)` (nothing for an empty line)
/// and `3 * n` words in all.
pub proof fn law_learn_totals(m_forward: Map<u128, Seq<u32>>, m_backward: Map<u128, Seq<u32>>, keys: Seq<u32>)
    requires
        m_forward.dom().finite(),
        m_backward.dom().finite(),
    ensures
        map_mass(learn_forward(m_forward, padded(keys), keys.len() + 2int)) == map_mass(m_forward) + 3 * (
        if keys.len() > 0 {
            keys.len() - 1
        } else {
            0
        }),
        map_mass(learn_backward(m_backward, padded(keys), keys.len() + 2int)) == map_mass(m_backward) + 3
            * keys.len(),
        keys.len() == 0 ==> learn_forward(m_forward, padded(keys), keys.len() + 2int) == m_forward
            && learn_backward(m_backward, padded(keys), keys.len() + 2int) == m_backward,
{
    lemma_forward_mass(m_forward, padded(keys), keys.len() + 2int);
    lemma_backward_mass(m_backward, padded(keys), keys.len() + 2int);
}

/// A learned line can be read back forwards: in the line with its `END`
/// marks (`padded(keys)`), each word at position `p` from the second word
/// on is in the forward lists of the one word, the two words and the three
/// words just before it.
pub proof fn law_learned_word_follows(m: Map<u128, Seq<u32>>, keys: Seq<u32>, p: int)
    requires
        3 <= p < keys.len() + 2,
    ensures
        ({
            let k = padded(keys);
            let f = learn_forward(m, k, keys.len() + 2int);
            &&& holds(f, code3(k[p - 1], NONE, NONE), k[p])
            &&& holds(f, code3(k[p - 2], k[p - 1], NONE), k[p])
            &&& holds(f, code3(k[p - 3], k[p - 2], k[p - 1]), k[p])
        }),
{
    let k = padded(keys);
    let n = keys.len() + 2int;
    let a = learn_forward(m, k, p);
    let w = k[p];
    let c3 = code3(k[p - 3], k[p - 2], k[p - 1]);
    let c2 = code3(k[p - 2], k[p - 1], NONE);
    let c1 = code3(k[p - 1], NONE, NONE);
    let a1 = push_word(a, c3, w);
    let a2 = push_word(a1, c2, w);
    let a3 = push_word(a2, c1, w);
    lemma_push_extends(a, c3, w);
    lemma_push_extends(a1, c2, w);
    lemma_push_extends(a2, c1, w);
    lemma_extends_holds(a1, a2, c3, w);
    lemma_extends_holds(a2, a3, c3, w);
    lemma_extends_holds(a2, a3, c2, w);
    assert(learn_forward(m, k, p + 1) == a3);
    lemma_forward_grows(m, k, p + 1, n);
    lemma_extends_holds(a3, learn_forward(m, k, n), c1, w);
    lemma_extends_holds(a3, learn_forward(m, k, n), c2, w);
    lemma_extends_holds(a3, learn_forward(m, k, n), c3, w);
}

/// A learned line can be read back backwards: in the line with its `END`
/// marks, the word just before each word of the line (position `p`) is in
/// the backward lists of that word, of it and the word after it, and of it
/// and the two words after it.
pub proof fn law_learned_word_precedes(m: Map<u128, Seq<u32>>, keys: Seq<u32>, p: int)
    requires
        2 <= p < keys.len() + 2,
    ensures
        ({
            let k = padded(keys);
            let b = learn_backward(m, k, keys.len() + 2int);
            &&& holds(b, code3(k[p], NONE, NONE), k[p - 1])
            &&& holds(b, code3(k[p + 1], k[p], NONE), k[p - 1])
            &&& holds(b, code3(k[p + 2], k[p + 1], k[p]), k[p - 1])
        }),
{
    let k = padded(keys);
    let n = keys.len() + 2int;
    let a = learn_backward(m, k, p);
    let w = k[p - 1];
    let c3 = code3(k[p + 2], k[p + 1], k[p]);
    let c2 = code3(k[p + 1], k[p], NONE);
    let c1 = code3(k[p], NONE, NONE);
    let a1 = push_word(a, c3, w);
    let a2 = push_word(a1, c2, w);
    let a3 = push_word(a2, c1, w);
    lemma_push_extends(a, c3, w);
    lemma_push_extends(a1, c2, w);
    lemma_push_extends(a2, c1, w);
    lemma_extends_holds(a1, a2, c3, w);
    lemma_extends_holds(a2, a3, c3, w);
    lemma_extends_holds(a2, a3, c2, w);
    assert(learn_backward(m, k, p + 1) == a3);
    lemma_backward_grows(m, k, p + 1, n);
    lemma_extends_holds(a3, learn_backward(m, k, n), c1, w);
    lemma_extends_holds(a3, learn_backward(m, k, n), c2, w);
    lemma_extends_holds(a3, learn_backward(m, k, n), c3, w);
}

/// A chance of nothing never comes up, and a chance of a whole (or more)
/// always does, whatever the draw: a chain that never consumes keeps its
/// lists, and one that always consumes removes each list it reads.
pub proof fn law_chance_edges(r: u32, ppm: u32)
    ensures
        !spec_chance(r, 0),
        ppm >= MILLION ==> spec_chance(r, ppm),
{
    if ppm >= MILLION {
        assert((ppm as int) * 0x1_0000_0000 >= (MILLION as int) * 0x1_0000_0000) by (nonlinear_arith)
            requires
                ppm >= MILLION,
        ;
        assert((r as int) * (MILLION as int) < 0x1_0000_0000 * (MILLION as int)) by (nonlinear_arith)
            requires
                r < 0x1_0000_0000,
        ;
    }
}

/// A lower strength makes the parent's lists weigh more: for a list of at
/// least one word, the bound that a chain's own list is weighed with never
/// grows when the strength drops.
pub proof fn law_strength_monotone(len: nat, s1: u32, s2: u32)
    requires
        len >= 1,
        s1 <= s2,
    ensures
        spec_strength_bound(len, s1) <= spec_strength_bound(len, s2),
{
    let m = MILLION as int;
    let v1 = (len * len * s1 + m - s1) / m;
    let v2 = (len * len * s2 + m - s2) / m;
    assert(len * len >= 1) by (nonlinear_arith)
        requires
            len >= 1,
    ;
    assert(len * len * s1 + m - s1 <= len * len * s2 + m - s2) by (nonlinear_arith)
        requires
            len * len >= 1,
            s1 <= s2,
    ;
    assert(v1 <= v2) by (nonlinear_arith)
        requires
            len * len * s1 + m - s1 <= len * len * s2 + m - s2,
            m > 0,
            v1 == (len * len * s1 + m - s1) / m,
            v2 == (len * len * s2 + m - s2) / m,
    ;
}

} // verus!
