//! The text rules: splitting lines into words and sentences, joining them
//! back, and the patterns that the chat lines are matched against.
use vstd::prelude::*;
use crate::trusted::{
    is_word_char, lowercase, push_char, random_u32, spec_is_word_char, spec_lowercase,
    spec_uppercase, uppercase,
};
use vstd::hash_map::StringHashMap;

verus! {

/// The characters of `s`, in order.
pub fn chars_of(s: &str) -> (r: Vec<char>)
    ensures
        r@ == s@,
{
    let mut r: Vec<char> = Vec::new();
    for c in it: s.chars()
        invariant
            r@ == it.seq().subrange(0, it.index() as int),
    {
        r.push(c);
    }
    r
}

/// The pieces of `s` between the occurrences of `sep`, as `str::split`
/// gives them: one more piece than there are separators.
pub open spec fn split_on(s: Seq<char>, sep: char) -> Seq<Seq<char>>
    decreases s.len(),
{
    if s.len() == 0 {
        seq![Seq::<char>::empty()]
    } else {
        let p = split_on(s.drop_last(), sep);
        if s.last() == sep {
            p.push(Seq::<char>::empty())
        } else {
            p.update(p.len() - 1, p.last().push(s.last()))
        }
    }
}

/// The pieces of `parts` with `sep` between each two.
pub open spec fn join_with(parts: Seq<Seq<char>>, sep: Seq<char>) -> Seq<char>
    decreases parts.len(),
{
    if parts.len() == 0 {
        Seq::<char>::empty()
    } else if parts.len() == 1 {
        parts[0]
    } else {
        join_with(parts.drop_last(), sep) + sep + parts.last()
    }
}

/// The text of each string of `v`.
pub open spec fn texts(v: Seq<String>) -> Seq<Seq<char>> {
    v.map_values(|x: String| x@)
}

pub proof fn lemma_split_nonempty(s: Seq<char>, sep: char)
    ensures
        split_on(s, sep).len() >= 1,
    decreases s.len(),
{
    if s.len() > 0 {
        lemma_split_nonempty(s.drop_last(), sep);
    }
}

/// A string holding the characters `cs[from..to]`.
pub fn string_of(cs: &Vec<char>, from: usize, to: usize) -> (r: String)
    requires
        from <= to <= cs@.len(),
    ensures
        r@ == cs@.subrange(from as int, to as int),
{
    let mut r = String::new();
    let mut i = from;
    while i < to
        invariant
            from <= i <= to <= cs@.len(),
            r@ == cs@.subrange(from as int, i as int),
        decreases to - i,
    {
        push_char(&mut r, cs[i]);
        i = i + 1;
        assert(r@ =~= cs@.subrange(from as int, i as int));
    }
    r
}

/// Splits `s` at every `sep`, as `str::split` does.
pub fn split_chars(s: &str, sep: char) -> (r: Vec<String>)
    ensures
        texts(r@) == split_on(s@, sep),
{
    let cs = chars_of(s);
    let mut r: Vec<String> = Vec::new();
    let mut start: usize = 0;
    let mut i: usize = 0;
    assert(cs@.subrange(0, 0) =~= Seq::<char>::empty());
    assert(texts(r@) =~= Seq::<Seq<char>>::empty());
    assert(texts(r@).push(cs@.subrange(0, 0)) =~= split_on(cs@.subrange(0, 0), sep));
    while i < cs.len()
        invariant
            cs@ == s@,
            start <= i <= cs@.len(),
            texts(r@).push(cs@.subrange(start as int, i as int)) == split_on(cs@.subrange(0, i as int), sep),
        decreases cs@.len() - i,
    {
        let ghost pre = cs@.subrange(0, i as int);
        let ghost next = cs@.subrange(0, i + 1);
        assert(next.drop_last() =~= pre);
        assert(next.last() == cs@[i as int]);
        if cs[i] == sep {
            let piece = string_of(&cs, start, i);
            let ghost t0 = texts(r@);
            r.push(piece);
            assert(texts(r@) =~= t0.push(piece@));
            start = i + 1;
            assert(cs@.subrange(start as int, i + 1) =~= Seq::<char>::empty());
            assert(split_on(next, sep) == split_on(pre, sep).push(Seq::<char>::empty()));
            assert(texts(r@).push(cs@.subrange(start as int, i + 1)) =~= split_on(next, sep));
        } else {
            proof { lemma_split_nonempty(pre, sep); }
            assert(cs@.subrange(start as int, i + 1) =~= cs@.subrange(start as int, i as int).push(cs@[i as int]));
            assert(texts(r@).push(cs@.subrange(start as int, i + 1)) =~= split_on(next, sep));
        }
        i = i + 1;
    }
    let last = string_of(&cs, start, cs.len());
    let ghost t0 = texts(r@);
    r.push(last);
    assert(texts(r@) =~= t0.push(last@));
    assert(cs@.subrange(0, cs@.len() as int) =~= cs@);
    assert(texts(r@) =~= split_on(s@, sep));
    r
}

/// The strings of `parts` with `sep` between each two.
pub fn join(parts: &Vec<String>, sep: &str) -> (r: String)
    ensures
        r@ == join_with(texts(parts@), sep@),
{
    let mut r = String::new();
    let mut i: usize = 0;
    while i < parts.len()
        invariant
            i <= parts@.len(),
            r@ == join_with(texts(parts@).subrange(0, i as int), sep@),
        decreases parts@.len() - i,
    {
        let ghost pre = texts(parts@).subrange(0, i as int);
        let ghost next = texts(parts@).subrange(0, i + 1);
        assert(next.drop_last() =~= pre);
        if i > 0 {
            r.append(sep);
        }
        r.append(parts[i].as_str());
        i = i + 1;
        proof {
            if i == 1 {
                assert(r@ =~= join_with(next, sep@));
            } else {
                assert(r@ =~= join_with(next, sep@));
            }
        }
    }
    assert(texts(parts@).subrange(0, parts@.len() as int) =~= texts(parts@));
    r
}

/// `p` stands in `s` at position `i`.
pub open spec fn occurs_at(s: Seq<char>, p: Seq<char>, i: int) -> bool {
    0 <= i && i + p.len() <= s.len() && s.subrange(i, i + p.len()) == p
}

/// `http:`
pub open spec fn http_mark() -> Seq<char> {
    seq!['h', 't', 't', 'p', ':']
}

/// `https:`
pub open spec fn https_mark() -> Seq<char> {
    seq!['h', 't', 't', 'p', 's', ':']
}

/// A word taken for a link: it starts with `http:` or holds `https:`
/// anywhere (the pattern `^http:|https:`).
pub open spec fn is_url(w: Seq<char>) -> bool {
    occurs_at(w, http_mark(), 0) || exists|i: int| occurs_at(w, https_mark(), i)
}

/// A word in lowercase, unless it is a link.
pub open spec fn lower_unless_url(w: Seq<char>) -> Seq<char> {
    if is_url(w) {
        w
    } else {
        spec_lowercase(w)
    }
}

/// The space-separated words of `s`, each in lowercase unless it is a
/// link, joined again by single spaces.
pub open spec fn spec_lowercase_nonurl(s: Seq<char>) -> Seq<char> {
    join_with(split_on(s, ' ').map_values(|w: Seq<char>| lower_unless_url(w)), seq![' '])
}

/// Whether `pat` stands in `cs` at position `i`.
pub fn occurs_at_exec(cs: &Vec<char>, pat: &Vec<char>, i: usize) -> (r: bool)
    ensures
        r == occurs_at(cs@, pat@, i as int),
{
    if i > cs.len() || pat.len() > cs.len() - i {
        return false;
    }
    let mut j: usize = 0;
    while j < pat.len()
        invariant
            i + pat.len() <= cs.len(),
            j <= pat@.len(),
            forall|k: int| 0 <= k < j ==> cs@[i + k] == pat@[k],
        decreases pat@.len() - j,
    {
        if cs[i + j] != pat[j] {
            assert(cs@.subrange(i as int, i + pat@.len())[j as int] != pat@[j as int]);
            return false;
        }
        j = j + 1;
    }
    assert(cs@.subrange(i as int, i + pat@.len()) =~= pat@);
    true
}

/// Whether `pat` stands anywhere in `cs`.
pub fn occurs_in(cs: &Vec<char>, pat: &Vec<char>) -> (r: bool)
    ensures
        r == exists|i: int| occurs_at(cs@, pat@, i),
{
    let mut i: usize = 0;
    while i < cs.len()
        invariant
            i <= cs@.len(),
            forall|k: int| 0 <= k < i ==> !occurs_at(cs@, pat@, k),
        decreases cs@.len() - i,
    {
        if occurs_at_exec(cs, pat, i) {
            return true;
        }
        i = i + 1;
    }
    occurs_at_exec(cs, pat, cs.len())
}

/// Whether a word is taken for a link (see `is_url`).
pub fn url_word(w: &str) -> (r: bool)
    ensures
        r == is_url(w@),
{
    let cs = chars_of(w);
    let http = vec!['h', 't', 't', 'p', ':'];
    let https = vec!['h', 't', 't', 'p', 's', ':'];
    assert(http@ =~= http_mark());
    assert(https@ =~= https_mark());
    occurs_at_exec(&cs, &http, 0) || occurs_in(&cs, &https)
}

/// The space-separated words of `string`, each in lowercase unless it is a
/// link, joined again by single spaces.
pub fn lowercase_nonurl(string: &str) -> (r: String)
    ensures
        r@ == spec_lowercase_nonurl(string@),
{
    let parts = split_chars(string, ' ');
    let mut out: Vec<String> = Vec::new();
    let mut i: usize = 0;
    while i < parts.len()
        invariant
            i <= parts@.len(),
            texts(out@) == texts(parts@).subrange(0, i as int).map_values(|w: Seq<char>| lower_unless_url(w)),
        decreases parts@.len() - i,
    {
        let ghost t0 = texts(out@);
        let word = if url_word(parts[i].as_str()) {
            parts[i].clone()
        } else {
            lowercase(parts[i].as_str())
        };
        out.push(word);
        assert(texts(out@) =~= t0.push(word@));
        i = i + 1;
        assert(texts(out@) =~= texts(parts@).subrange(0, i as int).map_values(
            |w: Seq<char>| lower_unless_url(w),
        ));
    }
    assert(texts(parts@).subrange(0, parts@.len() as int) =~= texts(parts@));
    let sep = " ";
    proof {
        reveal_strlit(" ");
    }
    assert(sep@ =~= seq![' ']);
    join(&out, sep)
}

/// The character before position `i` of `t` is a word character.
pub open spec fn word_before(t: Seq<char>, i: int) -> bool {
    0 < i <= t.len() && spec_is_word_char(t[i - 1])
}

/// The character at position `i` of `t` is a word character.
pub open spec fn word_after(t: Seq<char>, i: int) -> bool {
    0 <= i < t.len() && spec_is_word_char(t[i])
}

/// Position `i` of `t` lies between a word character and a character that
/// is none (or the start or end of `t`): what `\b` matches.
pub open spec fn boundary(t: Seq<char>, i: int) -> bool {
    word_before(t, i) != word_after(t, i)
}

/// `p` stands in `t` at `i` with word boundaries on both sides: what the
/// pattern `\b` + `p` + `\b` matches at `i`.
pub open spec fn whole_word_at(t: Seq<char>, p: Seq<char>, i: int) -> bool {
    occurs_at(t, p, i) && boundary(t, i) && boundary(t, i + p.len())
}

/// `p` stands in `t` as a whole word somewhere.
pub open spec fn whole_word_in(t: Seq<char>, p: Seq<char>) -> bool {
    exists|i: int| 0 <= i <= t.len() && whole_word_at(t, p, i)
}

/// `t` from position `i` on, with every whole-word occurrence of `p`
/// replaced by `rep`, scanning left to right without overlaps.
pub open spec fn replace_from(t: Seq<char>, p: Seq<char>, rep: Seq<char>, i: int) -> Seq<char>
    decreases t.len() + 1 - i,
{
    if i < 0 || i > t.len() {
        Seq::<char>::empty()
    } else if whole_word_at(t, p, i) {
        if p.len() == 0 {
            if i < t.len() {
                rep + seq![t[i]] + replace_from(t, p, rep, i + 1)
            } else {
                rep
            }
        } else {
            rep + replace_from(t, p, rep, i + p.len())
        }
    } else if i < t.len() {
        seq![t[i]] + replace_from(t, p, rep, i + 1)
    } else {
        Seq::<char>::empty()
    }
}

/// The decimal digit `d`.
pub open spec fn digit_char(d: nat) -> char {
    (48 + d) as char
}

/// `n` written in decimal.
pub open spec fn decimal(n: nat) -> Seq<char>
    decreases n,
{
    if n < 10 {
        seq![digit_char(n)]
    } else {
        decimal(n / 10).push(digit_char(n % 10))
    }
}

/// The token that stands for the `i`-th name: `@name` + `i` + `@`.
pub open spec fn name_token(i: nat) -> Seq<char> {
    seq!['@', 'n', 'a', 'm', 'e'] + decimal(i) + seq!['@']
}

/// The index of the first pattern of `pats`, from `i` on, that stands in
/// `t` as a whole word; `pats.len()` when there is none.
pub open spec fn first_match(pats: Seq<Seq<char>>, t: Seq<char>, i: int) -> int
    decreases pats.len() - i,
{
    if i >= pats.len() || i < 0 {
        pats.len() as int
    } else if whole_word_in(t, pats[i]) {
        i
    } else {
        first_match(pats, t, i + 1)
    }
}

/// A word with the first name that it holds as a whole word (compared in
/// lowercase) replaced by that name's token; the word unchanged, in its own
/// case, when it holds none.
pub open spec fn replace_word(pats: Seq<Seq<char>>, w: Seq<char>) -> Seq<char> {
    let lw = spec_lowercase(w);
    let i = first_match(pats, lw, 0);
    if i < pats.len() {
        replace_from(lw, pats[i], name_token(i as nat), 0)
    } else {
        w
    }
}

/// The patterns that the names are looked for by: their lowercase forms.
pub open spec fn name_patterns(names: Seq<Seq<char>>) -> Seq<Seq<char>> {
    names.map_values(|n: Seq<char>| spec_lowercase(n))
}

/// The space-separated words of `s` with the names in them replaced by
/// their tokens (see `replace_word`), joined again by single spaces.
pub open spec fn spec_replace_names(s: Seq<char>, names: Seq<Seq<char>>) -> Seq<char> {
    join_with(
        split_on(s, ' ').map_values(|w: Seq<char>| replace_word(name_patterns(names), w)),
        seq![' '],
    )
}

/// Appends `n` in decimal to `s`.
pub fn push_decimal(s: &mut String, n: usize)
    ensures
        final(s)@ == old(s)@ + decimal(n as nat),
    decreases n,
{
    if n >= 10 {
        push_decimal(s, n / 10);
    }
    let d = (n % 10) as u32;
    let c = char_digit(d);
    push_char(s, c);
    assert(final(s)@ =~= old(s)@ + decimal(n as nat));
}

/// Appends the 64-bit number `n` in decimal to `s`.
pub fn push_decimal_u64(s: &mut String, n: u64)
    ensures
        final(s)@ == old(s)@ + decimal(n as nat),
    decreases n,
{
    if n >= 10 {
        push_decimal_u64(s, n / 10);
    }
    let d = (n % 10) as u32;
    let c = char_digit(d);
    push_char(s, c);
    assert(final(s)@ =~= old(s)@ + decimal(n as nat));
}

fn char_digit(d: u32) -> (c: char)
    requires
        d < 10,
    ensures
        c == digit_char(d as nat),
{
    if d == 0 {
        '0'
    } else if d == 1 {
        '1'
    } else if d == 2 {
        '2'
    } else if d == 3 {
        '3'
    } else if d == 4 {
        '4'
    } else if d == 5 {
        '5'
    } else if d == 6 {
        '6'
    } else if d == 7 {
        '7'
    } else if d == 8 {
        '8'
    } else {
        '9'
    }
}

/// The token of the `i`-th name.
pub fn token_for(i: usize) -> (r: String)
    ensures
        r@ == name_token(i as nat),
{
    let mut r = String::new();
    push_char(&mut r, '@');
    push_char(&mut r, 'n');
    push_char(&mut r, 'a');
    push_char(&mut r, 'm');
    push_char(&mut r, 'e');
    push_decimal(&mut r, i);
    push_char(&mut r, '@');
    assert(r@ =~= name_token(i as nat));
    r
}

/// Whether position `i` of `t` is a word boundary.
fn boundary_exec(t: &Vec<char>, i: usize) -> (r: bool)
    requires
        i <= t@.len(),
    ensures
        r == boundary(t@, i as int),
{
    let before = i > 0 && is_word_char(t[i - 1]);
    let after = i < t.len() && is_word_char(t[i]);
    before != after
}

/// Whether `p` stands in `t` at `i` as a whole word.
fn whole_word_at_exec(t: &Vec<char>, p: &Vec<char>, i: usize) -> (r: bool)
    requires
        i <= t@.len(),
    ensures
        r == whole_word_at(t@, p@, i as int),
{
    if !occurs_at_exec(t, p, i) {
        return false;
    }
    assert(i + p@.len() <= t@.len());
    assert(t@.len() == t.len());
    boundary_exec(t, i) && boundary_exec(t, i + p.len())
}

/// Whether `p` stands anywhere in `t` as a whole word.
fn whole_word_in_exec(t: &Vec<char>, p: &Vec<char>) -> (r: bool)
    ensures
        r == whole_word_in(t@, p@),
{
    let mut i: usize = 0;
    while i < t.len()
        invariant
            i <= t@.len(),
            forall|k: int| 0 <= k < i ==> !whole_word_at(t@, p@, k),
        decreases t@.len() - i,
    {
        if whole_word_at_exec(t, p, i) {
            return true;
        }
        i = i + 1;
    }
    whole_word_at_exec(t, p, t.len())
}

/// `t` with every whole-word occurrence of `p` replaced by `rep`.
fn replace_whole_words(t: &Vec<char>, p: &Vec<char>, rep: &str) -> (r: String)
    ensures
        r@ == replace_from(t@, p@, rep@, 0),
{
    let mut out = String::new();
    let mut i: usize = 0;
    while i <= t.len()
        invariant
            i <= t@.len() + 1,
            out@ + replace_from(t@, p@, rep@, i as int) == replace_from(t@, p@, rep@, 0),
        decreases t@.len() + 1 - i,
    {
        let ghost o0 = out@;
        if whole_word_at_exec(t, p, i) {
            out.append(rep);
            if p.len() == 0 {
                if i < t.len() {
                    push_char(&mut out, t[i]);
                    assert(out@ =~= o0 + rep@ + seq![t@[i as int]]);
                    i = i + 1;
                } else {
                    assert(replace_from(t@, p@, rep@, i + 1) =~= Seq::<char>::empty());
                    assert(out@ + replace_from(t@, p@, rep@, i + 1) =~= o0 + replace_from(t@, p@, rep@, i as int));
                    return out;
                }
            } else {
                i = i + p.len();
            }
        } else {
            if i < t.len() {
                push_char(&mut out, t[i]);
                assert(out@ =~= o0 + seq![t@[i as int]]);
                i = i + 1;
            } else {
                assert(out@ + Seq::<char>::empty() =~= out@);
                return out;
            }
        }
    }
    assert(replace_from(t@, p@, rep@, i as int) =~= Seq::<char>::empty());
    assert(out@ + Seq::<char>::empty() =~= out@);
    out
}

/// The index of the first pattern of `pats` that stands in `t` as a whole
/// word, `pats.len()` when there is none.
fn first_match_exec(pats: &Vec<Vec<char>>, t: &Vec<char>) -> (r: usize)
    ensures
        r == first_match(pats@.map_values(|p: Vec<char>| p@), t@, 0),
{
    let ghost ps = pats@.map_values(|p: Vec<char>| p@);
    let mut i: usize = 0;
    while i < pats.len()
        invariant
            i <= pats@.len(),
            ps == pats@.map_values(|p: Vec<char>| p@),
            first_match(ps, t@, i as int) == first_match(ps, t@, 0),
        decreases pats@.len() - i,
    {
        if whole_word_in_exec(t, &pats[i]) {
            return i;
        }
        i = i + 1;
    }
    i
}

/// Replaces the names in the words of `string` by tokens: each
/// space-separated word that holds one of `names` (compared in lowercase)
/// as a whole word becomes its lowercase form with the first such name
/// replaced by `@name` + its index + `@`; the other words stay as they are.
pub fn replace_names(string: &str, names: &[String]) -> (r: String)
    ensures
        r@ == spec_replace_names(string@, names@.map_values(|n: String| n@)),
{
    let ghost pats_spec = name_patterns(names@.map_values(|n: String| n@));
    let mut pats: Vec<Vec<char>> = Vec::new();
    let mut k: usize = 0;
    while k < names.len()
        invariant
            k <= names@.len(),
            pats@.len() == k,
            pats@.map_values(|p: Vec<char>| p@) == pats_spec.subrange(0, k as int),
            pats_spec == name_patterns(names@.map_values(|n: String| n@)),
        decreases names@.len() - k,
    {
        let lower = lowercase(names[k].as_str());
        let cs = chars_of(lower.as_str());
        let ghost before = pats@.map_values(|p: Vec<char>| p@);
        assert(names@.map_values(|n: String| n@)[k as int] == names@[k as int]@);
        assert(pats_spec[k as int] == spec_lowercase(names@[k as int]@));
        assert(cs@ == pats_spec[k as int]);
        let ghost pre = pats@;
        pats.push(cs);
        k = k + 1;
        assert forall|j: int| 0 <= j < k implies #[trigger] pats@[j]@ == pats_spec[j] by {
            if j < k - 1 {
                assert(pats@[j] == pre[j]);
                assert(before[j] == pre[j]@);
                assert(before[j] == pats_spec.subrange(0, k - 1)[j]);
            }
        }
        assert(pats@.map_values(|p: Vec<char>| p@) =~= pats_spec.subrange(0, k as int));
    }
    assert(pats_spec.subrange(0, names@.len() as int) =~= pats_spec);
    let parts = split_chars(string, ' ');
    let mut out: Vec<String> = Vec::new();
    let mut i: usize = 0;
    while i < parts.len()
        invariant
            i <= parts@.len(),
            pats@.map_values(|p: Vec<char>| p@) == pats_spec,
            texts(out@) == texts(parts@).subrange(0, i as int).map_values(
                |w: Seq<char>| replace_word(pats_spec, w),
            ),
        decreases parts@.len() - i,
    {
        let ghost t0 = texts(out@);
        let lower = lowercase(parts[i].as_str());
        let lw = chars_of(lower.as_str());
        let index = first_match_exec(&pats, &lw);
        let word = if index < pats.len() {
            let token = token_for(index);
            replace_whole_words(&lw, &pats[index], token.as_str())
        } else {
            parts[i].clone()
        };
        assert(word@ == replace_word(pats_spec, texts(parts@)[i as int]));
        out.push(word);
        assert(texts(out@) =~= t0.push(word@));
        i = i + 1;
        assert(texts(out@) =~= texts(parts@).subrange(0, i as int).map_values(
            |w: Seq<char>| replace_word(pats_spec, w),
        ));
    }
    assert(texts(parts@).subrange(0, parts@.len() as int) =~= texts(parts@));
    let sep = " ";
    proof {
        reveal_strlit(" ");
    }
    assert(sep@ =~= seq![' ']);
    join(&out, sep)
}

/// The sentences of `s`: the pieces between the occurrences of `". "` and
/// of a line break, found from the left (the pattern `\. |\n`).
pub open spec fn split_sentences(s: Seq<char>) -> Seq<Seq<char>>
    decreases s.len(),
{
    if s.len() == 0 {
        seq![Seq::<char>::empty()]
    } else if s.len() >= 2 && s[0] == '.' && s[1] == ' ' {
        seq![Seq::<char>::empty()] + split_sentences(s.skip(2))
    } else if s[0] == '\n' {
        seq![Seq::<char>::empty()] + split_sentences(s.skip(1))
    } else {
        let rest = split_sentences(s.skip(1));
        rest.update(0, seq![s[0]] + rest[0])
    }
}

pub proof fn lemma_sentences_nonempty(s: Seq<char>)
    ensures
        split_sentences(s).len() >= 1,
    decreases s.len(),
{
    if s.len() > 0 {
        if s.len() >= 2 && s[0] == '.' && s[1] == ' ' {
            lemma_sentences_nonempty(s.skip(2));
        } else if s[0] == '\n' {
            lemma_sentences_nonempty(s.skip(1));
        } else {
            lemma_sentences_nonempty(s.skip(1));
        }
    }
}

/// Splits `s` into sentences (see `split_sentences`).
pub fn sentences(s: &str) -> (r: Vec<String>)
    ensures
        texts(r@) == split_sentences(s@),
        r@.len() >= 1,
{
    let cs = chars_of(s);
    let mut done: Vec<String> = Vec::new();
    let mut start: usize = 0;
    let mut i: usize = 0;
    proof {
        lemma_sentences_nonempty(cs@);
        assert(cs@.skip(0) =~= cs@);
        assert(texts(done@) =~= Seq::<Seq<char>>::empty());
    }
    while i < cs.len()
        invariant
            cs@ == s@,
            start <= i <= cs@.len(),
            split_sentences(cs@.skip(i as int)).len() >= 1,
            split_sentences(cs@) == texts(done@) + seq![
                cs@.subrange(start as int, i as int) + split_sentences(cs@.skip(i as int))[0],
            ] + split_sentences(cs@.skip(i as int)).skip(1),
        decreases cs@.len() - i,
    {
        let ghost rest = cs@.skip(i as int);
        let ghost cur = cs@.subrange(start as int, i as int);
        let ghost t0 = texts(done@);
        if cs[i] == '.' && i + 1 < cs.len() && cs[i + 1] == ' ' {
            let piece = string_of(&cs, start, i);
            done.push(piece);
            proof {
                assert(texts(done@) =~= t0.push(piece@));
                assert(rest.skip(2) =~= cs@.skip(i + 2));
                lemma_sentences_nonempty(rest.skip(2));
                assert(split_sentences(rest) == seq![Seq::<char>::empty()] + split_sentences(rest.skip(2)));
                assert(cs@.subrange(i + 2, i + 2) =~= Seq::<char>::empty());
                let nr = split_sentences(cs@.skip(i + 2));
                assert(split_sentences(rest)[0] =~= Seq::<char>::empty());
                assert(split_sentences(rest).skip(1) =~= nr);
                assert(cur + Seq::<char>::empty() =~= cur);
                assert(split_sentences(cs@) =~= texts(done@) + seq![
                    cs@.subrange(i + 2, i + 2) + nr[0],
                ] + nr.skip(1));
            }
            start = i + 2;
            i = i + 2;
        } else if cs[i] == '\n' {
            let piece = string_of(&cs, start, i);
            done.push(piece);
            proof {
                assert(texts(done@) =~= t0.push(piece@));
                assert(rest.skip(1) =~= cs@.skip(i + 1));
                lemma_sentences_nonempty(rest.skip(1));
                assert(split_sentences(rest) == seq![Seq::<char>::empty()] + split_sentences(rest.skip(1)));
                assert(cs@.subrange(i + 1, i + 1) =~= Seq::<char>::empty());
                let nr = split_sentences(cs@.skip(i + 1));
                assert(split_sentences(rest)[0] =~= Seq::<char>::empty());
                assert(split_sentences(rest).skip(1) =~= nr);
                assert(cur + Seq::<char>::empty() =~= cur);
                assert(split_sentences(cs@) =~= texts(done@) + seq![
                    cs@.subrange(i + 1, i + 1) + nr[0],
                ] + nr.skip(1));
            }
            start = i + 1;
            i = i + 1;
        } else {
            proof {
                assert(rest.skip(1) =~= cs@.skip(i + 1));
                lemma_sentences_nonempty(rest.skip(1));
                let nr = split_sentences(cs@.skip(i + 1));
                assert(split_sentences(rest) == nr.update(0, seq![cs@[i as int]] + nr[0]));
                assert(cs@.subrange(start as int, i + 1) =~= cur.push(cs@[i as int]));
                assert(cur + (seq![cs@[i as int]] + nr[0]) =~= cs@.subrange(start as int, i + 1) + nr[0]);
                assert(split_sentences(rest).skip(1) =~= nr.skip(1));
            }
            i = i + 1;
        }
    }
    let last = string_of(&cs, start, cs.len());
    let ghost t0 = texts(done@);
    done.push(last);
    proof {
        assert(cs@.skip(cs@.len() as int) =~= Seq::<char>::empty());
        let e = split_sentences(Seq::<char>::empty());
        assert(e =~= seq![Seq::<char>::empty()]);
        assert(texts(done@) =~= t0.push(last@));
        assert(last@ + Seq::<char>::empty() =~= last@);
        assert(e.skip(1) =~= Seq::<Seq<char>>::empty());
        assert(texts(done@) =~= split_sentences(s@));
    }
    done
}

/// The value of a string of decimal digits.
pub open spec fn digits_value(s: Seq<char>) -> int
    decreases s.len(),
{
    if s.len() == 0 {
        0
    } else {
        digits_value(s.drop_last()) * 10 + (s.last() as int - 48)
    }
}

/// Every character of `s` is an ASCII digit.
pub open spec fn all_digits(s: Seq<char>) -> bool {
    forall|i: int| 0 <= i < s.len() ==> '0' <= #[trigger] s[i] <= '9'
}

/// What `usize::from_str` gives: an optional `+`, then one or more ASCII
/// digits whose value fits in a `usize`.
pub open spec fn spec_parse_usize(s: Seq<char>) -> Option<usize> {
    let d = if s.len() > 0 && s[0] == '+' { s.skip(1) } else { s };
    if d.len() > 0 && all_digits(d) && digits_value(d) <= usize::MAX {
        Some(digits_value(d) as usize)
    } else {
        None
    }
}

/// A run of digits is worth at least each of its beginnings.
pub proof fn lemma_digits_grow(s: Seq<char>, k: int)
    requires
        all_digits(s),
        0 <= k <= s.len(),
    ensures
        digits_value(s.subrange(0, k)) <= digits_value(s),
        digits_value(s) >= 0,
    decreases s.len(),
{
    if s.len() > 0 {
        lemma_digits_grow(s.drop_last(), if k == s.len() { s.len() - 1 } else { k });
        if k == s.len() {
            assert(s.subrange(0, k) =~= s);
        } else {
            assert(s.drop_last().subrange(0, k) =~= s.subrange(0, k));
        }
    }
}

/// Parses a decimal `usize` as `usize::from_str` does.
pub fn parse_usize(s: &str) -> (r: Option<usize>)
    ensures
        r == spec_parse_usize(s@),
{
    let cs = chars_of(s);
    let mut i: usize = 0;
    if cs.len() > 0 && cs[0] == '+' {
        i = 1;
    }
    let ghost d = if s@.len() > 0 && s@[0] == '+' { s@.skip(1) } else { s@ };
    assert(d =~= cs@.skip(i as int));
    if i >= cs.len() {
        return None;
    }
    let mut value: usize = 0;
    let mut j: usize = i;
    while j < cs.len()
        invariant
            i <= j <= cs@.len(),
            d == cs@.skip(i as int),
            d == (if s@.len() > 0 && s@[0] == '+' { s@.skip(1) } else { s@ }),
            all_digits(cs@.subrange(i as int, j as int)),
            value == digits_value(cs@.subrange(i as int, j as int)),
        decreases cs@.len() - j,
    {
        let ghost pre = cs@.subrange(i as int, j as int);
        let ghost next = cs@.subrange(i as int, j + 1);
        assert(next.drop_last() =~= pre);
        let c = cs[j];
        if c < '0' || c > '9' {
            assert(d[j - i] == c);
            assert(!all_digits(d));
            return None;
        }
        let digit = (c as u32 - 48) as usize;
        if value > (usize::MAX - digit) / 10 {
            proof {
                assert(next.last() == c);
                assert(digits_value(next) == value * 10 + digit);
                assert(value * 10 + digit > usize::MAX);
                if all_digits(d) {
                    assert(next =~= d.subrange(0, j + 1 - i));
                    lemma_digits_grow(d, j + 1 - i);
                }
            }
            return None;
        }
        value = value * 10 + digit;
        j = j + 1;
    }
    assert(cs@.subrange(i as int, cs@.len() as int) =~= d);
    Some(value)
}

/// What `u64::from_str` gives: an optional `+`, then one or more ASCII
/// digits whose value fits in a `u64`.
pub open spec fn spec_parse_u64(s: Seq<char>) -> Option<u64> {
    let d = if s.len() > 0 && s[0] == '+' { s.skip(1) } else { s };
    if d.len() > 0 && all_digits(d) && digits_value(d) <= u64::MAX {
        Some(digits_value(d) as u64)
    } else {
        None
    }
}

/// Parses a decimal `u64` as `u64::from_str` does.
pub fn parse_u64(s: &str) -> (r: Option<u64>)
    ensures
        r == spec_parse_u64(s@),
{
    let cs = chars_of(s);
    let mut i: usize = 0;
    if cs.len() > 0 && cs[0] == '+' {
        i = 1;
    }
    let ghost d = if s@.len() > 0 && s@[0] == '+' { s@.skip(1) } else { s@ };
    assert(d =~= cs@.skip(i as int));
    if i >= cs.len() {
        return None;
    }
    let mut value: u64 = 0;
    let mut j: usize = i;
    while j < cs.len()
        invariant
            i <= j <= cs@.len(),
            d == cs@.skip(i as int),
            d == (if s@.len() > 0 && s@[0] == '+' { s@.skip(1) } else { s@ }),
            all_digits(cs@.subrange(i as int, j as int)),
            value == digits_value(cs@.subrange(i as int, j as int)),
        decreases cs@.len() - j,
    {
        let ghost pre = cs@.subrange(i as int, j as int);
        let ghost next = cs@.subrange(i as int, j + 1);
        assert(next.drop_last() =~= pre);
        let c = cs[j];
        if c < '0' || c > '9' {
            assert(d[j - i] == c);
            assert(!all_digits(d));
            return None;
        }
        let digit = (c as u32 - 48) as u64;
        if value > (u64::MAX - digit) / 10 {
            proof {
                assert(next.last() == c);
                assert(digits_value(next) == value * 10 + digit);
                assert(value * 10 + digit > u64::MAX);
                if all_digits(d) {
                    assert(next =~= d.subrange(0, j + 1 - i));
                    lemma_digits_grow(d, j + 1 - i);
                }
            }
            return None;
        }
        value = value * 10 + digit;
        j = j + 1;
    }
    assert(cs@.subrange(i as int, cs@.len() as int) =~= d);
    Some(value)
}

/// What `bool::from_str` gives: `true` and `false`, nothing else.
pub open spec fn spec_parse_bool(s: Seq<char>) -> Option<bool> {
    if s == seq!['t', 'r', 'u', 'e'] {
        Some(true)
    } else if s == seq!['f', 'a', 'l', 's', 'e'] {
        Some(false)
    } else {
        None
    }
}

/// Parses `true` or `false`, as `bool::from_str` does.
pub fn parse_bool(s: &str) -> (r: Option<bool>)
    ensures
        r == spec_parse_bool(s@),
{
    let cs = chars_of(s);
    let t = vec!['t', 'r', 'u', 'e'];
    let f = vec!['f', 'a', 'l', 's', 'e'];
    if cs.len() == 4 && occurs_at_exec(&cs, &t, 0) {
        assert(cs@ =~= cs@.subrange(0, 4));
        assert(t@ =~= seq!['t', 'r', 'u', 'e']);
        Some(true)
    } else if cs.len() == 5 && occurs_at_exec(&cs, &f, 0) {
        assert(cs@ =~= cs@.subrange(0, 5));
        assert(f@ =~= seq!['f', 'a', 'l', 's', 'e']);
        assert(cs@ != seq!['t', 'r', 'u', 'e']);
        Some(false)
    } else {
        proof {
            if cs@ == seq!['t', 'r', 'u', 'e'] {
                assert(cs@.subrange(0, 4) =~= t@);
            }
            if cs@ == seq!['f', 'a', 'l', 's', 'e'] {
                assert(cs@.subrange(0, 5) =~= f@);
            }
        }
        None
    }
}

/// An ASCII digit.
pub open spec fn is_digit(c: char) -> bool {
    '0' <= c <= '9'
}

/// The number of ASCII digits in a row from position `j` of `t`.
pub open spec fn digit_run(t: Seq<char>, j: int) -> nat
    decreases t.len() - j,
{
    if 0 <= j < t.len() && is_digit(t[j]) {
        1 + digit_run(t, j + 1)
    } else {
        0
    }
}

/// `@name`
pub open spec fn name_mark() -> Seq<char> {
    seq!['@', 'n', 'a', 'm', 'e']
}

/// A name token starts at `i` of `t`: `@name`, digits, `@` (the pattern
/// `@name\d+@`, its digits taken as ASCII digits).
pub open spec fn token_at(t: Seq<char>, i: int) -> bool {
    &&& occurs_at(t, name_mark(), i)
    &&& digit_run(t, i + 5) > 0
    &&& i + 5 + digit_run(t, i + 5) < t.len()
    &&& t[i + 5 + digit_run(t, i + 5)] == '@'
}

/// The position just after the token that starts at `i` of `t`.
pub open spec fn token_end(t: Seq<char>, i: int) -> int {
    i + 6 + digit_run(t, i + 5)
}

/// `t` from position `i` on, with every token replaced by its name in `m`.
pub open spec fn fill_from(t: Seq<char>, m: Map<Seq<char>, String>, i: int) -> Seq<char>
    decreases t.len() - i,
{
    if i < 0 || i >= t.len() {
        Seq::<char>::empty()
    } else if token_at(t, i) {
        m[t.subrange(i, token_end(t, i))]@ + fill_from(t, m, token_end(t, i))
    } else {
        seq![t[i]] + fill_from(t, m, i + 1)
    }
}

/// Every token of `t` from position `i` on has a name in `m`.
pub open spec fn tokens_named(t: Seq<char>, m: Map<Seq<char>, String>, i: int) -> bool
    decreases t.len() - i,
{
    if i < 0 || i >= t.len() {
        true
    } else if token_at(t, i) {
        m.contains_key(t.subrange(i, token_end(t, i))) && tokens_named(t, m, token_end(t, i))
    } else {
        tokens_named(t, m, i + 1)
    }
}

/// Every name in `m` is one of `names`.
pub open spec fn names_from(m: Map<Seq<char>, String>, names: Seq<String>) -> bool {
    forall|k: Seq<char>| #[trigger] m.contains_key(k) ==> names.contains(m[k])
}

/// Filling tokens from a memo that has grown gives what the smaller memo gave,
/// once every token of `t` was named in it.
pub proof fn lemma_fill_grow(t: Seq<char>, m: Map<Seq<char>, String>, m2: Map<Seq<char>, String>, i: int)
    requires
        tokens_named(t, m, i),
        m.submap_of(m2),
    ensures
        tokens_named(t, m2, i),
        fill_from(t, m2, i) == fill_from(t, m, i),
    decreases t.len() - i,
{
    if 0 <= i < t.len() {
        if token_at(t, i) {
            lemma_fill_grow(t, m, m2, token_end(t, i));
        } else {
            lemma_fill_grow(t, m, m2, i + 1);
        }
    }
}

/// The number of ASCII digits in a row from position `j` of `cs`.
pub fn digit_run_exec(cs: &Vec<char>, j: usize) -> (r: usize)
    requires
        j <= cs@.len(),
    ensures
        r == digit_run(cs@, j as int),
        j + r <= cs@.len(),
{
    let mut k = j;
    while k < cs.len() && cs[k] >= '0' && cs[k] <= '9'
        invariant
            j <= k <= cs@.len(),
            digit_run(cs@, j as int) == (k - j) + digit_run(cs@, k as int),
        decreases cs@.len() - k,
    {
        k = k + 1;
    }
    k - j
}

/// The end of the token that starts at `i` of `cs`, if one does.
fn token_end_exec(cs: &Vec<char>, i: usize) -> (r: Option<usize>)
    requires
        i <= cs@.len(),
    ensures
        r is Some <==> token_at(cs@, i as int),
        r matches Some(e) ==> e == token_end(cs@, i as int),
{
    let mark = vec!['@', 'n', 'a', 'm', 'e'];
    assert(mark@ =~= name_mark());
    if !occurs_at_exec(cs, &mark, i) {
        return None;
    }
    assert(i + 5 <= cs@.len());
    assert(cs@.len() == cs.len());
    let run = digit_run_exec(cs, i + 5);
    if run == 0 || i + 5 + run >= cs.len() || cs[i + 5 + run] != '@' {
        return None;
    }
    Some(i + 6 + run)
}

/// For every map of names that extends `memo` and names the tokens of `t`
/// from `i` on, `t` with its tokens filled in is `out` followed by the
/// rest of `t` from `i` on, filled in.
pub open spec fn fill_progress(t: Seq<char>, memo: Map<Seq<char>, String>, out: Seq<char>, i: int) -> bool {
    forall|m: Map<Seq<char>, String>|
        #![trigger tokens_named(t, m, 0)]
        memo.submap_of(m) && tokens_named(t, m, i) ==> tokens_named(t, m, 0) && fill_from(t, m, 0)
            == out + fill_from(t, m, i)
}

/// Replaces every name token of `text` by a name: the one `memo` holds for
/// the token, or else one of `names` drawn at random, which `memo` then
/// holds for it.
pub fn fill_names(text: &str, names: &Vec<String>, memo: &mut StringHashMap<String>) -> (r: String)
    requires
        names@.len() > 0,
        names_from(old(memo)@, names@),
    ensures
        old(memo)@.submap_of(final(memo)@),
        names_from(final(memo)@, names@),
        tokens_named(text@, final(memo)@, 0),
        r@ == fill_from(text@, final(memo)@, 0),
{
    let cs = chars_of(text);
    let mut out = String::new();
    let mut i: usize = 0;
    let ghost m0 = memo@;
    let ghost mut done: Seq<int> = Seq::empty();
    while i < cs.len()
        invariant
            cs@ == text@,
            i <= cs@.len(),
            names@.len() > 0,
            m0.submap_of(memo@),
            names_from(memo@, names@),
            fill_progress(cs@, memo@, out@, i as int),
        decreases cs@.len() - i,
    {
        let ghost o0 = out@;
        let ghost mm = memo@;
        match token_end_exec(&cs, i) {
            Some(e) => {
                let token = string_of(&cs, i, e);
                let name = match memo.get(token.as_str()) {
                    Some(n) => n.clone(),
                    None => {
                        let pick = (random_u32() as usize) % names.len();
                        let n = names[pick].clone();
                        memo.insert(token.clone(), names[pick].clone());
                        n
                    },
                };
                assert(memo@.contains_key(token@) && memo@[token@]@ == name@);
                assert(mm.submap_of(memo@));
                proof {
                    vstd::map_lib::lemma_submap_of_trans(m0, mm, memo@);
                }
                out.append(name.as_str());
                proof {
                    assert forall|m: Map<Seq<char>, String>|
                        #![trigger tokens_named(cs@, m, 0)]
                        memo@.submap_of(m) && tokens_named(cs@, m, e as int) implies tokens_named(
                            cs@,
                            m,
                            0,
                        ) && fill_from(cs@, m, 0) == out@ + fill_from(cs@, m, e as int) by {
                        vstd::map_lib::lemma_submap_of_trans(mm, memo@, m);
                        assert(memo@.dom().contains(token@));
                        assert(m.dom().contains(token@));
                        assert(m.contains_key(token@) && m[token@] == memo@[token@]);
                        assert(token@ == cs@.subrange(i as int, e as int));
                        assert(tokens_named(cs@, m, i as int));
                        assert(fill_from(cs@, m, i as int) == m[token@]@ + fill_from(cs@, m, e as int));
                        assert(out@ + fill_from(cs@, m, e as int) =~= o0 + fill_from(cs@, m, i as int));
                        assert(tokens_named(cs@, m, 0));
                        assert(fill_from(cs@, m, 0) == o0 + fill_from(cs@, m, i as int));
                    }
                    assert forall|k: Seq<char>| #[trigger] memo@.contains_key(k) implies names@.contains(
                        memo@[k],
                    ) by {
                        if !mm.contains_key(k) {
                            assert(k == token@);
                        }
                    }
                }
                assert(fill_progress(cs@, memo@, out@, e as int));
                i = e;
            },
            None => {
                push_char(&mut out, cs[i]);
                proof {
                    assert forall|m: Map<Seq<char>, String>|
                        #![trigger tokens_named(cs@, m, 0)]
                        memo@.submap_of(m) && tokens_named(cs@, m, i + 1) implies tokens_named(
                            cs@,
                            m,
                            0,
                        ) && fill_from(cs@, m, 0) == out@ + fill_from(cs@, m, i + 1) by {
                        assert(!token_at(cs@, i as int));
                        assert(tokens_named(cs@, m, i as int) == tokens_named(cs@, m, i + 1));
                        assert(fill_from(cs@, m, i as int) == seq![cs@[i as int]] + fill_from(cs@, m, i + 1));
                        assert(out@ + fill_from(cs@, m, i + 1) =~= o0 + fill_from(cs@, m, i as int));
                        assert(mm.submap_of(m));
                        assert(tokens_named(cs@, m, 0));
                        assert(fill_from(cs@, m, 0) == o0 + fill_from(cs@, m, i as int));
                    }
                }
                assert(fill_progress(cs@, memo@, out@, i + 1));
                i = i + 1;
            },
        }
    }
    proof {
        assert(tokens_named(cs@, memo@, i as int));
        assert(fill_from(cs@, memo@, i as int) =~= Seq::<char>::empty());
        assert(out@ + Seq::<char>::empty() =~= out@);
    }
    out
}

/// A sentence with its first character in uppercase (the first character of
/// its uppercase mapping), unless it is empty or taken for a link.
pub open spec fn spec_capitalize(s: Seq<char>) -> Seq<char> {
    if s.len() == 0 || is_url(s) {
        s
    } else {
        seq![spec_uppercase(seq![s[0]])[0]] + s.skip(1)
    }
}

/// Puts the first character of a sentence in uppercase, unless the
/// sentence is empty or taken for a link (see `spec_capitalize`).
pub fn capitalize(s: String) -> (r: String)
    ensures
        r@ == spec_capitalize(s@),
{
    let cs = chars_of(s.as_str());
    if cs.len() == 0 || url_word(s.as_str()) {
        return s;
    }
    let mut first = String::new();
    push_char(&mut first, cs[0]);
    assert(first@ =~= seq![cs@[0]]);
    let upper = uppercase(first.as_str());
    let ucs = chars_of(upper.as_str());
    let mut r = String::new();
    push_char(&mut r, ucs[0]);
    let rest = string_of(&cs, 1, cs.len());
    r.append(rest.as_str());
    assert(r@ =~= spec_capitalize(s@));
    r
}

/// Whether a string is exactly `w`.
pub fn text_is(s: &str, w: &str) -> (r: bool)
    ensures
        r == (s@ == w@),
{
    let a = chars_of(s);
    let b = chars_of(w);
    if a.len() != b.len() {
        return false;
    }
    let r = occurs_at_exec(&a, &b, 0);
    proof {
        if r {
            assert(a@ =~= a@.subrange(0, b@.len() as int));
        }
        if s@ == w@ {
            assert(a@.subrange(0, b@.len() as int) =~= b@);
        }
    }
    r
}


proof fn lemma_join_extend_last(p: Seq<Seq<char>>, sep: Seq<char>, c: char)
    requires
        p.len() >= 1,
    ensures
        join_with(p.update(p.len() - 1, p.last().push(c)), sep) == join_with(p, sep).push(c),
{
    let q = p.update(p.len() - 1, p.last().push(c));
    if p.len() >= 2 {
        assert(q.drop_last() =~= p.drop_last());
        assert(join_with(q, sep) =~= join_with(p, sep).push(c));
    }
}

/// Splitting a text at a character and joining the pieces with it gives
/// the text back.
pub proof fn law_split_join(s: Seq<char>, sep: char)
    ensures
        join_with(split_on(s, sep), seq![sep]) == s,
    decreases s.len(),
{
    if s.len() > 0 {
        let t = s.drop_last();
        law_split_join(t, sep);
        lemma_split_nonempty(t, sep);
        let p = split_on(t, sep);
        if s.last() == sep {
            let q = p.push(Seq::<char>::empty());
            assert(q.drop_last() =~= p);
            assert(join_with(q, seq![sep]) =~= t + seq![sep]);
        } else {
            lemma_join_extend_last(p, seq![sep], s.last());
        }
        assert(t.push(s.last()) =~= s);
    }
}

/// A line none of whose words holds one of the names as a whole word
/// (compared in lowercase) comes out of name replacement unchanged; so does
/// every line when there are no names.
pub proof fn law_no_names_unchanged(s: Seq<char>, names: Seq<Seq<char>>)
    requires
        forall|i: int|
            0 <= i < split_on(s, ' ').len() ==> first_match(
                name_patterns(names),
                spec_lowercase(#[trigger] split_on(s, ' ')[i]),
                0,
            ) >= names.len(),
    ensures
        spec_replace_names(s, names) == s,
{
    let parts = split_on(s, ' ');
    let pats = name_patterns(names);
    assert(parts.map_values(|w: Seq<char>| replace_word(pats, w)) =~= parts);
    law_split_join(s, ' ');
}

/// With no names to look for, name replacement leaves every line as it is.
pub proof fn law_replace_no_names(s: Seq<char>)
    ensures
        spec_replace_names(s, Seq::<Seq<char>>::empty()) == s,
{
    assert forall|i: int| 0 <= i < split_on(s, ' ').len() implies first_match(
        name_patterns(Seq::<Seq<char>>::empty()),
        spec_lowercase(#[trigger] split_on(s, ' ')[i]),
        0,
    ) >= 0 by {}
    law_no_names_unchanged(s, Seq::<Seq<char>>::empty());
}

/// A line whose words are all links comes out of `lowercase_nonurl`
/// unchanged.
pub proof fn law_links_kept(s: Seq<char>)
    requires
        forall|i: int| 0 <= i < split_on(s, ' ').len() ==> is_url(#[trigger] split_on(s, ' ')[i]),
    ensures
        spec_lowercase_nonurl(s) == s,
{
    assert(split_on(s, ' ').map_values(|w: Seq<char>| lower_unless_url(w)) =~= split_on(s, ' '));
    law_split_join(s, ' ');
}

proof fn lemma_decimal_digits(n: nat)
    ensures
        decimal(n).len() > 0,
        all_digits(decimal(n)),
        digits_value(decimal(n)) == n,
    decreases n,
{
    if n >= 10 {
        lemma_decimal_digits(n / 10);
        let d = decimal(n / 10);
        assert(decimal(n).drop_last() =~= d);
        assert forall|i: int| 0 <= i < decimal(n).len() implies '0' <= #[trigger] decimal(n)[i] <= '9' by {
            if i < d.len() {
                assert(decimal(n)[i] == d[i]);
            }
        }
        let c = digit_char(n % 10);
        assert(decimal(n).last() == c);
        assert(c as int == 48 + n % 10);
        assert(digits_value(decimal(n)) == digits_value(d) * 10 + (c as int - 48));
        assert((n / 10) * 10 + n % 10 == n);
    } else {
        let c = digit_char(n);
        assert(c as int == 48 + n);
        assert(decimal(n).drop_last() =~= Seq::<char>::empty());
        assert(digits_value(Seq::<char>::empty()) == 0);
        assert(decimal(n).last() == c);
        assert(digits_value(decimal(n)) == digits_value(decimal(n).drop_last()) * 10 + (c as int - 48));
    }
}

/// A number written in decimal reads back as itself, as a `u64`.
pub proof fn law_u64_reads_back(n: u64)
    ensures
        spec_parse_u64(decimal(n as nat)) == Some(n),
{
    lemma_decimal_digits(n as nat);
    assert('0' <= decimal(n as nat)[0] <= '9');
}

/// A number written in decimal reads back as itself, as a `usize`.
pub proof fn law_usize_reads_back(n: usize)
    ensures
        spec_parse_usize(decimal(n as nat)) == Some(n),
{
    lemma_decimal_digits(n as nat);
    assert('0' <= decimal(n as nat)[0] <= '9');
}

} // verus!
