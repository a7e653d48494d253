//! The chats that post on their own: when they post, what a tweet may hold,
//! and who asks the Tumblr blog.
use vstd::prelude::*;
use vstd::utf8::{encode_utf8, is_char_boundary};
use crate::text::{chars_of, string_of, texts};

verus! {

/// The most bytes a tweet holds.
pub const TWEET_BYTES: usize = 140usize;

/// How many more sentences a tweet is drawn from while it is too long.
pub const TWEET_RETRIES: usize = 10usize;

/// The wait, in seconds, before a chat posts again, at the time `now` in
/// seconds: the square of `now` modulo `spread`, plus `least`.
pub open spec fn spec_wait(now: u64, spread: u64, least: u64) -> int {
    (now * now) % (spread as int) + least
}

/// The wait before a chat posts again (see `spec_wait`).
pub fn wait_seconds(now: u64, spread: u64, least: u64) -> (r: u64)
    requires
        now <= u32::MAX,
        spread > 0,
        spread + least <= u64::MAX,
    ensures
        r == spec_wait(now, spread, least),
{
    assert(now * now <= 0xffff_ffff * 0xffff_ffff) by (nonlinear_arith)
        requires
            now <= 0xffff_ffff,
    ;
    let square = now * now;
    square % spread + least
}

/// What to do with a drawn sentence that is to be tweeted.
pub enum TweetStep {
    /// It is too long: draw another.
    Again,
    /// Tweet this.
    Send(String),
}

/// What to do with `tweet`, drawn after `tries` others were found too
/// long: tweet it when it fits in `TWEET_BYTES` bytes; draw another while
/// `TWEET_RETRIES` have not been drawn; otherwise tweet its first
/// `TWEET_BYTES` bytes.
pub fn tweet_step(tries: usize, tweet: &str) -> (r: TweetStep)
    requires
        encode_utf8(tweet@).len() > TWEET_BYTES && tries >= TWEET_RETRIES ==> is_char_boundary(
            encode_utf8(tweet@),
            TWEET_BYTES as int,
        ),
    ensures
        encode_utf8(tweet@).len() <= TWEET_BYTES ==> (r matches TweetStep::Send(t) && t@ == tweet@),
        encode_utf8(tweet@).len() > TWEET_BYTES && tries < TWEET_RETRIES ==> r is Again,
        encode_utf8(tweet@).len() > TWEET_BYTES && tries >= TWEET_RETRIES ==> (r matches TweetStep::Send(t)
            && encode_utf8(t@) == encode_utf8(tweet@).subrange(0, TWEET_BYTES as int)),
{
    let bytes = tweet.as_bytes();
    if bytes.len() <= TWEET_BYTES {
        return TweetStep::Send(tweet.to_string());
    }
    if tries < TWEET_RETRIES {
        return TweetStep::Again;
    }
    let (head, _) = tweet.split_at(TWEET_BYTES);
    TweetStep::Send(head.to_string())
}

/// The askers of a blog that has none yet: the blog itself, four times.
pub open spec fn spec_askers(blog: Seq<char>, askers: Seq<Seq<char>>) -> Seq<Seq<char>> {
    if askers.len() == 0 {
        seq![blog, blog, blog, blog]
    } else {
        askers
    }
}

/// The askers that the blog's posts name (see `spec_askers`).
pub fn filled_askers(blog: &str, askers: Vec<String>) -> (r: Vec<String>)
    ensures
        texts(r@) == spec_askers(blog@, texts(askers@)),
{
    if askers.len() > 0 {
        return askers;
    }
    let mut r: Vec<String> = Vec::new();
    r.push(blog.to_string());
    r.push(blog.to_string());
    r.push(blog.to_string());
    r.push(blog.to_string());
    assert(texts(r@) =~= seq![blog@, blog@, blog@, blog@]);
    r
}

/// Whether a title drawn for a Tumblr text post is short enough after
/// `tries` draws: at most ten bytes for each draw.
pub fn title_fits(title: &str, tries: usize) -> (r: bool)
    requires
        tries <= 10,
    ensures
        r == (encode_utf8(title@).len() <= tries * 10),
{
    let bytes = title.as_bytes();
    bytes.len() <= tries * 10
}

/// The tags of an answered ask: `ANSWER,`, then the asker's name and a
/// comma when the ask came from a named asker, then `extra`.
pub open spec fn spec_ask_tags(asker: Seq<char>, named: bool, extra: Seq<char>) -> Seq<char> {
    "ANSWER,"@ + (if named {
        asker + ","@
    } else {
        Seq::<char>::empty()
    }) + extra
}

/// The tags of an answered ask (see `spec_ask_tags`).
pub fn ask_tags(asker: &str, named: bool, extra: &str) -> (r: String)
    ensures
        r@ == spec_ask_tags(asker@, named, extra@),
{
    proof {
        reveal_strlit("ANSWER,");
        reveal_strlit(",");
    }
    let mut t = String::new();
    t.append("ANSWER,");
    if named {
        t.append(asker);
        t.append(",");
    }
    t.append(extra);
    proof {
        if named {
            assert(t@ =~= spec_ask_tags(asker@, named, extra@));
        } else {
            assert(t@ =~= spec_ask_tags(asker@, named, extra@));
        }
    }
    t
}

/// The tags of a post of the type `kind`: the type, a comma, then `extra`.
pub fn post_tags(kind: &str, extra: &str) -> (r: String)
    ensures
        r@ == kind@ + ","@ + extra@,
{
    proof {
        reveal_strlit(",");
    }
    let mut t = String::new();
    t.append(kind);
    t.append(",");
    t.append(extra);
    assert(t@ =~= kind@ + ","@ + extra@);
    t
}

/// One line of a chat post: who says it, a colon, what is said, and a
/// line break.
pub fn chat_line(person: &str, said: &str) -> (r: String)
    ensures
        r@ == person@ + ": "@ + said@ + "\n"@,
{
    proof {
        reveal_strlit(": ");
        reveal_strlit("\n");
    }
    let mut t = String::new();
    t.append(person);
    t.append(": ");
    t.append(said);
    t.append("\n");
    assert(t@ =~= person@ + ": "@ + said@ + "\n"@);
    t
}

/// `". "` stands in `s` at `i`.
pub open spec fn breaks_at(s: Seq<char>, i: int) -> bool {
    0 <= i && i + 1 < s.len() && s[i] == '.' && s[i + 1] == ' '
}

/// What follows the last `". "` in `s`, or all of `s` when it has none:
/// the last piece of `s` split at `". "`.
pub open spec fn last_piece(s: Seq<char>) -> Seq<char> {
    if exists|i: int| #[trigger] breaks_at(s, i) {
        let i = choose|i: int| #[trigger] breaks_at(s, i) && forall|j: int| i < j ==> !breaks_at(s, j);
        s.skip(i + 2)
    } else {
        s
    }
}

/// The last sentence of a reply, as a chat post keeps it (see
/// `last_piece`).
pub fn last_sentence(text: &str) -> (r: String)
    ensures
        r@ == last_piece(text@),
{
    let cs = chars_of(text);
    let n = cs.len();
    let mut i: usize = n;
    while i >= 2
        invariant
            i <= n,
            n == cs@.len(),
            cs@ == text@,
            forall|j: int| #[trigger] breaks_at(cs@, j) ==> j + 2 <= i,
        decreases i,
    {
        if cs[i - 2] == '.' && cs[i - 1] == ' ' {
            let ghost k = i - 2;
            assert(breaks_at(cs@, k));
            assert(forall|j: int| k < j ==> !breaks_at(cs@, j));
            let r = string_of(&cs, i, n);
            proof {
                let c = choose|j: int| #[trigger] breaks_at(cs@, j) && forall|l: int| j < l ==> !breaks_at(cs@, l);
                if c < k {
                    assert(breaks_at(cs@, k));
                } else if c > k {
                    assert(!breaks_at(cs@, c));
                }
                assert(c == k);
                assert(r@ =~= cs@.skip(k + 2));
            }
            return r;
        }
        assert(!breaks_at(cs@, i - 2));
        i = i - 1;
    }
    let r = string_of(&cs, 0, n);
    proof {
        assert(!exists|j: int| #[trigger] breaks_at(cs@, j));
        assert(r@ =~= cs@);
    }
    r
}

} // verus!
