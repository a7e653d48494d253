use simumech::posting::{filled_askers, tweet_step, wait_seconds, TweetStep, TWEET_BYTES, TWEET_RETRIES, ask_tags, chat_line, last_sentence, post_tags, title_fits};

#[test]
fn wait_seconds_values() {
    assert_eq!(wait_seconds(0, 12000, 30), 30);
    assert_eq!(wait_seconds(100, 12000, 30), 10000 % 12000 + 30);
    assert_eq!(wait_seconds(1_700_000_000, 12000, 30), (1_700_000_000u64 * 1_700_000_000) % 12000 + 30);
    assert_eq!(wait_seconds(u32::MAX as u64, 18000, 100), ((u32::MAX as u64) * (u32::MAX as u64)) % 18000 + 100);
}

#[test]
fn short_tweets_go_out_as_they_are() {
    match tweet_step(0, "hello") {
        TweetStep::Send(t) => assert_eq!(t, "hello"),
        TweetStep::Again => panic!("a short tweet is sent"),
    }
    let exact = "a".repeat(TWEET_BYTES);
    match tweet_step(3, &exact) {
        TweetStep::Send(t) => assert_eq!(t, exact),
        TweetStep::Again => panic!("a tweet of the limit is sent"),
    }
}

#[test]
fn long_tweets_are_drawn_again_then_cut() {
    let long = "b".repeat(TWEET_BYTES + 5);
    for tries in 0..TWEET_RETRIES {
        assert!(matches!(tweet_step(tries, &long), TweetStep::Again));
    }
    match tweet_step(TWEET_RETRIES, &long) {
        TweetStep::Send(t) => assert_eq!(t, "b".repeat(TWEET_BYTES)),
        TweetStep::Again => panic!("the last draw is cut and sent"),
    }
    let mixed = format!("{}é{}", "c".repeat(TWEET_BYTES - 2), "d".repeat(10));
    match tweet_step(TWEET_RETRIES, &mixed) {
        TweetStep::Send(t) => assert_eq!(t, format!("{}é", "c".repeat(TWEET_BYTES - 2))),
        TweetStep::Again => panic!("the last draw is cut and sent"),
    }
}

#[test]
fn askers_default_to_the_blog() {
    assert_eq!(filled_askers("blog", Vec::new()), vec!["blog"; 4]);
    assert_eq!(filled_askers("blog", vec!["a".to_string()]), vec!["a"]);
}

#[test]
fn titles_fit_ten_bytes_a_draw() {
    assert!(title_fits("0123456789", 1));
    assert!(!title_fits("0123456789a", 1));
    assert!(title_fits("0123456789a", 2));
    assert!(!title_fits("é", 0));
}

#[test]
fn post_and_ask_tags() {
    assert_eq!(ask_tags("bob", true, "hi there"), "ANSWER,bob,hi there");
    assert_eq!(ask_tags("bob", false, "hi there"), "ANSWER,hi there");
    assert_eq!(post_tags("CHAT", "a,b"), "CHAT,a,b");
    assert_eq!(post_tags("TEXT", ""), "TEXT,");
}

#[test]
fn chat_lines_keep_the_last_sentence() {
    assert_eq!(chat_line("amy", "Hello"), "amy: Hello\n");
    assert_eq!(last_sentence("One. Two. Three"), "Three");
    assert_eq!(last_sentence("a. . b"), "b");
    assert_eq!(last_sentence("no break here."), "no break here.");
    assert_eq!(last_sentence("ends. "), "");
    assert_eq!(last_sentence(""), "");
}
