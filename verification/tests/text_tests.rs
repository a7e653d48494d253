use simumech::text::{
    capitalize, chars_of, join, lowercase_nonurl, occurs_in, parse_bool, parse_usize,
    parse_u64, push_decimal, push_decimal_u64, replace_names, sentences, split_chars, string_of, text_is, token_for, url_word,
};

fn strings(v: &[&str]) -> Vec<String> {
    v.iter().map(|s| s.to_string()).collect()
}

#[test]
fn split_chars_keeps_empty_pieces() {
    assert_eq!(split_chars("a b  c", ' '), strings(&["a", "b", "", "c"]));
    assert_eq!(split_chars("", ' '), strings(&[""]));
    assert_eq!(split_chars(" x ", ' '), strings(&["", "x", ""]));
}

#[test]
fn join_puts_the_separator_between() {
    assert_eq!(join(&strings(&["a", "b", "c"]), ", "), "a, b, c");
    assert_eq!(join(&strings(&["alone"]), "-"), "alone");
    assert_eq!(join(&Vec::new(), "-"), "");
}

#[test]
fn split_then_join_gives_the_text_back() {
    for text in ["the  cat sat ", "", " ", "one"] {
        assert_eq!(join(&split_chars(text, ' '), " "), text);
    }
}

#[test]
fn lowercase_nonurl_keeps_links() {
    assert_eq!(
        lowercase_nonurl("Hello HTTP://X http://Foo.com https:Bar xhttps:Y"),
        "hello http://x http://Foo.com https:Bar xhttps:Y"
    );
    assert_eq!(lowercase_nonurl("ÀB  C"), "àb  c");
}

#[test]
fn lowercase_nonurl_keeps_a_line_of_links() {
    let line = "http://A.b https://C";
    assert_eq!(lowercase_nonurl(line), line);
}

#[test]
fn url_word_matches_the_link_pattern() {
    assert!(url_word("http://x"));
    assert!(url_word("ahttps:b"));
    assert!(!url_word("ahttp:b"));
    assert!(!url_word("HTTP:"));
}

#[test]
fn replace_names_puts_tokens_for_whole_names() {
    let names = strings(&["Mraof"]);
    assert_eq!(replace_names("Hello Mraof, how", &names), "Hello @name0@, how");
    assert_eq!(replace_names("MRAOF!", &names), "@name0@!");
    assert_eq!(replace_names("mraofs here", &names), "mraofs here");
}

#[test]
fn replace_names_takes_the_first_name_that_matches() {
    let names = strings(&["bob", "alice"]);
    assert_eq!(replace_names("Alice met Bob", &names), "@name1@ met @name0@");
    assert_eq!(replace_names("bob-alice", &names), "@name0@-alice");
}

#[test]
fn replace_names_without_names_changes_nothing() {
    assert_eq!(replace_names("Keep  Me As I am", &[]), "Keep  Me As I am");
}

#[test]
fn sentences_split_at_full_stops_and_newlines() {
    assert_eq!(
        sentences("Hi there. How are you\nfine"),
        strings(&["Hi there", "How are you", "fine"])
    );
    assert_eq!(sentences("a.b"), strings(&["a.b"]));
    assert_eq!(sentences(""), strings(&[""]));
    assert_eq!(sentences("end. "), strings(&["end", ""]));
}

#[test]
fn parse_usize_reads_decimal_numbers() {
    assert_eq!(parse_usize("12"), Some(12));
    assert_eq!(parse_usize("+12"), Some(12));
    assert_eq!(parse_usize("007"), Some(7));
    assert_eq!(parse_usize("12a"), None);
    assert_eq!(parse_usize(""), None);
    assert_eq!(parse_usize("+"), None);
    assert_eq!(parse_usize("-1"), None);
    assert_eq!(parse_usize("99999999999999999999999"), None);
}

#[test]
fn parse_bool_reads_true_and_false() {
    assert_eq!(parse_bool("true"), Some(true));
    assert_eq!(parse_bool("false"), Some(false));
    assert_eq!(parse_bool("True"), None);
    assert_eq!(parse_bool(""), None);
}

#[test]
fn capitalize_uppercases_the_first_letter() {
    assert_eq!(capitalize("hello there".to_string()), "Hello there");
    assert_eq!(capitalize("ßa".to_string()), "Sa");
    assert_eq!(capitalize("http://x".to_string()), "http://x");
    assert_eq!(capitalize(String::new()), "");
}

#[test]
fn small_text_helpers() {
    assert!(text_is("stats", "stats"));
    assert!(!text_is("stats", "Stats"));
    assert_eq!(token_for(12), "@name12@");
    let mut s = "n=".to_string();
    push_decimal(&mut s, 305);
    assert_eq!(s, "n=305");
    let cs = chars_of("héllo");
    assert_eq!(cs.len(), 5);
    assert_eq!(string_of(&cs, 1, 3), "él");
    assert!(occurs_in(&cs, &chars_of("ll")));
    assert!(!occurs_in(&cs, &chars_of("lo!")));
}

#[test]
fn numbers_read_back() {
    for n in [0u64, 7, 10, 99, 1234567890, u64::MAX] {
        let mut s = String::new();
        push_decimal_u64(&mut s, n);
        assert_eq!(s, n.to_string());
        assert_eq!(parse_u64(&s), Some(n));
    }
    for n in [0usize, 15, 4096] {
        let mut s = String::new();
        push_decimal(&mut s, n);
        assert_eq!(parse_usize(&s), Some(n));
    }
    assert_eq!(parse_u64("18446744073709551616"), None);
}
