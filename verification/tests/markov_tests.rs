use simumech::chain::{ChainCore, END, MILLION};
use simumech::markov::{reply_length, reply_names, word_ids, word_stats, CommandAnswer, MarkovChain, Power};
use simumech::words::WordMap;

fn strings(v: &[&str]) -> Vec<String> {
    v.iter().map(|s| s.to_string()).collect()
}

fn text(answer: CommandAnswer) -> String {
    match answer {
        CommandAnswer::Text(t) => t,
        CommandAnswer::AskParent(_) => panic!("asked the parent"),
        CommandAnswer::SetStrength { .. } => panic!("asked to set the strength"),
        CommandAnswer::ShowStrength => panic!("asked to show the strength"),
    }
}

fn trained(lines: &[&str]) -> (MarkovChain, WordMap, Vec<ChainCore>) {
    let mut chain = MarkovChain::new("lines/test");
    let mut words = WordMap::new();
    let mut core = ChainCore::new();
    for line in lines {
        chain.learn_line(&mut words, &mut core, line);
    }
    (chain, words, vec![core])
}

#[test]
fn word_ids_look_up_every_word() {
    let mut words = WordMap::new();
    let ids = word_ids(&mut words, &strings(&["the", "Cat", "THE"]));
    assert_eq!(ids, vec![0, 1, 0]);
    assert_eq!(words.len(), 2);
}

#[test]
fn new_chain_settings() {
    let mut chain = MarkovChain::new("lines/x.txt");
    assert_eq!(chain.filename(), "lines/x.txt");
    assert!(chain.tell_parent());
    assert_eq!(chain.line_count(), 0);
    chain.set_tell_parent(false);
    assert!(!chain.tell_parent());
}

#[test]
fn learn_line_skips_lines_seen_before() {
    let mut chain = MarkovChain::new("lines/test");
    let mut words = WordMap::new();
    let mut core = ChainCore::new();
    assert!(chain.learn_line(&mut words, &mut core, "The cat sat"));
    assert_eq!(chain.line_count(), 1);
    assert_eq!(words.len(), 3);
    let keys = core.forward_len();
    assert!(!chain.learn_line(&mut words, &mut core, "the CAT sat"));
    assert_eq!(chain.line_count(), 1);
    assert_eq!(core.forward_len(), keys);
    assert!(chain.learn_line(&mut words, &mut core, "the dog sat"));
    assert_eq!(chain.line_count(), 2);
    assert_eq!(words.len(), 4);
}

#[test]
fn add_line_learns_each_sentence_and_passes_them_on() {
    let mut chain = MarkovChain::new("lines/test");
    let mut words = WordMap::new();
    let mut core = ChainCore::new();
    let names = strings(&["Bob"]);
    let (new, forward) = chain.add_line(&mut words, &mut core, "Hi Bob. how are you", &names, true);
    assert!(new);
    assert_eq!(forward, strings(&["Hi @name0@", "how are you"]));
    assert_eq!(chain.line_count(), 2);
    let (new, forward) = chain.add_line(&mut words, &mut core, "how are you", &names, true);
    assert!(!new);
    assert_eq!(forward, strings(&["how are you"]));
    let (_, forward) = chain.add_line(&mut words, &mut core, "x", &names, false);
    assert!(forward.is_empty());
    chain.set_tell_parent(false);
    let (_, forward) = chain.add_line(&mut words, &mut core, "y", &names, true);
    assert!(forward.is_empty());
}

#[test]
fn reply_names_default_to_the_chain_and_sender() {
    assert_eq!(reply_names("bot", "me", &[]), strings(&["bot", "me"]));
    assert_eq!(reply_names("bot", "me", &strings(&["a", "b", "c"])), strings(&["a", "b", "c"]));
}

#[test]
fn reply_length_rules() {
    assert_eq!(reply_length("5", "someone", 3), (3, false));
    assert_eq!(reply_length("5", "\0rand\0", 3), (5, false));
    assert_eq!(reply_length("7!", "\0rand\0", 3), (7, true));
    assert_eq!(reply_length("abc", "\0rand\0", 3), (0, false));
    assert_eq!(reply_length("", "\0rand\0", 3), (0, false));
    assert_eq!(reply_length("!", "\0rand\0", 3), (0, true));
}

#[test]
fn reply_to_nothing_is_nothing() {
    let (_, mut words, mut cores) = trained(&["the cat sat"]);
    let len = words.len();
    assert_eq!(MarkovChain::reply(&mut words, &mut cores, "", "bot", "me", &[]), "");
    assert_eq!(words.len(), len);
}

#[test]
fn reply_uses_learned_words_and_capitalizes() {
    let (_, mut words, mut cores) = trained(&["the cat sat on the mat"]);
    for _ in 0..10 {
        let r = MarkovChain::reply(&mut words, &mut cores, "cat", "bot", "me", &[]);
        assert!(r.chars().next().map_or(false, |c| c.is_uppercase()), "{}", r);
        for word in r.to_lowercase().split(' ') {
            assert!(["the", "cat", "sat", "on", "mat"].contains(&word), "{}", r);
        }
    }
}

#[test]
fn reply_fills_name_tokens() {
    let (_, mut words, mut cores) = trained(&["hello @name0@ friend"]);
    let r = MarkovChain::reply(&mut words, &mut cores, "hello", "bot", "me", &strings(&["Zed"]));
    assert_eq!(r, "Hello Zed friend");
}

#[test]
fn reply_answers_each_sentence() {
    let (_, mut words, mut cores) = trained(&["one two three"]);
    let r = MarkovChain::reply(&mut words, &mut cores, "one two. three", "bot", "me", &[]);
    // The earlier answers are joined by ". ", and the last one follows them directly.
    assert_eq!(r, "One two threeOne two three");
    let r = MarkovChain::reply(&mut words, &mut cores, "one two. one two. three", "bot", "me", &[]);
    assert_eq!(r, "One two three. One two threeOne two three");
}

#[test]
fn word_stats_counts_distinct_words() {
    assert_eq!(word_stats(&vec![1, 2, 2, END]), (2, 2, 2));
    assert_eq!(word_stats(&vec![END]), (0, END, 0));
    assert_eq!(word_stats(&vec![]), (0, END, 0));
    let (count, best, times) = word_stats(&vec![4, 4, 5, 5, 6]);
    assert_eq!(count, 3);
    assert!(best == 4 || best == 5);
    assert_eq!(times, 2);
}

#[test]
fn stats_command_counts() {
    let (mut chain, mut words, mut cores) = trained(&["a b c", "a b d"]);
    let f = cores[0].forward_len();
    let b = cores[0].backward_len();
    let t = text(chain.command(&mut words, &mut cores, "STATS", Power::Normal, &[], false));
    assert_eq!(t, format!("Forwards keys: {}, Backwards keys: {}, words: 4, lines: 2", f, b));
}

#[test]
fn filename_power_and_unknown_commands() {
    let (mut chain, mut words, mut cores) = trained(&["a b c"]);
    assert_eq!(text(chain.command(&mut words, &mut cores, "filename", Power::Normal, &[], false)), "lines/test");
    assert_eq!(text(chain.command(&mut words, &mut cores, "power", Power::Cool, &[], false)), "Cool");
    assert_eq!(text(chain.command(&mut words, &mut cores, "power", Power::Normal, &[], false)), "Normal");
    assert_eq!(text(chain.command(&mut words, &mut cores, "dance", Power::Cool, &[], false)), "");
    assert_eq!(text(chain.command(&mut words, &mut cores, "", Power::Cool, &[], false)), "");
}

#[test]
fn strength_command() {
    let (mut chain, mut words, mut cores) = trained(&["a b c"]);
    assert!(matches!(
        chain.command(&mut words, &mut cores, "strength", Power::Normal, &[], false),
        CommandAnswer::ShowStrength
    ));
    cores[0].set_strength(700_000);
    assert!(matches!(
        chain.command(&mut words, &mut cores, "Strength", Power::Cool, &[], false),
        CommandAnswer::ShowStrength
    ));
    match chain.command(&mut words, &mut cores, "strength 0.5", Power::Cool, &[], false) {
        CommandAnswer::SetStrength { value, line, parts } => {
            assert_eq!(value, "0.5");
            assert_eq!(line, "strength 0.5");
            assert_eq!(parts, strings(&["strength", "0.5"]));
        }
        _ => panic!("expected a strength to set"),
    }
    assert_eq!(cores[0].strength(), 700_000);
    let _ = text(chain.command(&mut words, &mut cores, "strength 0.5", Power::Normal, &[], false));
    assert_eq!(cores[0].strength(), 700_000);
    assert_eq!(MILLION, 1_000_000);
}

#[test]
fn nsfw_command() {
    let (mut chain, mut words, mut cores) = trained(&["a b c"]);
    assert_eq!(text(chain.command(&mut words, &mut cores, "nsfw", Power::Cool, &[], false)), "false");
    assert_eq!(text(chain.command(&mut words, &mut cores, "nsfw true", Power::Cool, &[], false)), "");
    assert!(!chain.tell_parent());
    assert_eq!(text(chain.command(&mut words, &mut cores, "NSFW", Power::Cool, &[], false)), "true");
    let _ = text(chain.command(&mut words, &mut cores, "nsfw maybe", Power::Cool, &[], false));
    assert!(!chain.tell_parent());
    let _ = text(chain.command(&mut words, &mut cores, "nsfw false", Power::Normal, &[], false));
    assert!(!chain.tell_parent());
    assert_eq!(text(chain.command(&mut words, &mut cores, "nsfw false", Power::Cool, &[], false)), "");
    assert!(chain.tell_parent());
}

#[test]
fn parent_command() {
    let (mut chain, mut words, mut cores) = trained(&["a b c"]);
    match chain.command(&mut words, &mut cores, "parent Stats now", Power::Normal, &[], true) {
        CommandAnswer::AskParent(c) => assert_eq!(c, "stats now"),
        _ => panic!("expected to ask the parent"),
    }
    let _ = text(chain.command(&mut words, &mut cores, "parent stats", Power::Normal, &[], false));
}

#[test]
fn sentence_and_wordstats_commands() {
    let (mut chain, mut words, mut cores) = trained(&["the cat sat", "the cat ran"]);
    let names = strings(&["Simumech", "Mraof"]);
    let s = text(chain.command(&mut words, &mut cores, "sentence", Power::Normal, &names, false));
    assert!(!s.is_empty());
    let w = text(chain.command(&mut words, &mut cores, "wordstats the cat", Power::Normal, &names, false));
    assert_eq!(w, "the cat has no previous words, no next words");
    let w = text(chain.command(&mut words, &mut cores, "wordstats cat sat", Power::Normal, &names, false));
    assert_eq!(
        w,
        "cat sat has 1 previous words, most often \"the\" (1 times), 0 next words, most often \"sat\" (0 times)"
    );
    let w = text(chain.command(&mut words, &mut cores, "wordstats zebra", Power::Normal, &names, false));
    assert!(!w.is_empty());
}

#[test]
fn random_sentence_from_a_learned_chain() {
    let (_, mut words, mut cores) = trained(&["one two three four"]);
    for _ in 0..20 {
        let s = MarkovChain::random_sentence(&mut words, &mut cores, &[], "");
        assert!(!s.is_empty());
    }
}

#[test]
fn replies_leave_a_chain_that_never_consumes_as_it_was() {
    let (_, mut words, mut cores) = trained(&["the cat sat on the mat", "a dog sat on a log"]);
    let forward = cores[0].forward_len();
    let backward = cores[0].backward_len();
    let the = words.find("the").copied().unwrap();
    let before = cores[0].list_of(&[the, simumech::chain::NONE, simumech::chain::NONE], 1);
    for input in ["the cat", "sat on", "a log. the mat"] {
        MarkovChain::reply(&mut words, &mut cores, input, "bot", "me", &[]);
    }
    assert_eq!(cores[0].forward_len(), forward);
    assert_eq!(cores[0].backward_len(), backward);
    assert_eq!(cores[0].list_of(&[the, simumech::chain::NONE, simumech::chain::NONE], 1), before);
}

#[test]
fn learn_lines_counts_the_new_ones() {
    let mut chain = MarkovChain::new("lines/test");
    let mut words = WordMap::new();
    let mut core = ChainCore::new();
    let lines = strings(&["one two", "ONE TWO", "three", "one two"]);
    assert_eq!(chain.learn_lines(&mut words, &mut core, &lines), 2);
    assert_eq!(chain.line_count(), 2);
    assert_eq!(chain.learn_lines(&mut words, &mut core, &lines), 0);
    assert_eq!(chain.learn_lines(&mut words, &mut core, &Vec::new()), 0);
}

#[test]
fn add_line_learns_a_repeated_sentence_once() {
    let mut chain = MarkovChain::new("lines/test");
    let mut words = WordMap::new();
    let mut core = ChainCore::new();
    let (new, forward) = chain.add_line(&mut words, &mut core, "Hi there. Hi there", &strings(&[]), false);
    assert!(new);
    assert!(forward.is_empty());
    assert_eq!(chain.line_count(), 1);
    assert_eq!(words.len(), 2);
    assert_eq!(core.forward_len(), 3);
    assert_eq!(core.backward_len(), 6);
}

#[test]
fn learn_hashed_keeps_the_hash_and_refuses_it_again() {
    let mut chain = MarkovChain::new("lines/test");
    let mut words = WordMap::new();
    let mut core = ChainCore::new();
    assert!(chain.learn_hashed(&mut words, &mut core, "a b", 7));
    assert_eq!(chain.line_count(), 1);
    assert_eq!(words.len(), 2);
    let forward = core.forward_len();
    assert!(!chain.learn_hashed(&mut words, &mut core, "c d", 7));
    assert_eq!(chain.line_count(), 1);
    assert_eq!(words.len(), 2);
    assert_eq!(core.forward_len(), forward);
    assert!(chain.learn_hashed(&mut words, &mut core, "c d", 8));
    assert_eq!(chain.line_count(), 2);
    assert_eq!(words.len(), 4);
}

#[test]
fn a_new_chain_learns_its_first_line() {
    let mut chain = MarkovChain::new("lines/test");
    let mut words = WordMap::new();
    let mut core = ChainCore::new();
    assert!(chain.learn_line(&mut words, &mut core, "anything at all"));
    assert!(!chain.learn_line(&mut words, &mut core, "ANYTHING at ALL"));
}

#[test]
fn checked_command_refuses_a_sentence_from_an_empty_chain() {
    let mut chain = MarkovChain::new("lines/test");
    let mut words = WordMap::new();
    let mut cores = vec![ChainCore::new()];
    assert!(chain.checked_command(&mut words, &mut cores, "Sentence 5", Power::Normal, &[], false).is_none());
    let answer = chain.checked_command(&mut words, &mut cores, "stats", Power::Normal, &[], false);
    assert_eq!(text(answer.unwrap()), "Forwards keys: 0, Backwards keys: 0, words: 0, lines: 0");
}

#[test]
fn read_only_commands_change_nothing() {
    let (mut chain, mut words, mut cores) = trained(&["a b c", "a b d"]);
    let f = cores[0].forward_len();
    let b = cores[0].backward_len();
    for command in ["stats", "filename", "power", "strength", "dance", "wordstats a b", "nsfw"] {
        chain.command(&mut words, &mut cores, command, Power::Cool, &[], false);
        assert_eq!(words.len(), 4);
        assert_eq!(cores[0].forward_len(), f);
        assert_eq!(cores[0].backward_len(), b);
        assert_eq!(chain.line_count(), 2);
    }
}

#[test]
fn a_reply_to_words_is_never_empty() {
    let (_, mut words, mut cores) = trained(&[]);
    let r = MarkovChain::reply(&mut words, &mut cores, "hello", "", "", &[]);
    assert_eq!(r, "Hello");
    let r = MarkovChain::reply(&mut words, &mut cores, "Not cool enough", "", "", &[]);
    assert!(!r.is_empty());
}

#[test]
fn a_reply_grows_the_whole_learned_line() {
    let (_, mut words, mut cores) = trained(&["a b c"]);
    for _ in 0..10 {
        assert_eq!(MarkovChain::reply(&mut words, &mut cores, "a", "bot", "me", &[]), "A b c");
    }
}

#[test]
fn generation_runs_to_the_ends_of_the_learned_line() {
    let (_, _, mut cores) = trained(&["one two three four"]);
    let mut core = cores.remove(0);
    for _ in 0..10 {
        assert_eq!(core.generate([1, simumech::chain::NONE, simumech::chain::NONE], 100, false), vec![0, 1, 2, 3]);
    }
}
