use simumech::discord::{
    channel_chain, checked_route, control_command, presence_step, ControlCommand, GameKind, distance_contains, generator_presets, windows_are_whole, irc_bridge, letters_only, message_origin, misc_command,
    names_text, pikagirl_bridge, power_of, roll_request, route_message, server_chain_file,
    unknown_user_text, user_chain_file, uses_user_chain, ChainManager, ChannelKind, DiscordId,
    MessageRoute, MiscCommand, CHANNEL_STRENGTH, CROCBOT_ID, MAX_AGE, PIKAGIRL_ID,
};
use simumech::discord::{mask_mentions, owner_mention};
use simumech::markov::Power;

fn pair(a: &str, b: &str) -> Option<(String, String)> {
    Some((a.to_string(), b.to_string()))
}

#[test]
fn id_codes_keep_kinds_apart() {
    let ids = [DiscordId::Server(5), DiscordId::Channel(5), DiscordId::User(5), DiscordId::User(6)];
    for (i, a) in ids.iter().enumerate() {
        for (j, b) in ids.iter().enumerate() {
            assert_eq!(a.code() == b.code(), i == j);
        }
    }
    assert_eq!(DiscordId::Server(7).code(), 7);
}

#[test]
fn manager_keeps_one_chain_per_id() {
    let mut m: ChainManager<String> = ChainManager::new();
    assert!(!m.holds(1));
    assert_eq!(m.get(1, 0, None), None);
    assert!(!m.holds(1));
    assert_eq!(m.get(1, 0, Some("first".to_string())), Some(&"first".to_string()));
    assert_eq!(m.get(1, 5, Some("second".to_string())), Some(&"first".to_string()));
    assert!(m.holds(1));
    assert_eq!(m.get(1, 6, None), Some(&"first".to_string()));
}

#[test]
fn manager_cleans_chains_unused_for_half_an_hour() {
    let mut m: ChainManager<u32> = ChainManager::new();
    m.get(1, 0, Some(10));
    m.get(2, 100, Some(20));
    m.get(3, 200, Some(30));
    // Using 1 again moves it to the back.
    m.get(1, 150, None);
    assert_eq!(m.clean(100 + MAX_AGE), Vec::<u32>::new());
    assert_eq!(m.clean(101 + MAX_AGE), vec![20]);
    assert!(!m.holds(2));
    assert_eq!(m.clean(10_000), vec![30, 10]);
    assert!(!m.holds(1) && !m.holds(3));
}

#[test]
fn manager_cleaning_stops_at_the_first_fresh_chain() {
    let mut m: ChainManager<u32> = ChainManager::new();
    m.get(1, 0, Some(10));
    m.get(2, 5000, Some(20));
    m.get(3, 0, Some(30));
    assert_eq!(m.clean(4000), vec![10]);
    assert!(m.holds(3));
}

#[test]
fn manager_stop_gives_every_chain_oldest_first() {
    let mut m: ChainManager<u32> = ChainManager::new();
    m.get(9, 3, Some(90));
    m.get(4, 1, Some(40));
    m.get(9, 7, None);
    assert_eq!(m.stop(), vec![40, 90]);
    assert!(!m.holds(9));
}

#[test]
fn letters_only_keeps_letters_in_lowercase() {
    assert_eq!(letters_only("Hey, Simu-Mech! 42"), "heysimumech");
    assert_eq!(letters_only("Ça va"), "çava");
    assert_eq!(letters_only("1 2 3"), "");
}

#[test]
fn distance_contains_finds_the_name_with_edits() {
    assert!(distance_contains("hey simumech, hi", "simumech", 3));
    assert!(distance_contains("hey SIMUMECK", "simumech", 3));
    assert!(distance_contains("smiumehc", "simumech", 3));
    assert!(!distance_contains("hello there", "simumech", 3));
    assert!(distance_contains("simu", "simumech", 4));
    assert!(!distance_contains("simu", "simumech", 3));
    assert!(distance_contains("", "", 0));
}

#[test]
fn irc_bridge_reads_author_and_text() {
    assert_eq!(irc_bridge("<bob> hello there"), pair("bob", "hello there"));
    assert_eq!(irc_bridge("**<bob>** hi"), pair("bob", "hi"));
    assert_eq!(irc_bridge("<a>b> c"), pair("a>b", "c"));
    assert_eq!(irc_bridge("<> x"), pair("", "x"));
    assert_eq!(irc_bridge("<bob> one\ntwo"), pair("bob", "one"));
    assert_eq!(irc_bridge("<bob>hi"), None);
    assert_eq!(irc_bridge("bob> hi"), None);
    assert_eq!(irc_bridge("<b\nob> hi"), None);
}

#[test]
fn pikagirl_bridge_reads_author_and_text() {
    assert_eq!(pikagirl_bridge("# alice: hi all"), pair("alice", "hi all"));
    assert_eq!(pikagirl_bridge("# __alice:__ hi"), pair("alice", "hi"));
    assert_eq!(pikagirl_bridge("# a:b: c"), pair("a:b", "c"));
    assert_eq!(pikagirl_bridge("#alice: hi"), None);
    assert_eq!(pikagirl_bridge("# alice hi"), None);
}

#[test]
fn message_origin_rules() {
    let (listen, author, text) = message_origin(1, false, "carl", "hello", false, 99);
    assert!(listen);
    assert_eq!((author.as_str(), text.as_str()), ("carl", "hello"));
    let (listen, author, text) = message_origin(CROCBOT_ID, true, "crocbot", "<dan> yo", false, 99);
    assert!(listen);
    assert_eq!((author.as_str(), text.as_str()), ("dan", "yo"));
    let (listen, author, _) = message_origin(PIKAGIRL_ID, true, "PikaGirl", "# eve: hey", false, 99);
    assert!(listen);
    assert_eq!(author, "eve");
    let (listen, author, text) = message_origin(PIKAGIRL_ID, true, "PikaGirl", "no bridge", false, 99);
    assert!(!listen);
    assert_eq!((author.as_str(), text.as_str()), ("PikaGirl", "no bridge"));
    assert!(!message_origin(7, true, "otherbot", "hi", false, 99).0);
    assert!(!message_origin(1, false, "carl", "hi", true, 99).0);
    assert!(!message_origin(99, false, "me", "hi", false, 99).0);
}

#[test]
fn power_of_the_owner() {
    assert_eq!(power_of(1234, "1234"), Power::Cool);
    assert_eq!(power_of(1234, "01234"), Power::Normal);
    assert_eq!(power_of(0, "0"), Power::Cool);
    assert_eq!(power_of(u64::MAX, "18446744073709551615"), Power::Cool);
    assert_eq!(power_of(5, ""), Power::Normal);
}

#[test]
fn route_message_commands_and_chat() {
    match route_message("$m stats", false, "simumech") {
        MessageRoute::MainCommand(c) => assert_eq!(c, "stats"),
        _ => panic!("expected a main command"),
    }
    match route_message("$cm sentence", false, "simumech") {
        MessageRoute::ChainCommand(c) => assert_eq!(c, "sentence"),
        _ => panic!("expected a chain command"),
    }
    match route_message("$m", false, "simumech") {
        MessageRoute::Chat { reply, learn } => assert!(!reply && learn),
        _ => panic!("expected a chat line"),
    }
    match route_message("hi simumech", false, "simumech") {
        MessageRoute::Chat { reply, learn } => assert!(reply && learn),
        _ => panic!("expected a chat line"),
    }
    match route_message("my DADDY says hi", true, "simumech") {
        MessageRoute::Chat { reply, learn } => assert!(reply && !learn),
        _ => panic!("expected a chat line"),
    }
    match route_message("just talking", false, "simumech") {
        MessageRoute::Chat { reply, learn } => assert!(!reply && learn),
        _ => panic!("expected a chat line"),
    }
}

#[test]
fn chain_files_and_settings() {
    assert_eq!(server_chain_file(12), "lines/discord/12/server");
    assert_eq!(user_chain_file(34), "lines/discord/users/34");
    let c = channel_chain(ChannelKind::Server(12), 56, false, false);
    assert_eq!(c.file, "lines/discord/12/56");
    assert_eq!(c.strength, Some(CHANNEL_STRENGTH));
    assert!(c.tells_parent && !c.nsfw_words);
    let c = channel_chain(ChannelKind::Group, 7, true, false);
    assert_eq!(c.file, "lines/discord/groups/7");
    assert_eq!(c.strength, None);
    assert!(!c.tells_parent && c.nsfw_words);
    assert_eq!(channel_chain(ChannelKind::Private, 8, false, true).file, "lines/discord/private/8");
    assert!(!channel_chain(ChannelKind::Private, 8, false, true).tells_parent);
    assert_eq!(channel_chain(ChannelKind::Unknown, 9, false, true).file, "lines/discord/unknown/9");
    assert!(uses_user_chain(false, false));
    assert!(!uses_user_chain(true, false));
    assert!(!uses_user_chain(false, true));
}

#[test]
fn misc_commands() {
    assert!(matches!(misc_command("$ignore", Power::Cool, None), MiscCommand::Ignore));
    assert!(matches!(misc_command("$IGNORE now", Power::Cool, None), MiscCommand::Ignore));
    assert!(matches!(misc_command("$ignore", Power::Normal, None), MiscCommand::Unhandled));
    assert!(matches!(misc_command("$names 42", Power::Normal, None), MiscCommand::Names(Some(42))));
    assert!(matches!(misc_command("$names 42", Power::Normal, Some(7)), MiscCommand::Names(Some(7))));
    assert!(matches!(misc_command("$names bob", Power::Normal, None), MiscCommand::Names(None)));
    assert!(matches!(misc_command("$names", Power::Normal, None), MiscCommand::Names(None)));
    assert!(matches!(misc_command("names 42", Power::Cool, None), MiscCommand::Unhandled));
    assert!(matches!(misc_command("$roll", Power::Cool, None), MiscCommand::Unhandled));
}

#[test]
fn names_texts() {
    let nicks = vec!["Bobby".to_string(), "B".to_string()];
    assert_eq!(names_text("bob", &nicks), "bob\nBobby\nB");
    assert_eq!(names_text("bob", &Vec::new()), "bob");
    assert_eq!(unknown_user_text(77), "User id 77 is unknown");
}

#[test]
fn roll_requests() {
    assert_eq!(roll_request("$roll"), Some(("d(1, 12)".to_string(), None)));
    assert_eq!(roll_request("$roll 2d6+3"), Some(("d(2, 6)+3".to_string(), None)));
    assert_eq!(roll_request("$roll d20:attack"), Some(("d(1, 20)".to_string(), Some("attack".to_string()))));
    assert_eq!(roll_request("$roll 123456d6"), Some(("12d(3456, 6)".to_string(), None)));
    assert_eq!(
        roll_request("$roll d12345678901234567890"),
        Some(("d(1, 1234567890123456)7890".to_string(), None))
    );
    assert_eq!(roll_request("$roll 3d"), Some(("3d".to_string(), None)));
    assert_eq!(roll_request("$roll 1d2:a:b"), Some(("d(1, 2)".to_string(), Some("a:b".to_string()))));
    assert_eq!(roll_request("$rolls 2d6"), None);
    assert_eq!(roll_request("hello"), None);
}

#[test]
fn mentions_are_masked() {
    let owner = owner_mention("9");
    assert_eq!(owner, "<@!9>");
    assert_eq!(
        mask_mentions("hi @here and <@!123> <@45> <@x> <@!> @everyone!", &owner),
        "hi <@!9> and <@!9> <@!9> <@x> <@!> <@!9>!"
    );
    assert_eq!(mask_mentions("@her @every", &owner), "@her @every");
    assert_eq!(mask_mentions("", &owner), "");
}

#[test]
fn the_name_as_it_is_is_always_found() {
    assert!(distance_contains("well, SIMUMECH is here", "simumech", 0));
    assert!(distance_contains("simumech", "simumech", 0));
    assert!(!distance_contains("simumec", "simumech", 0));
}

#[test]
fn name_windows_are_taken_by_bytes() {
    assert!(windows_are_whole("simumech héllo", "simumech", 3));
    assert!(distance_contains("simumech héllo", "simumech", 3));
    // The third window would start inside `é`: the search cannot go on.
    assert!(!windows_are_whole("héllo simumech", "simumech", 3));
    assert!(windows_are_whole("hello simumech", "simumech", 3));
    assert!(distance_contains("hello simumech", "simumech", 3));
    // A short text is weighed whole.
    assert!(windows_are_whole("é", "simumech", 3));
}

#[test]
fn generator_arguments_give_presets() {
    let (presets, format) = generator_presets("eyes:blue,hair:red?short").unwrap();
    assert_eq!(presets, vec!["eyes:blue".to_string(), "hair:red".to_string()]);
    assert_eq!(format, Some("short".to_string()));
    let (presets, format) = generator_presets("eyes:blue").unwrap();
    assert_eq!(presets, vec!["eyes:blue".to_string()]);
    assert_eq!(format, None);
    assert!(generator_presets("eyes:blue?[x]").is_some());
    assert!(generator_presets("[x] eyes:blue").is_none());
    assert!(generator_presets("short").is_none());
    assert!(generator_presets("").is_none());
}

#[test]
fn checked_route_refuses_what_would_cut_a_character() {
    assert!(checked_route("$mé", false, "bot").is_none());
    assert!(checked_route("$cmé", false, "bot").is_none());
    assert!(checked_route("héllo simumech", false, "simumech").is_none());
    assert!(matches!(checked_route("héllo simumech", true, "simumech"), Some(MessageRoute::Chat { reply: true, learn: true })));
    assert!(matches!(checked_route("$m stats", false, "bot"), Some(MessageRoute::MainCommand(c)) if c == "stats"));
}

#[test]
fn control_lines_and_presence() {
    assert_eq!(control_command("STOP"), ControlCommand::Stop);
    assert_eq!(control_command("Reload"), ControlCommand::Reload);
    assert_eq!(control_command("stopp"), ControlCommand::Other);
    assert_eq!(presence_step(1024), (0, GameKind::Nothing));
    assert_eq!(presence_step(1025), (1, GameKind::Playing));
    assert_eq!(presence_step(2047), (1023, GameKind::Streaming));
}
