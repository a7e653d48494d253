use simumech::chain::{ChainCore, END};
use simumech::markov::MarkovChain;
use simumech::words::WordMap;

#[test]
fn test_commands() {
    let mut words = WordMap::new();
    let mut tumblr_chain = MarkovChain::new("lines/tumblr");
    let mut tumblr_core = ChainCore::new();
    let mut markov_chain = MarkovChain::new("lines/twitter");
    let mut twitter_core = ChainCore::new();
    for line in ["the parent chain knows this line", "and another one here"] {
        tumblr_chain.learn_line(&mut words, &mut tumblr_core, line);
    }
    for line in ["the child chain says hello", "hello there child"] {
        markov_chain.learn_line(&mut words, &mut twitter_core, line);
    }
    let mut cores = vec![twitter_core, tumblr_core];
    let names = vec!["Mraof".to_string(), "Grimble".to_string()];
    for _ in 0..100 {
        println!("{}", MarkovChain::random_sentence(&mut words, &mut cores, &names, ""));
    }
}

#[test]
fn test_word_chain() {
    let mut chain = ChainCore::new();
    chain.set_consume(100_000);
    let words: Vec<&str> = vec!["meow", "grow", "tree", "trombone", "Grombo", "grombu", "mrow", "meeooww"];
    for word in words {
        let keys: Vec<u32> = word.chars().map(|c| c as u32).collect();
        chain.learn(keys);
    }
    for _ in 0..100 {
        if chain.forward_len() == 0 {
            break;
        }
        let offset = rand::random::<u32>() as usize % chain.forward_len();
        let key = chain.nth_forward_key(offset).unwrap_or([END, END, END]);
        let word: String = chain
            .generate(key, 0, false)
            .into_iter()
            .map(|c| char::from_u32(c).unwrap_or('?'))
            .collect();
        println!("{}", word);
    }
}
