# simumech

A chat bot that learns the lines it reads as a Markov chain of word triples
and answers with sentences grown from them.

- `src/` is the library, verified with Verus:
  - `words.rs`: the shared word table (case-insensitive ids).
  - `chain.rs`: the chain core: learning lines, reading and consuming word
    lists, lines of chains with parents, picking a start key and growing a
    sentence.
  - `text.rs`: splitting and joining text, links, name tokens, numbers.
  - `markov.rs`: a chat's chain: learning chat lines, replies, commands.
  - `discord.rs`: the chat side of Discord: bridged bots, routing messages
    to chains, the chain manager, `$roll` and the other `$` commands.
  - `laws.rs`: properties of learning and of the chances that steer a chain.
  - `trusted.rs`: the calls into std and outside crates, with the contracts
    that the proofs take on trust.
- `app/` is the program around it: threads and channels for the chains,
  files, configuration, and the Discord, Twitter and Tumblr clients.
- `tests/` runs the library on concrete values.
