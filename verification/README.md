# discovery

Node discovery for a peer-to-peer network, verified with Verus. Peers ask each
other for the addresses of other nodes, answer such questions, and pass on what
they learn.

- `src/addr.rs`: addresses, the addresses that a peer is known to have seen, and
  the interface to the address manager.
- `src/message.rs`, `src/frame.rs`, `src/codec.rs`: messages, and how they travel
  (bincode in length-delimited frames).
- `src/random.rs`: what is left to chance.
- `src/substream.rs`: one conversation with one peer.
- `src/table.rs`, `src/round.rs`, `src/discovery.rs`: all conversations together.
  `Discovery::poll` takes what happened, and says what is to be done next.
- `src/laws.rs`, `src/round_laws.rs`, `src/peer_laws.rs`: what holds of one
  conversation, of rounds, and between two peers that keep to the rules.
- `app/`: the streams, timers and channels around the library.

The items marked `external_body` or `external_type_specification` are trusted:
they stand for `bincode`, `bytes`, `fnv`, `rand` and `tokio`.
