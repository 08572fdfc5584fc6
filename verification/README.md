# LAN Chat

A serverless LAN chat and voice app over an IPv6 multicast group. Every instance
joins the same group and talks directly to every other instance on the link.

The crate is split in two. `src/` is a library whose behaviour is stated in
contracts and proved with Verus. `app/` is the program around it: sockets, audio
streams, threads, the window, and the arithmetic on audio samples.

| Module            | Responsibility                                                    |
|-------------------|-------------------------------------------------------------------|
| `src/wire.rs`     | The byte layout of a datagram, as postcard writes and reads it    |
| `src/protocol.rs` | Envelopes and payloads, encoding and decoding                     |
| `src/net.rs`      | Which interfaces to join, where to send, what the reader does     |
| `src/presence.rs` | The peer table: arrival, speaking, expiry, listing                |
| `src/levels.rs`   | The per-peer level meters                                         |
| `src/engine.rs`   | From received envelopes and passing time to effects               |
| `src/audio.rs`    | Framing, jitter buffers, which samples are mixed, cues            |
| `src/voice.rs`    | Choosing devices, the state of microphone and speakers            |
| `src/chat.rs`     | Draft, log and commands                                           |
| `src/cards.rs`    | What the cards of the window show                                 |
| `src/theme.rs`    | Colours, level meter, card widget                                 |
| `src/args.rs`     | Command line                                                      |
| `src/lists.rs`    | What filtering leaves of a list                                   |
| `src/text.rs`     | Trimming, splitting, numbers, joining, ordering names             |

Audio samples and levels are floats. The library carries them as bit patterns
and decides which sample goes where; `app/dsp.rs` computes with them.

Each module ends with its laws: public proof functions that state what holds of
several operations together, such as that decoding gives back what was encoded,
or that a line that is sent shows up in the log of everybody else.

What is trusted: the wrappers in `src/wire.rs` around postcard, and those in
`src/text.rs` around the standard library's case mappings.

Linux needs ALSA dev headers (`libasound2-dev`) to build `cpal`.
