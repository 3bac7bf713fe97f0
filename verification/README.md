# netcom

The client library of NETCOM, a decentralized messaging protocol whose clients relay signed
commands (JOIN, LEAVE, MSG) to each other, written in Verus and verified.

- `src/text.rs`: decimal numbers, splitting and joining at a separator, trimming white space.
- `src/utils.rs`: the text of keys and tag lists, and reading them back.
- `src/crypt.rs`: Ed25519 signing and checking through ed25519-dalek, and the hexadecimal text
  of signatures.
- `src/network.rs`: commands, their wire format, reading commands out of a stream, and the
  decisions around connecting to a host.
- `src/commands.rs`: making signed commands, checking received ones, and the salt cache that
  refuses repeats.
- `src/ui.rs`: the chat interface's input state and what each key does.
- `app/`: the program around the library: files, sockets, threads and the terminal.
