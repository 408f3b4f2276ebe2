# cjp2p

A node of a small content-addressed file-sharing network over UDP. Files are
named by their SHA-256 digest, travel in 4 KiB blocks carried in JSON
datagrams, and are checked against their name once every block is in.

`src/` is the verified library:

- `blocks` — block arithmetic and the clock model (nanoseconds since start).
- `bitmap` — the per-download map of received blocks, kept in a `bitvec` bit-vector.
- `codec` — base64, SHA-256, lower-case hex and Unicode lower-casing.
- `text` — checks on strings (path separators, comparison with characters).
- `message` — the messages and their mathematical views.
- `download` — downloads in progress: asking for blocks, taking arriving
  blocks, checking finished files, upkeep, and answering requests for content.
- `peers` — the peer table, its ranking, and the peer-exchange messages.
- `chance` — random numbers and the wall clock.
- `node` — when the upkeep runs and what follows the replies to a datagram.
- `laws` — properties that hold across the operations.

`app/` is the program around it: the UDP socket, files on disk, the JSON
form of messages, logging, and the skewed random choice of peers.
