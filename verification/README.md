# zetmq

A subject-based publish/subscribe message broker whose logic is written in
Verus and proved against its contracts.

## Layout

- `src/` — the verified library.
  - Wire format: `codec`, `frame`, `headers`, `command`, `stream_cmd`, `wire`
    (the binary frame codec, command decoding, the PUB fast-path layout).
  - Subjects and routing: `subject`, `subject_pattern`, `trie`, `routing`,
    `registry`, `subscription`, `queue_group`, `broker` (subscriptions,
    wildcard matching, queue-group round robin, publishing and delivery
    outcomes), `metrics`, `id`, `message`, `delivery`.
  - Streams: `stream` (retention by count, bytes and age), `memory` (the
    in-memory store), `consumer` (durable consumers and acknowledgements),
    `segment` (the append-only record format and its offset index).
  - Server decisions: `config`, `auth` (credentials and publish/subscribe
    permissions), `dispatcher` (what each command does), `session` (the
    per-connection frame loop, heartbeats, connection limits and draining),
    `admin` (the monitoring endpoint's responses).
  - Client decisions: `client` (frames the client builds, the handshake,
    what each frame from the server asks for, the reconnect plan).
  - `text`, `error`: text helpers and error messages.
- `tests/` — tests run against the compiled library.
- `app/` — the program around the library: configuration files and the
  command line, the tokio TCP and TLS server, the monitoring HTTP listener,
  segment file I/O and the asynchronous client.

The laws the library keeps (routing completeness and duplicate freedom,
queue-group round robin, read-after-store, codec and JSON-escape round
trips, trie insert-then-remove, permission soundness, and others) are
public proof functions next to the code they speak of. What the broker
hands to each subscription's delivery handle is recorded in a ghost
delivery log (`BrokerCore::sent_log`), and how each delivery was counted
in a ghost outcome log (`BrokerCore::outcome_log`); the publish contracts
state both, and the delivered and dropped counters follow the outcome log.
