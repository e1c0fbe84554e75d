# moq-mux

Media containers over a group-based transport, verified with Verus.

A track is a run of groups, a group a run of wire frames, and a container decides
how media samples are laid out in a wire frame. The library reads a track in
age-bounded presentation order: groups can arrive late, out of order or never, be
abandoned half-way, or rewind the timeline.

- `src/time.rs`, `src/poll.rs`, `src/net.rs`: timestamps, outcomes, and what was
  received of a track.
- `src/container/`: frame readers and writers, the `Container` trait, LOC, one
  group (`group.rs`), and a whole track (`consumer.rs`).
- `src/container/schedule.rs`: the rules of reading a track, as functions of what
  has arrived. `progress.rs` shows that they come to an end; `group_laws.rs` and
  `track_laws.rs` state what holds of every step, `group_runs.rs` and `track_runs.rs`
  what holds of a group and of a track from the first frame to the last.
- `src/encryption/`: protected frames with moq-secure; `moq_secure_runs.rs` states what
  holds of a run of them.
- `app/`: the asynchronous side: readers and writers over the transport, error
  messages and payload processors.

The transport is told to the library event by event, through `Consumer::announce`,
`Consumer::receive` and `Consumer::close`; `Consumer::poll_read` then gives the next
frame, or says that there is nothing to give yet.

What the library takes on trust is what it calls in other crates: LOC encoding,
moq-secure frames, Ed25519 keys and the catalog's container kinds. Each such call
stands in a function of its own, with what it relies on written above it.
