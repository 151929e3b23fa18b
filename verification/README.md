# signaling

The authoritative room state machine of a WebRTC signaling server, written in
Rust and verified with Verus: who is in which room, who offers, which SFU worker
a room runs on, and where each browser frame goes. It speaks two protocols: V1
with two clients per room, and V2, which starts with direct connections, moves a
room to an SFU worker when a third member joins, and moves it back when the room
has been small for a while.

The library does no I/O. It owns no socket, thread or clock: the caller hands in
every input together with the current time, and polls every output.

## Layout

| Place | What it holds |
|-------|---------------|
| `src/collider.rs` | The entry point: both room tables, browser sessions, the interface of room servers and workers. |
| `src/client.rs`, `src/room.rs`, `src/room_table.rs` | V1: opaque names, at most two clients, queued messages, register timeout. |
| `src/v2.rs` and `src/v2/` | V2: admission tokens, signal epochs, room modes, the join barrier, the downgrade dwell, the workers. |
| `src/sfu.rs` | What is said between the authority and its workers. |
| `src/messages.rs`, `src/json.rs` | Browser frames, and the `serde_json` calls behind them. |
| `src/ord_map.rs`, `src/key.rs`, `src/seqs.rs`, `src/text.rs`, `src/time.rs` | Ordered maps and sets, sequences, decimals and secrets, time. |
| `app/` | The state machines as `sansio` protocols on the standard clock. |
| `tests/` | Scenarios, run against the compiled library. |

Each stateful type has a mathematical view. `src/v2/model.rs` and
`src/collider/model.rs` say what every operation does to the views of the V2
table and of the authority; the executable functions are proved to do exactly
that. What holds over several operations is stated and proved in
`src/room/laws.rs`, `src/room_table/laws.rs`, `src/v2/invariants.rs`,
`src/v2/laws/`, `src/collider/laws.rs` and `src/collider/laws/`.

## What is not proved

The contracts in `src/json.rs` describe `serde_json` and are believed. What is
written is stated character by character. What is read is known by name only, so
that the text of a frame is tied to its fields through the parser.
