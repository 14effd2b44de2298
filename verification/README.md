# enso-channel

Bounded, batch-native ring-buffer channels, written and proved in Verus.

A sender or a receiver claims a contiguous range of a pre-allocated ring, writes or reads it,
and commits it. Nothing blocks: the operations are `try_*` and tell of back pressure (`Full`,
`Empty`) and of the end of a stream (`Disconnected`) by their errors.

## Layout

- `src/` is the verified library.
  - `ringbuffer.rs`, `slot_states.rs`, `sequence.rs`, `cursor.rs`, `waker.rs`: the ring, the
    publication state of its slots, sequence numbers, cursors, and the cell a waiting task
    registers in.
  - `sequencers/`: who may claim and commit which sequences, for senders (`pub_mul`, `pub_ex`)
    and receivers (`consumer`, `con_ex`, `con_fanout`, `con_queue`).
  - `channel.rs`, `sender.rs`, `receiver.rs`, `guards.rs`, `slot_recycler.rs`: endpoints,
    permits and read references.
  - `publisher.rs`, `consumers.rs`, `permit.rs`, `channel_api.rs`: endpoints whose batches are
    filled by a factory.
  - `mpsc.rs`, `fanout.rs`, `broadcast.rs`, `mpmc.rs`, `exclusive/`, `queue/`: the topologies.
  - `laws/`: what the channels promise across calls, as proof functions.
- `app/` wraps the library in handles that share a channel between threads, end when they are
  dropped, and can be awaited.
- `tests/` runs the library.

## Model

What the endpoints of a channel share is one value, `Channel`, that every operation takes by
mutable reference, and every operation is one step of the protocol: claim, write, commit, read,
register, leave. An interleaving of endpoints is a sequence of such steps. Permits and read
references borrow the endpoint that they came from, not the channel, so other endpoints can act
while a claim is open; `laws/claims.rs` shows that they do not disturb it.

A step's contract gives the channel after it as a function of the channel before it. The laws
are about those functions: what is sent is received, complete and in order; a slot is never
written while it is being read; a stream is drained before it is disconnected; a task that waits
is woken by the next commit and by the end of the stream, and none waits where there is something
to read. `laws/history.rs` speaks of whole histories: however the steps of the endpoints
interleave, the claims of one side follow each other without gap or overlap, and no stream is
marked as ended while an endpoint of that side is left.

To wake a task is to call `AtomicWaker::wake` while the task is registered. That this call
invokes the registered waker is taken from the `atomic-waker` crate, and `tests/waking.rs` runs
it; when the executor then runs the task is its own affair.
