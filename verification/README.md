# async_rustbus

A D-Bus client library for asynchronous Rust. Messages are composed, marshalled, sent,
received, parsed and routed by code that [Verus](https://github.com/verus-lang/verus) has
proved against the contracts stated in it; the sockets and the executor stand around it.

A call is sent and answered by one reply or error, which is told apart from the others by its
serial. Incoming calls are routed to queues by object path, incoming signals by match rules:
a signal goes to the queue of the most specific rule that it matches. A violation of the
protocol by the other side shuts the connection down.

## Layout

- `src/rustbus_core/`: object paths, message headers and bodies, the wire format and how
  values are written and read back. `round_trip.rs` and `parameters.rs` prove that what is
  written is what is read. `nesting.rs` bounds how deep values nest.
- `src/conn/`: a connection as a state machine. It holds the addresses of the buses, the
  authentication handshake, ancillary data, and what has been received or is still to be
  written.
- `src/routing/`: the queues, the tree of object paths that incoming calls are matched
  against, and the match rules for signals.
- `src/rpc.rs`: serials, pending replies, and what becomes of each message that arrives.
- `src/text.rs`, `src/utils.rs`: text and arithmetic that the rest is stated in.
- `app/`: the asynchronous connection on top of the library, with its sockets, locks and
  environment variables.
- `tests/`: examples that run the library.

## What is proved

Each function says in its `ensures` what it returns and when it fails. The proof functions
whose names start with `law_` state what holds across functions: for example that a message
that was marshalled is received as it was, however its bytes are cut up, that bytes are
written in the order in which messages were queued, and that the first rule in the list that
matches a signal is the most specific one.

The calls into `rustbus`, `arrayvec`, `async-channel` and the standard library are trusted:
each stands in a function marked `#[verifier::external_body]`, or is named by an
`assume_specification`, and the comment above it says what is claimed of it.
