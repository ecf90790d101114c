# rust_durable_queue

A single-process job queue with a write-ahead log, whose decisions are written
in Verus and proved.

## Layout

- `src/` is the library. It holds every decision of the queue as plain,
  synchronous code: no file, clock, channel or task.
  - `wal/` is the log: byte encodings, records, frames, the scanner and the
    writer. `wal/wire.rs` calls postcard and `wal/crc.rs` calls crc32fast.
  - `store.rs` holds the jobs and the rules for their states.
  - `recovery.rs` replays a log and settles jobs whose workers were lost.
  - `coordinator/` decides which job runs when. `model.rs` says what its state
    means and how it changes, `state.rs` does it, `laws.rs` shows that every
    step keeps the state in order, `restore.rs` takes up recovered work,
    `figures.rs` shows that the figures add up and no queue exceeds its
    capacity, and `promises.rs` states what the queue promises to its users.
  - `config.rs`, `handler.rs`, `admission.rs`, `stats.rs`, `types.rs` and
    `error.rs` hold the rest; `demo.rs` is the demonstration.
- `app/` is the program `rdq` around the library: files and locks, tokio tasks,
  semaphores and cancellation, the command line and the messages of errors.
- `tests/` runs the library.

## Persist before apply

The coordinator hands out a record for everything that is to change durably, and
changes nothing until the record has been written and is handed back to be
applied. The contracts of `Coordinator::handle` and `Coordinator::apply` say so.

## What is trusted

The contracts of the functions that call postcard, crc32fast, uuid and the
system clock, and that of copying a path, are believed without proof. Each says in its comment what it claims
of the function that it calls.
