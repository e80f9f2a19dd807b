# rtkit

Verified building blocks of a small cooperative runtime for
microcontrollers, written in Verus.

- `src/list.rs` — circular doubly-linked queues with a sentinel root; every
  queueable object owns one link cell, addressed by the object's identity.
- `src/queue.rs` — message queues (messages or waiting receivers, never
  both), envelopes, and the pool that hands out a fixed array of messages.
- `src/pool.rs` — an allocate-only pool over a fixed array of blocks.
- `src/timer.rs` — a hierarchical timer: sleepers wait in the queue of the
  highest bit in which their due tick differs from the clock.
- `src/executor.rs` — one run queue per hardware priority.
- `src/interrupt.rs` — the interrupt controller interface and critical
  sections.
- `src/clock.rs` — the clock bring-up of an STM32F1 as a state machine over
  register accesses.
- `src/demo.rs` — the decisions of the example's two actors.

`app/` holds the programs: the list and pool examples, the async runtime
(wakers, futures, the driving loop), the performance-counter probe and the
board's start-up code.
