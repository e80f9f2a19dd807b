//! Intrusive-queue building blocks for a small cooperative runtime: circular
//! doubly-linked queues with a sentinel root, message queues fed by a fixed
//! pool of messages, a hierarchical timer, a priority run-queue executor and
//! the clock bring-up sequence of a bare-metal microcontroller.
pub mod interrupt;
pub mod list;
pub mod queue;
pub mod timer;
pub mod executor;
pub mod clock;
pub mod demo;
pub mod pool;
