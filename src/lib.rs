//! A fixed-capacity worker pool whose scheduling decisions are verified, and the
//! numeric batch work that feeds it.
//!
//! `pool` holds the pool's state machine: a bounded FIFO job queue, the state of
//! each worker, and the transitions taken on submission, dequeue, completion and
//! shutdown. The threads, the lock and the blocking waits live with the caller,
//! which performs what the state machine decides.
//!
//! `conjecture` holds the work that the program submits: binomial coefficients,
//! factor-of-two counts and bit counts, checked over batches of integers.
pub mod conjecture;
pub mod pool;
