//! Bounded, lock-free channels for handing values between threads.

pub mod mpsc;
