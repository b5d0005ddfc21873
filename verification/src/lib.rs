//! A matching library: pairs waiting participants into one-on-one
//! introductions, biasing away from pairs who have already met, so that
//! repeated introductions are minimized over successive rounds.
//!
//! `matching` holds the weighted graph over one round's participants and
//! the greedy pairing algorithm; `store` is an in-memory store of
//! participants, pairing history, generations and recorded matches; `round`
//! computes a round's plan and drives one end-to-end round against the
//! store.

pub mod matching;
pub mod round;
pub mod store;
