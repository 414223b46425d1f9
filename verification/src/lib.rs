//! A per-conversation Markov text engine: a token dictionary, a banned-token
//! filter and a forward/reverse transition graph over an in-memory store,
//! with every operation specified and proved.

pub mod engine;
