//! A chess rules engine and adversarial move-search library: pseudo-legal
//! reachability per piece, check detection, deterministic move execution
//! (castling, en-passant, promotion, rights bookkeeping), a legality filter,
//! and negamax search with alpha-beta pruning and a position-keyed cache.

pub mod engine;
pub mod laws;
pub mod models;
pub mod search;
pub mod utils;
