//! A single-asset limit order book matching engine.
//!
//! The engine keeps two price-indexed books of resting limit orders (bids and
//! asks), matches incoming marketable limit orders under price-time priority,
//! and emits a deterministic, totally ordered sequence of events describing
//! every state transition.
//!
//! Prices and sizes are exact fixed-point values carried as plain integers;
//! the scale is chosen by the caller and never interpreted here. Order and
//! owner identifiers are opaque 128-bit values; the engine mints order ids
//! from a per-instance counter, so ids are unique and totally ordered.

pub mod order;
pub mod events;
pub mod level;
pub mod book;
pub mod engine;
pub mod clock;
pub mod laws;
