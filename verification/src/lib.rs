//! Core of a "king of the hill" scoring service.
//!
//! An external writer designates the current leader (the "king") in a text
//! file; a scoring loop periodically awards that leader points on a
//! scoreboard, persists the scoreboard to a data file when the running total
//! crosses a multiple of ten, and a minimal text protocol serves the current
//! state to clients.  This crate holds the verified logic of that service:
//! king-signal validation, scoreboard mutation and ranking, the snapshot
//! encoding, and request handling.  File and socket handling live with the
//! binary that embeds the crate.

pub mod codec;
pub mod http;
pub mod king;
pub mod score;
pub mod text;
