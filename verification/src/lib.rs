//! Scoring core of a voice-channel "genkai point" bot: it tracks one
//! presence interval ("session") per user at a time, persists closed
//! sessions, converts them into points under an injected scoring policy,
//! and answers ranking and summary commands.

pub mod model;
pub mod db;
pub mod bot;
pub mod commands;
