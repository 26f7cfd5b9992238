//! Verified core of a Discord matchmaking queue bot.

pub mod bans;
pub mod buttons;
pub mod commands;
pub mod config;
pub mod ids;
pub mod keys;
pub mod match_start;
pub mod matches;
pub mod matchmaking;
pub mod players;
pub mod queueing;
pub mod results;
pub mod text;
pub mod time;
pub mod votes;
