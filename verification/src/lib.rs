//! Notification logic for a Discord bot that announces Threads posts and YouTube uploads and streams.
use vstd::prelude::*;

pub mod assoc;
pub mod bot;
pub mod config;
pub mod discord;
pub mod json;
pub mod state;
pub mod text;
pub mod threads;
pub mod tracker;
pub mod youtube;

verus! {

} // verus!
