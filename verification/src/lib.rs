//! A verified leaderboard watcher core: snapshots of a ranked board, a
//! binary cache codec for them, a differ that detects new personal bests
//! between two snapshots, and a renderer for the resulting events.

pub mod codec;
pub mod lb;
pub mod render;
