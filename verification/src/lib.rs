//! A self-play trainer for a tabular temporal-difference learner that plays
//! tic-tac-toe.
//!
//! The core is the learning agent: its state-value table, its epsilon-greedy
//! action selection, and the TD(0) update applied after every one of its own
//! moves. Around it stand the board with win and draw detection, the lazy
//! value table, and the textual format in which a trained table is
//! persisted. Value estimates live in `[0, 1]` and are held in fixed point,
//! as millionths (see [`value::SCALE`]).

pub mod codec;
pub mod game;
pub mod persist;
pub mod player;
mod rng;
pub mod table;
pub mod value;
