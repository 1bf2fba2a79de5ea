//! A rules engine for a Go-like capture game, generalized to up to six
//! stone colors. The engine owns the board, enforces move legality
//! (occupied cell, suicide, positional repetition), resolves captures,
//! and keeps per-group liberty bookkeeping consistent across merges,
//! captures and deletions.

pub mod coord;
pub mod disjoint_set;
pub mod engine;
pub mod game;
pub mod group_info;
pub mod stone;

pub use coord::Coord;
pub use disjoint_set::DisjointSet;
pub use engine::{Engine, ErrorKind, PlaceStoneResult};
pub use game::Game;
pub use group_info::{GroupInfo, GroupInfoArray};
pub use stone::Stone;
