//! Replacement numbers for Japanese mahjong hands.
//!
//! The replacement number of a hand is the least number of tiles that must
//! still be brought in before the hand is a winning one: four groups and a
//! pair, or, with all fourteen tiles in the hand, seven pairs or thirteen
//! orphans. It is one more than the classic shanten number. On top of it
//! the crate derives which tiles bring a hand closer to winning and which
//! can be let go without pushing it further away.
//!
//! What a winning hand is and what "least" means is laid down in [`shape`]
//! and [`win`]. The searches in [`suit`], [`combine`], [`pairs`] and
//! [`orphans`] are proved to find that least number, [`hand`] checks what
//! comes in, and [`engine`] and [`flags`] are the way in.

pub mod tile;
pub mod error;
pub mod meld;
pub mod shape;
pub mod win;
pub mod search;
pub mod suit;
pub mod combine;
pub mod pairs;
pub mod orphans;
pub mod room;
pub mod idle;
pub mod hand;
pub mod engine;
pub mod flags;
pub mod laws;
