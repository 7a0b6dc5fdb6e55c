//! A second model of the game, as a table server keeps it: tiles carry their face value
//! as an integer, and melds are kept as plain tile groups.
pub mod meld;
pub mod player;
pub mod table;
pub mod tile;
