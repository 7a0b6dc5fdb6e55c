pub mod error;
pub mod hand;
pub mod hu;
pub mod meld;
pub mod score;
pub mod scoring;
pub mod search;
pub mod server;
pub mod tile;
pub mod tile_seq;
