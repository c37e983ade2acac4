pub mod analysis;
pub mod bitmap;
pub mod laws;
pub mod piece;
pub mod player;
pub mod ply;
pub mod roads;
pub mod state;
pub mod tei;
