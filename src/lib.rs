pub mod bitmap;
pub mod game;
pub mod groups;
pub mod masks;
pub mod moves;
pub mod ply;
pub mod slides;
pub mod state_analysis;
