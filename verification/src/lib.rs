pub mod color;
pub mod fraction;
pub mod frame;
pub mod game_of_life;
pub mod grid;
pub mod ml_gol;
pub mod parallel;
pub mod random;
pub mod text;
