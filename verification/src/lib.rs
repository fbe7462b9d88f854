//! Game rules of a top-down arena shooter: game and level state machines,
//! combat resolution, score keeping, the persistent score board, input
//! decisions and sprite-sheet segmentation.

pub mod gamestate;
pub mod sprites;
pub mod sheet;
pub mod text;
pub mod score;
pub mod combat;
pub mod level;
pub mod menu;
pub mod input;
pub mod ctrlc;
pub mod weapon;
pub mod enemy;
pub mod map;
