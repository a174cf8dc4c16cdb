//! Game logic of a terminal drum rhythm game: beatmap parsing, note judging,
//! the song menu and the key bindings.
pub mod text;
pub mod beatmap;
pub mod game;
pub mod menu;
pub mod controls;
