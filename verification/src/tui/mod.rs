//! The terminal application's state: the edit session, the application state
//! machine, the player's job machine, and what the screen shows.
pub mod app;
pub mod db;
pub mod edit;
pub mod event;
pub mod line;
pub mod player;
pub mod ui;
