//! Session engine of a multiplayer drawing-and-voting party game.
//!
//! Players gather in rooms, draw from suggested prompts, vote on each
//! other's drawings and collect scores over several rounds. The engine is a
//! state machine: commands go in, the new state and the messages owed to each
//! connected player come out. Transport and storage live outside.
//!
//! - [`game_manager`] keeps the rooms and routes the commands of the players.
//! - [`game`] is one room; [`game_model`] states what each command makes of
//!   it, [`game_laws`] that it stays in order, [`laws`] what follows.
//! - [`round`] collects the drawings and votes of one round.
//! - [`deck`], [`imprint_selector`] and [`imprint_mapper`] deal prompts and
//!   hand strokes on from round to round; [`random`] is where chance comes in.
//! - [`server_messages`] and [`api`] are what players are told.

pub mod api;
pub mod deck;
pub mod deck_repository;
pub mod drawing;
pub mod errors;
pub mod game;
pub mod game_laws;
pub mod game_manager;
pub mod game_model;
pub mod game_settings;
pub mod imprint_mapper;
pub mod imprint_selector;
pub mod laws;
pub mod player_view;
pub mod random;
pub mod room_code_generator;
pub mod roster;
pub mod round;
pub mod server_messages;
pub mod text;
