//! What a client is answered: for each command its outcome, as success, as
//! a rejection with its reason, or as a failure of the server.

pub mod create_game;
pub mod join_game;
pub mod play_again;
pub mod response;
pub mod set_player_ready;
pub mod start_game;
pub mod submit_drawing;
pub mod submit_vote;
pub mod update_game_settings;
