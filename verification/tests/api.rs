use drawing_game::api::response::{ApiResponse, MessageName};
use drawing_game::api::{
    create_game, join_game, play_again, set_player_ready, start_game, submit_drawing, submit_vote,
    update_game_settings,
};
use drawing_game::errors::{
    CreateGameError, JoinGameError, PlayAgainError, SetPlayerReadyError, StartGameError,
    SubmitDrawingError, SubmitVoteError, UpdateGameSettingsError,
};

fn client_error<T: MessageName>(response: ApiResponse<T>) -> String {
    match response {
        ApiResponse::ClientError(reason) => reason,
        _ => panic!("no client error"),
    }
}

fn server_error<T: MessageName>(response: ApiResponse<T>) -> String {
    match response {
        ApiResponse::ServerError(reason) => reason,
        _ => panic!("no server error"),
    }
}

fn is_success<T: MessageName>(response: ApiResponse<T>) -> bool {
    matches!(response, ApiResponse::Success(_))
}

#[test]
fn answers_go_under_the_name_of_their_command() {
    assert_eq!(create_game::Response::message_name(), "create_game");
    assert_eq!(join_game::Response::message_name(), "join_game");
    assert_eq!(play_again::Response::message_name(), "play_again");
    assert_eq!(set_player_ready::Response::message_name(), "set_player_ready");
    assert_eq!(start_game::Response::message_name(), "start_game");
    assert_eq!(submit_drawing::Response::message_name(), "submit_drawing");
    assert_eq!(submit_vote::Response::message_name(), "submit_vote");
    assert_eq!(update_game_settings::Response::message_name(), "update_game_settings");
}

#[test]
fn answers_to_create_game() {
    type R = ApiResponse<create_game::Response>;
    assert!(is_success(R::from(Ok(()))));
    assert_eq!(
        client_error(R::from(Err(CreateGameError::ClientIsAlreadyInAGame))),
        "client is already in a game"
    );
    assert_eq!(server_error(R::from(Err(CreateGameError::RoomCodeTaken))), "room code is taken");
}

#[test]
fn answers_to_join_game() {
    type R = ApiResponse<join_game::Response>;
    assert!(is_success(R::from(Ok(()))));
    assert_eq!(
        client_error(R::from(Err(JoinGameError::ClientIsAlreadyInAGame))),
        "client is already in a game"
    );
    assert_eq!(client_error(R::from(Err(JoinGameError::RoomDoesNotExist))), "room does not exist");
    assert_eq!(client_error(R::from(Err(JoinGameError::GameFull))), "game is full");
    assert_eq!(client_error(R::from(Err(JoinGameError::GameAlreadyStarted))), "game already started");
}

#[test]
fn answers_to_start_game() {
    type R = ApiResponse<start_game::Response>;
    assert!(is_success(R::from(Ok(()))));
    assert_eq!(
        client_error(R::from(Err(StartGameError::ClientIsNotInAGame))),
        "client is not in a game"
    );
    assert_eq!(
        client_error(R::from(Err(StartGameError::ClientIsNotTheHost))),
        "client is not the host"
    );
    assert_eq!(client_error(R::from(Err(StartGameError::GameAlreadyStarted))), "game already started");
    assert_eq!(
        client_error(R::from(Err(StartGameError::MinimumPlayersNotReached))),
        "not enough players to start game"
    );
    assert_eq!(
        server_error(R::from(Err(StartGameError::NotEnoughPrompts))),
        "not enough prompts to start game"
    );
}

#[test]
fn answers_to_play_again() {
    type R = ApiResponse<play_again::Response>;
    assert!(is_success(R::from(Ok(()))));
    assert_eq!(
        client_error(R::from(Err(PlayAgainError::ClientIsNotInAGame))),
        "client is not in a game"
    );
    assert_eq!(
        client_error(R::from(Err(PlayAgainError::ClientIsNotTheHost))),
        "client is not the host"
    );
    assert_eq!(client_error(R::from(Err(PlayAgainError::GameIsNotOver))), "game is not over");
}

#[test]
fn answers_to_set_player_ready() {
    type R = ApiResponse<set_player_ready::Response>;
    assert!(is_success(R::from(Ok(()))));
    assert_eq!(
        client_error(R::from(Err(SetPlayerReadyError::ClientIsNotInAGame))),
        "client is not in a game"
    );
}

#[test]
fn answers_to_submit_drawing() {
    type R = ApiResponse<submit_drawing::Response>;
    assert!(is_success(R::from(Ok(()))));
    assert_eq!(
        client_error(R::from(Err(SubmitDrawingError::ClientIsNotInAGame))),
        "client is not in a game"
    );
    assert_eq!(
        client_error(R::from(Err(SubmitDrawingError::DrawingSubmittedForWrongRound))),
        "drawing submitted for wrong round"
    );
    assert_eq!(
        client_error(R::from(Err(SubmitDrawingError::DrawingWasAlreadySubmitted))),
        "drawing was already submitted for this round"
    );
}

#[test]
fn answers_to_submit_vote() {
    type R = ApiResponse<submit_vote::Response>;
    assert!(is_success(R::from(Ok(()))));
    assert_eq!(
        client_error(R::from(Err(SubmitVoteError::ClientIsNotInAGame))),
        "client is not in a game"
    );
    assert_eq!(
        client_error(R::from(Err(SubmitVoteError::GameHasNotStarted))),
        "game has not started"
    );
    assert_eq!(
        client_error(R::from(Err(SubmitVoteError::MaximumVotesExceeded))),
        "maximum votes exceeded"
    );
    assert_eq!(
        client_error(R::from(Err(SubmitVoteError::ClientVotedForSelf))),
        "client cannot vote for their own drawing"
    );
    assert_eq!(
        client_error(R::from(Err(SubmitVoteError::InvalidDrawingId))),
        "votes included an invalid drawing id"
    );
    assert_eq!(
        server_error(R::from(Err(SubmitVoteError::NotEnoughPrompts))),
        "not enough prompts for the next round"
    );
}

#[test]
fn answers_to_update_game_settings() {
    type R = ApiResponse<update_game_settings::Response>;
    assert!(is_success(R::from(Ok(()))));
    assert_eq!(
        client_error(R::from(Err(UpdateGameSettingsError::ClientIsNotInAGame))),
        "client is not in a game"
    );
    assert_eq!(
        client_error(R::from(Err(UpdateGameSettingsError::ClientIsNotTheHost))),
        "client is not the host"
    );
    assert_eq!(
        client_error(R::from(Err(UpdateGameSettingsError::GameAlreadyStarted))),
        "game already started"
    );
    assert_eq!(
        client_error(R::from(Err(UpdateGameSettingsError::InvalidNumRounds))),
        "rounds invalid"
    );
    assert_eq!(
        client_error(R::from(Err(UpdateGameSettingsError::InvalidDrawingTimeLimit))),
        "drawing_phase_time_limit invalid"
    );
    assert_eq!(
        client_error(R::from(Err(UpdateGameSettingsError::InvalidVotingTimeLimit))),
        "voting_phase_time_limit invalid"
    );
    assert_eq!(
        client_error(R::from(Err(UpdateGameSettingsError::DeckDoesNotExist))),
        "deck does not exist"
    );
    assert_eq!(
        client_error(R::from(Err(UpdateGameSettingsError::SettingRemovesAllDecks))),
        "cannot have 0 decks"
    );
}
