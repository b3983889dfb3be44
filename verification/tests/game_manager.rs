use drawing_game::deck::Deck;
use drawing_game::drawing::{Drawing, Stroke};
use drawing_game::errors::{
    CreateGameError, DisconnectError, JoinGameError, PlayAgainError, SetPlayerReadyError, StartGameError,
    SubmitDrawingError, SubmitVoteError, UpdateGameSettingsError,
};
use drawing_game::game::GameState;
use drawing_game::game_manager::{GameManager, ROOM_CODE_LENGTH};
use drawing_game::game_settings::{GameMode, GameSettings};
use drawing_game::player_view::PlayerState;
use drawing_game::room_code_generator::RoomCodeGenerator;
use drawing_game::server_messages::{Outbound, ServerMessage};
use std::collections::HashMap;

fn scribble(tag: usize) -> Drawing {
    vec![Stroke { coordinates: vec![(0, 0)], brush_size: tag, color: "blue".to_string() }]
}

fn stack(count: usize) -> Vec<Deck<String>> {
    vec![Deck::new((0..count).map(|i| format!("word{}", i)).collect())]
}

fn rounds_only(rounds: usize) -> GameSettings {
    GameSettings {
        mode: GameMode::Default,
        rounds,
        drawing_phase_time_limit_seconds: None,
        voting_phase_time_limit_seconds: None,
        drawing_decks_included: Vec::new(),
    }
}

/// A manager with the room "ABCD" of the players 1 (the host), 2 and 3.
fn manager_with_room() -> GameManager {
    let mut manager = GameManager::new(7);
    manager.create_game_in_room(1, "Ann".to_string(), "ABCD".to_string()).unwrap();
    manager.join_game(2, "ABCD", "Ben").unwrap();
    manager.join_game(3, "ABCD", "Cat").unwrap();
    manager.take_outbox();
    manager
}

fn to_whom(events: &[Outbound]) -> Vec<u128> {
    events.iter().map(|e| e.recipient).collect()
}

fn what(events: &[Outbound]) -> Vec<&'static str> {
    events
        .iter()
        .map(|e| match &e.message {
            ServerMessage::LobbyUpdate(_) => "lobby",
            ServerMessage::GameSettingsUpdate(_) => "settings",
            ServerMessage::DrawingParameters(_) => "parameters",
            ServerMessage::VotingBallot(_) => "ballot",
            ServerMessage::Results(_) => "results",
        })
        .collect()
}

#[test]
fn room_codes_have_four_letters_at_least() {
    assert_eq!(ROOM_CODE_LENGTH, 4);
}

#[test]
fn a_new_manager_has_no_rooms() {
    let mut manager = GameManager::new(1);
    assert_eq!(manager.room_count(), 0);
    assert!(manager.get_game(&1).is_none());
    assert_eq!(manager.take_outbox().len(), 0);
    assert!(manager.included_deck_names(&1).is_none());
}

#[test]
fn create_game_opens_a_room_under_the_next_code() {
    let mut manager = GameManager::new(99);
    let mut codes = RoomCodeGenerator::new(99, 4);
    assert_eq!(manager.create_game(10, "Ann".to_string()), Ok(()));
    assert_eq!(manager.create_game(20, "Ben".to_string()), Ok(()));
    assert_eq!(manager.room_count(), 2);
    let first = codes.generate();
    let second = codes.generate();
    assert_ne!(first, second);
    let room = manager.get_game(&10).unwrap();
    assert_eq!(*room.room_code(), first);
    assert_eq!(room.host_id(), 10);
    assert_eq!(room.players().len(), 1);
    assert_eq!(room.players()[0].name, "Ann");
    assert_eq!(room.state(), GameState::WaitingForPlayers);
    assert_eq!(*manager.get_game(&20).unwrap().room_code(), second);
    let events = manager.take_outbox();
    assert_eq!(what(&events), vec!["lobby", "settings", "lobby", "settings"]);
    assert_eq!(to_whom(&events), vec![10, 10, 20, 20]);
    assert_eq!(manager.take_outbox().len(), 0);
}

#[test]
fn a_player_in_a_room_cannot_open_another() {
    let mut manager = manager_with_room();
    assert_eq!(
        manager.create_game(1, "again".to_string()),
        Err(CreateGameError::ClientIsAlreadyInAGame)
    );
    assert_eq!(
        manager.create_game(3, "again".to_string()),
        Err(CreateGameError::ClientIsAlreadyInAGame)
    );
    assert_eq!(
        manager.create_game_in_room(2, "again".to_string(), "WXYZ".to_string()),
        Err(CreateGameError::ClientIsAlreadyInAGame)
    );
    assert_eq!(manager.room_count(), 1);
    assert_eq!(manager.take_outbox().len(), 0);
}

#[test]
fn a_room_is_not_opened_under_a_code_that_is_taken() {
    let mut manager = manager_with_room();
    assert_eq!(
        manager.create_game_in_room(9, "Zed".to_string(), "ABCD".to_string()),
        Err(CreateGameError::RoomCodeTaken)
    );
    assert_eq!(manager.room_count(), 1);
    assert!(manager.get_game(&9).is_none());
    assert_eq!(manager.get_game(&1).unwrap().players().len(), 3);
    assert_eq!(manager.create_game_in_room(9, "Zed".to_string(), "abcd".to_string()), Ok(()));
    assert_eq!(manager.room_count(), 2);
}

#[test]
fn join_game_seats_the_player_in_the_room_of_the_code() {
    let mut manager = GameManager::new(7);
    manager.create_game_in_room(1, "Alice".to_string(), "ABCD".to_string()).unwrap();
    manager.create_game_in_room(5, "Eve".to_string(), "EFGH".to_string()).unwrap();
    manager.take_outbox();
    assert_eq!(manager.join_game(2, "ABCD", " Alice "), Ok(()));
    let room = manager.get_game(&2).unwrap();
    assert_eq!(room.room_code(), "ABCD");
    let names: Vec<&str> = room.players().iter().map(|p| p.name.as_str()).collect();
    assert_eq!(names, vec!["Alice", "Alice(1)"]);
    assert_eq!(manager.get_game(&5).unwrap().players().len(), 1);
    let events = manager.take_outbox();
    assert_eq!(what(&events), vec!["settings", "lobby", "lobby"]);
    assert_eq!(to_whom(&events), vec![2, 1, 2]);
    match &events[2].message {
        ServerMessage::LobbyUpdate(update) => {
            assert_eq!(update.room_code, "ABCD");
            let shown: Vec<&str> = update.players.iter().map(|p| p.name.as_str()).collect();
            assert_eq!(shown, vec!["Alice", "Alice(1)"]);
            assert_eq!(update.players.iter().filter(|p| p.is_you).count(), 1);
            assert!(update.players[1].is_you);
        },
        _ => panic!("no lobby update"),
    }
}

#[test]
fn join_game_is_turned_down_for_each_fault() {
    let mut manager = manager_with_room();
    assert_eq!(manager.join_game(2, "ABCD", "x"), Err(JoinGameError::ClientIsAlreadyInAGame));
    assert_eq!(manager.join_game(2, "NONE", "x"), Err(JoinGameError::ClientIsAlreadyInAGame));
    assert_eq!(manager.join_game(9, "NONE", "x"), Err(JoinGameError::RoomDoesNotExist));
    assert_eq!(manager.join_game(9, "abcd", "x"), Err(JoinGameError::RoomDoesNotExist));
    assert_eq!(manager.join_game(9, "", "x"), Err(JoinGameError::RoomDoesNotExist));
    for id in 4..=8u128 {
        assert_eq!(manager.join_game(id, "ABCD", "x"), Ok(()));
    }
    manager.take_outbox();
    assert_eq!(manager.join_game(9, "ABCD", "x"), Err(JoinGameError::GameFull));
    assert!(manager.get_game(&9).is_none());
    assert_eq!(manager.take_outbox().len(), 0);
    let mut manager = manager_with_room();
    manager.update_game_settings(&1, &rounds_only(1)).unwrap();
    manager.start_game(&1, stack(5)).unwrap();
    manager.take_outbox();
    assert_eq!(manager.join_game(9, "ABCD", "x"), Err(JoinGameError::GameAlreadyStarted));
    assert_eq!(manager.take_outbox().len(), 0);
}

#[test]
fn a_player_turned_down_by_a_room_can_join_another() {
    let mut manager = manager_with_room();
    manager.update_game_settings(&1, &rounds_only(1)).unwrap();
    manager.start_game(&1, stack(5)).unwrap();
    assert_eq!(manager.join_game(9, "ABCD", "x"), Err(JoinGameError::GameAlreadyStarted));
    assert!(manager.get_game(&9).is_none());
    assert_eq!(manager.set_player_ready(&9, true), Err(SetPlayerReadyError::ClientIsNotInAGame));
    assert_eq!(manager.create_game_in_room(9, "x".to_string(), "QRST".to_string()), Ok(()));
    assert_eq!(manager.get_game(&9).unwrap().room_code(), "QRST");
}

#[test]
fn commands_of_a_player_in_no_room_are_turned_down() {
    let mut manager = manager_with_room();
    assert_eq!(
        manager.update_game_settings(&9, &rounds_only(3)),
        Err(UpdateGameSettingsError::ClientIsNotInAGame)
    );
    assert_eq!(manager.set_player_ready(&9, true), Err(SetPlayerReadyError::ClientIsNotInAGame));
    assert_eq!(manager.start_game(&9, stack(50)), Err(StartGameError::ClientIsNotInAGame));
    assert_eq!(manager.play_again(&9), Err(PlayAgainError::ClientIsNotInAGame));
    assert_eq!(
        manager.submit_drawing(&9, scribble(1), 1),
        Err(SubmitDrawingError::ClientIsNotInAGame)
    );
    assert_eq!(manager.submit_vote(&9, HashMap::new()), Err(SubmitVoteError::ClientIsNotInAGame));
    assert_eq!(manager.remove_player_connection(&9), Ok(()));
    assert_eq!(manager.room_count(), 1);
    assert_eq!(manager.get_game(&1).unwrap().players().len(), 3);
    assert_eq!(manager.take_outbox().len(), 0);
}

#[test]
fn commands_go_to_the_room_of_the_player() {
    let mut manager = manager_with_room();
    manager.create_game_in_room(5, "Eve".to_string(), "EFGH".to_string()).unwrap();
    manager.join_game(6, "EFGH", "Fay").unwrap();
    manager.take_outbox();
    assert_eq!(manager.update_game_settings(&2, &rounds_only(2)), Err(UpdateGameSettingsError::ClientIsNotTheHost));
    assert_eq!(manager.update_game_settings(&5, &rounds_only(2)), Ok(()));
    assert_eq!(manager.get_game(&6).unwrap().settings().rounds, 2);
    assert_eq!(manager.get_game(&1).unwrap().settings().rounds, 5);
    assert_eq!(to_whom(&manager.take_outbox()), vec![5, 6]);
    assert_eq!(manager.set_player_ready(&3, true), Ok(()));
    assert_eq!(manager.get_game(&1).unwrap().players()[2].state, PlayerState::Ready);
    assert_eq!(to_whom(&manager.take_outbox()), vec![1, 2, 3]);
    assert_eq!(manager.start_game(&6, stack(50)), Err(StartGameError::ClientIsNotTheHost));
    assert_eq!(manager.check_start_game(&6), Err(StartGameError::ClientIsNotTheHost));
    assert_eq!(manager.check_start_game(&9), Err(StartGameError::ClientIsNotInAGame));
    assert_eq!(manager.check_start_game(&5), Ok(()));
    assert_eq!(manager.start_game(&5, Vec::new()), Err(StartGameError::NotEnoughPrompts));
    assert_eq!(manager.get_game(&5).unwrap().state(), GameState::WaitingForPlayers);
    assert_eq!(manager.start_game(&5, stack(3)), Ok(()));
    assert_eq!(manager.check_start_game(&5), Err(StartGameError::GameAlreadyStarted));
    assert_eq!(manager.get_game(&5).unwrap().state(), GameState::DrawingPhase);
    assert_eq!(manager.get_game(&1).unwrap().state(), GameState::WaitingForPlayers);
    assert_eq!(what(&manager.take_outbox()), vec!["lobby", "lobby", "parameters", "parameters"]);
    assert_eq!(manager.play_again(&5), Err(PlayAgainError::GameIsNotOver));
    assert_eq!(manager.play_again(&6), Err(PlayAgainError::ClientIsNotTheHost));
    assert_eq!(
        manager.submit_drawing(&1, scribble(1), 1),
        Err(SubmitDrawingError::DrawingSubmittedForWrongRound)
    );
    assert_eq!(
        manager.submit_drawing(&5, scribble(1), 2),
        Err(SubmitDrawingError::DrawingSubmittedForWrongRound)
    );
    assert_eq!(manager.submit_drawing(&5, scribble(1), 1), Ok(()));
    assert_eq!(
        manager.submit_drawing(&5, scribble(1), 1),
        Err(SubmitDrawingError::DrawingWasAlreadySubmitted)
    );
    assert_eq!(manager.submit_vote(&1, HashMap::new()), Err(SubmitVoteError::GameHasNotStarted));
    assert_eq!(manager.submit_drawing(&6, scribble(2), 1), Ok(()));
    assert_eq!(manager.get_game(&5).unwrap().state(), GameState::VotingPhase);
    let own = manager.get_game(&5).unwrap().rounds()[0].get_data()[0].drawing_id;
    let other = manager.get_game(&5).unwrap().rounds()[0].get_data()[1].drawing_id;
    assert_eq!(manager.submit_vote(&5, HashMap::from([(own, 1)])), Err(SubmitVoteError::ClientVotedForSelf));
    assert_eq!(manager.submit_vote(&5, HashMap::from([(other, 4)])), Err(SubmitVoteError::MaximumVotesExceeded));
    manager.take_outbox();
    assert_eq!(manager.submit_vote(&5, HashMap::from([(other, 3)])), Ok(()));
    assert_eq!(to_whom(&manager.take_outbox()), vec![5, 6]);
    assert_eq!(manager.submit_vote(&6, HashMap::new()), Ok(()));
    let room = manager.get_game(&5).unwrap();
    assert_eq!(room.curr_round(), Some(2));
    assert_eq!(room.players()[1].score, 3);
}

#[test]
fn a_room_is_closed_when_its_last_player_leaves_the_lobby() {
    let mut manager = manager_with_room();
    assert_eq!(manager.remove_player_connection(&2), Ok(()));
    assert_eq!(manager.room_count(), 1);
    assert!(manager.get_game(&2).is_none());
    assert_eq!(manager.get_game(&1).unwrap().players().len(), 2);
    assert_eq!(to_whom(&manager.take_outbox()), vec![1, 3]);
    manager.remove_player_connection(&1).unwrap();
    assert_eq!(manager.get_game(&3).unwrap().host_id(), 3);
    manager.remove_player_connection(&3).unwrap();
    assert_eq!(manager.room_count(), 0);
    assert!(manager.get_game(&3).is_none());
    assert_eq!(manager.join_game(2, "ABCD", "back"), Err(JoinGameError::RoomDoesNotExist));
    assert_eq!(manager.create_game_in_room(2, "back".to_string(), "ABCD".to_string()), Ok(()));
}

#[test]
fn a_room_in_a_game_is_closed_when_all_three_players_have_left() {
    let mut manager = manager_with_room();
    manager.create_game_in_room(5, "Eve".to_string(), "EFGH".to_string()).unwrap();
    manager.start_game(&1, stack(20)).unwrap();
    assert_eq!(manager.get_game(&1).unwrap().state(), GameState::DrawingPhase);
    manager.remove_player_connection(&1).unwrap();
    manager.remove_player_connection(&3).unwrap();
    assert_eq!(manager.room_count(), 2);
    assert!(manager.get_game(&1).is_none());
    assert!(manager.get_game(&3).is_none());
    let room = manager.get_game(&2).unwrap();
    assert_eq!(room.host_id(), 2);
    assert_eq!(room.players().len(), 3);
    assert!(!room.all_players_disconnected());
    assert_eq!(room.state(), GameState::DrawingPhase);
    assert_eq!(manager.start_game(&1, stack(20)), Err(StartGameError::ClientIsNotInAGame));
    manager.remove_player_connection(&2).unwrap();
    assert_eq!(manager.room_count(), 1);
    assert!(manager.get_game(&2).is_none());
    assert_eq!(manager.get_game(&5).unwrap().room_code(), "EFGH");
    assert_eq!(manager.join_game(2, "ABCD", "back"), Err(JoinGameError::RoomDoesNotExist));
}

#[test]
fn a_player_who_left_a_game_can_open_a_room() {
    let mut manager = manager_with_room();
    manager.start_game(&1, stack(20)).unwrap();
    manager.remove_player_connection(&2).unwrap();
    assert_eq!(manager.join_game(2, "ABCD", "back"), Err(JoinGameError::GameAlreadyStarted));
    assert!(manager.get_game(&2).is_none());
    assert_eq!(manager.create_game_in_room(2, "solo".to_string(), "SOLO".to_string()), Ok(()));
    assert_eq!(manager.get_game(&2).unwrap().room_code(), "SOLO");
    assert_eq!(manager.get_game(&1).unwrap().players().len(), 3);
}

#[test]
fn a_game_that_runs_out_of_prompts_ends_and_says_so() {
    let mut manager = manager_with_room();
    manager.create_game_in_room(5, "Eve".to_string(), "EFGH".to_string()).unwrap();
    manager.join_game(6, "EFGH", "Fay").unwrap();
    assert_eq!(manager.start_game(&1, stack(3)), Ok(()));
    assert_eq!(manager.start_game(&5, stack(1)), Ok(()));
    for id in [1u128, 2, 3, 5, 6] {
        assert_eq!(manager.submit_drawing(&id, scribble(id as usize), 1), Ok(()));
    }
    let other = manager.get_game(&5).unwrap().rounds()[0].get_data()[1].drawing_id;
    assert_eq!(manager.submit_vote(&5, HashMap::from([(other, 2)])), Ok(()));
    manager.take_outbox();
    assert_eq!(manager.submit_vote(&6, HashMap::new()), Err(SubmitVoteError::NotEnoughPrompts));
    {
        let room = manager.get_game(&6).unwrap();
        assert_eq!(room.state(), GameState::Results);
        assert_eq!(room.curr_round(), Some(1));
        assert_eq!(room.players()[1].score, 2);
    }
    assert_eq!(what(&manager.take_outbox()), vec![
        "lobby", "lobby", "lobby", "lobby", "results", "results"
    ]);
    assert_eq!(manager.submit_vote(&1, HashMap::new()), Ok(()));
    assert_eq!(manager.submit_vote(&2, HashMap::new()), Ok(()));
    manager.take_outbox();
    assert_eq!(manager.remove_player_connection(&3), Err(DisconnectError::NotEnoughPrompts));
    let room = manager.get_game(&1).unwrap();
    assert_eq!(room.state(), GameState::Results);
    assert_eq!(room.players().len(), 3);
    assert_eq!(to_whom(&manager.take_outbox()), vec![1, 2, 1, 2, 1, 2]);
    assert_eq!(manager.play_again(&1), Ok(()));
    assert_eq!(manager.get_game(&1).unwrap().players().len(), 2);
}

#[test]
fn the_decks_to_hand_over_are_those_of_the_room() {
    let mut manager = manager_with_room();
    assert_eq!(manager.included_deck_names(&2).unwrap().len(), 10);
    let mut settings = rounds_only(5);
    settings.drawing_decks_included = vec![
        ("animals".to_string(), false),
        ("misc".to_string(), false),
        ("hobbies".to_string(), false),
    ];
    manager.update_game_settings(&1, &settings).unwrap();
    assert_eq!(
        manager.included_deck_names(&3).unwrap(),
        vec![
            "clothing",
            "geo-political",
            "musical-instruments",
            "occupations",
            "space",
            "transportation",
            "fruits-and-vegetables",
        ]
    );
    assert!(manager.included_deck_names(&9).is_none());
}
