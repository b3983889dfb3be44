use drawing_game::deck::Deck;
use drawing_game::drawing::{Drawing, Stroke};
use drawing_game::errors::{
    DisconnectError, JoinGameError, PlayAgainError, StartGameError, SubmitDrawingError, SubmitVoteError,
    UpdateGameSettingsError,
};
use drawing_game::game::{Game, GameState};
use drawing_game::game_model::{IMPRINT_STROKES, MAX_PLAYERS, MIN_PLAYERS};
use drawing_game::game_settings::{GameMode, GameSettings, MAX_PHASE_SECONDS, MAX_ROUNDS};
use drawing_game::player_view::PlayerState;
use drawing_game::server_messages::{Outbound, Results, ServerMessage};
use std::collections::HashMap;

const HOST: u128 = 1;

fn doodle(tag: usize, strokes: usize) -> Drawing {
    (0..strokes)
        .map(|k| Stroke {
            coordinates: vec![(0.5f32.to_bits(), 1.5f32.to_bits())],
            brush_size: tag * 100 + k,
            color: "red".to_string(),
        })
        .collect()
}

fn pile(count: usize) -> Vec<Deck<String>> {
    vec![Deck::new((0..count).map(|i| format!("prompt{}", i)).collect())]
}

fn settings_with(rounds: usize, decks: &[(&str, bool)]) -> GameSettings {
    GameSettings {
        mode: GameMode::Default,
        rounds,
        drawing_phase_time_limit_seconds: None,
        voting_phase_time_limit_seconds: None,
        drawing_decks_included: decks.iter().map(|(n, b)| (n.to_string(), *b)).collect(),
    }
}

/// A room of the players 1 (host), 2, .. up to `players`.
fn lobby_of(players: u128) -> Game {
    let mut game = Game::new("ROOM".to_string(), HOST, "u1".to_string());
    for id in 2..=players {
        game.add_player(id, &format!("u{}", id)).unwrap();
    }
    game.take_outbox();
    game
}

/// A room of that many players whose game has just started, with the given
/// number of rounds.
fn started_game(players: u128, rounds: usize) -> Game {
    let mut game = lobby_of(players);
    game.update_settings(&HOST, &settings_with(rounds, &[])).unwrap();
    game.start_game(&HOST, pile(rounds * players as usize)).unwrap();
    game.take_outbox();
    game
}

fn drawing_id_of(game: &Game, player: u128) -> u128 {
    let round = game.get_current_round().unwrap();
    round.get_data().iter().find(|e| e.player_id == player).unwrap().drawing_id
}

fn all_draw(game: &mut Game, players: u128) {
    let round = game.curr_round().unwrap();
    for id in 1..=players {
        game.submit_drawing(&id, doodle(id as usize, 5), round).unwrap();
    }
}

fn all_draw_connected(game: &mut Game, players: &[u128]) {
    let round = game.curr_round().unwrap();
    for id in players.iter() {
        game.submit_drawing(id, doodle(*id as usize, 5), round).unwrap();
    }
}

fn recipients(events: &[Outbound]) -> Vec<u128> {
    events.iter().map(|e| e.recipient).collect()
}

fn kinds(events: &[Outbound]) -> Vec<&'static str> {
    events
        .iter()
        .map(|e| match &e.message {
            ServerMessage::LobbyUpdate(_) => "lobby",
            ServerMessage::GameSettingsUpdate(_) => "settings",
            ServerMessage::DrawingParameters(_) => "parameters",
            ServerMessage::VotingBallot(_) => "ballot",
            ServerMessage::Results(_) => "results",
        })
        .collect()
}

fn names_in(game: &Game) -> Vec<String> {
    game.players().iter().map(|p| p.name.clone()).collect()
}

fn states_in(game: &Game) -> Vec<PlayerState> {
    game.players().iter().map(|p| p.state).collect()
}

fn scores_in(game: &Game) -> Vec<i64> {
    game.players().iter().map(|p| p.score).collect()
}

#[test]
fn limits_of_a_room() {
    assert_eq!(MIN_PLAYERS, 2);
    assert_eq!(MAX_PLAYERS, 8);
    assert_eq!(MAX_ROUNDS, 25);
    assert_eq!(MAX_PHASE_SECONDS, 300);
    assert_eq!(IMPRINT_STROKES, 3);
}

#[test]
fn a_new_room_waits_with_its_host_and_tells_them() {
    let mut game = Game::new("ABCD".to_string(), 77, "  Ann ".to_string());
    assert_eq!(game.room_code(), "ABCD");
    assert_eq!(game.state(), GameState::WaitingForPlayers);
    assert_eq!(game.host_id(), 77);
    assert_eq!(game.curr_round(), None);
    assert_eq!(game.rounds().len(), 0);
    assert!(game.get_current_round().is_none());
    assert_eq!(game.prompts_left(), None);
    assert!(!game.all_players_disconnected());
    assert_eq!(game.players().len(), 1);
    let host = &game.players()[0];
    assert_eq!((host.id, host.name.as_str(), host.host_rank), (77, "  Ann ", 0));
    assert_eq!((host.state, host.score, host.is_disconnected), (PlayerState::NotReady, 0, false));
    let settings = game.settings();
    assert_eq!(settings.rounds, 5);
    assert_eq!(settings.drawing_phase_time_limit_seconds, None);
    assert_eq!(settings.voting_phase_time_limit_seconds, None);
    assert_eq!(settings.drawing_decks_included.len(), 10);
    assert!(settings.drawing_decks_included.iter().all(|d| d.1));
    assert_eq!(settings.drawing_decks_included[0].0, "animals");
    assert_eq!(settings.drawing_decks_included[9].0, "misc");
    let events = game.take_outbox();
    assert_eq!(kinds(&events), vec!["lobby", "settings"]);
    assert_eq!(recipients(&events), vec![77, 77]);
    match &events[0].message {
        ServerMessage::LobbyUpdate(update) => {
            assert_eq!(update.room_code, "ABCD");
            assert_eq!(update.state, GameState::WaitingForPlayers);
            assert_eq!(update.round, None);
            assert_eq!(update.num_rounds, 5);
            assert_eq!(update.players.len(), 1);
            assert!(update.players[0].is_host && update.players[0].is_you);
        },
        _ => panic!("no lobby update"),
    }
    assert_eq!(game.take_outbox().len(), 0);
}

#[test]
fn a_second_alice_becomes_alice_1() {
    let mut game = Game::new("ROOM".to_string(), HOST, "Alice".to_string());
    assert_eq!(game.add_player(2, "Alice"), Ok(()));
    assert_eq!(game.add_player(3, "Alice"), Ok(()));
    assert_eq!(game.add_player(4, "Alice(1)"), Ok(()));
    assert_eq!(game.add_player(5, "Bob"), Ok(()));
    assert_eq!(names_in(&game), vec!["Alice", "Alice(1)", "Alice(2)", "Alice(1)(1)", "Bob"]);
}

#[test]
fn names_are_trimmed_before_they_are_compared() {
    let mut game = Game::new("ROOM".to_string(), HOST, "Alice".to_string());
    assert_eq!(game.add_player(2, "  Alice\t\n"), Ok(()));
    assert_eq!(game.add_player(3, " Bob Ross "), Ok(()));
    assert_eq!(game.add_player(4, "\u{3000}Carol\u{a0}"), Ok(()));
    assert_eq!(game.add_player(5, "   "), Ok(()));
    assert_eq!(game.add_player(6, ""), Ok(()));
    assert_eq!(names_in(&game), vec!["Alice", "Alice(1)", "Bob Ross", "Carol", "", "(1)"]);
}

#[test]
fn a_joiner_is_sent_the_settings_and_everybody_the_room() {
    let mut game = lobby_of(2);
    assert_eq!(game.add_player(3, "u2"), Ok(()));
    let events = game.take_outbox();
    assert_eq!(kinds(&events), vec!["settings", "lobby", "lobby", "lobby"]);
    assert_eq!(recipients(&events), vec![3, 1, 2, 3]);
    for event in events[1..].iter() {
        match &event.message {
            ServerMessage::LobbyUpdate(update) => {
                let shown: Vec<&str> = update.players.iter().map(|p| p.name.as_str()).collect();
                assert_eq!(shown, vec!["u1", "u2", "u2(1)"]);
                assert_eq!(shown.iter().filter(|n| **n == "u2(1)").count(), 1);
                let you: Vec<bool> = update.players.iter().map(|p| p.is_you).collect();
                assert_eq!(you, vec![event.recipient == 1, event.recipient == 2, event.recipient == 3]);
                let host: Vec<bool> = update.players.iter().map(|p| p.is_host).collect();
                assert_eq!(host, vec![true, false, false]);
            },
            _ => panic!("no lobby update"),
        }
    }
    let joiner = &game.players()[2];
    assert_eq!((joiner.id, joiner.host_rank, joiner.score), (3, 2, 0));
    assert_eq!(joiner.state, PlayerState::NotReady);
}

#[test]
fn ranks_are_never_handed_out_twice() {
    let mut game = lobby_of(3);
    game.disconnect_player(&2).unwrap();
    game.add_player(4, "u4").unwrap();
    let ranks: Vec<usize> = game.players().iter().map(|p| p.host_rank).collect();
    assert_eq!(ranks, vec![0, 2, 3]);
}

#[test]
fn a_ninth_player_finds_the_room_full() {
    let mut game = lobby_of(8);
    assert_eq!(game.players().len(), 8);
    assert_eq!(game.add_player(9, "late"), Err(JoinGameError::GameFull));
    assert_eq!(game.players().len(), 8);
    assert_eq!(game.take_outbox().len(), 0);
    game.disconnect_player(&5).unwrap();
    game.take_outbox();
    assert_eq!(game.add_player(9, "late"), Ok(()));
}

#[test]
fn nobody_joins_a_game_that_has_started() {
    let mut game = started_game(2, 1);
    assert_eq!(game.add_player(9, "late"), Err(JoinGameError::GameAlreadyStarted));
    all_draw(&mut game, 2);
    assert_eq!(game.add_player(9, "late"), Err(JoinGameError::GameAlreadyStarted));
    game.submit_vote(&1, HashMap::new()).unwrap();
    game.submit_vote(&2, HashMap::new()).unwrap();
    assert_eq!(game.state(), GameState::Results);
    assert_eq!(game.add_player(9, "late"), Err(JoinGameError::GameAlreadyStarted));
    assert_eq!(game.players().len(), 2);
}

#[test]
fn a_full_room_that_has_started_is_full_first() {
    let mut game = started_game(8, 1);
    assert_eq!(game.add_player(9, "late"), Err(JoinGameError::GameFull));
}

#[test]
fn a_player_of_the_room_is_told_of_a_full_or_started_room_first() {
    let mut game = lobby_of(8);
    assert_eq!(game.add_player(3, "again"), Err(JoinGameError::GameFull));
    assert_eq!(game.players().len(), 8);
    assert_eq!(game.take_outbox().len(), 0);
    let mut game = started_game(3, 2);
    assert_eq!(game.add_player(2, "again"), Err(JoinGameError::GameAlreadyStarted));
    game.disconnect_player(&2).unwrap();
    game.take_outbox();
    assert_eq!(game.add_player(2, "again"), Err(JoinGameError::GameAlreadyStarted));
    assert_eq!(game.players().len(), 3);
    assert_eq!(game.take_outbox().len(), 0);
}

#[test]
fn a_player_of_the_room_cannot_join_it_again() {
    let mut game = lobby_of(3);
    assert_eq!(game.add_player(2, "again"), Err(JoinGameError::ClientIsAlreadyInAGame));
    assert_eq!(names_in(&game), vec!["u1", "u2", "u3"]);
    assert_eq!(game.take_outbox().len(), 0);
}

#[test]
fn a_player_who_joins_an_empty_room_becomes_its_host() {
    let mut game = lobby_of(1);
    game.disconnect_player(&HOST).unwrap();
    assert!(game.all_players_disconnected());
    assert_eq!(game.add_player(5, "next"), Ok(()));
    assert_eq!(game.host_id(), 5);
}

#[test]
fn only_the_host_starts_the_game() {
    let mut game = lobby_of(3);
    assert_eq!(game.start_game(&2, pile(50)), Err(StartGameError::ClientIsNotTheHost));
    assert_eq!(game.start_game(&99, pile(50)), Err(StartGameError::ClientIsNotTheHost));
    assert_eq!(game.state(), GameState::WaitingForPlayers);
    assert_eq!(game.take_outbox().len(), 0);
    assert_eq!(game.prompts_left(), None);
}

#[test]
fn one_player_cannot_start_a_game() {
    let mut game = lobby_of(1);
    assert_eq!(game.start_game(&HOST, pile(50)), Err(StartGameError::MinimumPlayersNotReached));
    assert_eq!(game.start_game(&HOST, Vec::new()), Err(StartGameError::MinimumPlayersNotReached));
    assert_eq!(game.state(), GameState::WaitingForPlayers);
    assert_eq!(game.curr_round(), None);
    assert_eq!(game.take_outbox().len(), 0);
}

#[test]
fn two_players_can_start_a_game() {
    let mut game = lobby_of(2);
    assert_eq!(game.start_game(&HOST, pile(9)), Ok(()));
    assert_eq!(game.state(), GameState::DrawingPhase);
    assert_eq!(game.curr_round(), Some(1));
    assert_eq!(game.rounds().len(), 1);
    assert_eq!(game.prompts_left(), Some(8));
    assert_eq!(states_in(&game), vec![PlayerState::Drawing, PlayerState::Drawing]);
}

#[test]
fn two_players_can_start_with_one_prompt_in_the_decks() {
    let mut game = lobby_of(2);
    assert_eq!(game.settings().rounds, 5);
    assert_eq!(game.check_start(&HOST), Ok(()));
    assert_eq!(game.start_game(&HOST, pile(1)), Ok(()));
    assert_eq!(game.state(), GameState::DrawingPhase);
    assert_eq!(game.curr_round(), Some(1));
    assert_eq!(game.rounds().len(), 1);
    assert_eq!(game.prompts_left(), Some(0));
    assert_eq!(states_in(&game), vec![PlayerState::Drawing; 2]);
    let data = game.rounds()[0].get_data();
    assert_eq!(data.len(), 2);
    assert!(data.iter().all(|e| e.drawing.is_none() && e.votes == 0 && !e.has_voted));
    let events = game.take_outbox();
    assert_eq!(kinds(&events), vec!["lobby", "lobby", "parameters", "parameters"]);
    for event in events[2..].iter() {
        match &event.message {
            ServerMessage::DrawingParameters(parameters) => assert_eq!(parameters.round, 1),
            _ => panic!("no drawing parameters"),
        }
    }
}

#[test]
fn a_game_does_not_start_without_prompts_for_the_first_round() {
    let mut game = lobby_of(2);
    assert_eq!(game.start_game(&HOST, Vec::new()), Err(StartGameError::NotEnoughPrompts));
    assert_eq!(game.start_game(&HOST, pile(0)), Err(StartGameError::NotEnoughPrompts));
    assert_eq!(game.state(), GameState::WaitingForPlayers);
    assert_eq!(game.prompts_left(), None);
    assert_eq!(game.take_outbox().len(), 0);
    let mut game = lobby_of(3);
    assert_eq!(game.start_game(&HOST, pile(1)), Err(StartGameError::NotEnoughPrompts));
    assert_eq!(game.start_game(&HOST, pile(2)), Ok(()));
    assert_eq!(game.prompts_left(), Some(0));
}

#[test]
fn the_check_before_the_start_asks_for_host_phase_and_players() {
    let mut game = lobby_of(1);
    assert_eq!(game.check_start(&2), Err(StartGameError::ClientIsNotTheHost));
    assert_eq!(game.check_start(&HOST), Err(StartGameError::MinimumPlayersNotReached));
    game.add_player(2, "u2").unwrap();
    assert_eq!(game.check_start(&2), Err(StartGameError::ClientIsNotTheHost));
    assert_eq!(game.check_start(&HOST), Ok(()));
    game.start_game(&HOST, pile(5)).unwrap();
    assert_eq!(game.check_start(&HOST), Err(StartGameError::GameAlreadyStarted));
    assert_eq!(game.check_start(&2), Err(StartGameError::ClientIsNotTheHost));
}

#[test]
fn a_round_that_cannot_be_dealt_ends_the_game() {
    let mut game = lobby_of(2);
    game.start_game(&HOST, pile(2)).unwrap();
    assert_eq!(game.prompts_left(), Some(1));
    all_draw(&mut game, 2);
    let (a, b) = (drawing_id_of(&game, 1), drawing_id_of(&game, 2));
    assert_eq!(game.submit_vote(&1, HashMap::from([(b, 3)])), Ok(()));
    game.take_outbox();
    assert_eq!(game.submit_vote(&2, HashMap::from([(a, 1)])), Err(SubmitVoteError::NotEnoughPrompts));
    assert_eq!(game.state(), GameState::Results);
    assert_eq!(game.curr_round(), Some(1));
    assert_eq!(game.rounds().len(), 1);
    assert_eq!(game.prompts_left(), Some(1));
    assert_eq!(scores_in(&game), vec![1, 3]);
    assert_eq!(states_in(&game), vec![PlayerState::NotReady; 2]);
    assert_eq!(game.rounds()[0].get_scores(), vec![(1, 1), (2, 3)]);
    let events = game.take_outbox();
    assert_eq!(kinds(&events), vec!["lobby", "lobby", "lobby", "lobby", "results", "results"]);
    assert_eq!(results_in(&events)[0].num_votes, 3);
    assert_eq!(game.play_again(&HOST), Ok(()));
    assert_eq!(game.start_game(&HOST, pile(9)), Ok(()));
}

#[test]
fn a_player_who_leaves_can_make_the_next_round_fit_the_deck() {
    let mut game = lobby_of(3);
    game.start_game(&HOST, pile(4)).unwrap();
    assert_eq!(game.prompts_left(), Some(2));
    all_draw(&mut game, 3);
    game.submit_vote(&1, HashMap::new()).unwrap();
    game.submit_vote(&2, HashMap::new()).unwrap();
    assert_eq!(game.disconnect_player(&3), Ok(()));
    assert_eq!(game.state(), GameState::DrawingPhase);
    assert_eq!(game.curr_round(), Some(2));
    assert_eq!(game.prompts_left(), Some(0));
    all_draw_connected(&mut game, &[1, 2]);
    game.submit_vote(&1, HashMap::new()).unwrap();
    assert_eq!(game.disconnect_player(&2), Err(DisconnectError::NotEnoughPrompts));
    assert_eq!(game.state(), GameState::Results);
    assert_eq!(game.curr_round(), Some(2));
    assert_eq!(game.host_id(), 1);
}

#[test]
fn the_last_voter_of_three_finds_the_deck_too_small() {
    let mut game = lobby_of(3);
    game.start_game(&HOST, pile(4)).unwrap();
    all_draw(&mut game, 3);
    game.submit_vote(&1, HashMap::new()).unwrap();
    game.submit_vote(&2, HashMap::new()).unwrap();
    assert_eq!(game.submit_vote(&3, HashMap::new()), Err(SubmitVoteError::NotEnoughPrompts));
    assert_eq!(game.state(), GameState::Results);
    assert!(game.rounds()[0].get_data()[2].has_voted);
}

#[test]
fn a_started_game_cannot_be_started_again() {
    let mut game = started_game(2, 2);
    assert_eq!(game.start_game(&HOST, pile(50)), Err(StartGameError::GameAlreadyStarted));
    assert_eq!(game.start_game(&2, pile(50)), Err(StartGameError::ClientIsNotTheHost));
    assert_eq!(game.curr_round(), Some(1));
}

#[test]
fn the_start_deals_a_prompt_to_everybody_and_tells_them() {
    let mut game = lobby_of(3);
    let decks = vec![
        Deck::new(vec!["cat".to_string(), "dog".to_string()]),
        Deck::new((0..20).map(|i| format!("thing{}", i)).collect()),
    ];
    assert_eq!(game.start_game(&HOST, decks), Ok(()));
    assert_eq!(game.prompts_left(), Some(20));
    let events = game.take_outbox();
    let round = game.rounds().last().unwrap();
    let data = round.get_data();
    assert_eq!(data.iter().map(|e| e.player_id).collect::<Vec<u128>>(), vec![1, 2, 3]);
    let mut dealt: Vec<String> = data.iter().map(|e| e.drawing_suggestion.clone()).collect();
    dealt.sort();
    dealt.dedup();
    assert_eq!(dealt.len(), 3);
    for prompt in dealt.iter() {
        assert!(prompt == "cat" || prompt == "dog" || prompt == "rabbit" || prompt.starts_with("thing"));
    }
    assert!(data.iter().all(|e| e.imprint.is_none() && e.drawing.is_none() && e.votes == 0));
    assert_eq!(
        kinds(&events),
        vec!["lobby", "lobby", "lobby", "parameters", "parameters", "parameters"]
    );
    assert_eq!(recipients(&events), vec![1, 2, 3, 1, 2, 3]);
    match &events[0].message {
        ServerMessage::LobbyUpdate(update) => {
            assert_eq!(update.state, GameState::DrawingPhase);
            assert_eq!(update.round, Some(1));
            assert!(update.players.iter().all(|p| p.state == PlayerState::Drawing));
        },
        _ => panic!("no lobby update"),
    }
    for (i, event) in events[3..].iter().enumerate() {
        match &event.message {
            ServerMessage::DrawingParameters(parameters) => {
                assert_eq!(parameters.round, 1);
                assert_eq!(parameters.drawing_suggestion, data[i].drawing_suggestion);
                assert!(parameters.imprint.is_none());
            },
            _ => panic!("no drawing parameters"),
        }
    }
}

#[test]
fn the_bonus_prompt_is_in_the_deck() {
    let mut game = lobby_of(2);
    game.update_settings(&HOST, &settings_with(1, &[])).unwrap();
    assert_eq!(game.start_game(&HOST, pile(1)), Ok(()));
    let mut dealt: Vec<String> =
        game.rounds()[0].get_data().iter().map(|e| e.drawing_suggestion.clone()).collect();
    dealt.sort();
    assert_eq!(dealt, vec!["prompt0", "rabbit"]);
}

#[test]
fn settings_are_taken_from_the_host_and_sent_to_everybody() {
    let mut game = lobby_of(3);
    let settings = settings_with(5, &[("animals", false), ("space", true)]);
    assert_eq!(game.update_settings(&HOST, &settings), Ok(()));
    let now = game.settings();
    assert_eq!(now.rounds, 5);
    assert_eq!(now.drawing_decks_included.len(), 10);
    let included: Vec<&str> = now
        .drawing_decks_included
        .iter()
        .filter(|d| d.1)
        .map(|d| d.0.as_str())
        .collect();
    assert_eq!(included.len(), 9);
    assert!(!included.contains(&"animals"));
    assert!(included.contains(&"space"));
    assert_eq!(now.included_deck_names().len(), 9);
    let events = game.take_outbox();
    assert_eq!(kinds(&events), vec!["settings", "settings", "settings"]);
    assert_eq!(recipients(&events), vec![1, 2, 3]);
    for event in events.iter() {
        match &event.message {
            ServerMessage::GameSettingsUpdate(update) => {
                assert_eq!(update.settings.rounds, 5);
                assert_eq!(update.settings.mode, GameMode::Default);
                assert_eq!(update.settings.drawing_phase_time_limit_seconds, None);
                assert_eq!(update.settings.voting_phase_time_limit_seconds, None);
                assert_eq!(update.settings.drawing_decks_included, game.settings().drawing_decks_included);
                assert!(update.settings.drawing_decks_included.contains(&("animals".to_string(), false)));
                assert!(update.settings.drawing_decks_included.contains(&("space".to_string(), true)));
            },
            _ => panic!("no settings update"),
        }
    }
}

#[test]
fn settings_with_one_deck_in_come_back_unchanged() {
    let mut game = lobby_of(2);
    let all_but_space: Vec<(&str, bool)> = vec![
        ("animals", false),
        ("clothing", false),
        ("geo-political", false),
        ("hobbies", false),
        ("musical-instruments", false),
        ("occupations", false),
        ("space", true),
        ("transportation", false),
        ("fruits-and-vegetables", false),
        ("misc", false),
    ];
    let settings = settings_with(5, &all_but_space);
    assert_eq!(game.update_settings(&HOST, &settings), Ok(()));
    assert_eq!(game.settings().included_deck_names(), vec!["space"]);
    let events = game.take_outbox();
    assert_eq!(events.len(), 2);
    match &events[1].message {
        ServerMessage::GameSettingsUpdate(update) => {
            assert_eq!(update.settings.rounds, settings.rounds);
            assert_eq!(update.settings.drawing_decks_included, settings.drawing_decks_included);
        },
        _ => panic!("no settings update"),
    }
}

#[test]
fn the_last_entry_for_a_deck_decides() {
    let mut game = lobby_of(2);
    let settings = settings_with(3, &[("misc", false), ("space", false), ("misc", true)]);
    assert_eq!(game.update_settings(&HOST, &settings), Ok(()));
    let decks = &game.settings().drawing_decks_included;
    assert!(decks.contains(&("misc".to_string(), true)));
    assert!(decks.contains(&("space".to_string(), false)));
}

#[test]
fn time_limits_up_to_five_minutes_are_taken() {
    let mut game = lobby_of(2);
    let mut settings = settings_with(5, &[]);
    settings.drawing_phase_time_limit_seconds = Some(300);
    settings.voting_phase_time_limit_seconds = Some(0);
    assert_eq!(game.update_settings(&HOST, &settings), Ok(()));
    assert_eq!(game.settings().drawing_phase_time_limit_seconds, Some(300));
    assert_eq!(game.settings().voting_phase_time_limit_seconds, Some(0));
    settings.drawing_phase_time_limit_seconds = Some(301);
    assert_eq!(
        game.update_settings(&HOST, &settings),
        Err(UpdateGameSettingsError::InvalidDrawingTimeLimit)
    );
    settings.drawing_phase_time_limit_seconds = None;
    settings.voting_phase_time_limit_seconds = Some(301);
    assert_eq!(
        game.update_settings(&HOST, &settings),
        Err(UpdateGameSettingsError::InvalidVotingTimeLimit)
    );
    assert_eq!(game.settings().drawing_phase_time_limit_seconds, Some(300));
    assert_eq!(game.settings().voting_phase_time_limit_seconds, Some(0));
}

#[test]
fn settings_are_turned_down_for_each_fault_and_change_nothing() {
    let mut game = lobby_of(2);
    assert_eq!(
        game.update_settings(&2, &settings_with(3, &[])),
        Err(UpdateGameSettingsError::ClientIsNotTheHost)
    );
    assert_eq!(
        game.update_settings(&HOST, &settings_with(26, &[])),
        Err(UpdateGameSettingsError::InvalidNumRounds)
    );
    assert_eq!(
        game.update_settings(&HOST, &settings_with(0, &[])),
        Err(UpdateGameSettingsError::InvalidNumRounds)
    );
    assert_eq!(
        game.update_settings(&HOST, &settings_with(3, &[("dragons", true)])),
        Err(UpdateGameSettingsError::DeckDoesNotExist)
    );
    assert_eq!(
        game.update_settings(&HOST, &settings_with(3, &[("animals", false), ("Space", false)])),
        Err(UpdateGameSettingsError::DeckDoesNotExist)
    );
    let none: Vec<(&str, bool)> = vec![
        ("animals", false),
        ("clothing", false),
        ("geo-political", false),
        ("hobbies", false),
        ("musical-instruments", false),
        ("occupations", false),
        ("space", false),
        ("transportation", false),
        ("fruits-and-vegetables", false),
        ("misc", false),
    ];
    assert_eq!(
        game.update_settings(&HOST, &settings_with(3, &none)),
        Err(UpdateGameSettingsError::SettingRemovesAllDecks)
    );
    let mut both = settings_with(30, &none);
    both.drawing_phase_time_limit_seconds = Some(1000);
    assert_eq!(game.update_settings(&HOST, &both), Err(UpdateGameSettingsError::InvalidNumRounds));
    assert_eq!(game.settings().rounds, 5);
    assert!(game.settings().drawing_decks_included.iter().all(|d| d.1));
    assert_eq!(game.take_outbox().len(), 0);
    assert_eq!(game.update_settings(&HOST, &settings_with(25, &[])), Ok(()));
    assert_eq!(game.update_settings(&HOST, &settings_with(1, &[])), Ok(()));
    assert_eq!(game.settings().rounds, 1);
}

#[test]
fn switching_off_every_deck_that_is_in_is_turned_down() {
    let mut game = lobby_of(2);
    let only_animals: Vec<(&str, bool)> = vec![
        ("clothing", false),
        ("geo-political", false),
        ("hobbies", false),
        ("musical-instruments", false),
        ("occupations", false),
        ("space", false),
        ("transportation", false),
        ("fruits-and-vegetables", false),
        ("misc", false),
    ];
    assert_eq!(game.update_settings(&HOST, &settings_with(5, &only_animals)), Ok(()));
    assert_eq!(game.settings().included_deck_names(), vec!["animals"]);
    assert_eq!(
        game.update_settings(&HOST, &settings_with(5, &[("animals", false)])),
        Err(UpdateGameSettingsError::SettingRemovesAllDecks)
    );
    assert_eq!(
        game.update_settings(&HOST, &settings_with(5, &[("animals", false), ("space", true)])),
        Err(UpdateGameSettingsError::SettingRemovesAllDecks)
    );
    assert_eq!(game.update_settings(&HOST, &settings_with(5, &[("space", true)])), Ok(()));
    assert_eq!(game.update_settings(&HOST, &settings_with(5, &[("animals", false)])), Ok(()));
    assert_eq!(game.settings().included_deck_names(), vec!["space"]);
}

#[test]
fn settings_are_fixed_once_the_game_has_started() {
    let mut game = started_game(2, 2);
    assert_eq!(
        game.update_settings(&HOST, &settings_with(3, &[])),
        Err(UpdateGameSettingsError::GameAlreadyStarted)
    );
    assert_eq!(
        game.update_settings(&2, &settings_with(3, &[])),
        Err(UpdateGameSettingsError::GameAlreadyStarted)
    );
    assert_eq!(game.settings().rounds, 2);
}

#[test]
fn a_drawing_for_another_round_is_turned_down_and_changes_nothing() {
    let mut game = started_game(3, 3);
    assert_eq!(
        game.submit_drawing(&2, doodle(2, 4), 0),
        Err(SubmitDrawingError::DrawingSubmittedForWrongRound)
    );
    assert_eq!(
        game.submit_drawing(&2, doodle(2, 4), 2),
        Err(SubmitDrawingError::DrawingSubmittedForWrongRound)
    );
    assert!(game.rounds()[0].get_data().iter().all(|e| e.drawing.is_none()));
    assert_eq!(states_in(&game), vec![PlayerState::Drawing; 3]);
    assert_eq!(game.state(), GameState::DrawingPhase);
    assert_eq!(game.take_outbox().len(), 0);
}

#[test]
fn a_drawing_for_the_round_before_is_turned_down_in_the_next_round() {
    let mut game = started_game(2, 3);
    all_draw(&mut game, 2);
    game.submit_vote(&1, HashMap::new()).unwrap();
    game.submit_vote(&2, HashMap::new()).unwrap();
    assert_eq!(game.curr_round(), Some(2));
    game.take_outbox();
    assert_eq!(
        game.submit_drawing(&1, doodle(1, 4), 1),
        Err(SubmitDrawingError::DrawingSubmittedForWrongRound)
    );
    assert!(game.rounds()[1].get_data().iter().all(|e| e.drawing.is_none()));
    assert_eq!(game.rounds()[0].get_data()[0].drawing.as_ref().unwrap().len(), 5);
    assert_eq!(states_in(&game), vec![PlayerState::Drawing; 2]);
    assert_eq!(game.take_outbox().len(), 0);
    assert_eq!(game.submit_drawing(&1, doodle(1, 4), 2), Ok(()));
}

#[test]
fn a_drawing_for_another_round_is_turned_down_whoever_hands_it_in() {
    let mut game = started_game(2, 3);
    assert_eq!(
        game.submit_drawing(&99, doodle(9, 1), 2),
        Err(SubmitDrawingError::DrawingSubmittedForWrongRound)
    );
    game.disconnect_player(&2).unwrap();
    game.take_outbox();
    assert_eq!(
        game.submit_drawing(&2, doodle(2, 1), 0),
        Err(SubmitDrawingError::DrawingSubmittedForWrongRound)
    );
    assert!(game.rounds()[0].get_data().iter().all(|e| e.drawing.is_none()));
    assert_eq!(game.state(), GameState::DrawingPhase);
    assert_eq!(game.take_outbox().len(), 0);
}

#[test]
fn four_votes_are_turned_down_in_a_room_whoever_hands_them_in() {
    let mut game = started_game(2, 3);
    all_draw(&mut game, 2);
    let b = drawing_id_of(&game, 2);
    game.take_outbox();
    assert_eq!(game.submit_vote(&99, HashMap::from([(b, 4)])), Err(SubmitVoteError::MaximumVotesExceeded));
    assert_eq!(game.rounds()[0].get_scores(), vec![(1, 0), (2, 0)]);
    assert_eq!(states_in(&game), vec![PlayerState::Voting; 2]);
    assert_eq!(game.state(), GameState::VotingPhase);
    assert_eq!(game.take_outbox().len(), 0);
    let mut lobby = lobby_of(2);
    assert_eq!(lobby.submit_vote(&99, HashMap::from([(b, 4)])), Err(SubmitVoteError::GameHasNotStarted));
}

#[test]
fn a_player_who_left_can_still_hand_in_for_their_entry() {
    let mut game = started_game(3, 2);
    game.disconnect_player(&3).unwrap();
    game.take_outbox();
    assert_eq!(game.submit_drawing(&3, doodle(3, 2), 1), Ok(()));
    assert_eq!(game.rounds()[0].get_drawing(&3).unwrap().len(), 2);
    assert_eq!(game.players()[2].state, PlayerState::DrawingDone);
    assert!(game.players()[2].is_disconnected);
    assert_eq!(game.state(), GameState::DrawingPhase);
    assert_eq!(recipients(&game.take_outbox()), vec![1, 2]);
    assert_eq!(
        game.submit_drawing(&3, doodle(3, 2), 1),
        Err(SubmitDrawingError::DrawingWasAlreadySubmitted)
    );
}

#[test]
fn a_drawing_before_the_game_is_for_the_wrong_round() {
    let mut game = lobby_of(2);
    assert_eq!(
        game.submit_drawing(&1, doodle(1, 1), 1),
        Err(SubmitDrawingError::DrawingSubmittedForWrongRound)
    );
    assert_eq!(
        game.submit_drawing(&1, doodle(1, 1), 0),
        Err(SubmitDrawingError::DrawingSubmittedForWrongRound)
    );
}

#[test]
fn a_drawing_is_recorded_and_shown() {
    let mut game = started_game(3, 3);
    assert_eq!(game.submit_drawing(&2, doodle(2, 4), 1), Ok(()));
    assert_eq!(game.rounds()[0].get_drawing(&2).unwrap().len(), 4);
    assert_eq!(
        states_in(&game),
        vec![PlayerState::Drawing, PlayerState::DrawingDone, PlayerState::Drawing]
    );
    assert_eq!(game.state(), GameState::DrawingPhase);
    let events = game.take_outbox();
    assert_eq!(kinds(&events), vec!["lobby", "lobby", "lobby"]);
    assert_eq!(recipients(&events), vec![1, 2, 3]);
}

#[test]
fn a_second_drawing_is_turned_down() {
    let mut game = started_game(3, 3);
    assert_eq!(game.submit_drawing(&2, doodle(2, 4), 1), Ok(()));
    game.take_outbox();
    assert_eq!(
        game.submit_drawing(&2, doodle(9, 1), 1),
        Err(SubmitDrawingError::DrawingWasAlreadySubmitted)
    );
    assert_eq!(game.rounds()[0].get_drawing(&2).unwrap().len(), 4);
    assert_eq!(game.take_outbox().len(), 0);
}

#[test]
fn voting_begins_once_everybody_has_drawn() {
    let mut game = started_game(3, 3);
    game.submit_drawing(&1, doodle(1, 2), 1).unwrap();
    game.submit_drawing(&3, doodle(3, 1), 1).unwrap();
    assert_eq!(game.state(), GameState::DrawingPhase);
    game.take_outbox();
    game.submit_drawing(&2, Vec::new(), 1).unwrap();
    assert_eq!(game.state(), GameState::VotingPhase);
    assert_eq!(game.curr_round(), Some(1));
    assert_eq!(states_in(&game), vec![PlayerState::Voting; 3]);
    let events = game.take_outbox();
    assert_eq!(
        kinds(&events),
        vec!["lobby", "lobby", "lobby", "ballot", "ballot", "ballot", "lobby", "lobby", "lobby"]
    );
    assert_eq!(recipients(&events), vec![1, 2, 3, 1, 2, 3, 1, 2, 3]);
    match &events[0].message {
        ServerMessage::LobbyUpdate(update) => {
            assert_eq!(update.state, GameState::DrawingPhase);
            assert_eq!(update.players[1].state, PlayerState::DrawingDone);
        },
        _ => panic!("no lobby update"),
    }
    let data = game.rounds()[0].get_data();
    for event in events[3..6].iter() {
        match &event.message {
            ServerMessage::VotingBallot(ballot) => {
                assert_eq!(ballot.round, 1);
                assert_eq!(ballot.ballot.len(), 3);
                for (i, item) in ballot.ballot.iter().enumerate() {
                    assert_eq!(item.ballot_item.id, data[i].drawing_id);
                    assert_eq!(item.ballot_item.suggestion, data[i].drawing_suggestion);
                    assert_eq!(item.is_voting_enabled, data[i].player_id != event.recipient);
                    assert_eq!(item.ballot_item.imprint.len(), 0);
                }
                assert_eq!(ballot.ballot[0].ballot_item.drawing.len(), 2);
                assert_eq!(ballot.ballot[1].ballot_item.drawing.len(), 0);
                assert_eq!(ballot.ballot[2].ballot_item.drawing[0].brush_size, 300);
            },
            _ => panic!("no ballot"),
        }
    }
    match &events[8].message {
        ServerMessage::LobbyUpdate(update) => {
            assert_eq!(update.state, GameState::VotingPhase);
            assert!(update.players.iter().all(|p| p.state == PlayerState::Voting));
        },
        _ => panic!("no lobby update"),
    }
}

#[test]
fn a_vote_before_the_game_has_started_is_turned_down() {
    let mut game = lobby_of(2);
    assert_eq!(game.submit_vote(&1, HashMap::new()), Err(SubmitVoteError::GameHasNotStarted));
    assert_eq!(game.submit_vote(&1, HashMap::from([(5, 9)])), Err(SubmitVoteError::GameHasNotStarted));
    assert_eq!(game.take_outbox().len(), 0);
}

#[test]
fn four_votes_are_turned_down_and_no_tally_changes() {
    let mut game = started_game(3, 2);
    all_draw(&mut game, 3);
    let (a, b, c) = (drawing_id_of(&game, 1), drawing_id_of(&game, 2), drawing_id_of(&game, 3));
    game.submit_vote(&2, HashMap::from([(a, 1), (c, 1)])).unwrap();
    game.take_outbox();
    assert_eq!(
        game.submit_vote(&1, HashMap::from([(b, 2), (c, 2)])),
        Err(SubmitVoteError::MaximumVotesExceeded)
    );
    assert_eq!(
        game.submit_vote(&1, HashMap::from([(a, 1), (b, 1), (c, 2)])),
        Err(SubmitVoteError::MaximumVotesExceeded)
    );
    let data = game.rounds()[0].get_data();
    assert_eq!(data.iter().map(|e| e.votes).collect::<Vec<i32>>(), vec![1, 0, 1]);
    assert_eq!(data.iter().map(|e| e.has_voted).collect::<Vec<bool>>(), vec![false, true, false]);
    assert_eq!(
        states_in(&game),
        vec![PlayerState::Voting, PlayerState::VotingDone, PlayerState::Voting]
    );
    assert_eq!(game.take_outbox().len(), 0);
}

#[test]
fn a_vote_for_the_own_drawing_is_turned_down_in_a_game() {
    let mut game = started_game(3, 2);
    all_draw(&mut game, 3);
    let (a, b) = (drawing_id_of(&game, 1), drawing_id_of(&game, 2));
    game.take_outbox();
    assert_eq!(game.submit_vote(&1, HashMap::from([(a, 1)])), Err(SubmitVoteError::ClientVotedForSelf));
    assert_eq!(game.submit_vote(&2, HashMap::from([(a, 1), (b, 1)])), Err(SubmitVoteError::ClientVotedForSelf));
    assert!(game.rounds()[0].get_data().iter().all(|e| e.votes == 0 && !e.has_voted));
    assert_eq!(game.take_outbox().len(), 0);
}

#[test]
fn a_vote_for_an_unknown_drawing_is_turned_down_in_a_game() {
    let mut game = started_game(2, 2);
    all_draw(&mut game, 2);
    let b = drawing_id_of(&game, 2);
    let unknown = b.wrapping_add(1);
    let unknown = if unknown == drawing_id_of(&game, 1) { unknown.wrapping_add(1) } else { unknown };
    assert_eq!(
        game.submit_vote(&1, HashMap::from([(b, 1), (unknown, 1)])),
        Err(SubmitVoteError::InvalidDrawingId)
    );
    assert_eq!(scores_in(&game), vec![0, 0]);
}

#[test]
fn a_vote_is_counted_and_shown() {
    let mut game = started_game(3, 2);
    all_draw(&mut game, 3);
    let (b, c) = (drawing_id_of(&game, 2), drawing_id_of(&game, 3));
    game.take_outbox();
    assert_eq!(game.submit_vote(&1, HashMap::from([(b, 2), (c, 1)])), Ok(()));
    assert_eq!(game.state(), GameState::VotingPhase);
    assert_eq!(game.rounds()[0].get_scores(), vec![(1, 0), (2, 2), (3, 1)]);
    assert_eq!(
        states_in(&game),
        vec![PlayerState::VotingDone, PlayerState::Voting, PlayerState::Voting]
    );
    assert_eq!(scores_in(&game), vec![0, 0, 0]);
    assert_eq!(kinds(&game.take_outbox()), vec!["lobby", "lobby", "lobby"]);
}

#[test]
fn the_next_round_begins_once_everybody_has_voted() {
    let mut game = started_game(3, 2);
    all_draw(&mut game, 3);
    let (a, b, c) = (drawing_id_of(&game, 1), drawing_id_of(&game, 2), drawing_id_of(&game, 3));
    game.submit_vote(&1, HashMap::from([(b, 2), (c, 1)])).unwrap();
    game.submit_vote(&2, HashMap::from([(a, 1), (c, 2)])).unwrap();
    game.take_outbox();
    game.submit_vote(&3, HashMap::from([(a, 3)])).unwrap();
    assert_eq!(game.state(), GameState::DrawingPhase);
    assert_eq!(game.curr_round(), Some(2));
    assert_eq!(game.rounds().len(), 2);
    assert_eq!(scores_in(&game), vec![4, 2, 3]);
    assert_eq!(states_in(&game), vec![PlayerState::Drawing; 3]);
    assert_eq!(game.prompts_left(), Some(1));
    assert_eq!(game.rounds()[0].get_scores(), vec![(1, 4), (2, 2), (3, 3)]);
    let events = game.take_outbox();
    let next = game.rounds()[1].get_data();
    assert_eq!(next.len(), 3);
    for entry in next.iter() {
        let imprint = entry.imprint.as_ref().unwrap();
        assert_eq!(imprint.len(), 3);
        let from = imprint[0].brush_size / 100;
        assert!(from >= 1 && from <= 3);
        assert!(imprint.iter().all(|s| s.brush_size / 100 == from));
        assert!(entry.drawing.is_none() && entry.votes == 0 && !entry.has_voted);
    }
    let mut sources: Vec<usize> =
        next.iter().map(|e| e.imprint.as_ref().unwrap()[0].brush_size / 100).collect();
    sources.sort();
    assert_eq!(sources, vec![1, 2, 3]);
    assert_eq!(
        kinds(&events),
        vec![
            "lobby", "lobby", "lobby", "lobby", "lobby", "lobby", "parameters", "parameters",
            "parameters"
        ]
    );
    match &events[3].message {
        ServerMessage::LobbyUpdate(update) => {
            assert_eq!(update.state, GameState::DrawingPhase);
            assert_eq!(update.round, Some(2));
            assert_eq!(update.players.iter().map(|p| p.score).collect::<Vec<i64>>(), vec![4, 2, 3]);
        },
        _ => panic!("no lobby update"),
    }
    match &events[7].message {
        ServerMessage::DrawingParameters(parameters) => {
            assert_eq!(parameters.round, 2);
            assert_eq!(parameters.drawing_suggestion, next[1].drawing_suggestion);
            assert_eq!(parameters.imprint.as_ref().unwrap().len(), 3);
            assert_eq!(
                parameters.imprint.as_ref().unwrap()[0].brush_size,
                next[1].imprint.as_ref().unwrap()[0].brush_size
            );
        },
        _ => panic!("no drawing parameters"),
    }
}

fn results_in(events: &[Outbound]) -> Vec<&Results> {
    events
        .iter()
        .filter_map(|e| match &e.message {
            ServerMessage::Results(r) => Some(r),
            _ => None,
        })
        .collect()
}

#[test]
fn the_game_ends_after_the_last_round_with_the_best_drawing() {
    let mut game = started_game(3, 1);
    all_draw(&mut game, 3);
    let (a, b, c) = (drawing_id_of(&game, 1), drawing_id_of(&game, 2), drawing_id_of(&game, 3));
    game.submit_vote(&1, HashMap::from([(b, 1), (c, 2)])).unwrap();
    game.submit_vote(&2, HashMap::from([(a, 1), (c, 2)])).unwrap();
    game.take_outbox();
    game.submit_vote(&3, HashMap::from([(a, 1), (b, 2)])).unwrap();
    assert_eq!(game.state(), GameState::Results);
    assert_eq!(game.curr_round(), Some(1));
    assert_eq!(game.rounds().len(), 1);
    assert_eq!(scores_in(&game), vec![2, 3, 4]);
    assert_eq!(states_in(&game), vec![PlayerState::NotReady; 3]);
    let events = game.take_outbox();
    assert_eq!(
        kinds(&events),
        vec!["lobby", "lobby", "lobby", "lobby", "lobby", "lobby", "results", "results", "results"]
    );
    assert_eq!(recipients(&events), vec![1, 2, 3, 1, 2, 3, 1, 2, 3]);
    match &events[5].message {
        ServerMessage::LobbyUpdate(update) => {
            assert_eq!(update.state, GameState::Results);
            assert_eq!(update.players.iter().map(|p| p.score).collect::<Vec<i64>>(), vec![2, 3, 4]);
        },
        _ => panic!("no lobby update"),
    }
    for results in results_in(&events) {
        assert_eq!(results.num_votes, 4);
        assert_eq!(results.highest_rated_drawing.len(), 5);
        assert_eq!(results.highest_rated_drawing[0].brush_size, 300);
        assert!(results.imprint.is_none());
        assert_eq!(results.drawing_suggestion, game.rounds()[0].get_data()[2].drawing_suggestion);
    }
}

#[test]
fn of_drawings_with_the_same_votes_the_earliest_wins() {
    let mut game = started_game(2, 2);
    all_draw(&mut game, 2);
    let (a, b) = (drawing_id_of(&game, 1), drawing_id_of(&game, 2));
    game.submit_vote(&1, HashMap::from([(b, 2)])).unwrap();
    game.submit_vote(&2, HashMap::from([(a, 2)])).unwrap();
    assert_eq!(game.curr_round(), Some(2));
    all_draw(&mut game, 2);
    let (a, b) = (drawing_id_of(&game, 1), drawing_id_of(&game, 2));
    game.submit_vote(&1, HashMap::from([(b, 2)])).unwrap();
    game.take_outbox();
    game.submit_vote(&2, HashMap::from([(a, 1)])).unwrap();
    assert_eq!(game.state(), GameState::Results);
    assert_eq!(scores_in(&game), vec![3, 4]);
    let events = game.take_outbox();
    let results = results_in(&events);
    assert_eq!(results.len(), 2);
    assert_eq!(results[0].num_votes, 2);
    assert_eq!(results[0].drawing_suggestion, game.rounds()[0].get_data()[0].drawing_suggestion);
    assert_eq!(results[0].highest_rated_drawing[0].brush_size, 100);
}

#[test]
fn votes_outside_the_vote_do_not_end_a_round() {
    let mut game = started_game(2, 2);
    assert_eq!(game.submit_vote(&1, HashMap::new()), Ok(()));
    assert_eq!(game.submit_vote(&2, HashMap::new()), Ok(()));
    assert_eq!(game.state(), GameState::DrawingPhase);
    assert_eq!(game.curr_round(), Some(1));
    assert_eq!(game.rounds().len(), 1);
}

#[test]
fn a_second_ballot_changes_neither_tallies_nor_scores() {
    let mut game = started_game(2, 1);
    all_draw(&mut game, 2);
    let (a, b) = (drawing_id_of(&game, 1), drawing_id_of(&game, 2));
    game.submit_vote(&1, HashMap::from([(b, 2)])).unwrap();
    game.take_outbox();
    assert_eq!(game.submit_vote(&1, HashMap::from([(b, 1)])), Err(SubmitVoteError::MaximumVotesExceeded));
    assert_eq!(game.rounds()[0].get_scores(), vec![(1, 0), (2, 2)]);
    assert_eq!(game.state(), GameState::VotingPhase);
    assert_eq!(game.take_outbox().len(), 0);
    game.submit_vote(&2, HashMap::from([(a, 1)])).unwrap();
    assert_eq!(game.state(), GameState::Results);
    assert_eq!(scores_in(&game), vec![1, 2]);
    game.take_outbox();
    assert_eq!(game.submit_vote(&1, HashMap::from([(b, 1)])), Err(SubmitVoteError::MaximumVotesExceeded));
    assert_eq!(game.submit_vote(&2, HashMap::new()), Err(SubmitVoteError::MaximumVotesExceeded));
    assert_eq!(game.state(), GameState::Results);
    assert_eq!(scores_in(&game), vec![1, 2]);
    assert_eq!(game.take_outbox().len(), 0);
}

#[test]
fn scores_add_up_over_the_rounds() {
    let mut game = started_game(2, 3);
    for round in 1..=3usize {
        assert_eq!(game.curr_round(), Some(round));
        all_draw(&mut game, 2);
        let (a, b) = (drawing_id_of(&game, 1), drawing_id_of(&game, 2));
        game.submit_vote(&1, HashMap::from([(b, 3)])).unwrap();
        game.submit_vote(&2, HashMap::from([(a, round as i32 - 2)])).unwrap();
    }
    assert_eq!(game.state(), GameState::Results);
    assert_eq!(scores_in(&game), vec![-1 + 0 + 1, 9]);
}

#[test]
fn a_player_who_leaves_the_lobby_is_taken_off() {
    let mut game = lobby_of(3);
    game.disconnect_player(&2).unwrap();
    assert_eq!(names_in(&game), vec!["u1", "u3"]);
    assert_eq!(game.host_id(), 1);
    assert!(!game.all_players_disconnected());
    let events = game.take_outbox();
    assert_eq!(kinds(&events), vec!["lobby", "lobby"]);
    assert_eq!(recipients(&events), vec![1, 3]);
    game.disconnect_player(&1).unwrap();
    assert_eq!(names_in(&game), vec!["u3"]);
    assert_eq!(game.host_id(), 3);
    game.disconnect_player(&3).unwrap();
    assert_eq!(game.players().len(), 0);
    assert!(game.all_players_disconnected());
    let events = game.take_outbox();
    assert_eq!(kinds(&events), vec!["lobby"]);
    assert_eq!(recipients(&events), vec![3]);
}

#[test]
fn a_stranger_who_leaves_changes_nothing_but_is_announced() {
    let mut game = lobby_of(2);
    game.disconnect_player(&42).unwrap();
    assert_eq!(names_in(&game), vec!["u1", "u2"]);
    assert_eq!(kinds(&game.take_outbox()), vec!["lobby", "lobby"]);
}

#[test]
fn a_player_who_leaves_a_game_is_marked_and_the_host_elected() {
    let mut game = started_game(3, 2);
    game.disconnect_player(&1).unwrap();
    assert_eq!(game.players().len(), 3);
    assert_eq!(
        game.players().iter().map(|p| p.is_disconnected).collect::<Vec<bool>>(),
        vec![true, false, false]
    );
    assert_eq!(game.host_id(), 2);
    assert!(!game.all_players_disconnected());
    assert_eq!(game.state(), GameState::DrawingPhase);
    let events = game.take_outbox();
    assert_eq!(recipients(&events), vec![2, 3]);
    match &events[0].message {
        ServerMessage::LobbyUpdate(update) => {
            assert_eq!(
                update.players.iter().map(|p| p.is_disconnected).collect::<Vec<bool>>(),
                vec![true, false, false]
            );
            assert_eq!(update.players.iter().map(|p| p.is_host).collect::<Vec<bool>>(), vec![
                false, true, false
            ]);
        },
        _ => panic!("no lobby update"),
    }
    game.disconnect_player(&2).unwrap();
    assert_eq!(game.host_id(), 3);
    assert!(!game.all_players_disconnected());
    game.disconnect_player(&3).unwrap();
    assert!(game.all_players_disconnected());
    assert_eq!(game.players().len(), 3);
    assert_eq!(game.state(), GameState::DrawingPhase);
}

#[test]
fn the_host_stays_when_another_player_leaves() {
    let mut game = started_game(3, 2);
    game.disconnect_player(&3).unwrap();
    assert_eq!(game.host_id(), 1);
    game.disconnect_player(&2).unwrap();
    assert_eq!(game.host_id(), 1);
    assert!(!game.all_players_disconnected());
}

#[test]
fn a_player_who_leaves_can_end_the_drawing() {
    let mut game = started_game(3, 2);
    game.submit_drawing(&1, doodle(1, 1), 1).unwrap();
    game.submit_drawing(&2, doodle(2, 1), 1).unwrap();
    game.take_outbox();
    game.disconnect_player(&3).unwrap();
    assert_eq!(game.state(), GameState::VotingPhase);
    let events = game.take_outbox();
    assert_eq!(kinds(&events), vec!["ballot", "ballot", "lobby", "lobby", "lobby", "lobby"]);
    assert_eq!(recipients(&events), vec![1, 2, 1, 2, 1, 2]);
    match &events[0].message {
        ServerMessage::VotingBallot(ballot) => {
            assert_eq!(ballot.ballot.len(), 3);
            assert_eq!(ballot.ballot[2].ballot_item.drawing.len(), 0);
        },
        _ => panic!("no ballot"),
    }
}

#[test]
fn a_player_who_leaves_can_end_the_vote() {
    let mut game = started_game(3, 2);
    all_draw(&mut game, 3);
    let (a, b) = (drawing_id_of(&game, 1), drawing_id_of(&game, 2));
    game.submit_vote(&1, HashMap::from([(b, 1)])).unwrap();
    game.submit_vote(&2, HashMap::from([(a, 2)])).unwrap();
    assert_eq!(game.state(), GameState::VotingPhase);
    game.disconnect_player(&3).unwrap();
    assert_eq!(game.state(), GameState::DrawingPhase);
    assert_eq!(game.curr_round(), Some(2));
    assert_eq!(scores_in(&game), vec![2, 1, 0]);
    let next = game.rounds()[1].get_data();
    assert_eq!(next.iter().map(|e| e.player_id).collect::<Vec<u128>>(), vec![1, 2]);
    assert_eq!(game.prompts_left(), Some(2));
    let mut sources: Vec<usize> =
        next.iter().map(|e| e.imprint.as_ref().unwrap()[0].brush_size / 100).collect();
    sources.sort();
    assert_eq!(sources, vec![1, 2]);
}

#[test]
fn the_last_player_who_leaves_does_not_end_the_phase() {
    let mut game = started_game(2, 2);
    game.disconnect_player(&1).unwrap();
    game.disconnect_player(&2).unwrap();
    assert!(game.all_players_disconnected());
    assert_eq!(game.state(), GameState::DrawingPhase);
    assert_eq!(game.curr_round(), Some(1));
}

#[test]
fn a_player_who_leaves_after_the_game_is_taken_off() {
    let mut game = started_game(2, 1);
    all_draw(&mut game, 2);
    game.submit_vote(&1, HashMap::new()).unwrap();
    game.submit_vote(&2, HashMap::new()).unwrap();
    assert_eq!(game.state(), GameState::Results);
    game.disconnect_player(&1).unwrap();
    assert_eq!(names_in(&game), vec!["u2"]);
    assert_eq!(game.host_id(), 2);
    assert_eq!(game.state(), GameState::Results);
}

#[test]
fn playing_again_is_for_the_host_after_the_game() {
    let mut game = lobby_of(2);
    assert_eq!(game.play_again(&2), Err(PlayAgainError::ClientIsNotTheHost));
    assert_eq!(game.play_again(&HOST), Err(PlayAgainError::GameIsNotOver));
    game.start_game(&HOST, pile(20)).unwrap();
    assert_eq!(game.play_again(&HOST), Err(PlayAgainError::GameIsNotOver));
    all_draw(&mut game, 2);
    assert_eq!(game.state(), GameState::VotingPhase);
    assert_eq!(game.play_again(&HOST), Err(PlayAgainError::GameIsNotOver));
    assert_eq!(game.play_again(&2), Err(PlayAgainError::ClientIsNotTheHost));
    assert_eq!(game.state(), GameState::VotingPhase);
}

#[test]
fn playing_again_resets_scores_and_rounds_and_keeps_who_is_there() {
    let mut game = started_game(4, 1);
    all_draw(&mut game, 4);
    let ids: Vec<u128> = (1..=4).map(|p| drawing_id_of(&game, p)).collect();
    game.disconnect_player(&3).unwrap();
    game.submit_vote(&1, HashMap::from([(ids[1], 3)])).unwrap();
    game.submit_vote(&2, HashMap::from([(ids[3], 2)])).unwrap();
    game.submit_vote(&4, HashMap::from([(ids[0], 1)])).unwrap();
    assert_eq!(game.state(), GameState::Results);
    assert_eq!(scores_in(&game), vec![1, 3, 0, 2]);
    game.take_outbox();
    assert_eq!(game.play_again(&2), Err(PlayAgainError::ClientIsNotTheHost));
    assert_eq!(game.play_again(&HOST), Ok(()));
    assert_eq!(game.room_code(), "ROOM");
    assert_eq!(game.state(), GameState::WaitingForPlayers);
    assert_eq!(game.curr_round(), None);
    assert_eq!(game.rounds().len(), 0);
    assert_eq!(names_in(&game), vec!["u1", "u2", "u4"]);
    assert_eq!(scores_in(&game), vec![0, 0, 0]);
    assert_eq!(game.players().iter().map(|p| p.host_rank).collect::<Vec<usize>>(), vec![0, 1, 3]);
    assert!(game.players().iter().all(|p| !p.is_disconnected));
    assert_eq!(game.host_id(), HOST);
    assert_eq!(game.settings().rounds, 1);
    let events = game.take_outbox();
    assert_eq!(kinds(&events), vec!["lobby", "lobby", "lobby"]);
    assert_eq!(recipients(&events), vec![1, 2, 4]);
    assert_eq!(game.add_player(9, "u9"), Ok(()));
    assert_eq!(game.start_game(&HOST, pile(4)), Ok(()));
    assert_eq!(game.curr_round(), Some(1));
    assert_eq!(game.prompts_left(), Some(1));
}

#[test]
fn ready_and_not_ready() {
    let mut game = lobby_of(2);
    game.set_player_ready(&2, true);
    assert_eq!(states_in(&game), vec![PlayerState::NotReady, PlayerState::Ready]);
    assert_eq!(kinds(&game.take_outbox()), vec!["lobby", "lobby"]);
    game.set_player_ready(&1, true);
    game.set_player_ready(&2, false);
    assert_eq!(states_in(&game), vec![PlayerState::Ready, PlayerState::NotReady]);
}

#[test]
fn broadcasts_reach_every_connected_player() {
    let mut game = started_game(3, 2);
    game.disconnect_player(&2).unwrap();
    game.take_outbox();
    game.broadcast_lobby_update();
    game.broadcast_settings_update();
    game.send_drawing_parameters();
    game.broadcast_results(Results {
        highest_rated_drawing: doodle(1, 1),
        imprint: None,
        num_votes: 7,
        drawing_suggestion: "cat".to_string(),
    });
    let events = game.take_outbox();
    assert_eq!(
        kinds(&events),
        vec![
            "lobby", "lobby", "settings", "settings", "parameters", "parameters", "results", "results"
        ]
    );
    assert_eq!(recipients(&events), vec![1, 3, 1, 3, 1, 3, 1, 3]);
    match &events[5].message {
        ServerMessage::DrawingParameters(parameters) => {
            assert_eq!(parameters.drawing_suggestion, game.rounds()[0].get_data()[2].drawing_suggestion);
        },
        _ => panic!("no drawing parameters"),
    }
    match &events[7].message {
        ServerMessage::Results(results) => {
            assert_eq!((results.num_votes, results.drawing_suggestion.as_str()), (7, "cat"));
        },
        _ => panic!("no results"),
    }
}
