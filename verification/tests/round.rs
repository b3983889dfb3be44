use drawing_game::deck::Deck;
use drawing_game::drawing::{Drawing, Stroke};
use drawing_game::errors::{SubmitDrawingError, SubmitVoteError};
use drawing_game::player_view::Player;
use drawing_game::round::{
    ballot_amount_for, ballot_entries, ballot_sum, ballot_votes_for, count_connected, find_imprint,
    is_connected_player, Round, MAX_VOTES_PER_ROUND,
};
use std::collections::HashMap;

fn line(tag: usize) -> Stroke {
    Stroke { coordinates: vec![(0, 0), (1.0f32.to_bits(), 2.0f32.to_bits())], brush_size: tag, color: "black".to_string() }
}

fn sketch(tag: usize, strokes: usize) -> Drawing {
    (0..strokes).map(|k| line(tag * 100 + k)).collect()
}

fn roster(ids: &[u128]) -> Vec<Player> {
    ids.iter().enumerate().map(|(rank, id)| Player::new(*id, format!("u{}", id), rank)).collect()
}

fn prompts(names: &[&str]) -> Deck<String> {
    Deck::new(names.iter().map(|s| s.to_string()).collect())
}

/// A round of the players 1, 2 and 3 whose drawings are named 10, 20 and 30.
fn round_of_three() -> Round {
    let players = roster(&[1, 2, 3]);
    let mut deck = prompts(&["x", "c", "b", "a"]);
    Round::assemble(&players, &mut deck, &Vec::new(), &vec![10, 20, 30]).unwrap()
}

fn tallies(round: &Round) -> Vec<i32> {
    round.get_data().iter().map(|e| e.votes).collect()
}

#[test]
fn vote_budget_is_three() {
    assert_eq!(MAX_VOTES_PER_ROUND, 3);
}

#[test]
fn assemble_gives_each_connected_player_the_next_card_from_the_top() {
    let players = roster(&[1, 2, 3]);
    let mut deck = prompts(&["x", "c", "b", "a"]);
    let handed: Vec<(u128, Option<Drawing>)> =
        vec![(3, Some(sketch(7, 2))), (1, None), (2, Some(sketch(9, 1)))];
    let round = Round::assemble(&players, &mut deck, &handed, &vec![10, 20, 30]).unwrap();
    assert_eq!(deck.len(), 1);
    assert_eq!(deck.draw_card(), Some("x".to_string()));
    let data = round.get_data();
    assert_eq!(data.len(), 3);
    assert_eq!(data[0].player_id, 1);
    assert_eq!(data[0].drawing_id, 10);
    assert_eq!(data[0].drawing_suggestion, "a");
    assert!(data[0].imprint.is_none());
    assert_eq!(data[1].player_id, 2);
    assert_eq!(data[1].drawing_id, 20);
    assert_eq!(data[1].drawing_suggestion, "b");
    assert_eq!(data[1].imprint.as_ref().unwrap().len(), 1);
    assert_eq!(data[1].imprint.as_ref().unwrap()[0].brush_size, 900);
    assert_eq!(data[2].player_id, 3);
    assert_eq!(data[2].drawing_id, 30);
    assert_eq!(data[2].drawing_suggestion, "c");
    assert_eq!(data[2].imprint.as_ref().unwrap().len(), 2);
    for entry in data.iter() {
        assert!(entry.drawing.is_none());
        assert!(!entry.has_voted);
        assert_eq!(entry.votes, 0);
    }
}

#[test]
fn assemble_leaves_out_players_who_left() {
    let mut players = roster(&[1, 2, 3]);
    players[1].is_disconnected = true;
    let mut deck = prompts(&["c", "b", "a"]);
    let round = Round::assemble(&players, &mut deck, &Vec::new(), &vec![10, 20, 30]).unwrap();
    let data = round.get_data();
    assert_eq!(data.len(), 2);
    assert_eq!((data[0].player_id, data[0].drawing_id), (1, 10));
    assert_eq!(data[0].drawing_suggestion, "a");
    assert_eq!((data[1].player_id, data[1].drawing_id), (3, 30));
    assert_eq!(data[1].drawing_suggestion, "b");
    assert_eq!(deck.len(), 1);
}

#[test]
fn assemble_fails_on_a_deck_too_small_and_leaves_it() {
    let players = roster(&[1, 2, 3]);
    let mut deck = prompts(&["b", "a"]);
    assert!(Round::assemble(&players, &mut deck, &Vec::new(), &vec![10, 20, 30]).is_none());
    assert_eq!(deck.len(), 2);
    assert_eq!(deck.draw_card(), Some("a".to_string()));
}

#[test]
fn assemble_with_a_deck_just_large_enough_empties_it() {
    let players = roster(&[1, 2]);
    let mut deck = prompts(&["b", "a"]);
    let round = Round::assemble(&players, &mut deck, &Vec::new(), &vec![10, 20]).unwrap();
    assert_eq!(round.get_data().len(), 2);
    assert_eq!(deck.len(), 0);
}

#[test]
fn new_round_draws_prompts_and_hands_the_imprints_round() {
    let players = roster(&[1, 2, 3]);
    let mut deck = prompts(&["x", "c", "b", "a"]);
    let imprints: Vec<(u128, Option<Drawing>)> =
        vec![(1, Some(sketch(1, 1))), (2, Some(sketch(2, 1))), (3, None)];
    let round = Round::new(&players, &mut deck, &imprints).unwrap();
    assert_eq!(deck.len(), 1);
    let data = round.get_data();
    assert_eq!(data.len(), 3);
    let who: Vec<u128> = data.iter().map(|e| e.player_id).collect();
    assert_eq!(who, vec![1, 2, 3]);
    let what: Vec<&str> = data.iter().map(|e| e.drawing_suggestion.as_str()).collect();
    assert_eq!(what, vec!["a", "b", "c"]);
    let mut tags: Vec<Option<usize>> =
        data.iter().map(|e| e.imprint.as_ref().map(|d| d[0].brush_size)).collect();
    tags.sort();
    assert_eq!(tags, vec![None, Some(100), Some(200)]);
    assert_ne!(data[0].drawing_id, data[1].drawing_id);
    assert_ne!(data[1].drawing_id, data[2].drawing_id);
    assert_ne!(data[0].drawing_id, data[2].drawing_id);
}

#[test]
fn new_round_fails_where_the_deck_underflows() {
    let players = roster(&[1, 2, 3]);
    let mut deck = prompts(&["b", "a"]);
    assert!(Round::new(&players, &mut deck, &Vec::new()).is_none());
    assert_eq!(deck.len(), 2);
}

#[test]
fn new_round_without_imprints_hands_out_none() {
    let players = roster(&[1, 2]);
    let mut deck = prompts(&["b", "a"]);
    let round = Round::new(&players, &mut deck, &Vec::new()).unwrap();
    assert!(round.get_data().iter().all(|e| e.imprint.is_none()));
}

#[test]
fn round_getters_find_the_entry_of_the_player() {
    let mut round = round_of_three();
    assert_eq!(round.position(&2), Some(1));
    assert_eq!(round.position(&9), None);
    assert_eq!(round.get_drawing_suggestion(&1), Some(&"a".to_string()));
    assert_eq!(round.get_drawing_suggestion(&3), Some(&"c".to_string()));
    assert_eq!(round.get_drawing_suggestion(&9), None);
    assert!(round.get_imprint(&1).is_none());
    assert!(round.get_drawing(&1).is_none());
    assert!(round.get_drawing(&9).is_none());
    assert_eq!(round.set_drawing(&1, sketch(4, 3)), Ok(()));
    assert_eq!(round.get_drawing(&1).unwrap().len(), 3);
    assert!(round.knows_drawing(20));
    assert!(!round.knows_drawing(2));
}

#[test]
fn set_drawing_records_the_drawing_of_that_player_only() {
    let mut round = round_of_three();
    assert_eq!(round.set_drawing(&2, sketch(5, 2)), Ok(()));
    let data = round.get_data();
    assert!(data[0].drawing.is_none());
    assert_eq!(data[1].drawing.as_ref().unwrap().len(), 2);
    assert_eq!(data[1].drawing.as_ref().unwrap()[1].brush_size, 501);
    assert!(data[2].drawing.is_none());
}

#[test]
fn set_drawing_twice_is_turned_down_and_keeps_the_first() {
    let mut round = round_of_three();
    assert_eq!(round.set_drawing(&2, sketch(5, 2)), Ok(()));
    assert_eq!(
        round.set_drawing(&2, sketch(6, 4)),
        Err(SubmitDrawingError::DrawingWasAlreadySubmitted)
    );
    let drawing = round.get_drawing(&2).unwrap();
    assert_eq!(drawing.len(), 2);
    assert_eq!(drawing[0].brush_size, 500);
}

#[test]
fn set_drawing_takes_an_empty_drawing() {
    let mut round = round_of_three();
    assert_eq!(round.set_drawing(&3, Vec::new()), Ok(()));
    assert_eq!(round.get_drawing(&3).unwrap().len(), 0);
    assert_eq!(round.set_drawing(&3, sketch(1, 1)), Err(SubmitDrawingError::DrawingWasAlreadySubmitted));
}

#[test]
fn submit_vote_adds_the_votes_and_marks_the_voter() {
    let mut round = round_of_three();
    assert_eq!(round.submit_vote(&1, HashMap::from([(20, 2), (30, 1)])), Ok(()));
    assert_eq!(tallies(&round), vec![0, 2, 1]);
    let voted: Vec<bool> = round.get_data().iter().map(|e| e.has_voted).collect();
    assert_eq!(voted, vec![true, false, false]);
    assert_eq!(round.submit_vote(&2, HashMap::from([(10, 3), (20, 0), (30, 0)])), Ok(()));
    assert_eq!(tallies(&round), vec![3, 2, 1]);
    assert_eq!(round.submit_vote(&3, HashMap::from([(20, 1)])), Ok(()));
    assert_eq!(tallies(&round), vec![3, 3, 1]);
    assert!(round.get_data().iter().all(|e| e.has_voted));
}

#[test]
fn submit_vote_with_four_votes_is_turned_down_and_changes_nothing() {
    let mut round = round_of_three();
    assert_eq!(round.submit_vote(&2, HashMap::from([(10, 1)])), Ok(()));
    assert_eq!(
        round.submit_vote(&1, HashMap::from([(20, 2), (30, 2)])),
        Err(SubmitVoteError::MaximumVotesExceeded)
    );
    assert_eq!(round.submit_vote(&1, HashMap::from([(20, 4)])), Err(SubmitVoteError::MaximumVotesExceeded));
    assert_eq!(tallies(&round), vec![1, 0, 0]);
    let voted: Vec<bool> = round.get_data().iter().map(|e| e.has_voted).collect();
    assert_eq!(voted, vec![false, true, false]);
}

#[test]
fn a_second_ballot_of_the_same_player_is_turned_down() {
    let mut round = round_of_three();
    assert_eq!(round.submit_vote(&1, HashMap::from([(20, 1)])), Ok(()));
    assert_eq!(round.submit_vote(&1, HashMap::from([(30, 1)])), Err(SubmitVoteError::MaximumVotesExceeded));
    assert_eq!(round.submit_vote(&1, HashMap::new()), Err(SubmitVoteError::MaximumVotesExceeded));
    assert_eq!(round.submit_vote(&1, HashMap::from([(10, 1)])), Err(SubmitVoteError::ClientVotedForSelf));
    assert_eq!(round.submit_vote(&1, HashMap::from([(99, 1)])), Err(SubmitVoteError::InvalidDrawingId));
    assert_eq!(tallies(&round), vec![0, 1, 0]);
    assert_eq!(round.submit_vote(&2, HashMap::from([(30, 1)])), Ok(()));
    assert_eq!(tallies(&round), vec![0, 1, 1]);
}

#[test]
fn four_votes_are_turned_down_whoever_hands_them_in() {
    let mut round = round_of_three();
    assert_eq!(round.submit_vote(&99, HashMap::from([(20, 4)])), Err(SubmitVoteError::MaximumVotesExceeded));
    assert_eq!(
        round.submit_vote(&99, HashMap::from([(10, 1), (20, 1), (30, 1), (77, 1)])),
        Err(SubmitVoteError::MaximumVotesExceeded)
    );
    assert_eq!(tallies(&round), vec![0, 0, 0]);
    assert!(round.get_data().iter().all(|e| !e.has_voted && e.drawing.is_none()));
    let ids: Vec<u128> = round.get_data().iter().map(|e| e.drawing_id).collect();
    assert_eq!(ids, vec![10, 20, 30]);
}

#[test]
fn a_player_has_one_entry_in_a_round() {
    let round = round_of_three();
    let data = round.get_data();
    for i in 0..data.len() {
        for j in 0..i {
            assert_ne!(data[i].player_id, data[j].player_id);
        }
    }
}

#[test]
fn ranks_are_counted_anew_in_order() {
    let mut players = roster(&[7, 8, 9]);
    players[0].host_rank = 40;
    players[1].host_rank = 41;
    players[2].host_rank = usize::MAX;
    players[1].score = 5;
    drawing_game::roster::renumber_ranks(&mut players);
    let ranks: Vec<usize> = players.iter().map(|p| p.host_rank).collect();
    assert_eq!(ranks, vec![0, 1, 2]);
    let ids: Vec<u128> = players.iter().map(|p| p.id).collect();
    assert_eq!(ids, vec![7, 8, 9]);
    assert_eq!(players[1].score, 5);
    assert_eq!(players[1].name, "u8");
}

#[test]
fn submit_vote_with_exactly_three_votes_is_counted() {
    let mut round = round_of_three();
    assert_eq!(round.submit_vote(&1, HashMap::from([(20, 3)])), Ok(()));
    assert_eq!(tallies(&round), vec![0, 3, 0]);
}

#[test]
fn submit_vote_for_the_own_drawing_is_turned_down() {
    let mut round = round_of_three();
    assert_eq!(round.submit_vote(&1, HashMap::from([(10, 1)])), Err(SubmitVoteError::ClientVotedForSelf));
    assert_eq!(
        round.submit_vote(&2, HashMap::from([(10, 1), (20, 1), (30, 1)])),
        Err(SubmitVoteError::ClientVotedForSelf)
    );
    assert_eq!(tallies(&round), vec![0, 0, 0]);
    assert!(round.get_data().iter().all(|e| !e.has_voted));
}

#[test]
fn submit_vote_of_nothing_for_the_own_drawing_is_counted() {
    let mut round = round_of_three();
    assert_eq!(round.submit_vote(&1, HashMap::from([(10, 0), (20, 1), (30, 2)])), Ok(()));
    assert_eq!(tallies(&round), vec![0, 1, 2]);
}

#[test]
fn submit_vote_checks_the_sum_before_the_own_drawing() {
    let mut round = round_of_three();
    assert_eq!(
        round.submit_vote(&1, HashMap::from([(10, 1), (20, 3)])),
        Err(SubmitVoteError::MaximumVotesExceeded)
    );
    assert_eq!(tallies(&round), vec![0, 0, 0]);
}

#[test]
fn submit_vote_for_a_drawing_of_no_round_is_turned_down() {
    let mut round = round_of_three();
    assert_eq!(
        round.submit_vote(&1, HashMap::from([(20, 1), (99, 1)])),
        Err(SubmitVoteError::InvalidDrawingId)
    );
    assert_eq!(round.submit_vote(&1, HashMap::from([(99, 0)])), Err(SubmitVoteError::InvalidDrawingId));
    assert_eq!(tallies(&round), vec![0, 0, 0]);
    assert!(round.get_data().iter().all(|e| !e.has_voted));
}

#[test]
fn submit_vote_checks_the_own_drawing_before_unknown_drawings() {
    let mut round = round_of_three();
    assert_eq!(
        round.submit_vote(&1, HashMap::from([(99, 1), (10, 1)])),
        Err(SubmitVoteError::ClientVotedForSelf)
    );
}

#[test]
fn submit_vote_of_an_empty_ballot_marks_the_voter() {
    let mut round = round_of_three();
    assert_eq!(round.submit_vote(&3, HashMap::new()), Ok(()));
    assert_eq!(tallies(&round), vec![0, 0, 0]);
    assert!(round.get_data()[2].has_voted);
}

#[test]
fn a_ballot_names_each_drawing_once() {
    let mut votes: HashMap<u128, i32> = HashMap::new();
    votes.insert(20, 1);
    votes.insert(20, 2);
    votes.insert(30, 1);
    assert_eq!(ballot_entries(&votes).len(), 2);
    assert_eq!(ballot_sum(&votes), 3);
    let mut round = round_of_three();
    assert_eq!(round.submit_vote(&1, votes), Ok(()));
    assert_eq!(tallies(&round), vec![0, 2, 1]);
}

#[test]
fn ballot_entries_hold_every_drawing_with_its_votes() {
    let votes: HashMap<u128, i32> = HashMap::from([(7, 1), (8, -2), (9, 0), (10, 4)]);
    let mut list = ballot_entries(&votes);
    list.sort();
    assert_eq!(list, vec![(7, 1), (8, -2), (9, 0), (10, 4)]);
    assert_eq!(ballot_entries(&HashMap::new()), Vec::new());
}

#[test]
fn submit_vote_that_a_tally_cannot_take_is_turned_down() {
    let mut round = round_of_three();
    assert_eq!(round.submit_vote(&1, HashMap::from([(20, i32::MAX), (30, -i32::MAX)])), Ok(()));
    assert_eq!(tallies(&round), vec![0, i32::MAX, -i32::MAX]);
    assert_eq!(
        round.submit_vote(&3, HashMap::from([(20, 1)])),
        Err(SubmitVoteError::MaximumVotesExceeded)
    );
    assert_eq!(
        round.submit_vote(&2, HashMap::from([(30, -2)])),
        Err(SubmitVoteError::MaximumVotesExceeded)
    );
    assert_eq!(tallies(&round), vec![0, i32::MAX, -i32::MAX]);
    assert_eq!(round.submit_vote(&2, HashMap::from([(30, -1)])), Ok(()));
    assert_eq!(tallies(&round), vec![0, i32::MAX, i32::MIN]);
}

#[test]
fn ballot_sums_are_exact_beyond_the_range_of_a_vote() {
    let votes: HashMap<u128, i32> =
        HashMap::from([(1, i32::MAX), (2, i32::MAX), (5, 5), (3, i32::MIN)]);
    assert_eq!(ballot_sum(&votes), 2 * (i32::MAX as i128) + 5 + (i32::MIN as i128));
    assert_eq!(ballot_amount_for(&votes, 1), i32::MAX);
    assert_eq!(ballot_amount_for(&votes, 3), i32::MIN);
    assert_eq!(ballot_amount_for(&votes, 4), 0);
    assert_eq!(ballot_sum(&HashMap::new()), 0);
    assert!(ballot_votes_for(&votes, 1));
    assert!(!ballot_votes_for(&votes, 3));
    assert!(!ballot_votes_for(&votes, 4));
    assert!(!ballot_votes_for(&HashMap::from([(1, 0)]), 1));
}

#[test]
fn done_drawing_asks_for_the_drawings_of_connected_players_only() {
    let mut players = roster(&[1, 2, 3]);
    let mut round = round_of_three();
    assert!(!round.is_done_drawing(&players));
    round.set_drawing(&1, sketch(1, 1)).unwrap();
    round.set_drawing(&3, sketch(3, 1)).unwrap();
    assert!(!round.is_done_drawing(&players));
    players[1].is_disconnected = true;
    assert!(round.is_done_drawing(&players));
    players[1].is_disconnected = false;
    assert!(!round.is_done_drawing(&players));
    round.set_drawing(&2, sketch(2, 1)).unwrap();
    assert!(round.is_done_drawing(&players));
}

#[test]
fn done_voting_asks_for_the_votes_of_connected_players_only() {
    let mut players = roster(&[1, 2, 3]);
    let mut round = round_of_three();
    assert!(!round.is_done_voting(&players));
    round.submit_vote(&1, HashMap::from([(20, 1)])).unwrap();
    round.submit_vote(&2, HashMap::from([(10, 1)])).unwrap();
    assert!(!round.is_done_voting(&players));
    players[2].is_disconnected = true;
    assert!(round.is_done_voting(&players));
    players.remove(2);
    assert!(round.is_done_voting(&players));
}

#[test]
fn a_round_with_nobody_connected_is_done() {
    let mut players = roster(&[1, 2, 3]);
    for p in players.iter_mut() {
        p.is_disconnected = true;
    }
    let round = round_of_three();
    assert!(round.is_done_drawing(&players));
    assert!(round.is_done_voting(&players));
    assert!(round.is_done_drawing(&Vec::new()));
}

#[test]
fn scores_are_the_tallies_by_player() {
    let mut round = round_of_three();
    assert_eq!(round.get_scores(), vec![(1, 0), (2, 0), (3, 0)]);
    round.submit_vote(&1, HashMap::from([(20, 2), (30, 1)])).unwrap();
    round.submit_vote(&2, HashMap::from([(10, 1), (30, 2)])).unwrap();
    assert_eq!(round.get_scores(), vec![(1, 1), (2, 2), (3, 3)]);
}

#[test]
fn connected_players_are_counted_and_found() {
    let mut players = roster(&[5, 6, 7]);
    assert_eq!(count_connected(&players), 3);
    players[0].is_disconnected = true;
    assert_eq!(count_connected(&players), 2);
    assert!(!is_connected_player(&players, 5));
    assert!(is_connected_player(&players, 6));
    assert!(!is_connected_player(&players, 8));
    assert_eq!(count_connected(&Vec::new()), 0);
}

#[test]
fn find_imprint_takes_the_first_entry_of_the_player() {
    let handed: Vec<(u128, Option<Drawing>)> =
        vec![(1, None), (2, Some(sketch(2, 2))), (2, Some(sketch(3, 1)))];
    assert!(find_imprint(&handed, 1).is_none());
    assert_eq!(find_imprint(&handed, 2).unwrap().len(), 2);
    assert!(find_imprint(&handed, 3).is_none());
}
