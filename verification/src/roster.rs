//! The players of a room, as a list in joining order.
//!
//! No player is on the list twice. Every walk over the players goes down the
//! list, so the order of the messages of a broadcast, of the prompts dealt
//! and of the scores added is a function of the room and nothing else.

use crate::game_model::{
    score_for, with_all_states, with_disconnected, with_player_state, with_ranks_renumbered,
    with_scores_added, with_scores_reset, without_disconnected, without_player,
};
use crate::player_view::{Player, PlayerSpec, PlayerState};
use vstd::prelude::*;

verus! {

impl Player {
    /// A copy of the player.
    pub fn duplicate(&self) -> (r: Player)
        ensures
            r.deep_view() == self.deep_view(),
    {
        Player {
            id: self.id,
            name: self.name.clone(),
            host_rank: self.host_rank,
            state: self.state,
            score: self.score,
            is_disconnected: self.is_disconnected,
        }
    }
}

/// Puts every player in the given state.
pub fn set_all_states(players: &mut Vec<Player>, state: PlayerState)
    ensures
        final(players).deep_view() == with_all_states(old(players).deep_view(), state),
{
    let ghost before = players.deep_view();
    let mut i: usize = 0;
    while i < players.len()
        invariant
            i <= players.len(),
            players.len() == before.len(),
            forall|j: int|
                0 <= j < i ==> (#[trigger] players.deep_view()[j]) == (PlayerSpec {
                    state,
                    ..before[j]
                }),
            forall|j: int| i <= j < before.len() ==> (#[trigger] players.deep_view()[j]) == before[j],
        decreases players.len() - i,
    {
        let ghost mid = players.deep_view();
        players[i].state = state;
        assert forall|j: int| 0 <= j < mid.len() && j != i implies (#[trigger] players.deep_view()[j])
            == mid[j] by {}
        assert(players.deep_view()[i as int] == PlayerSpec { state, ..mid[i as int] });
        i += 1;
    }
    assert(players.deep_view() =~= with_all_states(before, state));
}

/// Puts the player of that identity in the given state.
pub fn set_state_of(players: &mut Vec<Player>, id: u128, state: PlayerState)
    ensures
        final(players).deep_view() == with_player_state(old(players).deep_view(), id, state),
{
    let ghost before = players.deep_view();
    let mut i: usize = 0;
    while i < players.len()
        invariant
            i <= players.len(),
            players.len() == before.len(),
            forall|j: int|
                0 <= j < i ==> (#[trigger] players.deep_view()[j]) == with_player_state(
                    before,
                    id,
                    state,
                )[j],
            forall|j: int| i <= j < before.len() ==> (#[trigger] players.deep_view()[j]) == before[j],
        decreases players.len() - i,
    {
        let ghost mid = players.deep_view();
        if players[i].id == id {
            players[i].state = state;
            assert(players.deep_view()[i as int] == PlayerSpec { state, ..mid[i as int] });
        }
        assert forall|j: int| 0 <= j < mid.len() && j != i implies (#[trigger] players.deep_view()[j])
            == mid[j] by {}
        i += 1;
    }
    assert(players.deep_view() =~= with_player_state(before, id, state));
}

/// Marks the player of that identity as disconnected.
pub fn mark_disconnected(players: &mut Vec<Player>, id: u128)
    ensures
        final(players).deep_view() == with_disconnected(old(players).deep_view(), id),
{
    let ghost before = players.deep_view();
    let mut i: usize = 0;
    while i < players.len()
        invariant
            i <= players.len(),
            players.len() == before.len(),
            forall|j: int|
                0 <= j < i ==> (#[trigger] players.deep_view()[j]) == with_disconnected(before, id)[j],
            forall|j: int| i <= j < before.len() ==> (#[trigger] players.deep_view()[j]) == before[j],
        decreases players.len() - i,
    {
        let ghost mid = players.deep_view();
        if players[i].id == id {
            players[i].is_disconnected = true;
            assert(players.deep_view()[i as int] == PlayerSpec {
                is_disconnected: true,
                ..mid[i as int]
            });
        }
        assert forall|j: int| 0 <= j < mid.len() && j != i implies (#[trigger] players.deep_view()[j])
            == mid[j] by {}
        i += 1;
    }
    assert(players.deep_view() =~= with_disconnected(before, id));
}

/// Counts the ranks anew from nought, in the order of the players.
pub fn renumber_ranks(players: &mut Vec<Player>)
    ensures
        final(players).deep_view() == with_ranks_renumbered(old(players).deep_view()),
{
    let ghost before = players.deep_view();
    let mut i: usize = 0;
    while i < players.len()
        invariant
            i <= players.len(),
            players.len() == before.len(),
            forall|j: int|
                0 <= j < i ==> (#[trigger] players.deep_view()[j]) == (PlayerSpec {
                    host_rank: j as usize,
                    ..before[j]
                }),
            forall|j: int| i <= j < before.len() ==> (#[trigger] players.deep_view()[j]) == before[j],
        decreases players.len() - i,
    {
        let ghost mid = players.deep_view();
        players[i].host_rank = i;
        assert forall|j: int| 0 <= j < mid.len() && j != i implies (#[trigger] players.deep_view()[j])
            == mid[j] by {}
        assert(players.deep_view()[i as int] == PlayerSpec { host_rank: i, ..mid[i as int] });
        i += 1;
    }
    assert(players.deep_view() =~= with_ranks_renumbered(before));
}

/// Sets every score to nothing.
pub fn reset_scores(players: &mut Vec<Player>)
    ensures
        final(players).deep_view() == with_scores_reset(old(players).deep_view()),
{
    let ghost before = players.deep_view();
    let mut i: usize = 0;
    while i < players.len()
        invariant
            i <= players.len(),
            players.len() == before.len(),
            forall|j: int|
                0 <= j < i ==> (#[trigger] players.deep_view()[j]) == (PlayerSpec {
                    score: 0,
                    ..before[j]
                }),
            forall|j: int| i <= j < before.len() ==> (#[trigger] players.deep_view()[j]) == before[j],
        decreases players.len() - i,
    {
        let ghost mid = players.deep_view();
        players[i].score = 0;
        assert forall|j: int| 0 <= j < mid.len() && j != i implies (#[trigger] players.deep_view()[j])
            == mid[j] by {}
        assert(players.deep_view()[i as int] == PlayerSpec { score: 0, ..mid[i as int] });
        i += 1;
    }
    assert(players.deep_view() =~= with_scores_reset(before));
}

/// What `scores` holds for the player.
pub fn find_score(scores: &Vec<(u128, i32)>, id: u128) -> (r: i32)
    ensures
        r == score_for(scores@, id),
{
    let mut i: usize = 0;
    assert(scores@.skip(0) =~= scores@);
    while i < scores.len()
        invariant
            i <= scores.len(),
            score_for(scores@, id) == score_for(scores@.skip(i as int), id),
        decreases scores.len() - i,
    {
        proof {
            assert(scores@.skip(i as int)[0] == scores@[i as int]);
            assert(scores@.skip(i as int).drop_first() =~= scores@.skip(i + 1));
        }
        if scores[i].0 == id {
            return scores[i].1;
        }
        i += 1;
    }
    0
}

/// Adds to the score of each player what `scores` holds for them.
pub fn add_scores(players: &mut Vec<Player>, scores: &Vec<(u128, i32)>)
    requires
        forall|i: int|
            0 <= i < old(players).len() ==> -0x4000_0000_0000_0000 <= (#[trigger] old(players).deep_view()[i]).score <= 0x4000_0000_0000_0000,
    ensures
        final(players).deep_view() == with_scores_added(old(players).deep_view(), scores@),
{
    let ghost before = players.deep_view();
    let mut i: usize = 0;
    while i < players.len()
        invariant
            i <= players.len(),
            players.len() == before.len(),
            forall|j: int|
                0 <= j < before.len() ==> -0x4000_0000_0000_0000 <= (#[trigger] before[j]).score
                    <= 0x4000_0000_0000_0000,
            forall|j: int|
                0 <= j < i ==> (#[trigger] players.deep_view()[j]) == with_scores_added(
                    before,
                    scores@,
                )[j],
            forall|j: int| i <= j < before.len() ==> (#[trigger] players.deep_view()[j]) == before[j],
        decreases players.len() - i,
    {
        let ghost mid = players.deep_view();
        let gained = find_score(scores, players[i].id);
        assert(mid[i as int] == before[i as int]);
        players[i].score = players[i].score + gained as i64;
        assert forall|j: int| 0 <= j < mid.len() && j != i implies (#[trigger] players.deep_view()[j])
            == mid[j] by {}
        assert(players.deep_view()[i as int] == PlayerSpec {
            score: (mid[i as int].score + gained) as i64,
            ..mid[i as int]
        });
        i += 1;
    }
    assert(players.deep_view() =~= with_scores_added(before, scores@));
}

/// The players without the one of that identity.
pub fn remove_player(players: &Vec<Player>, id: u128) -> (kept: Vec<Player>)
    ensures
        kept.deep_view() == without_player(players.deep_view(), id),
{
    let mut kept: Vec<Player> = Vec::new();
    let mut i: usize = 0;
    assert(kept.deep_view() =~= without_player(players.deep_view().take(0), id));
    while i < players.len()
        invariant
            i <= players.len(),
            kept.deep_view() == without_player(players.deep_view().take(i as int), id),
        decreases players.len() - i,
    {
        proof {
            let head = players.deep_view().take(i + 1);
            assert(head.drop_last() =~= players.deep_view().take(i as int));
            assert(head.last() == players.deep_view()[i as int]);
        }
        if players[i].id != id {
            let ghost so_far = kept.deep_view();
            kept.push(players[i].duplicate());
            assert(kept.deep_view() =~= so_far.push(players.deep_view()[i as int]));
        }
        i += 1;
    }
    assert(players.deep_view().take(i as int) =~= players.deep_view());
    kept
}

/// The players who are connected.
pub fn remove_disconnected(players: &Vec<Player>) -> (kept: Vec<Player>)
    ensures
        kept.deep_view() == without_disconnected(players.deep_view()),
{
    let mut kept: Vec<Player> = Vec::new();
    let mut i: usize = 0;
    assert(kept.deep_view() =~= without_disconnected(players.deep_view().take(0)));
    while i < players.len()
        invariant
            i <= players.len(),
            kept.deep_view() == without_disconnected(players.deep_view().take(i as int)),
        decreases players.len() - i,
    {
        proof {
            let head = players.deep_view().take(i + 1);
            assert(head.drop_last() =~= players.deep_view().take(i as int));
            assert(head.last() == players.deep_view()[i as int]);
        }
        if !players[i].is_disconnected {
            let ghost so_far = kept.deep_view();
            kept.push(players[i].duplicate());
            assert(kept.deep_view() =~= so_far.push(players.deep_view()[i as int]));
        }
        i += 1;
    }
    assert(players.deep_view().take(i as int) =~= players.deep_view());
    kept
}

} // verus!
