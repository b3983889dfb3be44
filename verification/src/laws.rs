//! Laws of the game: what follows, for every room in order, from what the
//! commands are stated to do.

use crate::deck_repository::available_deck_names;
use crate::errors::{StartGameError, SubmitDrawingError, SubmitVoteError};
use crate::game::GameState;
use crate::game_laws::{
    is_kept_by, lemma_disconnect_members, lemma_disconnect_wf, lemma_replayed_members,
    lemma_replayed_wf, lemma_without_disconnected, same_connected,
};
use crate::game_manager::{drained, lemma_room_of, GameManagerSpec};
use crate::game_model::{
    all_disconnected, has_player, is_first_connected, names_of, without_disconnected, BroadcastSpec,
    GameSpec,
};
use crate::game_settings::{included_after, GameSettingsSpec};
use crate::player_view::PlayerSpec;
use crate::round::{
    ballot_fault, ballot_total, entry_of, has_entry, is_connected, votes_for, BallotSpec, RoundSpec,
    MAX_VOTES_PER_ROUND,
};
use crate::server_messages::{GameSettingsUpdateSpec, OutboundSpec, ServerMessageSpec};
use crate::text::{free_name, lemma_free_name_number, trimmed};
use crate::{deck, drawing, game_laws, game_manager, game_model, game_settings, imprint_mapper, imprint_selector, player_view, random, round};
use vstd::prelude::*;

verus! {

/// What a room sends to all does not depend on what it owes already.
pub proof fn lemma_broadcast_ignores_outbox(
    g: GameSpec,
    events: Seq<OutboundSpec>,
    kind: BroadcastSpec,
    n: int,
)
    ensures
        g.emit(events).broadcast_to(kind, n) == g.broadcast_to(kind, n),
    decreases n,
{
    if n > 0 {
        lemma_broadcast_ignores_outbox(g, events, kind, n - 1);
    }
}

/// A broadcast holds, for each connected one among the first `n` players,
/// the message of its kind for that player, and nothing else.
pub proof fn lemma_broadcast_events(g: GameSpec, kind: BroadcastSpec, n: int)
    requires
        0 <= n <= g.players.len(),
    ensures
        forall|k: int|
            0 <= k < g.broadcast_to(kind, n).len() ==> is_connected(
                g.players,
                (#[trigger] g.broadcast_to(kind, n)[k]).recipient,
            ) && g.broadcast_to(kind, n)[k].message == g.message_for(
                kind,
                g.broadcast_to(kind, n)[k].recipient,
            ),
        forall|i: int|
            0 <= i < n && !(#[trigger] g.players[i]).is_disconnected ==> exists|k: int|
                0 <= k < g.broadcast_to(kind, n).len() && g.broadcast_to(kind, n)[k].recipient
                    == g.players[i].id,
    decreases n,
{
    if n > 0 {
        lemma_broadcast_events(g, kind, n - 1);
        let rest = g.broadcast_to(kind, n - 1);
        let all = g.broadcast_to(kind, n);
        assert forall|i: int| 0 <= i < n && !(#[trigger] g.players[i]).is_disconnected implies exists|
            k: int,
        |
            0 <= k < all.len() && all[k].recipient == g.players[i].id by {
            if i < n - 1 {
                let k = choose|k: int| 0 <= k < rest.len() && rest[k].recipient == g.players[i].id;
                assert(all[k].recipient == g.players[i].id);
            } else {
                assert(all[all.len() - 1].recipient == g.players[i].id);
            }
        }
        assert forall|k: int| 0 <= k < all.len() implies is_connected(
            g.players,
            (#[trigger] all[k]).recipient,
        ) && all[k].message == g.message_for(kind, all[k].recipient) by {
            if k < rest.len() {
                assert(all[k] == rest[k]);
            } else {
                assert(g.players[n - 1].id == all[k].recipient);
            }
        }
    }
}

/// A player who joins a room is in it exactly once afterwards, under a name
/// that no player before them has, and is shown so to everybody: the room
/// owes the settings to the one who joined and then a view of the room to
/// every connected player, in which the one who joined comes last.
pub proof fn law_joiner_is_shown_once(
    g: GameSpec,
    id: u128,
    proposed_name: Seq<char>,
    recipient: u128,
)
    requires
        g.wf(),
        g.join_fault(id) is None,
    ensures
        ({
            let next = g.joined(id, proposed_name);
            let shown = next.lobby_update_for(recipient).players;
            let n = g.players.len() as int;
            &&& next.wf()
            &&& next.players.len() == n + 1
            &&& shown.len() == n + 1
            &&& forall|i: int| 0 <= i <= n ==> ((#[trigger] next.players[i]).id == id <==> i == n)
            &&& forall|i: int| 0 <= i <= n ==> (#[trigger] shown[i]).name == next.players[i].name
            &&& forall|i: int|
                0 <= i < n ==> (#[trigger] next.players[i]) == (PlayerSpec {
                    host_rank: next.players[i].host_rank,
                    ..g.players[i]
                }) && shown[i].name != shown[n].name
            &&& g.last_player_host_rank < usize::MAX ==> forall|i: int|
                0 <= i < n ==> (#[trigger] next.players[i]) == g.players[i]
            &&& shown[n].name == free_name(names_of(g.players), trimmed(proposed_name))
            &&& shown[n].is_you == (recipient == id)
            &&& next.outbox == g.outbox + seq![
                OutboundSpec {
                    recipient: id,
                    message: g.message_for(BroadcastSpec::Settings, id),
                },
            ] + next.broadcast(BroadcastSpec::Lobby)
            &&& exists|k: int|
                0 <= k < next.broadcast(BroadcastSpec::Lobby).len() && (#[trigger] next.broadcast(
                    BroadcastSpec::Lobby,
                )[k]) == (OutboundSpec {
                    recipient: id,
                    message: ServerMessageSpec::LobbyUpdate(next.lobby_update_for(id)),
                })
        }),
{
    let next = g.joined(id, proposed_name);
    let n = g.players.len() as int;
    let taken = names_of(g.players);
    let name = free_name(taken, trimmed(proposed_name));
    game_laws::lemma_joined_wf(g, id, proposed_name);
    game_laws::lemma_ranks_to_spare(g);
    lemma_free_name_number(taken, trimmed(proposed_name));
    let spare = g.with_ranks_to_spare().players;
    assert forall|i: int| 0 <= i < n implies (#[trigger] g.players[i]).name != name
        && g.players[i].id != id by {
        assert(taken[i] == g.players[i].name);
    }
    assert forall|i: int| 0 <= i < n implies (#[trigger] next.players[i]) == spare[i] by {}
    let told = seq![
        OutboundSpec { recipient: id, message: g.message_for(BroadcastSpec::Settings, id) },
    ];
    let seated = GameSpec {
        last_player_host_rank: next.last_player_host_rank,
        players: next.players,
        ..g.emit(told)
    }.rehosted();
    assert(next == seated.announce(BroadcastSpec::Lobby));
    let bare = GameSpec { outbox: Seq::empty(), ..seated };
    assert(seated == bare.emit(seated.outbox)) by {
        assert(bare.emit(seated.outbox).outbox =~= seated.outbox);
    }
    lemma_broadcast_ignores_outbox(bare, seated.outbox, BroadcastSpec::Lobby, n + 1);
    assert(next == bare.emit(next.outbox)) by {
        assert(bare.emit(next.outbox).outbox =~= next.outbox);
    }
    lemma_broadcast_ignores_outbox(bare, next.outbox, BroadcastSpec::Lobby, n + 1);
    assert(next.broadcast(BroadcastSpec::Lobby) == seated.broadcast(BroadcastSpec::Lobby));
    lemma_broadcast_events(next, BroadcastSpec::Lobby, n + 1);
    assert(!next.players[n].is_disconnected);
    let k = choose|k: int|
        0 <= k < next.broadcast(BroadcastSpec::Lobby).len() && next.broadcast(
            BroadcastSpec::Lobby,
        )[k].recipient == next.players[n].id;
    assert(next.broadcast(BroadcastSpec::Lobby)[k] == OutboundSpec {
        recipient: id,
        message: ServerMessageSpec::LobbyUpdate(next.lobby_update_for(id)),
    });
}

/// A room that waits for players and has fewer than eight takes every
/// player who is not in it.
pub proof fn law_waiting_room_takes_a_player(g: GameSpec, id: u128)
    requires
        g.state == GameState::WaitingForPlayers,
        g.players.len() < game_model::MAX_PLAYERS,
        !has_player(g.players, id),
    ensures
        g.join_fault(id) is None,
{
}

/// A player who plays nowhere can join every room that waits for players
/// and has fewer than eight.
pub proof fn law_join_game_succeeds(m: GameManagerSpec, id: u128, code: Seq<char>, i: int)
    requires
        m.wf(),
        !m.is_in_a_game(id),
        m.is_room(code, i),
        m.games[i].state == GameState::WaitingForPlayers,
        m.games[i].players.len() < game_model::MAX_PLAYERS,
    ensures
        m.join_fault(id, code) is None,
{
    lemma_room_of(m, code, i);
    let g = m.games[i];
    if has_player(g.players, id) {
        let k = choose|k: int| 0 <= k < g.players.len() && g.players[k].id == id;
        assert(!g.players[k].is_disconnected);
        assert(is_connected(g.players, id));
    }
}

/// A player who joins the room of a code through the manager is seated as
/// [`law_joiner_is_shown_once`] says, and the manager takes over what the
/// room owes for it.
pub proof fn law_join_game_seats_the_player(
    m: GameManagerSpec,
    id: u128,
    code: Seq<char>,
    proposed_name: Seq<char>,
)
    requires
        m.wf(),
        m.join_fault(id, code) is None,
    ensures
        ({
            let i = m.room_of(code);
            let next = m.joined(id, code, proposed_name);
            let seated = m.games[i].joined(id, proposed_name);
            &&& next.wf()
            &&& 0 <= i < m.games.len()
            &&& m.games[i].room_code == code
            &&& m.games[i].join_fault(id) is None
            &&& next.games[i] == drained(seated)
            &&& next.outbox == m.outbox + seated.outbox
            &&& next.is_in_a_game(id)
            &&& next.seat_of(id) == i
        }),
{
    let i = m.room_of(code);
    let next = m.joined(id, code, proposed_name);
    game_manager::lemma_joined_wf(m, id, code, proposed_name);
    assert(m.is_room(code, i));
    assert(next.is_room(code, i));
    lemma_room_of(next, code, i);
}

/// In a room that waits for players and has one player, that player cannot
/// start the game: there are too few players.
pub proof fn law_one_player_cannot_start(g: GameSpec, id: u128, cards: nat)
    requires
        g.wf(),
        g.state == GameState::WaitingForPlayers,
        g.players.len() == 1,
        has_player(g.players, id),
    ensures
        g.start_fault(id, cards) == Some(StartGameError::MinimumPlayersNotReached),
{
    assert(!g.players[0].is_disconnected);
    let k = choose|k: int| is_first_connected(g.players, k) && (#[trigger] g.players[k]).id == g.host_id;
    assert(k == 0);
}

/// In a room that waits for players and has two players, the host can start
/// the game as soon as the decks handed over hold one prompt: with the one
/// that every deck gets more, that is a prompt for each of the two.
pub proof fn law_two_players_can_start(g: GameSpec, cards: nat)
    requires
        g.wf(),
        g.state == GameState::WaitingForPlayers,
        g.players.len() == 2,
        cards >= 1,
    ensures
        g.start_fault(g.host_id, cards) is None,
{
    game_laws::lemma_connected_count_bound(g.players);
}

/// A drawing for another round than the one that is played is turned down
/// as handed in for the wrong round; so is any drawing before a game runs.
pub proof fn law_stale_drawing_is_turned_down(g: GameSpec, id: u128, round: usize)
    requires
        g.curr_round != Some(round),
    ensures
        g.drawing_fault(id, round) == Some(SubmitDrawingError::DrawingSubmittedForWrongRound),
{
}

/// The votes of a ballot are the votes that it gives to any one drawing on
/// it and the votes of the rest of the ballot: the sum does not depend on
/// the order in which the drawings are taken.
pub proof fn law_a_ballot_adds_up_its_drawings(votes: BallotSpec, drawing_id: u128, amount: i32)
    requires
        votes.dom().finite(),
    ensures
        ballot_total(votes.insert(drawing_id, amount)) == amount + ballot_total(
            votes.remove(drawing_id),
        ),
        ballot_total(Map::<u128, i32>::empty()) == 0,
{
    round::lemma_total_without(votes.insert(drawing_id, amount), drawing_id);
    assert(votes.insert(drawing_id, amount).remove(drawing_id) =~= votes.remove(drawing_id));
    round::lemma_total_of_none(Map::<u128, i32>::empty());
}

/// A ballot of more than three votes in all is turned down as exceeding the
/// votes a player has, whoever hands it in and whatever else it holds.
pub proof fn law_too_many_votes_are_turned_down(entries: RoundSpec, id: u128, votes: BallotSpec)
    requires
        ballot_total(votes) > MAX_VOTES_PER_ROUND,
    ensures
        ballot_fault(entries, id, votes) == Some(SubmitVoteError::MaximumVotesExceeded),
{
}

/// In a room with a round, a ballot of more than three votes in all is
/// turned down as exceeding the votes a player has.
pub proof fn law_room_turns_down_too_many_votes(g: GameSpec, id: u128, votes: BallotSpec)
    requires
        g.rounds.len() > 0,
        ballot_total(votes) > MAX_VOTES_PER_ROUND,
    ensures
        g.vote_fault(id, votes) == Some(SubmitVoteError::MaximumVotesExceeded),
{
}

/// A ballot of at most three votes in all that gives a vote to the drawing
/// of the player who hands it in is turned down as a vote for oneself.
pub proof fn law_vote_for_self_is_turned_down(entries: RoundSpec, id: u128, votes: BallotSpec)
    requires
        ballot_total(votes) <= MAX_VOTES_PER_ROUND,
        votes_for(votes, entry_of(entries, id).drawing_id),
    ensures
        ballot_fault(entries, id, votes) == Some(SubmitVoteError::ClientVotedForSelf),
{
}

/// Whether the player of that identity is connected and no connected player
/// has a lower rank.
pub open spec fn has_lowest_rank_connected(players: Seq<PlayerSpec>, id: u128) -> bool {
    exists|k: int|
        {
            &&& 0 <= k < players.len()
            &&& (#[trigger] players[k]).id == id
            &&& !players[k].is_disconnected
            &&& forall|j: int|
                0 <= j < players.len() && !(#[trigger] players[j]).is_disconnected
                    ==> players[k].host_rank <= players[j].host_rank
        }
}

/// While anybody is connected, the host of a room is connected and has the
/// lowest rank of all connected players.
pub proof fn law_host_has_lowest_rank(g: GameSpec)
    requires
        g.wf(),
        !all_disconnected(g.players),
    ensures
        has_lowest_rank_connected(g.players, g.host_id),
{
    let k = choose|k: int| is_first_connected(g.players, k) && (#[trigger] g.players[k]).id == g.host_id;
    assert forall|j: int|
        0 <= j < g.players.len() && !(#[trigger] g.players[j]).is_disconnected implies g.players[k].host_rank
        <= g.players[j].host_rank by {
        if j < k {
            assert(g.players[j].is_disconnected);
        } else if k < j {
            assert(g.players[k].host_rank < g.players[j].host_rank);
        }
    }
}

/// After the connection of a player closed, the room is in order, has its
/// code still, and its connected players are those that were but that one.
pub proof fn law_disconnect(g: GameSpec, next: GameSpec, id: u128)
    requires
        g.wf(),
        g.is_disconnect(next, id),
    ensures
        next.wf(),
        next.room_code == g.room_code,
        forall|x: u128|
            #![trigger is_connected(next.players, x)]
            is_connected(next.players, x) <==> (x != id && is_connected(g.players, x)),
{
    lemma_disconnect_wf(g, next, id);
    lemma_disconnect_members(g, next, id);
}

/// After the connection of a player closed, nobody in the room is connected
/// exactly if nobody else was before.
pub proof fn law_disconnect_of_the_last(g: GameSpec, next: GameSpec, id: u128)
    requires
        g.wf(),
        g.is_disconnect(next, id),
    ensures
        all_disconnected(next.players) <==> (forall|x: u128|
            #![trigger is_connected(g.players, x)]
            is_connected(g.players, x) ==> x == id),
{
    lemma_disconnect_members(g, next, id);
    lemma_nobody_left(g.players, next.players, id);
}

/// After the connection of a player closed, if anybody is connected still,
/// the host is the connected player of the lowest rank.
pub proof fn law_disconnect_elects_host(g: GameSpec, next: GameSpec, id: u128)
    requires
        g.wf(),
        g.is_disconnect(next, id),
        !all_disconnected(next.players),
    ensures
        has_lowest_rank_connected(next.players, next.host_id),
{
    lemma_disconnect_wf(g, next, id);
    law_host_has_lowest_rank(next);
}

/// Where the connected players are those that were but one, nobody is
/// connected exactly if nobody else was.
pub proof fn lemma_nobody_left(before: Seq<PlayerSpec>, after: Seq<PlayerSpec>, id: u128)
    requires
        forall|x: u128|
            #![trigger is_connected(after, x)]
            is_connected(after, x) <==> (x != id && is_connected(before, x)),
    ensures
        all_disconnected(after) <==> (forall|x: u128|
            #![trigger is_connected(before, x)]
            is_connected(before, x) ==> x == id),
{
    if all_disconnected(after) {
        game_laws::lemma_all_disconnected(after);
        assert forall|x: u128| #![trigger is_connected(before, x)] is_connected(before, x) implies x
            == id by {
            assert(!is_connected(after, x));
        }
    } else {
        let i = choose|i: int| 0 <= i < after.len() && !(#[trigger] after[i]).is_disconnected;
        assert(is_connected(after, after[i].id));
        assert(is_connected(before, after[i].id));
    }
}

/// Once the connection of every player of a room has closed, one after the
/// other, nobody in the room is connected: the room can be closed.
pub proof fn law_disconnect_all(rooms: Seq<GameSpec>, ids: Seq<u128>)
    requires
        rooms.len() == ids.len() + 1,
        rooms[0].wf(),
        forall|k: int| 0 <= k < ids.len() ==> (#[trigger] rooms[k]).is_disconnect(rooms[k + 1], ids[k]),
        forall|x: u128| #![trigger is_connected(rooms[0].players, x)] is_connected(rooms[0].players, x) ==> ids.contains(x),
    ensures
        rooms.last().wf(),
        all_disconnected(rooms.last().players),
{
    lemma_disconnects(rooms, ids, ids.len() as int);
    let last = rooms.last();
    assert forall|i: int| 0 <= i < last.players.len() implies (#[trigger] last.players[i]).is_disconnected by {
        if !last.players[i].is_disconnected {
            let x = last.players[i].id;
            assert(is_connected(last.players, x));
            assert(is_connected(rooms[0].players, x));
            let k = choose|k: int| 0 <= k < ids.len() && ids[k] == x;
            assert(ids.take(ids.len() as int) =~= ids);
            assert(ids.take(ids.len() as int).contains(x));
        }
    }
}

proof fn lemma_disconnects(rooms: Seq<GameSpec>, ids: Seq<u128>, n: int)
    requires
        rooms.len() == ids.len() + 1,
        rooms[0].wf(),
        forall|k: int| 0 <= k < ids.len() ==> (#[trigger] rooms[k]).is_disconnect(rooms[k + 1], ids[k]),
        0 <= n <= ids.len(),
    ensures
        rooms[n].wf(),
        forall|x: u128|
            #![trigger is_connected(rooms[n].players, x)]
            is_connected(rooms[n].players, x) ==> is_connected(rooms[0].players, x) && !ids.take(
                n,
            ).contains(x),
    decreases n,
{
    if n > 0 {
        lemma_disconnects(rooms, ids, n - 1);
        assert(rooms[n - 1].is_disconnect(rooms[n - 1 + 1], ids[n - 1]));
        law_disconnect(rooms[n - 1], rooms[n], ids[n - 1]);
        assert forall|x: u128|
            #![trigger is_connected(rooms[n].players, x)]
            is_connected(rooms[n].players, x) implies is_connected(rooms[0].players, x) && !ids.take(
            n,
        ).contains(x) by {
            assert(is_connected(rooms[n - 1].players, x));
            assert(x != ids[n - 1]);
            if ids.take(n).contains(x) {
                let k = choose|k: int| 0 <= k < n && ids.take(n)[k] == x;
                if k < n - 1 {
                    assert(ids.take(n - 1)[k] == x);
                    assert(ids.take(n - 1).contains(x));
                }
            }
        }
    }
}

/// Playing again keeps the code of the room and its connected players, each
/// as they were but with no score, takes the others off, and forgets the
/// rounds.
pub proof fn law_play_again_resets(g: GameSpec, id: u128)
    requires
        g.wf(),
        g.replay_fault(id) is None,
    ensures
        ({
            let next = g.replayed();
            &&& next.wf()
            &&& next.room_code == g.room_code
            &&& next.state == GameState::WaitingForPlayers
            &&& next.rounds.len() == 0
            &&& next.curr_round is None
            &&& same_connected(g.players, next.players)
            &&& forall|i: int|
                0 <= i < next.players.len() ==> (#[trigger] next.players[i]).score == 0
                    && !next.players[i].is_disconnected
            &&& exists|at: Seq<int>|
                #![trigger is_kept_by(without_disconnected(g.players), g.players, at)]
                {
                    &&& is_kept_by(without_disconnected(g.players), g.players, at)
                    &&& next.players.len() == at.len()
                    &&& forall|i: int|
                        0 <= i < at.len() ==> (#[trigger] next.players[i]) == (PlayerSpec {
                            score: 0,
                            ..g.players[at[i]]
                        })
                }
        }),
{
    let next = g.replayed();
    lemma_replayed_wf(g);
    lemma_replayed_members(g);
    let at = lemma_without_disconnected(g.players);
    let kept = without_disconnected(g.players);
    assert forall|i: int| 0 <= i < next.players.len() implies (#[trigger] next.players[i]).score == 0
        && !next.players[i].is_disconnected by {
        assert(kept[i] == g.players[at[i]]);
    }
    assert forall|i: int| 0 <= i < at.len() implies (#[trigger] next.players[i]) == (PlayerSpec {
        score: 0,
        ..g.players[at[i]]
    }) by {
        assert(kept[i] == g.players[at[i]]);
    }
    assert(is_kept_by(without_disconnected(g.players), g.players, at));
}

/// Whether no entry after the one at `k` names the same deck.
pub open spec fn is_last_entry_for_its_deck(updates: Seq<(Seq<char>, bool)>, k: int) -> bool {
    &&& 0 <= k < updates.len()
    &&& forall|j: int| k < j < updates.len() ==> (#[trigger] updates[j]).0 != updates[k].0
}

/// The last entry for a deck decides whether the deck is in.
pub proof fn lemma_last_entry_decides(updates: Seq<(Seq<char>, bool)>, k: int, current: bool)
    requires
        is_last_entry_for_its_deck(updates, k),
    ensures
        included_after(updates, updates[k].0, current) == updates[k].1,
    decreases updates.len(),
{
    if k < updates.len() - 1 {
        let head = updates.drop_last();
        assert(updates[updates.len() - 1].0 != updates[k].0);
        assert forall|j: int| k < j < head.len() implies (#[trigger] head[j]).0 != head[k].0 by {
            assert(updates[j].0 != updates[k].0);
        }
        lemma_last_entry_decides(head, k, current);
    }
}

/// Settings that a room takes come back unchanged in the settings it sends
/// out next: mode, rounds and time limits as handed in, and each deck in or
/// out as the last entry for it says. Every connected player is sent them.
pub proof fn law_settings_round_trip(g: GameSpec, id: u128, settings: GameSettingsSpec)
    requires
        g.wf(),
        g.settings_fault(id, settings) is None,
    ensures
        ({
            let next = g.settings_applied(settings);
            let sent = next.broadcast(BroadcastSpec::Settings);
            &&& next.wf()
            &&& next.outbox == g.outbox + sent
            &&& forall|e: int|
                0 <= e < sent.len() ==> (#[trigger] sent[e]).message
                    == ServerMessageSpec::GameSettingsUpdate(
                    GameSettingsUpdateSpec { settings: next.settings },
                )
            &&& forall|i: int|
                0 <= i < next.players.len() && !(#[trigger] next.players[i]).is_disconnected
                    ==> exists|e: int| 0 <= e < sent.len() && sent[e].recipient == next.players[i].id
            &&& next.settings.mode == settings.mode
            &&& next.settings.rounds == settings.rounds
            &&& next.settings.drawing_phase_time_limit_seconds
                == settings.drawing_phase_time_limit_seconds
            &&& next.settings.voting_phase_time_limit_seconds
                == settings.voting_phase_time_limit_seconds
            &&& forall|k: int|
                is_last_entry_for_its_deck(settings.drawing_decks_included, k)
                    ==> next.settings.drawing_decks_included.contains(
                    #[trigger] settings.drawing_decks_included[k],
                )
        }),
{
    let next = g.settings_applied(settings);
    let updates = settings.drawing_decks_included;
    let decks = g.settings.drawing_decks_included;
    game_laws::lemma_settings_applied_wf(g, id, settings);
    let changed = GameSpec { settings: next.settings, ..g };
    assert(next == changed.announce(BroadcastSpec::Settings));
    let bare = GameSpec { outbox: Seq::empty(), ..changed };
    assert(changed == bare.emit(changed.outbox)) by {
        assert(bare.emit(changed.outbox).outbox =~= changed.outbox);
    }
    assert(next == bare.emit(next.outbox)) by {
        assert(bare.emit(next.outbox).outbox =~= next.outbox);
    }
    let n = g.players.len() as int;
    lemma_broadcast_ignores_outbox(bare, changed.outbox, BroadcastSpec::Settings, n);
    lemma_broadcast_ignores_outbox(bare, next.outbox, BroadcastSpec::Settings, n);
    lemma_broadcast_events(next, BroadcastSpec::Settings, n);
    assert forall|k: int| is_last_entry_for_its_deck(updates, k) implies next.settings.drawing_decks_included.contains(
        #[trigger] updates[k],
    ) by {
        assert(available_deck_names().contains(updates[k].0));
        let i = choose|i: int|
            0 <= i < available_deck_names().len() && available_deck_names()[i] == updates[k].0;
        assert(decks[i].0 == updates[k].0);
        lemma_last_entry_decides(updates, k, decks[i].1);
        assert(next.settings.drawing_decks_included[i] == updates[k]);
    }
}

/// What a player is handed is nothing, or a fragment that is held for
/// somebody.
pub proof fn lemma_imprint_for(handed: imprint_mapper::ImprintMapSpec, id: u128)
    ensures
        round::imprint_for(handed, id) is None || exists|j: int|
            0 <= j < handed.len() && (#[trigger] handed[j]).1 == round::imprint_for(handed, id),
    decreases handed.len(),
{
    if handed.len() > 0 && handed[0].0 != id {
        let tail = handed.drop_first();
        lemma_imprint_for(tail, id);
        if round::imprint_for(tail, id) is Some {
            let j = choose|j: int|
                0 <= j < tail.len() && (#[trigger] tail[j]).1 == round::imprint_for(tail, id);
            assert(handed[j + 1] == tail[j]);
        }
    } else if handed.len() > 0 {
        assert(handed[0].1 == round::imprint_for(handed, id));
    }
}

/// Every fragment that a round hands on is one of the fragments picked.
pub proof fn lemma_carried_values(
    entries: RoundSpec,
    players: Seq<PlayerSpec>,
    fragments: Seq<Option<Seq<drawing::StrokeSpec>>>,
)
    requires
        entries.len() <= fragments.len(),
    ensures
        forall|j: int|
            0 <= j < game_model::carried_imprints(entries, players, fragments).len()
                ==> exists|k: int|
                0 <= k < entries.len() && (#[trigger] game_model::carried_imprints(
                    entries,
                    players,
                    fragments,
                )[j]).1 == fragments[k],
    decreases entries.len(),
{
    if entries.len() > 0 {
        let head = entries.drop_last();
        let rest = game_model::carried_imprints(head, players, fragments);
        let all = game_model::carried_imprints(entries, players, fragments);
        lemma_carried_values(head, players, fragments);
        assert forall|j: int| 0 <= j < all.len() implies exists|k: int|
            0 <= k < entries.len() && (#[trigger] all[j]).1 == fragments[k] by {
            if j < rest.len() {
                assert(all[j] == rest[j]);
                let k = choose|k: int| 0 <= k < head.len() && rest[j].1 == fragments[k];
                assert(all[j].1 == fragments[k]);
            } else {
                assert(all[j].1 == fragments[entries.len() - 1]);
            }
        }
    }
}

/// Every imprint of a round that was put together is what was held for its
/// player.
pub proof fn lemma_assembled_imprints(
    players: Seq<PlayerSpec>,
    deck: Seq<Seq<char>>,
    handed: imprint_mapper::ImprintMapSpec,
    drawing_ids: Seq<u128>,
)
    ensures
        forall|k: int|
            0 <= k < round::assembled(players, deck, handed, drawing_ids).len() ==> (
            #[trigger] round::assembled(players, deck, handed, drawing_ids)[k]).imprint
                == round::imprint_for(
                handed,
                round::assembled(players, deck, handed, drawing_ids)[k].player_id,
            ),
    decreases players.len(),
{
    if players.len() > 0 {
        lemma_assembled_imprints(players.drop_last(), deck, handed, drawing_ids);
        let rest = round::assembled(players.drop_last(), deck, handed, drawing_ids);
        let all = round::assembled(players, deck, handed, drawing_ids);
        assert forall|k: int| 0 <= k < all.len() implies (#[trigger] all[k]).imprint
            == round::imprint_for(handed, all[k].player_id) by {
            if k < rest.len() {
                assert(all[k] == rest[k]);
            }
        }
    }
}

/// Whether what is handed on is nothing, or at most
/// [`game_model::IMPRINT_STROKES`] strokes picked from the drawing and the
/// imprint of one entry of the round it comes from.
pub open spec fn is_handed_on_from(imprint: Option<Seq<drawing::StrokeSpec>>, entries: RoundSpec) -> bool {
    imprint matches Some(fragment) ==> {
        &&& fragment.len() <= game_model::IMPRINT_STROKES
        &&& exists|i: int|
            0 <= i < entries.len() && imprint_selector::is_fragment_of(
                imprint,
                (#[trigger] entries[i]).drawing,
                entries[i].imprint,
                game_model::IMPRINT_STROKES as nat,
            )
    }
}

/// Every entry of a round that was put together is blank: no drawing, no
/// votes, not voted.
pub proof fn lemma_assembled_blank(
    players: Seq<PlayerSpec>,
    deck: Seq<Seq<char>>,
    handed: imprint_mapper::ImprintMapSpec,
    drawing_ids: Seq<u128>,
)
    ensures
        forall|k: int|
            0 <= k < round::assembled(players, deck, handed, drawing_ids).len() ==> {
                let entry = #[trigger] round::assembled(players, deck, handed, drawing_ids)[k];
                entry.drawing is None && entry.votes == 0 && !entry.has_voted
            },
    decreases players.len(),
{
    if players.len() > 0 {
        lemma_assembled_blank(players.drop_last(), deck, handed, drawing_ids);
        let rest = round::assembled(players.drop_last(), deck, handed, drawing_ids);
        let all = round::assembled(players, deck, handed, drawing_ids);
        assert forall|k: int| 0 <= k < all.len() implies {
            let entry = #[trigger] all[k];
            entry.drawing is None && entry.votes == 0 && !entry.has_voted
        } by {
            if k < rest.len() {
                assert(all[k] == rest[k]);
            }
        }
    }
}

/// The round that begins has one blank entry for each connected player, and
/// what each of them is handed to draw over is nothing or a fragment of at
/// most [`game_model::IMPRINT_STROKES`] strokes of one drawing, with its
/// imprint, of the round before.
pub proof fn law_imprints_are_short(g: GameSpec, next: GameSpec)
    requires
        g.is_next_round(next),
    ensures
        next.rounds.len() == g.rounds.len() + 1,
        next.current_round().len() == round::connected_count(g.players),
        forall|k: int|
            0 <= k < next.current_round().len() ==> {
                let entry = #[trigger] next.current_round()[k];
                &&& entry.drawing is None
                &&& entry.votes == 0
                &&& !entry.has_voted
                &&& is_connected(g.players, entry.player_id)
                &&& is_handed_on_from(
                    entry.imprint,
                    if g.rounds.len() > 0 {
                        g.current_round()
                    } else {
                        Seq::empty()
                    },
                )
            },
{
    let (imprints, entries) = choose|
        imprints: imprint_mapper::ImprintMapSpec,
        entries: RoundSpec,
    |
        #![trigger round::is_new_round(entries, g.players, g.deck.unwrap(), imprints)]
        {
            &&& if g.rounds.len() == 0 {
                imprints == Seq::<(u128, Option<Seq<drawing::StrokeSpec>>)>::empty()
            } else {
                game_model::is_carried_from(imprints, g.current_round(), g.players)
            }
            &&& round::is_new_round(entries, g.players, g.deck.unwrap(), imprints)
            &&& next == g.round_opened(entries)
        };
    let (handed, drawing_ids) = choose|
        handed: imprint_mapper::ImprintMapSpec,
        drawing_ids: Seq<u128>,
    |
        {
            &&& imprint_mapper::is_redistribution(handed, imprints)
            &&& drawing_ids.len() == g.players.len()
            &&& entries == #[trigger] round::assembled(
                g.players,
                g.deck.unwrap(),
                handed,
                drawing_ids,
            )
        };
    let order = choose|order: Seq<int>|
        random::is_rearrangement(order, imprints.len()) && handed
            == #[trigger] imprint_mapper::redistributed(imprints, order);
    round::lemma_assembled_len(g.players, g.deck.unwrap(), handed, drawing_ids);
    lemma_assembled_imprints(g.players, g.deck.unwrap(), handed, drawing_ids);
    lemma_assembled_blank(g.players, g.deck.unwrap(), handed, drawing_ids);
    game_laws::lemma_assembled_entries(g.players, g.deck.unwrap(), handed, drawing_ids);
    assert(next.current_round() == entries);
    let before = if g.rounds.len() > 0 {
        g.current_round()
    } else {
        Seq::empty()
    };
    assert forall|k: int| 0 <= k < entries.len() implies is_handed_on_from(
        (#[trigger] entries[k]).imprint,
        before,
    ) by {
        let given = entries[k].imprint;
        if given is Some {
            lemma_imprint_for(handed, entries[k].player_id);
            let j = choose|j: int| 0 <= j < handed.len() && (#[trigger] handed[j]).1 == given;
            assert(handed[j].1 == imprints[order[j]].1);
            assert(g.rounds.len() > 0);
            let fragments = choose|fragments: Seq<Option<Seq<drawing::StrokeSpec>>>|
                {
                    &&& fragments.len() == g.current_round().len()
                    &&& forall|i: int|
                        0 <= i < g.current_round().len() ==> imprint_selector::is_fragment_of(
                            #[trigger] fragments[i],
                            g.current_round()[i].drawing,
                            g.current_round()[i].imprint,
                            game_model::IMPRINT_STROKES as nat,
                        )
                    &&& imprints == game_model::carried_imprints(
                        g.current_round(),
                        g.players,
                        fragments,
                    )
                };
            lemma_carried_values(g.current_round(), g.players, fragments);
            let at = order[j];
            assert(0 <= at < imprints.len());
            let i = choose|i: int|
                0 <= i < g.current_round().len() && (#[trigger] game_model::carried_imprints(
                    g.current_round(),
                    g.players,
                    fragments,
                )[at]).1 == fragments[i];
            assert(imprint_selector::is_fragment_of(
                fragments[i],
                g.current_round()[i].drawing,
                g.current_round()[i].imprint,
                game_model::IMPRINT_STROKES as nat,
            ));
            assert(fragments[i] == given);
            assert(imprint_selector::is_fragment_of(
                given,
                before[i].drawing,
                before[i].imprint,
                game_model::IMPRINT_STROKES as nat,
            ));
        }
    }
}

/// What holds of the room in which a round has just begun.
pub open spec fn is_round_begun(g: GameSpec, next: GameSpec) -> bool {
    &&& next.wf()
    &&& next.state == GameState::DrawingPhase
    &&& next.curr_round == Some((g.rounds.len() + 1) as usize)
    &&& next.rounds.len() == g.rounds.len() + 1
    &&& next.players.len() == g.players.len()
    &&& forall|i: int|
        0 <= i < next.players.len() ==> (#[trigger] next.players[i]) == (PlayerSpec {
            state: player_view::PlayerState::Drawing,
            ..g.players[i]
        })
    &&& next.current_round().len() == round::connected_count(g.players)
    &&& forall|k: int|
        0 <= k < next.current_round().len() ==> {
            let entry = #[trigger] next.current_round()[k];
            &&& entry.drawing is None
            &&& entry.votes == 0
            &&& !entry.has_voted
            &&& is_connected(g.players, entry.player_id)
            &&& is_handed_on_from(
                entry.imprint,
                if g.rounds.len() > 0 {
                    g.current_round()
                } else {
                    Seq::empty()
                },
            )
        }
    &&& forall|i: int|
        0 <= i < next.players.len() && !(#[trigger] next.players[i]).is_disconnected ==> has_entry(
            next.current_round(),
            next.players[i].id,
        ) && exists|e: int|
            0 <= e < next.outbox.len() && next.outbox[e] == (OutboundSpec {
                recipient: next.players[i].id,
                message: ServerMessageSpec::DrawingParameters(
                    next.drawing_parameters_for(next.players[i].id),
                ),
            })
    &&& forall|x: u128| (#[trigger] next.drawing_parameters_for(x)).round == g.rounds.len() + 1
}

/// In a room that is ready for it, the round that begins is the next by
/// number; everybody draws; the round holds a blank entry for each connected
/// player, with nothing or a fragment of the round before to draw over; and
/// each connected player is owed what to draw.
pub proof fn law_round_that_begins(g: GameSpec, next: GameSpec)
    requires
        game_laws::ready_for_round(g),
        g.is_next_round(next),
    ensures
        is_round_begun(g, next),
{
    game_laws::lemma_next_round_wf(g, next);
    law_imprints_are_short(g, next);
    let (imprints, entries) = choose|imprints: imprint_mapper::ImprintMapSpec, entries: RoundSpec|
        #![trigger round::is_new_round(entries, g.players, g.deck.unwrap(), imprints)]
        round::is_new_round(entries, g.players, g.deck.unwrap(), imprints) && next
            == g.round_opened(entries);
    // what is owed last is what to draw
    let n = next.players.len() as int;
    let bare = GameSpec { outbox: Seq::empty(), ..next };
    assert(next == bare.emit(next.outbox)) by {
        assert(bare.emit(next.outbox).outbox =~= next.outbox);
    }
    let opened = GameSpec {
        curr_round: next.curr_round,
        rounds: next.rounds,
        deck: next.deck,
        state: next.state,
        players: next.players,
        ..g
    }.announce(BroadcastSpec::Lobby);
    assert(next == opened.announce(BroadcastSpec::DrawingParameters));
    assert(opened == bare.emit(opened.outbox)) by {
        assert(bare.emit(opened.outbox).outbox =~= opened.outbox);
    }
    lemma_broadcast_ignores_outbox(bare, opened.outbox, BroadcastSpec::DrawingParameters, n);
    lemma_broadcast_ignores_outbox(bare, next.outbox, BroadcastSpec::DrawingParameters, n);
    let sent = next.broadcast(BroadcastSpec::DrawingParameters);
    assert(next.outbox == opened.outbox + sent);
    lemma_broadcast_events(next, BroadcastSpec::DrawingParameters, n);
    assert forall|i: int|
        0 <= i < next.players.len() && !(#[trigger] next.players[i]).is_disconnected implies has_entry(
        next.current_round(),
        next.players[i].id,
    ) && exists|e: int|
        0 <= e < next.outbox.len() && next.outbox[e] == (OutboundSpec {
            recipient: next.players[i].id,
            message: ServerMessageSpec::DrawingParameters(
                next.drawing_parameters_for(next.players[i].id),
            ),
        }) by {
        let k = choose|k: int| 0 <= k < sent.len() && sent[k].recipient == next.players[i].id;
        assert(next.outbox[opened.outbox.len() + k] == sent[k]);
    }
}

/// Where everybody is connected, as many are connected as there are
/// players.
pub proof fn lemma_all_connected(players: Seq<PlayerSpec>)
    requires
        forall|i: int| 0 <= i < players.len() ==> !(#[trigger] players[i]).is_disconnected,
    ensures
        round::connected_count(players) == players.len(),
    decreases players.len(),
{
    if players.len() > 0 {
        assert(!players[players.len() - 1].is_disconnected);
        assert forall|i: int| 0 <= i < players.drop_last().len() implies !(
        #[trigger] players.drop_last()[i]).is_disconnected by {
            assert(!players[i].is_disconnected);
        }
        lemma_all_connected(players.drop_last());
    }
}

/// A start that is not turned down opens the first round: the room is
/// drawing, round one is played and is the only round, every player draws,
/// has a blank entry with nothing to draw over, and is owed what to draw.
pub proof fn law_start_opens_the_first_round(
    g: GameSpec,
    id: u128,
    decks: Seq<Seq<Seq<char>>>,
    next: GameSpec,
)
    requires
        g.wf(),
        g.start_fault(id, deck::concat_all(decks).len()) is None,
        g.is_game_start(next, decks),
    ensures
        next.wf(),
        next.state == GameState::DrawingPhase,
        next.curr_round == Some(1usize),
        next.rounds.len() == 1,
        next.current_round().len() == g.players.len(),
        forall|i: int|
            0 <= i < g.players.len() ==> (#[trigger] next.players[i]) == (PlayerSpec {
                state: player_view::PlayerState::Drawing,
                ..g.players[i]
            }),
        forall|k: int|
            0 <= k < next.current_round().len() ==> {
                let entry = #[trigger] next.current_round()[k];
                &&& entry.drawing is None
                &&& entry.votes == 0
                &&& !entry.has_voted
                &&& entry.imprint is None
            },
        forall|i: int|
            0 <= i < g.players.len() ==> has_entry(
                next.current_round(),
                (#[trigger] next.players[i]).id,
            ) && exists|e: int|
                0 <= e < next.outbox.len() && next.outbox[e] == (OutboundSpec {
                    recipient: next.players[i].id,
                    message: ServerMessageSpec::DrawingParameters(
                        next.drawing_parameters_for(next.players[i].id),
                    ),
                }),
        forall|x: u128| (#[trigger] next.drawing_parameters_for(x)).round == 1,
{
    let deck = choose|deck: Seq<Seq<char>>|
        random::is_shuffle_of(
            deck,
            deck::concat_all(decks).push("rabbit"@),
        ) && (#[trigger] g.with_deck(deck)).is_next_round(next);
    let started = g.with_deck(deck);
    game_laws::lemma_game_start_ready(g, id, deck, deck::concat_all(decks).len());
    law_round_that_begins(started, next);
    lemma_all_connected(g.players);
    assert forall|k: int| 0 <= k < next.current_round().len() implies (
    #[trigger] next.current_round()[k]).imprint is None by {
        let entry = next.current_round()[k];
        assert(is_handed_on_from(entry.imprint, Seq::empty()));
    }
    assert forall|i: int| 0 <= i < g.players.len() implies has_entry(
        next.current_round(),
        (#[trigger] next.players[i]).id,
    ) && exists|e: int|
        0 <= e < next.outbox.len() && next.outbox[e] == (OutboundSpec {
            recipient: next.players[i].id,
            message: ServerMessageSpec::DrawingParameters(
                next.drawing_parameters_for(next.players[i].id),
            ),
        }) by {
        assert(!g.players[i].is_disconnected);
        assert(!next.players[i].is_disconnected);
    }
}

/// The ballot that ends the vote of a round after which another round is due
/// opens that round, if the deck can deal it: the votes are added to the
/// scores and the round begins as [`is_round_begun`] says.
pub proof fn law_last_ballot_opens_the_next_round(
    g: GameSpec,
    id: u128,
    votes: BallotSpec,
    next: GameSpec,
)
    requires
        g.wf(),
        g.vote_fault(id, votes) is None,
        g.vote_counted(id, votes).vote_is_over(),
        g.curr_round != Some(g.settings.rounds),
        g.vote_counted(id, votes).is_voting_settled(next),
    ensures
        is_round_begun(g.vote_counted(id, votes).scored(), next),
        next.curr_round == Some((g.rounds.len() + 1) as usize),
        next.rounds.len() == g.rounds.len() + 1,
        next.current_round().len() == round::connected_count(g.players),
        forall|i: int|
            0 <= i < g.players.len() ==> {
                let p = #[trigger] next.players[i];
                &&& p.id == g.players[i].id
                &&& p.state == player_view::PlayerState::Drawing
                &&& p.score == g.players[i].score + game_model::score_for(
                    round::scores_of(round::with_ballot(g.current_round(), id, votes)),
                    g.players[i].id,
                )
            },
{
    let counted = g.vote_counted(id, votes);
    let scored = counted.scored();
    game_laws::lemma_vote_counted_wf(g, id, votes);
    game_laws::lemma_scored(counted);
    assert(!counted.is_out_of_prompts());
    assert(scored.is_next_round(next));
    law_round_that_begins(scored, next);
    let marked = game_model::with_player_state(
        g.players,
        id,
        player_view::PlayerState::VotingDone,
    );
    game_laws::lemma_connected_count_same(g.players, marked);
    assert(counted.current_round() == round::with_ballot(g.current_round(), id, votes));
    assert forall|i: int| 0 <= i < g.players.len() implies {
        let p = #[trigger] next.players[i];
        &&& p.id == g.players[i].id
        &&& p.state == player_view::PlayerState::Drawing
        &&& p.score == g.players[i].score + game_model::score_for(
            round::scores_of(round::with_ballot(g.current_round(), id, votes)),
            g.players[i].id,
        )
    } by {
        game_laws::lemma_score_for_bound(
            round::scores_of(counted.current_round()),
            counted.players[i].id,
        );
        assert(-(game_model::scored_rounds(counted.state, counted.rounds.len()) * 0x8000_0000)
            <= counted.players[i].score <= game_model::scored_rounds(
            counted.state,
            counted.rounds.len(),
        ) * 0x8000_0000);
        assert(counted.rounds.len() <= game_settings::MAX_ROUNDS);
        assert(scored.players[i].score == counted.players[i].score + game_model::score_for(
            round::scores_of(counted.current_round()),
            counted.players[i].id,
        ));
        assert(counted.players[i].score == g.players[i].score);
        assert(next.players[i].score == scored.players[i].score);
    }
}

/// A player is a connected player of one room at most, and it is the room
/// that the manager has on record for them.
pub proof fn law_player_is_in_one_room(m: GameManagerSpec, id: u128, i: int, j: int)
    requires
        m.wf(),
        0 <= i < m.games.len(),
        0 <= j < m.games.len(),
        is_connected(m.games[i].players, id),
        is_connected(m.games[j].players, id),
    ensures
        i == j,
        m.is_in_a_game(id),
        m.seat_of(id) == i,
{
    assert(m.room_code_by_client_id[id] == m.games[i].room_code);
    assert(m.room_code_by_client_id[id] == m.games[j].room_code);
    assert(m.is_room(m.room_code_by_client_id[id], i));
    assert(m.is_room(m.room_code_by_client_id[id], j));
    lemma_room_of(m, m.room_code_by_client_id[id], i);
    lemma_room_of(m, m.room_code_by_client_id[id], j);
}

/// A room in order has at most [`game_model::MAX_PLAYERS`] players, no
/// two of the same identity or of the same name.
pub proof fn law_players_are_few_and_distinct(g: GameSpec, i: int, j: int)
    requires
        g.wf(),
        0 <= i < j < g.players.len(),
    ensures
        g.players.len() <= game_model::MAX_PLAYERS,
        g.players[i].id != g.players[j].id,
        g.players[i].name != g.players[j].name,
{
}

/// No two rooms of a manager have the same code.
pub proof fn law_room_codes_are_unique(m: GameManagerSpec, i: int, j: int)
    requires
        m.wf(),
        0 <= i < j < m.games.len(),
    ensures
        m.games[i].room_code != m.games[j].room_code,
{
}

/// Settings are taken from the host only, and only while players are waited
/// for; and the settings of a room in order name one to twenty-five rounds
/// and leave some deck in.
pub proof fn law_settings_are_for_the_host_of_a_waiting_room(
    g: GameSpec,
    id: u128,
    settings: GameSettingsSpec,
)
    requires
        g.wf(),
        g.settings_fault(id, settings) is None,
    ensures
        id == g.host_id,
        g.state == GameState::WaitingForPlayers,
        1 <= g.settings_applied(settings).settings.rounds <= game_settings::MAX_ROUNDS,
        game_settings::some_deck_included(
            g.settings_applied(settings).settings.drawing_decks_included,
        ),
{
    game_laws::lemma_settings_applied_wf(g, id, settings);
}

/// A room takes players only while it waits for players, and never a ninth.
pub proof fn law_only_waiting_rooms_take_players(g: GameSpec, id: u128)
    requires
        g.join_fault(id) is None,
    ensures
        g.state == GameState::WaitingForPlayers,
        g.players.len() < game_model::MAX_PLAYERS,
        !has_player(g.players, id),
{
}

/// Where it is looked whether voting is over outside a vote, nothing
/// happens: the votes of a round are added to the scores once, when the vote
/// ends.
pub proof fn law_scores_are_added_when_the_vote_ends(g: GameSpec, next: GameSpec)
    requires
        g.is_voting_settled(next),
    ensures
        g.state != GameState::VotingPhase ==> next == g,
        next != g ==> next.state != GameState::VotingPhase,
{
}

/// A player votes once in a round: after their ballot was counted, every
/// further ballot of theirs is turned down.
pub proof fn law_a_player_votes_once(entries: RoundSpec, id: u128, first: BallotSpec, second: BallotSpec)
    requires
        round::has_entry(entries, id),
    ensures
        ballot_fault(round::with_ballot(entries, id, first), id, second) is Some,
{
    let after = round::with_ballot(entries, id, first);
    let i = choose|i: int| 0 <= i < entries.len() && entries[i].player_id == id;
    assert(after[i].player_id == id);
    let k = choose|k: int| round::is_first_entry(after, id, k);
    assert(round::is_first_entry(after, id, k)) by {
        lemma_first_entry_exists(after, id, i);
    }
    assert(after[k].has_voted);
}

/// Where a player has an entry, one of their entries is the first.
pub proof fn lemma_first_entry_exists(entries: RoundSpec, id: u128, i: int)
    requires
        0 <= i < entries.len(),
        entries[i].player_id == id,
    ensures
        exists|k: int| round::is_first_entry(entries, id, k),
    decreases i,
{
    if exists|j: int| 0 <= j < i && entries[j].player_id == id {
        let j = choose|j: int| 0 <= j < i && entries[j].player_id == id;
        lemma_first_entry_exists(entries, id, j);
    } else {
        assert(round::is_first_entry(entries, id, i));
    }
}

/// No round of a room in order holds two entries for one player.
pub proof fn law_a_round_has_one_entry_for_each_player(g: GameSpec, k: int, i: int, j: int)
    requires
        g.wf(),
        0 <= k < g.rounds.len(),
        0 <= i < j < g.rounds[k].len(),
    ensures
        g.rounds[k][i].player_id != g.rounds[k][j].player_id,
{
    assert(round::distinct_players(g.rounds[k]));
}

/// Where the vote is over, another round is due and the deck cannot deal
/// it, the game ends as after the last round: the votes are added to the
/// scores, the room shows the results, and no round is added.
pub proof fn law_out_of_prompts_ends_the_game(g: GameSpec, next: GameSpec)
    requires
        g.wf(),
        g.is_out_of_prompts(),
        g.is_voting_settled(next),
    ensures
        next.wf(),
        next == g.scored().results_announced(),
        next.state == GameState::Results,
        next.rounds == g.rounds,
        next.curr_round == g.curr_round,
        next.deck == g.deck,
{
    game_laws::lemma_results_wf(g);
}

/// A game starts as soon as its first round can be dealt, and only then:
/// the decks handed over and the one prompt more must hold a prompt for
/// every player.
pub proof fn law_start_asks_for_the_first_round_only(g: GameSpec, id: u128, cards: nat)
    requires
        g.wf(),
        g.start_refusal(id) is None,
    ensures
        g.start_fault(id, cards) is None <==> g.players.len() <= cards + 1,
{
    lemma_all_connected(g.players);
}

/// Whether the entry is an entry of one of the rounds.
pub open spec fn is_entry_of(rounds: Seq<RoundSpec>, entry: round::RoundDataPerPlayerSpec) -> bool {
    exists|k: int, i: int|
        0 <= k < rounds.len() && 0 <= i < rounds[k].len() && (#[trigger] rounds[k][i]) == entry
}

/// The best among a seed and the entries of a round is the seed or one of
/// the entries, and has at least the votes of each.
pub proof fn lemma_best_in(entries: RoundSpec, seed: Option<round::RoundDataPerPlayerSpec>)
    ensures
        match game_model::best_in(entries, seed) {
            Some(best) => {
                &&& seed == Some(best) || exists|i: int|
                    0 <= i < entries.len() && (#[trigger] entries[i]) == best
                &&& seed matches Some(first) ==> best.votes >= first.votes
                &&& forall|i: int| 0 <= i < entries.len() ==> best.votes >= (#[trigger] entries[i]).votes
            },
            None => seed is None && entries.len() == 0,
        },
    decreases entries.len(),
{
    if entries.len() > 0 {
        let head = entries.drop_last();
        lemma_best_in(head, seed);
        let before = game_model::best_in(head, seed);
        let best = game_model::best_in(entries, seed).unwrap();
        assert(entries[entries.len() - 1] == entries.last());
        if before is Some && before != Some(best) {
            assert(best == entries[entries.len() - 1]);
        }
        if before == Some(best) && seed != Some(best) {
            let i = choose|i: int| 0 <= i < head.len() && (#[trigger] head[i]) == best;
            assert(entries[i] == best);
        }
        assert forall|i: int| 0 <= i < entries.len() implies best.votes >= (
        #[trigger] entries[i]).votes by {
            if i < head.len() {
                assert(head[i] == entries[i]);
            }
        }
    }
}

/// The drawing that is announced when a game ends has the most votes of all
/// rounds: it is an entry of one of them, and no entry of any round has more
/// votes. Nothing is announced only where no round holds an entry.
pub proof fn law_best_drawing_has_the_most_votes(rounds: Seq<RoundSpec>)
    ensures
        match game_model::best_over(rounds) {
            Some(best) => {
                &&& is_entry_of(rounds, best)
                &&& forall|k: int, i: int|
                    0 <= k < rounds.len() && 0 <= i < rounds[k].len() ==> best.votes >= (
                    #[trigger] rounds[k][i]).votes
            },
            None => forall|k: int| 0 <= k < rounds.len() ==> (#[trigger] rounds[k]).len() == 0,
        },
    decreases rounds.len(),
{
    if rounds.len() > 0 {
        let head = rounds.drop_last();
        let last = rounds.len() - 1;
        law_best_drawing_has_the_most_votes(head);
        let seed = game_model::best_over(head);
        lemma_best_in(rounds.last(), seed);
        assert forall|k: int| 0 <= k < head.len() implies head[k] == rounds[k] by {}
        match game_model::best_over(rounds) {
            Some(best) => {
                if seed == Some(best) {
                    let (k, i) = choose|k: int, i: int|
                        0 <= k < head.len() && 0 <= i < head[k].len() && (#[trigger] head[k][i])
                            == best;
                    assert(rounds[k][i] == best);
                } else {
                    let i = choose|i: int|
                        0 <= i < rounds.last().len() && (#[trigger] rounds.last()[i]) == best;
                    assert(rounds[last][i] == best);
                }
                assert forall|k: int, i: int|
                    0 <= k < rounds.len() && 0 <= i < rounds[k].len() implies best.votes >= (
                #[trigger] rounds[k][i]).votes by {
                    if k < last {
                        assert(head[k][i] == rounds[k][i]);
                        assert(seed.unwrap().votes >= head[k][i].votes);
                    } else {
                        assert(rounds.last()[i] == rounds[k][i]);
                    }
                }
            },
            None => {
                assert forall|k: int| 0 <= k < rounds.len() implies (#[trigger] rounds[k]).len()
                    == 0 by {
                    if k < last {
                        assert(head[k].len() == 0);
                    }
                }
            },
        }
    }
}

/// A room of eight takes nobody, whoever asks and whatever its phase.
pub proof fn law_full_room_takes_nobody(g: GameSpec, id: u128)
    requires
        g.players.len() >= game_model::MAX_PLAYERS,
    ensures
        g.join_fault(id) == Some(crate::errors::JoinGameError::GameFull),
{
}

/// A room of fewer than eight whose game has started takes nobody, whoever
/// asks.
pub proof fn law_started_room_takes_nobody(g: GameSpec, id: u128)
    requires
        g.players.len() < game_model::MAX_PLAYERS,
        g.state != GameState::WaitingForPlayers,
    ensures
        g.join_fault(id) == Some(crate::errors::JoinGameError::GameAlreadyStarted),
{
}

/// A player who plays nowhere and asks to join a room that is full or has
/// started is answered so, whether or not they were in that room before.
pub proof fn law_join_game_is_refused_by_the_room(
    m: GameManagerSpec,
    id: u128,
    code: Seq<char>,
    i: int,
)
    requires
        m.wf(),
        !m.is_in_a_game(id),
        m.is_room(code, i),
    ensures
        m.games[i].players.len() >= game_model::MAX_PLAYERS ==> m.join_fault(id, code) == Some(
            crate::errors::JoinGameError::GameFull,
        ),
        m.games[i].players.len() < game_model::MAX_PLAYERS && m.games[i].state
            != GameState::WaitingForPlayers ==> m.join_fault(id, code) == Some(
            crate::errors::JoinGameError::GameAlreadyStarted,
        ),
{
    lemma_room_of(m, code, i);
}

} // verus!
