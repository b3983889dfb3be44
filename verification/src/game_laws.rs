//! What holds of every room: each command leaves a room that is in order in
//! order.

use crate::deck_repository::available_deck_names;
use crate::game::GameState;
use crate::game_model::{
    all_disconnected, elected_host, has_player, host_wf, is_first_connected, names_of, roster_wf,
    score_for, scored_rounds, settings_wf, with_all_states, with_disconnected, with_player_state,
    with_scores_added, with_scores_reset, without_disconnected, without_player, BroadcastSpec,
    GameSpec,
};
use crate::game_settings::{lemma_merge_keeps_a_deck, GameSettingsSpec};
use crate::imprint_mapper::ImprintMapSpec;
use crate::player_view::{PlayerSpec, PlayerState};
use crate::round::{
    assembled, connected_count, has_entry, is_new_round, lemma_assembled_len, scores_of,
    with_ballot, with_drawing, BallotSpec, RoundSpec,
};
use crate::text::{free_name, lemma_free_name_number, trimmed};
use crate::{drawing, round};
use vstd::prelude::*;

verus! {

/// Whether `kept` holds players of `players` in their order: the one at each
/// place of `kept` is the one of `players` at the place `at` names.
pub open spec fn is_kept_by(kept: Seq<PlayerSpec>, players: Seq<PlayerSpec>, at: Seq<int>) -> bool {
    &&& at.len() == kept.len()
    &&& forall|i: int| 0 <= i < at.len() ==> 0 <= #[trigger] at[i] < players.len()
    &&& forall|i: int, j: int| 0 <= i < j < at.len() ==> #[trigger] at[i] < #[trigger] at[j]
    &&& forall|i: int| 0 <= i < kept.len() ==> #[trigger] kept[i] == players[at[i]]
}

/// Where nobody but the given player is taken off, the players kept are
/// those of another identity, in their order.
pub proof fn lemma_without_player(players: Seq<PlayerSpec>, id: u128) -> (at: Seq<int>)
    ensures
        is_kept_by(without_player(players, id), players, at),
        forall|i: int| 0 <= i < at.len() ==> players[#[trigger] at[i]].id != id,
        forall|k: int|
            0 <= k < players.len() && (#[trigger] players[k]).id != id ==> exists|i: int|
                0 <= i < at.len() && at[i] == k,
    decreases players.len(),
{
    if players.len() == 0 {
        Seq::empty()
    } else {
        let head = lemma_without_player(players.drop_last(), id);
        let last = players.len() - 1;
        let at = if players.last().id == id {
            head
        } else {
            head.push(last)
        };
        assert forall|k: int| 0 <= k < players.len() && (#[trigger] players[k]).id != id implies exists|
            i: int,
        |
            0 <= i < at.len() && at[i] == k by {
            if k < last {
                assert(players.drop_last()[k].id != id);
                let i = choose|i: int| 0 <= i < head.len() && head[i] == k;
                assert(at[i] == k);
            } else {
                assert(at[at.len() - 1] == k);
            }
        }
        at
    }
}

/// The players kept when those who left are taken off are the connected
/// ones, in their order.
pub proof fn lemma_without_disconnected(players: Seq<PlayerSpec>) -> (at: Seq<int>)
    ensures
        is_kept_by(without_disconnected(players), players, at),
        forall|i: int| 0 <= i < at.len() ==> !players[#[trigger] at[i]].is_disconnected,
        forall|k: int|
            0 <= k < players.len() && !(#[trigger] players[k]).is_disconnected ==> exists|i: int|
                0 <= i < at.len() && at[i] == k,
    decreases players.len(),
{
    if players.len() == 0 {
        Seq::empty()
    } else {
        let head = lemma_without_disconnected(players.drop_last());
        let last = players.len() - 1;
        let at = if players.last().is_disconnected {
            head
        } else {
            head.push(last)
        };
        assert forall|k: int|
            0 <= k < players.len() && !(#[trigger] players[k]).is_disconnected implies exists|i: int|
            0 <= i < at.len() && at[i] == k by {
            if k < last {
                assert(!players.drop_last()[k].is_disconnected);
                let i = choose|i: int| 0 <= i < head.len() && head[i] == k;
                assert(at[i] == k);
            } else {
                assert(at[at.len() - 1] == k);
            }
        }
        at
    }
}

/// Players kept from a roster in order are a roster in order.
pub proof fn lemma_kept_roster(
    kept: Seq<PlayerSpec>,
    players: Seq<PlayerSpec>,
    at: Seq<int>,
    last_rank: usize,
)
    requires
        roster_wf(players, last_rank),
        is_kept_by(kept, players, at),
    ensures
        roster_wf(kept, last_rank),
        kept.len() <= players.len(),
{
    lemma_rising_is_short(at, players.len() as int);
    assert forall|i: int, j: int| 0 <= i < j < kept.len() implies (#[trigger] kept[i]).id != (
    #[trigger] kept[j]).id by {
        assert(at[i] < at[j]);
    }
    assert forall|i: int, j: int| 0 <= i < j < kept.len() implies (#[trigger] kept[i]).name != (
    #[trigger] kept[j]).name by {
        assert(at[i] < at[j]);
    }
    assert forall|i: int, j: int| 0 <= i < j < kept.len() implies (#[trigger] kept[i]).host_rank < (
    #[trigger] kept[j]).host_rank by {
        assert(at[i] < at[j]);
    }
    assert forall|i: int| 0 <= i < kept.len() implies (#[trigger] kept[i]).host_rank <= last_rank by {
        assert(kept[i] == players[at[i]]);
    }
}

/// Rising places below `n` are at most `n`.
pub proof fn lemma_rising_is_short(at: Seq<int>, n: int)
    requires
        0 <= n,
        forall|i: int| 0 <= i < at.len() ==> 0 <= #[trigger] at[i] < n,
        forall|i: int, j: int| 0 <= i < j < at.len() ==> #[trigger] at[i] < #[trigger] at[j],
    ensures
        at.len() <= n,
        forall|i: int| 0 <= i < at.len() ==> i <= #[trigger] at[i],
    decreases at.len(),
{
    if at.len() > 0 {
        let head = at.drop_last();
        assert(0 <= at[at.len() - 1] < n);
        assert forall|i: int| 0 <= i < head.len() implies 0 <= #[trigger] head[i] < n - 1 by {
            assert(at[i] < at[at.len() - 1]);
        }
        assert forall|i: int, j: int| 0 <= i < j < head.len() implies #[trigger] head[i]
            < #[trigger] head[j] by {
            assert(at[i] < at[j]);
        }
        lemma_rising_is_short(head, n - 1);
        assert forall|i: int| 0 <= i < at.len() implies i <= #[trigger] at[i] by {
            if i < head.len() {
                assert(i <= head[i]);
            } else if head.len() > 0 {
                assert(head[head.len() - 1] == at[head.len() - 1]);
                assert(at[head.len() - 1] < at[i]);
            }
        }
        assert(at.len() - 1 <= at[at.len() - 1]);
    }
}

/// Where somebody is connected, somebody is the first who is.
pub proof fn lemma_first_connected_exists(players: Seq<PlayerSpec>) -> (k: int)
    requires
        !all_disconnected(players),
    ensures
        is_first_connected(players, k),
    decreases players.len(),
{
    let head = players.drop_last();
    if all_disconnected(head) {
        let k = players.len() - 1;
        assert forall|j: int| 0 <= j < k implies (#[trigger] players[j]).is_disconnected by {
            assert(head[j].is_disconnected);
        }
        k
    } else {
        let k = lemma_first_connected_exists(head);
        assert forall|j: int| 0 <= j < k implies (#[trigger] players[j]).is_disconnected by {
            assert(head[j].is_disconnected);
        }
        assert(players[k] == head[k]);
        k
    }
}

/// After an election the host is the connected player who joined first.
pub proof fn lemma_elected_host(players: Seq<PlayerSpec>, current: u128)
    ensures
        host_wf(players, elected_host(players, current)),
{
    if !all_disconnected(players) {
        let k = lemma_first_connected_exists(players);
        let c = choose|i: int| is_first_connected(players, i);
        assert(is_first_connected(players, c));
        assert(players[c].id == elected_host(players, current));
    }
}

/// Only one player is the first connected one.
pub proof fn lemma_first_connected_unique(players: Seq<PlayerSpec>, a: int, b: int)
    requires
        is_first_connected(players, a),
        is_first_connected(players, b),
    ensures
        a == b,
{
    if a < b {
        assert(players[a].is_disconnected);
    } else if b < a {
        assert(players[b].is_disconnected);
    }
}

/// A room that was just opened is in order.
pub proof fn lemma_created_wf(room_code: Seq<char>, host_id: u128, host_name: Seq<char>)
    ensures
        GameSpec::created(room_code, host_id, host_name).wf(),
{
    let g = GameSpec::created(room_code, host_id, host_name);
    assert(g.players =~= seq![PlayerSpec::fresh(host_id, host_name, 0)]);
    assert(is_first_connected(g.players, 0));
    assert(g.players[0].id == host_id);
    assert(available_deck_names().len() == 10);
    assert(g.settings.drawing_decks_included[0].1);
}

/// The players of a room with a rank to spare are those of the room, ranked
/// anew or not, and their roster is in order if that of the room is.
pub proof fn lemma_ranks_to_spare(g: GameSpec)
    requires
        roster_wf(g.players, g.last_player_host_rank),
    ensures
        ({
            let spare = g.with_ranks_to_spare();
            &&& roster_wf(spare.players, spare.last_player_host_rank)
            &&& spare.players.len() == g.players.len()
            &&& spare.players.len() < usize::MAX ==> spare.last_player_host_rank < usize::MAX
            &&& forall|i: int|
                0 <= i < g.players.len() ==> (#[trigger] spare.players[i]) == (PlayerSpec {
                    host_rank: spare.players[i].host_rank,
                    ..g.players[i]
                })
            &&& g.last_player_host_rank < usize::MAX ==> spare == g
        }),
{
    let spare = g.with_ranks_to_spare();
    if g.last_player_host_rank == usize::MAX {
        assert forall|i: int, j: int| 0 <= i < j < spare.players.len() implies (
        #[trigger] spare.players[i]).id != (#[trigger] spare.players[j]).id by {
            assert(g.players[i].id != g.players[j].id);
        }
        assert forall|i: int, j: int| 0 <= i < j < spare.players.len() implies (
        #[trigger] spare.players[i]).name != (#[trigger] spare.players[j]).name by {
            assert(g.players[i].name != g.players[j].name);
        }
    }
}

/// A room in order is in order after a player joined.
pub proof fn lemma_joined_wf(g: GameSpec, id: u128, proposed_name: Seq<char>)
    requires
        g.wf(),
        g.join_fault(id) is None,
    ensures
        g.joined(id, proposed_name).wf(),
{
    let next = g.joined(id, proposed_name);
    let taken = names_of(g.players);
    let name = free_name(taken, trimmed(proposed_name));
    let spare = g.with_ranks_to_spare();
    let rank = (spare.last_player_host_rank + 1) as usize;
    let joiner = PlayerSpec::fresh(id, name, rank);
    lemma_free_name_number(taken, trimmed(proposed_name));
    lemma_ranks_to_spare(g);
    let old = spare.players;
    assert(next.players == old.push(joiner));
    assert forall|i: int| 0 <= i < old.len() implies (#[trigger] old[i]).name != name && old[i].id
        != id by {
        assert(taken[i] == g.players[i].name);
        assert(g.players[i].id != id);
    }
    assert forall|i: int, j: int| 0 <= i < j < next.players.len() implies (
    #[trigger] next.players[i]).id != (#[trigger] next.players[j]).id by {
        if j < old.len() {
            assert(old[i].id != old[j].id);
        } else {
            assert(old[i].id != id);
        }
    }
    assert forall|i: int, j: int| 0 <= i < j < next.players.len() implies (
    #[trigger] next.players[i]).name != (#[trigger] next.players[j]).name by {
        if j < old.len() {
            assert(old[i].name != old[j].name);
        } else {
            assert(old[i].name != name);
        }
    }
    assert forall|i: int, j: int| 0 <= i < j < next.players.len() implies (
    #[trigger] next.players[i]).host_rank < (#[trigger] next.players[j]).host_rank by {
        if j < old.len() {
            assert(old[i].host_rank < old[j].host_rank);
        } else {
            assert(old[i].host_rank <= spare.last_player_host_rank);
        }
    }
    assert forall|i: int| 0 <= i < next.players.len() implies (
    #[trigger] next.players[i]).host_rank <= rank by {
        if i < old.len() {
            assert(old[i].host_rank <= spare.last_player_host_rank);
        }
    }
    assert(roster_wf(next.players, next.last_player_host_rank));
    lemma_elected_host(next.players, g.host_id);
    assert forall|i: int| 0 <= i < next.players.len() implies !(
    #[trigger] next.players[i]).is_disconnected by {
        if i < old.len() {
            assert(!g.players[i].is_disconnected);
            assert(old[i].is_disconnected == g.players[i].is_disconnected);
        }
    }
    assert forall|i: int| 0 <= i < next.players.len() implies (#[trigger] next.players[i]).score
        == 0 by {
        if i < old.len() {
            assert(g.players[i].score == 0);
            assert(old[i].score == g.players[i].score);
        }
    }
}

/// A room in order is in order after settings were taken.
pub proof fn lemma_settings_applied_wf(g: GameSpec, id: u128, settings: GameSettingsSpec)
    requires
        g.wf(),
        g.settings_fault(id, settings) is None,
    ensures
        g.settings_applied(settings).wf(),
{
    lemma_merge_keeps_a_deck(g.settings.drawing_decks_included, settings.drawing_decks_included);
}

/// Marking a player as disconnected, or changing the state of players or
/// their scores within bounds, leaves the order of the roster as it is.
pub proof fn lemma_same_roster(before: Seq<PlayerSpec>, after: Seq<PlayerSpec>, last_rank: usize)
    requires
        roster_wf(before, last_rank),
        after.len() == before.len(),
        forall|i: int|
            0 <= i < before.len() ==> (#[trigger] after[i]).id == before[i].id && after[i].name
                == before[i].name && after[i].host_rank == before[i].host_rank,
    ensures
        roster_wf(after, last_rank),
{
    assert forall|i: int, j: int| 0 <= i < j < after.len() implies (#[trigger] after[i]).id != (
    #[trigger] after[j]).id by {
        assert(before[i].id != before[j].id);
    }
    assert forall|i: int, j: int| 0 <= i < j < after.len() implies (#[trigger] after[i]).name != (
    #[trigger] after[j]).name by {
        assert(before[i].name != before[j].name);
    }
    assert forall|i: int, j: int| 0 <= i < j < after.len() implies (#[trigger] after[i]).host_rank < (
    #[trigger] after[j]).host_rank by {
        assert(before[i].host_rank < before[j].host_rank);
    }
    assert forall|i: int| 0 <= i < after.len() implies (#[trigger] after[i]).host_rank
        <= last_rank by {
        assert(before[i].host_rank <= last_rank);
    }
}

/// Changing the state of players does not change who is host.
pub proof fn lemma_same_host(before: Seq<PlayerSpec>, after: Seq<PlayerSpec>, host_id: u128)
    requires
        host_wf(before, host_id),
        after.len() == before.len(),
        forall|i: int|
            0 <= i < before.len() ==> (#[trigger] after[i]).id == before[i].id
                && after[i].is_disconnected == before[i].is_disconnected,
    ensures
        host_wf(after, host_id),
{
    if !all_disconnected(after) {
        let w = choose|i: int| 0 <= i < after.len() && !(#[trigger] after[i]).is_disconnected;
        assert(!before[w].is_disconnected);
        let k = choose|i: int| is_first_connected(before, i) && (#[trigger] before[i]).id == host_id;
        assert forall|j: int| 0 <= j < k implies (#[trigger] after[j]).is_disconnected by {
            assert(before[j].is_disconnected);
        }
        assert(is_first_connected(after, k));
        assert(after[k].id == host_id);
    }
}

/// The round for the connected players of a room holds an entry for each of
/// them, and for nobody else.
pub proof fn lemma_assembled_entries(
    players: Seq<PlayerSpec>,
    deck: Seq<Seq<char>>,
    handed: ImprintMapSpec,
    drawing_ids: Seq<u128>,
)
    ensures
        forall|i: int|
            0 <= i < players.len() && !(#[trigger] players[i]).is_disconnected ==> has_entry(
                assembled(players, deck, handed, drawing_ids),
                players[i].id,
            ),
        forall|k: int|
            0 <= k < assembled(players, deck, handed, drawing_ids).len() ==> round::is_connected(
                players,
                (#[trigger] assembled(players, deck, handed, drawing_ids)[k]).player_id,
            ),
    decreases players.len(),
{
    if players.len() > 0 {
        let head = players.drop_last();
        let rest = assembled(head, deck, handed, drawing_ids);
        let all = assembled(players, deck, handed, drawing_ids);
        lemma_assembled_entries(head, deck, handed, drawing_ids);
        assert forall|i: int|
            0 <= i < players.len() && !(#[trigger] players[i]).is_disconnected implies has_entry(
            all,
            players[i].id,
        ) by {
            if i < head.len() {
                assert(!head[i].is_disconnected);
                let k = choose|k: int| 0 <= k < rest.len() && rest[k].player_id == head[i].id;
                assert(all[k].player_id == players[i].id);
            } else {
                assert(all[all.len() - 1].player_id == players[i].id);
            }
        }
        assert forall|k: int| 0 <= k < all.len() implies round::is_connected(
            players,
            (#[trigger] all[k]).player_id,
        ) by {
            if k < rest.len() {
                assert(all[k] == rest[k]);
                let i = choose|i: int|
                    0 <= i < head.len() && head[i].id == rest[k].player_id
                        && !head[i].is_disconnected;
                assert(players[i] == head[i]);
            } else {
                assert(players[players.len() - 1].id == all[k].player_id);
            }
        }
    }
}

/// No room has more connected players than players.
pub proof fn lemma_connected_count_bound(players: Seq<PlayerSpec>)
    ensures
        connected_count(players) <= players.len(),
    decreases players.len(),
{
    if players.len() > 0 {
        lemma_connected_count_bound(players.drop_last());
    }
}

/// Whether the next round can begin in the room: it has rounds to come, a
/// deck with a prompt for every connected player, and no score beyond what
/// the rounds so far can have given.
pub open spec fn ready_for_round(g: GameSpec) -> bool {
    &&& roster_wf(g.players, g.last_player_host_rank)
    &&& settings_wf(g.settings)
    &&& host_wf(g.players, g.host_id)
    &&& g.rounds.len() < g.settings.rounds
    &&& g.deck matches Some(cards)
    &&& connected_count(g.players) <= cards.len()
    &&& forall|k: int| 0 <= k < g.rounds.len() ==> round::distinct_players(#[trigger] g.rounds[k])
    &&& forall|i: int|
        0 <= i < g.players.len() ==> -(g.rounds.len() * 0x8000_0000) <= (#[trigger] g.players[i]).score
            <= g.rounds.len() * 0x8000_0000
}

/// The round for the connected players of a roster without an identity
/// twice holds no two entries for one player.
pub proof fn lemma_assembled_distinct(
    players: Seq<PlayerSpec>,
    deck: Seq<Seq<char>>,
    handed: ImprintMapSpec,
    drawing_ids: Seq<u128>,
)
    requires
        round::distinct_identities(players),
    ensures
        round::distinct_players(assembled(players, deck, handed, drawing_ids)),
    decreases players.len(),
{
    if players.len() > 0 {
        let head = players.drop_last();
        let rest = assembled(head, deck, handed, drawing_ids);
        let all = assembled(players, deck, handed, drawing_ids);
        assert forall|i: int, j: int| 0 <= i < j < head.len() implies (#[trigger] head[i]).id != (
        #[trigger] head[j]).id by {
            assert(players[i].id != players[j].id);
        }
        assert(round::distinct_identities(head));
        lemma_assembled_distinct(head, deck, handed, drawing_ids);
        lemma_assembled_entries(head, deck, handed, drawing_ids);
        assert forall|i: int, j: int| 0 <= i < j < all.len() implies (#[trigger] all[i]).player_id != (
        #[trigger] all[j]).player_id by {
            if j < rest.len() {
                assert(rest[i].player_id != rest[j].player_id);
            } else {
                assert(all[i] == rest[i]);
                assert(round::is_connected(head, rest[i].player_id));
                let k = choose|k: int|
                    0 <= k < head.len() && head[k].id == rest[i].player_id
                        && !head[k].is_disconnected;
                assert(players[k].id != players[players.len() - 1].id);
            }
        }
    }
}

/// Rosters that agree place by place on who is connected have as many
/// connected players.
pub proof fn lemma_connected_count_same(a: Seq<PlayerSpec>, b: Seq<PlayerSpec>)
    requires
        a.len() == b.len(),
        forall|i: int| 0 <= i < a.len() ==> (#[trigger] a[i]).is_disconnected == b[i].is_disconnected,
    ensures
        connected_count(a) == connected_count(b),
    decreases a.len(),
{
    if a.len() > 0 {
        assert(a.last().is_disconnected == b[b.len() - 1].is_disconnected);
        assert forall|i: int| 0 <= i < a.drop_last().len() implies (
        #[trigger] a.drop_last()[i]).is_disconnected == b.drop_last()[i].is_disconnected by {
            assert(a[i].is_disconnected == b[i].is_disconnected);
        }
        lemma_connected_count_same(a.drop_last(), b.drop_last());
    }
}

/// A room that was ready for the next round is in order once it began.
pub proof fn lemma_next_round_wf(g: GameSpec, next: GameSpec)
    requires
        ready_for_round(g),
        g.is_next_round(next),
    ensures
        next.wf(),
        next.state == GameState::DrawingPhase,
{
    let (imprints, entries) = choose|imprints: ImprintMapSpec, entries: RoundSpec|
        #![trigger is_new_round(entries, g.players, g.deck.unwrap(), imprints)]
        is_new_round(entries, g.players, g.deck.unwrap(), imprints) && next == g.round_opened(
            entries,
        );
    let (handed, drawing_ids) = choose|handed: ImprintMapSpec, drawing_ids: Seq<u128>|
        entries == #[trigger] assembled(g.players, g.deck.unwrap(), handed, drawing_ids);
    lemma_assembled_entries(g.players, g.deck.unwrap(), handed, drawing_ids);
    lemma_assembled_len(g.players, g.deck.unwrap(), handed, drawing_ids);
    assert(round::distinct_identities(g.players));
    lemma_assembled_distinct(g.players, g.deck.unwrap(), handed, drawing_ids);
    let drawing = with_all_states(g.players, PlayerState::Drawing);
    assert(next.players == drawing);
    lemma_same_roster(g.players, drawing, g.last_player_host_rank);
    lemma_same_host(g.players, drawing, g.host_id);
    assert(next.rounds.last() == entries);
    assert forall|k: int| 0 <= k < next.rounds.len() implies round::distinct_players(
        #[trigger] next.rounds[k],
    ) by {
        if k < g.rounds.len() {
            assert(next.rounds[k] == g.rounds[k]);
        }
    }
    assert forall|i: int|
        0 <= i < next.players.len() && !(#[trigger] next.players[i]).is_disconnected implies has_entry(
        next.rounds.last(),
        next.players[i].id,
    ) by {
        assert(!g.players[i].is_disconnected);
    }
    assert forall|i: int| 0 <= i < next.players.len() implies -(scored_rounds(
        next.state,
        next.rounds.len(),
    ) * 0x8000_0000) <= (#[trigger] next.players[i]).score <= scored_rounds(
        next.state,
        next.rounds.len(),
    ) * 0x8000_0000 by {
        assert(next.players[i].score == g.players[i].score);
    }
}

/// A room in order is in order when its players change state only.
pub proof fn lemma_states_wf(g: GameSpec, players: Seq<PlayerSpec>)
    requires
        g.wf(),
        players.len() == g.players.len(),
        forall|i: int|
            0 <= i < players.len() ==> (#[trigger] players[i]) == (PlayerSpec {
                state: players[i].state,
                ..g.players[i]
            }),
    ensures
        g.with_players(players).wf(),
{
    lemma_same_roster(g.players, players, g.last_player_host_rank);
    lemma_same_host(g.players, players, g.host_id);
    assert forall|i: int| 0 <= i < players.len() implies -(scored_rounds(g.state, g.rounds.len())
        * 0x8000_0000) <= (#[trigger] players[i]).score <= scored_rounds(g.state, g.rounds.len())
        * 0x8000_0000 by {
        assert(players[i].score == g.players[i].score);
    }
    if g.state == GameState::WaitingForPlayers {
        assert forall|i: int| 0 <= i < players.len() implies !(
        #[trigger] players[i]).is_disconnected by {
            assert(!g.players[i].is_disconnected);
        }
    } else {
        assert forall|i: int|
            0 <= i < players.len() && !(#[trigger] players[i]).is_disconnected implies has_entry(
            g.rounds.last(),
            players[i].id,
        ) by {
            assert(!g.players[i].is_disconnected);
        }
    }
}

/// A room in order is in order after it looked whether drawing is over.
pub proof fn lemma_drawing_settled_wf(g: GameSpec)
    requires
        g.wf(),
    ensures
        g.drawing_settled().wf(),
{
    if g.state == GameState::DrawingPhase && round::done_drawing(g.current_round(), g.players) {
        let sent = g.announce(BroadcastSpec::VotingBallot);
        let voting = with_all_states(sent.players, PlayerState::Voting);
        lemma_states_wf(sent, voting);
        let opened = GameSpec { state: GameState::VotingPhase, ..sent.with_players(voting) };
        assert(opened.wf());
    }
}

/// Scores after a round was added are within what one more round can give.
pub proof fn lemma_score_for_bound(scores: Seq<(u128, i32)>, id: u128)
    ensures
        -0x8000_0000 <= score_for(scores, id) < 0x8000_0000,
    decreases scores.len(),
{
    if scores.len() > 0 && scores[0].0 != id {
        lemma_score_for_bound(scores.drop_first(), id);
    }
}

/// A room in order that is voting is, with the votes of the round added to
/// the scores, ready for the next round if one is due and its deck has a
/// prompt for every connected player.
pub proof fn lemma_scored(g: GameSpec)
    requires
        g.wf(),
        g.state == GameState::VotingPhase,
    ensures
        g.curr_round != Some(g.settings.rounds) && connected_count(g.players)
            <= g.deck.unwrap().len() ==> ready_for_round(g.scored()),
        connected_count(g.scored().players) == connected_count(g.players),
        roster_wf(g.scored().players, g.last_player_host_rank),
        host_wf(g.scored().players, g.host_id),
        forall|i: int|
            0 <= i < g.players.len() ==> -(g.rounds.len() * 0x8000_0000) <= (
            #[trigger] g.scored().players[i]).score <= g.rounds.len() * 0x8000_0000,
        forall|i: int|
            0 <= i < g.players.len() ==> (#[trigger] g.scored().players[i]) == (PlayerSpec {
                score: g.scored().players[i].score,
                ..g.players[i]
            }),
{
    let scores = scores_of(g.current_round());
    let after = with_scores_added(g.players, scores);
    assert(g.scored().players == after);
    lemma_connected_count_same(g.players, after);
    lemma_same_roster(g.players, after, g.last_player_host_rank);
    lemma_same_host(g.players, after, g.host_id);
    assert forall|i: int| 0 <= i < g.players.len() implies -(g.rounds.len() * 0x8000_0000) <= (
    #[trigger] after[i]).score <= g.rounds.len() * 0x8000_0000 by {
        lemma_score_for_bound(scores, g.players[i].id);
        assert(-((g.rounds.len() - 1) * 0x8000_0000) <= g.players[i].score <= (g.rounds.len() - 1)
            * 0x8000_0000);
    }
}

/// A room in order is in order after the round that is played was scored
/// and the results were announced.
pub proof fn lemma_results_wf(g: GameSpec)
    requires
        g.wf(),
        g.state == GameState::VotingPhase,
    ensures
        g.scored().results_announced().wf(),
{
    lemma_scored(g);
    let s = g.scored();
    let idle = with_all_states(s.players, PlayerState::NotReady);
    lemma_same_roster(s.players, idle, g.last_player_host_rank);
    lemma_same_host(s.players, idle, g.host_id);
    let over = GameSpec { state: GameState::Results, players: idle, ..s };
    assert forall|i: int| 0 <= i < idle.len() implies -(scored_rounds(over.state, over.rounds.len())
        * 0x8000_0000) <= (#[trigger] idle[i]).score <= scored_rounds(over.state, over.rounds.len())
        * 0x8000_0000 by {
        assert(idle[i].score == s.players[i].score);
    }
    assert forall|i: int|
        0 <= i < idle.len() && !(#[trigger] idle[i]).is_disconnected implies has_entry(
        over.rounds.last(),
        idle[i].id,
    ) by {
        assert(!g.players[i].is_disconnected);
        assert(s.players[i].id == g.players[i].id);
    }
    assert(over.wf());
}

/// A room in order is in order after it looked whether voting is over.
pub proof fn lemma_voting_settled_wf(g: GameSpec, next: GameSpec)
    requires
        g.wf(),
        g.is_voting_settled(next),
    ensures
        next.wf(),
{
    if g.vote_is_over() {
        if g.curr_round == Some(g.settings.rounds) || g.is_out_of_prompts() {
            lemma_results_wf(g);
        } else {
            lemma_scored(g);
            lemma_next_round_wf(g.scored(), next);
        }
    }
}

/// A room in order in which a game runs is in order after a player was
/// marked as disconnected and the host elected.
pub proof fn lemma_marked_wf(g: GameSpec, id: u128)
    requires
        g.wf(),
        g.state == GameState::DrawingPhase || g.state == GameState::VotingPhase,
    ensures
        g.with_players(with_disconnected(g.players, id)).rehosted().wf(),
{
    let marked = with_disconnected(g.players, id);
    lemma_same_roster(g.players, marked, g.last_player_host_rank);
    lemma_elected_host(marked, g.host_id);
    assert forall|i: int| 0 <= i < marked.len() implies -(scored_rounds(g.state, g.rounds.len())
        * 0x8000_0000) <= (#[trigger] marked[i]).score <= scored_rounds(g.state, g.rounds.len())
        * 0x8000_0000 by {
        assert(marked[i].score == g.players[i].score);
    }
    assert forall|i: int|
        0 <= i < marked.len() && !(#[trigger] marked[i]).is_disconnected implies has_entry(
        g.rounds.last(),
        marked[i].id,
    ) by {
        assert(!g.players[i].is_disconnected);
    }
}

/// A room in order in which no game runs is in order after a player was
/// taken off and the host elected.
pub proof fn lemma_departed_wf(g: GameSpec, id: u128)
    requires
        g.wf(),
        g.state == GameState::WaitingForPlayers || g.state == GameState::Results,
    ensures
        g.with_players(without_player(g.players, id)).rehosted().wf(),
{
    let kept = without_player(g.players, id);
    let at = lemma_without_player(g.players, id);
    lemma_kept_roster(kept, g.players, at, g.last_player_host_rank);
    lemma_elected_host(kept, g.host_id);
    assert forall|i: int| 0 <= i < kept.len() implies -(scored_rounds(g.state, g.rounds.len())
        * 0x8000_0000) <= (#[trigger] kept[i]).score <= scored_rounds(g.state, g.rounds.len())
        * 0x8000_0000 by {
        assert(kept[i] == g.players[at[i]]);
    }
    if g.state == GameState::WaitingForPlayers {
        assert forall|i: int| 0 <= i < kept.len() implies !(#[trigger] kept[i]).is_disconnected by {
            assert(kept[i] == g.players[at[i]]);
        }
    } else {
        assert forall|i: int|
            0 <= i < kept.len() && !(#[trigger] kept[i]).is_disconnected implies has_entry(
            g.rounds.last(),
            kept[i].id,
        ) by {
            assert(kept[i] == g.players[at[i]]);
        }
    }
}

/// A room in order is in order after the connection of a player closed.
pub proof fn lemma_disconnect_wf(g: GameSpec, next: GameSpec, id: u128)
    requires
        g.wf(),
        g.is_disconnect(next, id),
    ensures
        next.wf(),
{
    if has_player(g.players, id) {
        match g.state {
            GameState::WaitingForPlayers | GameState::Results => {
                lemma_departed_wf(g, id);
            },
            GameState::DrawingPhase => {
                lemma_marked_wf(g, id);
                let marked = g.with_players(with_disconnected(g.players, id)).rehosted();
                lemma_drawing_settled_wf(marked);
            },
            GameState::VotingPhase => {
                lemma_marked_wf(g, id);
                let marked = g.with_players(with_disconnected(g.players, id)).rehosted();
                if !all_disconnected(marked.players) {
                    let settled = choose|settled: GameSpec|
                        marked.is_voting_settled(settled) && next == #[trigger] settled.announce(
                            BroadcastSpec::Lobby,
                        );
                    lemma_voting_settled_wf(marked, settled);
                }
            },
        }
    }
}

/// A room in order is in order after the host asked to play again.
pub proof fn lemma_replayed_wf(g: GameSpec)
    requires
        g.wf(),
    ensures
        g.replayed().wf(),
{
    let kept = without_disconnected(g.players);
    let at = lemma_without_disconnected(g.players);
    lemma_kept_roster(kept, g.players, at, g.last_player_host_rank);
    let reset = with_scores_reset(kept);
    lemma_same_roster(kept, reset, g.last_player_host_rank);
    assert(g.replayed().players == reset);
    assert forall|i: int| 0 <= i < reset.len() implies !(#[trigger] reset[i]).is_disconnected by {
        assert(kept[i] == g.players[at[i]]);
    }
    if !all_disconnected(reset) {
        assert(kept.len() > 0);
        assert(!g.players[at[0]].is_disconnected);
        let k = choose|i: int| is_first_connected(g.players, i) && (#[trigger] g.players[i]).id == g.host_id;
        let i = choose|i: int| 0 <= i < at.len() && at[i] == k;
        if i > 0 {
            assert(at[0] < at[i]);
            assert(g.players[at[0]].is_disconnected);
        }
        assert(at[0] == k);
        assert(reset[0].id == g.host_id);
        assert(is_first_connected(reset, 0));
    }
}

/// A room in order is in order after a player said whether they are ready.
pub proof fn lemma_readied_wf(g: GameSpec, id: u128, ready: bool)
    requires
        g.wf(),
    ensures
        g.readied(id, ready).wf(),
{
    let state = if ready {
        PlayerState::Ready
    } else {
        PlayerState::NotReady
    };
    lemma_states_wf(g, with_player_state(g.players, id, state));
}

/// Recording a drawing or counting a ballot leaves the players of a round
/// as they are.
pub proof fn lemma_same_entries(before: RoundSpec, after: RoundSpec, id: u128)
    requires
        after.len() == before.len(),
        forall|i: int| 0 <= i < before.len() ==> (#[trigger] after[i]).player_id == before[i].player_id,
    ensures
        has_entry(before, id) ==> has_entry(after, id),
{
    if has_entry(before, id) {
        let i = choose|i: int| 0 <= i < before.len() && before[i].player_id == id;
        assert(after[i].player_id == id);
    }
}

/// A room in order with a round is in order when the round that is played
/// is replaced by one of the same players.
pub proof fn lemma_round_replaced_wf(g: GameSpec, round: RoundSpec)
    requires
        g.wf(),
        g.rounds.len() > 0,
        round.len() == g.current_round().len(),
        forall|i: int|
            0 <= i < round.len() ==> (#[trigger] round[i]).player_id == g.current_round()[i].player_id,
    ensures
        g.with_current_round(round).wf(),
{
    let next = g.with_current_round(round);
    assert(next.rounds.last() == round);
    assert forall|i: int|
        0 <= i < next.players.len() && !(#[trigger] next.players[i]).is_disconnected implies has_entry(
        next.rounds.last(),
        next.players[i].id,
    ) by {
        lemma_same_entries(g.current_round(), round, next.players[i].id);
    }
    assert forall|k: int| 0 <= k < next.rounds.len() implies round::distinct_players(
        #[trigger] next.rounds[k],
    ) by {
        if k < g.rounds.len() - 1 {
            assert(next.rounds[k] == g.rounds[k]);
        } else {
            assert(round::distinct_players(g.rounds[k]));
            assert forall|i: int, j: int| 0 <= i < j < round.len() implies (
            #[trigger] round[i]).player_id != (#[trigger] round[j]).player_id by {
                assert(g.current_round()[i].player_id != g.current_round()[j].player_id);
            }
        }
    }
}

/// A room in order is in order after a drawing was handed in.
pub proof fn lemma_drawing_submitted_wf(g: GameSpec, id: u128, drawing: Seq<drawing::StrokeSpec>)
    requires
        g.wf(),
        g.rounds.len() > 0,
    ensures
        g.drawing_submitted(id, drawing).wf(),
{
    let recorded = g.with_current_round(with_drawing(g.current_round(), id, drawing));
    lemma_round_replaced_wf(g, with_drawing(g.current_round(), id, drawing));
    lemma_states_wf(recorded, with_player_state(g.players, id, PlayerState::DrawingDone));
    let shown = recorded.with_players(
        with_player_state(g.players, id, PlayerState::DrawingDone),
    ).announce(BroadcastSpec::Lobby);
    lemma_drawing_settled_wf(shown);
}

/// A room in order is in order after a ballot was counted.
pub proof fn lemma_vote_counted_wf(g: GameSpec, id: u128, votes: BallotSpec)
    requires
        g.wf(),
        g.rounds.len() > 0,
    ensures
        g.vote_counted(id, votes).wf(),
{
    let counted = g.with_current_round(with_ballot(g.current_round(), id, votes));
    lemma_round_replaced_wf(g, with_ballot(g.current_round(), id, votes));
    lemma_states_wf(counted, with_player_state(g.players, id, PlayerState::VotingDone));
}

/// A room in order in which the host can start the game with the decks
/// handed over is, with their prompts as its deck, ready for the first round.
pub proof fn lemma_game_start_ready(g: GameSpec, id: u128, deck: Seq<Seq<char>>, cards: nat)
    requires
        g.wf(),
        g.start_fault(id, cards) is None,
        deck.len() == cards + 1,
    ensures
        ready_for_round(g.with_deck(deck)),
{
    assert forall|i: int| 0 <= i < g.players.len() implies (#[trigger] g.players[i]).score == 0 by {}
}

/// Whether the same players are connected in both rosters.
pub open spec fn same_connected(a: Seq<PlayerSpec>, b: Seq<PlayerSpec>) -> bool {
    forall|id: u128|
        #![trigger round::is_connected(a, id)]
        #![trigger round::is_connected(b, id)]
        round::is_connected(a, id) <==> round::is_connected(b, id)
}

/// Whether both rooms have the same code and the same connected players.
pub open spec fn same_members(pre: GameSpec, post: GameSpec) -> bool {
    post.room_code == pre.room_code && same_connected(pre.players, post.players)
}

/// Rosters that agree place by place on who is who and who is connected
/// have the same connected players.
pub proof fn lemma_same_flags(a: Seq<PlayerSpec>, b: Seq<PlayerSpec>)
    requires
        a.len() == b.len(),
        forall|i: int|
            0 <= i < a.len() ==> (#[trigger] a[i]).id == b[i].id && a[i].is_disconnected
                == b[i].is_disconnected,
    ensures
        same_connected(a, b),
{
    assert forall|id: u128| round::is_connected(a, id) <==> round::is_connected(
        b,
        id,
    ) by {
        if round::is_connected(a, id) {
            let i = choose|i: int| 0 <= i < a.len() && a[i].id == id && !a[i].is_disconnected;
            assert(b[i].id == id && !b[i].is_disconnected);
        }
        if round::is_connected(b, id) {
            let i = choose|i: int| 0 <= i < b.len() && b[i].id == id && !b[i].is_disconnected;
            assert(a[i].id == id && !a[i].is_disconnected);
        }
    }
}

/// The members of a room stay when the next round begins.
pub proof fn lemma_next_round_members(g: GameSpec, next: GameSpec)
    requires
        g.is_next_round(next),
    ensures
        same_members(g, next),
{
    lemma_same_flags(g.players, with_all_states(g.players, PlayerState::Drawing));
}

/// The members of a room stay when a game starts.
pub proof fn lemma_game_start_members(g: GameSpec, next: GameSpec, decks: Seq<Seq<Seq<char>>>)
    requires
        g.is_game_start(next, decks),
    ensures
        same_members(g, next),
{
    let deck = choose|deck: Seq<Seq<char>>| (#[trigger] g.with_deck(deck)).is_next_round(next);
    lemma_next_round_members(g.with_deck(deck), next);
}

/// The members of a room stay when it looks whether drawing is over.
pub proof fn lemma_drawing_settled_members(g: GameSpec)
    ensures
        same_members(g, g.drawing_settled()),
{
    lemma_same_flags(g.players, with_all_states(g.players, PlayerState::Voting));
}

/// The members of a room stay when it looks whether voting is over.
pub proof fn lemma_voting_settled_members(g: GameSpec, next: GameSpec)
    requires
        g.is_voting_settled(next),
    ensures
        same_members(g, next),
{
    let s = g.scored();
    lemma_same_flags(g.players, s.players);
    lemma_same_flags(s.players, with_all_states(s.players, PlayerState::NotReady));
    if g.vote_is_over() && g.curr_round != Some(g.settings.rounds) && !g.is_out_of_prompts() {
        lemma_next_round_members(s, next);
    }
}

/// The members of a room stay when a player says whether they are ready.
pub proof fn lemma_readied_members(g: GameSpec, id: u128, ready: bool)
    ensures
        same_members(g, g.readied(id, ready)),
{
    lemma_same_flags(g.players, g.readied(id, ready).players);
}

/// The members of a room stay when a drawing is handed in.
pub proof fn lemma_drawing_submitted_members(
    g: GameSpec,
    id: u128,
    drawing: Seq<drawing::StrokeSpec>,
)
    ensures
        same_members(g, g.drawing_submitted(id, drawing)),
{
    let marked = with_player_state(g.players, id, PlayerState::DrawingDone);
    lemma_same_flags(g.players, marked);
    lemma_same_flags(marked, with_all_states(marked, PlayerState::Voting));
}

/// The members of a room stay when a ballot is counted.
pub proof fn lemma_vote_counted_members(g: GameSpec, id: u128, votes: BallotSpec)
    ensures
        same_members(g, g.vote_counted(id, votes)),
{
    lemma_same_flags(g.players, with_player_state(g.players, id, PlayerState::VotingDone));
}

/// The connected players of a room stay when the game is played again.
pub proof fn lemma_replayed_members(g: GameSpec)
    ensures
        same_members(g, g.replayed()),
{
    let kept = without_disconnected(g.players);
    let at = lemma_without_disconnected(g.players);
    let reset = with_scores_reset(kept);
    lemma_same_flags(kept, reset);
    assert forall|id: u128| round::is_connected(g.players, id)
        <==> round::is_connected(kept, id) by {
        if round::is_connected(g.players, id) {
            let k = choose|k: int|
                0 <= k < g.players.len() && g.players[k].id == id && !g.players[k].is_disconnected;
            let i = choose|i: int| 0 <= i < at.len() && at[i] == k;
            assert(kept[i] == g.players[k]);
        }
        if round::is_connected(kept, id) {
            let i = choose|i: int| 0 <= i < kept.len() && kept[i].id == id && !kept[i].is_disconnected;
            assert(kept[i] == g.players[at[i]]);
        }
    }
}

/// After a player joined, the connected players are those before and the
/// one who joined.
pub proof fn lemma_joined_members(g: GameSpec, id: u128, proposed_name: Seq<char>)
    ensures
        g.joined(id, proposed_name).room_code == g.room_code,
        forall|x: u128|
            #![trigger round::is_connected(g.joined(id, proposed_name).players, x)]
            round::is_connected(g.joined(id, proposed_name).players, x) <==> (x == id
                || round::is_connected(g.players, x)),
{
    let next = g.joined(id, proposed_name).players;
    let spare = g.with_ranks_to_spare().players;
    assert(spare.len() == g.players.len());
    assert forall|i: int| 0 <= i < spare.len() implies (#[trigger] spare[i]).id == g.players[i].id
        && spare[i].is_disconnected == g.players[i].is_disconnected by {}
    assert forall|x: u128| round::is_connected(next, x) <==> (x == id
        || round::is_connected(g.players, x)) by {
        if round::is_connected(next, x) {
            let i = choose|i: int| 0 <= i < next.len() && next[i].id == x && !next[i].is_disconnected;
            if i < g.players.len() {
                assert(spare[i] == next[i]);
                assert(g.players[i].id == x && !g.players[i].is_disconnected);
            }
        }
        if round::is_connected(g.players, x) {
            let i = choose|i: int|
                0 <= i < g.players.len() && g.players[i].id == x && !g.players[i].is_disconnected;
            assert(next[i] == spare[i]);
            assert(next[i].id == x && !next[i].is_disconnected);
        }
        if x == id {
            assert(next[next.len() - 1].id == id && !next[next.len() - 1].is_disconnected);
        }
    }
}

/// After a player was marked as disconnected, the connected players are
/// those before but the one marked.
pub proof fn lemma_marked_members(players: Seq<PlayerSpec>, id: u128)
    ensures
        forall|x: u128|
            #![trigger round::is_connected(with_disconnected(players, id), x)]
            round::is_connected(with_disconnected(players, id), x) <==> (x != id
                && round::is_connected(players, x)),
{
    let marked = with_disconnected(players, id);
    assert forall|x: u128| round::is_connected(marked, x) <==> (x != id
        && round::is_connected(players, x)) by {
        if round::is_connected(marked, x) {
            let i = choose|i: int|
                0 <= i < marked.len() && marked[i].id == x && !marked[i].is_disconnected;
            assert(players[i].id == x && !players[i].is_disconnected);
        }
        if x != id && round::is_connected(players, x) {
            let i = choose|i: int|
                0 <= i < players.len() && players[i].id == x && !players[i].is_disconnected;
            assert(marked[i].id == x && !marked[i].is_disconnected);
        }
    }
}

/// After a player was taken off, the connected players are those before
/// but the one taken off.
pub proof fn lemma_departed_members(players: Seq<PlayerSpec>, id: u128)
    ensures
        forall|x: u128|
            #![trigger round::is_connected(without_player(players, id), x)]
            round::is_connected(without_player(players, id), x) <==> (x != id
                && round::is_connected(players, x)),
{
    let kept = without_player(players, id);
    let at = lemma_without_player(players, id);
    assert forall|x: u128| round::is_connected(kept, x) <==> (x != id
        && round::is_connected(players, x)) by {
        if round::is_connected(kept, x) {
            let i = choose|i: int| 0 <= i < kept.len() && kept[i].id == x && !kept[i].is_disconnected;
            assert(kept[i] == players[at[i]]);
        }
        if x != id && round::is_connected(players, x) {
            let k = choose|k: int|
                0 <= k < players.len() && players[k].id == x && !players[k].is_disconnected;
            let i = choose|i: int| 0 <= i < at.len() && at[i] == k;
            assert(kept[i] == players[k]);
        }
    }
}

/// After the connection of a player closed, the room has its code still and
/// the connected players are those before but that one.
pub proof fn lemma_disconnect_members(g: GameSpec, next: GameSpec, id: u128)
    requires
        g.is_disconnect(next, id),
    ensures
        next.room_code == g.room_code,
        forall|x: u128|
            #![trigger round::is_connected(next.players, x)]
            round::is_connected(next.players, x) <==> (x != id
                && round::is_connected(g.players, x)),
{
    if !has_player(g.players, id) {
        assert forall|x: u128| round::is_connected(g.players, x) implies x != id by {
            let i = choose|i: int|
                0 <= i < g.players.len() && g.players[i].id == x && !g.players[i].is_disconnected;
            assert(g.players[i].id != id);
        }
    } else {
        lemma_marked_members(g.players, id);
        lemma_departed_members(g.players, id);
        let marked = g.with_players(with_disconnected(g.players, id)).rehosted();
        match g.state {
            GameState::WaitingForPlayers | GameState::Results => {},
            GameState::DrawingPhase => {
                lemma_drawing_settled_members(marked);
            },
            GameState::VotingPhase => {
                if !all_disconnected(marked.players) {
                    let settled = choose|settled: GameSpec|
                        marked.is_voting_settled(settled) && next == #[trigger] settled.announce(
                            BroadcastSpec::Lobby,
                        );
                    lemma_voting_settled_members(marked, settled);
                }
            },
        }
    }
}

/// A room with nobody connected has no connected player.
pub proof fn lemma_all_disconnected(players: Seq<PlayerSpec>)
    requires
        all_disconnected(players),
    ensures
        forall|x: u128| !round::is_connected(players, x),
{
    assert forall|x: u128| !round::is_connected(players, x) by {
        if round::is_connected(players, x) {
            let i = choose|i: int|
                0 <= i < players.len() && players[i].id == x && !players[i].is_disconnected;
            assert(players[i].is_disconnected);
        }
    }
}

} // verus!
