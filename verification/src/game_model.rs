//! The room as a mathematical value, and what each command makes of it.
//!
//! Every command of a room is stated here first, over plain values: whether
//! it is turned down and why, and otherwise the room that results, with the
//! messages it owes. Where chance has a hand (a shuffled deck, fragments
//! handed round, names of drawings) the statement is a relation between the
//! room before and after.

use crate::deck::concat_all;
use crate::deck_repository::available_deck_names;
use crate::errors::{
    JoinGameError, PlayAgainError, StartGameError, SubmitDrawingError, UpdateGameSettingsError,
};
use crate::game::GameState;
use crate::game_settings::{
    merged_decks, removes_all_decks, some_deck_included, GameMode, GameSettingsSpec,
    MAX_PHASE_SECONDS, MAX_ROUNDS,
};
use crate::imprint_mapper::ImprintMapSpec;
use crate::imprint_selector::{is_fragment_of, strokes_of};
use crate::player_view::{PlayerSpec, PlayerState};
use crate::random::is_shuffle_of;
use crate::round::{
    ballot_fault, connected_count, distinct_players, done_drawing, done_voting, entry_of, has_entry,
    is_connected, is_new_round, scores_of, with_ballot, with_drawing, BallotSpec,
    RoundDataPerPlayerSpec, RoundSpec,
};
use crate::server_messages::{
    BallotItemSpec, DrawingParametersSpec, GameSettingsUpdateSpec, LobbyUpdateSpec, OutboundSpec,
    ResultsSpec, ServerMessageSpec, VotableBallotItemSpec, VotingBallotSpec,
};
use crate::text::{free_name, trimmed};
use crate::{drawing, errors};
use vstd::prelude::*;

verus! {

/// The fewest players a game can start with.
pub const MIN_PLAYERS: usize = 2;

/// The most players a room takes.
pub const MAX_PLAYERS: usize = 8;

/// The most strokes of one drawing that are handed on to the next round.
pub const IMPRINT_STROKES: usize = 3;

/// Mathematical value of a room.
pub struct GameSpec {
    pub room_code: Seq<char>,
    pub settings: GameSettingsSpec,
    pub state: GameState,
    pub last_player_host_rank: usize,
    pub host_id: u128,
    /// The players in joining order.
    pub players: Seq<PlayerSpec>,
    /// The number of the round that is played, counted from one.
    pub curr_round: Option<usize>,
    pub rounds: Seq<RoundSpec>,
    /// The prompts that are left, the last one on top.
    pub deck: Option<Seq<Seq<char>>>,
    /// The messages owed to players and not yet taken by the transport.
    pub outbox: Seq<OutboundSpec>,
}

/// A kind of message that goes to every connected player.
pub enum BroadcastSpec {
    Lobby,
    Settings,
    DrawingParameters,
    VotingBallot,
    Results(ResultsSpec),
}

/// Whether the room has a player of that identity.
pub open spec fn has_player(players: Seq<PlayerSpec>, id: u128) -> bool {
    exists|i: int| 0 <= i < players.len() && players[i].id == id
}

/// Whether no player of the room is connected.
pub open spec fn all_disconnected(players: Seq<PlayerSpec>) -> bool {
    forall|i: int| 0 <= i < players.len() ==> (#[trigger] players[i]).is_disconnected
}

/// The names in use.
pub open spec fn names_of(players: Seq<PlayerSpec>) -> Seq<Seq<char>> {
    Seq::new(players.len(), |i: int| players[i].name)
}

/// Whether the player at `i` is connected and all before are not.
pub open spec fn is_first_connected(players: Seq<PlayerSpec>, i: int) -> bool {
    &&& 0 <= i < players.len()
    &&& !players[i].is_disconnected
    &&& forall|j: int| 0 <= j < i ==> (#[trigger] players[j]).is_disconnected
}

/// The host after an election: the connected player who joined first. Where
/// nobody is connected the host stays who it was.
pub open spec fn elected_host(players: Seq<PlayerSpec>, current: u128) -> u128 {
    if all_disconnected(players) {
        current
    } else {
        players[choose|i: int| is_first_connected(players, i)].id
    }
}

/// The players, all in the given state.
pub open spec fn with_all_states(players: Seq<PlayerSpec>, state: PlayerState) -> Seq<PlayerSpec> {
    Seq::new(players.len(), |i: int| PlayerSpec { state, ..players[i] })
}

/// The players, the one of that identity in the given state.
pub open spec fn with_player_state(players: Seq<PlayerSpec>, id: u128, state: PlayerState) -> Seq<
    PlayerSpec,
> {
    Seq::new(
        players.len(),
        |i: int|
            if players[i].id == id {
                PlayerSpec { state, ..players[i] }
            } else {
                players[i]
            },
    )
}

/// The players, the one of that identity marked as disconnected.
pub open spec fn with_disconnected(players: Seq<PlayerSpec>, id: u128) -> Seq<PlayerSpec> {
    Seq::new(
        players.len(),
        |i: int|
            if players[i].id == id {
                PlayerSpec { is_disconnected: true, ..players[i] }
            } else {
                players[i]
            },
    )
}

/// The players without the one of that identity.
pub open spec fn without_player(players: Seq<PlayerSpec>, id: u128) -> Seq<PlayerSpec>
    decreases players.len(),
{
    if players.len() == 0 {
        Seq::empty()
    } else if players.last().id == id {
        without_player(players.drop_last(), id)
    } else {
        without_player(players.drop_last(), id).push(players.last())
    }
}

/// The players who are connected.
pub open spec fn without_disconnected(players: Seq<PlayerSpec>) -> Seq<PlayerSpec>
    decreases players.len(),
{
    if players.len() == 0 {
        Seq::empty()
    } else if players.last().is_disconnected {
        without_disconnected(players.drop_last())
    } else {
        without_disconnected(players.drop_last()).push(players.last())
    }
}

/// The players with their ranks counted anew from nought, in their order.
pub open spec fn with_ranks_renumbered(players: Seq<PlayerSpec>) -> Seq<PlayerSpec> {
    Seq::new(players.len(), |i: int| PlayerSpec { host_rank: i as usize, ..players[i] })
}

/// The players, all with no score.
pub open spec fn with_scores_reset(players: Seq<PlayerSpec>) -> Seq<PlayerSpec> {
    Seq::new(players.len(), |i: int| PlayerSpec { score: 0, ..players[i] })
}

/// What `scores` holds for the player: the votes of the first entry of that
/// identity, nothing where there is none.
pub open spec fn score_for(scores: Seq<(u128, i32)>, id: u128) -> int
    decreases scores.len(),
{
    if scores.len() == 0 {
        0
    } else if scores[0].0 == id {
        scores[0].1 as int
    } else {
        score_for(scores.drop_first(), id)
    }
}

/// The players, each with what `scores` holds for them added to their score.
pub open spec fn with_scores_added(players: Seq<PlayerSpec>, scores: Seq<(u128, i32)>) -> Seq<
    PlayerSpec,
> {
    Seq::new(
        players.len(),
        |i: int|
            PlayerSpec {
                score: (players[i].score + score_for(scores, players[i].id)) as i64,
                ..players[i]
            },
    )
}

/// The entry with the most votes among `seed` and `entries`. Of two with the
/// same votes the earlier one wins.
pub open spec fn best_in(entries: RoundSpec, seed: Option<RoundDataPerPlayerSpec>) -> Option<
    RoundDataPerPlayerSpec,
>
    decreases entries.len(),
{
    if entries.len() == 0 {
        seed
    } else {
        let best = best_in(entries.drop_last(), seed);
        match best {
            Some(b) => if entries.last().votes > b.votes {
                Some(entries.last())
            } else {
                best
            },
            None => Some(entries.last()),
        }
    }
}

/// The entry with the most votes of all rounds. Of two with the same votes
/// the earlier one wins.
pub open spec fn best_over(rounds: Seq<RoundSpec>) -> Option<RoundDataPerPlayerSpec>
    decreases rounds.len(),
{
    if rounds.len() == 0 {
        None
    } else {
        best_in(rounds.last(), best_over(rounds.drop_last()))
    }
}

/// What is announced of the entry that won.
pub open spec fn results_of(entry: RoundDataPerPlayerSpec) -> ResultsSpec {
    ResultsSpec {
        highest_rated_drawing: strokes_of(entry.drawing),
        imprint: entry.imprint,
        num_votes: entry.votes,
        drawing_suggestion: entry.drawing_suggestion,
    }
}

/// How an entry appears on the ballot of a player.
pub open spec fn ballot_item_for(entry: RoundDataPerPlayerSpec, recipient: u128) -> VotableBallotItemSpec {
    VotableBallotItemSpec {
        ballot_item: BallotItemSpec {
            id: entry.drawing_id,
            suggestion: entry.drawing_suggestion,
            drawing: strokes_of(entry.drawing),
            imprint: strokes_of(entry.imprint),
        },
        is_voting_enabled: entry.player_id != recipient,
    }
}

/// The settings of a new room: five rounds, no time limits, every deck in.
pub open spec fn default_settings() -> GameSettingsSpec {
    GameSettingsSpec {
        mode: GameMode::Default,
        rounds: 5,
        drawing_phase_time_limit_seconds: None,
        voting_phase_time_limit_seconds: None,
        drawing_decks_included: Seq::new(
            available_deck_names().len(),
            |i: int| (available_deck_names()[i], true),
        ),
    }
}

/// The fragments that the connected players of a round hand on: for each
/// entry of a connected player, in order, the player and the fragment at
/// the entry's place in `fragments`.
pub open spec fn carried_imprints(
    entries: RoundSpec,
    players: Seq<PlayerSpec>,
    fragments: Seq<Option<Seq<drawing::StrokeSpec>>>,
) -> ImprintMapSpec
    decreases entries.len(),
{
    if entries.len() == 0 {
        Seq::empty()
    } else {
        let rest = carried_imprints(entries.drop_last(), players, fragments);
        if is_connected(players, entries.last().player_id) {
            rest.push((entries.last().player_id, fragments[entries.len() - 1]))
        } else {
            rest
        }
    }
}

/// Whether `imprints` can be what the round hands on to the next: of each
/// connected player's drawing and imprint a fragment of at most
/// [`IMPRINT_STROKES`] strokes, picked at random.
pub open spec fn is_carried_from(imprints: ImprintMapSpec, entries: RoundSpec, players: Seq<PlayerSpec>) -> bool {
    exists|fragments: Seq<Option<Seq<drawing::StrokeSpec>>>|
        {
            &&& fragments.len() == entries.len()
            &&& forall|i: int|
                0 <= i < entries.len() ==> is_fragment_of(
                    #[trigger] fragments[i],
                    entries[i].drawing,
                    entries[i].imprint,
                    IMPRINT_STROKES as nat,
                )
            &&& imprints == carried_imprints(entries, players, fragments)
        }
}

/// The roster is in order: at most [`MAX_PLAYERS`] players, no identity and
/// no name twice, ranks rising in joining order and none above the last one
/// handed out.
pub open spec fn roster_wf(players: Seq<PlayerSpec>, last_rank: usize) -> bool {
    &&& players.len() <= MAX_PLAYERS
    &&& forall|i: int, j: int|
        0 <= i < j < players.len() ==> (#[trigger] players[i]).id != (#[trigger] players[j]).id
    &&& forall|i: int, j: int|
        0 <= i < j < players.len() ==> (#[trigger] players[i]).name != (#[trigger] players[j]).name
    &&& forall|i: int, j: int|
        0 <= i < j < players.len() ==> (#[trigger] players[i]).host_rank < (
        #[trigger] players[j]).host_rank
    &&& forall|i: int| 0 <= i < players.len() ==> (#[trigger] players[i]).host_rank <= last_rank
}

/// The settings are in order: one to [`MAX_ROUNDS`] rounds, no time limit
/// above [`MAX_PHASE_SECONDS`], the decks that exist and no others, one of
/// them in.
pub open spec fn settings_wf(settings: GameSettingsSpec) -> bool {
    &&& 1 <= settings.rounds <= MAX_ROUNDS
    &&& settings.drawing_phase_time_limit_seconds matches Some(limit) ==> limit <= MAX_PHASE_SECONDS
    &&& settings.voting_phase_time_limit_seconds matches Some(limit) ==> limit <= MAX_PHASE_SECONDS
    &&& settings.drawing_decks_included.len() == available_deck_names().len()
    &&& forall|i: int|
        0 <= i < settings.drawing_decks_included.len() ==> (
        #[trigger] settings.drawing_decks_included[i]).0 == available_deck_names()[i]
    &&& some_deck_included(settings.drawing_decks_included)
}

/// While anybody is connected, the host is the connected player who joined
/// first.
pub open spec fn host_wf(players: Seq<PlayerSpec>, host_id: u128) -> bool {
    !all_disconnected(players) ==> exists|i: int|
        is_first_connected(players, i) && (#[trigger] players[i]).id == host_id
}

/// How many rounds have been added to the scores.
pub open spec fn scored_rounds(state: GameState, rounds: nat) -> nat {
    match state {
        GameState::WaitingForPlayers => 0,
        GameState::Results => rounds,
        _ => if rounds > 0 {
            (rounds - 1) as nat
        } else {
            0
        },
    }
}

/// No score is beyond what the rounds played can have given.
pub open spec fn scores_wf(players: Seq<PlayerSpec>, state: GameState, rounds: nat) -> bool {
    forall|i: int|
        0 <= i < players.len() ==> -(scored_rounds(state, rounds) * 0x8000_0000) <= (
        #[trigger] players[i]).score <= scored_rounds(state, rounds) * 0x8000_0000
}

/// The phase is in order. While players are waited for, no round exists and
/// nobody is marked as disconnected. From then on the room has a deck, the
/// round that is played is the last of the rounds, there are no more rounds
/// than the settings say, and every connected player has an entry in it. No
/// round holds two entries for one player.
pub open spec fn phase_wf(
    state: GameState,
    players: Seq<PlayerSpec>,
    curr_round: Option<usize>,
    rounds: Seq<RoundSpec>,
    deck: Option<Seq<Seq<char>>>,
    num_rounds: usize,
) -> bool {
    if state == GameState::WaitingForPlayers {
        &&& rounds.len() == 0
        &&& curr_round is None
        &&& forall|i: int| 0 <= i < players.len() ==> !(#[trigger] players[i]).is_disconnected
    } else {
        &&& 1 <= rounds.len() <= num_rounds
        &&& curr_round == Some(rounds.len() as usize)
        &&& forall|i: int|
            0 <= i < players.len() && !(#[trigger] players[i]).is_disconnected ==> has_entry(
                rounds.last(),
                players[i].id,
            )
        &&& deck is Some
        &&& forall|k: int| 0 <= k < rounds.len() ==> distinct_players(#[trigger] rounds[k])
    }
}

impl GameSpec {
    /// The room is in order.
    pub open spec fn wf(self) -> bool {
        &&& roster_wf(self.players, self.last_player_host_rank)
        &&& settings_wf(self.settings)
        &&& host_wf(self.players, self.host_id)
        &&& scores_wf(self.players, self.state, self.rounds.len())
        &&& phase_wf(
            self.state,
            self.players,
            self.curr_round,
            self.rounds,
            self.deck,
            self.settings.rounds,
        )
    }

    /// The room with more messages owed.
    pub open spec fn emit(self, events: Seq<OutboundSpec>) -> GameSpec {
        GameSpec { outbox: self.outbox + events, ..self }
    }

    /// The round that is played.
    pub open spec fn current_round(self) -> RoundSpec
        recommends
            self.rounds.len() > 0,
    {
        self.rounds.last()
    }

    /// The room as the player sees it.
    pub open spec fn lobby_update_for(self, recipient: u128) -> LobbyUpdateSpec {
        LobbyUpdateSpec {
            room_code: self.room_code,
            state: self.state,
            round: self.curr_round,
            num_rounds: self.settings.rounds,
            players: Seq::new(
                self.players.len(),
                |i: int|
                    self.players[i].to_view(
                        self.players[i].id == self.host_id,
                        self.players[i].id == recipient,
                    ),
            ),
        }
    }

    /// What the player is to draw in the round that is played.
    pub open spec fn drawing_parameters_for(self, recipient: u128) -> DrawingParametersSpec {
        let entry = entry_of(self.current_round(), recipient);
        DrawingParametersSpec {
            round: self.curr_round.unwrap(),
            drawing_suggestion: entry.drawing_suggestion,
            imprint: entry.imprint,
        }
    }

    /// The ballot of the player for the round that is played: every drawing
    /// of the round, the player's own closed to votes.
    pub open spec fn voting_ballot_for(self, recipient: u128) -> VotingBallotSpec {
        let entries = self.current_round();
        VotingBallotSpec {
            round: self.curr_round.unwrap(),
            ballot: Seq::new(entries.len(), |i: int| ballot_item_for(entries[i], recipient)),
        }
    }

    /// The message of the given kind for the player.
    pub open spec fn message_for(self, kind: BroadcastSpec, recipient: u128) -> ServerMessageSpec {
        match kind {
            BroadcastSpec::Lobby => ServerMessageSpec::LobbyUpdate(self.lobby_update_for(recipient)),
            BroadcastSpec::Settings => ServerMessageSpec::GameSettingsUpdate(
                GameSettingsUpdateSpec { settings: self.settings },
            ),
            BroadcastSpec::DrawingParameters => ServerMessageSpec::DrawingParameters(
                self.drawing_parameters_for(recipient),
            ),
            BroadcastSpec::VotingBallot => ServerMessageSpec::VotingBallot(
                self.voting_ballot_for(recipient),
            ),
            BroadcastSpec::Results(results) => ServerMessageSpec::Results(results),
        }
    }

    /// The messages of the given kind for the connected ones among the first
    /// `n` players, in their order.
    pub open spec fn broadcast_to(self, kind: BroadcastSpec, n: int) -> Seq<OutboundSpec>
        decreases n,
    {
        if n <= 0 {
            Seq::empty()
        } else {
            let rest = self.broadcast_to(kind, n - 1);
            let p = self.players[n - 1];
            if p.is_disconnected {
                rest
            } else {
                rest.push(OutboundSpec { recipient: p.id, message: self.message_for(kind, p.id) })
            }
        }
    }

    /// One message of the given kind for each connected player.
    pub open spec fn broadcast(self, kind: BroadcastSpec) -> Seq<OutboundSpec> {
        self.broadcast_to(kind, self.players.len() as int)
    }

    /// The room after it sent every connected player a message of that kind.
    pub open spec fn announce(self, kind: BroadcastSpec) -> GameSpec {
        self.emit(self.broadcast(kind))
    }

    /// The room after an election of the host.
    pub open spec fn rehosted(self) -> GameSpec {
        GameSpec { host_id: elected_host(self.players, self.host_id), ..self }
    }

    /// The room with other players.
    pub open spec fn with_players(self, players: Seq<PlayerSpec>) -> GameSpec {
        GameSpec { players, ..self }
    }

    /// The room with another deck of prompts.
    pub open spec fn with_deck(self, deck: Seq<Seq<char>>) -> GameSpec {
        GameSpec { deck: Some(deck), ..self }
    }

    /// The room with another round in place of the one that is played.
    pub open spec fn with_current_round(self, round: RoundSpec) -> GameSpec {
        GameSpec { rounds: self.rounds.update(self.rounds.len() - 1, round), ..self }
    }

    /// A room that was just opened by its host: the host is its only player,
    /// and is told so.
    pub open spec fn created(room_code: Seq<char>, host_id: u128, host_name: Seq<char>) -> GameSpec {
        GameSpec {
            room_code,
            settings: default_settings(),
            state: GameState::WaitingForPlayers,
            last_player_host_rank: 0,
            host_id,
            players: seq![PlayerSpec::fresh(host_id, host_name, 0)],
            curr_round: None,
            rounds: Seq::empty(),
            deck: None,
            outbox: Seq::empty(),
        }.announce(BroadcastSpec::Lobby).announce(BroadcastSpec::Settings)
    }

    /// Why the player cannot join, if they cannot. A full room says so
    /// first, then a room whose game has started, then a room that holds
    /// the player already.
    pub open spec fn join_fault(self, id: u128) -> Option<JoinGameError> {
        if self.players.len() >= MAX_PLAYERS {
            Some(JoinGameError::GameFull)
        } else if self.state != GameState::WaitingForPlayers {
            Some(JoinGameError::GameAlreadyStarted)
        } else if has_player(self.players, id) {
            Some(JoinGameError::ClientIsAlreadyInAGame)
        } else {
            None
        }
    }

    /// The room with a rank left to hand out. Where the last rank that a
    /// machine can count to was handed out, the players are ranked anew in
    /// their order.
    pub open spec fn with_ranks_to_spare(self) -> GameSpec {
        if self.last_player_host_rank == usize::MAX {
            GameSpec {
                players: with_ranks_renumbered(self.players),
                last_player_host_rank: self.players.len() as usize,
                ..self
            }
        } else {
            self
        }
    }

    /// The room after the player joined: they are sent the settings, get a
    /// name that nobody in the room has and the next rank, become the host
    /// if the room was empty, and everybody is shown the room.
    pub open spec fn joined(self, id: u128, proposed_name: Seq<char>) -> GameSpec {
        let name = free_name(names_of(self.players), trimmed(proposed_name));
        let told = self.emit(
            seq![
                OutboundSpec {
                    recipient: id,
                    message: self.message_for(BroadcastSpec::Settings, id),
                },
            ],
        ).with_ranks_to_spare();
        let rank = (told.last_player_host_rank + 1) as usize;
        GameSpec {
            last_player_host_rank: rank,
            players: told.players.push(PlayerSpec::fresh(id, name, rank)),
            ..told
        }.rehosted().announce(BroadcastSpec::Lobby)
    }

    /// Why the settings are not taken, if they are not.
    pub open spec fn settings_fault(self, id: u128, settings: GameSettingsSpec) -> Option<
        UpdateGameSettingsError,
    > {
        if self.state != GameState::WaitingForPlayers {
            Some(UpdateGameSettingsError::GameAlreadyStarted)
        } else if id != self.host_id {
            Some(UpdateGameSettingsError::ClientIsNotTheHost)
        } else if settings.rounds < 1 || settings.rounds > MAX_ROUNDS {
            Some(UpdateGameSettingsError::InvalidNumRounds)
        } else if settings.drawing_phase_time_limit_seconds matches Some(limit) && limit
            > MAX_PHASE_SECONDS {
            Some(UpdateGameSettingsError::InvalidDrawingTimeLimit)
        } else if settings.voting_phase_time_limit_seconds matches Some(limit) && limit
            > MAX_PHASE_SECONDS {
            Some(UpdateGameSettingsError::InvalidVotingTimeLimit)
        } else if removes_all_decks(
            self.settings.drawing_decks_included,
            settings.drawing_decks_included,
        ) {
            Some(UpdateGameSettingsError::SettingRemovesAllDecks)
        } else if exists|k: int|
            0 <= k < settings.drawing_decks_included.len() && !available_deck_names().contains(
                #[trigger] settings.drawing_decks_included[k].0,
            ) {
            Some(UpdateGameSettingsError::DeckDoesNotExist)
        } else {
            None
        }
    }

    /// The room after the settings were taken: mode, rounds and time limits
    /// are as given, the decks named are in or out as given, and everybody is
    /// sent the settings.
    pub open spec fn settings_applied(self, settings: GameSettingsSpec) -> GameSpec {
        GameSpec {
            settings: GameSettingsSpec {
                mode: settings.mode,
                rounds: settings.rounds,
                drawing_phase_time_limit_seconds: settings.drawing_phase_time_limit_seconds,
                voting_phase_time_limit_seconds: settings.voting_phase_time_limit_seconds,
                drawing_decks_included: merged_decks(
                    self.settings.drawing_decks_included,
                    settings.drawing_decks_included,
                ),
            },
            ..self
        }.announce(BroadcastSpec::Settings)
    }

    /// The room after a round with these entries began: it is the round that
    /// is played, its cards are off the deck, everybody draws, is shown the
    /// room and told what to draw.
    pub open spec fn round_opened(self, entries: RoundSpec) -> GameSpec {
        GameSpec {
            curr_round: Some((self.rounds.len() + 1) as usize),
            rounds: self.rounds.push(entries),
            deck: Some(self.deck.unwrap().take(self.deck.unwrap().len() - entries.len())),
            state: GameState::DrawingPhase,
            players: with_all_states(self.players, PlayerState::Drawing),
            ..self
        }.announce(BroadcastSpec::Lobby).announce(BroadcastSpec::DrawingParameters)
    }

    /// Whether `next` can be the room after the next round began.
    pub open spec fn is_next_round(self, next: GameSpec) -> bool {
        exists|imprints: ImprintMapSpec, entries: RoundSpec|
            {
                &&& if self.rounds.len() == 0 {
                    imprints == Seq::<(u128, Option<Seq<drawing::StrokeSpec>>)>::empty()
                } else {
                    is_carried_from(imprints, self.current_round(), self.players)
                }
                &&& #[trigger] is_new_round(entries, self.players, self.deck.unwrap(), imprints)
                &&& next == self.round_opened(entries)
            }
    }

    /// Why the game does not start whatever decks are handed over, if that
    /// is so: the player is not the host, the game has started, or there are
    /// too few players.
    pub open spec fn start_refusal(self, id: u128) -> Option<StartGameError> {
        if id != self.host_id {
            Some(StartGameError::ClientIsNotTheHost)
        } else if self.state != GameState::WaitingForPlayers {
            Some(StartGameError::GameAlreadyStarted)
        } else if self.players.len() < MIN_PLAYERS {
            Some(StartGameError::MinimumPlayersNotReached)
        } else {
            None
        }
    }

    /// Why the game does not start, if it does not. `cards` is how many
    /// prompts the decks handed over hold; with the one prompt more that
    /// every deck gets they must do for the first round.
    pub open spec fn start_fault(self, id: u128, cards: nat) -> Option<StartGameError> {
        match self.start_refusal(id) {
            Some(e) => Some(e),
            None => if cards + 1 < connected_count(self.players) {
                Some(StartGameError::NotEnoughPrompts)
            } else {
                None
            },
        }
    }

    /// Whether `next` can be the room after the game started with the
    /// prompts of `decks`: they are put together with one more prompt,
    /// shuffled, and the first round begins.
    pub open spec fn is_game_start(self, next: GameSpec, decks: Seq<Seq<Seq<char>>>) -> bool {
        exists|deck: Seq<Seq<char>>|
            {
                &&& is_shuffle_of(deck, concat_all(decks).push("rabbit"@))
                &&& (#[trigger] self.with_deck(deck)).is_next_round(next)
            }
    }

    /// The room after voting began: everybody is sent their ballot, votes,
    /// and is shown the room.
    pub open spec fn voting_opened(self) -> GameSpec {
        let sent = self.announce(BroadcastSpec::VotingBallot);
        GameSpec {
            state: GameState::VotingPhase,
            players: with_all_states(sent.players, PlayerState::Voting),
            ..sent
        }.announce(BroadcastSpec::Lobby)
    }

    /// The room after it looked whether drawing is over: while drawing, once
    /// every connected player has handed in, voting begins.
    pub open spec fn drawing_settled(self) -> GameSpec {
        if self.state == GameState::DrawingPhase && done_drawing(self.current_round(), self.players) {
            self.voting_opened()
        } else {
            self
        }
    }

    /// The room after the votes of the round were added to the scores.
    pub open spec fn scored(self) -> GameSpec {
        self.with_players(with_scores_added(self.players, scores_of(self.current_round())))
    }

    /// The room after the game ended: nobody is ready, everybody is shown the
    /// room and then the drawing that won.
    pub open spec fn results_announced(self) -> GameSpec {
        let over = GameSpec {
            state: GameState::Results,
            players: with_all_states(self.players, PlayerState::NotReady),
            ..self
        }.announce(BroadcastSpec::Lobby);
        match best_over(over.rounds) {
            Some(entry) => over.announce(BroadcastSpec::Results(results_of(entry))),
            None => over,
        }
    }

    /// Whether the vote of the round that is played is over: the room is
    /// voting and every connected player has voted.
    pub open spec fn vote_is_over(self) -> bool {
        self.state == GameState::VotingPhase && done_voting(self.current_round(), self.players)
    }

    /// Whether the vote is over, another round is due, and the deck holds
    /// fewer prompts than players are connected: the round cannot be dealt.
    pub open spec fn is_out_of_prompts(self) -> bool {
        &&& self.vote_is_over()
        &&& self.curr_round != Some(self.settings.rounds)
        &&& match self.deck {
            Some(cards) => cards.len() < connected_count(self.players),
            None => true,
        }
    }

    /// Whether `next` can be the room after it looked whether voting is
    /// over: while voting, once every connected player has voted, the votes
    /// are added to the scores; after the last round the game ends, else the
    /// next round begins. Where the next round cannot be dealt the game ends
    /// as after the last round.
    pub open spec fn is_voting_settled(self, next: GameSpec) -> bool {
        if self.vote_is_over() {
            if self.curr_round == Some(self.settings.rounds) || self.is_out_of_prompts() {
                next == self.scored().results_announced()
            } else {
                self.scored().is_next_round(next)
            }
        } else {
            next == self
        }
    }

    /// Whether `next` can be the room after the player's connection closed.
    /// Before and after a game the player is taken off the room; during a
    /// game they are marked and the phase may end for it. If anybody is left
    /// the host is elected anew. Everybody left is shown the room.
    pub open spec fn is_disconnect(self, next: GameSpec, id: u128) -> bool {
        if !has_player(self.players, id) {
            next == self.announce(BroadcastSpec::Lobby)
        } else {
            match self.state {
                GameState::WaitingForPlayers | GameState::Results => {
                    next == self.with_players(without_player(self.players, id)).rehosted().announce(
                        BroadcastSpec::Lobby,
                    )
                },
                GameState::DrawingPhase => {
                    let marked = self.with_players(with_disconnected(self.players, id)).rehosted();
                    if all_disconnected(marked.players) {
                        next == marked.announce(BroadcastSpec::Lobby)
                    } else {
                        next == marked.drawing_settled().announce(BroadcastSpec::Lobby)
                    }
                },
                GameState::VotingPhase => {
                    let marked = self.with_players(with_disconnected(self.players, id)).rehosted();
                    if all_disconnected(marked.players) {
                        next == marked.announce(BroadcastSpec::Lobby)
                    } else {
                        exists|settled: GameSpec|
                            marked.is_voting_settled(settled) && next == #[trigger] settled.announce(
                                BroadcastSpec::Lobby,
                            )
                    }
                },
            }
        }
    }

    /// What failure of the server the closing of the player's connection
    /// brings to light, if any: it ends the vote, and the next round cannot
    /// be dealt. The room then is as [`GameSpec::is_disconnect`] says, with
    /// the game over.
    pub open spec fn disconnect_fault(self, id: u128) -> Option<errors::DisconnectError> {
        let marked = self.with_players(with_disconnected(self.players, id)).rehosted();
        if has_player(self.players, id) && self.state == GameState::VotingPhase && !all_disconnected(
            marked.players,
        ) && marked.is_out_of_prompts() {
            Some(errors::DisconnectError::NotEnoughPrompts)
        } else {
            None
        }
    }

    /// Why the game is not played again, if it is not.
    pub open spec fn replay_fault(self, id: u128) -> Option<PlayAgainError> {
        if id != self.host_id {
            Some(PlayAgainError::ClientIsNotTheHost)
        } else if self.state != GameState::Results {
            Some(PlayAgainError::GameIsNotOver)
        } else {
            None
        }
    }

    /// The room after the host asked to play again: the players who left are
    /// off the room, the others wait with no score, the rounds are forgotten,
    /// and everybody is shown the room.
    pub open spec fn replayed(self) -> GameSpec {
        GameSpec {
            players: with_scores_reset(without_disconnected(self.players)),
            state: GameState::WaitingForPlayers,
            curr_round: None,
            rounds: Seq::empty(),
            ..self
        }.announce(BroadcastSpec::Lobby)
    }

    /// The room after the player said whether they are ready.
    pub open spec fn readied(self, id: u128, ready: bool) -> GameSpec {
        self.with_players(
            with_player_state(
                self.players,
                id,
                if ready {
                    PlayerState::Ready
                } else {
                    PlayerState::NotReady
                },
            ),
        ).announce(BroadcastSpec::Lobby)
    }

    /// Why the drawing is not taken, if it is not.
    pub open spec fn drawing_fault(self, id: u128, round: usize) -> Option<SubmitDrawingError> {
        if self.curr_round != Some(round) {
            Some(SubmitDrawingError::DrawingSubmittedForWrongRound)
        } else if entry_of(self.current_round(), id).drawing is Some {
            Some(SubmitDrawingError::DrawingWasAlreadySubmitted)
        } else {
            None
        }
    }

    /// The room after the player handed in a drawing: it is recorded, the
    /// player is done drawing, everybody is shown the room, and voting
    /// begins if nobody is left to draw.
    pub open spec fn drawing_submitted(self, id: u128, drawing: Seq<drawing::StrokeSpec>) -> GameSpec {
        self.with_current_round(with_drawing(self.current_round(), id, drawing)).with_players(
            with_player_state(self.players, id, PlayerState::DrawingDone),
        ).announce(BroadcastSpec::Lobby).drawing_settled()
    }

    /// The room after the player's ballot was counted, before it looked
    /// whether voting is over.
    pub open spec fn vote_counted(self, id: u128, votes: BallotSpec) -> GameSpec {
        self.with_current_round(with_ballot(self.current_round(), id, votes)).with_players(
            with_player_state(self.players, id, PlayerState::VotingDone),
        ).announce(BroadcastSpec::Lobby)
    }

    /// Why the ballot is answered with an error, if it is. A ballot that is
    /// not counted leaves the room as it is. A ballot that is counted, ends
    /// the vote and leaves a round due that cannot be dealt is answered with
    /// [`errors::SubmitVoteError::NotEnoughPrompts`]; the room then is as
    /// [`GameSpec::is_voting_settled`] says, with the game over.
    pub open spec fn vote_fault(self, id: u128, votes: BallotSpec) -> Option<
        errors::SubmitVoteError,
    > {
        if self.rounds.len() == 0 {
            Some(errors::SubmitVoteError::GameHasNotStarted)
        } else {
            match ballot_fault(self.current_round(), id, votes) {
                Some(e) => Some(e),
                None => if self.vote_counted(id, votes).is_out_of_prompts() {
                    Some(errors::SubmitVoteError::NotEnoughPrompts)
                } else {
                    None
                },
            }
        }
    }
}

} // verus!
