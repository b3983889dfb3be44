//! A room and the game played in it.

use crate::deck::{concat_all, Deck};
use crate::deck_repository::{available_deck_names, get_available_deck_names, is_available_deck};
use crate::drawing::{clone_drawing, clone_optional_drawing, Drawing};
use crate::errors::{
    DisconnectError, JoinGameError, PlayAgainError, StartGameError, SubmitDrawingError,
    SubmitVoteError, UpdateGameSettingsError,
};
use crate::game_model::{
    all_disconnected, ballot_item_for, best_in, best_over, default_settings, has_player,
    is_first_connected, names_of, results_of, with_player_state, BroadcastSpec, GameSpec,
    IMPRINT_STROKES, MAX_PLAYERS, MIN_PLAYERS,
};
use crate::game_settings::{GameMode, GameSettings, MAX_PHASE_SECONDS, MAX_ROUNDS};
use crate::player_view::{Player, PlayerSpec, PlayerState, PlayerView};
use crate::round::{has_entry, is_connected, lemma_first_entry, Round, RoundDataPerPlayerSpec};
use crate::server_messages::{
    BallotItem, DrawingParameters, GameSettingsUpdate, LobbyUpdate, Outbound, OutboundSpec, Results,
    ServerMessage, VotableBallotItem, VotingBallot,
};
use crate::{
    deck, drawing, game_laws, game_model, imprint_mapper, imprint_selector, random, roster, round,
    text,
};
use std::collections::HashMap;
use vstd::prelude::*;

verus! {

/// The phase a room is in.
#[derive(Debug, Clone, Copy, PartialEq, Eq, Structural)]
pub enum GameState {
    WaitingForPlayers,
    DrawingPhase,
    VotingPhase,
    Results,
}

/// A kind of message that goes to every connected player.
#[derive(Debug)]
pub enum Broadcast {
    Lobby,
    Settings,
    DrawingParameters,
    VotingBallot,
    Results(Results),
}

impl DeepView for Broadcast {
    type V = BroadcastSpec;

    open spec fn deep_view(&self) -> BroadcastSpec {
        match self {
            Broadcast::Lobby => BroadcastSpec::Lobby,
            Broadcast::Settings => BroadcastSpec::Settings,
            Broadcast::DrawingParameters => BroadcastSpec::DrawingParameters,
            Broadcast::VotingBallot => BroadcastSpec::VotingBallot,
            Broadcast::Results(r) => BroadcastSpec::Results(r.deep_view()),
        }
    }
}

/// A room: its players, its settings and the game that is played in it.
#[derive(Debug)]
pub struct Game {
    room_code: String,
    settings: GameSettings,
    state: GameState,
    last_player_host_rank: usize,
    host_id: u128,
    players: Vec<Player>,
    curr_round: Option<usize>,
    rounds: Vec<Round>,
    drawing_suggestions_deck: Option<Deck<String>>,
    outbox: Vec<Outbound>,
}

impl DeepView for Game {
    type V = GameSpec;

    closed spec fn deep_view(&self) -> GameSpec {
        GameSpec {
            room_code: self.room_code@,
            settings: self.settings.deep_view(),
            state: self.state,
            last_player_host_rank: self.last_player_host_rank,
            host_id: self.host_id,
            players: self.players.deep_view(),
            curr_round: self.curr_round,
            rounds: self.rounds.deep_view(),
            deck: self.drawing_suggestions_deck.deep_view(),
            outbox: self.outbox.deep_view(),
        }
    }
}

/// A copy of the results.
pub fn clone_results(results: &Results) -> (r: Results)
    ensures
        r.deep_view() == results.deep_view(),
{
    Results {
        highest_rated_drawing: clone_drawing(&results.highest_rated_drawing),
        imprint: clone_optional_drawing(&results.imprint),
        num_votes: results.num_votes,
        drawing_suggestion: results.drawing_suggestion.clone(),
    }
}

// Reading the room
impl Game {
    /// Whether the room is in order. Every room that this module hands out
    /// is, and stays so.
    pub open spec fn wf(&self) -> bool {
        self.deep_view().wf()
    }

    /// The code of the room.
    pub fn room_code(&self) -> (r: &String)
        ensures
            r@ == self.deep_view().room_code,
    {
        &self.room_code
    }

    /// The settings of the room.
    pub fn settings(&self) -> (r: &GameSettings)
        ensures
            r.deep_view() == self.deep_view().settings,
    {
        &self.settings
    }

    /// The phase the room is in.
    pub fn state(&self) -> (r: GameState)
        ensures
            r == self.deep_view().state,
    {
        self.state
    }

    /// The identity of the host.
    pub fn host_id(&self) -> (r: u128)
        ensures
            r == self.deep_view().host_id,
    {
        self.host_id
    }

    /// The players of the room, in joining order.
    pub fn players(&self) -> (r: &Vec<Player>)
        ensures
            r.deep_view() == self.deep_view().players,
    {
        &self.players
    }

    /// The number of the round that is played, counted from one.
    pub fn curr_round(&self) -> (r: Option<usize>)
        ensures
            r == self.deep_view().curr_round,
    {
        self.curr_round
    }

    /// The rounds of the game so far, the one that is played last.
    pub fn rounds(&self) -> (r: &Vec<Round>)
        ensures
            r.deep_view() == self.deep_view().rounds,
    {
        &self.rounds
    }

    /// The round that is played, if the game has started.
    pub fn get_current_round(&self) -> (r: Option<&Round>)
        ensures
            r is Some <==> self.deep_view().rounds.len() > 0,
            r matches Some(round) ==> round.deep_view() == self.deep_view().current_round(),
    {
        if self.rounds.len() == 0 {
            None
        } else {
            Some(&self.rounds[self.rounds.len() - 1])
        }
    }

    /// How many prompts are left in the deck, if the room has one.
    pub fn prompts_left(&self) -> (r: Option<usize>)
        ensures
            r is Some <==> self.deep_view().deck is Some,
            r matches Some(n) ==> n == self.deep_view().deck.unwrap().len(),
    {
        match &self.drawing_suggestions_deck {
            Some(deck) => Some(deck.len()),
            None => None,
        }
    }

    /// Hands over the messages owed to the players, oldest first.
    pub fn take_outbox(&mut self) -> (events: Vec<Outbound>)
        ensures
            events.deep_view() == old(self).deep_view().outbox,
            final(self).deep_view() == (GameSpec { outbox: Seq::empty(), ..old(self).deep_view() }),
            old(self).wf() ==> final(self).wf(),
    {
        let mut events: Vec<Outbound> = Vec::new();
        std::mem::swap(&mut events, &mut self.outbox);
        assert(self.outbox.deep_view() =~= Seq::empty());
        events
    }

    /// Whether nobody in the room is connected, so that the room can be
    /// closed.
    pub fn all_players_disconnected(&self) -> (r: bool)
        ensures
            r == all_disconnected(self.deep_view().players),
    {
        let mut i: usize = 0;
        while i < self.players.len()
            invariant
                i <= self.players.len(),
                forall|j: int| 0 <= j < i ==> (#[trigger] self.players.deep_view()[j]).is_disconnected,
            decreases self.players.len() - i,
        {
            if !self.players[i].is_disconnected {
                assert(!self.players.deep_view()[i as int].is_disconnected);
                return false;
            }
            i += 1;
        }
        true
    }

    /// The place of the player in the room.
    pub fn player_position(&self, client_id: &u128) -> (r: Option<usize>)
        ensures
            match r {
                Some(i) => i < self.deep_view().players.len() && self.deep_view().players[i as int].id
                    == *client_id && forall|j: int|
                    0 <= j < i ==> self.deep_view().players[j].id != *client_id,
                None => !has_player(self.deep_view().players, *client_id),
            },
    {
        let mut i: usize = 0;
        while i < self.players.len()
            invariant
                i <= self.players.len(),
                forall|j: int| 0 <= j < i ==> self.players.deep_view()[j].id != *client_id,
            decreases self.players.len() - i,
        {
            if self.players[i].id == *client_id {
                return Some(i);
            }
            i += 1;
        }
        None
    }

    fn is_host(&self, client_id: &u128) -> (r: bool)
        ensures
            r == (*client_id == self.deep_view().host_id),
    {
        *client_id == self.host_id
    }
}

// Messages
impl Game {
    fn lobby_update_for(&self, recipient: u128) -> (update: LobbyUpdate)
        ensures
            update.deep_view() == self.deep_view().lobby_update_for(recipient),
    {
        let mut views: Vec<PlayerView> = Vec::new();
        let mut i: usize = 0;
        while i < self.players.len()
            invariant
                i <= self.players.len(),
                views.len() == i,
                forall|j: int|
                    0 <= j < i ==> (#[trigger] views@[j]).deep_view()
                        == self.players@[j].deep_view().to_view(
                        self.players@[j].id == self.host_id,
                        self.players@[j].id == recipient,
                    ),
            decreases self.players.len() - i,
        {
            let is_host = self.is_host(&self.players[i].id);
            let is_you = self.players[i].id == recipient;
            views.push(self.players[i].to_view(is_host, is_you));
            i += 1;
        }
        let update = LobbyUpdate {
            room_code: self.room_code.clone(),
            state: self.state,
            round: self.curr_round,
            num_rounds: self.settings.rounds,
            players: views,
        };
        assert(update.deep_view().players =~= self.deep_view().lobby_update_for(recipient).players);
        update
    }

    fn settings_update(&self) -> (update: GameSettingsUpdate)
        ensures
            update.deep_view().settings == self.deep_view().settings,
    {
        GameSettingsUpdate { settings: self.settings.duplicate() }
    }

    fn drawing_parameters_for(&self, recipient: u128) -> (parameters: DrawingParameters)
        requires
            self.deep_view().rounds.len() > 0,
            self.deep_view().curr_round is Some,
            has_entry(self.deep_view().current_round(), recipient),
        ensures
            parameters.deep_view() == self.deep_view().drawing_parameters_for(recipient),
    {
        let round = &self.rounds[self.rounds.len() - 1];
        assert(round.deep_view() == self.deep_view().current_round());
        let found = round.position(&recipient);
        let i = found.unwrap();
        proof {
            lemma_first_entry(round.deep_view(), recipient, i as int);
        }
        let data = round.get_data();
        DrawingParameters {
            round: self.curr_round.unwrap(),
            drawing_suggestion: data[i].drawing_suggestion.clone(),
            imprint: clone_optional_drawing(&data[i].imprint),
        }
    }

    fn voting_ballot_for(&self, recipient: u128) -> (ballot: VotingBallot)
        requires
            self.deep_view().rounds.len() > 0,
            self.deep_view().curr_round is Some,
        ensures
            ballot.deep_view() == self.deep_view().voting_ballot_for(recipient),
    {
        let round = &self.rounds[self.rounds.len() - 1];
        assert(round.deep_view() == self.deep_view().current_round());
        let data = round.get_data();
        let mut items: Vec<VotableBallotItem> = Vec::new();
        let mut i: usize = 0;
        while i < data.len()
            invariant
                i <= data.len(),
                items.len() == i,
                forall|j: int|
                    0 <= j < i ==> (#[trigger] items@[j]).deep_view() == ballot_item_for(
                        data@[j].deep_view(),
                        recipient,
                    ),
            decreases data.len() - i,
        {
            let drawing = match &data[i].drawing {
                Some(d) => clone_drawing(d),
                None => Vec::new(),
            };
            let imprint = match &data[i].imprint {
                Some(d) => clone_drawing(d),
                None => Vec::new(),
            };
            assert(drawing.deep_view() =~= imprint_selector::strokes_of(
                data@[i as int].drawing.deep_view(),
            ));
            assert(imprint.deep_view() =~= imprint_selector::strokes_of(
                data@[i as int].imprint.deep_view(),
            ));
            items.push(
                VotableBallotItem {
                    ballot_item: BallotItem {
                        id: data[i].drawing_id,
                        suggestion: data[i].drawing_suggestion.clone(),
                        drawing,
                        imprint,
                    },
                    is_voting_enabled: data[i].player_id != recipient,
                },
            );
            i += 1;
        }
        let ballot = VotingBallot { round: self.curr_round.unwrap(), ballot: items };
        assert(ballot.deep_view().ballot =~= self.deep_view().voting_ballot_for(recipient).ballot);
        ballot
    }

    /// Whether the room can send messages of that kind: what to draw and
    /// what to vote on exist only once a round is played, and what to draw
    /// only for players of the round.
    pub open spec fn can_broadcast(room: GameSpec, kind: BroadcastSpec) -> bool {
        match kind {
            BroadcastSpec::DrawingParameters => {
                &&& room.rounds.len() > 0
                &&& room.curr_round is Some
                &&& forall|i: int|
                    0 <= i < room.players.len() && !(#[trigger] room.players[i]).is_disconnected
                        ==> has_entry(room.current_round(), room.players[i].id)
            },
            BroadcastSpec::VotingBallot => room.rounds.len() > 0 && room.curr_round is Some,
            _ => true,
        }
    }

    fn message_for(&self, kind: &Broadcast, recipient: u128) -> (message: ServerMessage)
        requires
            match kind.deep_view() {
                BroadcastSpec::DrawingParameters => {
                    &&& self.deep_view().rounds.len() > 0
                    &&& self.deep_view().curr_round is Some
                    &&& has_entry(self.deep_view().current_round(), recipient)
                },
                BroadcastSpec::VotingBallot => self.deep_view().rounds.len() > 0
                    && self.deep_view().curr_round is Some,
                _ => true,
            },
        ensures
            message.deep_view() == self.deep_view().message_for(kind.deep_view(), recipient),
    {
        match kind {
            Broadcast::Lobby => ServerMessage::LobbyUpdate(self.lobby_update_for(recipient)),
            Broadcast::Settings => ServerMessage::GameSettingsUpdate(self.settings_update()),
            Broadcast::DrawingParameters => ServerMessage::DrawingParameters(
                self.drawing_parameters_for(recipient),
            ),
            Broadcast::VotingBallot => ServerMessage::VotingBallot(self.voting_ballot_for(recipient)),
            Broadcast::Results(results) => ServerMessage::Results(clone_results(results)),
        }
    }

    /// Owes every connected player a message of the given kind.
    fn broadcast(&mut self, kind: &Broadcast)
        requires
            Self::can_broadcast(old(self).deep_view(), kind.deep_view()),
        ensures
            final(self).deep_view() == old(self).deep_view().announce(kind.deep_view()),
    {
        let ghost before = self.deep_view();
        let mut i: usize = 0;
        assert(self.deep_view().outbox =~= before.outbox + before.broadcast_to(kind.deep_view(), 0));
        while i < self.players.len()
            invariant
                i <= self.players.len(),
                before.players.len() == self.players.len(),
                Self::can_broadcast(before, kind.deep_view()),
                self.deep_view() == before.emit(before.broadcast_to(kind.deep_view(), i as int)),
            decreases self.players.len() - i,
        {
            if !self.players[i].is_disconnected {
                let recipient = self.players[i].id;
                assert(before.players[i as int].id == recipient
                    && !before.players[i as int].is_disconnected);
                let message = self.message_for(kind, recipient);
                assert(message.deep_view() == before.message_for(kind.deep_view(), recipient));
                let ghost sent = self.outbox.deep_view();
                self.outbox.push(Outbound { recipient, message });
                assert(self.outbox.deep_view() =~= sent.push(
                    OutboundSpec {
                        recipient,
                        message: before.message_for(kind.deep_view(), recipient),
                    },
                ));
                assert(self.deep_view().outbox =~= before.outbox + before.broadcast_to(
                    kind.deep_view(),
                    i + 1,
                ));
            }
            i += 1;
        }
    }
}

// Steps of the game
impl Game {
    /// The place of the connected player who joined first: the one who
    /// ranks highest.
    fn get_player_with_highest_host_rank(&self) -> (r: Option<usize>)
        ensures
            match r {
                Some(i) => is_first_connected(self.deep_view().players, i as int),
                None => all_disconnected(self.deep_view().players),
            },
    {
        let mut i: usize = 0;
        while i < self.players.len()
            invariant
                i <= self.players.len(),
                forall|j: int| 0 <= j < i ==> (#[trigger] self.deep_view().players[j]).is_disconnected,
            decreases self.players.len() - i,
        {
            if !self.players[i].is_disconnected {
                assert(!self.deep_view().players[i as int].is_disconnected);
                return Some(i);
            }
            i += 1;
        }
        None
    }

    fn update_host(&mut self)
        ensures
            final(self).deep_view() == old(self).deep_view().rehosted(),
    {
        let ghost before = self.deep_view();
        match self.get_player_with_highest_host_rank() {
            Some(i) => {
                proof {
                    let c = choose|c: int| is_first_connected(before.players, c);
                    game_laws::lemma_first_connected_unique(before.players, i as int, c);
                    assert(!before.players[i as int].is_disconnected);
                    assert(!all_disconnected(before.players));
                }
                self.host_id = self.players[i].id;
            },
            None => {},
        }
    }

    fn name_taken(&self, name: &String) -> (r: bool)
        ensures
            r == names_of(self.deep_view().players).contains(name@),
    {
        let mut i: usize = 0;
        while i < self.players.len()
            invariant
                i <= self.players.len(),
                forall|j: int| 0 <= j < i ==> names_of(self.deep_view().players)[j] != name@,
            decreases self.players.len() - i,
        {
            if self.players[i].name == *name {
                assert(names_of(self.deep_view().players)[i as int] == name@);
                return true;
            }
            i += 1;
        }
        false
    }

    /// Returns the name that the player gets: the one asked for, trimmed,
    /// or that name with a number behind it where another player has it.
    fn resolve_name(&self, proposed_name: &str) -> (name: String)
        requires
            self.deep_view().players.len() <= MAX_PLAYERS,
        ensures
            name@ == text::free_name(
                names_of(self.deep_view().players),
                text::trimmed(proposed_name@),
            ),
    {
        let trimmed_name = text::trim(proposed_name);
        let ghost taken = names_of(self.deep_view().players);
        let ghost base = trimmed_name@;
        let mut count: usize = 0;
        let mut best_name = text::make_numbered_name(trimmed_name, count);
        while count <= self.players.len() && self.name_taken(&best_name)
            invariant
                count <= self.players.len() + 1,
                self.players.len() <= MAX_PLAYERS,
                taken == names_of(self.deep_view().players),
                taken.len() == self.players.len(),
                base == trimmed_name@,
                best_name@ == text::numbered_name(base, count as nat),
                text::free_name_number(taken, base, 0) == text::free_name_number(
                    taken,
                    base,
                    count as nat,
                ),
            decreases self.players.len() + 1 - count,
        {
            count += 1;
            best_name = text::make_numbered_name(trimmed_name, count);
        }
        best_name
    }

    /// Puts the decks together with one more prompt and shuffles them.
    fn init_deck(decks: Vec<Deck<String>>) -> (deck: Deck<String>)
        ensures
            random::is_shuffle_of(
                deck.deep_view(),
                concat_all(decks.deep_view()).push("rabbit"@),
            ),
    {
        let ghost piles = decks@.map_values(|d: Deck<String>| d@);
        let ghost prompts = decks.deep_view();
        let mut combined_deck = Deck::from_decks(decks);
        proof {
            deck::lemma_concat_all_texts(piles);
            assert(Seq::new(piles.len(), |i: int| deck::texts(piles[i])) =~= prompts) by {
                assert forall|i: int| 0 <= i < piles.len() implies deck::texts(piles[i])
                    == #[trigger] prompts[i] by {
                    assert(deck::texts(piles[i]) =~= prompts[i]);
                }
            }
            assert(combined_deck.deep_view() =~= deck::texts(combined_deck@));
        }
        combined_deck.add_card("rabbit".to_owned());
        let ghost laid = combined_deck@;
        assert(deck::texts(laid) =~= concat_all(prompts).push("rabbit"@));
        combined_deck.shuffle();
        proof {
            let f = |s: String| s@;
            random::lemma_shuffle_maps(combined_deck@, laid, f);
            assert(combined_deck@.map_values(f) =~= combined_deck.deep_view());
            assert(laid.map_values(f) =~= deck::texts(laid));
        }
        combined_deck
    }

    /// What the round that is played hands on to the next one: of each
    /// connected player's drawing and imprint a few strokes, picked at random.
    fn carry_imprints(&self) -> (imprint_map: Vec<(u128, Option<Drawing>)>)
        ensures
            if self.deep_view().rounds.len() == 0 {
                imprint_map.deep_view() == Seq::<
                    (u128, Option<Seq<drawing::StrokeSpec>>),
                >::empty()
            } else {
                game_model::is_carried_from(
                    imprint_map.deep_view(),
                    self.deep_view().current_round(),
                    self.deep_view().players,
                )
            },
    {
        let mut imprint_map: Vec<(u128, Option<Drawing>)> = Vec::new();
        if self.rounds.len() == 0 {
            assert(imprint_map.deep_view() =~= Seq::empty());
            return imprint_map;
        }
        let round = &self.rounds[self.rounds.len() - 1];
        assert(round.deep_view() == self.deep_view().current_round());
        let data = round.get_data();
        let ghost entries = data.deep_view();
        let ghost roster = self.deep_view().players;
        let ghost mut fragments: Seq<Option<Seq<drawing::StrokeSpec>>> = Seq::empty();
        let mut i: usize = 0;
        assert(imprint_map.deep_view() =~= game_model::carried_imprints(
            entries.take(0),
            roster,
            fragments,
        ));
        while i < data.len()
            invariant
                i <= data.len(),
                entries == data.deep_view(),
                roster == self.players.deep_view(),
                fragments.len() == i,
                forall|j: int|
                    0 <= j < i ==> imprint_selector::is_fragment_of(
                        #[trigger] fragments[j],
                        entries[j].drawing,
                        entries[j].imprint,
                        IMPRINT_STROKES as nat,
                    ),
                imprint_map.deep_view() == game_model::carried_imprints(
                    entries.take(i as int),
                    roster,
                    fragments,
                ),
            decreases data.len() - i,
        {
            let fragment = imprint_selector::random(
                &data[i].drawing,
                &data[i].imprint,
                IMPRINT_STROKES,
            );
            let ghost so_far = imprint_map.deep_view();
            let ghost earlier = fragments;
            proof {
                fragments = fragments.push(fragment.deep_view());
                lemma_carried_prefix(entries.take(i as int), roster, earlier, fragments);
                assert(entries.take(i + 1).drop_last() =~= entries.take(i as int));
                assert(entries.take(i + 1).last() == entries[i as int]);
            }
            if round::is_connected_player(&self.players, data[i].player_id) {
                imprint_map.push((data[i].player_id, fragment));
                assert(imprint_map.deep_view() =~= so_far.push(
                    (entries[i as int].player_id, fragments[i as int]),
                ));
            }
            i += 1;
        }
        assert(entries.take(i as int) =~= entries);
        imprint_map
    }

    /// Begins the next round.
    fn start_next_round(&mut self)
        requires
            game_laws::ready_for_round(old(self).deep_view()),
        ensures
            old(self).deep_view().is_next_round(final(self).deep_view()),
    {
        let ghost before = self.deep_view();
        let imprint_map = self.carry_imprints();
        let n = self.rounds.len();
        proof {
            assert(self.drawing_suggestions_deck is Some);
            assert(self.drawing_suggestions_deck.unwrap().deep_view().len()
                == self.drawing_suggestions_deck.unwrap()@.len());
        }
        let ghost cards = self.drawing_suggestions_deck.unwrap()@;
        let opened = match &mut self.drawing_suggestions_deck {
            Some(deck) => Round::new(&self.players, deck, &imprint_map),
            None => None,
        };
        let round = opened.unwrap();
        let ghost entries = round.deep_view();
        proof {
            let (handed, drawing_ids) = choose|
                handed: imprint_mapper::ImprintMapSpec,
                drawing_ids: Seq<u128>,
            |
                entries == #[trigger] round::assembled(
                    before.players,
                    before.deck.unwrap(),
                    handed,
                    drawing_ids,
                );
            round::lemma_assembled_len(
                before.players,
                before.deck.unwrap(),
                handed,
                drawing_ids,
            );
            game_laws::lemma_assembled_entries(
                before.players,
                before.deck.unwrap(),
                handed,
                drawing_ids,
            );
            assert(self.drawing_suggestions_deck.unwrap()@ == cards.take(cards.len() - entries.len()));
            assert(self.drawing_suggestions_deck.unwrap().deep_view() =~= before.deck.unwrap().take(
                before.deck.unwrap().len() - entries.len(),
            ));
        }
        self.curr_round = Some(n + 1);
        let ghost played = self.rounds.deep_view();
        self.rounds.push(round);
        assert(self.rounds.deep_view() =~= played.push(entries));
        self.state = GameState::DrawingPhase;
        roster::set_all_states(&mut self.players, PlayerState::Drawing);
        self.broadcast(&Broadcast::Lobby);
        proof {
            let now = self.deep_view();
            assert(now.current_round() == entries);
            assert forall|i: int|
                0 <= i < now.players.len() && !(#[trigger] now.players[i]).is_disconnected implies has_entry(
                now.current_round(),
                now.players[i].id,
            ) by {
                assert(!before.players[i].is_disconnected);
            }
        }
        self.broadcast(&Broadcast::DrawingParameters);
        proof {
            assert(round::is_new_round(
                entries,
                before.players,
                before.deck.unwrap(),
                imprint_map.deep_view(),
            ));
            assert(self.deep_view() == before.round_opened(entries));
        }
    }

    /// While drawing, once every connected player has handed in, opens the
    /// vote.
    fn go_to_voting_phase_if_drawing_is_done(&mut self)
        requires
            old(self).deep_view().state == GameState::DrawingPhase ==> old(self).deep_view().rounds.len() > 0 && old(self).deep_view().curr_round is Some,
        ensures
            final(self).deep_view() == old(self).deep_view().drawing_settled(),
    {
        if self.state == GameState::DrawingPhase {
            let n = self.rounds.len();
            assert(self.rounds@[n - 1].deep_view() == self.deep_view().current_round());
            if self.rounds[n - 1].is_done_drawing(&self.players) {
                self.broadcast(&Broadcast::VotingBallot);
                self.state = GameState::VotingPhase;
                roster::set_all_states(&mut self.players, PlayerState::Voting);
                self.broadcast(&Broadcast::Lobby);
            }
        }
    }

    /// The entry with the most votes of all rounds, as it is announced.
    fn best_drawing(&self) -> (r: Option<Results>)
        ensures
            r.deep_view() == match best_over(self.deep_view().rounds) {
                Some(entry) => Some(results_of(entry)),
                None => None,
            },
    {
        let ghost rounds = self.rounds.deep_view();
        let mut best: Option<(usize, usize)> = None;
        let ghost mut best_entry: Option<RoundDataPerPlayerSpec> = None;
        let mut r: usize = 0;
        assert(rounds.take(0).len() == 0);
        while r < self.rounds.len()
            invariant
                r <= self.rounds.len(),
                rounds == self.rounds.deep_view(),
                best_entry == best_over(rounds.take(r as int)),
                match best {
                    Some((a, b)) => a < self.rounds.len() && b < rounds[a as int].len()
                        && best_entry == Some(rounds[a as int][b as int]),
                    None => best_entry is None,
                },
            decreases self.rounds.len() - r,
        {
            let data = self.rounds[r].get_data();
            let ghost entries = data.deep_view();
            let ghost seed = best_entry;
            assert(entries == rounds[r as int]);
            let mut e: usize = 0;
            assert(entries.take(0).len() == 0);
            while e < data.len()
                invariant
                    e <= data.len(),
                    r < self.rounds.len(),
                    rounds == self.rounds.deep_view(),
                    entries == data.deep_view(),
                    entries == rounds[r as int],
                    best_entry == best_in(entries.take(e as int), seed),
                    match best {
                        Some((a, b)) => a < self.rounds.len() && b < rounds[a as int].len()
                            && best_entry == Some(rounds[a as int][b as int]),
                        None => best_entry is None,
                    },
                decreases data.len() - e,
            {
                proof {
                    assert(entries.take(e + 1).drop_last() =~= entries.take(e as int));
                    assert(entries.take(e + 1).last() == entries[e as int]);
                }
                let better = match best {
                    Some((a, b)) => {
                        let other = self.rounds[a].get_data();
                        assert(other.deep_view()[b as int] == rounds[a as int][b as int]);
                        data[e].votes > other[b].votes
                    },
                    None => true,
                };
                if better {
                    best = Some((r, e));
                    proof {
                        best_entry = Some(entries[e as int]);
                    }
                }
                e += 1;
            }
            proof {
                assert(entries.take(e as int) =~= entries);
                assert(rounds.take(r + 1).drop_last() =~= rounds.take(r as int));
                assert(rounds.take(r + 1).last() == rounds[r as int]);
            }
            r += 1;
        }
        assert(rounds.take(r as int) =~= rounds);
        match best {
            Some((a, b)) => {
                let data = self.rounds[a].get_data();
                assert(data.deep_view()[b as int] == rounds[a as int][b as int]);
                let entry = &data[b];
                let drawing = match &entry.drawing {
                    Some(d) => clone_drawing(d),
                    None => Vec::new(),
                };
                assert(drawing.deep_view() =~= imprint_selector::strokes_of(
                    entry.drawing.deep_view(),
                ));
                Some(
                    Results {
                        highest_rated_drawing: drawing,
                        imprint: clone_optional_drawing(&entry.imprint),
                        num_votes: entry.votes,
                        drawing_suggestion: entry.drawing_suggestion.clone(),
                    },
                )
            },
            None => None,
        }
    }

    /// While voting, once every connected player has voted, adds the votes
    /// to the scores and either ends the game or begins the next round. Says
    /// whether the game ended because the next round could not be dealt.
    fn finish_round_if_voting_phase_is_done(&mut self) -> (out_of_prompts: bool)
        requires
            old(self).wf(),
        ensures
            old(self).deep_view().is_voting_settled(final(self).deep_view()),
            out_of_prompts == old(self).deep_view().is_out_of_prompts(),
    {
        let ghost before = self.deep_view();
        let mut out_of_prompts = false;
        if self.state == GameState::VotingPhase {
            let n = self.rounds.len();
            assert(self.rounds@[n - 1].deep_view() == before.current_round());
            if self.rounds[n - 1].is_done_voting(&self.players) {
                let scores = self.rounds[n - 1].get_scores();
                proof {
                    game_laws::lemma_scored(before);
                    assert forall|i: int| 0 <= i < before.players.len() implies -0x4000_0000_0000_0000
                        <= (#[trigger] before.players[i]).score <= 0x4000_0000_0000_0000 by {
                        assert(before.rounds.len() <= MAX_ROUNDS);
                    }
                }
                roster::add_scores(&mut self.players, &scores);
                assert(self.deep_view() == before.scored());
                let last = self.curr_round == Some(self.settings.rounds);
                let dealt = match &self.drawing_suggestions_deck {
                    Some(deck) => round::count_connected(&self.players) <= deck.len(),
                    None => false,
                };
                assert(self.drawing_suggestions_deck is Some);
                assert(self.drawing_suggestions_deck.unwrap().deep_view().len()
                    == self.drawing_suggestions_deck.unwrap()@.len());
                assert(dealt == (round::connected_count(before.players)
                    <= before.deck.unwrap().len()));
                if last || !dealt {
                    out_of_prompts = !last;
                    self.state = GameState::Results;
                    roster::set_all_states(&mut self.players, PlayerState::NotReady);
                    let best = self.best_drawing();
                    // Important: send scores before sending the results
                    self.broadcast(&Broadcast::Lobby);
                    match best {
                        Some(results) => {
                            self.broadcast(&Broadcast::Results(results));
                        },
                        None => {},
                    }
                } else {
                    self.start_next_round();
                }
            }
        }
        out_of_prompts
    }
}

// Commands
impl Game {
    /// Opens a room. Its host is its only player and is shown the room and
    /// its settings.
    pub fn new(room_code: String, host_player_id: u128, host_player_name: String) -> (game: Self)
        ensures
            game.wf(),
            game.deep_view() == GameSpec::created(room_code@, host_player_id, host_player_name@),
    {
        let names = get_available_deck_names();
        let mut decks: Vec<(String, bool)> = Vec::new();
        let mut i: usize = 0;
        while i < names.len()
            invariant
                i <= names.len(),
                names.deep_view() == available_deck_names(),
                decks.len() == i,
                forall|j: int|
                    0 <= j < i ==> (#[trigger] decks@[j]).deep_view() == (
                        available_deck_names()[j],
                        true,
                    ),
            decreases names.len() - i,
        {
            let name = names[i].to_owned();
            assert(name@ == names.deep_view()[i as int]);
            decks.push((name, true));
            i += 1;
        }
        assert(decks.deep_view() =~= default_settings().drawing_decks_included);
        let mut players: Vec<Player> = Vec::new();
        players.push(Player::new(host_player_id, host_player_name, 0));
        assert(players.deep_view() =~= seq![
            PlayerSpec::fresh(host_player_id, host_player_name@, 0),
        ]);
        let rounds: Vec<Round> = Vec::new();
        assert(rounds.deep_view() =~= Seq::empty());
        let outbox: Vec<Outbound> = Vec::new();
        assert(outbox.deep_view() =~= Seq::empty());
        let mut new_game = Game {
            room_code,
            settings: GameSettings {
                mode: GameMode::Default,
                rounds: 5,
                drawing_phase_time_limit_seconds: None,
                voting_phase_time_limit_seconds: None,
                drawing_decks_included: decks,
            },
            state: GameState::WaitingForPlayers,
            last_player_host_rank: 0,
            host_id: host_player_id,
            players,
            curr_round: None,
            rounds,
            drawing_suggestions_deck: None,
            outbox,
        };
        new_game.broadcast(&Broadcast::Lobby);
        new_game.broadcast(&Broadcast::Settings);
        proof {
            game_laws::lemma_created_wf(room_code@, host_player_id, host_player_name@);
        }
        new_game
    }

    /// Lets a player into the room while players are waited for.
    pub fn add_player(&mut self, client_id: u128, proposed_name: &str) -> (r: Result<
        (),
        JoinGameError,
    >)
        requires
            old(self).wf(),
        ensures
            final(self).wf(),
            match r {
                Ok(_) => {
                    &&& old(self).deep_view().join_fault(client_id) is None
                    &&& final(self).deep_view() == old(self).deep_view().joined(
                        client_id,
                        proposed_name@,
                    )
                },
                Err(e) => {
                    &&& old(self).deep_view().join_fault(client_id) == Some(e)
                    &&& final(self).deep_view() == old(self).deep_view()
                },
            },
    {
        let ghost before = self.deep_view();
        if self.players.len() >= MAX_PLAYERS {
            return Err(JoinGameError::GameFull);
        }
        if self.state != GameState::WaitingForPlayers {
            return Err(JoinGameError::GameAlreadyStarted);
        }
        if self.player_position(&client_id).is_some() {
            return Err(JoinGameError::ClientIsAlreadyInAGame);
        }
        let message = self.message_for(&Broadcast::Settings, client_id);
        let ghost sent = self.outbox.deep_view();
        self.outbox.push(Outbound { recipient: client_id, message });
        assert(self.outbox.deep_view() =~= sent + seq![
            OutboundSpec {
                recipient: client_id,
                message: before.message_for(BroadcastSpec::Settings, client_id),
            },
        ]);
        let name = self.resolve_name(proposed_name);
        if self.last_player_host_rank == usize::MAX {
            roster::renumber_ranks(&mut self.players);
            self.last_player_host_rank = self.players.len();
        }
        self.last_player_host_rank += 1;
        let ghost roster = self.players.deep_view();
        self.players.push(Player::new(client_id, name, self.last_player_host_rank));
        assert(self.players.deep_view() =~= roster.push(
            PlayerSpec::fresh(client_id, name@, self.last_player_host_rank),
        ));
        self.update_host();
        self.broadcast(&Broadcast::Lobby);
        proof {
            game_laws::lemma_joined_wf(before, client_id, proposed_name@);
        }
        Ok(())
    }

    /// Takes note that the connection of a player closed. A player who is
    /// not in a running game is taken off the room; one who is, is marked as
    /// disconnected. Where that ends the vote and the next round cannot be
    /// dealt, the game ends and the failure is reported.
    pub fn disconnect_player(&mut self, client_id: &u128) -> (r: Result<(), DisconnectError>)
        requires
            old(self).wf(),
        ensures
            final(self).wf(),
            old(self).deep_view().is_disconnect(final(self).deep_view(), *client_id),
            r == match old(self).deep_view().disconnect_fault(*client_id) {
                Some(e) => Err::<(), DisconnectError>(e),
                None => Ok(()),
            },
    {
        let ghost before = self.deep_view();
        let mut out_of_prompts = false;
        if self.player_position(client_id).is_some() {
            match self.state {
                GameState::WaitingForPlayers | GameState::Results => {
                    let kept = roster::remove_player(&self.players, *client_id);
                    self.players = kept;
                    self.update_host();
                },
                GameState::DrawingPhase => {
                    roster::mark_disconnected(&mut self.players, *client_id);
                    self.update_host();
                    proof {
                        game_laws::lemma_marked_wf(before, *client_id);
                    }
                    if !self.all_players_disconnected() {
                        self.go_to_voting_phase_if_drawing_is_done();
                    }
                },
                GameState::VotingPhase => {
                    roster::mark_disconnected(&mut self.players, *client_id);
                    self.update_host();
                    proof {
                        game_laws::lemma_marked_wf(before, *client_id);
                    }
                    if !self.all_players_disconnected() {
                        out_of_prompts = self.finish_round_if_voting_phase_is_done();
                    }
                },
            }
        }
        let ghost settled = self.deep_view();
        self.broadcast(&Broadcast::Lobby);
        proof {
            assert(self.deep_view() == settled.announce(BroadcastSpec::Lobby));
            game_laws::lemma_disconnect_wf(before, self.deep_view(), *client_id);
        }
        if out_of_prompts {
            Err(DisconnectError::NotEnoughPrompts)
        } else {
            Ok(())
        }
    }

    /// Says whether the player can start the game, given decks with
    /// prompts for the first round. The decks need not be read before.
    pub fn check_start(&self, client_id: &u128) -> (r: Result<(), StartGameError>)
        ensures
            r == match self.deep_view().start_refusal(*client_id) {
                Some(e) => Err::<(), StartGameError>(e),
                None => Ok(()),
            },
    {
        if !self.is_host(client_id) {
            return Err(StartGameError::ClientIsNotTheHost);
        }
        if self.state != GameState::WaitingForPlayers {
            return Err(StartGameError::GameAlreadyStarted);
        }
        if self.players.len() < MIN_PLAYERS {
            return Err(StartGameError::MinimumPlayersNotReached);
        }
        Ok(())
    }

    /// Takes the settings of the host while players are waited for.
    #[verifier::loop_isolation(false)]
    pub fn update_settings(&mut self, client_id: &u128, game_settings: &GameSettings) -> (r: Result<
        (),
        UpdateGameSettingsError,
    >)
        requires
            old(self).wf(),
        ensures
            final(self).wf(),
            match r {
                Ok(_) => {
                    &&& old(self).deep_view().settings_fault(*client_id, game_settings.deep_view())
                        is None
                    &&& final(self).deep_view() == old(self).deep_view().settings_applied(
                        game_settings.deep_view(),
                    )
                },
                Err(e) => {
                    &&& old(self).deep_view().settings_fault(*client_id, game_settings.deep_view())
                        == Some(e)
                    &&& final(self).deep_view() == old(self).deep_view()
                },
            },
    {
        let ghost before = self.deep_view();
        let ghost updates = game_settings.drawing_decks_included.deep_view();
        if self.state != GameState::WaitingForPlayers {
            return Err(UpdateGameSettingsError::GameAlreadyStarted);
        }
        if !self.is_host(client_id) {
            return Err(UpdateGameSettingsError::ClientIsNotTheHost);
        }
        if game_settings.rounds < 1 || game_settings.rounds > MAX_ROUNDS {
            return Err(UpdateGameSettingsError::InvalidNumRounds);
        }
        if let Some(drawing_limit) = game_settings.drawing_phase_time_limit_seconds {
            if drawing_limit > MAX_PHASE_SECONDS {
                return Err(UpdateGameSettingsError::InvalidDrawingTimeLimit);
            }
        }
        if let Some(voting_limit) = game_settings.voting_phase_time_limit_seconds {
            if voting_limit > MAX_PHASE_SECONDS {
                return Err(UpdateGameSettingsError::InvalidVotingTimeLimit);
            }
        }
        // verify that this game update doesn't remove all the decks
        if self.settings.removes_all(&game_settings.drawing_decks_included) {
            return Err(UpdateGameSettingsError::SettingRemovesAllDecks);
        }
        let mut k: usize = 0;
        while k < game_settings.drawing_decks_included.len()
            invariant
                k <= game_settings.drawing_decks_included.len(),
                self.deep_view() == before,
                updates == game_settings.drawing_decks_included.deep_view(),
                forall|j: int|
                    0 <= j < k ==> available_deck_names().contains(#[trigger] updates[j].0),
            decreases game_settings.drawing_decks_included.len() - k,
        {
            if !is_available_deck(&game_settings.drawing_decks_included[k].0) {
                assert(!available_deck_names().contains(updates[k as int].0));
                return Err(UpdateGameSettingsError::DeckDoesNotExist);
            }
            k += 1;
        }
        // Apply settings after passing input validation
        let decks = self.settings.merged(&game_settings.drawing_decks_included);
        self.settings.mode = game_settings.mode;
        self.settings.rounds = game_settings.rounds;
        self.settings.drawing_phase_time_limit_seconds =
            game_settings.drawing_phase_time_limit_seconds;
        self.settings.voting_phase_time_limit_seconds = game_settings.voting_phase_time_limit_seconds;
        self.settings.drawing_decks_included = decks;
        self.broadcast(&Broadcast::Settings);
        proof {
            game_laws::lemma_settings_applied_wf(
                before,
                *client_id,
                game_settings.deep_view(),
            );
        }
        Ok(())
    }

    /// Starts the game for the host with the prompts of the decks handed
    /// over, which are those that the settings name. They must do for the
    /// first round; a later round that cannot be dealt ends the game.
    pub fn start_game(&mut self, client_id: &u128, decks: Vec<Deck<String>>) -> (r: Result<
        (),
        StartGameError,
    >)
        requires
            old(self).wf(),
        ensures
            final(self).wf(),
            match r {
                Ok(_) => {
                    &&& old(self).deep_view().start_fault(
                        *client_id,
                        concat_all(decks.deep_view()).len(),
                    ) is None
                    &&& old(self).deep_view().is_game_start(
                        final(self).deep_view(),
                        decks.deep_view(),
                    )
                },
                Err(e) => {
                    &&& old(self).deep_view().start_fault(
                        *client_id,
                        concat_all(decks.deep_view()).len(),
                    ) == Some(e)
                    &&& final(self).deep_view() == old(self).deep_view()
                },
            },
    {
        let ghost before = self.deep_view();
        let ghost prompts = decks.deep_view();
        match self.check_start(client_id) {
            Err(e) => {
                return Err(e);
            },
            Ok(_) => {},
        }
        let deck = Self::init_deck(decks);
        assert(deck.deep_view().len() == concat_all(prompts).len() + 1);
        if deck.len() < round::count_connected(&self.players) {
            return Err(StartGameError::NotEnoughPrompts);
        }
        let ghost shuffled = deck.deep_view();
        self.drawing_suggestions_deck = Some(deck);
        proof {
            assert(self.deep_view() == before.with_deck(shuffled));
            game_laws::lemma_game_start_ready(
                before,
                *client_id,
                shuffled,
                concat_all(prompts).len(),
            );
        }
        self.start_next_round();
        proof {
            game_laws::lemma_next_round_wf(before.with_deck(shuffled), self.deep_view());
        }
        Ok(())
    }

    /// Brings the room back to waiting for players, for the host, once a
    /// game is over.
    pub fn play_again(&mut self, client_id: &u128) -> (r: Result<(), PlayAgainError>)
        requires
            old(self).wf(),
        ensures
            final(self).wf(),
            match r {
                Ok(_) => {
                    &&& old(self).deep_view().replay_fault(*client_id) is None
                    &&& final(self).deep_view() == old(self).deep_view().replayed()
                },
                Err(e) => {
                    &&& old(self).deep_view().replay_fault(*client_id) == Some(e)
                    &&& final(self).deep_view() == old(self).deep_view()
                },
            },
    {
        let ghost before = self.deep_view();
        if !self.is_host(client_id) {
            return Err(PlayAgainError::ClientIsNotTheHost);
        }
        if self.state != GameState::Results {
            return Err(PlayAgainError::GameIsNotOver);
        }
        let kept = roster::remove_disconnected(&self.players);
        self.players = kept;
        self.state = GameState::WaitingForPlayers;
        self.curr_round = None;
        self.rounds = Vec::new();
        assert(self.rounds.deep_view() =~= Seq::empty());
        roster::reset_scores(&mut self.players);
        self.broadcast(&Broadcast::Lobby);
        proof {
            game_laws::lemma_replayed_wf(before);
        }
        Ok(())
    }

    /// Takes note whether a player of the room is ready.
    pub fn set_player_ready(&mut self, client_id: &u128, ready_state: bool)
        requires
            old(self).wf(),
            has_player(old(self).deep_view().players, *client_id),
        ensures
            final(self).wf(),
            final(self).deep_view() == old(self).deep_view().readied(*client_id, ready_state),
    {
        let ghost before = self.deep_view();
        let state = match ready_state {
            true => PlayerState::Ready,
            false => PlayerState::NotReady,
        };
        self.set_player_state(client_id, state);
        proof {
            game_laws::lemma_readied_wf(before, *client_id, ready_state);
        }
    }

    /// Takes the drawing of a player for the round that is played. A
    /// drawing for another round is turned down whoever hands it in; one for
    /// the round that is played must come from a player of that round.
    pub fn submit_drawing(&mut self, client_id: &u128, drawing: Drawing, round: usize) -> (r: Result<
        (),
        SubmitDrawingError,
    >)
        requires
            old(self).wf(),
            old(self).deep_view().curr_round == Some(round) ==> has_entry(
                old(self).deep_view().current_round(),
                *client_id,
            ),
        ensures
            final(self).wf(),
            match r {
                Ok(_) => {
                    &&& old(self).deep_view().drawing_fault(*client_id, round) is None
                    &&& final(self).deep_view() == old(self).deep_view().drawing_submitted(
                        *client_id,
                        drawing.deep_view(),
                    )
                },
                Err(e) => {
                    &&& old(self).deep_view().drawing_fault(*client_id, round) == Some(e)
                    &&& final(self).deep_view() == old(self).deep_view()
                },
            },
    {
        let ghost before = self.deep_view();
        let ghost strokes = drawing.deep_view();
        if self.curr_round != Some(round) {
            return Err(SubmitDrawingError::DrawingSubmittedForWrongRound);
        }
        let n = self.rounds.len();
        proof {
            assert(self.rounds@[n - 1].deep_view() == before.current_round());
        }
        let ghost played = self.rounds.deep_view();
        match self.rounds[n - 1].set_drawing(client_id, drawing) {
            Err(e) => {
                assert(self.rounds.deep_view() =~= played);
                return Err(e);
            },
            Ok(_) => {},
        }
        assert(self.rounds.deep_view() =~= played.update(
            n - 1,
            round::with_drawing(before.current_round(), *client_id, strokes),
        ));
        self.set_player_state(client_id, PlayerState::DrawingDone);
        self.go_to_voting_phase_if_drawing_is_done();
        proof {
            game_laws::lemma_drawing_submitted_wf(before, *client_id, strokes);
        }
        Ok(())
    }

    /// Takes the ballot of a player for the round that is played. A ballot
    /// of more than three votes, or one before any round, is turned down
    /// whoever hands it in; any other must come from a player of that round.
    pub fn submit_vote(&mut self, client_id: &u128, votes: HashMap<u128, i32>) -> (r: Result<
        (),
        SubmitVoteError,
    >)
        requires
            old(self).wf(),
            old(self).deep_view().rounds.len() > 0 && round::ballot_total(votes@)
                <= round::MAX_VOTES_PER_ROUND ==> has_entry(
                old(self).deep_view().current_round(),
                *client_id,
            ),
        ensures
            final(self).wf(),
            match r {
                Ok(_) => {
                    &&& old(self).deep_view().vote_fault(*client_id, votes@) is None
                    &&& old(self).deep_view().vote_counted(*client_id, votes@).is_voting_settled(
                        final(self).deep_view(),
                    )
                },
                Err(e) => {
                    &&& old(self).deep_view().vote_fault(*client_id, votes@) == Some(e)
                    &&& if e == SubmitVoteError::NotEnoughPrompts {
                        old(self).deep_view().vote_counted(*client_id, votes@).is_voting_settled(
                            final(self).deep_view(),
                        )
                    } else {
                        final(self).deep_view() == old(self).deep_view()
                    }
                },
            },
    {
        let ghost before = self.deep_view();
        let ghost ballot = votes@;
        let n = self.rounds.len();
        if n == 0 {
            return Err(SubmitVoteError::GameHasNotStarted);
        }
        proof {
            assert(self.rounds@[n - 1].deep_view() == before.current_round());
        }
        let ghost played = self.rounds.deep_view();
        match self.rounds[n - 1].submit_vote(client_id, votes) {
            Err(e) => {
                assert(self.rounds.deep_view() =~= played);
                return Err(e);
            },
            Ok(_) => {},
        }
        assert(self.rounds.deep_view() =~= played.update(
            n - 1,
            round::with_ballot(before.current_round(), *client_id, ballot),
        ));
        self.set_player_state(client_id, PlayerState::VotingDone);
        proof {
            game_laws::lemma_vote_counted_wf(before, *client_id, ballot);
        }
        let ghost counted = self.deep_view();
        let out_of_prompts = self.finish_round_if_voting_phase_is_done();
        proof {
            game_laws::lemma_voting_settled_wf(counted, self.deep_view());
        }
        if out_of_prompts {
            Err(SubmitVoteError::NotEnoughPrompts)
        } else {
            Ok(())
        }
    }

    fn set_player_state(&mut self, client_id: &u128, state: PlayerState)
        ensures
            final(self).deep_view() == old(self).deep_view().with_players(
                with_player_state(old(self).deep_view().players, *client_id, state),
            ).announce(BroadcastSpec::Lobby),
    {
        roster::set_state_of(&mut self.players, *client_id, state);
        self.broadcast(&Broadcast::Lobby);
    }

    /// Shows every connected player the room.
    pub fn broadcast_lobby_update(&mut self)
        requires
            old(self).wf(),
        ensures
            final(self).wf(),
            final(self).deep_view() == old(self).deep_view().announce(BroadcastSpec::Lobby),
    {
        self.broadcast(&Broadcast::Lobby);
    }

    /// Sends every connected player the settings.
    pub fn broadcast_settings_update(&mut self)
        requires
            old(self).wf(),
        ensures
            final(self).wf(),
            final(self).deep_view() == old(self).deep_view().announce(BroadcastSpec::Settings),
    {
        self.broadcast(&Broadcast::Settings);
    }

    /// Sends every connected player the results.
    pub fn broadcast_results(&mut self, results: Results)
        requires
            old(self).wf(),
        ensures
            final(self).wf(),
            final(self).deep_view() == old(self).deep_view().announce(
                BroadcastSpec::Results(results.deep_view()),
            ),
    {
        self.broadcast(&Broadcast::Results(results));
    }

    /// Tells every connected player what to draw in the round that is
    /// played.
    pub fn send_drawing_parameters(&mut self)
        requires
            old(self).wf(),
            old(self).deep_view().rounds.len() > 0,
        ensures
            final(self).wf(),
            final(self).deep_view() == old(self).deep_view().announce(
                BroadcastSpec::DrawingParameters,
            ),
    {
        self.broadcast(&Broadcast::DrawingParameters);
    }
}

/// What is handed on does not depend on fragments beyond the entries.
pub proof fn lemma_carried_prefix(
    entries: round::RoundSpec,
    players: Seq<PlayerSpec>,
    fragments: Seq<Option<Seq<drawing::StrokeSpec>>>,
    more: Seq<Option<Seq<drawing::StrokeSpec>>>,
)
    requires
        entries.len() <= fragments.len() <= more.len(),
        forall|i: int| 0 <= i < fragments.len() ==> fragments[i] == more[i],
    ensures
        game_model::carried_imprints(entries, players, fragments)
            == game_model::carried_imprints(entries, players, more),
    decreases entries.len(),
{
    if entries.len() > 0 {
        lemma_carried_prefix(entries.drop_last(), players, fragments, more);
    }
}

} // verus!
