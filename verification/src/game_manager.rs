//! The rooms of a server, and who plays in which.
//!
//! Every command of a player comes here with the identity of the player. The
//! manager finds the room of the player, hands the command to it and gathers
//! the messages that the room owes.
//!
//! The rooms are a list in the order in which they were opened, no code
//! twice. Who plays where is a hash map from the player to the code.

use crate::deck::{concat_all, Deck};
use crate::drawing::Drawing;
use crate::errors::{
    CreateGameError, DisconnectError, JoinGameError, PlayAgainError, SetPlayerReadyError,
    StartGameError, SubmitDrawingError, SubmitVoteError, UpdateGameSettingsError,
};
use crate::game::Game;
use crate::game_laws::same_members;
use crate::game_model::{all_disconnected, GameSpec};
use crate::game_settings::{included_names, GameSettings};
use crate::room_code_generator::{next_count, room_code, RoomCodeGenerator, RoomCodeGeneratorSpec};
use crate::round::is_connected;
use crate::server_messages::{Outbound, OutboundSpec};
use crate::{game_laws, game_model, player_view};
use std::collections::HashMap;
use vstd::prelude::*;

verus! {

broadcast use vstd::std_specs::hash::group_hash_axioms;

/// The least length of a room code.
pub const ROOM_CODE_LENGTH: u8 = 4;

/// Mathematical value of a [`GameManager`].
pub struct GameManagerSpec {
    pub room_code_generator: RoomCodeGeneratorSpec,
    /// The rooms, in the order they were opened.
    pub games: Seq<GameSpec>,
    /// For each connected player the code of the room they play in.
    pub room_code_by_client_id: Map<u128, Seq<char>>,
    /// The messages owed to players and not yet taken by the transport.
    pub outbox: Seq<OutboundSpec>,
}

/// The room with no message owed.
pub open spec fn drained(g: GameSpec) -> GameSpec {
    GameSpec { outbox: Seq::empty(), ..g }
}

/// Whether the room at `i` has that code.
pub open spec fn is_room_at(games: Seq<GameSpec>, code: Seq<char>, i: int) -> bool {
    0 <= i < games.len() && games[i].room_code == code
}

/// The place of the room of that code.
pub open spec fn room_index(games: Seq<GameSpec>, code: Seq<char>) -> int {
    choose|i: int| is_room_at(games, code, i)
}

/// A room that owes nothing is the same with its messages taken.
pub proof fn lemma_drained_same(g: GameSpec)
    requires
        g.outbox.len() == 0,
    ensures
        drained(g) == g,
{
    assert(g.outbox =~= Seq::empty());
}

impl GameManagerSpec {
    /// Whether the room at `i` has that code.
    pub open spec fn is_room(self, code: Seq<char>, i: int) -> bool {
        is_room_at(self.games, code, i)
    }

    /// Whether a room has that code.
    pub open spec fn has_room(self, code: Seq<char>) -> bool {
        exists|i: int| is_room_at(self.games, code, i)
    }

    /// The place of the room of that code.
    pub open spec fn room_of(self, code: Seq<char>) -> int {
        room_index(self.games, code)
    }

    /// Whether the player plays in a room.
    pub open spec fn is_in_a_game(self, id: u128) -> bool {
        self.room_code_by_client_id.contains_key(id)
    }

    /// The place of the room that the player plays in.
    pub open spec fn seat_of(self, id: u128) -> int
        recommends
            self.is_in_a_game(id),
    {
        self.room_of(self.room_code_by_client_id[id])
    }

    /// The manager is in order: every room is, and owes nothing; no two
    /// rooms have the same code; and a player is recorded for a room exactly
    /// if they are a connected player of it.
    pub open spec fn wf(self) -> bool {
        &&& forall|i: int|
            0 <= i < self.games.len() ==> (#[trigger] self.games[i]).wf() && self.games[i].outbox.len()
                == 0
        &&& forall|i: int, j: int|
            0 <= i < j < self.games.len() ==> (#[trigger] self.games[i]).room_code != (
            #[trigger] self.games[j]).room_code
        &&& forall|id: u128| #[trigger]
            self.room_code_by_client_id.contains_key(id) ==> self.has_room(
                self.room_code_by_client_id[id],
            ) && is_connected(self.games[self.seat_of(id)].players, id)
        &&& forall|i: int, id: u128|
            0 <= i < self.games.len() && #[trigger] is_connected(self.games[i].players, id)
                ==> self.room_code_by_client_id.contains_key(id) && self.room_code_by_client_id[id]
                == self.games[i].room_code
    }

    /// The manager after the room at `i` became `after` and handed over
    /// what it owed.
    pub open spec fn routed(self, i: int, after: GameSpec) -> GameManagerSpec {
        GameManagerSpec {
            games: self.games.update(i, drained(after)),
            outbox: self.outbox + after.outbox,
            ..self
        }
    }

    /// The manager after the player opened a room of that code.
    pub open spec fn opened(self, id: u128, name: Seq<char>, code: Seq<char>) -> GameManagerSpec {
        let game = GameSpec::created(code, id, name);
        GameManagerSpec {
            games: self.games.push(drained(game)),
            room_code_by_client_id: self.room_code_by_client_id.insert(id, code),
            outbox: self.outbox + game.outbox,
            ..self
        }
    }

    /// The manager after its generator made one more code.
    pub open spec fn counted(self) -> GameManagerSpec {
        GameManagerSpec {
            room_code_generator: RoomCodeGeneratorSpec {
                count: next_count(self.room_code_generator.count),
                ..self.room_code_generator
            },
            ..self
        }
    }

    /// The code that the generator makes next.
    pub open spec fn next_code(self) -> Seq<char> {
        room_code(
            self.room_code_generator.seed,
            self.room_code_generator.length,
            next_count(self.room_code_generator.count),
        )
    }

    /// Why the player cannot open a room of that code, if they cannot.
    pub open spec fn create_fault(self, id: u128, code: Seq<char>) -> Option<CreateGameError> {
        if self.is_in_a_game(id) {
            Some(CreateGameError::ClientIsAlreadyInAGame)
        } else if self.has_room(code) {
            Some(CreateGameError::RoomCodeTaken)
        } else {
            None
        }
    }

    /// Why the player cannot join the room of that code, if they cannot.
    pub open spec fn join_fault(self, id: u128, code: Seq<char>) -> Option<JoinGameError> {
        if self.is_in_a_game(id) {
            Some(JoinGameError::ClientIsAlreadyInAGame)
        } else if !self.has_room(code) {
            Some(JoinGameError::RoomDoesNotExist)
        } else {
            self.games[self.room_of(code)].join_fault(id)
        }
    }

    /// The manager after the player joined the room of that code.
    pub open spec fn joined(self, id: u128, code: Seq<char>, proposed_name: Seq<char>) -> GameManagerSpec {
        let i = self.room_of(code);
        GameManagerSpec {
            room_code_by_client_id: self.room_code_by_client_id.insert(id, code),
            ..self.routed(i, self.games[i].joined(id, proposed_name))
        }
    }

    /// What failure of the server the closing of the player's connection
    /// brings to light, if any.
    pub open spec fn removal_fault(self, id: u128) -> Option<DisconnectError> {
        if self.is_in_a_game(id) {
            self.games[self.seat_of(id)].disconnect_fault(id)
        } else {
            None
        }
    }

    /// Why the player cannot start the game in their room whatever decks
    /// are handed over, if that is so.
    pub open spec fn start_refusal(self, id: u128) -> Option<StartGameError> {
        if self.is_in_a_game(id) {
            self.games[self.seat_of(id)].start_refusal(id)
        } else {
            Some(StartGameError::ClientIsNotInAGame)
        }
    }

    /// Whether `next` can be the manager after the connection of the player
    /// closed: the player is recorded for no room any more, their room took
    /// note, and it is gone if nobody in it is connected.
    pub open spec fn is_removal(self, next: GameManagerSpec, id: u128) -> bool {
        if !self.is_in_a_game(id) {
            next == self
        } else {
            let i = self.seat_of(id);
            exists|after: GameSpec|
                {
                    &&& #[trigger] self.games[i].is_disconnect(after, id)
                    &&& next == GameManagerSpec {
                        games: if all_disconnected(after.players) {
                            self.games.remove(i)
                        } else {
                            self.games.update(i, drained(after))
                        },
                        room_code_by_client_id: self.room_code_by_client_id.remove(id),
                        outbox: self.outbox + after.outbox,
                        ..self
                    }
                }
        }
    }
}

/// A manager in order is in order after one of its rooms changed, if that
/// room is in order and has the members it had.
pub proof fn lemma_routed_wf(m: GameManagerSpec, i: int, after: GameSpec)
    requires
        m.wf(),
        0 <= i < m.games.len(),
        after.wf(),
        same_members(m.games[i], after),
    ensures
        m.routed(i, after).wf(),
{
    let next = m.routed(i, after);
    assert forall|a: int, b: int| 0 <= a < b < next.games.len() implies (
    #[trigger] next.games[a]).room_code != (#[trigger] next.games[b]).room_code by {
        assert(m.games[a].room_code != m.games[b].room_code);
    }
    assert forall|j: int| 0 <= j < next.games.len() implies (#[trigger] next.games[j]).wf()
        && next.games[j].outbox.len() == 0 by {
        if j != i {
            assert(m.games[j].wf());
        }
    }
    assert forall|id: u128| #[trigger]
        next.room_code_by_client_id.contains_key(id) implies next.has_room(
        next.room_code_by_client_id[id],
    ) && is_connected(next.games[next.seat_of(id)].players, id) by {
        let code = m.room_code_by_client_id[id];
        let j = m.seat_of(id);
        assert(m.is_room(code, j));
        assert(next.is_room(code, j));
        lemma_room_of(next, code, j);
        if j == i {
            assert(is_connected(m.games[i].players, id));
        }
    }
    assert forall|j: int, id: u128|
        0 <= j < next.games.len() && #[trigger] is_connected(
            next.games[j].players,
            id,
        ) implies next.room_code_by_client_id.contains_key(id) && next.room_code_by_client_id[id]
        == next.games[j].room_code by {
        if j == i {
            assert(is_connected(m.games[i].players, id));
        } else {
            assert(is_connected(m.games[j].players, id));
        }
    }
}

/// Where no two rooms have the same code, the room of a code is the only
/// one with that code.
pub proof fn lemma_room_of(m: GameManagerSpec, code: Seq<char>, i: int)
    requires
        forall|a: int, b: int|
            0 <= a < b < m.games.len() ==> (#[trigger] m.games[a]).room_code != (
            #[trigger] m.games[b]).room_code,
        m.is_room(code, i),
    ensures
        m.has_room(code),
        m.room_of(code) == i,
{
    let j = m.room_of(code);
    assert(m.is_room(code, j));
    if i < j {
        assert(m.games[i].room_code != m.games[j].room_code);
    } else if j < i {
        assert(m.games[j].room_code != m.games[i].room_code);
    }
}

/// A manager in order is in order after a player who played nowhere opened
/// a room whose code no room had.
pub proof fn lemma_opened_wf(m: GameManagerSpec, id: u128, name: Seq<char>, code: Seq<char>)
    requires
        m.wf(),
        m.create_fault(id, code) is None,
    ensures
        m.opened(id, name, code).wf(),
{
    let next = m.opened(id, name, code);
    let game = GameSpec::created(code, id, name);
    let last = m.games.len() as int;
    game_laws::lemma_created_wf(code, id, name);
    assert(game.players =~= seq![player_view::PlayerSpec::fresh(id, name, 0)]);
    assert forall|x: u128| is_connected(game.players, x) <==> x == id by {
        if is_connected(game.players, x) {
            let k = choose|k: int|
                0 <= k < game.players.len() && game.players[k].id == x
                    && !game.players[k].is_disconnected;
            assert(k == 0);
        }
        if x == id {
            assert(game.players[0].id == id && !game.players[0].is_disconnected);
        }
    }
    assert forall|a: int, b: int| 0 <= a < b < next.games.len() implies (
    #[trigger] next.games[a]).room_code != (#[trigger] next.games[b]).room_code by {
        if b < last {
            assert(m.games[a].room_code != m.games[b].room_code);
        } else {
            assert(!m.is_room(code, a));
        }
    }
    assert forall|j: int| 0 <= j < next.games.len() implies (#[trigger] next.games[j]).wf()
        && next.games[j].outbox.len() == 0 by {
        if j < last {
            assert(m.games[j].wf());
        }
    }
    assert forall|x: u128| #[trigger]
        next.room_code_by_client_id.contains_key(x) implies next.has_room(
        next.room_code_by_client_id[x],
    ) && is_connected(next.games[next.seat_of(x)].players, x) by {
        if x == id {
            assert(next.is_room(code, last));
            lemma_room_of(next, code, last);
        } else {
            let c = m.room_code_by_client_id[x];
            let j = m.seat_of(x);
            assert(m.is_room(c, j));
            assert(next.is_room(c, j));
            lemma_room_of(next, c, j);
        }
    }
    assert forall|j: int, x: u128|
        0 <= j < next.games.len() && #[trigger] is_connected(
            next.games[j].players,
            x,
        ) implies next.room_code_by_client_id.contains_key(x) && next.room_code_by_client_id[x]
        == next.games[j].room_code by {
        if j < last {
            assert(is_connected(m.games[j].players, x));
            assert(m.room_code_by_client_id.contains_key(x));
        }
    }
}

/// A manager in order is in order after a player who played nowhere joined
/// a room.
pub proof fn lemma_joined_wf(m: GameManagerSpec, id: u128, code: Seq<char>, proposed_name: Seq<char>)
    requires
        m.wf(),
        m.join_fault(id, code) is None,
    ensures
        m.joined(id, code, proposed_name).wf(),
{
    let next = m.joined(id, code, proposed_name);
    let i = m.room_of(code);
    assert(m.is_room(code, i));
    let after = m.games[i].joined(id, proposed_name);
    game_laws::lemma_joined_wf(m.games[i], id, proposed_name);
    game_laws::lemma_joined_members(m.games[i], id, proposed_name);
    assert forall|a: int, b: int| 0 <= a < b < next.games.len() implies (
    #[trigger] next.games[a]).room_code != (#[trigger] next.games[b]).room_code by {
        assert(m.games[a].room_code != m.games[b].room_code);
    }
    assert forall|j: int| 0 <= j < next.games.len() implies (#[trigger] next.games[j]).wf()
        && next.games[j].outbox.len() == 0 by {
        if j != i {
            assert(m.games[j].wf());
        }
    }
    assert forall|x: u128| #[trigger]
        next.room_code_by_client_id.contains_key(x) implies next.has_room(
        next.room_code_by_client_id[x],
    ) && is_connected(next.games[next.seat_of(x)].players, x) by {
        if x == id {
            assert(next.is_room(code, i));
            lemma_room_of(next, code, i);
            assert(is_connected(after.players, id));
        } else {
            let c = m.room_code_by_client_id[x];
            let j = m.seat_of(x);
            assert(m.is_room(c, j));
            assert(next.is_room(c, j));
            lemma_room_of(next, c, j);
            if j == i {
                assert(is_connected(m.games[i].players, x));
                assert(is_connected(after.players, x));
            }
        }
    }
    assert forall|j: int, x: u128|
        0 <= j < next.games.len() && #[trigger] is_connected(
            next.games[j].players,
            x,
        ) implies next.room_code_by_client_id.contains_key(x) && next.room_code_by_client_id[x]
        == next.games[j].room_code by {
        if j == i {
            assert(is_connected(after.players, x));
            if x != id {
                assert(is_connected(m.games[i].players, x));
            }
        } else {
            assert(is_connected(m.games[j].players, x));
            assert(m.room_code_by_client_id.contains_key(x));
            if x == id {
                assert(m.is_in_a_game(id));
            }
        }
    }
}

/// A manager in order is in order after the connection of a player closed.
pub proof fn lemma_removal_wf(m: GameManagerSpec, next: GameManagerSpec, id: u128)
    requires
        m.wf(),
        m.is_removal(next, id),
    ensures
        next.wf(),
{
    if m.is_in_a_game(id) {
        let i = m.seat_of(id);
        let code = m.room_code_by_client_id[id];
        assert(m.is_room(code, i));
        let after = choose|after: GameSpec|
            #![trigger m.games[i].is_disconnect(after, id)]
            m.games[i].is_disconnect(after, id) && next == (GameManagerSpec {
                games: if all_disconnected(after.players) {
                    m.games.remove(i)
                } else {
                    m.games.update(i, drained(after))
                },
                room_code_by_client_id: m.room_code_by_client_id.remove(id),
                outbox: m.outbox + after.outbox,
                ..m
            });
        game_laws::lemma_disconnect_wf(m.games[i], after, id);
        game_laws::lemma_disconnect_members(m.games[i], after, id);
        let gone = all_disconnected(after.players);
        if gone {
            game_laws::lemma_all_disconnected(after.players);
        }
        // where each room of `next` was in `m`
        let was = |j: int|
            if gone && j >= i {
                j + 1
            } else {
                j
            };
        assert forall|j: int| 0 <= j < next.games.len() implies 0 <= was(j) < m.games.len() && (
        #[trigger] next.games[j]).room_code == m.games[was(j)].room_code && (was(j) != i
            ==> next.games[j] == m.games[was(j)]) && (was(j) == i ==> next.games[j] == drained(
            after,
        )) by {}
        assert forall|a: int, b: int| 0 <= a < b < next.games.len() implies (
        #[trigger] next.games[a]).room_code != (#[trigger] next.games[b]).room_code by {
            assert(m.games[was(a)].room_code != m.games[was(b)].room_code);
        }
        assert forall|j: int| 0 <= j < next.games.len() implies (#[trigger] next.games[j]).wf()
            && next.games[j].outbox.len() == 0 by {
            if was(j) != i {
                assert(m.games[was(j)].wf());
            }
        }
        assert forall|x: u128| #[trigger]
            next.room_code_by_client_id.contains_key(x) implies next.has_room(
            next.room_code_by_client_id[x],
        ) && is_connected(next.games[next.seat_of(x)].players, x) by {
            let c = m.room_code_by_client_id[x];
            let j = m.seat_of(x);
            assert(m.is_room(c, j));
            assert(is_connected(m.games[j].players, x));
            if j == i {
                assert(is_connected(after.players, x));
                assert(!gone);
            }
            let k = if gone && j > i {
                j - 1
            } else {
                j
            };
            assert(was(k) == j);
            assert(next.is_room(c, k));
            lemma_room_of(next, c, k);
        }
        assert forall|j: int, x: u128|
            0 <= j < next.games.len() && #[trigger] is_connected(
                next.games[j].players,
                x,
            ) implies next.room_code_by_client_id.contains_key(x) && next.room_code_by_client_id[x]
            == next.games[j].room_code by {
            if was(j) == i {
                assert(is_connected(after.players, x));
                assert(is_connected(m.games[i].players, x));
            } else {
                assert(is_connected(m.games[was(j)].players, x));
                assert(m.room_code_by_client_id.contains_key(x));
                if x == id {
                    lemma_room_of(m, m.games[was(j)].room_code, was(j));
                }
            }
        }
    }
}

/// The rooms of a server and the record of who plays where.
pub struct GameManager {
    room_code_generator: RoomCodeGenerator,
    games_by_room_code: Vec<Game>,
    room_code_by_client_id: HashMap<u128, String>,
    outbox: Vec<Outbound>,
}

impl DeepView for GameManager {
    type V = GameManagerSpec;

    closed spec fn deep_view(&self) -> GameManagerSpec {
        GameManagerSpec {
            room_code_generator: self.room_code_generator.deep_view(),
            games: self.games_by_room_code.deep_view(),
            room_code_by_client_id: Map::new(
                |id: u128| self.room_code_by_client_id@.contains_key(id),
                |id: u128| self.room_code_by_client_id@[id]@,
            ),
            outbox: self.outbox.deep_view(),
        }
    }
}

impl GameManager {
    /// Whether the manager is in order. Every manager that this module
    /// hands out is, and stays so.
    pub open spec fn wf(&self) -> bool {
        self.deep_view().wf()
    }

    /// A manager of no rooms whose codes come from the given seed.
    pub fn new(seed: u128) -> (manager: Self)
        ensures
            manager.wf(),
            manager.deep_view() == (GameManagerSpec {
                room_code_generator: RoomCodeGeneratorSpec {
                    seed,
                    count: 0,
                    length: ROOM_CODE_LENGTH,
                },
                games: Seq::empty(),
                room_code_by_client_id: Map::empty(),
                outbox: Seq::empty(),
            }),
    {
        let manager = GameManager {
            room_code_generator: RoomCodeGenerator::new(seed, ROOM_CODE_LENGTH),
            games_by_room_code: Vec::new(),
            room_code_by_client_id: HashMap::new(),
            outbox: Vec::new(),
        };
        assert(manager.deep_view().games =~= Seq::empty());
        assert(manager.deep_view().outbox =~= Seq::empty());
        assert(manager.deep_view().room_code_by_client_id =~= Map::empty());
        manager
    }

    /// The place of the room of that code.
    fn find_room(&self, room_code: &String) -> (r: Option<usize>)
        ensures
            match r {
                Some(i) => self.deep_view().is_room(room_code@, i as int),
                None => !self.deep_view().has_room(room_code@),
            },
    {
        let mut i: usize = 0;
        while i < self.games_by_room_code.len()
            invariant
                i <= self.games_by_room_code.len(),
                forall|j: int| 0 <= j < i ==> !self.deep_view().is_room(room_code@, j),
            decreases self.games_by_room_code.len() - i,
        {
            if *self.games_by_room_code[i].room_code() == *room_code {
                return Some(i);
            }
            i += 1;
        }
        assert forall|j: int| !is_room_at(self.deep_view().games, room_code@, j) by {
            if 0 <= j < self.games_by_room_code.len() {
                assert(!self.deep_view().is_room(room_code@, j));
            }
        }
        None
    }

    fn is_already_in_a_game(&self, client_id: &u128) -> (r: bool)
        ensures
            r == self.deep_view().is_in_a_game(*client_id),
    {
        self.room_code_by_client_id.contains_key(client_id)
    }

    /// The place of the room that the player plays in.
    fn seat(&self, client_id: &u128) -> (r: Option<usize>)
        requires
            self.wf(),
        ensures
            match r {
                Some(i) => {
                    &&& self.deep_view().is_in_a_game(*client_id)
                    &&& i == self.deep_view().seat_of(*client_id)
                    &&& i < self.deep_view().games.len()
                    &&& is_connected(self.deep_view().games[i as int].players, *client_id)
                },
                None => !self.deep_view().is_in_a_game(*client_id),
            },
    {
        match self.room_code_by_client_id.get(client_id) {
            Some(room_code) => {
                assert(self.deep_view().room_code_by_client_id.contains_key(*client_id));
                assert(room_code@ == self.deep_view().room_code_by_client_id[*client_id]);
                let found = self.find_room(room_code);
                assert(self.deep_view().has_room(room_code@));
                let i = found.unwrap();
                proof {
                    lemma_room_of(self.deep_view(), room_code@, i as int);
                }
                Some(i)
            },
            None => None,
        }
    }

    /// Gathers what the room at `i` owes.
    fn collect(&mut self, i: usize)
        requires
            i < old(self).deep_view().games.len(),
        ensures
            final(self).deep_view() == (GameManagerSpec {
                games: old(self).deep_view().games.update(
                    i as int,
                    drained(old(self).deep_view().games[i as int]),
                ),
                outbox: old(self).deep_view().outbox + old(self).deep_view().games[i as int].outbox,
                ..old(self).deep_view()
            }),
    {
        let ghost before = self.deep_view();
        let mut events = self.games_by_room_code[i].take_outbox();
        let ghost owed = events.deep_view();
        let ghost sent = self.outbox.deep_view();
        self.outbox.append(&mut events);
        assert(self.outbox.deep_view() =~= sent + owed);
        assert(self.deep_view().games =~= before.games.update(i as int, drained(before.games[i as int])));
    }

    /// The room that the player plays in.
    pub fn get_game(&self, client_id: &u128) -> (r: Option<&Game>)
        requires
            self.wf(),
        ensures
            r is Some <==> self.deep_view().is_in_a_game(*client_id),
            r matches Some(game) ==> game.deep_view() == self.deep_view().games[self.deep_view().seat_of(
                *client_id,
            )],
    {
        match self.seat(client_id) {
            Some(i) => Some(&self.games_by_room_code[i]),
            None => None,
        }
    }

    /// How many rooms there are.
    pub fn room_count(&self) -> (n: usize)
        ensures
            n == self.deep_view().games.len(),
    {
        self.games_by_room_code.len()
    }

    /// Hands over the messages owed to the players, oldest first.
    pub fn take_outbox(&mut self) -> (events: Vec<Outbound>)
        ensures
            events.deep_view() == old(self).deep_view().outbox,
            final(self).deep_view() == (GameManagerSpec {
                outbox: Seq::empty(),
                ..old(self).deep_view()
            }),
            old(self).wf() ==> final(self).wf(),
    {
        let mut events: Vec<Outbound> = Vec::new();
        std::mem::swap(&mut events, &mut self.outbox);
        assert(self.outbox.deep_view() =~= Seq::empty());
        events
    }

    /// The names of the decks that the room of the player draws prompts
    /// from. They are to be handed over when the game starts.
    pub fn included_deck_names(&self, client_id: &u128) -> (r: Option<Vec<String>>)
        requires
            self.wf(),
        ensures
            r is Some <==> self.deep_view().is_in_a_game(*client_id),
            r matches Some(names) ==> names.deep_view() == included_names(
                self.deep_view().games[self.deep_view().seat_of(
                    *client_id,
                )].settings.drawing_decks_included,
            ),
    {
        match self.seat(client_id) {
            Some(i) => Some(self.games_by_room_code[i].settings().included_deck_names()),
            None => None,
        }
    }

    /// Opens a room for the player under the next code of the generator.
    pub fn create_game(&mut self, client_id: u128, name: String) -> (r: Result<(), CreateGameError>)
        requires
            old(self).wf(),
        ensures
            final(self).wf(),
            match r {
                Ok(_) => {
                    &&& old(self).deep_view().create_fault(
                        client_id,
                        old(self).deep_view().next_code(),
                    ) is None
                    &&& final(self).deep_view() == old(self).deep_view().counted().opened(
                        client_id,
                        name@,
                        old(self).deep_view().next_code(),
                    )
                },
                Err(e) => {
                    &&& old(self).deep_view().create_fault(
                        client_id,
                        old(self).deep_view().next_code(),
                    ) == Some(e)
                    &&& final(self).deep_view() == if e == CreateGameError::RoomCodeTaken {
                        old(self).deep_view().counted()
                    } else {
                        old(self).deep_view()
                    }
                },
            },
    {
        if self.is_already_in_a_game(&client_id) {
            return Err(CreateGameError::ClientIsAlreadyInAGame);
        }
        let room_code = self.room_code_generator.generate();
        self.create_game_in_room(client_id, name, room_code)
    }

    /// Opens a room of the given code for the player.
    pub fn create_game_in_room(&mut self, client_id: u128, name: String, room_code: String) -> (r:
        Result<(), CreateGameError>)
        requires
            old(self).wf(),
        ensures
            final(self).wf(),
            match r {
                Ok(_) => {
                    &&& old(self).deep_view().create_fault(client_id, room_code@) is None
                    &&& final(self).deep_view() == old(self).deep_view().opened(
                        client_id,
                        name@,
                        room_code@,
                    )
                },
                Err(e) => {
                    &&& old(self).deep_view().create_fault(client_id, room_code@) == Some(e)
                    &&& final(self).deep_view() == old(self).deep_view()
                },
            },
    {
        let ghost before = self.deep_view();
        if self.is_already_in_a_game(&client_id) {
            return Err(CreateGameError::ClientIsAlreadyInAGame);
        }
        if self.find_room(&room_code).is_some() {
            return Err(CreateGameError::RoomCodeTaken);
        }
        let mut game = Game::new(room_code.clone(), client_id, name);
        let ghost created = game.deep_view();
        let mut events = game.take_outbox();
        let ghost sent = self.outbox.deep_view();
        let ghost owed = events.deep_view();
        self.outbox.append(&mut events);
        assert(self.outbox.deep_view() =~= sent + owed);
        let ghost rooms = self.games_by_room_code.deep_view();
        self.games_by_room_code.push(game);
        assert(self.games_by_room_code.deep_view() =~= rooms.push(drained(created)));
        self.room_code_by_client_id.insert(client_id, room_code);
        proof {
            assert(self.deep_view().room_code_by_client_id =~= before.room_code_by_client_id.insert(
                client_id,
                room_code@,
            ));
            lemma_opened_wf(before, client_id, name@, room_code@);
        }
        Ok(())
    }

    /// Lets the player into the room of the given code.
    pub fn join_game(&mut self, client_id: u128, room_code: &str, proposed_name: &str) -> (r: Result<
        (),
        JoinGameError,
    >)
        requires
            old(self).wf(),
        ensures
            final(self).wf(),
            match r {
                Ok(_) => {
                    &&& old(self).deep_view().join_fault(client_id, room_code@) is None
                    &&& final(self).deep_view() == old(self).deep_view().joined(
                        client_id,
                        room_code@,
                        proposed_name@,
                    )
                },
                Err(e) => {
                    &&& old(self).deep_view().join_fault(client_id, room_code@) == Some(e)
                    &&& final(self).deep_view() == old(self).deep_view()
                },
            },
    {
        let ghost before = self.deep_view();
        if self.is_already_in_a_game(&client_id) {
            return Err(JoinGameError::ClientIsAlreadyInAGame);
        }
        let code = room_code.to_owned();
        let i = match self.find_room(&code) {
            Some(i) => i,
            None => {
                return Err(JoinGameError::RoomDoesNotExist);
            },
        };
        proof {
            lemma_room_of(before, code@, i as int);
        }
        match self.games_by_room_code[i].add_player(client_id, proposed_name) {
            Err(e) => {
                assert(self.deep_view().games =~= before.games);
                return Err(e);
            },
            Ok(_) => {},
        }
        let ghost after = before.games[i as int].joined(client_id, proposed_name@);
        assert(self.deep_view().games =~= before.games.update(i as int, after));
        self.collect(i);
        self.room_code_by_client_id.insert(client_id, code);
        proof {
            assert(self.deep_view().games =~= before.games.update(i as int, drained(after)));
            assert(self.deep_view().outbox =~= before.outbox + after.outbox);
            assert(self.deep_view().room_code_by_client_id =~= before.room_code_by_client_id.insert(
                client_id,
                room_code@,
            ));
            lemma_joined_wf(before, client_id, room_code@, proposed_name@);
        }
        Ok(())
    }

    /// Hands the settings of the player to their room.
    pub fn update_game_settings(&mut self, client_id: &u128, game_settings: &GameSettings) -> (r:
        Result<(), UpdateGameSettingsError>)
        requires
            old(self).wf(),
        ensures
            final(self).wf(),
            !old(self).deep_view().is_in_a_game(*client_id) ==> r == Err::<
                (),
                UpdateGameSettingsError,
            >(UpdateGameSettingsError::ClientIsNotInAGame) && final(self).deep_view() == old(self).deep_view(),
            old(self).deep_view().is_in_a_game(*client_id) ==> {
                let i = old(self).deep_view().seat_of(*client_id);
                let room = old(self).deep_view().games[i];
                match r {
                    Ok(_) => {
                        &&& room.settings_fault(*client_id, game_settings.deep_view()) is None
                        &&& final(self).deep_view() == old(self).deep_view().routed(
                            i,
                            room.settings_applied(game_settings.deep_view()),
                        )
                    },
                    Err(e) => {
                        &&& room.settings_fault(*client_id, game_settings.deep_view()) == Some(e)
                        &&& final(self).deep_view() == old(self).deep_view()
                    },
                }
            },
    {
        let ghost before = self.deep_view();
        let i = match self.seat(client_id) {
            Some(i) => i,
            None => {
                return Err(UpdateGameSettingsError::ClientIsNotInAGame);
            },
        };
        let r = self.games_by_room_code[i].update_settings(client_id, game_settings);
        let ghost room_after = self.deep_view().games[i as int];
        proof {
            let room = before.games[i as int];
            let after = self.deep_view().games[i as int];
            assert(self.deep_view().games =~= before.games.update(i as int, after));
            if r is Ok {
                lemma_routed_wf(before, i as int, after);
            }
        }
        self.collect(i);
        proof {
            if r is Err {
                lemma_drained_same(before.games[i as int]);
                assert(self.deep_view().games =~= before.games);
                assert(self.deep_view().outbox =~= before.outbox);
            } else {
                assert(self.deep_view().games =~= before.routed(i as int, room_after).games);
            }
        }
        r
    }

    /// Takes note whether the player is ready.
    pub fn set_player_ready(&mut self, client_id: &u128, ready_state: bool) -> (r: Result<
        (),
        SetPlayerReadyError,
    >)
        requires
            old(self).wf(),
        ensures
            final(self).wf(),
            !old(self).deep_view().is_in_a_game(*client_id) ==> r == Err::<(), SetPlayerReadyError>(
                SetPlayerReadyError::ClientIsNotInAGame,
            ) && final(self).deep_view() == old(self).deep_view(),
            old(self).deep_view().is_in_a_game(*client_id) ==> {
                let i = old(self).deep_view().seat_of(*client_id);
                let room = old(self).deep_view().games[i];
                &&& r is Ok
                &&& final(self).deep_view() == old(self).deep_view().routed(
                    i,
                    room.readied(*client_id, ready_state),
                )
            },
    {
        let ghost before = self.deep_view();
        let i = match self.seat(client_id) {
            Some(i) => i,
            None => {
                return Err(SetPlayerReadyError::ClientIsNotInAGame);
            },
        };
        proof {
            let room = before.games[i as int];
            let k = choose|k: int|
                0 <= k < room.players.len() && room.players[k].id == *client_id
                    && !room.players[k].is_disconnected;
            assert(game_model::has_player(room.players, *client_id));
        }
        self.games_by_room_code[i].set_player_ready(client_id, ready_state);
        proof {
            let room = before.games[i as int];
            let after = self.deep_view().games[i as int];
            assert(self.deep_view().games =~= before.games.update(i as int, after));
            game_laws::lemma_readied_members(room, *client_id, ready_state);
            lemma_routed_wf(before, i as int, after);
        }
        let ghost room_after = self.deep_view().games[i as int];
        self.collect(i);
        assert(self.deep_view().games =~= before.routed(i as int, room_after).games);
        Ok(())
    }

    /// Says whether the player can start the game in their room, given
    /// decks with prompts for the first round. The decks need not be read
    /// before.
    pub fn check_start_game(&self, client_id: &u128) -> (r: Result<(), StartGameError>)
        requires
            self.wf(),
        ensures
            r == match self.deep_view().start_refusal(*client_id) {
                Some(e) => Err::<(), StartGameError>(e),
                None => Ok(()),
            },
    {
        match self.seat(client_id) {
            Some(i) => self.games_by_room_code[i].check_start(client_id),
            None => Err(StartGameError::ClientIsNotInAGame),
        }
    }

    /// Starts the game in the room of the player with the prompts of the
    /// decks handed over.
    pub fn start_game(&mut self, client_id: &u128, decks: Vec<Deck<String>>) -> (r: Result<
        (),
        StartGameError,
    >)
        requires
            old(self).wf(),
        ensures
            final(self).wf(),
            !old(self).deep_view().is_in_a_game(*client_id) ==> r == Err::<(), StartGameError>(
                StartGameError::ClientIsNotInAGame,
            ) && final(self).deep_view() == old(self).deep_view(),
            old(self).deep_view().is_in_a_game(*client_id) ==> {
                let i = old(self).deep_view().seat_of(*client_id);
                let room = old(self).deep_view().games[i];
                let cards = concat_all(decks.deep_view()).len();
                match r {
                    Ok(_) => {
                        &&& room.start_fault(*client_id, cards) is None
                        &&& exists|after: GameSpec|
                            room.is_game_start(after, decks.deep_view()) && final(self).deep_view()
                                == #[trigger] old(self).deep_view().routed(i, after)
                    },
                    Err(e) => {
                        &&& room.start_fault(*client_id, cards) == Some(e)
                        &&& final(self).deep_view() == old(self).deep_view()
                    },
                }
            },
    {
        let ghost before = self.deep_view();
        let ghost prompts = decks.deep_view();
        let i = match self.seat(client_id) {
            Some(i) => i,
            None => {
                return Err(StartGameError::ClientIsNotInAGame);
            },
        };
        let r = self.games_by_room_code[i].start_game(client_id, decks);
        let ghost after = self.deep_view().games[i as int];
        proof {
            let room = before.games[i as int];
            assert(self.deep_view().games =~= before.games.update(i as int, after));
            if r is Ok {
                game_laws::lemma_game_start_members(room, after, prompts);
                lemma_routed_wf(before, i as int, after);
            }
        }
        self.collect(i);
        proof {
            if r is Err {
                lemma_drained_same(before.games[i as int]);
                assert(self.deep_view().games =~= before.games);
                assert(self.deep_view().outbox =~= before.outbox);
            } else {
                assert(self.deep_view().games =~= before.routed(i as int, after).games);
                assert(self.deep_view() == before.routed(i as int, after));
            }
        }
        r
    }

    /// Brings the room of the player back to waiting for players.
    pub fn play_again(&mut self, client_id: &u128) -> (r: Result<(), PlayAgainError>)
        requires
            old(self).wf(),
        ensures
            final(self).wf(),
            !old(self).deep_view().is_in_a_game(*client_id) ==> r == Err::<(), PlayAgainError>(
                PlayAgainError::ClientIsNotInAGame,
            ) && final(self).deep_view() == old(self).deep_view(),
            old(self).deep_view().is_in_a_game(*client_id) ==> {
                let i = old(self).deep_view().seat_of(*client_id);
                let room = old(self).deep_view().games[i];
                match r {
                    Ok(_) => {
                        &&& room.replay_fault(*client_id) is None
                        &&& final(self).deep_view() == old(self).deep_view().routed(
                            i,
                            room.replayed(),
                        )
                    },
                    Err(e) => {
                        &&& room.replay_fault(*client_id) == Some(e)
                        &&& final(self).deep_view() == old(self).deep_view()
                    },
                }
            },
    {
        let ghost before = self.deep_view();
        let i = match self.seat(client_id) {
            Some(i) => i,
            None => {
                return Err(PlayAgainError::ClientIsNotInAGame);
            },
        };
        let r = self.games_by_room_code[i].play_again(client_id);
        let ghost room_after = self.deep_view().games[i as int];
        proof {
            let room = before.games[i as int];
            let after = self.deep_view().games[i as int];
            assert(self.deep_view().games =~= before.games.update(i as int, after));
            if r is Ok {
                game_laws::lemma_replayed_members(room);
                lemma_routed_wf(before, i as int, after);
            }
        }
        self.collect(i);
        proof {
            if r is Err {
                lemma_drained_same(before.games[i as int]);
                assert(self.deep_view().games =~= before.games);
                assert(self.deep_view().outbox =~= before.outbox);
            } else {
                assert(self.deep_view().games =~= before.routed(i as int, room_after).games);
            }
        }
        r
    }

    /// Hands the drawing of the player to their room.
    pub fn submit_drawing(&mut self, client_id: &u128, drawing: Drawing, round: usize) -> (r: Result<
        (),
        SubmitDrawingError,
    >)
        requires
            old(self).wf(),
        ensures
            final(self).wf(),
            !old(self).deep_view().is_in_a_game(*client_id) ==> r == Err::<(), SubmitDrawingError>(
                SubmitDrawingError::ClientIsNotInAGame,
            ) && final(self).deep_view() == old(self).deep_view(),
            old(self).deep_view().is_in_a_game(*client_id) ==> {
                let i = old(self).deep_view().seat_of(*client_id);
                let room = old(self).deep_view().games[i];
                match r {
                    Ok(_) => {
                        &&& room.drawing_fault(*client_id, round) is None
                        &&& final(self).deep_view() == old(self).deep_view().routed(
                            i,
                            room.drawing_submitted(*client_id, drawing.deep_view()),
                        )
                    },
                    Err(e) => {
                        &&& room.drawing_fault(*client_id, round) == Some(e)
                        &&& final(self).deep_view() == old(self).deep_view()
                    },
                }
            },
    {
        let ghost before = self.deep_view();
        let ghost strokes = drawing.deep_view();
        let i = match self.seat(client_id) {
            Some(i) => i,
            None => {
                return Err(SubmitDrawingError::ClientIsNotInAGame);
            },
        };
        let r = self.games_by_room_code[i].submit_drawing(client_id, drawing, round);
        let ghost room_after = self.deep_view().games[i as int];
        proof {
            let room = before.games[i as int];
            let after = self.deep_view().games[i as int];
            assert(self.deep_view().games =~= before.games.update(i as int, after));
            if r is Ok {
                game_laws::lemma_drawing_submitted_members(room, *client_id, strokes);
                lemma_routed_wf(before, i as int, after);
            }
        }
        self.collect(i);
        proof {
            if r is Err {
                lemma_drained_same(before.games[i as int]);
                assert(self.deep_view().games =~= before.games);
                assert(self.deep_view().outbox =~= before.outbox);
            } else {
                assert(self.deep_view().games =~= before.routed(i as int, room_after).games);
            }
        }
        r
    }

    /// Hands the ballot of the player to their room. Where the ballot ends
    /// the vote and the next round cannot be dealt, the game is over and the
    /// failure is reported.
    pub fn submit_vote(&mut self, client_id: &u128, votes: HashMap<u128, i32>) -> (r: Result<
        (),
        SubmitVoteError,
    >)
        requires
            old(self).wf(),
        ensures
            final(self).wf(),
            !old(self).deep_view().is_in_a_game(*client_id) ==> r == Err::<(), SubmitVoteError>(
                SubmitVoteError::ClientIsNotInAGame,
            ) && final(self).deep_view() == old(self).deep_view(),
            old(self).deep_view().is_in_a_game(*client_id) ==> {
                let i = old(self).deep_view().seat_of(*client_id);
                let room = old(self).deep_view().games[i];
                match r {
                    Ok(_) => {
                        &&& room.vote_fault(*client_id, votes@) is None
                        &&& exists|after: GameSpec|
                            room.vote_counted(*client_id, votes@).is_voting_settled(after)
                                && final(self).deep_view() == #[trigger] old(self).deep_view().routed(i, after)
                    },
                    Err(e) => {
                        &&& room.vote_fault(*client_id, votes@) == Some(e)
                        &&& final(self).deep_view() == if e == SubmitVoteError::NotEnoughPrompts {
                            old(self).deep_view().routed(
                                i,
                                room.vote_counted(*client_id, votes@).scored().results_announced(),
                            )
                        } else {
                            old(self).deep_view()
                        }
                    },
                }
            },
    {
        let ghost before = self.deep_view();
        let ghost ballot = votes@;
        let i = match self.seat(client_id) {
            Some(i) => i,
            None => {
                return Err(SubmitVoteError::ClientIsNotInAGame);
            },
        };
        let r = self.games_by_room_code[i].submit_vote(client_id, votes);
        let ghost after = self.deep_view().games[i as int];
        proof {
            let room = before.games[i as int];
            assert(self.deep_view().games =~= before.games.update(i as int, after));
            if r is Ok || r == Err::<(), SubmitVoteError>(SubmitVoteError::NotEnoughPrompts) {
                let counted = room.vote_counted(*client_id, ballot);
                game_laws::lemma_vote_counted_members(room, *client_id, ballot);
                game_laws::lemma_voting_settled_members(counted, after);
                lemma_routed_wf(before, i as int, after);
            }
        }
        self.collect(i);
        proof {
            if r is Err && r != Err::<(), SubmitVoteError>(SubmitVoteError::NotEnoughPrompts) {
                lemma_drained_same(before.games[i as int]);
                assert(self.deep_view().games =~= before.games);
                assert(self.deep_view().outbox =~= before.outbox);
            } else {
                assert(self.deep_view().games =~= before.routed(i as int, after).games);
                assert(self.deep_view() == before.routed(i as int, after));
            }
        }
        r
    }

    /// Takes note that the connection of the player closed, and closes their
    /// room if nobody in it is connected any more. Where the player was the
    /// last to vote and the next round cannot be dealt, the game is over and
    /// the failure is reported.
    pub fn remove_player_connection(&mut self, client_id: &u128) -> (r: Result<
        (),
        DisconnectError,
    >)
        requires
            old(self).wf(),
        ensures
            final(self).wf(),
            old(self).deep_view().is_removal(final(self).deep_view(), *client_id),
            r == match old(self).deep_view().removal_fault(*client_id) {
                Some(e) => Err::<(), DisconnectError>(e),
                None => Ok(()),
            },
    {
        let ghost before = self.deep_view();
        let i = match self.seat(client_id) {
            Some(i) => i,
            None => {
                return Ok(());
            },
        };
        self.room_code_by_client_id.remove(client_id);
        assert(self.deep_view().room_code_by_client_id =~= before.room_code_by_client_id.remove(
            *client_id,
        ));
        let r = self.games_by_room_code[i].disconnect_player(client_id);
        let ghost after = self.deep_view().games[i as int];
        assert(self.deep_view().games =~= before.games.update(i as int, after));
        self.collect(i);
        assert(self.deep_view().games =~= before.games.update(i as int, drained(after)));
        let gone = self.games_by_room_code[i].all_players_disconnected();
        assert(self.deep_view().games[i as int] == drained(after));
        assert(gone == all_disconnected(after.players));
        if gone {
            let ghost rooms = self.games_by_room_code@;
            let ghost mid = self.deep_view().games;
            self.games_by_room_code.remove(i);
            assert(self.games_by_room_code@ == rooms.remove(i as int));
            assert(self.deep_view().games.len() == before.games.remove(i as int).len());
            assert forall|j: int| 0 <= j < self.games_by_room_code@.len() implies (
            #[trigger] self.deep_view().games[j]) == before.games.remove(i as int)[j] by {
                if j < i {
                    assert(self.games_by_room_code@[j] == rooms[j]);
                    assert(mid[j] == rooms[j].deep_view());
                    assert(before.games.remove(i as int)[j] == before.games[j]);
                } else {
                    assert(self.games_by_room_code@[j] == rooms[j + 1]);
                    assert(mid[j + 1] == rooms[j + 1].deep_view());
                    assert(before.games.remove(i as int)[j] == before.games[j + 1]);
                }
            }
            assert(self.deep_view().games =~= before.games.remove(i as int));
        }
        proof {
            let next = self.deep_view();
            assert(before.games[i as int].is_disconnect(after, *client_id));
            assert(next.room_code_by_client_id =~= before.room_code_by_client_id.remove(*client_id));
            assert(next.outbox =~= before.outbox + after.outbox);
            assert(next.room_code_generator == before.room_code_generator);
            assert(next.games == if all_disconnected(after.players) {
                before.games.remove(i as int)
            } else {
                before.games.update(i as int, drained(after))
            });
            assert(next == GameManagerSpec {
                games: if all_disconnected(after.players) {
                    before.games.remove(i as int)
                } else {
                    before.games.update(i as int, drained(after))
                },
                room_code_by_client_id: before.room_code_by_client_id.remove(*client_id),
                outbox: before.outbox + after.outbox,
                ..before
            });
            lemma_removal_wf(before, self.deep_view(), *client_id);
        }
        r
    }
}

} // verus!
