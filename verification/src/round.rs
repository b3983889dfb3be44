//! One round: a prompt and maybe an imprint for each player, the drawings
//! they hand in and the votes those drawings collect.
//!
//! The entries of a round stand in the order in which the players were dealt
//! their prompts, one entry for each player. Ballots and results go by that
//! order. A ballot that a player hands in is a hash map from the drawing to
//! the votes for it: it names no drawing twice, and its order means nothing.

use crate::deck::Deck;
use crate::drawing::{clone_optional_drawing, Drawing, StrokeSpec};
use crate::errors::{SubmitDrawingError, SubmitVoteError};
use crate::imprint_mapper::{is_redistribution, ImprintMapSpec};
use crate::player_view::{Player, PlayerSpec};
use crate::random::fresh_id;
use crate::{game_laws, imprint_mapper};
use std::collections::HashMap;
use vstd::prelude::*;
use vstd::std_specs::iter::IteratorSpec;

verus! {

broadcast use vstd::std_specs::hash::group_hash_axioms;

/// The votes one player can give away in one round.
pub const MAX_VOTES_PER_ROUND: i32 = 3;

/// What a round holds for one of its players.
#[derive(Debug)]
pub struct RoundDataPerPlayer {
    pub player_id: u128,
    /// Names the drawing on ballots, so that a ballot does not tell who drew.
    pub drawing_id: u128,
    pub drawing_suggestion: String,
    pub imprint: Option<Drawing>,
    pub drawing: Option<Drawing>,
    pub has_voted: bool,
    pub votes: i32,
}

/// Mathematical value of a [`RoundDataPerPlayer`].
pub struct RoundDataPerPlayerSpec {
    pub player_id: u128,
    pub drawing_id: u128,
    pub drawing_suggestion: Seq<char>,
    pub imprint: Option<Seq<StrokeSpec>>,
    pub drawing: Option<Seq<StrokeSpec>>,
    pub has_voted: bool,
    pub votes: i32,
}

impl DeepView for RoundDataPerPlayer {
    type V = RoundDataPerPlayerSpec;

    open spec fn deep_view(&self) -> RoundDataPerPlayerSpec {
        RoundDataPerPlayerSpec {
            player_id: self.player_id,
            drawing_id: self.drawing_id,
            drawing_suggestion: self.drawing_suggestion@,
            imprint: self.imprint.deep_view(),
            drawing: self.drawing.deep_view(),
            has_voted: self.has_voted,
            votes: self.votes,
        }
    }
}

/// Mathematical value of a [`Round`]: the entries of its players, in the
/// order the players had in the room when the round began.
pub type RoundSpec = Seq<RoundDataPerPlayerSpec>;

/// A ballot: the votes given to each drawing that it names.
pub type BallotSpec = Map<u128, i32>;

/// A round of the game.
#[derive(Debug)]
pub struct Round {
    round_data_per_player: Vec<RoundDataPerPlayer>,
}

impl View for Round {
    type V = Seq<RoundDataPerPlayer>;

    closed spec fn view(&self) -> Seq<RoundDataPerPlayer> {
        self.round_data_per_player@
    }
}

impl DeepView for Round {
    type V = RoundSpec;

    open spec fn deep_view(&self) -> RoundSpec {
        Seq::new(self@.len(), |i: int| self@[i].deep_view())
    }
}

/// Whether the round holds an entry for the player.
pub open spec fn has_entry(entries: RoundSpec, id: u128) -> bool {
    exists|i: int| 0 <= i < entries.len() && entries[i].player_id == id
}

/// Whether `i` is the place of the first entry of the player.
pub open spec fn is_first_entry(entries: RoundSpec, id: u128, i: int) -> bool {
    &&& 0 <= i < entries.len()
    &&& entries[i].player_id == id
    &&& forall|j: int| 0 <= j < i ==> entries[j].player_id != id
}

/// The entry of the player.
pub open spec fn entry_of(entries: RoundSpec, id: u128) -> RoundDataPerPlayerSpec
    recommends
        has_entry(entries, id),
{
    entries[choose|i: int| is_first_entry(entries, id, i)]
}

/// No two players have the same identity.
pub open spec fn distinct_identities(players: Seq<PlayerSpec>) -> bool {
    forall|i: int, j: int|
        0 <= i < j < players.len() ==> (#[trigger] players[i]).id != (#[trigger] players[j]).id
}

/// No player has two entries.
pub open spec fn distinct_players(entries: RoundSpec) -> bool {
    forall|i: int, j: int|
        0 <= i < j < entries.len() ==> (#[trigger] entries[i]).player_id != (
        #[trigger] entries[j]).player_id
}

/// Whether the room counts `id` among its connected players.
pub open spec fn is_connected(players: Seq<PlayerSpec>, id: u128) -> bool {
    exists|i: int| 0 <= i < players.len() && players[i].id == id && !players[i].is_disconnected
}

/// How many players of the room are connected.
pub open spec fn connected_count(players: Seq<PlayerSpec>) -> nat
    decreases players.len(),
{
    if players.len() == 0 {
        0
    } else if players.last().is_disconnected {
        connected_count(players.drop_last())
    } else {
        connected_count(players.drop_last()) + 1
    }
}

/// The fragment that `handed` holds for the player, if any.
pub open spec fn imprint_for(handed: ImprintMapSpec, id: u128) -> Option<Seq<StrokeSpec>>
    decreases handed.len(),
{
    if handed.len() == 0 {
        None
    } else if handed[0].0 == id {
        handed[0].1
    } else {
        imprint_for(handed.drop_first(), id)
    }
}

/// The entry of a player at the start of a round.
pub open spec fn blank_entry(
    player_id: u128,
    drawing_id: u128,
    drawing_suggestion: Seq<char>,
    imprint: Option<Seq<StrokeSpec>>,
) -> RoundDataPerPlayerSpec {
    RoundDataPerPlayerSpec {
        player_id,
        drawing_id,
        drawing_suggestion,
        imprint,
        drawing: None,
        has_voted: false,
        votes: 0,
    }
}

/// The round that starts for the connected players of `players`, in their
/// order: each gets the next card from the top of `deck`, the fragment that
/// `handed` holds for them, and as the name of their drawing the entry of
/// `drawing_ids` at their place in `players`.
pub open spec fn assembled(
    players: Seq<PlayerSpec>,
    deck: Seq<Seq<char>>,
    handed: ImprintMapSpec,
    drawing_ids: Seq<u128>,
) -> RoundSpec
    decreases players.len(),
{
    if players.len() == 0 {
        Seq::empty()
    } else {
        let rest = assembled(players.drop_last(), deck, handed, drawing_ids);
        let p = players.last();
        if p.is_disconnected {
            rest
        } else {
            rest.push(
                blank_entry(
                    p.id,
                    drawing_ids[players.len() - 1],
                    deck[deck.len() - 1 - rest.len()],
                    imprint_for(handed, p.id),
                ),
            )
        }
    }
}

/// Whether `entries` can be the round that starts for the connected players
/// of `players` with the cards of `deck` and the fragments of `imprints`:
/// the fragments are handed round at random and the drawings are named at
/// random, the rest is as [`assembled`] says.
pub open spec fn is_new_round(
    entries: RoundSpec,
    players: Seq<PlayerSpec>,
    deck: Seq<Seq<char>>,
    imprints: ImprintMapSpec,
) -> bool {
    exists|handed: ImprintMapSpec, drawing_ids: Seq<u128>|
        {
            &&& is_redistribution(handed, imprints)
            &&& drawing_ids.len() == players.len()
            &&& entries == #[trigger] assembled(players, deck, handed, drawing_ids)
        }
}

/// Every connected player of the room has handed in a drawing. Players who
/// left do not hold the round up.
pub open spec fn done_drawing(entries: RoundSpec, players: Seq<PlayerSpec>) -> bool {
    forall|i: int|
        0 <= i < entries.len() && is_connected(players, #[trigger] entries[i].player_id)
            ==> entries[i].drawing is Some
}

/// Every connected player of the room has voted.
pub open spec fn done_voting(entries: RoundSpec, players: Seq<PlayerSpec>) -> bool {
    forall|i: int|
        0 <= i < entries.len() && is_connected(players, #[trigger] entries[i].player_id)
            ==> entries[i].has_voted
}

/// The round after the player handed in `drawing`.
pub open spec fn with_drawing(entries: RoundSpec, id: u128, drawing: Seq<StrokeSpec>) -> RoundSpec {
    Seq::new(
        entries.len(),
        |i: int|
            if entries[i].player_id == id {
                RoundDataPerPlayerSpec { drawing: Some(drawing), ..entries[i] }
            } else {
                entries[i]
            },
    )
}

/// All the votes of a ballot.
pub open spec fn ballot_total(votes: BallotSpec) -> int
    decreases votes.dom().len(),
{
    if votes.dom().finite() && votes.dom().len() > 0 {
        let drawing_id = votes.dom().choose();
        votes[drawing_id] + ballot_total(votes.remove(drawing_id))
    } else {
        0
    }
}

/// The votes that a ballot gives to one drawing.
pub open spec fn ballot_amount(votes: BallotSpec, drawing_id: u128) -> int {
    if votes.contains_key(drawing_id) {
        votes[drawing_id] as int
    } else {
        0
    }
}

/// Whether the ballot gives a vote to the drawing.
pub open spec fn votes_for(votes: BallotSpec, drawing_id: u128) -> bool {
    votes.contains_key(drawing_id) && votes[drawing_id] > 0
}

/// Whether the list holds each drawing of the ballot once, with its votes.
pub open spec fn is_listing(list: Seq<(u128, i32)>, votes: BallotSpec) -> bool {
    &&& forall|i: int|
        0 <= i < list.len() ==> votes.contains_key((#[trigger] list[i]).0) && votes[list[i].0]
            == list[i].1
    &&& forall|i: int, j: int| 0 <= i < j < list.len() ==> list[i].0 != list[j].0
    &&& forall|drawing_id: u128| #[trigger]
        votes.contains_key(drawing_id) ==> exists|i: int|
            0 <= i < list.len() && (#[trigger] list[i]).0 == drawing_id
}

/// All the votes of a list.
pub open spec fn listed_total(list: Seq<(u128, i32)>) -> int
    decreases list.len(),
{
    if list.len() == 0 {
        0
    } else {
        listed_total(list.drop_last()) + list.last().1
    }
}

/// The votes of a ballot are those of one of its drawings and those of the
/// ballot without it, whichever drawing is taken.
pub proof fn lemma_total_without(votes: BallotSpec, drawing_id: u128)
    requires
        votes.dom().finite(),
        votes.contains_key(drawing_id),
    ensures
        ballot_total(votes) == votes[drawing_id] + ballot_total(votes.remove(drawing_id)),
    decreases votes.dom().len(),
{
    let first = votes.dom().choose();
    if first != drawing_id {
        lemma_total_without(votes.remove(first), drawing_id);
        lemma_total_without(votes.remove(drawing_id), first);
        assert(votes.remove(first).remove(drawing_id) =~= votes.remove(drawing_id).remove(first));
    }
}

/// A ballot with no drawing on it gives no votes.
pub proof fn lemma_total_of_none(votes: BallotSpec)
    requires
        votes.dom().finite(),
        forall|drawing_id: u128| !votes.contains_key(drawing_id),
    ensures
        ballot_total(votes) == 0,
{
    assert(votes.dom() =~= Set::<u128>::empty());
}

/// A list of the ballot holds the votes of the ballot.
pub proof fn lemma_listed_total(list: Seq<(u128, i32)>, votes: BallotSpec)
    requires
        votes.dom().finite(),
        is_listing(list, votes),
    ensures
        listed_total(list) == ballot_total(votes),
    decreases list.len(),
{
    if list.len() == 0 {
        lemma_total_of_none(votes);
    } else {
        let last = list.last();
        let rest = list.drop_last();
        let fewer = votes.remove(last.0);
        assert(votes.contains_key(list[list.len() - 1].0));
        assert forall|drawing_id: u128| #[trigger] fewer.contains_key(drawing_id) implies exists|
            i: int,
        |
            0 <= i < rest.len() && (#[trigger] rest[i]).0 == drawing_id by {
            assert(votes.contains_key(drawing_id));
            let i = choose|i: int| 0 <= i < list.len() && (#[trigger] list[i]).0 == drawing_id;
            assert(rest[i] == list[i]);
        }
        assert forall|i: int| 0 <= i < rest.len() implies fewer.contains_key(
            (#[trigger] rest[i]).0,
        ) && fewer[rest[i].0] == rest[i].1 by {
            assert(rest[i] == list[i]);
        }
        assert forall|i: int, j: int| 0 <= i < j < rest.len() implies rest[i].0 != rest[j].0 by {
            assert(rest[i] == list[i] && rest[j] == list[j]);
        }
        lemma_listed_total(rest, fewer);
        lemma_total_without(votes, last.0);
    }
}

/// Whether the round holds a drawing of that name.
pub open spec fn has_drawing_id(entries: RoundSpec, drawing_id: u128) -> bool {
    exists|i: int| 0 <= i < entries.len() && entries[i].drawing_id == drawing_id
}

/// Whether every drawing named on the ballot is one of the round.
pub open spec fn ballot_ids_known(entries: RoundSpec, votes: BallotSpec) -> bool {
    forall|drawing_id: u128| #[trigger]
        votes.contains_key(drawing_id) ==> has_drawing_id(entries, drawing_id)
}

/// Whether every tally can take the votes of the ballot.
pub open spec fn tallies_fit(entries: RoundSpec, votes: BallotSpec) -> bool {
    forall|i: int|
        0 <= i < entries.len() ==> i32::MIN <= (#[trigger] entries[i]).votes + ballot_amount(
            votes,
            entries[i].drawing_id,
        ) <= i32::MAX
}

/// Why the ballot of the player is turned down, if it is. The checks come in
/// this order: more than three votes in all; a vote for the player's own
/// drawing; a drawing that is not of this round; a player who has voted in
/// this round already, and so has no votes left; a tally that cannot take the
/// votes.
pub open spec fn ballot_fault(entries: RoundSpec, id: u128, votes: BallotSpec) -> Option<
    SubmitVoteError,
> {
    if ballot_total(votes) > MAX_VOTES_PER_ROUND {
        Some(SubmitVoteError::MaximumVotesExceeded)
    } else if votes_for(votes, entry_of(entries, id).drawing_id) {
        Some(SubmitVoteError::ClientVotedForSelf)
    } else if !ballot_ids_known(entries, votes) {
        Some(SubmitVoteError::InvalidDrawingId)
    } else if entry_of(entries, id).has_voted {
        Some(SubmitVoteError::MaximumVotesExceeded)
    } else if !tallies_fit(entries, votes) {
        Some(SubmitVoteError::MaximumVotesExceeded)
    } else {
        None
    }
}

/// The round after the ballot of the player was counted: each drawing has
/// the votes that the ballot gives it more, and the player has voted.
pub open spec fn with_ballot(entries: RoundSpec, id: u128, votes: BallotSpec) -> RoundSpec {
    Seq::new(
        entries.len(),
        |i: int|
            RoundDataPerPlayerSpec {
                votes: (entries[i].votes + ballot_amount(votes, entries[i].drawing_id)) as i32,
                has_voted: entries[i].has_voted || entries[i].player_id == id,
                ..entries[i]
            },
    )
}

/// The players of the round, each with the votes for their drawing.
pub open spec fn scores_of(entries: RoundSpec) -> Seq<(u128, i32)> {
    Seq::new(entries.len(), |i: int| (entries[i].player_id, entries[i].votes))
}

/// The drawings of the ballot, each once and with its votes.
pub fn ballot_entries(votes: &HashMap<u128, i32>) -> (list: Vec<(u128, i32)>)
    ensures
        is_listing(list@, votes@),
{
    let mut list: Vec<(u128, i32)> = Vec::new();
    let ghost keys: Seq<u128> = vstd::std_specs::hash::spec_keys_iter(votes).remaining().unref();
    for key in it: votes.keys()
        invariant
            list.len() == it.index(),
            list.len() <= it.seq().len(),
            keys == it.seq().unref(),
            it.seq().unref().to_set() == votes@.dom(),
            it.seq().no_duplicates(),
            forall|i: int|
                0 <= i < list.len() ==> (#[trigger] list@[i]).0 == keys[i] && votes@.contains_key(
                    list@[i].0,
                ) && votes@[list@[i].0] == list@[i].1,
    {
        assert(it.seq().unref().to_set().contains(*key));
        let amount: i32 = ballot_amount_for(votes, *key);
        list.push((*key, amount));
    }
    proof {
        assert(list.len() == keys.len());
        assert forall|drawing_id: u128| #[trigger] votes@.contains_key(drawing_id) implies exists|
            i: int,
        |
            0 <= i < list.len() && (#[trigger] list@[i]).0 == drawing_id by {
            assert(keys.to_set().contains(drawing_id));
            let i = choose|i: int| 0 <= i < keys.len() && keys[i] == drawing_id;
            assert(list@[i].0 == drawing_id);
        }
    }
    list
}

/// The sum of all votes of the ballot.
pub fn ballot_sum(votes: &HashMap<u128, i32>) -> (total: i128)
    ensures
        total == ballot_total(votes@),
{
    let list = ballot_entries(votes);
    let mut total: i128 = 0;
    let mut i: usize = 0;
    while i < list.len()
        invariant
            i <= list.len(),
            total == listed_total(list@.take(i as int)),
            -(i * 0x8000_0000) <= total <= i * 0x8000_0000,
        decreases list.len() - i,
    {
        proof {
            assert(list@.take(i + 1).drop_last() =~= list@.take(i as int));
        }
        total = total + list[i].1 as i128;
        i += 1;
    }
    proof {
        assert(list@.take(i as int) =~= list@);
        lemma_listed_total(list@, votes@);
    }
    total
}

/// The votes that the ballot gives to one drawing.
pub fn ballot_amount_for(votes: &HashMap<u128, i32>, drawing_id: u128) -> (amount: i32)
    ensures
        amount == ballot_amount(votes@, drawing_id),
{
    match votes.get(&drawing_id) {
        Some(amount) => *amount,
        None => 0,
    }
}

/// Whether the ballot gives a vote to the drawing.
pub fn ballot_votes_for(votes: &HashMap<u128, i32>, drawing_id: u128) -> (r: bool)
    ensures
        r == votes_for(votes@, drawing_id),
{
    ballot_amount_for(votes, drawing_id) > 0
}

/// Whether the player is in the room and connected.
pub fn is_connected_player(players: &Vec<Player>, id: u128) -> (r: bool)
    ensures
        r == is_connected(players.deep_view(), id),
{
    let mut i: usize = 0;
    while i < players.len()
        invariant
            i <= players.len(),
            forall|k: int|
                0 <= k < i ==> !(players.deep_view()[k].id == id
                    && !players.deep_view()[k].is_disconnected),
        decreases players.len() - i,
    {
        if players[i].id == id && !players[i].is_disconnected {
            assert(players.deep_view()[i as int].id == id);
            return true;
        }
        i += 1;
    }
    false
}

/// How many players of the room are connected.
pub fn count_connected(players: &Vec<Player>) -> (n: usize)
    ensures
        n == connected_count(players.deep_view()),
{
    let mut n: usize = 0;
    let mut i: usize = 0;
    while i < players.len()
        invariant
            i <= players.len(),
            n <= i,
            n == connected_count(players.deep_view().take(i as int)),
        decreases players.len() - i,
    {
        proof {
            assert(players.deep_view().take(i + 1).drop_last() =~= players.deep_view().take(i as int));
        }
        if !players[i].is_disconnected {
            n += 1;
        }
        i += 1;
    }
    assert(players.deep_view().take(i as int) =~= players.deep_view());
    n
}

/// The fragment that `handed` holds for the player, copied.
pub fn find_imprint(handed: &Vec<(u128, Option<Drawing>)>, id: u128) -> (r: Option<Drawing>)
    ensures
        r.deep_view() == imprint_for(handed.deep_view(), id),
{
    let mut i: usize = 0;
    assert(handed.deep_view().skip(0) =~= handed.deep_view());
    while i < handed.len()
        invariant
            i <= handed.len(),
            imprint_for(handed.deep_view(), id) == imprint_for(handed.deep_view().skip(i as int), id),
        decreases handed.len() - i,
    {
        proof {
            let tail = handed.deep_view().skip(i as int);
            assert(tail[0] == handed.deep_view()[i as int]);
            assert(tail.drop_first() =~= handed.deep_view().skip(i + 1));
        }
        if handed[i].0 == id {
            return clone_optional_drawing(&handed[i].1);
        }
        i += 1;
    }
    assert(handed.deep_view().skip(i as int).len() == 0);
    None
}

/// The round for the connected players of a prefix of the room has one entry
/// for each of them.
pub proof fn lemma_assembled_len(
    players: Seq<PlayerSpec>,
    deck: Seq<Seq<char>>,
    handed: ImprintMapSpec,
    drawing_ids: Seq<u128>,
)
    ensures
        assembled(players, deck, handed, drawing_ids).len() == connected_count(players),
    decreases players.len(),
{
    if players.len() > 0 {
        lemma_assembled_len(players.drop_last(), deck, handed, drawing_ids);
    }
}

impl Round {
    /// Starts a round for the connected players of the room. Each draws a
    /// prompt from the deck, is handed one of the fragments of `imprint_map`
    /// at random, and has their drawing named at random. Where the deck
    /// holds too few cards, no round starts and the deck stays as it is.
    /// Where no two players have the same identity, no player gets two
    /// entries.
    pub fn new(
        players: &Vec<Player>,
        suggestion_deck: &mut Deck<String>,
        imprint_map: &Vec<(u128, Option<Drawing>)>,
    ) -> (r: Option<Round>)
        ensures
            r is Some <==> connected_count(players.deep_view()) <= old(suggestion_deck)@.len(),
            r is None ==> final(suggestion_deck)@ == old(suggestion_deck)@,
            r matches Some(round) ==> {
                &&& is_new_round(
                    round.deep_view(),
                    players.deep_view(),
                    old(suggestion_deck).deep_view(),
                    imprint_map.deep_view(),
                )
                &&& final(suggestion_deck)@ == old(suggestion_deck)@.take(
                    old(suggestion_deck)@.len() - connected_count(players.deep_view()),
                )
                &&& distinct_identities(players.deep_view()) ==> distinct_players(round.deep_view())
            },
    {
        let handed = imprint_mapper::random(imprint_map);
        let mut drawing_ids: Vec<u128> = Vec::new();
        let mut i: usize = 0;
        while i < players.len()
            invariant
                i <= players.len(),
                drawing_ids.len() == i,
            decreases players.len() - i,
        {
            drawing_ids.push(fresh_id());
            i += 1;
        }
        Round::assemble(players, suggestion_deck, &handed, &drawing_ids)
    }

    /// Starts a round for the connected players of the room with the
    /// fragments as they were handed round and the names as they were chosen
    /// for the drawings.
    pub fn assemble(
        players: &Vec<Player>,
        suggestion_deck: &mut Deck<String>,
        handed: &Vec<(u128, Option<Drawing>)>,
        drawing_ids: &Vec<u128>,
    ) -> (r: Option<Round>)
        requires
            drawing_ids.len() == players.len(),
        ensures
            r is Some <==> connected_count(players.deep_view()) <= old(suggestion_deck)@.len(),
            r is None ==> final(suggestion_deck)@ == old(suggestion_deck)@,
            r matches Some(round) ==> {
                &&& round.deep_view() == assembled(
                    players.deep_view(),
                    old(suggestion_deck).deep_view(),
                    handed.deep_view(),
                    drawing_ids@,
                )
                &&& final(suggestion_deck)@ == old(suggestion_deck)@.take(
                    old(suggestion_deck)@.len() - connected_count(players.deep_view()),
                )
                &&& distinct_identities(players.deep_view()) ==> distinct_players(round.deep_view())
            },
    {
        let needed = count_connected(players);
        if suggestion_deck.len() < needed {
            return None;
        }
        let ghost roster = players.deep_view();
        let ghost cards = suggestion_deck@;
        let ghost prompts = suggestion_deck.deep_view();
        let ghost fragments = handed.deep_view();
        let mut entries: Vec<RoundDataPerPlayer> = Vec::new();
        let mut i: usize = 0;
        assert(cards.take(cards.len() as int) =~= cards);
        while i < players.len()
            invariant
                i <= players.len(),
                drawing_ids.len() == players.len(),
                roster == players.deep_view(),
                fragments == handed.deep_view(),
                prompts.len() == cards.len(),
                forall|k: int| 0 <= k < cards.len() ==> prompts[k] == (#[trigger] cards[k])@,
                needed == connected_count(roster),
                needed <= cards.len(),
                entries.len() == connected_count(roster.take(i as int)),
                entries.len() <= needed,
                connected_count(roster.take(i as int)) + connected_count(roster) <= connected_count(
                    roster.take(i as int),
                ) + needed,
                suggestion_deck@ == cards.take(cards.len() - entries.len()),
                entries.deep_view() == assembled(roster.take(i as int), prompts, fragments, drawing_ids@),
            decreases players.len() - i,
        {
            proof {
                assert(roster.take(i + 1).drop_last() =~= roster.take(i as int));
                assert(roster.take(i + 1).last() == roster[i as int]);
                lemma_connected_count_prefix(roster, i + 1);
            }
            if !players[i].is_disconnected {
                let ghost before = entries.deep_view();
                let card = suggestion_deck.draw_card();
                let drawing_suggestion = card.unwrap();
                let imprint = find_imprint(handed, players[i].id);
                entries.push(
                    RoundDataPerPlayer {
                        player_id: players[i].id,
                        drawing_id: drawing_ids[i],
                        drawing_suggestion,
                        imprint,
                        drawing: None,
                        has_voted: false,
                        votes: 0,
                    },
                );
                proof {
                    let k = before.len() as int;
                    assert(drawing_suggestion@ == prompts[cards.len() - 1 - k]);
                    assert(suggestion_deck@ =~= cards.take(cards.len() - entries.len()));
                    assert(entries.deep_view() =~= before.push(
                        blank_entry(
                            roster[i as int].id,
                            drawing_ids@[i as int],
                            prompts[prompts.len() - 1 - k],
                            imprint_for(fragments, roster[i as int].id),
                        ),
                    ));
                }
            }
            i += 1;
        }
        proof {
            assert(roster.take(i as int) =~= roster);
        }
        let round = Round { round_data_per_player: entries };
        assert(round.deep_view() =~= entries.deep_view());
        proof {
            if distinct_identities(roster) {
                game_laws::lemma_assembled_distinct(
                    roster,
                    prompts,
                    fragments,
                    drawing_ids@,
                );
            }
        }
        Some(round)
    }

    /// The entries of the round, in the order of its players.
    pub fn get_data(&self) -> (data: &Vec<RoundDataPerPlayer>)
        ensures
            data.deep_view() == self.deep_view(),
            data@ == self@,
    {
        assert(self.round_data_per_player.deep_view() =~= self.deep_view());
        &self.round_data_per_player
    }

    /// The place of the player's entry.
    pub fn position(&self, client_id: &u128) -> (r: Option<usize>)
        ensures
            match r {
                Some(i) => is_first_entry(self.deep_view(), *client_id, i as int),
                None => !has_entry(self.deep_view(), *client_id),
            },
    {
        let mut i: usize = 0;
        while i < self.round_data_per_player.len()
            invariant
                i <= self.round_data_per_player.len(),
                forall|j: int| 0 <= j < i ==> self.deep_view()[j].player_id != *client_id,
            decreases self.round_data_per_player.len() - i,
        {
            if self.round_data_per_player[i].player_id == *client_id {
                return Some(i);
            }
            i += 1;
        }
        None
    }

    /// The prompt of the player, if they are in the round.
    pub fn get_drawing_suggestion(&self, client_id: &u128) -> (r: Option<&String>)
        ensures
            r is Some <==> has_entry(self.deep_view(), *client_id),
            r matches Some(s) ==> s@ == entry_of(self.deep_view(), *client_id).drawing_suggestion,
    {
        match self.position(client_id) {
            Some(i) => {
                proof {
                    lemma_first_entry(self.deep_view(), *client_id, i as int);
                }
                Some(&self.round_data_per_player[i].drawing_suggestion)
            },
            None => None,
        }
    }

    /// The fragment that the player draws over, if there is one.
    pub fn get_imprint(&self, client_id: &u128) -> (r: Option<&Drawing>)
        ensures
            r.deep_view() == if has_entry(self.deep_view(), *client_id) {
                entry_of(self.deep_view(), *client_id).imprint
            } else {
                None
            },
    {
        match self.position(client_id) {
            Some(i) => {
                proof {
                    lemma_first_entry(self.deep_view(), *client_id, i as int);
                }
                self.round_data_per_player[i].imprint.as_ref()
            },
            None => None,
        }
    }

    /// The drawing of the player, once it is handed in.
    pub fn get_drawing(&self, client_id: &u128) -> (r: Option<&Drawing>)
        ensures
            r.deep_view() == if has_entry(self.deep_view(), *client_id) {
                entry_of(self.deep_view(), *client_id).drawing
            } else {
                None
            },
    {
        match self.position(client_id) {
            Some(i) => {
                proof {
                    lemma_first_entry(self.deep_view(), *client_id, i as int);
                }
                self.round_data_per_player[i].drawing.as_ref()
            },
            None => None,
        }
    }

    /// Records the drawing of the player, unless one was recorded before.
    pub fn set_drawing(&mut self, client_id: &u128, drawing: Drawing) -> (r: Result<
        (),
        SubmitDrawingError,
    >)
        requires
            has_entry(old(self).deep_view(), *client_id),
        ensures
            match r {
                Ok(_) => {
                    &&& entry_of(old(self).deep_view(), *client_id).drawing is None
                    &&& final(self).deep_view() == with_drawing(
                        old(self).deep_view(),
                        *client_id,
                        drawing.deep_view(),
                    )
                },
                Err(e) => {
                    &&& e == SubmitDrawingError::DrawingWasAlreadySubmitted
                    &&& entry_of(old(self).deep_view(), *client_id).drawing is Some
                    &&& final(self).deep_view() == old(self).deep_view()
                },
            },
    {
        let found = self.position(client_id);
        let first = found.unwrap();
        proof {
            lemma_first_entry(self.deep_view(), *client_id, first as int);
        }
        if self.round_data_per_player[first].drawing.is_some() {
            return Err(SubmitDrawingError::DrawingWasAlreadySubmitted);
        }
        let ghost before = self.deep_view();
        let ghost strokes = drawing.deep_view();
        assert(first < self.round_data_per_player.len());
        self.round_data_per_player[first].drawing = Some(drawing);
        assert(self.deep_view().len() == before.len());
        assert(self.deep_view()[first as int] == RoundDataPerPlayerSpec {
            drawing: Some(strokes),
            ..before[first as int]
        });
        assert forall|j: int| 0 <= j < before.len() && j != first implies self.deep_view()[j]
            == before[j] by {}
        // Any later entry of the same player gets a copy.
        let mut i: usize = first + 1;
        while i < self.round_data_per_player.len()
            invariant
                first < i <= self.round_data_per_player.len(),
                self.deep_view().len() == before.len(),
                self.deep_view()[first as int].drawing == Some(strokes),
                forall|j: int|
                    0 <= j < i ==> self.deep_view()[j] == with_drawing(before, *client_id, strokes)[j],
                forall|j: int| i <= j < before.len() ==> self.deep_view()[j] == before[j],
            decreases self.round_data_per_player.len() - i,
        {
            let ghost mid = self.deep_view();
            if self.round_data_per_player[i].player_id == *client_id {
                let copy = clone_optional_drawing(&self.round_data_per_player[first].drawing);
                self.round_data_per_player[i].drawing = copy;
                assert(self.deep_view()[i as int] == RoundDataPerPlayerSpec {
                    drawing: Some(strokes),
                    ..mid[i as int]
                });
            }
            assert(self.deep_view().len() == mid.len());
            assert forall|j: int| 0 <= j < mid.len() && j != i implies self.deep_view()[j]
                == mid[j] by {}
            assert(mid[i as int] == before[i as int]);
            assert(self.deep_view()[i as int] == with_drawing(before, *client_id, strokes)[i as int]);
            assert forall|j: int| 0 <= j < i implies self.deep_view()[j] == with_drawing(
                before,
                *client_id,
                strokes,
            )[j] by {
                assert(self.deep_view()[j] == mid[j]);
            }
            i += 1;
        }
        assert(self.deep_view() =~= with_drawing(before, *client_id, strokes));
        Ok(())
    }

    /// Whether the round holds a drawing of that name.
    pub fn knows_drawing(&self, drawing_id: u128) -> (r: bool)
        ensures
            r == has_drawing_id(self.deep_view(), drawing_id),
    {
        let mut i: usize = 0;
        while i < self.round_data_per_player.len()
            invariant
                i <= self.round_data_per_player.len(),
                forall|j: int| 0 <= j < i ==> self.deep_view()[j].drawing_id != drawing_id,
            decreases self.round_data_per_player.len() - i,
        {
            if self.round_data_per_player[i].drawing_id == drawing_id {
                assert(self.deep_view()[i as int].drawing_id == drawing_id);
                return true;
            }
            i += 1;
        }
        false
    }

    /// Counts the ballot of the player, or turns it down and changes
    /// nothing. A player votes once in a round. A ballot of more than three
    /// votes is turned down whoever hands it in; any other must come from a
    /// player of the round.
    pub fn submit_vote(&mut self, client_id: &u128, votes: HashMap<u128, i32>) -> (r: Result<
        (),
        SubmitVoteError,
    >)
        requires
            ballot_total(votes@) <= MAX_VOTES_PER_ROUND ==> has_entry(
                old(self).deep_view(),
                *client_id,
            ),
        ensures
            match r {
                Ok(_) => {
                    &&& ballot_fault(old(self).deep_view(), *client_id, votes@) is None
                    &&& final(self).deep_view() == with_ballot(
                        old(self).deep_view(),
                        *client_id,
                        votes@,
                    )
                },
                Err(e) => {
                    &&& ballot_fault(old(self).deep_view(), *client_id, votes@) == Some(e)
                    &&& final(self).deep_view() == old(self).deep_view()
                },
            },
    {
        let ghost before = self.deep_view();
        if ballot_sum(&votes) > MAX_VOTES_PER_ROUND as i128 {
            return Err(SubmitVoteError::MaximumVotesExceeded);
        }
        let found = self.position(client_id);
        let own = found.unwrap();
        proof {
            lemma_first_entry(before, *client_id, own as int);
        }
        if ballot_votes_for(&votes, self.round_data_per_player[own].drawing_id) {
            return Err(SubmitVoteError::ClientVotedForSelf);
        }
        let named = ballot_entries(&votes);
        let mut k: usize = 0;
        while k < named.len()
            invariant
                k <= named.len(),
                self.deep_view() == before,
                is_listing(named@, votes@),
                has_entry(before, *client_id),
                ballot_total(votes@) <= MAX_VOTES_PER_ROUND,
                !votes_for(votes@, entry_of(before, *client_id).drawing_id),
                forall|j: int| 0 <= j < k ==> has_drawing_id(before, (#[trigger] named@[j]).0),
            decreases named.len() - k,
        {
            if !self.knows_drawing(named[k].0) {
                assert(votes@.contains_key(named@[k as int].0));
                assert(!ballot_ids_known(before, votes@));
                return Err(SubmitVoteError::InvalidDrawingId);
            }
            k += 1;
        }
        assert forall|drawing_id: u128| #[trigger]
            votes@.contains_key(drawing_id) implies has_drawing_id(before, drawing_id) by {
            let j = choose|j: int| 0 <= j < named.len() && (#[trigger] named@[j]).0 == drawing_id;
            assert(has_drawing_id(before, named@[j].0));
        }
        assert(ballot_ids_known(before, votes@));
        if self.round_data_per_player[own].has_voted {
            return Err(SubmitVoteError::MaximumVotesExceeded);
        }
        let mut tallies: Vec<i32> = Vec::new();
        let mut i: usize = 0;
        while i < self.round_data_per_player.len()
            invariant
                i <= self.round_data_per_player.len(),
                self.deep_view() == before,
                has_entry(before, *client_id),
                ballot_ids_known(before, votes@),
                ballot_total(votes@) <= MAX_VOTES_PER_ROUND,
                !votes_for(votes@, entry_of(before, *client_id).drawing_id),
                !entry_of(before, *client_id).has_voted,
                tallies.len() == i,
                forall|j: int|
                    0 <= j < i ==> (#[trigger] tallies@[j]) == before[j].votes + ballot_amount(
                        votes@,
                        before[j].drawing_id,
                    ),
            decreases self.round_data_per_player.len() - i,
        {
            let amount = ballot_amount_for(&votes, self.round_data_per_player[i].drawing_id);
            let tally = self.round_data_per_player[i].votes as i128 + amount as i128;
            if tally < i32::MIN as i128 || tally > i32::MAX as i128 {
                assert(!(i32::MIN <= before[i as int].votes + ballot_amount(
                    votes@,
                    before[i as int].drawing_id,
                ) <= i32::MAX));
                assert(!tallies_fit(before, votes@));
                return Err(SubmitVoteError::MaximumVotesExceeded);
            }
            tallies.push(tally as i32);
            i += 1;
        }
        assert forall|j: int| 0 <= j < before.len() implies i32::MIN <= (#[trigger] before[j]).votes
            + ballot_amount(votes@, before[j].drawing_id) <= i32::MAX by {
            let tally = tallies@[j];
        }
        assert(tallies_fit(before, votes@));
        let mut i: usize = 0;
        while i < self.round_data_per_player.len()
            invariant
                i <= self.round_data_per_player.len(),
                self.deep_view().len() == before.len(),
                tallies.len() == before.len(),
                forall|j: int|
                    0 <= j < before.len() ==> (#[trigger] tallies@[j]) == before[j].votes
                        + ballot_amount(votes@, before[j].drawing_id),
                forall|j: int|
                    0 <= j < i ==> self.deep_view()[j] == with_ballot(before, *client_id, votes@)[j],
                forall|j: int| i <= j < before.len() ==> self.deep_view()[j] == before[j],
            decreases self.round_data_per_player.len() - i,
        {
            let ghost mid = self.deep_view();
            self.round_data_per_player[i].votes = tallies[i];
            if self.round_data_per_player[i].player_id == *client_id {
                self.round_data_per_player[i].has_voted = true;
            }
            assert(self.deep_view().len() == mid.len());
            assert(self.deep_view()[i as int] == RoundDataPerPlayerSpec {
                votes: tallies@[i as int],
                has_voted: mid[i as int].has_voted || mid[i as int].player_id == *client_id,
                ..mid[i as int]
            });
            assert forall|j: int| 0 <= j < mid.len() && j != i implies self.deep_view()[j]
                == mid[j] by {}
            assert(mid[i as int] == before[i as int]);
            assert(self.deep_view()[i as int] == with_ballot(before, *client_id, votes@)[i as int]);
            assert forall|j: int| 0 <= j < i implies self.deep_view()[j] == with_ballot(
                before,
                *client_id,
                votes@,
            )[j] by {
                assert(self.deep_view()[j] == mid[j]);
            }
            i += 1;
        }
        assert(self.deep_view() =~= with_ballot(before, *client_id, votes@));
        Ok(())
    }

    /// Returns true if all connected players have handed in a drawing.
    pub fn is_done_drawing(&self, players: &Vec<Player>) -> (r: bool)
        ensures
            r == done_drawing(self.deep_view(), players.deep_view()),
    {
        let mut i: usize = 0;
        while i < self.round_data_per_player.len()
            invariant
                i <= self.round_data_per_player.len(),
                forall|j: int|
                    0 <= j < i && is_connected(
                        players.deep_view(),
                        #[trigger] self.deep_view()[j].player_id,
                    ) ==> self.deep_view()[j].drawing is Some,
            decreases self.round_data_per_player.len() - i,
        {
            if is_connected_player(players, self.round_data_per_player[i].player_id)
                && self.round_data_per_player[i].drawing.is_none() {
                assert(is_connected(players.deep_view(), self.deep_view()[i as int].player_id));
                return false;
            }
            i += 1;
        }
        true
    }

    /// Returns true if all connected players have voted.
    pub fn is_done_voting(&self, players: &Vec<Player>) -> (r: bool)
        ensures
            r == done_voting(self.deep_view(), players.deep_view()),
    {
        let mut i: usize = 0;
        while i < self.round_data_per_player.len()
            invariant
                i <= self.round_data_per_player.len(),
                forall|j: int|
                    0 <= j < i && is_connected(
                        players.deep_view(),
                        #[trigger] self.deep_view()[j].player_id,
                    ) ==> self.deep_view()[j].has_voted,
            decreases self.round_data_per_player.len() - i,
        {
            if is_connected_player(players, self.round_data_per_player[i].player_id)
                && !self.round_data_per_player[i].has_voted {
                assert(is_connected(players.deep_view(), self.deep_view()[i as int].player_id));
                return false;
            }
            i += 1;
        }
        true
    }

    /// The players of the round, each with the votes for their drawing.
    pub fn get_scores(&self) -> (scores: Vec<(u128, i32)>)
        ensures
            scores@ == scores_of(self.deep_view()),
    {
        let mut scores: Vec<(u128, i32)> = Vec::new();
        let mut i: usize = 0;
        while i < self.round_data_per_player.len()
            invariant
                i <= self.round_data_per_player.len(),
                scores.len() == i,
                forall|j: int|
                    0 <= j < i ==> (#[trigger] scores@[j]) == (
                        self.deep_view()[j].player_id,
                        self.deep_view()[j].votes,
                    ),
            decreases self.round_data_per_player.len() - i,
        {
            scores.push(
                (self.round_data_per_player[i].player_id, self.round_data_per_player[i].votes),
            );
            i += 1;
        }
        assert(scores@ =~= scores_of(self.deep_view()));
        scores
    }
}

/// The first entry of a player is the entry of the player.
pub proof fn lemma_first_entry(entries: RoundSpec, id: u128, i: int)
    requires
        is_first_entry(entries, id, i),
    ensures
        has_entry(entries, id),
        entry_of(entries, id) == entries[i],
{
    let j = choose|j: int| is_first_entry(entries, id, j);
    assert(j == i);
}

/// A prefix of the room has no more connected players than the room.
pub proof fn lemma_connected_count_prefix(players: Seq<PlayerSpec>, n: int)
    requires
        0 <= n <= players.len(),
    ensures
        connected_count(players.take(n)) <= connected_count(players),
    decreases players.len() - n,
{
    if n < players.len() {
        lemma_connected_count_prefix(players, n + 1);
        assert(players.take(n + 1).drop_last() =~= players.take(n));
    } else {
        assert(players.take(n) =~= players);
    }
}

} // verus!
