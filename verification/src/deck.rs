//! A deck of cards: drawn from the top, shuffled as a whole.

use crate::errors::DeckError;
use crate::random::{is_shuffle_of, shuffle_in_place};
use vstd::prelude::*;

verus! {

/// An ordered pile of cards. The last card is the top one.
#[derive(Debug)]
pub struct Deck<CardT> {
    v: Vec<CardT>,
}

impl<CardT> View for Deck<CardT> {
    type V = Seq<CardT>;

    closed spec fn view(&self) -> Seq<CardT> {
        self.v@
    }
}

impl<CardT: DeepView> DeepView for Deck<CardT> {
    type V = Seq<CardT::V>;

    open spec fn deep_view(&self) -> Seq<CardT::V> {
        Seq::new(self@.len(), |i: int| self@[i].deep_view())
    }
}

#[verifier::external_type_specification]
#[verifier::external_body]
pub struct ExJsonError(serde_json::Error);

/// What `serde_json` reads from a text as a list of strings: the list, or
/// nothing where the text is not a JSON array of strings.
pub uninterp spec fn json_string_array(text: Seq<char>) -> Option<Seq<Seq<char>>>;

/// Calls `serde_json::from_str` for a `Vec<String>`. The claim: the outcome
/// depends on the text alone.
#[verifier::external_body]
fn parse_string_array(text: &str) -> (r: Result<Vec<String>, serde_json::Error>)
    ensures
        match r {
            Ok(cards) => json_string_array(text@) == Some(cards.deep_view()),
            Err(_) => json_string_array(text@) is None,
        },
{
    serde_json::from_str::<Vec<String>>(text)
}

impl Deck<String> {
    /// Reads a deck from the text of a deck file: a JSON array of strings,
    /// the last of which becomes the top card.
    pub fn from(contents: &str) -> (r: Result<Self, DeckError>)
        ensures
            match r {
                Ok(deck) => json_string_array(contents@) == Some(deck.deep_view()),
                Err(e) => e == DeckError::InvalidJson && json_string_array(contents@) is None,
            },
    {
        match parse_string_array(contents) {
            Ok(cards) => {
                let deck = Deck::new(cards);
                assert(deck.deep_view() =~= cards.deep_view());
                Ok(deck)
            },
            Err(_) => Err(DeckError::InvalidJson),
        }
    }
}

/// The cards of several piles laid one after the other.
pub open spec fn concat_all<T>(piles: Seq<Seq<T>>) -> Seq<T>
    decreases piles.len(),
{
    if piles.len() == 0 {
        Seq::empty()
    } else {
        concat_all(piles.drop_last()) + piles.last()
    }
}

impl<CardT> Deck<CardT> {
    /// A deck of the given cards, the last one on top.
    pub fn new(cards: Vec<CardT>) -> (deck: Self)
        ensures
            deck@ == cards@,
    {
        Deck { v: cards }
    }

    /// One deck of all the cards of `decks`, in their order.
    pub fn from_decks(decks: Vec<Self>) -> (deck: Self)
        ensures
            deck@ == concat_all(decks@.map_values(|d: Self| d@)),
    {
        let ghost piles = decks@.map_values(|d: Self| d@);
        let mut decks = decks;
        let mut v: Vec<CardT> = Vec::new();
        let mut i: usize = 0;
        let n = decks.len();
        while i < n
            invariant
                n == decks.len(),
                i <= n,
                piles.len() == n,
                forall|j: int| i <= j < n ==> (#[trigger] decks@[j])@ == piles[j],
                v@ == concat_all(piles.take(i as int)),
            decreases n - i,
        {
            let mut cards: Vec<CardT> = Vec::new();
            std::mem::swap(&mut cards, &mut decks[i].v);
            assert(cards@ == piles[i as int]);
            v.append(&mut cards);
            proof {
                assert(piles.take(i + 1).drop_last() =~= piles.take(i as int));
                assert(piles.take(i + 1).last() == piles[i as int]);
            }
            i += 1;
        }
        assert(piles.take(n as int) =~= piles);
        Deck { v }
    }

    /// Puts a card on top.
    pub fn add_card(&mut self, card: CardT)
        ensures
            final(self)@ == old(self)@.push(card),
    {
        self.v.push(card);
    }

    /// Takes the top card, if there is one.
    pub fn draw_card(&mut self) -> (card: Option<CardT>)
        ensures
            match card {
                Some(c) => old(self)@.len() > 0 && c == old(self)@.last() && final(self)@ == old(self)@.drop_last(),
                None => old(self)@.len() == 0 && final(self)@ == old(self)@,
            },
    {
        self.v.pop()
    }

    /// Puts the cards in a random order.
    pub fn shuffle(&mut self)
        ensures
            is_shuffle_of(final(self)@, old(self)@),
    {
        shuffle_in_place(&mut self.v);
    }

    /// How many cards are left.
    pub fn len(&self) -> (n: usize)
        ensures
            n == self@.len(),
    {
        self.v.len()
    }
}

/// The texts of the cards.
pub open spec fn texts(cards: Seq<String>) -> Seq<Seq<char>> {
    Seq::new(cards.len(), |i: int| cards[i]@)
}

/// The texts of piles laid one after the other are the texts of each pile
/// laid one after the other.
pub proof fn lemma_concat_all_texts(piles: Seq<Seq<String>>)
    ensures
        texts(concat_all(piles)) == concat_all(Seq::new(piles.len(), |i: int| texts(piles[i]))),
    decreases piles.len(),
{
    let each = Seq::new(piles.len(), |i: int| texts(piles[i]));
    if piles.len() == 0 {
        assert(texts(concat_all(piles)) =~= concat_all(each));
    } else {
        lemma_concat_all_texts(piles.drop_last());
        assert(each.drop_last() =~= Seq::new(
            piles.drop_last().len(),
            |i: int| texts(piles.drop_last()[i]),
        ));
        assert(texts(concat_all(piles)) =~= texts(concat_all(piles.drop_last())) + texts(
            piles.last(),
        ));
    }
}

} // verus!
