//! The prompt decks a game can be played with.

use vstd::prelude::*;

verus! {

/// The names of the decks that exist, in their fixed order.
pub open spec fn available_deck_names() -> Seq<Seq<char>> {
    seq![
        "animals"@,
        "clothing"@,
        "geo-political"@,
        "hobbies"@,
        "musical-instruments"@,
        "occupations"@,
        "space"@,
        "transportation"@,
        "fruits-and-vegetables"@,
        "misc"@,
    ]
}

/// The names of the decks that exist, in their fixed order.
pub fn get_available_deck_names() -> (names: Vec<&'static str>)
    ensures
        names.deep_view() == available_deck_names(),
{
    let names = vec![
        "animals",
        "clothing",
        "geo-political",
        "hobbies",
        "musical-instruments",
        "occupations",
        "space",
        "transportation",
        "fruits-and-vegetables",
        "misc",
    ];
    assert(names.deep_view() =~= available_deck_names());
    names
}

/// Whether a deck of that name exists.
pub fn is_available_deck(name: &String) -> (found: bool)
    ensures
        found == available_deck_names().contains(name@),
{
    let names = get_available_deck_names();
    let mut i: usize = 0;
    while i < names.len()
        invariant
            i <= names.len(),
            names.deep_view() == available_deck_names(),
            forall|j: int| 0 <= j < i ==> available_deck_names()[j] != name@,
        decreases names.len() - i,
    {
        let candidate = names[i].to_owned();
        assert(candidate@ == names.deep_view()[i as int]);
        if candidate == *name {
            return true;
        }
        i += 1;
    }
    false
}

} // verus!
