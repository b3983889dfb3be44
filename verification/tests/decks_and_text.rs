use block_id::{Alphabet, BlockId};
use drawing_game::deck::Deck;
use drawing_game::deck_repository::{get_available_deck_names, is_available_deck};
use drawing_game::errors::DeckError;
use drawing_game::room_code_generator::RoomCodeGenerator;
use drawing_game::text::{decimal_string, make_numbered_name};

fn cards_of(names: &[&str]) -> Vec<String> {
    names.iter().map(|s| s.to_string()).collect()
}

fn drain_deck(deck: &mut Deck<String>) -> Vec<String> {
    let mut out = Vec::new();
    while let Some(card) = deck.draw_card() {
        out.push(card);
    }
    out
}

#[test]
fn deck_draws_from_the_top() {
    let mut deck = Deck::new(cards_of(&["a", "b", "c"]));
    assert_eq!(deck.len(), 3);
    assert_eq!(deck.draw_card(), Some("c".to_string()));
    assert_eq!(deck.draw_card(), Some("b".to_string()));
    assert_eq!(deck.len(), 1);
    assert_eq!(deck.draw_card(), Some("a".to_string()));
    assert_eq!(deck.len(), 0);
}

#[test]
fn deck_draw_on_empty_is_none_and_stays_empty() {
    let mut deck: Deck<String> = Deck::new(Vec::new());
    assert_eq!(deck.draw_card(), None);
    assert_eq!(deck.draw_card(), None);
    assert_eq!(deck.len(), 0);
}

#[test]
fn deck_add_card_goes_on_top() {
    let mut deck = Deck::new(cards_of(&["a"]));
    deck.add_card("rabbit".to_string());
    assert_eq!(deck.len(), 2);
    assert_eq!(deck.draw_card(), Some("rabbit".to_string()));
    assert_eq!(deck.draw_card(), Some("a".to_string()));
}

#[test]
fn deck_from_decks_lays_piles_one_after_the_other() {
    let decks = vec![
        Deck::new(cards_of(&["a", "b"])),
        Deck::new(Vec::new()),
        Deck::new(cards_of(&["c"])),
        Deck::new(cards_of(&["d", "e"])),
    ];
    let mut all = Deck::from_decks(decks);
    assert_eq!(all.len(), 5);
    assert_eq!(drain_deck(&mut all), cards_of(&["e", "d", "c", "b", "a"]));
}

#[test]
fn deck_from_decks_of_nothing_is_empty() {
    let mut all: Deck<String> = Deck::from_decks(Vec::new());
    assert_eq!(all.len(), 0);
    assert_eq!(all.draw_card(), None);
}

#[test]
fn deck_from_json_reads_the_cards_in_order() {
    let mut deck = Deck::from("[\"cat\", \"dog\", \"emu\"]").unwrap();
    assert_eq!(deck.len(), 3);
    assert_eq!(drain_deck(&mut deck), cards_of(&["emu", "dog", "cat"]));
}

#[test]
fn deck_from_json_of_an_empty_array_is_empty() {
    let deck = Deck::from("[]").unwrap();
    assert_eq!(deck.len(), 0);
}

#[test]
fn deck_from_text_that_is_no_json_fails() {
    assert_eq!(Deck::from("not json").err(), Some(DeckError::InvalidJson));
    assert_eq!(Deck::from("").err(), Some(DeckError::InvalidJson));
}

#[test]
fn deck_from_json_that_is_no_list_of_strings_fails() {
    assert_eq!(Deck::from("{\"a\": 1}").err(), Some(DeckError::InvalidJson));
    assert_eq!(Deck::from("[1, 2, 3]").err(), Some(DeckError::InvalidJson));
    assert_eq!(Deck::from("[\"a\", 2]").err(), Some(DeckError::InvalidJson));
}

#[test]
fn deck_shuffle_keeps_the_cards_and_moves_them() {
    let names: Vec<String> = (0..60).map(|i| format!("card{}", i)).collect();
    let mut deck = Deck::new(names.clone());
    deck.shuffle();
    assert_eq!(deck.len(), 60);
    let mut drawn = drain_deck(&mut deck);
    drawn.reverse();
    assert_ne!(drawn, names);
    let mut sorted_drawn = drawn.clone();
    sorted_drawn.sort();
    let mut sorted_names = names.clone();
    sorted_names.sort();
    assert_eq!(sorted_drawn, sorted_names);
}

#[test]
fn deck_shuffle_of_an_empty_deck_is_empty() {
    let mut deck: Deck<String> = Deck::new(Vec::new());
    deck.shuffle();
    assert_eq!(deck.len(), 0);
}

#[test]
fn available_deck_names_are_the_ten_decks_in_order() {
    assert_eq!(
        get_available_deck_names(),
        vec![
            "animals",
            "clothing",
            "geo-political",
            "hobbies",
            "musical-instruments",
            "occupations",
            "space",
            "transportation",
            "fruits-and-vegetables",
            "misc",
        ]
    );
}

#[test]
fn is_available_deck_knows_the_decks_only() {
    assert!(is_available_deck(&"animals".to_string()));
    assert!(is_available_deck(&"misc".to_string()));
    assert!(is_available_deck(&"fruits-and-vegetables".to_string()));
    assert!(!is_available_deck(&"Animals".to_string()));
    assert!(!is_available_deck(&"animal".to_string()));
    assert!(!is_available_deck(&"".to_string()));
    assert!(!is_available_deck(&"dragons".to_string()));
}

#[test]
fn decimal_string_writes_numbers() {
    assert_eq!(decimal_string(0), "0");
    assert_eq!(decimal_string(7), "7");
    assert_eq!(decimal_string(10), "10");
    assert_eq!(decimal_string(109), "109");
    assert_eq!(decimal_string(12345), "12345");
    assert_eq!(decimal_string(usize::MAX), usize::MAX.to_string());
}

#[test]
fn numbered_names_are_the_base_then_base_with_a_number() {
    assert_eq!(make_numbered_name("Alice", 0), "Alice");
    assert_eq!(make_numbered_name("Alice", 1), "Alice(1)");
    assert_eq!(make_numbered_name("Alice", 12), "Alice(12)");
    assert_eq!(make_numbered_name("", 3), "(3)");
}

#[test]
fn room_codes_are_block_ids_in_upper_case() {
    let seed: u128 = 118;
    let mut generator = RoomCodeGenerator::new(seed, 4);
    let reference = BlockId::new(Alphabet::lowercase_alpha(), seed, 4);
    for n in 1..50u64 {
        let code = generator.generate();
        assert_eq!(code, reference.encode_string(n).to_ascii_uppercase());
        assert!(code.len() >= 4);
        assert!(code.chars().all(|c| c.is_ascii_uppercase()));
    }
}

#[test]
fn room_codes_of_one_generator_differ() {
    let mut generator = RoomCodeGenerator::new(9876, 4);
    let mut seen: Vec<String> = Vec::new();
    for _ in 0..200 {
        let code = generator.generate();
        assert!(!seen.contains(&code));
        seen.push(code);
    }
}

#[test]
fn generators_with_the_same_seed_make_the_same_codes() {
    let mut a = RoomCodeGenerator::new(42, 4);
    let mut b = RoomCodeGenerator::new(42, 4);
    let mut c = RoomCodeGenerator::new(1000, 4);
    let codes_a: Vec<String> = (0..20).map(|_| a.generate()).collect();
    let codes_b: Vec<String> = (0..20).map(|_| b.generate()).collect();
    let codes_c: Vec<String> = (0..20).map(|_| c.generate()).collect();
    assert_eq!(codes_a, codes_b);
    assert_ne!(codes_a, codes_c);
}

#[test]
fn room_codes_have_at_least_the_length_asked_for() {
    let mut generator = RoomCodeGenerator::new(5, 6);
    for _ in 0..20 {
        assert!(generator.generate().len() >= 6);
    }
}
