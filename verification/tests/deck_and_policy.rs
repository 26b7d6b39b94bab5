use blackjack_sim::card::Card;
use blackjack_sim::deck::Deck;
use blackjack_sim::game::{handle_dealer_action, handle_player_action, BlackJackAction};
use blackjack_sim::hand::evaluate_hand;

#[test]
fn test_new_deck_has_52_cards_per_deck() {
    let deck = Deck::new(&1);
    assert_eq!(deck.size(), 52);
    let deck = Deck::new(&10);
    assert_eq!(deck.size(), 520);
}

#[test]
fn test_remove_known_card_shrinks_deck_by_one() {
    let mut deck = Deck::new(&1);
    deck.remove_card_from_deck(&Card::Ace);
    assert_eq!(deck.size(), 51);
    deck.remove_card_from_deck(&Card::Ace);
    deck.remove_card_from_deck(&Card::Ace);
    deck.remove_card_from_deck(&Card::Ace);
    assert_eq!(deck.size(), 48);
    // only four aces exist: the fifth removal is a silent no-op
    deck.remove_card_from_deck(&Card::Ace);
    assert_eq!(deck.size(), 48);
}

#[test]
fn test_remove_empty_placeholder_is_a_no_op() {
    let mut deck = Deck::new(&1);
    deck.remove_card_from_deck(&Card::Empty);
    assert_eq!(deck.size(), 52);
}

#[test]
fn test_take_random_card_shrinks_deck_by_one() {
    let mut deck = Deck::new(&1);
    let card = deck.take_random_card_from_deck();
    assert!(card != Card::Empty);
    assert_eq!(deck.size(), 51);
}

#[test]
fn test_exhausted_deck_falls_back_to_first_rank() {
    let mut deck = Deck::new(&1);
    for _ in 0..52 {
        let card = deck.take_random_card_from_deck();
        assert!(card != Card::Empty);
    }
    assert_eq!(deck.size(), 0);
    // the defensive path: deterministic pick, deck unchanged
    assert_eq!(deck.take_random_card_from_deck(), Card::Ace);
    assert_eq!(deck.size(), 0);
}

#[test]
fn test_stand_keeps_the_hand() {
    let mut deck = Deck::new(&1);
    let mut hand = vec![Card::Ten, Card::Seven];
    handle_player_action(&mut hand, &BlackJackAction::STAND, &mut deck);
    assert_eq!(hand, vec![Card::Ten, Card::Seven]);
    assert_eq!(deck.size(), 52);
}

#[test]
fn test_hit_appends_the_requested_number_of_cards() {
    let mut deck = Deck::new(&1);
    let mut hand = vec![Card::Ten, Card::Seven];
    handle_player_action(&mut hand, &BlackJackAction::HIT(3), &mut deck);
    assert_eq!(hand.len(), 5);
    assert_eq!(hand[0], Card::Ten);
    assert_eq!(hand[1], Card::Seven);
    assert_eq!(deck.size(), 49);
}

#[test]
fn test_split_discards_second_card_then_draws() {
    let mut deck = Deck::new(&1);
    let mut hand = vec![Card::Eight, Card::Eight];
    handle_player_action(&mut hand, &BlackJackAction::SPLIT(2), &mut deck);
    assert_eq!(hand.len(), 3);
    assert_eq!(hand[0], Card::Eight);
    assert_eq!(deck.size(), 50);
}

#[test]
fn test_dealer_draws_to_seventeen_or_more() {
    for _ in 0..50 {
        let mut deck = Deck::new(&1);
        let mut dealer = vec![Card::Six];
        handle_dealer_action(&mut dealer, &mut deck);
        assert!(dealer.len() >= 2);
        assert!(dealer.len() <= 17);
        assert_eq!(dealer[0], Card::Six);
        // the deck lost exactly the drawn cards
        assert_eq!(deck.size(), 52 - (dealer.len() as u64 - 1));
        let max = evaluate_hand(&dealer).into_iter().max().unwrap();
        assert!(max >= 17);
    }
}

#[test]
fn test_dealer_stands_on_soft_seventeen() {
    // ace + six: the maximum achievable total is 17, so no card is drawn
    let mut deck = Deck::new(&1);
    let mut dealer = vec![Card::Ace, Card::Six];
    handle_dealer_action(&mut dealer, &mut deck);
    assert_eq!(dealer, vec![Card::Ace, Card::Six]);
    assert_eq!(deck.size(), 52);
}

#[test]
fn test_dealer_already_standing_draws_nothing() {
    let mut deck = Deck::new(&1);
    let mut dealer = vec![Card::King, Card::Seven];
    handle_dealer_action(&mut dealer, &mut deck);
    assert_eq!(dealer, vec![Card::King, Card::Seven]);
}
