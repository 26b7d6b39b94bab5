use blackjack_sim::card::Card;
use blackjack_sim::game::{evaluate_hands, GameOutcome};
use blackjack_sim::hand::{can_split_hand, evaluate_hand, generate_value_combinations};

#[test]
fn test_generate_value_combinations() {
    let first_values: Vec<u64> = vec![1, 11];
    let second_values: Vec<u64> = vec![7];
    let third_values: Vec<u64> = vec![1, 11];
    let input = vec![first_values, second_values, third_values];
    let expected: Vec<u64> = vec![9, 19, 19, 29];

    let mut result = generate_value_combinations(&input);
    result.sort();

    assert_eq!(expected, result, "Expected {:?} but got {:?}", expected, result);
}

#[test]
fn test_evaluate_hand() {
    let hand = vec![Card::Ace, Card::Five, Card::Three];
    let expected: Vec<u64> = vec![9, 19];

    let mut result = evaluate_hand(&hand);
    result.sort();

    assert_eq!(expected, result, "Expected {:?} but got {:?}", expected, result);
}

#[test]
fn test_evaluate_hands_player_busts() {
    let player_hand = vec![Card::Jack, Card::Five, Card::Seven];
    let dealers_hand = vec![Card::Jack, Card::Six, Card::Queen];
    let expected_outcome = GameOutcome::LOSS;

    let actual_outcome = evaluate_hands(&player_hand, &dealers_hand);

    assert_eq!(
        expected_outcome, actual_outcome,
        "Expected {:?} but got {:?}",
        expected_outcome, actual_outcome
    );
}

#[test]
fn test_evaluate_hands_player_dealer_busts_player_does_not_bust() {
    let player_hand = vec![Card::Jack, Card::Five];
    let dealers_hand = vec![Card::Jack, Card::Six, Card::Queen];
    let expected_outcome = GameOutcome::WIN;

    let actual_outcome = evaluate_hands(&player_hand, &dealers_hand);

    assert_eq!(
        expected_outcome, actual_outcome,
        "Expected {:?} but got {:?}",
        expected_outcome, actual_outcome
    );
}

#[test]
fn test_evaluate_hands_when_equal() {
    let player_hand = vec![Card::Six, Card::Five];
    let dealers_hand = vec![Card::Six, Card::Five];
    let expected_outcome = GameOutcome::TIE;

    let actual_outcome = evaluate_hands(&player_hand, &dealers_hand);

    assert_eq!(
        expected_outcome, actual_outcome,
        "Expected {:?} but got {:?}",
        expected_outcome, actual_outcome
    );
}

#[test]
fn test_evaluate_hands_when_equal_with_aces() {
    let player_hand = vec![Card::Six, Card::Five, Card::Ace];
    let dealers_hand = vec![Card::Six, Card::Five, Card::Ace];
    let expected_outcome = GameOutcome::TIE;

    let actual_outcome = evaluate_hands(&player_hand, &dealers_hand);

    assert_eq!(
        expected_outcome, actual_outcome,
        "Expected {:?} but got {:?}",
        expected_outcome, actual_outcome
    );
}

#[test]
fn test_evaluate_hand_no_cards_gives_single_zero_total() {
    let hand: Vec<Card> = vec![];
    let result = evaluate_hand(&hand);
    assert_eq!(result, vec![0]);
}

#[test]
fn test_evaluate_hand_empty_placeholder_gives_no_totals() {
    let hand = vec![Card::Empty];
    let result = evaluate_hand(&hand);
    assert_eq!(result, Vec::<u64>::new());
}

#[test]
fn test_generate_value_combinations_no_lists() {
    let input: Vec<Vec<u64>> = vec![];
    let result = generate_value_combinations(&input);
    assert_eq!(result, vec![0]);
}

#[test]
fn test_evaluate_hand_is_order_independent() {
    let mut a = evaluate_hand(&vec![Card::Ace, Card::Five, Card::Three]);
    let mut b = evaluate_hand(&vec![Card::Three, Card::Ace, Card::Five]);
    a.sort();
    b.sort();
    assert_eq!(a, b);

    let mut c = evaluate_hand(&vec![Card::Ace, Card::Ace, Card::King, Card::Two]);
    let mut d = evaluate_hand(&vec![Card::King, Card::Ace, Card::Two, Card::Ace]);
    c.sort();
    d.sort();
    assert_eq!(c, d);
}

#[test]
fn test_evaluate_hand_never_empty_for_rank_hands() {
    let hands = vec![
        vec![Card::Two],
        vec![Card::Ace],
        vec![Card::Ace, Card::Ace, Card::Ace],
        vec![Card::King, Card::Queen, Card::Jack, Card::Ten, Card::Nine],
    ];
    for hand in hands {
        assert!(!evaluate_hand(&hand).is_empty());
    }
}

#[test]
fn test_card_values_of_each_rank() {
    assert_eq!(Card::Empty.get_card_values(), Vec::<u64>::new());
    assert_eq!(Card::Ace.get_card_values(), vec![1, 11]);
    assert_eq!(Card::Two.get_card_values(), vec![2]);
    assert_eq!(Card::Nine.get_card_values(), vec![9]);
    assert_eq!(Card::Ten.get_card_values(), vec![10]);
    assert_eq!(Card::Jack.get_card_values(), vec![10]);
    assert_eq!(Card::Queen.get_card_values(), vec![10]);
    assert_eq!(Card::King.get_card_values(), vec![10]);
}

#[test]
fn test_can_split_only_two_equal_cards() {
    assert!(can_split_hand(&vec![Card::Eight, Card::Eight]));
    assert!(can_split_hand(&vec![Card::Ace, Card::Ace]));
    assert!(!can_split_hand(&vec![Card::Eight, Card::Nine]));
    assert!(!can_split_hand(&vec![Card::Eight]));
    assert!(!can_split_hand(&vec![Card::Eight, Card::Eight, Card::Eight]));
    assert!(!can_split_hand(&Vec::new()));
}

#[test]
fn test_both_busting_is_a_loss() {
    let player_hand = vec![Card::King, Card::Queen, Card::Five];
    let dealers_hand = vec![Card::King, Card::Queen, Card::Five];
    assert_eq!(evaluate_hands(&player_hand, &dealers_hand), GameOutcome::LOSS);
}
