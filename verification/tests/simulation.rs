use blackjack_sim::card::Card;
use blackjack_sim::engine::{ActionOutcomes, GameError, ProbabilityValueOutcomes, UserDataState};
use blackjack_sim::game::BlackJackAction;

#[test]
fn test_generate_hit_outcomes_ten_thousand_sims() {
    let action_outcomes = ActionOutcomes::new();
    let outcome = action_outcomes.generate_outcomes(
        &UserDataState {
            current_cards: vec![Card::Ace, Card::Jack],
            dealer_card: vec![Card::Six],
            num_decks: 10,
            num_sims: 10_000,
        },
        &BlackJackAction::HIT(1),
    );

    assert_ne!(outcome.wins, outcome.trials);
    assert_ne!(outcome.wins, 0);

    assert_ne!(outcome.losses, outcome.trials);
    assert_ne!(outcome.losses, 0);

    assert_ne!(outcome.ties, outcome.trials);
    assert_ne!(outcome.ties, 0);
}

#[test]
fn test_generate_stand_outcomes_ten_thousand_sims() {
    let action_outcomes = ActionOutcomes::new();
    let outcome = action_outcomes.generate_outcomes(
        &UserDataState {
            current_cards: vec![Card::Ace, Card::Queen],
            dealer_card: vec![Card::Six],
            num_decks: 10,
            num_sims: 10_000,
        },
        &BlackJackAction::STAND,
    );

    assert!(outcome.wins > outcome.losses);

    assert_ne!(outcome.wins, outcome.trials);
    assert_ne!(outcome.wins, 0);

    assert_eq!(outcome.losses, 0);

    assert_ne!(outcome.ties, outcome.trials);
    assert_ne!(outcome.ties, 0);
}

#[test]
fn test_generate_stand_outcomes_expected_loss_ten_thousand_sims() {
    let action_outcomes = ActionOutcomes::new();
    let outcome = action_outcomes.generate_outcomes(
        &UserDataState {
            current_cards: vec![Card::Two],
            dealer_card: vec![Card::Six],
            num_decks: 10,
            num_sims: 10_000,
        },
        &BlackJackAction::STAND,
    );

    assert!(outcome.losses > outcome.wins);
}

#[test]
fn test_standing_on_a_natural_21_never_loses() {
    let action_outcomes = ActionOutcomes::new();
    let outcome = action_outcomes.generate_outcomes(
        &UserDataState {
            current_cards: vec![Card::Ace, Card::Jack],
            dealer_card: vec![Card::Six],
            num_decks: 10,
            num_sims: 10_000,
        },
        &BlackJackAction::STAND,
    );

    assert_eq!(outcome.losses, 0);
    assert!(outcome.wins > 0);
    assert!(outcome.wins < outcome.trials);
}

#[test]
fn test_tallies_always_sum_to_the_trial_count() {
    let action_outcomes = ActionOutcomes::new();
    let data = UserDataState {
        current_cards: vec![Card::Five, Card::Nine],
        dealer_card: vec![Card::King],
        num_decks: 2,
        num_sims: 777,
    };
    for action in [
        BlackJackAction::STAND,
        BlackJackAction::HIT(1),
        BlackJackAction::HIT(2),
        BlackJackAction::HIT(3),
    ] {
        let outcome = action_outcomes.generate_outcomes(&data, &action);
        assert_eq!(outcome.trials, 777);
        assert_eq!(outcome.wins + outcome.losses + outcome.ties, outcome.trials);
    }
}

#[test]
fn test_generate_all_rejects_invalid_state() {
    let mut action_outcomes = ActionOutcomes::new();
    // only one player card: not a playable blackjack state
    let data = UserDataState {
        current_cards: vec![Card::Two],
        dealer_card: vec![Card::Six],
        num_decks: 1,
        num_sims: 100,
    };
    let result = action_outcomes.generate_all_action_outcomes(&data);
    assert!(matches!(result, Err(GameError::InvalidGameState)));

    // zero decks
    let data = UserDataState {
        current_cards: vec![Card::Two, Card::Three],
        dealer_card: vec![Card::Six],
        num_decks: 0,
        num_sims: 100,
    };
    let result = action_outcomes.generate_all_action_outcomes(&data);
    assert!(matches!(result, Err(GameError::InvalidGameState)));

    // zero trials
    let data = UserDataState {
        current_cards: vec![Card::Two, Card::Three],
        dealer_card: vec![Card::Six],
        num_decks: 1,
        num_sims: 0,
    };
    let result = action_outcomes.generate_all_action_outcomes(&data);
    assert!(matches!(result, Err(GameError::InvalidGameState)));

    // an unselected placeholder slot left in the hand
    let data = UserDataState {
        current_cards: vec![Card::Two, Card::Empty],
        dealer_card: vec![Card::Six],
        num_decks: 1,
        num_sims: 100,
    };
    let result = action_outcomes.generate_all_action_outcomes(&data);
    assert!(matches!(result, Err(GameError::InvalidGameState)));
}

#[test]
fn test_generate_all_without_a_pair_keeps_split_slots_neutral() {
    let mut action_outcomes = ActionOutcomes::new();
    let data = UserDataState {
        current_cards: vec![Card::Two, Card::Three],
        dealer_card: vec![Card::Six],
        num_decks: 1,
        num_sims: 50,
    };
    let report = action_outcomes.generate_all_action_outcomes(&data).unwrap();

    let neutral = ProbabilityValueOutcomes::new();
    assert_eq!(report.split_hit_once, neutral);
    assert_eq!(report.split_hit_twice, neutral);
    assert_eq!(report.split_hit_thrice, neutral);
    assert_eq!(report.stand.trials, 50);
    assert_eq!(report.hit_once.trials, 50);
    assert_eq!(report.hit_twice.trials, 50);
    assert_eq!(report.hit_thrice.trials, 50);

    // the object itself is reset after a successful run
    assert_eq!(action_outcomes, ActionOutcomes::new());
}

#[test]
fn test_generate_all_with_a_pair_fills_split_slots() {
    let mut action_outcomes = ActionOutcomes::new();
    let data = UserDataState {
        current_cards: vec![Card::Eight, Card::Eight],
        dealer_card: vec![Card::Six],
        num_decks: 1,
        num_sims: 50,
    };
    let report = action_outcomes.generate_all_action_outcomes(&data).unwrap();

    assert_eq!(report.split_hit_once.trials, 50);
    assert_eq!(report.split_hit_twice.trials, 50);
    assert_eq!(report.split_hit_thrice.trials, 50);
    assert_eq!(
        report.split_hit_once.wins + report.split_hit_once.losses + report.split_hit_once.ties,
        50
    );
}

#[test]
fn test_neutral_default_is_an_even_coin_with_zero_value() {
    let neutral = ProbabilityValueOutcomes::new();
    // one win and one loss over two trials: 0.5 / 0.5 / 0, value 0
    assert_eq!(neutral.wins, 1);
    assert_eq!(neutral.losses, 1);
    assert_eq!(neutral.ties, 0);
    assert_eq!(neutral.trials, 2);

    let report = ActionOutcomes::new();
    assert_eq!(report.stand, neutral);
    assert_eq!(report.hit_once, neutral);
}

#[test]
fn test_is_valid_checks_each_invariant() {
    let good = UserDataState {
        current_cards: vec![Card::Two, Card::Three],
        dealer_card: vec![Card::Six],
        num_decks: 1,
        num_sims: 1,
    };
    assert!(good.is_valid());

    let two_dealer_cards = UserDataState {
        current_cards: vec![Card::Two, Card::Three],
        dealer_card: vec![Card::Six, Card::Seven],
        num_decks: 1,
        num_sims: 1,
    };
    assert!(!two_dealer_cards.is_valid());
}
