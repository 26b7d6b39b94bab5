//! The simulation engine: repeated randomized trials per candidate
//! action, reduced to exact win/loss/tie tallies.
//!
//! The engine reports counts, not quotients: a finished simulation of
//! `n` trials yields `wins + losses + ties == n`, so the three
//! probabilities (each count over `n`) sum to one exactly, and the
//! expected value of a bet `b` is `b * (wins - losses) / n`.  Turning
//! those counts into a caller's number format (and scaling by the bet)
//! is the caller's one remaining step.

use vstd::prelude::*;
use crate::card::Card;
use crate::deck::Deck;
use crate::game::{
    BlackJackAction, GameOutcome, evaluate_hands, handle_dealer_action, handle_player_action,
    is_best_total, lemma_twenty_one_never_loses,
};
use crate::hand::{can_split_hand, has_empty};

verus! {

/// Which user-supplied numeric field an error is about.
#[derive(Clone, Copy, Debug, PartialEq, Eq, Structural)]
pub enum InputField {
    NumDecks,
    BetSize,
    NumSims,
}

/// Which kind of number a field was expected to hold.
#[derive(Clone, Copy, Debug, PartialEq, Eq, Structural)]
pub enum NumberKind {
    Integer,
    Real,
}

/// The recoverable errors of a request: a text field that does not
/// parse as the required kind of number (raised by the boundary
/// adapter, which knows the field), or parsed values that violate the
/// game-state invariants.
#[derive(Clone, Copy, Debug, PartialEq, Eq, Structural)]
pub enum GameError {
    MalformedInput(InputField, NumberKind),
    InvalidGameState,
}

/// A game state for the engine: the player's cards, the dealer's
/// up-card, the number of decks and the number of trials per action.
/// The bet size only scales the expected value linearly, so it stays
/// with the caller, which applies it to the counts reported here.
pub struct UserDataState {
    pub current_cards: Vec<Card>,
    pub dealer_card: Vec<Card>,
    pub num_decks: u8,
    pub num_sims: u32,
}

/// The game-state invariants: at least two player cards, exactly one
/// dealer up-card, at least one deck and one trial, hands made of
/// actual ranks, and a player hand small enough for the arithmetic of
/// the evaluator.
pub open spec fn valid_state(s: UserDataState) -> bool {
    s.current_cards@.len() >= 2 && s.dealer_card@.len() == 1 && s.num_decks >= 1 && s.num_sims >= 1
        && !has_empty(s.current_cards@) && !has_empty(s.dealer_card@) && s.current_cards@.len()
        + 300 <= u32::MAX
}

/// Whether some slot of the hand is the `Empty` placeholder.
fn hand_has_empty(cards: &Vec<Card>) -> (r: bool)
    ensures
        r == has_empty(cards@),
{
    let n = cards.len();
    let mut i: usize = 0;
    while i < n
        invariant
            0 <= i <= n,
            n == cards@.len(),
            forall|k: int| 0 <= k < i ==> cards@[k] != Card::Empty,
        decreases n - i,
    {
        if cards[i] == Card::Empty {
            return true;
        }
        i += 1;
    }
    false
}

/// An exact copy of a hand, for per-trial use.
fn clone_cards(cards: &Vec<Card>) -> (r: Vec<Card>)
    ensures
        r@ == cards@,
{
    let n = cards.len();
    let mut r: Vec<Card> = Vec::new();
    let mut i: usize = 0;
    while i < n
        invariant
            0 <= i <= n,
            n == cards@.len(),
            r@.len() == i,
            forall|k: int| 0 <= k < i ==> r@[k] == cards@[k],
        decreases n - i,
    {
        r.push(cards[i]);
        i += 1;
    }
    proof {
        assert(r@ =~= cards@);
    }
    r
}

impl UserDataState {
    /// Checks the game-state invariants.
    pub fn is_valid(&self) -> (r: bool)
        ensures
            r == valid_state(*self),
    {
        self.current_cards.len() >= 2 && self.dealer_card.len() == 1 && self.num_decks >= 1
            && self.num_sims >= 1 && !hand_has_empty(&self.current_cards) && !hand_has_empty(
            &self.dealer_card,
        ) && self.current_cards.len() <= (u32::MAX - 300) as usize
    }
}

/// The tally of one action's simulation: wins, losses and ties over a
/// trial count.  The win, loss and tie probabilities are the exact
/// fractions `wins/trials`, `losses/trials` and `ties/trials`, and the
/// expected value of a bet `b` is `b * (wins - losses) / trials`.
#[derive(Clone, Copy, Debug, PartialEq, Eq, Structural)]
pub struct ProbabilityValueOutcomes {
    pub wins: u32,
    pub losses: u32,
    pub ties: u32,
    pub trials: u32,
}

impl ProbabilityValueOutcomes {
    /// Every trial is classified exactly once, so the three tallies
    /// sum to the trial count — the probabilities sum to one exactly.
    pub open spec fn complete(&self) -> bool {
        self.wins + self.losses + self.ties == self.trials && self.trials >= 1
    }

    /// The neutral default: a 50/50 chance to win or lose (one win and
    /// one loss over two trials) and an expected value of zero.
    pub open spec fn neutral() -> ProbabilityValueOutcomes {
        ProbabilityValueOutcomes { wins: 1u32, losses: 1u32, ties: 0u32, trials: 2u32 }
    }

    /// Initialises to the neutral 50/50 default.
    pub fn new() -> (r: ProbabilityValueOutcomes)
        ensures
            r == ProbabilityValueOutcomes::neutral(),
            r.complete(),
    {
        ProbabilityValueOutcomes { wins: 1, losses: 1, ties: 0, trials: 2 }
    }
}

/// The report handed back to the caller: one tally per candidate
/// action.  Split slots stay at their neutral default when the hand
/// cannot be split.
#[derive(Clone, Copy, Debug, PartialEq, Eq, Structural)]
pub struct ActionOutcomes {
    pub hit_once: ProbabilityValueOutcomes,
    pub hit_twice: ProbabilityValueOutcomes,
    pub hit_thrice: ProbabilityValueOutcomes,
    pub stand: ProbabilityValueOutcomes,
    pub split_hit_once: ProbabilityValueOutcomes,
    pub split_hit_twice: ProbabilityValueOutcomes,
    pub split_hit_thrice: ProbabilityValueOutcomes,
}

impl ActionOutcomes {
    /// Every slot holds the neutral default.
    pub open spec fn is_neutral(&self) -> bool {
        self.hit_once == ProbabilityValueOutcomes::neutral() && self.hit_twice
            == ProbabilityValueOutcomes::neutral() && self.hit_thrice
            == ProbabilityValueOutcomes::neutral() && self.stand
            == ProbabilityValueOutcomes::neutral() && self.split_hit_once
            == ProbabilityValueOutcomes::neutral() && self.split_hit_twice
            == ProbabilityValueOutcomes::neutral() && self.split_hit_thrice
            == ProbabilityValueOutcomes::neutral()
    }

    /// A report with every slot at the neutral default.
    pub fn new() -> (r: ActionOutcomes)
        ensures
            r.is_neutral(),
    {
        ActionOutcomes {
            hit_once: ProbabilityValueOutcomes::new(),
            hit_twice: ProbabilityValueOutcomes::new(),
            hit_thrice: ProbabilityValueOutcomes::new(),
            stand: ProbabilityValueOutcomes::new(),
            split_hit_once: ProbabilityValueOutcomes::new(),
            split_hit_twice: ProbabilityValueOutcomes::new(),
            split_hit_thrice: ProbabilityValueOutcomes::new(),
        }
    }

    /// Resets every slot to the neutral default, keeping the object.
    pub fn clear(&mut self)
        ensures
            final(self).is_neutral(),
    {
        self.hit_once = ProbabilityValueOutcomes::new();
        self.hit_twice = ProbabilityValueOutcomes::new();
        self.hit_thrice = ProbabilityValueOutcomes::new();
        self.stand = ProbabilityValueOutcomes::new();
        self.split_hit_once = ProbabilityValueOutcomes::new();
        self.split_hit_twice = ProbabilityValueOutcomes::new();
        self.split_hit_thrice = ProbabilityValueOutcomes::new();
    }

    /// Runs `num_sims` independent trials of one action: clone the deck
    /// template (all decks minus the known cards), play the action, run
    /// the dealer's policy, classify, and tally.  Every trial ends in
    /// exactly one of the three tallies.
    pub fn generate_outcomes(
        &self,
        data: &UserDataState,
        action: &BlackJackAction,
    ) -> (r: ProbabilityValueOutcomes)
        requires
            *action matches BlackJackAction::SPLIT(_) ==> data.current_cards@.len() >= 2,
            !has_empty(data.dealer_card@),
            data.current_cards@.len() + 300 <= u32::MAX,
            data.dealer_card@.len() + 9 <= u32::MAX,
        ensures
            r.trials == data.num_sims,
            r.wins + r.losses + r.ties == r.trials,
            data.num_sims >= 1 ==> r.complete(),
            (*action == BlackJackAction::STAND && is_best_total(data.current_cards@, 21))
                ==> r.losses == 0,
    {
        let mut wins: u32 = 0;
        let mut losses: u32 = 0;
        let mut ties: u32 = 0;

        let mut deck = Deck::new(&data.num_decks);
        let n_player = data.current_cards.len();
        let mut i: usize = 0;
        while i < n_player
            invariant
                deck.wf(),
                n_player == data.current_cards@.len(),
            decreases n_player - i,
        {
            deck.remove_card_from_deck(&data.current_cards[i]);
            i += 1;
        }
        let n_dealer = data.dealer_card.len();
        let mut j: usize = 0;
        while j < n_dealer
            invariant
                deck.wf(),
                n_dealer == data.dealer_card@.len(),
            decreases n_dealer - j,
        {
            deck.remove_card_from_deck(&data.dealer_card[j]);
            j += 1;
        }

        let mut t: u32 = 0;
        while t < data.num_sims
            invariant
                deck.wf(),
                *action matches BlackJackAction::SPLIT(_) ==> data.current_cards@.len() >= 2,
                !has_empty(data.dealer_card@),
                data.current_cards@.len() + 300 <= u32::MAX,
                data.dealer_card@.len() + 9 <= u32::MAX,
                t <= data.num_sims,
                wins as int + losses as int + ties as int == t as int,
                (*action == BlackJackAction::STAND && is_best_total(data.current_cards@, 21))
                    ==> losses == 0,
            decreases data.num_sims - t,
        {
            let mut current_deck = deck.duplicate();

            let mut player_cards = clone_cards(&data.current_cards);
            handle_player_action(&mut player_cards, action, &mut current_deck);

            let mut dealer_cards = clone_cards(&data.dealer_card);
            handle_dealer_action(&mut dealer_cards, &mut current_deck);

            let outcome = evaluate_hands(&player_cards, &dealer_cards);
            proof {
                if *action == BlackJackAction::STAND && is_best_total(data.current_cards@, 21) {
                    lemma_twenty_one_never_loses(player_cards@, dealer_cards@);
                }
            }

            match outcome {
                GameOutcome::WIN => {
                    wins += 1;
                },
                GameOutcome::LOSS => {
                    losses += 1;
                },
                GameOutcome::TIE => {
                    ties += 1;
                },
            }
            t += 1;
        }

        ProbabilityValueOutcomes { wins, losses, ties, trials: data.num_sims }
    }

    /// Computes the tallies of every candidate action for a game
    /// state: stand and one to three hits always, the three split
    /// variants only when the hand can be split.  On an invalid state
    /// nothing is computed.  On success the populated report is handed
    /// back and the object itself is reset to its neutral defaults.
    pub fn generate_all_action_outcomes(&mut self, data: &UserDataState) -> (r: Result<
        ActionOutcomes,
        GameError,
    >)
        ensures
            r is Err <==> !valid_state(*data),
            r is Err ==> r == Result::<ActionOutcomes, GameError>::Err(GameError::InvalidGameState)
                && *final(self) == *old(self),
            r is Ok ==> final(self).is_neutral(),
            r is Ok ==> ({
                let rep = r->Ok_0;
                &&& rep.stand.complete() && rep.stand.trials == data.num_sims
                &&& rep.hit_once.complete() && rep.hit_once.trials == data.num_sims
                &&& rep.hit_twice.complete() && rep.hit_twice.trials == data.num_sims
                &&& rep.hit_thrice.complete() && rep.hit_thrice.trials == data.num_sims
                &&& (data.current_cards@.len() == 2 && data.current_cards@[0]
                    == data.current_cards@[1]) ==> rep.split_hit_once.complete()
                    && rep.split_hit_once.trials == data.num_sims && rep.split_hit_twice.complete()
                    && rep.split_hit_twice.trials == data.num_sims
                    && rep.split_hit_thrice.complete() && rep.split_hit_thrice.trials
                    == data.num_sims
                &&& !(data.current_cards@.len() == 2 && data.current_cards@[0]
                    == data.current_cards@[1]) ==> rep.split_hit_once
                    == ProbabilityValueOutcomes::neutral() && rep.split_hit_twice
                    == ProbabilityValueOutcomes::neutral() && rep.split_hit_thrice
                    == ProbabilityValueOutcomes::neutral()
            }),
    {
        if !data.is_valid() {
            return Err(GameError::InvalidGameState);
        }

        self.hit_once = self.generate_outcomes(data, &BlackJackAction::HIT(1));
        self.hit_twice = self.generate_outcomes(data, &BlackJackAction::HIT(2));
        self.hit_thrice = self.generate_outcomes(data, &BlackJackAction::HIT(3));

        self.stand = self.generate_outcomes(data, &BlackJackAction::STAND);

        if can_split_hand(&data.current_cards) {
            self.split_hit_once = self.generate_outcomes(data, &BlackJackAction::SPLIT(1));
            self.split_hit_twice = self.generate_outcomes(data, &BlackJackAction::SPLIT(2));
            self.split_hit_thrice = self.generate_outcomes(data, &BlackJackAction::SPLIT(3));
        } else {
            self.split_hit_once = ProbabilityValueOutcomes::new();
            self.split_hit_twice = ProbabilityValueOutcomes::new();
            self.split_hit_thrice = ProbabilityValueOutcomes::new();
        }

        let response = *self;
        self.clear();
        Ok(response)
    }
}

} // verus!
