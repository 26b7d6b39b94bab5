//! The thirteen playable card ranks and their admissible point values.
//!
//! An ace is dual-valued (1 or 11); every other rank has a single value.
//! `Empty` is a placeholder for "no card selected" slots handed in by a
//! user interface; it carries no value at all.

use vstd::prelude::*;

verus! {

/// A blackjack card rank, plus the `Empty` placeholder used by callers
/// for "no card selected" input slots.
#[derive(Clone, Copy, Debug, PartialEq, Eq, Structural)]
pub enum Card {
    Empty,
    Ace,
    Two,
    Three,
    Four,
    Five,
    Six,
    Seven,
    Eight,
    Nine,
    Ten,
    Jack,
    Queen,
    King,
}

/// The admissible point values of a card: an ace is 1 or 11, court cards
/// are 10, `Empty` has no value at all.
pub open spec fn card_values(c: Card) -> Seq<int> {
    match c {
        Card::Empty => seq![],
        Card::Ace => seq![1int, 11int],
        Card::Two => seq![2int],
        Card::Three => seq![3int],
        Card::Four => seq![4int],
        Card::Five => seq![5int],
        Card::Six => seq![6int],
        Card::Seven => seq![7int],
        Card::Eight => seq![8int],
        Card::Nine => seq![9int],
        Card::Ten => seq![10int],
        Card::Jack => seq![10int],
        Card::Queen => seq![10int],
        Card::King => seq![10int],
    }
}

/// The smallest admissible value of a card (an ace counted as 1).
pub open spec fn card_min(c: Card) -> int {
    match c {
        Card::Empty => 0,
        Card::Ace => 1,
        Card::Two => 2,
        Card::Three => 3,
        Card::Four => 4,
        Card::Five => 5,
        Card::Six => 6,
        Card::Seven => 7,
        Card::Eight => 8,
        Card::Nine => 9,
        Card::Ten => 10,
        Card::Jack => 10,
        Card::Queen => 10,
        Card::King => 10,
    }
}

/// The largest admissible value of a card (an ace counted as 11).
pub open spec fn card_max(c: Card) -> int {
    match c {
        Card::Empty => 0,
        Card::Ace => 11,
        _ => card_min(c),
    }
}

impl Card {
    /// The list of point values this card can count as.
    pub fn get_card_values(&self) -> (r: Vec<u64>)
        ensures
            r@.map_values(|x: u64| x as int) == card_values(*self),
    {
        let r: Vec<u64> = match self {
            Card::Empty => vec![],
            Card::Ace => vec![1, 11],
            Card::Two => vec![2],
            Card::Three => vec![3],
            Card::Four => vec![4],
            Card::Five => vec![5],
            Card::Six => vec![6],
            Card::Seven => vec![7],
            Card::Eight => vec![8],
            Card::Nine => vec![9],
            Card::Ten => vec![10],
            Card::Jack => vec![10],
            Card::Queen => vec![10],
            Card::King => vec![10],
        };
        proof {
            assert(r@.map_values(|x: u64| x as int) =~= card_values(*self));
        }
        r
    }
}

} // verus!
