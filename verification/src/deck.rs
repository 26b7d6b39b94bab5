//! The deck: how many cards of each of the thirteen ranks remain.
//!
//! A deck is a multiset over the ranks, kept as one count per rank, so
//! removing a known card and drawing a random one are constant-time.
//! Drawing is weighted by the remaining counts; an exhausted deck falls
//! back to a deterministic pick (the first rank) instead of failing —
//! a defensive path that validated inputs never reach.

use vstd::prelude::*;
use crate::card::Card;

verus! {

/// The slot of each rank in a deck's count vector, `Ace` first; the
/// `Empty` placeholder is no rank and gets the out-of-range slot 13.
pub open spec fn rank_index(c: Card) -> int {
    match c {
        Card::Empty => 13,
        Card::Ace => 0,
        Card::Two => 1,
        Card::Three => 2,
        Card::Four => 3,
        Card::Five => 4,
        Card::Six => 5,
        Card::Seven => 6,
        Card::Eight => 7,
        Card::Nine => 8,
        Card::Ten => 9,
        Card::Jack => 10,
        Card::Queen => 11,
        Card::King => 12,
    }
}

/// The number of cards in slots `k` and beyond.
pub open spec fn total_from(s: Seq<u32>, k: int) -> int
    decreases s.len() - k,
    when k <= s.len()
{
    if k < 0 || k >= s.len() {
        0
    } else {
        s[k] + total_from(s, k + 1)
    }
}

/// The number of cards remaining in the whole deck.
pub open spec fn deck_total(s: Seq<u32>) -> int {
    total_from(s, 0)
}

/// Suffix totals are sums of non-negative counts.
proof fn lemma_total_from_nonneg(s: Seq<u32>, k: int)
    requires
        k <= s.len(),
    ensures
        0 <= total_from(s, k),
    decreases s.len() - k,
{
    if 0 <= k < s.len() {
        lemma_total_from_nonneg(s, k + 1);
    }
}

/// A deck never holds a negative number of cards.
pub proof fn lemma_deck_total_nonneg(s: Seq<u32>)
    ensures
        0 <= deck_total(s),
{
    if s.len() == 0 {
    } else {
        lemma_total_from_nonneg(s, 0);
    }
}

/// Changing one count changes every suffix total that covers it by the
/// same difference.
proof fn lemma_total_from_update(s: Seq<u32>, k: int, i: int, v: u32)
    requires
        0 <= i < s.len(),
        0 <= k <= s.len(),
    ensures
        total_from(s.update(i, v), k) == total_from(s, k) + if k <= i {
            v - s[i]
        } else {
            0int
        },
    decreases s.len() - k,
{
    if k < s.len() {
        lemma_total_from_update(s, k + 1, i, v);
    }
}

/// Relies on getrandom::u64: one machine word from the operating
/// system's preferred random source; `None` when that source reports a
/// failure.  Nothing is promised of the value — it is random.
#[verifier::external_body]
fn random_u64() -> (r: Option<u64>)
{
    match getrandom::u64() {
        Ok(v) => Some(v),
        Err(_) => None,
    }
}

/// A deck of remaining cards: one count per rank.
pub struct Deck {
    counts: Vec<u32>,
}

impl View for Deck {
    type V = Seq<u32>;

    closed spec fn view(&self) -> Seq<u32> {
        self.counts@
    }
}

impl Deck {
    /// A deck always holds exactly one count per rank.
    pub open spec fn wf(&self) -> bool {
        self@.len() == 13
    }

    /// Initialises the deck to `num_decks` copies of a standard 52-card
    /// deck: four of each rank per copy.
    pub fn new(num_decks: &u8) -> (d: Deck)
        ensures
            d.wf(),
            forall|j: int| 0 <= j < 13 ==> d@[j] == 4 * (*num_decks as int),
    {
        let per_rank: u32 = 4 * (*num_decks as u32);
        let mut counts: Vec<u32> = Vec::new();
        let mut j: usize = 0;
        while j < 13
            invariant
                0 <= j <= 13,
                counts@.len() == j,
                forall|k: int| 0 <= k < j ==> counts@[k] == per_rank,
                per_rank == 4 * (*num_decks as int),
            decreases 13 - j,
        {
            counts.push(per_rank);
            j += 1;
        }
        Deck { counts }
    }

    /// An exact copy of the deck, for per-trial use.
    pub fn duplicate(&self) -> (d: Deck)
        ensures
            d@ == self@,
    {
        let mut counts: Vec<u32> = Vec::new();
        let n = self.counts.len();
        let mut j: usize = 0;
        while j < n
            invariant
                0 <= j <= n,
                n == self.counts@.len(),
                counts@.len() == j,
                forall|k: int| 0 <= k < j ==> counts@[k] == self.counts@[k],
            decreases n - j,
        {
            counts.push(self.counts[j]);
            j += 1;
        }
        proof {
            assert(counts@ =~= self.counts@);
        }
        Deck { counts }
    }

    /// How many cards remain in the deck.
    pub fn size(&self) -> (n: u64)
        requires
            self.wf(),
        ensures
            n as int == deck_total(self@),
    {
        let mut sum: u64 = 0;
        let mut j: usize = 0;
        while j < 13
            invariant
                0 <= j <= 13,
                self.wf(),
                sum as int + total_from(self@, j as int) == deck_total(self@),
                sum <= j * 0xFFFF_FFFFu64,
            decreases 13 - j,
        {
            proof {
                assert(total_from(self@, j as int) == self@[j as int] + total_from(
                    self@,
                    j as int + 1,
                ));
            }
            sum = sum + self.counts[j] as u64;
            j += 1;
        }
        sum
    }

    /// Removes one card of the given rank, if any is left; removing an
    /// absent card (or the `Empty` placeholder) is deliberately a no-op.
    pub fn remove_card_from_deck(&mut self, card: &Card)
        requires
            old(self).wf(),
        ensures
            final(self).wf(),
            *card == Card::Empty ==> final(self)@ == old(self)@,
            *card != Card::Empty && old(self)@[rank_index(*card)] == 0 ==> final(self)@ == old(
                self,
            )@,
            *card != Card::Empty && old(self)@[rank_index(*card)] > 0 ==> final(self)@ == old(
                self,
            )@.update(rank_index(*card), (old(self)@[rank_index(*card)] - 1) as u32),
    {
        let j = match card {
            Card::Empty => {
                return ;
            },
            Card::Ace => 0usize,
            Card::Two => 1,
            Card::Three => 2,
            Card::Four => 3,
            Card::Five => 4,
            Card::Six => 5,
            Card::Seven => 6,
            Card::Eight => 7,
            Card::Nine => 8,
            Card::Ten => 9,
            Card::Jack => 10,
            Card::Queen => 11,
            Card::King => 12,
        };
        let c = self.counts[j];
        if c > 0 {
            self.counts.set(j, c - 1);
        }
    }

    /// Draws one card, weighted by the remaining counts, and removes it.
    /// Two defensive paths, neither reached from validated inputs: if
    /// the random source fails, the first remaining rank is removed
    /// deterministically; on an exhausted deck the deck is unchanged
    /// and the first rank is returned.
    pub fn take_random_card_from_deck(&mut self) -> (c: Card)
        requires
            old(self).wf(),
        ensures
            final(self).wf(),
            c != Card::Empty,
            deck_total(old(self)@) == 0 ==> c == Card::Ace && final(self)@ == old(self)@,
            deck_total(old(self)@) > 0 ==> old(self)@[rank_index(c)] > 0 && final(self)@ == old(
                self,
            )@.update(rank_index(c), (old(self)@[rank_index(c)] - 1) as u32) && deck_total(
                final(self)@,
            ) == deck_total(old(self)@) - 1,
    {
        let total = self.size();
        if total == 0 {
            return Card::Ace;
        }
        let target: u64 = match random_u64() {
            Some(v) => v % total,
            None => 0,
        };
        let mut rem: u64 = target;
        let mut j: usize = 0;
        while j < 12 && rem >= self.counts[j] as u64
            invariant
                0 <= j <= 12,
                self.wf(),
                (rem as int) < total_from(self@, j as int),
            decreases 12 - j,
        {
            proof {
                assert(total_from(self@, j as int) == self@[j as int] + total_from(
                    self@,
                    j as int + 1,
                ));
            }
            rem = rem - self.counts[j] as u64;
            j += 1;
        }
        proof {
            assert(total_from(self@, j as int) == self@[j as int] + total_from(
                self@,
                j as int + 1,
            ));
            if j == 12 {
                assert(total_from(self@, 13) == 0);
            }
            assert((rem as int) < self@[j as int]);
        }
        let c = self.counts[j];
        self.counts.set(j, c - 1);
        let picked = match j {
            0 => Card::Ace,
            1 => Card::Two,
            2 => Card::Three,
            3 => Card::Four,
            4 => Card::Five,
            5 => Card::Six,
            6 => Card::Seven,
            7 => Card::Eight,
            8 => Card::Nine,
            9 => Card::Ten,
            10 => Card::Jack,
            11 => Card::Queen,
            _ => Card::King,
        };
        proof {
            assert(rank_index(picked) == j as int);
            lemma_total_from_update(old(self)@, 0, j as int, (old(self)@[j as int] - 1) as u32);
        }
        picked
    }
}

} // verus!
