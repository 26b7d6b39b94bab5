//! One round of play: the player's action, the dealer's drawing policy,
//! and the outcome classifier.

use vstd::prelude::*;
use crate::card::{Card, card_max};
use crate::deck::{Deck, deck_total, lemma_deck_total_nonneg, rank_index};
use crate::hand::{
    combo_sums, count_in, evaluate_hand, hand_totals, hand_value_lists, has_empty, lemma_min_max,
    lemma_min_total_at_least_len, lemma_push_facts, lemma_totals_closed_form, lemma_totals_range,
    max_total, min_total, num_aces, ace_choice_total,
};

verus! {

/// The result of one finished round, from the player's standpoint.
#[derive(Clone, Copy, Debug, PartialEq, Eq, Structural)]
pub enum GameOutcome {
    WIN,
    LOSS,
    TIE,
}

/// A candidate player action; the payload of `HIT` and `SPLIT` is how
/// many cards the player then draws.
#[derive(Clone, Copy, Debug, PartialEq, Eq, Structural)]
pub enum BlackJackAction {
    HIT(u8),
    STAND,
    SPLIT(u8),
}

/// The hand busts: every total it can count as exceeds 21.  (A hand
/// holding an `Empty` placeholder reaches no total and counts as
/// busted.)
pub open spec fn busts(hand: Seq<Card>) -> bool {
    forall|t: int| #[trigger] hand_totals(hand).contains(t) ==> t > 21
}

/// `b` is the hand's best total: achievable, at most 21, and maximal
/// among the achievable totals that are at most 21.
pub open spec fn is_best_total(hand: Seq<Card>, b: int) -> bool {
    hand_totals(hand).contains(b) && b <= 21 && forall|t: int|
        #[trigger] hand_totals(hand).contains(t) && t <= 21 ==> t <= b
}

/// The best non-bust total of a hand (meaningful when the hand does not
/// bust).
pub open spec fn best_total(hand: Seq<Card>) -> int {
    choose|b: int| is_best_total(hand, b)
}

/// The outcome of comparing the player's and the dealer's final hands:
/// a busted player loses outright, a standing player beats a busted
/// dealer, and otherwise the higher best total wins.
pub open spec fn classify(player: Seq<Card>, dealer: Seq<Card>) -> GameOutcome {
    if busts(player) {
        GameOutcome::LOSS
    } else if busts(dealer) {
        GameOutcome::WIN
    } else if best_total(player) == best_total(dealer) {
        GameOutcome::TIE
    } else if best_total(player) > best_total(dealer) {
        GameOutcome::WIN
    } else {
        GameOutcome::LOSS
    }
}

/// The bust rules of the classifier: a busted player loses — also when
/// the dealer busts too — and a player who stands beats a busted
/// dealer.
pub proof fn lemma_classifier_bust_rules(player: Seq<Card>, dealer: Seq<Card>)
    ensures
        busts(player) ==> classify(player, dealer) == GameOutcome::LOSS,
        busts(player) && busts(dealer) ==> classify(player, dealer) == GameOutcome::LOSS,
        !busts(player) && busts(dealer) ==> classify(player, dealer) == GameOutcome::WIN,
{
}

/// A best total is unique: two maxima of the same set coincide.
proof fn lemma_best_total_unique(hand: Seq<Card>, b1: int, b2: int)
    requires
        is_best_total(hand, b1),
        is_best_total(hand, b2),
    ensures
        b1 == b2,
{
}

/// A hand that does not bust has a best total, and `best_total`
/// denotes it: the largest achievable total that is at most 21.
pub proof fn lemma_best_total_exists(hand: Seq<Card>)
    requires
        !busts(hand),
    ensures
        is_best_total(hand, best_total(hand)),
{
    lemma_totals_closed_form(hand);
    lemma_min_max(hand);
    assert(exists|t: int| #[trigger] hand_totals(hand).contains(t) && t <= 21);
    let t0 = choose|t: int| #[trigger] hand_totals(hand).contains(t) && t <= 21;
    assert(!has_empty(hand));
    let a = num_aces(hand);
    let m = min_total(hand);
    let j0 = choose|j: int| #[trigger] ace_choice_total(hand, j, t0);
    assert(m <= t0);
    let q = (21 - m) / 10;
    let r = (21 - m) % 10;
    assert(10 * q + r == 21 - m && 0 <= r < 10);
    let jstar: int = if a <= q {
        a
    } else {
        q
    };
    assert(0 <= jstar <= a);
    let b = m + 10 * jstar;
    assert(b <= 21);
    assert(ace_choice_total(hand, jstar, b));
    assert(hand_totals(hand).contains(b));
    assert forall|t: int| #[trigger] hand_totals(hand).contains(t) && t <= 21 implies t <= b by {
        let j = choose|j: int| #[trigger] ace_choice_total(hand, j, t);
        assert(10 * j <= 10 * q + r);
        assert(j <= q);
    }
    assert(is_best_total(hand, b));
    let bb = best_total(hand);
    assert(is_best_total(hand, bb));
    lemma_best_total_unique(hand, b, bb);
}

/// A player standing on a best total of 21 cannot lose: the dealer
/// either busts, or reaches a best total of at most 21 and so at most
/// ties.
pub proof fn lemma_twenty_one_never_loses(player: Seq<Card>, dealer: Seq<Card>)
    requires
        is_best_total(player, 21),
    ensures
        classify(player, dealer) != GameOutcome::LOSS,
{
    assert(!busts(player));
    let bp = best_total(player);
    assert(is_best_total(player, bp));
    lemma_best_total_unique(player, 21, bp);
    if !busts(dealer) {
        lemma_best_total_exists(dealer);
    }
}

/// The evaluated total list of a hand holds exactly the hand's
/// achievable totals.
proof fn lemma_totals_vec_bridge(hand: Seq<Card>, tv: Seq<u64>)
    requires
        tv.map_values(|x: u64| x as int) == combo_sums(hand_value_lists(hand)),
    ensures
        forall|t: int| #[trigger] hand_totals(hand).contains(t) ==> exists|i: int|
            0 <= i < tv.len() && tv[i] as int == t,
        forall|i: int| 0 <= i < tv.len() ==> #[trigger] hand_totals(hand).contains(tv[i] as int),
{
    let combo = combo_sums(hand_value_lists(hand));
    assert forall|t: int| #[trigger] hand_totals(hand).contains(t) implies exists|i: int|
        0 <= i < tv.len() && tv[i] as int == t by {
        let k = choose|k: int| 0 <= k < combo.len() && combo[k] == t;
        assert(tv.map_values(|x: u64| x as int)[k] == tv[k] as int);
        assert(0 <= k < tv.len() && tv[k] as int == t);
    }
    assert forall|i: int| 0 <= i < tv.len() implies #[trigger] hand_totals(hand).contains(
        tv[i] as int,
    ) by {
        assert(tv.map_values(|x: u64| x as int)[i] == tv[i] as int);
        assert(combo[i] == tv[i] as int);
        assert(combo.contains(tv[i] as int));
    }
}

/// Whether every entry of the list is at most `cap`.
fn all_at_most(totals: &Vec<u64>, cap: u64) -> (r: bool)
    ensures
        r <==> forall|i: int| 0 <= i < totals@.len() ==> totals@[i] <= cap,
{
    let n = totals.len();
    let mut i: usize = 0;
    while i < n
        invariant
            0 <= i <= n,
            n == totals@.len(),
            forall|k: int| 0 <= k < i ==> totals@[k] <= cap,
        decreases n - i,
    {
        if totals[i] > cap {
            return false;
        }
        i += 1;
    }
    true
}

/// The largest entry of the list that is at most 21, if any.
fn best_at_most_21(totals: &Vec<u64>) -> (r: Option<u64>)
    ensures
        r is Some ==> (exists|i: int|
            0 <= i < totals@.len() && totals@[i] == r.unwrap()) && r.unwrap() <= 21 && forall|
            i: int,
        |
            0 <= i < totals@.len() && totals@[i] <= 21 ==> totals@[i] <= r.unwrap(),
        r is None ==> forall|i: int| 0 <= i < totals@.len() ==> totals@[i] > 21,
{
    let n = totals.len();
    let mut best: Option<u64> = None;
    let mut i: usize = 0;
    while i < n
        invariant
            0 <= i <= n,
            n == totals@.len(),
            best is Some ==> (exists|k: int|
                0 <= k < i && totals@[k] == best.unwrap()) && best.unwrap() <= 21 && forall|k: int|
                0 <= k < i && totals@[k] <= 21 ==> totals@[k] <= best.unwrap(),
            best is None ==> forall|k: int| 0 <= k < i ==> totals@[k] > 21,
        decreases n - i,
    {
        let t = totals[i];
        if t <= 21 {
            match best {
                Some(b) => {
                    if t > b {
                        best = Some(t);
                    }
                },
                None => {
                    best = Some(t);
                },
            }
        }
        i += 1;
    }
    best
}

/// Evaluates both final hands and classifies the round from the
/// player's standpoint.
pub fn evaluate_hands(players_cards: &Vec<Card>, dealers_cards: &Vec<Card>) -> (r: GameOutcome)
    requires
        players_cards@.len() <= u32::MAX,
        dealers_cards@.len() <= u32::MAX,
    ensures
        r == classify(players_cards@, dealers_cards@),
{
    let player_evaluations = evaluate_hand(players_cards);
    let dealer_evaluations = evaluate_hand(dealers_cards);
    let player_best_option = best_at_most_21(&player_evaluations);
    let dealer_best_option = best_at_most_21(&dealer_evaluations);
    proof {
        lemma_totals_vec_bridge(players_cards@, player_evaluations@);
        lemma_totals_vec_bridge(dealers_cards@, dealer_evaluations@);
        lemma_option_is_best(players_cards@, player_evaluations@, player_best_option);
        lemma_option_is_best(dealers_cards@, dealer_evaluations@, dealer_best_option);
    }
    match (player_best_option, dealer_best_option) {
        (None, _) => GameOutcome::LOSS,
        (Some(_), None) => GameOutcome::WIN,
        (Some(player_best_value), Some(dealer_best_value)) => {
            if player_best_value == dealer_best_value {
                GameOutcome::TIE
            } else if player_best_value > dealer_best_value {
                GameOutcome::WIN
            } else {
                GameOutcome::LOSS
            }
        },
    }
}

/// Ties the scanned best entry of a hand's total list to the spec-level
/// best total (or, when there is none, to a bust).
proof fn lemma_option_is_best(hand: Seq<Card>, tv: Seq<u64>, r: Option<u64>)
    requires
        forall|t: int| #[trigger] hand_totals(hand).contains(t) ==> exists|i: int|
            0 <= i < tv.len() && tv[i] as int == t,
        forall|i: int| 0 <= i < tv.len() ==> #[trigger] hand_totals(hand).contains(tv[i] as int),
        r is Some ==> (exists|i: int| 0 <= i < tv.len() && tv[i] == r.unwrap()) && r.unwrap() <= 21
            && forall|i: int| 0 <= i < tv.len() && tv[i] <= 21 ==> tv[i] <= r.unwrap(),
        r is None ==> forall|i: int| 0 <= i < tv.len() ==> tv[i] > 21,
    ensures
        r is None ==> busts(hand),
        r is Some ==> !busts(hand) && best_total(hand) == r.unwrap() as int,
{
    if r is None {
        assert forall|t: int| #[trigger] hand_totals(hand).contains(t) implies t > 21 by {
            let i = choose|i: int| 0 <= i < tv.len() && tv[i] as int == t;
            assert(tv[i] > 21);
        }
    } else {
        let b = r.unwrap() as int;
        let iw = choose|i: int| 0 <= i < tv.len() && tv[i] == r.unwrap();
        assert(hand_totals(hand).contains(tv[iw] as int));
        assert(hand_totals(hand).contains(b));
        assert forall|t: int| #[trigger] hand_totals(hand).contains(t) && t <= 21 implies t
            <= b by {
            let i = choose|i: int| 0 <= i < tv.len() && tv[i] as int == t;
            assert(tv[i] <= 21);
            assert(tv[i] <= r.unwrap());
        }
        assert(is_best_total(hand, b));
        assert(!busts(hand));
        let bb = best_total(hand);
        assert(is_best_total(hand, bb));
        lemma_best_total_unique(hand, b, bb);
    }
}

/// Draws `n` cards from the deck and appends them to the hand, one at
/// a time.  While the deck holds enough cards, the deck loses exactly
/// the appended cards, rank by rank.
fn draw_cards(player_cards: &mut Vec<Card>, n: u8, deck: &mut Deck)
    requires
        old(deck).wf(),
        old(player_cards)@.len() + 255 <= usize::MAX,
    ensures
        final(deck).wf(),
        final(player_cards)@.len() == old(player_cards)@.len() + n,
        final(player_cards)@.subrange(0, old(player_cards)@.len() as int) == old(player_cards)@,
        forall|i: int|
            old(player_cards)@.len() <= i < final(player_cards)@.len() ==> final(player_cards)@[i]
                != Card::Empty,
        forall|j: int| 0 <= j < 13 ==> final(deck)@[j] <= old(deck)@[j],
        deck_total(old(deck)@) >= n ==> deck_total(final(deck)@) == deck_total(old(deck)@) - n
            && (forall|c: Card|
            c != Card::Empty ==> old(deck)@[rank_index(c)] == final(deck)@[rank_index(c)]
                + count_in(
                final(player_cards)@.subrange(
                    old(player_cards)@.len() as int,
                    final(player_cards)@.len() as int,
                ),
                c,
            )),
{
    let ghost base = player_cards@;
    let ghost deck0 = deck@;
    proof {
        assert(player_cards@.subrange(base.len() as int, player_cards@.len() as int)
            =~= Seq::<Card>::empty());
    }
    let mut k: u8 = 0;
    while k < n
        invariant
            0 <= k <= n,
            deck.wf(),
            deck0.len() == 13,
            base.len() + 255 <= usize::MAX,
            player_cards@.len() == base.len() + k,
            player_cards@.subrange(0, base.len() as int) == base,
            forall|i: int|
                base.len() <= i < player_cards@.len() ==> player_cards@[i] != Card::Empty,
            forall|j: int| 0 <= j < 13 ==> deck@[j] <= deck0[j],
            deck_total(deck0) >= n ==> deck_total(deck@) == deck_total(deck0) - k && (forall|
                c: Card,
            |
                c != Card::Empty ==> deck0[rank_index(c)] == deck@[rank_index(c)] + count_in(
                    player_cards@.subrange(base.len() as int, player_cards@.len() as int),
                    c,
                )),
        decreases n - k,
    {
        let ghost deck_before = deck@;
        let ghost hand_before = player_cards@;
        let c = deck.take_random_card_from_deck();
        player_cards.push(c);
        proof {
            let suffix_before = hand_before.subrange(
                base.len() as int,
                hand_before.len() as int,
            );
            assert(player_cards@.subrange(0, base.len() as int) =~= base);
            assert(player_cards@.subrange(base.len() as int, player_cards@.len() as int)
                =~= suffix_before.push(c));
            lemma_push_facts(suffix_before, c);
            lemma_deck_total_nonneg(deck_before);
            assert(0 <= rank_index(c) < 13);
            assert forall|j: int| 0 <= j < 13 implies deck@[j] <= deck0[j] by {
                assert(deck@[j] <= deck_before[j]);
                assert(deck_before[j] <= deck0[j]);
            }
            if deck_total(deck0) >= n {
                assert(deck_total(deck_before) > 0);
                assert forall|x: Card| x != Card::Empty implies deck0[rank_index(x)]
                    == deck@[rank_index(x)] + count_in(
                    player_cards@.subrange(base.len() as int, player_cards@.len() as int),
                    x,
                ) by {
                    assert(count_in(suffix_before.push(c), x) == count_in(suffix_before, x)
                        + if x == c {
                        1int
                    } else {
                        0int
                    });
                    if x != c {
                        assert(rank_index(x) != rank_index(c));
                    }
                }
            }
        }
        k += 1;
    }
}

/// Applies one candidate action to the player's hand: stand keeps hand
/// and deck untouched, hit draws the requested number of cards from
/// the per-trial deck, and split discards the second card before
/// drawing — deliberately carrying on a single hand as a statistical
/// stand-in for the two split hands.
pub fn handle_player_action(
    player_cards: &mut Vec<Card>,
    action: &BlackJackAction,
    deck: &mut Deck,
)
    requires
        old(deck).wf(),
        *action matches BlackJackAction::SPLIT(_) ==> old(player_cards)@.len() >= 2,
        old(player_cards)@.len() + 255 <= usize::MAX,
    ensures
        final(deck).wf(),
        forall|j: int| 0 <= j < 13 ==> final(deck)@[j] <= old(deck)@[j],
        *action == BlackJackAction::STAND ==> final(player_cards)@ == old(player_cards)@
            && final(deck)@ == old(deck)@,
        *action matches BlackJackAction::HIT(n) ==> final(player_cards)@.len() == old(player_cards)@.len() + n
            && final(player_cards)@.subrange(0, old(player_cards)@.len() as int) == old(player_cards)@
            && (forall|i: int|
            old(player_cards)@.len() <= i < final(player_cards)@.len() ==> final(player_cards)@[i]
                != Card::Empty) && (deck_total(old(deck)@) >= n ==> deck_total(final(deck)@)
            == deck_total(old(deck)@) - n && (forall|c: Card|
            c != Card::Empty ==> old(deck)@[rank_index(c)] == final(deck)@[rank_index(c)]
                + count_in(
                final(player_cards)@.subrange(
                    old(player_cards)@.len() as int,
                    final(player_cards)@.len() as int,
                ),
                c,
            ))),
        *action matches BlackJackAction::SPLIT(n) ==> final(player_cards)@.len() == old(player_cards)@.len() - 1 + n
            && final(player_cards)@.subrange(0, old(player_cards)@.len() - 1) == old(player_cards)@.remove(1)
            && (forall|i: int|
            old(player_cards)@.len() - 1 <= i < final(player_cards)@.len() ==> final(player_cards)@[i]
                != Card::Empty) && (deck_total(old(deck)@) >= n ==> deck_total(final(deck)@)
            == deck_total(old(deck)@) - n && (forall|c: Card|
            c != Card::Empty ==> old(deck)@[rank_index(c)] == final(deck)@[rank_index(c)]
                + count_in(
                final(player_cards)@.subrange(
                    old(player_cards)@.len() - 1,
                    final(player_cards)@.len() as int,
                ),
                c,
            ))),
{
    match action {
        BlackJackAction::HIT(num_hits) => {
            draw_cards(player_cards, *num_hits, deck);
        },
        BlackJackAction::STAND => {},
        BlackJackAction::SPLIT(num_hits) => {
            player_cards.remove(1);
            draw_cards(player_cards, *num_hits, deck);
        },
    }
}

/// Runs the dealer's fixed policy: while every total the hand can count
/// as is at most 16, draw one more card; once the maximum achievable
/// total reaches 17 — hard or soft — the dealer stands.  The policy
/// always terminates, with a maximum achievable total of at least 17,
/// cards are drawn only while the stop condition has not been reached,
/// and while the deck holds enough cards it loses exactly the drawn
/// cards.
pub fn handle_dealer_action(dealer_cards: &mut Vec<Card>, deck: &mut Deck)
    requires
        old(deck).wf(),
        old(dealer_cards)@.len() + 9 <= u32::MAX,
        forall|i: int| 0 <= i < old(dealer_cards)@.len() ==> old(dealer_cards)@[i] != Card::Empty,
    ensures
        final(deck).wf(),
        max_total(final(dealer_cards)@) >= 17,
        final(dealer_cards)@.len() <= old(dealer_cards)@.len() + 9,
        final(dealer_cards)@.len() > old(dealer_cards)@.len() ==> final(dealer_cards)@.len() <= 17,
        final(dealer_cards)@.subrange(0, old(dealer_cards)@.len() as int) == old(dealer_cards)@,
        forall|i: int|
            0 <= i < final(dealer_cards)@.len() ==> final(dealer_cards)@[i] != Card::Empty,
        forall|m: int|
            old(dealer_cards)@.len() <= m < final(dealer_cards)@.len() ==> max_total(
                #[trigger] final(dealer_cards)@.subrange(0, m),
            ) <= 16,
        forall|j: int| 0 <= j < 13 ==> final(deck)@[j] <= old(deck)@[j],
        deck_total(old(deck)@) >= 9 ==> deck_total(final(deck)@) == deck_total(old(deck)@) - (
        final(dealer_cards)@.len() - old(dealer_cards)@.len()) && (forall|c: Card|
            c != Card::Empty ==> old(deck)@[rank_index(c)] == final(deck)@[rank_index(c)]
                + count_in(
                final(dealer_cards)@.subrange(
                    old(dealer_cards)@.len() as int,
                    final(dealer_cards)@.len() as int,
                ),
                c,
            )),
{
    let ghost base = old(dealer_cards)@;
    let ghost deck0 = old(deck)@;
    let mut drawing = true;
    proof {
        lemma_min_max(dealer_cards@);
        assert(dealer_cards@.subrange(0, base.len() as int) =~= base);
        assert(dealer_cards@.subrange(base.len() as int, dealer_cards@.len() as int)
            =~= Seq::<Card>::empty());
    }
    while drawing
        invariant
            deck.wf(),
            deck0.len() == 13,
            base.len() + 9 <= u32::MAX,
            forall|i: int| 0 <= i < dealer_cards@.len() ==> dealer_cards@[i] != Card::Empty,
            dealer_cards@.subrange(0, base.len() as int) == base,
            dealer_cards@.len() >= base.len(),
            2 * (dealer_cards@.len() - base.len()) <= max_total(dealer_cards@),
            dealer_cards@.len() <= base.len() + 9,
            !drawing ==> max_total(dealer_cards@) >= 17,
            forall|m: int|
                base.len() <= m < dealer_cards@.len() ==> max_total(
                    #[trigger] dealer_cards@.subrange(0, m),
                ) <= 16,
            forall|j: int| 0 <= j < 13 ==> deck@[j] <= deck0[j],
            deck_total(deck0) >= 9 ==> deck_total(deck@) == deck_total(deck0) - (
            dealer_cards@.len() - base.len()) && (forall|c: Card|
                c != Card::Empty ==> deck0[rank_index(c)] == deck@[rank_index(c)] + count_in(
                    dealer_cards@.subrange(base.len() as int, dealer_cards@.len() as int),
                    c,
                )),
        decreases (if max_total(dealer_cards@) <= 16 {
            17 - max_total(dealer_cards@)
        } else {
            0int
        }) + (if drawing {
            1int
        } else {
            0int
        }),
    {
        let totals = evaluate_hand(dealer_cards);
        proof {
            lemma_totals_vec_bridge(dealer_cards@, totals@);
            lemma_totals_range(dealer_cards@);
            lemma_min_max(dealer_cards@);
            assert(!has_empty(dealer_cards@));
        }
        if all_at_most(&totals, 16) {
            proof {
                let iw = choose|i: int|
                    0 <= i < totals@.len() && totals@[i] as int == max_total(dealer_cards@);
                assert(totals@[iw] <= 16);
                assert(max_total(dealer_cards@) <= 16);
            }
            let ghost before = dealer_cards@;
            let ghost deck_before = deck@;
            let c = deck.take_random_card_from_deck();
            dealer_cards.push(c);
            proof {
                lemma_push_facts(before, c);
                assert(card_max(c) >= 2);
                assert(dealer_cards@.subrange(0, base.len() as int) =~= base);
                let suffix_before = before.subrange(base.len() as int, before.len() as int);
                assert(dealer_cards@.subrange(base.len() as int, dealer_cards@.len() as int)
                    =~= suffix_before.push(c));
                lemma_push_facts(suffix_before, c);
                lemma_deck_total_nonneg(deck_before);
                assert(0 <= rank_index(c) < 13);
                assert forall|j: int| 0 <= j < 13 implies deck@[j] <= deck0[j] by {
                    assert(deck@[j] <= deck_before[j]);
                    assert(deck_before[j] <= deck0[j]);
                }
                assert forall|m: int|
                    base.len() <= m < dealer_cards@.len() implies max_total(
                    #[trigger] dealer_cards@.subrange(0, m),
                ) <= 16 by {
                    assert(dealer_cards@.subrange(0, m) =~= before.subrange(0, m));
                    if m == before.len() {
                        assert(before.subrange(0, m) =~= before);
                    }
                }
                if deck_total(deck0) >= 9 {
                    assert(deck_total(deck_before) > 0);
                    assert forall|x: Card| x != Card::Empty implies deck0[rank_index(x)]
                        == deck@[rank_index(x)] + count_in(
                        dealer_cards@.subrange(base.len() as int, dealer_cards@.len() as int),
                        x,
                    ) by {
                        assert(count_in(suffix_before.push(c), x) == count_in(suffix_before, x)
                            + if x == c {
                            1int
                        } else {
                            0int
                        });
                        if x != c {
                            assert(rank_index(x) != rank_index(c));
                        }
                    }
                }
            }
        } else {
            proof {
                let iw = choose|i: int| 0 <= i < totals@.len() && !(totals@[i] <= 16);
                assert(hand_totals(dealer_cards@).contains(totals@[iw] as int));
                assert(max_total(dealer_cards@) >= 17);
            }
            drawing = false;
        }
    }
    proof {
        if dealer_cards@.len() > base.len() {
            let prefix = dealer_cards@.subrange(0, dealer_cards@.len() - 1);
            assert(max_total(prefix) <= 16);
            assert(forall|i: int| 0 <= i < prefix.len() ==> prefix[i] != Card::Empty);
            lemma_min_total_at_least_len(prefix);
            lemma_min_max(prefix);
        }
    }
}

} // verus!
