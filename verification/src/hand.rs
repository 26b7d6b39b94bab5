//! Hand valuation: the totals a hand of cards can count as.
//!
//! A hand's achievable totals arise from choosing one admissible value
//! for each card and summing the choices, so each ace doubles the number
//! of choices.  The spec models this directly (`combo_sums`), and a
//! closed form (`closed_totals`) characterizes the resulting set as "the
//! minimum total plus ten for each ace counted as eleven", which yields
//! order-independence of the totals and tight bounds for the dealer's
//! drawing policy.

use vstd::prelude::*;
use crate::card::{Card, card_values, card_min, card_max};

verus! {

/// The sums `s + v`, for `s` drawn from `sums` and `v` from `vals`,
/// grouped block by block in the order of `vals`.
pub open spec fn add_each(sums: Seq<int>, vals: Seq<int>) -> Seq<int>
    decreases vals.len(),
{
    if vals.len() == 0 {
        Seq::empty()
    } else {
        add_each(sums, vals.drop_last()) + sums.map_values(|s: int| s + vals.last())
    }
}

/// One sum for every way of choosing one entry from each list.
pub open spec fn combo_sums(lists: Seq<Seq<int>>) -> Seq<int>
    decreases lists.len(),
{
    if lists.len() == 0 {
        seq![0int]
    } else {
        add_each(combo_sums(lists.drop_last()), lists.last())
    }
}

/// The admissible value lists of a hand's cards, in hand order.
pub open spec fn hand_value_lists(hand: Seq<Card>) -> Seq<Seq<int>> {
    hand.map_values(|c: Card| card_values(c))
}

/// The set of totals a hand can count as.
pub open spec fn hand_totals(hand: Seq<Card>) -> Set<int> {
    combo_sums(hand_value_lists(hand)).to_set()
}

/// How many cards of rank `c` the hand holds.
pub open spec fn count_in(hand: Seq<Card>, c: Card) -> int
    decreases hand.len(),
{
    if hand.len() == 0 {
        0
    } else {
        count_in(hand.drop_last(), c) + if hand.last() == c {
            1int
        } else {
            0int
        }
    }
}

/// How many aces the hand holds.
pub open spec fn num_aces(hand: Seq<Card>) -> int {
    count_in(hand, Card::Ace)
}

/// Whether some slot of the hand is the `Empty` placeholder.
pub open spec fn has_empty(hand: Seq<Card>) -> bool {
    exists|i: int| 0 <= i < hand.len() && hand[i] == Card::Empty
}

/// The smallest achievable total: every card at its smallest value.
pub open spec fn min_total(hand: Seq<Card>) -> int
    decreases hand.len(),
{
    if hand.len() == 0 {
        0
    } else {
        min_total(hand.drop_last()) + card_min(hand.last())
    }
}

/// The largest achievable total: every card at its largest value.
pub open spec fn max_total(hand: Seq<Card>) -> int
    decreases hand.len(),
{
    if hand.len() == 0 {
        0
    } else {
        max_total(hand.drop_last()) + card_max(hand.last())
    }
}

/// `t` is the total of the hand with exactly `j` of its aces counted as
/// eleven instead of one.
pub open spec fn ace_choice_total(hand: Seq<Card>, j: int, t: int) -> bool {
    0 <= j <= num_aces(hand) && t == min_total(hand) + 10 * j
}

/// The achievable totals of a hand, in closed form: pick how many aces
/// count as eleven.  A hand holding an `Empty` placeholder has no value
/// choice for that slot, hence no total at all.
pub open spec fn closed_totals(hand: Seq<Card>) -> Set<int> {
    if has_empty(hand) {
        Set::empty()
    } else {
        Set::new(|t: int| exists|j: int| #[trigger] ace_choice_total(hand, j, t))
    }
}

/// The sums `s + v` with `s` in `ts` and `v` in `vals`, as a set.
pub open spec fn sum_set(ts: Set<int>, vals: Seq<int>) -> Set<int> {
    Set::new(|t: int| exists|j: int| 0 <= j < vals.len() && ts.contains(t - #[trigger] vals[j]))
}

/// How appending one card changes the counting spec functions.
pub proof fn lemma_push_facts(h: Seq<Card>, c: Card)
    ensures
        h.push(c).drop_last() == h,
        h.push(c).last() == c,
        forall|x: Card| #[trigger] count_in(h.push(c), x) == count_in(h, x) + if x == c {
            1int
        } else {
            0int
        },
        min_total(h.push(c)) == min_total(h) + card_min(c),
        max_total(h.push(c)) == max_total(h) + card_max(c),
        has_empty(h.push(c)) <==> (has_empty(h) || c == Card::Empty),
{
    assert(h.push(c).drop_last() =~= h);
    if c == Card::Empty {
        assert(h.push(c)[h.len() as int] == Card::Empty);
    }
    if has_empty(h) {
        let i = choose|i: int| 0 <= i < h.len() && h[i] == Card::Empty;
        assert(h.push(c)[i] == Card::Empty);
    }
    if has_empty(h.push(c)) && c != Card::Empty {
        let i = choose|i: int| 0 <= i < h.push(c).len() && h.push(c)[i] == Card::Empty;
        assert(0 <= i < h.len() && h[i] == Card::Empty);
    }
}

/// A hand holds between zero and `hand.len()` cards of any one rank.
proof fn lemma_count_in_bounds(hand: Seq<Card>, c: Card)
    ensures
        0 <= count_in(hand, c) <= hand.len(),
    decreases hand.len(),
{
    if hand.len() > 0 {
        lemma_count_in_bounds(hand.drop_last(), c);
    }
}

/// Minimum and maximum totals differ by ten per ace, and both grow at
/// most linearly with the hand.
pub proof fn lemma_min_max(hand: Seq<Card>)
    ensures
        max_total(hand) == min_total(hand) + 10 * num_aces(hand),
        0 <= min_total(hand),
        min_total(hand) <= max_total(hand),
        min_total(hand) <= 10 * hand.len(),
        max_total(hand) <= 11 * hand.len(),
    decreases hand.len(),
{
    lemma_count_in_bounds(hand, Card::Ace);
    if hand.len() > 0 {
        lemma_min_max(hand.drop_last());
    }
}

/// A hand of actual ranks is worth at least one point per card.
pub proof fn lemma_min_total_at_least_len(hand: Seq<Card>)
    requires
        forall|i: int| 0 <= i < hand.len() ==> hand[i] != Card::Empty,
    ensures
        min_total(hand) >= hand.len(),
    decreases hand.len(),
{
    if hand.len() > 0 {
        let h = hand.drop_last();
        assert(forall|i: int| 0 <= i < h.len() ==> h[i] == hand[i]);
        lemma_min_total_at_least_len(h);
        assert(card_min(hand.last()) >= 1);
    }
}

/// Membership in `add_each`: `t` is reachable exactly when some value of
/// `vals` leaves a remainder that `sums` holds.
proof fn lemma_add_each_membership(sums: Seq<int>, vals: Seq<int>, t: int)
    ensures
        add_each(sums, vals).contains(t) <==> exists|j: int|
            0 <= j < vals.len() && sums.contains(t - #[trigger] vals[j]),
    decreases vals.len(),
{
    if vals.len() == 0 {
        assert(!add_each(sums, vals).contains(t));
    } else {
        let prefix = add_each(sums, vals.drop_last());
        let block = sums.map_values(|s: int| s + vals.last());
        lemma_add_each_membership(sums, vals.drop_last(), t);
        if add_each(sums, vals).contains(t) {
            let k = choose|k: int|
                0 <= k < add_each(sums, vals).len() && add_each(sums, vals)[k] == t;
            if k < prefix.len() {
                assert(prefix[k] == t);
                assert(prefix.contains(t));
                let j = choose|j: int|
                    0 <= j < vals.drop_last().len() && sums.contains(t - vals.drop_last()[j]);
                assert(vals.drop_last()[j] == vals[j]);
                assert(0 <= j < vals.len() && sums.contains(t - vals[j]));
            } else {
                let i = k - prefix.len();
                assert(block[i] == t);
                assert(block[i] == sums[i] + vals.last());
                let j = vals.len() - 1;
                assert(sums[i] == t - vals[j]);
                assert(0 <= j < vals.len() && sums.contains(t - vals[j]));
            }
        }
        if exists|j: int| 0 <= j < vals.len() && sums.contains(t - #[trigger] vals[j]) {
            let j = choose|j: int| 0 <= j < vals.len() && sums.contains(t - #[trigger] vals[j]);
            let i = choose|i: int| 0 <= i < sums.len() && sums[i] == t - vals[j];
            if j < vals.len() - 1 {
                assert(vals.drop_last()[j] == vals[j]);
                assert(0 <= j < vals.drop_last().len() && sums.contains(
                    t - vals.drop_last()[j],
                ));
                assert(prefix.contains(t));
                let k = choose|k: int| 0 <= k < prefix.len() && prefix[k] == t;
                assert(add_each(sums, vals)[k] == t);
            } else {
                assert(block[i] == sums[i] + vals.last());
                assert(add_each(sums, vals)[prefix.len() + i] == t);
            }
            assert(add_each(sums, vals).contains(t));
        }
    }
}

/// Appending a card turns the closed totals into the sums of the old
/// closed totals with the card's values.
proof fn lemma_closed_push(h: Seq<Card>, c: Card)
    ensures
        closed_totals(h.push(c)) == sum_set(closed_totals(h), card_values(c)),
{
    lemma_push_facts(h, c);
    lemma_count_in_bounds(h, Card::Ace);
    let lhs = closed_totals(h.push(c));
    let rhs = sum_set(closed_totals(h), card_values(c));
    if c == Card::Empty {
        assert forall|t: int| !rhs.contains(t) by {
            assert(card_values(c).len() == 0);
        }
        assert(lhs =~= rhs);
    } else if has_empty(h) {
        assert forall|t: int| !rhs.contains(t) by {
            assert(closed_totals(h) == Set::<int>::empty());
        }
        assert(lhs =~= rhs);
    } else if c == Card::Ace {
        let m = min_total(h);
        let a = num_aces(h);
        assert forall|t: int| lhs.contains(t) implies rhs.contains(t) by {
            let j = choose|j: int| #[trigger] ace_choice_total(h.push(c), j, t);
            if j <= a {
                assert(ace_choice_total(h, j, t - 1));
                assert(closed_totals(h).contains(t - 1));
                assert(card_values(c)[0] == 1);
                assert(0 <= 0 < card_values(c).len() && closed_totals(h).contains(
                    t - card_values(c)[0],
                ));
            } else {
                assert(ace_choice_total(h, a, t - 11));
                assert(closed_totals(h).contains(t - 11));
                assert(card_values(c)[1] == 11);
                assert(0 <= 1 < card_values(c).len() && closed_totals(h).contains(
                    t - card_values(c)[1],
                ));
            }
        }
        assert forall|t: int| rhs.contains(t) implies lhs.contains(t) by {
            let j = choose|j: int|
                0 <= j < card_values(c).len() && closed_totals(h).contains(
                    t - #[trigger] card_values(c)[j],
                );
            let v = card_values(c)[j];
            let i = choose|i: int| #[trigger] ace_choice_total(h, i, t - v);
            if v == 1 {
                assert(ace_choice_total(h.push(c), i, t));
            } else {
                assert(v == 11);
                assert(ace_choice_total(h.push(c), i + 1, t));
            }
        }
        assert(lhs =~= rhs);
    } else {
        let v = card_min(c);
        assert(card_values(c).len() == 1 && card_values(c)[0] == v);
        assert forall|t: int| lhs.contains(t) implies rhs.contains(t) by {
            let j = choose|j: int| #[trigger] ace_choice_total(h.push(c), j, t);
            assert(ace_choice_total(h, j, t - v));
            assert(0 <= 0 < card_values(c).len() && closed_totals(h).contains(
                t - card_values(c)[0],
            ));
        }
        assert forall|t: int| rhs.contains(t) implies lhs.contains(t) by {
            let j = choose|j: int|
                0 <= j < card_values(c).len() && closed_totals(h).contains(
                    t - #[trigger] card_values(c)[j],
                );
            let i = choose|i: int| #[trigger] ace_choice_total(h, i, t - v);
            assert(ace_choice_total(h.push(c), i, t));
        }
        assert(lhs =~= rhs);
    }
}

/// The cartesian-sum totals of a hand coincide with their closed form.
pub proof fn lemma_totals_closed_form(hand: Seq<Card>)
    ensures
        hand_totals(hand) == closed_totals(hand),
    decreases hand.len(),
{
    if hand.len() == 0 {
        assert(hand_value_lists(hand).len() == 0);
        assert(combo_sums(hand_value_lists(hand)) == seq![0int]);
        assert(ace_choice_total(hand, 0, 0));
        assert forall|t: int| hand_totals(hand).contains(t) implies closed_totals(hand).contains(
            t,
        ) by {
            assert(seq![0int][0] == 0);
            assert(t == 0);
        }
        assert forall|t: int| closed_totals(hand).contains(t) implies hand_totals(hand).contains(
            t,
        ) by {
            let j = choose|j: int| #[trigger] ace_choice_total(hand, j, t);
            assert(t == 0);
            assert(seq![0int][0] == 0);
            assert(combo_sums(hand_value_lists(hand)).contains(t));
        }
        assert(hand_totals(hand) =~= closed_totals(hand));
    } else {
        let h = hand.drop_last();
        let c = hand.last();
        lemma_totals_closed_form(h);
        lemma_push_facts(h, c);
        assert(h.push(c) =~= hand);
        let lists = hand_value_lists(hand);
        assert(lists.drop_last() =~= hand_value_lists(h));
        assert(lists.last() == card_values(c));
        let sums = combo_sums(hand_value_lists(h));
        assert(combo_sums(lists) == add_each(sums, card_values(c)));
        assert forall|t: int|
            hand_totals(hand).contains(t) <==> sum_set(hand_totals(h), card_values(c)).contains(
                t,
            ) by {
            lemma_add_each_membership(sums, card_values(c), t);
        }
        lemma_closed_push(h, c);
        assert(hand_totals(hand) =~= closed_totals(hand));
    }
}

/// Every achievable total lies between the minimum and the maximum
/// total, and both ends are achieved unless the hand holds an `Empty`
/// placeholder.
pub proof fn lemma_totals_range(hand: Seq<Card>)
    ensures
        forall|t: int| #[trigger] hand_totals(hand).contains(t) ==> min_total(hand) <= t
            <= max_total(hand),
        !has_empty(hand) ==> hand_totals(hand).contains(min_total(hand)),
        !has_empty(hand) ==> hand_totals(hand).contains(max_total(hand)),
{
    lemma_totals_closed_form(hand);
    lemma_min_max(hand);
    lemma_count_in_bounds(hand, Card::Ace);
    if !has_empty(hand) {
        assert(ace_choice_total(hand, 0, min_total(hand)));
        assert(ace_choice_total(hand, num_aces(hand), max_total(hand)));
    }
    assert forall|t: int| #[trigger] hand_totals(hand).contains(t) implies min_total(hand) <= t
        <= max_total(hand) by {
        let j = choose|j: int| #[trigger] ace_choice_total(hand, j, t);
    }
}

/// A hand of actual ranks always reaches at least one total: the one
/// with every ace counted as one.
pub proof fn lemma_totals_nonempty(hand: Seq<Card>)
    requires
        forall|i: int| 0 <= i < hand.len() ==> hand[i] != Card::Empty,
    ensures
        hand_totals(hand).contains(min_total(hand)),
{
    assert(!has_empty(hand));
    lemma_totals_range(hand);
}

/// Every combination sum of a hand's value lists is bounded by eleven
/// per card.
pub proof fn lemma_combo_in_range(hand: Seq<Card>)
    ensures
        forall|t: int| #[trigger] combo_sums(hand_value_lists(hand)).contains(t) ==> 0 <= t <= 11
            * hand.len(),
{
    lemma_totals_range(hand);
    lemma_min_max(hand);
    assert forall|t: int| #[trigger] combo_sums(hand_value_lists(hand)).contains(t) implies 0 <= t
        <= 11 * hand.len() by {
        assert(hand_totals(hand).contains(t));
    }
}

/// Per-rank counts agree with the multiset view of the hand.
proof fn lemma_count_in_multiset(hand: Seq<Card>)
    ensures
        forall|c: Card| #[trigger] count_in(hand, c) == hand.to_multiset().count(c),
    decreases hand.len(),
{
    broadcast use vstd::seq_lib::group_seq_properties;

    hand.to_multiset_ensures();
    if hand.len() == 0 {
        assert forall|c: Card| #[trigger] count_in(hand, c) == hand.to_multiset().count(c) by {
            if hand.to_multiset().count(c) > 0 {
                assert(hand.contains(c));
            }
        }
    } else {
        let h = hand.drop_last();
        let c0 = hand.last();
        lemma_count_in_multiset(h);
        lemma_push_facts(h, c0);
        h.to_multiset_ensures();
        assert(h.push(c0) =~= hand);
        assert(hand.to_multiset() =~= h.to_multiset().insert(c0));
        assert forall|c: Card| #[trigger] count_in(hand, c) == hand.to_multiset().count(c) by {
            assert(h.to_multiset().insert(c0).count(c) == h.to_multiset().count(c) + if c == c0 {
                1int
            } else {
                0int
            });
        }
    }
}

/// The minimum total is a weighted sum of the per-rank counts.
proof fn lemma_min_total_counts(hand: Seq<Card>)
    ensures
        min_total(hand) == 1 * count_in(hand, Card::Ace) + 2 * count_in(hand, Card::Two) + 3
            * count_in(hand, Card::Three) + 4 * count_in(hand, Card::Four) + 5 * count_in(
            hand,
            Card::Five,
        ) + 6 * count_in(hand, Card::Six) + 7 * count_in(hand, Card::Seven) + 8 * count_in(
            hand,
            Card::Eight,
        ) + 9 * count_in(hand, Card::Nine) + 10 * (count_in(hand, Card::Ten) + count_in(
            hand,
            Card::Jack,
        ) + count_in(hand, Card::Queen) + count_in(hand, Card::King)),
    decreases hand.len(),
{
    if hand.len() > 0 {
        lemma_min_total_counts(hand.drop_last());
    }
}

/// Whether a hand holds the `Empty` placeholder is visible in its count.
proof fn lemma_has_empty_count(hand: Seq<Card>)
    ensures
        has_empty(hand) <==> count_in(hand, Card::Empty) > 0,
    decreases hand.len(),
{
    lemma_count_in_bounds(hand, Card::Empty);
    if hand.len() == 0 {
        assert(!has_empty(hand));
        assert(count_in(hand, Card::Empty) == 0);
    } else {
        let h = hand.drop_last();
        let c = hand.last();
        lemma_has_empty_count(h);
        lemma_count_in_bounds(h, Card::Empty);
        lemma_push_facts(h, c);
        assert(h.push(c) =~= hand);
        assert(count_in(hand, Card::Empty) == count_in(h, Card::Empty) + if Card::Empty == c {
            1int
        } else {
            0int
        });
        assert(has_empty(hand) <==> (has_empty(h) || c == Card::Empty));
    }
}

/// Reordering a hand's cards does not change its achievable totals:
/// the totals depend only on how many cards of each rank it holds. (The
/// first-two-cards split rule is the one stated exception and compares
/// positions, not totals.)
pub proof fn lemma_totals_permutation(h1: Seq<Card>, h2: Seq<Card>)
    requires
        h1.to_multiset() == h2.to_multiset(),
    ensures
        hand_totals(h1) == hand_totals(h2),
{
    lemma_count_in_multiset(h1);
    lemma_count_in_multiset(h2);
    lemma_min_total_counts(h1);
    lemma_min_total_counts(h2);
    lemma_has_empty_count(h1);
    lemma_has_empty_count(h2);
    lemma_totals_closed_form(h1);
    lemma_totals_closed_form(h2);
    assert(min_total(h1) == min_total(h2));
    assert(num_aces(h1) == num_aces(h2));
    assert(has_empty(h1) == has_empty(h2));
    if !has_empty(h1) {
        assert forall|t: int| closed_totals(h1).contains(t) implies closed_totals(h2).contains(
            t,
        ) by {
            let j = choose|j: int| #[trigger] ace_choice_total(h1, j, t);
            assert(ace_choice_total(h2, j, t));
        }
        assert forall|t: int| closed_totals(h2).contains(t) implies closed_totals(h1).contains(
            t,
        ) by {
            let j = choose|j: int| #[trigger] ace_choice_total(h2, j, t);
            assert(ace_choice_total(h1, j, t));
        }
    }
    assert(closed_totals(h1) =~= closed_totals(h2));
}

/// The number of ways to choose `k` of `n` items.
pub open spec fn binom(n: int, k: int) -> int
    decreases (if n >= 0 {
        n
    } else {
        0int
    }),
{
    if k < 0 || k > n {
        0
    } else if n == 0 {
        1
    } else {
        binom(n - 1, k - 1) + binom(n - 1, k)
    }
}

/// How often a hand with minimum total `m` and `a` aces reaches total
/// `t`: one combination per way of picking which aces count as eleven.
pub open spec fn ace_multiplicity(m: int, a: int, t: int) -> int {
    if t >= m && (t - m) % 10 == 0 && (t - m) / 10 <= a {
        binom(a, (t - m) / 10)
    } else {
        0
    }
}

/// Shifting every entry of a list shifts its multiset with it.
proof fn lemma_map_shift_count(s: Seq<int>, x: int, t: int)
    ensures
        s.map_values(|v: int| v + x).to_multiset().count(t) == s.to_multiset().count(t - x),
    decreases s.len(),
{
    let mapped = s.map_values(|v: int| v + x);
    if s.len() == 0 {
        assert(mapped =~= Seq::<int>::empty());
        s.to_multiset_ensures();
        mapped.to_multiset_ensures();
        if s.to_multiset().count(t - x) > 0 {
            assert(s.contains(t - x));
        }
        if mapped.to_multiset().count(t) > 0 {
            assert(mapped.contains(t));
        }
    } else {
        let h = s.drop_last();
        let hm = h.map_values(|v: int| v + x);
        lemma_map_shift_count(h, x, t);
        h.to_multiset_ensures();
        hm.to_multiset_ensures();
        assert(h.push(s.last()) =~= s);
        assert(h.push(s.last()).to_multiset() =~= h.to_multiset().insert(s.last()));
        assert(mapped =~= hm.push(s.last() + x));
        assert(hm.push(s.last() + x).to_multiset() =~= hm.to_multiset().insert(s.last() + x));
    }
}

/// The empty list has an empty multiset.
proof fn lemma_empty_count(t: int)
    ensures
        Seq::<int>::empty().to_multiset().count(t) == 0,
{
    Seq::<int>::empty().to_multiset_ensures();
    if Seq::<int>::empty().to_multiset().count(t) > 0 {
        assert(Seq::<int>::empty().contains(t));
    }
}

/// How appending one card changes the multiset of combination sums:
/// no totals at all through an `Empty` placeholder, a shifted copy for
/// a single-valued card, and the two shifted copies for an ace.
proof fn lemma_combo_push_count(h: Seq<Card>, c: Card, t: int)
    ensures
        c == Card::Empty ==> combo_sums(hand_value_lists(h.push(c))).to_multiset().count(t) == 0,
        c == Card::Ace ==> combo_sums(hand_value_lists(h.push(c))).to_multiset().count(t)
            == combo_sums(hand_value_lists(h)).to_multiset().count(t - 1) + combo_sums(
            hand_value_lists(h),
        ).to_multiset().count(t - 11),
        c != Card::Empty && c != Card::Ace ==> combo_sums(
            hand_value_lists(h.push(c)),
        ).to_multiset().count(t) == combo_sums(hand_value_lists(h)).to_multiset().count(
            t - card_min(c),
        ),
{
    let lists = hand_value_lists(h.push(c));
    assert(lists.drop_last() =~= hand_value_lists(h));
    assert(lists.last() == card_values(c));
    let sums = combo_sums(hand_value_lists(h));
    let vals = card_values(c);
    assert(combo_sums(lists) == add_each(sums, vals));
    if c == Card::Empty {
        assert(vals.len() == 0);
        assert(add_each(sums, vals) == Seq::<int>::empty());
        lemma_empty_count(t);
    } else if c == Card::Ace {
        assert(vals =~= seq![1int, 11int]);
        assert(vals.drop_last() =~= seq![1int]);
        assert(seq![1int].drop_last() =~= Seq::<int>::empty());
        assert(add_each(sums, Seq::<int>::empty()) == Seq::<int>::empty());
        let low = sums.map_values(|v: int| v + 1);
        let high = sums.map_values(|v: int| v + 11);
        assert(add_each(sums, seq![1int]) =~= low) by {
            assert(seq![1int].last() == 1);
            assert(sums.map_values(|s2: int| s2 + seq![1int].last()) =~= low);
        }
        assert(add_each(sums, vals) =~= low + high) by {
            assert(vals.last() == 11);
            assert(sums.map_values(|s2: int| s2 + vals.last()) =~= high);
        }
        vstd::seq_lib::lemma_multiset_commutative(low, high);
        lemma_map_shift_count(sums, 1, t);
        lemma_map_shift_count(sums, 11, t);
    } else {
        let x = card_min(c);
        assert(vals =~= seq![x]);
        assert(vals.drop_last() =~= Seq::<int>::empty());
        assert(add_each(sums, Seq::<int>::empty()) == Seq::<int>::empty());
        let shifted = sums.map_values(|v: int| v + x);
        assert(add_each(sums, vals) =~= shifted) by {
            assert(vals.last() == x);
            assert(sums.map_values(|s2: int| s2 + vals.last()) =~= shifted);
        }
        lemma_map_shift_count(sums, x, t);
    }
}

/// Each total's multiplicity among the combination sums is the number
/// of ways to pick which aces count as eleven.
proof fn lemma_combo_multiset_closed(h: Seq<Card>, t: int)
    ensures
        combo_sums(hand_value_lists(h)).to_multiset().count(t) == if has_empty(h) {
            0int
        } else {
            ace_multiplicity(min_total(h), num_aces(h), t)
        },
    decreases h.len(),
{
    lemma_count_in_bounds(h, Card::Ace);
    if h.len() == 0 {
        assert(hand_value_lists(h).len() == 0);
        assert(combo_sums(hand_value_lists(h)) == seq![0int]);
        assert(seq![0int] =~= Seq::<int>::empty().push(0));
        Seq::<int>::empty().to_multiset_ensures();
        assert(Seq::<int>::empty().push(0int).to_multiset() =~= Seq::<int>::empty().to_multiset().insert(0));
        lemma_empty_count(t);
        assert(!has_empty(h));
        if t == 0 {
            assert(ace_multiplicity(0, 0, 0) == binom(0, 0) == 1);
        } else {
            if t >= 0 && t % 10 == 0 && t / 10 <= 0 {
                assert(t == 10 * (t / 10) + t % 10);
                assert(t <= 0);
                assert(false);
            }
        }
    } else {
        let hd = h.drop_last();
        let c = h.last();
        lemma_push_facts(hd, c);
        lemma_count_in_bounds(hd, Card::Ace);
        assert(hd.push(c) =~= h);
        lemma_combo_push_count(hd, c, t);
        let m = min_total(hd);
        let a = num_aces(hd);
        if c == Card::Empty {
        } else if has_empty(hd) {
            lemma_combo_multiset_closed(hd, t - 1);
            lemma_combo_multiset_closed(hd, t - 11);
            lemma_combo_multiset_closed(hd, t - card_min(c));
        } else if c == Card::Ace {
            lemma_combo_multiset_closed(hd, t - 1);
            lemma_combo_multiset_closed(hd, t - 11);
            let d = t - m - 1;
            if d >= 0 && d % 10 == 0 {
                let q = d / 10;
                assert(d == 10 * q + d % 10);
                vstd::arithmetic::div_mod::lemma_fundamental_div_mod_converse(d - 10, 10, q - 1, 0);
                assert((d - 10) / 10 == q - 1 && (d - 10) % 10 == 0);
                assert(t - 1 - m == d && t - 11 - m == d - 10);
                if 0 <= q <= a + 1 {
                    assert(binom(a + 1, q) == binom(a, q - 1) + binom(a, q));
                }
            } else {
                if d - 10 >= 0 && (d - 10) % 10 == 0 {
                    let q2 = (d - 10) / 10;
                    assert(d - 10 == 10 * q2);
                    vstd::arithmetic::div_mod::lemma_fundamental_div_mod_converse(d, 10, q2 + 1, 0);
                    assert(false);
                }
            }
        } else {
            lemma_combo_multiset_closed(hd, t - card_min(c));
        }
    }
}

/// Reordering a hand's cards does not even change the multiplicities
/// of its combination sums: the multiset of sums depends only on how
/// many cards of each rank the hand holds.
pub proof fn lemma_combo_multiset_permutation(h1: Seq<Card>, h2: Seq<Card>)
    requires
        h1.to_multiset() == h2.to_multiset(),
    ensures
        combo_sums(hand_value_lists(h1)).to_multiset() == combo_sums(
            hand_value_lists(h2),
        ).to_multiset(),
{
    lemma_count_in_multiset(h1);
    lemma_count_in_multiset(h2);
    lemma_min_total_counts(h1);
    lemma_min_total_counts(h2);
    lemma_has_empty_count(h1);
    lemma_has_empty_count(h2);
    let ms1 = combo_sums(hand_value_lists(h1)).to_multiset();
    let ms2 = combo_sums(hand_value_lists(h2)).to_multiset();
    assert forall|t: int| ms1.count(t) == ms2.count(t) by {
        lemma_combo_multiset_closed(h1, t);
        lemma_combo_multiset_closed(h2, t);
    }
    assert(ms1 =~= ms2);
}

/// The mathematical value lists behind a vector of value vectors.
pub open spec fn int_value_lists(v: Seq<Vec<u64>>) -> Seq<Seq<int>> {
    v.map_values(|inner: Vec<u64>| inner@.map_values(|x: u64| x as int))
}

/// Generates one sum for every way of choosing a value from each list,
/// duplicates included, so the result has as many entries as the lists
/// have combinations.
pub fn generate_value_combinations(value_lists: &Vec<Vec<u64>>) -> (r: Vec<u64>)
    requires
        forall|k: int, t: int|
            0 <= k <= value_lists@.len() && #[trigger] combo_sums(
                int_value_lists(value_lists@).subrange(0, k),
            ).contains(t) ==> t <= u64::MAX,
    ensures
        r@.map_values(|x: u64| x as int) == combo_sums(int_value_lists(value_lists@)),
{
    let ghost lists = int_value_lists(value_lists@);
    let mut acc: Vec<u64> = Vec::new();
    acc.push(0);
    proof {
        assert(lists.subrange(0, 0) =~= Seq::<Seq<int>>::empty());
        assert(acc@.map_values(|x: u64| x as int) =~= seq![0int]);
    }
    let n = value_lists.len();
    let mut idx: usize = 0;
    while idx < n
        invariant
            0 <= idx <= n,
            n == value_lists@.len(),
            lists == int_value_lists(value_lists@),
            acc@.map_values(|x: u64| x as int) == combo_sums(lists.subrange(0, idx as int)),
            forall|k: int, t: int|
                0 <= k <= value_lists@.len() && #[trigger] combo_sums(
                    lists.subrange(0, k),
                ).contains(t) ==> t <= u64::MAX,
        decreases n - idx,
    {
        let list = &value_lists[idx];
        let ghost sums = combo_sums(lists.subrange(0, idx as int));
        let ghost vals = lists[idx as int];
        proof {
            assert(vals =~= list@.map_values(|x: u64| x as int));
            assert(lists.subrange(0, idx as int + 1).drop_last() =~= lists.subrange(
                0,
                idx as int,
            ));
            assert(lists.subrange(0, idx as int + 1).last() == vals);
            assert(combo_sums(lists.subrange(0, idx as int + 1)) == add_each(sums, vals));
            assert forall|i2: int, j2: int| #![trigger sums[i2], vals[j2]]
                0 <= i2 < sums.len() && 0 <= j2 < vals.len() implies sums[i2] + vals[j2]
                <= u64::MAX by {
                lemma_add_each_membership(sums, vals, sums[i2] + vals[j2]);
                assert(sums.contains((sums[i2] + vals[j2]) - vals[j2]));
                assert(combo_sums(lists.subrange(0, idx as int + 1)).contains(sums[i2] + vals[j2]));
            }
        }
        let mut next: Vec<u64> = Vec::new();
        let m = list.len();
        let mut j: usize = 0;
        while j < m
            invariant
                0 <= j <= m,
                m == list@.len(),
                vals == list@.map_values(|x: u64| x as int),
                sums == acc@.map_values(|x: u64| x as int),
                next@.map_values(|x: u64| x as int) == add_each(sums, vals.subrange(0, j as int)),
                forall|i2: int, j2: int| #![trigger sums[i2], vals[j2]]
                    0 <= i2 < sums.len() && 0 <= j2 < vals.len() ==> sums[i2] + vals[j2]
                        <= u64::MAX,
            decreases m - j,
        {
            let v = list[j];
            let mut i: usize = 0;
            let a_len = acc.len();
            proof {
                assert(vals.subrange(0, j as int + 1).drop_last() =~= vals.subrange(0, j as int));
                assert(vals.subrange(0, j as int + 1).last() == vals[j as int]);
            }
            while i < a_len
                invariant
                    0 <= i <= a_len,
                    a_len == acc@.len(),
                    0 <= j < m,
                    m == list@.len(),
                    v == list@[j as int],
                    vals == list@.map_values(|x: u64| x as int),
                    sums == acc@.map_values(|x: u64| x as int),
                    next@.map_values(|x: u64| x as int) == add_each(sums, vals.subrange(0, j as int))
                        + acc@.subrange(0, i as int).map_values(|x: u64| x as int + vals[j as int]),
                    forall|i2: int, j2: int| #![trigger sums[i2], vals[j2]]
                        0 <= i2 < sums.len() && 0 <= j2 < vals.len() ==> sums[i2]
                            + vals[j2] <= u64::MAX,
                decreases a_len - i,
            {
                let s_val = acc[i];
                proof {
                    assert(sums[i as int] == acc@[i as int] as int);
                    assert(vals[j as int] == list@[j as int] as int);
                    assert(sums[i as int] + vals[j as int] <= u64::MAX);
                }
                let ghost prev_next = next@;
                next.push(s_val + v);
                proof {
                    assert(next@.map_values(|x: u64| x as int) =~= prev_next.map_values(
                        |x: u64| x as int,
                    ).push(acc@[i as int] as int + vals[j as int]));
                    assert(acc@.subrange(0, i as int + 1).map_values(
                        |x: u64| x as int + vals[j as int],
                    ) =~= acc@.subrange(0, i as int).map_values(
                        |x: u64| x as int + vals[j as int],
                    ).push(acc@[i as int] as int + vals[j as int]));
                    assert(next@.map_values(|x: u64| x as int) =~= add_each(
                        sums,
                        vals.subrange(0, j as int),
                    ) + acc@.subrange(0, i as int + 1).map_values(
                        |x: u64| x as int + vals[j as int],
                    ));
                }
                i += 1;
            }
            proof {
                assert(acc@.subrange(0, a_len as int) =~= acc@);
                assert(acc@.map_values(|x: u64| x as int + vals[j as int]) =~= sums.map_values(
                    |s: int| s + vals[j as int],
                ));
                assert(add_each(sums, vals.subrange(0, j as int + 1)) == add_each(
                    sums,
                    vals.subrange(0, j as int),
                ) + sums.map_values(|s: int| s + vals[j as int]));
            }
            j += 1;
        }
        proof {
            assert(vals.subrange(0, m as int) =~= vals);
        }
        acc = next;
        idx += 1;
    }
    proof {
        assert(lists.subrange(0, n as int) =~= lists);
    }
    acc
}

/// The list of totals a hand can evaluate to: one entry per way of
/// valuing its aces (duplicates included).
pub fn evaluate_hand(cards: &Vec<Card>) -> (r: Vec<u64>)
    requires
        cards@.len() <= u32::MAX,
    ensures
        r@.map_values(|x: u64| x as int) == combo_sums(hand_value_lists(cards@)),
{
    let mut value_mapping: Vec<Vec<u64>> = Vec::new();
    let n = cards.len();
    let mut i: usize = 0;
    proof {
        assert(int_value_lists(value_mapping@) =~= hand_value_lists(cards@.subrange(0, 0)));
    }
    while i < n
        invariant
            0 <= i <= n,
            n == cards@.len(),
            value_mapping@.len() == i,
            int_value_lists(value_mapping@) == hand_value_lists(cards@.subrange(0, i as int)),
        decreases n - i,
    {
        let values = cards[i].get_card_values();
        let ghost prev_vm = value_mapping@;
        value_mapping.push(values);
        proof {
            assert(values@.map_values(|x: u64| x as int) == card_values(cards@[i as int]));
            assert forall|k: int| 0 <= k < value_mapping@.len() implies int_value_lists(
                value_mapping@,
            )[k] == hand_value_lists(cards@.subrange(0, i as int + 1))[k] by {
                assert(hand_value_lists(cards@.subrange(0, i as int + 1))[k] == card_values(
                    cards@[k],
                ));
                if k < i as int {
                    assert(value_mapping@[k] == prev_vm[k]);
                    assert(int_value_lists(prev_vm)[k] == hand_value_lists(
                        cards@.subrange(0, i as int),
                    )[k]);
                    assert(hand_value_lists(cards@.subrange(0, i as int))[k] == card_values(
                        cards@[k],
                    ));
                } else {
                    assert(value_mapping@[k] == values);
                }
            }
            assert(int_value_lists(value_mapping@) =~~= hand_value_lists(
                cards@.subrange(0, i as int + 1),
            ));
        }
        i += 1;
    }
    proof {
        assert(cards@.subrange(0, n as int) =~= cards@);
        assert forall|k: int, t: int|
            0 <= k <= value_mapping@.len() && #[trigger] combo_sums(
                int_value_lists(value_mapping@).subrange(0, k),
            ).contains(t) implies t <= u64::MAX by {
            assert(int_value_lists(value_mapping@).subrange(0, k) =~= hand_value_lists(
                cards@.subrange(0, k),
            ));
            lemma_combo_in_range(cards@.subrange(0, k));
        }
    }
    generate_value_combinations(&value_mapping)
}

/// Whether the hand may be split: exactly two cards, of equal rank.
pub fn can_split_hand(hand: &Vec<Card>) -> (r: bool)
    ensures
        r <==> (hand@.len() == 2 && hand@[0] == hand@[1]),
{
    hand.len() == 2 && hand[0] == hand[1]
}

} // verus!
