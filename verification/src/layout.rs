//! How the boomwhackers are dealt out to the hands.
//!
//! All boomwhackers stand in one row.  Every hand takes a stretch of that row:
//! the first hand the first few, the next hand the following few, and so on.
//! The hands get as equal a share as possible: if the row does not divide
//! evenly, the first hands take one more each.

use vstd::prelude::*;

verus! {

/// How many of `whackers` boomwhackers hand `hand` of `hands` takes.
pub open spec fn hand_size(whackers: nat, hands: nat, hand: int) -> nat {
    whackers / hands + if hand < whackers % hands {
        1nat
    } else {
        0nat
    }
}

/// Where in the row the stretch of hand `hand` starts: after the stretches
/// of all hands before it.
pub open spec fn hand_start(whackers: nat, hands: nat, hand: int) -> nat
    decreases hand,
{
    if hand <= 0 {
        0
    } else {
        hand_start(whackers, hands, hand - 1) + hand_size(whackers, hands, hand - 1)
    }
}

/// The stretch of the row that hand `hand` takes.
pub open spec fn hand_of<T>(row: Seq<T>, hands: nat, hand: int) -> Seq<T> {
    row.subrange(
        hand_start(row.len(), hands, hand) as int,
        hand_start(row.len(), hands, hand + 1) as int,
    )
}

/// The smaller of two numbers.
pub open spec fn smaller(a: int, b: int) -> int {
    if a <= b {
        a
    } else {
        b
    }
}

/// Hand `hand` starts after `hand` even shares and the extras of the hands
/// before it.
pub proof fn lemma_hand_start_formula(whackers: nat, hands: nat, hand: int)
    requires
        hands > 0,
        0 <= hand,
    ensures
        hand_start(whackers, hands, hand) == hand * (whackers / hands) + smaller(
            hand,
            (whackers % hands) as int,
        ),
    decreases hand,
{
    let share = (whackers / hands) as int;
    if hand > 0 {
        lemma_hand_start_formula(whackers, hands, hand - 1);
        assert(hand * share == (hand - 1) * share + share) by (nonlinear_arith);
    } else {
        assert(hand * share == 0) by (nonlinear_arith)
            requires
                hand == 0,
        ;
    }
}

/// The stretches follow each other without gap or overlap and use up the row.
pub proof fn lemma_hands_tile(whackers: nat, hands: nat, hand: int)
    requires
        hands > 0,
        0 <= hand < hands,
    ensures
        hand_start(whackers, hands, hand) <= hand_start(whackers, hands, hand + 1) <= whackers,
        hand_start(whackers, hands, hands as int) == whackers,
        hand_start(whackers, hands, 0) == 0,
{
    lemma_hand_start_formula(whackers, hands, hand + 1);
    lemma_hand_start_formula(whackers, hands, hands as int);
    let share = (whackers / hands) as int;
    let extra = (whackers % hands) as int;
    assert(whackers == hands * share + extra) by (nonlinear_arith)
        requires
            hands > 0,
            share == whackers / hands,
            extra == whackers % hands,
    ;
    assert((hand + 1) * share <= hands * share) by (nonlinear_arith)
        requires
            hand + 1 <= hands,
            share >= 0,
    ;
}

/// No hand stays empty unless there are fewer boomwhackers than hands, and
/// no hand takes more than one boomwhacker more than another.
pub proof fn lemma_hand_sizes(whackers: nat, hands: nat, hand: int)
    requires
        hands > 0,
        0 <= hand < hands,
    ensures
        hand_start(whackers, hands, hand + 1) - hand_start(whackers, hands, hand) == hand_size(
            whackers,
            hands,
            hand,
        ),
        whackers / hands <= hand_size(whackers, hands, hand) <= whackers / hands + 1,
        whackers >= hands ==> hand_size(whackers, hands, hand) >= 1,
{
    if whackers >= hands {
        assert(whackers / hands >= 1) by (nonlinear_arith)
            requires
                whackers >= hands,
                hands > 0,
        ;
    }
}

/// `items` with the items at places `i` and `j` exchanged.
pub open spec fn exchanged<T>(items: Seq<T>, i: int, j: int) -> Seq<T> {
    items.update(i, items[j]).update(j, items[i])
}

/// Exchanging two items loses none and adds none.
pub proof fn lemma_exchange_keeps_items<T>(items: Seq<T>, i: int, j: int)
    requires
        0 <= i < items.len(),
        0 <= j < items.len(),
    ensures
        exchanged(items, i, j).to_multiset() == items.to_multiset(),
{
    if i == j {
        assert(exchanged(items, i, j) =~= items);
    } else {
        let first = items.update(i, items[j]);
        vstd::seq_lib::to_multiset_update(items, i, items[j]);
        vstd::seq_lib::to_multiset_update(first, j, items[i]);
        assert(first[j] == items[j]);
        assert(items.to_multiset().count(items[i]) > 0) by {
            vstd::seq_lib::to_multiset_contains(items, items[i]);
            assert(items.contains(items[i]));
        }
        assert(items.to_multiset().count(items[j]) > 0) by {
            vstd::seq_lib::to_multiset_contains(items, items[j]);
            assert(items.contains(items[j]));
        }
        assert(exchanged(items, i, j).to_multiset() =~= items.to_multiset());
    }
}

} // verus!
