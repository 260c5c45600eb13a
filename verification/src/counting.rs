//! Counting set bits of a card set, and the lemmas the point accounting needs.

use vstd::prelude::*;
use crate::cards::Cards;

verus! {

/// How many cards a card set holds: its set bits.
pub open spec fn card_count(cards: Cards) -> nat
    decreases cards,
{
    if cards == 0 {
        0
    } else {
        card_count(cards / 2) + (cards % 2) as nat
    }
}

pub proof fn lemma_card_count_zero(cards: Cards)
    ensures
        card_count(cards) == 0 <==> cards == 0,
    decreases cards,
{
    if cards != 0 && cards % 2 == 0 {
        lemma_card_count_zero(cards / 2);
    }
}

pub proof fn lemma_card_count_single(p: u64)
    requires
        p < 64,
    ensures
        card_count(1u64 << p) == 1,
    decreases p,
{
    if p == 0 {
        assert(1u64 << 0 == 1) by (bit_vector);
        assert(card_count(0) == 0);
        assert(card_count(1) == 1);
    } else {
        assert((1u64 << p) / 2 == 1u64 << ((p - 1) as u64) && (1u64 << p) % 2 == 0
            && (1u64 << p) != 0) by (bit_vector)
            requires
                0 < p < 64,
        ;
        lemma_card_count_single((p - 1) as u64);
    }
}

/// Merging two card sets never counts more than the two counts together.
pub proof fn lemma_card_count_or_le(x: Cards, y: Cards)
    ensures
        card_count(x | y) <= card_count(x) + card_count(y),
    decreases x + y,
{
    assert((x | y) / 2 == (x / 2) | (y / 2) && ((x | y) % 2) <= x % 2 + y % 2 && ((x == 0 && y
        == 0) ==> x | y == 0)) by (bit_vector);
    if !(x == 0 && y == 0) {
        lemma_card_count_or_le(x / 2, y / 2);
    }
}

/// Merging two disjoint card sets counts exactly the two counts together.
pub proof fn lemma_card_count_disjoint(x: Cards, y: Cards)
    requires
        x & y == 0,
    ensures
        card_count(x | y) == card_count(x) + card_count(y),
    decreases x + y,
{
    assert((x | y) / 2 == (x / 2) | (y / 2) && ((x | y) % 2) == x % 2 + y % 2 && (x / 2) & (y / 2)
        == 0 && ((x == 0 && y == 0) ==> x | y == 0)) by (bit_vector)
        requires
            x & y == 0,
    ;
    if !(x == 0 && y == 0) {
        lemma_card_count_disjoint(x / 2, y / 2);
    }
}

/// Taking a subset out of a card set lowers the count by the subset's count.
pub proof fn lemma_card_count_remove(x: Cards, y: Cards)
    requires
        y & x == y,
    ensures
        card_count(x ^ y) == card_count(x) - card_count(y),
{
    assert((x ^ y) & y == 0 && ((x ^ y) | y) == x) by (bit_vector)
        requires
            y & x == y,
    ;
    lemma_card_count_disjoint(x ^ y, y);
}

/// A set counting a single card is a single bit.
pub proof fn lemma_card_count_one(x: Cards)
    requires
        card_count(x) == 1,
    ensures
        crate::cards::single_card(x),
    decreases x,
{
    if x % 2 == 1 {
        lemma_card_count_zero(x / 2);
        assert(x / 2 == 0 && x % 2 == 1 ==> x == 1u64 << 0u64) by (bit_vector);
    } else {
        lemma_card_count_one(x / 2);
        let p = choose|p: u64| p < 64 && x / 2 == 1u64 << p;
        assert(x == 1u64 << ((p + 1) as u64) && p + 1 < 64) by (bit_vector)
            requires
                p < 64 && x / 2 == 1u64 << p && x % 2 == 0 && x != 0,
        ;
    }
}

pub fn count_cards(cards: Cards) -> (count: u32)
    ensures
        count == card_count(cards),
{
    let mut x = cards;
    let mut count: u32 = 0;
    proof {
        lemma_card_count_le_64(cards, 64);
    }
    while x != 0
        invariant
            count + card_count(x) == card_count(cards),
            card_count(cards) <= 64,
        decreases x,
    {
        count = count + (x % 2) as u32;
        x = x / 2;
    }
    count
}

/// No card set holds more than 64 cards.
pub proof fn lemma_card_count_bound(x: Cards)
    ensures
        card_count(x) <= 64,
{
    lemma_card_count_le_64(x, 64);
}

/// A card set whose bits all lie below `width` holds at most `width` cards;
/// with `width` 64 that is every card set.
proof fn lemma_card_count_le_64(x: Cards, width: nat)
    requires
        width <= 64,
        width < 64 ==> x >> (width as u64) == 0,
    ensures
        card_count(x) <= width,
    decreases width,
{
    if width == 0 {
        assert(x >> 0u64 == x) by (bit_vector);
    } else {
        if width - 1 == 63 {
            assert((x / 2) >> 63u64 == 0) by (bit_vector);
        } else {
            let w = (width - 1) as u64;
            assert((x / 2) >> w == 0) by (bit_vector)
                requires
                    w < 63 && x >> ((w + 1) as u64) == 0,
            ;
        }
        lemma_card_count_le_64(x / 2, (width - 1) as nat);
    }
}

} // verus!
