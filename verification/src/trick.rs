//! The trick evaluator: which participant of a completed trick takes it,
//! under the fixed card-strength hierarchy with its first-trick exception.

use vstd::prelude::*;
use vstd::std_specs::bits::u64_leading_zeros;
use crate::cards::{
    Cards, Suit, ACE, QUEEN, JACK, TWO, SPADE, HEART, CLUB, SUIT_RANKS, ALL_JOKERS, ALL_PICTURES,
    HIGH_JOKERS, spec_suit_of, spec_inverse, single_card, is_suit,
    lemma_suit_of_valid, lemma_single_card_position, lemma_card_constants, suit_of, inverse,
};

verus! {

/// The extra joker under any suit presentation.
pub const ANY_EXTRA_JOKER: Cards = crate::cards::EXTRA_JOKER << SPADE
    | crate::cards::EXTRA_JOKER << HEART | crate::cards::EXTRA_JOKER << crate::cards::DIAMOND
    | crate::cards::EXTRA_JOKER << CLUB;
/// The black and red jokers under any suit presentation.
pub const ANY_PLAIN_JOKER: Cards = (crate::cards::BLACK_JOKER | crate::cards::RED_JOKER) << SPADE
    | (crate::cards::BLACK_JOKER | crate::cards::RED_JOKER) << HEART
    | (crate::cards::BLACK_JOKER | crate::cards::RED_JOKER) << crate::cards::DIAMOND
    | (crate::cards::BLACK_JOKER | crate::cards::RED_JOKER) << CLUB;
/// A two of any suit.
pub const ANY_TWO: Cards = TWO << SPADE | TWO << HEART | TWO << crate::cards::DIAMOND | TWO << CLUB;

/// All cards of a trick merged into one card set.
pub open spec fn or_fold(trick: Seq<Cards>) -> Cards
    decreases trick.len(),
{
    if trick.len() == 0 {
        0u64
    } else {
        or_fold(trick.drop_last()) | trick.last()
    }
}

/// An empty card set meets no mask.
pub proof fn lemma_zero_mask(mask: Cards)
    ensures
        0u64 & mask == 0,
{
    assert(0u64 & mask == 0) by (bit_vector);
}

/// A mask meets the merged set exactly when it meets some card of the trick.
pub proof fn lemma_or_fold_mask(trick: Seq<Cards>, mask: Cards)
    ensures
        (or_fold(trick) & mask != 0) <==> exists|i: int|
            0 <= i < trick.len() && trick[i] & mask != 0,
    decreases trick.len(),
{
    if trick.len() == 0 {
        lemma_zero_mask(mask);
    } else {
        let rest = trick.drop_last();
        lemma_or_fold_mask(rest, mask);
        let a = or_fold(rest);
        let b = trick.last();
        assert(((a | b) & mask != 0) <==> (a & mask != 0 || b & mask != 0)) by (bit_vector);
        if (a | b) & mask != 0 {
            if a & mask != 0 {
                let i = choose|i: int| 0 <= i < rest.len() && rest[i] & mask != 0;
                assert(trick[i] & mask != 0);
            } else {
                assert(trick[trick.len() - 1] & mask != 0);
            }
        }
        if exists|i: int| 0 <= i < trick.len() && trick[i] & mask != 0 {
            let i = choose|i: int| 0 <= i < trick.len() && trick[i] & mask != 0;
            if i < trick.len() - 1 {
                assert(rest[i] & mask != 0);
            }
        }
    }
}

/// Each card of a trick lies inside the merged set.
pub proof fn lemma_or_fold_contains(trick: Seq<Cards>, i: int)
    requires
        0 <= i < trick.len(),
    ensures
        trick[i] & or_fold(trick) == trick[i],
    decreases trick.len(),
{
    let a = or_fold(trick.drop_last());
    let b = trick.last();
    if i < trick.len() - 1 {
        lemma_or_fold_contains(trick.drop_last(), i);
        let x = trick[i];
        assert(x & a == x ==> x & (a | b) == x) by (bit_vector);
    } else {
        assert(b & (a | b) == b) by (bit_vector);
    }
}

/// Whether the first trick of the deal is still under way, judged from the
/// count of cards not yet played.
pub open spec fn spec_is_first_trick(n_remaining: int, n_players: int) -> bool {
    n_remaining >= 50int - 50int % n_players - n_players
}

pub fn is_first_trick(n_remaining: CardIndex, n_players: PlayerIndex) -> (first: bool)
    requires
        1 <= n_players <= 50,
    ensures
        first == spec_is_first_trick(n_remaining as int, n_players as int),
{
    proof {
        let n = n_players as int;
        assert(n * (50int / n) + 50int % n == 50 && 50int / n >= 1) by (nonlinear_arith)
            requires
                1 <= n <= 50,
        ;
        assert(50 - 50int % n >= n) by (nonlinear_arith)
            requires
                1 <= n <= 50 && n * (50int / n) + 50int % n == 50 && 50int / n >= 1,
        ;
    }
    n_remaining >= 50 - (50 % n_players) - n_players
}

/// The mighty card: the ace of spades, or of clubs when spades are trump.
pub open spec fn spec_mighty(trump: Suit) -> Cards {
    if trump != SPADE {
        ACE << SPADE
    } else {
        ACE << CLUB
    }
}

/// The single strongest card mask of a completed trick, by the fixed
/// hierarchy: queen of hearts over the mighty card, then the mighty card,
/// then the extra joker, the other jokers, the trump jack, the mirror jack,
/// and last the critical suit with the two-upset exception.
pub open spec fn spec_strongest(trick: Seq<Cards>, trump: Suit, first_trick: bool) -> Cards {
    let field = or_fold(trick);
    let mighty = spec_mighty(trump);
    if field & mighty != 0 {
        if field & (QUEEN << HEART) != 0 {
            QUEEN << HEART
        } else {
            mighty
        }
    } else if field & ALL_JOKERS != 0 {
        if field & ANY_EXTRA_JOKER != 0 {
            ANY_EXTRA_JOKER
        } else {
            ANY_PLAIN_JOKER
        }
    } else if field & (JACK << trump) != 0 {
        JACK << trump
    } else if field & (JACK << spec_inverse(trump)) != 0 {
        JACK << spec_inverse(trump)
    } else {
        let critical = if field & (SUIT_RANKS << trump) != 0 {
            trump
        } else {
            spec_suit_of(trick.last())
        };
        let effective = field & (SUIT_RANKS << critical);
        if !first_trick && effective == field && effective & ANY_TWO != 0 {
            TWO << critical
        } else {
            1u64 << ((63 - u64_leading_zeros(effective)) as u64)
        }
    }
}

/// The first position, counted from the front, whose card meets the mask.
pub open spec fn first_match_from(trick: Seq<Cards>, mask: Cards, i: int) -> int
    decreases trick.len() - i,
{
    if i < 0 || i >= trick.len() {
        trick.len() as int
    } else if trick[i] & mask != 0 {
        i
    } else {
        first_match_from(trick, mask, i + 1)
    }
}

/// The winning position of a completed trick, stated over the reverse play
/// order in which the search records a trick.
pub open spec fn spec_trick_taker(trick: Seq<Cards>, trump: Suit, first_trick: bool) -> int {
    trick.len() - 1 - first_match_from(trick, spec_strongest(trick, trump, first_trick), 0)
}

use crate::cards::{CardIndex, PlayerIndex};

proof fn lemma_first_match_found(trick: Seq<Cards>, mask: Cards, from: int)
    requires
        0 <= from <= trick.len(),
        exists|i: int| from <= i < trick.len() && trick[i] & mask != 0,
    ensures
        from <= first_match_from(trick, mask, from) < trick.len(),
        trick[first_match_from(trick, mask, from)] & mask != 0,
        forall|j: int| from <= j < first_match_from(trick, mask, from) ==> trick[j] & mask == 0,
    decreases trick.len() - from,
{
    if trick[from] & mask == 0 {
        let i = choose|i: int| from <= i < trick.len() && trick[i] & mask != 0;
        assert(from + 1 <= i < trick.len() && trick[i] & mask != 0);
        lemma_first_match_found(trick, mask, from + 1);
    }
}

/// The highest set bit, found through the leading zeros, lies in the set.
proof fn lemma_high_bit_rec(x: u64, width: nat)
    requires
        width <= 64,
        width < 64 ==> x >> (width as u64) == 0,
    ensures
        x != 0 ==> 64 - width <= u64_leading_zeros(x) <= 63 && x & (1u64 << ((63
            - u64_leading_zeros(x)) as u64)) != 0,
    decreases width,
{
    reveal_with_fuel(u64_leading_zeros, 2);
    if x != 0 {
        if width == 0 {
            assert(x >> 0u64 == x) by (bit_vector);
        } else {
            if width - 1 == 63 {
                assert((x / 2) >> 63u64 == 0) by (bit_vector);
            } else {
                let w = (width - 1) as u64;
                assert((x / 2) >> w == 0) by (bit_vector)
                    requires
                        w < 63 && x >> ((w + 1) as u64) == 0,
                ;
            }
            lemma_high_bit_rec(x / 2, (width - 1) as nat);
            assert(u64_leading_zeros(x) == u64_leading_zeros(x / 2) - 1);
            if x / 2 == 0 {
                assert(x == 1);
                assert(u64_leading_zeros(0u64) == 64);
                assert(u64_leading_zeros(x) == 63);
                assert(1u64 & (1u64 << 0u64) != 0) by (bit_vector);
                assert(x & (1u64 << ((63 - u64_leading_zeros(x)) as u64)) != 0);
            } else {
                let k = (63 - u64_leading_zeros(x / 2)) as u64;
                assert(k <= 62);
                assert(x & (1u64 << ((k + 1) as u64)) != 0) by (bit_vector)
                    requires
                        k <= 62 && (x / 2) & (1u64 << k) != 0,
                ;
                assert((63 - u64_leading_zeros(x)) as u64 == k + 1);
            }
        }
    }
}

pub proof fn lemma_high_bit(x: u64)
    requires
        x != 0,
    ensures
        0 <= u64_leading_zeros(x) <= 63,
        x & (1u64 << ((63 - u64_leading_zeros(x)) as u64)) != 0,
{
    lemma_high_bit_rec(x, 64);
}

/// In the critical-suit branch the critical suit is a real suit and some card
/// of the trick belongs to its rank band.
proof fn lemma_critical_suit(trick: Seq<Cards>, trump: Suit)
    requires
        trick.len() >= 1,
        is_suit(trump),
        forall|i: int| 0 <= i < trick.len() ==> single_card(trick[i]),
        or_fold(trick) & ALL_JOKERS == 0,
    ensures
        ({
            let field = or_fold(trick);
            let critical = if field & (SUIT_RANKS << trump) != 0 {
                trump
            } else {
                spec_suit_of(trick.last())
            };
            is_suit(critical) && field & (SUIT_RANKS << critical) != 0
        }),
{
    let field = or_fold(trick);
    lemma_card_constants();
    if field & (SUIT_RANKS << trump) == 0 {
        let c = trick.last();
        lemma_or_fold_contains(trick, trick.len() - 1);
        let p = choose|p: u64| p < 64 && c == 1u64 << p;
        assert((1u64 << p) & ALL_JOKERS == 0 && (1u64 << p) != 0) by (bit_vector)
            requires
                p < 64 && (1u64 << p) & field == (1u64 << p) && field & ALL_JOKERS == 0,
        ;
        lemma_single_card_position(p);
        lemma_suit_of_valid(c);
        let s = spec_suit_of(c);
        assert(field & (SUIT_RANKS << s) != 0 && (s == 0 || s == 16 || s == 32 || s == 48))
            by (bit_vector)
            requires
                p < 64 && s == (p as u32) & !15 && (1u64 << p) & field == (1u64 << p) && (1u64
                    << p) & ALL_JOKERS == 0,
        ;
    }
}

/// Some card of a completed trick always meets the strongest-card mask.
pub proof fn lemma_strongest_present(trick: Seq<Cards>, trump: Suit, first_trick: bool)
    requires
        trick.len() >= 1,
        is_suit(trump),
        forall|i: int| 0 <= i < trick.len() ==> single_card(trick[i]),
    ensures
        or_fold(trick) & spec_strongest(trick, trump, first_trick) != 0,
{
    let field = or_fold(trick);
    let mighty = spec_mighty(trump);
    let strongest = spec_strongest(trick, trump, first_trick);
    lemma_card_constants();
    if field & mighty != 0 {
    } else if field & ALL_JOKERS != 0 {
        if field & ANY_EXTRA_JOKER == 0 {
            assert(field & ANY_PLAIN_JOKER != 0) by (bit_vector)
                requires
                    field & ALL_JOKERS != 0 && field & ANY_EXTRA_JOKER == 0,
            ;
        }
    } else if field & (JACK << trump) != 0 {
    } else if field & (JACK << spec_inverse(trump)) != 0 {
    } else {
        lemma_critical_suit(trick, trump);
        let critical = if field & (SUIT_RANKS << trump) != 0 {
            trump
        } else {
            spec_suit_of(trick.last())
        };
        let effective = field & (SUIT_RANKS << critical);
        if !first_trick && effective == field && effective & ANY_TWO != 0 {
            assert(field & (TWO << critical) != 0) by (bit_vector)
                requires
                    effective == field & (SUIT_RANKS << critical) && effective & ANY_TWO != 0
                        && (critical == 0 || critical == 16 || critical == 32 || critical == 48),
            ;
        } else {
            lemma_high_bit(effective);
            let k = (63 - u64_leading_zeros(effective)) as u64;
            assert(field & (1u64 << k) != 0) by (bit_vector)
                requires
                    effective == field & (SUIT_RANKS << critical) && effective & (1u64 << k) != 0,
            ;
        }
    }
}

pub fn trick_taker(trick: &Vec<Cards>, trump: Suit, first_trick: bool) -> (taker: PlayerIndex)
    requires
        trick@.len() >= 1,
        is_suit(trump),
        forall|i: int| 0 <= i < trick@.len() ==> single_card(trick@[i]),
    ensures
        taker < trick@.len(),
        taker as int == spec_trick_taker(trick@, trump, first_trick),
{
    let ghost s = trick@;
    let mut field: u64 = 0;
    let mut k: usize = 0;
    while k < trick.len()
        invariant
            k <= s.len(),
            s == trick@,
            field == or_fold(s.take(k as int)),
        decreases trick.len() - k,
    {
        field = field | trick[k];
        proof {
            assert(s.take(k as int + 1).drop_last() =~= s.take(k as int));
        }
        k = k + 1;
    }
    proof {
        assert(s.take(s.len() as int) =~= s);
    }
    let mighty = if trump != SPADE {
        ACE << SPADE
    } else {
        ACE << CLUB
    };
    let strongest: u64;
    if field & mighty != 0 {
        strongest = if field & QUEEN << HEART != 0 {
            QUEEN << HEART
        } else {
            mighty
        };
    } else if field & ALL_JOKERS != 0 {
        strongest = if field & ANY_EXTRA_JOKER != 0 {
            ANY_EXTRA_JOKER
        } else {
            ANY_PLAIN_JOKER
        };
    } else if field & JACK << trump != 0 {
        strongest = JACK << trump;
    } else if field & JACK << inverse(trump) != 0 {
        strongest = JACK << inverse(trump);
    } else {
        proof {
            lemma_critical_suit(s, trump);
        }
        let critical = if field & SUIT_RANKS << trump != 0 {
            trump
        } else {
            suit_of(trick[trick.len() - 1])
        };
        let effective = field & SUIT_RANKS << critical;
        if !first_trick && effective == field && effective & ANY_TWO != 0 {
            strongest = TWO << critical;
        } else {
            proof {
                lemma_high_bit(effective);
            }
            strongest = 1 << (63 - effective.leading_zeros());
        }
    }
    proof {
        assert(strongest == spec_strongest(s, trump, first_trick));
        lemma_strongest_present(s, trump, first_trick);
        lemma_or_fold_mask(s, strongest);
        lemma_first_match_found(s, strongest, 0);
    }
    let ghost target = first_match_from(s, strongest, 0);
    let n_cards = trick.len();
    let mut i: usize = 0;
    while trick[i] & strongest == 0
        invariant
            s == trick@,
            n_cards == s.len(),
            0 <= i <= target < n_cards,
            strongest == spec_strongest(s, trump, first_trick),
            target == first_match_from(s, strongest, 0),
            s[target] & strongest != 0,
            forall|j: int| 0 <= j < target ==> s[j] & strongest == 0,
        decreases s.len() - i,
    {
        i = i + 1;
        proof {
            assert(i <= target);
        }
    }
    proof {
        assert(i == target);
    }
    trick.len() - 1 - i
}

} // verus!
