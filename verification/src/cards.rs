//! The card model: cards as bit positions inside four 16-bit suit lanes,
//! suit and rank extraction, the mirror suit, and the rotation-reversing jacks.

use vstd::prelude::*;
use vstd::std_specs::bits::{u64_trailing_zeros, axiom_u64_trailing_zeros};

verus! {

pub type Suit = u32;
pub type Rank = u64;
pub type Cards = u64;
pub type CardIndex = usize;
pub type PlayerIndex = usize;
pub type Declaration = usize;

pub const N_CARDS: CardIndex = 55;

pub const SPADE: Suit = 0;
pub const HEART: Suit = 16;
pub const DIAMOND: Suit = 32;
pub const CLUB: Suit = 48;

pub const TWO: Rank = 1 << 0;
pub const THREE: Rank = 1 << 1;
pub const FOUR: Rank = 1 << 2;
pub const FIVE: Rank = 1 << 3;
pub const SIX: Rank = 1 << 4;
pub const SEVEN: Rank = 1 << 5;
pub const EIGHT: Rank = 1 << 6;
pub const NINE: Rank = 1 << 7;
pub const TEN: Rank = 1 << 8;
pub const JACK: Rank = 1 << 9;
pub const QUEEN: Rank = 1 << 10;
pub const KING: Rank = 1 << 11;
pub const ACE: Rank = 1 << 12;

pub const BLACK_JOKER: Rank = 1 << 13;
pub const RED_JOKER: Rank = 1 << 14;
pub const EXTRA_JOKER: Rank = 1 << 15;

pub const PLAINS: Rank = TWO | THREE | FOUR | FIVE | SIX | SEVEN | EIGHT | NINE;
pub const PICTURES: Rank = TEN | JACK | QUEEN | KING | ACE;
pub const JOKERS: Rank = BLACK_JOKER | RED_JOKER | EXTRA_JOKER;

pub const ALL_SUITS: Cards = 1 << SPADE | 1 << HEART | 1 << DIAMOND | 1 << CLUB;

/// The rank band a card must stay in to follow suit: every non-joker rank.
pub const SUIT_RANKS: Cards = PLAINS | PICTURES;
/// Every picture card of every suit (`PICTURES` replicated into each lane):
/// the point-scoring cards.
pub const ALL_PICTURES: Cards = PICTURES << SPADE | PICTURES << HEART | PICTURES << DIAMOND
    | PICTURES << CLUB;
/// Every joker rank in every suit lane (`JOKERS` replicated into each lane):
/// how a played joker may present itself.
pub const ALL_JOKERS: Cards = JOKERS << SPADE | JOKERS << HEART | JOKERS << DIAMOND
    | JOKERS << CLUB;
/// Joker rank bits outside the canonical (spade) lane: never stored in a hand.
pub const HIGH_JOKERS: Cards = JOKERS << HEART | JOKERS << DIAMOND | JOKERS << CLUB;

pub open spec fn is_suit(suit: Suit) -> bool {
    suit == SPADE || suit == HEART || suit == DIAMOND || suit == CLUB
}

/// A card as it stands in a trick or a hand: exactly one bit.
pub open spec fn single_card(card: Cards) -> bool {
    exists|p: u64| p < 64 && card == 1u64 << p
}

/// A hand owns jokers only in their canonical lane.
pub open spec fn valid_hand(hand: Cards) -> bool {
    hand & HIGH_JOKERS == 0
}

pub open spec fn spec_suit_of(card: Cards) -> Suit {
    u64_trailing_zeros(card) & !15
}

pub open spec fn spec_rank_of(card: Cards) -> Rank {
    card >> spec_suit_of(card)
}

pub open spec fn spec_inverse(suit: Suit) -> Suit {
    (48 - suit) as Suit
}

pub open spec fn spec_reversing_jacks(trump: Suit) -> Cards {
    JACK << (16 ^ trump) | JACK << (32 ^ trump)
}

/// The canonical identity a played card collapses back to before it leaves a
/// hand: a joker presented under any suit is stored as its spade-lane bit.
pub open spec fn canonical_of(card: Cards) -> Cards {
    if card & ALL_JOKERS == 0 {
        card
    } else {
        spec_rank_of(card)
    }
}

/// The numeric values of the composite card-set constants, for proofs that
/// work at the bit level.
pub proof fn lemma_card_constants()
    ensures
        ALL_SUITS == 0x0001000100010001u64,
        JOKERS == 0xE000u64,
        SUIT_RANKS == 0x1FFFu64,
        ALL_PICTURES == 0x1F001F001F001F00u64,
        ALL_JOKERS == 0xE000E000E000E000u64,
        HIGH_JOKERS == 0xE000E000E0000000u64,
{
    assert(ALL_SUITS == 0x0001000100010001u64 && JOKERS == 0xE000u64 && SUIT_RANKS == 0x1FFFu64
        && ALL_PICTURES == 0x1F001F001F001F00u64 && ALL_JOKERS == 0xE000E000E000E000u64
        && HIGH_JOKERS == 0xE000E000E0000000u64) by (bit_vector);
}

/// The trailing zeros of a one-bit word name the bit.
pub proof fn lemma_single_card_position(p: u64)
    requires
        p < 64,
    ensures
        u64_trailing_zeros(1u64 << p) == p,
{
    axiom_u64_trailing_zeros(1u64 << p);
    let t = u64_trailing_zeros(1u64 << p);
    assert(1u64 << p != 0) by (bit_vector)
        requires
            p < 64,
    ;
    assert(((1u64 << p) >> (t as u64)) & 1u64 == 1u64);
    assert(t == p) by (bit_vector)
        requires
            t < 64 && p < 64 && ((1u64 << p) >> (t as u64)) & 1u64 == 1u64,
    ;
}

/// A nonzero card set lies in one of the four suit lanes as far as
/// `spec_suit_of` is concerned.
pub proof fn lemma_suit_of_valid(card: Cards)
    requires
        card != 0,
    ensures
        is_suit(spec_suit_of(card)),
{
    axiom_u64_trailing_zeros(card);
    let t = u64_trailing_zeros(card);
    assert((t & !15) == 0 || (t & !15) == 16 || (t & !15) == 32 || (t & !15) == 48) by (bit_vector)
        requires
            t < 64,
    ;
}

/// Any nonzero card is rebuilt exactly from its rank and its suit.
pub proof fn lemma_suit_rank_round_trip(card: Cards)
    requires
        card != 0,
    ensures
        (spec_rank_of(card) << spec_suit_of(card)) as Cards == card,
{
    axiom_u64_trailing_zeros(card);
    let t = u64_trailing_zeros(card);
    assert(card << ((64 - t) as u64) == 0);
    assert(((card >> (t & !15)) << (t & !15)) == card) by (bit_vector)
        requires
            t < 64 && card << ((64 - t) as u64) == 0,
    ;
}

/// A single card is never the empty set.
pub proof fn lemma_single_card_nonzero(card: Cards)
    requires
        single_card(card),
    ensures
        card != 0,
{
    let p = choose|p: u64| p < 64 && card == 1u64 << p;
    lemma_single_card_position(p);
    axiom_u64_trailing_zeros(card);
}

/// A single card that meets a hand at all lies wholly inside it.
pub proof fn lemma_single_card_subset(hand: Cards, card: Cards)
    requires
        single_card(card),
        hand & card != 0,
    ensures
        card & hand == card,
{
    let p = choose|p: u64| p < 64 && card == 1u64 << p;
    assert(hand & (1u64 << p) != 0 ==> (1u64 << p) & hand == (1u64 << p)) by (bit_vector);
}

/// Isolating the lowest set bit of a non-empty card set yields a single
/// card that the set holds.
pub proof fn lemma_low_bit(cards: Cards)
    requires
        cards != 0,
    ensures
        ({
            let low = cards & !((cards - 1) as u64);
            single_card(low) && low & cards == low
        }),
{
    axiom_u64_trailing_zeros(cards);
    let t = u64_trailing_zeros(cards);
    assert(cards << ((64 - t) as u64) == 0);
    assert((cards & !((cards - 1) as u64)) == 1u64 << (t as u64) && (1u64 << (t as u64)) & cards
        == 1u64 << (t as u64)) by (bit_vector)
        requires
            t < 64 && (cards >> (t as u64)) & 1u64 == 1u64 && cards << ((64 - t) as u64) == 0,
    ;
    assert(single_card(cards & !((cards - 1) as u64))) by {
        assert((t as u64) < 64 && cards & !((cards - 1) as u64) == 1u64 << (t as u64));
    }
}

pub fn suit_of(card: Cards) -> (suit: Suit)
    ensures
        suit == spec_suit_of(card),
{
    card.trailing_zeros() & !15
}

pub fn rank_of(card: Cards) -> (rank: Rank)
    requires
        card != 0,
    ensures
        rank == spec_rank_of(card),
{
    proof {
        lemma_suit_of_valid(card);
    }
    card >> suit_of(card)
}

pub fn inverse(suit: Suit) -> (mirror: Suit)
    requires
        suit <= 48,
    ensures
        mirror == spec_inverse(suit),
{
    48 - suit
}

/// The mirror suit of the mirror suit is the suit itself.
pub proof fn lemma_inverse_involution(suit: Suit)
    requires
        suit <= 48,
    ensures
        spec_inverse(spec_inverse(suit)) == suit,
{
}

pub fn reversing_jacks(trump: Suit) -> (jacks: Cards)
    requires
        is_suit(trump),
    ensures
        jacks == spec_reversing_jacks(trump),
{
    proof {
        assert((16u32 ^ trump) < 64 && (32u32 ^ trump) < 64) by (bit_vector)
            requires
                trump == 0 || trump == 16 || trump == 32 || trump == 48,
        ;
    }
    JACK << (16 ^ trump) | JACK << (32 ^ trump)
}

} // verus!
