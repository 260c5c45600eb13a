//! The legal-move generator: which cards a hand may contribute against a
//! given lead card, with jokers broadcast into every suit lane when leading.

use vstd::prelude::*;
use crate::cards::{
    Cards, JOKERS, ALL_SUITS, ALL_JOKERS, ALL_PICTURES, HIGH_JOKERS, SUIT_RANKS, THREE, CLUB,
    spec_suit_of, spec_rank_of, canonical_of, single_card, valid_hand,
    lemma_suit_of_valid, lemma_single_card_position, suit_of,
};

verus! {

/// The cards a player may legally play from `hand` when `lead` opened the
/// trick (`lead == 0`: the player leads). Leading broadcasts each held joker
/// into all four suit lanes; a joker-call lead forces jokers; otherwise suit
/// must be followed where possible, jokers always exempt.
pub open spec fn spec_available_cards(hand: Cards, lead: Cards) -> Cards {
    let jokers_in_hand = hand & JOKERS;
    if lead == 0 {
        hand | (jokers_in_hand * ALL_SUITS) as u64
    } else if lead == THREE << CLUB && jokers_in_hand != 0 {
        jokers_in_hand
    } else {
        let must_follow = hand & (SUIT_RANKS << spec_suit_of(lead));
        if must_follow != 0 {
            must_follow | jokers_in_hand
        } else {
            hand
        }
    }
}

pub fn available_cards(hand: Cards, lead: Cards) -> (choice: Cards)
    ensures
        choice == spec_available_cards(hand, lead),
{
    let jokers_in_hand = hand & JOKERS;
    if lead == 0 {
        proof {
            crate::cards::lemma_card_constants();
            assert((hand & 0xE000u64) & !0xE000u64 == 0) by (bit_vector);
            lemma_joker_broadcast(jokers_in_hand);
        }
        hand | jokers_in_hand * ALL_SUITS
    } else if lead == THREE << CLUB && jokers_in_hand != 0 {
        jokers_in_hand
    } else {
        proof {
            lemma_suit_of_valid(lead);
        }
        let must_follow = hand & SUIT_RANKS << suit_of(lead);
        if must_follow != 0 {
            must_follow | jokers_in_hand
        } else {
            hand
        }
    }
}

/// Broadcasting the jokers of a hand into all four lanes stays within the
/// joker rank bits, and within `u64`.
pub proof fn lemma_joker_broadcast(j: u64)
    requires
        j & !0xE000u64 == 0,
    ensures
        j * ALL_SUITS == (j | j << 16u32 | j << 32u32 | j << 48u32),
        j * ALL_SUITS <= 0xE000E000E000E000u64,
{
    crate::cards::lemma_card_constants();
    assert(j * 0x0001000100010001u64 == (j | j << 16u32 | j << 32u32 | j << 48u32)
        && j * 0x0001000100010001u64 <= 0xE000E000E000E000u64) by (bit_vector)
        requires
            j & !0xE000u64 == 0,
    ;
}

/// A non-empty hand always has a legal move.
pub proof fn lemma_available_cards_nonempty(hand: Cards, lead: Cards)
    requires
        hand != 0,
    ensures
        spec_available_cards(hand, lead) != 0,
{
    let j = hand & JOKERS;
    if lead == 0 {
        let b = (j * ALL_SUITS) as u64;
        assert(hand | b != 0) by (bit_vector)
            requires
                hand != 0,
        ;
    } else if lead == THREE << CLUB && j != 0 {
    } else {
        let must_follow = hand & (SUIT_RANKS << spec_suit_of(lead));
        if must_follow != 0 {
            assert(must_follow | j != 0) by (bit_vector)
                requires
                    must_follow != 0,
            ;
        }
    }
}

/// Every single-bit legal move collapses to a canonical card that the hand
/// really holds: a plain card is its own identity, a joker presentation
/// collapses to the spade-lane joker bit, and neither carries picture points
/// beyond those of the canonical card.
pub proof fn lemma_candidate_card(hand: Cards, lead: Cards, p: u64)
    requires
        valid_hand(hand),
        p < 64,
        spec_available_cards(hand, lead) & (1u64 << p) != 0,
    ensures
        single_card(canonical_of(1u64 << p)),
        canonical_of(1u64 << p) & hand == canonical_of(1u64 << p),
        valid_hand(canonical_of(1u64 << p)),
        canonical_of(1u64 << p) & ALL_PICTURES == (1u64 << p) & ALL_PICTURES,
{
    let c = 1u64 << p;
    let j = hand & JOKERS;
    let avail = spec_available_cards(hand, lead);
    crate::cards::lemma_card_constants();
    // Name the branch that produced the set, for the bit-level argument.
    let follows = lead != 0 && !(lead == THREE << CLUB && j != 0);
    let s = if follows { spec_suit_of(lead) } else { 0u32 };
    let must_follow = if follows { hand & (SUIT_RANKS << s) } else { 0u64 };
    if follows {
        lemma_suit_of_valid(lead);
    }
    assert(avail == (hand | (((hand & JOKERS) * ALL_SUITS) as u64)) || avail == j || avail == hand
        || (avail == (must_follow | j) && must_follow == hand & (SUIT_RANKS << s) && (s == 0
            || s == 16 || s == 32 || s == 48) && must_follow != 0));
    // The canonical bit of the candidate is held by the hand, in both the
    // plain-card and the joker case.
    assert(((1u64 << p) & ALL_JOKERS == 0 ==> (1u64 << p) & hand == (1u64 << p)) && ((1u64 << p)
        & ALL_JOKERS != 0 ==> (1u64 << (p & 15)) & hand == (1u64 << (p & 15)))) by (bit_vector)
        requires
            p < 64,
            hand & HIGH_JOKERS == 0,
            j == hand & JOKERS,
            avail == (hand | (((hand & JOKERS) * ALL_SUITS) as u64)) || avail == j || avail
                == hand || (avail == (must_follow | j) && must_follow == hand & (SUIT_RANKS << s)
                && (s == 0 || s == 16 || s == 32 || s == 48) && must_follow != 0),
            avail & (1u64 << p) != 0,
    ;
    lemma_canonical_form(p);
}

/// The canonical identity of any presented single card is a single canonical
/// card carrying the same picture points.
pub proof fn lemma_canonical_form(p: u64)
    requires
        p < 64,
    ensures
        single_card(canonical_of(1u64 << p)),
        valid_hand(canonical_of(1u64 << p)),
        canonical_of(1u64 << p) & ALL_PICTURES == (1u64 << p) & ALL_PICTURES,
        (1u64 << p) & ALL_JOKERS != 0 ==> canonical_of(1u64 << p) == 1u64 << (p & 15),
{
    let c = 1u64 << p;
    crate::cards::lemma_card_constants();
    if c & ALL_JOKERS == 0 {
        assert(canonical_of(c) == c);
        assert((1u64 << p) & HIGH_JOKERS == 0) by (bit_vector)
            requires
                p < 64 && (1u64 << p) & ALL_JOKERS == 0,
        ;
    } else {
        lemma_single_card_position(p);
        let t = vstd::std_specs::bits::u64_trailing_zeros(c);
        assert(spec_rank_of(c) == c >> (t & !15));
        assert((t & !15) == ((p as u32) & !15));
        assert(c >> ((p as u32) & !15) == 1u64 << (p & 15)) by (bit_vector)
            requires
                p < 64 && c == 1u64 << p,
        ;
        assert(p & 15 < 64 && (1u64 << (p & 15)) & HIGH_JOKERS == 0 && (1u64 << (p & 15))
            & ALL_PICTURES == 0 && (1u64 << p) & ALL_PICTURES == 0) by (bit_vector)
            requires
                p < 64 && (1u64 << p) & ALL_JOKERS != 0,
        ;
        assert(spec_rank_of(c) == 1u64 << (p & 15));
    }
}

} // verus!
