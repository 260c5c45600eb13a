//! Rendering cards and card sets as text.

use vstd::prelude::*;
use vstd::string::StringExecFns;
use crate::cards::{
    Cards, Suit, Rank, SPADE, HEART, DIAMOND, CLUB, TWO, THREE, FOUR, FIVE, SIX, SEVEN, EIGHT,
    NINE, TEN, JACK, QUEEN, KING, ACE, BLACK_JOKER, RED_JOKER, EXTRA_JOKER, spec_suit_of,
    spec_rank_of, suit_of, rank_of, lemma_low_bit,
};

verus! {

pub open spec fn spec_suit_name(suit: Suit) -> Seq<char> {
    if suit == SPADE {
        "♠"@
    } else if suit == HEART {
        "♥"@
    } else if suit == DIAMOND {
        "♦"@
    } else if suit == CLUB {
        "♣"@
    } else {
        ""@
    }
}

pub open spec fn spec_rank_name(rank: Rank) -> Seq<char> {
    if rank == TWO {
        "2"@
    } else if rank == THREE {
        "3"@
    } else if rank == FOUR {
        "4"@
    } else if rank == FIVE {
        "5"@
    } else if rank == SIX {
        "6"@
    } else if rank == SEVEN {
        "7"@
    } else if rank == EIGHT {
        "8"@
    } else if rank == NINE {
        "9"@
    } else if rank == TEN {
        "10"@
    } else if rank == JACK {
        "J"@
    } else if rank == QUEEN {
        "Q"@
    } else if rank == KING {
        "K"@
    } else if rank == ACE {
        "A"@
    } else if rank == BLACK_JOKER {
        "黒ジョーカー"@
    } else if rank == RED_JOKER {
        "赤ジョーカー"@
    } else if rank == EXTRA_JOKER {
        "エクストラ"@
    } else {
        ""@
    }
}

/// A card's display text: its suit mark followed by its rank name.
pub open spec fn spec_card_string(card: Cards) -> Seq<char> {
    spec_suit_name(spec_suit_of(card)) + spec_rank_name(spec_rank_of(card))
}

/// The display text of a whole card set, lowest card first, comma-separated.
pub open spec fn spec_cards_string(cards: Cards) -> Seq<char>
    decreases cards,
    via spec_cards_string_decreases
{
    if cards == 0 {
        Seq::<char>::empty()
    } else {
        let card = cards & !((cards - 1) as u64);
        let rest = cards ^ card;
        spec_card_string(card) + if rest == 0 {
            Seq::<char>::empty()
        } else {
            ","@ + spec_cards_string(rest)
        }
    }
}

#[via_fn]
proof fn spec_cards_string_decreases(cards: Cards) {
    if cards != 0 {
        crate::search::lemma_winning_in_decreases(cards);
    }
}

pub fn card_into_string(card: Cards) -> (text: String)
    requires
        card != 0,
    ensures
        text@ == spec_card_string(card),
{
    let suit = suit_of(card);
    let rank = rank_of(card);
    let suit_name: &str = if suit == SPADE {
        "♠"
    } else if suit == HEART {
        "♥"
    } else if suit == DIAMOND {
        "♦"
    } else if suit == CLUB {
        "♣"
    } else {
        ""
    };
    let rank_name: &str = if rank == TWO {
        "2"
    } else if rank == THREE {
        "3"
    } else if rank == FOUR {
        "4"
    } else if rank == FIVE {
        "5"
    } else if rank == SIX {
        "6"
    } else if rank == SEVEN {
        "7"
    } else if rank == EIGHT {
        "8"
    } else if rank == NINE {
        "9"
    } else if rank == TEN {
        "10"
    } else if rank == JACK {
        "J"
    } else if rank == QUEEN {
        "Q"
    } else if rank == KING {
        "K"
    } else if rank == ACE {
        "A"
    } else if rank == BLACK_JOKER {
        "黒ジョーカー"
    } else if rank == RED_JOKER {
        "赤ジョーカー"
    } else if rank == EXTRA_JOKER {
        "エクストラ"
    } else {
        ""
    };
    let mut text = suit_name.to_owned();
    text.append(rank_name);
    text
}

pub fn cards_into_string(cards: Cards) -> (text: String)
    ensures
        text@ == spec_cards_string(cards),
{
    let mut cards_string = String::new();
    let mut rest = cards;
    while rest != 0
        invariant
            spec_cards_string(cards) == cards_string@ + spec_cards_string(rest),
        decreases rest,
    {
        let card = rest & !(rest - 1);
        proof {
            lemma_low_bit(rest);
            crate::search::lemma_winning_in_decreases(rest);
            crate::cards::lemma_single_card_nonzero(card);
        }
        let ghost before = cards_string@;
        let ghost old_rest = rest;
        let piece = card_into_string(card);
        cards_string.append(piece.as_str());
        rest ^= card;
        if rest != 0 {
            cards_string.append(",");
        }
        proof {
            if rest == 0 {
                assert(spec_cards_string(old_rest) =~= spec_card_string(card));
                assert(cards_string@ =~= before + spec_cards_string(old_rest));
            } else {
                assert(spec_cards_string(old_rest) =~= spec_card_string(card) + (","@
                    + spec_cards_string(rest)));
                assert(cards_string@ =~= (before + spec_card_string(card)) + ","@);
                assert(cards_string@ + spec_cards_string(rest) =~= before + spec_cards_string(
                    old_rest));
            }
            assert(spec_cards_string(cards) =~= cards_string@ + spec_cards_string(rest));
        }
    }
    proof {
        assert(spec_cards_string(cards) =~= cards_string@ + spec_cards_string(0));
        assert(spec_cards_string(cards) =~= cards_string@);
    }
    cards_string
}

} // verus!
