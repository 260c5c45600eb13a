//! An exact solver for a four-player trick-taking card game: given the
//! remaining deal, it decides whether the declaring coalition can force its
//! point contract against perfect defense, or the defenders can force failure.

pub mod cards;
pub mod counting;
pub mod moves;
pub mod trick;
pub mod judge;
pub mod search;
pub mod display;

pub use cards::{
    Suit, Rank, Cards, CardIndex, PlayerIndex, Declaration,
    N_CARDS, SPADE, HEART, DIAMOND, CLUB,
    TWO, THREE, FOUR, FIVE, SIX, SEVEN, EIGHT, NINE, TEN, JACK, QUEEN, KING, ACE,
    BLACK_JOKER, RED_JOKER, EXTRA_JOKER,
    PLAINS, PICTURES, JOKERS, ALL_SUITS,
    suit_of, rank_of, inverse, reversing_jacks,
};
