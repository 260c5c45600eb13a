use napoleon::cards::{
    suit_of, rank_of, inverse, reversing_jacks, SPADE, HEART, DIAMOND, CLUB, TWO, THREE, FOUR,
    FIVE, SIX, SEVEN, EIGHT, NINE, TEN, JACK, QUEEN, KING, ACE, BLACK_JOKER, RED_JOKER,
    EXTRA_JOKER, ALL_SUITS,
};
use napoleon::moves::available_cards;
use napoleon::trick::{is_first_trick, trick_taker};
use napoleon::judge::{judge, Camp};
use napoleon::search::{solve, solve_last_trick};
use napoleon::counting::count_cards;

#[test]
fn test_suit_of() {
    assert_eq!(suit_of(ACE << SPADE), SPADE);
    assert_eq!(suit_of(QUEEN << HEART), HEART);
    assert_eq!(suit_of(NINE << DIAMOND), DIAMOND);
    assert_eq!(suit_of(THREE << CLUB), CLUB);
    assert_eq!(suit_of(BLACK_JOKER << HEART), HEART);
    assert_eq!(suit_of(RED_JOKER << DIAMOND), DIAMOND);
    assert_eq!(suit_of(EXTRA_JOKER << CLUB), CLUB);
}

#[test]
fn test_rank_of() {
    assert_eq!(rank_of(TWO << SPADE), TWO);
    assert_eq!(rank_of(TEN << HEART), TEN);
    assert_eq!(rank_of(KING << DIAMOND), KING);
    assert_eq!(rank_of(ACE << CLUB), ACE);
    assert_eq!(rank_of(BLACK_JOKER << HEART), BLACK_JOKER);
    assert_eq!(rank_of(RED_JOKER << DIAMOND), RED_JOKER);
    assert_eq!(rank_of(EXTRA_JOKER << CLUB), EXTRA_JOKER);
}

#[test]
fn test_inverse() {
    assert_eq!(inverse(SPADE), CLUB);
    assert_eq!(inverse(HEART), DIAMOND);
    assert_eq!(inverse(DIAMOND), HEART);
    assert_eq!(inverse(CLUB), SPADE);
}

#[test]
fn test_reverse_jacks() {
    assert_eq!(reversing_jacks(SPADE), JACK << HEART | JACK << DIAMOND);
    assert_eq!(reversing_jacks(HEART), JACK << SPADE | JACK << CLUB);
    assert_eq!(reversing_jacks(DIAMOND), JACK << SPADE | JACK << CLUB);
    assert_eq!(reversing_jacks(CLUB), JACK << HEART | JACK << DIAMOND);
}

#[test]
fn test_available_cards() {
    assert_eq!(
        available_cards(ACE << SPADE | QUEEN << HEART | THREE << CLUB, 0),
        ACE << SPADE | QUEEN << HEART | THREE << CLUB
    );
    assert_eq!(
        available_cards(ACE << SPADE | RED_JOKER | EXTRA_JOKER, 0),
        ACE << SPADE | (RED_JOKER | EXTRA_JOKER) * ALL_SUITS
    );
    assert_eq!(
        available_cards(ACE << SPADE | RED_JOKER | EXTRA_JOKER, THREE << CLUB),
        RED_JOKER | EXTRA_JOKER
    );
    assert_eq!(
        available_cards(ACE << SPADE | (JACK | ACE) << CLUB, THREE << CLUB),
        (JACK | ACE) << CLUB
    );
    assert_eq!(
        available_cards(ACE << SPADE | JACK << CLUB | BLACK_JOKER, KING << SPADE),
        ACE << SPADE | BLACK_JOKER
    );
    assert_eq!(
        available_cards(ACE << SPADE | JACK << CLUB | BLACK_JOKER, QUEEN << HEART),
        ACE << SPADE | JACK << CLUB | BLACK_JOKER
    );
}

#[test]
fn test_is_first_trick() {
    assert!(is_first_trick(45, 5));
    assert!(!is_first_trick(40, 5));
    assert!(!is_first_trick(0, 5));
    assert!(is_first_trick(44, 4));
    assert!(!is_first_trick(40, 4));
    assert!(!is_first_trick(0, 4));
}

#[test]
fn test_trick_taker() {
    assert_eq!(
        trick_taker(
            &vec![QUEEN << HEART, ACE << SPADE, EXTRA_JOKER, JACK << DIAMOND, ACE << CLUB],
            HEART,
            false
        ),
        4
    );
    assert_eq!(
        trick_taker(
            &vec![QUEEN << HEART, ACE << SPADE, EXTRA_JOKER, JACK << DIAMOND, ACE << CLUB],
            SPADE,
            false
        ),
        4
    );
    assert_eq!(
        trick_taker(&vec![ACE << SPADE, EXTRA_JOKER, JACK << DIAMOND, ACE << CLUB], CLUB, false),
        3
    );
    assert_eq!(
        trick_taker(&vec![ACE << SPADE, EXTRA_JOKER, JACK << DIAMOND, ACE << CLUB], SPADE, false),
        0
    );
    assert_eq!(
        trick_taker(&vec![ACE << CLUB, RED_JOKER, BLACK_JOKER, EXTRA_JOKER], DIAMOND, false),
        0
    );
    assert_eq!(
        trick_taker(&vec![JACK << HEART, RED_JOKER, BLACK_JOKER, JACK << DIAMOND], DIAMOND, false),
        2
    );
    assert_eq!(
        trick_taker(&vec![ACE << SPADE, JACK << DIAMOND, BLACK_JOKER, RED_JOKER], SPADE, false),
        1
    );
    assert_eq!(
        trick_taker(&vec![JACK << SPADE, JACK << CLUB, JACK << HEART, JACK << DIAMOND], SPADE,
            false),
        3
    );
    assert_eq!(
        trick_taker(&vec![ACE << SPADE, JACK << CLUB, JACK << HEART, JACK << DIAMOND], SPADE,
            false),
        2
    );
    assert_eq!(
        trick_taker(
            &vec![KING << SPADE, JACK << DIAMOND, ACE << HEART, ACE << SPADE, JACK << HEART],
            SPADE,
            false
        ),
        1
    );
    assert_eq!(
        trick_taker(
            &vec![QUEEN << HEART, TEN << HEART, ACE << HEART, TWO << HEART, THREE << HEART],
            HEART,
            false
        ),
        1
    );
    assert_eq!(
        trick_taker(
            &vec![QUEEN << HEART, TEN << HEART, ACE << HEART, TWO << HEART, THREE << HEART],
            HEART,
            true
        ),
        2
    );
    assert_eq!(
        trick_taker(&vec![TEN << SPADE, KING << CLUB, ACE << HEART, QUEEN << CLUB], DIAMOND,
            false),
        2
    );
}

#[test]
fn test_judge() {
    assert_eq!(judge(20, 19, 1), Camp::ALLIED);
    assert_eq!(judge(19, 20, 0), Camp::ALLIED);
    assert_eq!(judge(17, 17, 1), Camp::NAPOLEONIC);
    assert_eq!(judge(20, 20, 0), Camp::NAPOLEONIC);
    assert_eq!(judge(18, 17, 2), Camp::UNSETTLED);
}

#[test]
fn test_solve() {
    assert_eq!(
        solve(
            &mut vec![
                NINE << DIAMOND | (SIX | SEVEN | NINE | TEN) << CLUB | EXTRA_JOKER,
                JACK << SPADE | (FIVE | QUEEN) << HEART | (TEN | QUEEN) << DIAMOND | RED_JOKER,
                (THREE | SIX | ACE) << HEART | FOUR << DIAMOND | (THREE | KING) << CLUB,
                (FIVE | EIGHT | NINE | ACE) << SPADE | (JACK | ACE) << DIAMOND,
            ],
            0,
            3,
            0,
            1,
            &mut vec![0; 24],
            24,
            CLUB,
            17,
            10,
            0
        )
        .camp,
        Camp::NAPOLEONIC
    );
}

#[test]
fn test_suit_rank_round_trip() {
    for &card in &[TWO << SPADE, QUEEN << HEART, TEN << DIAMOND, ACE << CLUB, BLACK_JOKER,
        EXTRA_JOKER << HEART] {
        assert_eq!(rank_of(card) << suit_of(card), card);
    }
}

#[test]
fn test_available_cards_nonempty() {
    let hands = [TWO << SPADE, QUEEN << HEART | BLACK_JOKER, ACE << CLUB];
    let leads = [0, THREE << CLUB, KING << SPADE, QUEEN << HEART];
    for &hand in &hands {
        for &lead in &leads {
            assert_ne!(available_cards(hand, lead), 0);
        }
    }
}

#[test]
fn test_trick_taker_pure_and_in_range() {
    let trick = vec![TEN << SPADE, KING << CLUB, ACE << HEART, QUEEN << CLUB];
    let first = trick_taker(&trick, DIAMOND, false);
    let second = trick_taker(&trick, DIAMOND, false);
    assert_eq!(first, second);
    assert!(first < trick.len());
}

#[test]
fn test_judge_monotonic_samples() {
    // more defender points never revoke a declaring win while the totals fit
    assert_eq!(judge(17, 17, 1), Camp::NAPOLEONIC);
    assert_eq!(judge(17, 17, 2), Camp::NAPOLEONIC);
    assert_eq!(judge(17, 17, 3), Camp::NAPOLEONIC);
    // more declarer points never turn a defending win into a declaring one
    assert_eq!(judge(19, 18, 2), Camp::ALLIED);
    assert_eq!(judge(19, 17, 2), Camp::ALLIED);
}

#[test]
fn test_solve_counters_and_variation() {
    let outcome = solve(
        &mut vec![
            NINE << DIAMOND | (SIX | SEVEN | NINE | TEN) << CLUB | EXTRA_JOKER,
            JACK << SPADE | (FIVE | QUEEN) << HEART | (TEN | QUEEN) << DIAMOND | RED_JOKER,
            (THREE | SIX | ACE) << HEART | FOUR << DIAMOND | (THREE | KING) << CLUB,
            (FIVE | EIGHT | NINE | ACE) << SPADE | (JACK | ACE) << DIAMOND,
        ],
        0,
        3,
        0,
        1,
        &mut vec![0; 24],
        24,
        CLUB,
        17,
        10,
        0,
    );
    assert!(outcome.n_leaves >= 1);
    assert!(outcome.bound >= 1);
    assert!(outcome.variation.len() <= 24);
}

#[test]
fn test_solve_last_trick_exact() {
    let hands = vec![ACE << SPADE, KING << SPADE, QUEEN << SPADE, TEN << SPADE];
    let outcome = solve_last_trick(&hands, 0, 2, 0, 1, HEART, 10, 15, 5);
    assert_eq!(outcome.camp, Camp::NAPOLEONIC);
    assert_eq!(outcome.n_leaves, 1);
    assert_eq!(outcome.bound, 1);
    assert_eq!(outcome.variation, vec![TEN << SPADE, QUEEN << SPADE, KING << SPADE, ACE << SPADE]);
}

#[test]
fn test_count_cards_values() {
    assert_eq!(count_cards(0), 0);
    assert_eq!(count_cards(ACE << SPADE), 1);
    assert_eq!(count_cards((TWO | THREE | FOUR) << HEART | BLACK_JOKER), 4);
}

#[test]
fn test_opposite_party() {
    assert_eq!(Camp::opposite_party(Camp::NAPOLEONIC), Camp::ALLIED);
    assert_eq!(Camp::opposite_party(Camp::ALLIED), Camp::NAPOLEONIC);
    assert_eq!(Camp::opposite_party(Camp::UNSETTLED), Camp::UNSETTLED);
}

#[test]
fn test_move_and_solve_empty_replay() {
    let hands = vec![
        NINE << DIAMOND | (SIX | SEVEN | NINE | TEN) << CLUB | EXTRA_JOKER,
        JACK << SPADE | (FIVE | QUEEN) << HEART | (TEN | QUEEN) << DIAMOND | RED_JOKER,
        (THREE | SIX | ACE) << HEART | FOUR << DIAMOND | (THREE | KING) << CLUB,
        (FIVE | EIGHT | NINE | ACE) << SPADE | (JACK | ACE) << DIAMOND,
    ];
    let outcome = napoleon::search::move_and_solve(&hands, 0, 3, 0, 1, &mut vec![0; 24], 24,
        CLUB, 17, 10, 0, &vec![]);
    assert_eq!(outcome.unwrap().camp, Camp::NAPOLEONIC);
}

#[test]
fn test_move_and_solve_invalid_move() {
    let hands = vec![
        NINE << DIAMOND | (SIX | SEVEN | NINE | TEN) << CLUB | EXTRA_JOKER,
        JACK << SPADE | (FIVE | QUEEN) << HEART | (TEN | QUEEN) << DIAMOND | RED_JOKER,
        (THREE | SIX | ACE) << HEART | FOUR << DIAMOND | (THREE | KING) << CLUB,
        (FIVE | EIGHT | NINE | ACE) << SPADE | (JACK | ACE) << DIAMOND,
    ];
    // the first mover does not hold the ace of spades
    let outcome = napoleon::search::move_and_solve(&hands, 0, 3, 0, 1, &mut vec![0; 24], 24,
        CLUB, 17, 10, 0, &vec![ACE << SPADE]);
    assert!(outcome.is_none());
}

#[test]
fn test_card_into_string() {
    assert_eq!(napoleon::display::card_into_string(ACE << SPADE), "♠A");
    assert_eq!(napoleon::display::card_into_string(QUEEN << HEART), "♥Q");
    assert_eq!(napoleon::display::card_into_string(EXTRA_JOKER), "♠エクストラ");
}

#[test]
fn test_cards_into_string() {
    assert_eq!(napoleon::display::cards_into_string(0), "");
    assert_eq!(napoleon::display::cards_into_string(ACE << SPADE | QUEEN << HEART), "♠A,♥Q");
}

#[test]
fn test_camp_to_string() {
    assert_eq!(Camp::NAPOLEONIC.to_string(), "ナポレオン");
    assert_eq!(Camp::ALLIED.to_string(), "平民");
    assert_eq!(Camp::UNSETTLED.to_string(), "");
}

#[test]
fn test_solve_settled_boundary_diagnostics() {
    // the completed trick in the buffer hands the defenders four points,
    // settling a 17 contract at once: verdict with unit diagnostics
    let outcome = solve(
        &mut vec![TWO << SPADE, THREE << SPADE, TWO << HEART, THREE << HEART],
        0,
        3,
        0,
        1,
        &mut vec![0, 0, 0, 0, ACE << DIAMOND, KING << CLUB, QUEEN << DIAMOND, TEN << CLUB],
        4,
        CLUB,
        17,
        10,
        0,
    );
    assert_eq!(outcome.camp, Camp::ALLIED);
    assert_eq!(outcome.variation.len(), 0);
    assert_eq!(outcome.n_leaves, 1);
    assert_eq!(outcome.bound, 1);
}

#[test]
fn test_move_and_solve_settled_replay() {
    // the replayed first trick goes to a defender with four picture points,
    // settling the 17 contract: the search engine is never reached
    let hands = vec![
        NINE << DIAMOND | (SIX | SEVEN | NINE | TEN) << CLUB | EXTRA_JOKER,
        JACK << SPADE | (FIVE | QUEEN) << HEART | (TEN | QUEEN) << DIAMOND | RED_JOKER,
        (THREE | SIX | ACE) << HEART | FOUR << DIAMOND | (THREE | KING) << CLUB,
        (FIVE | EIGHT | NINE | ACE) << SPADE | (JACK | ACE) << DIAMOND,
    ];
    let outcome = napoleon::search::move_and_solve(&hands, 0, 3, 0, 1, &mut vec![0; 24], 24,
        CLUB, 17, 10, 0, &vec![TEN << CLUB, QUEEN << DIAMOND, KING << CLUB, ACE << DIAMOND]);
    let outcome = outcome.unwrap();
    assert_eq!(outcome.camp, Camp::ALLIED);
    assert_eq!(outcome.variation.len(), 0);
    assert_eq!(outcome.n_leaves, 1);
    assert_eq!(outcome.bound, 1);
}

#[test]
fn test_solve_last_trick_variation_shape() {
    // a two-trick position: the returned line is leaf-to-root, one play per
    // ply, its last element the move made at the root
    let outcome = solve(
        &mut vec![TWO << SPADE | THREE << SPADE, FOUR << SPADE | FIVE << SPADE,
            TWO << HEART | THREE << HEART, FOUR << HEART | FIVE << HEART],
        0,
        3,
        0,
        1,
        &mut vec![0; 8],
        8,
        CLUB,
        17,
        10,
        0,
    );
    assert!(outcome.variation.len() <= 8);
    assert!(outcome.n_leaves >= 1 && outcome.bound >= 1);
    if outcome.variation.len() > 0 {
        let root_move = *outcome.variation.last().unwrap();
        // the root mover (player 0) held the returned root move
        assert_ne!((TWO << SPADE | THREE << SPADE) & root_move, 0);
    }
}
